//! The alias statement codec.
//!
//! A definition reads `alias <name>=<q><body><q>` where the keyword and the
//! whitespace after it are optional, `<name>` is a run of word characters
//! (Unicode word characters, as `\w` reads them), `<q>` is `"` or `'`, and
//! every `<q>` inside the body is escaped by a backslash. Definitions are
//! always written back in the double-quoted form.
use vstd::prelude::*;
use crate::text::{chars_of, string_of, push_all, push_str};

verus! {

/// Whether `regex_syntax` counts a character as a Unicode word character.
pub uninterp spec fn unicode_word_of(c: char) -> bool;

/// Relies on `regex_syntax::is_word_character`: whether a character is a
/// Unicode word character (UTS#18 Annex C), the class `\w` stands for. With
/// the crate's default features, which include `unicode-perl`, it does not
/// panic.
#[verifier::external_body]
fn unicode_word(c: char) -> (r: bool)
    ensures
        r == unicode_word_of(c),
{
    regex_syntax::is_word_character(c)
}

pub open spec fn is_ascii_word_char(c: char) -> bool {
    ('a' <= c && c <= 'z') || ('A' <= c && c <= 'Z') || ('0' <= c && c <= '9') || c == '_'
}

/// A word character, as `\w` reads it: within ASCII exactly `[0-9A-Za-z_]`,
/// beyond it a Unicode word character (none of which is whitespace).
pub open spec fn is_word_char(c: char) -> bool {
    if c <= '\u{7f}' {
        is_ascii_word_char(c)
    } else {
        !is_blank(c) && unicode_word_of(c)
    }
}

pub open spec fn is_quote(c: char) -> bool {
    c == '"' || c == '\''
}

/// A whitespace character, as `\s` reads it: the Unicode `White_Space`
/// property.
pub open spec fn is_blank(c: char) -> bool {
    ('\u{9}' <= c && c <= '\u{d}') || c == ' ' || c == '\u{85}' || c == '\u{a0}' || c
        == '\u{1680}' || ('\u{2000}' <= c && c <= '\u{200a}') || c == '\u{2028}' || c
        == '\u{2029}' || c == '\u{202f}' || c == '\u{205f}' || c == '\u{3000}'
}

/// A name that can stand in a definition.
pub open spec fn is_alias_name(s: Seq<char>) -> bool {
    s.len() > 0 && forall|i: int| 0 <= i < s.len() ==> is_word_char(#[trigger] s[i])
}

/// `command` with every double quote preceded by a backslash.
pub open spec fn escape(command: Seq<char>) -> Seq<char>
    decreases command.len(),
{
    if command.len() == 0 {
        Seq::empty()
    } else {
        let head = if command[0] == '"' { seq!['\\', '"'] } else { seq![command[0]] };
        head + escape(command.skip(1))
    }
}

/// `body` with each backslash-escaped quote `q` replaced by `q` alone.
pub open spec fn unescape(body: Seq<char>, q: char) -> Seq<char>
    decreases body.len(),
{
    if body.len() == 0 {
        Seq::empty()
    } else if body.len() >= 2 && body[0] == '\\' && body[1] == q {
        seq![q] + unescape(body.skip(2), q)
    } else {
        seq![body[0]] + unescape(body.skip(1), q)
    }
}

/// No line break in the text.
pub open spec fn one_line(s: Seq<char>) -> bool {
    forall|i: int| 0 <= i < s.len() ==> #[trigger] s[i] != '\n'
}

/// The canonical line for an alias.
pub open spec fn definition_line(name: Seq<char>, command: Seq<char>) -> Seq<char> {
    seq!['a', 'l', 'i', 'a', 's', ' '] + name + seq!['=', '"'] + escape(command) + seq!['"', '\n']
}

/// `s` without its leading whitespace.
pub open spec fn skip_blanks(s: Seq<char>) -> Seq<char>
    decreases s.len(),
{
    if s.len() > 0 && is_blank(s[0]) {
        skip_blanks(s.skip(1))
    } else {
        s
    }
}

/// `s` without a leading `alias` keyword and the whitespace after it.
pub open spec fn without_keyword(s: Seq<char>) -> Seq<char> {
    if s.len() > 5 && s.take(5) == seq!['a', 'l', 'i', 'a', 's'] && is_blank(s[5]) {
        skip_blanks(s.skip(5))
    } else {
        s
    }
}

/// The number of word characters at the start of `s`.
pub open spec fn word_len(s: Seq<char>) -> nat
    decreases s.len(),
{
    if s.len() > 0 && is_word_char(s[0]) {
        1 + word_len(s.skip(1))
    } else {
        0
    }
}

/// `s` without one final line break.
pub open spec fn without_line_break(s: Seq<char>) -> Seq<char> {
    if s.len() > 0 && s.last() == '\n' {
        s.drop_last()
    } else {
        s
    }
}

/// Every `q` in the body is escaped, and the body stays on one line.
pub open spec fn body_ok(body: Seq<char>, q: char) -> bool {
    forall|i: int|
        0 <= i < body.len() ==> #[trigger] body[i] != '\n' && (body[i] == q ==> i > 0 && body[i
            - 1] == '\\')
}

/// The quoted value after the `=` of a definition.
pub open spec fn value_part(s: Seq<char>) -> Seq<char> {
    let rest = without_keyword(s);
    without_line_break(rest.skip(word_len(rest) + 1int))
}

/// `s` is one whole definition, optionally ended by a line break.
pub open spec fn is_definition(s: Seq<char>) -> bool {
    let rest = without_keyword(s);
    let n = word_len(rest);
    let value = value_part(s);
    &&& n > 0
    &&& n < rest.len()
    &&& rest[n as int] == '='
    &&& value.len() >= 2
    &&& is_quote(value[0])
    &&& value.last() == value[0]
    &&& body_ok(value.subrange(1, value.len() - 1), value[0])
}

/// The whole text is one definition: no more, and no line break after it.
pub open spec fn is_whole_definition(s: Seq<char>) -> bool {
    is_definition(s) && without_line_break(s) == s
}

/// The name and the unescaped command of a whole definition.
pub open spec fn parse_definition(s: Seq<char>) -> Option<(Seq<char>, Seq<char>)> {
    if is_definition(s) {
        let rest = without_keyword(s);
        let value = value_part(s);
        Some(
            (
                rest.take(word_len(rest) as int),
                unescape(value.subrange(1, value.len() - 1), value[0]),
            ),
        )
    } else {
        None
    }
}

pub proof fn lemma_word_len_append(w: Seq<char>, t: Seq<char>)
    requires
        forall|i: int| 0 <= i < w.len() ==> is_word_char(#[trigger] w[i]),
    ensures
        word_len(w + t) == w.len() + word_len(t),
    decreases w.len(),
{
    if w.len() == 0 {
        assert(w + t =~= t);
    } else {
        assert((w + t).skip(1) =~= w.skip(1) + t);
        assert(forall|i: int| 0 <= i < w.skip(1).len() ==> w.skip(1)[i] == w[i + 1]);
        lemma_word_len_append(w.skip(1), t);
    }
}

proof fn lemma_escape_head(c: Seq<char>)
    ensures
        escape(c).len() >= c.len(),
        escape(c).len() > 0 ==> escape(c)[0] != '"',
    decreases c.len(),
{
    if c.len() > 0 {
        lemma_escape_head(c.skip(1));
    }
}

proof fn lemma_escape_one_line(c: Seq<char>)
    requires
        forall|i: int| 0 <= i < c.len() ==> #[trigger] c[i] != '\n',
    ensures
        body_ok(escape(c), '"'),
    decreases c.len(),
{
    if c.len() > 0 {
        let rest = c.skip(1);
        assert(forall|i: int| 0 <= i < rest.len() ==> rest[i] == c[i + 1]);
        lemma_escape_one_line(rest);
        lemma_escape_head(rest);
        let head = if c[0] == '"' { seq!['\\', '"'] } else { seq![c[0]] };
        let e = escape(rest);
        assert(escape(c) == head + e);
        let all = head + e;
        assert forall|i: int| 0 <= i < all.len() implies #[trigger] all[i] != '\n' && (all[i]
            == '"' ==> i > 0 && all[i - 1] == '\\') by {
            if i >= head.len() {
                let j = i - head.len();
                assert(all[i] == e[j]);
                assert(e[j] != '\n');
                if all[i] == '"' {
                    assert(j > 0);
                    assert(all[i - 1] == e[j - 1]);
                }
            }
        }
    }
}

proof fn lemma_unescape_escape(c: Seq<char>)
    ensures
        unescape(escape(c), '"') == c,
    decreases c.len(),
{
    if c.len() == 0 {
        assert(escape(c) =~= Seq::<char>::empty());
    } else {
        let rest = c.skip(1);
        let e = escape(rest);
        lemma_unescape_escape(rest);
        lemma_escape_head(rest);
        if c[0] == '"' {
            let all = seq!['\\', '"'] + e;
            assert(escape(c) == all);
            assert(all.skip(2) =~= e);
            assert(unescape(all, '"') == seq!['"'] + unescape(e, '"'));
        } else {
            let all = seq![c[0]] + e;
            assert(escape(c) == all);
            assert(all.skip(1) =~= e);
            if c[0] == '\\' && all.len() >= 2 {
                assert(all[1] == e[0]);
            }
            assert(unescape(all, '"') == seq![c[0]] + unescape(e, '"'));
        }
        assert(seq![c[0]] + rest =~= c);
    }
}

proof fn lemma_word_prefix(s: Seq<char>)
    ensures
        word_len(s) <= s.len(),
        forall|i: int| 0 <= i < word_len(s) ==> is_word_char(#[trigger] s[i]),
    decreases s.len(),
{
    if s.len() > 0 && is_word_char(s[0]) {
        lemma_word_prefix(s.skip(1));
        assert forall|i: int| 0 <= i < word_len(s) implies is_word_char(#[trigger] s[i]) by {
            if i > 0 {
                assert(s[i] == s.skip(1)[i - 1]);
            }
        }
    }
}

/// The name that a definition gives is a valid alias name.
pub proof fn lemma_parsed_name_valid(s: Seq<char>)
    requires
        is_definition(s),
    ensures
        is_alias_name((parse_definition(s)->0).0),
{
    let rest = without_keyword(s);
    lemma_word_prefix(rest);
    let name = rest.take(word_len(rest) as int);
    assert forall|i: int| 0 <= i < name.len() implies is_word_char(#[trigger] name[i]) by {
        assert(name[i] == rest[i]);
    }
}

/// The canonical line of an alias, without its line break, is one line that
/// starts with the keyword and reads back as the same name and command.
pub proof fn lemma_round_trip_unterminated(name: Seq<char>, command: Seq<char>)
    requires
        is_alias_name(name),
        one_line(command),
    ensures
        definition_line(name, command).drop_last().len() > 0,
        definition_line(name, command).drop_last()[0] == 'a',
        one_line(definition_line(name, command).drop_last()),
        is_definition(definition_line(name, command).drop_last()),
        parse_definition(definition_line(name, command).drop_last()) == Some((name, command)),
{
    let line = definition_line(name, command).drop_last();
    let e = escape(command);
    let tail = seq!['=', '"'] + e + seq!['"'];
    let rest = name + tail;
    assert(line =~= seq!['a', 'l', 'i', 'a', 's', ' '] + rest);
    assert(line.take(5) =~= seq!['a', 'l', 'i', 'a', 's']);
    assert(line.skip(5) =~= seq![' '] + rest);
    assert((seq![' '] + rest).skip(1) =~= rest);
    assert(rest[0] == name[0]);
    assert(skip_blanks(rest) == rest);
    assert(skip_blanks(line.skip(5)) == skip_blanks(rest));
    assert(without_keyword(line) == rest);
    lemma_word_len_append(name, tail);
    assert(word_len(tail) == 0);
    assert(word_len(rest) == name.len());
    assert(rest[name.len() as int] == '=');
    let value = seq!['"'] + e + seq!['"'];
    assert(rest.skip(name.len() + 1int) =~= value);
    assert(value_part(line) == value);
    assert(value.subrange(1, value.len() - 1) =~= e);
    lemma_escape_one_line(command);
    lemma_unescape_escape(command);
    assert(rest.take(name.len() as int) =~= name);
    assert forall|i: int| 0 <= i < line.len() implies #[trigger] line[i] != '\n' by {
        if 6 <= i < 6 + name.len() {
            assert(line[i] == name[i - 6]);
            assert(is_word_char(name[i - 6]));
        } else if 6 + name.len() + 2 <= i < 6 + name.len() + 2 + e.len() {
            assert(line[i] == e[i - 6 - name.len() - 2]);
        }
    }
}

/// Round trip of the codec: the canonical line of an alias reads back as the
/// same name and command, for every valid name and every one-line command.
pub proof fn lemma_round_trip(name: Seq<char>, command: Seq<char>)
    requires
        is_alias_name(name),
        forall|i: int| 0 <= i < command.len() ==> #[trigger] command[i] != '\n',
    ensures
        parse_definition(definition_line(name, command)) == Some((name, command)),
{
    let line = definition_line(name, command);
    let e = escape(command);
    let tail = seq!['=', '"'] + e + seq!['"', '\n'];
    let rest = name + tail;
    assert(line =~= seq!['a', 'l', 'i', 'a', 's', ' '] + rest);
    assert(line.take(5) =~= seq!['a', 'l', 'i', 'a', 's']);
    assert(line.skip(5) =~= seq![' '] + rest);
    assert((seq![' '] + rest).skip(1) =~= rest);
    assert(rest[0] == name[0]);
    assert(skip_blanks(rest) == rest);
    assert(skip_blanks(line.skip(5)) == skip_blanks(rest));
    assert(without_keyword(line) == rest);
    lemma_word_len_append(name, tail);
    assert(word_len(tail) == 0);
    assert(word_len(rest) == name.len());
    assert(rest[name.len() as int] == '=');
    assert(rest.skip(name.len() + 1int) =~= seq!['"'] + e + seq!['"', '\n']);
    let value = seq!['"'] + e + seq!['"'];
    assert((seq!['"'] + e + seq!['"', '\n']).drop_last() =~= value);
    assert(value_part(line) == value);
    assert(value.subrange(1, value.len() - 1) =~= e);
    lemma_escape_one_line(command);
    lemma_unescape_escape(command);
    assert(rest.take(name.len() as int) =~= name);
}

pub fn is_word(c: char) -> (r: bool)
    ensures
        r == is_word_char(c),
{
    if c <= '\u{7f}' {
        ('a' <= c && c <= 'z') || ('A' <= c && c <= 'Z') || ('0' <= c && c <= '9') || c == '_'
    } else {
        !is_blank_char(c) && unicode_word(c)
    }
}

/// Whether the characters stay on one line.
pub fn one_line_chars(s: &Vec<char>) -> (r: bool)
    ensures
        r == one_line(s@),
{
    let mut i: usize = 0;
    while i < s.len()
        invariant
            i <= s@.len(),
            forall|j: int| 0 <= j < i ==> s@[j] != '\n',
        decreases s@.len() - i,
    {
        if s[i] == '\n' {
            return false;
        }
        i = i + 1;
    }
    true
}

/// The escaped form of a command, for a double-quoted definition.
pub fn escape_quotes(command: &Vec<char>) -> (r: Vec<char>)
    ensures
        r@ == escape(command@),
{
    let mut out: Vec<char> = Vec::new();
    let mut i: usize = 0;
    assert(command@.skip(0) =~= command@);
    assert(out@ + escape(command@) =~= escape(command@));
    while i < command.len()
        invariant
            i <= command@.len(),
            escape(command@) == out@ + escape(command@.skip(i as int)),
        decreases command@.len() - i,
    {
        let c = command[i];
        assert(command@.skip(i as int).skip(1) =~= command@.skip(i + 1));
        if c == '"' {
            out.push('\\');
            out.push('"');
        } else {
            out.push(c);
        }
        i = i + 1;
        proof {
            let ghost rest = command@.skip(i - 1);
            assert(rest[0] == c);
        }
        assert(escape(command@) =~= out@ + escape(command@.skip(i as int)));
    }
    assert(command@.skip(i as int) =~= Seq::<char>::empty());
    assert(out@ + escape(command@.skip(i as int)) =~= out@);
    out
}

/// The canonical definition line of an alias: `alias <name>="<command>"`
/// followed by a line break, with the double quotes of the command escaped.
pub fn serialize_alias(name: &str, command: &str) -> (r: String)
    ensures
        r@ == definition_line(name@, command@),
{
    let mut out: Vec<char> = Vec::new();
    out.push('a');
    out.push('l');
    out.push('i');
    out.push('a');
    out.push('s');
    out.push(' ');
    push_str(&mut out, name);
    out.push('=');
    out.push('"');
    let cs = chars_of(command);
    let esc = escape_quotes(&cs);
    push_all(&mut out, &esc);
    out.push('"');
    out.push('\n');
    assert(out@ =~= definition_line(name@, command@));
    string_of(&out)
}

pub fn is_blank_char(c: char) -> (r: bool)
    ensures
        r == is_blank(c),
{
    ('\u{9}' <= c && c <= '\u{d}') || c == ' ' || c == '\u{85}' || c == '\u{a0}' || c
        == '\u{1680}' || ('\u{2000}' <= c && c <= '\u{200a}') || c == '\u{2028}' || c
        == '\u{2029}' || c == '\u{202f}' || c == '\u{205f}' || c == '\u{3000}'
}

/// The command held by an escaped body: each `\q` becomes `q`.
pub fn unescape_quotes(body: &Vec<char>, q: char) -> (r: Vec<char>)
    ensures
        r@ == unescape(body@, q),
{
    let mut out: Vec<char> = Vec::new();
    let mut i: usize = 0;
    assert(body@.skip(0) =~= body@);
    assert(out@ + unescape(body@, q) =~= unescape(body@, q));
    while i < body.len()
        invariant
            i <= body@.len(),
            unescape(body@, q) == out@ + unescape(body@.skip(i as int), q),
        decreases body@.len() - i,
    {
        let ghost rest = body@.skip(i as int);
        if i + 1 < body.len() && body[i] == '\\' && body[i + 1] == q {
            out.push(q);
            assert(rest.skip(2) =~= body@.skip(i + 2));
            i = i + 2;
        } else {
            out.push(body[i]);
            assert(rest.skip(1) =~= body@.skip(i + 1));
            i = i + 1;
        }
        assert(unescape(body@, q) =~= out@ + unescape(body@.skip(i as int), q));
    }
    assert(body@.skip(i as int) =~= Seq::<char>::empty());
    assert(out@ + unescape(body@.skip(i as int), q) =~= out@);
    out
}

/// Where the name starts: after a leading `alias` keyword and its whitespace.
fn name_start(s: &Vec<char>) -> (r: usize)
    ensures
        r <= s@.len(),
        s@.skip(r as int) == without_keyword(s@),
{
    let n = s.len();
    if n > 5 && s[0] == 'a' && s[1] == 'l' && s[2] == 'i' && s[3] == 'a' && s[4] == 's'
        && is_blank_char(s[5]) {
        assert(s@.take(5) =~= seq!['a', 'l', 'i', 'a', 's']);
        let mut i: usize = 5;
        while i < n && is_blank_char(s[i])
            invariant
                5 <= i <= n,
                n == s@.len(),
                skip_blanks(s@.skip(5)) == skip_blanks(s@.skip(i as int)),
            decreases n - i,
        {
            assert(s@.skip(i as int).skip(1) =~= s@.skip(i + 1));
            i = i + 1;
        }
        i
    } else {
        if n > 5 {
            assert(s@.take(5) != seq!['a', 'l', 'i', 'a', 's'] || !is_blank(s@[5])) by {
                if s@.take(5) == seq!['a', 'l', 'i', 'a', 's'] {
                    assert(s@.take(5)[0] == s@[0]);
                    assert(s@.take(5)[1] == s@[1]);
                    assert(s@.take(5)[2] == s@[2]);
                    assert(s@.take(5)[3] == s@[3]);
                    assert(s@.take(5)[4] == s@[4]);
                }
            }
        }
        assert(s@.skip(0) =~= s@);
        0
    }
}

/// Where the run of word characters starting at `from` ends.
fn word_end(s: &Vec<char>, from: usize) -> (r: usize)
    requires
        from <= s@.len(),
    ensures
        from <= r <= s@.len(),
        r - from == word_len(s@.skip(from as int)),
        forall|i: int| from <= i < r ==> is_word_char(#[trigger] s@[i]),
{
    let mut j: usize = from;
    while j < s.len() && is_word(s[j])
        invariant
            from <= j <= s@.len(),
            word_len(s@.skip(from as int)) == (j - from) + word_len(s@.skip(j as int)),
            forall|i: int| from <= i < j ==> is_word_char(#[trigger] s@[i]),
        decreases s@.len() - j,
    {
        assert(s@.skip(j as int).skip(1) =~= s@.skip(j + 1));
        j = j + 1;
    }
    j
}

fn body_is_escaped(s: &Vec<char>, from: usize, to: usize, q: char) -> (r: bool)
    requires
        from <= to <= s@.len(),
    ensures
        r == body_ok(s@.subrange(from as int, to as int), q),
{
    let ghost body = s@.subrange(from as int, to as int);
    let mut i: usize = from;
    while i < to
        invariant
            from <= i <= to,
            to <= s@.len(),
            body == s@.subrange(from as int, to as int),
            forall|k: int|
                0 <= k < i - from ==> #[trigger] body[k] != '\n' && (body[k] == q ==> k > 0
                    && body[k - 1] == '\\'),
        decreases to - i,
    {
        if s[i] == '\n' {
            assert(body[i - from] == '\n');
            return false;
        }
        if s[i] == q && (i == from || s[i - 1] != '\\') {
            assert(body[i - from] == q);
            return false;
        }
        i = i + 1;
    }
    true
}

fn parse_chars(s: &Vec<char>) -> (r: Option<(Vec<char>, Vec<char>)>)
    ensures
        match parse_definition(s@) {
            Some((name, command)) => r is Some && (r->0).0@ == name && (r->0).1@ == command,
            None => r is None,
        },
{
    let ghost v = s@;
    let start = name_start(s);
    let ghost rest = v.skip(start as int);
    let end = word_end(s, start);
    assert(v.skip(start as int) == rest);
    let n = s.len();
    if end == start || end >= n || s[end] != '=' {
        assert(!is_definition(v));
        return None;
    }
    let vstart = end + 1;
    let mut vend = n;
    if vend > vstart && s[vend - 1] == '\n' {
        vend = vend - 1;
    }
    let ghost value = value_part(v);
    assert(rest.skip(word_len(rest) + 1int) =~= v.skip(vstart as int));
    assert(value =~= v.subrange(vstart as int, vend as int));
    if vend - vstart < 2 {
        return None;
    }
    let q = s[vstart];
    if !(q == '"' || q == '\'') || s[vend - 1] != q {
        return None;
    }
    assert(value.subrange(1, value.len() - 1) =~= v.subrange(vstart + 1, vend - 1));
    if !body_is_escaped(s, vstart + 1, vend - 1, q) {
        return None;
    }
    let mut name: Vec<char> = Vec::new();
    let mut i: usize = start;
    while i < end
        invariant
            start <= i <= end,
            end <= v.len(),
            s@ == v,
            name@ == v.subrange(start as int, i as int),
        decreases end - i,
    {
        name.push(s[i]);
        i = i + 1;
        assert(name@ =~= v.subrange(start as int, i as int));
    }
    assert(rest.take(word_len(rest) as int) =~= name@);
    let mut body: Vec<char> = Vec::new();
    let mut k: usize = vstart + 1;
    while k < vend - 1
        invariant
            vstart + 1 <= k <= vend - 1,
            vend <= v.len(),
            s@ == v,
            body@ == v.subrange(vstart + 1, k as int),
        decreases vend - 1 - k,
    {
        body.push(s[k]);
        k = k + 1;
        assert(body@ =~= v.subrange(vstart + 1, k as int));
    }
    let command = unescape_quotes(&body, q);
    Some((name, command))
}

/// Whether the text is exactly one alias definition, as a shell would read
/// it: `alias <name>=<q><body><q>` with nothing before or after.
pub fn validate_alias(alias: &str) -> (r: bool)
    ensures
        r == is_whole_definition(alias@),
{
    let s = chars_of(alias);
    let n = s.len();
    if n > 0 && s[n - 1] == '\n' {
        return false;
    }
    assert(without_line_break(s@) == s@);
    parse_chars(&s).is_some()
}

/// Reads one whole definition: the name and the command with its escapes
/// removed. `None` where the text is not a definition.
pub fn parse_alias(definition: &str) -> (r: Option<(String, String)>)
    ensures
        match parse_definition(definition@) {
            Some((name, command)) => r is Some && (r->0).0@ == name && (r->0).1@ == command,
            None => r is None,
        },
{
    let s = chars_of(definition);
    match parse_chars(&s) {
        Some((name, command)) => Some((string_of(&name), string_of(&command))),
        None => None,
    }
}

} // verus!
