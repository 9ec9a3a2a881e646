//! The run-control file: rendering it from the groups, and reading the alias
//! definitions back out of such a file.
use vstd::prelude::*;
use crate::codec::{
    is_blank_char,
    is_alias_name, lemma_round_trip_unterminated, lemma_word_len_append, one_line, is_blank, is_word_char, without_keyword, word_len, is_definition, parse_definition, skip_blanks, definition_line, serialize_alias, parse_alias,
};
use crate::model::{
    Alias, AliasView, Group, GroupView, Script, ScriptView, alias_views, group_views, script_views,
};
use crate::text::{chars_of, string_of, push_all, push_str, copy_chars};

verus! {

/// The number of characters before the first line break.
pub open spec fn line_len(t: Seq<char>) -> nat
    decreases t.len(),
{
    if t.len() == 0 || t[0] == '\n' {
        0
    } else {
        1 + line_len(t.skip(1))
    }
}

/// The definitions that stand alone on a line of the text, each without the
/// blanks that indent it, in the order of the lines.
pub open spec fn captured_lines(t: Seq<char>) -> Seq<Seq<char>>
    decreases t.len(),
{
    let k = line_len(t);
    let line = skip_blanks(t.take(k as int));
    let here = if is_definition(line) {
        seq![line]
    } else {
        Seq::empty()
    };
    if k < t.len() {
        here + captured_lines(t.skip(k + 1int))
    } else {
        here
    }
}

proof fn lemma_line_len(t: Seq<char>)
    ensures
        line_len(t) <= t.len(),
        line_len(t) < t.len() ==> t[line_len(t) as int] == '\n',
        forall|i: int| 0 <= i < line_len(t) ==> t[i] != '\n',
    decreases t.len(),
{
    if t.len() > 0 && t[0] != '\n' {
        lemma_line_len(t.skip(1));
        assert forall|i: int| 0 <= i < line_len(t) implies t[i] != '\n' by {
            if i > 0 {
                assert(t[i] == t.skip(1)[i - 1]);
            }
        }
    }
}

proof fn lemma_captured_are_definitions(t: Seq<char>)
    ensures
        forall|i: int|
            0 <= i < captured_lines(t).len() ==> is_definition(#[trigger] captured_lines(t)[i]),
    decreases t.len(),
{
    let k = line_len(t);
    lemma_line_len(t);
    let line = skip_blanks(t.take(k as int));
    let here = if is_definition(line) {
        seq![line]
    } else {
        Seq::empty()
    };
    if k < t.len() {
        let more = captured_lines(t.skip(k + 1int));
        lemma_captured_are_definitions(t.skip(k + 1int));
        assert(captured_lines(t) == here + more);
        assert forall|i: int| 0 <= i < captured_lines(t).len() implies is_definition(
            #[trigger] captured_lines(t)[i],
        ) by {
            if i >= here.len() {
                assert(captured_lines(t)[i] == more[i - here.len()]);
            }
        }
    }
}

proof fn lemma_line_len_split(x: Seq<char>, y: Seq<char>)
    requires
        one_line(x),
    ensures
        line_len(x + seq!['\n'] + y) == x.len(),
    decreases x.len(),
{
    let t = x + seq!['\n'] + y;
    if x.len() == 0 {
        assert(t[0] == '\n');
    } else {
        assert(t[0] == x[0]);
        assert(t.skip(1) =~= x.skip(1) + seq!['\n'] + y);
        assert(one_line(x.skip(1))) by {
            assert forall|i: int| 0 <= i < x.skip(1).len() implies #[trigger] x.skip(1)[i]
                != '\n' by {
                assert(x.skip(1)[i] == x[i + 1]);
            }
        }
        lemma_line_len_split(x.skip(1), y);
    }
}

/// A first line that stands alone: the text after its line break is read
/// on its own.
pub proof fn lemma_captured_first_line(x: Seq<char>, y: Seq<char>)
    requires
        one_line(x),
    ensures
        captured_lines(x + seq!['\n'] + y) == (if is_definition(skip_blanks(x)) {
            seq![skip_blanks(x)]
        } else {
            Seq::<Seq<char>>::empty()
        }) + captured_lines(y),
{
    let t = x + seq!['\n'] + y;
    lemma_line_len_split(x, y);
    assert(t.take(x.len() as int) =~= x);
    assert(t.skip(x.len() + 1int) =~= y);
}

/// Empty, or ended by a line break.
pub open spec fn ends_line(t: Seq<char>) -> bool {
    t.len() == 0 || t.last() == '\n'
}

proof fn lemma_line_len_prefix(a: Seq<char>, b: Seq<char>)
    requires
        line_len(a) < a.len(),
    ensures
        line_len(a + b) == line_len(a),
    decreases a.len(),
{
    if a[0] != '\n' {
        assert((a + b).skip(1) =~= a.skip(1) + b);
        lemma_line_len_prefix(a.skip(1), b);
    }
}

proof fn lemma_captured_append(a: Seq<char>, b: Seq<char>)
    requires
        ends_line(a),
    ensures
        captured_lines(a + b) == captured_lines(a) + captured_lines(b),
    decreases a.len(),
{
    if a.len() == 0 {
        assert(a + b =~= b);
        assert(captured_lines(a) =~= Seq::<Seq<char>>::empty()) by {
            assert(line_len(a) == 0);
            assert(a.take(0) =~= Seq::<char>::empty());
            assert(!is_definition(skip_blanks(Seq::<char>::empty())));
        }
        assert(captured_lines(a) + captured_lines(b) =~= captured_lines(b));
    } else {
        lemma_line_len(a);
        let k = line_len(a);
        if k == a.len() {
            assert(a[a.len() - 1] != '\n');
        }
        lemma_line_len_prefix(a, b);
        assert((a + b).take(k as int) =~= a.take(k as int));
        assert((a + b).skip(k + 1int) =~= a.skip(k + 1int) + b);
        let rest = a.skip(k + 1int);
        assert(ends_line(rest)) by {
            if rest.len() > 0 {
                assert(rest.last() == a.last());
            }
        }
        lemma_captured_append(rest, b);
        let line = skip_blanks(a.take(k as int));
        let here = if is_definition(line) {
            seq![line]
        } else {
            Seq::<Seq<char>>::empty()
        };
        assert(captured_lines(a + b) == here + captured_lines(rest + b));
        assert(captured_lines(a) == here + captured_lines(rest));
        assert(here + (captured_lines(rest) + captured_lines(b)) =~= (here + captured_lines(rest))
            + captured_lines(b));
    }
}

proof fn lemma_read_back_append(a: Seq<char>, b: Seq<char>)
    requires
        ends_line(a),
    ensures
        read_back(a + b) == read_back(a) + read_back(b),
{
    lemma_captured_append(a, b);
    assert(read_back(a + b) =~= read_back(a) + read_back(b));
}

proof fn lemma_ends_line_concat(a: Seq<char>, b: Seq<char>)
    requires
        ends_line(a),
        ends_line(b),
    ensures
        ends_line(a + b),
{
    if b.len() == 0 {
        assert(a + b =~= a);
    } else {
        assert((a + b).last() == b.last());
    }
}

proof fn lemma_read_back_empty()
    ensures
        read_back(Seq::<char>::empty()) == Seq::<(Seq<char>, Seq<char>)>::empty(),
{
    let e = Seq::<char>::empty();
    assert(line_len(e) == 0);
    assert(e.take(0) =~= e);
    assert(skip_blanks(e) == e);
    assert(!is_definition(e));
    assert(captured_lines(e) =~= Seq::<Seq<char>>::empty());
    assert(read_back(e) =~= Seq::<(Seq<char>, Seq<char>)>::empty());
}

/// A line that starts with a character other than a blank, a word character
/// or `a` holds no definition.
proof fn lemma_plain_line(x: Seq<char>)
    requires
        one_line(x),
        x.len() == 0 || (!is_blank(x[0]) && !is_word_char(x[0])),
    ensures
        read_back(x + seq!['\n']) == Seq::<(Seq<char>, Seq<char>)>::empty(),
{
    let e = Seq::<char>::empty();
    assert(x + seq!['\n'] =~= x + seq!['\n'] + e);
    lemma_captured_first_line(x, e);
    assert(skip_blanks(x) == x);
    if x.len() > 0 {
        if x.len() > 5 {
            assert(x.take(5)[0] == x[0]);
        }
        assert(without_keyword(x) == x);
        assert(word_len(x) == 0);
    } else {
        assert(without_keyword(x) == x);
        assert(word_len(x) == 0);
    }
    assert(!is_definition(x));
    lemma_read_back_empty();
    assert(captured_lines(x + seq!['\n']) =~= captured_lines(e));
    assert(read_back(x + seq!['\n']) =~= read_back(e));
}

/// The name and command of each enabled alias, in order.
pub open spec fn enabled_pairs(aliases: Seq<AliasView>) -> Seq<(Seq<char>, Seq<char>)>
    decreases aliases.len(),
{
    if aliases.len() == 0 {
        Seq::empty()
    } else {
        let a = aliases.last();
        enabled_pairs(aliases.drop_last()) + if a.enabled {
            seq![(a.name, a.command)]
        } else {
            Seq::empty()
        }
    }
}

/// The name and command of each enabled alias, group after group.
pub open spec fn runcom_pairs(groups: Seq<GroupView>) -> Seq<(Seq<char>, Seq<char>)>
    decreases groups.len(),
{
    if groups.len() == 0 {
        Seq::empty()
    } else {
        runcom_pairs(groups.drop_last()) + enabled_pairs(groups.last().aliases)
    }
}

/// A group whose section can be written and read back line by line: its
/// name, its enabled aliases' commands and its enabled scripts' paths stay on
/// one line, and its enabled aliases have valid names.
pub open spec fn writable_group(g: GroupView) -> bool {
    &&& one_line(g.name)
    &&& forall|i: int|
        0 <= i < g.aliases.len() && (#[trigger] g.aliases[i]).enabled ==> is_alias_name(
            g.aliases[i].name,
        ) && one_line(g.aliases[i].command)
    &&& forall|i: int|
        0 <= i < g.scripts.len() && (#[trigger] g.scripts[i]).enabled ==> one_line(
            g.scripts[i].path,
        )
}

proof fn lemma_parent_dir_one_line(path: Seq<char>)
    requires
        one_line(path),
    ensures
        one_line(parent_dir(path)),
    decreases path.len(),
{
    if path.len() > 0 {
        let d = path.drop_last();
        assert(one_line(d)) by {
            assert forall|i: int| 0 <= i < d.len() implies #[trigger] d[i] != '\n' by {
                assert(d[i] == path[i]);
            }
        }
        if path.last() != '/' {
            lemma_parent_dir_one_line(d);
        }
    }
}

proof fn lemma_line_read(x: Seq<char>)
    requires
        one_line(x),
    ensures
        read_back(x + seq!['\n']) == (if is_definition(skip_blanks(x)) {
            seq![parse_definition(skip_blanks(x))->0]
        } else {
            Seq::<(Seq<char>, Seq<char>)>::empty()
        }),
{
    let e = Seq::<char>::empty();
    assert(x + seq!['\n'] =~= x + seq!['\n'] + e);
    lemma_captured_first_line(x, e);
    lemma_read_back_empty();
    assert(captured_lines(e) =~= Seq::<Seq<char>>::empty());
    assert(read_back(x + seq!['\n']) =~= (if is_definition(skip_blanks(x)) {
        seq![parse_definition(skip_blanks(x))->0]
    } else {
        Seq::<(Seq<char>, Seq<char>)>::empty()
    }));
}

proof fn lemma_alias_lines_read(aliases: Seq<AliasView>)
    requires
        forall|i: int|
            0 <= i < aliases.len() && (#[trigger] aliases[i]).enabled ==> is_alias_name(
                aliases[i].name,
            ) && one_line(aliases[i].command),
    ensures
        read_back(alias_lines(aliases)) == enabled_pairs(aliases),
        ends_line(alias_lines(aliases)),
    decreases aliases.len(),
{
    if aliases.len() == 0 {
        lemma_read_back_empty();
    } else {
        let d = aliases.drop_last();
        let a = aliases.last();
        assert forall|i: int| 0 <= i < d.len() && (#[trigger] d[i]).enabled implies is_alias_name(
            d[i].name,
        ) && one_line(d[i].command) by {
            assert(d[i] == aliases[i]);
        }
        lemma_alias_lines_read(d);
        let piece = if a.enabled {
            definition_line(a.name, a.command)
        } else {
            Seq::<char>::empty()
        };
        assert(alias_lines(aliases) == alias_lines(d) + piece);
        lemma_read_back_append(alias_lines(d), piece);
        if a.enabled {
            assert(aliases[aliases.len() - 1].enabled);
            lemma_round_trip_unterminated(a.name, a.command);
            let core = piece.drop_last();
            assert(piece =~= core + seq!['\n']);
            assert(skip_blanks(core) == core);
            lemma_line_read(core);
            lemma_ends_line_concat(alias_lines(d), piece);
        } else {
            lemma_read_back_empty();
            assert(alias_lines(d) + piece =~= alias_lines(d));
        }
    }
}

proof fn lemma_script_lines_read(scripts: Seq<ScriptView>)
    requires
        forall|i: int|
            0 <= i < scripts.len() && (#[trigger] scripts[i]).enabled ==> one_line(
                scripts[i].path,
            ),
    ensures
        read_back(script_lines(scripts)) == Seq::<(Seq<char>, Seq<char>)>::empty(),
        ends_line(script_lines(scripts)),
    decreases scripts.len(),
{
    if scripts.len() == 0 {
        lemma_read_back_empty();
    } else {
        let d = scripts.drop_last();
        let sc = scripts.last();
        assert forall|i: int| 0 <= i < d.len() && (#[trigger] d[i]).enabled implies one_line(
            d[i].path,
        ) by {
            assert(d[i] == scripts[i]);
        }
        lemma_script_lines_read(d);
        let piece = if sc.enabled {
            script_line(sc.path)
        } else {
            Seq::<char>::empty()
        };
        assert(script_lines(scripts) == script_lines(d) + piece);
        lemma_read_back_append(script_lines(d), piece);
        if sc.enabled {
            assert(scripts[scripts.len() - 1].enabled);
            lemma_parent_dir_one_line(sc.path);
            lemma_shell_escape_one_line(parent_dir(sc.path));
            lemma_script_line_read(shell_escape(parent_dir(sc.path)));
            lemma_ends_line_concat(script_lines(d), piece);
            assert(read_back(script_lines(scripts)) =~= Seq::<(Seq<char>, Seq<char>)>::empty());
        } else {
            lemma_read_back_empty();
            assert(script_lines(d) + piece =~= script_lines(d));
        }
    }
}

proof fn lemma_script_line_read(dir: Seq<char>)
    requires
        one_line(dir),
    ensures
        read_back("export PATH=\""@ + dir + ":$PATH\"\n"@) == Seq::<(Seq<char>, Seq<char>)>::empty(),
        ends_line("export PATH=\""@ + dir + ":$PATH\"\n"@),
{
    reveal_strlit("export PATH=\"");
    reveal_strlit(":$PATH\"\n");
    let head = "export PATH=\""@;
    let tail = ":$PATH\"\n"@;
    let x = head + dir + tail.drop_last();
    assert(head + dir + tail =~= x + seq!['\n']);
    assert(one_line(x)) by {
        assert forall|i: int| 0 <= i < x.len() implies #[trigger] x[i] != '\n' by {
            if head.len() <= i < head.len() + dir.len() {
                assert(x[i] == dir[i - head.len()]);
            }
        }
    }
    assert(x[0] == 'e');
    assert(skip_blanks(x) == x);
    assert(x.take(5)[1] == 'x');
    assert(without_keyword(x) == x);
    let w = x.take(6);
    let t = x.skip(6);
    assert(x =~= w + t);
    assert forall|i: int| 0 <= i < w.len() implies is_word_char(#[trigger] w[i]) by {
        assert(w[i] == x[i]);
    }
    lemma_word_len_append(w, t);
    assert(t[0] == ' ');
    assert(word_len(t) == 0);
    assert(word_len(x) == 6);
    assert(x[6] == ' ');
    assert(!is_definition(x));
    lemma_line_read(x);
}

proof fn lemma_group_block_read(g: GroupView)
    requires
        writable_group(g),
    ensures
        read_back(group_block(g)) == enabled_pairs(g.aliases),
        ends_line(group_block(g)),
{
    reveal_strlit("\n##########");
    reveal_strlit("##########\n");
    let open = "\n##########"@;
    let close = "##########\n"@;
    let hx = open.skip(1) + g.name + close.drop_last();
    let head = open + g.name + close;
    assert(head =~= seq!['\n'] + (hx + seq!['\n']));
    assert(one_line(hx)) by {
        assert forall|i: int| 0 <= i < hx.len() implies #[trigger] hx[i] != '\n' by {
            if 10 <= i < 10 + g.name.len() {
                assert(hx[i] == g.name[i - 10]);
            }
        }
    }
    assert(hx[0] == '#');
    lemma_plain_line(Seq::<char>::empty());
    assert(Seq::<char>::empty() + seq!['\n'] =~= seq!['\n']);
    lemma_plain_line(hx);
    lemma_read_back_append(seq!['\n'], hx + seq!['\n']);
    assert(ends_line(head));
    lemma_alias_lines_read(g.aliases);
    lemma_script_lines_read(g.scripts);
    let al = alias_lines(g.aliases);
    let sl = script_lines(g.scripts);
    assert(group_block(g) =~= head + (al + sl));
    lemma_read_back_append(al, sl);
    lemma_read_back_append(head, al + sl);
    lemma_ends_line_concat(al, sl);
    lemma_ends_line_concat(head, al + sl);
    assert(read_back(group_block(g)) =~= enabled_pairs(g.aliases));
}

proof fn lemma_group_blocks_read(groups: Seq<GroupView>)
    requires
        forall|i: int| 0 <= i < groups.len() ==> writable_group(#[trigger] groups[i]),
    ensures
        read_back(group_blocks(groups)) == runcom_pairs(groups),
        ends_line(group_blocks(groups)),
    decreases groups.len(),
{
    if groups.len() == 0 {
        lemma_read_back_empty();
    } else {
        let d = groups.drop_last();
        assert forall|i: int| 0 <= i < d.len() implies writable_group(#[trigger] d[i]) by {
            assert(d[i] == groups[i]);
        }
        lemma_group_blocks_read(d);
        assert(writable_group(groups[groups.len() - 1]));
        lemma_group_block_read(groups.last());
        lemma_read_back_append(group_blocks(d), group_block(groups.last()));
        lemma_ends_line_concat(group_blocks(d), group_block(groups.last()));
    }
}

/// Round trip of the run-control file: reading back the file rendered for
/// the groups gives the name and command of each enabled alias, group after
/// group, in order; nothing else in the file reads as a definition. This
/// holds when group names, enabled aliases' commands and enabled scripts'
/// paths stay on one line and enabled aliases have valid names.
pub proof fn lemma_runcom_round_trip(groups: Seq<GroupView>)
    requires
        forall|i: int| 0 <= i < groups.len() ==> writable_group(#[trigger] groups[i]),
    ensures
        read_back(runcom_text(groups)) == runcom_pairs(groups),
{
    reveal_strlit("###############Aliases###############\n");
    let header = "###############Aliases###############\n"@;
    let hx = header.drop_last();
    assert(header =~= hx + seq!['\n']);
    assert(one_line(hx)) by {
        assert forall|i: int| 0 <= i < hx.len() implies #[trigger] hx[i] != '\n' by {
            assert(hx[i] == header[i]);
        }
    }
    lemma_plain_line(hx);
    lemma_group_blocks_read(groups);
    lemma_read_back_append(header, group_blocks(groups));
    assert(read_back(runcom_text(groups)) =~= runcom_pairs(groups));
}

fn skip_blank_chars(s: &Vec<char>, from: usize, to: usize) -> (r: usize)
    requires
        from <= to <= s@.len(),
    ensures
        from <= r <= to,
        skip_blanks(s@.subrange(from as int, to as int)) == s@.subrange(r as int, to as int),
{
    let mut b: usize = from;
    while b < to && is_blank_char(s[b])
        invariant
            from <= b <= to,
            to <= s@.len(),
            skip_blanks(s@.subrange(from as int, to as int)) == skip_blanks(
                s@.subrange(b as int, to as int),
            ),
        decreases to - b,
    {
        assert(s@.subrange(b as int, to as int).skip(1) =~= s@.subrange(b + 1, to as int));
        b = b + 1;
    }
    b
}

/// The alias definitions of a run-control text: each line that, once its
/// indentation is dropped, is one whole definition.
pub fn capture_aliases(text: &str) -> (r: Vec<String>)
    ensures
        r@.map_values(|x: String| x@) == captured_lines(text@),
{
    let s = chars_of(text);
    let n = s.len();
    let mut out: Vec<String> = Vec::new();
    let mut start: usize = 0;
    assert(s@.skip(0) =~= s@);
    assert(out@.map_values(|x: String| x@) + captured_lines(s@) =~= captured_lines(s@));
    loop
        invariant
            s@ == text@,
            n == s@.len(),
            start <= n,
            captured_lines(s@) == out@.map_values(|x: String| x@) + captured_lines(
                s@.skip(start as int),
            ),
        decreases n - start,
    {
        let ghost t = s@.skip(start as int);
        let mut e: usize = start;
        while e < n && s[e] != '\n'
            invariant
                start <= e <= n,
                n == s@.len(),
                t == s@.skip(start as int),
                line_len(t) == (e - start) + line_len(s@.skip(e as int)),
            decreases n - e,
        {
            assert(s@.skip(e as int).skip(1) =~= s@.skip(e + 1));
            e = e + 1;
        }
        assert(line_len(t) == e - start);
        assert(t.take((e - start) as int) =~= s@.subrange(start as int, e as int));
        let b = skip_blank_chars(&s, start, e);
        let line = copy_chars(&s, b, e);
        let ghost before = out@.map_values(|x: String| x@);
        let ghost here = if is_definition(line@) {
            seq![line@]
        } else {
            Seq::<Seq<char>>::empty()
        };
        match parse_chars_ok(&line) {
            true => {
                let l = string_of(&line);
                out.push(l);
                assert(out@.map_values(|x: String| x@) =~= before + here);
            },
            false => {
                assert(out@.map_values(|x: String| x@) =~= before + here);
            },
        }
        if e < n {
            assert(t.skip((e - start) + 1int) =~= s@.skip(e + 1));
            assert(captured_lines(t) == here + captured_lines(s@.skip(e + 1)));
            start = e + 1;
            assert(captured_lines(s@) =~= out@.map_values(|x: String| x@) + captured_lines(
                s@.skip(start as int),
            ));
        } else {
            assert(captured_lines(t) == here);
            assert(captured_lines(s@) =~= out@.map_values(|x: String| x@));
            return out;
        }
    }
}

fn parse_chars_ok(line: &Vec<char>) -> (r: bool)
    ensures
        r == is_definition(line@),
{
    let l = string_of(line);
    let p = parse_alias(l.as_str());
    p.is_some()
}

/// The name and command of each definition that `captured_lines` finds.
pub open spec fn read_back(t: Seq<char>) -> Seq<(Seq<char>, Seq<char>)> {
    captured_lines(t).map_values(|l: Seq<char>| parse_definition(l)->0)
}

/// The aliases defined in a run-control text, in order. What the text does
/// not hold (description, group) is left empty; each alias read is enabled,
/// since disabled aliases are never written.
pub fn read_aliases(text: &str) -> (r: Vec<Alias>)
    ensures
        r@.len() == read_back(text@).len(),
        forall|i: int|
            0 <= i < r@.len() ==> {
                &&& (#[trigger] r@[i]).name@ == read_back(text@)[i].0
                &&& r@[i].command@ == read_back(text@)[i].1
                &&& r@[i].description@ == Seq::<char>::empty()
                &&& r@[i].enabled
                &&& r@[i].group_id == 0
            },
{
    let lines = capture_aliases(text);
    let ghost caps = captured_lines(text@);
    proof {
        lemma_captured_are_definitions(text@);
    }
    assert(lines@.len() == caps.len()) by {
        assert(lines@.map_values(|x: String| x@).len() == lines@.len());
    }
    let mut out: Vec<Alias> = Vec::new();
    let mut i: usize = 0;
    while i < lines.len()
        invariant
            caps == captured_lines(text@),
            lines@.map_values(|x: String| x@) == caps,
            lines@.len() == caps.len(),
            forall|j: int| 0 <= j < caps.len() ==> is_definition(#[trigger] caps[j]),
            i <= lines@.len(),
            out@.len() == i,
            forall|j: int|
                0 <= j < i ==> {
                    &&& (#[trigger] out@[j]).name@ == read_back(text@)[j].0
                    &&& out@[j].command@ == read_back(text@)[j].1
                    &&& out@[j].description@ == Seq::<char>::empty()
                    &&& out@[j].enabled
                    &&& out@[j].group_id == 0
                },
        decreases lines@.len() - i,
    {
        assert(lines@[i as int]@ == caps[i as int]);
        let parsed = parse_alias(lines[i].as_str());
        match parsed {
            Some((name, command)) => {
                out.push(
                    Alias {
                        name,
                        command,
                        description: String::new(),
                        enabled: true,
                        group_id: 0,
                    },
                );
            },
            None => {
                assert(false);
            },
        }
        i = i + 1;
    }
    out
}

/// The directory part of a path: what stands before its last `/`.
pub open spec fn parent_dir(path: Seq<char>) -> Seq<char>
    decreases path.len(),
{
    if path.len() == 0 {
        path
    } else if path.last() == '/' {
        path.drop_last()
    } else {
        parent_dir(path.drop_last())
    }
}

/// The characters that keep a special meaning inside double quotes in a
/// shell.
pub open spec fn is_shell_special(c: char) -> bool {
    c == '"' || c == '\\' || c == '$' || c == '`'
}

/// `s` with each shell-special character preceded by a backslash, so that it
/// reads literally inside double quotes.
pub open spec fn shell_escape(s: Seq<char>) -> Seq<char>
    decreases s.len(),
{
    if s.len() == 0 {
        Seq::empty()
    } else {
        let head = if is_shell_special(s[0]) {
            seq!['\\', s[0]]
        } else {
            seq![s[0]]
        };
        head + shell_escape(s.skip(1))
    }
}

/// The line that puts the managed directory of a script on the search path,
/// quoted for the shell.
pub open spec fn script_line(path: Seq<char>) -> Seq<char> {
    "export PATH=\""@ + shell_escape(parent_dir(path)) + ":$PATH\"\n"@
}

/// The lines of the enabled aliases, in order.
pub open spec fn alias_lines(aliases: Seq<AliasView>) -> Seq<char>
    decreases aliases.len(),
{
    if aliases.len() == 0 {
        Seq::empty()
    } else {
        let a = aliases.last();
        alias_lines(aliases.drop_last()) + if a.enabled {
            definition_line(a.name, a.command)
        } else {
            Seq::empty()
        }
    }
}

/// The lines of the enabled scripts, in order.
pub open spec fn script_lines(scripts: Seq<ScriptView>) -> Seq<char>
    decreases scripts.len(),
{
    if scripts.len() == 0 {
        Seq::empty()
    } else {
        let sc = scripts.last();
        script_lines(scripts.drop_last()) + if sc.enabled {
            script_line(sc.path)
        } else {
            Seq::empty()
        }
    }
}

/// The section of one group: its header comment, then its aliases, then its
/// scripts.
pub open spec fn group_block(g: GroupView) -> Seq<char> {
    "\n##########"@ + g.name + "##########\n"@ + alias_lines(g.aliases) + script_lines(g.scripts)
}

pub open spec fn group_blocks(groups: Seq<GroupView>) -> Seq<char>
    decreases groups.len(),
{
    if groups.len() == 0 {
        Seq::empty()
    } else {
        group_blocks(groups.drop_last()) + group_block(groups.last())
    }
}

/// The whole run-control file for the groups, in their order.
pub open spec fn runcom_text(groups: Seq<GroupView>) -> Seq<char> {
    "###############Aliases###############\n"@ + group_blocks(groups)
}

proof fn lemma_shell_escape_one_line(s: Seq<char>)
    requires
        one_line(s),
    ensures
        one_line(shell_escape(s)),
    decreases s.len(),
{
    if s.len() > 0 {
        let rest = s.skip(1);
        assert(one_line(rest)) by {
            assert forall|i: int| 0 <= i < rest.len() implies #[trigger] rest[i] != '\n' by {
                assert(rest[i] == s[i + 1]);
            }
        }
        lemma_shell_escape_one_line(rest);
        let head = if is_shell_special(s[0]) {
            seq!['\\', s[0]]
        } else {
            seq![s[0]]
        };
        let all = head + shell_escape(rest);
        assert(shell_escape(s) == all);
        assert forall|i: int| 0 <= i < all.len() implies #[trigger] all[i] != '\n' by {
            if i >= head.len() {
                assert(all[i] == shell_escape(rest)[i - head.len()]);
            }
        }
    }
}

fn shell_escape_chars(s: &Vec<char>) -> (r: Vec<char>)
    ensures
        r@ == shell_escape(s@),
{
    let mut out: Vec<char> = Vec::new();
    let mut i: usize = 0;
    assert(s@.skip(0) =~= s@);
    assert(out@ + shell_escape(s@) =~= shell_escape(s@));
    while i < s.len()
        invariant
            i <= s@.len(),
            shell_escape(s@) == out@ + shell_escape(s@.skip(i as int)),
        decreases s@.len() - i,
    {
        let c = s[i];
        assert(s@.skip(i as int).skip(1) =~= s@.skip(i + 1));
        assert(s@.skip(i as int)[0] == c);
        if c == '"' || c == '\\' || c == '$' || c == '`' {
            out.push('\\');
            out.push(c);
        } else {
            out.push(c);
        }
        i = i + 1;
        assert(shell_escape(s@) =~= out@ + shell_escape(s@.skip(i as int)));
    }
    assert(s@.skip(i as int) =~= Seq::<char>::empty());
    assert(out@ + shell_escape(s@.skip(i as int)) =~= out@);
    out
}

fn parent_dir_of(path: &Vec<char>) -> (r: Vec<char>)
    ensures
        r@ == parent_dir(path@),
{
    let mut i: usize = path.len();
    assert(path@.take(i as int) =~= path@);
    while i > 0 && path[i - 1] != '/'
        invariant
            i <= path@.len(),
            parent_dir(path@) == parent_dir(path@.take(i as int)),
        decreases i,
    {
        assert(path@.take(i as int).drop_last() =~= path@.take(i - 1));
        i = i - 1;
    }
    if i == 0 {
        assert(path@.take(0) =~= Seq::<char>::empty());
        Vec::new()
    } else {
        assert(path@.take(i as int).drop_last() =~= path@.take(i - 1));
        copy_chars(path, 0, i - 1)
    }
}

fn push_alias_lines(out: &mut Vec<char>, aliases: &Vec<Alias>)
    ensures
        final(out)@ == old(out)@ + alias_lines(alias_views(aliases@)),
{
    let mut i: usize = 0;
    assert(alias_views(aliases@.take(0)) =~= Seq::<AliasView>::empty());
    assert(old(out)@ + alias_lines(alias_views(aliases@.take(0))) =~= old(out)@);
    while i < aliases.len()
        invariant
            i <= aliases@.len(),
            out@ == old(out)@ + alias_lines(alias_views(aliases@.take(i as int))),
        decreases aliases@.len() - i,
    {
        let a = &aliases[i];
        assert(alias_views(aliases@.take(i + 1)).drop_last() =~= alias_views(
            aliases@.take(i as int),
        ));
        assert(alias_views(aliases@.take(i + 1)).last() == aliases@[i as int]@);
        if a.enabled {
            let line = serialize_alias(a.name.as_str(), a.command.as_str());
            push_str(out, line.as_str());
        }
        i = i + 1;
        assert(out@ =~= old(out)@ + alias_lines(alias_views(aliases@.take(i as int))));
    }
    assert(aliases@.take(i as int) =~= aliases@);
}

fn push_script_lines(out: &mut Vec<char>, scripts: &Vec<Script>)
    ensures
        final(out)@ == old(out)@ + script_lines(script_views(scripts@)),
{
    let mut i: usize = 0;
    assert(script_views(scripts@.take(0)) =~= Seq::<ScriptView>::empty());
    assert(old(out)@ + script_lines(script_views(scripts@.take(0))) =~= old(out)@);
    while i < scripts.len()
        invariant
            i <= scripts@.len(),
            out@ == old(out)@ + script_lines(script_views(scripts@.take(i as int))),
        decreases scripts@.len() - i,
    {
        let sc = &scripts[i];
        assert(script_views(scripts@.take(i + 1)).drop_last() =~= script_views(
            scripts@.take(i as int),
        ));
        assert(script_views(scripts@.take(i + 1)).last() == scripts@[i as int]@);
        if sc.enabled {
            let path = chars_of(sc.path.as_str());
            let dir = parent_dir_of(&path);
            let quoted = shell_escape_chars(&dir);
            push_str(out, "export PATH=\"");
            push_all(out, &quoted);
            push_str(out, ":$PATH\"\n");
        }
        i = i + 1;
        assert(out@ =~= old(out)@ + script_lines(script_views(scripts@.take(i as int))));
    }
    assert(scripts@.take(i as int) =~= scripts@);
}

/// The run-control file for the groups: a fixed header, then for each group
/// in order a header comment with its name, a definition line for each of
/// its enabled aliases and a search-path line for each of its enabled
/// scripts. Disabled entities are left out entirely.
pub fn render_runcom(groups: &Vec<Group>) -> (r: String)
    ensures
        r@ == runcom_text(group_views(groups@)),
{
    let mut out: Vec<char> = Vec::new();
    push_str(&mut out, "###############Aliases###############\n");
    let ghost head = out@;
    let mut i: usize = 0;
    assert(group_views(groups@.take(0)) =~= Seq::<GroupView>::empty());
    assert(head + group_blocks(group_views(groups@.take(0))) =~= head);
    while i < groups.len()
        invariant
            i <= groups@.len(),
            head == "###############Aliases###############\n"@,
            out@ == head + group_blocks(group_views(groups@.take(i as int))),
        decreases groups@.len() - i,
    {
        let g = &groups[i];
        assert(group_views(groups@.take(i + 1)).drop_last() =~= group_views(
            groups@.take(i as int),
        ));
        assert(group_views(groups@.take(i + 1)).last() == groups@[i as int]@);
        push_str(&mut out, "\n##########");
        push_str(&mut out, g.name.as_str());
        push_str(&mut out, "##########\n");
        push_alias_lines(&mut out, &g.aliases);
        push_script_lines(&mut out, &g.scripts);
        i = i + 1;
        assert(out@ =~= head + group_blocks(group_views(groups@.take(i as int))));
    }
    assert(groups@.take(i as int) =~= groups@);
    string_of(&out)
}

pub open spec fn is_enabled_alias(a: AliasView) -> bool {
    a.enabled
}

pub open spec fn is_enabled_script(s: ScriptView) -> bool {
    s.enabled
}

/// Two groups with the same name and the same enabled members, in order.
pub open spec fn same_enabled_members(g1: GroupView, g2: GroupView) -> bool {
    &&& g1.name == g2.name
    &&& g1.aliases.filter(|a: AliasView| is_enabled_alias(a)) == g2.aliases.filter(
        |a: AliasView| is_enabled_alias(a),
    )
    &&& g1.scripts.filter(|s: ScriptView| is_enabled_script(s)) == g2.scripts.filter(
        |s: ScriptView| is_enabled_script(s),
    )
}

proof fn lemma_alias_lines_enabled(aliases: Seq<AliasView>)
    ensures
        alias_lines(aliases) == alias_lines(aliases.filter(|a: AliasView| is_enabled_alias(a))),
    decreases aliases.len(),
{
    reveal(Seq::filter);
    if aliases.len() > 0 {
        let rest = aliases.drop_last();
        lemma_alias_lines_enabled(rest);
        let f = rest.filter(|a: AliasView| is_enabled_alias(a));
        if aliases.last().enabled {
            assert(f.push(aliases.last()).drop_last() =~= f);
        }
    }
}

proof fn lemma_script_lines_enabled(scripts: Seq<ScriptView>)
    ensures
        script_lines(scripts) == script_lines(
            scripts.filter(|s: ScriptView| is_enabled_script(s)),
        ),
    decreases scripts.len(),
{
    reveal(Seq::filter);
    if scripts.len() > 0 {
        let rest = scripts.drop_last();
        lemma_script_lines_enabled(rest);
        let f = rest.filter(|s: ScriptView| is_enabled_script(s));
        if scripts.last().enabled {
            assert(f.push(scripts.last()).drop_last() =~= f);
        }
    }
}

proof fn lemma_group_blocks_enabled(groups1: Seq<GroupView>, groups2: Seq<GroupView>)
    requires
        groups1.len() == groups2.len(),
        forall|i: int|
            0 <= i < groups1.len() ==> same_enabled_members(#[trigger] groups1[i], groups2[i]),
    ensures
        group_blocks(groups1) == group_blocks(groups2),
    decreases groups1.len(),
{
    if groups1.len() > 0 {
        let g1 = groups1.last();
        let g2 = groups2.last();
        assert(same_enabled_members(groups1[groups1.len() - 1], groups2[groups1.len() - 1]));
        lemma_alias_lines_enabled(g1.aliases);
        lemma_alias_lines_enabled(g2.aliases);
        lemma_script_lines_enabled(g1.scripts);
        lemma_script_lines_enabled(g2.scripts);
        assert(group_block(g1) == group_block(g2));
        let r1 = groups1.drop_last();
        let r2 = groups2.drop_last();
        assert forall|i: int| 0 <= i < r1.len() implies same_enabled_members(
            #[trigger] r1[i],
            r2[i],
        ) by {
            assert(r1[i] == groups1[i]);
            assert(r2[i] == groups2[i]);
        }
        lemma_group_blocks_enabled(r1, r2);
    }
}

/// Disabled aliases and scripts leave no trace in the run-control file: two
/// lists of groups that agree group by group on names and on enabled members
/// render to the same text, whatever disabled members either holds.
pub proof fn lemma_disabled_leave_no_trace(groups1: Seq<GroupView>, groups2: Seq<GroupView>)
    requires
        groups1.len() == groups2.len(),
        forall|i: int|
            0 <= i < groups1.len() ==> same_enabled_members(#[trigger] groups1[i], groups2[i]),
    ensures
        runcom_text(groups1) == runcom_text(groups2),
{
    lemma_group_blocks_enabled(groups1, groups2);
}

} // verus!
