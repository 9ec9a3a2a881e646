//! The legacy formats: a plain alias file of definition lines, and the JSON
//! document that once held the aliases.
use vstd::prelude::*;
use crate::codec::{
    definition_line, serialize_alias, is_alias_name, one_line, skip_blanks,
    lemma_round_trip_unterminated,
};
use crate::model::Alias;
use crate::runcom::{read_aliases, read_back, captured_lines, lemma_captured_first_line};
use crate::text::{string_of, push_str, same_text};

verus! {

/// An alias file holding the given name and command pairs, one canonical
/// definition line each, in order.
pub open spec fn alias_file_text(aliases: Seq<(Seq<char>, Seq<char>)>) -> Seq<char>
    decreases aliases.len(),
{
    if aliases.len() == 0 {
        Seq::empty()
    } else {
        alias_file_text(aliases.drop_last()) + definition_line(
            aliases.last().0,
            aliases.last().1,
        )
    }
}

pub open spec fn name_and_command(a: Alias) -> (Seq<char>, Seq<char>) {
    (a.name@, a.command@)
}

proof fn lemma_alias_file_front(aliases: Seq<(Seq<char>, Seq<char>)>)
    requires
        aliases.len() > 0,
    ensures
        alias_file_text(aliases) == definition_line(aliases[0].0, aliases[0].1) + alias_file_text(
            aliases.skip(1),
        ),
    decreases aliases.len(),
{
    if aliases.len() == 1 {
        assert(aliases.drop_last() =~= Seq::<(Seq<char>, Seq<char>)>::empty());
        assert(aliases.skip(1) =~= Seq::<(Seq<char>, Seq<char>)>::empty());
        assert(aliases.last() == aliases[0]);
    } else {
        let d = aliases.drop_last();
        lemma_alias_file_front(d);
        assert(d[0] == aliases[0]);
        assert(aliases.skip(1).drop_last() =~= d.skip(1));
        assert(aliases.skip(1).last() == aliases.last());
        let l0 = definition_line(aliases[0].0, aliases[0].1);
        let ll = definition_line(aliases.last().0, aliases.last().1);
        assert(l0 + alias_file_text(d.skip(1)) + ll =~= l0 + (alias_file_text(d.skip(1)) + ll));
    }
}

/// Round trip of an alias file: writing name and command pairs, each with a
/// valid name and a one-line command, and reading the text back gives the
/// same pairs in the same order.
pub proof fn lemma_alias_file_round_trip(aliases: Seq<(Seq<char>, Seq<char>)>)
    requires
        forall|i: int|
            0 <= i < aliases.len() ==> is_alias_name((#[trigger] aliases[i]).0) && one_line(
                aliases[i].1,
            ),
    ensures
        read_back(alias_file_text(aliases)) == aliases,
    decreases aliases.len(),
{
    if aliases.len() == 0 {
        assert(captured_lines(Seq::<char>::empty()) =~= Seq::<Seq<char>>::empty());
        assert(read_back(alias_file_text(aliases)) =~= aliases);
    } else {
        let p0 = aliases[0];
        let rest = aliases.skip(1);
        assert forall|i: int| 0 <= i < rest.len() implies is_alias_name((#[trigger] rest[i]).0)
            && one_line(rest[i].1) by {
            assert(rest[i] == aliases[i + 1]);
        }
        lemma_alias_file_round_trip(rest);
        lemma_alias_file_front(aliases);
        let line = definition_line(p0.0, p0.1);
        lemma_round_trip_unterminated(p0.0, p0.1);
        let core = line.drop_last();
        assert(line =~= core + seq!['\n']);
        let rest_text = alias_file_text(rest);
        assert(alias_file_text(aliases) =~= core + seq!['\n'] + rest_text);
        assert(skip_blanks(core) == core);
        lemma_captured_first_line(core, rest_text);
        let caps = captured_lines(alias_file_text(aliases));
        assert(caps == seq![core] + captured_lines(rest_text));
        assert(read_back(alias_file_text(aliases)) =~= aliases) by {
            assert forall|i: int| 0 <= i < aliases.len() implies read_back(
                alias_file_text(aliases),
            )[i] == aliases[i] by {
                if i > 0 {
                    assert(caps[i] == captured_lines(rest_text)[i - 1]);
                    assert(read_back(rest_text)[i - 1] == rest[i - 1]);
                }
            }
        }
    }
}

/// The text of an alias file for the aliases: their definition lines in order.
pub fn render_alias_file(aliases: &Vec<Alias>) -> (r: String)
    ensures
        r@ == alias_file_text(aliases@.map_values(|a: Alias| name_and_command(a))),
{
    let mut out: Vec<char> = Vec::new();
    let mut i: usize = 0;
    let ghost pairs = aliases@.map_values(|a: Alias| name_and_command(a));
    assert(pairs.take(0) =~= Seq::<(Seq<char>, Seq<char>)>::empty());
    while i < aliases.len()
        invariant
            i <= aliases@.len(),
            pairs == aliases@.map_values(|a: Alias| name_and_command(a)),
            out@ == alias_file_text(pairs.take(i as int)),
        decreases aliases@.len() - i,
    {
        assert(pairs.take(i + 1).drop_last() =~= pairs.take(i as int));
        let line = serialize_alias(aliases[i].name.as_str(), aliases[i].command.as_str());
        push_str(&mut out, line.as_str());
        i = i + 1;
    }
    assert(pairs.take(i as int) =~= pairs);
    string_of(&out)
}

/// The alias file after adding an alias at its end: the definitions already
/// in `contents`, then the alias, all in canonical form.
pub fn append_alias_to_alias_file(alias: &Alias, contents: &str) -> (r: String)
    ensures
        r@ == alias_file_text(read_back(contents@).push((alias.name@, alias.command@))),
{
    let mut aliases = read_aliases(contents);
    let ghost before = aliases@;
    aliases.push(alias.duplicate());
    assert(aliases@.map_values(|a: Alias| name_and_command(a)) =~= read_back(contents@).push(
        (alias.name@, alias.command@),
    )) by {
        assert forall|i: int| 0 <= i < before.len() implies name_and_command(#[trigger] before[i])
            == read_back(contents@)[i] by {}
    }
    render_alias_file(&aliases)
}

pub open spec fn named_other_than(p: (Seq<char>, Seq<char>), name: Seq<char>) -> bool {
    p.0 != name
}

/// The alias file after removing the aliases called `name`: the other
/// definitions of `contents`, in order and canonical form.
pub fn remove_alias_from_alias_file(name: &str, contents: &str) -> (r: String)
    ensures
        r@ == alias_file_text(
            read_back(contents@).filter(
                |p: (Seq<char>, Seq<char>)| named_other_than(p, name@),
            ),
        ),
{
    let aliases = read_aliases(contents);
    let ghost pairs = read_back(contents@);
    let ghost keep = |p: (Seq<char>, Seq<char>)| named_other_than(p, name@);
    let mut out: Vec<char> = Vec::new();
    let mut i: usize = 0;
    assert(pairs.take(0) =~= Seq::<(Seq<char>, Seq<char>)>::empty());
    proof {
        reveal(Seq::filter);
    }
    while i < aliases.len()
        invariant
            i <= aliases@.len(),
            aliases@.len() == pairs.len(),
            pairs == read_back(contents@),
            keep == (|p: (Seq<char>, Seq<char>)| named_other_than(p, name@)),
            forall|j: int|
                0 <= j < aliases@.len() ==> (#[trigger] aliases@[j]).name@ == pairs[j].0
                    && aliases@[j].command@ == pairs[j].1,
            out@ == alias_file_text(pairs.take(i as int).filter(keep)),
        decreases aliases@.len() - i,
    {
        proof {
            reveal(Seq::filter);
        }
        assert(pairs.take(i + 1).drop_last() =~= pairs.take(i as int));
        assert(pairs.take(i + 1).last() == pairs[i as int]);
        let a = &aliases[i];
        assert(a.name@ == pairs[i as int].0);
        if !same_text(a.name.as_str(), name) {
            let ghost f = pairs.take(i as int).filter(keep);
            assert(f.push(pairs[i as int]).drop_last() =~= f);
            let line = serialize_alias(a.name.as_str(), a.command.as_str());
            push_str(&mut out, line.as_str());
        }
        i = i + 1;
    }
    assert(pairs.take(i as int) =~= pairs);
    string_of(&out)
}

/// The legacy JSON document: the aliases, and the alias file they were
/// written to.
#[derive(Debug, Clone, PartialEq, Eq)]
pub struct NymData {
    pub aliases: Vec<Alias>,
    pub alias_file: String,
}

impl NymData {
    /// The legacy document for an alias file at `alias_file` whose text is
    /// `contents`: the aliases that the text defines, in order.
    pub fn from_alias_file(alias_file: &str, contents: &str) -> (r: NymData)
        ensures
            r.alias_file@ == alias_file@,
            r.aliases@.len() == read_back(contents@).len(),
            forall|i: int|
                0 <= i < r.aliases@.len() ==> (#[trigger] r.aliases@[i]).name@ == read_back(
                    contents@,
                )[i].0 && r.aliases@[i].command@ == read_back(contents@)[i].1,
    {
        NymData { aliases: read_aliases(contents), alias_file: String::from_str(alias_file) }
    }
}

/// The alias file that a legacy document names.
pub fn get_alias_file(data: &NymData) -> (r: String)
    ensures
        r@ == data.alias_file@,
{
    data.alias_file.clone()
}

/// Whether a legacy document holds an alias with the given name.
pub fn check_alias_exists(name: &str, data: &NymData) -> (r: bool)
    ensures
        r == exists|i: int| 0 <= i < data.aliases@.len() && (#[trigger] data.aliases@[i]).name@ == name@,
{
    let mut i: usize = 0;
    while i < data.aliases.len()
        invariant
            i <= data.aliases@.len(),
            forall|j: int| 0 <= j < i ==> (#[trigger] data.aliases@[j]).name@ != name@,
        decreases data.aliases@.len() - i,
    {
        if same_text(data.aliases[i].name.as_str(), name) {
            return true;
        }
        i = i + 1;
    }
    false
}

} // verus!
