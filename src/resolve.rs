//! The fuzzy name resolver: turns a name typed by a user into an entity.
//!
//! Within each kind an exact name wins; otherwise the name at the smallest
//! Levenshtein distance is the candidate of that kind, the first one seen on a tie.
//! Across kinds, exact matches win over inexact ones, and several exact or
//! several inexact candidates are left for the user to choose from.
use vstd::prelude::*;
use crate::model::{Alias, Group, Item, ItemView, Script};
use crate::store::{Store, StoreView};
use crate::text::same_text;

verus! {

pub open spec fn min3(x: nat, y: nat, z: nat) -> nat {
    if x <= y && x <= z {
        x
    } else if y <= z {
        y
    } else {
        z
    }
}

/// The Levenshtein distance: the least number of single-character
/// insertions, deletions and substitutions that turn `a` into `b`.
#[verifier::opaque]
pub open spec fn levenshtein(a: Seq<char>, b: Seq<char>) -> nat
    decreases a.len() + b.len(),
{
    if a.len() == 0 {
        b.len()
    } else if b.len() == 0 {
        a.len()
    } else {
        min3(
            levenshtein(a.drop_last(), b) + 1,
            levenshtein(a, b.drop_last()) + 1,
            levenshtein(a.drop_last(), b.drop_last()) + if a.last() == b.last() {
                0nat
            } else {
                1nat
            },
        )
    }
}

/// Relies on `strsim::levenshtein`: the minimum number of insertions,
/// deletions and substitutions of characters that turn one string into the
/// other.
#[verifier::external_body]
fn edit_distance(a: &str, b: &str) -> (r: usize)
    ensures
        r as nat == levenshtein(a@, b@),
{
    strsim::levenshtein(a, b)
}

/// The position of the first name equal to `query`.
pub open spec fn first_exact(names: Seq<Seq<char>>, query: Seq<char>) -> Option<int>
    decreases names.len(),
{
    if names.len() == 0 {
        None
    } else {
        match first_exact(names.drop_last(), query) {
            Some(i) => Some(i),
            None => if names.last() == query {
                Some(names.len() - 1)
            } else {
                None
            },
        }
    }
}

/// The position of the first smallest distance.
pub open spec fn first_min(distances: Seq<usize>) -> int
    decreases distances.len(),
{
    if distances.len() <= 1 {
        0
    } else {
        let m = first_min(distances.drop_last());
        if distances.last() < distances[m] {
            distances.len() - 1
        } else {
            m
        }
    }
}

/// The closest of `names` to `query`: the first exact match if there is one,
/// else the first name at the smallest distance. `None` for no names.
pub open spec fn pick(names: Seq<Seq<char>>, query: Seq<char>, distances: Seq<usize>) -> Option<
    int,
> {
    if names.len() == 0 {
        None
    } else {
        match first_exact(names, query) {
            Some(i) => Some(i),
            None => Some(first_min(distances)),
        }
    }
}

/// The distance from each name to the query.
pub open spec fn distances_to(names: Seq<Seq<char>>, query: Seq<char>) -> Seq<usize> {
    Seq::new(names.len(), |i: int| levenshtein(names[i], query) as usize)
}

pub open spec fn string_views(s: Seq<String>) -> Seq<Seq<char>> {
    s.map_values(|x: String| x@)
}

proof fn lemma_first_min(distances: Seq<usize>)
    requires
        distances.len() > 0,
    ensures
        0 <= first_min(distances) < distances.len(),
    decreases distances.len(),
{
    if distances.len() > 1 {
        lemma_first_min(distances.drop_last());
    }
}

proof fn lemma_first_exact(names: Seq<Seq<char>>, query: Seq<char>)
    ensures
        match first_exact(names, query) {
            Some(i) => 0 <= i < names.len() && names[i] == query && forall|j: int|
                0 <= j < i ==> names[j] != query,
            None => forall|j: int| 0 <= j < names.len() ==> names[j] != query,
        },
    decreases names.len(),
{
    if names.len() > 0 {
        lemma_first_exact(names.drop_last(), query);
        assert forall|j: int| 0 <= j < names.len() - 1 implies names[j] == names.drop_last()[j] by {}
    }
}

/// Picks the closest name, given the distance from each name to the query:
/// the first name equal to the query if there is one, else the first name at
/// the smallest distance; `None` where there is no name.
pub fn pick_closest(names: &Vec<String>, query: &str, distances: &Vec<usize>) -> (r: Option<usize>)
    requires
        names@.len() == distances@.len(),
    ensures
        r == match pick(string_views(names@), query@, distances@) {
            Some(i) => Some(i as usize),
            None => None::<usize>,
        },
        r matches Some(i) ==> i < names@.len(),
{
    let ghost views = string_views(names@);
    proof {
        lemma_first_exact(views, query@);
    }
    if names.len() == 0 {
        return None;
    }
    let mut i: usize = 0;
    while i < names.len()
        invariant
            views == string_views(names@),
            i <= names@.len(),
            forall|j: int| 0 <= j < i ==> views[j] != query@,
        decreases names@.len() - i,
    {
        assert(views[i as int] == names@[i as int]@);
        if same_text(names[i].as_str(), query) {
            assert(first_exact(views, query@) == Some(i as int)) by {
                lemma_first_exact(views, query@);
                match first_exact(views, query@) {
                    Some(k) => {
                        if k < i {
                            assert(views[k] != query@);
                        } else if k > i {
                            assert(views[i as int] != query@);
                        }
                    },
                    None => {
                        assert(views[i as int] != query@);
                    },
                }
            }
            return Some(i);
        }
        i = i + 1;
    }
    assert(first_exact(views, query@) is None) by {
        lemma_first_exact(views, query@);
        match first_exact(views, query@) {
            Some(k) => {
                assert(views[k] != query@);
            },
            None => {},
        }
    }
    let mut best: usize = 0;
    let mut k: usize = 1;
    assert(distances@.take(1).drop_last() =~= Seq::<usize>::empty());
    while k < distances.len()
        invariant
            1 <= k <= distances@.len(),
            best < k,
            best as int == first_min(distances@.take(k as int)),
        decreases distances@.len() - k,
    {
        assert(distances@.take(k + 1).drop_last() =~= distances@.take(k as int));
        assert(distances@.take(k as int)[best as int] == distances@[best as int]);
        if distances[k] < distances[best] {
            best = k;
        }
        k = k + 1;
    }
    assert(distances@.take(k as int) =~= distances@);
    Some(best)
}

/// The closest of the names to the query (see `pick_closest`), by the
/// Levenshtein distance.
pub fn fuzzy_find(names: &Vec<String>, query: &str) -> (r: Option<usize>)
    ensures
        r == match pick(string_views(names@), query@, distances_to(string_views(names@), query@)) {
            Some(i) => Some(i as usize),
            None => None::<usize>,
        },
        r matches Some(i) ==> i < names@.len(),
{
    let mut distances: Vec<usize> = Vec::new();
    let mut i: usize = 0;
    while i < names.len()
        invariant
            i <= names@.len(),
            distances@ == distances_to(string_views(names@), query@).take(i as int),
        decreases names@.len() - i,
    {
        let d = edit_distance(names[i].as_str(), query);
        distances.push(d);
        i = i + 1;
        assert(distances@ =~= distances_to(string_views(names@), query@).take(i as int));
    }
    assert(distances@ =~= distances_to(string_views(names@), query@));
    pick_closest(names, query, &distances)
}

impl StoreView {
    pub open spec fn alias_names(self) -> Seq<Seq<char>> {
        Seq::new(self.aliases.len(), |i: int| self.aliases[i].name)
    }

    pub open spec fn group_names(self) -> Seq<Seq<char>> {
        Seq::new(self.groups.len(), |i: int| self.groups[i].name)
    }

    pub open spec fn script_names(self) -> Seq<Seq<char>> {
        Seq::new(self.scripts.len(), |i: int| self.scripts[i].name)
    }
}

/// The position of the alias closest to `query`.
pub open spec fn closest_alias(s: StoreView, query: Seq<char>) -> Option<int> {
    pick(s.alias_names(), query, distances_to(s.alias_names(), query))
}

/// The position of the group closest to `query`.
pub open spec fn closest_group(s: StoreView, query: Seq<char>) -> Option<int> {
    pick(s.group_names(), query, distances_to(s.group_names(), query))
}

/// The position of the script closest to `query`.
pub open spec fn closest_script(s: StoreView, query: Seq<char>) -> Option<int> {
    pick(s.script_names(), query, distances_to(s.script_names(), query))
}

/// The outcome of resolving a name.
#[derive(Debug, Clone, PartialEq, Eq)]
pub enum Resolution {
    /// One entity has exactly that name: use it.
    Exact(Item),
    /// One entity has a close name: ask the user to confirm it.
    Confirm(Item),
    /// Several entities qualify: let the user pick one, or none.
    Choose(Vec<Item>),
    /// Nothing is in scope.
    NotFound,
}

pub ghost enum ResolutionView {
    Exact(ItemView),
    Confirm(ItemView),
    Choose(Seq<ItemView>),
    NotFound,
}

pub open spec fn item_views(s: Seq<Item>) -> Seq<ItemView> {
    s.map_values(|it: Item| it@)
}

impl View for Resolution {
    type V = ResolutionView;

    open spec fn view(&self) -> ResolutionView {
        match self {
            Resolution::Exact(it) => ResolutionView::Exact(it@),
            Resolution::Confirm(it) => ResolutionView::Confirm(it@),
            Resolution::Choose(items) => ResolutionView::Choose(item_views(items@)),
            Resolution::NotFound => ResolutionView::NotFound,
        }
    }
}

pub open spec fn item_name(it: ItemView) -> Seq<char> {
    match it {
        ItemView::Alias(a) => a.name,
        ItemView::Group(g) => g.name,
        ItemView::Script(sc) => sc.name,
    }
}

/// The candidate of each kind in scope: the closest alias, group and script.
pub open spec fn alias_candidate(s: StoreView, query: Seq<char>) -> Option<ItemView> {
    match closest_alias(s, query) {
        Some(i) => Some(ItemView::Alias(s.aliases[i])),
        None => None,
    }
}

pub open spec fn group_candidate(s: StoreView, query: Seq<char>, include_groups: bool) -> Option<
    ItemView,
> {
    if !include_groups {
        None
    } else {
        match closest_group(s, query) {
            Some(i) => Some(ItemView::Group(s.joined()[i])),
            None => None,
        }
    }
}

pub open spec fn script_candidate(s: StoreView, query: Seq<char>) -> Option<ItemView> {
    match closest_script(s, query) {
        Some(i) => Some(ItemView::Script(s.scripts[i])),
        None => None,
    }
}

pub open spec fn present(c: Option<ItemView>) -> Seq<ItemView> {
    match c {
        Some(it) => seq![it],
        None => Seq::empty(),
    }
}

pub open spec fn present_exact(c: Option<ItemView>, query: Seq<char>) -> Seq<ItemView> {
    match c {
        Some(it) => if item_name(it) == query {
            seq![it]
        } else {
            Seq::empty()
        },
        None => Seq::empty(),
    }
}

/// The candidates, one per kind in scope, in the order alias, group, script.
pub open spec fn candidates(s: StoreView, query: Seq<char>, include_groups: bool) -> Seq<ItemView> {
    present(alias_candidate(s, query)) + present(group_candidate(s, query, include_groups))
        + present(script_candidate(s, query))
}

/// The candidates named exactly `query`.
pub open spec fn exact_candidates(s: StoreView, query: Seq<char>, include_groups: bool) -> Seq<
    ItemView,
> {
    present_exact(alias_candidate(s, query), query) + present_exact(
        group_candidate(s, query, include_groups),
        query,
    ) + present_exact(script_candidate(s, query), query)
}

/// How a name resolves: exact matches win, a single exact match outright and
/// several as a choice; without one, a single candidate is to be confirmed
/// and several are a choice.
pub open spec fn resolution(s: StoreView, query: Seq<char>, include_groups: bool) -> ResolutionView {
    let exact = exact_candidates(s, query, include_groups);
    let all = candidates(s, query, include_groups);
    if exact.len() == 1 {
        ResolutionView::Exact(exact[0])
    } else if exact.len() > 1 {
        ResolutionView::Choose(exact)
    } else if all.len() == 0 {
        ResolutionView::NotFound
    } else if all.len() == 1 {
        ResolutionView::Confirm(all[0])
    } else {
        ResolutionView::Choose(all)
    }
}

proof fn lemma_pick_exact(names: Seq<Seq<char>>, query: Seq<char>, distances: Seq<usize>, k: int)
    requires
        0 <= k < names.len(),
        names[k] == query,
    ensures
        pick(names, query, distances) matches Some(i) && 0 <= i < names.len() && names[i] == query,
{
    lemma_first_exact(names, query);
}

proof fn lemma_pick_in_range(names: Seq<Seq<char>>, query: Seq<char>, distances: Seq<usize>)
    requires
        names.len() == distances.len(),
    ensures
        pick(names, query, distances) matches Some(i) ==> 0 <= i < names.len(),
        names.len() > 0 ==> pick(names, query, distances) is Some,
{
    lemma_first_exact(names, query);
    if names.len() > 0 {
        lemma_first_min(distances);
    }
}

/// Exact matches win: where an entity in scope is named exactly `query`, the
/// resolution is an entity of that name, or, where entities of several kinds
/// have that name, a choice among those entities alone. No inexact candidate
/// is offered.
pub proof fn lemma_exact_match_wins(s: StoreView, query: Seq<char>, include_groups: bool)
    requires
        s.has_alias(query) || (include_groups && s.has_group_named(query)) || s.has_script(query),
    ensures
        match resolution(s, query, include_groups) {
            ResolutionView::Exact(it) => item_name(it) == query,
            ResolutionView::Choose(items) => items.len() >= 2 && forall|i: int|
                0 <= i < items.len() ==> item_name(#[trigger] items[i]) == query,
            _ => false,
        },
{
    let e1 = present_exact(alias_candidate(s, query), query);
    let e2 = present_exact(group_candidate(s, query, include_groups), query);
    let e3 = present_exact(script_candidate(s, query), query);
    if s.has_alias(query) {
        let k = choose|k: int| 0 <= k < s.aliases.len() && s.aliases[k].name == query;
        lemma_pick_exact(s.alias_names(), query, distances_to(s.alias_names(), query), k);
        assert(e1.len() == 1);
    } else if include_groups && s.has_group_named(query) {
        let k = choose|k: int| 0 <= k < s.groups.len() && s.groups[k].name == query;
        lemma_pick_exact(s.group_names(), query, distances_to(s.group_names(), query), k);
        assert(e2.len() == 1);
    } else {
        let k = choose|k: int| 0 <= k < s.scripts.len() && s.scripts[k].name == query;
        lemma_pick_exact(s.script_names(), query, distances_to(s.script_names(), query), k);
        assert(e3.len() == 1);
    }
    let exact = exact_candidates(s, query, include_groups);
    assert(exact == e1 + e2 + e3);
    assert forall|i: int| 0 <= i < exact.len() implies item_name(#[trigger] exact[i]) == query by {
        if i < e1.len() {
            assert(exact[i] == e1[i]);
        } else if i < e1.len() + e2.len() {
            assert(exact[i] == e2[i - e1.len()]);
        } else {
            assert(exact[i] == e3[i - e1.len() - e2.len()]);
        }
    }
}

/// What `fuzzy_find` returns, read back as a position in the names.
proof fn lemma_found_index(names: Seq<Seq<char>>, query: Seq<char>, found: Option<usize>)
    requires
        names.len() <= usize::MAX,
        found == match pick(names, query, distances_to(names, query)) {
            Some(i) => Some(i as usize),
            None => None::<usize>,
        },
    ensures
        match pick(names, query, distances_to(names, query)) {
            Some(i) => found == Some(i as usize) && i == found->0 as int && 0 <= i < names.len(),
            None => found is None,
        },
{
    let d = distances_to(names, query);
    assert(d.len() == names.len());
    lemma_pick_in_range(names, query, d);
    match pick(names, query, d) {
        Some(i) => {
            assert(0 <= i < names.len());
            assert((i as usize) as int == i);
        },
        None => {},
    }
}

fn alias_names_of(store: &Store) -> (r: Vec<String>)
    ensures
        string_views(r@) == store@.alias_names(),
{
    let mut r: Vec<String> = Vec::new();
    let mut i: usize = 0;
    while i < store.aliases.len()
        invariant
            i <= store.aliases@.len(),
            string_views(r@) == store@.alias_names().take(i as int),
        decreases store.aliases@.len() - i,
    {
        assert(store@.aliases[i as int] == store.aliases@[i as int]@);
        let ghost prev = string_views(r@);
        let n = store.aliases[i].name.clone();
        r.push(n);
        assert(string_views(r@) =~= prev.push(n@));
        assert(store@.alias_names().take(i + 1) =~= store@.alias_names().take(i as int).push(n@));
        i = i + 1;
    }
    assert(store@.alias_names().take(i as int) =~= store@.alias_names());
    r
}

fn group_names_of(store: &Store) -> (r: Vec<String>)
    ensures
        string_views(r@) == store@.group_names(),
{
    let mut r: Vec<String> = Vec::new();
    let mut i: usize = 0;
    while i < store.groups.len()
        invariant
            i <= store.groups@.len(),
            string_views(r@) == store@.group_names().take(i as int),
        decreases store.groups@.len() - i,
    {
        assert(store@.groups[i as int] == store.groups@[i as int]@);
        let ghost prev = string_views(r@);
        let n = store.groups[i].name.clone();
        r.push(n);
        assert(string_views(r@) =~= prev.push(n@));
        assert(store@.group_names().take(i + 1) =~= store@.group_names().take(i as int).push(n@));
        i = i + 1;
    }
    assert(store@.group_names().take(i as int) =~= store@.group_names());
    r
}

fn script_names_of(store: &Store) -> (r: Vec<String>)
    ensures
        string_views(r@) == store@.script_names(),
{
    let mut r: Vec<String> = Vec::new();
    let mut i: usize = 0;
    while i < store.scripts.len()
        invariant
            i <= store.scripts@.len(),
            string_views(r@) == store@.script_names().take(i as int),
        decreases store.scripts@.len() - i,
    {
        assert(store@.scripts[i as int] == store.scripts@[i as int]@);
        let ghost prev = string_views(r@);
        let n = store.scripts[i].name.clone();
        r.push(n);
        assert(string_views(r@) =~= prev.push(n@));
        assert(store@.script_names().take(i + 1) =~= store@.script_names().take(i as int).push(n@));
        i = i + 1;
    }
    assert(store@.script_names().take(i as int) =~= store@.script_names());
    r
}

impl Store {
    /// The alias with the given name, or else the one with the closest name.
    pub fn fuzzy_get_alias(&self, name: &str) -> (r: Option<Alias>)
        ensures
            match closest_alias(self@, name@) {
                Some(i) => r is Some && r->0@ == self@.aliases[i],
                None => r is None,
            },
    {
        let names = alias_names_of(self);
        let count = names.len();
        let found = fuzzy_find(&names, name);
        proof {
            assert(string_views(names@).len() == count);
            lemma_found_index(self@.alias_names(), name@, found);
        }
        match found {
            Some(i) => {
                assert(self.aliases@[i as int]@ == self@.aliases[i as int]);
                Some(self.aliases[i].duplicate())
            },
            None => None,
        }
    }

    /// The group with the given name, or else the one with the closest name,
    /// with its members.
    pub fn fuzzy_get_group(&self, name: &str) -> (r: Option<Group>)
        ensures
            match closest_group(self@, name@) {
                Some(i) => r is Some && r->0@ == self@.joined()[i],
                None => r is None,
            },
    {
        let names = group_names_of(self);
        let count = names.len();
        let found = fuzzy_find(&names, name);
        proof {
            assert(string_views(names@).len() == count);
            lemma_found_index(self@.group_names(), name@, found);
        }
        match found {
            Some(i) => Some(self.group_with_members(i)),
            None => None,
        }
    }

    /// The script with the given name, or else the one with the closest name.
    pub fn fuzzy_get_script(&self, name: &str) -> (r: Option<Script>)
        ensures
            match closest_script(self@, name@) {
                Some(i) => r is Some && r->0@ == self@.scripts[i],
                None => r is None,
            },
    {
        let names = script_names_of(self);
        let count = names.len();
        let found = fuzzy_find(&names, name);
        proof {
            assert(string_views(names@).len() == count);
            lemma_found_index(self@.script_names(), name@, found);
        }
        match found {
            Some(i) => {
                assert(self.scripts@[i as int]@ == self@.scripts[i as int]);
                Some(self.scripts[i].duplicate())
            },
            None => None,
        }
    }

    /// Resolves a name typed by a user to an alias, a script, or, where
    /// `include_groups` holds, a group (see `resolution`).
    pub fn get_item(&self, name: &str, include_groups: bool) -> (r: Resolution)
        ensures
            r@ == resolution(self@, name@, include_groups),
    {
        let a = self.fuzzy_get_alias(name);
        let g = if include_groups {
            self.fuzzy_get_group(name)
        } else {
            None
        };
        let sc = self.fuzzy_get_script(name);
        let ea = match &a {
            Some(x) => same_text(x.name.as_str(), name),
            None => false,
        };
        let eg = match &g {
            Some(x) => same_text(x.name.as_str(), name),
            None => false,
        };
        let es = match &sc {
            Some(x) => same_text(x.name.as_str(), name),
            None => false,
        };
        let ghost s = self@;
        let ghost q = name@;
        let ghost ca = alias_candidate(s, q);
        let ghost cg = group_candidate(s, q, include_groups);
        let ghost cs = script_candidate(s, q);
        proof {
            lemma_pick_in_range(s.alias_names(), q, distances_to(s.alias_names(), q));
            lemma_pick_in_range(s.group_names(), q, distances_to(s.group_names(), q));
            lemma_pick_in_range(s.script_names(), q, distances_to(s.script_names(), q));
        }
        let ghost ia: Option<ItemView> = match a {
            Some(ref x) => Some(ItemView::Alias(x@)),
            None => None,
        };
        let ghost ig: Option<ItemView> = match g {
            Some(ref x) => Some(ItemView::Group(x@)),
            None => None,
        };
        let ghost is: Option<ItemView> = match sc {
            Some(ref x) => Some(ItemView::Script(x@)),
            None => None,
        };
        assert(ia == ca);
        assert(ig == cg);
        assert(is == cs);
        let n_exact: usize = (if ea {
            1usize
        } else {
            0
        }) + (if eg {
            1usize
        } else {
            0
        }) + (if es {
            1usize
        } else {
            0
        });
        let keep_all = n_exact == 0;
        let mut items: Vec<Item> = Vec::new();
        match a {
            Some(x) => {
                if keep_all || ea {
                    items.push(Item::Alias(x));
                }
            },
            None => {},
        }
        let ghost after_a = item_views(items@);
        assert(after_a =~= if keep_all {
            present(ca)
        } else {
            present_exact(ca, q)
        });
        match g {
            Some(x) => {
                if keep_all || eg {
                    items.push(Item::Group(x));
                }
            },
            None => {},
        }
        let ghost after_g = item_views(items@);
        assert(after_g =~= after_a + if keep_all {
            present(cg)
        } else {
            present_exact(cg, q)
        });
        match sc {
            Some(x) => {
                if keep_all || es {
                    items.push(Item::Script(x));
                }
            },
            None => {},
        }
        assert(item_views(items@) =~= after_g + if keep_all {
            present(cs)
        } else {
            present_exact(cs, q)
        });
        assert(exact_candidates(s, q, include_groups).len() == n_exact);
        assert(keep_all ==> item_views(items@) == candidates(s, q, include_groups));
        assert(!keep_all ==> item_views(items@) == exact_candidates(s, q, include_groups));
        if items.len() == 0 {
            Resolution::NotFound
        } else if items.len() == 1 {
            let it = items.pop().unwrap();
            assert(it@ == item_views(items@.push(it))[0]);
            if keep_all {
                Resolution::Confirm(it)
            } else {
                Resolution::Exact(it)
            }
        } else {
            Resolution::Choose(items)
        }
    }
}

} // verus!
