//! An in-memory snapshot of the entity store, with the invariants that keep
//! it consistent: unique names within each kind, every member in an existing
//! group, and the default group always present and protected.
use vstd::prelude::*;
use crate::model::{
    Alias, AliasView, Script, ScriptView, Group, GroupView, alias_views, script_views, group_views,
};
use crate::codec::{
    one_line, one_line_chars,
    is_whole_definition, validate_alias, parse_definition, parse_alias, is_alias_name, is_word, lemma_parsed_name_valid,
};
use crate::paths::{
    file_name, stem, extension, managed_path, is_script_name, file_name_of, split_stem,
    managed_path_of, valid_script_name,
};
use crate::text::{chars_of, string_of, push_all, same_text};
use crate::runcom::{
    runcom_text, render_runcom, alias_lines, script_lines, group_block, group_blocks,
};

verus! {

/// The id of the default group, which owns every orphaned entity.
pub const DEFAULT_GROUP_ID: i32 = 1;

/// The name of the default group.
pub open spec fn default_group_name() -> Seq<char> {
    "uncategorized"@
}

/// Whether a name is the default group's.
pub fn is_default_group_name(name: &str) -> (r: bool)
    ensures
        r == (name@ == default_group_name()),
{
    same_text(name, "uncategorized")
}

/// Why an operation on the store or on the generated file failed.
#[derive(Debug, Clone, Copy, PartialEq, Eq, Structural)]
pub enum NymError {
    /// A malformed alias definition, or an empty or invalid name.
    Validation,
    /// The name is already taken within its kind.
    DuplicateName,
    /// No entity answers to the name or id.
    NotFound,
    /// The default group cannot be renamed or deleted.
    ProtectedGroup,
    /// The store could not complete the operation (no group id is left).
    StoreIo,
    /// The run-control file could not be written.
    FileWrite,
}

/// A row of the group table.
#[derive(Debug, Clone, PartialEq, Eq)]
pub struct GroupRecord {
    pub id: i32,
    pub name: String,
}

pub ghost struct GroupRecordView {
    pub id: i32,
    pub name: Seq<char>,
}

impl View for GroupRecord {
    type V = GroupRecordView;

    open spec fn view(&self) -> GroupRecordView {
        GroupRecordView { id: self.id, name: self.name@ }
    }
}

pub open spec fn record_views(s: Seq<GroupRecord>) -> Seq<GroupRecordView> {
    s.map_values(|g: GroupRecord| g@)
}

/// The three tables of the store, in their order.
#[derive(Debug, Clone)]
pub struct Store {
    pub groups: Vec<GroupRecord>,
    pub aliases: Vec<Alias>,
    pub scripts: Vec<Script>,
}

pub ghost struct StoreView {
    pub groups: Seq<GroupRecordView>,
    pub aliases: Seq<AliasView>,
    pub scripts: Seq<ScriptView>,
}

impl View for Store {
    type V = StoreView;

    open spec fn view(&self) -> StoreView {
        StoreView {
            groups: record_views(self.groups@),
            aliases: alias_views(self.aliases@),
            scripts: script_views(self.scripts@),
        }
    }
}

/// The largest group id, or 0 where there is no group.
pub open spec fn max_group_id(groups: Seq<GroupRecordView>) -> int
    decreases groups.len(),
{
    if groups.len() == 0 {
        0
    } else {
        let m = max_group_id(groups.drop_last());
        if groups.last().id > m {
            groups.last().id as int
        } else {
            m
        }
    }
}

/// A member moved out of group `from` lands in the default group.
pub open spec fn reassign_alias(a: AliasView, from: i32) -> AliasView {
    if a.group_id == from {
        AliasView { group_id: DEFAULT_GROUP_ID, ..a }
    } else {
        a
    }
}

pub open spec fn reassign_script(s: ScriptView, from: i32) -> ScriptView {
    if s.group_id == from {
        ScriptView { group_id: DEFAULT_GROUP_ID, ..s }
    } else {
        s
    }
}

impl StoreView {
    pub open spec fn has_group(self, id: i32) -> bool {
        exists|i: int| 0 <= i < self.groups.len() && #[trigger] self.groups[i].id == id
    }

    pub open spec fn has_group_named(self, name: Seq<char>) -> bool {
        exists|i: int| 0 <= i < self.groups.len() && #[trigger] self.groups[i].name == name
    }

    pub open spec fn has_alias(self, name: Seq<char>) -> bool {
        exists|i: int| 0 <= i < self.aliases.len() && #[trigger] self.aliases[i].name == name
    }

    pub open spec fn has_script(self, name: Seq<char>) -> bool {
        exists|i: int| 0 <= i < self.scripts.len() && #[trigger] self.scripts[i].name == name
    }

    /// The store is consistent: the default group comes first, names are
    /// unique within each kind, group ids are unique, and every alias and
    /// script belongs to an existing group.
    pub open spec fn wf(self) -> bool {
        &&& self.groups.len() > 0
        &&& self.groups[0].id == DEFAULT_GROUP_ID
        &&& self.groups[0].name == default_group_name()
        &&& forall|i: int, j: int|
            #![trigger self.groups[i], self.groups[j]]
            0 <= i < j < self.groups.len() ==> self.groups[i].id != self.groups[j].id
                && self.groups[i].name != self.groups[j].name
        &&& forall|i: int, j: int|
            #![trigger self.aliases[i], self.aliases[j]]
            0 <= i < j < self.aliases.len() ==> self.aliases[i].name != self.aliases[j].name
        &&& forall|i: int, j: int|
            #![trigger self.scripts[i], self.scripts[j]]
            0 <= i < j < self.scripts.len() ==> self.scripts[i].name != self.scripts[j].name
        &&& forall|i: int|
            0 <= i < self.aliases.len() ==> self.has_group(#[trigger] self.aliases[i].group_id)
        &&& forall|i: int|
            0 <= i < self.scripts.len() ==> self.has_group(#[trigger] self.scripts[i].group_id)
    }

    /// The members of group `id`, in store order.
    pub open spec fn aliases_of(self, id: i32) -> Seq<AliasView> {
        self.aliases.filter(|a: AliasView| a.group_id == id)
    }

    pub open spec fn scripts_of(self, id: i32) -> Seq<ScriptView> {
        self.scripts.filter(|s: ScriptView| s.group_id == id)
    }

    /// Every group with its members, in store order.
    pub open spec fn joined(self) -> Seq<GroupView> {
        Seq::new(
            self.groups.len(),
            |i: int|
                GroupView {
                    id: self.groups[i].id,
                    name: self.groups[i].name,
                    aliases: self.aliases_of(self.groups[i].id),
                    scripts: self.scripts_of(self.groups[i].id),
                },
        )
    }

    /// The store after group `k` is deleted and its members reassigned.
    pub open spec fn without_group(self, k: int) -> StoreView {
        let id = self.groups[k].id;
        StoreView {
            groups: self.groups.remove(k),
            aliases: self.aliases.map_values(|a: AliasView| reassign_alias(a, id)),
            scripts: self.scripts.map_values(|s: ScriptView| reassign_script(s, id)),
        }
    }
}

proof fn lemma_max_group_id(groups: Seq<GroupRecordView>)
    ensures
        forall|i: int| 0 <= i < groups.len() ==> #[trigger] groups[i].id <= max_group_id(groups),
        max_group_id(groups) >= 0,
        max_group_id(groups) <= i32::MAX,
    decreases groups.len(),
{
    if groups.len() > 0 {
        lemma_max_group_id(groups.drop_last());
        assert forall|i: int| 0 <= i < groups.len() implies #[trigger] groups[i].id
            <= max_group_id(groups) by {
            if i < groups.len() - 1 {
                assert(groups[i] == groups.drop_last()[i]);
            }
        }
    }
}

/// A group name: non-empty and on one line, so that its header comment in the
/// run-control file stays one comment line.
pub open spec fn is_group_name(name: Seq<char>) -> bool {
    name.len() > 0 && one_line(name)
}

/// Whether a name can be given to a group.
pub fn valid_group_name(name: &str) -> (r: bool)
    ensures
        r == is_group_name(name@),
{
    let cs = chars_of(name);
    if cs.len() == 0 {
        return false;
    }
    let mut i: usize = 0;
    while i < cs.len()
        invariant
            cs@ == name@,
            i <= cs@.len(),
            forall|j: int| 0 <= j < i ==> cs@[j] != '\n',
        decreases cs@.len() - i,
    {
        if cs[i] == '\n' {
            return false;
        }
        i = i + 1;
    }
    true
}

/// Why renaming group `old_name` to `new_name` fails, if it does.
pub open spec fn rename_group_error(s: StoreView, old_name: Seq<char>, new_name: Seq<char>) -> Option<
    NymError,
> {
    if old_name == default_group_name() {
        Some(NymError::ProtectedGroup)
    } else if !s.has_group_named(old_name) {
        Some(NymError::NotFound)
    } else if !is_group_name(new_name) {
        Some(NymError::Validation)
    } else if new_name != old_name && s.has_group_named(new_name) {
        Some(NymError::DuplicateName)
    } else {
        None
    }
}

/// Why deleting group `name` fails, if it does.
pub open spec fn remove_group_error(s: StoreView, name: Seq<char>) -> Option<NymError> {
    if name == default_group_name() {
        Some(NymError::ProtectedGroup)
    } else if !s.has_group_named(name) {
        Some(NymError::NotFound)
    } else {
        None
    }
}

/// Orphans are reassigned: once a group other than the default one is
/// deleted, each of its former aliases and scripts belongs to the default
/// group and is otherwise unchanged, no group of that name or id is left, and
/// the store stays consistent.
pub proof fn lemma_orphans_reassigned(s: StoreView, k: int)
    requires
        s.wf(),
        0 < k < s.groups.len(),
    ensures
        s.without_group(k).wf(),
        s.without_group(k).aliases.len() == s.aliases.len(),
        s.without_group(k).scripts.len() == s.scripts.len(),
        forall|i: int|
            0 <= i < s.aliases.len() && (#[trigger] s.aliases[i]).group_id == s.groups[k].id
                ==> s.without_group(k).aliases[i] == (AliasView {
                group_id: DEFAULT_GROUP_ID,
                ..s.aliases[i]
            }),
        forall|i: int|
            0 <= i < s.scripts.len() && (#[trigger] s.scripts[i]).group_id == s.groups[k].id
                ==> s.without_group(k).scripts[i] == (ScriptView {
                group_id: DEFAULT_GROUP_ID,
                ..s.scripts[i]
            }),
        !s.without_group(k).has_group_named(s.groups[k].name),
        !s.without_group(k).has_group(s.groups[k].id),
{
    let t = s.without_group(k);
    let gid = s.groups[k].id;
    assert(t.groups[0] == s.groups[0]);
    assert forall|i: int, j: int|
        #![trigger t.groups[i], t.groups[j]]
        0 <= i < j < t.groups.len() implies t.groups[i].id
        != t.groups[j].id && t.groups[i].name != t.groups[j].name by {
        let a = if i < k { i } else { i + 1 };
        let b = if j < k { j } else { j + 1 };
        assert(t.groups[i] == s.groups[a]);
        assert(t.groups[j] == s.groups[b]);
        assert(s.groups[a].id != s.groups[b].id);
    }
    assert forall|i: int, j: int|
        #![trigger t.aliases[i], t.aliases[j]]
        0 <= i < j < t.aliases.len() implies t.aliases[i].name != t.aliases[j].name by {
        assert(t.aliases[i].name == s.aliases[i].name);
        assert(t.aliases[j].name == s.aliases[j].name);
    }
    assert forall|i: int, j: int|
        #![trigger t.scripts[i], t.scripts[j]]
        0 <= i < j < t.scripts.len() implies t.scripts[i].name != t.scripts[j].name by {
        assert(t.scripts[i].name == s.scripts[i].name);
        assert(t.scripts[j].name == s.scripts[j].name);
    }
    assert forall|id: i32| id != gid && #[trigger] s.has_group(id) implies t.has_group(id) by {
        let w = choose|w: int| 0 <= w < s.groups.len() && s.groups[w].id == id;
        assert(w != k);
        if w < k {
            assert(t.groups[w] == s.groups[w]);
        } else {
            assert(t.groups[w - 1] == s.groups[w]);
        }
    }
    assert(t.has_group(DEFAULT_GROUP_ID)) by {
        assert(t.groups[0].id == DEFAULT_GROUP_ID);
    }
    assert forall|i: int| 0 <= i < t.aliases.len() implies t.has_group(
        #[trigger] t.aliases[i].group_id,
    ) by {
        assert(s.has_group(s.aliases[i].group_id));
    }
    assert forall|i: int| 0 <= i < t.scripts.len() implies t.has_group(
        #[trigger] t.scripts[i].group_id,
    ) by {
        assert(s.has_group(s.scripts[i].group_id));
    }
    assert(!t.has_group_named(s.groups[k].name)) by {
        if t.has_group_named(s.groups[k].name) {
            let w = choose|w: int| 0 <= w < t.groups.len() && t.groups[w].name == s.groups[k].name;
            if w < k {
                assert(t.groups[w] == s.groups[w]);
            } else {
                assert(t.groups[w] == s.groups[w + 1]);
            }
        }
    }
    assert(!t.has_group(gid)) by {
        if t.has_group(gid) {
            let w = choose|w: int| 0 <= w < t.groups.len() && t.groups[w].id == gid;
            if w < k {
                assert(t.groups[w] == s.groups[w]);
            } else {
                assert(t.groups[w] == s.groups[w + 1]);
            }
        }
    }
}

impl StoreView {
    pub open spec fn alias_pos(self, name: Seq<char>) -> int {
        choose|k: int| 0 <= k < self.aliases.len() && #[trigger] self.aliases[k].name == name
    }

    pub open spec fn script_pos(self, name: Seq<char>) -> int {
        choose|k: int| 0 <= k < self.scripts.len() && #[trigger] self.scripts[k].name == name
    }

    pub open spec fn group_pos(self, name: Seq<char>) -> int {
        choose|k: int| 0 <= k < self.groups.len() && #[trigger] self.groups[k].name == name
    }

    pub open spec fn group_id_named(self, name: Seq<char>) -> i32 {
        self.groups[self.group_pos(name)].id
    }

    pub open spec fn with_aliases(self, aliases: Seq<AliasView>) -> StoreView {
        StoreView { aliases, ..self }
    }

    pub open spec fn with_scripts(self, scripts: Seq<ScriptView>) -> StoreView {
        StoreView { scripts, ..self }
    }
}

/// What adding the alias that `definition` describes does to the store.
pub open spec fn add_alias_outcome(
    s: StoreView,
    definition: Seq<char>,
    description: Seq<char>,
    group_id: i32,
) -> Result<StoreView, NymError> {
    match parse_definition(definition) {
        None => Err(NymError::Validation),
        Some((name, command)) => if !is_whole_definition(definition) {
            Err(NymError::Validation)
        } else if s.has_alias(name) {
            Err(NymError::DuplicateName)
        } else if !s.has_group(group_id) {
            Err(NymError::NotFound)
        } else {
            Ok(
                s.with_aliases(
                    s.aliases.push(
                        AliasView { name, command, description, enabled: true, group_id },
                    ),
                ),
            )
        },
    }
}

/// What renaming alias `old_name` to `new_name` does to the store.
pub open spec fn rename_alias_outcome(
    s: StoreView,
    old_name: Seq<char>,
    new_name: Seq<char>,
) -> Result<StoreView, NymError> {
    if !s.has_alias(old_name) {
        Err(NymError::NotFound)
    } else if !is_alias_name(new_name) {
        Err(NymError::Validation)
    } else if new_name != old_name && s.has_alias(new_name) {
        Err(NymError::DuplicateName)
    } else {
        let k = s.alias_pos(old_name);
        Ok(s.with_aliases(s.aliases.update(k, AliasView { name: new_name, ..s.aliases[k] })))
    }
}

/// What toggling alias `name` does to the store.
pub open spec fn toggle_alias_outcome(s: StoreView, name: Seq<char>) -> Result<StoreView, NymError> {
    if !s.has_alias(name) {
        Err(NymError::NotFound)
    } else {
        let k = s.alias_pos(name);
        Ok(
            s.with_aliases(
                s.aliases.update(k, AliasView { enabled: !s.aliases[k].enabled, ..s.aliases[k] }),
            ),
        )
    }
}

/// What moving alias `name` to group `group_name` does to the store.
pub open spec fn move_alias_outcome(s: StoreView, name: Seq<char>, group_name: Seq<char>) -> Result<
    StoreView,
    NymError,
> {
    if !s.has_alias(name) || !s.has_group_named(group_name) {
        Err(NymError::NotFound)
    } else {
        let k = s.alias_pos(name);
        Ok(
            s.with_aliases(
                s.aliases.update(
                    k,
                    AliasView { group_id: s.group_id_named(group_name), ..s.aliases[k] },
                ),
            ),
        )
    }
}

/// What removing alias `name` does to the store.
pub open spec fn remove_alias_outcome(s: StoreView, name: Seq<char>) -> Result<StoreView, NymError> {
    if !s.has_alias(name) {
        Err(NymError::NotFound)
    } else {
        Ok(s.with_aliases(s.aliases.remove(s.alias_pos(name))))
    }
}

proof fn lemma_alias_pos(s: StoreView, k: int)
    requires
        s.wf(),
        0 <= k < s.aliases.len(),
    ensures
        s.has_alias(s.aliases[k].name),
        s.alias_pos(s.aliases[k].name) == k,
{
    let name = s.aliases[k].name;
    assert(s.has_alias(name));
    let c = s.alias_pos(name);
    assert(s.aliases[c].name == name);
    if c < k {
        assert(s.aliases[c].name != s.aliases[k].name);
    } else if c > k {
        assert(s.aliases[k].name != s.aliases[c].name);
    }
}

proof fn lemma_script_pos(s: StoreView, k: int)
    requires
        s.wf(),
        0 <= k < s.scripts.len(),
    ensures
        s.has_script(s.scripts[k].name),
        s.script_pos(s.scripts[k].name) == k,
{
    let name = s.scripts[k].name;
    assert(s.has_script(name));
    let c = s.script_pos(name);
    assert(s.scripts[c].name == name);
    if c < k {
        assert(s.scripts[c].name != s.scripts[k].name);
    } else if c > k {
        assert(s.scripts[k].name != s.scripts[c].name);
    }
}

proof fn lemma_group_pos(s: StoreView, k: int)
    requires
        s.wf(),
        0 <= k < s.groups.len(),
    ensures
        s.has_group_named(s.groups[k].name),
        s.group_pos(s.groups[k].name) == k,
{
    let name = s.groups[k].name;
    assert(s.has_group_named(name));
    let c = s.group_pos(name);
    assert(s.groups[c].name == name);
    if c < k {
        assert(s.groups[c].name != s.groups[k].name);
    } else if c > k {
        assert(s.groups[k].name != s.groups[c].name);
    }
}

/// Replacing the aliases keeps the store consistent when names stay unique
/// and every alias names an existing group.
proof fn lemma_wf_aliases(s: StoreView, aliases: Seq<AliasView>)
    requires
        s.wf(),
        forall|i: int, j: int|
            #![trigger aliases[i], aliases[j]]
            0 <= i < j < aliases.len() ==> aliases[i].name != aliases[j].name,
        forall|i: int| 0 <= i < aliases.len() ==> s.has_group(#[trigger] aliases[i].group_id),
    ensures
        s.with_aliases(aliases).wf(),
{
}

proof fn lemma_wf_scripts(s: StoreView, scripts: Seq<ScriptView>)
    requires
        s.wf(),
        forall|i: int, j: int|
            #![trigger scripts[i], scripts[j]]
            0 <= i < j < scripts.len() ==> scripts[i].name != scripts[j].name,
        forall|i: int| 0 <= i < scripts.len() ==> s.has_group(#[trigger] scripts[i].group_id),
    ensures
        s.with_scripts(scripts).wf(),
{
}

/// Setting alias `k` to `a` keeps the store consistent when `a` keeps the
/// name or takes a free one, and names an existing group.
proof fn lemma_wf_set_alias(s: StoreView, k: int, a: AliasView)
    requires
        s.wf(),
        0 <= k < s.aliases.len(),
        a.name == s.aliases[k].name || !s.has_alias(a.name),
        s.has_group(a.group_id),
    ensures
        s.with_aliases(s.aliases.update(k, a)).wf(),
{
    let t = s.aliases.update(k, a);
    assert forall|i: int, j: int|
        #![trigger t[i], t[j]]
        0 <= i < j < t.len() implies t[i].name != t[j].name by {
        assert(s.aliases[i].name != s.aliases[j].name);
        if i == k && a.name != s.aliases[k].name {
            assert(!s.has_alias(a.name));
        } else if j == k && a.name != s.aliases[k].name {
            assert(!s.has_alias(a.name));
        }
    }
    assert forall|i: int| 0 <= i < t.len() implies s.has_group(#[trigger] t[i].group_id) by {
        if i != k {
            assert(t[i] == s.aliases[i]);
        }
    }
    lemma_wf_aliases(s, t);
}

proof fn lemma_wf_push_alias(s: StoreView, a: AliasView)
    requires
        s.wf(),
        !s.has_alias(a.name),
        s.has_group(a.group_id),
    ensures
        s.with_aliases(s.aliases.push(a)).wf(),
{
    let t = s.aliases.push(a);
    assert forall|i: int, j: int|
        #![trigger t[i], t[j]]
        0 <= i < j < t.len() implies t[i].name != t[j].name by {
        if j == s.aliases.len() {
            assert(t[i] == s.aliases[i]);
        } else {
            assert(s.aliases[i].name != s.aliases[j].name);
        }
    }
    assert forall|i: int| 0 <= i < t.len() implies s.has_group(#[trigger] t[i].group_id) by {
        if i < s.aliases.len() {
            assert(t[i] == s.aliases[i]);
        }
    }
    lemma_wf_aliases(s, t);
}

proof fn lemma_wf_remove_alias(s: StoreView, k: int)
    requires
        s.wf(),
        0 <= k < s.aliases.len(),
    ensures
        s.with_aliases(s.aliases.remove(k)).wf(),
{
    let t = s.aliases.remove(k);
    assert forall|i: int, j: int|
        #![trigger t[i], t[j]]
        0 <= i < j < t.len() implies t[i].name != t[j].name by {
        let a = if i < k { i } else { i + 1 };
        let b = if j < k { j } else { j + 1 };
        assert(t[i] == s.aliases[a]);
        assert(t[j] == s.aliases[b]);
    }
    assert forall|i: int| 0 <= i < t.len() implies s.has_group(#[trigger] t[i].group_id) by {
        let a = if i < k { i } else { i + 1 };
        assert(t[i] == s.aliases[a]);
    }
    lemma_wf_aliases(s, t);
}

/// The script that adding the file at `path` creates, before its checks.
pub open spec fn new_script(path: Seq<char>, dir: Seq<char>, description: Seq<char>, group_id: i32) -> ScriptView {
    let file = file_name(path);
    let name = stem(file);
    ScriptView {
        name,
        path: managed_path(dir, name, file),
        description,
        enabled: true,
        group_id,
    }
}

/// What adding the script file at `path`, to be kept under `dir`, does to the
/// store. The script is named after the file, up to its first `.`; the file
/// name must stay on one line.
pub open spec fn add_script_outcome(
    s: StoreView,
    path: Seq<char>,
    dir: Seq<char>,
    description: Seq<char>,
    group_id: i32,
) -> Result<StoreView, NymError> {
    let sc = new_script(path, dir, description, group_id);
    if sc.name.len() == 0 || !one_line(file_name(path)) {
        Err(NymError::Validation)
    } else if s.has_script(sc.name) {
        Err(NymError::DuplicateName)
    } else if !s.has_group(group_id) {
        Err(NymError::NotFound)
    } else {
        Ok(s.with_scripts(s.scripts.push(sc)))
    }
}

/// Where a renamed script's managed copy goes: a directory named after it,
/// holding a file named after it with the old extension.
pub open spec fn renamed_path(old_path: Seq<char>, new_name: Seq<char>, dir: Seq<char>) -> Seq<char> {
    managed_path(dir, new_name, new_name + extension(file_name(old_path)))
}

/// What renaming script `old_name` to `new_name` does to the store.
pub open spec fn rename_script_outcome(
    s: StoreView,
    old_name: Seq<char>,
    new_name: Seq<char>,
    dir: Seq<char>,
) -> Result<StoreView, NymError> {
    if !s.has_script(old_name) {
        Err(NymError::NotFound)
    } else if !is_script_name(new_name) {
        Err(NymError::Validation)
    } else if new_name != old_name && s.has_script(new_name) {
        Err(NymError::DuplicateName)
    } else {
        let k = s.script_pos(old_name);
        let sc = s.scripts[k];
        Ok(
            s.with_scripts(
                s.scripts.update(
                    k,
                    ScriptView { name: new_name, path: renamed_path(sc.path, new_name, dir), ..sc },
                ),
            ),
        )
    }
}

/// What toggling script `name` does to the store.
pub open spec fn toggle_script_outcome(s: StoreView, name: Seq<char>) -> Result<StoreView, NymError> {
    if !s.has_script(name) {
        Err(NymError::NotFound)
    } else {
        let k = s.script_pos(name);
        Ok(
            s.with_scripts(
                s.scripts.update(k, ScriptView { enabled: !s.scripts[k].enabled, ..s.scripts[k] }),
            ),
        )
    }
}

/// What moving script `name` to group `group_name` does to the store.
pub open spec fn move_script_outcome(s: StoreView, name: Seq<char>, group_name: Seq<char>) -> Result<
    StoreView,
    NymError,
> {
    if !s.has_script(name) || !s.has_group_named(group_name) {
        Err(NymError::NotFound)
    } else {
        let k = s.script_pos(name);
        Ok(
            s.with_scripts(
                s.scripts.update(
                    k,
                    ScriptView { group_id: s.group_id_named(group_name), ..s.scripts[k] },
                ),
            ),
        )
    }
}

/// What removing script `name` does to the store.
pub open spec fn remove_script_outcome(s: StoreView, name: Seq<char>) -> Result<StoreView, NymError> {
    if !s.has_script(name) {
        Err(NymError::NotFound)
    } else {
        Ok(s.with_scripts(s.scripts.remove(s.script_pos(name))))
    }
}

proof fn lemma_wf_set_script(s: StoreView, k: int, a: ScriptView)
    requires
        s.wf(),
        0 <= k < s.scripts.len(),
        a.name == s.scripts[k].name || !s.has_script(a.name),
        s.has_group(a.group_id),
    ensures
        s.with_scripts(s.scripts.update(k, a)).wf(),
{
    let t = s.scripts.update(k, a);
    assert forall|i: int, j: int|
        #![trigger t[i], t[j]]
        0 <= i < j < t.len() implies t[i].name != t[j].name by {
        assert(s.scripts[i].name != s.scripts[j].name);
        if i == k && a.name != s.scripts[k].name {
            assert(!s.has_script(a.name));
        } else if j == k && a.name != s.scripts[k].name {
            assert(!s.has_script(a.name));
        }
    }
    assert forall|i: int| 0 <= i < t.len() implies s.has_group(#[trigger] t[i].group_id) by {
        if i != k {
            assert(t[i] == s.scripts[i]);
        }
    }
    lemma_wf_scripts(s, t);
}

proof fn lemma_wf_push_script(s: StoreView, a: ScriptView)
    requires
        s.wf(),
        !s.has_script(a.name),
        s.has_group(a.group_id),
    ensures
        s.with_scripts(s.scripts.push(a)).wf(),
{
    let t = s.scripts.push(a);
    assert forall|i: int, j: int|
        #![trigger t[i], t[j]]
        0 <= i < j < t.len() implies t[i].name != t[j].name by {
        if j == s.scripts.len() {
            assert(t[i] == s.scripts[i]);
        } else {
            assert(s.scripts[i].name != s.scripts[j].name);
        }
    }
    assert forall|i: int| 0 <= i < t.len() implies s.has_group(#[trigger] t[i].group_id) by {
        if i < s.scripts.len() {
            assert(t[i] == s.scripts[i]);
        }
    }
    lemma_wf_scripts(s, t);
}

proof fn lemma_wf_remove_script(s: StoreView, k: int)
    requires
        s.wf(),
        0 <= k < s.scripts.len(),
    ensures
        s.with_scripts(s.scripts.remove(k)).wf(),
{
    let t = s.scripts.remove(k);
    assert forall|i: int, j: int|
        #![trigger t[i], t[j]]
        0 <= i < j < t.len() implies t[i].name != t[j].name by {
        let a = if i < k { i } else { i + 1 };
        let b = if j < k { j } else { j + 1 };
        assert(t[i] == s.scripts[a]);
        assert(t[j] == s.scripts[b]);
    }
    assert forall|i: int| 0 <= i < t.len() implies s.has_group(#[trigger] t[i].group_id) by {
        let a = if i < k { i } else { i + 1 };
        assert(t[i] == s.scripts[a]);
    }
    lemma_wf_scripts(s, t);
}

/// Every alias and script of group `id` is enabled.
pub open spec fn group_all_enabled(s: StoreView, id: i32) -> bool {
    &&& forall|i: int|
        0 <= i < s.aliases.len() && (#[trigger] s.aliases[i]).group_id == id ==> s.aliases[i].enabled
    &&& forall|i: int|
        0 <= i < s.scripts.len() && (#[trigger] s.scripts[i]).group_id == id ==> s.scripts[i].enabled
}

pub open spec fn set_alias_enabled(a: AliasView, id: i32, enabled: bool) -> AliasView {
    if a.group_id == id {
        AliasView { enabled, ..a }
    } else {
        a
    }
}

pub open spec fn set_script_enabled(sc: ScriptView, id: i32, enabled: bool) -> ScriptView {
    if sc.group_id == id {
        ScriptView { enabled, ..sc }
    } else {
        sc
    }
}

/// Every alias and script of group `id` is disabled.
pub open spec fn group_all_disabled(s: StoreView, id: i32) -> bool {
    &&& forall|i: int|
        0 <= i < s.aliases.len() && (#[trigger] s.aliases[i]).group_id == id
            ==> !s.aliases[i].enabled
    &&& forall|i: int|
        0 <= i < s.scripts.len() && (#[trigger] s.scripts[i]).group_id == id
            ==> !s.scripts[i].enabled
}

/// Whether a group's members are all enabled, all disabled, or mixed.
#[derive(Debug, Clone, Copy, PartialEq, Eq, Structural)]
pub enum GroupStatus {
    Enabled,
    Disabled,
    SomeEnabled,
}

/// The status of group `id`: enabled where all its members are (an empty
/// group included), else disabled where none is, else some enabled.
pub open spec fn group_status_of(s: StoreView, id: i32) -> GroupStatus {
    if group_all_enabled(s, id) {
        GroupStatus::Enabled
    } else if group_all_disabled(s, id) {
        GroupStatus::Disabled
    } else {
        GroupStatus::SomeEnabled
    }
}

/// What toggling group `name` does to the store: where all its members are
/// enabled, all of them are disabled; otherwise all of them are enabled.
pub open spec fn toggle_group_outcome(s: StoreView, name: Seq<char>) -> Result<StoreView, NymError> {
    if !s.has_group_named(name) {
        Err(NymError::NotFound)
    } else {
        let id = s.group_id_named(name);
        let target = !group_all_enabled(s, id);
        Ok(
            StoreView {
                aliases: s.aliases.map_values(|a: AliasView| set_alias_enabled(a, id, target)),
                scripts: s.scripts.map_values(|sc: ScriptView| set_script_enabled(sc, id, target)),
                ..s
            },
        )
    }
}

/// A store whose members keep their names and groups stays consistent.
proof fn lemma_wf_same_keys(s: StoreView, t: StoreView)
    requires
        s.wf(),
        t.groups == s.groups,
        t.aliases.len() == s.aliases.len(),
        t.scripts.len() == s.scripts.len(),
        forall|i: int|
            0 <= i < s.aliases.len() ==> (#[trigger] t.aliases[i]).name == s.aliases[i].name
                && t.aliases[i].group_id == s.aliases[i].group_id,
        forall|i: int|
            0 <= i < s.scripts.len() ==> (#[trigger] t.scripts[i]).name == s.scripts[i].name
                && t.scripts[i].group_id == s.scripts[i].group_id,
    ensures
        t.wf(),
{
    assert forall|i: int, j: int|
        #![trigger t.aliases[i], t.aliases[j]]
        0 <= i < j < t.aliases.len() implies t.aliases[i].name != t.aliases[j].name by {
        assert(s.aliases[i].name != s.aliases[j].name);
    }
    assert forall|i: int, j: int|
        #![trigger t.scripts[i], t.scripts[j]]
        0 <= i < j < t.scripts.len() implies t.scripts[i].name != t.scripts[j].name by {
        assert(s.scripts[i].name != s.scripts[j].name);
    }
    assert forall|i: int| 0 <= i < t.aliases.len() implies t.has_group(
        #[trigger] t.aliases[i].group_id,
    ) by {
        assert(s.has_group(s.aliases[i].group_id));
    }
    assert forall|i: int| 0 <= i < t.scripts.len() implies t.has_group(
        #[trigger] t.scripts[i].group_id,
    ) by {
        assert(s.has_group(s.scripts[i].group_id));
    }
}

/// Regeneration is idempotent: the run-control text is a function of the
/// store alone, so rendering an unchanged store twice gives the same text.
pub proof fn lemma_regeneration_idempotent(s1: StoreView, s2: StoreView)
    requires
        s1 == s2,
    ensures
        runcom_text(s1.joined()) == runcom_text(s2.joined()),
{
}

proof fn lemma_alias_lines_without_disabled(s: StoreView, k: int, id: i32)
    requires
        0 <= k < s.aliases.len(),
        !s.aliases[k].enabled,
    ensures
        alias_lines(s.aliases_of(id)) == alias_lines(
            s.with_aliases(s.aliases.remove(k)).aliases_of(id),
        ),
    decreases s.aliases.len(),
{
    reveal(Seq::filter);
    let x = s.aliases;
    let t = s.with_aliases(x.remove(k));
    if k == x.len() - 1 {
        assert(x.remove(k) =~= x.drop_last());
        let f = x.drop_last().filter(|a: AliasView| a.group_id == id);
        if x.last().group_id == id {
            assert(f.push(x.last()).drop_last() =~= f);
        }
    } else {
        let s2 = s.with_aliases(x.drop_last());
        lemma_alias_lines_without_disabled(s2, k, id);
        assert(x.remove(k).drop_last() =~= x.drop_last().remove(k));
        assert(x.remove(k).last() == x.last());
        let f1 = x.drop_last().filter(|a: AliasView| a.group_id == id);
        let f2 = x.drop_last().remove(k).filter(|a: AliasView| a.group_id == id);
        if x.last().group_id == id {
            assert(f1.push(x.last()).drop_last() =~= f1);
            assert(f2.push(x.last()).drop_last() =~= f2);
        }
    }
}

proof fn lemma_script_lines_without_disabled(s: StoreView, k: int, id: i32)
    requires
        0 <= k < s.scripts.len(),
        !s.scripts[k].enabled,
    ensures
        script_lines(s.scripts_of(id)) == script_lines(
            s.with_scripts(s.scripts.remove(k)).scripts_of(id),
        ),
    decreases s.scripts.len(),
{
    reveal(Seq::filter);
    let x = s.scripts;
    if k == x.len() - 1 {
        assert(x.remove(k) =~= x.drop_last());
        let f = x.drop_last().filter(|sc: ScriptView| sc.group_id == id);
        if x.last().group_id == id {
            assert(f.push(x.last()).drop_last() =~= f);
        }
    } else {
        let s2 = s.with_scripts(x.drop_last());
        lemma_script_lines_without_disabled(s2, k, id);
        assert(x.remove(k).drop_last() =~= x.drop_last().remove(k));
        assert(x.remove(k).last() == x.last());
        let f1 = x.drop_last().filter(|sc: ScriptView| sc.group_id == id);
        let f2 = x.drop_last().remove(k).filter(|sc: ScriptView| sc.group_id == id);
        if x.last().group_id == id {
            assert(f1.push(x.last()).drop_last() =~= f1);
            assert(f2.push(x.last()).drop_last() =~= f2);
        }
    }
}

proof fn lemma_group_blocks_pointwise(g1: Seq<GroupView>, g2: Seq<GroupView>)
    requires
        g1.len() == g2.len(),
        forall|i: int| 0 <= i < g1.len() ==> group_block(#[trigger] g1[i]) == group_block(g2[i]),
    ensures
        group_blocks(g1) == group_blocks(g2),
    decreases g1.len(),
{
    if g1.len() > 0 {
        let r1 = g1.drop_last();
        let r2 = g2.drop_last();
        assert(group_block(g1[g1.len() - 1]) == group_block(g2[g1.len() - 1]));
        assert forall|i: int| 0 <= i < r1.len() implies group_block(#[trigger] r1[i])
            == group_block(r2[i]) by {
            assert(r1[i] == g1[i]);
            assert(r2[i] == g2[i]);
        }
        lemma_group_blocks_pointwise(r1, r2);
    }
}

/// A disabled alias leaves no trace in the run-control file: the store
/// renders to the same text as the store without that alias.
pub proof fn lemma_disabled_alias_hidden(s: StoreView, k: int)
    requires
        0 <= k < s.aliases.len(),
        !s.aliases[k].enabled,
    ensures
        runcom_text(s.joined()) == runcom_text(s.with_aliases(s.aliases.remove(k)).joined()),
{
    let t = s.with_aliases(s.aliases.remove(k));
    assert forall|i: int| 0 <= i < s.joined().len() implies group_block(#[trigger] s.joined()[i])
        == group_block(t.joined()[i]) by {
        lemma_alias_lines_without_disabled(s, k, s.groups[i].id);
    }
    lemma_group_blocks_pointwise(s.joined(), t.joined());
}

/// A disabled script leaves no trace in the run-control file: the store
/// renders to the same text as the store without that script.
pub proof fn lemma_disabled_script_hidden(s: StoreView, k: int)
    requires
        0 <= k < s.scripts.len(),
        !s.scripts[k].enabled,
    ensures
        runcom_text(s.joined()) == runcom_text(s.with_scripts(s.scripts.remove(k)).joined()),
{
    let t = s.with_scripts(s.scripts.remove(k));
    assert forall|i: int| 0 <= i < s.joined().len() implies group_block(#[trigger] s.joined()[i])
        == group_block(t.joined()[i]) by {
        lemma_script_lines_without_disabled(s, k, s.groups[i].id);
    }
    lemma_group_blocks_pointwise(s.joined(), t.joined());
}

/// Toggling an enabled alias off renders the run-control file that removing
/// the alias would.
pub proof fn lemma_toggle_off_hides_alias(s: StoreView, name: Seq<char>)
    requires
        s.wf(),
        s.has_alias(name),
        s.aliases[s.alias_pos(name)].enabled,
    ensures
        toggle_alias_outcome(s, name) is Ok,
        remove_alias_outcome(s, name) is Ok,
        runcom_text(toggle_alias_outcome(s, name)->Ok_0.joined()) == runcom_text(
            remove_alias_outcome(s, name)->Ok_0.joined(),
        ),
{
    let k = s.alias_pos(name);
    let t = toggle_alias_outcome(s, name)->Ok_0;
    let u = remove_alias_outcome(s, name)->Ok_0;
    assert(0 <= k < s.aliases.len() && s.aliases[k].name == name);
    assert(!t.aliases[k].enabled);
    lemma_disabled_alias_hidden(t, k);
    assert(t.aliases.remove(k) =~= s.aliases.remove(k));
    assert(t.with_aliases(t.aliases.remove(k)) == u);
}

/// Whether a name can stand in an alias definition.
pub fn valid_alias_name(name: &str) -> (r: bool)
    ensures
        r == is_alias_name(name@),
{
    let n = name.unicode_len();
    if n == 0 {
        return false;
    }
    let mut i: usize = 0;
    while i < n
        invariant
            n == name@.len(),
            i <= n,
            forall|j: int| 0 <= j < i ==> crate::codec::is_word_char(#[trigger] name@[j]),
        decreases n - i,
    {
        if !is_word(name.get_char(i)) {
            return false;
        }
        i = i + 1;
    }
    true
}

impl Store {
    /// A store that holds the default group alone.
    pub fn new() -> (r: Store)
        ensures
            r@.wf(),
            r@.groups.len() == 1,
            r@.aliases.len() == 0,
            r@.scripts.len() == 0,
    {
        let mut groups: Vec<GroupRecord> = Vec::new();
        groups.push(GroupRecord { id: DEFAULT_GROUP_ID, name: String::from_str("uncategorized") });
        let r = Store { groups, aliases: Vec::new(), scripts: Vec::new() };
        assert(r@.groups[0] == r.groups@[0]@);
        r
    }

    /// The position of the group with the given name.
    pub fn group_index(&self, name: &str) -> (r: Option<usize>)
        ensures
            match r {
                Some(i) => i < self@.groups.len() && self@.groups[i as int].name == name@,
                None => !self@.has_group_named(name@),
            },
    {
        let mut i: usize = 0;
        while i < self.groups.len()
            invariant
                i <= self.groups@.len(),
                forall|j: int| 0 <= j < i ==> self@.groups[j].name != name@,
            decreases self.groups@.len() - i,
        {
            if same_text(self.groups[i].name.as_str(), name) {
                return Some(i);
            }
            i = i + 1;
        }
        None
    }

    /// The position of the group with the given id.
    pub fn group_index_by_id(&self, id: i32) -> (r: Option<usize>)
        ensures
            match r {
                Some(i) => i < self@.groups.len() && self@.groups[i as int].id == id,
                None => !self@.has_group(id),
            },
    {
        let mut i: usize = 0;
        while i < self.groups.len()
            invariant
                i <= self.groups@.len(),
                forall|j: int| 0 <= j < i ==> self@.groups[j].id != id,
            decreases self.groups@.len() - i,
        {
            if self.groups[i].id == id {
                return Some(i);
            }
            i = i + 1;
        }
        None
    }

    /// The position of the alias with the given name.
    pub fn alias_index(&self, name: &str) -> (r: Option<usize>)
        ensures
            match r {
                Some(i) => i < self@.aliases.len() && self@.aliases[i as int].name == name@,
                None => !self@.has_alias(name@),
            },
    {
        let mut i: usize = 0;
        while i < self.aliases.len()
            invariant
                i <= self.aliases@.len(),
                forall|j: int| 0 <= j < i ==> self@.aliases[j].name != name@,
            decreases self.aliases@.len() - i,
        {
            if same_text(self.aliases[i].name.as_str(), name) {
                return Some(i);
            }
            i = i + 1;
        }
        None
    }

    /// The position of the script with the given name.
    pub fn script_index(&self, name: &str) -> (r: Option<usize>)
        ensures
            match r {
                Some(i) => i < self@.scripts.len() && self@.scripts[i as int].name == name@,
                None => !self@.has_script(name@),
            },
    {
        let mut i: usize = 0;
        while i < self.scripts.len()
            invariant
                i <= self.scripts@.len(),
                forall|j: int| 0 <= j < i ==> self@.scripts[j].name != name@,
            decreases self.scripts@.len() - i,
        {
            if same_text(self.scripts[i].name.as_str(), name) {
                return Some(i);
            }
            i = i + 1;
        }
        None
    }

    fn max_id(&self) -> (r: i32)
        ensures
            r == max_group_id(self@.groups),
    {
        let mut m: i32 = 0;
        let mut i: usize = 0;
        assert(self@.groups.take(0) =~= Seq::<GroupRecordView>::empty());
        while i < self.groups.len()
            invariant
                i <= self.groups@.len(),
                m == max_group_id(self@.groups.take(i as int)),
            decreases self.groups@.len() - i,
        {
            assert(self@.groups.take(i + 1).drop_last() =~= self@.groups.take(i as int));
            assert(self@.groups.take(i + 1).last() == self@.groups[i as int]);
            if self.groups[i].id > m {
                m = self.groups[i].id;
            }
            i = i + 1;
        }
        assert(self@.groups.take(i as int) =~= self@.groups);
        m
    }

    /// Creates a group. The name must be a valid group name and not taken by
    /// another group; the new group gets the id after the largest one in use.
    pub fn create_group(&mut self, name: &str) -> (r: Result<i32, NymError>)
        requires
            old(self)@.wf(),
        ensures
            final(self)@.wf(),
            r is Ok <==> (is_group_name(name@) && !old(self)@.has_group_named(name@) && max_group_id(
                old(self)@.groups,
            ) < i32::MAX),
            match r {
                Ok(id) => {
                    &&& id == max_group_id(old(self)@.groups) + 1
                    &&& final(self)@ == (StoreView {
                        groups: old(self)@.groups.push((GroupRecordView { id, name: name@ })),
                        ..old(self)@
                    })
                },
                Err(e) => {
                    &&& final(self)@ == old(self)@
                    &&& e == if !is_group_name(name@) {
                        NymError::Validation
                    } else if old(self)@.has_group_named(name@) {
                        NymError::DuplicateName
                    } else {
                        NymError::StoreIo
                    }
                },
            },
    {
        if !valid_group_name(name) {
            return Err(NymError::Validation);
        }
        if self.group_index(name).is_some() {
            return Err(NymError::DuplicateName);
        }
        let m = self.max_id();
        if m == i32::MAX {
            return Err(NymError::StoreIo);
        }
        proof {
            lemma_max_group_id(self@.groups);
        }
        let id = m + 1;
        let ghost before = self@;
        self.groups.push(GroupRecord { id, name: String::from_str(name) });
        assert(self@.groups =~= before.groups.push(GroupRecordView { id, name: name@ }));
        proof {
            let s = self@;
            assert(s.aliases == before.aliases);
            assert(s.scripts == before.scripts);
            assert forall|i: int| 0 <= i < s.aliases.len() implies s.has_group(
                #[trigger] s.aliases[i].group_id,
            ) by {
                let gid = s.aliases[i].group_id;
                assert(before.aliases[i].group_id == gid);
                assert(before.has_group(gid));
                let w = choose|w: int| 0 <= w < before.groups.len() && before.groups[w].id == gid;
                assert(s.groups[w].id == gid);
            }
            assert forall|i: int| 0 <= i < s.scripts.len() implies s.has_group(
                #[trigger] s.scripts[i].group_id,
            ) by {
                let gid = s.scripts[i].group_id;
                assert(before.scripts[i].group_id == gid);
                assert(before.has_group(gid));
                let w = choose|w: int| 0 <= w < before.groups.len() && before.groups[w].id == gid;
                assert(s.groups[w].id == gid);
            }
            assert forall|i: int, j: int|
                #![trigger s.groups[i], s.groups[j]]
                0 <= i < j < s.groups.len() implies s.groups[i].id != s.groups[j].id
                    && s.groups[i].name != s.groups[j].name by {
                if j == s.groups.len() - 1 {
                    assert(s.groups[i] == before.groups[i]);
                    assert(before.groups[i].id <= max_group_id(before.groups));
                    if s.groups[i].name == name@ {
                        assert(before.has_group_named(name@));
                    }
                }
            }
        }
        Ok(id)
    }

    /// Renames a group. The default group is protected; the new name must be
    /// non-empty and not taken by another group. Members keep their group,
    /// which they reference by id.
    pub fn rename_group(&mut self, old_name: &str, new_name: &str) -> (r: Result<(), NymError>)
        requires
            old(self)@.wf(),
        ensures
            final(self)@.wf(),
            match rename_group_error(old(self)@, old_name@, new_name@) {
                Some(e) => r == Err::<(), NymError>(e) && final(self)@ == old(self)@,
                None => r is Ok && forall|k: int|
                    0 <= k < old(self)@.groups.len() && (#[trigger] old(self)@.groups[k]).name
                        == old_name@ ==> final(self)@ == (StoreView {
                        groups: old(self)@.groups.update(
                            k,
                            (GroupRecordView { id: old(self)@.groups[k].id, name: new_name@ }),
                        ),
                        ..old(self)@
                    }),
            },
    {
        if is_default_group_name(old_name) {
            return Err(NymError::ProtectedGroup);
        }
        let k = match self.group_index(old_name) {
            Some(k) => k,
            None => {
                return Err(NymError::NotFound);
            },
        };
        if !valid_group_name(new_name) {
            return Err(NymError::Validation);
        }
        if !same_text(old_name, new_name) && self.group_index(new_name).is_some() {
            return Err(NymError::DuplicateName);
        }
        let ghost before = self@;
        let id = self.groups[k].id;
        self.groups.set(k, GroupRecord { id, name: String::from_str(new_name) });
        let ghost g = GroupRecordView { id, name: new_name@ };
        assert(self@.groups =~= before.groups.update(k as int, g));
        proof {
            let s = self@;
            assert(s.aliases == before.aliases);
            assert(s.scripts == before.scripts);
            assert(k != 0);
            assert(s.groups[0] == before.groups[0]);
            assert forall|i: int, j: int|
                #![trigger s.groups[i], s.groups[j]]
                0 <= i < j < s.groups.len() implies s.groups[i].id != s.groups[j].id
                    && s.groups[i].name != s.groups[j].name by {
                assert(before.groups[i].id != before.groups[j].id);
                if i == k {
                    assert(before.groups[j].name != new_name@ || new_name@ == old_name@) by {
                        if before.groups[j].name == new_name@ && new_name@ != old_name@ {
                            assert(before.has_group_named(new_name@));
                        }
                    }
                }
                if j == k {
                    assert(before.groups[i].name != new_name@ || new_name@ == old_name@) by {
                        if before.groups[i].name == new_name@ && new_name@ != old_name@ {
                            assert(before.has_group_named(new_name@));
                        }
                    }
                }
            }
            assert forall|id2: i32| #[trigger] before.has_group(id2) implies s.has_group(id2) by {
                let w = choose|w: int| 0 <= w < before.groups.len() && before.groups[w].id == id2;
                assert(s.groups[w].id == id2);
            }
            assert forall|i: int| 0 <= i < s.aliases.len() implies s.has_group(
                #[trigger] s.aliases[i].group_id,
            ) by {
                assert(before.has_group(before.aliases[i].group_id));
            }
            assert forall|i: int| 0 <= i < s.scripts.len() implies s.has_group(
                #[trigger] s.scripts[i].group_id,
            ) by {
                assert(before.has_group(before.scripts[i].group_id));
            }
            assert forall|k2: int|
                0 <= k2 < before.groups.len() && (#[trigger] before.groups[k2]).name
                    == old_name@ implies k2 == k by {
                if k2 != k {
                    if k2 < k {
                        assert(before.groups[k2].name != before.groups[k as int].name);
                    } else {
                        assert(before.groups[k as int].name != before.groups[k2].name);
                    }
                }
            }
        }
        Ok(())
    }

    /// Deletes a group other than the default one. Its aliases and scripts
    /// are first reassigned to the default group, so that no member is left
    /// pointing at a missing group.
    pub fn remove_group(&mut self, name: &str) -> (r: Result<(), NymError>)
        requires
            old(self)@.wf(),
        ensures
            final(self)@.wf(),
            match remove_group_error(old(self)@, name@) {
                Some(e) => r == Err::<(), NymError>(e) && final(self)@ == old(self)@,
                None => r is Ok && forall|k: int|
                    0 <= k < old(self)@.groups.len() && (#[trigger] old(self)@.groups[k]).name
                        == name@ ==> final(self)@ == old(self)@.without_group(k),
            },
    {
        if is_default_group_name(name) {
            return Err(NymError::ProtectedGroup);
        }
        let k = match self.group_index(name) {
            Some(k) => k,
            None => {
                return Err(NymError::NotFound);
            },
        };
        let ghost before = self@;
        let gid = self.groups[k].id;
        let mut aliases: Vec<Alias> = Vec::new();
        let mut i: usize = 0;
        while i < self.aliases.len()
            invariant
                self@ == before,
                i <= self.aliases@.len(),
                alias_views(aliases@) == before.aliases.take(i as int).map_values(
                    |a: AliasView| reassign_alias(a, gid),
                ),
            decreases self.aliases@.len() - i,
        {
            let mut a = self.aliases[i].duplicate();
            assert(self.aliases@[i as int]@ == before.aliases[i as int]);
            if a.group_id == gid {
                a.group_id = DEFAULT_GROUP_ID;
            }
            assert(a@ == reassign_alias(before.aliases[i as int], gid));
            let ghost prev = alias_views(aliases@);
            aliases.push(a);
            assert(alias_views(aliases@) =~= prev.push(a@));
            assert(before.aliases.take(i + 1).map_values(|a: AliasView| reassign_alias(a, gid))
                =~= before.aliases.take(i as int).map_values(
                |a: AliasView| reassign_alias(a, gid),
            ).push(reassign_alias(before.aliases[i as int], gid)));
            i = i + 1;
            assert(alias_views(aliases@) =~= before.aliases.take(i as int).map_values(
                |a: AliasView| reassign_alias(a, gid),
            ));
        }
        let mut scripts: Vec<Script> = Vec::new();
        let mut j: usize = 0;
        while j < self.scripts.len()
            invariant
                self@ == before,
                j <= self.scripts@.len(),
                script_views(scripts@) == before.scripts.take(j as int).map_values(
                    |s: ScriptView| reassign_script(s, gid),
                ),
            decreases self.scripts@.len() - j,
        {
            let mut sc = self.scripts[j].duplicate();
            assert(self.scripts@[j as int]@ == before.scripts[j as int]);
            if sc.group_id == gid {
                sc.group_id = DEFAULT_GROUP_ID;
            }
            assert(sc@ == reassign_script(before.scripts[j as int], gid));
            let ghost prev = script_views(scripts@);
            scripts.push(sc);
            assert(script_views(scripts@) =~= prev.push(sc@));
            assert(before.scripts.take(j + 1).map_values(|s: ScriptView| reassign_script(s, gid))
                =~= before.scripts.take(j as int).map_values(
                |s: ScriptView| reassign_script(s, gid),
            ).push(reassign_script(before.scripts[j as int], gid)));
            j = j + 1;
            assert(script_views(scripts@) =~= before.scripts.take(j as int).map_values(
                |s: ScriptView| reassign_script(s, gid),
            ));
        }
        self.aliases = aliases;
        self.scripts = scripts;
        self.groups.remove(k);
        assert(before.aliases.take(i as int) =~= before.aliases);
        assert(before.scripts.take(j as int) =~= before.scripts);
        assert(self@.groups =~= before.groups.remove(k as int));
        assert(self@ =~= before.without_group(k as int));
        proof {
            lemma_orphans_reassigned(before, k as int);
            assert forall|k2: int|
                0 <= k2 < before.groups.len() && (#[trigger] before.groups[k2]).name
                    == name@ implies k2 == k by {
                if k2 != k {
                    if k2 < k {
                        assert(before.groups[k2].name != before.groups[k as int].name);
                    } else {
                        assert(before.groups[k as int].name != before.groups[k2].name);
                    }
                }
            }
        }
        Ok(())
    }

    fn set_alias(&mut self, k: usize, a: Alias)
        requires
            k < old(self).aliases@.len(),
        ensures
            final(self)@ == old(self)@.with_aliases(old(self)@.aliases.update(k as int, a@)),
    {
        let ghost before = self@;
        self.aliases.set(k, a);
        assert(self@.aliases =~= before.aliases.update(k as int, a@));
        assert(self@ =~= before.with_aliases(before.aliases.update(k as int, a@)));
    }

    /// Adds the alias that a definition such as `alias ll="ls -la"` describes
    /// (see `is_whole_definition`: the whole text is one definition, with a
    /// quoted value), enabled, with the given description, to group
    /// `group_id`.
    pub fn add_alias(&mut self, definition: &str, description: &str, group_id: i32) -> (r: Result<
        (),
        NymError,
    >)
        requires
            old(self)@.wf(),
        ensures
            final(self)@.wf(),
            match add_alias_outcome(old(self)@, definition@, description@, group_id) {
                Ok(t) => r is Ok && final(self)@ == t,
                Err(e) => r == Err::<(), NymError>(e) && final(self)@ == old(self)@,
            },
    {
        if !validate_alias(definition) {
            return Err(NymError::Validation);
        }
        let (name, command) = match parse_alias(definition) {
            Some(p) => p,
            None => {
                return Err(NymError::Validation);
            },
        };
        proof {
            lemma_parsed_name_valid(definition@);
        }
        if self.alias_index(name.as_str()).is_some() {
            return Err(NymError::DuplicateName);
        }
        if self.group_index_by_id(group_id).is_none() {
            return Err(NymError::NotFound);
        }
        let ghost before = self@;
        let a = Alias {
            name,
            command,
            description: String::from_str(description),
            enabled: true,
            group_id,
        };
        proof {
            lemma_wf_push_alias(before, a@);
        }
        let ghost av = a@;
        self.aliases.push(a);
        assert(self@.aliases =~= before.aliases.push(av));
        assert(self@ =~= before.with_aliases(before.aliases.push(av)));
        Ok(())
    }

    /// Renames an alias; the new name must be a valid alias name that no
    /// other alias has. Everything else about the alias stays.
    pub fn rename_alias(&mut self, old_name: &str, new_name: &str) -> (r: Result<(), NymError>)
        requires
            old(self)@.wf(),
        ensures
            final(self)@.wf(),
            match rename_alias_outcome(old(self)@, old_name@, new_name@) {
                Ok(t) => r is Ok && final(self)@ == t,
                Err(e) => r == Err::<(), NymError>(e) && final(self)@ == old(self)@,
            },
    {
        let k = match self.alias_index(old_name) {
            Some(k) => k,
            None => {
                return Err(NymError::NotFound);
            },
        };
        if !valid_alias_name(new_name) {
            return Err(NymError::Validation);
        }
        if !same_text(old_name, new_name) && self.alias_index(new_name).is_some() {
            return Err(NymError::DuplicateName);
        }
        let ghost before = self@;
        proof {
            lemma_alias_pos(before, k as int);
        }
        let mut a = self.aliases[k].duplicate();
        a.name = String::from_str(new_name);
        assert(a@ == (AliasView { name: new_name@, ..before.aliases[k as int] }));
        proof {
            lemma_wf_set_alias(before, k as int, a@);
        }
        self.set_alias(k, a);
        Ok(())
    }

    /// Flips whether an alias is enabled, and returns the new state.
    pub fn toggle_alias(&mut self, name: &str) -> (r: Result<bool, NymError>)
        requires
            old(self)@.wf(),
        ensures
            final(self)@.wf(),
            match toggle_alias_outcome(old(self)@, name@) {
                Ok(t) => r is Ok && final(self)@ == t && r->Ok_0 == !old(self)@.aliases[old(
                    self,
                )@.alias_pos(name@)].enabled,
                Err(e) => r == Err::<bool, NymError>(e) && final(self)@ == old(self)@,
            },
    {
        let k = match self.alias_index(name) {
            Some(k) => k,
            None => {
                return Err(NymError::NotFound);
            },
        };
        let ghost before = self@;
        proof {
            lemma_alias_pos(before, k as int);
        }
        let mut a = self.aliases[k].duplicate();
        a.enabled = !a.enabled;
        let enabled = a.enabled;
        proof {
            lemma_wf_set_alias(before, k as int, a@);
        }
        self.set_alias(k, a);
        Ok(enabled)
    }

    /// Moves an alias to the group with the given name.
    pub fn move_alias_group(&mut self, name: &str, group_name: &str) -> (r: Result<(), NymError>)
        requires
            old(self)@.wf(),
        ensures
            final(self)@.wf(),
            match move_alias_outcome(old(self)@, name@, group_name@) {
                Ok(t) => r is Ok && final(self)@ == t,
                Err(e) => r == Err::<(), NymError>(e) && final(self)@ == old(self)@,
            },
    {
        let k = match self.alias_index(name) {
            Some(k) => k,
            None => {
                return Err(NymError::NotFound);
            },
        };
        let g = match self.group_index(group_name) {
            Some(g) => g,
            None => {
                return Err(NymError::NotFound);
            },
        };
        let ghost before = self@;
        proof {
            lemma_alias_pos(before, k as int);
            lemma_group_pos(before, g as int);
        }
        let mut a = self.aliases[k].duplicate();
        a.group_id = self.groups[g].id;
        assert(before.has_group(a.group_id)) by {
            assert(before.groups[g as int].id == a.group_id);
        }
        proof {
            lemma_wf_set_alias(before, k as int, a@);
        }
        self.set_alias(k, a);
        Ok(())
    }

    /// Removes an alias.
    pub fn remove_alias(&mut self, name: &str) -> (r: Result<(), NymError>)
        requires
            old(self)@.wf(),
        ensures
            final(self)@.wf(),
            match remove_alias_outcome(old(self)@, name@) {
                Ok(t) => r is Ok && final(self)@ == t,
                Err(e) => r == Err::<(), NymError>(e) && final(self)@ == old(self)@,
            },
    {
        let k = match self.alias_index(name) {
            Some(k) => k,
            None => {
                return Err(NymError::NotFound);
            },
        };
        let ghost before = self@;
        proof {
            lemma_alias_pos(before, k as int);
            lemma_wf_remove_alias(before, k as int);
        }
        self.aliases.remove(k);
        assert(self@.aliases =~= before.aliases.remove(k as int));
        assert(self@ =~= before.with_aliases(before.aliases.remove(k as int)));
        Ok(())
    }

    fn set_script(&mut self, k: usize, a: Script)
        requires
            k < old(self).scripts@.len(),
        ensures
            final(self)@ == old(self)@.with_scripts(old(self)@.scripts.update(k as int, a@)),
    {
        let ghost before = self@;
        self.scripts.set(k, a);
        assert(self@.scripts =~= before.scripts.update(k as int, a@));
        assert(self@ =~= before.with_scripts(before.scripts.update(k as int, a@)));
    }

    /// Adds the script file at `script_path` to group `group_id`, enabled.
    /// It is named after the file up to its first `.`, and its managed copy
    /// is to be kept at `<scripts_dir>/<name>/<file>`. Returns the new script,
    /// so that the caller can copy the file there.
    pub fn add_script(
        &mut self,
        script_path: &str,
        scripts_dir: &str,
        description: &str,
        group_id: i32,
    ) -> (r: Result<Script, NymError>)
        requires
            old(self)@.wf(),
        ensures
            final(self)@.wf(),
            match add_script_outcome(
                old(self)@,
                script_path@,
                scripts_dir@,
                description@,
                group_id,
            ) {
                Ok(t) => r is Ok && final(self)@ == t && r->Ok_0@ == new_script(
                    script_path@,
                    scripts_dir@,
                    description@,
                    group_id,
                ),
                Err(e) => r is Err && r->Err_0 == e && final(self)@ == old(self)@,
            },
    {
        let path = chars_of(script_path);
        let file = file_name_of(&path);
        let (name, _ext) = split_stem(&file);
        if name.len() == 0 || !one_line_chars(&file) {
            return Err(NymError::Validation);
        }
        let name_s = string_of(&name);
        if self.script_index(name_s.as_str()).is_some() {
            return Err(NymError::DuplicateName);
        }
        if self.group_index_by_id(group_id).is_none() {
            return Err(NymError::NotFound);
        }
        let managed = managed_path_of(scripts_dir, &name, &file);
        let sc = Script {
            name: name_s,
            path: string_of(&managed),
            description: String::from_str(description),
            enabled: true,
            group_id,
        };
        let ghost before = self@;
        let ghost sv = sc@;
        assert(sv == new_script(script_path@, scripts_dir@, description@, group_id));
        proof {
            lemma_wf_push_script(before, sv);
        }
        let copy = sc.duplicate();
        self.scripts.push(sc);
        assert(self@.scripts =~= before.scripts.push(sv));
        assert(self@ =~= before.with_scripts(before.scripts.push(sv)));
        Ok(copy)
    }

    /// Renames a script; the new name must be a valid script name that no
    /// other script has. Its managed copy moves to
    /// `<scripts_dir>/<new_name>/<new_name><extension>`; the new path is
    /// returned so that the caller can move the file.
    pub fn rename_script(&mut self, old_name: &str, new_name: &str, scripts_dir: &str) -> (r:
        Result<String, NymError>)
        requires
            old(self)@.wf(),
        ensures
            final(self)@.wf(),
            match rename_script_outcome(old(self)@, old_name@, new_name@, scripts_dir@) {
                Ok(t) => r is Ok && final(self)@ == t && r->Ok_0@ == renamed_path(
                    old(self)@.scripts[old(self)@.script_pos(old_name@)].path,
                    new_name@,
                    scripts_dir@,
                ),
                Err(e) => r is Err && r->Err_0 == e && final(self)@ == old(self)@,
            },
    {
        let k = match self.script_index(old_name) {
            Some(k) => k,
            None => {
                return Err(NymError::NotFound);
            },
        };
        let new_chars = chars_of(new_name);
        if !valid_script_name(&new_chars) {
            return Err(NymError::Validation);
        }
        if !same_text(old_name, new_name) && self.script_index(new_name).is_some() {
            return Err(NymError::DuplicateName);
        }
        let ghost before = self@;
        proof {
            lemma_script_pos(before, k as int);
        }
        let old_path = chars_of(self.scripts[k].path.as_str());
        let file = file_name_of(&old_path);
        let (_stem, ext) = split_stem(&file);
        let mut new_file = new_chars.clone();
        assert(new_file@ == new_chars@);
        push_all(&mut new_file, &ext);
        let managed = managed_path_of(scripts_dir, &new_chars, &new_file);
        let new_path = string_of(&managed);
        let mut sc = self.scripts[k].duplicate();
        sc.name = String::from_str(new_name);
        sc.path = string_of(&managed);
        assert(sc@ == (ScriptView {
            name: new_name@,
            path: renamed_path(before.scripts[k as int].path, new_name@, scripts_dir@),
            ..before.scripts[k as int]
        }));
        proof {
            lemma_wf_set_script(before, k as int, sc@);
        }
        self.set_script(k, sc);
        Ok(new_path)
    }

    /// Flips whether a script is enabled, and returns the new state.
    pub fn toggle_script(&mut self, name: &str) -> (r: Result<bool, NymError>)
        requires
            old(self)@.wf(),
        ensures
            final(self)@.wf(),
            match toggle_script_outcome(old(self)@, name@) {
                Ok(t) => r is Ok && final(self)@ == t && r->Ok_0 == !old(self)@.scripts[old(
                    self,
                )@.script_pos(name@)].enabled,
                Err(e) => r == Err::<bool, NymError>(e) && final(self)@ == old(self)@,
            },
    {
        let k = match self.script_index(name) {
            Some(k) => k,
            None => {
                return Err(NymError::NotFound);
            },
        };
        let ghost before = self@;
        proof {
            lemma_script_pos(before, k as int);
        }
        let mut sc = self.scripts[k].duplicate();
        sc.enabled = !sc.enabled;
        let enabled = sc.enabled;
        proof {
            lemma_wf_set_script(before, k as int, sc@);
        }
        self.set_script(k, sc);
        Ok(enabled)
    }

    /// Moves a script to the group with the given name.
    pub fn move_script(&mut self, name: &str, group_name: &str) -> (r: Result<(), NymError>)
        requires
            old(self)@.wf(),
        ensures
            final(self)@.wf(),
            match move_script_outcome(old(self)@, name@, group_name@) {
                Ok(t) => r is Ok && final(self)@ == t,
                Err(e) => r == Err::<(), NymError>(e) && final(self)@ == old(self)@,
            },
    {
        let k = match self.script_index(name) {
            Some(k) => k,
            None => {
                return Err(NymError::NotFound);
            },
        };
        let g = match self.group_index(group_name) {
            Some(g) => g,
            None => {
                return Err(NymError::NotFound);
            },
        };
        let ghost before = self@;
        proof {
            lemma_script_pos(before, k as int);
            lemma_group_pos(before, g as int);
        }
        let mut sc = self.scripts[k].duplicate();
        sc.group_id = self.groups[g].id;
        assert(before.has_group(sc.group_id)) by {
            assert(before.groups[g as int].id == sc.group_id);
        }
        proof {
            lemma_wf_set_script(before, k as int, sc@);
        }
        self.set_script(k, sc);
        Ok(())
    }

    /// Removes a script.
    pub fn remove_script(&mut self, name: &str) -> (r: Result<(), NymError>)
        requires
            old(self)@.wf(),
        ensures
            final(self)@.wf(),
            match remove_script_outcome(old(self)@, name@) {
                Ok(t) => r is Ok && final(self)@ == t,
                Err(e) => r == Err::<(), NymError>(e) && final(self)@ == old(self)@,
            },
    {
        let k = match self.script_index(name) {
            Some(k) => k,
            None => {
                return Err(NymError::NotFound);
            },
        };
        let ghost before = self@;
        proof {
            lemma_script_pos(before, k as int);
            lemma_wf_remove_script(before, k as int);
        }
        self.scripts.remove(k);
        assert(self@.scripts =~= before.scripts.remove(k as int));
        assert(self@ =~= before.with_scripts(before.scripts.remove(k as int)));
        Ok(())
    }

    /// Toggles a whole group: where all of its aliases and scripts are
    /// enabled they are all disabled, otherwise they are all enabled. Returns
    /// the state the members are in afterwards.
    pub fn toggle_group(&mut self, name: &str) -> (r: Result<bool, NymError>)
        requires
            old(self)@.wf(),
        ensures
            final(self)@.wf(),
            match toggle_group_outcome(old(self)@, name@) {
                Ok(t) => r is Ok && final(self)@ == t && r->Ok_0 == !group_all_enabled(
                    old(self)@,
                    old(self)@.group_id_named(name@),
                ),
                Err(e) => r == Err::<bool, NymError>(e) && final(self)@ == old(self)@,
            },
    {
        let g = match self.group_index(name) {
            Some(g) => g,
            None => {
                return Err(NymError::NotFound);
            },
        };
        let ghost before = self@;
        proof {
            lemma_group_pos(before, g as int);
        }
        let id = self.groups[g].id;
        let mut all = true;
        let mut i: usize = 0;
        while i < self.aliases.len()
            invariant
                self@ == before,
                i <= self.aliases@.len(),
                all == forall|x: int|
                    0 <= x < i && (#[trigger] before.aliases[x]).group_id == id
                        ==> before.aliases[x].enabled,
            decreases self.aliases@.len() - i,
        {
            assert(self.aliases@[i as int]@ == before.aliases[i as int]);
            if self.aliases[i].group_id == id && !self.aliases[i].enabled {
                all = false;
            }
            i = i + 1;
        }
        let mut j: usize = 0;
        while j < self.scripts.len()
            invariant
                self@ == before,
                j <= self.scripts@.len(),
                all == ((forall|x: int|
                    0 <= x < before.aliases.len() && (#[trigger] before.aliases[x]).group_id == id
                        ==> before.aliases[x].enabled) && forall|x: int|
                    0 <= x < j && (#[trigger] before.scripts[x]).group_id == id
                        ==> before.scripts[x].enabled),
            decreases self.scripts@.len() - j,
        {
            assert(self.scripts@[j as int]@ == before.scripts[j as int]);
            if self.scripts[j].group_id == id && !self.scripts[j].enabled {
                all = false;
            }
            j = j + 1;
        }
        assert(all == group_all_enabled(before, id));
        let target = !all;
        let mut aliases: Vec<Alias> = Vec::new();
        let mut i: usize = 0;
        while i < self.aliases.len()
            invariant
                self@ == before,
                i <= self.aliases@.len(),
                alias_views(aliases@) == before.aliases.take(i as int).map_values(
                    |a: AliasView| set_alias_enabled(a, id, target),
                ),
            decreases self.aliases@.len() - i,
        {
            let mut a = self.aliases[i].duplicate();
            assert(self.aliases@[i as int]@ == before.aliases[i as int]);
            if a.group_id == id {
                a.enabled = target;
            }
            assert(a@ == set_alias_enabled(before.aliases[i as int], id, target));
            let ghost prev = alias_views(aliases@);
            aliases.push(a);
            assert(alias_views(aliases@) =~= prev.push(a@));
            assert(before.aliases.take(i + 1).map_values(
                |a: AliasView| set_alias_enabled(a, id, target),
            ) =~= before.aliases.take(i as int).map_values(
                |a: AliasView| set_alias_enabled(a, id, target),
            ).push(set_alias_enabled(before.aliases[i as int], id, target)));
            i = i + 1;
        }
        let mut scripts: Vec<Script> = Vec::new();
        let mut j: usize = 0;
        while j < self.scripts.len()
            invariant
                self@ == before,
                j <= self.scripts@.len(),
                script_views(scripts@) == before.scripts.take(j as int).map_values(
                    |sc: ScriptView| set_script_enabled(sc, id, target),
                ),
            decreases self.scripts@.len() - j,
        {
            let mut sc = self.scripts[j].duplicate();
            assert(self.scripts@[j as int]@ == before.scripts[j as int]);
            if sc.group_id == id {
                sc.enabled = target;
            }
            assert(sc@ == set_script_enabled(before.scripts[j as int], id, target));
            let ghost prev = script_views(scripts@);
            scripts.push(sc);
            assert(script_views(scripts@) =~= prev.push(sc@));
            assert(before.scripts.take(j + 1).map_values(
                |sc: ScriptView| set_script_enabled(sc, id, target),
            ) =~= before.scripts.take(j as int).map_values(
                |sc: ScriptView| set_script_enabled(sc, id, target),
            ).push(set_script_enabled(before.scripts[j as int], id, target)));
            j = j + 1;
        }
        self.aliases = aliases;
        self.scripts = scripts;
        assert(before.aliases.take(i as int) =~= before.aliases);
        assert(before.scripts.take(j as int) =~= before.scripts);
        let ghost after = StoreView {
            aliases: before.aliases.map_values(|a: AliasView| set_alias_enabled(a, id, target)),
            scripts: before.scripts.map_values(
                |sc: ScriptView| set_script_enabled(sc, id, target),
            ),
            ..before
        };
        assert(self@ =~= after);
        proof {
            lemma_wf_same_keys(before, after);
        }
        Ok(target)
    }

    /// Group `g` with its aliases and scripts, in store order.
    pub fn group_with_members(&self, g: usize) -> (r: Group)
        requires
            g < self@.groups.len(),
        ensures
            r@ == self@.joined()[g as int],
    {
        let ghost me = self@;
        let id = self.groups[g].id;
        let mut aliases: Vec<Alias> = Vec::new();
        let mut i: usize = 0;
        assert(me.aliases.take(0) =~= Seq::<AliasView>::empty());
        proof {
            reveal(Seq::filter);
        }
        while i < self.aliases.len()
            invariant
                me == self@,
                i <= self.aliases@.len(),
                alias_views(aliases@) == me.aliases.take(i as int).filter(
                    |a: AliasView| a.group_id == id,
                ),
            decreases self.aliases@.len() - i,
        {
            proof {
                reveal(Seq::filter);
            }
            assert(me.aliases.take(i + 1).drop_last() =~= me.aliases.take(i as int));
            assert(self.aliases@[i as int]@ == me.aliases[i as int]);
            if self.aliases[i].group_id == id {
                let a = self.aliases[i].duplicate();
                let ghost prev = alias_views(aliases@);
                aliases.push(a);
                assert(alias_views(aliases@) =~= prev.push(a@));
            }
            i = i + 1;
        }
        let mut scripts: Vec<Script> = Vec::new();
        let mut j: usize = 0;
        assert(me.scripts.take(0) =~= Seq::<ScriptView>::empty());
        proof {
            reveal(Seq::filter);
        }
        while j < self.scripts.len()
            invariant
                me == self@,
                j <= self.scripts@.len(),
                script_views(scripts@) == me.scripts.take(j as int).filter(
                    |sc: ScriptView| sc.group_id == id,
                ),
            decreases self.scripts@.len() - j,
        {
            proof {
                reveal(Seq::filter);
            }
            assert(me.scripts.take(j + 1).drop_last() =~= me.scripts.take(j as int));
            assert(self.scripts@[j as int]@ == me.scripts[j as int]);
            if self.scripts[j].group_id == id {
                let sc = self.scripts[j].duplicate();
                let ghost prev = script_views(scripts@);
                scripts.push(sc);
                assert(script_views(scripts@) =~= prev.push(sc@));
            }
            j = j + 1;
        }
        assert(me.aliases.take(i as int) =~= me.aliases);
        assert(me.scripts.take(j as int) =~= me.scripts);
        let group = Group { id, name: self.groups[g].name.clone(), aliases, scripts };
        assert(group@ == me.joined()[g as int]);
        group
    }

    /// Every group with its aliases and scripts, in store order.
    pub fn get_groups_and_aliases(&self) -> (r: Vec<Group>)
        ensures
            group_views(r@) == self@.joined(),
    {
        let ghost me = self@;
        let mut out: Vec<Group> = Vec::new();
        let mut g: usize = 0;
        while g < self.groups.len()
            invariant
                me == self@,
                g <= self.groups@.len(),
                group_views(out@) == me.joined().take(g as int),
            decreases self.groups@.len() - g,
        {
            let group = self.group_with_members(g);
            let ghost prev = group_views(out@);
            out.push(group);
            assert(group_views(out@) =~= prev.push(group@));
            g = g + 1;
            assert(group_views(out@) =~= me.joined().take(g as int));
        }
        assert(me.joined().take(g as int) =~= me.joined());
        out
    }

    /// The run-control text for the current store: every group in store
    /// order with its enabled aliases and scripts (see `render_runcom`).
    pub fn update_runcom(&self) -> (r: String)
        ensures
            r@ == runcom_text(self@.joined()),
    {
        let groups = self.get_groups_and_aliases();
        render_runcom(&groups)
    }

    fn group_keys_distinct(&self) -> (r: bool)
        ensures
            r == forall|i: int, j: int|
                #![trigger self@.groups[i], self@.groups[j]]
                0 <= i < j < self@.groups.len() ==> self@.groups[i].id != self@.groups[j].id
                    && self@.groups[i].name != self@.groups[j].name,
    {
        let n = self.groups.len();
        let mut a: usize = 0;
        while a < n
            invariant
                n == self@.groups.len(),
                a <= n,
                forall|i: int, j: int|
                    #![trigger self@.groups[i], self@.groups[j]]
                    0 <= i < a && i < j < n ==> self@.groups[i].id != self@.groups[j].id
                        && self@.groups[i].name != self@.groups[j].name,
            decreases n - a,
        {
            let mut b: usize = a + 1;
            while b < n
                invariant
                    n == self@.groups.len(),
                    a < n,
                    a + 1 <= b <= n,
                    forall|i: int, j: int|
                        #![trigger self@.groups[i], self@.groups[j]]
                        0 <= i < a && i < j < n ==> self@.groups[i].id != self@.groups[j].id
                            && self@.groups[i].name != self@.groups[j].name,
                    forall|j: int|
                        #![trigger self@.groups[j]]
                        a < j < b ==> self@.groups[a as int].id != self@.groups[j].id
                            && self@.groups[a as int].name != self@.groups[j].name,
                decreases n - b,
            {
                if self.groups[a].id == self.groups[b].id || same_text(
                    self.groups[a].name.as_str(),
                    self.groups[b].name.as_str(),
                ) {
                    assert(self@.groups[a as int] == self.groups@[a as int]@);
                    assert(self@.groups[b as int] == self.groups@[b as int]@);
                    return false;
                }
                b = b + 1;
            }
            a = a + 1;
        }
        true
    }

    fn alias_names_distinct(&self) -> (r: bool)
        ensures
            r == forall|i: int, j: int|
                #![trigger self@.aliases[i], self@.aliases[j]]
                0 <= i < j < self@.aliases.len() ==> self@.aliases[i].name != self@.aliases[j].name,
    {
        let n = self.aliases.len();
        let mut a: usize = 0;
        while a < n
            invariant
                n == self@.aliases.len(),
                a <= n,
                forall|i: int, j: int|
                    #![trigger self@.aliases[i], self@.aliases[j]]
                    0 <= i < a && i < j < n ==> self@.aliases[i].name != self@.aliases[j].name,
            decreases n - a,
        {
            let mut b: usize = a + 1;
            while b < n
                invariant
                    n == self@.aliases.len(),
                    a < n,
                    a + 1 <= b <= n,
                    forall|i: int, j: int|
                        #![trigger self@.aliases[i], self@.aliases[j]]
                        0 <= i < a && i < j < n ==> self@.aliases[i].name != self@.aliases[j].name,
                    forall|j: int|
                        #![trigger self@.aliases[j]]
                        a < j < b ==> self@.aliases[a as int].name != self@.aliases[j].name,
                decreases n - b,
            {
                if same_text(self.aliases[a].name.as_str(), self.aliases[b].name.as_str()) {
                    assert(self@.aliases[a as int] == self.aliases@[a as int]@);
                    assert(self@.aliases[b as int] == self.aliases@[b as int]@);
                    return false;
                }
                b = b + 1;
            }
            a = a + 1;
        }
        true
    }

    fn script_names_distinct(&self) -> (r: bool)
        ensures
            r == forall|i: int, j: int|
                #![trigger self@.scripts[i], self@.scripts[j]]
                0 <= i < j < self@.scripts.len() ==> self@.scripts[i].name != self@.scripts[j].name,
    {
        let n = self.scripts.len();
        let mut a: usize = 0;
        while a < n
            invariant
                n == self@.scripts.len(),
                a <= n,
                forall|i: int, j: int|
                    #![trigger self@.scripts[i], self@.scripts[j]]
                    0 <= i < a && i < j < n ==> self@.scripts[i].name != self@.scripts[j].name,
            decreases n - a,
        {
            let mut b: usize = a + 1;
            while b < n
                invariant
                    n == self@.scripts.len(),
                    a < n,
                    a + 1 <= b <= n,
                    forall|i: int, j: int|
                        #![trigger self@.scripts[i], self@.scripts[j]]
                        0 <= i < a && i < j < n ==> self@.scripts[i].name != self@.scripts[j].name,
                    forall|j: int|
                        #![trigger self@.scripts[j]]
                        a < j < b ==> self@.scripts[a as int].name != self@.scripts[j].name,
                decreases n - b,
            {
                if same_text(self.scripts[a].name.as_str(), self.scripts[b].name.as_str()) {
                    assert(self@.scripts[a as int] == self.scripts@[a as int]@);
                    assert(self@.scripts[b as int] == self.scripts@[b as int]@);
                    return false;
                }
                b = b + 1;
            }
            a = a + 1;
        }
        true
    }

    fn members_have_groups(&self) -> (r: bool)
        ensures
            r == ((forall|i: int|
                0 <= i < self@.aliases.len() ==> self@.has_group(
                    #[trigger] self@.aliases[i].group_id,
                )) && forall|i: int|
                0 <= i < self@.scripts.len() ==> self@.has_group(
                    #[trigger] self@.scripts[i].group_id,
                )),
    {
        let mut i: usize = 0;
        while i < self.aliases.len()
            invariant
                i <= self@.aliases.len(),
                forall|x: int|
                    0 <= x < i ==> self@.has_group(#[trigger] self@.aliases[x].group_id),
            decreases self@.aliases.len() - i,
        {
            assert(self@.aliases[i as int] == self.aliases@[i as int]@);
            if self.group_index_by_id(self.aliases[i].group_id).is_none() {
                assert(!self@.has_group(self@.aliases[i as int].group_id));
                return false;
            }
            i = i + 1;
        }
        let mut j: usize = 0;
        while j < self.scripts.len()
            invariant
                j <= self@.scripts.len(),
                forall|x: int|
                    0 <= x < self@.aliases.len() ==> self@.has_group(
                        #[trigger] self@.aliases[x].group_id,
                    ),
                forall|x: int|
                    0 <= x < j ==> self@.has_group(#[trigger] self@.scripts[x].group_id),
            decreases self@.scripts.len() - j,
        {
            assert(self@.scripts[j as int] == self.scripts@[j as int]@);
            if self.group_index_by_id(self.scripts[j].group_id).is_none() {
                assert(!self@.has_group(self@.scripts[j as int].group_id));
                return false;
            }
            j = j + 1;
        }
        true
    }

    /// Whether the store is consistent (see `StoreView::wf`): to be checked
    /// on a snapshot built from outside before any operation on it.
    pub fn is_consistent(&self) -> (r: bool)
        ensures
            r == self@.wf(),
    {
        if self.groups.len() == 0 {
            return false;
        }
        assert(self@.groups[0] == self.groups@[0]@);
        if self.groups[0].id != DEFAULT_GROUP_ID || !is_default_group_name(
            self.groups[0].name.as_str(),
        ) {
            return false;
        }
        self.group_keys_distinct() && self.alias_names_distinct() && self.script_names_distinct()
            && self.members_have_groups()
    }

    /// The group with exactly the given name, with its members.
    pub fn get_group_by_name(&self, name: &str) -> (r: Option<Group>)
        requires
            self@.wf(),
        ensures
            match r {
                Some(g) => self@.has_group_named(name@) && g@ == self@.joined()[self@.group_pos(
                    name@,
                )],
                None => !self@.has_group_named(name@),
            },
    {
        match self.group_index(name) {
            Some(k) => {
                proof {
                    lemma_group_pos(self@, k as int);
                }
                Some(self.group_with_members(k))
            },
            None => None,
        }
    }

    /// The alias with exactly the given name.
    pub fn get_alias_by_name(&self, name: &str) -> (r: Option<Alias>)
        requires
            self@.wf(),
        ensures
            match r {
                Some(a) => self@.has_alias(name@) && a@ == self@.aliases[self@.alias_pos(name@)],
                None => !self@.has_alias(name@),
            },
    {
        match self.alias_index(name) {
            Some(k) => {
                proof {
                    lemma_alias_pos(self@, k as int);
                }
                assert(self.aliases@[k as int]@ == self@.aliases[k as int]);
                Some(self.aliases[k].duplicate())
            },
            None => None,
        }
    }

    /// The script with exactly the given name.
    pub fn get_script_by_name(&self, name: &str) -> (r: Option<Script>)
        requires
            self@.wf(),
        ensures
            match r {
                Some(sc) => self@.has_script(name@) && sc@ == self@.scripts[self@.script_pos(name@)],
                None => !self@.has_script(name@),
            },
    {
        match self.script_index(name) {
            Some(k) => {
                proof {
                    lemma_script_pos(self@, k as int);
                }
                assert(self.scripts@[k as int]@ == self@.scripts[k as int]);
                Some(self.scripts[k].duplicate())
            },
            None => None,
        }
    }

    /// The status of the group with the given name (see `group_status_of`).
    pub fn group_status(&self, name: &str) -> (r: Result<GroupStatus, NymError>)
        requires
            self@.wf(),
        ensures
            match r {
                Ok(st) => self@.has_group_named(name@) && st == group_status_of(
                    self@,
                    self@.group_id_named(name@),
                ),
                Err(e) => e == NymError::NotFound && !self@.has_group_named(name@),
            },
    {
        let g = match self.group_index(name) {
            Some(g) => g,
            None => {
                return Err(NymError::NotFound);
            },
        };
        let ghost me = self@;
        proof {
            lemma_group_pos(me, g as int);
        }
        let id = self.groups[g].id;
        let mut all_on = true;
        let mut all_off = true;
        let mut i: usize = 0;
        while i < self.aliases.len()
            invariant
                me == self@,
                i <= self.aliases@.len(),
                all_on == forall|x: int|
                    0 <= x < i && (#[trigger] me.aliases[x]).group_id == id
                        ==> me.aliases[x].enabled,
                all_off == forall|x: int|
                    0 <= x < i && (#[trigger] me.aliases[x]).group_id == id
                        ==> !me.aliases[x].enabled,
            decreases self.aliases@.len() - i,
        {
            assert(self.aliases@[i as int]@ == me.aliases[i as int]);
            if self.aliases[i].group_id == id {
                if self.aliases[i].enabled {
                    all_off = false;
                } else {
                    all_on = false;
                }
            }
            i = i + 1;
        }
        let mut j: usize = 0;
        while j < self.scripts.len()
            invariant
                me == self@,
                j <= self.scripts@.len(),
                all_on == ((forall|x: int|
                    0 <= x < me.aliases.len() && (#[trigger] me.aliases[x]).group_id == id
                        ==> me.aliases[x].enabled) && forall|x: int|
                    0 <= x < j && (#[trigger] me.scripts[x]).group_id == id
                        ==> me.scripts[x].enabled),
                all_off == ((forall|x: int|
                    0 <= x < me.aliases.len() && (#[trigger] me.aliases[x]).group_id == id
                        ==> !me.aliases[x].enabled) && forall|x: int|
                    0 <= x < j && (#[trigger] me.scripts[x]).group_id == id
                        ==> !me.scripts[x].enabled),
            decreases self.scripts@.len() - j,
        {
            assert(self.scripts@[j as int]@ == me.scripts[j as int]);
            if self.scripts[j].group_id == id {
                if self.scripts[j].enabled {
                    all_off = false;
                } else {
                    all_on = false;
                }
            }
            j = j + 1;
        }
        assert(all_on == group_all_enabled(me, id));
        assert(all_off == group_all_disabled(me, id));
        if all_on {
            Ok(GroupStatus::Enabled)
        } else if all_off {
            Ok(GroupStatus::Disabled)
        } else {
            Ok(GroupStatus::SomeEnabled)
        }
    }
}

} // verus!
