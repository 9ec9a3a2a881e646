//! The entities the manager keeps: aliases, scripts and groups.
use vstd::prelude::*;

verus! {

/// A shell alias. Its name is unique among aliases.
#[derive(Debug, Clone, PartialEq, Eq, PartialOrd, Ord)]
pub struct Alias {
    pub name: String,
    pub command: String,
    pub description: String,
    pub enabled: bool,
    pub group_id: i32,
}

/// A helper script, kept as a managed copy. Its name is unique among scripts.
#[derive(Debug, Clone, PartialEq, Eq, PartialOrd, Ord)]
pub struct Script {
    pub name: String,
    pub path: String,
    pub description: String,
    pub enabled: bool,
    pub group_id: i32,
}

/// A group with the aliases and scripts that belong to it.
#[derive(Debug, Clone, PartialEq, Eq, PartialOrd, Ord)]
pub struct Group {
    pub id: i32,
    pub name: String,
    pub aliases: Vec<Alias>,
    pub scripts: Vec<Script>,
}

/// An entity of one of the three kinds.
#[derive(Debug, Clone, PartialEq, Eq)]
pub enum Item {
    Alias(Alias),
    Group(Group),
    Script(Script),
}

/// What an alias holds, as plain values.
pub ghost struct AliasView {
    pub name: Seq<char>,
    pub command: Seq<char>,
    pub description: Seq<char>,
    pub enabled: bool,
    pub group_id: i32,
}

/// What a script holds, as plain values.
pub ghost struct ScriptView {
    pub name: Seq<char>,
    pub path: Seq<char>,
    pub description: Seq<char>,
    pub enabled: bool,
    pub group_id: i32,
}

/// What a group holds, as plain values.
pub ghost struct GroupView {
    pub id: i32,
    pub name: Seq<char>,
    pub aliases: Seq<AliasView>,
    pub scripts: Seq<ScriptView>,
}

impl View for Alias {
    type V = AliasView;

    open spec fn view(&self) -> AliasView {
        AliasView {
            name: self.name@,
            command: self.command@,
            description: self.description@,
            enabled: self.enabled,
            group_id: self.group_id,
        }
    }
}

impl View for Script {
    type V = ScriptView;

    open spec fn view(&self) -> ScriptView {
        ScriptView {
            name: self.name@,
            path: self.path@,
            description: self.description@,
            enabled: self.enabled,
            group_id: self.group_id,
        }
    }
}

pub open spec fn alias_views(s: Seq<Alias>) -> Seq<AliasView> {
    s.map_values(|a: Alias| a@)
}

pub open spec fn script_views(s: Seq<Script>) -> Seq<ScriptView> {
    s.map_values(|x: Script| x@)
}

impl View for Group {
    type V = GroupView;

    open spec fn view(&self) -> GroupView {
        GroupView {
            id: self.id,
            name: self.name@,
            aliases: alias_views(self.aliases@),
            scripts: script_views(self.scripts@),
        }
    }
}

pub open spec fn group_views(s: Seq<Group>) -> Seq<GroupView> {
    s.map_values(|g: Group| g@)
}

/// An entity of one of the three kinds, as plain values.
pub ghost enum ItemView {
    Alias(AliasView),
    Group(GroupView),
    Script(ScriptView),
}

impl View for Item {
    type V = ItemView;

    open spec fn view(&self) -> ItemView {
        match self {
            Item::Alias(a) => ItemView::Alias(a@),
            Item::Group(g) => ItemView::Group(g@),
            Item::Script(s) => ItemView::Script(s@),
        }
    }
}

impl Alias {
    /// A field-by-field copy.
    pub fn duplicate(&self) -> (r: Alias)
        ensures
            r == *self,
    {
        Alias {
            name: self.name.clone(),
            command: self.command.clone(),
            description: self.description.clone(),
            enabled: self.enabled,
            group_id: self.group_id,
        }
    }
}

impl Script {
    /// A field-by-field copy.
    pub fn duplicate(&self) -> (r: Script)
        ensures
            r == *self,
    {
        Script {
            name: self.name.clone(),
            path: self.path.clone(),
            description: self.description.clone(),
            enabled: self.enabled,
            group_id: self.group_id,
        }
    }
}

} // verus!
