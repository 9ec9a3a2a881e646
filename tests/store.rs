use nym::model::{Alias, Item, Script};
use nym::resolve::Resolution;
use nym::store::{GroupRecord, GroupStatus, NymError, Store, DEFAULT_GROUP_ID};

fn alias(name: &str, command: &str, enabled: bool, group_id: i32) -> Alias {
    Alias {
        name: name.to_string(),
        command: command.to_string(),
        description: String::new(),
        enabled,
        group_id,
    }
}

fn script(name: &str, path: &str, enabled: bool, group_id: i32) -> Script {
    Script {
        name: name.to_string(),
        path: path.to_string(),
        description: String::new(),
        enabled,
        group_id,
    }
}

fn store_with_group(name: &str) -> (Store, i32) {
    let mut store = Store::new();
    let id = store.create_group(name).unwrap();
    (store, id)
}

#[test]
fn new_store_holds_the_default_group() {
    let store = Store::new();
    assert_eq!(store.groups.len(), 1);
    assert_eq!(store.groups[0].id, DEFAULT_GROUP_ID);
    assert_eq!(store.groups[0].name, "uncategorized");
    assert!(store.is_consistent());
}

#[test]
fn add_toggle_rename_scenario() {
    let mut store = Store::new();
    store.add_alias(r#"alias ll="ls -la""#, "", DEFAULT_GROUP_ID).unwrap();
    assert_eq!(store.aliases, vec![alias("ll", "ls -la", true, DEFAULT_GROUP_ID)]);
    let text = store.update_runcom();
    assert!(text.contains("##########uncategorized##########\nalias ll=\"ls -la\"\n"));

    assert_eq!(store.toggle_alias("ll"), Ok(false));
    assert!(!store.aliases[0].enabled);
    let text = store.update_runcom();
    assert!(!text.contains("alias ll="));

    store.toggle_alias("ll").unwrap();
    store.rename_alias("ll", "list").unwrap();
    assert_eq!(store.aliases[0].name, "list");
    assert_eq!(store.aliases[0].group_id, DEFAULT_GROUP_ID);
    let text = store.update_runcom();
    assert!(text.contains("alias list=\"ls -la\"\n"));
    assert!(!text.contains("alias ll="));
}

#[test]
fn add_alias_keeps_the_description_and_group() {
    let (mut store, id) = store_with_group("git");
    store.add_alias("gs='git status'", "short status", id).unwrap();
    assert_eq!(store.aliases[0].description, "short status");
    assert_eq!(store.aliases[0].group_id, id);
    assert_eq!(store.aliases[0].command, "git status");
}

#[test]
fn add_alias_errors() {
    let mut store = Store::new();
    assert_eq!(store.add_alias("alias ll", "", 1), Err(NymError::Validation));
    assert_eq!(store.add_alias("alias ll=\"a\nb\"", "", 1), Err(NymError::Validation));
    assert_eq!(store.add_alias("ll=ls -la", "", 1), Err(NymError::Validation));
    assert_eq!(store.add_alias(r#"ll= "ls""#, "", 1), Err(NymError::Validation));
    assert_eq!(store.add_alias("x='a' junk", "", 1), Err(NymError::Validation));
    store.add_alias("ll=\"ls\"", "", 1).unwrap();
    assert_eq!(store.add_alias("ll=\"ls -la\"", "", 1), Err(NymError::DuplicateName));
    assert_eq!(store.add_alias("la=\"ls -a\"", "", 7), Err(NymError::NotFound));
    assert_eq!(store.aliases.len(), 1);
}

#[test]
fn rename_alias_errors() {
    let mut store = Store::new();
    store.add_alias("a=\"x\"", "", 1).unwrap();
    store.add_alias("b=\"y\"", "", 1).unwrap();
    assert_eq!(store.rename_alias("c", "d"), Err(NymError::NotFound));
    assert_eq!(store.rename_alias("a", "has space"), Err(NymError::Validation));
    assert_eq!(store.rename_alias("a", ""), Err(NymError::Validation));
    assert_eq!(store.rename_alias("a", "b"), Err(NymError::DuplicateName));
    assert_eq!(store.rename_alias("a", "a"), Ok(()));
}

#[test]
fn move_and_remove_alias() {
    let (mut store, id) = store_with_group("test_group_1");
    store.add_alias(r#"alias test1="echo \"test command 1\"""#, "", 1).unwrap();
    assert_eq!(store.aliases[0].command, r#"echo "test command 1""#);
    store.move_alias_group("test1", "test_group_1").unwrap();
    assert_eq!(store.aliases[0].group_id, id);
    assert_eq!(store.move_alias_group("test1", "nope"), Err(NymError::NotFound));
    assert_eq!(store.move_alias_group("nope", "test_group_1"), Err(NymError::NotFound));
    store.remove_alias("test1").unwrap();
    assert!(store.aliases.is_empty());
    assert_eq!(store.remove_alias("test1"), Err(NymError::NotFound));
}

#[test]
fn create_group_errors() {
    let mut store = Store::new();
    assert_eq!(store.create_group(""), Err(NymError::Validation));
    assert_eq!(store.create_group("uncategorized"), Err(NymError::DuplicateName));
    assert_eq!(store.create_group("Testgroup1"), Ok(2));
    assert_eq!(store.create_group("Testgroup2"), Ok(3));
    assert_eq!(store.create_group("Testgroup1"), Err(NymError::DuplicateName));
}

#[test]
fn create_group_when_ids_run_out() {
    let store = Store {
        groups: vec![
            GroupRecord { id: 1, name: "uncategorized".to_string() },
            GroupRecord { id: i32::MAX, name: "last".to_string() },
        ],
        aliases: Vec::new(),
        scripts: Vec::new(),
    };
    assert!(store.is_consistent());
    let mut store = store;
    assert_eq!(store.create_group("more"), Err(NymError::StoreIo));
    assert_eq!(store.groups.len(), 2);
}

#[test]
fn default_group_is_protected() {
    let mut store = Store::new();
    assert_eq!(store.rename_group("uncategorized", "other"), Err(NymError::ProtectedGroup));
    assert_eq!(store.remove_group("uncategorized"), Err(NymError::ProtectedGroup));
    assert_eq!(store.groups[0].name, "uncategorized");
}

#[test]
fn rename_group_keeps_members() {
    let (mut store, id) = store_with_group("testgroup1");
    store.add_alias("a=\"x\"", "", id).unwrap();
    store.rename_group("testgroup1", "newgroupname").unwrap();
    assert_eq!(store.groups[1].name, "newgroupname");
    assert_eq!(store.groups[1].id, id);
    assert_eq!(store.aliases[0].group_id, id);
    assert_eq!(store.rename_group("missing", "x"), Err(NymError::NotFound));
    assert_eq!(store.rename_group("newgroupname", ""), Err(NymError::Validation));
    assert_eq!(store.rename_group("newgroupname", "uncategorized"), Err(NymError::DuplicateName));
}

#[test]
fn removing_a_group_reassigns_its_members() {
    let (mut store, id) = store_with_group("group1");
    let other = store.create_group("group2").unwrap();
    store.add_alias("a=\"x\"", "", id).unwrap();
    store.add_alias("b=\"y\"", "", other).unwrap();
    store.scripts.push(script("s", "/m/scripts/s/s.sh", true, id));
    assert!(store.is_consistent());
    store.remove_group("group1").unwrap();
    assert_eq!(store.aliases[0].group_id, DEFAULT_GROUP_ID);
    assert_eq!(store.aliases[1].group_id, other);
    assert_eq!(store.scripts[0].group_id, DEFAULT_GROUP_ID);
    assert!(store.groups.iter().all(|g| g.name != "group1"));
    let listed = store.get_groups_and_aliases();
    assert_eq!(listed.len(), 2);
    assert_eq!(listed[0].aliases.len(), 1);
    assert_eq!(listed[0].scripts.len(), 1);
    assert_eq!(store.remove_group("group1"), Err(NymError::NotFound));
}

#[test]
fn toggle_group_enables_partial_groups_then_disables() {
    let (mut store, id) = store_with_group("g");
    store.add_alias("a=\"x\"", "", id).unwrap();
    store.add_alias("b=\"y\"", "", id).unwrap();
    store.add_alias("c=\"z\"", "", 1).unwrap();
    store.toggle_alias("a").unwrap();
    assert_eq!(store.toggle_group("g"), Ok(true));
    assert!(store.aliases.iter().all(|a| a.enabled));
    assert_eq!(store.toggle_group("g"), Ok(false));
    assert!(!store.aliases[0].enabled && !store.aliases[1].enabled);
    assert!(store.aliases[2].enabled);
    assert_eq!(store.toggle_group("missing"), Err(NymError::NotFound));
}

#[test]
fn scripts_are_named_after_their_file() {
    let mut store = Store::new();
    let sc = store.add_script("/tmp/test_script.sh", "/home/u/.nym/scripts", "", 1).unwrap();
    assert_eq!(sc.name, "test_script");
    assert_eq!(sc.path, "/home/u/.nym/scripts/test_script/test_script.sh");
    assert!(sc.enabled);
    assert_eq!(store.scripts, vec![sc.clone()]);
    assert_eq!(
        store.add_script("other/test_script.py", "/d", "", 1),
        Err(NymError::DuplicateName)
    );
    assert_eq!(store.add_script("/tmp/.hidden", "/d", "", 1), Err(NymError::Validation));
    assert_eq!(store.add_script("/tmp/x.sh", "/d", "", 9), Err(NymError::NotFound));
}

#[test]
fn renaming_a_script_moves_its_managed_copy() {
    let mut store = Store::new();
    store
        .add_script("edit_script_test_script.sh", "edit_script_test/scripts", "", 1)
        .unwrap();
    let new_path = store
        .rename_script(
            "edit_script_test_script",
            "new_edit_script_test_script",
            "edit_script_test/scripts",
        )
        .unwrap();
    assert_eq!(
        new_path,
        "edit_script_test/scripts/new_edit_script_test_script/new_edit_script_test_script.sh"
    );
    assert_eq!(store.scripts[0].name, "new_edit_script_test_script");
    assert_eq!(store.scripts[0].path, new_path);
    assert_eq!(store.rename_script("nope", "x", "d"), Err(NymError::NotFound));
    assert_eq!(
        store.rename_script("new_edit_script_test_script", "a/b", "d"),
        Err(NymError::Validation)
    );
}

#[test]
fn toggle_move_and_remove_script() {
    let (mut store, id) = store_with_group("Group1");
    store.add_script("run.sh", "/s", "", 1).unwrap();
    assert_eq!(store.toggle_script("run"), Ok(false));
    store.move_script("run", "Group1").unwrap();
    assert_eq!(store.scripts[0].group_id, id);
    assert_eq!(store.move_script("run", "nope"), Err(NymError::NotFound));
    store.remove_script("run").unwrap();
    assert!(store.scripts.is_empty());
    assert_eq!(store.toggle_script("run"), Err(NymError::NotFound));
}

#[test]
fn consistency_check_rejects_broken_snapshots() {
    let mut store = Store::new();
    store.aliases.push(alias("a", "x", true, 5));
    assert!(!store.is_consistent());
    let mut store = Store::new();
    store.aliases.push(alias("a", "x", true, 1));
    store.aliases.push(alias("a", "y", true, 1));
    assert!(!store.is_consistent());
    let store = Store { groups: Vec::new(), aliases: Vec::new(), scripts: Vec::new() };
    assert!(!store.is_consistent());
    let store = Store {
        groups: vec![
            GroupRecord { id: 1, name: "uncategorized".to_string() },
            GroupRecord { id: 1, name: "x".to_string() },
        ],
        aliases: Vec::new(),
        scripts: Vec::new(),
    };
    assert!(!store.is_consistent());
}

#[test]
fn exact_match_wins_over_near_names() {
    let mut store = Store::new();
    store.add_alias("gs=\"git status\"", "", 1).unwrap();
    store.add_alias("gst=\"git stash\"", "", 1).unwrap();
    store.add_script("gsx.sh", "/s", "", 1).unwrap();
    match store.get_item("gs", true) {
        Resolution::Exact(Item::Alias(a)) => assert_eq!(a.name, "gs"),
        other => panic!("unexpected {:?}", other),
    }
}

#[test]
fn names_shared_across_kinds_are_a_choice() {
    let mut store = Store::new();
    store.create_group("dev").unwrap();
    store.add_alias("dev=\"cd ~/dev\"", "", 1).unwrap();
    store.add_script("other.sh", "/s", "", 1).unwrap();
    match store.get_item("dev", true) {
        Resolution::Choose(items) => {
            assert_eq!(items.len(), 2);
            assert!(matches!(items[0], Item::Alias(_)));
            assert!(matches!(items[1], Item::Group(_)));
        }
        other => panic!("unexpected {:?}", other),
    }
    match store.get_item("dev", false) {
        Resolution::Exact(Item::Alias(a)) => assert_eq!(a.name, "dev"),
        other => panic!("unexpected {:?}", other),
    }
}

#[test]
fn a_single_near_name_asks_for_confirmation() {
    let mut store = Store::new();
    store.add_alias("gst=\"git status\"", "", 1).unwrap();
    store.add_alias("ll=\"ls -la\"", "", 1).unwrap();
    match store.get_item("gs", false) {
        Resolution::Confirm(Item::Alias(a)) => assert_eq!(a.name, "gst"),
        other => panic!("unexpected {:?}", other),
    }
    let empty = Store { groups: Store::new().groups, aliases: Vec::new(), scripts: Vec::new() };
    assert_eq!(empty.get_item("anything", false), Resolution::NotFound);
}

#[test]
fn near_names_of_several_kinds_are_a_choice() {
    let mut store = Store::new();
    store.add_alias("build=\"make\"", "", 1).unwrap();
    store.add_script("builds.sh", "/s", "", 1).unwrap();
    match store.get_item("buil", false) {
        Resolution::Choose(items) => {
            assert_eq!(items.len(), 2);
            assert!(matches!(&items[0], Item::Alias(a) if a.name == "build"));
            assert!(matches!(&items[1], Item::Script(s) if s.name == "builds"));
        }
        other => panic!("unexpected {:?}", other),
    }
}

#[test]
fn fuzzy_lookup_uses_edit_distance() {
    let mut store = Store::new();
    store.add_alias("update=\"x\"", "", 1).unwrap();
    store.add_alias("ls=\"y\"", "", 1).unwrap();
    store.add_alias("lsd=\"z\"", "", 1).unwrap();
    assert_eq!(store.fuzzy_get_alias("lx").unwrap().name, "ls");
    assert_eq!(store.fuzzy_get_alias("updat").unwrap().name, "update");
    assert_eq!(store.fuzzy_get_alias("lsd").unwrap().name, "lsd");
    assert!(Store::new().fuzzy_get_alias("x").is_none());
    assert_eq!(store.fuzzy_get_group("uncat").unwrap().name, "uncategorized");
    assert!(store.fuzzy_get_script("x").is_none());
}

#[test]
fn exact_lookups_by_name() {
    let (mut store, id) = store_with_group("group1");
    assert_eq!(id, 2);
    store.add_alias(r#"test="echo \"test\"""#, "", id).unwrap();
    let group = store.get_group_by_name("group1").unwrap();
    assert_eq!(
        group,
        nym::model::Group {
            id: 2,
            name: "group1".to_string(),
            aliases: vec![alias("test", "echo \"test\"", true, 2)],
            scripts: Vec::new(),
        }
    );
    store.remove_group("group1").unwrap();
    let uncategorized = store.get_group_by_name("uncategorized").unwrap();
    assert_eq!(uncategorized.aliases, vec![alias("test", "echo \"test\"", true, 1)]);
    assert!(store.get_group_by_name("group1").is_none());
    assert_eq!(store.get_alias_by_name("test").unwrap().command, "echo \"test\"");
    assert!(store.get_alias_by_name("tes").is_none());

    store.add_script("dir/test_script.sh", "/s", "test script", 1).unwrap();
    let found = store.get_script_by_name("test_script").unwrap();
    assert_eq!(found.description, "test script");
    store.rename_script("test_script", "new_test_script", "/s").unwrap();
    assert!(store.get_script_by_name("test_script").is_none());
    assert_eq!(store.get_script_by_name("new_test_script").unwrap().name, "new_test_script");
}

#[test]
fn add_alias_agrees_with_validation() {
    let mut store = Store::new();
    assert_eq!(store.add_alias("ll=\"x\"\n", "", 1), Err(NymError::Validation));
    assert_eq!(store.add_alias("\u{e9}=\"x\"", "", 1), Ok(()));
    assert_eq!(store.aliases[0].name, "\u{e9}");
}

#[test]
fn group_names_stay_on_one_line() {
    let mut store = Store::new();
    assert_eq!(store.create_group("a\nb"), Err(NymError::Validation));
    store.create_group("ok").unwrap();
    assert_eq!(store.rename_group("ok", "x\necho pwned"), Err(NymError::Validation));
    assert_eq!(store.groups[1].name, "ok");
}

#[test]
fn script_names_stay_on_one_line() {
    let mut store = Store::new();
    assert_eq!(store.add_script("/tmp/a\nb.sh", "/s", "", 1), Err(NymError::Validation));
    store.add_script("/tmp/tool.sh", "/s", "", 1).unwrap();
    assert_eq!(store.rename_script("tool", "a\nb", "/s"), Err(NymError::Validation));
}

#[test]
fn script_directories_are_quoted_for_the_shell() {
    let mut store = Store::new();
    store.add_script("/tmp/t.sh", "/home/u/$x \"q\" `c`", "", 1).unwrap();
    let text = store.update_runcom();
    assert!(text.contains("export PATH=\"/home/u/\\$x \\\"q\\\" \\`c\\`/t:$PATH\"\n"));
}

#[test]
fn group_status_classifies_members() {
    let (mut store, id) = store_with_group("g");
    assert_eq!(store.group_status("g"), Ok(GroupStatus::Enabled));
    store.add_alias("a=\"x\"", "", id).unwrap();
    store.add_alias("b=\"y\"", "", id).unwrap();
    assert_eq!(store.group_status("g"), Ok(GroupStatus::Enabled));
    store.toggle_alias("a").unwrap();
    assert_eq!(store.group_status("g"), Ok(GroupStatus::SomeEnabled));
    store.toggle_alias("b").unwrap();
    assert_eq!(store.group_status("g"), Ok(GroupStatus::Disabled));
    assert_eq!(store.group_status("missing"), Err(NymError::NotFound));
}
