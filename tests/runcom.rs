use nym::model::{Alias, Group, Script};
use nym::runcom::{read_aliases, render_runcom};
use nym::store::Store;

fn alias(name: &str, command: &str, enabled: bool) -> Alias {
    Alias {
        name: name.to_string(),
        command: command.to_string(),
        description: String::new(),
        enabled,
        group_id: 0,
    }
}

#[test]
fn runcom_runcom_read_write() {
    let alias1 = alias("test_alias_1", "echo \"test alias 1\"", true);
    let alias2 = alias("test_alias_2", "echo \"test alias 2\"", true);
    let alias3 = alias("test_alias_3", "echo \"test alias 3\"", true);
    let alias4 = alias("test_alias_4", "echo \"test alias 4\"", false);
    let group1 = Group {
        id: 1,
        name: "uncategorized".to_string(),
        aliases: vec![alias1.clone(), alias2.clone()],
        scripts: Vec::new(),
    };
    let group2 = Group {
        id: 2,
        name: "group1".to_string(),
        aliases: vec![alias3.clone(), alias4],
        scripts: Vec::new(),
    };
    let text = render_runcom(&vec![group1, group2]);
    let enabled_aliases = read_aliases(&text);
    assert_eq!(enabled_aliases, vec![alias1, alias2, alias3]);
}

#[test]
fn render_has_the_exact_layout() {
    let group = Group {
        id: 1,
        name: "uncategorized".to_string(),
        aliases: vec![alias("ll", "ls -la", true), alias("off", "x", false)],
        scripts: vec![
            Script {
                name: "tool".to_string(),
                path: "/home/u/.nym/scripts/tool/tool.sh".to_string(),
                description: String::new(),
                enabled: true,
                group_id: 1,
            },
            Script {
                name: "quiet".to_string(),
                path: "/home/u/.nym/scripts/quiet/quiet.sh".to_string(),
                description: String::new(),
                enabled: false,
                group_id: 1,
            },
        ],
    };
    let empty = Group { id: 2, name: "empty".to_string(), aliases: Vec::new(), scripts: Vec::new() };
    assert_eq!(
        render_runcom(&vec![group, empty]),
        "###############Aliases###############\n\
         \n##########uncategorized##########\n\
         alias ll=\"ls -la\"\n\
         export PATH=\"/home/u/.nym/scripts/tool:$PATH\"\n\
         \n##########empty##########\n"
    );
    assert_eq!(render_runcom(&Vec::new()), "###############Aliases###############\n");
}

#[test]
fn disabled_entities_leave_no_line() {
    let mut store = Store::new();
    store.add_alias("secret=\"echo hidden\"", "", 1).unwrap();
    store.add_alias("shown=\"echo visible\"", "", 1).unwrap();
    store.add_script("/x/secret_tool.sh", "/m", "", 1).unwrap();
    let before_toggle = store.update_runcom();
    assert!(before_toggle.contains("secret"));
    store.toggle_alias("secret").unwrap();
    store.toggle_script("secret_tool").unwrap();
    let text = store.update_runcom();
    assert!(!text.contains("secret"));
    assert!(text.contains("alias shown=\"echo visible\"\n"));
}

#[test]
fn regeneration_is_idempotent() {
    let mut store = Store::new();
    store.create_group("tools").unwrap();
    store.add_alias("a=\"x\"", "", 2).unwrap();
    store.add_alias("b='y \"z\"'", "", 1).unwrap();
    let first = store.update_runcom();
    let second = store.update_runcom();
    assert_eq!(first, second);
    assert_eq!(
        first,
        "###############Aliases###############\n\
         \n##########uncategorized##########\n\
         alias b=\"y \\\"z\\\"\"\n\
         \n##########tools##########\n\
         alias a=\"x\"\n"
    );
}
