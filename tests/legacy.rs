use nym::legacy::{
    append_alias_to_alias_file, check_alias_exists, get_alias_file, remove_alias_from_alias_file,
    render_alias_file, NymData,
};
use nym::model::Alias;
use nym::runcom::read_aliases;

fn alias(name: &str, command: &str) -> Alias {
    Alias {
        name: name.to_string(),
        command: command.to_string(),
        description: String::new(),
        enabled: true,
        group_id: 0,
    }
}

#[test]
fn append_then_read_back() {
    let alias1 = alias("test1", "echo test1");
    let alias2 = alias("test2", "echo \"test2\"");
    let file = append_alias_to_alias_file(&alias1, "");
    assert_eq!(file, "alias test1=\"echo test1\"\n");
    let file = append_alias_to_alias_file(&alias2, &file);
    let aliases = read_aliases(&file);
    assert_eq!(aliases.len(), 2);
    assert_eq!(aliases[0].name, alias1.name);
    assert_eq!(aliases[0].command, alias1.command);
    assert_eq!(aliases[1].name, alias2.name);
    assert_eq!(aliases[1].command, alias2.command);
}

#[test]
fn remove_keeps_the_others() {
    let file = render_alias_file(&vec![alias("test1", "echo test1"), alias("test2", "echo test2")]);
    let file = remove_alias_from_alias_file("test1", &file);
    assert_eq!(file, "alias test2=\"echo test2\"\n");
    assert_eq!(remove_alias_from_alias_file("missing", &file), file);
}

#[test]
fn legacy_document_lookups() {
    let data = NymData {
        aliases: vec![alias("test", "echo test")],
        alias_file: "/home/u/.aliases".to_string(),
    };
    assert!(check_alias_exists("test", &data));
    assert!(!check_alias_exists("other", &data));
    assert_eq!(get_alias_file(&data), "/home/u/.aliases");
}

#[test]
fn alias_file_round_trip_keeps_equals_and_quotes() {
    let aliases = vec![alias("e", "env A=1 B=\"two\""), alias("q", "echo 'x=y'")];
    let back = read_aliases(&render_alias_file(&aliases));
    assert_eq!(back.len(), 2);
    for (read, written) in back.iter().zip(aliases.iter()) {
        assert_eq!(read.name, written.name);
        assert_eq!(read.command, written.command);
    }
}

#[test]
fn legacy_document_from_an_alias_file() {
    let text = "alias a=\"x\"\nalias b='y'\n";
    let data = NymData::from_alias_file("/home/u/.aliases", text);
    assert_eq!(get_alias_file(&data), "/home/u/.aliases");
    assert_eq!(data.aliases.len(), 2);
    assert!(check_alias_exists("b", &data));
    assert_eq!(data.aliases[1].command, "y");
}
