use config_cli::error::MergeError;
use config_cli::marker::{find_line, mark_section, END, HEADER, START};
use config_cli::merge::{add_prefix, merge_existing_toml, merge_table, SECTION};

const NEW: &str = "# GENERATED BY ENV_TO_CONFIG_TOML START\n\n[env]\nA = \"1\"\nB = \"2\"\n\n# GENERATED BY ENV_TO_CONFIG_TOML END\n";

fn pairs(items: &[(&str, &str)]) -> Vec<(String, String)> {
    items.iter().map(|(k, v)| (k.to_string(), v.to_string())).collect()
}

fn merged(items: &[(&str, &str)], existing: &str) -> String {
    String::from_utf8(merge_existing_toml(&pairs(items), existing).unwrap()).unwrap()
}

fn section(text: &str) -> toml::Table {
    let root: toml::Table = toml::from_str(text).unwrap();
    root.get("env").unwrap().as_table().unwrap().clone()
}

#[test]
fn markers_are_fixed() {
    assert_eq!(START, "# GENERATED BY ENV_TO_CONFIG_TOML START\n");
    assert_eq!(END, "\n# GENERATED BY ENV_TO_CONFIG_TOML END\n");
    assert_eq!(SECTION, "env");
    assert_eq!(HEADER, format!("[{}]", SECTION));
}

#[test]
fn merge_into_empty_document() {
    assert_eq!(merged(&[("A", "1"), ("B", "2")], ""), NEW);
}

#[test]
fn merge_nothing_into_empty_document() {
    assert_eq!(
        merged(&[], ""),
        "# GENERATED BY ENV_TO_CONFIG_TOML START\n\n[env]\n\n# GENERATED BY ENV_TO_CONFIG_TOML END\n"
    );
}

#[test]
fn merge_is_a_fixed_point_on_its_own_output() {
    let entries = [("A", "1"), ("B", "2"), ("path", "C:\\dir"), ("quote", "say \"hi\""), ("flat", "x||||y")];
    let once = merged(&entries, "");
    let twice = merged(&entries, &once);
    assert_eq!(twice, once);
    let thrice = merged(&entries, &twice);
    assert_eq!(thrice, once);
}

#[test]
fn merge_keeps_entry_order_as_given() {
    let out = merged(&[("b", "2"), ("a", "1")], "");
    assert_eq!(
        out,
        "# GENERATED BY ENV_TO_CONFIG_TOML START\n\n[env]\nb = \"2\"\na = \"1\"\n\n# GENERATED BY ENV_TO_CONFIG_TOML END\n"
    );
}

#[test]
fn merge_overwrites_in_place() {
    let out = merged(
        &[("A", "1"), ("B", "2")],
        "[env]\nZ = \"keep\"\nB = \"old\"\n\n[other]\nk = 1\n",
    );
    assert_eq!(
        out,
        "# GENERATED BY ENV_TO_CONFIG_TOML START\n\n[env]\nZ = \"keep\"\nB = \"2\"\nA = \"1\"\n\n# GENERATED BY ENV_TO_CONFIG_TOML END\n\n\n[other]\nk = 1"
    );
    let env = section(&out);
    let keys: Vec<&String> = env.keys().collect();
    assert_eq!(keys, vec!["Z", "B", "A"]);
    assert_eq!(env["B"].as_str(), Some("2"));
    assert_eq!(env["Z"].as_str(), Some("keep"));
}

#[test]
fn merge_last_binding_of_a_key_wins() {
    let out = merged(&[("K", "first"), ("K", "new")], "[env]\nK = \"old\"\n");
    let env = section(&out);
    assert_eq!(env.len(), 1);
    assert_eq!(env["K"].as_str(), Some("new"));
}

#[test]
fn merge_appends_the_section_after_other_sections() {
    let existing = "title = \"x\"\n\n[zeta]\nk = 1\n\n[alpha]\nq = [1, 2]\n";
    let out = merged(&[("A", "1"), ("B", "2")], existing);
    assert_eq!(
        out,
        "title = \"x\"\n\n[zeta]\nk = 1\n\n[alpha]\nq = [\n    1,\n    2,\n]\n\n# GENERATED BY ENV_TO_CONFIG_TOML START\n\n[env]\nA = \"1\"\nB = \"2\"\n\n# GENERATED BY ENV_TO_CONFIG_TOML END\n"
    );
    let before: toml::Table = toml::from_str(existing).unwrap();
    let after: toml::Table = toml::from_str(&out).unwrap();
    let keys: Vec<&String> = after.keys().collect();
    assert_eq!(keys, vec!["title", "zeta", "alpha", "env"]);
    assert_eq!(after["title"], before["title"]);
    assert_eq!(after["zeta"], before["zeta"]);
    assert_eq!(after["alpha"], before["alpha"]);
    let env = after["env"].as_table().unwrap();
    assert_eq!(env.len(), 2);
    assert_eq!(env["A"].as_str(), Some("1"));
    assert_eq!(env["B"].as_str(), Some("2"));
}

#[test]
fn merge_section_between_other_sections_stays_there() {
    let existing = "[a]\nx = 1\n\n[env]\nOLD = \"o\"\n\n[b]\ny = 2\n";
    let out = merged(&[("NEW", "n")], existing);
    let after: toml::Table = toml::from_str(&out).unwrap();
    let keys: Vec<&String> = after.keys().collect();
    assert_eq!(keys, vec!["a", "env", "b"]);
    let env = after["env"].as_table().unwrap();
    let env_keys: Vec<&String> = env.keys().collect();
    assert_eq!(env_keys, vec!["OLD", "NEW"]);
    assert_eq!(
        out,
        "[a]\nx = 1\n\n# GENERATED BY ENV_TO_CONFIG_TOML START\n\n[env]\nOLD = \"o\"\nNEW = \"n\"\n\n# GENERATED BY ENV_TO_CONFIG_TOML END\n\n\n[b]\ny = 2"
    );
}

#[test]
fn merge_counts_entries_that_were_not_supplied() {
    let out = merged(&[("B", "2")], "[env]\nA = \"a\"\nC = \"c\"\n");
    assert_eq!(
        out,
        "# GENERATED BY ENV_TO_CONFIG_TOML START\n\n[env]\nA = \"a\"\nC = \"c\"\nB = \"2\"\n\n# GENERATED BY ENV_TO_CONFIG_TOML END\n"
    );
}

#[test]
fn merge_rejects_malformed_document() {
    let err = merge_existing_toml(&pairs(&[("A", "1")]), "env = \n").unwrap_err();
    match err {
        MergeError::ParseError(message) => assert!(message.contains("TOML parse error")),
        other => panic!("unexpected error {:?}", other),
    }
}

#[test]
fn merge_rejects_section_that_is_not_a_table() {
    let err = merge_existing_toml(&pairs(&[("A", "1")]), "env = 3\n").unwrap_err();
    assert_eq!(err, MergeError::SectionNotTable);
}

#[test]
fn merge_reports_markers_that_do_not_fit() {
    let err = merge_existing_toml(&pairs(&[]), "[env.sub]\n").unwrap_err();
    assert_eq!(err, MergeError::MarkerOutOfRange);
}

#[test]
fn merge_table_takes_a_parsed_document() {
    let root: toml::Table = toml::from_str("[env]\nA = \"0\"\n").unwrap();
    let out = merge_table(&pairs(&[("A", "1"), ("B", "2")]), root).unwrap();
    assert_eq!(String::from_utf8(out).unwrap(), NEW);
    let out = merge_table(&pairs(&[("A", "1"), ("B", "2")]), toml::Table::new()).unwrap();
    assert_eq!(String::from_utf8(out).unwrap(), NEW);
}

#[test]
fn merge_table_reports_a_document_that_cannot_be_written() {
    let mut root = toml::Table::new();
    let nothing = toml::value::Datetime { date: None, time: None, offset: None };
    root.insert("when".to_string(), toml::Value::Datetime(nothing));
    let err = merge_table(&pairs(&[("A", "1")]), root).unwrap_err();
    match err {
        MergeError::SerializeError(_) => {}
        other => panic!("unexpected error {:?}", other),
    }
}

#[test]
fn add_prefix_places_markers_around_the_section() {
    let root: toml::Table = toml::from_str("a = 1\n\n[env]\nA = \"1\"\n").unwrap();
    assert_eq!(
        add_prefix(&root, 1).unwrap(),
        "a = 1\n\n# GENERATED BY ENV_TO_CONFIG_TOML START\n\n[env]\nA = \"1\"\n\n# GENERATED BY ENV_TO_CONFIG_TOML END\n"
    );
    assert_eq!(add_prefix(&root, 3).unwrap_err(), MergeError::MarkerOutOfRange);
}

#[test]
fn add_prefix_leaves_earlier_tables_outside_the_markers() {
    let root: toml::Table =
        toml::from_str("[A]\nx = 1\n\n[B]\ny = 2\n\n[env]\nK = \"v\"\n").unwrap();
    let text = add_prefix(&root, 1).unwrap();
    assert_eq!(
        text,
        "[A]\nx = 1\n\n[B]\ny = 2\n\n# GENERATED BY ENV_TO_CONFIG_TOML START\n\n[env]\nK = \"v\"\n\n# GENERATED BY ENV_TO_CONFIG_TOML END\n"
    );
    let start = text.find("# GENERATED BY ENV_TO_CONFIG_TOML START").unwrap();
    let end = text.find("# GENERATED BY ENV_TO_CONFIG_TOML END").unwrap();
    let between = &text[start..end];
    assert!(between.contains("[env]\nK = \"v\"\n"));
    assert!(!between.contains("[A]") && !between.contains("[B]"));
    assert!(!between.contains("x = 1") && !between.contains("y = 2"));
    assert!(text.find("[A]").unwrap() < text.find("[B]").unwrap());
    assert!(text.find("y = 2").unwrap() < start);
}

#[test]
fn merge_appends_the_section_after_two_tables() {
    let out = merged(&[("K", "v")], "[A]\nx = 1\n\n[B]\ny = 2\n");
    assert_eq!(
        out,
        "[A]\nx = 1\n\n[B]\ny = 2\n\n# GENERATED BY ENV_TO_CONFIG_TOML START\n\n[env]\nK = \"v\"\n\n# GENERATED BY ENV_TO_CONFIG_TOML END\n"
    );
    assert_eq!(merged(&[("K", "v")], &out), out);
}

#[test]
fn markers_do_not_pile_up() {
    let existing = "[a]\nx = 1\n\n[env]\nOLD = \"o\"\n\n[b]\ny = 2\n";
    let once = merged(&[("NEW", "n")], existing);
    let twice = merged(&[("NEW", "n")], &once);
    assert_eq!(twice, once);
    assert_eq!(twice.matches("ENV_TO_CONFIG_TOML START").count(), 1);
    assert_eq!(twice.matches("ENV_TO_CONFIG_TOML END").count(), 1);
}

#[test]
fn find_line_gives_the_first_holder() {
    let lines: Vec<Vec<char>> =
        ["a", "[env]", "b", "[env]"].iter().map(|l| l.chars().collect()).collect();
    let header: Vec<char> = HEADER.chars().collect();
    assert_eq!(find_line(&lines, &header), 1);
    let lines: Vec<Vec<char>> =
        ["a", " [env]", "[env] ", "[Env]", "[env.sub]"].iter().map(|l| l.chars().collect()).collect();
    assert_eq!(find_line(&lines, &header), 5);
    assert_eq!(find_line(&Vec::new(), &header), 0);
}

#[test]
fn mark_section_finds_the_header() {
    assert_eq!(
        mark_section("k = 1\n\n[env]\nA = \"1\"\n\n[z]\nq = 2\n", 1).unwrap(),
        "k = 1\n\n# GENERATED BY ENV_TO_CONFIG_TOML START\n\n[env]\nA = \"1\"\n\n# GENERATED BY ENV_TO_CONFIG_TOML END\n\n\n[z]\nq = 2"
    );
    assert_eq!(
        mark_section("[env]\r\nA = \"1\"\r\n", 1).unwrap(),
        "# GENERATED BY ENV_TO_CONFIG_TOML START\n\n[env]\nA = \"1\"\n\n# GENERATED BY ENV_TO_CONFIG_TOML END\n"
    );
    assert_eq!(
        mark_section("[env]", 0).unwrap(),
        "# GENERATED BY ENV_TO_CONFIG_TOML START\n\n[env]\n\n# GENERATED BY ENV_TO_CONFIG_TOML END\n"
    );
}

#[test]
fn mark_section_without_header_or_lines() {
    assert!(mark_section("", 0).is_none());
    assert!(mark_section("a = 1\n[env.sub]\nb = 2\n", 0).is_none());
    assert!(mark_section("[env]\nA = 1\n", 2).is_none());
    assert!(mark_section("[env]\nA = 1\n", usize::MAX).is_none());
    assert!(mark_section("[env]\nA = 1\n", 1).is_some());
}

#[test]
fn mark_section_counts_lines() {
    let text = "l0\n[env]\nl2\nl3\n";
    assert_eq!(
        mark_section(text, 1).unwrap(),
        "l0\n# GENERATED BY ENV_TO_CONFIG_TOML START\n\n[env]\nl2\n\n# GENERATED BY ENV_TO_CONFIG_TOML END\n\nl3"
    );
    assert_eq!(
        mark_section(text, 2).unwrap(),
        "l0\n# GENERATED BY ENV_TO_CONFIG_TOML START\n\n[env]\nl2\nl3\n\n# GENERATED BY ENV_TO_CONFIG_TOML END\n"
    );
    assert_eq!(
        mark_section(text, 0).unwrap(),
        "l0\n# GENERATED BY ENV_TO_CONFIG_TOML START\n\n[env]\n\n# GENERATED BY ENV_TO_CONFIG_TOML END\n\nl2\nl3"
    );
    assert!(mark_section(text, 3).is_none());
}

#[test]
fn mark_section_agrees_with_line_insertion() {
    let text = "a\r\n[env]\nb\n\nc";
    let mut lines: Vec<&str> = text.lines().collect();
    let header = lines.iter().position(|l| *l == "[env]").unwrap();
    lines.insert(header, START);
    lines.insert(header + 1 + 2, END);
    assert_eq!(mark_section(text, 1).unwrap(), lines.join("\n"));
}

#[test]
fn mark_section_takes_the_first_header() {
    assert_eq!(
        mark_section("[env]\nA = 1\n[env]\nB = 2", 1).unwrap(),
        "# GENERATED BY ENV_TO_CONFIG_TOML START\n\n[env]\nA = 1\n\n# GENERATED BY ENV_TO_CONFIG_TOML END\n\n[env]\nB = 2"
    );
}
