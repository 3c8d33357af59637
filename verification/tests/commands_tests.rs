use modcat::commands::{join_with, mods_dir, parse_command, parse_u32, search_query, CommandKind};

fn tokens(line: &str) -> Vec<String> {
    line.split_whitespace().map(|t| t.to_string()).collect()
}

#[test]
fn search_takes_its_terms() {
    match parse_command(&tokens("search just enough items")) {
        CommandKind::Search { terms } => assert_eq!(terms, vec!["just", "enough", "items"]),
        other => panic!("wrong parse: {:?}", other),
    }
}

#[test]
fn search_alone_is_not_claimed() {
    match parse_command(&tokens("search")) {
        CommandKind::NoMatch(e) => assert_eq!(e.command, "search"),
        other => panic!("wrong parse: {:?}", other),
    }
}

#[test]
fn download_and_print_take_their_ids() {
    match parse_command(&tokens("download 10 20")) {
        CommandKind::Download { args } => assert_eq!(args, vec!["10", "20"]),
        other => panic!("wrong parse: {:?}", other),
    }
    match parse_command(&tokens("print 10")) {
        CommandKind::Print { args } => assert_eq!(args, vec!["10"]),
        other => panic!("wrong parse: {:?}", other),
    }
}

#[test]
fn registry_commands_parse() {
    assert!(matches!(parse_command(&tokens("update")), CommandKind::Update));
    assert!(matches!(parse_command(&tokens("clear")), CommandKind::Update));
    assert!(matches!(parse_command(&tokens("save")), CommandKind::Save));
    assert!(matches!(parse_command(&tokens("quit")), CommandKind::Quit));
    assert!(matches!(parse_command(&tokens("exit")), CommandKind::Quit));
}

#[test]
fn unknown_lines_carry_the_joined_line() {
    match parse_command(&tokens("install 10")) {
        CommandKind::NoMatch(e) => {
            assert_eq!(e.command, "install 10");
            assert_eq!(e.message(), "Invalid format: install 10");
        },
        other => panic!("wrong parse: {:?}", other),
    }
    assert!(matches!(parse_command(&Vec::new()), CommandKind::NoMatch(_)));
}

#[test]
fn join_with_puts_the_separator_between_parts() {
    assert_eq!(join_with(&tokens("a b c"), ", "), "a, b, c");
    assert_eq!(join_with(&tokens("a"), ", "), "a");
    assert_eq!(join_with(&Vec::new(), ", "), "");
}

#[test]
fn search_query_encodes_spaces() {
    assert_eq!(search_query(&tokens("iron chests")), "iron%20chests");
}

#[test]
fn mods_dir_nests_version_then_name() {
    assert_eq!(
        mods_dir(&"1.12.2".to_string(), &"IronChests".to_string()),
        "./mods/1.12.2/IronChests"
    );
}

#[test]
fn parse_u32_reads_plain_decimals() {
    assert_eq!(parse_u32("0"), Some(0));
    assert_eq!(parse_u32("243852"), Some(243852));
    assert_eq!(parse_u32("007"), Some(7));
    assert_eq!(parse_u32("4294967295"), Some(u32::MAX));
}

#[test]
fn parse_u32_accepts_a_leading_plus() {
    assert_eq!(parse_u32("+42"), Some(42));
    assert_eq!(parse_u32("+"), None);
}

#[test]
fn parse_u32_rejects_everything_else() {
    assert_eq!(parse_u32(""), None);
    assert_eq!(parse_u32("-1"), None);
    assert_eq!(parse_u32("12a"), None);
    assert_eq!(parse_u32("a12"), None);
    assert_eq!(parse_u32("1 2"), None);
    assert_eq!(parse_u32("4294967296"), None);
    assert_eq!(parse_u32("99999999999999999999"), None);
}

#[test]
fn parse_u32_matches_the_standard_reading() {
    for s in ["0", "10", "+10", "4294967295", "4294967296", "", "+", "x", "1_0"] {
        assert_eq!(parse_u32(s), s.parse::<u32>().ok(), "diverged on {:?}", s);
    }
}

#[test]
fn command_not_found_keeps_the_line() {
    let e = modcat::commands::CommandNotFound::new("frobnicate 7");
    assert_eq!(e.command, "frobnicate 7");
    assert_eq!(e.message(), "Invalid format: frobnicate 7");
}
