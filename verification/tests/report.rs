use quick_alias::report::{
    no_such_alias_message, report_line, to_decimal, ALIAS_FILE_NAME, HISTORY_FILE_NAME,
};

#[test]
fn numbers_in_decimal() {
    for n in [0u32, 1, 9, 10, 11, 99, 100, 101, 1234, 90210, 1_000_000, u32::MAX - 1, u32::MAX] {
        assert_eq!(to_decimal(n), n.to_string());
    }
    assert_eq!(to_decimal(0), "0");
    assert_eq!(to_decimal(4294967295), "4294967295");
}

#[test]
fn report_line_names_the_command_then_the_count() {
    assert_eq!(report_line("ls", 2), "ls :: 2");
    assert_eq!(report_line("cd /tmp", 10), "cd /tmp :: 10");
    assert_eq!(report_line("", 1), " :: 1");
}

#[test]
fn message_for_an_alias_that_is_not_there() {
    assert_eq!(
        no_such_alias_message("ll", "\"/home/me/.quick_aliases.sh\""),
        "No such alias ll in config file \"/home/me/.quick_aliases.sh\""
    );
}

#[test]
fn names_of_the_files() {
    assert_eq!(ALIAS_FILE_NAME, ".quick_aliases.sh");
    assert_eq!(HISTORY_FILE_NAME, ".bash_history");
}
