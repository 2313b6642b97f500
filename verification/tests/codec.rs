use std::collections::HashMap;
use std::path::PathBuf;
use std::str;

use quick_alias::{AliasConfig, AliasError};

fn held(config: &AliasConfig) -> HashMap<String, String> {
    config.all().iter().cloned().collect()
}

fn expected(pairs: &[(&str, &str)]) -> HashMap<String, String> {
    pairs.iter().map(|(a, b)| (a.to_string(), b.to_string())).collect()
}

fn read(text: &str) -> AliasConfig {
    let mut config = AliasConfig::new(PathBuf::new());
    config.load_from_reader(text.as_bytes()).unwrap();
    config
}

fn written(config: &AliasConfig) -> String {
    let mut bytes: Vec<u8> = Vec::new();
    config.dump_aliases_to_writer(&mut bytes);
    String::from_utf8(bytes).unwrap()
}

#[test]
fn test_reader() {
    // create a string to read from
    let example_input = "some random bash command
        some other command
        alias cp=\"cp -i\" 
        source ~/.super_awesome_settings
        alias rebash=\"source ~/.bashrc\"
        andonemorerandomline";
    let mut aliases = AliasConfig::new(PathBuf::new());
    aliases
        .load_from_reader(example_input.as_bytes())
        .expect("failed to read from string in test");
    let expected_aliases: HashMap<String, String> =
        vec![("cp", "cp -i"), ("rebash", "source ~/.bashrc")]
            .into_iter()
            .map(|(a, b)| (a.to_string(), b.to_string()))
            .collect();
    assert_eq!(expected_aliases, held(&aliases));
}

#[test]
fn test_writer() {
    let mut aliases = AliasConfig::new(PathBuf::new());
    aliases.add_alias("cp".to_string(), "cp -i".to_string());
    aliases.add_alias("rebash".to_string(), "source ~/.bashrc".to_string());
    let mut output_bytes: Vec<u8> = Vec::new();
    aliases.dump_aliases_to_writer(&mut output_bytes);
    let output_string = str::from_utf8(&output_bytes).unwrap();
    assert_eq!(
        output_string,
        "alias cp=\"cp -i\"\nalias rebash=\"source ~/.bashrc\"\n"
    );
}

#[test]
fn reads_the_lines_of_a_file_without_indentation() {
    let text = "some random bash command\nsome other command\nalias cp=\"cp -i\"\nsource ~/.super_awesome_settings\nalias rebash=\"source ~/.bashrc\"\nandonemorerandomline\n";
    let config = read(text);
    assert_eq!(held(&config), expected(&[("cp", "cp -i"), ("rebash", "source ~/.bashrc")]));
}

#[test]
fn empty_input_gives_no_aliases() {
    let config = read("");
    assert_eq!(config.len(), 0);
    assert!(config.all().is_empty());
}

#[test]
fn no_aliases_are_written_as_nothing() {
    let config = AliasConfig::new(PathBuf::new());
    assert_eq!(written(&config), "");
    assert_eq!(config.to_text(), "");
}

#[test]
fn writer_appends_to_what_it_is_given() {
    let mut config = AliasConfig::new(PathBuf::new());
    config.add_alias("a".to_string(), "b".to_string());
    let mut bytes: Vec<u8> = b"# kept\n".to_vec();
    config.dump_aliases_to_writer(&mut bytes);
    assert_eq!(bytes, b"# kept\nalias a=\"b\"\n".to_vec());
}

#[test]
fn later_definition_of_a_name_wins() {
    let config = read("alias ll=\"ls -l\"\nalias ll=\"ls -la\"\n");
    assert_eq!(held(&config), expected(&[("ll", "ls -la")]));
}

#[test]
fn later_definition_wins_across_other_lines() {
    let config = read("alias ll=\"one\"\nalias gs=\"git status\"\necho hi\nalias ll=\"two\"\nalias x=\"y\"");
    assert_eq!(
        held(&config),
        expected(&[("ll", "two"), ("gs", "git status"), ("x", "y")])
    );
}

#[test]
fn lines_that_define_nothing_change_nothing() {
    let with = read("# comment\n\nalias a=\"1\"\nexport PATH=$PATH:/x\n   \nalias b=\"2\"\nnot alias c=\"3\"\naliases d=\"4\"\n");
    let without = read("alias a=\"1\"\nalias b=\"2\"\n");
    assert_eq!(held(&with), expected(&[("a", "1"), ("b", "2")]));
    assert_eq!(held(&with), held(&without));
}

#[test]
fn loading_adds_to_what_is_held() {
    let mut config = AliasConfig::new(PathBuf::new());
    config.add_alias("old".to_string(), "kept".to_string());
    config.add_alias("ll".to_string(), "replaced".to_string());
    config.load_from_reader(b"alias ll=\"ls -l\"\n").unwrap();
    assert_eq!(held(&config), expected(&[("old", "kept"), ("ll", "ls -l")]));
}

#[test]
fn written_aliases_are_read_back() {
    let mut config = AliasConfig::new(PathBuf::new());
    config.add_alias("cp".to_string(), "cp -i".to_string());
    config.add_alias("rebash".to_string(), "source ~/.bashrc".to_string());
    config.add_alias("ll".to_string(), "ls --color=auto -l".to_string());
    config.add_alias("say".to_string(), "echo \"hi\"".to_string());
    config.add_alias("two words".to_string(), " padded ".to_string());
    config.add_alias("".to_string(), "".to_string());
    let again = read(&written(&config));
    assert_eq!(held(&again), held(&config));
}

#[test]
fn a_command_with_two_spaces_is_not_read_back() {
    let mut config = AliasConfig::new(PathBuf::new());
    config.add_alias("ll".to_string(), "ls  -l".to_string());
    let again = read(&written(&config));
    assert_eq!(held(&again), expected(&[("ll", "ls -l")]));
}

#[test]
fn a_name_with_an_equals_sign_is_not_read_back() {
    let mut config = AliasConfig::new(PathBuf::new());
    config.add_alias("a=b".to_string(), "c".to_string());
    assert_eq!(written(&config), "alias a=b=\"c\"\n");
    let again = read(&written(&config));
    assert_eq!(held(&again), expected(&[("a", "=\"c")]));
}

#[test]
fn reading_writing_and_reading_gives_the_same() {
    let text = "alias   a =  \"x   y\"  \nalias b=unquoted\n\talias c=\"tab\tin\"\nalias d=\"q\"=\"r\"\nalias e= \"s\"\nnoise\n";
    let first = read(text);
    assert_eq!(
        held(&first),
        expected(&[("a ", "\"x y"), ("b", "nquote"), ("c", "tab in"), ("d", "q\"=\"r"), ("e", "\"s")])
    );
    let second = read(&written(&first));
    assert_eq!(held(&second), held(&first));
    assert_eq!(written(&second), written(&first));
}

#[test]
fn aliases_are_written_in_the_order_of_their_names() {
    let mut config = AliasConfig::new(PathBuf::new());
    config.add_alias("b".to_string(), "2".to_string());
    config.add_alias("a".to_string(), "1".to_string());
    config.add_alias("B".to_string(), "3".to_string());
    config.add_alias("ab".to_string(), "4".to_string());
    config.add_alias("é".to_string(), "5".to_string());
    assert_eq!(
        written(&config),
        "alias B=\"3\"\nalias a=\"1\"\nalias ab=\"4\"\nalias b=\"2\"\nalias é=\"5\"\n"
    );
}

#[test]
fn an_equals_sign_in_the_command_stays() {
    let config = read("alias ll=\"ls --color=auto\"\n");
    assert_eq!(held(&config), expected(&[("ll", "ls --color=auto")]));
}

#[test]
fn white_space_between_words_becomes_one_space() {
    let config = read("  alias \t my   name=\"a \u{a0}  b\u{3000}c\"  \n");
    assert_eq!(held(&config), expected(&[("my name", "a b c")]));
}

#[test]
fn the_first_and_last_character_are_taken_off_whatever_they_are() {
    let config = read("alias x=abc\nalias y='q'\nalias z=éaé\nalias w=\"\"\n");
    assert_eq!(held(&config), expected(&[("x", "b"), ("y", "q"), ("z", "a"), ("w", "")]));
}

#[test]
fn carriage_returns_are_white_space() {
    let config = read("alias a=\"1\"\r\nignored\r\nalias b=\"2\"\r\n");
    assert_eq!(held(&config), expected(&[("a", "1"), ("b", "2")]));
}

#[test]
fn a_line_with_only_the_keyword_is_malformed() {
    let mut config = AliasConfig::new(PathBuf::new());
    assert_eq!(config.load_from_reader(b"alias"), Err(AliasError::MalformedLine));
    assert_eq!(config.load_from_reader(b"alias   \n"), Err(AliasError::MalformedLine));
    assert_eq!(config.len(), 0);
}

#[test]
fn a_line_without_a_quoted_command_is_malformed() {
    for text in ["alias foo", "alias x=", "alias x=\"", "alias x=é", "alias a b c"] {
        let mut config = AliasConfig::new(PathBuf::new());
        assert_eq!(
            config.load_from_reader(text.as_bytes()),
            Err(AliasError::MalformedLine),
            "{}",
            text
        );
        assert_eq!(config.len(), 0);
    }
}

#[test]
fn reading_stops_at_the_first_malformed_line() {
    let mut config = AliasConfig::new(PathBuf::new());
    let r = config.load_from_reader(b"alias a=\"1\"\nalias broken\nalias b=\"2\"\n");
    assert_eq!(r, Err(AliasError::MalformedLine));
    assert_eq!(held(&config), expected(&[("a", "1")]));
}

#[test]
fn bytes_that_are_not_utf8_are_refused() {
    let mut config = AliasConfig::new(PathBuf::new());
    config.add_alias("a".to_string(), "1".to_string());
    let r = config.load_from_reader(&[b'a', b'l', 0xff, b'\n']);
    assert_eq!(r, Err(AliasError::InvalidEncoding));
    assert_eq!(config.load_from_reader(&[0xc3]), Err(AliasError::InvalidEncoding));
    assert_eq!(config.load_from_reader(&[0xed, 0xa0, 0x80]), Err(AliasError::InvalidEncoding));
    assert_eq!(held(&config), expected(&[("a", "1")]));
}

#[test]
fn text_is_read_like_its_bytes() {
    let text = "alias a=\"1\"\nalias ü=\"ö\"\n";
    let mut from_text = AliasConfig::new(PathBuf::new());
    assert_eq!(from_text.load_text(text), Ok(()));
    assert_eq!(held(&from_text), held(&read(text)));
    assert_eq!(held(&from_text), expected(&[("a", "1"), ("ü", "ö")]));
    assert_eq!(from_text.load_text("alias"), Err(AliasError::MalformedLine));
}

#[test]
fn handle_line_takes_a_definition() {
    let mut config = AliasConfig::new(PathBuf::new());
    assert_eq!(config.handle_line("alias cp=\"cp -i\"".to_string()), Ok(()));
    assert_eq!(config.get("cp"), Some(&"cp -i".to_string()));
    assert_eq!(config.handle_line("cp a b".to_string()), Ok(()));
    assert_eq!(config.handle_line("".to_string()), Ok(()));
    assert_eq!(config.len(), 1);
    assert_eq!(config.handle_line("alias cp".to_string()), Err(AliasError::MalformedLine));
    assert_eq!(held(&config), expected(&[("cp", "cp -i")]));
}
