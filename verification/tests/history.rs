use std::path::PathBuf;

use quick_alias::history::DEFAULT_LIMIT;
use quick_alias::{AliasConfig, HistoryCount};

fn pairs(rows: &[(String, u32)]) -> Vec<(&str, u32)> {
    rows.iter().map(|row| (row.0.as_str(), row.1)).collect()
}

#[test]
fn counts_each_line_with_the_empty_last_one() {
    let config = AliasConfig::new(PathBuf::new());
    let counts = config.parse_history_string("ls\ncd /tmp\nls\n".to_string());
    assert_eq!(counts.len(), 3);
    assert_eq!(counts.get("ls"), 2);
    assert_eq!(counts.get("cd /tmp"), 1);
    assert_eq!(counts.get(""), 1);
    assert_eq!(counts.get("cd"), 0);
    assert_eq!(pairs(counts.all()), vec![("", 1), ("cd /tmp", 1), ("ls", 2)]);
    assert_eq!(pairs(&counts.rank(Some(1))), vec![("ls", 2)]);
}

#[test]
fn an_empty_history_is_one_empty_line() {
    let counts = HistoryCount::count("");
    assert_eq!(pairs(counts.all()), vec![("", 1)]);
    assert_eq!(pairs(&counts.rank(None)), vec![("", 1)]);
}

#[test]
fn lines_count_as_they_are() {
    let counts = HistoryCount::count("ls\n ls\nls \nLS\nls\r\nls");
    assert_eq!(counts.get("ls"), 2);
    assert_eq!(counts.get(" ls"), 1);
    assert_eq!(counts.get("ls "), 1);
    assert_eq!(counts.get("LS"), 1);
    assert_eq!(counts.get("ls\r"), 1);
    assert_eq!(counts.len(), 5);
}

#[test]
fn rank_puts_the_most_frequent_first() {
    let counts = HistoryCount::count("b\na\nc\na\nc\nc\nd\nb");
    assert_eq!(
        pairs(&counts.rank(Some(10))),
        vec![("c", 3), ("a", 2), ("b", 2), ("d", 1)]
    );
    assert_eq!(pairs(&counts.rank(Some(2))), vec![("c", 3), ("a", 2)]);
    assert_eq!(pairs(&counts.rank(Some(3))), vec![("c", 3), ("a", 2), ("b", 2)]);
    assert_eq!(pairs(&counts.rank(Some(0))), Vec::<(&str, u32)>::new());
    assert_eq!(pairs(&counts.rank(Some(usize::MAX))).len(), 4);
}

#[test]
fn rank_without_a_limit_gives_ten() {
    assert_eq!(DEFAULT_LIMIT, 10);
    let mut history = String::new();
    for i in 0..15 {
        for _ in 0..=i {
            history.push_str(&format!("cmd{:02}\n", i));
        }
    }
    let counts = HistoryCount::count(&history);
    assert_eq!(counts.len(), 16);
    let top = counts.rank(None);
    assert_eq!(top.len(), 10);
    for (place, row) in top.iter().enumerate() {
        assert_eq!(row.0, format!("cmd{:02}", 14 - place));
        assert_eq!(row.1 as usize, 15 - place);
    }
    assert_eq!(counts.rank(Some(16)).len(), 16);
    assert_eq!(counts.rank(Some(100)).len(), 16);
}

#[test]
fn rank_breaks_ties_by_the_text() {
    let counts = HistoryCount::count("zeta\nalpha\nmid\nAlpha\nalphabet");
    assert_eq!(
        pairs(&counts.rank(None)),
        vec![("Alpha", 1), ("alpha", 1), ("alphabet", 1), ("mid", 1), ("zeta", 1)]
    );
}

#[test]
fn rank_agrees_with_a_stable_sort_by_count() {
    let history = "git status\nls\ncd ..\nls\ngit status\nmake\nls\n\ncd ..\nvim a\nmake\nmake\nls";
    let counts = HistoryCount::count(history);
    let mut expected: Vec<(String, u32)> = counts.all().clone();
    expected.sort_by(|a, b| b.1.cmp(&a.1));
    assert_eq!(counts.rank(Some(expected.len())), expected);
    expected.truncate(3);
    assert_eq!(counts.rank(Some(3)), expected);
    assert_eq!(pairs(&expected), vec![("ls", 4), ("make", 3), ("cd ..", 2)]);
}

#[test]
fn try_count_counts_like_count() {
    let counts = HistoryCount::try_count("ls\ncd /tmp\nls\n").unwrap();
    assert_eq!(pairs(counts.all()), vec![("", 1), ("cd /tmp", 1), ("ls", 2)]);
    let lines = vec!["b".to_string(), "a".to_string(), "b".to_string()];
    assert_eq!(pairs(HistoryCount::of_lines(&lines).all()), vec![("a", 1), ("b", 2)]);
}
