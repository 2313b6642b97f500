use std::path::PathBuf;

use quick_alias::table::Table;
use quick_alias::AliasConfig;

#[test]
fn a_new_config_holds_nothing_and_keeps_its_place() {
    let config = AliasConfig::new(PathBuf::from("/home/me/.quick_aliases.sh"));
    assert_eq!(config.len(), 0);
    assert!(config.all().is_empty());
    assert_eq!(config.get("cp"), None);
    assert_eq!(config.config_location(), &PathBuf::from("/home/me/.quick_aliases.sh"));
}

#[test]
fn add_alias_inserts_and_overwrites() {
    let mut config = AliasConfig::new(PathBuf::new());
    config.add_alias("cp".to_string(), "cp -i".to_string());
    assert_eq!(config.get("cp"), Some(&"cp -i".to_string()));
    assert_eq!(config.len(), 1);
    config.add_alias("cp".to_string(), "cp -r".to_string());
    assert_eq!(config.get("cp"), Some(&"cp -r".to_string()));
    assert_eq!(config.len(), 1);
    config.add_alias("mv".to_string(), "".to_string());
    assert_eq!(config.get("mv"), Some(&"".to_string()));
    assert_eq!(config.len(), 2);
}

#[test]
fn remove_absent_returns_none_and_changes_nothing() {
    let mut config = AliasConfig::new(PathBuf::new());
    assert_eq!(config.remove_alias("nonexistent".to_string()), None);
    assert_eq!(config.len(), 0);
    config.add_alias("cp".to_string(), "cp -i".to_string());
    config.add_alias("rebash".to_string(), "source ~/.bashrc".to_string());
    let before = config.all().clone();
    assert_eq!(config.remove_alias("nonexistent".to_string()), None);
    assert_eq!(config.all(), &before);
}

#[test]
fn remove_present_returns_the_command() {
    let mut config = AliasConfig::new(PathBuf::new());
    config.add_alias("cp".to_string(), "cp -i".to_string());
    config.add_alias("rebash".to_string(), "source ~/.bashrc".to_string());
    assert_eq!(config.remove_alias("cp".to_string()).unwrap(), "cp -i".to_string());
    assert_eq!(
        config.remove_alias("rebash".to_string()).unwrap(),
        "source ~/.bashrc".to_string()
    );
    assert_eq!(config.remove_alias("cp".to_string()), None);
    assert_eq!(config.len(), 0);
}

#[test]
fn all_lists_in_the_order_of_names() {
    let mut config = AliasConfig::new(PathBuf::new());
    for name in ["pear", "apple", "fig", "Zed", "app", "", "apple pie", "\u{1F600}", "é"] {
        config.add_alias(name.to_string(), format!("<{}>", name));
    }
    let names: Vec<&str> = config.all().iter().map(|row| row.0.as_str()).collect();
    assert_eq!(
        names,
        vec!["", "Zed", "app", "apple", "apple pie", "fig", "pear", "é", "\u{1F600}"]
    );
    let mut sorted = names.clone();
    sorted.sort();
    assert_eq!(names, sorted);
    for row in config.all() {
        assert_eq!(row.1, format!("<{}>", row.0));
    }
}

#[test]
fn table_maps_names_to_values() {
    let mut table: Table<u32> = Table::new();
    assert_eq!(table.len(), 0);
    assert_eq!(table.insert("b".to_string(), 2), None);
    assert_eq!(table.insert("a".to_string(), 1), None);
    assert_eq!(table.insert("c".to_string(), 3), None);
    assert_eq!(table.insert("b".to_string(), 20), Some(2));
    assert_eq!(table.len(), 3);
    assert_eq!(table.get("a"), Some(&1));
    assert_eq!(table.get("b"), Some(&20));
    assert_eq!(table.get("d"), None);
    assert_eq!(
        table.rows(),
        &vec![("a".to_string(), 1), ("b".to_string(), 20), ("c".to_string(), 3)]
    );
    assert_eq!(table.remove("a"), Some(1));
    assert_eq!(table.remove("a"), None);
    assert_eq!(table.rows(), &vec![("b".to_string(), 20), ("c".to_string(), 3)]);
}

#[test]
fn table_keeps_many_names_in_order() {
    let mut table: Table<usize> = Table::new();
    let mut names: Vec<String> = Vec::new();
    for i in 0..200usize {
        names.push(format!("n{}", (i * 7919) % 1000));
    }
    for (i, name) in names.iter().enumerate() {
        table.insert(name.clone(), i);
    }
    let mut sorted = names.clone();
    sorted.sort();
    sorted.dedup();
    let got: Vec<String> = table.rows().iter().map(|row| row.0.clone()).collect();
    assert_eq!(got, sorted);
    for (i, name) in names.iter().enumerate() {
        let last = names.iter().rposition(|n| n == name).unwrap();
        assert_eq!(table.get(name), Some(&last));
        assert!(last >= i);
    }
}
