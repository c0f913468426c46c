use cybele_vault::session::contains_text;
use cybele_vault::session::matching;
use cybele_vault::session::parse_command;
use cybele_vault::session::parse_id;
use cybele_vault::session::same_text;
use cybele_vault::session::select;
use cybele_vault::session::vault_path;
use cybele_vault::session::Command;

fn strings(items: &[&str]) -> Vec<String> {
    items.iter().map(|s| s.to_string()).collect()
}

#[test]
fn every_command_word_is_known() {
    assert_eq!(parse_command("help"), Command::Help);
    assert_eq!(parse_command("add"), Command::Add);
    assert_eq!(parse_command("remove"), Command::Remove);
    assert_eq!(parse_command("get"), Command::Get);
    assert_eq!(parse_command("list"), Command::List);
    assert_eq!(parse_command("save"), Command::Save);
    assert_eq!(parse_command("exit"), Command::Exit);
}

#[test]
fn other_words_are_unknown() {
    assert_eq!(parse_command(""), Command::Unknown);
    assert_eq!(parse_command("Help"), Command::Unknown);
    assert_eq!(parse_command("help "), Command::Unknown);
    assert_eq!(parse_command(" add"), Command::Unknown);
    assert_eq!(parse_command("quit"), Command::Unknown);
    assert_eq!(parse_command("ad"), Command::Unknown);
    assert_eq!(parse_command("adds"), Command::Unknown);
}

#[test]
fn same_text_is_exact() {
    assert!(same_text("", ""));
    assert!(same_text("hunter2", "hunter2"));
    assert!(same_text("пароль", "пароль"));
    assert!(!same_text("hunter2", "Hunter2"));
    assert!(!same_text("hunter2", "hunter2 "));
    assert!(!same_text("y", "yes"));
    assert!(!same_text("", "x"));
}

#[test]
fn vault_path_is_the_first_argument() {
    assert_eq!(vault_path(&strings(&["cybele", "vault.bin"])), Some("vault.bin"));
    assert_eq!(vault_path(&strings(&["cybele", "a", "b"])), Some("a"));
    assert_eq!(vault_path(&strings(&["cybele", ""])), Some(""));
}

#[test]
fn vault_path_needs_an_argument() {
    assert_eq!(vault_path(&strings(&["cybele"])), None);
    assert_eq!(vault_path(&[]), None);
}

#[test]
fn select_picks_by_position() {
    let items = strings(&["bank", "email"]);
    assert_eq!(select(&items, 0), Some("bank"));
    assert_eq!(select(&items, 1), Some("email"));
    assert_eq!(select(&items, 2), None);
    assert_eq!(select(&items, usize::MAX), None);
    assert_eq!(select(&[], 0), None);
}

#[test]
fn parse_id_reads_decimal_numbers() {
    assert_eq!(parse_id("0"), Some(0));
    assert_eq!(parse_id("7"), Some(7));
    assert_eq!(parse_id("42"), Some(42));
    assert_eq!(parse_id("007"), Some(7));
    assert_eq!(parse_id("+15"), Some(15));
    assert_eq!(parse_id("1234567890"), Some(1234567890));
}

#[test]
fn parse_id_rejects_what_is_no_number() {
    assert_eq!(parse_id(""), None);
    assert_eq!(parse_id("+"), None);
    assert_eq!(parse_id("-1"), None);
    assert_eq!(parse_id("++1"), None);
    assert_eq!(parse_id("1+"), None);
    assert_eq!(parse_id(" 1"), None);
    assert_eq!(parse_id("1 "), None);
    assert_eq!(parse_id("12a"), None);
    assert_eq!(parse_id("one"), None);
    assert_eq!(parse_id("１"), None);
    assert_eq!(parse_id("1.0"), None);
}

#[test]
fn parse_id_stops_at_the_largest_number() {
    let largest = usize::MAX.to_string();
    assert_eq!(parse_id(&largest), Some(usize::MAX));
    let mut beyond = largest.clone();
    beyond.push('0');
    assert_eq!(parse_id(&beyond), None);
    assert_eq!(parse_id("99999999999999999999999999999999"), None);
    assert_eq!(parse_id("99999999999999999999999999999999x"), None);
}

#[test]
fn parse_id_agrees_with_the_standard_parser() {
    for text in ["0", "10", "+3", "", "+", "-0", "18446744073709551615", "18446744073709551616", "0x10", "٣"] {
        assert_eq!(parse_id(text), text.parse::<usize>().ok());
    }
}

#[test]
fn contains_text_finds_a_run() {
    assert!(contains_text("email", "mai"));
    assert!(contains_text("email", "email"));
    assert!(contains_text("email", "e"));
    assert!(contains_text("email", "l"));
    assert!(contains_text("aab", "ab"));
    assert!(contains_text("пароль", "рол"));
}

#[test]
fn contains_text_takes_the_empty_filter() {
    assert!(contains_text("email", ""));
    assert!(contains_text("", ""));
}

#[test]
fn contains_text_misses_what_is_not_there() {
    assert!(!contains_text("email", "bank"));
    assert!(!contains_text("email", "emails"));
    assert!(!contains_text("email", "E"));
    assert!(!contains_text("", "x"));
    assert!(!contains_text("abab", "abb"));
}

#[test]
fn matching_gives_positions_in_order() {
    let items = strings(&["bank", "email", "embassy", "mail", "zoo"]);
    assert_eq!(matching(&items, "em"), vec![1, 2]);
    assert_eq!(matching(&items, "a"), vec![0, 1, 2, 3]);
    assert_eq!(matching(&items, "mail"), vec![1, 3]);
    assert_eq!(matching(&items, "zoo"), vec![4]);
    assert_eq!(matching(&items, "x"), Vec::<usize>::new());
}

#[test]
fn matching_with_the_empty_filter_keeps_all() {
    let items = strings(&["bank", "email", ""]);
    assert_eq!(matching(&items, ""), vec![0, 1, 2]);
    assert_eq!(matching(&[], ""), Vec::<usize>::new());
}
