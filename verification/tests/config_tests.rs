use rlib::config::new_config_point;

fn s(x: &str) -> String {
    String::from(x)
}

fn read(cp: &rlib::config::ConfigPoint, name: &str) -> Option<String> {
    cp.get(&s(name)).map(|v| (*v).clone())
}

#[test]
fn value_under_two_character_name_is_read_back() {
    let mut cp = new_config_point();
    assert!(cp.put(&s("ab"), &s("x")));
    assert_eq!(read(&cp, "ab"), Some(s("x")));
}

#[test]
fn value_under_long_name_is_read_back() {
    let mut cp = new_config_point();
    assert!(cp.put(&s("server.port_1-Z"), &s("8080")));
    assert!(cp.put(&s("server.host"), &s("local")));
    assert_eq!(read(&cp, "server.port_1-Z"), Some(s("8080")));
    assert_eq!(read(&cp, "server.host"), Some(s("local")));
    assert_eq!(read(&cp, "server.hos"), None);
    assert_eq!(read(&cp, "server.hostx"), None);
}

#[test]
fn single_character_name_is_stored_but_read_by_its_byte() {
    let mut cp = new_config_point();
    assert!(cp.put(&s("a"), &s("1")));
    assert_eq!(read(&cp, "a"), None);
    // '1' has index 53, which is the byte of '5'.
    assert!(cp.put(&s("1"), &s("v")));
    assert_eq!(read(&cp, "5"), Some(s("v")));
    assert_eq!(read(&cp, "1"), None);
}

#[test]
fn non_ascii_names_are_refused() {
    let mut cp = new_config_point();
    assert!(!cp.put(&s("é"), &s("x")));
    assert!(!cp.put(&s("aé"), &s("x")));
    assert_eq!(read(&cp, "aé"), None);
    assert_eq!(cp.show_text(), s(""));
}

#[test]
fn invalid_character_fails_but_keeps_made_levels() {
    let mut cp = new_config_point();
    assert!(!cp.put(&s("a!"), &s("x")));
    assert_eq!(read(&cp, "a!"), None);
    // the level made for 'a' stays, so 'a' now holds a level
    assert!(!cp.put(&s("a"), &s("y")));
    assert_eq!(cp.show_text(), s("a"));
}

#[test]
fn invalid_first_character_changes_nothing() {
    let mut cp = new_config_point();
    assert!(!cp.put(&s("!a"), &s("x")));
    assert!(!cp.put(&s(""), &s("x")));
    assert_eq!(cp.show_text(), s(""));
}

#[test]
fn overwriting_the_first_entry_of_a_level_fails() {
    let mut cp = new_config_point();
    assert!(cp.put(&s("ab"), &s("1")));
    assert!(!cp.put(&s("ab"), &s("2")));
    assert_eq!(read(&cp, "ab"), Some(s("1")));
}

#[test]
fn overwriting_the_first_entry_writes_the_next_one() {
    let mut cp = new_config_point();
    assert!(cp.put(&s("ab"), &s("1")));
    assert!(cp.put(&s("ac"), &s("2")));
    assert!(cp.put(&s("ab"), &s("3")));
    assert_eq!(read(&cp, "ab"), Some(s("1")));
    assert_eq!(read(&cp, "ac"), Some(s("3")));
}

#[test]
fn overwriting_a_later_entry_replaces_it() {
    let mut cp = new_config_point();
    assert!(cp.put(&s("ab"), &s("1")));
    assert!(cp.put(&s("ac"), &s("2")));
    assert!(cp.put(&s("ac"), &s("9")));
    assert_eq!(read(&cp, "ac"), Some(s("9")));
    assert_eq!(read(&cp, "ab"), Some(s("1")));
}

#[test]
fn value_blocks_a_longer_name() {
    let mut cp = new_config_point();
    assert!(cp.put(&s("ab"), &s("1")));
    assert!(!cp.put(&s("abc"), &s("2")));
    assert_eq!(read(&cp, "abc"), None);
    assert_eq!(read(&cp, "ab"), Some(s("1")));
}

#[test]
fn level_blocks_a_value() {
    let mut cp = new_config_point();
    assert!(cp.put(&s("zab"), &s("1")));
    assert!(cp.put(&s("xy"), &s("0")));
    assert!(!cp.put(&s("za"), &s("2")));
    assert_eq!(read(&cp, "za"), None);
}

#[test]
fn put_keeps_names_with_another_first_character() {
    let mut cp = new_config_point();
    assert!(cp.put(&s("ab"), &s("1")));
    assert!(cp.put(&s("cd"), &s("2")));
    assert!(cp.put(&s("Ab"), &s("3")));
    assert!(cp.put(&s("bd"), &s("4")));
    assert_eq!(read(&cp, "ab"), Some(s("1")));
    assert_eq!(read(&cp, "cd"), Some(s("2")));
    assert_eq!(read(&cp, "Ab"), Some(s("3")));
    assert_eq!(read(&cp, "bd"), Some(s("4")));
}

#[test]
fn keys_are_kept_in_order_whatever_the_put_order() {
    let mut cp = new_config_point();
    assert!(cp.put(&s("ac"), &s("3")));
    assert!(cp.put(&s("aa"), &s("1")));
    assert!(cp.put(&s("ad"), &s("4")));
    assert!(cp.put(&s("ab"), &s("2")));
    // the text lists each level from its last key to its first
    assert_eq!(cp.show_text(), s("ad=4\nc=3\nb=2\na=1\n"));
}

#[test]
fn show_text_of_two_values() {
    let mut cp = new_config_point();
    assert!(cp.put(&s("ab"), &s("1")));
    assert!(cp.put(&s("ac"), &s("2")));
    assert_eq!(cp.show_text(), s("ac=2\nb=1\n"));
}

#[test]
fn show_text_of_special_characters() {
    let mut cp = new_config_point();
    assert!(cp.put(&s("._"), &s("v")));
    assert!(cp.put(&s("-a"), &s("w")));
    assert_eq!(cp.show_text(), s("-a=w\n._=v\n"));
}

#[test]
fn show_text_of_upper_case_and_digits() {
    let mut cp = new_config_point();
    // index 26 ('A') shows as the character with code 91
    assert!(cp.put(&s("Ab"), &s("1")));
    assert_eq!(cp.show_text(), s("[b=1\n"));
    let mut cq = new_config_point();
    assert!(cq.put(&s("0b"), &s("1")));
    assert_eq!(cq.show_text(), s("ConfigNode index err.b=1\n"));
}

#[test]
fn empty_tree_shows_nothing() {
    let cp = new_config_point();
    assert_eq!(cp.show_text(), s(""));
    assert_eq!(read(&cp, "ab"), None);
}

#[test]
fn get_point_finds_nothing() {
    let mut cp = new_config_point();
    assert!(cp.put(&s("ab"), &s("1")));
    assert!(cp.get_point(&s("a")).is_none());
}

#[test]
fn read_values_share_the_stored_string() {
    let mut cp = new_config_point();
    assert!(cp.put(&s("ab"), &s("1")));
    let x = cp.get(&s("ab")).unwrap();
    let y = cp.get(&s("ab")).unwrap();
    assert!(std::rc::Rc::ptr_eq(&x, &y));
    assert_eq!(*x, s("1"));
}

#[test]
fn put_leaves_names_sharing_a_prefix() {
    let mut cp = new_config_point();
    assert!(cp.put(&s("abc"), &s("1")));
    assert!(cp.put(&s("abd"), &s("2")));
    assert!(cp.put(&s("ab.x"), &s("3")));
    assert!(cp.put(&s("abe"), &s("4")));
    assert_eq!(read(&cp, "abc"), Some(s("1")));
    assert_eq!(read(&cp, "abd"), Some(s("2")));
    assert_eq!(read(&cp, "ab.x"), Some(s("3")));
    assert_eq!(read(&cp, "abe"), Some(s("4")));
}

#[test]
fn every_character_class_has_its_own_key() {
    let mut cp = new_config_point();
    let names = ["xa", "xz", "xA", "xZ", "x0", "x9", "x.", "x_", "x-"];
    for (i, n) in names.iter().enumerate() {
        assert!(cp.put(&s(n), &i.to_string()));
    }
    for (i, n) in names.iter().enumerate() {
        assert_eq!(read(&cp, n), Some(i.to_string()));
    }
}

#[test]
fn level_keys_grow_by_the_put_key() {
    let mut cp = new_config_point();
    assert!(cp.put(&s("ab"), &s("1")));
    assert!(cp.put(&s("ad"), &s("2")));
    assert!(cp.put(&s("ac"), &s("3")));
    assert_eq!(cp.show_text(), s("ad=2\nc=3\nb=1\n"));
    // a failed put adds no key: 'b' holds a value, not a level
    assert!(!cp.put(&s("abz"), &s("4")));
    assert_eq!(cp.show_text(), s("ad=2\nc=3\nb=1\n"));
}
