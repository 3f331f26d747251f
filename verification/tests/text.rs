use rumake::name_map::NameMap;
use rumake::text::{chars_of, contains_text_exec, join_exec, replace_all_exec};

#[test]
fn replace_all_left_to_right_without_overlap() {
    assert_eq!(replace_all_exec("aaa", "aa", "b"), "ba");
    assert_eq!(replace_all_exec("abcabc", "bc", "X"), "aXaX");
    assert_eq!(replace_all_exec("", "x", "y"), "");
    assert_eq!(replace_all_exec("héllo wörld", "ö", "o"), "héllo world");
}

#[test]
fn contains_text_finds_substrings() {
    assert!(contains_text_exec("hello", "ll"));
    assert!(contains_text_exec("hello", ""));
    assert!(!contains_text_exec("hello", "lo!"));
    assert!(!contains_text_exec("", "a"));
}

#[test]
fn join_with_separator() {
    let parts: Vec<String> = vec!["a".to_string(), "b".to_string(), "c".to_string()];
    assert_eq!(join_exec(&parts, " "), "a b c");
    assert_eq!(join_exec(&[], " "), "");
    assert_eq!(join_exec(&parts[..1], ", "), "a");
}

#[test]
fn chars_of_gives_characters() {
    assert_eq!(chars_of("añb"), vec!['a', 'ñ', 'b']);
}

#[test]
fn name_map_keeps_first_insertion_order() {
    let mut map: NameMap<u32> = NameMap::new();
    map.insert("b".to_string(), 1);
    map.insert("a".to_string(), 2);
    map.insert("b".to_string(), 3);
    assert_eq!(map.len(), 2);
    assert_eq!(map.name_at(0), "b");
    assert_eq!(*map.value_at(0), 3);
    assert_eq!(map.get(&"a".to_string()), Some(&2));
    assert!(!map.contains_key(&"c".to_string()));
}
