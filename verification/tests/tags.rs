use wit_scheduler::tags::{has_tag, merge_tags, split_tags};

fn strings(items: &[&str]) -> Vec<String> {
    items.iter().map(|s| s.to_string()).collect()
}

#[test]
fn tags_stand_between_spaces() {
    assert_eq!(split_tags("a b c"), strings(&["a", "b", "c"]));
    assert_eq!(split_tags("1girl long_hair"), strings(&["1girl", "long_hair"]));
    assert_eq!(split_tags("one"), strings(&["one"]));
}

#[test]
fn quotes_are_left_out_of_tags() {
    assert_eq!(split_tags("\"a b\""), strings(&["a", "b"]));
    assert_eq!(split_tags("a\"b \"\"c"), strings(&["ab", "c"]));
    assert_eq!(split_tags("\"\""), strings(&[""]));
}

#[test]
fn empty_tags_are_kept() {
    assert_eq!(split_tags(""), strings(&[""]));
    assert_eq!(split_tags(" "), strings(&["", ""]));
    assert_eq!(split_tags("a  b"), strings(&["a", "", "b"]));
    assert_eq!(split_tags(" a "), strings(&["", "a", ""]));
}

#[test]
fn tags_agree_with_replace_and_split() {
    for text in ["", "a", "a b", "\"x y  z\"", " \" ", "é ü\"ß", "tab\there"] {
        let expected: Vec<String> =
            text.replace('"', "").split(' ').map(|s| s.to_owned()).collect();
        assert_eq!(split_tags(text), expected, "{:?}", text);
    }
}

#[test]
fn has_tag_finds_exact_tags() {
    let tags = strings(&["a", "bc", ""]);
    assert!(has_tag(&tags, &"a".to_string()));
    assert!(has_tag(&tags, &"bc".to_string()));
    assert!(has_tag(&tags, &"".to_string()));
    assert!(!has_tag(&tags, &"b".to_string()));
    assert!(!has_tag(&Vec::new(), &"a".to_string()));
}

#[test]
fn covered_tags_cause_no_write() {
    assert_eq!(merge_tags(&strings(&["a", "b", "c"]), &strings(&["c", "a"])), None);
    assert_eq!(merge_tags(&strings(&["a"]), &strings(&["a", "a"])), None);
    assert_eq!(merge_tags(&strings(&["a"]), &strings(&[])), None);
    assert_eq!(merge_tags(&strings(&[]), &strings(&[])), None);
}

#[test]
fn new_tags_follow_the_local_ones() {
    assert_eq!(
        merge_tags(&strings(&["a", "b"]), &strings(&["c", "a", "d"])),
        Some(strings(&["a", "b", "c", "d"]))
    );
    assert_eq!(merge_tags(&strings(&[]), &strings(&["x"])), Some(strings(&["x"])));
    assert_eq!(
        merge_tags(&strings(&["b", "b"]), &strings(&["a", "a", "b", "c", "a"])),
        Some(strings(&["b", "b", "a", "c"]))
    );
    assert_eq!(merge_tags(&strings(&["a"]), &strings(&[""])), Some(strings(&["a", ""])));
}

#[test]
fn merging_twice_writes_once() {
    let local = strings(&["a"]);
    let remote = strings(&["b", "a", "c"]);
    let written = merge_tags(&local, &remote).unwrap();
    assert_eq!(merge_tags(&written, &remote), None);
}
