use easify::{dynamic_tuple, take_parts, tuple_text, unpack_split};

#[test]
fn dynamic_tuple_repeats_its_value() {
    assert_eq!(dynamic_tuple(2, 1), vec![2]);
    assert_eq!(dynamic_tuple(5, 3), vec![5, 5, 5]);
    assert_eq!(dynamic_tuple("ab", 2), vec!["ab", "ab"]);
    assert_eq!(dynamic_tuple('x', 0), Vec::<char>::new());
}

#[test]
fn tuple_text_writes_the_copies_in_brackets() {
    assert_eq!(tuple_text("5", 3), "(5, 5, 5)");
    assert_eq!(tuple_text("x + 1", 2), "(x + 1, x + 1)");
    assert_eq!(tuple_text("5", 1), "(5)");
    assert_eq!(tuple_text("5", 0), "()");
    assert_eq!(tuple_text("", 3), "(, , )");
}

#[test]
fn unpack_split_cuts_at_the_separator() {
    assert_eq!(unpack_split("hello,my,name", ",", 3), Some(vec!["hello", "my", "name"]));
    assert_eq!(unpack_split("hello,world", ",", 2), Some(vec!["hello", "world"]));
    assert_eq!(unpack_split("a--b--c", "--", 3), Some(vec!["a", "b", "c"]));
    assert_eq!(unpack_split(",a,", ",", 3), Some(vec!["", "a", ""]));
}

#[test]
fn unpack_split_keeps_only_the_first_parts() {
    assert_eq!(unpack_split("a,b,c,d", ",", 2), Some(vec!["a", "b"]));
    assert_eq!(unpack_split("a,b,c,d", ",", 0), Some(vec![]));
    assert_eq!(unpack_split("no separator here", ",", 1), Some(vec!["no separator here"]));
}

#[test]
fn unpack_split_gives_nothing_when_parts_are_missing() {
    assert_eq!(unpack_split("hello,bye", ",", 3), None);
    assert_eq!(unpack_split("hello", ",", 2), None);
    assert_eq!(unpack_split("", ",", 2), None);
}

#[test]
fn take_parts_keeps_a_prefix() {
    assert_eq!(take_parts(vec!["a", "b", "c"], 2), Some(vec!["a", "b"]));
    assert_eq!(take_parts(vec!["a", "b", "c"], 3), Some(vec!["a", "b", "c"]));
    assert_eq!(take_parts(vec!["a", "b", "c"], 0), Some(vec![]));
    assert_eq!(take_parts(vec!["a", "b", "c"], 4), None);
    assert_eq!(take_parts(Vec::new(), 1), None);
}
