use easify::{dynamic_tuple, let_unpack, unpack_split, BindingResult, Bound, SlotSpec};

fn slot(name: &str) -> SlotSpec {
    SlotSpec::new(name, false, false)
}

fn rest(name: &str) -> SlotSpec {
    SlotSpec::new(name, false, true)
}

fn value_of<'a>(bound: &'a BindingResult<i32>, name: &str) -> &'a Bound<i32> {
    let at = bound.position(name).expect("no binding of that name");
    bound.bindings[at].value()
}

#[test]
fn lib_it_works() {
    assert_eq!(dynamic_tuple(5, 3), vec![5, 5, 5]);
    let unpacking = vec![5, 5, 3];
    let bound = let_unpack(&[slot("a"), rest("b")], unpacking).unwrap();
    assert_eq!(value_of(&bound, "a"), &Bound::Element(5));
    assert_eq!(value_of(&bound, "b"), &Bound::Rest(vec![5, 3]));
    let hello_text = "hello,bye";
    assert_eq!(Some(vec!["hello", "bye"]), unpack_split(hello_text, ",", 2));
}

#[test]
fn let_unpack_tests_it_works() {
    let unpacking = vec![5, 3, 7];
    let bound = let_unpack(&[slot("a"), rest("b"), slot("c")], unpacking).unwrap();
    assert_eq!(value_of(&bound, "a"), &Bound::Element(5));
    assert_eq!(value_of(&bound, "b"), &Bound::Rest(vec![3]));
    assert_eq!(value_of(&bound, "c"), &Bound::Element(7));
}

#[test]
fn it_works_2() {
    let unpacking = vec![5, 6, 3, 7];
    let bound = let_unpack(&[rest("a"), slot("b"), slot("c")], unpacking).unwrap();
    assert_eq!(value_of(&bound, "a"), &Bound::Rest(vec![5, 6]));
    assert_eq!(value_of(&bound, "b"), &Bound::Element(3));
    assert_eq!(value_of(&bound, "c"), &Bound::Element(7));
}
