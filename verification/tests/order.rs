use glomers::order::{clone_ids, lt, sort};

fn s(text: &str) -> String {
    text.to_string()
}

#[test]
fn lt_orders_byte_by_byte() {
    assert!(lt(&s("a"), &s("b")));
    assert!(!lt(&s("b"), &s("a")));
    assert!(lt(&s("n1"), &s("n2")));
    assert!(lt(&s("n10"), &s("n2")));
    assert!(lt(&s("B"), &s("a")));
}

#[test]
fn lt_is_strict() {
    assert!(!lt(&s("n1"), &s("n1")));
    assert!(!lt(&s(""), &s("")));
}

#[test]
fn a_proper_prefix_comes_first() {
    assert!(lt(&s(""), &s("a")));
    assert!(lt(&s("n1"), &s("n10")));
    assert!(!lt(&s("n10"), &s("n1")));
}

#[test]
fn lt_agrees_with_the_order_of_str() {
    let words = ["", "a", "ab", "b", "n1", "n10", "n2", "Z", "\u{e9}", "z", "\u{65e5}\u{672c}", "~"];
    for x in words {
        for y in words {
            assert_eq!(lt(&s(x), &s(y)), x < y, "{:?} < {:?}", x, y);
        }
    }
}

#[test]
fn sort_puts_identifiers_in_ascending_order() {
    let mut ids = vec![s("n3"), s("n1"), s("n2")];
    sort(&mut ids);
    assert_eq!(ids, vec![s("n1"), s("n2"), s("n3")]);
}

#[test]
fn sort_keeps_every_identifier() {
    let mut ids = vec![s("b"), s("a"), s("b"), s(""), s("c"), s("a")];
    sort(&mut ids);
    assert_eq!(ids, vec![s(""), s("a"), s("a"), s("b"), s("b"), s("c")]);
}

#[test]
fn sort_of_nothing_and_of_one() {
    let mut none: Vec<String> = Vec::new();
    sort(&mut none);
    assert!(none.is_empty());
    let mut one = vec![s("n1")];
    sort(&mut one);
    assert_eq!(one, vec![s("n1")]);
}

#[test]
fn sort_agrees_with_the_sort_of_vec() {
    let mut ids = vec![s("n10"), s("n2"), s("n1"), s("\u{e9}"), s("z"), s("N1"), s("n11")];
    let mut expected = ids.clone();
    expected.sort();
    sort(&mut ids);
    assert_eq!(ids, expected);
}

#[test]
fn clone_ids_copies_every_identifier_in_order() {
    let ids = vec![s("n2"), s("n1"), s("n2"), s("")];
    assert_eq!(clone_ids(&ids), ids);
    assert_eq!(clone_ids(&Vec::new()), Vec::<String>::new());
}
