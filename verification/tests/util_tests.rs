use tui_rsx::util::{capitalize, drain_filter, snake_case_to_pascal_case};

#[test]
fn drain_filter_removes_matching_elements_in_place() {
    let mut v = vec![1, 2, 3, 4, 5, 6];
    drain_filter(&mut v, |x: &i32| x % 2 == 0);
    assert_eq!(v, vec![1, 3, 5]);
}

#[test]
fn drain_filter_keeps_everything_when_nothing_matches() {
    let mut v = vec![10, 20, 30];
    drain_filter(&mut v, |_x: &i32| false);
    assert_eq!(v, vec![10, 20, 30]);
}

#[test]
fn drain_filter_can_empty_the_vector() {
    let mut v = vec!["a".to_string(), "b".to_string()];
    drain_filter(&mut v, |_x: &String| true);
    assert!(v.is_empty());
}

#[test]
fn capitalize_uppercases_the_first_byte() {
    assert_eq!(capitalize(&b"hello".to_vec()), b"Hello".to_vec());
    assert_eq!(capitalize(&b"Hello".to_vec()), b"Hello".to_vec());
    assert_eq!(capitalize(&b"x".to_vec()), b"X".to_vec());
    assert_eq!(capitalize(&b"9lives".to_vec()), b"9lives".to_vec());
}

#[test]
fn snake_case_becomes_pascal_case() {
    assert_eq!(
        snake_case_to_pascal_case(&b"foo_bar_baz".to_vec()),
        b"FooBarBaz".to_vec()
    );
    assert_eq!(snake_case_to_pascal_case(&b"widget".to_vec()), b"Widget".to_vec());
    assert_eq!(
        snake_case_to_pascal_case(&b"stateful_list".to_vec()),
        b"StatefulList".to_vec()
    );
}
