use ownership_rules::words::{first_word, five, plus_one, six, SPACE};

#[test]
fn five_is_five() {
    assert_eq!(five(), 5);
}

#[test]
fn six_is_six() {
    assert_eq!(six(), 6);
}

#[test]
fn plus_one_adds_one() {
    assert_eq!(plus_one(six()), 7);
    assert_eq!(plus_one(-1), 0);
    assert_eq!(plus_one(i32::MIN), i32::MIN + 1);
    assert_eq!(plus_one(i32::MAX - 1), i32::MAX);
}

#[test]
fn first_word_ends_at_the_first_space() {
    assert_eq!(first_word("hello world".as_bytes()), 5);
    assert_eq!(first_word("a b c".as_bytes()), 1);
    assert_eq!(SPACE, b' ');
}

#[test]
fn first_word_of_one_word_is_all_of_it() {
    assert_eq!(first_word("hello".as_bytes()), 5);
}

#[test]
fn first_word_edge_cases() {
    assert_eq!(first_word("".as_bytes()), 0);
    assert_eq!(first_word(" hello".as_bytes()), 0);
    assert_eq!(first_word("hello ".as_bytes()), 5);
}
