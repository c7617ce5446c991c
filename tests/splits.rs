use rust_strings::splits::{
    split_into_n_parts, split_into_n_parts_returns_owned, split_keeping_delimiter,
    split_keeping_delimiter_returns_owned, split_on_delimiters, split_on_delimiters_returns_owned,
};

#[test]
fn split_on_delimiters_example() {
    let delimiters = [',', '!', 'a', ' '];
    assert_eq!(
        split_on_delimiters("big,!a brown,cow!", &delimiters),
        vec!["big", "brown", "cow"]
    );
}

#[test]
fn split_on_delimiters_markup() {
    let delimiters = ['<', '>', '/'];
    assert_eq!(
        split_on_delimiters("<html><body><h1>Heading</h1></body></html>", &delimiters),
        vec!["html", "body", "h1", "Heading", "h1", "body", "html"]
    );
}

#[test]
fn split_on_delimiters_owned_example() {
    let delimiters = [',', '!', 'a', ' '];
    let expected: Vec<String> = vec!["big".to_string(), "brown".to_string(), "cow".to_string()];
    assert_eq!(split_on_delimiters_returns_owned("big,!a brown,cow!", &delimiters), expected);
}

#[test]
fn split_on_delimiters_empty_inputs() {
    assert_eq!(split_on_delimiters("", &[',']), Vec::<&str>::new());
    assert_eq!(split_on_delimiters("abc", &[]), vec!["abc"]);
    assert_eq!(split_on_delimiters("", &[]), Vec::<&str>::new());
    assert_eq!(split_on_delimiters(",,,", &[',']), Vec::<&str>::new());
}

#[test]
fn split_on_delimiters_repeated_delimiter_in_set() {
    assert_eq!(split_on_delimiters("a,b,,c", &[',', ',']), vec!["a", "b", "c"]);
    assert_eq!(split_on_delimiters_returns_owned("a,b", &[',', ',']), vec!["a".to_string(), "b".to_string()]);
}

#[test]
fn split_on_delimiters_multibyte() {
    assert_eq!(split_on_delimiters("日本·語·", &['·']), vec!["日本", "語"]);
    assert_eq!(split_on_delimiters("x😊y😊", &['😊']), vec!["x", "y"]);
}

#[test]
fn split_on_delimiters_reassembles_without_delimiters() {
    let delimiters = [',', '!', 'a', ' '];
    let text = "big,!a brown,cow!";
    let joined = split_on_delimiters(text, &delimiters).join(",");
    let strip = |s: &str| s.chars().filter(|c| !delimiters.contains(c)).collect::<String>();
    assert_eq!(strip(&joined), strip(text));
}

#[test]
fn split_keeping_delimiter_drops_tail() {
    assert_eq!(split_keeping_delimiter("hello,world,here", ','), vec!["hello,", "world,"]);
}

#[test]
fn split_keeping_delimiter_trailing_delimiter() {
    assert_eq!(
        split_keeping_delimiter("hello,world,here,", ','),
        vec!["hello,", "world,", "here,"]
    );
}

#[test]
fn split_keeping_delimiter_absent() {
    assert_eq!(split_keeping_delimiter("no_delimiters_here", ','), Vec::<&str>::new());
    assert_eq!(split_keeping_delimiter("", ','), Vec::<&str>::new());
}

#[test]
fn split_keeping_delimiter_consecutive_and_multibyte() {
    assert_eq!(split_keeping_delimiter(",,a", ','), vec![",", ","]);
    assert_eq!(split_keeping_delimiter("é😊ü😊z", '😊'), vec!["é😊", "ü😊"]);
}

#[test]
fn split_keeping_delimiter_owned_example() {
    assert_eq!(
        split_keeping_delimiter_returns_owned("hello,world,here", ','),
        vec!["hello,".to_string(), "world,".to_string()]
    );
}

#[test]
fn split_into_n_parts_exact() {
    assert_eq!(split_into_n_parts("This is a string.", ' ', 4), vec!["This", "is", "a", "string."]);
}

#[test]
fn split_into_n_parts_padded() {
    assert_eq!(
        split_into_n_parts("This is a string.", ' ', 5),
        vec!["This", "is", "a", "string.", ""]
    );
}

#[test]
fn split_into_n_parts_merged() {
    assert_eq!(split_into_n_parts("This is a string.", ' ', 3), vec!["This", "is", "a string."]);
    assert_eq!(split_into_n_parts("This is a string.", ' ', 1), vec!["This is a string."]);
}

#[test]
fn split_into_n_parts_zero() {
    assert_eq!(split_into_n_parts("a b", ' ', 0), Vec::<&str>::new());
    assert_eq!(split_into_n_parts("", ' ', 0), Vec::<&str>::new());
}

#[test]
fn split_into_n_parts_empty_input() {
    assert_eq!(split_into_n_parts("", ',', 1), vec![""]);
    assert_eq!(split_into_n_parts("", ',', 3), vec!["", "", ""]);
}

#[test]
fn split_into_n_parts_keeps_empty_segments() {
    assert_eq!(split_into_n_parts(",a,", ',', 3), vec!["", "a", ""]);
    assert_eq!(split_into_n_parts("a,,b,c", ',', 3), vec!["a", "", "b,c"]);
}

#[test]
fn split_into_n_parts_always_n_segments() {
    for n in 0..8 {
        assert_eq!(split_into_n_parts("a,b,,c", ',', n).len(), n);
        assert_eq!(split_into_n_parts_returns_owned("a,b,,c", ',', n).len(), n);
    }
}

#[test]
fn split_into_n_parts_expected_count_is_plain_split() {
    let text = "x;;y;z;";
    let count = text.chars().filter(|&c| c == ';').count() + 1;
    let plain: Vec<&str> = text.split(';').collect();
    assert_eq!(split_into_n_parts(text, ';', count), plain);
}

#[test]
fn split_into_n_parts_owned_examples() {
    assert_eq!(
        split_into_n_parts_returns_owned("This is a string.", ' ', 3),
        vec!["This".to_string(), "is".to_string(), "a string.".to_string()]
    );
    assert_eq!(
        split_into_n_parts_returns_owned("This is a string.", ' ', 4),
        vec!["This".to_string(), "is".to_string(), "a".to_string(), "string.".to_string()]
    );
    assert_eq!(
        split_into_n_parts_returns_owned("This is a string.", ' ', 5),
        vec![
            "This".to_string(),
            "is".to_string(),
            "a".to_string(),
            "string.".to_string(),
            "".to_string()
        ]
    );
}

#[test]
fn split_into_n_parts_multibyte() {
    assert_eq!(split_into_n_parts("α·β·γ", '·', 2), vec!["α", "β·γ"]);
}
