use rust_strings::check_for_palindrome;

#[test]
fn test_palindrome_with_spaces() {
    assert!(check_for_palindrome("A man, a plan, a canal: Panama"));
    assert!(!check_for_palindrome("race a car"));
}

#[test]
fn test_palindrome_empty_string() {
    assert!(check_for_palindrome(""));
}

#[test]
fn test_palindrome_single_character() {
    assert!(check_for_palindrome("a"));
    assert!(check_for_palindrome("A"));
}

#[test]
fn test_palindrome_mixed_case() {
    assert!(check_for_palindrome("Madam"));
}

#[test]
fn test_palindrome_with_punctuation() {
    assert!(check_for_palindrome("No 'x' in Nixon"));
}

#[test]
fn palindrome_only_punctuation() {
    assert!(check_for_palindrome("!?, .;"));
}

#[test]
fn palindrome_digits_count_as_alphanumeric() {
    assert!(check_for_palindrome("1a2-2A1"));
    assert!(!check_for_palindrome("12"));
}

#[test]
fn palindrome_non_ascii_letters_kept() {
    assert!(check_for_palindrome("été"));
    assert!(!check_for_palindrome("étè"));
}
