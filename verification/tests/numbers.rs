use cookie_log::digits::{is_digit_char, read_number};

#[test]
fn digits_are_the_ten_of_ascii() {
    assert!(is_digit_char('0'));
    assert!(is_digit_char('9'));
    assert!(!is_digit_char('/'));
    assert!(!is_digit_char(':'));
    assert!(!is_digit_char('a'));
    assert!(!is_digit_char('\u{661}'));
}

#[test]
fn read_number_gives_the_decimal_value() {
    let v: Vec<char> = "2018-12-09".chars().collect();
    assert_eq!(read_number(&v, 0, 4), 2018);
    assert_eq!(read_number(&v, 5, 7), 12);
    assert_eq!(read_number(&v, 8, 10), 9);
    assert_eq!(read_number(&v, 3, 3), 0);
    let w: Vec<char> = "9999".chars().collect();
    assert_eq!(read_number(&w, 0, 4), 9999);
    let z: Vec<char> = "0007".chars().collect();
    assert_eq!(read_number(&z, 0, 4), 7);
}
