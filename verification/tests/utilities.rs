use iofs::color::{Color, ColorString};
use iofs::find::Find;
use iofs::strs::Str;
use iofs::symbols::{CharCompare, Range, Symbols};
use iofs::web::content_disposition;

#[test]
fn find_reports_first_position() {
    let v: Vec<u8> = b"abcabc".to_vec();
    assert_eq!(v.find(&b'b'), Some(1));
    assert_eq!(v.find(&b'z'), None);
}

#[test]
fn find_all_reports_every_position() {
    let v: Vec<u8> = b"abcabc".to_vec();
    assert_eq!(v.find_all(&b'c'), Some(vec![2, 5]));
    assert_eq!(v.find_all(&b'z'), None);
}

#[test]
fn find_last_reports_last_position() {
    let v: Vec<u8> = b"abcabc".to_vec();
    assert_eq!(v.find_last(&b'a'), Some(3));
    assert_eq!(v.find_last(&b'z'), None);
    let head: Vec<u8> = b"xab".to_vec();
    assert_eq!(head.find_last(&b'x'), Some(0));
}

#[test]
fn finds_reports_the_first_block() {
    let v: Vec<u8> = b"xxabyy".to_vec();
    assert_eq!(v.finds(b"ab"), Some((2, 3)));
    assert_eq!(v.finds(b"yy"), Some((4, 5)));
    assert_eq!(v.finds(b"zz"), None);
}

#[test]
fn find_all_size_counts() {
    let v: Vec<u8> = b"aabaa".to_vec();
    assert_eq!(v.find_all_size(&b'a'), 4);
    assert_eq!(v.find_all_size(&b'z'), 0);
}

#[test]
fn last_eq_checks_the_tail() {
    let v: Vec<u8> = b"abc".to_vec();
    assert!(v.last_eq(&b'c'));
    assert!(!v.last_eq(&b'a'));
    let e: Vec<u8> = Vec::new();
    assert!(!e.last_eq(&b'a'));
}

#[test]
fn symbols_classify_ascii() {
    assert!('a'.is_letter());
    assert!('Z'.is_letter());
    assert!(!'5'.is_letter());
    assert!('5'.is_number());
    assert!(!('a'.is_number()));
    assert!('Q'.is_upper());
    assert!('q'.is_lower());
    assert_eq!('a'.to_upper(), 'A');
    assert_eq!('A'.to_lower(), 'a');
    assert_eq!('!'.to_upper(), '!');
    assert_eq!(b'm'.to_upper(), 'M');
    assert_eq!(b'M'.to_lower(), 'm');
    assert!(b'7'.is_number());
}

#[test]
fn range_bounds_and_membership() {
    assert!(5u8.range_at(&1, &9));
    assert!(!(5u8.range_at(&6, &9)));
    assert!('c'.range_at(&'a', &'z'));
    assert!(5u8.contained_in(&[1, 5, 9]));
    assert!(!5u8.contained_in(&[1, 2, 3]));
}

#[test]
fn char_comparison_folds_case() {
    assert!('a'.eq_with(&'a'));
    assert!(!'a'.eq_with(&'b'));
    assert!('a'.eq_ingore_case(&'A'));
    assert!('Z'.eq_ingore_case(&'z'));
    assert!(!'a'.eq_ingore_case(&'b'));
    assert!('!'.eq_ingore_case(&'!'));
}

#[test]
fn match_with_collects_greedy_positions() {
    // characters of the left string are consumed on a mismatch, so a
    // noisy prefix on the left is skipped over
    let a = String::from("xxabc");
    let b = String::from("abc");
    assert_eq!(a.match_with(&b), Some(vec![0, 1, 2]));
    let none = String::from("q");
    assert_eq!(none.match_with(&b), None);
    let ci = String::from("AB");
    let t = String::from("ab");
    assert_eq!(ci.match_with(&t), Some(vec![0, 1]));
    let partial = String::from("ab");
    let tail = String::from("b");
    assert_eq!(partial.match_with(&tail), Some(vec![0]));
}

#[test]
fn color_escapes_are_exact() {
    let s = String::from("hi");
    assert_eq!(s.fg(Color::Red), "\u{1b}[38;5;1mhi\u{1b}[0m");
    assert_eq!(s.bg(Color::Blue), "\u{1b}[48;5;4mhi\u{1b}[0m");
    assert_eq!(
        s.set_color(Color::White, Color::Black),
        "\u{1b}[38;5;7m\u{1b}[48;5;0mhi\u{1b}[0m"
    );
}

#[test]
fn content_disposition_serializes_the_name() {
    assert_eq!(
        content_disposition("report final.txt"),
        "attachment; filename=report+final.txt"
    );
    assert_eq!(
        content_disposition("a&b.bin"),
        "attachment; filename=a%26b.bin"
    );
    assert_eq!(content_disposition(""), "attachment; filename=");
}
