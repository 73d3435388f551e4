use iofs::pathstr::{correct_str, is_root_str, normalize_str, uri_kind_str, PathStr};
use iofs::pbuilder::PathBuilder;
use iofs::UriKind;

#[test]
fn normalize_collapses_and_resolves() {
    // a relative path with mixed separators is resolved against the
    // working directory and spelled with single forward slashes
    let r = normalize_str("a\\b/c", "/home/user");
    assert_eq!(r, "/home/user/a/b/c");
}

#[test]
fn normalize_is_idempotent() {
    let once = normalize_str("a\\b//c?/", "/srv");
    let twice = normalize_str(&once, "/srv");
    assert_eq!(once, twice);
}

#[test]
fn normalize_strips_trailing_slash_except_root() {
    assert_eq!(normalize_str("/x/", "/home"), "/x");
    assert_eq!(normalize_str("/", "/home"), "/");
    assert_eq!(normalize_str("///", "/home"), "/");
}

#[test]
fn correct_drops_question_marks() {
    assert_eq!(correct_str("/a?/b?"), "/a/b");
}

#[test]
fn uri_kind_tells_absolute_from_relative() {
    assert!(matches!(uri_kind_str("/abs"), UriKind::Absolute));
    assert!(matches!(uri_kind_str("rel"), UriKind::Relative));
}

#[test]
fn is_root_only_for_root() {
    assert!(is_root_str("/"));
    assert!(is_root_str("//"));
    assert!(!is_root_str("/a"));
}

#[test]
fn name_extension_ext_name_decompose() {
    let b = PathBuilder::from("/x/y/report.final.txt", "/");
    assert_eq!(b.name(), "report.final.txt");
    assert_eq!(b.extension(), ".txt");
    assert_eq!(b.ext_name(), "report.final");
}

#[test]
fn dotfile_has_no_extension() {
    let b = PathBuilder::from("/home/u/.bashrc", "/");
    assert_eq!(b.extension(), "");
    assert_eq!(b.ext_name(), ".bashrc");
    assert!(b.is_hide());
}

#[test]
fn parent_of_path_and_root() {
    let b = PathBuilder::from("/x/y/z.txt", "/");
    assert_eq!(b.parent(), "/x/y");
    let r = PathBuilder::from("/", "/");
    assert_eq!(r.parent(), "%Root%");
}

#[test]
fn rename_keeps_extension() {
    let mut b = PathBuilder::from("/d/old.txt", "/");
    b.rename("new");
    assert_eq!(b.full_name(), "/d/new.txt");
}

#[test]
fn set_extension_replaces_or_appends() {
    let mut b = PathBuilder::from("/d/a.txt", "/");
    b.set_extension("md");
    assert_eq!(b.full_name(), "/d/a.md");
    let mut c = PathBuilder::from("/d/noext", "/");
    c.set_extension(".rs");
    assert_eq!(c.full_name(), "/d/noext.rs");
}

#[test]
fn set_parent_moves_stem() {
    let mut b = PathBuilder::from("/d/a.txt", "/");
    b.set_parent("/other");
    assert_eq!(b.full_name(), "/other/a");
}

#[test]
fn set_hide_toggles_leading_dot() {
    let mut b = PathBuilder::from("/d/a.txt", "/");
    b.set_hide(true);
    assert_eq!(b.full_name(), "/d/.a.txt");
    b.set_hide(false);
    assert_eq!(b.full_name(), "/d/a.txt");
}

#[test]
fn replace_rewrites_every_occurrence() {
    let mut b = PathBuilder::from("/ab/ab/c", "/");
    b.replace("ab", "xy");
    assert_eq!(b.full_name(), "/xy/xy/c");
}

#[test]
fn push_and_push_str_append() {
    let mut b = PathBuilder::from("/d/a", "/");
    b.push('b');
    b.push_str("cd");
    assert_eq!(b.full_name(), "/d/abcd");
}

#[test]
fn last_pos_finds_last_separator() {
    let b = PathBuilder::from("/d/e/f", "/");
    assert_eq!(b.last_pos('/'), Some(4));
    assert_eq!(b.last_pos('#'), None);
}

#[test]
fn pathstr_trait_on_string() {
    let s = String::from("x\\y");
    assert_eq!(s.correct(), "x/y");
    assert!(matches!(s.uri_kind(), UriKind::Relative));
    assert_eq!(s.relate_to_absolute("/cwd"), "/cwd/x/y");
    assert!(!s.is_root());
}

#[test]
fn pathstr_trait_on_str() {
    assert_eq!("a//b?".correct(), "a/b");
    assert!(matches!("/r".uri_kind(), UriKind::Absolute));
    assert!("//".is_root());
}

#[test]
fn empty_path_resolves_to_the_working_directory() {
    assert_eq!(normalize_str("", "/home/user"), "/home/user");
    assert_eq!(normalize_str("???", "/home/user"), "/home/user");
}
