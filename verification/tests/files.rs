use iofs::convert::{ConvertError, FsError};
use iofs::file::FileInfo;
use iofs::model::FsModel;

#[test]
fn open_is_lazy() {
    let fs = FsModel::new();
    let f = FileInfo::open("/a/b.txt", "/");
    assert_eq!(f.full_name(), "/a/b.txt");
    assert!(!f.is_exist(&fs));
}

#[test]
fn open_smart_creates_parents_and_empty_file() {
    let mut fs = FsModel::new();
    let f = FileInfo::open_smart("/a/b/c.txt", "/", &mut fs).unwrap();
    assert!(f.is_exist(&fs));
    assert!(fs.is_dir("/a"));
    assert!(fs.is_dir("/a/b"));
    assert_eq!(f.size_bytes(&fs), 0);
}

#[test]
fn write_then_read_round_trips() {
    let mut fs = FsModel::new();
    let mut f = FileInfo::open_smart("/data/log.bin", "/", &mut fs).unwrap();
    f.start_writing(&fs).unwrap();
    f.write(&mut fs, vec![1u8, 2, 3, 255]).unwrap();
    f.start_reading(&fs).unwrap();
    let back = f.read_to_bytes(&fs).unwrap();
    assert_eq!(back, vec![1u8, 2, 3, 255]);
}

#[test]
fn writeln_appends_newline() {
    let mut fs = FsModel::new();
    let mut f = FileInfo::open_smart("/d/t.txt", "/", &mut fs).unwrap();
    f.start_writing(&fs).unwrap();
    f.writeln(&mut fs, "hi").unwrap();
    f.start_reading(&fs).unwrap();
    let s: String = f.read_to_string(&fs).unwrap();
    assert_eq!(s, "hi\n");
}

#[test]
fn overwrite_truncates_and_leaves_writing() {
    let mut fs = FsModel::new();
    let mut f = FileInfo::open_smart("/d/t.txt", "/", &mut fs).unwrap();
    f.start_writing(&fs).unwrap();
    f.write(&mut fs, "longer earlier content").unwrap();
    f.overwrite(&mut fs, "new").unwrap();
    f.write(&mut fs, "!").unwrap();
    f.start_reading(&fs).unwrap();
    let s: String = f.read_to_string(&fs).unwrap();
    assert_eq!(s, "new!");
}

#[test]
fn read_line_strips_cr_and_lf() {
    let mut fs = FsModel::new();
    let mut f = FileInfo::open_smart("/d/line.txt", "/", &mut fs).unwrap();
    f.overwrite(&mut fs, "a\tb\r\n").unwrap();
    f.start_reading(&fs).unwrap();
    let line: String = f.read_line(&fs).unwrap();
    assert_eq!(line, "a\tb");
}

#[test]
fn read_until_stops_at_delimiter() {
    let mut fs = FsModel::new();
    let mut f = FileInfo::open_smart("/d/u.txt", "/", &mut fs).unwrap();
    f.overwrite(&mut fs, "one;two;").unwrap();
    f.start_reading(&fs).unwrap();
    let a: String = f.read_until(&fs, b';').unwrap();
    assert_eq!(a, "one");
    let b: String = f.read_until(&fs, b';').unwrap();
    assert_eq!(b, "two");
    let end: Result<String, ConvertError> = f.read_until(&fs, b';');
    assert!(matches!(end, Err(ConvertError::Empty)));
}

#[test]
fn read_exact_returns_requested_bytes() {
    let mut fs = FsModel::new();
    let mut f = FileInfo::open_smart("/d/x.bin", "/", &mut fs).unwrap();
    f.overwrite(&mut fs, vec![9u8, 8, 7, 6]).unwrap();
    f.start_reading(&fs).unwrap();
    assert_eq!(f.read_exact(&fs, 2).unwrap(), vec![9u8, 8]);
    assert_eq!(f.read_exact(&fs, 2).unwrap(), vec![7u8, 6]);
    assert!(matches!(f.read_exact(&fs, 1), Err(FsError::UnexpectedEof)));
}

#[test]
fn reading_without_setup_is_refused_with_hint_kind() {
    let mut fs = FsModel::new();
    let mut f = FileInfo::open_smart("/d/y.txt", "/", &mut fs).unwrap();
    // the file exists, so the state error points at the skipped setup
    assert!(matches!(f.read_to_bytes(&fs), Err(FsError::PermissionDenied)));
    let missing = FileInfo::open("/d/absent.txt", "/");
    let mut m = missing;
    assert!(matches!(m.read_to_bytes(&fs), Err(FsError::NotFound)));
}

#[test]
fn copy_new_refuses_existing_destination() {
    let mut fs = FsModel::new();
    let mut src = FileInfo::open_smart("/d/src.txt", "/", &mut fs).unwrap();
    src.overwrite(&mut fs, "payload").unwrap();
    let _dest = FileInfo::open_smart("/d/dest.txt", "/", &mut fs).unwrap();
    let r = src.copy_new(&mut fs, "/d/dest.txt", "/");
    assert!(matches!(r, Err(FsError::AlreadyExists)));
    // the source is untouched
    src.start_reading(&fs).unwrap();
    let s: String = src.read_to_string(&fs).unwrap();
    assert_eq!(s, "payload");
}

#[test]
fn copy_new_duplicates_content() {
    let mut fs = FsModel::new();
    let mut src = FileInfo::open_smart("/d/a.txt", "/", &mut fs).unwrap();
    src.overwrite(&mut fs, "copied").unwrap();
    src.copy_new(&mut fs, "/d/b.txt", "/").unwrap();
    let mut dest = FileInfo::open("/d/b.txt", "/");
    dest.start_reading(&fs).unwrap();
    let s: String = dest.read_to_string(&fs).unwrap();
    assert_eq!(s, "copied");
    assert!(src.is_exist(&fs));
}

#[test]
fn move_new_repoints_handle_and_clears_old_path() {
    let mut fs = FsModel::new();
    let mut f = FileInfo::open_smart("/d/old.txt", "/", &mut fs).unwrap();
    f.overwrite(&mut fs, "moved").unwrap();
    f.move_new(&mut fs, "/e/new.txt", "/").unwrap_err();
    // the destination directory did not exist yet; create it and retry
    let _e = iofs::dir::DirectoryInfo::open_smart("/e", "/", &mut fs).unwrap();
    f.move_new(&mut fs, "/e/new.txt", "/").unwrap();
    assert_eq!(f.full_name(), "/e/new.txt");
    assert!(!fs.is_file("/d/old.txt"));
    assert!(fs.is_file("/e/new.txt"));
    f.start_reading(&fs).unwrap();
    let s: String = f.read_to_string(&fs).unwrap();
    assert_eq!(s, "moved");
}

#[test]
fn is_eq_compares_bytes_exactly() {
    let mut fs = FsModel::new();
    let mut a = FileInfo::open_smart("/d/a.bin", "/", &mut fs).unwrap();
    let mut b = FileInfo::open_smart("/d/b.bin", "/", &mut fs).unwrap();
    a.overwrite(&mut fs, vec![1u8, 2, 3]).unwrap();
    b.overwrite(&mut fs, vec![1u8, 2, 3]).unwrap();
    assert!(a.is_eq(&b, &fs));
    b.overwrite(&mut fs, vec![1u8, 2, 4]).unwrap();
    assert!(!a.is_eq(&b, &fs));
    let missing = FileInfo::open("/d/none.bin", "/");
    assert!(!a.is_eq(&missing, &fs));
    assert!(!missing.is_eq(&missing, &fs));
}

#[test]
fn del_removes_the_file() {
    let mut fs = FsModel::new();
    let f = FileInfo::open_smart("/d/gone.txt", "/", &mut fs).unwrap();
    f.del(&mut fs).unwrap();
    assert!(!fs.is_file("/d/gone.txt"));
}

#[test]
fn extension_match_is_exact() {
    let f = FileInfo::open("/d/a.txt", "/");
    assert!(f.extension_match(&[".md", ".txt"]));
    assert!(!f.extension_match(&[".md", ".rs"]));
}

#[test]
fn rename_moves_the_entry_and_keeps_the_extension() {
    let mut fs = FsModel::new();
    let mut f = FileInfo::open_smart("/d/old.txt", "/", &mut fs).unwrap();
    f.overwrite(&mut fs, "body").unwrap();
    f.rename(&mut fs, "fresh").unwrap();
    assert_eq!(f.full_name(), "/d/fresh.txt");
    assert!(!fs.is_file("/d/old.txt"));
    assert_eq!(fs.read_file("/d/fresh.txt").unwrap(), b"body".to_vec());
}

#[test]
fn set_extension_renames_the_stored_file() {
    let mut fs = FsModel::new();
    let mut f = FileInfo::open_smart("/d/a.txt", "/", &mut fs).unwrap();
    f.overwrite(&mut fs, "x").unwrap();
    f.set_extension(&mut fs, "md").unwrap();
    assert_eq!(f.full_name(), "/d/a.md");
    assert!(!fs.is_file("/d/a.txt"));
    assert_eq!(fs.read_file("/d/a.md").unwrap(), b"x".to_vec());
}

#[test]
fn cover_new_replaces_a_standing_destination() {
    let mut fs = FsModel::new();
    let mut src = FileInfo::open_smart("/d/src.txt", "/", &mut fs).unwrap();
    src.overwrite(&mut fs, "fresh").unwrap();
    let mut dest = FileInfo::open_smart("/d/dest.txt", "/", &mut fs).unwrap();
    dest.overwrite(&mut fs, "stale").unwrap();
    src.cover_new(&mut fs, "/d/dest.txt", "/", false).unwrap();
    assert_eq!(fs.read_file("/d/dest.txt").unwrap(), b"fresh".to_vec());
    assert!(fs.is_file("/d/src.txt"));
    src.cover_new(&mut fs, "/d/third.txt", "/", true).unwrap();
    assert_eq!(src.full_name(), "/d/third.txt");
    assert!(!fs.is_file("/d/src.txt"));
}

#[test]
fn extension_match_can_fold_ascii_case() {
    let f = FileInfo::open("/d/a.TXT", "/");
    assert!(f.extension_match_ignore_ascii_case(&[".txt"]));
    assert!(!f.extension_match_ignore_ascii_case(&[".md"]));
    assert!(!f.extension_match(&[".txt"]));
}

#[test]
fn size_steps_divide_down() {
    let mut fs = FsModel::new();
    let mut f = FileInfo::open_smart("/d/big.bin", "/", &mut fs).unwrap();
    f.overwrite(&mut fs, vec![0u8; 2048]).unwrap();
    assert_eq!(f.size_bytes(&fs), 2048);
    assert_eq!(f.size_kb(&fs), 2);
    assert_eq!(f.size_mb(&fs), 0);
}

#[test]
fn copy_to_and_move_to_use_the_directory_and_name() {
    let mut fs = FsModel::new();
    let mut f = FileInfo::open_smart("/a/n.txt", "/", &mut fs).unwrap();
    f.overwrite(&mut fs, "v").unwrap();
    let _d = iofs::dir::DirectoryInfo::open_smart("/b", "/", &mut fs).unwrap();
    f.copy_to(&mut fs, "/b", "/").unwrap();
    assert!(fs.is_file("/b/n.txt"));
    let _c = iofs::dir::DirectoryInfo::open_smart("/c", "/", &mut fs).unwrap();
    f.move_to(&mut fs, "/c", "/").unwrap();
    assert_eq!(f.full_name(), "/c/n.txt");
    assert!(!fs.is_file("/a/n.txt"));
}

#[test]
fn builder_is_exist_probes_the_store() {
    let mut fs = FsModel::new();
    let _f = FileInfo::open_smart("/p/x", "/", &mut fs).unwrap();
    let b = iofs::pbuilder::PathBuilder::from("/p/x", "/");
    assert!(b.is_exist(&fs));
    let d = iofs::pbuilder::PathBuilder::from("/p", "/");
    assert!(d.is_exist(&fs));
    let n = iofs::pbuilder::PathBuilder::from("/nope", "/");
    assert!(!n.is_exist(&fs));
}

#[test]
fn numbers_and_characters_write_as_text() {
    let mut fs = FsModel::new();
    let mut f = FileInfo::open_smart("/d/n.txt", "/", &mut fs).unwrap();
    f.start_writing(&fs).unwrap();
    f.write(&mut fs, 42u32).unwrap();
    f.write(&mut fs, ' ').unwrap();
    f.write(&mut fs, -7i8).unwrap();
    f.write(&mut fs, ' ').unwrap();
    f.write(&mut fs, 0u8).unwrap();
    f.start_reading(&fs).unwrap();
    let s: String = f.read_to_string(&fs).unwrap();
    assert_eq!(s, "42 -7 0");
}
