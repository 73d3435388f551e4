use iofs::convert::FsError;
use iofs::dir::DirectoryInfo;
use iofs::fd::{Attributes, FileDir};
use iofs::file::FileInfo;
use iofs::model::FsModel;

fn file_with(fs: &mut FsModel, path: &str, content: &str) {
    let mut f = FileInfo::open_smart(path, "/", fs).unwrap();
    f.overwrite(fs, content).unwrap();
}

#[test]
fn open_smart_creates_directory_chain() {
    let mut fs = FsModel::new();
    let d = DirectoryInfo::open_smart("/a/b/c", "/", &mut fs).unwrap();
    assert!(d.is_exist(&fs));
    assert!(fs.is_dir("/a"));
    assert!(fs.is_dir("/a/b"));
}

#[test]
fn create_fails_when_a_file_is_in_the_way() {
    let mut fs = FsModel::new();
    file_with(&mut fs, "/a/file", "x");
    let mut d = DirectoryInfo::open("/a/file/sub", "/");
    assert!(matches!(d.create(&mut fs), Err(FsError::Other)));
}

#[test]
fn listings_report_children_in_creation_order() {
    let mut fs = FsModel::new();
    file_with(&mut fs, "/top/one.txt", "1");
    file_with(&mut fs, "/top/two.txt", "2");
    let _sub = DirectoryInfo::open_smart("/top/sub", "/", &mut fs).unwrap();
    file_with(&mut fs, "/top/sub/deep.txt", "3");
    let d = DirectoryInfo::open("/top", "/");
    assert_eq!(d.file_paths(&fs), vec!["/top/one.txt", "/top/two.txt"]);
    assert_eq!(d.directory_paths(&fs), vec!["/top/sub"]);
    assert_eq!(
        d.children_path(&fs),
        vec!["/top/one.txt", "/top/two.txt", "/top/sub"]
    );
    let files = d.files(&fs);
    assert_eq!(files.len(), 2);
    assert_eq!(files[0].full_name(), "/top/one.txt");
    let dirs = d.directories(&fs);
    assert_eq!(dirs.len(), 1);
    assert_eq!(dirs[0].full_name(), "/top/sub");
}

#[test]
fn contain_child_probes_direct_children() {
    let mut fs = FsModel::new();
    file_with(&mut fs, "/top/one.txt", "1");
    let d = DirectoryInfo::open("/top", "/");
    assert!(d.contain_child(&fs, "one.txt"));
    assert!(!d.contain_child(&fs, "two.txt"));
}

#[test]
fn size_bytes_sums_all_files_below() {
    let mut fs = FsModel::new();
    file_with(&mut fs, "/top/a.txt", "12345");
    file_with(&mut fs, "/top/sub/b.txt", "123");
    file_with(&mut fs, "/top/sub/deep/c.txt", "1");
    file_with(&mut fs, "/other/d.txt", "123456789");
    let d = DirectoryInfo::open("/top", "/");
    assert_eq!(d.size_bytes(&fs), 9);
    // the total equals the per-file sum over everything reachable by
    // recursive descent
    let fa = FileInfo::open("/top/a.txt", "/");
    let fb = FileInfo::open("/top/sub/b.txt", "/");
    let fc = FileInfo::open("/top/sub/deep/c.txt", "/");
    assert_eq!(
        d.size_bytes(&fs) as usize,
        fa.size_bytes(&fs) + fb.size_bytes(&fs) + fc.size_bytes(&fs)
    );
    let root = DirectoryInfo::open("/", "/");
    assert_eq!(root.size_bytes(&fs), 18);
}

#[test]
fn copy_new_mirrors_the_tree() {
    let mut fs = FsModel::new();
    file_with(&mut fs, "/src/a.txt", "A");
    file_with(&mut fs, "/src/sub/b.txt", "B");
    let d = DirectoryInfo::open("/src", "/");
    d.copy_new(&mut fs, "/dst", "/").unwrap();
    assert!(fs.is_dir("/dst"));
    assert!(fs.is_dir("/dst/sub"));
    assert_eq!(fs.read_file("/dst/a.txt").unwrap(), b"A".to_vec());
    assert_eq!(fs.read_file("/dst/sub/b.txt").unwrap(), b"B".to_vec());
    // the source is still whole
    assert_eq!(fs.read_file("/src/a.txt").unwrap(), b"A".to_vec());
}

#[test]
fn copy_new_refuses_a_standing_destination_file() {
    let mut fs = FsModel::new();
    file_with(&mut fs, "/src/a.txt", "A");
    file_with(&mut fs, "/dst/a.txt", "old");
    let d = DirectoryInfo::open("/src", "/");
    let r = d.copy_new(&mut fs, "/dst", "/");
    assert!(matches!(r, Err(FsError::AlreadyExists)));
    assert_eq!(fs.read_file("/dst/a.txt").unwrap(), b"old".to_vec());
}

#[test]
fn move_new_relocates_and_removes_source() {
    let mut fs = FsModel::new();
    file_with(&mut fs, "/from/x.txt", "X");
    file_with(&mut fs, "/from/deep/y.txt", "Y");
    let mut d = DirectoryInfo::open("/from", "/");
    d.move_new(&mut fs, "/to", "/").unwrap();
    assert_eq!(d.full_name(), "/to");
    assert!(!fs.is_dir("/from"));
    assert!(!fs.is_file("/from/x.txt"));
    assert_eq!(fs.read_file("/to/x.txt").unwrap(), b"X".to_vec());
    assert_eq!(fs.read_file("/to/deep/y.txt").unwrap(), b"Y".to_vec());
}

#[test]
fn del_removes_the_whole_tree() {
    let mut fs = FsModel::new();
    file_with(&mut fs, "/gone/a.txt", "A");
    file_with(&mut fs, "/gone/sub/b.txt", "B");
    file_with(&mut fs, "/kept/c.txt", "C");
    let d = DirectoryInfo::open("/gone", "/");
    d.del(&mut fs).unwrap();
    assert!(!fs.is_dir("/gone"));
    assert!(!fs.is_file("/gone/a.txt"));
    assert!(!fs.is_file("/gone/sub/b.txt"));
    assert!(fs.is_file("/kept/c.txt"));
}

#[test]
fn tree_equality_compares_names_and_contents_recursively() {
    let mut fs = FsModel::new();
    file_with(&mut fs, "/p/f.txt", "same");
    file_with(&mut fs, "/p/sub/g.txt", "deep");
    file_with(&mut fs, "/q/f.txt", "same");
    file_with(&mut fs, "/q/sub/g.txt", "deep");
    let p = DirectoryInfo::open("/p", "/");
    let q = DirectoryInfo::open("/q", "/");
    assert!(p.is_eq(&q, &fs));
    // a differing byte deep in the tree breaks the equality
    file_with(&mut fs, "/q/sub/g.txt", "DEEP");
    assert!(!p.is_eq(&q, &fs));
}

#[test]
fn tree_equality_sees_differing_names() {
    let mut fs = FsModel::new();
    file_with(&mut fs, "/p/one.txt", "x");
    file_with(&mut fs, "/q/two.txt", "x");
    let p = DirectoryInfo::open("/p", "/");
    let q = DirectoryInfo::open("/q", "/");
    assert!(!p.is_eq(&q, &fs));
    assert!(p.is_eq(&p, &fs));
}

#[test]
fn attributes_never_unify_absence() {
    let a = Attributes::Absent;
    let b = Attributes::Absent;
    assert!(a != b);
    assert!(Attributes::File == Attributes::File);
    assert!(Attributes::File != Attributes::Directory);
    assert_eq!(Attributes::File.to_i32(), 0);
    assert_eq!(Attributes::Directory.to_i32(), 1);
    assert_eq!(Attributes::Absent.to_i32(), -1);
}

#[test]
fn file_dir_resolves_kind_once() {
    let mut fs = FsModel::new();
    file_with(&mut fs, "/p/f.txt", "f");
    let f = FileDir::open("/p/f.txt", "/", &fs).unwrap();
    assert!(f.is_file(&fs));
    assert!(!f.is_dir(&fs));
    let d = FileDir::open("/p", "/", &fs).unwrap();
    assert!(d.is_dir(&fs));
    assert!(matches!(FileDir::open("/absent", "/", &fs), Err(FsError::NotFound)));
    assert_eq!(f.name(), "f.txt");
    assert_eq!(f.extension(), ".txt");
    assert_eq!(f.size_bytes(&fs), 1);
}

#[test]
fn file_dir_common_attribute_and_equality() {
    let mut fs = FsModel::new();
    file_with(&mut fs, "/p/a.txt", "z");
    file_with(&mut fs, "/p/b.txt", "z");
    let a = FileDir::open("/p/a.txt", "/", &fs).unwrap();
    let b = FileDir::open("/p/b.txt", "/", &fs).unwrap();
    let d = FileDir::open("/p", "/", &fs).unwrap();
    assert!(matches!(a.common_attr_with(&b, &fs), Attributes::File));
    assert!(matches!(a.common_attr_with(&d, &fs), Attributes::Absent));
    assert!(a.attr_eq(&b, &fs));
    assert!(!a.attr_eq(&d, &fs));
    assert!(a.is_eq(&b, &fs));
    assert!(!a.is_eq(&d, &fs));
}

#[test]
fn file_dir_lists_children_of_directories_only() {
    let mut fs = FsModel::new();
    file_with(&mut fs, "/p/a.txt", "1");
    let _sub = DirectoryInfo::open_smart("/p/sub", "/", &mut fs).unwrap();
    let d = FileDir::open("/p", "/", &fs).unwrap();
    let kids = d.children(&fs).unwrap();
    assert_eq!(kids.len(), 2);
    assert_eq!(kids[0].full_name(), "/p/a.txt");
    assert!(kids[0].is_file(&fs));
    assert_eq!(kids[1].full_name(), "/p/sub");
    assert!(kids[1].is_dir(&fs));
    assert_eq!(d.files(&fs).unwrap().len(), 1);
    assert_eq!(d.directories(&fs).unwrap().len(), 1);
    let f = FileDir::open("/p/a.txt", "/", &fs).unwrap();
    assert!(f.children(&fs).is_none());
    assert!(f.files(&fs).is_none());
    assert!(f.directories(&fs).is_none());
}

#[test]
fn file_dir_del_removes_either_kind() {
    let mut fs = FsModel::new();
    file_with(&mut fs, "/p/a.txt", "1");
    file_with(&mut fs, "/q/deep/b.txt", "2");
    let f = FileDir::open("/p/a.txt", "/", &fs).unwrap();
    f.del(&mut fs).unwrap();
    assert!(!fs.is_file("/p/a.txt"));
    let d = FileDir::open("/q", "/", &fs).unwrap();
    d.del(&mut fs).unwrap();
    assert!(!fs.is_dir("/q"));
    assert!(!fs.is_file("/q/deep/b.txt"));
}

#[test]
fn directory_move_to_keeps_the_name() {
    let mut fs = FsModel::new();
    file_with(&mut fs, "/box/inner/f.txt", "z");
    let _t = DirectoryInfo::open_smart("/target", "/", &mut fs).unwrap();
    let mut d = DirectoryInfo::open("/box", "/");
    d.move_to(&mut fs, "/target", "/").unwrap();
    assert_eq!(d.full_name(), "/target/box");
    assert!(!fs.is_dir("/box"));
    assert_eq!(fs.read_file("/target/box/inner/f.txt").unwrap(), b"z".to_vec());
}

#[test]
fn file_dir_copies_and_moves_either_kind() {
    let mut fs = FsModel::new();
    file_with(&mut fs, "/p/a.txt", "A");
    file_with(&mut fs, "/t/tree/deep.txt", "D");
    let f = FileDir::open("/p/a.txt", "/", &fs).unwrap();
    f.copy_new(&mut fs, "/p/b.txt", "/").unwrap();
    assert_eq!(fs.read_file("/p/b.txt").unwrap(), b"A".to_vec());
    let mut t = FileDir::open("/t/tree", "/", &fs).unwrap();
    t.copy_new(&mut fs, "/t/copy", "/").unwrap();
    assert_eq!(fs.read_file("/t/copy/deep.txt").unwrap(), b"D".to_vec());
    t.move_new(&mut fs, "/t/moved", "/").unwrap();
    assert_eq!(t.full_name(), "/t/moved");
    assert!(!fs.is_dir("/t/tree"));
    assert_eq!(fs.read_file("/t/moved/deep.txt").unwrap(), b"D".to_vec());
    let mut g = FileDir::open("/p/b.txt", "/", &fs).unwrap();
    g.move_new(&mut fs, "/p/c.txt", "/").unwrap();
    assert!(!fs.is_file("/p/b.txt"));
    assert_eq!(fs.read_file("/p/c.txt").unwrap(), b"A".to_vec());
}
