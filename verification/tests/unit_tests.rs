use symlink_merge::keep::keep_path;
use symlink_merge::merge::resolve_symlink;
use symlink_merge::model::Fs;
use symlink_merge::model::Kind;

fn p(parts: &[&str]) -> Vec<String> {
    parts.iter().map(|s| String::from(*s)).collect()
}

#[test]
fn resolve_symlink_follows_one_level() {
    let mut fs = Fs::new();
    fs.insert(p(&["a"]), Kind::Dir);
    fs.insert(p(&["a", "link"]), Kind::Symlink(p(&["a", "real"])));
    fs.insert(p(&["a", "real"]), Kind::Dir);
    assert_eq!(resolve_symlink(&fs, &p(&["a", "link"])), p(&["a", "real"]));
    assert_eq!(resolve_symlink(&fs, &p(&["a", "real"])), p(&["a", "real"]));
    assert_eq!(resolve_symlink(&fs, &p(&["missing"])), p(&["missing"]));
}

#[test]
fn keep_path_sees_direct_marker() {
    let mut fs = Fs::new();
    fs.insert(p(&["t"]), Kind::Dir);
    fs.insert(p(&["t", "d"]), Kind::Dir);
    fs.insert(p(&["t", "d", ".keep"]), Kind::File);
    let keep = p(&[".keep", ".keep_files"]);
    assert!(keep_path(&fs, &p(&["t"]), &p(&["t", "d"]), &keep));
    assert!(!keep_path(&fs, &p(&["t"]), &p(&["t"]), &keep));
}

#[test]
fn keep_path_sees_ancestor_sibling_marker() {
    let mut fs = Fs::new();
    fs.insert(p(&["t"]), Kind::Dir);
    fs.insert(p(&["t", ".keep"]), Kind::File);
    fs.insert(p(&["t", "d"]), Kind::Dir);
    fs.insert(p(&["t", "d", "deep"]), Kind::Dir);
    fs.insert(p(&["t", "d", "deep", "f.txt"]), Kind::File);
    let keep = p(&[".keep", ".keep_files"]);
    // the marker beside every ancestor of the path protects it, however deep
    assert!(keep_path(&fs, &p(&["t"]), &p(&["t", "d", "deep", "f.txt"]), &keep));
    assert!(keep_path(&fs, &p(&["t"]), &p(&["t", "d"]), &keep));
}

#[test]
fn keep_path_false_without_matching_marker() {
    let mut fs = Fs::new();
    fs.insert(p(&["t"]), Kind::Dir);
    fs.insert(p(&["t", ".keep_dirs"]), Kind::File);
    fs.insert(p(&["t", "f.txt"]), Kind::File);
    let file_keep = p(&[".keep", ".keep_files"]);
    let dir_keep = p(&[".keep", ".keep_dirs"]);
    assert!(!keep_path(&fs, &p(&["t"]), &p(&["t", "f.txt"]), &file_keep));
    assert!(keep_path(&fs, &p(&["t"]), &p(&["t", "f.txt"]), &dir_keep));
}
