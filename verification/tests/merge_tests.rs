use symlink_merge::generate_symlinks;
use symlink_merge::model::Fs;
use symlink_merge::model::Kind;
use symlink_merge::Action;
use symlink_merge::MergeError;
use symlink_merge::Overwrite;

fn p(parts: &[&str]) -> Vec<String> {
    parts.iter().map(|s| String::from(*s)).collect()
}

fn is_symlink(fs: &Fs, parts: &[&str]) -> bool {
    matches!(fs.lookup_kind(&p(parts)), Some(Kind::Symlink(_)))
}

fn prepare_test_directory() -> Fs {
    let mut fs = Fs::new();

    // Root
    fs.insert(p(&["test_files"]), Kind::Dir);
    fs.insert(p(&["test_files", "test_file1.txt"]), Kind::File);
    fs.insert(p(&["test_files", "test_file2.json"]), Kind::File);

    // 1
    fs.insert(p(&["test_files", "test_dir1"]), Kind::Dir);
    fs.insert(p(&["test_files", "test_dir1", "lorem.txt"]), Kind::File);
    fs.insert(p(&["test_files", "test_dir1", "ipsum.php"]), Kind::File);
    fs.insert(p(&["test_files", "test_dir1", "keep"]), Kind::Dir);
    fs.insert(p(&["test_files", "test_dir1", "keep", "haha.yml"]), Kind::File);
    fs.insert(p(&["test_files", "test_dir1", "keep", "do_not_overwrite.txt"]), Kind::File);
    fs.insert(p(&["test_files", "test_dir1", "nested"]), Kind::Dir);
    fs.insert(p(&["test_files", "test_dir1", "nested", "lorem"]), Kind::Dir);
    fs.insert(p(&["test_files", "test_dir1", "nested", "dolor.cpp"]), Kind::File);

    // 2
    fs.insert(p(&["test_files", "test_dir2"]), Kind::Dir);
    fs.insert(p(&["test_files", "test_dir2", "index.html"]), Kind::File);
    fs.insert(p(&["test_files", "test_dir2", "ipsum.php"]), Kind::File);
    fs.insert(p(&["test_files", "test_dir2", "keep"]), Kind::Dir);
    fs.insert(p(&["test_files", "test_dir2", "keep", ".keep"]), Kind::File);
    fs.insert(p(&["test_files", "test_dir2", "keep", "do_not_overwrite.txt"]), Kind::File);
    fs.insert(p(&["test_files", "test_dir2", "nested"]), Kind::Dir);
    fs.insert(p(&["test_files", "test_dir2", "nested", "dolor.cpp"]), Kind::File);
    fs.insert(p(&["test_files", "test_dir2", "nested", "original.rs"]), Kind::File);

    fs
}

#[test]
fn accepts_only_directories() {
    let mut fs = prepare_test_directory();

    assert!(
        generate_symlinks(
            &mut fs,
            &p(&["test_files", "test_dir1"]),
            &p(&["test_files", "test_file1.txt"]),
            Overwrite::All,
        )
        .is_err()
    );
    assert!(
        generate_symlinks(
            &mut fs,
            &p(&["test_files", "test_file2.json"]),
            &p(&["test_files", "test_dir2"]),
            Overwrite::All,
        )
        .is_err()
    );
    assert!(
        generate_symlinks(
            &mut fs,
            &p(&["test_files", "test_file2.json"]),
            &p(&["test_files", "test_file1.txt"]),
            Overwrite::All,
        )
        .is_err()
    );
}

#[test]
fn merge_directories_without_overwrite() {
    let mut fs = prepare_test_directory();

    assert!(
        generate_symlinks(
            &mut fs,
            &p(&["test_files", "test_dir1"]),
            &p(&["test_files", "test_dir2"]),
            Overwrite::Never,
        )
        .is_ok()
    );
    assert!(is_symlink(&fs, &["test_files", "test_dir2", "lorem.txt"]));
    assert!(!is_symlink(&fs, &["test_files", "test_dir2", "ipsum.php"]));
    assert!(!is_symlink(&fs, &["test_files", "test_dir2", "keep"]));
    assert!(!is_symlink(&fs, &["test_files", "test_dir2", "keep", ".keep"]));
    assert!(is_symlink(&fs, &["test_files", "test_dir2", "keep", "haha.yml"]));
    assert!(!is_symlink(&fs, &["test_files", "test_dir2", "keep", "do_not_overwrite.txt"]));
    assert!(!is_symlink(&fs, &["test_files", "test_dir2", "nested"]));
    assert!(!is_symlink(&fs, &["test_files", "test_dir2", "nested", "dolor.cpp"]));
    assert!(is_symlink(&fs, &["test_files", "test_dir2", "nested", "lorem"]));
}

#[test]
fn merge_directories_with_files_overwrite() {
    let mut fs = prepare_test_directory();

    assert!(
        generate_symlinks(
            &mut fs,
            &p(&["test_files", "test_dir1"]),
            &p(&["test_files", "test_dir2"]),
            Overwrite::Files,
        )
        .is_ok()
    );
    assert!(is_symlink(&fs, &["test_files", "test_dir2", "lorem.txt"]));
    assert!(is_symlink(&fs, &["test_files", "test_dir2", "ipsum.php"]));
    assert!(!is_symlink(&fs, &["test_files", "test_dir2", "keep"]));
    assert!(!is_symlink(&fs, &["test_files", "test_dir2", "keep", ".keep"]));
    assert!(is_symlink(&fs, &["test_files", "test_dir2", "keep", "haha.yml"]));
    assert!(!is_symlink(&fs, &["test_files", "test_dir2", "keep", "do_not_overwrite.txt"]));
    assert!(!is_symlink(&fs, &["test_files", "test_dir2", "nested"]));
    assert!(is_symlink(&fs, &["test_files", "test_dir2", "nested", "dolor.cpp"]));
    assert!(is_symlink(&fs, &["test_files", "test_dir2", "nested", "lorem"]));
}

#[test]
fn merge_directories_with_directories_overwrite() {
    let mut fs = prepare_test_directory();

    assert!(
        generate_symlinks(
            &mut fs,
            &p(&["test_files", "test_dir1"]),
            &p(&["test_files", "test_dir2"]),
            Overwrite::Dirs,
        )
        .is_ok()
    );
    assert!(is_symlink(&fs, &["test_files", "test_dir2", "lorem.txt"]));
    assert!(!is_symlink(&fs, &["test_files", "test_dir2", "ipsum.php"]));
    assert!(!is_symlink(&fs, &["test_files", "test_dir2", "keep"]));
    assert!(!is_symlink(&fs, &["test_files", "test_dir2", "keep", ".keep"]));
    assert!(is_symlink(&fs, &["test_files", "test_dir2", "keep", "haha.yml"]));
    assert!(!is_symlink(&fs, &["test_files", "test_dir2", "keep", "do_not_overwrite.txt"]));
    assert!(is_symlink(&fs, &["test_files", "test_dir2", "nested"]));
    assert!(!is_symlink(&fs, &["test_files", "test_dir2", "nested", "dolor.cpp"]));
    assert!(!is_symlink(&fs, &["test_files", "test_dir2", "nested", "lorem"]));
}

#[test]
fn merge_directories_with_all_overwrite() {
    let mut fs = prepare_test_directory();

    assert!(
        generate_symlinks(
            &mut fs,
            &p(&["test_files", "test_dir1"]),
            &p(&["test_files", "test_dir2"]),
            Overwrite::All,
        )
        .is_ok()
    );
    assert!(is_symlink(&fs, &["test_files", "test_dir2", "lorem.txt"]));
    assert!(is_symlink(&fs, &["test_files", "test_dir2", "ipsum.php"]));
    assert!(!is_symlink(&fs, &["test_files", "test_dir2", "keep"]));
    assert!(!is_symlink(&fs, &["test_files", "test_dir2", "keep", ".keep"]));
    assert!(is_symlink(&fs, &["test_files", "test_dir2", "keep", "haha.yml"]));
    assert!(!is_symlink(&fs, &["test_files", "test_dir2", "keep", "do_not_overwrite.txt"]));
    assert!(is_symlink(&fs, &["test_files", "test_dir2", "nested"]));
    assert!(!is_symlink(&fs, &["test_files", "test_dir2", "nested", "dolor.cpp"]));
    assert!(!is_symlink(&fs, &["test_files", "test_dir2", "nested", "lorem"]));
}

fn probe(fs: &Fs) -> Vec<(bool, Option<Kind>)> {
    let paths: [&[&str]; 9] = [
        &["test_files", "test_dir2", "lorem.txt"],
        &["test_files", "test_dir2", "ipsum.php"],
        &["test_files", "test_dir2", "index.html"],
        &["test_files", "test_dir2", "keep"],
        &["test_files", "test_dir2", "keep", ".keep"],
        &["test_files", "test_dir2", "keep", "haha.yml"],
        &["test_files", "test_dir2", "keep", "do_not_overwrite.txt"],
        &["test_files", "test_dir2", "nested"],
        &["test_files", "test_dir2", "nested", "dolor.cpp"],
    ];
    paths.iter().map(|parts| (is_symlink(fs, parts), fs.lookup_kind(&p(parts)))).collect()
}

fn probe_eq(a: &[(bool, Option<Kind>)], b: &[(bool, Option<Kind>)]) -> bool {
    if a.len() != b.len() {
        return false;
    }
    for i in 0..a.len() {
        if a[i].0 != b[i].0 {
            return false;
        }
        let same = match (&a[i].1, &b[i].1) {
            (None, None) => true,
            (Some(Kind::File), Some(Kind::File)) => true,
            (Some(Kind::Dir), Some(Kind::Dir)) => true,
            (Some(Kind::Symlink(x)), Some(Kind::Symlink(y))) => x == y,
            _ => false,
        };
        if !same {
            return false;
        }
    }
    true
}

#[test]
fn second_run_is_idempotent_all() {
    let mut fs = prepare_test_directory();
    let src = p(&["test_files", "test_dir1"]);
    let tgt = p(&["test_files", "test_dir2"]);
    assert!(generate_symlinks(&mut fs, &src, &tgt, Overwrite::All).is_ok());
    let once = probe(&fs);
    assert!(generate_symlinks(&mut fs, &src, &tgt, Overwrite::All).is_ok());
    let twice = probe(&fs);
    assert!(probe_eq(&once, &twice));
}

#[test]
fn second_run_is_idempotent_never() {
    let mut fs = prepare_test_directory();
    let src = p(&["test_files", "test_dir1"]);
    let tgt = p(&["test_files", "test_dir2"]);
    assert!(generate_symlinks(&mut fs, &src, &tgt, Overwrite::Never).is_ok());
    let once = probe(&fs);
    assert!(generate_symlinks(&mut fs, &src, &tgt, Overwrite::Never).is_ok());
    let twice = probe(&fs);
    assert!(probe_eq(&once, &twice));
}

#[test]
fn never_removes_nothing() {
    let mut fs = prepare_test_directory();
    let acts = generate_symlinks(
        &mut fs,
        &p(&["test_files", "test_dir1"]),
        &p(&["test_files", "test_dir2"]),
        Overwrite::Never,
    )
    .unwrap();
    for a in &acts {
        assert!(matches!(a, Action::Link { .. }));
    }
}

#[test]
fn dirs_removes_only_directories() {
    let mut fs = prepare_test_directory();
    let acts = generate_symlinks(
        &mut fs,
        &p(&["test_files", "test_dir1"]),
        &p(&["test_files", "test_dir2"]),
        Overwrite::Dirs,
    )
    .unwrap();
    let mut removed_dirs = 0;
    for a in &acts {
        if let Action::Remove { kind, .. } = a {
            assert!(matches!(kind, Kind::Dir));
            removed_dirs += 1;
        }
    }
    assert_eq!(removed_dirs, 1);
}

#[test]
fn files_removes_no_directory() {
    let mut fs = prepare_test_directory();
    let acts = generate_symlinks(
        &mut fs,
        &p(&["test_files", "test_dir1"]),
        &p(&["test_files", "test_dir2"]),
        Overwrite::Files,
    )
    .unwrap();
    for a in &acts {
        if let Action::Remove { kind, .. } = a {
            assert!(!matches!(kind, Kind::Dir));
        }
    }
}

#[test]
fn listing_error_when_protected_dir_mirrors_a_file() {
    let mut fs = Fs::new();
    fs.insert(p(&["src"]), Kind::Dir);
    fs.insert(p(&["src", "x"]), Kind::File);
    fs.insert(p(&["tgt"]), Kind::Dir);
    fs.insert(p(&["tgt", "x"]), Kind::Dir);
    fs.insert(p(&["tgt", "x", ".keep"]), Kind::File);
    let r = generate_symlinks(&mut fs, &p(&["src"]), &p(&["tgt"]), Overwrite::All);
    assert!(matches!(r, Err(MergeError::Listing(_))));
}

#[test]
fn strip_prefix_error_when_symlink_escapes_source() {
    let mut fs = Fs::new();
    fs.insert(p(&["elsewhere"]), Kind::Dir);
    fs.insert(p(&["elsewhere", "a.txt"]), Kind::File);
    fs.insert(p(&["src"]), Kind::Dir);
    fs.insert(p(&["src", "sub"]), Kind::Symlink(p(&["elsewhere"])));
    fs.insert(p(&["tgt"]), Kind::Dir);
    fs.insert(p(&["tgt", "sub"]), Kind::Dir);
    fs.insert(p(&["tgt", "sub", ".keep"]), Kind::File);
    let r = generate_symlinks(&mut fs, &p(&["src"]), &p(&["tgt"]), Overwrite::All);
    assert!(matches!(r, Err(MergeError::StripPrefix(_))));
}

#[test]
fn link_error_when_parent_is_a_file() {
    let mut fs = Fs::new();
    fs.insert(p(&["src"]), Kind::Dir);
    fs.insert(p(&["src", "sub"]), Kind::Dir);
    fs.insert(p(&["src", "sub", "c.txt"]), Kind::File);
    fs.insert(p(&["tgt"]), Kind::Dir);
    fs.insert(p(&["tgt", "sub"]), Kind::File);
    let r = generate_symlinks(&mut fs, &p(&["src"]), &p(&["tgt"]), Overwrite::Never);
    assert!(matches!(r, Err(MergeError::Link(_))));
}

#[test]
fn keep_files_marker_protects_only_files() {
    let mut fs = Fs::new();
    fs.insert(p(&["src"]), Kind::Dir);
    fs.insert(p(&["src", "a.txt"]), Kind::File);
    fs.insert(p(&["tgt"]), Kind::Dir);
    fs.insert(p(&["tgt", ".keep_files"]), Kind::File);
    fs.insert(p(&["tgt", "a.txt"]), Kind::File);
    let mut fs2 = Fs::new();
    fs2.insert(p(&["src"]), Kind::Dir);
    fs2.insert(p(&["src", "a"]), Kind::Dir);
    fs2.insert(p(&["tgt"]), Kind::Dir);
    fs2.insert(p(&["tgt", ".keep_files"]), Kind::File);
    fs2.insert(p(&["tgt", "a"]), Kind::Dir);

    assert!(generate_symlinks(&mut fs, &p(&["src"]), &p(&["tgt"]), Overwrite::All).is_ok());
    assert!(!is_symlink(&fs, &["tgt", "a.txt"]));

    assert!(generate_symlinks(&mut fs2, &p(&["src"]), &p(&["tgt"]), Overwrite::All).is_ok());
    assert!(is_symlink(&fs2, &["tgt", "a"]));
}

#[test]
fn keep_dirs_marker_protects_only_directories() {
    let mut fs = Fs::new();
    fs.insert(p(&["src"]), Kind::Dir);
    fs.insert(p(&["src", "a.txt"]), Kind::File);
    fs.insert(p(&["src", "d"]), Kind::Dir);
    fs.insert(p(&["tgt"]), Kind::Dir);
    fs.insert(p(&["tgt", ".keep_dirs"]), Kind::File);
    fs.insert(p(&["tgt", "a.txt"]), Kind::File);
    fs.insert(p(&["tgt", "d"]), Kind::Dir);

    assert!(generate_symlinks(&mut fs, &p(&["src"]), &p(&["tgt"]), Overwrite::All).is_ok());
    assert!(is_symlink(&fs, &["tgt", "a.txt"]));
    assert!(!is_symlink(&fs, &["tgt", "d"]));
}

#[test]
fn all_links_every_source_child_without_markers() {
    let mut fs = Fs::new();
    fs.insert(p(&["src"]), Kind::Dir);
    fs.insert(p(&["src", "a.txt"]), Kind::File);
    fs.insert(p(&["src", "d"]), Kind::Dir);
    fs.insert(p(&["src", "d", "inner.txt"]), Kind::File);
    fs.insert(p(&["src", "empty"]), Kind::Dir);
    fs.insert(p(&["tgt"]), Kind::Dir);
    fs.insert(p(&["tgt", "a.txt"]), Kind::File);
    fs.insert(p(&["tgt", "d"]), Kind::Dir);
    fs.insert(p(&["tgt", "d", "other.txt"]), Kind::File);

    assert!(generate_symlinks(&mut fs, &p(&["src"]), &p(&["tgt"]), Overwrite::All).is_ok());
    assert!(is_symlink(&fs, &["tgt", "a.txt"]));
    assert!(is_symlink(&fs, &["tgt", "d"]));
    assert!(is_symlink(&fs, &["tgt", "empty"]));
    assert!(fs.lookup_kind(&p(&["tgt", "d", "other.txt"])).is_none());
    match fs.lookup_kind(&p(&["tgt", "d"])) {
        Some(Kind::Symlink(t)) => assert_eq!(t, p(&["src", "d"])),
        _ => panic!("expected a symlink"),
    }
}
