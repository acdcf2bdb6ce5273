use trantor::new_marker::{changed_error, dir_line, file_line, marker_entries, unchanged};

#[test]
fn a_marker_records_each_file_once_with_its_last_hash_and_each_directory() {
    let l1 = file_line("world.toml", b"[world]");
    let l2 = file_line("Cargo.toml", b"[workspace]");
    let l3 = file_line("world.toml", b"[world] 2");
    let text = format!("{}{}{}{}garbage\n", dir_line("/p/x"), l1, l2, l3);
    let (files, dirs) = marker_entries(&text);
    assert_eq!(dirs, vec!["/p/x"]);
    assert_eq!(files.len(), 2);
    assert_eq!(files[0].0, "Cargo.toml");
    assert_eq!(files[1].0, "world.toml");
    assert!(unchanged(b"[world] 2", &files[1].1));
    assert!(!unchanged(b"[world]", &files[1].1));
}

#[test]
fn the_hash_is_fnv1a_as_sixteen_hex_digits() {
    assert_eq!(file_line("a", b""), "file\ta\tcbf29ce484222325\n");
    assert_eq!(file_line("a", b"a"), "file\ta\taf63dc4c8601ec8c\n");
    assert_eq!(dir_line("/p/target"), "dir\t/p/target\n");
}

#[test]
fn changed_files_are_named_and_kept() {
    assert_eq!(
        changed_error("/p", &vec!["Cargo.toml".into(), "x".into()], "/p/.trantor-new"),
        "an interrupted `trantor new` in /p wrote Cargo.toml, x, which changed since, so they were kept. \
         Delete them to start over, or delete /p/.trantor-new to keep the project as it is"
    );
}
