use trantor::journal::{conflict_note, conflicted, listed_files, owner_check, owner_of, recovered_note, restore_action, tmp_name, unlisted_note, Restore};

#[test]
fn journal_a_rollback_restores_bytes_and_absence() {
    assert_eq!(restore_action(false, true, Some(b"after"), b"before", None), Restore::Write);
    assert_eq!(restore_action(true, true, Some(b"created"), b"", None), Restore::Remove);
    assert_eq!(restore_action(true, false, None, b"", None), Restore::Keep);
    assert_eq!(restore_action(false, false, None, b"before", None), Restore::Write);
}

#[test]
fn an_edit_interrupted_after_it_wrote_is_undone() {
    assert_eq!(restore_action(false, true, Some(b"after"), b"before", Some(b"after")), Restore::Write);
    assert_eq!(restore_action(true, true, Some(b"pinned"), b"", Some(b"pinned")), Restore::Remove);
}

#[test]
fn a_file_changed_after_the_crash_is_kept() {
    assert_eq!(
        restore_action(false, true, Some(b"after, then my hand edit"), b"before", Some(b"after")),
        Restore::Conflict
    );
    assert_eq!(restore_action(false, false, None, b"before", Some(b"after")), Restore::Conflict);
    assert_eq!(restore_action(true, true, Some(b"mine"), b"", Some(b"pinned")), Restore::Conflict);
    // Changed back by hand to what it was: nothing to restore.
    assert_eq!(restore_action(false, true, Some(b"before"), b"before", Some(b"after")), Restore::Keep);
    let files = vec!["world.toml".to_string(), "trantor.lock".to_string()];
    let kept = conflicted(&files, &vec![Restore::Conflict, Restore::Write]);
    assert_eq!(kept, vec!["world.toml"]);
    assert_eq!(
        conflict_note("/p", &kept),
        "an interrupted `trantor add`/`update`/`remove` in /p was not undone: world.toml changed after it wrote them, \
         so nothing was restored. The previous files are in .trantor-edit; restore what you want from there, then delete it"
    );
    assert!(conflicted(&files, &vec![Restore::Keep, Restore::Write]).is_empty());
}

#[test]
fn a_journal_without_its_file_list_is_kept() {
    assert_eq!(
        unlisted_note("/p"),
        "an interrupted `trantor add`/`update`/`remove` in /p left .trantor-edit without a list of its files, \
         so it was kept as it is; restore what you want from there, then delete it"
    );
}

#[test]
fn a_restore_that_changes_nothing_does_not_need_write_permission() {
    assert_eq!(restore_action(false, true, Some(b"same"), b"same", None), Restore::Keep);
    assert_eq!(restore_action(false, true, Some(b"same"), b"same", Some(b"other")), Restore::Keep);
}

#[test]
fn a_live_editor_is_not_rolled_back_under_it() {
    assert_eq!(owner_of(" 1\n"), Some(1));
    assert_eq!(owner_of("x"), None);
    assert_eq!(
        owner_check(Some(1), 42, true, "/p").unwrap_err(),
        "another trantor (pid 1) is editing /p — wait for it to finish"
    );
    assert!(owner_check(Some(1), 42, false, "/p").is_ok());
    assert!(owner_check(Some(42), 42, true, "/p").is_ok());
    assert!(owner_check(None, 42, true, "/p").is_ok());
}

#[test]
fn an_interrupted_edit_names_what_it_restored() {
    let files = listed_files("package.toml\n\ntrantor.lock\n");
    assert_eq!(files, vec!["package.toml", "trantor.lock"]);
    assert_eq!(
        recovered_note("/p", &files),
        "an interrupted `trantor add`/`update`/`remove` in /p was undone: package.toml and trantor.lock restored"
    );
    assert_eq!(tmp_name("world.toml", 12), ".world.toml.trantor-tmp-12");
}
