use elrond::privilege::{next_step, raise_nofile, resolve, step_failed, DropStep};

#[test]
fn resolve_missing_user_errors() {
    let err = resolve("definitely-no-such-user-12345", None, None, None).unwrap_err();
    assert!(err.contains("not found"), "got: {err}");
}

#[test]
fn resolve_missing_group_errors() {
    // Pick a user that definitely exists on every Unix system.
    // We don't care about the result of looking *that* up; we care
    // that the bogus group fails loudly.
    let err = resolve("root", Some("definitely-no-such-group-12345"), Some((0, 0)), None)
        .unwrap_err();
    assert!(err.contains("not found in /etc/group"), "got: {err}");
}

#[test]
fn raise_nofile_clamps_to_hard_cap() {
    // Asking for a ridiculous number must be clamped.
    let (old, new) = raise_nofile(u64::MAX, 1024, 4096);
    assert_eq!((old, new), (1024, 4096));
    assert_eq!(raise_nofile(2048, 1024, 4096), (1024, 2048));
    assert_eq!(raise_nofile(512, 1024, 4096), (1024, 1024));
}

#[test]
fn group_overrides_the_primary_one() {
    let ids = resolve("www", Some("web"), Some((33, 33)), Some(48)).unwrap();
    assert_eq!((ids.uid, ids.gid), (33, 48));
    assert_eq!(ids.user, "www");
    let ids = resolve("www", None, Some((33, 34)), None).unwrap();
    assert_eq!((ids.uid, ids.gid), (33, 34));
}

#[test]
fn nul_in_a_name_is_refused() {
    assert!(resolve("a\0b", None, Some((1, 1)), None).unwrap_err().contains("NUL"));
    assert!(resolve("a", Some("g\0"), Some((1, 1)), Some(1)).unwrap_err().contains("NUL"));
}

#[test]
fn groups_are_dropped_before_the_user() {
    let mut done = None;
    let mut steps = Vec::new();
    while let Some(s) = next_step(done) {
        steps.push(s);
        done = Some(s);
    }
    assert_eq!(steps, vec![DropStep::InitGroups, DropStep::SetGid, DropStep::SetUid]);
    let ids = resolve("www", None, Some((33, 34)), None).unwrap();
    assert_eq!(step_failed(DropStep::InitGroups, &ids, "no"), "initgroups(gid=34): no");
    assert_eq!(step_failed(DropStep::SetGid, &ids, "no"), "setgid(34): no");
    assert_eq!(step_failed(DropStep::SetUid, &ids, "no"), "setuid(33): no");
}
