use logins::db::LoginDb;
use logins::error::{InvalidLogin, LoginsError};
use logins::login::{Login, Payload, SyncStatus};

fn record(id: &str, hostname: &str, username: &str, password: &str) -> Login {
    Login {
        id: id.to_string(),
        hostname: hostname.to_string(),
        http_realm: Some("realm".to_string()),
        form_submit_url: None,
        username: username.to_string(),
        password: password.to_string(),
        username_field: String::new(),
        password_field: String::new(),
        time_created: 0,
        time_last_used: 0,
        time_password_changed: 0,
        times_used: 0,
    }
}

fn form_record(id: &str, hostname: &str, form: &str, username: &str, password: &str) -> Login {
    let mut l = record(id, hostname, username, password);
    l.http_realm = None;
    l.form_submit_url = Some(form.to_string());
    l
}

#[test]
fn fresh_add_has_one_new_row_and_one_outgoing_record() {
    let mut db = LoginDb::new();
    let l = form_record("aaaaaaaaaaaa", "https://ex.com", "https://ex.com/", "a", "p");
    let stored = db.add_at(l, 1000).unwrap();
    assert_eq!(stored.time_created, 1000);
    assert_eq!(stored.times_used, 1);
    let all = db.get_all().unwrap();
    assert_eq!(all.len(), 1);
    assert_eq!(all[0].username, "a");
    let row = db.overlay_row("aaaaaaaaaaaa").unwrap();
    assert_eq!(row.sync_status, SyncStatus::New);
    assert!(!row.is_deleted);
    let out = db.fetch_outgoing(1000).unwrap();
    assert_eq!(out.collection, "passwords");
    assert_eq!(out.changes.len(), 1);
    match &out.changes[0] {
        Payload::Record(r) => assert_eq!(r.id, "aaaaaaaaaaaa"),
        Payload::Tombstone(_) => panic!("expected a record, not a tombstone"),
    }
}

#[test]
fn add_generates_a_twelve_character_guid() {
    let mut db = LoginDb::new();
    let l = record("", "https://ex.com", "u", "p");
    let stored = db.add(l).unwrap();
    assert_eq!(stored.id.chars().count(), 12);
    assert!(stored.time_created >= 0);
    assert!(db.record_exists(&stored.id).unwrap());
}

#[test]
fn add_then_get_by_id_round_trips_content() {
    let mut db = LoginDb::new();
    db.add_at(record("g1g1g1g1g1g1", "https://ex.com", "u", "p"), 50).unwrap();
    let got = db.get_by_id("g1g1g1g1g1g1").unwrap().unwrap();
    assert_eq!(got.hostname, "https://ex.com");
    assert_eq!(got.username, "u");
    assert_eq!(got.password, "p");
    assert_eq!(got.time_created, 50);
    assert_eq!(got.time_last_used, 50);
    assert_eq!(got.time_password_changed, 50);
    assert_eq!(got.times_used, 1);
}

#[test]
fn add_delete_exists_delete_again() {
    let mut db = LoginDb::new();
    db.add_at(record("g1g1g1g1g1g1", "https://ex.com", "u", "p"), 50).unwrap();
    assert!(db.delete_at("g1g1g1g1g1g1", 60).unwrap());
    assert!(!db.record_exists("g1g1g1g1g1g1").unwrap());
    assert!(!db.delete_at("g1g1g1g1g1g1", 70).unwrap());
    assert!(db.get_by_id("g1g1g1g1g1g1").unwrap().is_none());
}

#[test]
fn update_after_add_keeps_row_new_and_mirror_free() {
    let mut db = LoginDb::new();
    db.add_at(record("g1g1g1g1g1g1", "https://ex.com", "u", "p"), 50).unwrap();
    let l2 = record("g1g1g1g1g1g1", "https://ex.com", "u2", "p");
    db.update_at(l2, 60).unwrap();
    let row = db.overlay_row("g1g1g1g1g1g1").unwrap();
    assert_eq!(row.sync_status, SyncStatus::New);
    assert_eq!(row.login.username, "u2");
    assert!(db.mirror_row("g1g1g1g1g1g1").is_none());
}

#[test]
fn update_moves_password_change_time_only_with_the_password() {
    let mut db = LoginDb::new();
    db.add_at(record("g1g1g1g1g1g1", "https://ex.com", "u", "p"), 50).unwrap();
    db.update_at(record("g1g1g1g1g1g1", "https://ex.com", "u2", "p"), 80).unwrap();
    let got = db.get_by_id("g1g1g1g1g1g1").unwrap().unwrap();
    assert_eq!(got.time_password_changed, 50);
    assert_eq!(got.time_last_used, 80);
    db.update_at(record("g1g1g1g1g1g1", "https://ex.com", "u2", "q"), 90).unwrap();
    let got = db.get_by_id("g1g1g1g1g1g1").unwrap().unwrap();
    assert_eq!(got.time_password_changed, 90);
    assert_eq!(got.times_used, 3);
}

#[test]
fn touch_bumps_usage_without_dirtying_the_row() {
    let mut db = LoginDb::new();
    db.add_at(record("g1g1g1g1g1g1", "https://ex.com", "u", "p"), 50).unwrap();
    let inbound = logins::db::IncomingChangeset {
        changes: vec![(Payload::Record(record("m1m1m1m1m1m1", "https://m.com", "mu", "mp")), 100)],
        timestamp: 100,
    };
    db.apply_incoming(inbound).unwrap();
    db.touch_at("m1m1m1m1m1m1", 200).unwrap();
    let row = db.overlay_row("m1m1m1m1m1m1").unwrap();
    assert_eq!(row.sync_status, SyncStatus::Synced);
    assert_eq!(row.login.times_used, 1);
    assert_eq!(row.login.time_last_used, 200);
    assert!(db.mirror_row("m1m1m1m1m1m1").unwrap().is_overridden);
    let out = db.fetch_outgoing(200).unwrap();
    assert_eq!(out.changes.len(), 1);
}

#[test]
fn invalid_records_are_rejected_with_the_right_reason() {
    let mut db = LoginDb::new();
    let bad_host = record("g1g1g1g1g1g1", "not a url", "u", "p");
    match db.add_at(bad_host, 1) {
        Err(LoginsError::InvalidLogin(InvalidLogin::BadHostname)) => {}
        other => panic!("expected a bad-hostname error, got {:?}", other.map(|l| l.id)),
    }
    let empty_pw = record("g1g1g1g1g1g1", "https://ex.com", "u", "");
    match db.add_at(empty_pw, 1) {
        Err(LoginsError::InvalidLogin(InvalidLogin::EmptyPassword)) => {}
        other => panic!("expected an empty-password error, got {:?}", other.map(|l| l.id)),
    }
    let mut both = record("g1g1g1g1g1g1", "https://ex.com", "u", "p");
    both.form_submit_url = Some("https://ex.com/".to_string());
    match db.add_at(both, 1) {
        Err(LoginsError::InvalidLogin(InvalidLogin::BothTargets)) => {}
        other => panic!("expected a both-targets error, got {:?}", other.map(|l| l.id)),
    }
    let mut neither = record("g1g1g1g1g1g1", "https://ex.com", "u", "p");
    neither.http_realm = None;
    match db.add_at(neither, 1) {
        Err(LoginsError::InvalidLogin(InvalidLogin::NeitherTarget)) => {}
        other => panic!("expected a neither-target error, got {:?}", other.map(|l| l.id)),
    }
}

#[test]
fn duplicate_guid_on_add_is_an_error() {
    let mut db = LoginDb::new();
    db.add_at(record("g1g1g1g1g1g1", "https://ex.com", "u", "p"), 1).unwrap();
    match db.add_at(record("g1g1g1g1g1g1", "https://ex.com", "v", "q"), 2) {
        Err(LoginsError::DuplicateGuid(g)) => assert_eq!(g, "g1g1g1g1g1g1"),
        other => panic!("expected a duplicate-guid error, got {:?}", other.map(|l| l.id)),
    }
    let all = db.get_all().unwrap();
    assert_eq!(all.len(), 1);
    assert_eq!(all[0].username, "u");
}

#[test]
fn update_of_an_unknown_guid_is_an_error() {
    let mut db = LoginDb::new();
    match db.update_at(record("nope00000000", "https://ex.com", "u", "p"), 1) {
        Err(LoginsError::NoSuchRecord(g)) => assert_eq!(g, "nope00000000"),
        other => panic!("expected a no-such-record error, got {:?}", other),
    }
}

#[test]
fn duplicate_guids_in_a_batch_abort_apply_incoming() {
    let mut db = LoginDb::new();
    let inbound = logins::db::IncomingChangeset {
        changes: vec![
            (Payload::Record(record("m1m1m1m1m1m1", "https://m.com", "a", "p")), 100),
            (Payload::Tombstone("m1m1m1m1m1m1".to_string()), 100),
        ],
        timestamp: 100,
    };
    match db.apply_incoming(inbound) {
        Err(LoginsError::DuplicateGuid(g)) => assert_eq!(g, "m1m1m1m1m1m1"),
        other => panic!("expected a duplicate-guid error, got {:?}", other.map(|o| o.changes.len())),
    }
    assert_eq!(db.get_all().unwrap().len(), 0);
}

#[test]
fn three_way_merge_username_local_password_remote() {
    let mut db = LoginDb::new();
    // Mirror: {u:"a", p:"p1", t_pw:100}
    let mut base = record("m1m1m1m1m1m1", "https://ex.com", "a", "p1");
    base.time_password_changed = 100;
    let inbound = logins::db::IncomingChangeset {
        changes: vec![(Payload::Record(base), 100)],
        timestamp: 100,
    };
    db.apply_incoming(inbound).unwrap();
    // Local edit at 200: u -> "a2", password unchanged.
    db.update_at(record("m1m1m1m1m1m1", "https://ex.com", "a2", "p1"), 200).unwrap();
    // Inbound at 300: p -> "p2", t_pw 300.
    let mut remote = record("m1m1m1m1m1m1", "https://ex.com", "a", "p2");
    remote.time_password_changed = 300;
    let inbound = logins::db::IncomingChangeset {
        changes: vec![(Payload::Record(remote), 300)],
        timestamp: 300,
    };
    let out = db.apply_incoming(inbound).unwrap();
    let got = db.get_by_id("m1m1m1m1m1m1").unwrap().unwrap();
    assert_eq!(got.username, "a2");
    assert_eq!(got.password, "p2");
    assert_eq!(got.time_password_changed, 300);
    // The plan wrote a merged overlay (still to upload), not a bare mirror
    // forward: the merged record is in the outgoing set and the mirror holds
    // the server's copy, shadowed.
    assert_eq!(out.changes.len(), 1);
    match &out.changes[0] {
        Payload::Record(r) => {
            assert_eq!(r.username, "a2");
            assert_eq!(r.password, "p2");
        }
        Payload::Tombstone(_) => panic!("expected the merged record"),
    }
    let m = db.mirror_row("m1m1m1m1m1m1").unwrap();
    assert!(m.is_overridden);
    assert_eq!(m.login.username, "a");
    assert_eq!(m.login.password, "p2");
}

#[test]
fn remote_only_delete_removes_both_rows() {
    let mut db = LoginDb::new();
    let inbound = logins::db::IncomingChangeset {
        changes: vec![(Payload::Record(record("m1m1m1m1m1m1", "https://m.com", "a", "p")), 100)],
        timestamp: 100,
    };
    db.apply_incoming(inbound).unwrap();
    assert!(db.get_by_id("m1m1m1m1m1m1").unwrap().is_some());
    let inbound = logins::db::IncomingChangeset {
        changes: vec![(Payload::Tombstone("m1m1m1m1m1m1".to_string()), 200)],
        timestamp: 200,
    };
    db.apply_incoming(inbound).unwrap();
    assert!(db.get_by_id("m1m1m1m1m1m1").unwrap().is_none());
    assert!(db.overlay_row("m1m1m1m1m1m1").is_none());
    assert!(db.mirror_row("m1m1m1m1m1m1").is_none());
}

#[test]
fn tombstone_beats_any_local_state() {
    let mut db = LoginDb::new();
    db.add_at(record("g1g1g1g1g1g1", "https://ex.com", "u", "p"), 50).unwrap();
    let inbound = logins::db::IncomingChangeset {
        changes: vec![(Payload::Tombstone("g1g1g1g1g1g1".to_string()), 100)],
        timestamp: 100,
    };
    db.apply_incoming(inbound).unwrap();
    assert!(db.get_by_id("g1g1g1g1g1g1").unwrap().is_none());
    assert!(db.overlay_row("g1g1g1g1g1g1").is_none());
    assert!(db.mirror_row("g1g1g1g1g1g1").is_none());
}

#[test]
fn dupe_detection_merges_instead_of_inserting() {
    let mut db = LoginDb::new();
    // Local overlay, sync status New, form-submit variant of the same origin,
    // modified locally at 3000.
    let local = form_record("aaaaaaaaaaaa", "https://x", "https://x/login", "u", "p");
    db.add_at(local, 3000).unwrap();
    // Inbound record under a different GUID with matching host, null realm,
    // matching username, and a form URL whose host appears in the local one;
    // its upstream time 2000 is older than the local edit, so the local
    // content wins the two-way merge.
    let remote = form_record("bbbbbbbbbbbb", "https://x", "https://x/login?foo", "u", "p2");
    let inbound = logins::db::IncomingChangeset {
        changes: vec![(Payload::Record(remote), 2000)],
        timestamp: 2000,
    };
    let out = db.apply_incoming(inbound).unwrap();
    // A two-way merge, not a fresh mirror insert: the overlay moved under the
    // incoming GUID with the winning local content, the old GUID is gone, and
    // the server's copy sits shadowed in the mirror.
    assert!(db.overlay_row("aaaaaaaaaaaa").is_none());
    let row = db.overlay_row("bbbbbbbbbbbb").unwrap();
    assert_eq!(row.login.password, "p");
    assert_eq!(row.sync_status, SyncStatus::Changed);
    assert!(db.mirror_row("bbbbbbbbbbbb").unwrap().is_overridden);
    assert_eq!(out.changes.len(), 1);
    match &out.changes[0] {
        Payload::Record(r) => assert_eq!(r.id, "bbbbbbbbbbbb"),
        Payload::Tombstone(_) => panic!("expected the merged record"),
    }
}

#[test]
fn dupe_with_non_matching_form_url_is_a_fresh_insert() {
    let mut db = LoginDb::new();
    // An empty stored form URL does not match: the rule wants the incoming
    // host-port inside the candidate's form URL.
    let local = form_record("aaaaaaaaaaaa", "https://x", "", "u", "p");
    db.add_at(local, 3000).unwrap();
    let remote = form_record("bbbbbbbbbbbb", "https://x", "https://x/login?foo", "u", "p2");
    let inbound = logins::db::IncomingChangeset {
        changes: vec![(Payload::Record(remote), 2000)],
        timestamp: 2000,
    };
    db.apply_incoming(inbound).unwrap();
    // No merge: the local row stays New under its own GUID and the incoming
    // record lands as an unshadowed mirror row.
    let row = db.overlay_row("aaaaaaaaaaaa").unwrap();
    assert_eq!(row.sync_status, SyncStatus::New);
    assert!(db.overlay_row("bbbbbbbbbbbb").is_none());
    assert!(!db.mirror_row("bbbbbbbbbbbb").unwrap().is_overridden);
}

#[test]
fn sync_finished_promotes_overlay_into_mirror() {
    let mut db = LoginDb::new();
    let inbound = logins::db::IncomingChangeset {
        changes: vec![(Payload::Record(record("m1m1m1m1m1m1", "https://m.com", "a", "p1")), 100)],
        timestamp: 100,
    };
    db.apply_incoming(inbound).unwrap();
    db.update_at(record("m1m1m1m1m1m1", "https://m.com", "a", "p2"), 200).unwrap();
    db.sync_finished(500, &["m1m1m1m1m1m1".to_string()]).unwrap();
    let m = db.mirror_row("m1m1m1m1m1m1").unwrap();
    assert_eq!(m.server_modified, 500);
    assert!(!m.is_overridden);
    assert_eq!(m.login.password, "p2");
    assert!(db.overlay_row("m1m1m1m1m1m1").is_none());
    assert_eq!(db.get_last_sync().unwrap(), Some(500));
}

#[test]
fn wipe_keeps_sync_lineage() {
    let mut db = LoginDb::new();
    db.add_at(record("g1g1g1g1g1g1", "https://ex.com", "u", "p"), 100).unwrap();
    db.sync_finished(200, &["g1g1g1g1g1g1".to_string()]).unwrap();
    db.wipe_at(300).unwrap();
    let out = db.fetch_outgoing(200).unwrap();
    assert_eq!(out.changes.len(), 1);
    match &out.changes[0] {
        Payload::Tombstone(id) => assert_eq!(id, "g1g1g1g1g1g1"),
        Payload::Record(_) => panic!("expected a tombstone"),
    }
    // The tombstone is freshly modified with its password-change time equal
    // to the modification time, and keeps the creation time.
    let stone = db.overlay_row("g1g1g1g1g1g1").unwrap();
    assert!(stone.is_deleted);
    assert_eq!(stone.local_modified, 300);
    assert_eq!(stone.login.time_password_changed, 300);
    assert_eq!(stone.login.time_created, 100);
    // The mirror row is still there as lineage, shadowed.
    assert!(db.mirror_row("g1g1g1g1g1g1").unwrap().is_overridden);
    assert!(db.get_by_id("g1g1g1g1g1g1").unwrap().is_none());
}

#[test]
fn delete_of_a_synced_record_leaves_a_fresh_tombstone() {
    let mut db = LoginDb::new();
    let mut base = record("m1m1m1m1m1m1", "https://m.com", "a", "p");
    base.time_created = 40;
    base.time_password_changed = 77;
    let inbound = logins::db::IncomingChangeset {
        changes: vec![(Payload::Record(base), 100)],
        timestamp: 100,
    };
    db.apply_incoming(inbound).unwrap();
    db.touch_at("m1m1m1m1m1m1", 150).unwrap();  // forces an overlay row
    assert!(db.delete_at("m1m1m1m1m1m1", 999).unwrap());
    let stone = db.overlay_row("m1m1m1m1m1m1").unwrap();
    assert!(stone.is_deleted);
    assert_eq!(stone.sync_status, SyncStatus::Changed);
    assert_eq!(stone.login.hostname, "");
    assert_eq!(stone.login.username, "");
    assert_eq!(stone.login.password, "");
    assert_eq!(stone.local_modified, 999);
    assert_eq!(stone.login.time_password_changed, 999);
    assert_eq!(stone.login.time_created, 40);
    assert!(db.mirror_row("m1m1m1m1m1m1").unwrap().is_overridden);
}

#[test]
fn round_trip_apply_then_sync_finished_leaves_nothing_outgoing() {
    let mut db = LoginDb::new();
    db.add_at(record("g1g1g1g1g1g1", "https://ex.com", "u", "p"), 50).unwrap();
    let inbound = logins::db::IncomingChangeset {
        changes: vec![(Payload::Record(record("m1m1m1m1m1m1", "https://m.com", "a", "p")), 100)],
        timestamp: 100,
    };
    let out = db.apply_incoming(inbound).unwrap();
    let guids: Vec<String> = out
        .changes
        .iter()
        .map(|p| match p {
            Payload::Record(r) => r.id.clone(),
            Payload::Tombstone(id) => id.clone(),
        })
        .collect();
    db.sync_finished(150, &guids).unwrap();
    let after = db.fetch_outgoing(150).unwrap();
    assert_eq!(after.changes.len(), 0);
    // Both records are still readable.
    assert!(db.get_by_id("g1g1g1g1g1g1").unwrap().is_some());
    assert!(db.get_by_id("m1m1m1m1m1m1").unwrap().is_some());
}

#[test]
fn applying_the_same_changeset_twice_changes_nothing_more() {
    let mut db = LoginDb::new();
    let batch = || logins::db::IncomingChangeset {
        changes: vec![(Payload::Record(record("m1m1m1m1m1m1", "https://m.com", "a", "p")), 100)],
        timestamp: 100,
    };
    db.apply_incoming(batch()).unwrap();
    let all_once = db.get_all().unwrap();
    db.apply_incoming(batch()).unwrap();
    let all_twice = db.get_all().unwrap();
    assert_eq!(all_once.len(), all_twice.len());
    assert_eq!(all_once[0].username, all_twice[0].username);
    let m = db.mirror_row("m1m1m1m1m1m1").unwrap();
    assert_eq!(m.server_modified, 100);
    assert!(!m.is_overridden);
    let out = db.fetch_outgoing(100).unwrap();
    assert_eq!(out.changes.len(), 0);
}

#[test]
fn reset_forgets_the_sync_history() {
    let mut db = LoginDb::new();
    let inbound = logins::db::IncomingChangeset {
        changes: vec![(Payload::Record(record("m1m1m1m1m1m1", "https://m.com", "a", "p")), 100)],
        timestamp: 100,
    };
    db.apply_incoming(inbound).unwrap();
    db.sync_finished(100, &[]).unwrap();
    db.reset().unwrap();
    assert_eq!(db.get_last_sync().unwrap(), Some(0));
    // The mirror is gone; the record lives on as a New overlay and is due
    // for upload again, as if it had never synced.
    assert!(db.mirror_row("m1m1m1m1m1m1").is_none());
    let row = db.overlay_row("m1m1m1m1m1m1").unwrap();
    assert_eq!(row.sync_status, SyncStatus::New);
    let out = db.fetch_outgoing(0).unwrap();
    assert_eq!(out.changes.len(), 1);
}

#[test]
fn get_all_matches_get_by_id() {
    let mut db = LoginDb::new();
    db.add_at(record("g1g1g1g1g1g1", "https://a.com", "u1", "p1"), 10).unwrap();
    let inbound = logins::db::IncomingChangeset {
        changes: vec![(Payload::Record(record("m1m1m1m1m1m1", "https://b.com", "u2", "p2")), 100)],
        timestamp: 100,
    };
    db.apply_incoming(inbound).unwrap();
    let all = db.get_all().unwrap();
    assert_eq!(all.len(), 2);
    let mut ids: Vec<&str> = all.iter().map(|l| l.id.as_str()).collect();
    ids.sort();
    assert_eq!(ids, vec!["g1g1g1g1g1g1", "m1m1m1m1m1m1"]);
    for l in &all {
        let got = db.get_by_id(&l.id).unwrap().unwrap();
        assert_eq!(got.username, l.username);
    }
    assert!(db.get_by_id("zzzzzzzzzzzz").unwrap().is_none());
}

#[test]
fn global_state_round_trips() {
    let mut db = LoginDb::new();
    assert!(db.get_global_state().unwrap().is_none());
    db.set_global_state("opaque blob").unwrap();
    assert_eq!(db.get_global_state().unwrap().as_deref(), Some("opaque blob"));
    db.set_last_sync(12345).unwrap();
    assert_eq!(db.get_last_sync().unwrap(), Some(12345));
}
