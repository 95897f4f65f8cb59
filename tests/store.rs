use hustsync_db::adapter::{engine_message, key_served_by, KvDBAdapter};
use hustsync_db::codec::{decode_mirror, decode_worker, encode_mirror, encode_worker};
use hustsync_db::error::AdapterError;
use hustsync_db::factory::{db_type_of_trimmed, parse_db_type, DbType};
use hustsync_db::kv::{KvAdapter, MemKv};
use hustsync_db::msg::{MirrorStatus, SyncStatus, Timestamp, WorkerStatus};

fn ts(secs: i64) -> Timestamp {
    Timestamp { secs, nanos: 0 }
}

fn worker(id: &str, url: &str, token: &str, t: Timestamp) -> WorkerStatus {
    WorkerStatus {
        id: id.to_string(),
        url: url.to_string(),
        token: token.to_string(),
        last_online: t,
        last_register: t,
    }
}

fn mirror(name: &str, worker: &str, status: SyncStatus) -> MirrorStatus {
    MirrorStatus {
        name: name.to_string(),
        worker: worker.to_string(),
        upstream: format!("rsync://upstream/{}", name),
        size: "1G".to_string(),
        error_msg: String::new(),
        last_update: ts(100),
        last_started: ts(90),
        last_ended: ts(100),
        next_scheduled: Timestamp { secs: 200, nanos: 5 },
        status,
        is_master: true,
    }
}

fn store() -> KvDBAdapter<MemKv> {
    let mut a = KvDBAdapter::new(MemKv::new());
    a.init().unwrap();
    a
}

#[test]
fn init_twice_keeps_contents() {
    let mut a = store();
    a.create_worker(worker("w1", "http://a", "t", ts(1))).unwrap();
    a.init().unwrap();
    assert_eq!(a.get_worker("w1").unwrap().url, "http://a");
}

#[test]
fn create_then_get_round_trip() {
    let mut a = store();
    let w = WorkerStatus {
        id: "wörker-1".to_string(),
        url: "http://a:6000".to_string(),
        token: "SECRET-REDACTED".to_string(),
        last_online: Timestamp { secs: -5, nanos: 999_999_999 },
        last_register: Timestamp { secs: 253_402_300_799, nanos: 0 },
    };
    let back = a.create_worker(w.clone()).unwrap();
    assert_eq!(back, w);
    assert_eq!(a.get_worker("wörker-1").unwrap(), w);
}

#[test]
fn get_unknown_worker_is_not_found() {
    let a = store();
    match a.get_worker("nobody") {
        Err(AdapterError::NotFound(k)) => assert_eq!(k, "nobody"),
        other => panic!("unexpected {:?}", other),
    }
}

#[test]
fn delete_unknown_worker_is_not_found() {
    let mut a = store();
    assert!(matches!(a.delete_worker("w9"), Err(AdapterError::NotFound(_))));
}

#[test]
fn create_delete_then_get_is_not_found() {
    let mut a = store();
    a.create_worker(worker("w1", "http://a", "t", ts(1))).unwrap();
    a.delete_worker("w1").unwrap();
    assert!(matches!(a.get_worker("w1"), Err(AdapterError::NotFound(_))));
    assert!(matches!(a.delete_worker("w1"), Err(AdapterError::NotFound(_))));
}

#[test]
fn refresh_worker_at_sets_only_last_online() {
    let mut a = store();
    let t0 = ts(1_000);
    let t1 = ts(2_000);
    a.create_worker(worker("w1", "http://a", "t", t0)).unwrap();
    let r = a.refresh_worker_at("w1", t1).unwrap();
    assert_eq!(r.last_online, t1);
    let g = a.get_worker("w1").unwrap();
    assert_eq!(g.id, "w1");
    assert_eq!(g.url, "http://a");
    assert_eq!(g.token, "t");
    assert_eq!(g.last_online, t1);
    assert_eq!(g.last_register, t0);
}

#[test]
fn refresh_unknown_worker_is_not_found() {
    let mut a = store();
    match a.refresh_worker_at("w1", ts(5)) {
        Err(AdapterError::NotFound(k)) => assert_eq!(k, "w1"),
        other => panic!("unexpected {:?}", other),
    }
    assert!(a.list_workers().unwrap().is_empty());
}

#[test]
fn refresh_with_bad_time_is_encode_error() {
    let mut a = store();
    a.create_worker(worker("w1", "http://a", "t", ts(1))).unwrap();
    let bad = Timestamp { secs: 2, nanos: 2_000_000_000 };
    assert!(matches!(a.refresh_worker_at("w1", bad), Err(AdapterError::EncodeError(_))));
    assert_eq!(a.get_worker("w1").unwrap().last_online, ts(1));
}

#[test]
fn leap_second_nanos_round_trip() {
    let mut a = store();
    let t = Timestamp { secs: 59, nanos: 1_500_000_000 };
    a.create_worker(worker("w1", "http://a", "t", t)).unwrap();
    assert_eq!(a.get_worker("w1").unwrap().last_online, t);
}

#[test]
fn create_with_bad_time_is_encode_error() {
    let mut a = store();
    let w = worker("w1", "http://a", "t", Timestamp { secs: 0, nanos: u32::MAX });
    match a.create_worker(w) {
        Err(AdapterError::EncodeError(k)) => assert_eq!(k, "w1"),
        other => panic!("unexpected {:?}", other),
    }
    assert!(matches!(a.get_worker("w1"), Err(AdapterError::NotFound(_))));
}

#[test]
fn list_workers_returns_each_once() {
    let mut a = store();
    assert!(a.list_workers().unwrap().is_empty());
    a.create_worker(worker("w1", "http://a", "t", ts(1))).unwrap();
    a.create_worker(worker("w2", "http://b", "u", ts(2))).unwrap();
    a.create_worker(worker("w1", "http://c", "t", ts(3))).unwrap();
    let mut ids: Vec<(String, String)> =
        a.list_workers().unwrap().into_iter().map(|w| (w.id, w.url)).collect();
    ids.sort();
    assert_eq!(
        ids,
        vec![
            ("w1".to_string(), "http://c".to_string()),
            ("w2".to_string(), "http://b".to_string())
        ]
    );
}

#[test]
fn list_workers_fails_on_corrupt_record() {
    let mut a = store();
    a.create_worker(worker("w1", "http://a", "t", ts(1))).unwrap();
    a.inner.put("workers", "bad", &[1, 2, 3]).unwrap();
    match a.list_workers() {
        Err(AdapterError::DecodeError(k)) => assert_eq!(k, "bad"),
        other => panic!("unexpected {:?}", other),
    }
    assert!(matches!(a.get_worker("bad"), Err(AdapterError::DecodeError(_))));
}

#[test]
fn update_then_get_mirror_status() {
    let mut a = store();
    let m = mirror("ubuntu", "w1", SyncStatus::Syncing);
    assert_eq!(a.update_mirror_status("w1", "ubuntu", m.clone()).unwrap(), m);
    assert_eq!(a.get_mirror_status("w1", "ubuntu").unwrap(), m);
}

#[test]
fn update_overwrites_whole_record() {
    let mut a = store();
    let mut first = mirror("ubuntu", "w1", SyncStatus::Syncing);
    first.error_msg = "timeout".to_string();
    first.size = "3G".to_string();
    a.update_mirror_status("w1", "ubuntu", first).unwrap();
    let second = mirror("ubuntu", "w1", SyncStatus::Success);
    a.update_mirror_status("w1", "ubuntu", second.clone()).unwrap();
    let got = a.get_mirror_status("w1", "ubuntu").unwrap();
    assert_eq!(got, second);
    assert_eq!(got.status, SyncStatus::Success);
    assert_eq!(got.error_msg, "");
    assert_eq!(got.size, "1G");
}

#[test]
fn get_missing_mirror_status_names_both_ids() {
    let a = store();
    match a.get_mirror_status("w1", "debian") {
        Err(AdapterError::NotFound(msg)) => assert_eq!(msg, "debian/w1"),
        other => panic!("unexpected {:?}", other),
    }
}

#[test]
fn list_all_and_per_worker() {
    let mut a = store();
    let m1 = mirror("ubuntu", "w1", SyncStatus::Success);
    let m2 = mirror("ubuntu", "w2", SyncStatus::Failed);
    a.update_mirror_status("w1", "ubuntu", m1.clone()).unwrap();
    a.update_mirror_status("w2", "ubuntu", m2.clone()).unwrap();
    let all = a.list_all_mirror_status().unwrap();
    assert_eq!(all.len(), 2);
    assert!(all.contains(&m1));
    assert!(all.contains(&m2));
    assert_eq!(a.list_mirror_status("w1").unwrap(), vec![m1]);
    assert_eq!(a.list_mirror_status("w2").unwrap(), vec![m2]);
    assert!(a.list_mirror_status("w3").unwrap().is_empty());
}

#[test]
fn list_mirror_status_mixed_workers() {
    let mut a = store();
    let names = ["arch", "debian", "fedora", "pypi"];
    for (i, n) in names.iter().enumerate() {
        let w = if i % 2 == 0 { "w1" } else { "w2" };
        a.update_mirror_status(w, n, mirror(n, w, SyncStatus::Success)).unwrap();
    }
    let mut got: Vec<String> =
        a.list_mirror_status("w1").unwrap().into_iter().map(|m| m.name).collect();
    got.sort();
    assert_eq!(got, vec!["arch".to_string(), "fedora".to_string()]);
    for m in a.list_mirror_status("w2").unwrap() {
        assert_eq!(m.worker, "w2");
    }
}

#[test]
fn list_mirror_status_skips_keys_without_slash() {
    let mut a = store();
    let bytes = encode_mirror(&mirror("solo", "w1", SyncStatus::Success)).unwrap();
    a.inner.put("mirror_status", "solo", &bytes).unwrap();
    a.inner.put("mirror_status", "junk", &[9]).unwrap();
    assert!(a.list_mirror_status("w1").unwrap().is_empty());
    assert!(matches!(a.list_all_mirror_status(), Err(AdapterError::DecodeError(_))));
}

#[test]
fn flush_removes_disabled_and_nameless() {
    let mut a = store();
    a.update_mirror_status("w1", "ubuntu", mirror("ubuntu", "w1", SyncStatus::Success)).unwrap();
    a.update_mirror_status("w1", "debian", mirror("debian", "w1", SyncStatus::Disabled)).unwrap();
    a.update_mirror_status("w2", "arch", mirror("", "w2", SyncStatus::Syncing)).unwrap();
    a.update_mirror_status("w2", "pypi", mirror("pypi", "w2", SyncStatus::Paused)).unwrap();
    a.flush_disabled_jobs().unwrap();
    let mut left: Vec<String> =
        a.list_all_mirror_status().unwrap().into_iter().map(|m| m.name).collect();
    left.sort();
    assert_eq!(left, vec!["pypi".to_string(), "ubuntu".to_string()]);
    assert!(matches!(a.get_mirror_status("w1", "debian"), Err(AdapterError::NotFound(_))));
    assert!(matches!(a.get_mirror_status("w2", "arch"), Err(AdapterError::NotFound(_))));
    assert_eq!(a.get_mirror_status("w2", "pypi").unwrap().status, SyncStatus::Paused);
}

#[test]
fn flush_stops_on_corrupt_record() {
    let mut a = store();
    a.inner.put("mirror_status", "x/w1", &[0xff]).unwrap();
    assert!(matches!(a.flush_disabled_jobs(), Err(AdapterError::DecodeError(_))));
}

#[test]
fn close_succeeds() {
    let mut a = store();
    assert!(a.close().is_ok());
}

#[test]
fn key_second_segment() {
    assert!(key_served_by("ubuntu/w1", "w1"));
    assert!(!key_served_by("ubuntu/w1", "w2"));
    assert!(!key_served_by("ubuntu", "ubuntu"));
    assert!(key_served_by("a/w1/extra", "w1"));
    assert!(key_served_by("a/", ""));
    assert!(!key_served_by("ubuntu/w10", "w1"));
}

#[test]
fn worker_codec_round_trip_and_rejects() {
    let w = worker("w1", "http://a", "t", Timestamp { secs: -1, nanos: 7 });
    let b = encode_worker(&w).unwrap();
    assert_eq!(
        String::from_utf8(b.clone()).unwrap(),
        "{\"id\":\"w1\",\"url\":\"http://a\",\"token\":\"t\",\"last_online\":\"1969-12-31T23:59:59.000000007Z\",\"last_register\":\"1969-12-31T23:59:59.000000007Z\"}"
    );
    assert_eq!(decode_worker(&b), Some(w));
    assert_eq!(decode_worker(&b[..b.len() - 1]), None);
    let mut longer = b.clone();
    longer.push(b' ');
    assert_eq!(decode_worker(&longer), None);
    assert_eq!(decode_worker(&[]), None);
    let mut bad_end = b.clone();
    let n = bad_end.len();
    bad_end[n - 1] = 0xff;
    assert_eq!(decode_worker(&bad_end), None);
}

#[test]
fn strings_are_escaped() {
    let w = worker("a\"b\\c\nd\u{1}é", "u", "t", ts(0));
    let b = encode_worker(&w).unwrap();
    let text = String::from_utf8(b.clone()).unwrap();
    assert!(text.starts_with("{\"id\":\"a\\\"b\\\\c\\nd\\u0001é\","));
    assert_eq!(decode_worker(&b), Some(w));
}

#[test]
fn reads_compact_json_with_fraction_and_escapes() {
    let text = "{\"id\":\"w\\t1\",\"url\":\"http://a\",\"token\":\"t\",\"last_online\":\"2024-01-01T00:05:00.5Z\",\"last_register\":\"2024-01-01T00:00:00Z\"}";
    let w = decode_worker(text.as_bytes()).unwrap();
    assert_eq!(w.id, "w\t1");
    assert_eq!(w.last_online, Timestamp { secs: 1_704_067_500, nanos: 500_000_000 });
    assert_eq!(w.last_register, ts(1_704_067_200));
    let spaced = text.replace(",", ", ");
    assert_eq!(decode_worker(spaced.as_bytes()), None);
}

#[test]
fn time_outside_four_digit_years_is_encode_error() {
    let mut a = store();
    let w = worker("w1", "u", "t", ts(253_402_300_800));
    assert!(matches!(a.create_worker(w), Err(AdapterError::EncodeError(_))));
}

#[test]
fn mirror_codec_round_trip_and_rejects() {
    for s in [
        SyncStatus::Failed,
        SyncStatus::Success,
        SyncStatus::Syncing,
        SyncStatus::PreSyncing,
        SyncStatus::Paused,
        SyncStatus::Disabled,
    ] {
        let m = mirror("ubuntu", "w1", s);
        let b = encode_mirror(&m).unwrap();
        assert_eq!(decode_mirror(&b), Some(m));
        let mut bad = b.clone();
        let n = bad.len();
        assert!(String::from_utf8(b.clone()).unwrap().contains("\"is-master\":true}"));
        bad[n - 2] = 17;
        assert_eq!(decode_mirror(&bad), None);
        let mut bad_flag = b.clone();
        bad_flag[n - 1] = 2;
        assert_eq!(decode_mirror(&bad_flag), None);
    }
}

#[test]
fn db_type_selector() {
    assert_eq!(parse_db_type("redb").unwrap(), DbType::Redb);
    assert_eq!(parse_db_type("  ReDB\n").unwrap(), DbType::Redb);
    match parse_db_type("badger") {
        Err(AdapterError::UnsupportedDbType(s)) => assert_eq!(s, "badger"),
        other => panic!("unexpected {:?}", other),
    }
    assert!(parse_db_type("re db").is_err());
    assert_eq!(db_type_of_trimmed("REDB"), Some(DbType::Redb));
    assert_eq!(db_type_of_trimmed(" redb"), None);
}

#[test]
fn engine_message_keeps_text() {
    assert_eq!(engine_message(AdapterError::EngineError("disk".to_string())), "disk");
    assert_eq!(engine_message(AdapterError::NotFound("w1".to_string())), "w1");
    assert_eq!(
        engine_message(AdapterError::CreateBucketError("b".to_string(), "io".to_string())),
        "io"
    );
}

#[test]
fn mem_kv_get_put_delete() {
    let mut kv = MemKv::new();
    kv.init_bucket("b").unwrap();
    assert_eq!(kv.get("b", "k").unwrap(), None);
    kv.put("b", "k", &[1, 2]).unwrap();
    assert_eq!(kv.get("b", "k").unwrap(), Some(vec![1, 2]));
    kv.put("b", "k", &[3]).unwrap();
    assert_eq!(kv.get_all("b").unwrap(), vec![("k".to_string(), vec![3])]);
    kv.delete("b", "k").unwrap();
    kv.delete("b", "k").unwrap();
    assert!(kv.get_all("b").unwrap().is_empty());
}
