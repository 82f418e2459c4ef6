use factorio_export::acquire::check_credentials;
use factorio_export::acquire::get_download_url;
use factorio_export::acquire::get_os_download_url;
use factorio_export::acquire::os_download_target;
use factorio_export::acquire::plan_acquisition;
use factorio_export::acquire::AcquirePlan;
use factorio_export::acquire::CredentialError;
use factorio_export::fingerprint::fingerprint_matches;
use factorio_export::fingerprint::fingerprint_of;
use factorio_export::fingerprint::Fingerprint;
use factorio_export::fingerprint::FingerprintStore;
use factorio_export::pool::plan_item;
use factorio_export::pool::record_item;
use factorio_export::pool::run_pool;
use factorio_export::pool::ItemReport;
use factorio_export::pool::ItemStep;
use factorio_export::pool::WorkItem;

fn fp(len: u64, mtime: u64) -> Fingerprint {
    Fingerprint { len, mtime }
}

#[test]
fn fingerprint_equality_is_exact() {
    assert!(fingerprint_matches(&fp(100, 1000), &fp(100, 1000)));
    assert!(!fingerprint_matches(&fp(100, 1000), &fp(100, 1001)));
    assert!(!fingerprint_matches(&fp(100, 1000), &fp(101, 1000)));
}

#[test]
fn fingerprint_of_defaults_missing_mtime_to_zero() {
    let a = fingerprint_of(7, Some(99));
    assert_eq!(a.len, 7);
    assert_eq!(a.mtime, 99);
    let b = fingerprint_of(7, None);
    assert_eq!(b.len, 7);
    assert_eq!(b.mtime, 0);
}

#[test]
fn store_insert_and_lookup() {
    let mut store = FingerprintStore::new();
    assert_eq!(store.len(), 0);
    store.insert(b"a.png".to_vec(), fp(1, 2));
    store.insert(b"b.png".to_vec(), fp(3, 4));
    assert_eq!(store.len(), 2);
    assert_eq!(store.lookup(b"a.png"), Some(fp(1, 2)));
    assert_eq!(store.lookup(b"b.png"), Some(fp(3, 4)));
    assert_eq!(store.lookup(b"c.png"), None);
    store.insert(b"a.png".to_vec(), fp(9, 9));
    assert_eq!(store.len(), 2);
    assert_eq!(store.lookup(b"a.png"), Some(fp(9, 9)));
}

#[test]
fn store_from_entries_later_entry_wins() {
    let store = FingerprintStore::from_entries(vec![
        (b"x".to_vec(), fp(1, 1)),
        (b"y".to_vec(), fp(2, 2)),
        (b"x".to_vec(), fp(5, 5)),
    ]);
    assert_eq!(store.len(), 2);
    assert_eq!(store.lookup(b"x"), Some(fp(5, 5)));
    assert_eq!(store.lookup(b"y"), Some(fp(2, 2)));
}

#[test]
fn store_export_entries_round_trip() {
    let mut store = FingerprintStore::new();
    store.insert(b"p".to_vec(), fp(10, 20));
    let entries = store.export_entries().clone();
    let again = FingerprintStore::from_entries(entries);
    assert_eq!(again.lookup(b"p"), Some(fp(10, 20)));
    assert_eq!(again.len(), 1);
}

#[test]
fn plan_item_cache_hit_skips_transcoder() {
    let step = plan_item(Some(fp(100, 1000)), Some(fp(100, 1000)));
    assert_eq!(step, ItemStep::CacheHit);
}

#[test]
fn plan_item_mismatch_transcodes() {
    assert_eq!(plan_item(Some(fp(100, 1000)), Some(fp(100, 1001))), ItemStep::Transcode);
    assert_eq!(plan_item(Some(fp(100, 1000)), Some(fp(101, 1000))), ItemStep::Transcode);
    assert_eq!(plan_item(None, Some(fp(1, 1))), ItemStep::Transcode);
}

#[test]
fn plan_item_unreadable_input() {
    assert_eq!(plan_item(Some(fp(1, 1)), None), ItemStep::Unreadable);
    assert_eq!(plan_item(None, None), ItemStep::Unreadable);
}

#[test]
fn record_item_success_records_current() {
    let mut fresh = FingerprintStore::new();
    record_item(
        &mut fresh,
        b"a".to_vec(),
        None,
        ItemReport { current: Some(fp(5, 6)), transcode_ok: true },
    );
    assert_eq!(fresh.lookup(b"a"), Some(fp(5, 6)));
}

#[test]
fn record_item_failure_leaves_identity_absent() {
    let mut fresh = FingerprintStore::new();
    record_item(
        &mut fresh,
        b"a".to_vec(),
        None,
        ItemReport { current: Some(fp(5, 6)), transcode_ok: false },
    );
    assert_eq!(fresh.lookup(b"a"), None);
    record_item(
        &mut fresh,
        b"b".to_vec(),
        Some(fp(1, 1)),
        ItemReport { current: None, transcode_ok: true },
    );
    assert_eq!(fresh.lookup(b"b"), None);
    assert_eq!(fresh.len(), 0);
}

#[test]
fn record_item_cache_hit_ignores_transcoder_flag() {
    let mut fresh = FingerprintStore::new();
    record_item(
        &mut fresh,
        b"a".to_vec(),
        Some(fp(5, 6)),
        ItemReport { current: Some(fp(5, 6)), transcode_ok: false },
    );
    assert_eq!(fresh.lookup(b"a"), Some(fp(5, 6)));
}

fn items_named(names: &[&[u8]]) -> Vec<WorkItem> {
    names
        .iter()
        .map(|n| WorkItem { input: n.to_vec(), output: n.to_vec() })
        .collect()
}

#[test]
fn run_pool_processes_every_item_exactly_once() {
    let old_store = FingerprintStore::new();
    let items = items_named(&[b"a", b"b", b"c", b"d", b"e"]);
    let reports: Vec<ItemReport> = (0..5)
        .map(|i| ItemReport { current: Some(fp(i as u64, 10 + i as u64)), transcode_ok: true })
        .collect();
    let fresh = run_pool(&old_store, items, &reports);
    assert_eq!(fresh.len(), 5);
    assert_eq!(fresh.lookup(b"a"), Some(fp(0, 10)));
    assert_eq!(fresh.lookup(b"e"), Some(fp(4, 14)));
}

#[test]
fn run_pool_carries_cache_hits_and_omits_failures() {
    let mut old_store = FingerprintStore::new();
    old_store.insert(b"hit".to_vec(), fp(100, 1000));
    let items = items_named(&[b"hit", b"fail", b"new"]);
    let reports = vec![
        // unchanged since the prior run: carried over even though the
        // transcoder flag would report failure if it were consulted
        ItemReport { current: Some(fp(100, 1000)), transcode_ok: false },
        // changed, and the transcoder failed: omitted, retried next run
        ItemReport { current: Some(fp(2, 2)), transcode_ok: false },
        // new, transcoded successfully
        ItemReport { current: Some(fp(3, 3)), transcode_ok: true },
    ];
    let fresh = run_pool(&old_store, items, &reports);
    assert_eq!(fresh.len(), 2);
    assert_eq!(fresh.lookup(b"hit"), Some(fp(100, 1000)));
    assert_eq!(fresh.lookup(b"fail"), None);
    assert_eq!(fresh.lookup(b"new"), Some(fp(3, 3)));
}

#[test]
fn run_pool_result_is_order_independent() {
    let mut old_store = FingerprintStore::new();
    old_store.insert(b"b".to_vec(), fp(2, 2));
    let names: Vec<&[u8]> = vec![b"a", b"b", b"c"];
    let reports = vec![
        ItemReport { current: Some(fp(1, 1)), transcode_ok: true },
        ItemReport { current: Some(fp(2, 2)), transcode_ok: false },
        ItemReport { current: Some(fp(3, 3)), transcode_ok: false },
    ];
    let forward = run_pool(&old_store, items_named(&names), &reports);
    let mut rev_names = names.clone();
    rev_names.reverse();
    let mut rev_reports = reports.clone();
    rev_reports.reverse();
    let backward = run_pool(&old_store, items_named(&rev_names), &rev_reports);
    for key in [b"a".as_slice(), b"b", b"c"] {
        assert_eq!(forward.lookup(key), backward.lookup(key));
    }
    assert_eq!(forward.len(), backward.len());
    assert_eq!(forward.len(), 2);
    assert_eq!(forward.lookup(b"c"), None);
}

#[test]
fn run_pool_unreadable_input_is_omitted() {
    let old_store = FingerprintStore::new();
    let items = items_named(&[b"gone"]);
    let reports = vec![ItemReport { current: None, transcode_ok: true }];
    let fresh = run_pool(&old_store, items, &reports);
    assert_eq!(fresh.len(), 0);
}

#[test]
fn run_pool_with_no_items_yields_an_empty_store() {
    let old_store = FingerprintStore::new();
    let fresh = run_pool(&old_store, Vec::new(), &Vec::new());
    assert_eq!(fresh.len(), 0);
}

#[test]
fn acquisition_is_noop_when_version_matches() {
    let manifest = b"{\"version\":\"1.0.0\",\"name\":\"base\"}".to_vec();
    let plan = plan_acquisition(Some(&manifest), b"1.0.0");
    assert_eq!(plan, AcquirePlan::UseExisting);
}

#[test]
fn acquisition_redownloads_on_version_mismatch() {
    let manifest = b"{\"version\":\"1.0.0\"}".to_vec();
    assert_eq!(plan_acquisition(Some(&manifest), b"1.0.1"), AcquirePlan::Redownload);
}

#[test]
fn acquisition_redownloads_without_manifest() {
    assert_eq!(plan_acquisition(None, b"1.0.0"), AcquirePlan::Redownload);
}

#[test]
fn acquisition_redownloads_on_malformed_manifest() {
    let not_json = b"not json at all".to_vec();
    assert_eq!(plan_acquisition(Some(&not_json), b"1.0.0"), AcquirePlan::Redownload);
    let wrong_type = b"{\"version\":7}".to_vec();
    assert_eq!(plan_acquisition(Some(&wrong_type), b"7"), AcquirePlan::Redownload);
    let no_field = b"{\"name\":\"base\"}".to_vec();
    assert_eq!(plan_acquisition(Some(&no_field), b"1.0.0"), AcquirePlan::Redownload);
}

#[test]
fn credentials_must_both_be_present() {
    let ok = check_credentials(Some("user".to_string()), Some("tok".to_string())).unwrap();
    assert_eq!(ok.username, "user");
    assert_eq!(ok.token, "tok");
    let e1 = check_credentials(None, Some("tok".to_string())).unwrap_err();
    assert_eq!(e1, CredentialError::MissingUsername);
    assert_eq!(e1.message(), "FACTORIO_USERNAME env variable is missing");
    let e2 = check_credentials(Some("user".to_string()), None).unwrap_err();
    assert_eq!(e2, CredentialError::MissingToken);
    assert_eq!(e2.message(), "FACTORIO_TOKEN env variable is missing");
    let e3 = check_credentials(None, None).unwrap_err();
    assert_eq!(e3, CredentialError::MissingUsername);
}

#[test]
fn download_url_is_assembled_exactly() {
    let url = get_download_url("alpha", "0.18.24", "user", "tok");
    assert_eq!(
        url,
        "https://www.factorio.com/get-download/0.18.24/alpha/linux64?username=user&token=tok"
    );
}

#[test]
fn os_download_url_is_assembled_exactly() {
    let url = get_os_download_url("2.0.68", "linux64", "user", "tok");
    assert_eq!(
        url,
        "https://www.factorio.com/get-download/2.0.68/alpha/linux64?username=user&token=tok"
    );
}

#[test]
fn os_download_target_selection() {
    assert_eq!(os_download_target(b"linux"), Some(b"linux64".to_vec()));
    assert_eq!(os_download_target(b"windows"), Some(b"win64-manual".to_vec()));
    assert_eq!(os_download_target(b"macos"), None);
}
