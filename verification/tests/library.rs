use tempest::config::{AutoFetch, Config, ConfigError, DurationParseError, HumanDuration, in_duration_range, parse_bool};
use tempest::index::{IndexAction, Timestamp, prepare_action};
use tempest::order::{Order, SortKey, compare_chars, key_less, stable_sort_positions, stable_sort_positions_by};
use tempest::package::{LockedPackage, PackageRef, Version, VersionReq};
use tempest::profile::{LockfileUpdate, lockfile_update, profile_name};
use tempest::report::{LockfileDiff, LogLevel, LogLine, diff_lines, log_lockfile_diff, update_lines};
use tempest::schema::{InstallRules, ThunderstoreSchema};
use tempest::source::Source;
use tempest::store::{PackageStore, ParentStep, RemoveDirOutcome, StoreEntry, parent_step};
use tempest::sync::{install_order, retry_delay};

fn chars(s: &str) -> Vec<char> {
    s.chars().collect()
}

fn key(rank: u128, text: &str) -> SortKey {
    SortKey { rank, text: chars(text), major: 0, minor: 0, patch: 0 }
}

fn pref(id: &str, major: u64, minor: u64, patch: u64) -> PackageRef {
    PackageRef::new(id.to_string(), Version::new(major, minor, patch))
}

fn texts(lines: &[LogLine]) -> Vec<(LogLevel, String)> {
    lines.iter().map(|l| (l.level, l.text.clone())).collect()
}

#[test]
fn text_comparison_is_lexicographic() {
    assert_eq!(compare_chars(&chars("abc"), &chars("abd")), Order::Less);
    assert_eq!(compare_chars(&chars("ab"), &chars("abc")), Order::Less);
    assert_eq!(compare_chars(&chars("b"), &chars("abc")), Order::Greater);
    assert_eq!(compare_chars(&chars("same"), &chars("same")), Order::Equal);
    assert_eq!(compare_chars(&chars("Z"), &chars("a")), Order::Less);
}

#[test]
fn keys_order_by_rank_then_text_then_version() {
    assert!(key_less(&key(0, "z"), &key(1, "a")));
    assert!(key_less(&key(1, "a"), &key(1, "b")));
    let older = SortKey { rank: 0, text: chars("a"), major: 1, minor: 9, patch: 9 };
    let newer = SortKey { rank: 0, text: chars("a"), major: 1, minor: 10, patch: 0 };
    assert!(key_less(&older, &newer));
    assert!(!key_less(&newer, &older));
    assert!(!key_less(&older, &older));
}

#[test]
fn stable_sort_keeps_ties_in_place() {
    let keys = vec![key(0, "b"), key(0, "a"), key(0, "b"), key(0, "a")];
    assert_eq!(stable_sort_positions(&keys), vec![1, 3, 0, 2]);
    assert_eq!(stable_sort_positions_by(&keys, true), vec![0, 2, 1, 3]);
    assert_eq!(stable_sort_positions(&vec![]), Vec::<usize>::new());
}

#[test]
fn stable_sort_is_a_sorted_arrangement() {
    let keys: Vec<SortKey> = ["delta", "alpha", "charlie", "alpha", "bravo"].iter().map(|t| key(0, t)).collect();
    let order = stable_sort_positions(&keys);
    let mut seen = order.clone();
    seen.sort();
    assert_eq!(seen, vec![0, 1, 2, 3, 4]);
    for pair in order.windows(2) {
        assert!(!key_less(&keys[pair[1]], &keys[pair[0]]));
    }
}

#[test]
fn config_sets_auto_fetch() {
    let mut config = Config::default();
    assert!(!config.auto_fetch.enabled);
    assert_eq!(config.auto_fetch.interval.secs(), 86400);

    config.set("auto_fetch.enabled", "true").unwrap();
    assert!(config.auto_fetch.enabled);

    config.set("auto_fetch.interval", "2h").unwrap();
    assert_eq!(config.auto_fetch.interval.secs(), 7200);
    assert!(config.auto_fetch.enabled);
}

#[test]
fn config_rejects_bad_settings() {
    let mut config = Config::default();
    assert!(matches!(config.set("auto_fetch.enabled", "yes"), Err(ConfigError::InvalidBool)));
    assert!(matches!(
        config.set("auto_fetch.interval", "soon"),
        Err(ConfigError::InvalidDuration(DurationParseError::Invalid(_)))
    ));
    assert!(matches!(
        config.set("auto_fetch.interval", "18446744073709551615s 1000ms"),
        Err(ConfigError::InvalidDuration(DurationParseError::OutOfRange))
    ));
    assert!(matches!(config.set("colour", "red"), Err(ConfigError::UnknownProperty(p)) if p == "colour"));
    assert!(!config.auto_fetch.enabled);
    assert_eq!(config.auto_fetch.interval.secs(), 86400);
}

#[test]
fn booleans_parse_strictly() {
    assert_eq!(parse_bool("true"), Some(true));
    assert_eq!(parse_bool("false"), Some(false));
    assert_eq!(parse_bool("True"), None);
}

#[test]
fn only_durations_that_could_overflow_are_refused() {
    assert!(in_duration_range("12h 34m 56s 789ms 123us 456ns"));
    assert_eq!(
        HumanDuration::parse("12h 34m 56s 789ms 123us 456ns").unwrap().secs(),
        12 * 3600 + 34 * 60 + 56
    );
    assert_eq!(HumanDuration::parse("123456789012ms").unwrap().secs(), 123_456_789);
    assert_eq!(HumanDuration::parse("584542046090y").unwrap().secs(), 584_542_046_090 * 31_557_600);
    assert!(!in_duration_range("584542046091y"));
    assert!(matches!(HumanDuration::parse("18446744073709551615s 1000ms"), Err(DurationParseError::OutOfRange)));
    assert!(matches!(HumanDuration::parse("292277024626y 292277024626y"), Err(DurationParseError::OutOfRange)));
    assert!(matches!(HumanDuration::parse("1.5x"), Err(DurationParseError::Invalid(_))));
}

#[test]
fn written_durations_read_back() {
    for (secs, nanos) in [(0, 0), (1, 500_000_000), (86400 + 1800, 0), (31_557_600 * 3 + 17, 42)] {
        let d = HumanDuration::new(secs, nanos);
        let back = HumanDuration::parse(&d.to_string()).unwrap();
        assert_eq!(back, d);
    }
}

#[test]
fn durations_read_and_write_like_humantime() {
    let d = HumanDuration::parse("1day 30min").unwrap();
    assert_eq!(d.secs(), 86400 + 1800);
    assert_eq!(d.subsec_nanos(), 0);
    assert_eq!(HumanDuration::from_secs(86400).to_string(), "1day");
    assert_eq!(HumanDuration::new(1, 500_000_000).to_string(), "1s 500ms");
    assert!(HumanDuration::parse("nonsense").is_err());
    assert!(HumanDuration::from_secs(2).at_least(&HumanDuration::new(1, 999_999_999)));
    assert!(!HumanDuration::new(1, 5).at_least(&HumanDuration::new(1, 6)));
}

fn at(secs: i64) -> Timestamp {
    Timestamp { secs, nanos: 0 }
}

#[test]
fn index_preparation() {
    let disabled = AutoFetch::default();
    let enabled = AutoFetch { enabled: true, interval: HumanDuration::from_secs(3600) };
    let day = 86400;
    assert_eq!(prepare_action(at(1000), None, &disabled), IndexAction::Build);
    assert_eq!(prepare_action(at(10 * day), Some(at(9 * day)), &disabled), IndexAction::Fresh);
    assert_eq!(prepare_action(at(10 * day), Some(at(7 * day)), &disabled), IndexAction::WarnStale);
    assert_eq!(prepare_action(at(10 * day), Some(at(10 * day - 3600)), &enabled), IndexAction::AutoUpdate);
    assert_eq!(prepare_action(at(10 * day), Some(at(10 * day - 60)), &enabled), IndexAction::Fresh);
    let weekly = AutoFetch { enabled: true, interval: HumanDuration::from_secs(7 * day as u64) };
    assert_eq!(prepare_action(at(10 * day), Some(at(6 * day)), &weekly), IndexAction::Keep);
    assert_eq!(prepare_action(at(0), Some(at(100)), &disabled), IndexAction::Fresh);
}

#[test]
fn lockfile_changes_are_reported() {
    let diff = LockfileDiff {
        added: vec![pref("a-new", 1, 0, 0)],
        removed: vec![pref("a-gone", 2, 0, 0)],
        changed: vec![
            (pref("a-up", 1, 0, 0), pref("a-up", 1, 1, 0)),
            (pref("a-down", 2, 0, 0), pref("a-down", 1, 0, 0)),
            (pref("a-same", 1, 0, 0), pref("a-same", 1, 0, 0)),
        ],
    };
    assert!(!diff.is_empty());
    assert_eq!(
        texts(&diff_lines(&diff)),
        vec![
            (LogLevel::Info, "added a-new@1.0.0".to_string()),
            (LogLevel::Info, "removed a-gone".to_string()),
            (LogLevel::Info, "upgraded a-up: 1.0.0 -> 1.1.0".to_string()),
            (LogLevel::Info, "downgraded a-down: 2.0.0 -> 1.0.0".to_string()),
            (LogLevel::Info, "a-same changed".to_string()),
        ]
    );
    assert_eq!(texts(&log_lockfile_diff(&diff))[4], (LogLevel::Info, "downgraded a-same: 1.0.0 -> 1.0.0".to_string()));
    assert_eq!(
        texts(&update_lines(&diff)),
        vec![
            (LogLevel::Info, "there are 3 mod updates available:".to_string()),
            (LogLevel::Info, "   a-up: 1.0.0 -> 1.1.0".to_string()),
            (LogLevel::Info, "   a-down: 2.0.0 -> 1.0.0".to_string()),
            (LogLevel::Info, "a-same changed".to_string()),
            (LogLevel::Info, "run `tempest upgrade` to upgrade".to_string()),
        ]
    );
}

#[test]
fn an_unchanged_lockfile_is_reported_quietly() {
    let diff = LockfileDiff { added: vec![], removed: vec![], changed: vec![] };
    assert!(diff.is_empty());
    assert_eq!(
        texts(&diff_lines(&diff)),
        vec![(LogLevel::Debug, "lockfile satisfies manifest, no changes needed".to_string())]
    );
    assert!(update_lines(&diff).is_empty());
}

#[test]
fn store_paths_group_by_prefix() {
    let store = PackageStore::new("/store".to_string());
    assert_eq!(store.root(), "/store");
    assert_eq!(store.path_of(&pref("BepInEx-BepInExPack", 5, 4, 2100)), "/store/be/BepInEx-BepInExPack/5.4.2100");
    assert_eq!(store.path_of(&pref("X", 1, 0, 0)), "/store/x/X/1.0.0");
    assert!(store.holds_path("/store/be/BepInEx-BepInExPack/5.4.2100"));
    assert!(!store.holds_path("/storefront/x"));
    assert!(!store.holds_path("/elsewhere"));
}

#[test]
fn different_packages_get_different_store_paths() {
    let store = PackageStore::new("/store/".to_string());
    let a = store.path_of(&pref("ab-one", 1, 10, 0));
    let b = store.path_of(&pref("ab-one", 11, 0, 0));
    let c = store.path_of(&pref("AB-one", 1, 10, 0));
    assert_eq!(a, "/store/ab/ab-one/1.10.0");
    assert_ne!(a, b);
    assert_ne!(a, c);
}

#[test]
fn store_finds_unused_entries() {
    assert!(PackageStore::is_unused(&vec![Some(1), Some(0)]));
    assert!(!PackageStore::is_unused(&vec![Some(1), Some(2)]));
    assert!(!PackageStore::is_unused(&vec![None]));
    let entries = vec![
        StoreEntry { path: "/s/a".to_string(), file_links: vec![Some(1)] },
        StoreEntry { path: "/s/b".to_string(), file_links: vec![Some(3)] },
        StoreEntry { path: "/s/c".to_string(), file_links: vec![] },
    ];
    assert_eq!(PackageStore::unused_entries(&entries), vec!["/s/a".to_string(), "/s/c".to_string()]);
}

#[test]
fn store_parent_removal_steps() {
    assert_eq!(parent_step(RemoveDirOutcome::Removed), ParentStep::Continue);
    assert_eq!(parent_step(RemoveDirOutcome::NotEmpty), ParentStep::Stop);
    assert_eq!(parent_step(RemoveDirOutcome::NotFound), ParentStep::Stop);
    assert_eq!(parent_step(RemoveDirOutcome::PermissionDenied), ParentStep::StopWithWarning);
    assert_eq!(parent_step(RemoveDirOutcome::OtherError), ParentStep::Fail);
}

fn sized(id: &str, size: Option<u64>) -> LockedPackage {
    LockedPackage { ref_: pref(id, 1, 0, 0), source: "thunderstore".to_string(), transitive: false, size, deps: vec![] }
}

#[test]
fn installs_go_largest_first() {
    let packages = vec![sized("a-small", Some(10)), sized("a-unknown", None), sized("a-big", Some(500)), sized("b-small", Some(10))];
    assert_eq!(install_order(&packages), vec![2, 3, 0, 1]);
}

#[test]
fn downloads_retry_with_backoff() {
    assert_eq!(retry_delay(0), Some(1));
    assert_eq!(retry_delay(1), Some(2));
    assert_eq!(retry_delay(2), Some(4));
    assert_eq!(retry_delay(3), None);
}

#[test]
fn profile_names_and_lockfile_updates() {
    assert_eq!(profile_name("/home/me/MyProfile"), Some("MyProfile".to_string()));
    assert_eq!(profile_name("MyProfile/"), Some("MyProfile".to_string()));
    assert_eq!(profile_name("/"), None);
    assert_eq!(lockfile_update(false, false), LockfileUpdate::Unchanged);
    assert_eq!(lockfile_update(true, false), LockfileUpdate::Unchanged);
    assert_eq!(lockfile_update(false, true), LockfileUpdate::Replace);
    assert_eq!(lockfile_update(true, true), LockfileUpdate::Refused);
}

#[test]
fn mod_loaders_match_without_ascii_case() {
    let schema = ThunderstoreSchema { modloader_packages: vec!["BepInEx-BepInExPack".to_string()] };
    assert!(schema.is_mod_loader("bepinex-bepinexpack"));
    assert!(!schema.is_mod_loader("BepInEx-BepInExPack2"));
    assert_eq!(schema.rules_for("BEPINEX-BEPINEXPACK"), InstallRules::Loader);
    assert_eq!(schema.rules_for("x753-Mimics"), InstallRules::Package);
}

#[test]
fn source_names_read_back() {
    for source in [Source::Thunderstore, Source::Hexium, Source::Local, Source::Github] {
        assert_eq!(Source::from_name(&source.to_string()), Some(source));
    }
    assert_eq!(Source::Github.to_string(), "github");
    assert_eq!(Source::from_name("GitHub"), None);
}

#[test]
fn versions_and_references_print() {
    assert_eq!(Version::new(1, 20, 3).to_string(), "1.20.3");
    assert_eq!(pref("a-b", 0, 0, 1).to_string(), "a-b@0.0.1");
    assert!(Version::new(1, 2, 3).lt(&Version::new(1, 10, 0)));
    let req = VersionReq::parse(">=1.2").unwrap();
    assert!(req.matches(&Version::new(1, 3, 0)));
    assert!(!req.matches(&Version::new(1, 1, 9)));
    assert!(VersionReq::star().is_star());
    assert!(VersionReq::star().matches(&Version::new(0, 0, 0)));
}
