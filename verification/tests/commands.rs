use tempest::command::add::{AddError, SearchPick, split_once};
use tempest::command::export::ExportError;
use tempest::command::import::ImportError;
use tempest::command::{
    AddCommand, CleanCommand, ExportCommand, FetchCommand, ImportCommand, ImportType, LaunchCommand,
    ListCommand, NewCommand, TreeCommand,
};
use tempest::graph::GraphError;
use tempest::manifest::{ModSpec, Mods, ProfileInfo};
use tempest::package::{Dependency, LockedPackage, Lockfile, MetadataValue, PackageRef, RegistryMetadata, Version, VersionReq};
use tempest::source::Source;

fn package(id: &str, version: (u64, u64, u64), source: &str, transitive: bool, deps: Vec<Dependency>) -> LockedPackage {
    LockedPackage {
        ref_: PackageRef::new(id.to_string(), Version::new(version.0, version.1, version.2)),
        source: source.to_string(),
        transitive,
        size: None,
        deps,
    }
}

fn dep(id: &str) -> Dependency {
    Dependency::new(id.to_string(), VersionReq::star(), "thunderstore".to_string())
}

fn add_command(mods: Vec<&str>, source: Option<Source>, upgrade: bool) -> AddCommand {
    AddCommand { mods: mods.into_iter().map(|m| m.to_string()).collect(), source, upgrade }
}

fn req_text(spec: &ModSpec) -> String {
    match spec {
        ModSpec::Simple(req) => req.as_str().to_string(),
        ModSpec::Full { version: Some(req), .. } => req.as_str().to_string(),
        ModSpec::Full { version: None, .. } => panic!("no version requirement"),
    }
}

fn row(a: &str, b: &str, c: &str, d: &str) -> (String, String, String, String) {
    (a.to_string(), b.to_string(), c.to_string(), d.to_string())
}

#[test]
fn list_rows_are_sorted_by_id() {
    let lockfile = Lockfile::new(vec![
        package("author-zeta", (1, 0, 0), "thunderstore", false, vec![]),
        package("author-alpha", (2, 1, 0), "github", true, vec![]),
        package("author-mid", (0, 3, 10), "local", false, vec![]),
    ]);

    let rows = ListCommand.rows(&lockfile);

    assert_eq!(
        rows,
        vec![
            row("package", "version", "source", "transitive"),
            row("author-alpha", "2.1.0", "github", "x"),
            row("author-mid", "0.3.10", "local", ""),
            row("author-zeta", "1.0.0", "thunderstore", ""),
        ]
    );
}

#[test]
fn list_keeps_lockfile_order_for_equal_ids() {
    let lockfile = Lockfile::new(vec![
        package("b-pkg", (2, 0, 0), "thunderstore", false, vec![]),
        package("a-pkg", (1, 0, 0), "thunderstore", false, vec![]),
        package("b-pkg", (1, 0, 0), "thunderstore", false, vec![]),
    ]);

    let rows = ListCommand.rows(&lockfile);

    assert_eq!(rows[1].0, "a-pkg");
    assert_eq!(rows[2].1, "2.0.0");
    assert_eq!(rows[3].1, "1.0.0");
}

#[test]
fn list_of_an_empty_lockfile_is_the_heading() {
    let rows = ListCommand.rows(&Lockfile::new(vec![]));
    assert_eq!(rows, vec![row("package", "version", "source", "transitive")]);
}

#[test]
fn tree_of_an_empty_lockfile_is_nothing() {
    let command = TreeCommand { packages: vec![], reverse: false };
    assert!(matches!(command.render(&Lockfile::new(vec![])), Ok(None)));
}

#[test]
fn tree_reverse_needs_a_package() {
    let lockfile = Lockfile::new(vec![package("a-one", (1, 0, 0), "thunderstore", false, vec![])]);
    let command = TreeCommand { packages: vec![], reverse: true };
    assert!(matches!(command.render(&lockfile), Err(GraphError::ReverseWithoutTarget)));
}

#[test]
fn tree_renders_whole_and_targeted() {
    let lockfile = Lockfile::new(vec![
        package("a-one", (1, 0, 0), "thunderstore", false, vec![dep("a-two")]),
        package("a-two", (2, 0, 0), "thunderstore", true, vec![]),
    ]);
    let whole = TreeCommand { packages: vec![], reverse: false }.render(&lockfile).unwrap().unwrap();
    assert_eq!(whole, "a-one@1.0.0\n└── a-two@2.0.0\n");

    let reverse = TreeCommand { packages: vec!["two".to_string()], reverse: true }.render(&lockfile).unwrap().unwrap();
    assert_eq!(reverse, "a-two@2.0.0\n└── a-one@1.0.0\n");

    let missing = TreeCommand { packages: vec!["nothing".to_string()], reverse: false }.render(&lockfile);
    assert!(matches!(missing, Err(GraphError::NoMatch(q)) if q == "nothing"));
}

#[test]
fn clean_asks_before_removing() {
    let command = CleanCommand { force: false };
    assert!(command.confirmation(0).is_none());
    let (prompt, default) = command.confirmation(12).unwrap();
    assert_eq!(prompt, "Are you sure you want to remove 12 packages from the store?");
    assert!(default);

    let forced = CleanCommand { force: true };
    let (_, default) = forced.confirmation(1).unwrap();
    assert!(!default);
}

#[test]
fn fetch_prefers_the_given_game() {
    let given = FetchCommand { game: Some("lethal-company".to_string()) };
    assert_eq!(given.game(Some("other".to_string())), Some("lethal-company".to_string()));
    let from_profile = FetchCommand { game: None };
    assert_eq!(from_profile.game(Some("other".to_string())), Some("other".to_string()));
    assert_eq!(from_profile.game(None), None);
}

#[test]
fn new_profile_reports_its_settings() {
    let command = NewCommand { path: "MyProfile".to_string(), game: "lethal-company".to_string(), default_source: None };
    let info = command.profile_info();
    assert_eq!(info.game, "lethal-company");
    assert_eq!(info.default_source, None);
    assert_eq!(command.created_message(), "created new profile at `MyProfile` with game lethal-company");

    let with_source = NewCommand {
        path: "p".to_string(),
        game: "g".to_string(),
        default_source: Some(Source::Github),
    };
    assert_eq!(with_source.profile_info().default_source, Some(Source::Github));
    assert_eq!(with_source.created_message(), "created new profile at `p` with game g and default source github");
}

#[test]
fn launch_messages() {
    assert_eq!(LaunchCommand::launch_message("Lethal Company", "Steam"), "launching Lethal Company with Steam");
    assert_eq!(LaunchCommand::output_line("stdout", "hello"), "[stdout] hello");
    assert!(LaunchCommand { dry_run: false }.starts_game());
    assert!(!LaunchCommand { dry_run: true }.starts_game());
}

#[test]
fn add_needs_mods() {
    assert!(matches!(add_command(vec![], None, false).check(), Err(AddError::NoModsSpecified)));
    assert!(add_command(vec!["x"], None, false).check().is_ok());
}

#[test]
fn add_source_falls_back_to_the_profile() {
    let profile = ProfileInfo::new("game".to_string()).with_default_source(Source::Hexium);
    assert_eq!(add_command(vec!["x"], Some(Source::Local), false).source_for(&profile), Source::Local);
    assert_eq!(add_command(vec!["x"], None, false).source_for(&profile), Source::Hexium);
    assert_eq!(add_command(vec!["x"], None, false).source_for(&ProfileInfo::new("g".to_string())), Source::Thunderstore);
}

#[test]
fn add_parses_version_requirements() {
    let (name, req) = AddCommand::parse_mod_arg("x753-Mimics@=1.2.3").unwrap();
    assert_eq!(name, "x753-Mimics");
    assert_eq!(req.unwrap().as_str(), "=1.2.3");

    let (name, req) = AddCommand::parse_mod_arg("Mimics").unwrap();
    assert_eq!(name, "Mimics");
    assert!(req.is_none());

    match AddCommand::parse_mod_arg("Mimics@not a version") {
        Err(AddError::InvalidVersionReq(text, _)) => assert_eq!(text, "not a version"),
        other => panic!("unexpected {other:?}"),
    }
}

#[test]
fn add_splits_at_the_first_separator() {
    let (head, tail) = split_once("a@b@c", '@');
    assert_eq!(head, "a");
    assert_eq!(tail, Some("b@c".to_string()));
    assert_eq!(split_once("abc", '@'), ("abc".to_string(), None));
}

#[test]
fn add_skips_mods_already_in_the_manifest() {
    let command = add_command(vec!["x"], None, false);
    assert!(command.should_skip(&None, true));
    assert!(command.should_skip(&Some(VersionReq::star()), true));
    assert!(!command.should_skip(&None, false));
    assert!(!command.should_skip(&Some(VersionReq::parse("=1.0.0").unwrap()), true));
    assert!(!add_command(vec!["x"], None, true).should_skip(&None, true));
}

#[test]
fn add_selects_the_newest_version() {
    let versions = vec![Version::new(1, 2, 0), Version::new(1, 10, 0), Version::new(0, 9, 9)];
    let (id, spec) = add_command(vec!["x"], None, false).select_version("a-b".to_string(), None, &versions).unwrap();
    assert_eq!(id, "a-b");
    assert_eq!(req_text(&spec), "^1.10.0");

    let (_, spec) = add_command(vec!["x"], Some(Source::Github), false)
        .select_version("a-b".to_string(), Some(VersionReq::parse("<1.5").unwrap()), &versions)
        .unwrap();
    match spec {
        ModSpec::Full { version: Some(req), source, registry_metadata } => {
            assert_eq!(req.as_str(), "<1.5");
            assert_eq!(source, Some(Source::Github));
            assert!(matches!(registry_metadata, RegistryMetadata::Null));
        }
        _ => panic!("expected a full specification"),
    }
}

#[test]
fn add_rejects_a_range_nothing_meets() {
    let versions = vec![Version::new(1, 0, 0)];
    match add_command(vec!["x"], None, false).select_version("a-b".to_string(), Some(VersionReq::parse(">=2.0.0").unwrap()), &versions) {
        Err(AddError::NoMatchingVersion(id, req)) => {
            assert_eq!(id, "a-b");
            assert_eq!(req, ">=2.0.0");
        }
        other => panic!("unexpected {other:?}"),
    }
}

#[test]
fn add_picks_search_results() {
    assert!(matches!(AddCommand::pick_search_result(vec![], "Mimics"), Err(AddError::NotFound(n)) if n == "Mimics"));
    assert!(matches!(
        AddCommand::pick_search_result(vec!["x753-Mimics".to_string()], "Mimics"),
        Ok(SearchPick::Accept(id)) if id == "x753-Mimics"
    ));
    assert!(matches!(
        AddCommand::pick_search_result(vec!["x753-MimicsPlus".to_string()], "Mimics"),
        Ok(SearchPick::Confirm(id)) if id == "x753-MimicsPlus"
    ));
    let two = vec!["a-Mimics2".to_string(), "b-Mimics3".to_string()];
    assert!(matches!(AddCommand::pick_search_result(two.clone(), "Mimics"), Ok(SearchPick::Select(v)) if v == two));
    let many: Vec<String> = (0..21).map(|i| format!("a-m{i}")).collect();
    assert!(matches!(
        AddCommand::pick_search_result(many, "m"),
        Err(AddError::TooManyResults(n, 21)) if n == "m"
    ));
}

#[test]
fn add_local_mod_records_its_path() {
    let spec = AddCommand::local_spec("../mods/x".to_string(), &Version::new(1, 0, 2)).unwrap();
    match spec {
        ModSpec::Full { version: Some(req), source: None, registry_metadata: RegistryMetadata::Object(entries) } => {
            assert_eq!(req.as_str(), "^1.0.2");
            assert_eq!(entries, vec![("path".to_string(), MetadataValue::Text("../mods/x".to_string()))]);
        }
        _ => panic!("expected a full specification with a path"),
    }
}

#[test]
fn export_target_inside_a_directory() {
    let command = ExportCommand { path: Some("/tmp/out".to_string()) };
    assert_eq!(command.target(true, "MyProfile"), Some("/tmp/out/MyProfile.r2z".to_string()));
    assert_eq!(command.target(false, "MyProfile"), Some("/tmp/out".to_string()));
    assert_eq!(ExportCommand { path: None }.target(true, "MyProfile"), None);
}

#[test]
fn export_keeps_thunderstore_mods() {
    let lockfile = Lockfile::new(vec![
        package("x753-More-Mimics", (1, 2, 3), "thunderstore", false, vec![]),
        package("me-local", (0, 1, 0), "local", false, vec![]),
    ]);
    let selection = ExportCommand::select_mods(&lockfile).unwrap();
    assert_eq!(selection.mods.len(), 1);
    assert_eq!(selection.mods[0].namespace, "x753-More");
    assert_eq!(selection.mods[0].name, "Mimics");
    assert_eq!(selection.mods[0].version, Version::new(1, 2, 3));
    assert_eq!(selection.excluded, vec!["me-local".to_string()]);
}

#[test]
fn export_rejects_an_id_without_namespace() {
    let lockfile = Lockfile::new(vec![package("nonamespace", (1, 0, 0), "thunderstore", false, vec![])]);
    assert!(matches!(ExportCommand::select_mods(&lockfile), Err(ExportError::InvalidIdent(id, _)) if id == "nonamespace"));
}

fn import_command(source: &str, type_: Option<ImportType>) -> ImportCommand {
    ImportCommand { source: source.to_string(), path: None, game: None, merge: false, type_ }
}

#[test]
fn import_guesses_the_kind_of_code() {
    assert_eq!(ImportType::guess("67e55044-10b1-426f-9247-bb680e5fe0c8", false), Some(ImportType::Thunderstore));
    assert_eq!(ImportType::guess("some/file.r2z", true), Some(ImportType::Local));
    assert_eq!(ImportType::guess("AbC123", false), Some(ImportType::Gale));
    assert_eq!(ImportType::guess("not a code!", false), None);
    assert_eq!(import_command("not a code!", None).import_type(false), ImportType::Thunderstore);
    assert_eq!(import_command("AbC123", Some(ImportType::Local)).import_type(false), ImportType::Local);
}

#[test]
fn import_reads_the_thunderstore_code() {
    let command = import_command("67e55044-10b1-426f-9247-bb680e5fe0c8", Some(ImportType::Thunderstore));
    assert_eq!(command.thunderstore_code().unwrap(), 0x67e5504410b1426f9247bb680e5fe0c8);
    let braced = import_command("{67e55044-10b1-426f-9247-bb680e5fe0c8}", None);
    assert_eq!(braced.thunderstore_code().unwrap(), 0x67e5504410b1426f9247bb680e5fe0c8);
    let bad = import_command("AbC123", Some(ImportType::Thunderstore));
    assert!(matches!(bad.thunderstore_code(), Err(ImportError::InvalidCode(code)) if code == "AbC123"));
}

#[test]
fn import_gale_address() {
    assert_eq!(ImportCommand::gale_url("AbC123"), "https://gale.kesomannen.com/api/profile/AbC123");
}

#[test]
fn import_game_and_target() {
    let mut command = import_command("x", None);
    assert_eq!(command.game(Some("named".to_string())), ("named".to_string(), false));
    assert_eq!(command.game(None), ("unknown".to_string(), true));
    assert_eq!(command.target("/work", false, "Imported"), "/work/Imported");
    assert_eq!(command.target("/work", true, "Imported"), "/work");
    command.game = Some("given".to_string());
    command.path = Some("elsewhere".to_string());
    assert_eq!(command.game(Some("named".to_string())), ("given".to_string(), false));
    assert_eq!(command.target("/work", false, "Imported"), "elsewhere");
}

#[test]
fn import_keeps_the_last_listing_of_each_mod() {
    let items = vec![
        ("b-two".to_string(), Version::new(1, 0, 0)),
        ("a-one".to_string(), Version::new(2, 0, 0)),
        ("b-two".to_string(), Version::new(3, 0, 0)),
    ];
    let mods = ImportCommand::import_mods(&items).unwrap();
    assert_eq!(mods.len(), 2);
    assert_eq!(mods[0].0, "a-one");
    assert_eq!(req_text(&mods[0].1), "=2.0.0");
    assert_eq!(mods[1].0, "b-two");
    assert_eq!(req_text(&mods[1].1), "=3.0.0");
}

#[test]
fn import_merge_replaces_and_appends() {
    let mut existing = Mods::empty();
    existing.insert("a-one".to_string(), ModSpec::new(VersionReq::parse("=1.0.0").unwrap()));
    existing.insert("c-three".to_string(), ModSpec::new(VersionReq::parse("=1.0.0").unwrap()));
    ImportCommand::merge(
        &mut existing,
        vec![
            ("a-one".to_string(), ModSpec::new(VersionReq::parse("=2.0.0").unwrap())),
            ("b-two".to_string(), ModSpec::new(VersionReq::parse("=5.0.0").unwrap())),
        ],
    );
    assert_eq!(req_text(existing.get(&"a-one".to_string()).unwrap()), "=2.0.0");
    assert_eq!(req_text(existing.get(&"b-two".to_string()).unwrap()), "=5.0.0");
    assert_eq!(req_text(existing.get(&"c-three".to_string()).unwrap()), "=1.0.0");
}
