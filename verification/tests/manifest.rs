use tempest::manifest::{ModSpec, Mods, SearchError};
use tempest::package::{MetadataValue, RegistryMetadata, VersionReq};
use tempest::source::Source;

fn star() -> VersionReq {
    VersionReq::parse("*").unwrap()
}

#[test]
fn deserialize_local_mod() {
    // [BepInEx-BepInExPack]
    // version = "*"
    // path = ".."
    let package_id = "BepInEx-BepInExPack".to_string();
    let mut mods = Mods::empty();
    mods.insert(
        package_id.clone(),
        ModSpec::Full {
            version: Some(star()),
            source: None,
            registry_metadata: RegistryMetadata::Object(vec![("path".to_string(), MetadataValue::Text("..".to_string()))]),
        },
    );
    let mod_ = mods.remove(&package_id).unwrap();

    let dependency = mod_.into_dependency(package_id, Source::Thunderstore);
    assert_eq!(dependency.source, "local");
    match dependency.registry_metadata {
        Some(RegistryMetadata::Object(entries)) => {
            assert_eq!(entries, vec![("path".to_string(), MetadataValue::Text("..".to_string()))]);
        }
        other => panic!("unexpected metadata {other:?}"),
    }
}

#[test]
fn deserialize_mod() {
    // [BepInEx-BepInExPack]
    // version = "*"
    let package_id = "BepInEx-BepInExPack".to_string();
    let mut mods = Mods::empty();
    mods.insert(
        package_id.clone(),
        ModSpec::Full { version: Some(star()), source: None, registry_metadata: RegistryMetadata::Object(vec![]) },
    );
    let mod_ = mods.remove(&package_id).unwrap();

    let dependency = mod_.into_dependency(package_id, Source::Thunderstore);
    assert_eq!(dependency.source, "thunderstore");
    assert!(dependency.registry_metadata.is_none());
}

#[test]
fn repo_metadata_means_github_and_named_source_wins() {
    let github = ModSpec::Full {
        version: None,
        source: None,
        registry_metadata: RegistryMetadata::Object(vec![("repo".to_string(), MetadataValue::Text("a/b".to_string()))]),
    };
    let dep = github.into_dependency("a-b".to_string(), Source::Thunderstore);
    assert_eq!(dep.source, "github");
    assert_eq!(dep.version_req.as_str(), "*");

    let named = ModSpec::new(star()).with_source(Source::Hexium);
    let dep = named.into_dependency("a-b".to_string(), Source::Thunderstore);
    assert_eq!(dep.source, "hexium");
    assert!(dep.registry_metadata.is_none());
}

#[test]
fn insert_keeps_place_and_remove_keeps_order() {
    let mut mods = Mods::empty();
    assert!(mods.insert("a-one".to_string(), ModSpec::new(star())).is_none());
    assert!(mods.insert("b-two".to_string(), ModSpec::new(star())).is_none());
    assert!(mods.insert("c-three".to_string(), ModSpec::new(star())).is_none());
    assert!(mods.insert("a-one".to_string(), ModSpec::new(VersionReq::parse("=1.0.0").unwrap())).is_some());
    mods.remove(&"b-two".to_string());
    let deps = mods.into_dependencies(Source::Local);
    let ids: Vec<&str> = deps.iter().map(|d| d.id.as_str()).collect();
    assert_eq!(ids, vec!["a-one", "c-three"]);
    assert_eq!(deps[0].version_req.as_str(), "=1.0.0");
    assert_eq!(deps[0].source, "local");
}

#[test]
fn searches_by_id_segment() {
    let mut mods = Mods::empty();
    mods.insert("x753-More_Suits".to_string(), ModSpec::new(star()));
    mods.insert("BepInEx-BepInExPack".to_string(), ModSpec::new(star()));
    mods.insert("Other-BepInExPack".to_string(), ModSpec::new(star()));

    let query = "more_suits".to_string();
    let (id, _) = mods.get_or_search(&query).unwrap();
    assert_eq!(id, "x753-More_Suits");
    let exact = "Other-BepInExPack".to_string();
    let (id, _) = mods.get_or_search(&exact).unwrap();
    assert_eq!(id, "Other-BepInExPack");
    assert!(matches!(mods.search_one("bepinexpack"), Err(SearchError::Multiple(_))));
    assert!(matches!(mods.search_one("nothing"), Err(SearchError::NoMatch(_))));
    assert_eq!(mods.search("BEPINEX").len(), 1);
}

fn req_of(spec: &ModSpec) -> &str {
    match spec {
        ModSpec::Simple(req) => req.as_str(),
        ModSpec::Full { version: Some(req), .. } => req.as_str(),
        ModSpec::Full { version: None, .. } => "",
    }
}

#[test]
fn reading_after_writing_gives_the_written_value() {
    let mut mods = Mods::empty();
    mods.insert("a-one".to_string(), ModSpec::new(VersionReq::parse("=1.0.0").unwrap()));
    mods.insert("b-two".to_string(), ModSpec::new(VersionReq::parse("=2.0.0").unwrap()));
    mods.insert("a-one".to_string(), ModSpec::new(VersionReq::parse("=3.0.0").unwrap()));
    assert_eq!(req_of(mods.get(&"a-one".to_string()).unwrap()), "=3.0.0");
    assert_eq!(req_of(mods.get(&"b-two".to_string()).unwrap()), "=2.0.0");
}

#[test]
fn removing_a_new_mod_undoes_adding_it() {
    let mut mods = Mods::empty();
    mods.insert("a-one".to_string(), ModSpec::new(VersionReq::parse("=1.0.0").unwrap()));
    assert!(mods.insert("c-new".to_string(), ModSpec::new(star())).is_none());
    assert!(mods.remove(&"c-new".to_string()).is_some());
    assert!(mods.get(&"c-new".to_string()).is_none());
    assert!(mods.remove(&"c-new".to_string()).is_none());
    assert_eq!(req_of(mods.get(&"a-one".to_string()).unwrap()), "=1.0.0");
}
