use tempest::profile::{gitignore, unignore_directory};

#[test]
fn gitignore_unignore_directory() {
    let result = unignore_directory("BepInEx/config");
    assert_eq!(
        result,
        r"!/BepInEx/
    !/BepInEx/config/
    !/BepInEx/config/**"
    );
}
