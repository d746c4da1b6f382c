use pkgstore::ident::parse_ident;
use pkgstore::install::PackageInstall;
use pkgstore::store::{install_prefix, store_root};

fn record(ident_str: &str) -> PackageInstall {
    let id = parse_ident(ident_str).unwrap();
    let root = store_root("");
    let installed = install_prefix(&id, Some(""));
    PackageInstall::new_from_parts(id, String::new(), root, installed)
}

#[test]
fn can_serialize_default_config() {
    let package_install = record("just/nothing");
    let raw = "enabled = true\nport = 8080\n\n[server]\nname = \"test_package\"\n";
    let cfg = package_install.default_cfg(Some(raw.to_string())).unwrap();
    match toml::to_string(&cfg) {
        Ok(_) => (),
        Err(e) => panic!("{:?}", e),
    }
}

#[test]
fn unreadable_default_config_is_none() {
    let package_install = record("just/nothing");
    assert!(package_install.default_cfg(None).is_none());
}

#[test]
fn unparsable_default_config_is_none() {
    let package_install = record("just/nothing");
    let broken = "this = is [ not valid toml";
    assert!(package_install.default_cfg(Some(broken.to_string())).is_none());
}

#[test]
fn default_config_round_trips_a_value() {
    let package_install = record("just/nothing");
    let cfg = package_install
        .default_cfg(Some("answer = 42".to_string()))
        .unwrap();
    let rendered = toml::to_string(&cfg).unwrap();
    assert!(rendered.contains("answer"));
    assert!(rendered.contains("42"));
}
