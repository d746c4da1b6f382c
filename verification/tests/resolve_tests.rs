use pkgstore::error::Error;
use pkgstore::ident::{parse_ident, PackageIdent};
use pkgstore::install::{
    resolve_package_install, resolve_package_install_min, select_latest, FileRead,
};
use pkgstore::store::install_prefix;
use pkgstore::target::{parse_target, PackageTarget};

fn ident(s: &str) -> PackageIdent {
    parse_ident(s).unwrap()
}

fn listing(entries: &[&str]) -> Vec<PackageIdent> {
    entries.iter().map(|s| ident(s)).collect()
}

#[test]
fn fully_qualified_load_returns_exact_identifier() {
    let store = listing(&[
        "acme/widget/1.0.0/20200101000000",
        "acme/widget/1.2.0/20200101000001",
        "acme/gadget/9.9.9/20200101000000",
    ]);
    let want = ident("acme/widget/1.0.0/20200101000000");
    let rec = resolve_package_install(&want, "/", true, &store).unwrap();
    assert_eq!(rec.ident, want);
    assert_eq!(
        rec.installed_path,
        install_prefix(&want, Some("/"))
    );
    assert_eq!(rec.installed_path, "/hab/pkgs/acme/widget/1.0.0/20200101000000");
}

#[test]
fn fully_qualified_load_fails_when_not_installed() {
    let store = listing(&["acme/widget/1.0.0/20200101000000"]);
    let want = ident("acme/widget/1.0.0/20200101000099");
    assert!(matches!(
        resolve_package_install(&want, "/", true, &store),
        Err(Error::PackageNotFound(_))
    ));
}

#[test]
fn partial_load_returns_latest_version() {
    let store = listing(&[
        "acme/widget/1.0.0/20200101000000",
        "acme/widget/1.2.0/20200101000001",
    ]);
    let rec = resolve_package_install(&ident("acme/widget"), "/", true, &store).unwrap();
    assert_eq!(rec.ident, ident("acme/widget/1.2.0/20200101000001"));
}

#[test]
fn partial_load_prefers_numerically_greater_version() {
    let store = listing(&[
        "acme/widget/9.0.0/20200101000000",
        "acme/widget/10.0.0/20200101000000",
    ]);
    let rec = resolve_package_install(&ident("acme/widget"), "/", true, &store).unwrap();
    assert_eq!(rec.ident, ident("acme/widget/10.0.0/20200101000000"));
}

#[test]
fn load_fails_when_store_root_is_missing() {
    let store: Vec<PackageIdent> = Vec::new();
    assert!(matches!(
        resolve_package_install(&ident("acme/widget"), "/", false, &store),
        Err(Error::PackageNotFound(_))
    ));
}

#[test]
fn load_at_least_accepts_equal_or_newer() {
    let store = listing(&[
        "acme/widget/1.0.0/20200101000000",
        "acme/widget/1.2.0/20200101000001",
    ]);
    let rec =
        resolve_package_install_min(&ident("acme/widget/1.1.0"), "/", true, &store).unwrap();
    assert_eq!(rec.ident, ident("acme/widget/1.2.0/20200101000001"));
}

#[test]
fn load_at_least_fails_when_everything_is_older() {
    let store = listing(&[
        "acme/widget/1.0.0/20200101000000",
        "acme/widget/1.2.0/20200101000001",
    ]);
    assert!(matches!(
        resolve_package_install_min(&ident("acme/widget/2.0.0"), "/", true, &store),
        Err(Error::PackageNotFound(_))
    ));
}

#[test]
fn load_at_least_without_version_takes_latest() {
    let store = listing(&[
        "acme/widget/1.0.0/20200101000000",
        "acme/widget/1.2.0/20200101000001",
    ]);
    let rec = resolve_package_install_min(&ident("acme/widget"), "/", true, &store).unwrap();
    assert_eq!(rec.ident, ident("acme/widget/1.2.0/20200101000001"));
}

#[test]
fn latest_selection_keeps_earliest_on_tie() {
    let first = ident("acme/widget/1.0.0/20200101000000");
    let dup = ident("acme/widget/1.0.0/20200101000000");
    let store = vec![first.clone(), dup];
    let winner = select_latest(&store, &ident("acme/widget")).unwrap();
    assert_eq!(winner, first);
}

#[test]
fn resolution_honors_the_filesystem_root() {
    let store = listing(&["acme/widget/1.0.0/20200101000000"]);
    let rec = resolve_package_install(&ident("acme/widget"), "/mnt/alt", true, &store).unwrap();
    assert_eq!(
        rec.installed_path,
        "/mnt/alt/hab/pkgs/acme/widget/1.0.0/20200101000000"
    );
}

#[test]
fn target_parse_and_validate() {
    let t = parse_target("x86_64-linux").unwrap();
    assert_eq!(t.architecture, "x86_64");
    assert_eq!(t.platform, "linux");
    let active = PackageTarget {
        architecture: "x86_64".to_string(),
        platform: "linux".to_string(),
    };
    assert!(t.validate_against(&active).is_ok());
    let other = PackageTarget {
        architecture: "x86_64".to_string(),
        platform: "windows".to_string(),
    };
    assert!(matches!(
        t.validate_against(&other),
        Err(Error::TargetMatchError(_))
    ));
}

#[test]
fn target_metafile_errors_surface_unchanged() {
    let store = listing(&["acme/widget/1.0.0/20200101000000"]);
    let rec = resolve_package_install(&ident("acme/widget"), "/", true, &store).unwrap();
    assert!(matches!(
        rec.target(FileRead::Absent),
        Err(Error::MetaFileNotFound(pkgstore::metadata::MetaFile::Target))
    ));
    assert!(matches!(
        rec.target(FileRead::Found("nonsense".to_string())),
        Err(Error::InvalidPackageTarget(_))
    ));
    let t = rec.target(FileRead::Found(" x86_64-linux\n".to_string())).unwrap();
    assert_eq!(t.architecture, "x86_64");
    assert_eq!(t.platform, "linux");
}
