use core::cmp::Ordering;
use pkgstore::error::Error;
use pkgstore::ident::{parse_ident, PackageIdent};

fn ident(s: &str) -> PackageIdent {
    parse_ident(s).unwrap()
}

#[test]
fn parse_two_part_identifier() {
    let id = ident("core/redis");
    assert_eq!(id.origin, "core");
    assert_eq!(id.name, "redis");
    assert_eq!(id.version, None);
    assert_eq!(id.release, None);
    assert!(!id.fully_qualified());
}

#[test]
fn parse_fully_qualified_identifier() {
    let id = ident("core/redis/3.2.4/20200101000000");
    assert_eq!(id.origin, "core");
    assert_eq!(id.name, "redis");
    assert_eq!(id.version.as_deref(), Some("3.2.4"));
    assert_eq!(id.release.as_deref(), Some("20200101000000"));
    assert!(id.fully_qualified());
}

#[test]
fn parse_rejects_bad_identifiers() {
    assert!(matches!(
        parse_ident("this-is-not-an-identifier"),
        Err(Error::InvalidPackageIdent(_))
    ));
    assert!(parse_ident("").is_err());
    assert!(parse_ident("a/b/c/d/e").is_err());
    assert!(parse_ident("core//redis").is_err());
}

#[test]
fn render_round_trips() {
    for s in ["core/redis", "core/redis/3.2.4", "core/redis/3.2.4/20200101000000"] {
        assert_eq!(ident(s).render(), s);
    }
}

#[test]
fn satisfies_treats_unset_fields_as_wildcards() {
    let installed = ident("core/redis/3.2.4/20200101000000");
    assert!(installed.satisfies(&ident("core/redis")));
    assert!(installed.satisfies(&ident("core/redis/3.2.4")));
    assert!(installed.satisfies(&ident("core/redis/3.2.4/20200101000000")));
    assert!(!installed.satisfies(&ident("core/redis/3.2.5")));
    assert!(!installed.satisfies(&ident("core/postgres")));
    assert!(!installed.satisfies(&ident("acme/redis")));
}

#[test]
fn version_order_is_numeric_per_segment() {
    let nine = ident("core/tool/9.0.0/20200101000000");
    let ten = ident("core/tool/10.0.0/20200101000000");
    assert_eq!(nine.cmp_ident(&ten), Ordering::Less);
    assert_eq!(ten.cmp_ident(&nine), Ordering::Greater);

    let a = ident("core/tool/1.0.0/20200101000000");
    let b = ident("core/tool/1.2.0/20200101000001");
    assert_eq!(a.cmp_ident(&b), Ordering::Less);

    let same = ident("core/tool/007.0.0/20200101000000");
    let plain = ident("core/tool/7.0.0/20200101000000");
    assert_eq!(same.cmp_ident(&plain), Ordering::Equal);
}

#[test]
fn release_breaks_version_ties() {
    let older = ident("core/tool/1.0.0/20200101000000");
    let newer = ident("core/tool/1.0.0/20200101000001");
    assert_eq!(older.cmp_ident(&newer), Ordering::Less);
}

#[test]
fn partial_cmp_unordered_across_names() {
    let a = ident("core/redis/1.0.0/20200101000000");
    let b = ident("core/postgres/2.0.0/20200101000000");
    assert_eq!(a.partial_cmp_ident(&b), None);
    let c = ident("core/redis/1.0.1/20200101000000");
    assert_eq!(a.partial_cmp_ident(&c), Some(Ordering::Less));
}
