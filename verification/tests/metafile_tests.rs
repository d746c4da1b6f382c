use pkgstore::error::Error;
use pkgstore::ident::{parse_ident, PackageIdent};
use pkgstore::install::{metafile_body, FileRead, PackageInstall};
use pkgstore::metadata::{Bind, BindMapping, MetaFile, PackageType};
use pkgstore::store::{install_prefix, store_root};

fn ident(s: &str) -> PackageIdent {
    parse_ident(s).unwrap()
}

fn record(ident_str: &str, fs_root: &str) -> PackageInstall {
    let id = ident(ident_str);
    let root = store_root(fs_root);
    let installed = install_prefix(&id, Some(fs_root));
    PackageInstall::new_from_parts(id, fs_root.to_string(), root, installed)
}

fn mapping(bind: &str, provider: &str) -> BindMapping {
    BindMapping {
        bind_name: bind.to_string(),
        satisfying_service: ident(provider),
    }
}

#[test]
fn reading_a_valid_bind_map_file_works() {
    let package_install = record("core/composite/1.0.0/20200101000000", "fs-root");
    let bind_map_contents = r#"
core/foo=db:core/database fe:core/front-end be:core/back-end
core/bar=pub:core/publish sub:core/subscribe
        "#;
    let bind_map = package_install
        .bind_map(FileRead::Found(bind_map_contents.to_string()))
        .unwrap();

    let expected: Vec<(PackageIdent, Vec<BindMapping>)> = vec![
        (
            ident("core/foo"),
            vec![
                mapping("db", "core/database"),
                mapping("fe", "core/front-end"),
                mapping("be", "core/back-end"),
            ],
        ),
        (
            ident("core/bar"),
            vec![mapping("pub", "core/publish"), mapping("sub", "core/subscribe")],
        ),
    ];
    assert_eq!(expected, bind_map);
}

#[test]
fn reading_a_bad_bind_map_file_results_in_an_error() {
    let package_install = record("core/dud/1.0.0/20200101000000", "fs-root");
    let bind_map_contents = "core/foo=db:this-is-not-an-identifier";
    let bind_map = package_install.bind_map(FileRead::Found(bind_map_contents.to_string()));
    assert!(bind_map.is_err());
}

#[test]
fn missing_bind_map_files_are_ok() {
    let package_install = record("core/no-binds/1.0.0/20200101000000", "fs-root");
    let bind_map = package_install.bind_map(FileRead::Absent).unwrap();
    assert!(bind_map.is_empty());
}

#[test]
fn bind_map_line_without_separator_is_bad_bind() {
    let package_install = record("core/composite/1.0.0/20200101000000", "fs-root");
    assert!(matches!(
        package_install.bind_map(FileRead::Found("core/foo".to_string())),
        Err(Error::MetaFileBadBind)
    ));
}

#[test]
fn bind_map_repeated_provider_keeps_position_last_value_wins() {
    let package_install = record("core/composite/1.0.0/20200101000000", "fs-root");
    let contents = "core/foo=db:core/database\ncore/bar=pub:core/publish\ncore/foo=fe:core/front-end";
    let bind_map = package_install
        .bind_map(FileRead::Found(contents.to_string()))
        .unwrap();
    let expected: Vec<(PackageIdent, Vec<BindMapping>)> = vec![
        (ident("core/foo"), vec![mapping("fe", "core/front-end")]),
        (ident("core/bar"), vec![mapping("pub", "core/publish")]),
    ];
    assert_eq!(expected, bind_map);
}

#[test]
fn exposes_strip_trailing_newlines_from_tokens() {
    let rec = record("core/app/1.0.0/20200101000000", "fs-root");
    let got = rec.exposes(FileRead::Found("8080\n 8081".to_string())).unwrap();
    assert_eq!(got, vec!["8080".to_string(), "8081".to_string()]);
}

#[test]
fn metafile_body_keeps_the_error_taxonomy() {
    assert!(matches!(
        metafile_body(FileRead::Absent, MetaFile::Binds),
        Err(Error::MetaFileNotFound(MetaFile::Binds))
    ));
    assert!(matches!(
        metafile_body(FileRead::NotText, MetaFile::Binds),
        Err(Error::MetaFileMalformed(MetaFile::Binds))
    ));
    match metafile_body(FileRead::IoError("device gone".to_string()), MetaFile::Binds) {
        Err(Error::MetaFileIO(cause)) => assert_eq!(cause, "device gone"),
        other => panic!("unexpected {:?}", other),
    }
    assert_eq!(
        metafile_body(FileRead::Found("  hello \n".to_string()), MetaFile::Binds).unwrap(),
        "hello"
    );
}

#[test]
fn pkg_type_defaults_to_standalone() {
    let rec = record("core/app/1.0.0/20200101000000", "fs-root");
    assert_eq!(rec.pkg_type(FileRead::Absent).unwrap(), PackageType::Standalone);
    assert_eq!(
        rec.pkg_type(FileRead::Found("standalone".to_string())).unwrap(),
        PackageType::Standalone
    );
    assert_eq!(
        rec.pkg_type(FileRead::Found("composite\n".to_string())).unwrap(),
        PackageType::Composite
    );
    assert!(matches!(
        rec.pkg_type(FileRead::Found("weird".to_string())),
        Err(Error::InvalidPackageType(_))
    ));
}

#[test]
fn svc_user_and_group_default_to_none() {
    let rec = record("core/app/1.0.0/20200101000000", "fs-root");
    assert_eq!(rec.svc_user(FileRead::Absent).unwrap(), None);
    assert_eq!(rec.svc_group(FileRead::Absent).unwrap(), None);
    assert_eq!(
        rec.svc_user(FileRead::Found(" hab \n".to_string())).unwrap(),
        Some("hab".to_string())
    );
    assert_eq!(
        rec.svc_group(FileRead::Found("hab".to_string())).unwrap(),
        Some("hab".to_string())
    );
}

#[test]
fn binds_parse_and_default_to_empty() {
    let rec = record("core/app/1.0.0/20200101000000", "fs-root");
    assert!(rec.binds(FileRead::Absent).unwrap().is_empty());
    assert!(rec.binds_optional(FileRead::Absent).unwrap().is_empty());
    let got = rec
        .binds(FileRead::Found("database:prod.default\ncache:redis.default".to_string()))
        .unwrap();
    let expected = vec![
        Bind {
            name: "database".to_string(),
            service_group: "prod.default".to_string(),
        },
        Bind {
            name: "cache".to_string(),
            service_group: "redis.default".to_string(),
        },
    ];
    assert_eq!(expected, got);
    assert!(matches!(
        rec.binds(FileRead::Found("no-separator-here".to_string())),
        Err(Error::MetaFileMalformed(MetaFile::Binds))
    ));
    assert!(matches!(
        rec.binds_optional(FileRead::Found("bad line".to_string())),
        Err(Error::MetaFileMalformed(MetaFile::BindsOptional))
    ));
}

#[test]
fn deps_require_fully_qualified_identifiers() {
    let rec = record("core/app/1.0.0/20200101000000", "fs-root");
    assert!(rec.deps(FileRead::Absent).unwrap().is_empty());
    assert!(rec.tdeps(FileRead::Absent).unwrap().is_empty());

    let got = rec
        .deps(FileRead::Found(
            "core/glibc/2.22/20200101000000\ncore/zlib/1.2.8/20200101000000\n".to_string(),
        ))
        .unwrap();
    assert_eq!(
        got,
        vec![
            ident("core/glibc/2.22/20200101000000"),
            ident("core/zlib/1.2.8/20200101000000"),
        ]
    );

    assert!(matches!(
        rec.deps(FileRead::Found("core/glibc".to_string())),
        Err(Error::FullyQualifiedPackageIdentRequired(_))
    ));
    assert!(matches!(
        rec.tdeps(FileRead::Found("garbage".to_string())),
        Err(Error::InvalidPackageIdent(_))
    ));
}

#[test]
fn pkg_services_accepts_loose_identifiers() {
    let rec = record("core/composite/1.0.0/20200101000000", "fs-root");
    let got = rec
        .pkg_services(FileRead::Found("core/web\ncore/worker".to_string()))
        .unwrap();
    assert_eq!(got, vec![ident("core/web"), ident("core/worker")]);
    assert!(rec.pkg_services(FileRead::Absent).unwrap().is_empty());
}

#[test]
fn exports_parse_key_value_lines() {
    let rec = record("core/app/1.0.0/20200101000000", "fs-root");
    assert!(rec.exports(FileRead::Absent).unwrap().is_empty());
    let got = rec
        .exports(FileRead::Found("port=8080\nhost=localhost".to_string()))
        .unwrap();
    assert_eq!(
        got,
        vec![
            ("port".to_string(), "8080".to_string()),
            ("host".to_string(), "localhost".to_string()),
        ]
    );
    assert!(matches!(
        rec.exports(FileRead::Found("noequalshere".to_string())),
        Err(Error::MetaFileMalformed(MetaFile::Exports))
    ));
}

#[test]
fn exposes_split_on_spaces() {
    let rec = record("core/app/1.0.0/20200101000000", "fs-root");
    assert!(rec.exposes(FileRead::Absent).unwrap().is_empty());
    let got = rec.exposes(FileRead::Found("8080 8081 8082".to_string())).unwrap();
    assert_eq!(got, vec!["8080".to_string(), "8081".to_string(), "8082".to_string()]);
}

#[test]
fn runtime_environment_parses_and_overwrites_keys() {
    let rec = record("core/app/1.0.0/20200101000000", "fs-root");
    let none: Vec<String> = Vec::new();
    let got = rec
        .runtime_environment(
            FileRead::Found("PATH=/x/bin\nTERM=xterm\nPATH=/y/bin".to_string()),
            &none,
        )
        .unwrap();
    assert_eq!(
        got,
        vec![
            ("PATH".to_string(), "/y/bin".to_string()),
            ("TERM".to_string(), "xterm".to_string()),
        ]
    );
    assert!(matches!(
        rec.runtime_environment(FileRead::Found("MISSING_SEPARATOR".to_string()), &none),
        Err(Error::MetaFileMalformed(MetaFile::RuntimeEnvironment))
    ));
}

#[test]
fn runtime_environment_falls_back_to_legacy_path() {
    let rec = record("core/app/1.0.0/20200101000000", "fs-root");
    let legacy = vec!["/a/bin".to_string(), "/b/bin".to_string()];
    let got = rec.runtime_environment(FileRead::Absent, &legacy).unwrap();
    assert_eq!(got, vec![("PATH".to_string(), "/a/bin:/b/bin".to_string())]);

    let bad = vec!["/a/bin:oops".to_string()];
    assert!(matches!(
        rec.runtime_environment(FileRead::Absent, &bad),
        Err(Error::InvalidPathString)
    ));
}

#[test]
fn value_split_at_first_equals_only() {
    let rec = record("core/app/1.0.0/20200101000000", "fs-root");
    let none: Vec<String> = Vec::new();
    let got = rec
        .runtime_environment(FileRead::Found("FLAGS=a=b=c".to_string()), &none)
        .unwrap();
    assert_eq!(got, vec![("FLAGS".to_string(), "a=b=c".to_string())]);
}

#[test]
fn metafile_paths_are_rooted_in_the_install_directory() {
    let rec = record("core/app/1.0.0/20200101000000", "fs-root");
    assert_eq!(
        rec.metafile_path(MetaFile::Binds),
        "fs-root/hab/pkgs/core/app/1.0.0/20200101000000/BINDS"
    );
    assert_eq!(
        rec.default_cfg_path(),
        "fs-root/hab/pkgs/core/app/1.0.0/20200101000000/default.toml"
    );
}
