use pkgstore::ident::{parse_ident, PackageIdent};
use pkgstore::install::{merge_runtime_paths, FileRead, PackageInstall};
use pkgstore::store::{install_prefix, store_root};

fn ident(s: &str) -> PackageIdent {
    parse_ident(s).unwrap()
}

fn record(ident_str: &str, fs_root: &str) -> PackageInstall {
    let id = ident(ident_str);
    let root = store_root(fs_root);
    let installed = install_prefix(&id, Some(fs_root));
    PackageInstall::new_from_parts(id, fs_root.to_string(), root, installed)
}

/// The prefix recorded inside metafiles, which never includes the
/// filesystem root the store was mounted under.
fn pkg_prefix_for(pkg_install: &PackageInstall) -> String {
    install_prefix(pkg_install.ident(), None)
}

/// The contents of a `PATH` metafile whose entries all live under the
/// package's own prefix.
fn path_contents_for(pkg_install: &PackageInstall, paths: Vec<&str>) -> String {
    let prefix = pkg_prefix_for(pkg_install);
    let full: Vec<String> = paths.iter().map(|p| format!("{}/{}", prefix, p)).collect();
    full.join(":")
}

#[test]
fn paths_metafile_single() {
    let pkg_install = record("acme/pathy/1.0.0/20200101000000", "fs-root");
    let contents = path_contents_for(&pkg_install, vec!["bin"]);
    assert_eq!(
        vec![format!("{}/bin", pkg_prefix_for(&pkg_install))],
        pkg_install.paths(FileRead::Found(contents), None).unwrap()
    );
}

#[test]
fn paths_metafile_multiple() {
    let pkg_install = record("acme/pathy/1.0.0/20200101000000", "fs-root");
    let contents = path_contents_for(&pkg_install, vec!["bin", "sbin", ".gem/bin"]);
    let pkg_prefix = pkg_prefix_for(&pkg_install);
    assert_eq!(
        vec![
            format!("{}/bin", pkg_prefix),
            format!("{}/sbin", pkg_prefix),
            format!("{}/.gem/bin", pkg_prefix),
        ],
        pkg_install.paths(FileRead::Found(contents), None).unwrap()
    );
}

#[test]
fn paths_metafile_missing() {
    let pkg_install = record("acme/pathy/1.0.0/20200101000000", "fs-root");
    assert_eq!(
        Vec::<String>::new(),
        pkg_install.paths(FileRead::Absent, None).unwrap()
    );
}

#[test]
fn paths_metafile_empty() {
    let pkg_install = record("acme/pathy/1.0.0/20200101000000", "fs-root");
    assert_eq!(
        Vec::<String>::new(),
        pkg_install.paths(FileRead::Found(String::new()), None).unwrap()
    );
}

#[test]
fn paths_metafile_drop_extra_entries() {
    let pkg_install = record("acme/pathy/1.0.0/20200101000000", "fs-root");
    let other_pkg_install = record("acme/prophets-of-rage/1.0.0/20200101000000", "fs-root");
    let contents = format!(
        "{}/bin:{}/bin:{}/sbin",
        pkg_prefix_for(&pkg_install),
        pkg_prefix_for(&other_pkg_install),
        pkg_prefix_for(&other_pkg_install),
    );
    assert_eq!(
        vec![format!("{}/bin", pkg_prefix_for(&pkg_install))],
        pkg_install.paths(FileRead::Found(contents), None).unwrap()
    );
}

#[test]
fn win_legacy_paths_metafile_missing_with_runtime_metafile() {
    let pkg_install = record("acme/pathy/1.0.0/20200101000000", "fs-root");
    let other_pkg_install = record("acme/prophets-of-rage/1.0.0/20200101000000", "fs-root");
    let path_val = format!(
        "{}/bin:{}/bin:{}/sbin",
        pkg_prefix_for(&pkg_install),
        pkg_prefix_for(&other_pkg_install),
        pkg_prefix_for(&other_pkg_install),
    );
    let runtime = FileRead::Found(format!("PATH={}\n", path_val));
    assert_eq!(
        vec![format!("{}/bin", pkg_prefix_for(&pkg_install))],
        pkg_install.paths(FileRead::Absent, Some(runtime)).unwrap()
    );
}

#[test]
fn a_prefix_does_not_match_its_own_extension() {
    // `/hab/pkgs/acme/pathy2...` must not pass the filter of `acme/pathy`.
    let pkg_install = record("acme/pathy/1.0.0/20200101000000", "fs-root");
    let prefix = pkg_prefix_for(&pkg_install);
    let contents = format!("{}2/bin:{}", prefix, prefix);
    assert_eq!(
        vec![prefix.clone()],
        pkg_install.paths(FileRead::Found(contents), None).unwrap()
    );
}

#[test]
fn legacy_runtime_path() {
    let fs_root = "fs-root";
    let paths_for = |pkg: &PackageInstall, dirs: Vec<&str>| -> Vec<String> {
        let contents = path_contents_for(pkg, dirs);
        pkg.paths(FileRead::Found(contents), None).unwrap()
    };

    let hotel = record("acme/hotel/1.0.0/20200101000000", fs_root);
    let golf = record("acme/golf/1.0.0/20200101000000", fs_root);
    let foxtrot = record("acme/foxtrot/1.0.0/20200101000000", fs_root);
    let echo = record("acme/echo/1.0.0/20200101000000", fs_root);
    let delta = record("acme/delta/1.0.0/20200101000000", fs_root);
    let charlie = record("acme/charlie/1.0.0/20200101000000", fs_root);
    let beta = record("acme/beta/1.0.0/20200101000000", fs_root);
    let alpha = record("acme/alpha/1.0.0/20200101000000", fs_root);

    let hotel_paths = paths_for(&hotel, vec!["bin"]);
    let golf_paths = paths_for(&golf, vec!["bin"]);
    let foxtrot_paths = paths_for(&foxtrot, vec!["bin"]);
    let echo_paths: Vec<String> = echo.paths(FileRead::Absent, None).unwrap();
    let delta_paths: Vec<String> = delta.paths(FileRead::Absent, None).unwrap();
    let charlie_paths = paths_for(&charlie, vec!["sbin"]);
    let beta_paths = paths_for(&beta, vec!["bin"]);
    let alpha_paths = paths_for(&alpha, vec!["sbin", ".gem/bin", "bin"]);

    // alpha's own paths, its direct deps [charlie, hotel, beta] in declared
    // order, then its tdeps [beta, charlie, delta, echo, foxtrot, golf,
    // hotel] in declared order.
    let lists = vec![
        alpha_paths.clone(),
        charlie_paths.clone(),
        hotel_paths.clone(),
        beta_paths.clone(),
        beta_paths.clone(),
        charlie_paths.clone(),
        delta_paths,
        echo_paths,
        foxtrot_paths.clone(),
        golf_paths.clone(),
        hotel_paths.clone(),
    ];

    let mut expected = Vec::new();
    expected.extend(alpha_paths);
    expected.extend(charlie_paths);
    expected.extend(hotel_paths);
    expected.extend(beta_paths);
    expected.extend(foxtrot_paths);
    expected.extend(golf_paths);

    assert_eq!(expected, merge_runtime_paths(&lists));
}

#[test]
fn merge_keeps_first_occurrence_only() {
    let lists = vec![
        vec!["/a".to_string(), "/b".to_string()],
        vec!["/b".to_string(), "/c".to_string(), "/a".to_string()],
        vec!["/c".to_string()],
    ];
    assert_eq!(
        merge_runtime_paths(&lists),
        vec!["/a".to_string(), "/b".to_string(), "/c".to_string()]
    );
}
