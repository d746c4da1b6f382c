//! The installed-package record and everything decided about one: resolving
//! a (possibly partial) identifier against the enumerated store, classifying
//! each metafile read as absent, malformed or an I/O failure, parsing the
//! metafile bodies, and assembling the runtime environment.
//!
//! The caller performs every filesystem read and hands the outcome in as a
//! [`FileRead`]; each accessor here turns that outcome into the typed value
//! or error that the taxonomy prescribes.

use vstd::prelude::*;
use core::cmp::Ordering;
use crate::error::Error;
use crate::ident::{
    fully_qualified_view, ident_cmp, ident_partial_cmp, parse_ident, parsed_ident, satisfies_view,
    shown_ident, IdentView, PackageIdent,
};
use crate::metadata::{
    metafile_name, parse_bind, parse_bind_mapping, parse_package_type, parsed_bind,
    parsed_bind_mapping, parsed_package_type, Bind, BindMapping, BindMappingView, BindView,
    MetaFile, PackageType,
};
use crate::store::{
    any_holds_sep, install_prefix, install_prefix_view, join_path, join_path_list, joined_path,
    joined_path_list, path_under_prefix, split_path_list, store_root, store_root_view,
    under_prefix,
};
use crate::strutil::{
    assoc_get, assoc_lines, lemma_assoc_lines_prefix_none, lemma_parsed_lines_prefix_none,
    lemma_upsert_at, lemma_upsert_missing, parsed_lines, split_on, split_once_on, split_once_str,
    split_str, strip_nl_back, strip_nl_str, str_eq, trim_str, trimmed, upsert,
};
use crate::target::{parse_target, parsed_target, PackageTarget};

verus! {

/// The outcome of one attempted file read, as the caller observed it on
/// disk: the decoded contents, or the absence of the file, or contents that
/// were not valid text, or any other I/O failure with its cause as text.
#[derive(Debug)]
pub enum FileRead {
    Found(String),
    Absent,
    NotText,
    IoError(String),
}

/// The mathematical value of a `PackageInstall`.
#[verifier::ext_equal]
pub ghost struct InstallView {
    pub ident: IdentView,
    pub fs_root_path: Seq<char>,
    pub package_root_path: Seq<char>,
    pub installed_path: Seq<char>,
}

/// A resolved installed package: its fully-qualified identifier, the
/// filesystem root it was resolved under, the store root below that, and
/// the install directory holding its metafiles.
#[derive(Clone, Debug)]
pub struct PackageInstall {
    pub ident: PackageIdent,
    pub fs_root_path: String,
    pub package_root_path: String,
    pub installed_path: String,
}

impl View for PackageInstall {
    type V = InstallView;

    open spec fn view(&self) -> InstallView {
        InstallView {
            ident: self.ident@,
            fs_root_path: self.fs_root_path@,
            package_root_path: self.package_root_path@,
            installed_path: self.installed_path@,
        }
    }
}

/// The record `resolve_package_install` builds for a winner `id` under
/// `fs_root`: the store paths all follow from the two.
pub open spec fn install_view_of(id: IdentView, fs_root: Seq<char>) -> InstallView {
    InstallView {
        ident: id,
        fs_root_path: fs_root,
        package_root_path: store_root_view(fs_root),
        installed_path: install_prefix_view(id, Some(fs_root)),
    }
}

/// Classifies one metafile read: present contents are returned trimmed of
/// surrounding whitespace; an absent file, undecodable contents and any
/// other I/O failure each map to their own error, a distinction every
/// higher-level accessor preserves.
pub fn metafile_body(read: FileRead, file: MetaFile) -> (r: Result<String, Error>)
    ensures
        (match read {
            FileRead::Found(s) => r matches Ok(b) && b@ == trimmed(s@),
            FileRead::Absent => r matches Err(e) && e == Error::MetaFileNotFound(file),
            FileRead::NotText => r matches Err(e) && e == Error::MetaFileMalformed(file),
            FileRead::IoError(c) => r matches Err(e) && e == Error::MetaFileIO(c),
        }),
{
    match read {
        FileRead::Found(s) => Ok(trim_str(s.as_str())),
        FileRead::Absent => Err(Error::MetaFileNotFound(file)),
        FileRead::NotText => Err(Error::MetaFileMalformed(file)),
        FileRead::IoError(c) => Err(Error::MetaFileIO(c)),
    }
}

/// The latest-match fold `load` uses over the enumerated store: of the
/// candidates matching the pattern, keep the greater of winner and
/// challenger, preferring the earlier-seen candidate on a tie or when the
/// two are unordered.
pub open spec fn select_latest_view(cands: Seq<IdentView>, pat: IdentView) -> Option<IdentView>
    decreases cands.len(),
{
    if cands.len() == 0 {
        None
    } else {
        let prev = select_latest_view(cands.drop_last(), pat);
        let b = cands.last();
        if !satisfies_view(b, pat) {
            prev
        } else {
            match prev {
                None => Some(b),
                Some(a) => if ident_partial_cmp(a, b) == Some(Ordering::Less) {
                    Some(b)
                } else {
                    Some(a)
                },
            }
        }
    }
}

/// The at-least fold `load_at_least` uses: among candidates of the bound's
/// origin and name, the fold only seeds once a candidate is not below the
/// bound; after that the bound plays no further part and ties keep the
/// earlier winner.
pub open spec fn select_min_view(cands: Seq<IdentView>, bound: IdentView) -> Option<IdentView>
    decreases cands.len(),
{
    if cands.len() == 0 {
        None
    } else {
        let prev = select_min_view(cands.drop_last(), bound);
        let b = cands.last();
        if !(b.origin == bound.origin && b.name == bound.name) {
            prev
        } else {
            match prev {
                Some(a) => if ident_cmp(a, b) == Ordering::Less {
                    Some(b)
                } else {
                    Some(a)
                },
                None => if ident_cmp(b, bound) != Ordering::Less {
                    Some(b)
                } else {
                    None
                },
            }
        }
    }
}

/// Runs the latest-match fold over the candidate list.
pub fn select_latest(cands: &Vec<PackageIdent>, pat: &PackageIdent) -> (r: Option<PackageIdent>)
    ensures
        (match r {
            Some(id) => select_latest_view(cands.deep_view(), pat@) == Some(id@),
            None => select_latest_view(cands.deep_view(), pat@) is None,
        }),
{
    let mut winner: Option<PackageIdent> = None;
    let n = cands.len();
    let mut i: usize = 0;
    proof {
        assert(cands.deep_view().take(0) =~= Seq::<IdentView>::empty());
    }
    while i < n
        invariant
            0 <= i <= n,
            n == cands.len(),
            (match winner {
                Some(w) => select_latest_view(cands.deep_view().take(i as int), pat@) == Some(w@),
                None => select_latest_view(cands.deep_view().take(i as int), pat@) is None,
            }),
        decreases n - i,
    {
        let b = &cands[i];
        proof {
            assert(cands.deep_view().take(i + 1).drop_last() =~= cands.deep_view().take(i as int));
            assert(cands.deep_view().take(i + 1).last() == b@);
        }
        if b.satisfies(pat) {
            winner = match winner {
                None => Some(b.duplicate()),
                Some(a) => {
                    match a.partial_cmp_ident(b) {
                        Some(Ordering::Less) => Some(b.duplicate()),
                        _ => Some(a),
                    }
                },
            };
        }
        i += 1;
    }
    proof {
        assert(cands.deep_view().take(n as int) =~= cands.deep_view());
    }
    winner
}

/// Runs the at-least fold over the candidate list.
pub fn select_min(cands: &Vec<PackageIdent>, bound: &PackageIdent) -> (r: Option<PackageIdent>)
    ensures
        (match r {
            Some(id) => select_min_view(cands.deep_view(), bound@) == Some(id@),
            None => select_min_view(cands.deep_view(), bound@) is None,
        }),
{
    let mut winner: Option<PackageIdent> = None;
    let n = cands.len();
    let mut i: usize = 0;
    proof {
        assert(cands.deep_view().take(0) =~= Seq::<IdentView>::empty());
    }
    while i < n
        invariant
            0 <= i <= n,
            n == cands.len(),
            (match winner {
                Some(w) => select_min_view(cands.deep_view().take(i as int), bound@) == Some(w@),
                None => select_min_view(cands.deep_view().take(i as int), bound@) is None,
            }),
        decreases n - i,
    {
        let b = &cands[i];
        proof {
            assert(cands.deep_view().take(i + 1).drop_last() =~= cands.deep_view().take(i as int));
            assert(cands.deep_view().take(i + 1).last() == b@);
        }
        if b.origin == bound.origin && b.name == bound.name {
            winner = match winner {
                Some(a) => {
                    match a.cmp_ident(b) {
                        Ordering::Less => Some(b.duplicate()),
                        _ => Some(a),
                    }
                },
                None => {
                    match b.cmp_ident(bound) {
                        Ordering::Less => None,
                        _ => Some(b.duplicate()),
                    }
                },
            };
        }
        i += 1;
    }
    proof {
        assert(cands.deep_view().take(n as int) =~= cands.deep_view());
    }
    winner
}

/// The synthetic lower bound `load_at_least` substitutes when the given
/// identifier has no version: version `0`, release `0`.
pub open spec fn min_bound_view(v: IdentView) -> IdentView {
    if v.version is None {
        IdentView { origin: v.origin, name: v.name, version: Some("0"@), release: Some("0"@) }
    } else {
        v
    }
}

impl PackageInstall {
    /// Builds a record directly from its four parts, without consulting any
    /// store.
    pub fn new_from_parts(
        ident: PackageIdent,
        fs_root_path: String,
        package_root_path: String,
        installed_path: String,
    ) -> (r: PackageInstall)
        ensures
            (r == PackageInstall { ident, fs_root_path, package_root_path, installed_path }),
    {
        PackageInstall { ident, fs_root_path, package_root_path, installed_path }
    }

    /// The resolved, fully-qualified identifier of this install.
    pub fn ident(&self) -> (r: &PackageIdent)
        ensures
            r@ == self@.ident,
    {
        &self.ident
    }

    /// The directory this package is installed in.
    pub fn installed_path(&self) -> (r: &String)
        ensures
            r@ == self@.installed_path,
    {
        &self.installed_path
    }

    /// Gives up the record for its identifier.
    pub fn into_ident(self) -> (r: PackageIdent)
        ensures
            r@ == self@.ident,
    {
        self.ident
    }

    /// The identifier's textual form.
    pub fn render(&self) -> (r: String)
        ensures
            r@ == shown_ident(self@.ident),
    {
        self.ident.render()
    }

    /// Where the given metafile lives for this install: callers read that
    /// path and hand the outcome back as a [`FileRead`].
    pub fn metafile_path(&self, file: MetaFile) -> (r: String)
        ensures
            r@ == joined_path(self@.installed_path, metafile_name(file)),
    {
        join_path(self.installed_path.as_str(), file.filename())
    }

    /// Where this install's optional default configuration lives.
    pub fn default_cfg_path(&self) -> (r: String)
        ensures
            r@ == joined_path(self@.installed_path, "default.toml"@),
    {
        join_path(self.installed_path.as_str(), "default.toml")
    }

    /// Parses the `TARGET` metafile; absence or malformed contents surface
    /// unchanged from the metadata reader.
    pub fn target(&self, read: FileRead) -> (r: Result<PackageTarget, Error>)
        ensures
            (match read {
                FileRead::Found(s) => (match parsed_target(trimmed(s@)) {
                    Some(t) => r matches Ok(pt) && pt@ == t,
                    None => r matches Err(e) && e matches Error::InvalidPackageTarget(raw) && raw@
                        == trimmed(s@),
                }),
                FileRead::Absent => r matches Err(e) && e == Error::MetaFileNotFound(
                    MetaFile::Target,
                ),
                FileRead::NotText => r matches Err(e) && e == Error::MetaFileMalformed(
                    MetaFile::Target,
                ),
                FileRead::IoError(c) => r matches Err(e) && e == Error::MetaFileIO(c),
            }),
    {
        let body = metafile_body(read, MetaFile::Target)?;
        parse_target(body.as_str())
    }
}

/// Resolves an identifier against the enumerated store under `fs_root`,
/// exactly as `load` selects: a fully-qualified identifier must be matched
/// exactly; a partial one takes the latest matching candidate, ties keeping
/// the earliest seen. `store_exists` reports whether the store root exists
/// at all; `listing` is the store's enumeration, one fully-qualified
/// identifier per installed release.
pub fn resolve_package_install(
    ident: &PackageIdent,
    fs_root: &str,
    store_exists: bool,
    listing: &Vec<PackageIdent>,
) -> (r: Result<PackageInstall, Error>)
    ensures
        !store_exists ==> (r matches Err(e) && e matches Error::PackageNotFound(p) && p@
            == ident@),
        store_exists && fully_qualified_view(ident@) ==> (if (exists|i: int|
            0 <= i < listing.deep_view().len() && satisfies_view(listing.deep_view()[i], ident@)) {
            r matches Ok(p) && p@ == install_view_of(ident@, fs_root@)
        } else {
            r matches Err(e) && e matches Error::PackageNotFound(p) && p@ == ident@
        }),
        store_exists && !fully_qualified_view(ident@) ==> (match select_latest_view(
            listing.deep_view(),
            ident@,
        ) {
            Some(w) => r matches Ok(p) && p@ == install_view_of(w, fs_root@),
            None => r matches Err(e) && e matches Error::PackageNotFound(p) && p@ == ident@,
        }),
{
    if !store_exists {
        return Err(Error::PackageNotFound(ident.duplicate()));
    }
    let package_root_path = store_root(fs_root);
    if ident.fully_qualified() {
        let n = listing.len();
        let mut i: usize = 0;
        let mut found = false;
        proof {
            assert(listing.deep_view().len() == n);
        }
        while i < n && !found
            invariant
                0 <= i <= n,
                n == listing.len(),
                n == listing.deep_view().len(),
                !found ==> forall|j: int|
                    0 <= j < i ==> !satisfies_view(listing.deep_view()[j], ident@),
                found ==> exists|j: int|
                    0 <= j < listing.deep_view().len() && satisfies_view(
                        listing.deep_view()[j],
                        ident@,
                    ),
            decreases n - i,
        {
            if listing[i].satisfies(ident) {
                proof {
                    assert(satisfies_view(listing.deep_view()[i as int], ident@));
                }
                found = true;
            }
            i += 1;
        }
        if found {
            let rec = PackageInstall {
                installed_path: install_prefix(ident, Some(fs_root)),
                fs_root_path: fs_root.to_owned(),
                package_root_path,
                ident: ident.duplicate(),
            };
            proof {
                assert(rec@ =~= install_view_of(ident@, fs_root@));
            }
            Ok(rec)
        } else {
            Err(Error::PackageNotFound(ident.duplicate()))
        }
    } else {
        match select_latest(listing, ident) {
            Some(id) => {
                let ghost idv = id@;
                let rec = PackageInstall {
                    installed_path: install_prefix(&id, Some(fs_root)),
                    fs_root_path: fs_root.to_owned(),
                    package_root_path,
                    ident: id,
                };
                proof {
                    assert(rec@ =~= install_view_of(idv, fs_root@));
                }
                Ok(rec)
            },
            None => Err(Error::PackageNotFound(ident.duplicate())),
        }
    }
}

/// Resolves the newest installed package of the identifier's origin and
/// name that is at least the identifier's version, exactly as
/// `load_at_least` selects; an identifier without a version is first given
/// the synthetic lower bound version `0`, release `0`.
pub fn resolve_package_install_min(
    ident: &PackageIdent,
    fs_root: &str,
    store_exists: bool,
    listing: &Vec<PackageIdent>,
) -> (r: Result<PackageInstall, Error>)
    ensures
        !store_exists ==> (r matches Err(e) && e matches Error::PackageNotFound(p) && p@
            == min_bound_view(ident@)),
        store_exists ==> (match select_min_view(listing.deep_view(), min_bound_view(ident@)) {
            Some(w) => r matches Ok(p) && p@ == install_view_of(w, fs_root@),
            None => r matches Err(e) && e matches Error::PackageNotFound(p) && p@
                == min_bound_view(ident@),
        }),
{
    let bound = match &ident.version {
        None => PackageIdent::new(
            ident.origin.clone(),
            ident.name.clone(),
            Some("0".to_owned()),
            Some("0".to_owned()),
        ),
        Some(_) => ident.duplicate(),
    };
    proof {
        assert(bound@ == min_bound_view(ident@));
    }
    if !store_exists {
        return Err(Error::PackageNotFound(bound));
    }
    let package_root_path = store_root(fs_root);
    match select_min(listing, &bound) {
        Some(id) => {
            let ghost idv = id@;
            let rec = PackageInstall {
                installed_path: install_prefix(&id, Some(fs_root)),
                fs_root_path: fs_root.to_owned(),
                package_root_path,
                ident: id,
            };
            proof {
                assert(rec@ =~= install_view_of(idv, fs_root@));
            }
            Ok(rec)
        },
        None => Err(Error::PackageNotFound(bound)),
    }
}

/// The lines of a trimmed metafile body: an empty body has none, otherwise
/// the newline-separated pieces.
pub open spec fn body_lines(s: Seq<char>) -> Seq<Seq<char>> {
    if s.len() == 0 {
        Seq::<Seq<char>>::empty()
    } else {
        split_on(s, '\n')
    }
}

/// Splits a trimmed metafile body into its lines.
fn lines_of(body: &str) -> (r: Vec<String>)
    ensures
        r.deep_view() == body_lines(body@),
{
    if body.unicode_len() == 0 {
        let r: Vec<String> = Vec::new();
        proof {
            assert(r.deep_view() =~= body_lines(body@));
        }
        r
    } else {
        split_str(body, '\n')
    }
}

/// The line parser of the `BINDS` and `BINDS_OPTIONAL` metafiles.
pub open spec fn bind_parser() -> spec_fn(Seq<char>) -> Option<BindView> {
    |l: Seq<char>| parsed_bind(l)
}

/// The token parser of a `BIND_MAP` mapping list.
pub open spec fn bind_mapping_parser() -> spec_fn(Seq<char>) -> Option<BindMappingView> {
    |l: Seq<char>| parsed_bind_mapping(l)
}

/// The `KEY=VALUE` line parser of the `RUNTIME_ENVIRONMENT` and `EXPORTS`
/// metafiles: a line splits at its first `=`; one without `=` fails.
pub open spec fn kv_parser() -> spec_fn(Seq<char>) -> Option<(Seq<char>, Seq<char>)> {
    |l: Seq<char>| split_once_on(l, '=')
}

/// Parses a metafile body of bind tokens, one per line.
fn parse_bind_lines(body: &str) -> (r: Option<Vec<Bind>>)
    ensures
        (match r {
            Some(v) => parsed_lines(body_lines(body@), bind_parser()) == Some(v.deep_view()),
            None => parsed_lines(body_lines(body@), bind_parser()) is None,
        }),
{
    let lines = lines_of(body);
    let n = lines.len();
    let ghost ldv = lines.deep_view();
    let mut out: Vec<Bind> = Vec::new();
    let mut i: usize = 0;
    proof {
        assert(ldv.take(0) =~= Seq::<Seq<char>>::empty());
        assert(out.deep_view() =~= Seq::<BindView>::empty());
    }
    while i < n
        invariant
            0 <= i <= n,
            n == lines.len(),
            ldv == lines.deep_view(),
            ldv == body_lines(body@),
            parsed_lines(ldv.take(i as int), bind_parser()) == Some(out.deep_view()),
        decreases n - i,
    {
        proof {
            assert(ldv.take(i + 1).drop_last() =~= ldv.take(i as int));
            assert(ldv.take(i + 1).last() == ldv[i as int]);
            assert(lines@[i as int]@ == ldv[i as int]);
        }
        match parse_bind(lines[i].as_str()) {
            Some(b) => {
                let ghost prev = out.deep_view();
                let ghost bv = b@;
                out.push(b);
                proof {
                    assert(out.deep_view() =~= prev.push(bv));
                    assert(bind_parser()(ldv[i as int]) == parsed_bind(ldv[i as int]));
                }
            },
            None => {
                proof {
                    assert(bind_parser()(ldv[i as int]) == parsed_bind(ldv[i as int]));
                    assert(parsed_lines(ldv.take(i + 1), bind_parser()) is None);
                    lemma_parsed_lines_prefix_none(ldv, bind_parser(), i + 1);
                }
                return None;
            },
        }
        i += 1;
    }
    proof {
        assert(ldv.take(n as int) =~= ldv);
    }
    Some(out)
}

/// Parses a metafile body of `KEY=VALUE` lines into an association list,
/// later lines overwriting earlier keys in place.
fn parse_kv_lines(body: &str) -> (r: Option<Vec<(String, String)>>)
    ensures
        (match r {
            Some(v) => assoc_lines(body_lines(body@), kv_parser()) == Some(v.deep_view()),
            None => assoc_lines(body_lines(body@), kv_parser()) is None,
        }),
{
    let lines = lines_of(body);
    let n = lines.len();
    let ghost ldv = lines.deep_view();
    let mut out: Vec<(String, String)> = Vec::new();
    let mut i: usize = 0;
    proof {
        assert(ldv.take(0) =~= Seq::<Seq<char>>::empty());
        assert(out.deep_view() =~= Seq::<(Seq<char>, Seq<char>)>::empty());
    }
    while i < n
        invariant
            0 <= i <= n,
            n == lines.len(),
            ldv == lines.deep_view(),
            ldv == body_lines(body@),
            assoc_lines(ldv.take(i as int), kv_parser()) == Some(out.deep_view()),
        decreases n - i,
    {
        proof {
            assert(ldv.take(i + 1).drop_last() =~= ldv.take(i as int));
            assert(ldv.take(i + 1).last() == ldv[i as int]);
            assert(lines@[i as int]@ == ldv[i as int]);
            assert(kv_parser()(ldv[i as int]) == split_once_on(ldv[i as int], '='));
        }
        match split_once_str(lines[i].as_str(), '=') {
            Some((k, v)) => {
                kv_upsert(&mut out, k, v);
            },
            None => {
                proof {
                    assert(assoc_lines(ldv.take(i + 1), kv_parser()) is None);
                    lemma_assoc_lines_prefix_none(ldv, kv_parser(), i + 1);
                }
                return None;
            },
        }
        i += 1;
    }
    proof {
        assert(ldv.take(n as int) =~= ldv);
    }
    Some(out)
}

/// Inserts or replaces one key in a key-value list, keeping a present
/// key's position.
fn kv_upsert(m: &mut Vec<(String, String)>, k: String, v: String)
    ensures
        final(m).deep_view() == upsert(old(m).deep_view(), k@, v@),
{
    let n = m.len();
    let ghost mdv = m.deep_view();
    let mut j: usize = 0;
    while j < n
        invariant
            0 <= j <= n,
            n == m.len(),
            *m == *old(m),
            mdv == m.deep_view(),
            forall|t: int| 0 <= t < j ==> mdv[t].0 != k@,
        decreases n - j,
    {
        let hit = m[j].0 == k;
        if hit {
            proof {
                assert(mdv[j as int].0 == k@);
                lemma_upsert_at(mdv, k@, v@, j as int);
            }
            m.set(j, (k, v));
            proof {
                assert(m.deep_view() =~= mdv.update(j as int, (k@, v@)));
            }
            return ;
        }
        j += 1;
    }
    proof {
        lemma_upsert_missing(mdv, k@, v@);
    }
    m.push((k, v));
    proof {
        assert(m.deep_view() =~= mdv.push((k@, v@)));
    }
}

impl PackageInstall {
    /// What kind of package this is; a package without a `TYPE` metafile is
    /// standalone.
    pub fn pkg_type(&self, read: FileRead) -> (r: Result<PackageType, Error>)
        ensures
            (match read {
                FileRead::Found(s) => (match parsed_package_type(trimmed(s@)) {
                    Some(t) => r == Ok::<PackageType, Error>(t),
                    None => r matches Err(e) && e matches Error::InvalidPackageType(raw) && raw@
                        == trimmed(s@),
                }),
                FileRead::Absent => r == Ok::<PackageType, Error>(PackageType::Standalone),
                FileRead::NotText => r matches Err(e) && e == Error::MetaFileMalformed(
                    MetaFile::Type,
                ),
                FileRead::IoError(c) => r matches Err(e) && e == Error::MetaFileIO(c),
            }),
    {
        match metafile_body(read, MetaFile::Type) {
            Ok(body) => {
                match parse_package_type(body.as_str()) {
                    Some(t) => Ok(t),
                    None => Err(Error::InvalidPackageType(body)),
                }
            },
            Err(e) => {
                match e {
                    Error::MetaFileNotFound(_) => Ok(PackageType::Standalone),
                    _ => Err(e),
                }
            },
        }
    }

    /// The user this package's service runs as, if its `SVC_USER` metafile
    /// names one.
    pub fn svc_user(&self, read: FileRead) -> (r: Result<Option<String>, Error>)
        ensures
            (match read {
                FileRead::Found(s) => r matches Ok(u) && u matches Some(b) && b@ == trimmed(s@),
                FileRead::Absent => r matches Ok(u) && u is None,
                FileRead::NotText => r matches Err(e) && e == Error::MetaFileMalformed(
                    MetaFile::SvcUser,
                ),
                FileRead::IoError(c) => r matches Err(e) && e == Error::MetaFileIO(c),
            }),
    {
        match metafile_body(read, MetaFile::SvcUser) {
            Ok(body) => Ok(Some(body)),
            Err(e) => {
                match e {
                    Error::MetaFileNotFound(_) => Ok(None),
                    _ => Err(e),
                }
            },
        }
    }

    /// The group this package's service runs as, if its `SVC_GROUP`
    /// metafile names one.
    pub fn svc_group(&self, read: FileRead) -> (r: Result<Option<String>, Error>)
        ensures
            (match read {
                FileRead::Found(s) => r matches Ok(u) && u matches Some(b) && b@ == trimmed(s@),
                FileRead::Absent => r matches Ok(u) && u is None,
                FileRead::NotText => r matches Err(e) && e == Error::MetaFileMalformed(
                    MetaFile::SvcGroup,
                ),
                FileRead::IoError(c) => r matches Err(e) && e == Error::MetaFileIO(c),
            }),
    {
        match metafile_body(read, MetaFile::SvcGroup) {
            Ok(body) => Ok(Some(body)),
            Err(e) => {
                match e {
                    Error::MetaFileNotFound(_) => Ok(None),
                    _ => Err(e),
                }
            },
        }
    }

    /// The binds this package's service requires; a package without a
    /// `BINDS` metafile requires none.
    pub fn binds(&self, read: FileRead) -> (r: Result<Vec<Bind>, Error>)
        ensures
            (match read {
                FileRead::Found(s) => (match parsed_lines(
                    body_lines(trimmed(s@)),
                    bind_parser(),
                ) {
                    Some(bs) => r matches Ok(v) && v.deep_view() == bs,
                    None => r matches Err(e) && e == Error::MetaFileMalformed(MetaFile::Binds),
                }),
                FileRead::Absent => r matches Ok(v) && v.deep_view() == Seq::<BindView>::empty(),
                FileRead::NotText => r matches Err(e) && e == Error::MetaFileMalformed(
                    MetaFile::Binds,
                ),
                FileRead::IoError(c) => r matches Err(e) && e == Error::MetaFileIO(c),
            }),
    {
        match metafile_body(read, MetaFile::Binds) {
            Ok(body) => {
                match parse_bind_lines(body.as_str()) {
                    Some(v) => Ok(v),
                    None => Err(Error::MetaFileMalformed(MetaFile::Binds)),
                }
            },
            Err(e) => {
                match e {
                    Error::MetaFileNotFound(_) => {
                        let v: Vec<Bind> = Vec::new();
                        proof {
                            assert(v.deep_view() =~= Seq::<BindView>::empty());
                        }
                        Ok(v)
                    },
                    _ => Err(e),
                }
            },
        }
    }

    /// The binds this package's service can optionally use; absent metafile
    /// means none.
    pub fn binds_optional(&self, read: FileRead) -> (r: Result<Vec<Bind>, Error>)
        ensures
            (match read {
                FileRead::Found(s) => (match parsed_lines(
                    body_lines(trimmed(s@)),
                    bind_parser(),
                ) {
                    Some(bs) => r matches Ok(v) && v.deep_view() == bs,
                    None => r matches Err(e) && e == Error::MetaFileMalformed(
                        MetaFile::BindsOptional,
                    ),
                }),
                FileRead::Absent => r matches Ok(v) && v.deep_view() == Seq::<BindView>::empty(),
                FileRead::NotText => r matches Err(e) && e == Error::MetaFileMalformed(
                    MetaFile::BindsOptional,
                ),
                FileRead::IoError(c) => r matches Err(e) && e == Error::MetaFileIO(c),
            }),
    {
        match metafile_body(read, MetaFile::BindsOptional) {
            Ok(body) => {
                match parse_bind_lines(body.as_str()) {
                    Some(v) => Ok(v),
                    None => Err(Error::MetaFileMalformed(MetaFile::BindsOptional)),
                }
            },
            Err(e) => {
                match e {
                    Error::MetaFileNotFound(_) => {
                        let v: Vec<Bind> = Vec::new();
                        proof {
                            assert(v.deep_view() =~= Seq::<BindView>::empty());
                        }
                        Ok(v)
                    },
                    _ => Err(e),
                }
            },
        }
    }

    /// The key-value mappings this package exports to peers; absent
    /// metafile means none.
    pub fn exports(&self, read: FileRead) -> (r: Result<Vec<(String, String)>, Error>)
        ensures
            (match read {
                FileRead::Found(s) => (match assoc_lines(body_lines(trimmed(s@)), kv_parser()) {
                    Some(m) => r matches Ok(v) && v.deep_view() == m,
                    None => r matches Err(e) && e == Error::MetaFileMalformed(MetaFile::Exports),
                }),
                FileRead::Absent => r matches Ok(v) && v.deep_view() == Seq::<(
                    Seq<char>,
                    Seq<char>,
                )>::empty(),
                FileRead::NotText => r matches Err(e) && e == Error::MetaFileMalformed(
                    MetaFile::Exports,
                ),
                FileRead::IoError(c) => r matches Err(e) && e == Error::MetaFileIO(c),
            }),
    {
        match metafile_body(read, MetaFile::Exports) {
            Ok(body) => {
                match parse_kv_lines(body.as_str()) {
                    Some(v) => Ok(v),
                    None => Err(Error::MetaFileMalformed(MetaFile::Exports)),
                }
            },
            Err(e) => {
                match e {
                    Error::MetaFileNotFound(_) => {
                        let v: Vec<(String, String)> = Vec::new();
                        proof {
                            assert(v.deep_view() =~= Seq::<(Seq<char>, Seq<char>)>::empty());
                        }
                        Ok(v)
                    },
                    _ => Err(e),
                }
            },
        }
    }

    /// The ports this package exposes: the space-separated tokens of the
    /// `EXPOSES` metafile, each stripped of trailing newlines; absent
    /// metafile means none.
    pub fn exposes(&self, read: FileRead) -> (r: Result<Vec<String>, Error>)
        ensures
            (match read {
                FileRead::Found(s) => r matches Ok(v) && v.deep_view() == exposes_value(
                    trimmed(s@),
                ),
                FileRead::Absent => r matches Ok(v) && v.deep_view() == Seq::<Seq<char>>::empty(),
                FileRead::NotText => r matches Err(e) && e == Error::MetaFileMalformed(
                    MetaFile::Exposes,
                ),
                FileRead::IoError(c) => r matches Err(e) && e == Error::MetaFileIO(c),
            }),
    {
        match metafile_body(read, MetaFile::Exposes) {
            Ok(body) => {
                let toks = split_str(body.as_str(), ' ');
                let ghost tdv = toks.deep_view();
                let n = toks.len();
                let mut out: Vec<String> = Vec::new();
                let mut i: usize = 0;
                while i < n
                    invariant
                        0 <= i <= n,
                        n == toks.len(),
                        tdv == toks.deep_view(),
                        tdv == split_on(body@, ' '),
                        out.deep_view().len() == i,
                        forall|j: int|
                            0 <= j < i ==> out.deep_view()[j] == strip_nl_back(tdv[j]),
                    decreases n - i,
                {
                    let t = strip_nl_str(toks[i].as_str());
                    let ghost tv = t@;
                    let ghost prev = out.deep_view();
                    out.push(t);
                    proof {
                        assert(out.deep_view() =~= prev.push(tv));
                        assert(toks@[i as int]@ == tdv[i as int]);
                    }
                    i += 1;
                }
                proof {
                    assert(out.deep_view() =~= exposes_value(body@));
                }
                Ok(out)
            },
            Err(e) => {
                match e {
                    Error::MetaFileNotFound(_) => {
                        let v: Vec<String> = Vec::new();
                        proof {
                            assert(v.deep_view() =~= Seq::<Seq<char>>::empty());
                        }
                        Ok(v)
                    },
                    _ => Err(e),
                }
            },
        }
    }
}

/// The tokens of an `EXPOSES` body: space-separated, each stripped of
/// trailing newlines.
pub open spec fn exposes_value(body: Seq<char>) -> Seq<Seq<char>> {
    split_on(body, ' ').map_values(|t: Seq<char>| strip_nl_back(t))
}

/// How one dependency line failed: an unparsable identifier, carrying the
/// raw line, or a parsed identifier that is not fully qualified, carrying
/// its rendered form.
#[verifier::ext_equal]
pub ghost struct DepFailView {
    pub not_qualified: bool,
    pub text: Seq<char>,
}

/// The identifiers of a dependency metafile body, one per line: every line
/// must parse, and when `must_fq` is set every identifier must be fully
/// qualified. The earliest failing line decides the failure.
pub open spec fn dep_lines_value(lines: Seq<Seq<char>>, must_fq: bool) -> Result<
    Seq<IdentView>,
    DepFailView,
>
    decreases lines.len(),
{
    if lines.len() == 0 {
        Ok(Seq::<IdentView>::empty())
    } else {
        match dep_lines_value(lines.drop_last(), must_fq) {
            Err(e) => Err(e),
            Ok(pre) => match parsed_ident(lines.last()) {
                None => Err(DepFailView { not_qualified: false, text: lines.last() }),
                Some(id) => if must_fq && !fully_qualified_view(id) {
                    Err(DepFailView { not_qualified: true, text: shown_ident(id) })
                } else {
                    Ok(pre.push(id))
                },
            },
        }
    }
}

proof fn lemma_dep_lines_prefix_err(lines: Seq<Seq<char>>, must_fq: bool, k: int)
    requires
        0 <= k <= lines.len(),
        dep_lines_value(lines.take(k), must_fq) is Err,
    ensures
        dep_lines_value(lines, must_fq) == dep_lines_value(lines.take(k), must_fq),
    decreases lines.len() - k,
{
    if k == lines.len() {
        assert(lines.take(k) =~= lines);
    } else {
        assert(lines.take(k + 1).drop_last() =~= lines.take(k));
        lemma_dep_lines_prefix_err(lines, must_fq, k + 1);
    }
}

/// The whole contract of reading a dependency metafile: on a present body
/// the parsed identifier list, or the error of its earliest bad line; an
/// absent file is an empty list; other read failures keep their taxonomy.
pub open spec fn dep_read_contract(
    read: FileRead,
    file: MetaFile,
    r: Result<Vec<PackageIdent>, Error>,
) -> bool {
    match read {
        FileRead::Found(s) => (match dep_lines_value(
            body_lines(trimmed(s@)),
            file != MetaFile::Services,
        ) {
            Ok(ids) => r matches Ok(v) && v.deep_view() == ids,
            Err(f) => r matches Err(e) && (if f.not_qualified {
                e matches Error::FullyQualifiedPackageIdentRequired(t) && t@ == f.text
            } else {
                e matches Error::InvalidPackageIdent(t) && t@ == f.text
            }),
        }),
        FileRead::Absent => r matches Ok(v) && v.deep_view() == Seq::<IdentView>::empty(),
        FileRead::NotText => r matches Err(e) && e == Error::MetaFileMalformed(file),
        FileRead::IoError(c) => r matches Err(e) && e == Error::MetaFileIO(c),
    }
}

/// Parses a dependency metafile body, one identifier per line.
fn parse_dep_lines(body: &str, must_fq: bool) -> (r: Result<Vec<PackageIdent>, Error>)
    ensures
        (match dep_lines_value(body_lines(body@), must_fq) {
            Ok(ids) => r matches Ok(v) && v.deep_view() == ids,
            Err(f) => r matches Err(e) && (if f.not_qualified {
                e matches Error::FullyQualifiedPackageIdentRequired(t) && t@ == f.text
            } else {
                e matches Error::InvalidPackageIdent(t) && t@ == f.text
            }),
        }),
{
    let lines = lines_of(body);
    let n = lines.len();
    let ghost ldv = lines.deep_view();
    let mut out: Vec<PackageIdent> = Vec::new();
    let mut i: usize = 0;
    proof {
        assert(ldv.take(0) =~= Seq::<Seq<char>>::empty());
        assert(out.deep_view() =~= Seq::<IdentView>::empty());
    }
    while i < n
        invariant
            0 <= i <= n,
            n == lines.len(),
            ldv == lines.deep_view(),
            ldv == body_lines(body@),
            dep_lines_value(ldv.take(i as int), must_fq) == Ok::<Seq<IdentView>, DepFailView>(
                out.deep_view(),
            ),
        decreases n - i,
    {
        proof {
            assert(ldv.take(i + 1).drop_last() =~= ldv.take(i as int));
            assert(ldv.take(i + 1).last() == ldv[i as int]);
            assert(lines@[i as int]@ == ldv[i as int]);
        }
        match parse_ident(lines[i].as_str()) {
            Err(e) => {
                proof {
                    assert(dep_lines_value(ldv.take(i + 1), must_fq) is Err);
                    lemma_dep_lines_prefix_err(ldv, must_fq, i + 1);
                }
                return Err(e);
            },
            Ok(id) => {
                if must_fq && !id.fully_qualified() {
                    let rendered = id.render();
                    proof {
                        assert(dep_lines_value(ldv.take(i + 1), must_fq) is Err);
                        lemma_dep_lines_prefix_err(ldv, must_fq, i + 1);
                    }
                    return Err(Error::FullyQualifiedPackageIdentRequired(rendered));
                }
                let ghost prev = out.deep_view();
                let ghost idv = id@;
                out.push(id);
                proof {
                    assert(out.deep_view() =~= prev.push(idv));
                }
            },
        }
        i += 1;
    }
    proof {
        assert(ldv.take(n as int) =~= ldv);
    }
    Ok(out)
}

impl PackageInstall {
    /// Reads a metafile of newline-separated identifiers; all but
    /// `SERVICES` require each to be fully qualified.
    pub fn read_deps(&self, read: FileRead, file: MetaFile) -> (r: Result<Vec<PackageIdent>, Error>)
        ensures
            dep_read_contract(read, file, r),
    {
        let must_fq = !(file == MetaFile::Services);
        match metafile_body(read, file) {
            Ok(body) => parse_dep_lines(body.as_str(), must_fq),
            Err(e) => {
                match e {
                    Error::MetaFileNotFound(_) => {
                        let v: Vec<PackageIdent> = Vec::new();
                        proof {
                            assert(v.deep_view() =~= Seq::<IdentView>::empty());
                        }
                        Ok(v)
                    },
                    _ => Err(e),
                }
            },
        }
    }

    /// The direct dependencies of this package, fully qualified, in the
    /// order the `DEPS` metafile declares; absent metafile means none.
    pub fn deps(&self, read: FileRead) -> (r: Result<Vec<PackageIdent>, Error>)
        ensures
            dep_read_contract(read, MetaFile::Deps, r),
    {
        self.read_deps(read, MetaFile::Deps)
    }

    /// The transitive dependency closure, fully qualified, in `TDEPS`
    /// order; absent metafile means none.
    pub fn tdeps(&self, read: FileRead) -> (r: Result<Vec<PackageIdent>, Error>)
        ensures
            dep_read_contract(read, MetaFile::TDeps, r),
    {
        self.read_deps(read, MetaFile::TDeps)
    }

    /// The services a composite package contains, as authored: these need
    /// not be fully qualified.
    pub fn pkg_services(&self, read: FileRead) -> (r: Result<Vec<PackageIdent>, Error>)
        ensures
            dep_read_contract(read, MetaFile::Services, r),
    {
        self.read_deps(read, MetaFile::Services)
    }
}

/// One `BIND_MAP` line: an identifier before the first `=`, space-separated
/// bind-mapping tokens after it (anything past a second `=` is ignored, as
/// a third split part).
pub open spec fn bind_map_line(s: Seq<char>) -> Option<(IdentView, Seq<BindMappingView>)> {
    let parts = split_on(s, '=');
    if parts.len() < 2 {
        None
    } else {
        match parsed_ident(parts[0]) {
            None => None,
            Some(id) => match parsed_lines(split_on(parts[1], ' '), bind_mapping_parser()) {
                None => None,
                Some(ms) => Some((id, ms)),
            },
        }
    }
}

/// The line parser of the `BIND_MAP` metafile.
pub open spec fn bind_map_parser() -> spec_fn(Seq<char>) -> Option<
    (IdentView, Seq<BindMappingView>),
> {
    |l: Seq<char>| bind_map_line(l)
}

/// Inserts or replaces one provider's mappings, keeping a present
/// provider's position.
fn bind_map_upsert(
    m: &mut Vec<(PackageIdent, Vec<BindMapping>)>,
    k: PackageIdent,
    v: Vec<BindMapping>,
)
    ensures
        final(m).deep_view() == upsert(old(m).deep_view(), k@, v.deep_view()),
{
    let n = m.len();
    let ghost mdv = m.deep_view();
    let mut j: usize = 0;
    while j < n
        invariant
            0 <= j <= n,
            n == m.len(),
            *m == *old(m),
            mdv == m.deep_view(),
            forall|t: int| 0 <= t < j ==> mdv[t].0 != k@,
        decreases n - j,
    {
        let hit = m[j].0.ident_eq(&k);
        if hit {
            proof {
                assert(mdv[j as int].0 == k@);
                lemma_upsert_at(mdv, k@, v.deep_view(), j as int);
            }
            m.set(j, (k, v));
            proof {
                assert(m.deep_view() =~= mdv.update(j as int, (k@, v.deep_view())));
            }
            return ;
        }
        j += 1;
    }
    proof {
        lemma_upsert_missing(mdv, k@, v.deep_view());
    }
    m.push((k, v));
    proof {
        assert(m.deep_view() =~= mdv.push((k@, v.deep_view())));
    }
}

/// Parses the space-separated bind-mapping tokens after a line's `=`.
fn parse_mapping_tokens(toks: &Vec<String>) -> (r: Option<Vec<BindMapping>>)
    ensures
        (match r {
            Some(v) => parsed_lines(toks.deep_view(), bind_mapping_parser()) == Some(
                v.deep_view(),
            ),
            None => parsed_lines(toks.deep_view(), bind_mapping_parser()) is None,
        }),
{
    let tn = toks.len();
    let ghost tdv = toks.deep_view();
    let mut ms: Vec<BindMapping> = Vec::new();
    let mut t: usize = 0;
    proof {
        assert(tdv.take(0) =~= Seq::<Seq<char>>::empty());
        assert(ms.deep_view() =~= Seq::<BindMappingView>::empty());
    }
    while t < tn
        invariant
            0 <= t <= tn,
            tn == toks.len(),
            tdv == toks.deep_view(),
            parsed_lines(tdv.take(t as int), bind_mapping_parser()) == Some(ms.deep_view()),
        decreases tn - t,
    {
        proof {
            assert(tdv.take(t + 1).drop_last() =~= tdv.take(t as int));
            assert(tdv.take(t + 1).last() == tdv[t as int]);
            assert(toks@[t as int]@ == tdv[t as int]);
            assert(bind_mapping_parser()(tdv[t as int]) == parsed_bind_mapping(tdv[t as int]));
        }
        match parse_bind_mapping(toks[t].as_str()) {
            Some(bm) => {
                let ghost prev = ms.deep_view();
                let ghost bmv = bm@;
                ms.push(bm);
                proof {
                    assert(ms.deep_view() =~= prev.push(bmv));
                }
            },
            None => {
                proof {
                    assert(parsed_lines(tdv.take(t + 1), bind_mapping_parser()) is None);
                    lemma_parsed_lines_prefix_none(tdv, bind_mapping_parser(), t + 1);
                }
                return None;
            },
        }
        t += 1;
    }
    proof {
        assert(tdv.take(tn as int) =~= tdv);
    }
    Some(ms)
}

/// Parses a `BIND_MAP` body line by line into its provider mapping.
fn parse_bind_map_lines(body: &str) -> (r: Option<Vec<(PackageIdent, Vec<BindMapping>)>>)
    ensures
        (match r {
            Some(v) => assoc_lines(body_lines(body@), bind_map_parser()) == Some(v.deep_view()),
            None => assoc_lines(body_lines(body@), bind_map_parser()) is None,
        }),
{
    let lines = lines_of(body);
    let n = lines.len();
    let ghost ldv = lines.deep_view();
    let mut out: Vec<(PackageIdent, Vec<BindMapping>)> = Vec::new();
    let mut i: usize = 0;
    proof {
        assert(ldv.take(0) =~= Seq::<Seq<char>>::empty());
        assert(out.deep_view() =~= Seq::<(IdentView, Seq<BindMappingView>)>::empty());
    }
    while i < n
        invariant
            0 <= i <= n,
            n == lines.len(),
            ldv == lines.deep_view(),
            ldv == body_lines(body@),
            assoc_lines(ldv.take(i as int), bind_map_parser()) == Some(out.deep_view()),
        decreases n - i,
    {
        proof {
            assert(ldv.take(i + 1).drop_last() =~= ldv.take(i as int));
            assert(ldv.take(i + 1).last() == ldv[i as int]);
            assert(lines@[i as int]@ == ldv[i as int]);
            assert(bind_map_parser()(ldv[i as int]) == bind_map_line(ldv[i as int]));
        }
        let parts = split_str(lines[i].as_str(), '=');
        proof {
            assert(parts.deep_view() == split_on(ldv[i as int], '='));
        }
        if parts.len() < 2 {
            proof {
                assert(assoc_lines(ldv.take(i + 1), bind_map_parser()) is None);
                lemma_assoc_lines_prefix_none(ldv, bind_map_parser(), i + 1);
            }
            return None;
        }
        proof {
            assert(parts@[0]@ == parts.deep_view()[0]);
            assert(parts@[1]@ == parts.deep_view()[1]);
        }
        match parse_ident(parts[0].as_str()) {
            Err(_) => {
                proof {
                    assert(assoc_lines(ldv.take(i + 1), bind_map_parser()) is None);
                    lemma_assoc_lines_prefix_none(ldv, bind_map_parser(), i + 1);
                }
                return None;
            },
            Ok(id) => {
                let toks = split_str(parts[1].as_str(), ' ');
                match parse_mapping_tokens(&toks) {
                    Some(ms) => {
                        bind_map_upsert(&mut out, id, ms);
                    },
                    None => {
                        proof {
                            assert(assoc_lines(ldv.take(i + 1), bind_map_parser()) is None);
                            lemma_assoc_lines_prefix_none(ldv, bind_map_parser(), i + 1);
                        }
                        return None;
                    },
                }
            },
        }
        i += 1;
    }
    proof {
        assert(ldv.take(n as int) =~= ldv);
    }
    Some(out)
}

impl PackageInstall {
    /// The bind mappings of a composite package: for each dependent
    /// sub-package, which provider satisfies each of its binds, in declared
    /// order. A line missing `=`, an unparsable identifier or an unparsable
    /// token fails the whole file; an absent metafile is an empty mapping.
    pub fn bind_map(&self, read: FileRead) -> (r: Result<
        Vec<(PackageIdent, Vec<BindMapping>)>,
        Error,
    >)
        ensures
            (match read {
                FileRead::Found(s) => (match assoc_lines(
                    body_lines(trimmed(s@)),
                    bind_map_parser(),
                ) {
                    Some(m) => r matches Ok(v) && v.deep_view() == m,
                    None => r matches Err(e) && e == Error::MetaFileBadBind,
                }),
                FileRead::Absent => r matches Ok(v) && v.deep_view() == Seq::<(
                    IdentView,
                    Seq<BindMappingView>,
                )>::empty(),
                FileRead::NotText => r matches Err(e) && e == Error::MetaFileMalformed(
                    MetaFile::BindMap,
                ),
                FileRead::IoError(c) => r matches Err(e) && e == Error::MetaFileIO(c),
            }),
    {
        match metafile_body(read, MetaFile::BindMap) {
            Ok(body) => {
                match parse_bind_map_lines(body.as_str()) {
                    Some(v) => Ok(v),
                    None => Err(Error::MetaFileBadBind),
                }
            },
            Err(e) => {
                match e {
                    Error::MetaFileNotFound(_) => {
                        let v: Vec<(PackageIdent, Vec<BindMapping>)> = Vec::new();
                        proof {
                            assert(v.deep_view() =~= Seq::<(
                                IdentView,
                                Seq<BindMappingView>,
                            )>::empty());
                        }
                        Ok(v)
                    },
                    _ => Err(e),
                }
            },
        }
    }
}

/// Path entries filtered to those under `prefix`, order kept.
pub open spec fn entries_under_prefix(parts: Seq<Seq<char>>, prefix: Seq<char>) -> Seq<Seq<char>>
    decreases parts.len(),
{
    if parts.len() == 0 {
        Seq::<Seq<char>>::empty()
    } else {
        let pre = entries_under_prefix(parts.drop_last(), prefix);
        if under_prefix(parts.last(), prefix) {
            pre.push(parts.last())
        } else {
            pre
        }
    }
}

/// A path-list string split at `:` and filtered to entries under `prefix`.
pub open spec fn filtered_paths(list: Seq<char>, prefix: Seq<char>) -> Seq<Seq<char>> {
    entries_under_prefix(split_path_list(list), prefix)
}

/// What a present `PATH` metafile body yields: nothing for an empty body,
/// else its entries filtered to the package's own prefix.
pub open spec fn paths_of_body(body: Seq<char>, prefix: Seq<char>) -> Seq<Seq<char>> {
    if body.len() == 0 {
        Seq::<Seq<char>>::empty()
    } else {
        filtered_paths(body, prefix)
    }
}

/// Splits a path-list string and keeps the entries under `prefix`.
fn filter_paths(list: &str, prefix: &str) -> (r: Vec<String>)
    ensures
        r.deep_view() == filtered_paths(list@, prefix@),
{
    let parts = split_str(list, ':');
    let n = parts.len();
    let ghost pdv = parts.deep_view();
    let mut out: Vec<String> = Vec::new();
    let mut i: usize = 0;
    proof {
        assert(pdv.take(0) =~= Seq::<Seq<char>>::empty());
        assert(out.deep_view() =~= Seq::<Seq<char>>::empty());
    }
    while i < n
        invariant
            0 <= i <= n,
            n == parts.len(),
            pdv == parts.deep_view(),
            pdv == split_path_list(list@),
            out.deep_view() == entries_under_prefix(pdv.take(i as int), prefix@),
        decreases n - i,
    {
        proof {
            assert(pdv.take(i + 1).drop_last() =~= pdv.take(i as int));
            assert(pdv.take(i + 1).last() == pdv[i as int]);
            assert(parts@[i as int]@ == pdv[i as int]);
        }
        let under = path_under_prefix(parts[i].as_str(), prefix);
        if under {
            let ghost prev = out.deep_view();
            let kept = parts[i].clone();
            let ghost kv = kept@;
            out.push(kept);
            proof {
                assert(out.deep_view() =~= prev.push(kv));
            }
        }
        i += 1;
    }
    proof {
        assert(pdv.take(n as int) =~= pdv);
    }
    out
}

/// Looks a key up in a key-value list.
fn kv_get(m: &Vec<(String, String)>, key: &str) -> (r: Option<String>)
    ensures
        (match r {
            Some(v) => assoc_get(m.deep_view(), key@) == Some(v@),
            None => assoc_get(m.deep_view(), key@) is None,
        }),
{
    let n = m.len();
    let ghost mdv = m.deep_view();
    let mut j: usize = 0;
    proof {
        assert(mdv.skip(0) =~= mdv);
    }
    while j < n
        invariant
            0 <= j <= n,
            n == m.len(),
            mdv == m.deep_view(),
            assoc_get(mdv, key@) == assoc_get(mdv.skip(j as int), key@),
        decreases n - j,
    {
        proof {
            assert(mdv.skip(j as int)[0] == mdv[j as int]);
            assert(mdv.skip(j as int).drop_first() =~= mdv.skip(j + 1));
        }
        let hit = str_eq(m[j].0.as_str(), key);
        if hit {
            proof {
                assert(mdv[j as int].0 == key@);
            }
            return Some(m[j].1.clone());
        }
        j += 1;
    }
    proof {
        assert(mdv.skip(n as int) =~= Seq::<(Seq<char>, Seq<char>)>::empty());
    }
    None
}

impl PackageInstall {
    /// The entries of this package's `PATH` metafile that lie under its own
    /// install prefix; entries leaked in from other packages by certain
    /// historical builds are dropped. An absent metafile yields no entries,
    /// except on a legacy platform family, where the caller also hands in
    /// its read of `RUNTIME_ENVIRONMENT` and the `PATH` key recorded there
    /// stands in, under the same prefix filter.
    pub fn paths(&self, path_read: FileRead, legacy_runtime_read: Option<FileRead>) -> (r: Result<
        Vec<String>,
        Error,
    >)
        ensures
            (match path_read {
                FileRead::Found(s) => r matches Ok(v) && v.deep_view() == paths_of_body(
                    trimmed(s@),
                    install_prefix_view(self@.ident, None),
                ),
                FileRead::Absent => (match legacy_runtime_read {
                    None => r matches Ok(v) && v.deep_view() == Seq::<Seq<char>>::empty(),
                    Some(rr) => (match rr {
                        FileRead::Found(s2) => (match assoc_lines(
                            body_lines(trimmed(s2@)),
                            kv_parser(),
                        ) {
                            None => r matches Err(e) && e == Error::MetaFileMalformed(
                                MetaFile::RuntimeEnvironment,
                            ),
                            Some(m) => (match assoc_get(m, "PATH"@) {
                                None => r matches Ok(v) && v.deep_view() == Seq::<
                                    Seq<char>,
                                >::empty(),
                                Some(val) => r matches Ok(v) && v.deep_view() == filtered_paths(
                                    val,
                                    install_prefix_view(self@.ident, None),
                                ),
                            }),
                        }),
                        FileRead::Absent => r matches Ok(v) && v.deep_view() == Seq::<
                            Seq<char>,
                        >::empty(),
                        FileRead::NotText => r matches Err(e) && e == Error::MetaFileMalformed(
                            MetaFile::RuntimeEnvironment,
                        ),
                        FileRead::IoError(c) => r matches Err(e) && e == Error::MetaFileIO(c),
                    }),
                }),
                FileRead::NotText => r matches Err(e) && e == Error::MetaFileMalformed(
                    MetaFile::Path,
                ),
                FileRead::IoError(c) => r matches Err(e) && e == Error::MetaFileIO(c),
            }),
    {
        let prefix = install_prefix(&self.ident, None);
        match metafile_body(path_read, MetaFile::Path) {
            Ok(body) => {
                if body.as_str().unicode_len() == 0 {
                    let v: Vec<String> = Vec::new();
                    proof {
                        assert(v.deep_view() =~= Seq::<Seq<char>>::empty());
                    }
                    Ok(v)
                } else {
                    Ok(filter_paths(body.as_str(), prefix.as_str()))
                }
            },
            Err(e) => {
                match e {
                    Error::MetaFileNotFound(_) => {
                        match legacy_runtime_read {
                            None => {
                                let v: Vec<String> = Vec::new();
                                proof {
                                    assert(v.deep_view() =~= Seq::<Seq<char>>::empty());
                                }
                                Ok(v)
                            },
                            Some(rr) => {
                                match metafile_body(rr, MetaFile::RuntimeEnvironment) {
                                    Ok(body2) => {
                                        match parse_kv_lines(body2.as_str()) {
                                            None => Err(
                                                Error::MetaFileMalformed(
                                                    MetaFile::RuntimeEnvironment,
                                                ),
                                            ),
                                            Some(kvs) => {
                                                match kv_get(&kvs, "PATH") {
                                                    None => {
                                                        let v: Vec<String> = Vec::new();
                                                        proof {
                                                            assert(v.deep_view() =~= Seq::<
                                                                Seq<char>,
                                                            >::empty());
                                                        }
                                                        Ok(v)
                                                    },
                                                    Some(val) => Ok(
                                                        filter_paths(
                                                            val.as_str(),
                                                            prefix.as_str(),
                                                        ),
                                                    ),
                                                }
                                            },
                                        }
                                    },
                                    Err(e2) => {
                                        match e2 {
                                            Error::MetaFileNotFound(_) => {
                                                let v: Vec<String> = Vec::new();
                                                proof {
                                                    assert(v.deep_view() =~= Seq::<
                                                        Seq<char>,
                                                    >::empty());
                                                }
                                                Ok(v)
                                            },
                                            _ => Err(e2),
                                        }
                                    },
                                }
                            },
                        }
                    },
                    _ => Err(e),
                }
            },
        }
    }

    /// The package's runtime environment: the `KEY=VALUE` lines of its
    /// `RUNTIME_ENVIRONMENT` metafile, later lines overwriting earlier
    /// keys. A package from before that metafile existed gets a `PATH`
    /// entry instead, joining the legacy runtime path the caller assembled
    /// across its dependency graph; an entry holding the list separator
    /// makes that join impossible.
    pub fn runtime_environment(&self, read: FileRead, legacy_paths: &Vec<String>) -> (r: Result<
        Vec<(String, String)>,
        Error,
    >)
        ensures
            (match read {
                FileRead::Found(s) => (match assoc_lines(body_lines(trimmed(s@)), kv_parser()) {
                    Some(m) => r matches Ok(v) && v.deep_view() == m,
                    None => r matches Err(e) && e == Error::MetaFileMalformed(
                        MetaFile::RuntimeEnvironment,
                    ),
                }),
                FileRead::Absent => (if any_holds_sep(legacy_paths.deep_view()) {
                    r matches Err(e) && e == Error::InvalidPathString
                } else {
                    r matches Ok(v) && v.deep_view() == seq![
                        ("PATH"@, joined_path_list(legacy_paths.deep_view())),
                    ]
                }),
                FileRead::NotText => r matches Err(e) && e == Error::MetaFileMalformed(
                    MetaFile::RuntimeEnvironment,
                ),
                FileRead::IoError(c) => r matches Err(e) && e == Error::MetaFileIO(c),
            }),
    {
        match metafile_body(read, MetaFile::RuntimeEnvironment) {
            Ok(body) => {
                match parse_kv_lines(body.as_str()) {
                    Some(v) => Ok(v),
                    None => Err(Error::MetaFileMalformed(MetaFile::RuntimeEnvironment)),
                }
            },
            Err(e) => {
                match e {
                    Error::MetaFileNotFound(_) => {
                        let joined = match join_path_list(legacy_paths) {
                            Ok(j) => j,
                            Err(je) => {
                                return Err(je);
                            },
                        };
                        let key = "PATH".to_owned();
                        let ghost kv = (key@, joined@);
                        let mut env: Vec<(String, String)> = Vec::new();
                        env.push((key, joined));
                        proof {
                            assert(env.deep_view() =~= seq![kv]);
                        }
                        Ok(env)
                    },
                    _ => Err(e),
                }
            },
        }
    }

    /// Decodes the package's default configuration, if a readable
    /// `default.toml` was handed in and parses as a TOML document; any
    /// failure yields no configuration rather than an error.
    pub fn default_cfg(&self, raw: Option<String>) -> (r: Option<toml::Value>)
        ensures
            r is Some <==> (raw matches Some(s) && toml_parses(s@)),
    {
        match raw {
            Some(contents) => parse_toml_value(contents.as_str()),
            None => None,
        }
    }
}

#[verifier::external_type_specification]
#[verifier::external_body]
pub struct ExTomlValue(toml::Value);

/// Whether a string parses as a TOML document; what `toml`'s parser accepts
/// is a function of the characters alone.
pub uninterp spec fn toml_parses(s: Seq<char>) -> bool;

/// Relies on the `FromStr` impl of `toml::Table`, which parses a whole
/// TOML document: success depends on the input string alone.
#[verifier::external_body]
fn parse_toml_value(raw: &str) -> (r: Option<toml::Value>)
    ensures
        r is Some <==> toml_parses(raw@),
{
    match raw.parse::<toml::Table>() {
        Ok(t) => Some(toml::Value::Table(t)),
        Err(_) => None,
    }
}

/// The order-preserving, globally de-duplicating merge behind the legacy
/// runtime path: each entry appears once, at its first occurrence.
pub open spec fn dedup_first(s: Seq<Seq<char>>) -> Seq<Seq<char>>
    decreases s.len(),
{
    if s.len() == 0 {
        Seq::<Seq<char>>::empty()
    } else {
        let pre = dedup_first(s.drop_last());
        if pre.contains(s.last()) {
            pre
        } else {
            pre.push(s.last())
        }
    }
}

/// No entry of a de-duplicated merge appears twice.
pub proof fn lemma_dedup_first_unique(s: Seq<Seq<char>>)
    ensures
        forall|i: int, j: int|
            0 <= i < j < dedup_first(s).len() ==> dedup_first(s)[i] != dedup_first(s)[j],
    decreases s.len(),
{
    if s.len() > 0 {
        lemma_dedup_first_unique(s.drop_last());
        let pre = dedup_first(s.drop_last());
        if !pre.contains(s.last()) {
            assert forall|i: int, j: int|
                0 <= i < j < dedup_first(s).len() implies dedup_first(s)[i] != dedup_first(
                s,
            )[j] by {
                if j == pre.len() {
                    assert(dedup_first(s)[i] == pre[i]);
                    if pre[i] == s.last() {
                        assert(pre.contains(s.last()));
                    }
                }
            }
        }
    }
}

/// The merge keeps exactly the entries that occur somewhere in its input.
pub proof fn lemma_dedup_first_membership(s: Seq<Seq<char>>, x: Seq<char>)
    ensures
        dedup_first(s).contains(x) <==> s.contains(x),
    decreases s.len(),
{
    if s.len() > 0 {
        lemma_dedup_first_membership(s.drop_last(), x);
        let pre = dedup_first(s.drop_last());
        if s.contains(x) {
            let w = choose|w: int| 0 <= w < s.len() && s[w] == x;
            if w < s.len() - 1 {
                assert(s.drop_last()[w] == x);
                assert(s.drop_last().contains(x));
            } else {
                assert(s.last() == x);
            }
            if pre.contains(x) {
                let v = choose|v: int| 0 <= v < pre.len() && pre[v] == x;
                if !pre.contains(s.last()) {
                    assert(dedup_first(s)[v] == x);
                }
                assert(dedup_first(s).contains(x));
            } else {
                assert(s.last() == x);
                assert(dedup_first(s).last() == x);
                assert(dedup_first(s).contains(x));
            }
        }
        if dedup_first(s).contains(x) {
            let w = choose|w: int| 0 <= w < dedup_first(s).len() && dedup_first(s)[w] == x;
            if pre.contains(s.last()) {
                assert(pre[w] == x);
                assert(s.drop_last().contains(x));
                assert(s.drop_last()[choose|v: int|
                    0 <= v < s.drop_last().len() && s.drop_last()[v] == x] == x);
                assert(s.contains(x)) by {
                    let v = choose|v: int| 0 <= v < s.drop_last().len() && s.drop_last()[v] == x;
                    assert(s[v] == x);
                }
            } else {
                if w < pre.len() {
                    assert(pre[w] == x);
                    assert(s.drop_last().contains(x));
                    assert(s.contains(x)) by {
                        let v = choose|v: int|
                            0 <= v < s.drop_last().len() && s.drop_last()[v] == x;
                        assert(s[v] == x);
                    }
                } else {
                    assert(x == s.last());
                    assert(s.contains(x)) by {
                        assert(s[s.len() - 1] == x);
                    }
                }
            }
        }
    }
}

/// Whether a string list holds an entry with these characters.
fn vec_contains_str(v: &Vec<String>, x: &str) -> (r: bool)
    ensures
        r == v.deep_view().contains(x@),
{
    let n = v.len();
    let mut j: usize = 0;
    while j < n
        invariant
            0 <= j <= n,
            n == v.len(),
            forall|t: int| 0 <= t < j ==> v.deep_view()[t] != x@,
        decreases n - j,
    {
        if str_eq(v[j].as_str(), x) {
            proof {
                assert(v.deep_view()[j as int] == x@);
            }
            return true;
        }
        j += 1;
    }
    proof {
        assert(!v.deep_view().contains(x@)) by {
            if v.deep_view().contains(x@) {
                let t = choose|t: int|
                    0 <= t < v.deep_view().len() && v.deep_view()[t] == x@;
                assert(v.deep_view()[t] != x@);
            }
        }
    }
    false
}

/// Builds the legacy runtime path from the per-package path lists, in the
/// order handed in — this package's own entries, then each direct
/// dependency's, then each transitive dependency's — keeping every entry
/// once, at its first occurrence across the whole merge.
pub fn merge_runtime_paths(lists: &Vec<Vec<String>>) -> (r: Vec<String>)
    ensures
        r.deep_view() == dedup_first(lists.deep_view().flatten()),
{
    let mut out: Vec<String> = Vec::new();
    let ghost ldv = lists.deep_view();
    let n = lists.len();
    let mut li: usize = 0;
    proof {
        assert(ldv.take(0) =~= Seq::<Seq<Seq<char>>>::empty());
        assert(out.deep_view() =~= Seq::<Seq<char>>::empty());
        assert(ldv.take(0).flatten_alt() =~= Seq::<Seq<char>>::empty());
    }
    while li < n
        invariant
            0 <= li <= n,
            n == lists.len(),
            ldv == lists.deep_view(),
            out.deep_view() == dedup_first(ldv.take(li as int).flatten_alt()),
        decreases n - li,
    {
        let entries = &lists[li];
        let m = entries.len();
        let mut ei: usize = 0;
        proof {
            assert(entries.deep_view() == ldv[li as int]);
            assert(ldv[li as int].take(0) =~= Seq::<Seq<char>>::empty());
            assert(ldv.take(li as int).flatten_alt() + ldv[li as int].take(0) =~= ldv.take(
                li as int,
            ).flatten_alt());
        }
        while ei < m
            invariant
                0 <= ei <= m,
                0 <= li < n,
                n == lists.len(),
                m == entries.len(),
                ldv == lists.deep_view(),
                entries == lists@[li as int],
                entries.deep_view() == ldv[li as int],
                out.deep_view() == dedup_first(
                    ldv.take(li as int).flatten_alt() + ldv[li as int].take(ei as int),
                ),
            decreases m - ei,
        {
            let e = &entries[ei];
            let ghost base = ldv.take(li as int).flatten_alt() + ldv[li as int].take(ei as int);
            proof {
                assert(entries@[ei as int]@ == ldv[li as int][ei as int]);
                assert((ldv.take(li as int).flatten_alt() + ldv[li as int].take(ei + 1))
                    =~= base.push(ldv[li as int][ei as int]));
                assert(base.push(ldv[li as int][ei as int]).drop_last() =~= base);
            }
            if !vec_contains_str(&out, e.as_str()) {
                let ghost prev = out.deep_view();
                let kept = e.clone();
                let ghost kv = kept@;
                out.push(kept);
                proof {
                    assert(out.deep_view() =~= prev.push(kv));
                }
            }
            ei += 1;
        }
        proof {
            assert(ldv.take(li + 1).drop_last() =~= ldv.take(li as int));
            assert(ldv.take(li + 1).last() == ldv[li as int]);
            assert(ldv[li as int].take(m as int) =~= ldv[li as int]);
            assert(ldv.take(li + 1).flatten_alt() =~= ldv.take(li as int).flatten_alt()
                + ldv[li as int]);
        }
        li += 1;
    }
    proof {
        assert(ldv.take(n as int) =~= ldv);
        ldv.lemma_flatten_and_flatten_alt_are_equivalent();
    }
    out
}

/// Law behind latest-match resolution: a winner is one of the installed
/// candidates and satisfies the pattern; no winner means no candidate
/// satisfied it.
pub proof fn lemma_select_latest_sound(cands: Seq<IdentView>, pat: IdentView)
    ensures
        (match select_latest_view(cands, pat) {
            Some(w) => cands.contains(w) && satisfies_view(w, pat),
            None => forall|i: int| 0 <= i < cands.len() ==> !satisfies_view(cands[i], pat),
        }),
    decreases cands.len(),
{
    if cands.len() > 0 {
        lemma_select_latest_sound(cands.drop_last(), pat);
        let prev = select_latest_view(cands.drop_last(), pat);
        match prev {
            Some(w) => {
                let v = choose|v: int|
                    0 <= v < cands.drop_last().len() && cands.drop_last()[v] == w;
                assert(cands[v] == w);
                assert(cands.contains(w));
            },
            None => {},
        }
        match select_latest_view(cands, pat) {
            Some(w) => {
                if w == cands.last() {
                    assert(cands[cands.len() - 1] == w);
                    assert(cands.contains(w));
                }
            },
            None => {
                assert forall|i: int| 0 <= i < cands.len() implies !satisfies_view(
                    cands[i],
                    pat,
                ) by {
                    if i < cands.len() - 1 {
                        assert(cands.drop_last()[i] == cands[i]);
                    }
                }
            },
        }
    }
}

/// Law behind at-least resolution: a winner is one of the installed
/// candidates and shares the bound's origin and name; no winner means every
/// candidate of that origin and name compared below the bound.
pub proof fn lemma_select_min_sound(cands: Seq<IdentView>, bound: IdentView)
    ensures
        (match select_min_view(cands, bound) {
            Some(w) => cands.contains(w) && w.origin == bound.origin && w.name == bound.name,
            None => forall|i: int|
                0 <= i < cands.len() && cands[i].origin == bound.origin && cands[i].name
                    == bound.name ==> ident_cmp(cands[i], bound) == Ordering::Less,
        }),
    decreases cands.len(),
{
    if cands.len() > 0 {
        lemma_select_min_sound(cands.drop_last(), bound);
        let prev = select_min_view(cands.drop_last(), bound);
        match prev {
            Some(w) => {
                let v = choose|v: int|
                    0 <= v < cands.drop_last().len() && cands.drop_last()[v] == w;
                assert(cands[v] == w);
                assert(cands.contains(w));
            },
            None => {},
        }
        match select_min_view(cands, bound) {
            Some(w) => {
                if w == cands.last() {
                    assert(cands[cands.len() - 1] == w);
                    assert(cands.contains(w));
                }
            },
            None => {
                assert forall|i: int|
                    0 <= i < cands.len() && cands[i].origin == bound.origin && cands[i].name
                        == bound.name implies ident_cmp(cands[i], bound) == Ordering::Less by {
                    if i < cands.len() - 1 {
                        assert(cands.drop_last()[i] == cands[i]);
                    }
                }
            },
        }
    }
}

/// Law behind `paths`: what survives the filter is exactly what lies under
/// the package's own install prefix — every kept entry is under it, and an
/// entry of the list under it is kept.
pub proof fn lemma_entries_under_prefix_exact(parts: Seq<Seq<char>>, prefix: Seq<char>)
    ensures
        forall|i: int|
            0 <= i < entries_under_prefix(parts, prefix).len() ==> under_prefix(
                #[trigger] entries_under_prefix(parts, prefix)[i],
                prefix,
            ),
        forall|e: Seq<char>|
            #[trigger] entries_under_prefix(parts, prefix).contains(e) <==> (parts.contains(e)
                && under_prefix(e, prefix)),
    decreases parts.len(),
{
    if parts.len() > 0 {
        lemma_entries_under_prefix_exact(parts.drop_last(), prefix);
        let pre = entries_under_prefix(parts.drop_last(), prefix);
        let whole = entries_under_prefix(parts, prefix);
        assert forall|e: Seq<char>| #[trigger] whole.contains(e) implies (parts.contains(e)
            && under_prefix(e, prefix)) by {
            let w = choose|w: int| 0 <= w < whole.len() && whole[w] == e;
            if w < pre.len() {
                assert(pre[w] == e);
                assert(pre.contains(e));
                let v = choose|v: int|
                    0 <= v < parts.drop_last().len() && parts.drop_last()[v] == e;
                assert(parts[v] == e);
                assert(parts.contains(e));
            } else {
                assert(e == parts.last());
                assert(parts[parts.len() - 1] == e);
                assert(parts.contains(e));
            }
        }
        assert forall|e: Seq<char>| (parts.contains(e) && under_prefix(
            e,
            prefix,
        )) implies #[trigger] whole.contains(e) by {
            let w = choose|w: int| 0 <= w < parts.len() && parts[w] == e;
            if w < parts.len() - 1 {
                assert(parts.drop_last()[w] == e);
                assert(parts.drop_last().contains(e));
                assert(pre.contains(e));
                let v = choose|v: int| 0 <= v < pre.len() && pre[v] == e;
                assert(whole[v] == e);
                assert(whole.contains(e));
            } else {
                assert(e == parts.last());
                if pre.contains(e) {
                    let v = choose|v: int| 0 <= v < pre.len() && pre[v] == e;
                    assert(whole[v] == e);
                    assert(whole.contains(e));
                } else {
                    assert(whole.last() == e);
                    assert(whole.contains(e));
                }
            }
        }
    }
}

/// Assembles the store's enumeration from the walked directory levels: each
/// `(origin, name, version, release)` quadruple the walk found becomes one
/// fully-qualified identifier, in walk order.
pub fn package_list_from_walk(entries: Vec<(String, String, String, String)>) -> (r: Vec<
    PackageIdent,
>)
    ensures
        r.deep_view().len() == entries.deep_view().len(),
        forall|i: int|
            0 <= i < entries.deep_view().len() ==> r.deep_view()[i] == (IdentView {
                origin: entries.deep_view()[i].0,
                name: entries.deep_view()[i].1,
                version: Some(entries.deep_view()[i].2),
                release: Some(entries.deep_view()[i].3),
            }),
        forall|i: int|
            0 <= i < r.deep_view().len() ==> fully_qualified_view(#[trigger] r.deep_view()[i]),
{
    let mut r: Vec<PackageIdent> = Vec::new();
    let n = entries.len();
    let mut i: usize = 0;
    while i < n
        invariant
            0 <= i <= n,
            n == entries.len(),
            r.len() == i,
            forall|j: int|
                0 <= j < i ==> r.deep_view()[j] == (IdentView {
                    origin: entries.deep_view()[j].0,
                    name: entries.deep_view()[j].1,
                    version: Some(entries.deep_view()[j].2),
                    release: Some(entries.deep_view()[j].3),
                }),
        decreases n - i,
    {
        let e = &entries[i];
        let id = PackageIdent {
            origin: e.0.clone(),
            name: e.1.clone(),
            version: Some(e.2.clone()),
            release: Some(e.3.clone()),
        };
        let ghost prev = r.deep_view();
        let ghost idv = id@;
        r.push(id);
        proof {
            assert(r.deep_view() =~= prev.push(idv));
            assert(entries.deep_view()[i as int] == (e.0@, e.1@, e.2@, e.3@));
        }
        i += 1;
    }
    r
}

} // verus!
