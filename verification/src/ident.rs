//! The package identifier model: a possibly partial `origin/name/version/release`
//! identifier, its textual form, the partial-match predicate `satisfies`, and
//! the total order used to pick the latest installed package.

use vstd::prelude::*;
use core::cmp::Ordering;
use crate::error::Error;
use crate::strutil::{
    lex_cmp, lex_cmp_str, split_on, split_str, version_cmp, version_cmp_str,
};

verus! {

/// The mathematical value of a `PackageIdent`.
#[verifier::ext_equal]
pub ghost struct IdentView {
    pub origin: Seq<char>,
    pub name: Seq<char>,
    pub version: Option<Seq<char>>,
    pub release: Option<Seq<char>>,
}

/// A package identifier. Origin and name are always present; version and
/// release are optional, and an identifier carrying both is fully qualified.
#[derive(Clone, Debug)]
pub struct PackageIdent {
    pub origin: String,
    pub name: String,
    pub version: Option<String>,
    pub release: Option<String>,
}

impl View for PackageIdent {
    type V = IdentView;

    open spec fn view(&self) -> IdentView {
        IdentView {
            origin: self.origin@,
            name: self.name@,
            version: match self.version {
                Some(v) => Some(v@),
                None => None,
            },
            release: match self.release {
                Some(r) => Some(r@),
                None => None,
            },
        }
    }
}

impl DeepView for PackageIdent {
    type V = IdentView;

    open spec fn deep_view(&self) -> IdentView {
        self.view()
    }
}

/// An identifier naming origin, name, version and release.
pub open spec fn fully_qualified_view(v: IdentView) -> bool {
    v.version is Some && v.release is Some
}

/// The partial-match predicate: `cand` matches the pattern `pat` when origin
/// and name agree and each field the pattern sets agrees too; fields the
/// pattern leaves unset are wildcards.
pub open spec fn satisfies_view(cand: IdentView, pat: IdentView) -> bool {
    &&& cand.origin == pat.origin
    &&& cand.name == pat.name
    &&& (pat.version is Some ==> cand.version == pat.version)
    &&& (pat.release is Some ==> cand.release == pat.release)
}

/// Order of two optional version strings: an unset version sorts lowest,
/// set versions compare segment-wise.
pub open spec fn version_opt_cmp(a: Option<Seq<char>>, b: Option<Seq<char>>) -> Ordering {
    match (a, b) {
        (None, None) => Ordering::Equal,
        (None, Some(_)) => Ordering::Less,
        (Some(_), None) => Ordering::Greater,
        (Some(x), Some(y)) => version_cmp(x, y),
    }
}

/// Order of two optional release strings: an unset release sorts lowest,
/// set releases compare lexicographically (they are fixed-width serials).
pub open spec fn release_opt_cmp(a: Option<Seq<char>>, b: Option<Seq<char>>) -> Ordering {
    match (a, b) {
        (None, None) => Ordering::Equal,
        (None, Some(_)) => Ordering::Less,
        (Some(_), None) => Ordering::Greater,
        (Some(x), Some(y)) => lex_cmp(x, y),
    }
}

/// The total order over identifiers: by origin, then name, then version,
/// then release.
pub open spec fn ident_cmp(a: IdentView, b: IdentView) -> Ordering {
    if lex_cmp(a.origin, b.origin) != Ordering::Equal {
        lex_cmp(a.origin, b.origin)
    } else if lex_cmp(a.name, b.name) != Ordering::Equal {
        lex_cmp(a.name, b.name)
    } else if version_opt_cmp(a.version, b.version) != Ordering::Equal {
        version_opt_cmp(a.version, b.version)
    } else {
        release_opt_cmp(a.release, b.release)
    }
}

/// The partial order the latest-selection fold uses: identifiers of
/// different origin or name are unordered.
pub open spec fn ident_partial_cmp(a: IdentView, b: IdentView) -> Option<Ordering> {
    if a.origin == b.origin && a.name == b.name {
        Some(ident_cmp(a, b))
    } else {
        None
    }
}

/// A successful parse of an identifier string: two to four non-empty
/// slash-separated parts.
pub open spec fn parsed_ident(s: Seq<char>) -> Option<IdentView> {
    let parts = split_on(s, '/');
    if 2 <= parts.len() && parts.len() <= 4 && (forall|j: int|
        0 <= j < parts.len() ==> parts[j].len() > 0) {
        Some(
            IdentView {
                origin: parts[0],
                name: parts[1],
                version: if parts.len() >= 3 {
                    Some(parts[2])
                } else {
                    None
                },
                release: if parts.len() == 4 {
                    Some(parts[3])
                } else {
                    None
                },
            },
        )
    } else {
        None
    }
}

/// The textual form of an identifier: its set parts joined by slashes.
pub open spec fn shown_ident(v: IdentView) -> Seq<char> {
    let base = v.origin + seq!['/'] + v.name;
    match (v.version, v.release) {
        (Some(ver), Some(rel)) => base + seq!['/'] + ver + seq!['/'] + rel,
        (Some(ver), None) => base + seq!['/'] + ver,
        _ => base,
    }
}

impl PackageIdent {
    pub fn new(
        origin: String,
        name: String,
        version: Option<String>,
        release: Option<String>,
    ) -> (r: PackageIdent)
        ensures
            (r == PackageIdent { origin, name, version, release }),
    {
        PackageIdent { origin, name, version, release }
    }

    /// Whether this identifier names an exact installed artifact.
    pub fn fully_qualified(&self) -> (r: bool)
        ensures
            r == fully_qualified_view(self@),
    {
        self.version.is_some() && self.release.is_some()
    }

    /// Whether this identifier matches the pattern `other`: unset fields of
    /// `other` are wildcards, set ones must agree.
    pub fn satisfies(&self, other: &PackageIdent) -> (r: bool)
        ensures
            r == satisfies_view(self@, other@),
    {
        if !(self.origin == other.origin) {
            return false;
        }
        if !(self.name == other.name) {
            return false;
        }
        let version_ok = match (&other.version, &self.version) {
            (None, _) => true,
            (Some(p), Some(c)) => *c == *p,
            (Some(_), None) => false,
        };
        if !version_ok {
            return false;
        }
        match (&other.release, &self.release) {
            (None, _) => true,
            (Some(p), Some(c)) => *c == *p,
            (Some(_), None) => false,
        }
    }

    /// The total order over identifiers, used to pick the latest.
    pub fn cmp_ident(&self, other: &PackageIdent) -> (r: Ordering)
        ensures
            r == ident_cmp(self@, other@),
    {
        let oc = lex_cmp_str(self.origin.as_str(), other.origin.as_str());
        match oc {
            Ordering::Equal => {},
            _ => {
                return oc;
            },
        }
        let nc = lex_cmp_str(self.name.as_str(), other.name.as_str());
        match nc {
            Ordering::Equal => {},
            _ => {
                return nc;
            },
        }
        let vc = match (&self.version, &other.version) {
            (None, None) => Ordering::Equal,
            (None, Some(_)) => Ordering::Less,
            (Some(_), None) => Ordering::Greater,
            (Some(x), Some(y)) => version_cmp_str(x.as_str(), y.as_str()),
        };
        match vc {
            Ordering::Equal => {},
            _ => {
                return vc;
            },
        }
        match (&self.release, &other.release) {
            (None, None) => Ordering::Equal,
            (None, Some(_)) => Ordering::Less,
            (Some(_), None) => Ordering::Greater,
            (Some(x), Some(y)) => lex_cmp_str(x.as_str(), y.as_str()),
        }
    }

    /// The fold's comparison: ordered only against an identifier of the same
    /// origin and name.
    pub fn partial_cmp_ident(&self, other: &PackageIdent) -> (r: Option<Ordering>)
        ensures
            r == ident_partial_cmp(self@, other@),
    {
        if self.origin == other.origin && self.name == other.name {
            Some(self.cmp_ident(other))
        } else {
            None
        }
    }

    /// An explicit copy carrying the same value.
    pub fn duplicate(&self) -> (r: PackageIdent)
        ensures
            r@ == self@,
    {
        PackageIdent {
            origin: self.origin.clone(),
            name: self.name.clone(),
            version: match &self.version {
                Some(v) => Some(v.clone()),
                None => None,
            },
            release: match &self.release {
                Some(r) => Some(r.clone()),
                None => None,
            },
        }
    }

    /// Whether two identifiers hold the same value in every field.
    pub fn ident_eq(&self, other: &PackageIdent) -> (r: bool)
        ensures
            r == (self@ == other@),
    {
        let fields_eq = self.origin == other.origin && self.name == other.name && (match (
            &self.version,
            &other.version,
        ) {
            (None, None) => true,
            (Some(a), Some(b)) => *a == *b,
            _ => false,
        }) && (match (&self.release, &other.release) {
            (None, None) => true,
            (Some(a), Some(b)) => *a == *b,
            _ => false,
        });
        proof {
            if fields_eq {
                assert(self@ =~= other@);
            }
        }
        fields_eq
    }

    /// Renders the identifier as its slash-joined textual form.
    pub fn render(&self) -> (r: String)
        ensures
            r@ == shown_ident(self@),
    {
        proof {
            reveal_strlit("/");
            assert("/"@ =~= seq!['/']);
        }
        let mut out = self.origin.clone();
        out.append("/");
        out.append(self.name.as_str());
        match &self.version {
            Some(ver) => {
                out.append("/");
                out.append(ver.as_str());
                match &self.release {
                    Some(rel) => {
                        out.append("/");
                        out.append(rel.as_str());
                    },
                    None => {},
                }
            },
            None => {},
        }
        out
    }
}

impl PartialEq for PackageIdent {
    fn eq(&self, other: &PackageIdent) -> (r: bool) {
        self.ident_eq(other)
    }
}

impl vstd::std_specs::cmp::PartialEqSpecImpl for PackageIdent {
    open spec fn obeys_eq_spec() -> bool {
        true
    }

    open spec fn eq_spec(&self, other: &PackageIdent) -> bool {
        self@ == other@
    }
}

/// Parses an identifier from its textual form; a string that is not two to
/// four non-empty slash-separated parts is rejected as invalid.
pub fn parse_ident(s: &str) -> (r: Result<PackageIdent, Error>)
    ensures
        (match r {
            Ok(id) => parsed_ident(s@) == Some(id@),
            Err(e) => {
                &&& parsed_ident(s@) is None
                &&& e matches Error::InvalidPackageIdent(t) && t@ == s@
            },
        }),
{
    let parts = split_str(s, '/');
    let n = parts.len();
    proof {
        assert(forall|j: int|
            0 <= j < parts.deep_view().len() ==> parts.deep_view()[j] == parts@[j]@);
    }
    if n < 2 || n > 4 {
        return Err(Error::InvalidPackageIdent(s.to_owned()));
    }
    let mut k: usize = 0;
    while k < n
        invariant
            0 <= k <= n,
            n == parts.len(),
            parts.deep_view() == split_on(s@, '/'),
            forall|j: int| 0 <= j < k ==> parts.deep_view()[j].len() > 0,
        decreases n - k,
    {
        if parts[k].as_str().is_empty() {
            return Err(Error::InvalidPackageIdent(s.to_owned()));
        }
        k += 1;
    }
    let origin = parts[0].clone();
    let name = parts[1].clone();
    let version = if n >= 3 {
        Some(parts[2].clone())
    } else {
        None
    };
    let release = if n == 4 {
        Some(parts[3].clone())
    } else {
        None
    };
    let id = PackageIdent { origin, name, version, release };
    proof {
        assert(parsed_ident(s@) == Some(id@));
    }
    Ok(id)
}

/// An identifier whose parts can appear in the textual form: non-empty,
/// slash-free, and never a release without a version.
pub open spec fn ident_well_formed(v: IdentView) -> bool {
    &&& v.origin.len() > 0 && !v.origin.contains('/')
    &&& v.name.len() > 0 && !v.name.contains('/')
    &&& (v.version matches Some(x) ==> x.len() > 0 && !x.contains('/'))
    &&& (v.release matches Some(x) ==> x.len() > 0 && !x.contains('/'))
    &&& (v.release is Some ==> v.version is Some)
}

proof fn lemma_no_slash(s: Seq<char>)
    requires
        !s.contains('/'),
    ensures
        forall|j: int| 0 <= j < s.len() ==> s[j] != '/',
{
    assert forall|j: int| 0 <= j < s.len() implies s[j] != '/' by {
        if s[j] == '/' {
            assert(s.contains('/'));
        }
    }
}

/// Law: rendering a well-formed identifier and parsing the text back
/// yields the identifier unchanged.
pub proof fn lemma_ident_render_parse_round_trip(v: IdentView)
    requires
        ident_well_formed(v),
    ensures
        parsed_ident(shown_ident(v)) == Some(v),
{
    let sl = seq!['/'];
    lemma_no_slash(v.origin);
    lemma_no_slash(v.name);
    let s = shown_ident(v);
    match (v.version, v.release) {
        (Some(ver), Some(rel)) => {
            lemma_no_slash(ver);
            lemma_no_slash(rel);
            let rest2 = ver + sl + rel;
            let rest1 = v.name + sl + rest2;
            assert(s =~= v.origin + sl + rest1);
            crate::strutil::lemma_split_on_piece(v.origin, rest1, '/');
            assert(rest1 =~= v.name + sl + rest2);
            crate::strutil::lemma_split_on_piece(v.name, rest2, '/');
            crate::strutil::lemma_split_on_piece(ver, rel, '/');
            crate::strutil::lemma_split_on_no_sep(rel, '/');
            let parts = split_on(s, '/');
            assert(parts =~= seq![v.origin, v.name, ver, rel]);
            assert(parsed_ident(s) == Some(v)) by {
                let got = parsed_ident(s).unwrap();
                assert(got =~= v);
            }
        },
        (Some(ver), None) => {
            lemma_no_slash(ver);
            let rest1 = v.name + sl + ver;
            assert(s =~= v.origin + sl + rest1);
            crate::strutil::lemma_split_on_piece(v.origin, rest1, '/');
            assert(rest1 =~= v.name + sl + ver);
            crate::strutil::lemma_split_on_piece(v.name, ver, '/');
            crate::strutil::lemma_split_on_no_sep(ver, '/');
            let parts = split_on(s, '/');
            assert(parts =~= seq![v.origin, v.name, ver]);
            assert(parsed_ident(s) == Some(v)) by {
                let got = parsed_ident(s).unwrap();
                assert(got =~= v);
            }
        },
        _ => {
            assert(s =~= v.origin + sl + v.name);
            crate::strutil::lemma_split_on_piece(v.origin, v.name, '/');
            crate::strutil::lemma_split_on_no_sep(v.name, '/');
            let parts = split_on(s, '/');
            assert(parts =~= seq![v.origin, v.name]);
            assert(parsed_ident(s) == Some(v)) by {
                let got = parsed_ident(s).unwrap();
                assert(got =~= v);
            }
        },
    }
}

} // verus!
