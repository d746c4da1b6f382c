//! Path arithmetic for the package store: where the store lives under a
//! filesystem root, where a fully-qualified package is installed, and the
//! splitting, joining and prefix-filtering of path-list strings.
//!
//! Paths are modelled as plain strings; segments are joined with `/` and
//! path lists use `:` as the platform's list separator.

use vstd::prelude::*;
use crate::error::Error;
use crate::ident::{IdentView, PackageIdent};
use crate::strutil::split_on;

verus! {

/// `base` with the relative path `child` appended below it.
pub open spec fn joined_path(base: Seq<char>, child: Seq<char>) -> Seq<char> {
    if base.len() == 0 {
        child
    } else if base.last() == '/' {
        base + child
    } else {
        base + seq!['/'] + child
    }
}

/// Appends the relative path `child` below `base`.
pub fn join_path(base: &str, child: &str) -> (r: String)
    ensures
        r@ == joined_path(base@, child@),
{
    proof {
        reveal_strlit("/");
        assert("/"@ =~= seq!['/']);
    }
    let n = base.unicode_len();
    let mut out = base.to_owned();
    if n == 0 {
        return child.to_owned();
    }
    if base.get_char(n - 1) != '/' {
        out.append("/");
    }
    out.append(child);
    out
}

/// The store's location below a filesystem root.
pub open spec fn store_root_view(fs_root: Seq<char>) -> Seq<char> {
    joined_path(fs_root, "hab/pkgs"@)
}

/// The directory all packages are installed under, for the given
/// filesystem root.
pub fn store_root(fs_root: &str) -> (r: String)
    ensures
        r@ == store_root_view(fs_root@),
{
    join_path(fs_root, "hab/pkgs")
}

/// Where an identifier is installed: the store root followed by the
/// directories of the parts the identifier sets. With no filesystem root
/// given, the path is the one recorded inside metafiles, rooted at `/`.
pub open spec fn install_prefix_view(v: IdentView, fs_root: Option<Seq<char>>) -> Seq<char> {
    let root = store_root_view(
        match fs_root {
            Some(p) => p,
            None => "/"@,
        },
    );
    let with_name = joined_path(joined_path(root, v.origin), v.name);
    let with_version = match v.version {
        Some(ver) => joined_path(with_name, ver),
        None => with_name,
    };
    match v.release {
        Some(rel) => joined_path(with_version, rel),
        None => with_version,
    }
}

/// Computes the install path of an identifier.
pub fn install_prefix(ident: &PackageIdent, fs_root: Option<&str>) -> (r: String)
    ensures
        (r@ == install_prefix_view(
            ident@,
            match fs_root {
                Some(p) => Some(p@),
                None => None,
            },
        )),
{
    let root = match fs_root {
        Some(p) => store_root(p),
        None => store_root("/"),
    };
    let with_origin = join_path(root.as_str(), ident.origin.as_str());
    let with_name = join_path(with_origin.as_str(), ident.name.as_str());
    let with_version = match &ident.version {
        Some(v) => join_path(with_name.as_str(), v.as_str()),
        None => with_name,
    };
    match &ident.release {
        Some(r) => join_path(with_version.as_str(), r.as_str()),
        None => with_version,
    }
}

/// A path-list string split at every `:`.
pub open spec fn split_path_list(s: Seq<char>) -> Seq<Seq<char>> {
    split_on(s, ':')
}

/// Path lists joined back with `:` between entries.
pub open spec fn joined_path_list(l: Seq<Seq<char>>) -> Seq<char>
    decreases l.len(),
{
    if l.len() == 0 {
        Seq::<char>::empty()
    } else if l.len() == 1 {
        l[0]
    } else {
        joined_path_list(l.drop_last()) + seq![':'] + l.last()
    }
}

/// Whether any entry holds the list separator, which makes a list of them
/// impossible to join unambiguously.
pub open spec fn any_holds_sep(l: Seq<Seq<char>>) -> bool {
    exists|i: int| 0 <= i < l.len() && l[i].contains(':')
}

/// Joins path entries into one `:`-separated path-list string; an entry that
/// itself holds the separator cannot be represented and is rejected.
pub fn join_path_list(paths: &Vec<String>) -> (r: Result<String, Error>)
    ensures
        (match r {
            Ok(s) => !any_holds_sep(paths.deep_view()) && s@ == joined_path_list(
                paths.deep_view(),
            ),
            Err(e) => any_holds_sep(paths.deep_view()) && e == Error::InvalidPathString,
        }),
{
    proof {
        reveal_strlit(":");
        assert(":"@ =~= seq![':']);
    }
    let mut out = String::new();
    let n = paths.len();
    let mut i: usize = 0;
    proof {
        assert(paths.deep_view().take(0) =~= Seq::<Seq<char>>::empty());
    }
    while i < n
        invariant
            0 <= i <= n,
            n == paths.len(),
            out@ == joined_path_list(paths.deep_view().take(i as int)),
            forall|j: int| 0 <= j < i ==> !paths.deep_view()[j].contains(':'),
        decreases n - i,
    {
        proof {
            reveal_strlit(":");
            assert(":"@ =~= seq![':']);
        }
        let entry = &paths[i];
        let m = entry.as_str().unicode_len();
        let mut k: usize = 0;
        while k < m
            invariant
                0 <= k <= m,
                m == entry@.len(),
                i < n == paths.len(),
                entry == paths@[i as int],
                forall|j: int| 0 <= j < k ==> entry@[j] != ':',
            decreases m - k,
        {
            if entry.as_str().get_char(k) == ':' {
                proof {
                    assert(paths.deep_view()[i as int] == entry@);
                    assert(entry@[k as int] == ':');
                    assert(any_holds_sep(paths.deep_view()));
                }
                return Err(Error::InvalidPathString);
            }
            k += 1;
        }
        if i > 0 {
            out.append(":");
        }
        out.append(entry.as_str());
        proof {
            let dv = paths.deep_view();
            assert(dv[i as int] == entry@);
            if i == 0 {
                assert(joined_path_list(dv.take(1)) == dv.take(1)[0]);
                assert(dv.take(1)[0] == dv[0]);
                assert(out@ =~= dv[0]);
            } else {
                assert(dv.take(i + 1).drop_last() =~= dv.take(i as int));
                assert(dv.take(i + 1).last() == dv[i as int]);
            }
        }
        i += 1;
    }
    proof {
        assert(paths.deep_view().take(n as int) =~= paths.deep_view());
    }
    Ok(out)
}

/// Whether path `p` lies under the directory `prefix`: it is the directory
/// itself, or continues below it past a `/`.
pub open spec fn under_prefix(p: Seq<char>, prefix: Seq<char>) -> bool {
    ||| p == prefix
    ||| (p.len() > prefix.len() && p.subrange(0, prefix.len() as int) == prefix && p[prefix.len() as int]
        == '/')
}

/// Reports whether `p` lies under the directory `prefix`.
pub fn path_under_prefix(p: &str, prefix: &str) -> (r: bool)
    ensures
        r == under_prefix(p@, prefix@),
{
    let pn = p.unicode_len();
    let prefix_len = prefix.unicode_len();
    if pn < prefix_len {
        proof {
            assert(!under_prefix(p@, prefix@));
        }
        return false;
    }
    let mut i: usize = 0;
    while i < prefix_len
        invariant
            0 <= i <= prefix_len,
            prefix_len == prefix@.len(),
            pn == p@.len(),
            prefix_len <= pn,
            forall|j: int| 0 <= j < i ==> p@[j] == prefix@[j],
        decreases prefix_len - i,
    {
        if p.get_char(i) != prefix.get_char(i) {
            proof {
                assert(p@.subrange(0, prefix@.len() as int)[i as int] != prefix@[i as int]);
                assert(p@ != prefix@) by {
                    assert(p@.len() >= prefix@.len());
                    if p@ == prefix@ {
                        assert(p@[i as int] == prefix@[i as int]);
                    }
                }
            }
            return false;
        }
        i += 1;
    }
    if pn == prefix_len {
        proof {
            assert(p@ =~= prefix@);
        }
        return true;
    }
    let r = p.get_char(prefix_len) == '/';
    proof {
        assert(p@.subrange(0, prefix@.len() as int) =~= prefix@);
        if !r {
            assert(p@ != prefix@) by {
                if p@ == prefix@ {
                    assert(p@.len() == prefix@.len());
                }
            }
        }
    }
    r
}

} // verus!
