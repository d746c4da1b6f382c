//! The closed set of metadata files an installed package carries, the
//! package-type marker, and the service-binding declarations read from the
//! `BINDS`, `BINDS_OPTIONAL` and `BIND_MAP` metafiles.

use vstd::prelude::*;
use crate::ident::{parsed_ident, IdentView, PackageIdent, parse_ident};
use crate::strutil::{split_once_on, split_once_str, str_eq};

verus! {

/// The metadata files an installed package may carry, each mapping to
/// exactly one file name inside the install directory.
#[derive(Clone, Copy, Debug, PartialEq, Eq, Structural)]
pub enum MetaFile {
    Ident,
    Target,
    Deps,
    TDeps,
    Services,
    Binds,
    BindsOptional,
    BindMap,
    Exports,
    Exposes,
    Path,
    RuntimeEnvironment,
    SvcUser,
    SvcGroup,
    Type,
}

/// The file name each metafile kind occupies.
pub open spec fn metafile_name(m: MetaFile) -> Seq<char> {
    match m {
        MetaFile::Ident => "IDENT"@,
        MetaFile::Target => "TARGET"@,
        MetaFile::Deps => "DEPS"@,
        MetaFile::TDeps => "TDEPS"@,
        MetaFile::Services => "SERVICES"@,
        MetaFile::Binds => "BINDS"@,
        MetaFile::BindsOptional => "BINDS_OPTIONAL"@,
        MetaFile::BindMap => "BIND_MAP"@,
        MetaFile::Exports => "EXPORTS"@,
        MetaFile::Exposes => "EXPOSES"@,
        MetaFile::Path => "PATH"@,
        MetaFile::RuntimeEnvironment => "RUNTIME_ENVIRONMENT"@,
        MetaFile::SvcUser => "SVC_USER"@,
        MetaFile::SvcGroup => "SVC_GROUP"@,
        MetaFile::Type => "TYPE"@,
    }
}

impl MetaFile {
    /// The name of the file holding this metadata inside `installed_path`.
    pub fn filename(&self) -> (r: &'static str)
        ensures
            r@ == metafile_name(*self),
    {
        match self {
            MetaFile::Ident => "IDENT",
            MetaFile::Target => "TARGET",
            MetaFile::Deps => "DEPS",
            MetaFile::TDeps => "TDEPS",
            MetaFile::Services => "SERVICES",
            MetaFile::Binds => "BINDS",
            MetaFile::BindsOptional => "BINDS_OPTIONAL",
            MetaFile::BindMap => "BIND_MAP",
            MetaFile::Exports => "EXPORTS",
            MetaFile::Exposes => "EXPOSES",
            MetaFile::Path => "PATH",
            MetaFile::RuntimeEnvironment => "RUNTIME_ENVIRONMENT",
            MetaFile::SvcUser => "SVC_USER",
            MetaFile::SvcGroup => "SVC_GROUP",
            MetaFile::Type => "TYPE",
        }
    }
}

/// What kind of package an install is: a plain standalone package, or a
/// composite wiring several service sub-packages together.
#[derive(Clone, Copy, Debug, PartialEq, Eq, Structural)]
pub enum PackageType {
    Standalone,
    Composite,
}

/// A successful parse of the `TYPE` metafile body.
pub open spec fn parsed_package_type(s: Seq<char>) -> Option<PackageType> {
    if s == "standalone"@ {
        Some(PackageType::Standalone)
    } else if s == "composite"@ {
        Some(PackageType::Composite)
    } else {
        None
    }
}

/// Parses the body of a `TYPE` metafile.
pub fn parse_package_type(s: &str) -> (r: Option<PackageType>)
    ensures
        r == parsed_package_type(s@),
{
    if str_eq(s, "standalone") {
        Some(PackageType::Standalone)
    } else if str_eq(s, "composite") {
        Some(PackageType::Composite)
    } else {
        None
    }
}

/// The mathematical value of a `Bind`.
#[verifier::ext_equal]
pub ghost struct BindView {
    pub name: Seq<char>,
    pub service_group: Seq<char>,
}

/// A bind a running service declares: a local name and the service group
/// expected to satisfy it.
#[derive(Clone, Debug)]
pub struct Bind {
    pub name: String,
    pub service_group: String,
}

impl View for Bind {
    type V = BindView;

    open spec fn view(&self) -> BindView {
        BindView { name: self.name@, service_group: self.service_group@ }
    }
}

impl DeepView for Bind {
    type V = BindView;

    open spec fn deep_view(&self) -> BindView {
        self.view()
    }
}

impl PartialEq for Bind {
    fn eq(&self, other: &Bind) -> (r: bool) {
        let r = self.name == other.name && self.service_group == other.service_group;
        proof {
            if r {
                assert(self@ =~= other@);
            }
        }
        r
    }
}

impl vstd::std_specs::cmp::PartialEqSpecImpl for Bind {
    open spec fn obeys_eq_spec() -> bool {
        true
    }

    open spec fn eq_spec(&self, other: &Bind) -> bool {
        self@ == other@
    }
}

/// A successful parse of one `name:service_group` token: both sides of the
/// first colon must be non-empty.
pub open spec fn parsed_bind(s: Seq<char>) -> Option<BindView> {
    match split_once_on(s, ':') {
        None => None,
        Some(p) => if p.0.len() > 0 && p.1.len() > 0 {
            Some(BindView { name: p.0, service_group: p.1 })
        } else {
            None
        },
    }
}

/// Parses one bind token of the `BINDS` / `BINDS_OPTIONAL` metafiles.
pub fn parse_bind(s: &str) -> (r: Option<Bind>)
    ensures
        (match r {
            Some(b) => parsed_bind(s@) == Some(b@),
            None => parsed_bind(s@) is None,
        }),
{
    match split_once_str(s, ':') {
        None => None,
        Some((name, service_group)) => {
            if name.as_str().is_empty() || service_group.as_str().is_empty() {
                None
            } else {
                Some(Bind { name, service_group })
            }
        },
    }
}

/// The mathematical value of a `BindMapping`.
#[verifier::ext_equal]
pub ghost struct BindMappingView {
    pub bind_name: Seq<char>,
    pub satisfying_service: IdentView,
}

/// For a composite package: which sub-package satisfies a given bind.
#[derive(Clone, Debug)]
pub struct BindMapping {
    pub bind_name: String,
    pub satisfying_service: PackageIdent,
}

impl View for BindMapping {
    type V = BindMappingView;

    open spec fn view(&self) -> BindMappingView {
        BindMappingView { bind_name: self.bind_name@, satisfying_service: self.satisfying_service@ }
    }
}

impl DeepView for BindMapping {
    type V = BindMappingView;

    open spec fn deep_view(&self) -> BindMappingView {
        self.view()
    }
}

impl PartialEq for BindMapping {
    fn eq(&self, other: &BindMapping) -> (r: bool) {
        let r = self.bind_name == other.bind_name && self.satisfying_service.ident_eq(
            &other.satisfying_service,
        );
        proof {
            if r {
                assert(self@ =~= other@);
            }
        }
        r
    }
}

impl vstd::std_specs::cmp::PartialEqSpecImpl for BindMapping {
    open spec fn obeys_eq_spec() -> bool {
        true
    }

    open spec fn eq_spec(&self, other: &BindMapping) -> bool {
        self@ == other@
    }
}

/// A successful parse of one `bind:origin/name` token of the `BIND_MAP`
/// metafile: a non-empty bind name before the first colon, a package
/// identifier after it.
pub open spec fn parsed_bind_mapping(s: Seq<char>) -> Option<BindMappingView> {
    match split_once_on(s, ':') {
        None => None,
        Some(p) => if p.0.len() > 0 {
            match parsed_ident(p.1) {
                Some(id) => Some(BindMappingView { bind_name: p.0, satisfying_service: id }),
                None => None,
            }
        } else {
            None
        },
    }
}

/// Parses one bind-mapping token of the `BIND_MAP` metafile.
pub fn parse_bind_mapping(s: &str) -> (r: Option<BindMapping>)
    ensures
        (match r {
            Some(b) => parsed_bind_mapping(s@) == Some(b@),
            None => parsed_bind_mapping(s@) is None,
        }),
{
    match split_once_str(s, ':') {
        None => None,
        Some((bind_name, rest)) => {
            if bind_name.as_str().is_empty() {
                None
            } else {
                match parse_ident(rest.as_str()) {
                    Ok(id) => Some(BindMapping { bind_name, satisfying_service: id }),
                    Err(_) => None,
                }
            }
        },
    }
}

} // verus!
