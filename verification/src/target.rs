//! The package target: the architecture/platform pair a package was built
//! for, parsed from the `TARGET` metafile and validated against the platform
//! the caller is running on.

use vstd::prelude::*;
use crate::error::Error;
use crate::strutil::{split_on, split_str};

verus! {

/// The mathematical value of a `PackageTarget`.
#[verifier::ext_equal]
pub ghost struct TargetView {
    pub architecture: Seq<char>,
    pub platform: Seq<char>,
}

/// A platform/architecture descriptor, written `architecture-platform`
/// (for example `x86_64-linux`).
#[derive(Clone, Debug)]
pub struct PackageTarget {
    pub architecture: String,
    pub platform: String,
}

impl View for PackageTarget {
    type V = TargetView;

    open spec fn view(&self) -> TargetView {
        TargetView { architecture: self.architecture@, platform: self.platform@ }
    }
}

/// A successful parse of a target string: exactly two non-empty parts
/// around a single dash.
pub open spec fn parsed_target(s: Seq<char>) -> Option<TargetView> {
    let parts = split_on(s, '-');
    if parts.len() == 2 && parts[0].len() > 0 && parts[1].len() > 0 {
        Some(TargetView { architecture: parts[0], platform: parts[1] })
    } else {
        None
    }
}

/// Parses the body of a `TARGET` metafile.
pub fn parse_target(s: &str) -> (r: Result<PackageTarget, Error>)
    ensures
        (match r {
            Ok(t) => parsed_target(s@) == Some(t@),
            Err(e) => {
                &&& parsed_target(s@) is None
                &&& e matches Error::InvalidPackageTarget(t) && t@ == s@
            },
        }),
{
    let parts = split_str(s, '-');
    if parts.len() != 2 {
        return Err(Error::InvalidPackageTarget(s.to_owned()));
    }
    if parts[0].as_str().is_empty() || parts[1].as_str().is_empty() {
        return Err(Error::InvalidPackageTarget(s.to_owned()));
    }
    let architecture = parts[0].clone();
    let platform = parts[1].clone();
    let t = PackageTarget { architecture, platform };
    proof {
        assert(parsed_target(s@) == Some(t@));
    }
    Ok(t)
}

impl PackageTarget {
    /// Validates this target against the target of the running platform:
    /// both architecture and platform must agree exactly.
    pub fn validate_against(&self, active: &PackageTarget) -> (r: Result<(), Error>)
        ensures
            r is Ok <==> (self@.architecture == active@.architecture && self@.platform
                == active@.platform),
            r matches Err(e) ==> e matches Error::TargetMatchError(_),
    {
        if self.architecture == active.architecture && self.platform == active.platform {
            Ok(())
        } else {
            let mut msg = self.architecture.clone();
            msg.append("-");
            msg.append(self.platform.as_str());
            Err(Error::TargetMatchError(msg))
        }
    }
}

} // verus!
