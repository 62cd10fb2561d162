//! The build fingerprint: the ordered set of build-identifying string values
//! fed into deterministic variant selection. Every source is optional; the
//! sources that are present are consumed in one fixed, documented order
//! (function name, timestamp, package name, package version, target triple,
//! build profile, build counter), so the same environment always reproduces
//! the same fingerprint. Reading the surrounding environment is the caller's
//! job; this module only models the collected values.
use vstd::prelude::*;

verus! {

/// The mathematical content of a fingerprint: for each entropy source, either
/// absence or the character sequence of its value, in the fixed order.
pub struct FingerprintView {
    pub function_name: Option<Seq<char>>,
    pub timestamp: Option<Seq<char>>,
    pub package_name: Option<Seq<char>>,
    pub package_version: Option<Seq<char>>,
    pub target_triple: Option<Seq<char>>,
    pub profile: Option<Seq<char>>,
    pub build_counter: Option<Seq<char>>,
}

/// Build-identifying values gathered from the build environment. A source
/// that the environment does not provide stays `None` and contributes
/// nothing to deterministic selection.
pub struct BuildFingerprint {
    pub function_name: Option<String>,
    pub timestamp: Option<String>,
    pub package_name: Option<String>,
    pub package_version: Option<String>,
    pub target_triple: Option<String>,
    pub profile: Option<String>,
    pub build_counter: Option<String>,
}

pub open spec fn view_of_source(source: Option<String>) -> Option<Seq<char>> {
    match source {
        Option::Some(s) => Option::Some(s@),
        Option::None => Option::None,
    }
}

impl View for BuildFingerprint {
    type V = FingerprintView;

    open spec fn view(&self) -> FingerprintView {
        FingerprintView {
            function_name: view_of_source(self.function_name),
            timestamp: view_of_source(self.timestamp),
            package_name: view_of_source(self.package_name),
            package_version: view_of_source(self.package_version),
            target_triple: view_of_source(self.target_triple),
            profile: view_of_source(self.profile),
            build_counter: view_of_source(self.build_counter),
        }
    }
}

impl BuildFingerprint {
    /// A fingerprint with no sources collected yet.
    pub fn new() -> (fp: BuildFingerprint)
        ensures
            fp@.function_name is None,
            fp@.timestamp is None,
            fp@.package_name is None,
            fp@.package_version is None,
            fp@.target_triple is None,
            fp@.profile is None,
            fp@.build_counter is None,
    {
        BuildFingerprint {
            function_name: None,
            timestamp: None,
            package_name: None,
            package_version: None,
            target_triple: None,
            profile: None,
            build_counter: None,
        }
    }
}

/// One step of the persisted build counter's read-modify-write lifecycle.
/// The stored value is absent on the first build and is then treated as 0;
/// the returned pair is (value to use for this build, value to store back),
/// so the counter increments exactly once per build and is never reset.
pub fn advance_build_counter(stored: Option<u64>) -> (r: (u64, u64))
    requires
        stored is Some ==> stored->0 < u64::MAX,
    ensures
        r.0 == (match stored {
            Option::Some(v) => v,
            Option::None => 0u64,
        }),
        r.1 == r.0 + 1,
{
    let current = match stored {
        Some(v) => v,
        None => 0,
    };
    (current, current + 1)
}

} // verus!
