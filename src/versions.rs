use vstd::prelude::*;

verus! {

/// A project version, ordered by major, then minor, then patch number.
#[derive(Clone, Copy, Debug, PartialEq, Eq, Structural)]
pub struct Version {
    pub major: u64,
    pub minor: u64,
    pub patch: u64,
}

pub open spec fn version_lt(a: Version, b: Version) -> bool {
    a.major < b.major || (a.major == b.major && (a.minor < b.minor || (a.minor == b.minor
        && a.patch < b.patch)))
}

pub fn version_less(a: Version, b: Version) -> (r: bool)
    ensures
        r == version_lt(a, b),
{
    a.major < b.major || (a.major == b.major && (a.minor < b.minor || (a.minor == b.minor
        && a.patch < b.patch)))
}

/// A streaming job that moves the records of one model version into another.
#[derive(Debug)]
pub struct VersionSync {
    pub source_model: String,
    pub source_version: Version,
    pub target_model: String,
    pub target_version: Version,
    /// Identifies the transformation applied on the way.
    pub transform: String,
}

/// A migration that skips a declared version or does not go forward.
#[derive(Clone, Copy, Debug, PartialEq, Eq, Structural)]
pub struct VersionGapError {
    pub from: Version,
    pub to: Version,
}

/// A migration is linear when it goes from a version to the next declared one: forward,
/// with no declared version strictly between them.
pub open spec fn linear(versions: Seq<Version>, from: Version, to: Version) -> bool {
    &&& version_lt(from, to)
    &&& forall|j: int|
        0 <= j < versions.len() ==> !(version_lt(from, #[trigger] versions[j]) && version_lt(
            versions[j],
            to,
        ))
}

fn is_linear(versions: &Vec<Version>, from: Version, to: Version) -> (r: bool)
    ensures
        r == linear(versions@, from, to),
{
    if !version_less(from, to) {
        return false;
    }
    let mut j: usize = 0;
    while j < versions.len()
        invariant
            j <= versions@.len(),
            version_lt(from, to),
            forall|k: int|
                0 <= k < j ==> !(version_lt(from, #[trigger] versions@[k]) && version_lt(
                    versions@[k],
                    to,
                )),
        decreases versions@.len() - j,
    {
        if version_less(from, versions[j]) && version_less(versions[j], to) {
            return false;
        }
        j = j + 1;
    }
    true
}

/// The first `n` syncs are all linear.
pub open spec fn all_linear(versions: Seq<Version>, syncs: Seq<VersionSync>, n: int) -> bool {
    forall|k: int|
        0 <= k < n ==> linear(
            versions,
            (#[trigger] syncs[k]).source_version,
            syncs[k].target_version,
        )
}

pub open spec fn gap_of(s: VersionSync) -> VersionGapError {
    VersionGapError { from: s.source_version, to: s.target_version }
}

/// Checks that every version sync migrates a version to the next declared one. Fails on
/// the first sync that skips a version or does not go forward.
pub fn check_linearity(versions: &Vec<Version>, syncs: &Vec<VersionSync>) -> (r: Result<
    (),
    VersionGapError,
>)
    ensures
        r is Ok <==> all_linear(versions@, syncs@, syncs@.len() as int),
        r is Err ==> exists|i: int|
            0 <= i < syncs@.len() && all_linear(versions@, syncs@, i) && !linear(
                versions@,
                syncs@[i].source_version,
                syncs@[i].target_version,
            ) && r->Err_0 == #[trigger] gap_of(syncs@[i]),
{
    let mut i: usize = 0;
    while i < syncs.len()
        invariant
            i <= syncs@.len(),
            all_linear(versions@, syncs@, i as int),
        decreases syncs@.len() - i,
    {
        let s = &syncs[i];
        if !is_linear(versions, s.source_version, s.target_version) {
            assert(gap_of(syncs@[i as int]) == VersionGapError {
                from: s.source_version,
                to: s.target_version,
            });
            return Err(VersionGapError { from: s.source_version, to: s.target_version });
        }
        i = i + 1;
    }
    Ok(())
}

} // verus!
