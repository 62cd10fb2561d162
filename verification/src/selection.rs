//! Selection policies: given a candidate count, pick the index of the
//! surviving variant. `RandomUniform` draws from the random source;
//! `DeterministicHash` is a pure function of the build fingerprint, so two
//! builds with identical fingerprints always select the same index. With a
//! single candidate both policies short-circuit to index 0: no randomness is
//! consumed and no hash is computed.
use crate::fingerprint::{BuildFingerprint, FingerprintView};
use crate::rng::random_below;
use vstd::prelude::*;
use vstd::string::StrSliceExecFns;

verus! {

pub const FNV_OFFSET: u64 = 0xcbf29ce484222325;

pub const FNV_PRIME: u64 = 0x100000001b3;

/// One mixing step of the 64-bit FNV-1a-style hash.
pub open spec fn mix_u64(h: u64, x: u64) -> u64 {
    vstd::wrapping::u64_specs::wrapping_mul(h ^ x, FNV_PRIME)
}

/// Folds every character of `s` into the running hash, left to right.
pub open spec fn hash_chars_from(h: u64, s: Seq<char>) -> u64
    decreases s.len(),
{
    if s.len() == 0 {
        h
    } else {
        hash_chars_from(mix_u64(h, s[0] as u64), s.drop_first())
    }
}

/// Folds one optional entropy source into the running hash. An absent source
/// contributes nothing; a present one first mixes its fixed position tag, so
/// which source a value came from matters, and an empty present value is
/// distinguished from an absent one.
pub open spec fn mix_source(h: u64, tag: u64, source: Option<Seq<char>>) -> u64 {
    match source {
        Option::Some(s) => hash_chars_from(mix_u64(h, tag), s),
        Option::None => h,
    }
}

/// The stable hash of a fingerprint: the present sources, consumed in the
/// fixed documented order, each under its position tag.
pub open spec fn fingerprint_hash(fp: FingerprintView) -> u64 {
    mix_source(
        mix_source(
            mix_source(
                mix_source(
                    mix_source(
                        mix_source(
                            mix_source(FNV_OFFSET, 1, fp.function_name),
                            2,
                            fp.timestamp,
                        ),
                        3,
                        fp.package_name,
                    ),
                    4,
                    fp.package_version,
                ),
                5,
                fp.target_triple,
            ),
            6,
            fp.profile,
        ),
        7,
        fp.build_counter,
    )
}

/// The index deterministic selection yields for `n` candidates: 0 for the
/// degenerate single-candidate case, else the fingerprint hash modulo `n`.
pub open spec fn deterministic_index(fp: FingerprintView, n: int) -> int {
    if n == 1 {
        0
    } else {
        fingerprint_hash(fp) as int % n
    }
}

fn mix(h: u64, x: u64) -> (r: u64)
    ensures
        r == mix_u64(h, x),
{
    (h ^ x).wrapping_mul(FNV_PRIME)
}

fn hash_chars(h0: u64, s: &String) -> (r: u64)
    ensures
        r == hash_chars_from(h0, s@),
{
    let n = s.as_str().unicode_len();
    let mut h = h0;
    let mut i: usize = 0;
    proof {
        assert(s@.skip(0) =~= s@);
    }
    while i < n
        invariant
            n == s@.len(),
            i <= n,
            hash_chars_from(h, s@.skip(i as int)) == hash_chars_from(h0, s@),
        decreases n - i,
    {
        let c = s.as_str().get_char(i);
        proof {
            assert(s@.skip(i as int)[0] == s@[i as int]);
            assert(s@.skip(i as int).drop_first() =~= s@.skip(i as int + 1));
        }
        h = mix(h, c as u64);
        i = i + 1;
    }
    proof {
        assert(s@.skip(n as int) =~= Seq::<char>::empty());
    }
    h
}

fn hash_source(h: u64, tag: u64, source: &Option<String>) -> (r: u64)
    ensures
        r == mix_source(h, tag, crate::fingerprint::view_of_source(*source)),
{
    match source {
        Some(s) => hash_chars(mix(h, tag), s),
        None => h,
    }
}

/// Computes the stable fingerprint hash; equal fingerprints give equal hashes
/// on every machine and in every process.
pub fn hash_fingerprint(fp: &BuildFingerprint) -> (r: u64)
    ensures
        r == fingerprint_hash(fp@),
{
    let mut h = FNV_OFFSET;
    h = hash_source(h, 1, &fp.function_name);
    h = hash_source(h, 2, &fp.timestamp);
    h = hash_source(h, 3, &fp.package_name);
    h = hash_source(h, 4, &fp.package_version);
    h = hash_source(h, 5, &fp.target_triple);
    h = hash_source(h, 6, &fp.profile);
    h = hash_source(h, 7, &fp.build_counter);
    h
}

/// The uniform-random selection policy: each build draws independently, so
/// consecutive builds may repeat an index by chance.
pub struct RandomUniform {}

impl RandomUniform {
    pub fn new() -> (r: RandomUniform) {
        RandomUniform {  }
    }

    /// Draws an index uniformly from [0, n). For a single candidate the
    /// answer is forced, so the random source is not consulted at all.
    pub fn select(&self, n: usize) -> (r: usize)
        requires
            1 <= n,
        ensures
            r < n,
            n == 1 ==> r == 0,
    {
        if n == 1 {
            0
        } else {
            random_below(n)
        }
    }
}

/// The deterministic selection policy: a pure function of the fingerprint and
/// the candidate count, with no hidden dependence on wall-clock time or any
/// other ambient state.
pub struct DeterministicHash {
    pub fingerprint: BuildFingerprint,
}

impl DeterministicHash {
    pub fn new(fingerprint: BuildFingerprint) -> (r: DeterministicHash)
        ensures
            r.fingerprint@ == fingerprint@,
    {
        DeterministicHash { fingerprint }
    }

    /// Maps the fingerprint hash into [0, n). For a single candidate the
    /// answer is forced, so no hash is computed.
    pub fn select(&self, n: usize) -> (r: usize)
        requires
            1 <= n,
        ensures
            r as int == deterministic_index(self.fingerprint@, n as int),
            r < n,
            n == 1 ==> r == 0,
    {
        if n == 1 {
            0
        } else {
            let h = hash_fingerprint(&self.fingerprint);
            (h % (n as u64)) as usize
        }
    }
}

/// A selection policy: either uniformly random or hash-deterministic.
pub enum SelectionPolicy {
    RandomUniform(RandomUniform),
    DeterministicHash(DeterministicHash),
}

impl SelectionPolicy {
    /// Picks the index of the surviving candidate among `n`. The result is
    /// always in range; a single candidate forces index 0 under both
    /// policies; the deterministic policy's result is pinned by the
    /// fingerprint alone.
    pub fn select(&self, n: usize) -> (r: usize)
        requires
            1 <= n,
        ensures
            r < n,
            n == 1 ==> r == 0,
            self matches SelectionPolicy::DeterministicHash(d) ==> r as int
                == deterministic_index(d.fingerprint@, n as int),
    {
        match self {
            SelectionPolicy::RandomUniform(p) => p.select(n),
            SelectionPolicy::DeterministicHash(p) => p.select(n),
        }
    }
}

/// Determinism of hash-based selection: identical fingerprints with an
/// identical candidate count always yield the identical index, however many
/// times and wherever the selection is computed.
pub proof fn lemma_deterministic_selection_pure(a: FingerprintView, b: FingerprintView, n: int)
    requires
        a == b,
        1 <= n,
    ensures
        deterministic_index(a, n) == deterministic_index(b, n),
{
}

/// Deterministic selection always lands in range.
pub proof fn lemma_deterministic_index_in_range(fp: FingerprintView, n: int)
    requires
        1 <= n,
    ensures
        0 <= deterministic_index(fp, n) < n,
{
}

} // verus!
