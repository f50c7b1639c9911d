use vstd::prelude::*;

use crate::error::SshdConfigError;

verus! {

/// Offset basis of the 64-bit FNV-1a hash.
pub const FNV_OFFSET: u64 = 0xcbf29ce484222325;

/// Prime of the 64-bit FNV-1a hash.
pub const FNV_PRIME: u64 = 0x100000001b3;

/// One FNV-1a round: fold a byte into the running hash.
pub open spec fn fnv1a_step(h: u64, b: u8) -> u64 {
    vstd::wrapping::u64_specs::wrapping_mul(h ^ (b as u64), FNV_PRIME)
}

/// FNV-1a hash of the first `n` bytes of `data`.
pub open spec fn fnv1a_at(data: Seq<u8>, n: int) -> u64
    decreases n,
{
    if n <= 0 {
        FNV_OFFSET
    } else {
        fnv1a_step(fnv1a_at(data, n - 1), data[n - 1])
    }
}

/// Content fingerprint of a byte string: its 64-bit FNV-1a hash.
pub open spec fn fingerprint_of(data: Seq<u8>) -> u64 {
    fnv1a_at(data, data.len() as int)
}

/// What the tool persists beside the managed file: the fingerprint of the
/// file as it last wrote it, and whether the pristine backup exists yet.
#[derive(Clone, Copy, PartialEq, Eq, Structural, Debug)]
pub struct ManagedFileRecord {
    pub fingerprint: u64,
    pub backup_exists: bool,
}

/// The record matches the bytes now on disk: nothing edited the managed
/// file behind the tool's back.
pub open spec fn integrity_ok(record: ManagedFileRecord, content: Seq<u8>) -> bool {
    record.fingerprint == fingerprint_of(content)
}

/// Executable fingerprint, proved equal to `fingerprint_of`.
pub fn fingerprint(data: &Vec<u8>) -> (r: u64)
    ensures
        r == fingerprint_of(data@),
{
    let n = data.len();
    let mut h: u64 = FNV_OFFSET;
    let mut i: usize = 0;
    while i < n
        invariant
            i <= n,
            n == data.len(),
            h == fnv1a_at(data@, i as int),
        decreases n - i,
    {
        h = (h ^ (data[i] as u64)).wrapping_mul(FNV_PRIME);
        i += 1;
    }
    h
}

/// The integrity guard: recompute the fingerprint of the bytes on disk and
/// hold them against the recorded one; fail closed on any mismatch.
pub fn integrity_check(record: &ManagedFileRecord, content: &Vec<u8>) -> (r: Result<
    (),
    SshdConfigError,
>)
    ensures
        match r {
            Ok(()) => integrity_ok(*record, content@),
            Err(e) => !integrity_ok(*record, content@) && e == SshdConfigError::TamperedFile,
        },
{
    let h = fingerprint(content);
    if h == record.fingerprint {
        Ok(())
    } else {
        Err(SshdConfigError::TamperedFile)
    }
}

/// A record taken from one byte string rejects any byte string whose
/// fingerprint differs: external edits are detected before any mutation.
pub proof fn lemma_tamper_detection(original: Seq<u8>, edited: Seq<u8>, record: ManagedFileRecord)
    requires
        record.fingerprint == fingerprint_of(original),
        fingerprint_of(edited) != fingerprint_of(original),
    ensures
        integrity_ok(record, original),
        !integrity_ok(record, edited),
{
}

} // verus!
