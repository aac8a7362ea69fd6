//! Stable identifiers for tracing: 64- and 128-bit FNV-1a hashes of a salt, a domain and
//! a list of parts, the same on every run and every machine.
use vstd::prelude::*;
use vstd::string::StringSliceAdditionalSpecFns;
use vstd::utf8::encode_utf8;
use franken_kernel::{DecisionId, PolicyId, TraceId};
use crate::text::{decimal, decimal_string};

verus! {

/// The FNV-1a offset basis.
pub const FNV_OFFSET: u64 = 0xcbf2_9ce4_8422_2325;

/// The FNV-1a prime.
pub const FNV_PRIME: u64 = 0x0100_0000_01b3;

/// One FNV-1a step: mix in a byte, then multiply by the prime modulo 2^64.
pub open spec fn fnv_step(h: u64, b: u8) -> u64 {
    (((h ^ (b as u64)) as nat * FNV_PRIME as nat) % 0x1_0000_0000_0000_0000) as u64
}

/// The hash `h` after mixing in the bytes `b` in order.
pub open spec fn fnv_bytes(h: u64, b: Seq<u8>) -> u64
    decreases b.len(),
{
    if b.len() == 0 {
        h
    } else {
        fnv_step(fnv_bytes(h, b.drop_last()), b.last())
    }
}

/// The hash `h` after mixing in each of the parts in order.
pub open spec fn fnv_parts(h: u64, parts: Seq<Seq<u8>>) -> u64
    decreases parts.len(),
{
    if parts.len() == 0 {
        h
    } else {
        fnv_bytes(fnv_parts(h, parts.drop_last()), parts.last())
    }
}

/// The UTF-8 bytes of each part.
pub open spec fn part_bytes(parts: Seq<Seq<char>>) -> Seq<Seq<u8>> {
    parts.map_values(|p: Seq<char>| encode_utf8(p))
}

/// The text of each part.
pub open spec fn part_texts(parts: Seq<&str>) -> Seq<Seq<char>> {
    parts.map_values(|p: &str| p@)
}

/// The 64-bit hash of the salt, the domain and the parts, in that order.
pub open spec fn stable_u64(salt: Seq<char>, domain: Seq<char>, parts: Seq<Seq<char>>) -> u64 {
    fnv_parts(fnv_bytes(fnv_bytes(FNV_OFFSET, encode_utf8(salt)), encode_utf8(domain)), part_bytes(parts))
}

/// Mix the bytes of `s` into `h`.
fn fnv_update(h: u64, s: &str) -> (r: u64)
    ensures
        r == fnv_bytes(h, encode_utf8(s@)),
{
    let bytes = s.as_bytes();
    let mut hash = h;
    let mut i: usize = 0;
    while i < bytes.len()
        invariant
            i <= bytes@.len(),
            bytes@ == encode_utf8(s@),
            hash == fnv_bytes(h, bytes@.take(i as int)),
        decreases bytes@.len() - i,
    {
        proof {
            assert(bytes@.take(i + 1).drop_last() =~= bytes@.take(i as int));
        }
        hash = (hash ^ (bytes[i] as u64)).wrapping_mul(FNV_PRIME);
        i = i + 1;
    }
    proof {
        assert(bytes@.take(bytes@.len() as int) =~= bytes@);
    }
    hash
}

/// The 64-bit FNV-1a hash of `salt`, `domain` and each of `parts`, in that order.
pub fn stable_u64_hash(salt: &str, domain: &str, parts: &[&str]) -> (h: u64)
    ensures
        h == stable_u64(salt@, domain@, part_texts(parts@)),
{
    let mut hash = fnv_update(FNV_OFFSET, salt);
    hash = fnv_update(hash, domain);
    let ghost start = hash;
    let mut i: usize = 0;
    while i < parts.len()
        invariant
            i <= parts@.len(),
            hash == fnv_parts(start, part_bytes(part_texts(parts@.take(i as int)))),
        decreases parts@.len() - i,
    {
        proof {
            assert(part_bytes(part_texts(parts@.take(i + 1))).drop_last() =~= part_bytes(part_texts(parts@.take(i as int))));
            assert(part_bytes(part_texts(parts@.take(i + 1))).last() == encode_utf8(parts@[i as int]@));
        }
        hash = fnv_update(hash, parts[i]);
        i = i + 1;
    }
    proof {
        assert(parts@.take(parts@.len() as int) =~= parts@);
    }
    hash
}

/// The 128-bit hash of a domain and parts: the hash salted `upper` in the high 64 bits
/// and the hash salted `lower` in the low 64 bits.
pub open spec fn stable_u128(domain: Seq<char>, parts: Seq<Seq<char>>) -> u128 {
    (stable_u64("upper"@, domain, parts) as nat * 0x1_0000_0000_0000_0000 + stable_u64("lower"@, domain, parts) as nat) as u128
}

/// The 128-bit stable hash of a domain and parts.
pub fn stable_u128_hash(domain: &str, parts: &[&str]) -> (h: u128)
    ensures
        h == stable_u128(domain@, part_texts(parts@)),
{
    let upper = stable_u64_hash("upper", domain, parts);
    let lower = stable_u64_hash("lower", domain, parts);
    let h = ((upper as u128) << 64u32) | (lower as u128);
    proof {
        assert(((upper as u128) << 64u32) | (lower as u128) == (upper as nat * 0x1_0000_0000_0000_0000 + lower as nat) as u128) by (bit_vector);
    }
    h
}

#[verifier::external_type_specification]
#[verifier::external_body]
pub struct ExTraceId(TraceId);

#[verifier::external_type_specification]
#[verifier::external_body]
pub struct ExDecisionId(DecisionId);

#[verifier::external_type_specification]
#[verifier::external_body]
pub struct ExPolicyId(PolicyId);

/// The trace id that holds a raw 128-bit value.
pub uninterp spec fn trace_id_of(raw: u128) -> TraceId;

/// The decision id that holds a raw 128-bit value.
pub uninterp spec fn decision_id_of(raw: u128) -> DecisionId;

/// The policy id with a name and a version.
pub uninterp spec fn policy_id_of(name: Seq<char>, version: u32) -> PolicyId;

/// `TraceId::from_raw`: the trace id holding `raw` (it stores the value as is).
#[verifier::external_body]
fn trace_id_from_raw(raw: u128) -> (t: TraceId)
    ensures
        t == trace_id_of(raw),
{
    TraceId::from_raw(raw)
}

/// The hexadecimal digit of `d < 16`, small letters.
pub open spec fn hex_digit(d: nat) -> char {
    if d < 10 { ((d + 48) as u32) as char } else { ((d + 87) as u32) as char }
}

/// `v` written with `n` hexadecimal digits (small letters, leading zeros).
pub open spec fn hex_text(v: nat, n: nat) -> Seq<char>
    decreases n,
{
    if n == 0 { Seq::empty() } else { hex_text(v / 16, (n - 1) as nat).push(hex_digit(v % 16)) }
}

/// `TraceId`'s `Display`: the held value as 32 hexadecimal digits (small letters).
#[verifier::external_body]
fn trace_id_text(t: TraceId) -> (s: String)
    ensures
        forall|raw: u128| trace_id_of(raw) == t ==> s@ == hex_text(raw as nat, 32),
{
    t.to_string()
}

/// `DecisionId::from_raw`: the decision id holding `raw` (it stores the value as is).
#[verifier::external_body]
fn decision_id_from_raw(raw: u128) -> (d: DecisionId)
    ensures
        d == decision_id_of(raw),
{
    DecisionId::from_raw(raw)
}

/// `PolicyId::new`: the policy id with this name and version.
#[verifier::external_body]
fn policy_id_new(name: &str, version: u32) -> (p: PolicyId)
    ensures
        p == policy_id_of(name@, version),
{
    PolicyId::new(name, version)
}

/// `PolicyId::name`: the name the policy id was made with.
#[verifier::external_body]
fn policy_name(p: &PolicyId) -> (r: &str)
    ensures
        forall|name: Seq<char>, version: u32| policy_id_of(name, version) == *p ==> r@ == name,
{
    p.name()
}

/// `PolicyId::version`: the version the policy id was made with.
#[verifier::external_body]
fn policy_version(p: &PolicyId) -> (r: u32)
    ensures
        forall|name: Seq<char>, version: u32| policy_id_of(name, version) == *p ==> r == version,
{
    p.version()
}

/// The policy of the layout guard: `fm.layout.guard`, version 1.
pub fn mermaid_layout_guard_policy_id() -> (p: PolicyId)
    ensures
        p == policy_id_of("fm.layout.guard"@, 1),
{
    policy_id_new("fm.layout.guard", 1)
}

/// The trace id of rendering `source` on a surface: the stable hash of the two.
pub fn mermaid_trace_id(surface: &str, source: &str) -> (t: TraceId)
    ensures
        t == trace_id_of(stable_u128("trace"@, seq![surface@, source@])),
{
    let parts: Vec<&str> = vec![surface, source];
    let h = stable_u128_hash("trace", parts.as_slice());
    proof {
        assert(part_texts(parts@) =~= seq![surface@, source@]);
    }
    trace_id_from_raw(h)
}

/// The decision id of a decision taken under a trace and a policy: the stable hash of the
/// trace id's text, the policy's name and version, the phase and the detail.
pub fn mermaid_decision_id(trace_id: TraceId, policy_id: &PolicyId, phase: &str, detail: &str) -> (d: DecisionId)
    ensures
        forall|raw: u128, name: Seq<char>, version: u32| trace_id_of(raw) == trace_id && policy_id_of(name, version) == *policy_id
            ==> d == decision_id_of(stable_u128("decision"@, seq![hex_text(raw as nat, 32), name, decimal(version as nat), phase@, detail@])),
{
    let trace = trace_id_text(trace_id);
    let version = decimal_string(policy_version(policy_id) as u64);
    let name = policy_name(policy_id);
    let parts: Vec<&str> = vec![trace.as_str(), name, version.as_str(), phase, detail];
    let h = stable_u128_hash("decision", parts.as_slice());
    proof {
        assert forall|raw: u128, n: Seq<char>, v: u32| trace_id_of(raw) == trace_id && policy_id_of(n, v) == *policy_id
            implies part_texts(parts@) == seq![hex_text(raw as nat, 32), n, decimal(v as nat), phase@, detail@] by {
            assert(part_texts(parts@) =~= seq![hex_text(raw as nat, 32), n, decimal(v as nat), phase@, detail@]);
        }
    }
    decision_id_from_raw(h)
}

} // verus!
