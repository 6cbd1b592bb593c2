//! What the fingerprints of artifacts tell apart.
use crate::artifact::{
    capability_bytes, fingerprint_input, limit_bytes, preopen_bytes, HostIdentity,
};
use crate::capability::PreopenModel;
use crate::digest::blake3_digest;
use crate::policy::{ArtifactPolicy, WasmLimits};
use crate::text::{hex_byte, hex_bytes, views};
use vstd::bytes::{
    lemma_auto_spec_u64_to_from_le_bytes, spec_u64_from_le_bytes, spec_u64_to_le_bytes,
};
use vstd::prelude::*;
use vstd::utf8::{encode_utf8, encode_utf8_decode_utf8};

verus! {

/// The capabilities, each ended by a zero byte.
pub open spec fn ended(capabilities: Seq<Seq<char>>) -> Seq<Seq<u8>> {
    Seq::new(capabilities.len(), |i: int| encode_utf8(capabilities[i]).push(0u8))
}

/// The grants, each with both paths and a byte that says whether writing is allowed.
pub open spec fn spelled(preopens: Seq<PreopenModel>) -> Seq<Seq<u8>> {
    Seq::new(
        preopens.len(),
        |i: int|
            encode_utf8(preopens[i].host_path) + encode_utf8(preopens[i].guest_path) + seq![
                if preopens[i].writable {
                    1u8
                } else {
                    0u8
                },
            ],
    )
}

/// All budgets.
pub open spec fn budgets(limits: WasmLimits) -> Seq<u64> {
    seq![
        limits.fuel_per_call,
        limits.epoch_deadline_ticks,
        limits.max_memory_bytes as u64,
        limits.max_table_elements as u64,
        limits.max_instances as u64,
        limits.max_tables as u64,
        limits.max_memories as u64,
        limits.max_registrations as u64,
        limits.max_payload_bytes as u64,
    ]
}

/// Numbers of eight bytes each, least significant byte first.
pub open spec fn numbers(values: Seq<u64>) -> Seq<Seq<u8>> {
    Seq::new(values.len(), |i: int| spec_u64_to_le_bytes(values[i]))
}

/// Everything a fingerprint covers: the artifact, the compiler, the architecture, the system, the
/// kernel interface, the capabilities, the grants and the budgets.
pub open spec fn covered(
    bytes: Seq<u8>,
    host: HostIdentity,
    policy: ArtifactPolicy,
    limits: WasmLimits,
) -> Seq<Seq<u8>> {
    seq![
        bytes,
        encode_utf8(host.version@),
        encode_utf8(host.arch@),
        encode_utf8(host.os@),
        encode_utf8(policy.kernel_abi@),
        ended(views(policy.allowed_capabilities.items@)).flatten(),
        spelled(policy.wasi@).flatten(),
        numbers(budgets(limits)).flatten(),
    ]
}

proof fn capabilities_are_ended(capabilities: Seq<Seq<char>>, n: nat)
    requires
        n <= capabilities.len(),
    ensures
        capability_bytes(capabilities, n) == ended(capabilities).take(n as int).flatten(),
    decreases n,
{
    let parts = ended(capabilities);
    if n > 0 {
        capabilities_are_ended(capabilities, (n - 1) as nat);
        assert(parts.take(n as int) =~= parts.take(n - 1).push(parts[n - 1]));
        parts.take(n - 1).lemma_flatten_push(parts[n - 1]);
        assert(capability_bytes(capabilities, n) =~= parts.take(n - 1).flatten() + parts[n - 1]);
    } else {
        assert(parts.take(0) =~= Seq::empty());
    }
}

proof fn grants_are_spelled(preopens: Seq<PreopenModel>, n: nat)
    requires
        n <= preopens.len(),
    ensures
        preopen_bytes(preopens, n) == spelled(preopens).take(n as int).flatten(),
    decreases n,
{
    let parts = spelled(preopens);
    if n > 0 {
        grants_are_spelled(preopens, (n - 1) as nat);
        assert(parts.take(n as int) =~= parts.take(n - 1).push(parts[n - 1]));
        parts.take(n - 1).lemma_flatten_push(parts[n - 1]);
        assert(preopen_bytes(preopens, n) =~= parts.take(n - 1).flatten() + parts[n - 1]);
    } else {
        assert(parts.take(0) =~= Seq::empty());
    }
}

proof fn budgets_are_numbers(limits: WasmLimits)
    ensures
        limit_bytes(limits) == numbers(budgets(limits)).flatten(),
{
    let parts = numbers(budgets(limits));
    parts.lemma_flatten_and_flatten_alt_are_equivalent();
    reveal_with_fuel(Seq::flatten_alt, 10);
    assert(parts.drop_last() =~= parts.take(8));
    assert(parts.take(8).drop_last() =~= parts.take(7));
    assert(parts.take(7).drop_last() =~= parts.take(6));
    assert(parts.take(6).drop_last() =~= parts.take(5));
    assert(parts.take(5).drop_last() =~= parts.take(4));
    assert(parts.take(4).drop_last() =~= parts.take(3));
    assert(parts.take(3).drop_last() =~= parts.take(2));
    assert(parts.take(2).drop_last() =~= parts.take(1));
    assert(parts.take(1).drop_last() =~= parts.take(0));
    assert(parts.take(0) =~= Seq::empty());
    assert(parts.take(1).flatten_alt() =~= parts[0]);
    assert(parts.flatten_alt() =~= limit_bytes(limits));
}

/// A fingerprint is the digest of everything it covers, one after another.
pub proof fn fingerprints_cover_everything(
    bytes: Seq<u8>,
    host: HostIdentity,
    policy: ArtifactPolicy,
    limits: WasmLimits,
)
    ensures
        fingerprint_input(bytes, host, policy, limits) == covered(
            bytes,
            host,
            policy,
            limits,
        ).flatten(),
{
    let capabilities = views(policy.allowed_capabilities.items@);
    capabilities_are_ended(capabilities, capabilities.len());
    assert(ended(capabilities).take(capabilities.len() as int) =~= ended(capabilities));
    grants_are_spelled(policy.wasi@, policy.wasi@.len());
    assert(spelled(policy.wasi@).take(policy.wasi@.len() as int) =~= spelled(policy.wasi@));
    budgets_are_numbers(limits);
    let parts = covered(bytes, host, policy, limits);
    parts.lemma_flatten_and_flatten_alt_are_equivalent();
    reveal_with_fuel(Seq::flatten_alt, 9);
    assert(parts.drop_last() =~= parts.take(7));
    assert(parts.take(7).drop_last() =~= parts.take(6));
    assert(parts.take(6).drop_last() =~= parts.take(5));
    assert(parts.take(5).drop_last() =~= parts.take(4));
    assert(parts.take(4).drop_last() =~= parts.take(3));
    assert(parts.take(3).drop_last() =~= parts.take(2));
    assert(parts.take(2).drop_last() =~= parts.take(1));
    assert(parts.take(1).drop_last() =~= parts.take(0));
    assert(parts.take(0) =~= Seq::empty());
    assert(parts.take(1).flatten_alt() =~= parts[0]);
    assert(parts.flatten_alt() =~= fingerprint_input(bytes, host, policy, limits));
}

/// Chained parts that differ in one place differ.
proof fn one_part_matters<A>(a: Seq<Seq<A>>, b: Seq<Seq<A>>, i: int)
    requires
        a.len() == b.len(),
        0 <= i < a.len(),
        forall|k: int| 0 <= k < a.len() && k != i ==> a[k] == b[k],
        a.flatten() == b.flatten(),
    ensures
        a[i] == b[i],
    decreases a.len(),
{
    a.lemma_flatten_and_flatten_alt_are_equivalent();
    b.lemma_flatten_and_flatten_alt_are_equivalent();
    let x = a.drop_last();
    let y = b.drop_last();
    x.lemma_flatten_and_flatten_alt_are_equivalent();
    y.lemma_flatten_and_flatten_alt_are_equivalent();
    let all = a.flatten();
    if i == a.len() - 1 {
        assert(x =~= y);
        assert(a.last() =~= all.skip(x.flatten().len() as int));
        assert(b.last() =~= all.skip(y.flatten().len() as int));
    } else {
        assert(a.last() == b.last());
        assert(x.flatten() =~= all.take(all.len() - a.last().len()));
        assert(y.flatten() =~= all.take(all.len() - b.last().len()));
        one_part_matters(x, y, i);
    }
}

/// Whatever a fingerprint covers matters to it: artifacts that agree in everything but one thing
/// have different fingerprints, unless two different inputs have the same digest.
pub proof fn every_part_matters(
    bytes: Seq<u8>,
    host: HostIdentity,
    policy: ArtifactPolicy,
    limits: WasmLimits,
    other_bytes: Seq<u8>,
    other_host: HostIdentity,
    other_policy: ArtifactPolicy,
    other_limits: WasmLimits,
    i: int,
)
    requires
        0 <= i < 8,
        forall|k: int|
            0 <= k < 8 && k != i ==> covered(bytes, host, policy, limits)[k] == covered(
                other_bytes,
                other_host,
                other_policy,
                other_limits,
            )[k],
        covered(bytes, host, policy, limits)[i] != covered(
            other_bytes,
            other_host,
            other_policy,
            other_limits,
        )[i],
        blake3_digest(fingerprint_input(bytes, host, policy, limits)) == blake3_digest(
            fingerprint_input(other_bytes, other_host, other_policy, other_limits),
        ),
    ensures
        exists|x: Seq<u8>, y: Seq<u8>| x != y && #[trigger] blake3_digest(x)
            == #[trigger] blake3_digest(y),
{
    fingerprints_cover_everything(bytes, host, policy, limits);
    fingerprints_cover_everything(other_bytes, other_host, other_policy, other_limits);
    let a = covered(bytes, host, policy, limits);
    let b = covered(other_bytes, other_host, other_policy, other_limits);
    if a.flatten() == b.flatten() {
        one_part_matters(a, b, i);
    }
}

proof fn numbers_come_apart(a: Seq<u64>, b: Seq<u64>)
    requires
        a.len() == b.len(),
        numbers(a).flatten() == numbers(b).flatten(),
    ensures
        a == b,
    decreases a.len(),
{
    lemma_auto_spec_u64_to_from_le_bytes();
    if a.len() > 0 {
        let x = numbers(a);
        let y = numbers(b);
        x.lemma_flatten_and_flatten_alt_are_equivalent();
        y.lemma_flatten_and_flatten_alt_are_equivalent();
        x.drop_last().lemma_flatten_and_flatten_alt_are_equivalent();
        y.drop_last().lemma_flatten_and_flatten_alt_are_equivalent();
        let all = x.flatten();
        assert(x.last().len() == 8 && y.last().len() == 8);
        assert(x.last() =~= all.skip(all.len() - 8));
        assert(y.last() =~= all.skip(all.len() - 8));
        assert(x.drop_last().flatten() =~= all.take(all.len() - 8));
        assert(y.drop_last().flatten() =~= all.take(all.len() - 8));
        assert(x.drop_last() =~= numbers(a.drop_last()));
        assert(y.drop_last() =~= numbers(b.drop_last()));
        numbers_come_apart(a.drop_last(), b.drop_last());
        assert(spec_u64_from_le_bytes(x.last()) == a.last());
        assert(spec_u64_from_le_bytes(y.last()) == b.last());
        assert(a =~= a.drop_last().push(a.last()));
        assert(b =~= b.drop_last().push(b.last()));
    } else {
        assert(a =~= b);
    }
}

/// Budgets that differ in any number, and names of compilers, architectures, systems and kernel
/// interfaces that differ, are different parts.
pub proof fn parts_tell_apart(
    bytes: Seq<u8>,
    host: HostIdentity,
    policy: ArtifactPolicy,
    limits: WasmLimits,
    other_host: HostIdentity,
    other_policy: ArtifactPolicy,
    other_limits: WasmLimits,
)
    ensures
        ({
            let a = covered(bytes, host, policy, limits);
            let b = covered(bytes, other_host, other_policy, other_limits);
            &&& host.version@ != other_host.version@ ==> a[1] != b[1]
            &&& host.arch@ != other_host.arch@ ==> a[2] != b[2]
            &&& host.os@ != other_host.os@ ==> a[3] != b[3]
            &&& policy.kernel_abi@ != other_policy.kernel_abi@ ==> a[4] != b[4]
            &&& limits.fuel_per_call != other_limits.fuel_per_call || limits.epoch_deadline_ticks
                != other_limits.epoch_deadline_ticks || limits.max_memory_bytes
                != other_limits.max_memory_bytes || limits.max_table_elements
                != other_limits.max_table_elements || limits.max_instances
                != other_limits.max_instances || limits.max_tables != other_limits.max_tables
                || limits.max_memories != other_limits.max_memories || limits.max_registrations
                != other_limits.max_registrations || limits.max_payload_bytes
                != other_limits.max_payload_bytes ==> a[7] != b[7]
        }),
{
    encode_utf8_decode_utf8(host.version@);
    encode_utf8_decode_utf8(other_host.version@);
    encode_utf8_decode_utf8(host.arch@);
    encode_utf8_decode_utf8(other_host.arch@);
    encode_utf8_decode_utf8(host.os@);
    encode_utf8_decode_utf8(other_host.os@);
    encode_utf8_decode_utf8(policy.kernel_abi@);
    encode_utf8_decode_utf8(other_policy.kernel_abi@);
    let x = budgets(limits);
    let y = budgets(other_limits);
    if numbers(x).flatten() == numbers(y).flatten() {
        numbers_come_apart(x, y);
        assert(x[0] == y[0] && x[1] == y[1] && x[2] == y[2] && x[3] == y[3] && x[4] == y[4]);
        assert(x[5] == y[5] && x[6] == y[6] && x[7] == y[7] && x[8] == y[8]);
    }
}

/// Lists of grants that agree in all but one, and there in all but one path or the right to
/// write, are different parts. So are lists of capabilities that agree in all but one.
pub proof fn each_grant_matters(
    preopens: Seq<PreopenModel>,
    other: Seq<PreopenModel>,
    capabilities: Seq<Seq<char>>,
    others: Seq<Seq<char>>,
    i: int,
)
    ensures
        preopens.len() == other.len() && 0 <= i < preopens.len() && (forall|k: int|
            0 <= k < preopens.len() && k != i ==> preopens[k] == other[k]) && (
        preopens[i].host_path != other[i].host_path && preopens[i].guest_path
            == other[i].guest_path && preopens[i].writable == other[i].writable
            || preopens[i].host_path == other[i].host_path && preopens[i].guest_path
            != other[i].guest_path && preopens[i].writable == other[i].writable
            || preopens[i].writable != other[i].writable) ==> spelled(preopens).flatten()
            != spelled(other).flatten(),
        capabilities.len() == others.len() && 0 <= i < capabilities.len() && (forall|k: int|
            0 <= k < capabilities.len() && k != i ==> capabilities[k] == others[k])
            && capabilities[i] != others[i] ==> ended(capabilities).flatten() != ended(
            others,
        ).flatten(),
{
    if preopens.len() == other.len() && 0 <= i < preopens.len() && (forall|k: int|
        0 <= k < preopens.len() && k != i ==> preopens[k] == other[k]) && spelled(
        preopens,
    ).flatten() == spelled(other).flatten() {
        let a = spelled(preopens);
        let b = spelled(other);
        one_part_matters(a, b, i);
        let h = encode_utf8(preopens[i].host_path);
        let g = encode_utf8(preopens[i].guest_path);
        let m = encode_utf8(other[i].host_path);
        let n = encode_utf8(other[i].guest_path);
        assert(a[i].last() == if preopens[i].writable {
            1u8
        } else {
            0u8
        });
        assert(b[i].last() == if other[i].writable {
            1u8
        } else {
            0u8
        });
        assert(a[i].drop_last() =~= h + g);
        assert(b[i].drop_last() =~= m + n);
        encode_utf8_decode_utf8(preopens[i].host_path);
        encode_utf8_decode_utf8(preopens[i].guest_path);
        encode_utf8_decode_utf8(other[i].host_path);
        encode_utf8_decode_utf8(other[i].guest_path);
        if preopens[i].guest_path == other[i].guest_path {
            assert(h =~= (h + g).take((h + g).len() - g.len()));
            assert(m =~= (m + n).take((m + n).len() - n.len()));
        }
        if preopens[i].host_path == other[i].host_path {
            assert(g =~= (h + g).skip(h.len() as int));
            assert(n =~= (m + n).skip(m.len() as int));
        }
    }
    if capabilities.len() == others.len() && 0 <= i < capabilities.len() && (forall|k: int|
        0 <= k < capabilities.len() && k != i ==> capabilities[k] == others[k]) && ended(
        capabilities,
    ).flatten() == ended(others).flatten() {
        let a = ended(capabilities);
        let b = ended(others);
        one_part_matters(a, b, i);
        assert(encode_utf8(capabilities[i]) =~= a[i].drop_last());
        assert(encode_utf8(others[i]) =~= b[i].drop_last());
        encode_utf8_decode_utf8(capabilities[i]);
        encode_utf8_decode_utf8(others[i]);
    }
}

/// The value of a hexadecimal digit.
pub open spec fn digit_value(c: char) -> int {
    if '0' <= c <= '9' {
        c as int - '0' as int
    } else {
        c as int - 'a' as int + 10
    }
}

/// Hexadecimal text has two digits for each byte, in order, the more significant one first.
pub proof fn hexadecimal_reads_back(bytes: Seq<u8>, i: int)
    requires
        0 <= i < bytes.len(),
    ensures
        hex_bytes(bytes).len() == 2 * bytes.len(),
        16 * digit_value(hex_bytes(bytes)[2 * i]) + digit_value(hex_bytes(bytes)[2 * i + 1])
            == bytes[i],
    decreases bytes.len(),
{
    let fewer = bytes.drop_last();
    let last = bytes.last();
    if fewer.len() > 0 {
        let k = if i < fewer.len() {
            i
        } else {
            0
        };
        hexadecimal_reads_back(fewer, k);
    } else {
        assert(hex_bytes(fewer) =~= Seq::empty());
    }
    let all = hex_bytes(bytes);
    assert(all == hex_bytes(fewer) + hex_byte(last));
    if i < fewer.len() {
        assert(all[2 * i] == hex_bytes(fewer)[2 * i]);
        assert(all[2 * i + 1] == hex_bytes(fewer)[2 * i + 1]);
    } else {
        assert(all[2 * i] == hex_byte(last)[0]);
        assert(all[2 * i + 1] == hex_byte(last)[1]);
        assert(16 * (last / 16) + last % 16 == last);
    }
}

} // verus!
