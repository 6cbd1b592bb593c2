//! Compiled artifacts: fingerprints and the bounded cache.
use crate::capability::PreopenModel;
use crate::digest::{blake3_digest, blake3_hash};
use crate::policy::{ArtifactPolicy, WasmLimits};
use crate::service::copy_hash;
use crate::text::{group_views, hex_bytes, push_hex_all, same_bytes, views};
use vstd::bytes::{spec_u64_to_le_bytes, u64_to_le_bytes};
use vstd::prelude::*;
use vstd::utf8::encode_utf8;

verus! {

broadcast use group_views;

/// The platform compiled code is for.
#[derive(Clone, Debug, PartialEq, Eq)]
pub struct HostIdentity {
    pub version: String,
    pub arch: String,
    pub os: String,
}

/// Fingerprint of an artifact and of everything its compilation depends on.
#[derive(Clone, Copy, PartialEq, Eq, PartialOrd, Ord, Hash, Debug)]
pub struct ArtifactHash(pub [u8; 32]);

impl View for ArtifactHash {
    type V = Seq<u8>;

    open spec fn view(&self) -> Seq<u8> {
        self.0@
    }
}

/// Capabilities, each ended by a zero byte.
pub open spec fn capability_bytes(capabilities: Seq<Seq<char>>, n: nat) -> Seq<u8>
    decreases n,
{
    if n == 0 {
        Seq::empty()
    } else {
        capability_bytes(capabilities, (n - 1) as nat) + encode_utf8(capabilities[n - 1]) + seq![0u8]
    }
}

/// Grants: both paths and whether writing is allowed.
pub open spec fn preopen_bytes(preopens: Seq<PreopenModel>, n: nat) -> Seq<u8>
    decreases n,
{
    if n == 0 {
        Seq::empty()
    } else {
        preopen_bytes(preopens, (n - 1) as nat) + encode_utf8(preopens[n - 1].host_path)
            + encode_utf8(preopens[n - 1].guest_path) + seq![
            if preopens[n - 1].writable {
                1u8
            } else {
                0u8
            },
        ]
    }
}

/// All budgets, eight bytes each, least significant byte first.
pub open spec fn limit_bytes(limits: WasmLimits) -> Seq<u8> {
    spec_u64_to_le_bytes(limits.fuel_per_call) + spec_u64_to_le_bytes(limits.epoch_deadline_ticks)
        + spec_u64_to_le_bytes(limits.max_memory_bytes as u64) + spec_u64_to_le_bytes(
        limits.max_table_elements as u64,
    ) + spec_u64_to_le_bytes(limits.max_instances as u64) + spec_u64_to_le_bytes(
        limits.max_tables as u64,
    ) + spec_u64_to_le_bytes(limits.max_memories as u64) + spec_u64_to_le_bytes(
        limits.max_registrations as u64,
    ) + spec_u64_to_le_bytes(limits.max_payload_bytes as u64)
}

/// Everything a fingerprint covers, in order.
pub open spec fn fingerprint_input(
    bytes: Seq<u8>,
    host: HostIdentity,
    policy: ArtifactPolicy,
    limits: WasmLimits,
) -> Seq<u8> {
    let capabilities = views(policy.allowed_capabilities.items@);
    bytes + encode_utf8(host.version@) + encode_utf8(host.arch@) + encode_utf8(host.os@)
        + encode_utf8(policy.kernel_abi@) + capability_bytes(capabilities, capabilities.len())
        + preopen_bytes(policy.wasi@, policy.wasi@.len()) + limit_bytes(limits)
}

fn push_text(out: &mut Vec<u8>, text: &str)
    ensures
        final(out)@ == old(out)@ + encode_utf8(text@),
{
    push_bytes(out, text.as_bytes());
}

fn push_bytes(out: &mut Vec<u8>, bytes: &[u8])
    ensures
        final(out)@ == old(out)@ + bytes@,
{
    let mut i: usize = 0;
    proof {
        assert(out@ =~= old(out)@ + bytes@.take(0));
    }
    while i < bytes.len()
        invariant
            i <= bytes.len(),
            out@ == old(out)@ + bytes@.take(i as int),
        decreases bytes.len() - i,
    {
        out.push(bytes[i]);
        proof {
            assert(bytes@.take(i + 1) =~= bytes@.take(i as int).push(bytes@[i as int]));
            assert(out@ =~= old(out)@ + bytes@.take(i + 1));
        }
        i = i + 1;
    }
    proof {
        assert(bytes@.take(i as int) =~= bytes@);
    }
}

fn push_number(out: &mut Vec<u8>, n: u64)
    ensures
        final(out)@ == old(out)@ + spec_u64_to_le_bytes(n),
{
    let bytes = u64_to_le_bytes(n);
    push_bytes(out, bytes.as_slice());
}

fn push_limits(out: &mut Vec<u8>, limits: &WasmLimits)
    ensures
        final(out)@ == old(out)@ + limit_bytes(*limits),
{
    push_number(out, limits.fuel_per_call);
    push_number(out, limits.epoch_deadline_ticks);
    push_number(out, limits.max_memory_bytes as u64);
    push_number(out, limits.max_table_elements as u64);
    push_number(out, limits.max_instances as u64);
    push_number(out, limits.max_tables as u64);
    push_number(out, limits.max_memories as u64);
    push_number(out, limits.max_registrations as u64);
    push_number(out, limits.max_payload_bytes as u64);
    proof {
        assert(out@ =~= old(out)@ + limit_bytes(*limits));
    }
}

fn push_policy(out: &mut Vec<u8>, policy: &ArtifactPolicy)
    ensures
        ({
            let capabilities = views(policy.allowed_capabilities.items@);
            final(out)@ == old(out)@ + encode_utf8(policy.kernel_abi@) + capability_bytes(
                capabilities,
                capabilities.len(),
            ) + preopen_bytes(policy.wasi@, policy.wasi@.len())
        }),
{
    push_text(out, policy.kernel_abi.as_str());
    let ghost start = out@;
    let ghost capabilities = views(policy.allowed_capabilities.items@);
    let mut i: usize = 0;
    proof {
        assert(out@ =~= start + capability_bytes(capabilities, 0));
    }
    while i < policy.allowed_capabilities.items.len()
        invariant
            capabilities == views(policy.allowed_capabilities.items@),
            i <= policy.allowed_capabilities.items.len(),
            out@ == start + capability_bytes(capabilities, i as nat),
        decreases policy.allowed_capabilities.items.len() - i,
    {
        push_text(out, policy.allowed_capabilities.items[i].as_str());
        out.push(0);
        proof {
            assert(out@ =~= start + capability_bytes(capabilities, (i + 1) as nat));
        }
        i = i + 1;
    }
    let ghost middle = out@;
    let ghost grants = policy.wasi@;
    let mut j: usize = 0;
    proof {
        assert(out@ =~= middle + preopen_bytes(grants, 0));
    }
    while j < policy.wasi.preopens.len()
        invariant
            grants == policy.wasi@,
            grants == views(policy.wasi.preopens@),
            j <= policy.wasi.preopens.len(),
            out@ == middle + preopen_bytes(grants, j as nat),
        decreases policy.wasi.preopens.len() - j,
    {
        let preopen = &policy.wasi.preopens[j];
        push_text(out, preopen.host_path.as_str());
        push_text(out, preopen.guest_path.as_str());
        out.push(
            if preopen.writable {
                1
            } else {
                0
            },
        );
        proof {
            assert(grants[j as int] == preopen@);
            assert(out@ =~= middle + preopen_bytes(grants, (j + 1) as nat));
        }
        j = j + 1;
    }
}

impl ArtifactHash {
    /// Fingerprints an artifact for a platform, a policy and budgets.
    pub fn from_bytes(
        bytes: &[u8],
        host: &HostIdentity,
        policy: &ArtifactPolicy,
        limits: &WasmLimits,
    ) -> (r: ArtifactHash)
        ensures
            r@ == blake3_digest(fingerprint_input(bytes@, *host, *policy, *limits)),
    {
        let mut input: Vec<u8> = Vec::new();
        push_bytes(&mut input, bytes);
        push_text(&mut input, host.version.as_str());
        push_text(&mut input, host.arch.as_str());
        push_text(&mut input, host.os.as_str());
        push_policy(&mut input, policy);
        push_limits(&mut input, limits);
        proof {
            assert(input@ =~= fingerprint_input(bytes@, *host, *policy, *limits));
        }
        ArtifactHash(blake3_hash(input.as_slice()))
    }

    pub fn as_bytes(&self) -> (r: &[u8; 32])
        ensures
            r@ == self@,
    {
        &self.0
    }

    pub fn same(&self, other: &ArtifactHash) -> (r: bool)
        ensures
            r == (self@ == other@),
    {
        same_bytes(self.0.as_slice(), other.0.as_slice())
    }

    pub fn duplicate(&self) -> (r: ArtifactHash)
        ensures
            r@ == self@,
    {
        ArtifactHash(copy_hash(&self.0))
    }

    /// The fingerprint in hexadecimal.
    pub fn text(&self) -> (r: String)
        ensures
            r@ == hex_bytes(self@),
    {
        let mut out = String::new();
        push_hex_all(&mut out, self.0.as_slice());
        proof {
            assert(out@ =~= hex_bytes(self@));
        }
        out
    }
}

/// A compiled artifact and, once it is validated, the factory for its instances.
#[derive(Debug)]
pub struct CompiledArtifact<F> {
    pub hash: ArtifactHash,
    pub factory: Option<F>,
}

impl<F> CompiledArtifact<F> {
    pub fn hash(&self) -> (r: ArtifactHash)
        ensures
            r@ == self.hash@,
    {
        self.hash.duplicate()
    }

    pub fn factory(&self) -> (r: Option<&F>)
        ensures
            match (r, self.factory) {
                (Some(given), Some(factory)) => *given == factory,
                (None, None) => true,
                _ => false,
            },
    {
        self.factory.as_ref()
    }
}

#[derive(Clone, Copy, Debug, PartialEq, Eq, Structural)]
pub struct CacheMetrics {
    pub hits: u64,
    pub misses: u64,
    pub evictions: u64,
}

/// The fingerprints of cached artifacts, least recently used first.
pub open spec fn cached<F>(artifacts: Seq<CompiledArtifact<F>>) -> Seq<Seq<u8>> {
    Seq::new(artifacts.len(), |i: int| artifacts[i].hash@)
}

/// `hash` is cached at `i`.
pub open spec fn cached_at<F>(artifacts: Seq<CompiledArtifact<F>>, hash: Seq<u8>, i: int) -> bool {
    0 <= i < artifacts.len() && artifacts[i].hash@ == hash
}

/// `hash` is cached.
pub open spec fn is_cached<F>(artifacts: Seq<CompiledArtifact<F>>, hash: Seq<u8>) -> bool {
    exists|i: int| #[trigger] cached_at(artifacts, hash, i)
}

/// Where a cached fingerprint is.
pub open spec fn cache_position<F>(artifacts: Seq<CompiledArtifact<F>>, hash: Seq<u8>) -> int {
    choose|i: int| #[trigger] cached_at(artifacts, hash, i)
}

/// Each fingerprint is cached at most once.
pub open spec fn cached_once<F>(artifacts: Seq<CompiledArtifact<F>>) -> bool {
    forall|i: int, j: int|
        0 <= i < j < artifacts.len() ==> (#[trigger] artifacts[i]).hash@ != (
        #[trigger] artifacts[j]).hash@
}

/// All cached artifacts but `hash`.
pub open spec fn cache_without<F>(artifacts: Seq<CompiledArtifact<F>>, hash: Seq<u8>) -> Seq<
    CompiledArtifact<F>,
> {
    if is_cached(artifacts, hash) {
        artifacts.remove(cache_position(artifacts, hash))
    } else {
        artifacts
    }
}

/// The artifacts after one was used: it becomes the most recent one.
pub open spec fn cache_touched<F>(artifacts: Seq<CompiledArtifact<F>>, hash: Seq<u8>) -> Seq<
    CompiledArtifact<F>,
> {
    let i = cache_position(artifacts, hash);
    artifacts.remove(i).push(artifacts[i])
}

/// The artifacts after one was added: the least recently used one makes room.
pub open spec fn cache_added<F>(
    artifacts: Seq<CompiledArtifact<F>>,
    capacity: nat,
    artifact: CompiledArtifact<F>,
) -> Seq<CompiledArtifact<F>> {
    let all = cache_without(artifacts, artifact.hash@).push(artifact);
    if all.len() > capacity {
        all.drop_first()
    } else {
        all
    }
}

/// A bounded cache of compiled artifacts in order of use.
#[derive(Debug)]
pub struct ArtifactCache<F> {
    pub capacity: usize,
    pub artifacts: Vec<CompiledArtifact<F>>,
    pub metrics: CacheMetrics,
}

impl<F> ArtifactCache<F> {
    /// The cache holds at most its capacity, and everything once.
    pub open spec fn wf(&self) -> bool {
        &&& self.capacity >= 1
        &&& self.artifacts@.len() <= self.capacity
        &&& cached_once(self.artifacts@)
    }

    /// An empty cache. It always has room for one artifact.
    pub fn new(capacity: usize) -> (r: ArtifactCache<F>)
        ensures
            r.wf(),
            r.capacity == if capacity >= 1 {
                capacity
            } else {
                1
            },
            r.artifacts@.len() == 0,
            r.metrics == (CacheMetrics { hits: 0, misses: 0, evictions: 0 }),
    {
        ArtifactCache {
            capacity: if capacity >= 1 {
                capacity
            } else {
                1
            },
            artifacts: Vec::new(),
            metrics: CacheMetrics { hits: 0, misses: 0, evictions: 0 },
        }
    }

    fn find(&self, hash: &ArtifactHash) -> (r: Option<usize>)
        requires
            self.wf(),
        ensures
            match r {
                Some(i) => i < self.artifacts@.len() && is_cached(self.artifacts@, hash@) && i
                    == cache_position(self.artifacts@, hash@) && self.artifacts@[i as int].hash@
                    == hash@,
                None => !is_cached(self.artifacts@, hash@),
            },
    {
        let mut i: usize = 0;
        while i < self.artifacts.len()
            invariant
                self.wf(),
                i <= self.artifacts.len(),
                forall|k: int| 0 <= k < i ==> !#[trigger] cached_at(self.artifacts@, hash@, k),
            decreases self.artifacts.len() - i,
        {
            if self.artifacts[i].hash.same(hash) {
                proof {
                    assert(cached_at(self.artifacts@, hash@, i as int));
                    let k = cache_position(self.artifacts@, hash@);
                    if k < i {
                        assert(self.artifacts@[k].hash@ != self.artifacts@[i as int].hash@);
                    }
                    if i < k {
                        assert(self.artifacts@[i as int].hash@ != self.artifacts@[k].hash@);
                    }
                }
                return Some(i);
            }
            proof {
                assert(!cached_at(self.artifacts@, hash@, i as int));
            }
            i = i + 1;
        }
        None
    }

    /// Looks an artifact up and marks it as used.
    pub fn get(&mut self, hash: ArtifactHash) -> (r: Option<&CompiledArtifact<F>>)
        requires
            old(self).wf(),
            old(self).metrics.hits < u64::MAX,
            old(self).metrics.misses < u64::MAX,
        ensures
            final(self).wf(),
            final(self).capacity == old(self).capacity,
            match r {
                Some(artifact) => {
                    &&& is_cached(old(self).artifacts@, hash@)
                    &&& *artifact == old(self).artifacts@[cache_position(
                        old(self).artifacts@,
                        hash@,
                    )]
                    &&& final(self).artifacts@ == cache_touched(old(self).artifacts@, hash@)
                    &&& final(self).metrics == (CacheMetrics {
                        hits: (old(self).metrics.hits + 1) as u64,
                        ..old(self).metrics
                    })
                },
                None => {
                    &&& !is_cached(old(self).artifacts@, hash@)
                    &&& final(self).artifacts@ == old(self).artifacts@
                    &&& final(self).metrics == (CacheMetrics {
                        misses: (old(self).metrics.misses + 1) as u64,
                        ..old(self).metrics
                    })
                },
            },
    {
        match self.find(&hash) {
            None => {
                self.metrics.misses = self.metrics.misses + 1;
                None
            },
            Some(i) => {
                self.metrics.hits = self.metrics.hits + 1;
                let ghost before = self.artifacts@;
                let artifact = self.artifacts.remove(i);
                self.artifacts.push(artifact);
                proof {
                    moved_once(before, i as int);
                }
                let last = self.artifacts.len() - 1;
                Some(&self.artifacts[last])
            },
        }
    }

    /// Adds an artifact as the most recent one.
    pub fn insert(&mut self, artifact: CompiledArtifact<F>)
        requires
            old(self).wf(),
            old(self).metrics.evictions < u64::MAX,
        ensures
            final(self).wf(),
            final(self).capacity == old(self).capacity,
            final(self).artifacts@ == cache_added(
                old(self).artifacts@,
                old(self).capacity as nat,
                artifact,
            ),
            final(self).metrics == (CacheMetrics {
                evictions: if cache_without(old(self).artifacts@, artifact.hash@).len()
                    == old(self).capacity {
                    (old(self).metrics.evictions + 1) as u64
                } else {
                    old(self).metrics.evictions
                },
                ..old(self).metrics
            }),
    {
        let ghost before = self.artifacts@;
        match self.find(&artifact.hash) {
            Some(i) => {
                let _ = self.artifacts.remove(i);
            },
            None => {},
        }
        proof {
            without_once(before, artifact.hash@);
        }
        let ghost rest = self.artifacts@;
        self.artifacts.push(artifact);
        proof {
            assert(self.artifacts@ == rest.push(artifact));
        }
        if self.artifacts.len() > self.capacity {
            let ghost all = self.artifacts@;
            let _ = self.artifacts.remove(0);
            self.metrics.evictions = self.metrics.evictions + 1;
            proof {
                assert(self.artifacts@ =~= all.drop_first());
            }
        }
    }

    pub fn metrics(&self) -> (r: CacheMetrics)
        ensures
            r == self.metrics,
    {
        self.metrics
    }
}

proof fn moved_once<F>(artifacts: Seq<CompiledArtifact<F>>, i: int)
    requires
        cached_once(artifacts),
        0 <= i < artifacts.len(),
    ensures
        cached_once(artifacts.remove(i).push(artifacts[i])),
{
    let after = artifacts.remove(i).push(artifacts[i]);
    assert forall|a: int, b: int| 0 <= a < b < after.len() implies (#[trigger] after[a]).hash@ != (
    #[trigger] after[b]).hash@ by {
        let p = if a < i {
            a
        } else {
            a + 1
        };
        assert(after[a] == artifacts[p]);
        if b < after.len() - 1 {
            let q = if b < i {
                b
            } else {
                b + 1
            };
            assert(after[b] == artifacts[q]);
        } else if p < i {
            assert(artifacts[p].hash@ != artifacts[i].hash@);
        } else {
            assert(artifacts[i].hash@ != artifacts[p].hash@);
        }
    }
}

proof fn without_once<F>(artifacts: Seq<CompiledArtifact<F>>, hash: Seq<u8>)
    requires
        cached_once(artifacts),
    ensures
        cached_once(cache_without(artifacts, hash)),
        forall|k: int|
            0 <= k < cache_without(artifacts, hash).len() ==> (#[trigger] cache_without(
                artifacts,
                hash,
            )[k]).hash@ != hash,
{
    let after = cache_without(artifacts, hash);
    if is_cached(artifacts, hash) {
        let i = cache_position(artifacts, hash);
        assert(cached_at(artifacts, hash, i));
        assert forall|a: int, b: int| 0 <= a < b < after.len() implies (#[trigger] after[a]).hash@
            != (#[trigger] after[b]).hash@ by {
            let p = if a < i {
                a
            } else {
                a + 1
            };
            let q = if b < i {
                b
            } else {
                b + 1
            };
            assert(after[a] == artifacts[p] && after[b] == artifacts[q]);
        }
        assert forall|k: int| 0 <= k < after.len() implies (#[trigger] after[k]).hash@ != hash by {
            let p = if k < i {
                k
            } else {
                k + 1
            };
            assert(after[k] == artifacts[p]);
            if p < i {
                assert(artifacts[p].hash@ != artifacts[i].hash@);
            } else {
                assert(artifacts[i].hash@ != artifacts[p].hash@);
            }
        }
    } else {
        assert forall|k: int| 0 <= k < after.len() implies (#[trigger] after[k]).hash@ != hash by {
            if after[k].hash@ == hash {
                assert(cached_at(artifacts, hash, k));
            }
        }
    }
}

/// The cache is bounded: what makes room is the artifact that was used least recently, and the
/// one just added is always there.
pub proof fn cache_is_bounded<F>(
    artifacts: Seq<CompiledArtifact<F>>,
    capacity: nat,
    artifact: CompiledArtifact<F>,
)
    requires
        capacity >= 1,
        artifacts.len() <= capacity,
        cached_once(artifacts),
    ensures
        cache_added(artifacts, capacity, artifact).len() <= capacity,
        cache_added(artifacts, capacity, artifact).last() == artifact,
        artifacts.len() == capacity && !is_cached(artifacts, artifact.hash@) ==> cache_added(
            artifacts,
            capacity,
            artifact,
        ) == artifacts.drop_first().push(artifact),
{
    without_once(artifacts, artifact.hash@);
    if is_cached(artifacts, artifact.hash@) {
        assert(cached_at(artifacts, artifact.hash@, cache_position(artifacts, artifact.hash@)));
    } else if artifacts.len() == capacity {
        assert(artifacts.push(artifact).drop_first() =~= artifacts.drop_first().push(artifact));
    }
}

/// Using an artifact makes it the most recent one. No artifact is lost, and the others keep their
/// order.
pub proof fn used_artifacts_come_last<F>(
    artifacts: Seq<CompiledArtifact<F>>,
    hash: Seq<u8>,
    i: int,
)
    requires
        cached_once(artifacts),
        0 <= i < artifacts.len(),
        artifacts[i].hash@ == hash,
    ensures
        is_cached(artifacts, hash),
        cache_touched(artifacts, hash) == artifacts.take(i) + artifacts.skip(i + 1) + seq![
            artifacts[i],
        ],
{
    position_is(artifacts, hash, i);
    assert(cache_touched(artifacts, hash) =~= artifacts.take(i) + artifacts.skip(i + 1) + seq![
        artifacts[i],
    ]);
}

proof fn position_is<F>(artifacts: Seq<CompiledArtifact<F>>, hash: Seq<u8>, i: int)
    requires
        cached_once(artifacts),
        0 <= i < artifacts.len(),
        artifacts[i].hash@ == hash,
    ensures
        is_cached(artifacts, hash),
        cache_position(artifacts, hash) == i,
{
    assert(cached_at(artifacts, hash, i));
    let k = cache_position(artifacts, hash);
    if k < i {
        assert(artifacts[k].hash@ != artifacts[i].hash@);
    }
    if i < k {
        assert(artifacts[i].hash@ != artifacts[k].hash@);
    }
}

/// An added artifact takes the place of one with its fingerprint and is the most recent one. All
/// others stay in order, but where there is no room the least recently used one leaves.
pub proof fn added_artifacts_come_last<F>(
    artifacts: Seq<CompiledArtifact<F>>,
    capacity: nat,
    artifact: CompiledArtifact<F>,
)
    requires
        capacity >= 1,
        artifacts.len() <= capacity,
        cached_once(artifacts),
    ensures
        forall|i: int|
            0 <= i < artifacts.len() && (#[trigger] artifacts[i]).hash@ == artifact.hash@
                ==> cache_added(artifacts, capacity, artifact) == artifacts.take(i)
                + artifacts.skip(i + 1) + seq![artifact],
        (forall|i: int|
            0 <= i < artifacts.len() ==> (#[trigger] artifacts[i]).hash@ != artifact.hash@) ==> {
            &&& artifacts.len() < capacity ==> cache_added(artifacts, capacity, artifact)
                == artifacts.push(artifact)
            &&& artifacts.len() == capacity ==> cache_added(artifacts, capacity, artifact)
                == artifacts.skip(1).push(artifact)
        },
{
    assert forall|i: int|
        0 <= i < artifacts.len() && (#[trigger] artifacts[i]).hash@ == artifact.hash@ implies
        cache_added(artifacts, capacity, artifact) == artifacts.take(i) + artifacts.skip(i + 1)
            + seq![artifact] by {
        position_is(artifacts, artifact.hash@, i);
        assert(cache_added(artifacts, capacity, artifact) =~= artifacts.take(i) + artifacts.skip(
            i + 1,
        ) + seq![artifact]);
    }
    if forall|i: int|
        0 <= i < artifacts.len() ==> (#[trigger] artifacts[i]).hash@ != artifact.hash@ {
        if is_cached(artifacts, artifact.hash@) {
            let k = cache_position(artifacts, artifact.hash@);
            assert(cached_at(artifacts, artifact.hash@, k));
        }
        assert(artifacts.push(artifact).drop_first() =~= artifacts.skip(1).push(artifact) || artifacts.len() == 0);
    }
}

} // verus!
