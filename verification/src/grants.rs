//! What components are granted, and what keeps them apart.
use crate::capability::{contained, parent_segment};
use crate::entry::RealmModel;
use crate::id::FiberId;
use crate::interface::{pieces, pieces_exist};
use crate::kernel::{
    route_models, routes_without, service_read, services_read, ListenerRoute, WireModel,
};
use crate::loader::realm_key_of;
use crate::logger::{deciding_filter, minimum_level, passes, LogLevel};
use crate::native::EventIdModel;
use crate::policy::{denied, descriptor_error, import_error, ArtifactPolicy};
use crate::search::{first_index, first_index_is_first};
use crate::service::ServiceModel;
use crate::wasm_error::WasmErrorModel;
use vstd::prelude::*;

verus! {

// ---------------------------------------------------------------------------------------------
// Manifests and imports
// ---------------------------------------------------------------------------------------------

/// A manifest is accepted when it names the kernel interface of the policy and every capability
/// it requests is allowed. Otherwise the other interface is named, or the first capability that
/// is not allowed.
pub proof fn manifests_are_held_to_the_policy(
    kernel_abi: Seq<char>,
    requested: Seq<Seq<char>>,
    policy: ArtifactPolicy,
)
    ensures
        match descriptor_error(kernel_abi, requested, policy) {
            None => kernel_abi == policy.kernel_abi@ && forall|i: int|
                0 <= i < requested.len() ==> policy.allowed_capabilities@.contains(
                    #[trigger] requested[i],
                ),
            Some(WasmErrorModel::KernelAbiMismatch { expected, actual }) => {
                &&& kernel_abi != policy.kernel_abi@
                &&& expected == policy.kernel_abi@
                &&& actual == kernel_abi
            },
            Some(WasmErrorModel::CapabilityDenied { capability }) => {
                &&& kernel_abi == policy.kernel_abi@
                &&& !policy.allowed_capabilities@.contains(capability)
                &&& exists|i: int|
                    0 <= i < requested.len() && #[trigger] requested[i] == capability && forall|
                        k: int,
                    |
                        0 <= k < i ==> policy.allowed_capabilities@.contains(#[trigger] requested[k])
            },
            Some(_) => false,
        },
{
    let p = denied(requested, policy.allowed_capabilities@);
    first_index_is_first(requested.len(), p);
    match first_index(requested.len(), p) {
        Some(i) => {
            assert(p(i));
            assert forall|k: int| 0 <= k < i implies policy.allowed_capabilities@.contains(
                #[trigger] requested[k],
            ) by {
                assert(!p(k));
            }
            assert(requested[i] == requested[i]);
        },
        None => {
            assert forall|i: int| 0 <= i < requested.len() implies
                policy.allowed_capabilities@.contains(#[trigger] requested[i]) by {
                assert(!p(i));
            }
        },
    }
}

proof fn prefix_holds(prefix: Seq<char>, text: Seq<char>, i: int)
    requires
        prefix.is_prefix_of(text),
        0 <= i < prefix.len(),
    ensures
        text[i] == prefix[i],
{
    assert(text.subrange(0, prefix.len() as int)[i] == text[i]);
}

/// An import is under a prefix.
pub open spec fn under(import: Seq<char>, prefix: Seq<char>) -> bool {
    prefix.is_prefix_of(import)
}

/// The capability was declared and is allowed.
pub open spec fn granted(
    capability: Seq<char>,
    declared: Set<Seq<char>>,
    allowed: Set<Seq<char>>,
) -> bool {
    declared.contains(capability) && allowed.contains(capability)
}

/// File access needs `filesystem`, sockets and HTTP need `network`, random numbers need `random`
/// and the wall clock needs `clock:wall`, each declared by the component and allowed to it.
/// Streams, the console and the monotonic clock need nothing, nor does any import that is not
/// WASI. Every other WASI import needs a grant of its own name.
pub proof fn imports_need_their_grants(
    import: Seq<char>,
    declared: Set<Seq<char>>,
    allowed: Set<Seq<char>>,
)
    ensures
        under(import, "wasi:filesystem/"@) ==> (import_error(import, declared, allowed) is None
            <==> granted("filesystem"@, declared, allowed)),
        under(import, "wasi:sockets/"@) ==> (import_error(import, declared, allowed) is None
            <==> granted("network"@, declared, allowed)),
        under(import, "wasi:http/"@) ==> (import_error(import, declared, allowed) is None
            <==> granted("network"@, declared, allowed)),
        under(import, "wasi:random/"@) ==> (import_error(import, declared, allowed) is None
            <==> granted("random"@, declared, allowed)),
        under(import, "wasi:clocks/wall-clock"@) ==> (import_error(import, declared, allowed)
            is None <==> granted("clock:wall"@, declared, allowed)),
        under(import, "wasi:io/"@) ==> import_error(import, declared, allowed) is None,
        under(import, "wasi:cli/"@) ==> import_error(import, declared, allowed) is None,
        under(import, "wasi:clocks/monotonic-clock"@) ==> import_error(import, declared, allowed)
            is None,
        !under(import, "wasi:"@) ==> import_error(import, declared, allowed) is None,
        under(import, "wasi:"@) && !under(import, "wasi:filesystem/"@) && !under(
            import,
            "wasi:sockets/"@,
        ) && !under(import, "wasi:http/"@) && !under(import, "wasi:random/"@) && !under(
            import,
            "wasi:clocks/wall-clock"@,
        ) && !under(import, "wasi:io/"@) && !under(import, "wasi:cli/"@) && !under(
            import,
            "wasi:clocks/monotonic-clock"@,
        ) ==> (import_error(import, declared, allowed) is None <==> granted(
            import,
            declared,
            allowed,
        )),
{
    reveal_strlit("wasi:");
    reveal_strlit("wasi:filesystem/");
    reveal_strlit("wasi:sockets/");
    reveal_strlit("wasi:http/");
    reveal_strlit("wasi:random/");
    reveal_strlit("wasi:clocks/wall-clock");
    reveal_strlit("wasi:clocks/monotonic-clock");
    reveal_strlit("wasi:io/");
    reveal_strlit("wasi:cli/");
    prefixes_differ(import);
    if !under(import, "wasi:"@) {
        not_wasi(import);
    }
}

/// The prefix of a prefix is one.
proof fn shorter_prefix(short: Seq<char>, long: Seq<char>, text: Seq<char>)
    requires
        short.is_prefix_of(long),
        long.is_prefix_of(text),
    ensures
        short.is_prefix_of(text),
{
    assert forall|i: int| 0 <= i < short.len() implies short[i] == text[i] by {
        prefix_holds(short, long, i);
        prefix_holds(long, text, i);
    }
    assert(short =~= text.subrange(0, short.len() as int));
}

proof fn wasi_prefix(long: Seq<char>)
    requires
        long.len() >= 5,
        long[0] == 'w',
        long[1] == 'a',
        long[2] == 's',
        long[3] == 'i',
        long[4] == ':',
    ensures
        "wasi:"@.is_prefix_of(long),
{
    reveal_strlit("wasi:");
    assert("wasi:"@ =~= long.subrange(0, 5));
}

proof fn not_wasi(import: Seq<char>)
    requires
        !under(import, "wasi:"@),
    ensures
        !under(import, "wasi:filesystem/"@),
        !under(import, "wasi:sockets/"@),
        !under(import, "wasi:http/"@),
        !under(import, "wasi:random/"@),
        !under(import, "wasi:clocks/wall-clock"@),
        !under(import, "wasi:clocks/monotonic-clock"@),
        !under(import, "wasi:io/"@),
        !under(import, "wasi:cli/"@),
{
    reveal_strlit("wasi:filesystem/");
    reveal_strlit("wasi:sockets/");
    reveal_strlit("wasi:http/");
    reveal_strlit("wasi:random/");
    reveal_strlit("wasi:clocks/wall-clock");
    reveal_strlit("wasi:clocks/monotonic-clock");
    reveal_strlit("wasi:io/");
    reveal_strlit("wasi:cli/");
    not_wasi_below(import, "wasi:filesystem/"@);
    not_wasi_below(import, "wasi:sockets/"@);
    not_wasi_below(import, "wasi:http/"@);
    not_wasi_below(import, "wasi:random/"@);
    not_wasi_below(import, "wasi:clocks/wall-clock"@);
    not_wasi_below(import, "wasi:clocks/monotonic-clock"@);
    not_wasi_below(import, "wasi:io/"@);
    not_wasi_below(import, "wasi:cli/"@);
}

proof fn not_wasi_below(import: Seq<char>, long: Seq<char>)
    requires
        !under(import, "wasi:"@),
        long.len() >= 5,
        long[0] == 'w',
        long[1] == 'a',
        long[2] == 's',
        long[3] == 'i',
        long[4] == ':',
    ensures
        !under(import, long),
{
    wasi_prefix(long);
    if under(import, long) {
        shorter_prefix("wasi:"@, long, import);
    }
}

/// An import is under at most one of two prefixes that differ somewhere.
proof fn one_prefix(import: Seq<char>, a: Seq<char>, b: Seq<char>, i: int)
    requires
        0 <= i < a.len(),
        i < b.len(),
        a[i] != b[i],
    ensures
        !(under(import, a) && under(import, b)),
{
    if under(import, a) && under(import, b) {
        prefix_holds(a, import, i);
        prefix_holds(b, import, i);
    }
}

proof fn prefixes_differ(import: Seq<char>)
    ensures
        under(import, "wasi:filesystem/"@) ==> free_of_others(import),
        under(import, "wasi:sockets/"@) ==> free_of_others(import) && !under(
            import,
            "wasi:filesystem/"@,
        ),
        under(import, "wasi:http/"@) ==> free_of_others(import) && !under(
            import,
            "wasi:filesystem/"@,
        ),
        under(import, "wasi:random/"@) ==> free_of_others(import) && !under(
            import,
            "wasi:filesystem/"@,
        ) && !under(import, "wasi:sockets/"@) && !under(import, "wasi:http/"@),
        under(import, "wasi:clocks/wall-clock"@) ==> free_of_others(import) && !under(
            import,
            "wasi:filesystem/"@,
        ) && !under(import, "wasi:sockets/"@) && !under(import, "wasi:http/"@) && !under(
            import,
            "wasi:random/"@,
        ),
{
    reveal_strlit("wasi:filesystem/");
    reveal_strlit("wasi:sockets/");
    reveal_strlit("wasi:http/");
    reveal_strlit("wasi:random/");
    reveal_strlit("wasi:clocks/wall-clock");
    reveal_strlit("wasi:clocks/monotonic-clock");
    reveal_strlit("wasi:io/");
    reveal_strlit("wasi:cli/");
    let io = "wasi:io/"@;
    let cli = "wasi:cli/"@;
    let mono = "wasi:clocks/monotonic-clock"@;
    let files = "wasi:filesystem/"@;
    let sockets = "wasi:sockets/"@;
    let http = "wasi:http/"@;
    let random = "wasi:random/"@;
    let wall = "wasi:clocks/wall-clock"@;
    one_prefix(import, files, io, 5);
    one_prefix(import, files, cli, 5);
    one_prefix(import, files, mono, 5);
    one_prefix(import, sockets, io, 5);
    one_prefix(import, sockets, cli, 5);
    one_prefix(import, sockets, mono, 5);
    one_prefix(import, sockets, files, 5);
    one_prefix(import, http, io, 5);
    one_prefix(import, http, cli, 5);
    one_prefix(import, http, mono, 5);
    one_prefix(import, http, files, 5);
    one_prefix(import, random, io, 5);
    one_prefix(import, random, cli, 5);
    one_prefix(import, random, mono, 5);
    one_prefix(import, random, files, 5);
    one_prefix(import, random, sockets, 5);
    one_prefix(import, random, http, 5);
    one_prefix(import, wall, io, 5);
    one_prefix(import, wall, cli, 7);
    one_prefix(import, wall, mono, 12);
    one_prefix(import, wall, files, 5);
    one_prefix(import, wall, sockets, 5);
    one_prefix(import, wall, http, 5);
    one_prefix(import, wall, random, 5);
}

spec fn free_of_others(import: Seq<char>) -> bool {
    &&& !under(import, "wasi:io/"@)
    &&& !under(import, "wasi:cli/"@)
    &&& !under(import, "wasi:clocks/monotonic-clock"@)
}

// ---------------------------------------------------------------------------------------------
// Guest paths
// ---------------------------------------------------------------------------------------------

/// A segment at `i` is `..` and something follows it.
spec fn closed_segment(path: Seq<char>, i: int) -> bool {
    parent_segment(path, i) && i + 2 < path.len()
}

spec fn two_dots() -> Seq<char> {
    seq!['.', '.']
}

/// The last piece of a path is what follows its last separator.
proof fn last_piece(path: Seq<char>)
    ensures
        ({
            let last = pieces(path, '/').last();
            &&& pieces(path, '/').len() > 0
            &&& last.len() <= path.len()
            &&& !last.contains('/')
            &&& last == path.skip(path.len() - last.len())
            &&& last.len() == path.len() || path[path.len() - last.len() - 1] == '/'
        }),
    decreases path.len(),
{
    pieces_exist(path, '/');
    if path.len() == 0 {
        assert(path.skip(0) =~= Seq::empty());
    } else {
        let shorter = path.drop_last();
        last_piece(shorter);
        let before = pieces(shorter, '/').last();
        let last = pieces(path, '/').last();
        if path.last() == '/' {
            assert(last =~= path.skip(path.len() as int));
        } else {
            assert(last == before.push(path.last()));
            assert(last =~= path.skip(path.len() - last.len())) by {
                assert forall|k: int| 0 <= k < last.len() implies last[k] == path.skip(
                    path.len() - last.len(),
                )[k] by {
                    if k < before.len() {
                        assert(before[k] == shorter.skip(shorter.len() - before.len())[k]);
                    }
                }
            }
            assert(!last.contains('/')) by {
                if last.contains('/') {
                    let k = choose|k: int| 0 <= k < last.len() && last[k] == '/';
                    if k < before.len() {
                        assert(before[k] == '/');
                        assert(before.contains('/'));
                    }
                }
            }
        }
    }
}

/// A path ends in `..` exactly when its last piece is that.
proof fn open_segment(path: Seq<char>)
    ensures
        pieces(path, '/').last() == two_dots() <==> parent_segment(path, path.len() - 2),
{
    last_piece(path);
    let last = pieces(path, '/').last();
    let n = path.len() as int;
    if last == two_dots() {
        assert(last[0] == path.skip(n - 2)[0]);
        assert(last[1] == path.skip(n - 2)[1]);
    }
    if parent_segment(path, n - 2) {
        if last.len() > 2 {
            assert(last[last.len() - 3] == path.skip(n - last.len())[last.len() - 3]);
            assert(path[n - 3] == '/');
            assert(last.contains(last[last.len() - 3]));
        } else if last.len() < 2 {
            assert(path[n - last.len() - 1] == '/');
        }
        assert(last =~= two_dots());
    }
}

proof fn closed_segments(path: Seq<char>)
    ensures
        (exists|i: int| #[trigger] closed_segment(path, i)) <==> pieces(
            path,
            '/',
        ).drop_last().contains(two_dots()),
    decreases path.len(),
{
    pieces_exist(path, '/');
    if path.len() == 0 {
        assert(pieces(path, '/').drop_last() =~= Seq::empty());
    } else {
        let shorter = path.drop_last();
        pieces_exist(shorter, '/');
        closed_segments(shorter);
        open_segment(shorter);
        let all = pieces(shorter, '/');
        let n = shorter.len() as int;
        if path.last() == '/' {
            assert(pieces(path, '/').drop_last() =~= all);
            if exists|i: int| #[trigger] closed_segment(path, i) {
                let i = choose|i: int| #[trigger] closed_segment(path, i);
                if i + 2 < n {
                    assert(closed_segment(shorter, i));
                    let k = choose|k: int|
                        0 <= k < all.drop_last().len() && all.drop_last()[k] == two_dots();
                    assert(all[k] == two_dots());
                } else {
                    assert(parent_segment(shorter, n - 2));
                    assert(all[all.len() - 1] == two_dots());
                }
            }
            if all.contains(two_dots()) {
                let k = choose|k: int| 0 <= k < all.len() && all[k] == two_dots();
                if k < all.len() - 1 {
                    assert(all.drop_last()[k] == two_dots());
                    let i = choose|i: int| #[trigger] closed_segment(shorter, i);
                    assert(closed_segment(path, i));
                } else {
                    assert(closed_segment(path, n - 2));
                }
            }
        } else {
            assert(pieces(path, '/').drop_last() =~= all.drop_last());
            if exists|i: int| #[trigger] closed_segment(path, i) {
                let i = choose|i: int| #[trigger] closed_segment(path, i);
                assert(path[i + 2] == '/');
                assert(closed_segment(shorter, i));
            }
            if exists|i: int| #[trigger] closed_segment(shorter, i) {
                let i = choose|i: int| #[trigger] closed_segment(shorter, i);
                assert(closed_segment(path, i));
            }
        }
    }
}

/// A guest path is accepted when it does not begin at the root and none of the names between its
/// separators is `..`.
pub proof fn guest_paths_never_go_up(path: Seq<char>)
    ensures
        contained(path) <==> (path.len() == 0 || path[0] != '/') && !pieces(path, '/').contains(
            seq!['.', '.'],
        ),
{
    pieces_exist(path, '/');
    closed_segments(path);
    open_segment(path);
    let all = pieces(path, '/');
    let dots = two_dots();
    if all.contains(dots) {
        let k = choose|k: int| 0 <= k < all.len() && all[k] == dots;
        if k < all.len() - 1 {
            assert(all.drop_last()[k] == dots);
            let i = choose|i: int| #[trigger] closed_segment(path, i);
            assert(parent_segment(path, i));
        } else {
            assert(parent_segment(path, path.len() - 2));
        }
    } else {
        assert forall|i: int| !#[trigger] parent_segment(path, i) by {
            if parent_segment(path, i) {
                if i + 2 < path.len() {
                    assert(closed_segment(path, i));
                    let k = choose|k: int|
                        0 <= k < all.drop_last().len() && all.drop_last()[k] == dots;
                    assert(all[k] == dots);
                } else {
                    assert(all[all.len() - 1] == dots);
                }
            }
        }
    }
}

// ---------------------------------------------------------------------------------------------
// The boundary
// ---------------------------------------------------------------------------------------------

/// Declared services are read one by one, in order. They are refused as soon as one has a
/// fingerprint that is not 32 bytes long.
pub proof fn services_are_read_in_order(wire: Seq<WireModel>, n: nat)
    requires
        n <= wire.len(),
    ensures
        services_read(wire, n) is Ok <==> forall|i: int|
            0 <= i < n ==> (#[trigger] wire[i]).abi_hash.len() == 32,
        services_read(wire, n) matches Ok(services) ==> services.len() == n && forall|i: int|
            0 <= i < n ==> (#[trigger] services[i]).name == wire[i].name && services[i].abi_hash
                == wire[i].abi_hash,
    decreases n,
{
    if n > 0 {
        services_are_read_in_order(wire, (n - 1) as nat);
        if services_read(wire, n) is Ok {
            assert(service_read(wire[n - 1]) is Ok);
        }
        if forall|i: int| 0 <= i < n ==> (#[trigger] wire[i]).abi_hash.len() == 32 {
            assert(wire[n - 1].abi_hash.len() == 32);
        }
    }
}

/// Unbinding a fiber takes its routes out and leaves all others.
pub proof fn routes_of_others_stay(
    routes: Seq<ListenerRoute>,
    owner: FiberId,
    n: nat,
    route: (EventIdModel, u64, FiberId),
)
    requires
        n <= routes.len(),
    ensures
        routes_without(routes, owner, n).contains(route) <==> route.2 != owner && route_models(
            routes.take(n as int),
        ).contains(route),
    decreases n,
{
    let all = route_models(routes.take(n as int));
    if n > 0 {
        routes_of_others_stay(routes, owner, (n - 1) as nat, route);
        let fewer = route_models(routes.take(n - 1));
        let r = routes[n - 1];
        let last = (r.event@, r.listener, r.owner);
        assert(all =~= fewer.push(last));
        if fewer.contains(route) {
            let k = choose|k: int| 0 <= k < fewer.len() && fewer[k] == route;
            assert(all[k] == route);
        }
        if all.contains(route) {
            let k = choose|k: int| 0 <= k < all.len() && all[k] == route;
            if k < n - 1 {
                assert(fewer[k] == route);
            }
        }
        assert(all[n - 1] == last);
        let before = routes_without(routes, owner, (n - 1) as nat);
        let after = routes_without(routes, owner, n);
        if r.owner != owner {
            if after.contains(route) {
                let k = choose|k: int| 0 <= k < after.len() && after[k] == route;
                if k < before.len() {
                    assert(before[k] == route);
                }
            }
            if before.contains(route) {
                let k = choose|k: int| 0 <= k < before.len() && before[k] == route;
                assert(after[k] == route);
            }
            assert(after[before.len() as int] == last);
        }
    }
}

// ---------------------------------------------------------------------------------------------
// Realms
// ---------------------------------------------------------------------------------------------

/// Two entries that isolate a service share its realm only where both name the same label, or
/// where the isolation is that of the same entry. Without a rule a service is in the default
/// realm of its interface, which no rule ever leads to.
pub proof fn isolation_decides_the_realm(
    a: Map<Seq<char>, RealmModel>,
    b: Map<Seq<char>, RealmModel>,
    service: ServiceModel,
    other: ServiceModel,
)
    ensures
        !a.dom().contains(service.name) && !b.dom().contains(other.name) ==> (realm_key_of(
            a,
            service,
        ) == realm_key_of(b, other) <==> service == other),
        a.dom().contains(service.name) && !b.dom().contains(other.name) ==> realm_key_of(a, service)
            != realm_key_of(b, other),
        a.dom().contains(service.name) && b.dom().contains(other.name) ==> (realm_key_of(a, service)
            == realm_key_of(b, other) <==> a[service.name] == b[other.name]),
{
}

// ---------------------------------------------------------------------------------------------
// Logs
// ---------------------------------------------------------------------------------------------

/// A message is recorded when it is at least as severe as the longest filter says whose name its
/// target begins with, and where there is none when it is informational or worse.
pub proof fn longest_filters_decide(
    levels: Map<Seq<char>, LogLevel>,
    target: Seq<char>,
    level: LogLevel,
)
    ensures
        forall|prefix: Seq<char>|
            levels.dom().contains(prefix) && prefix.is_prefix_of(target) && (forall|
                other: Seq<char>,
            | #[trigger]
                levels.dom().contains(other) && other.is_prefix_of(target) ==> other.len()
                    <= prefix.len()) ==> (passes(levels, level, target) <==> at_least(
                level,
                #[trigger] levels[prefix],
            )),
        (forall|other: Seq<char>| #[trigger]
            levels.dom().contains(other) ==> !other.is_prefix_of(target)) ==> (passes(
            levels,
            level,
            target,
        ) <==> level is Info || level is Warn || level is Error),
{
    assert forall|prefix: Seq<char>|
        levels.dom().contains(prefix) && prefix.is_prefix_of(target) && (forall|other: Seq<char>| #[trigger]
            levels.dom().contains(other) && other.is_prefix_of(target) ==> other.len()
                <= prefix.len()) implies (passes(levels, level, target) <==> at_least(
        level,
        #[trigger] levels[prefix],
    )) by {
        assert(deciding_filter(levels, target, prefix));
        crate::logger::longest_filter_wins(levels, target, prefix);
    }
    if forall|other: Seq<char>| #[trigger]
        levels.dom().contains(other) ==> !other.is_prefix_of(target) {
        assert(minimum_level(levels, target) is Info);
    }
}

/// A level is at least as severe as another: errors come first, then warnings, information,
/// debugging and traces.
pub open spec fn at_least(level: LogLevel, minimum: LogLevel) -> bool {
    match minimum {
        LogLevel::Trace => true,
        LogLevel::Debug => !(level is Trace),
        LogLevel::Info => level is Info || level is Warn || level is Error,
        LogLevel::Warn => level is Warn || level is Error,
        LogLevel::Error => level is Error,
    }
}

} // verus!
