//! What guests are told, what is said of them, and what documents and effects come to.
use crate::document::{
    document_content, document_entries, extension_before, extension_of, format_of, name_end,
    names_parent, patched, IncludeFormat, PatchModel,
};
use crate::dynamic::DynamicComponentDescriptor;
use crate::effect::{children_meta, effect_at, meta_of, position, tree_valid, with_effect, EffectModel};
use crate::entry::{EntryModel, LoaderErrorModel};
use crate::error::ErrorModel;
use crate::grants::services_are_read_in_order;
use crate::id::EffectId;
use crate::kernel::{is_descriptor, seen_by_guest, KernelErrorModel, WireDescriptor};
use crate::loader::{after_stop, DriverStepModel};
use crate::outline::patches_follow_each_other;
use crate::policy::{import_error, import_refused};
use crate::search::{first_index, first_index_is_first};
use crate::service::Requirement;
use crate::text::{group_views, views};
use crate::value::JsonModel;
use crate::wasm_error::WasmHostError;
use vstd::prelude::*;

verus! {

broadcast use group_views;

/// A document that comes to a value has the entries of that value, patched. One patch more is
/// applied to what the others leave, and nothing is read where there is no value.
pub proof fn documents_are_read_and_patched(
    value: JsonModel,
    patches: Seq<PatchModel>,
    more: Seq<PatchModel>,
    error: LoaderErrorModel,
)
    ensures
        document_content(Err(error), patches) == Err::<Seq<EntryModel>, LoaderErrorModel>(error),
        document_content(Ok(value), Seq::empty()) == match document_entries(value) {
            Ok(entries) => Ok::<Seq<EntryModel>, LoaderErrorModel>(entries),
            Err(message) => Err(LoaderErrorModel::Include(message)),
        },
        document_content(Ok(value), patches + more) == match document_content(Ok(value), patches) {
            Ok(entries) => patched(entries, more, more.len()),
            Err(error) => Err(error),
        },
{
    if let Ok(entries) = document_entries(value) {
        patches_follow_each_other(entries, patches, more);
        patches_follow_each_other(entries, Seq::empty(), Seq::empty());
    }
}

// ---------------------------------------------------------------------------------------------
// Formats
// ---------------------------------------------------------------------------------------------

proof fn name_ends_in_the_path(path: Seq<char>)
    ensures
        0 <= name_end(path) <= path.len(),
    decreases path.len(),
{
    if path.len() > 0 {
        name_ends_in_the_path(path.drop_last());
    }
}

proof fn extension_follows_a_dot(path: Seq<char>, end: int, dot: int)
    requires
        0 <= dot <= end <= path.len(),
    ensures
        extension_before(path, end, dot) matches Some(found) ==> exists|k: int|
            0 < k < dot && #[trigger] path[k] == '.' && path[k - 1] != '/' && found
                == path.subrange(k + 1, end),
    decreases dot,
{
    if dot > 0 && path[dot - 1] != '/' && path[dot - 1] != '.' {
        extension_follows_a_dot(path, end, dot - 1);
    }
}

proof fn extension_is_found(path: Seq<char>, end: int, at: int, dot: int)
    requires
        0 < at < dot <= end <= path.len(),
        path[at] == '.',
        path[at - 1] != '/',
        forall|k: int| at < k < dot ==> path[k] != '/' && path[k] != '.',
    ensures
        extension_before(path, end, dot) == Some(path.subrange(at + 1, end)),
    decreases dot,
{
    if dot - 1 > at {
        extension_is_found(path, end, at, dot - 1);
    }
}

proof fn named_extension(stem: Seq<char>, extension: Seq<char>)
    requires
        stem.len() > 0,
        stem.last() != '/',
        extension.len() > 0,
        !extension.contains('/'),
        !extension.contains('.'),
    ensures
        extension_of(stem.push('.') + extension) == Some(extension),
{
    let path = stem.push('.') + extension;
    let n = path.len() as int;
    assert forall|k: int| stem.len() < k < n implies path[k] != '/' && path[k] != '.' by {
        assert(path[k] == extension[k - stem.len() - 1]);
        assert(extension.contains(path[k]));
    }
    assert(path.last() == path[n - 1]);
    assert(name_end(path) == n);
    assert(!names_parent(path, n));
    extension_is_found(path, n, stem.len() as int, n);
    assert(path.subrange(stem.len() as int + 1, n) =~= extension);
}

/// A file whose name ends in `.json` is read as JSON, and one whose name ends in `.yaml` or
/// `.yml` as YAML. Any other file has no format.
pub proof fn names_tell_the_format(stem: Seq<char>, path: Seq<char>)
    ensures
        stem.len() > 0 && stem.last() != '/' ==> format_of(stem.push('.') + "json"@) == Some(
            IncludeFormat::Json,
        ) && format_of(stem.push('.') + "yaml"@) == Some(IncludeFormat::Yaml) && format_of(
            stem.push('.') + "yml"@,
        ) == Some(IncludeFormat::Yaml),
        format_of(path) matches Some(format) ==> exists|k: int|
            {
                &&& 0 < k < name_end(path)
                &&& #[trigger] path[k] == '.'
                &&& match format {
                    IncludeFormat::Json => path.subrange(k + 1, name_end(path)) == "json"@,
                    IncludeFormat::Yaml => path.subrange(k + 1, name_end(path)) == "yaml"@
                        || path.subrange(k + 1, name_end(path)) == "yml"@,
                }
            },
{
    reveal_strlit("json");
    reveal_strlit("yaml");
    reveal_strlit("yml");
    if stem.len() > 0 && stem.last() != '/' {
        assert("json"@.len() == 4 && "yaml"@.len() == 4 && "yml"@.len() == 3);
        assert("json"@[0] != "yaml"@[0]);
        named_extension(stem, "json"@);
        named_extension(stem, "yaml"@);
        named_extension(stem, "yml"@);
    }
    if format_of(path) is Some {
        let end = name_end(path);
        name_ends_in_the_path(path);
        extension_follows_a_dot(path, end, end);
        let found = extension_of(path)->Some_0;
        let k = choose|k: int|
            0 < k < end && #[trigger] path[k] == '.' && path[k - 1] != '/' && found
                == path.subrange(k + 1, end);
        assert(path[k] == '.');
    }
}

// ---------------------------------------------------------------------------------------------
// Guests
// ---------------------------------------------------------------------------------------------

/// A guest is told when a dependency is missing or undeclared and when a capability is denied.
/// Everything else it is told is internal.
pub proof fn guests_are_told_what_concerns_them(error: ErrorModel)
    ensures
        error is InactiveDependency <==> seen_by_guest(error) is InactiveDependency,
        error is UndeclaredDependency <==> seen_by_guest(error) is UndeclaredDependency,
        error matches ErrorModel::CapabilityDenied { capability } ==> seen_by_guest(error)
            == KernelErrorModel::CapabilityDenied(capability),
        !(error is InactiveDependency || error is UndeclaredDependency
            || error is CapabilityDenied) <==> seen_by_guest(error) is Internal,
{
}

/// What a guest says of itself is taken over as it is: its names and version, every service it
/// injects, each of them required, every service it provides, and its capabilities.
pub proof fn guests_are_taken_at_their_word(
    d: DynamicComponentDescriptor,
    descriptor: WireDescriptor,
    schema: Result<JsonModel, Seq<char>>,
)
    requires
        is_descriptor(Ok::<DynamicComponentDescriptor, WasmHostError>(d), descriptor, schema),
    ensures
        d.name@ == descriptor.name@,
        d.version@ == descriptor.version@,
        d.kernel_abi@ == descriptor.wit_version@,
        schema == Ok::<JsonModel, Seq<char>>(d.config_schema@),
        d.config_schema@ is Object || d.config_schema@ is Bool,
        d.injects@.len() == descriptor.inject@.len(),
        forall|i: int|
            0 <= i < d.injects@.len() ==> {
                &&& (#[trigger] d.injects@[i])@.requirement == Requirement::Required
                &&& d.injects@[i]@.service.name == descriptor.inject@[i]@.name
                &&& d.injects@[i]@.service.abi_hash == descriptor.inject@[i]@.abi_hash
                &&& descriptor.inject@[i]@.abi_hash.len() == 32
            },
        d.provides@.len() == descriptor.provide@.len(),
        forall|i: int|
            0 <= i < d.provides@.len() ==> {
                &&& (#[trigger] d.provides@[i])@.name == descriptor.provide@[i]@.name
                &&& d.provides@[i]@.abi_hash == descriptor.provide@[i]@.abi_hash
                &&& descriptor.provide@[i]@.abi_hash.len() == 32
            },
        forall|capability: Seq<char>| #[trigger]
            d.capabilities@.contains(capability) <==> views(descriptor.capabilities@).contains(
                capability,
            ),
{
    let inject = views(descriptor.inject@);
    let provide = views(descriptor.provide@);
    services_are_read_in_order(inject, inject.len());
    services_are_read_in_order(provide, provide.len());
    assert(views(d.injects@).len() == inject.len());
    assert(views(d.provides@).len() == provide.len());
    assert forall|i: int| 0 <= i < d.injects@.len() implies {
        &&& (#[trigger] d.injects@[i])@.requirement == Requirement::Required
        &&& d.injects@[i]@.service.name == descriptor.inject@[i]@.name
        &&& d.injects@[i]@.service.abi_hash == descriptor.inject@[i]@.abi_hash
        &&& descriptor.inject@[i]@.abi_hash.len() == 32
    } by {
        assert(views(d.injects@)[i] == d.injects@[i]@);
        assert(inject[i] == descriptor.inject@[i]@);
    }
    assert forall|i: int| 0 <= i < d.provides@.len() implies {
        &&& (#[trigger] d.provides@[i])@.name == descriptor.provide@[i]@.name
        &&& d.provides@[i]@.abi_hash == descriptor.provide@[i]@.abi_hash
        &&& descriptor.provide@[i]@.abi_hash.len() == 32
    } by {
        assert(views(d.provides@)[i] == d.provides@[i]@);
        assert(provide[i] == descriptor.provide@[i]@);
    }
}

/// The imports of a component are accepted only if each of them is.
pub proof fn every_import_is_checked(
    imports: Seq<Seq<char>>,
    declared: Set<Seq<char>>,
    allowed: Set<Seq<char>>,
)
    ensures
        first_index(imports.len(), import_refused(imports, declared, allowed)) is None
            <==> forall|i: int|
            0 <= i < imports.len() ==> import_error(#[trigger] imports[i], declared, allowed)
                is None,
{
    let p = import_refused(imports, declared, allowed);
    first_index_is_first(imports.len(), p);
    match first_index(imports.len(), p) {
        Some(i) => {
            assert(p(i));
            assert(import_error(imports[i], declared, allowed) is Some);
        },
        None => {
            assert forall|i: int| 0 <= i < imports.len() implies import_error(
                #[trigger] imports[i],
                declared,
                allowed,
            ) is None by {
                assert(!p(i));
            }
        },
    }
}

/// An entry that could not be stopped is started again, and the error is kept whatever comes of
/// that. One that was stopped needs nothing more.
pub proof fn failed_stops_are_taken_back(
    failure: LoaderErrorModel,
    recovery: Result<(), LoaderErrorModel>,
)
    ensures
        after_stop(DriverStepModel::StopPrevious, Ok(())) == DriverStepModel::Done(Ok(())),
        after_stop(DriverStepModel::StopPrevious, Err(failure)) == DriverStepModel::StartPrevious(
            failure,
        ),
        after_stop(DriverStepModel::StartPrevious(failure), recovery) matches DriverStepModel::Done(
            r,
        ) && r is Err,
        recovery is Ok ==> after_stop(DriverStepModel::StartPrevious(failure), recovery)
            == DriverStepModel::Done(Err(failure)),
{
}

// ---------------------------------------------------------------------------------------------
// Effects
// ---------------------------------------------------------------------------------------------

/// What is done to one effect of a tree leaves all others as they are.
pub proof fn other_effects_stay<T>(
    nodes: Seq<EffectModel<T>>,
    effect: EffectId,
    next: EffectModel<T>,
    i: int,
    k: int,
)
    requires
        tree_valid(nodes),
        0 <= i < nodes.len(),
        nodes[i].id == effect,
        0 <= k < nodes.len(),
    ensures
        with_effect(nodes, effect, next).len() == nodes.len(),
        with_effect(nodes, effect, next)[k] == if k == i {
            next
        } else {
            nodes[k]
        },
{
    assert(effect_at(nodes, effect, i));
    let p = position(nodes, effect);
    assert(effect_at(nodes, effect, p));
    if p < i {
        assert(nodes[p].id.0 < nodes[i].id.0);
    }
    if i < p {
        assert(nodes[i].id.0 < nodes[p].id.0);
    }
}

/// The metadata of an effect shows it with its children that are not disposed of, and with no
/// others.
pub proof fn metadata_shows_live_children<T>(nodes: Seq<EffectModel<T>>, i: int, n: nat, k: int)
    requires
        tree_valid(nodes),
        0 <= i < nodes.len(),
        n <= nodes[i].children.len(),
    ensures
        meta_of(nodes, i).id == nodes[i].id,
        meta_of(nodes, i).label == nodes[i].label,
        meta_of(nodes, i).children == children_meta(nodes, i, nodes[i].children.len()),
        0 <= k < n && !(nodes[nodes[i].children[k] as int].status is Disposed) ==> children_meta(
            nodes,
            i,
            n,
        ).contains(meta_of(nodes, nodes[i].children[k] as int)),
        forall|j: int|
            0 <= j < children_meta(nodes, i, n).len() ==> exists|c: int|
                0 <= c < n && !(nodes[#[trigger] nodes[i].children[c] as int].status is Disposed)
                    && #[trigger] children_meta(nodes, i, n)[j] == meta_of(
                    nodes,
                    nodes[i].children[c] as int,
                ),
    decreases n,
{
    if n > 0 {
        let m = (n - 1) as nat;
        metadata_shows_live_children(nodes, i, m, k);
        let before = children_meta(nodes, i, m);
        let all = children_meta(nodes, i, n);
        let child = nodes[i].children[n - 1] as int;
        assert(i < nodes[i].children[n - 1] < nodes.len());
        let live = !(nodes[child].status is Disposed);
        if live {
            assert(all == before.push(meta_of(nodes, child)));
            assert(all[before.len() as int] == meta_of(nodes, child));
        }
        if 0 <= k < m && !(nodes[nodes[i].children[k] as int].status is Disposed) {
            let shown = meta_of(nodes, nodes[i].children[k] as int);
            let q = choose|q: int| 0 <= q < before.len() && before[q] == shown;
            assert(all[q] == shown);
        }
        assert forall|j: int| 0 <= j < all.len() implies exists|c: int|
            0 <= c < n && !(nodes[#[trigger] nodes[i].children[c] as int].status is Disposed)
                && #[trigger] all[j] == meta_of(nodes, nodes[i].children[c] as int) by {
            if j < before.len() {
                let c = choose|c: int|
                    0 <= c < m && !(nodes[#[trigger] nodes[i].children[c] as int].status
                        is Disposed) && before[j] == meta_of(nodes, nodes[i].children[c] as int);
                assert(all[j] == before[j]);
                assert(nodes[i].children[c] as int == nodes[i].children[c] as int);
            } else {
                assert(nodes[i].children[n - 1] as int == child);
            }
        }
    }
}

} // verus!
