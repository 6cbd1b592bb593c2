//! Which declarations of services and components are accepted.
use crate::abi::{
    applied_before, argument_fault, component_fault, component_faulty, component_method_fault,
    faulty, lower_case, lowered, method_fault, method_number, snake_case, upper_case,
    ComponentMethodShape, GenericShape, MethodShape,
    OutputShape, Receiver,
};
use crate::error::ErrorModel;
use crate::expansion::{
    bad_field, bad_path, event_trait_fault, inject_fault, injects_taken, item_fault, item_method, other_attributes, path_fault, refused_item, repeated_field, same_number,
    service_trait_fault, target_field, AttributeShape, InjectTarget, ServiceTrait, TraitItem,
};
use crate::id::FiberId;
use crate::native::{committed_provider, mode_named};
use crate::search::{first_index, first_index_is_first};
use crate::service::{first_entry, ResolvedModel, ServiceModel};
use vstd::prelude::*;

verus! {

/// A service method as it has to be: asynchronous, without a body or generics, through `&self`,
/// with owned arguments under plain names, and with a `Result` of two types.
pub open spec fn proper_method(m: MethodShape) -> bool {
    &&& m.is_async
    &&& !m.has_default
    &&& !m.is_generic
    &&& m.receiver == Receiver::Shared
    &&& forall|i: int|
        0 <= i < m.arguments@.len() ==> (#[trigger] m.arguments@[i]).simple
            && m.arguments@[i].plain && !m.arguments@[i].borrowed
    &&& m.output matches OutputShape::Path { last: Some(last), arguments: Some(arguments) }
        && last@ == "Result"@ && arguments@.len() == 2 && (arguments@[0] matches GenericShape::Type(
        _,
    )) && (arguments@[1] matches GenericShape::Type(_))
}

/// Exactly the proper methods are accepted.
pub proof fn proper_methods_are_accepted(m: MethodShape)
    ensures
        method_fault(m) is None <==> proper_method(m),
{
    let p = faulty(m.arguments@);
    first_index_is_first(m.arguments@.len(), p);
    match first_index(m.arguments@.len(), p) {
        Some(i) => {
            assert(p(i));
            assert(argument_fault(m.arguments@[i]) is Some);
        },
        None => {
            assert forall|i: int| 0 <= i < m.arguments@.len() implies (
            #[trigger] m.arguments@[i]).simple && m.arguments@[i].plain
                && !m.arguments@[i].borrowed by {
                assert(!p(i));
            }
        },
    }
}

/// A service trait is accepted when it has no generics, has at least one item, every item is a
/// proper method, and no two methods have the same number.
pub proof fn proper_services_are_accepted(name: Seq<char>, t: ServiceTrait)
    ensures
        service_trait_fault(name, t) is None <==> {
            &&& !t.is_generic
            &&& t.items@.len() > 0
            &&& forall|i: int|
                0 <= i < t.items@.len() ==> (#[trigger] t.items@[i] matches TraitItem::Method {
                    shape,
                    ..
                } && proper_method(shape))
            &&& forall|i: int, j: int|
                0 <= i < j < t.items@.len() ==> method_number(
                    name,
                    item_method(#[trigger] t.items@[i]),
                ) != method_number(name, item_method(#[trigger] t.items@[j]))
        },
{
    let items = t.items@;
    let p = refused_item(name, items);
    first_index_is_first(items.len(), p);
    assert forall|i: int| 0 <= i < items.len() implies (#[trigger] p(i) <==> !(items[i] matches TraitItem::Method {
        shape,
        ..
    } && proper_method(shape) && forall|j: int|
        0 <= j < i ==> method_number(name, item_method(#[trigger] items[j])) != method_number(
            name,
            item_method(items[i]),
        ))) by {
        if let TraitItem::Method { shape, .. } = items[i] {
            proper_methods_are_accepted(shape);
            let q = same_number(name, items, i);
            first_index_is_first(i as nat, q);
            match first_index(i as nat, q) {
                Some(j) => {
                    assert(q(j));
                    assert(method_number(name, item_method(items[j])) == method_number(
                        name,
                        item_method(items[i]),
                    ));
                },
                None => {
                    assert forall|j: int| 0 <= j < i implies method_number(
                        name,
                        item_method(#[trigger] items[j]),
                    ) != method_number(name, item_method(items[i])) by {
                        assert(!q(j));
                    }
                },
            }
        }
        assert(p(i) <==> item_fault(name, items, i) is Some);
    }
    match first_index(items.len(), p) {
        Some(k) => {
            assert(p(k));
        },
        None => {
            assert forall|i: int| 0 <= i < items.len() implies !#[trigger] p(i) by {}
            assert forall|i: int| 0 <= i < items.len() implies (
            #[trigger] items[i] matches TraitItem::Method { shape, .. } && proper_method(shape)) by {
                assert(!p(i));
            }
            assert forall|i: int, j: int| 0 <= i < j < items.len() implies method_number(
                name,
                item_method(#[trigger] items[i]),
            ) != method_number(name, item_method(#[trigger] items[j])) by {
                assert(!p(j));
            }
        },
    }
}

/// A component is accepted when its methods stand in an impl of their own, exactly one of them
/// applies it, asynchronously through `&mut self` with a context and a configuration, and is not
/// injected itself, and every injected method is asynchronous.
pub proof fn proper_components_are_accepted(of_trait: bool, methods: Seq<ComponentMethodShape>)
    ensures
        component_fault(of_trait, methods) is None <==> {
            &&& !of_trait
            &&& exists|i: int| 0 <= i < methods.len() && (#[trigger] methods[i]).applies
            &&& forall|i: int, j: int|
                0 <= i < j < methods.len() ==> !((#[trigger] methods[i]).applies && (
                #[trigger] methods[j]).applies)
            &&& forall|i: int|
                0 <= i < methods.len() && (#[trigger] methods[i]).applies ==> !methods[i].injects
                    && methods[i].is_async && methods[i].receiver == Receiver::Exclusive
                    && methods[i].inputs == 3
            &&& forall|i: int|
                0 <= i < methods.len() && (#[trigger] methods[i]).injects ==> methods[i].is_async
        },
{
    let p = component_faulty(methods);
    first_index_is_first(methods.len(), p);
    assert forall|i: int| 0 <= i < methods.len() implies (#[trigger] p(i)
        <==> component_method_fault(methods[i], applied_before(methods, i)) is Some) by {}
    match first_index(methods.len(), p) {
        Some(k) => {
            assert(p(k));
            if applied_before(methods, k) {
                let j = choose|j: int| 0 <= j < k && (#[trigger] methods[j]).applies;
                assert(methods[j].applies);
            }
            assert(methods[k].applies || methods[k].injects);
        },
        None => {
            assert forall|i: int| 0 <= i < methods.len() implies component_method_fault(
                #[trigger] methods[i],
                applied_before(methods, i),
            ) is None by {
                assert(!p(i));
            }
            assert forall|i: int, j: int| 0 <= i < j < methods.len() implies !((
            #[trigger] methods[i]).applies && (#[trigger] methods[j]).applies) by {
                if methods[i].applies {
                    assert(applied_before(methods, j));
                }
            }
        },
    }
}

/// Taking out the attributes of a name keeps all others.
pub proof fn other_attributes_stay(
    attributes: Seq<AttributeShape>,
    name: Seq<char>,
    n: nat,
    attribute: AttributeShape,
)
    requires
        n <= attributes.len(),
    ensures
        other_attributes(attributes, name, n).contains(attribute) <==> attributes.take(
            n as int,
        ).contains(attribute) && !(attribute.last is Some && attribute.last->Some_0@ == name),
    decreases n,
{
    let now = attributes.take(n as int);
    if n > 0 {
        other_attributes_stay(attributes, name, (n - 1) as nat, attribute);
        let before = attributes.take(n - 1);
        let last = attributes[n - 1];
        let kept = other_attributes(attributes, name, (n - 1) as nat);
        let all = other_attributes(attributes, name, n);
        assert(now =~= before.push(last));
        assert(now[n - 1] == last);
        if now.contains(attribute) {
            let k = choose|k: int| 0 <= k < now.len() && now[k] == attribute;
            if k < n - 1 {
                assert(before[k] == attribute);
            }
        }
        if before.contains(attribute) {
            let k = choose|k: int| 0 <= k < before.len() && before[k] == attribute;
            assert(now[k] == attribute);
        }
        if all.contains(attribute) {
            let k = choose|k: int| 0 <= k < all.len() && all[k] == attribute;
            if k < kept.len() {
                assert(kept[k] == attribute);
            }
        }
        if kept.contains(attribute) {
            let k = choose|k: int| 0 <= k < kept.len() && kept[k] == attribute;
            assert(all[k] == attribute);
        }
        if all.len() > kept.len() {
            assert(all[kept.len() as int] == last);
        }
    }
}

/// A fiber calls the provider it was loaded against: that of the first of its dependencies on
/// the service. A service it did not declare is refused, and so is one nobody provided.
pub proof fn calls_go_to_the_committed_provider(
    entries: Seq<ResolvedModel>,
    service: ServiceModel,
    i: int,
)
    ensures
        0 <= i < entries.len() && entries[i].key.service == service && (forall|j: int|
            0 <= j < i ==> (#[trigger] entries[j]).key.service != service) ==> committed_provider(
            entries,
            service,
        ) == match entries[i].provider {
            Some(provider) => Ok::<FiberId, ErrorModel>(provider),
            None => Err(ErrorModel::MissingCommittedProvider { service }),
        },
        (forall|j: int| 0 <= j < entries.len() ==> (#[trigger] entries[j]).key.service != service)
            ==> committed_provider(entries, service) == Err::<FiberId, ErrorModel>(
            ErrorModel::UndeclaredDependency { service },
        ),
{
    if 0 <= i < entries.len() && entries[i].key.service == service && (forall|j: int|
        0 <= j < i ==> (#[trigger] entries[j]).key.service != service) {
        assert(first_entry(entries, service, i));
        let k = choose|k: int| #[trigger] first_entry(entries, service, k);
        if k < i {
            assert(entries[k].key.service != service);
        }
        if i < k {
            assert(entries[i].key.service != service);
        }
    }
}

/// Injected services are accepted when each is a path without generics whose name gives a field,
/// and no two give the same field.
pub proof fn proper_injects_are_accepted(targets: Seq<InjectTarget>)
    ensures
        inject_fault(targets) is None <==> {
            &&& forall|i: int|
                0 <= i < targets.len() ==> (#[trigger] targets[i]).is_path
                    && targets[i].segments@.len() > 0 && !targets[i].has_arguments
                    && targets[i].field_is_identifier
            &&& forall|i: int, j: int|
                0 <= i < j < targets.len() ==> target_field(#[trigger] targets[i]) != target_field(
                    #[trigger] targets[j],
                )
        },
{
    let p = bad_path(targets);
    let q = bad_field(targets);
    let r = repeated_field(targets);
    let n = targets.len();
    first_index_is_first(n, p);
    first_index_is_first(n, q);
    first_index_is_first(n, r);
    if first_index(n, p) is Some {
        let i = first_index(n, p)->Some_0;
        assert(p(i));
        assert(path_fault(targets[i]) is Some);
    } else if first_index(n, q) is Some {
        let i = first_index(n, q)->Some_0;
        assert(q(i));
        assert(!targets[i].field_is_identifier);
    } else if first_index(n, r) is Some {
        let i = first_index(n, r)->Some_0;
        assert(r(i));
        let j = choose|j: int|
            0 <= j < i && target_field(#[trigger] targets[j]) == target_field(targets[i]);
        assert(target_field(targets[j]) == target_field(targets[i]));
    } else {
        assert forall|i: int| 0 <= i < n implies (#[trigger] targets[i]).is_path
            && targets[i].segments@.len() > 0 && !targets[i].has_arguments
            && targets[i].field_is_identifier by {
            assert(!p(i));
            assert(!q(i));
        }
        assert forall|i: int, j: int| 0 <= i < j < n implies target_field(#[trigger] targets[i])
            != target_field(#[trigger] targets[j]) by {
            assert(!r(j));
        }
    }
}

/// An event is accepted when its mode is one of the five and both types are given. A waterfall
/// hands on what it takes, so there the two types are the same.
pub proof fn proper_events_are_accepted(
    mode: Seq<char>,
    input: Option<Seq<char>>,
    output: Option<Seq<char>>,
)
    ensures
        event_trait_fault(mode_named(mode), input, output) is None <==> {
            &&& mode == "emit"@ || mode == "parallel"@ || mode == "serial"@ || mode == "bail"@
                || mode == "waterfall"@
            &&& input is Some
            &&& output is Some
            &&& mode == "waterfall"@ ==> input == output
        },
{
    reveal_strlit("emit");
    reveal_strlit("parallel");
    reveal_strlit("serial");
    reveal_strlit("bail");
    reveal_strlit("waterfall");
    assert("waterfall"@.len() == 9);
    assert("parallel"@.len() == 8);
    assert("serial"@.len() == 6);
    assert("emit"@.len() == 4);
    assert("bail"@.len() == 4);
}

/// All services of the attributes that inject some are taken, in order, and all other attributes
/// stay.
pub proof fn injected_services_are_taken(attributes: Seq<AttributeShape>, n: nat)
    requires
        n < attributes.len(),
    ensures
        injects_taken(attributes, 0) == (Seq::<InjectTarget>::empty(), Seq::<AttributeShape>::empty()),
        ({
            let (targets, rest) = injects_taken(attributes, n);
            let last = attributes[n as int];
            injects_taken(attributes, n + 1) == if last.last is Some && (last.last->Some_0@
                == "inject"@ || last.last->Some_0@ == "cordis_inject"@) {
                (targets + last.injects@, rest)
            } else {
                (targets, rest.push(last))
            }
        }),
{
}

/// A field name in snake case has the characters of the name in lower case, in order, with an
/// underscore where a word starts: before an upper-case character that follows a lower-case one
/// or a digit, or that a lower-case one follows, but never at the front.
pub proof fn names_become_fields(name: Seq<char>, n: nat)
    requires
        n < name.len(),
    ensures
        snake_case(name, 0).len() == 0,
        ({
            let c = name[n as int];
            let starts = n > 0 && upper_case(c) && (lower_case(name[n - 1]) || '0' <= name[n - 1]
                <= '9' || n + 1 < name.len() && lower_case(name[n as int + 1]));
            snake_case(name, n + 1) == snake_case(name, n) + (if starts {
                seq!['_']
            } else {
                Seq::empty()
            }) + lowered(c)
        }),
{
    let before = snake_case(name, n);
    let c = name[n as int];
    assert(before.push('_') + lowered(c) =~= before + seq!['_'] + lowered(c));
    assert(before + lowered(c) =~= before + Seq::empty() + lowered(c));
}

} // verus!
