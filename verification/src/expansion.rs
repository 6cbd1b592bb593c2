//! What service, event and component declarations stand for.
use crate::abi::{
    check_service_method, fault_text, faulty, hash_tokens, interface_hash, method_fault,
    method_id, method_number, named_lines, result_output, result_types, service_abi_hash,
    snake_case, to_snake_case, MethodFault, MethodModel, MethodShape, ServiceMethod,
};
use crate::digest::blake3_digest;
use crate::error::{CordisError, ErrorModel};
use crate::native::{event_mode, mode_named, EventMode};
use crate::order::same_text;
use crate::search::{first_index, first_index_found, first_index_is_first};
use crate::service::{ServiceId, ServiceModel};
use crate::text::{group_views, join, join_texts, view_option, views};
use vstd::prelude::*;
use vstd::utf8::encode_utf8;

verus! {

broadcast use group_views;

/// An item of a service trait. A method comes with the spelling of its argument types.
#[derive(Clone, Debug, PartialEq, Eq)]
pub enum TraitItem {
    Method { name: String, types: Vec<String>, shape: MethodShape },
    Other,
}

/// A service trait as it is declared.
#[derive(Clone, Debug, PartialEq, Eq)]
pub struct ServiceTrait {
    pub ident: String,
    pub is_generic: bool,
    pub items: Vec<TraitItem>,
}

/// Why a service trait is refused.
#[derive(Clone, Debug, PartialEq, Eq)]
pub enum ServiceFault {
    Generic,
    NotMethod,
    Method(MethodFault),
    Collision { previous: String, method: String },
    Empty,
}

/// The content of a refusal.
pub enum ServiceFaultModel {
    Generic,
    NotMethod,
    Method(MethodFault),
    Collision { previous: Seq<char>, method: Seq<char> },
    Empty,
}

impl View for ServiceFault {
    type V = ServiceFaultModel;

    open spec fn view(&self) -> ServiceFaultModel {
        match self {
            ServiceFault::Generic => ServiceFaultModel::Generic,
            ServiceFault::NotMethod => ServiceFaultModel::NotMethod,
            ServiceFault::Method(fault) => ServiceFaultModel::Method(*fault),
            ServiceFault::Collision { previous, method } => ServiceFaultModel::Collision {
                previous: previous@,
                method: method@,
            },
            ServiceFault::Empty => ServiceFaultModel::Empty,
        }
    }
}

/// The text shown for a refusal.
pub open spec fn service_fault_text(fault: ServiceFaultModel) -> Seq<char> {
    match fault {
        ServiceFaultModel::Generic => "service traits cannot have generic parameters"@,
        ServiceFaultModel::NotMethod => "service traits may only contain methods"@,
        ServiceFaultModel::Method(fault) => fault_text(fault),
        ServiceFaultModel::Collision { previous, method } => "service method id collision between `"@
            + previous + "` and `"@ + method + "`"@,
        ServiceFaultModel::Empty => "service trait must declare at least one method"@,
    }
}

impl ServiceFault {
    pub fn message(&self) -> (r: String)
        ensures
            r@ == service_fault_text(self@),
    {
        match self {
            ServiceFault::Generic => "service traits cannot have generic parameters".to_owned(),
            ServiceFault::NotMethod => "service traits may only contain methods".to_owned(),
            ServiceFault::Method(fault) => fault.message().to_owned(),
            ServiceFault::Collision { previous, method } => {
                let mut out = "service method id collision between `".to_owned();
                out.append(previous.as_str());
                out.append("` and `");
                out.append(method.as_str());
                out.append("`");
                out
            },
            ServiceFault::Empty => "service trait must declare at least one method".to_owned(),
        }
    }
}

/// The method of an item.
pub open spec fn item_method(item: TraitItem) -> MethodModel {
    MethodModel {
        name: item->name@,
        arguments: views(item->types@),
        ok: result_types(item->shape.output)->Some_0.0,
        error: result_types(item->shape.output)->Some_0.1,
    }
}

/// The first of the methods before `i` that has the number of method `i`.
pub open spec fn same_number(name: Seq<char>, items: Seq<TraitItem>, i: int) -> spec_fn(
    int,
) -> bool {
    |j: int|
        method_number(name, item_method(items[j])) == method_number(name, item_method(items[i]))
}

/// Why the item at `i` is refused, if those before it are not.
pub open spec fn item_fault(name: Seq<char>, items: Seq<TraitItem>, i: int) -> Option<
    ServiceFaultModel,
> {
    match items[i] {
        TraitItem::Other => Some(ServiceFaultModel::NotMethod),
        TraitItem::Method { name: method, shape, .. } => match method_fault(shape) {
            Some(fault) => Some(ServiceFaultModel::Method(fault)),
            None => match first_index(i as nat, same_number(name, items, i)) {
                Some(j) => Some(
                    ServiceFaultModel::Collision {
                        previous: item_method(items[j]).name,
                        method: method@,
                    },
                ),
                None => None,
            },
        },
    }
}

/// An item that is refused.
pub open spec fn refused_item(name: Seq<char>, items: Seq<TraitItem>) -> spec_fn(int) -> bool {
    |i: int| item_fault(name, items, i) is Some
}

/// Why a service trait is refused.
pub open spec fn service_trait_fault(name: Seq<char>, t: ServiceTrait) -> Option<
    ServiceFaultModel,
> {
    if t.is_generic {
        Some(ServiceFaultModel::Generic)
    } else {
        match first_index(t.items@.len(), refused_item(name, t.items@)) {
            Some(i) => item_fault(name, t.items@, i),
            None => if t.items@.len() == 0 {
                Some(ServiceFaultModel::Empty)
            } else {
                None
            },
        }
    }
}

/// The methods of a trait that holds nothing else.
pub open spec fn item_methods(items: Seq<TraitItem>) -> Seq<MethodModel> {
    Seq::new(items.len(), |i: int| item_method(items[i]))
}

/// What a service trait is expanded to: the names of the generated items, the interface
/// fingerprint and the number of every method.
#[derive(Clone, Debug, PartialEq, Eq)]
pub struct ServicePlan {
    pub name: String,
    pub abi_hash: [u8; 32],
    pub marker: String,
    pub client: String,
    pub client_backend: String,
    pub native_client: String,
    pub native_adapter: String,
    pub dispatcher: String,
    pub methods: Vec<ServiceMethod>,
    pub method_ids: Vec<u32>,
}

impl ServicePlan {
    /// Every method has a number of its own.
    pub open spec fn wf(&self) -> bool {
        &&& self.method_ids@.len() == self.methods@.len()
        &&& forall|i: int, j: int|
            0 <= i < j < self.method_ids@.len() ==> #[trigger] self.method_ids@[i]
                != #[trigger] self.method_ids@[j]
    }

    /// The plan is that of a trait.
    pub open spec fn expands(&self, name: Seq<char>, ident: Seq<char>, items: Seq<TraitItem>) -> bool {
        &&& self.name@ == name
        &&& self.abi_hash@ == interface_hash(name, item_methods(items))
        &&& self.marker@ == ident + "Service"@
        &&& self.client@ == ident + "Client"@
        &&& self.client_backend@ == "__Cordis"@ + ident + "ClientBackend"@
        &&& self.native_client@ == "__Cordis"@ + ident + "NativeClient"@
        &&& self.native_adapter@ == "__Cordis"@ + ident + "NativeClientAdapter"@
        &&& self.dispatcher@ == ident + "Dispatcher"@
        &&& views(self.methods@) == item_methods(items)
        &&& self.method_ids@.len() == items.len()
        &&& forall|i: int|
            0 <= i < items.len() ==> #[trigger] self.method_ids@[i] == method_number(
                name,
                item_method(items[i]),
            )
    }

    /// The method that answers to a number.
    pub fn route(&self, method_id: u32) -> (r: Result<usize, CordisError>)
        requires
            self.wf(),
        ensures
            match r {
                Ok(at) => at < self.methods@.len() && self.method_ids@[at as int] == method_id,
                Err(error) => !self.method_ids@.contains(method_id) && error@ == (
                ErrorModel::UnknownServiceMethod {
                    service: ServiceModel { name: self.name@, abi_hash: self.abi_hash@ },
                    method_id,
                }),
            },
    {
        let mut i: usize = 0;
        while i < self.method_ids.len()
            invariant
                self.wf(),
                i <= self.method_ids.len(),
                forall|k: int| 0 <= k < i ==> #[trigger] self.method_ids@[k] != method_id,
            decreases self.method_ids.len() - i,
        {
            if self.method_ids[i] == method_id {
                return Ok(i);
            }
            i = i + 1;
        }
        Err(
            CordisError::UnknownServiceMethod {
                service: ServiceId::new(self.name.clone(), self.abi_hash),
                method_id,
            },
        )
    }
}

fn joined(before: &str, ident: &str, after: &str) -> (r: String)
    ensures
        r@ == before@ + ident@ + after@,
{
    let mut out = before.to_owned();
    out.append(ident);
    out.append(after);
    out
}

fn suffixed(ident: &str, after: &str) -> (r: String)
    ensures
        r@ == ident@ + after@,
{
    let mut out = ident.to_owned();
    out.append(after);
    out
}

fn duplicate_texts(texts: &Vec<String>) -> (r: Vec<String>)
    ensures
        views(r@) == views(texts@),
{
    let mut out: Vec<String> = Vec::new();
    let mut i: usize = 0;
    while i < texts.len()
        invariant
            i <= texts.len(),
            views(out@) == views(texts@).take(i as int),
        decreases texts.len() - i,
    {
        out.push(texts[i].clone());
        proof {
            let all = views(texts@);
            assert(all.take(i + 1) =~= all.take(i as int).push(all[i as int]));
        }
        i = i + 1;
    }
    proof {
        assert(views(texts@).take(i as int) =~= views(texts@));
    }
    out
}

/// Checks a service method and reads its wire interface.
pub fn parse_service_method(name: &String, types: &Vec<String>, shape: &MethodShape) -> (r: Result<
    ServiceMethod,
    MethodFault,
>)
    ensures
        match (r, method_fault(*shape)) {
            (Ok(method), None) => method@ == (MethodModel {
                name: name@,
                arguments: views(types@),
                ok: result_types(shape.output)->Some_0.0,
                error: result_types(shape.output)->Some_0.1,
            }),
            (Err(fault), Some(expected)) => fault == expected,
            _ => false,
        },
{
    match check_service_method(shape) {
        Err(fault) => return Err(fault),
        Ok(_) => {},
    }
    proof {
        first_index_is_first(
            shape.arguments@.len(),
            faulty(shape.arguments@),
        );
    }
    match result_output(&shape.output) {
        Err(fault) => Err(fault),
        Ok((ok, error)) => Ok(
            ServiceMethod { name: name.clone(), arguments: duplicate_texts(types), ok, error },
        ),
    }
}

fn find_number(ids: &Vec<u32>, id: u32) -> (r: Option<usize>)
    ensures
        match r {
            Some(i) => i < ids@.len() && ids@[i as int] == id && forall|k: int|
                0 <= k < i ==> #[trigger] ids@[k] != id,
            None => forall|k: int| 0 <= k < ids@.len() ==> #[trigger] ids@[k] != id,
        },
{
    let mut i: usize = 0;
    while i < ids.len()
        invariant
            i <= ids.len(),
            forall|k: int| 0 <= k < i ==> #[trigger] ids@[k] != id,
        decreases ids.len() - i,
    {
        if ids[i] == id {
            return Some(i);
        }
        i = i + 1;
    }
    None
}

/// Checks the methods of a service trait in order and numbers them.
pub fn parse_service_methods(name: &str, items: &Vec<TraitItem>) -> (r: Result<
    (Vec<ServiceMethod>, Vec<u32>),
    ServiceFault,
>)
    ensures
        match (r, first_index(items@.len(), refused_item(name@, items@))) {
            (Err(fault), Some(i)) => Some(fault@) == item_fault(name@, items@, i),
            (Err(fault), None) => items@.len() == 0 && fault@ is Empty,
            (Ok((methods, ids)), None) => {
                &&& items@.len() > 0
                &&& views(methods@) == item_methods(items@)
                &&& ids@.len() == items@.len()
                &&& forall|i: int|
                    0 <= i < ids@.len() ==> #[trigger] ids@[i] == method_number(
                        name@,
                        item_method(items@[i]),
                    )
                &&& forall|i: int, j: int|
                    0 <= i < j < ids@.len() ==> #[trigger] ids@[i] != #[trigger] ids@[j]
            },
            _ => false,
        },
{
    let ghost p = refused_item(name@, items@);
    let mut methods: Vec<ServiceMethod> = Vec::new();
    let mut ids: Vec<u32> = Vec::new();
    let mut i: usize = 0;
    while i < items.len()
        invariant
            p == refused_item(name@, items@),
            i <= items.len(),
            methods@.len() == i,
            ids@.len() == i,
            forall|k: int| 0 <= k < i ==> !#[trigger] p(k),
            forall|k: int| 0 <= k < i ==> (#[trigger] methods@[k])@ == item_method(items@[k]),
            forall|k: int|
                0 <= k < i ==> #[trigger] ids@[k] == method_number(name@, item_method(items@[k])),
            forall|a: int, b: int|
                0 <= a < b < i ==> #[trigger] ids@[a] != #[trigger] ids@[b],
        decreases items.len() - i,
    {
        match &items[i] {
            TraitItem::Other => {
                proof {
                    assert(p(i as int));
                    first_index_found(items@.len(), p, i as int);
                }
                return Err(ServiceFault::NotMethod);
            },
            TraitItem::Method { name: own, types, shape } => {
                let method = match parse_service_method(own, types, shape) {
                    Err(fault) => {
                        proof {
                            assert(p(i as int));
                            first_index_found(items@.len(), p, i as int);
                        }
                        return Err(ServiceFault::Method(fault));
                    },
                    Ok(method) => method,
                };
                proof {
                    assert(method@ == item_method(items@[i as int]));
                }
                let id = method_id(name, &method);
                let ghost q = same_number(name@, items@, i as int);
                match find_number(&ids, id) {
                    Some(j) => {
                        proof {
                            assert(q(j as int));
                            assert forall|k: int| 0 <= k < j implies !#[trigger] q(k) by {
                                assert(ids@[k] != id);
                            }
                            first_index_found(i as nat, q, j as int);
                            assert(p(i as int));
                            first_index_found(items@.len(), p, i as int);
                        }
                        return Err(
                            ServiceFault::Collision {
                                previous: methods[j].name.clone(),
                                method: method.name.clone(),
                            },
                        );
                    },
                    None => {},
                }
                proof {
                    first_index_is_first(i as nat, q);
                    if first_index(i as nat, q) is Some {
                        let j = first_index(i as nat, q)->Some_0;
                        assert(ids@[j] != id);
                    }
                    assert(!p(i as int));
                }
                methods.push(method);
                ids.push(id);
            },
        }
        i = i + 1;
    }
    proof {
        first_index_is_first(items@.len(), p);
        assert(views(methods@) =~= item_methods(items@)) by {
            assert(item_methods(items@).len() == items@.len());
        }
    }
    if methods.is_empty() {
        return Err(ServiceFault::Empty);
    }
    Ok((methods, ids))
}

/// Expands a service trait. A service without a name is called like its trait.
pub fn expand_service(declared: &ServiceTrait, name: Option<String>) -> (r: Result<
    ServicePlan,
    ServiceFault,
>)
    ensures
        ({
            let name = match name {
                Some(name) => name@,
                None => declared.ident@,
            };
            match (r, service_trait_fault(name, *declared)) {
                (Ok(plan), None) => plan.wf() && plan.expands(
                    name,
                    declared.ident@,
                    declared.items@,
                ),
                (Err(fault), Some(expected)) => fault@ == expected,
                _ => false,
            }
        }),
{
    let name = match name {
        Some(name) => name,
        None => declared.ident.clone(),
    };
    if declared.is_generic {
        return Err(ServiceFault::Generic);
    }
    let (methods, method_ids) = match parse_service_methods(name.as_str(), &declared.items) {
        Err(fault) => return Err(fault),
        Ok(found) => found,
    };
    let ident = declared.ident.as_str();
    Ok(
        ServicePlan {
            abi_hash: service_abi_hash(name.as_str(), &methods),
            name,
            marker: suffixed(ident, "Service"),
            client: suffixed(ident, "Client"),
            client_backend: joined("__Cordis", ident, "ClientBackend"),
            native_client: joined("__Cordis", ident, "NativeClient"),
            native_adapter: joined("__Cordis", ident, "NativeClientAdapter"),
            dispatcher: suffixed(ident, "Dispatcher"),
            methods,
            method_ids,
        },
    )
}

/// Every method of an expanded service answers to its own number and to no other.
pub proof fn methods_answer_to_their_numbers(plan: ServicePlan, i: int, j: int)
    requires
        plan.wf(),
        0 <= i < plan.method_ids@.len(),
        0 <= j < plan.method_ids@.len(),
        plan.method_ids@[i] == plan.method_ids@[j],
    ensures
        i == j,
{
    if i < j {
        assert(plan.method_ids@[i] != plan.method_ids@[j]);
    } else if j < i {
        assert(plan.method_ids@[j] != plan.method_ids@[i]);
    }
}

/// An argument of a declaration: its name, if that is plain, and its value.
#[derive(Clone, Debug, PartialEq, Eq)]
pub struct MetaArgument {
    pub name: Option<String>,
    pub value: MetaValue,
}

/// The value of a declaration's argument: none, or an expression by its spelling, with the text
/// that it denotes if it is a literal text.
#[derive(Clone, Debug, PartialEq, Eq)]
pub enum MetaValue {
    Missing,
    Given { spelling: String, text: Option<String> },
}

/// An argument with a name.
pub open spec fn meta_named(metas: Seq<MetaArgument>, key: Seq<char>) -> spec_fn(int) -> bool {
    |i: int| metas[i].name is Some && metas[i].name->Some_0@ == key
}

fn find_meta(metas: &Vec<MetaArgument>, key: &str) -> (r: Option<usize>)
    ensures
        match (r, first_index(metas@.len(), meta_named(metas@, key@))) {
            (Some(at), Some(expected)) => at == expected && at < metas@.len(),
            (None, None) => true,
            _ => false,
        },
{
    let ghost p = meta_named(metas@, key@);
    let mut i: usize = 0;
    while i < metas.len()
        invariant
            p == meta_named(metas@, key@),
            i <= metas.len(),
            forall|k: int| 0 <= k < i ==> !#[trigger] p(k),
        decreases metas.len() - i,
    {
        let found = match &metas[i].name {
            Some(name) => same_text(name.as_str(), key),
            None => false,
        };
        if found {
            proof {
                assert(p(i as int));
                first_index_found(metas@.len(), p, i as int);
            }
            return Some(i);
        }
        proof {
            assert(!p(i as int));
        }
        i = i + 1;
    }
    proof {
        first_index_is_first(metas@.len(), p);
    }
    None
}

fn complaint(key: &str, rest: &str) -> (r: String)
    ensures
        r@ == "`"@ + key@ + rest@,
{
    let mut out = "`".to_owned();
    out.append(key);
    out.append(rest);
    out
}

/// The text given for a name. The first argument of that name counts.
pub fn meta_string(metas: &Vec<MetaArgument>, key: &str) -> (r: Result<Option<String>, String>)
    ensures
        match first_index(metas@.len(), meta_named(metas@, key@)) {
            None => r == Ok::<Option<String>, String>(None),
            Some(i) => match metas@[i].value {
                MetaValue::Given { text: Some(text), .. } => r matches Ok(Some(given)) && given@
                    == text@,
                _ => r matches Err(message) && message@ == "`"@ + key@ + "` must be a string"@,
            },
        },
{
    match find_meta(metas, key) {
        None => Ok(None),
        Some(i) => match &metas[i].value {
            MetaValue::Given { text: Some(text), .. } => Ok(Some(text.clone())),
            _ => Err(complaint(key, "` must be a string")),
        },
    }
}

/// The spelling of the type given for a name. Whether it spells a type is left to its reader.
pub fn meta_type(metas: &Vec<MetaArgument>, key: &str) -> (r: Result<Option<String>, String>)
    ensures
        match first_index(metas@.len(), meta_named(metas@, key@)) {
            None => r == Ok::<Option<String>, String>(None),
            Some(i) => match metas@[i].value {
                MetaValue::Given { spelling, .. } => r matches Ok(Some(given)) && given@
                    == spelling@,
                MetaValue::Missing => r matches Err(message) && message@ == "`"@ + key@
                    + "` must name a type"@,
            },
        },
{
    match find_meta(metas, key) {
        None => Ok(None),
        Some(i) => match &metas[i].value {
            MetaValue::Given { spelling, .. } => Ok(Some(spelling.clone())),
            MetaValue::Missing => Err(complaint(key, "` must name a type")),
        },
    }
}

/// An attribute: the last segment of its path, and what it injects if it injects anything.
#[derive(Clone, Debug, PartialEq, Eq)]
pub struct AttributeShape {
    pub last: Option<String>,
    pub injects: Vec<InjectTarget>,
}

/// An attribute has a name.
pub open spec fn attribute_named(attribute: AttributeShape, name: Seq<char>) -> bool {
    attribute.last is Some && attribute.last->Some_0@ == name
}

/// The attributes among the first `n` that have another name.
pub open spec fn other_attributes(attributes: Seq<AttributeShape>, name: Seq<char>, n: nat) -> Seq<
    AttributeShape,
>
    decreases n,
{
    if n == 0 {
        Seq::empty()
    } else {
        let before = other_attributes(attributes, name, (n - 1) as nat);
        if attribute_named(attributes[n - 1], name) {
            before
        } else {
            before.push(attributes[n - 1])
        }
    }
}

/// Takes every attribute of a name out and says whether there was one.
pub fn take_marker(attributes: Vec<AttributeShape>, name: &str) -> (r: (bool, Vec<AttributeShape>))
    ensures
        r.0 == exists|i: int|
            0 <= i < attributes@.len() && attribute_named(#[trigger] attributes@[i], name@),
        r.1@ == other_attributes(attributes@, name@, attributes@.len()),
{
    let ghost all = attributes@;
    let mut found = false;
    let mut rest: Vec<AttributeShape> = Vec::new();
    for attribute in iter: attributes
        invariant
            iter.seq() == all,
            found == exists|i: int|
                0 <= i < iter.index() && attribute_named(#[trigger] all[i], name@),
            rest@ == other_attributes(all, name@, iter.index() as nat),
    {
        proof {
            assert(all[iter.index() as int] == attribute);
        }
        let named = match &attribute.last {
            Some(last) => same_text(last.as_str(), name),
            None => false,
        };
        if named {
            found = true;
        } else {
            rest.push(attribute);
        }
    }
    (found, rest)
}

/// An attribute declares injected services.
pub open spec fn declares_injects(attribute: AttributeShape) -> bool {
    attribute_named(attribute, "inject"@) || attribute_named(attribute, "cordis_inject"@)
}

/// The injected services of the first `n` attributes, and the other attributes.
pub open spec fn injects_taken(attributes: Seq<AttributeShape>, n: nat) -> (
    Seq<InjectTarget>,
    Seq<AttributeShape>,
)
    decreases n,
{
    if n == 0 {
        (Seq::empty(), Seq::empty())
    } else {
        let (targets, rest) = injects_taken(attributes, (n - 1) as nat);
        let attribute = attributes[n - 1];
        if declares_injects(attribute) {
            (targets + attribute.injects@, rest)
        } else {
            (targets, rest.push(attribute))
        }
    }
}

/// Takes the injected services out of attributes, in order.
pub fn take_injects(attributes: Vec<AttributeShape>) -> (r: (
    Vec<InjectTarget>,
    Vec<AttributeShape>,
))
    ensures
        (r.0@, r.1@) == injects_taken(attributes@, attributes@.len()),
{
    let ghost all = attributes@;
    let mut targets: Vec<InjectTarget> = Vec::new();
    let mut rest: Vec<AttributeShape> = Vec::new();
    for attribute in iter: attributes
        invariant
            iter.seq() == all,
            (targets@, rest@) == injects_taken(all, iter.index() as nat),
    {
        proof {
            assert(all[iter.index() as int] == attribute);
        }
        let declares = match &attribute.last {
            Some(last) => same_text(last.as_str(), "inject") || same_text(
                last.as_str(),
                "cordis_inject",
            ),
            None => false,
        };
        if declares {
            let mut injects = attribute.injects;
            targets.append(&mut injects);
        } else {
            rest.push(attribute);
        }
    }
    (targets, rest)
}

/// An event trait as it is declared.
#[derive(Clone, Debug, PartialEq, Eq)]
pub struct EventTrait {
    pub ident: String,
    pub tokens: String,
    pub input: Option<String>,
    pub output: Option<String>,
}

/// Why an event trait is refused.
#[derive(Clone, Copy, Debug, PartialEq, Eq, Structural)]
pub enum EventFault {
    UnknownMode,
    MissingTypes,
    WaterfallTypes,
}

/// What an event trait is expanded to.
#[derive(Clone, Debug, PartialEq, Eq)]
pub struct EventPlan {
    pub name: String,
    pub abi_hash: [u8; 32],
    pub marker: String,
    pub mode: EventMode,
    pub input: String,
    pub output: String,
}

/// Why an event trait is refused: its mode is unknown, a type is missing, or a waterfall would
/// not hand on what it takes.
pub open spec fn event_trait_fault(
    mode: Option<EventMode>,
    input: Option<Seq<char>>,
    output: Option<Seq<char>>,
) -> Option<EventFault> {
    match (mode, input, output) {
        (None, _, _) => Some(EventFault::UnknownMode),
        (Some(mode), Some(input), Some(output)) => if mode is Waterfall && input != output {
            Some(EventFault::WaterfallTypes)
        } else {
            None
        },
        _ => Some(EventFault::MissingTypes),
    }
}

impl EventFault {
    pub fn message(self) -> (r: &'static str)
        ensures
            r@ == match self {
                EventFault::UnknownMode =>
                    "event mode must be emit, parallel, serial, bail or waterfall"@,
                EventFault::MissingTypes =>
                    "event trait must declare `type Input = ...;` and `type Output = ...;`"@,
                EventFault::WaterfallTypes =>
                    "waterfall event must use the same type for `Input` and `Output`"@,
            },
    {
        match self {
            EventFault::UnknownMode => {
                "event mode must be emit, parallel, serial, bail or waterfall"
            },
            EventFault::MissingTypes => {
                "event trait must declare `type Input = ...;` and `type Output = ...;`"
            },
            EventFault::WaterfallTypes => {
                "waterfall event must use the same type for `Input` and `Output`"
            },
        }
    }
}

/// Expands an event trait. An event without a name is called like its trait.
pub fn expand_event(declared: &EventTrait, name: Option<String>, mode: Option<&str>) -> (r: Result<
    EventPlan,
    EventFault,
>)
    ensures
        ({
            let name = match name {
                Some(name) => name@,
                None => declared.ident@,
            };
            let input = view_option(declared.input);
            let output = view_option(declared.output);
            let chosen = match mode {
                Some(text) => mode_named(text@),
                None => Some(EventMode::Parallel),
            };
            match (r, event_trait_fault(chosen, input, output)) {
                (Ok(plan), None) => {
                    &&& plan.name@ == name
                    &&& plan.abi_hash@ == blake3_digest(
                        encode_utf8(named_lines(name, declared.tokens@)),
                    )
                    &&& plan.marker@ == declared.ident@ + "Event"@
                    &&& Some(plan.mode) == chosen
                    &&& Some(plan.input@) == input
                    &&& Some(plan.output@) == output
                },
                (Err(fault), Some(expected)) => fault == expected,
                _ => false,
            }
        }),
{
    let name = match name {
        Some(name) => name,
        None => declared.ident.clone(),
    };
    let mode = match event_mode(mode) {
        None => return Err(EventFault::UnknownMode),
        Some(mode) => mode,
    };
    let (input, output) = match (&declared.input, &declared.output) {
        (Some(input), Some(output)) => (input.clone(), output.clone()),
        _ => return Err(EventFault::MissingTypes),
    };
    if mode == EventMode::Waterfall && !same_text(input.as_str(), output.as_str()) {
        return Err(EventFault::WaterfallTypes);
    }
    Ok(
        EventPlan {
            abi_hash: hash_tokens(name.as_str(), declared.tokens.as_str()),
            name,
            marker: suffixed(declared.ident.as_str(), "Event"),
            mode,
            input,
            output,
        },
    )
}

/// An injected service as it is written: how the type looks, and its path without the last
/// segment's generic arguments.
#[derive(Clone, Debug, PartialEq, Eq)]
pub struct InjectTarget {
    pub is_path: bool,
    pub segments: Vec<String>,
    pub has_arguments: bool,
    pub field_is_identifier: bool,
}

/// Why a component declaration is refused.
#[derive(Clone, Copy, Debug, PartialEq, Eq, Structural)]
pub enum InjectFault {
    NotPath,
    EmptyPath,
    GenericPath,
    FieldName,
    DuplicateField,
}

/// Why an injected service is refused by the form of its path.
pub open spec fn path_fault(t: InjectTarget) -> Option<InjectFault> {
    if !t.is_path {
        Some(InjectFault::NotPath)
    } else if t.segments@.len() == 0 {
        Some(InjectFault::EmptyPath)
    } else if t.has_arguments {
        Some(InjectFault::GenericPath)
    } else {
        None
    }
}

/// A target refused by its form.
pub open spec fn bad_path(targets: Seq<InjectTarget>) -> spec_fn(int) -> bool {
    |i: int| path_fault(targets[i]) is Some
}

/// A target whose field name is no identifier.
pub open spec fn bad_field(targets: Seq<InjectTarget>) -> spec_fn(int) -> bool {
    |i: int| !targets[i].field_is_identifier
}

/// The field of a target.
pub open spec fn target_field(t: InjectTarget) -> Seq<char> {
    snake_case(t.segments@.last()@, t.segments@.last()@.len())
}

/// A target whose field an earlier one has.
pub open spec fn repeated_field(targets: Seq<InjectTarget>) -> spec_fn(int) -> bool {
    |i: int|
        exists|j: int|
            0 <= j < i && target_field(#[trigger] targets[j]) == target_field(targets[i])
}

/// Why a list of injected services is refused. All paths are looked at before any field.
pub open spec fn inject_fault(targets: Seq<InjectTarget>) -> Option<InjectFault> {
    match first_index(targets.len(), bad_path(targets)) {
        Some(i) => path_fault(targets[i]),
        None => if first_index(targets.len(), bad_field(targets)) is Some {
            Some(InjectFault::FieldName)
        } else if first_index(targets.len(), repeated_field(targets)) is Some {
            Some(InjectFault::DuplicateField)
        } else {
            None
        },
    }
}

impl InjectFault {
    pub fn message(self) -> (r: &'static str)
        ensures
            r@ == match self {
                InjectFault::NotPath => "injected service must be a trait path"@,
                InjectFault::EmptyPath => "injected service path cannot be empty"@,
                InjectFault::GenericPath => "injected service path cannot have generic arguments"@,
                InjectFault::FieldName =>
                    "injected service name cannot be converted to a Rust field name"@,
                InjectFault::DuplicateField =>
                    "injected services must have distinct client field names"@,
            },
    {
        match self {
            InjectFault::NotPath => "injected service must be a trait path",
            InjectFault::EmptyPath => "injected service path cannot be empty",
            InjectFault::GenericPath => "injected service path cannot have generic arguments",
            InjectFault::FieldName => {
                "injected service name cannot be converted to a Rust field name"
            },
            InjectFault::DuplicateField => {
                "injected services must have distinct client field names"
            },
        }
    }
}

/// One injected service of a component: the paths of its marker and client, and its field.
#[derive(Clone, Debug, PartialEq, Eq)]
pub struct InjectedClient {
    pub marker: String,
    pub client: String,
    pub field: String,
}

/// A path whose last segment got a suffix.
pub open spec fn suffixed_path(segments: Seq<Seq<char>>, suffix: Seq<char>) -> Seq<char> {
    join(segments, "::"@) + suffix
}

/// What a component is expanded to.
#[derive(Clone, Debug, PartialEq, Eq)]
pub struct ComponentPlan {
    pub name: String,
    pub config: String,
    pub deps: String,
    pub injects: Vec<InjectedClient>,
}

/// An injected client is that of a target.
pub open spec fn is_client_of(c: InjectedClient, t: InjectTarget) -> bool {
    &&& c.marker@ == suffixed_path(views(t.segments@), "Service"@)
    &&& c.client@ == suffixed_path(views(t.segments@), "Client"@)
    &&& c.field@ == target_field(t)
}

fn check_path(target: &InjectTarget) -> (r: Result<(), InjectFault>)
    ensures
        match (r, path_fault(*target)) {
            (Ok(_), None) => true,
            (Err(fault), Some(expected)) => fault == expected,
            _ => false,
        },
{
    if !target.is_path {
        Err(InjectFault::NotPath)
    } else if target.segments.len() == 0 {
        Err(InjectFault::EmptyPath)
    } else if target.has_arguments {
        Err(InjectFault::GenericPath)
    } else {
        Ok(())
    }
}

fn check_injects(targets: &Vec<InjectTarget>) -> (r: Result<Vec<InjectedClient>, InjectFault>)
    ensures
        match (r, inject_fault(targets@)) {
            (Ok(clients), None) => clients@.len() == targets@.len() && forall|i: int|
                0 <= i < clients@.len() ==> is_client_of(#[trigger] clients@[i], targets@[i]),
            (Err(fault), Some(expected)) => fault == expected,
            _ => false,
        },
{
    let ghost p = bad_path(targets@);
    let ghost q = bad_field(targets@);
    let ghost d = repeated_field(targets@);
    let mut i: usize = 0;
    while i < targets.len()
        invariant
            p == bad_path(targets@),
            i <= targets.len(),
            forall|k: int| 0 <= k < i ==> !#[trigger] p(k),
        decreases targets.len() - i,
    {
        match check_path(&targets[i]) {
            Err(fault) => {
                proof {
                    assert(p(i as int));
                    first_index_found(targets@.len(), p, i as int);
                }
                return Err(fault);
            },
            Ok(_) => {
                proof {
                    assert(!p(i as int));
                }
            },
        }
        i = i + 1;
    }
    proof {
        first_index_is_first(targets@.len(), p);
    }
    let mut clients: Vec<InjectedClient> = Vec::new();
    let mut j: usize = 0;
    while j < targets.len()
        invariant
            p == bad_path(targets@),
            q == bad_field(targets@),
            first_index(targets@.len(), p) is None,
            forall|k: int| 0 <= k < targets@.len() ==> !#[trigger] p(k),
            j <= targets.len(),
            clients@.len() == j,
            forall|k: int| 0 <= k < j ==> !#[trigger] q(k),
            forall|k: int| 0 <= k < j ==> is_client_of(#[trigger] clients@[k], targets@[k]),
        decreases targets.len() - j,
    {
        let target = &targets[j];
        proof {
            assert(!p(j as int));
        }
        if !target.field_is_identifier {
            proof {
                assert(q(j as int));
                first_index_found(targets@.len(), q, j as int);
            }
            return Err(InjectFault::FieldName);
        }
        proof {
            assert(!q(j as int));
        }
        let path = join_texts(&target.segments, "::");
        clients.push(
            InjectedClient {
                marker: suffixed(path.as_str(), "Service"),
                client: suffixed(path.as_str(), "Client"),
                field: to_snake_case(target.segments[target.segments.len() - 1].as_str()),
            },
        );
        j = j + 1;
    }
    proof {
        first_index_is_first(targets@.len(), q);
    }
    let mut a: usize = 0;
    while a < clients.len()
        invariant
            p == bad_path(targets@),
            q == bad_field(targets@),
            d == repeated_field(targets@),
            first_index(targets@.len(), p) is None,
            first_index(targets@.len(), q) is None,
            clients@.len() == targets@.len(),
            a <= clients.len(),
            forall|k: int| 0 <= k < a ==> !#[trigger] d(k),
            forall|k: int|
                0 <= k < clients@.len() ==> is_client_of(#[trigger] clients@[k], targets@[k]),
        decreases clients.len() - a,
    {
        let mut b: usize = 0;
        while b < a
            invariant
                p == bad_path(targets@),
                q == bad_field(targets@),
                d == repeated_field(targets@),
                first_index(targets@.len(), p) is None,
                first_index(targets@.len(), q) is None,
                clients@.len() == targets@.len(),
                b <= a < clients.len(),
                forall|k: int| 0 <= k < a ==> !#[trigger] d(k),
                forall|k: int|
                    0 <= k < b ==> target_field(#[trigger] targets@[k]) != target_field(
                        targets@[a as int],
                    ),
                forall|k: int|
                    0 <= k < clients@.len() ==> is_client_of(#[trigger] clients@[k], targets@[k]),
            decreases a - b,
        {
            proof {
                assert(is_client_of(clients@[a as int], targets@[a as int]));
                assert(is_client_of(clients@[b as int], targets@[b as int]));
            }
            if same_text(clients[a].field.as_str(), clients[b].field.as_str()) {
                proof {
                    assert(target_field(targets@[b as int]) == target_field(targets@[a as int]));
                    assert(d(a as int));
                    first_index_found(targets@.len(), d, a as int);
                }
                return Err(InjectFault::DuplicateField);
            }
            b = b + 1;
        }
        proof {
            assert(!d(a as int));
        }
        a = a + 1;
    }
    proof {
        first_index_is_first(targets@.len(), d);
    }
    Ok(clients)
}

/// Expands a component. One without a name is called like its type, and one without a
/// configuration type takes none.
pub fn expand_component(
    ident: &str,
    name: Option<String>,
    config: Option<String>,
    injects: &Vec<InjectTarget>,
) -> (r: Result<ComponentPlan, InjectFault>)
    ensures
        match (r, inject_fault(injects@)) {
            (Ok(plan), None) => {
                &&& plan.name@ == match name {
                    Some(name) => name@,
                    None => ident@,
                }
                &&& plan.config@ == match config {
                    Some(config) => config@,
                    None => "()"@,
                }
                &&& plan.deps@ == ident@ + "Dependencies"@
                &&& plan.injects@.len() == injects@.len()
                &&& forall|i: int|
                    0 <= i < injects@.len() ==> is_client_of(
                        #[trigger] plan.injects@[i],
                        injects@[i],
                    )
            },
            (Err(fault), Some(expected)) => fault == expected,
            _ => false,
        },
{
    let injects = match check_injects(injects) {
        Err(fault) => return Err(fault),
        Ok(injects) => injects,
    };
    Ok(
        ComponentPlan {
            name: match name {
                Some(name) => name,
                None => ident.to_owned(),
            },
            config: match config {
                Some(config) => config,
                None => "()".to_owned(),
            },
            deps: suffixed(ident, "Dependencies"),
            injects,
        },
    )
}

} // verus!
