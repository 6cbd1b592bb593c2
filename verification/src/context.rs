//! Immutable views of service realms and intercept layers.
use crate::error::{CordisError, ErrorModel};
use crate::id::{FiberId, RealmId};
use crate::service::{ServiceId, ServiceModel};
use crate::text::{group_views, views};
use crate::value::{JsonModel, Value};
use vstd::prelude::*;

verus! {

broadcast use group_views;

/// One realm override.
#[derive(Debug, PartialEq, Eq)]
pub struct RealmOverride {
    pub service: ServiceId,
    pub realm: RealmId,
}

impl View for RealmOverride {
    type V = (ServiceModel, RealmId);

    open spec fn view(&self) -> (ServiceModel, RealmId) {
        (self.service@, self.realm)
    }
}

/// One intercept layer.
#[derive(Debug, PartialEq, Eq)]
pub struct InterceptLayer {
    pub service: ServiceId,
    pub value: Value,
}

impl View for InterceptLayer {
    type V = (ServiceModel, JsonModel);

    open spec fn view(&self) -> (ServiceModel, JsonModel) {
        (self.service@, self.value@)
    }
}

/// The owner of a context and its overlays, outermost first.
pub struct ContextModel {
    pub fiber: FiberId,
    pub realms: Seq<(ServiceModel, RealmId)>,
    pub intercepts: Seq<(ServiceModel, JsonModel)>,
}

/// An immutable view of service realms and intercept layers.
#[derive(Debug, PartialEq, Eq)]
pub struct Context {
    pub fiber: FiberId,
    pub realms: Vec<RealmOverride>,
    pub intercepts: Vec<InterceptLayer>,
}

impl View for Context {
    type V = ContextModel;

    open spec fn view(&self) -> ContextModel {
        ContextModel {
            fiber: self.fiber,
            realms: views(self.realms@),
            intercepts: views(self.intercepts@),
        }
    }
}

/// The innermost realm override of a service.
pub open spec fn realm_of(
    realms: Seq<(ServiceModel, RealmId)>,
    service: ServiceModel,
) -> Option<RealmId>
    decreases realms.len(),
{
    if realms.len() == 0 {
        None
    } else if realms.last().0 == service {
        Some(realms.last().1)
    } else {
        realm_of(realms.drop_last(), service)
    }
}

/// The intercept values of a service, outermost first.
pub open spec fn layers_of(
    intercepts: Seq<(ServiceModel, JsonModel)>,
    service: ServiceModel,
) -> Seq<JsonModel>
    decreases intercepts.len(),
{
    if intercepts.len() == 0 {
        Seq::empty()
    } else {
        let outer = layers_of(intercepts.drop_last(), service);
        if intercepts.last().0 == service {
            outer.push(intercepts.last().1)
        } else {
            outer
        }
    }
}

fn duplicate_realms(realms: &Vec<RealmOverride>) -> (r: Vec<RealmOverride>)
    ensures
        views(r@) == views(realms@),
{
    let mut out: Vec<RealmOverride> = Vec::new();
    let mut i: usize = 0;
    while i < realms.len()
        invariant
            i <= realms.len(),
            out.len() == i,
            forall|j: int| 0 <= j < i ==> (#[trigger] out@[j])@ == realms@[j]@,
        decreases realms.len() - i,
    {
        out.push(RealmOverride { service: realms[i].service.duplicate(), realm: realms[i].realm });
        i = i + 1;
    }
    proof {
        assert(views(out@) =~= views(realms@));
    }
    out
}

fn duplicate_layers(layers: &Vec<InterceptLayer>) -> (r: Vec<InterceptLayer>)
    ensures
        views(r@) == views(layers@),
{
    let mut out: Vec<InterceptLayer> = Vec::new();
    let mut i: usize = 0;
    while i < layers.len()
        invariant
            i <= layers.len(),
            out.len() == i,
            forall|j: int| 0 <= j < i ==> (#[trigger] out@[j])@ == layers@[j]@,
        decreases layers.len() - i,
    {
        out.push(
            InterceptLayer {
                service: layers[i].service.duplicate(),
                value: layers[i].value.duplicate(),
            },
        );
        i = i + 1;
    }
    proof {
        assert(views(out@) =~= views(layers@));
    }
    out
}

impl Context {
    /// A context without overlays.
    pub fn root(fiber: FiberId) -> (r: Context)
        ensures
            r@ == (ContextModel { fiber, realms: Seq::empty(), intercepts: Seq::empty() }),
    {
        let r = Context { fiber, realms: Vec::new(), intercepts: Vec::new() };
        proof {
            assert(r@.realms =~= Seq::empty());
            assert(r@.intercepts =~= Seq::empty());
        }
        r
    }

    pub fn fiber(&self) -> (r: FiberId)
        ensures
            r == self@.fiber,
    {
        self.fiber
    }

    /// Creates an empty overlay belonging to another fiber.
    #[must_use]
    pub fn extend(&self, fiber: FiberId) -> (r: Context)
        ensures
            r@ == (ContextModel { fiber, ..self@ }),
    {
        Context {
            fiber,
            realms: duplicate_realms(&self.realms),
            intercepts: duplicate_layers(&self.intercepts),
        }
    }

    pub fn duplicate(&self) -> (r: Context)
        ensures
            r@ == self@,
    {
        self.extend(self.fiber)
    }

    /// Overrides one service realm in a new overlay.
    #[must_use]
    pub fn isolate(&self, service: ServiceId, realm: RealmId) -> (r: Context)
        ensures
            r@ == (ContextModel { realms: self@.realms.push((service@, realm)), ..self@ }),
    {
        let mut realms = duplicate_realms(&self.realms);
        realms.push(RealmOverride { service, realm });
        Context { fiber: self.fiber, realms, intercepts: duplicate_layers(&self.intercepts) }
    }

    /// Adds one intercept layer in a new overlay.
    #[must_use]
    pub fn intercept(&self, service: ServiceId, value: Value) -> (r: Context)
        ensures
            r@ == (ContextModel { intercepts: self@.intercepts.push((service@, value@)), ..self@ }),
    {
        let mut intercepts = duplicate_layers(&self.intercepts);
        intercepts.push(InterceptLayer { service, value });
        Context { fiber: self.fiber, realms: duplicate_realms(&self.realms), intercepts }
    }

    /// Resolves the nearest realm override for a service.
    pub fn resolve_realm(&self, service: &ServiceId) -> (r: Result<RealmId, CordisError>)
        ensures
            match r {
                Ok(realm) => realm_of(self@.realms, service@) == Some(realm),
                Err(error) => realm_of(self@.realms, service@) is None && error@ == (
                ErrorModel::MissingRealm { service: service@ }),
            },
    {
        let mut i: usize = self.realms.len();
        proof {
            assert(self@.realms.subrange(0, i as int) =~= self@.realms);
        }
        while i > 0
            invariant
                i <= self.realms.len(),
                realm_of(self@.realms, service@) == realm_of(
                    self@.realms.subrange(0, i as int),
                    service@,
                ),
            decreases i,
        {
            let ghost seen = self@.realms.subrange(0, i as int);
            i = i - 1;
            proof {
                assert(seen.last() == self@.realms[i as int]);
                assert(seen.drop_last() =~= self@.realms.subrange(0, i as int));
            }
            if self.realms[i].service.same(service) {
                return Ok(self.realms[i].realm);
            }
        }
        Err(CordisError::MissingRealm { service: service.duplicate() })
    }

    /// Returns intercept values from the outermost layer to the innermost layer.
    pub fn intercept_layers(&self, service: &ServiceId) -> (r: Vec<Value>)
        ensures
            views(r@) == layers_of(self@.intercepts, service@),
    {
        let mut out: Vec<Value> = Vec::new();
        let mut i: usize = 0;
        proof {
            assert(views(out@) =~= layers_of(self@.intercepts.subrange(0, 0), service@));
        }
        while i < self.intercepts.len()
            invariant
                i <= self.intercepts.len(),
                views(out@) == layers_of(self@.intercepts.subrange(0, i as int), service@),
            decreases self.intercepts.len() - i,
        {
            proof {
                let next = self@.intercepts.subrange(0, i + 1);
                assert(next.drop_last() =~= self@.intercepts.subrange(0, i as int));
                assert(next.last() == self@.intercepts[i as int]);
            }
            if self.intercepts[i].service.same(service) {
                out.push(self.intercepts[i].value.duplicate());
            }
            i = i + 1;
        }
        proof {
            assert(self@.intercepts.subrange(0, i as int) =~= self@.intercepts);
        }
        out
    }
}

/// The nearest override decides: a new override is what its service resolves to.
pub proof fn nearest_override_wins(context: ContextModel, service: ServiceModel, realm: RealmId)
    ensures
        realm_of(context.realms.push((service, realm)), service) == Some(realm),
{
    assert(context.realms.push((service, realm)).last() == (service, realm));
}

/// An override leaves every other service where it was.
pub proof fn override_is_local(
    context: ContextModel,
    service: ServiceModel,
    realm: RealmId,
    other: ServiceModel,
)
    requires
        other != service,
    ensures
        realm_of(context.realms.push((service, realm)), other) == realm_of(context.realms, other),
{
    assert(context.realms.push((service, realm)).drop_last() =~= context.realms);
}

/// A new intercept layer becomes the innermost one of its service.
pub proof fn intercepts_stack_inward(context: ContextModel, service: ServiceModel, value: JsonModel)
    ensures
        layers_of(context.intercepts.push((service, value)), service) == layers_of(
            context.intercepts,
            service,
        ).push(value),
{
    assert(context.intercepts.push((service, value)).drop_last() =~= context.intercepts);
}

} // verus!
