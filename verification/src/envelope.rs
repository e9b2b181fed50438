//! The envelope that the bus carries, and its routing slip.
//!
//! Routing is driven by the envelope's [`DynamicRoutingSlip`]: each hop targets
//! the service of the current route, and the slip is walked one hop at a time.

use serde_json::Value;
use vstd::prelude::*;

verus! {

/// `serde_json::Value`, the payload type. The bus only carries it.
#[verifier::external_type_specification]
#[verifier::external_body]
pub struct ExValue(Value);

/// The bus routes by service, not operation; a route still has one.
pub const OP: &'static str = "RECEIVE";

/// One hop: the stage to visit, and the operation asked of it.
#[derive(Debug, Clone)]
pub struct Route {
    pub service: String,
    pub operation: String,
}

pub struct RouteView {
    pub service: Seq<char>,
    pub operation: Seq<char>,
}

impl View for Route {
    type V = RouteView;

    open spec fn view(&self) -> RouteView {
        RouteView { service: self.service@, operation: self.operation@ }
    }
}

/// A routing slip that can be added to at any time before it is completed.
/// Routes are a stack: the one added last is visited first.
#[derive(Debug, Clone)]
pub struct DynamicRoutingSlip {
    routes: Vec<Route>,
    current: Option<Route>,
}

/// The hop being visited, if the slip has been started and not completed, and
/// the hops still to come, the next one first.
#[verifier::ext_equal]
pub struct SlipView {
    pub current: Option<RouteView>,
    pub pending: Seq<RouteView>,
}

impl SlipView {
    /// A new hop is visited before all that are pending.
    pub open spec fn with_route(self, route: RouteView) -> SlipView {
        SlipView { pending: seq![route] + self.pending, ..self }
    }

    /// The next pending hop becomes the current one; with none left the slip
    /// is completed.
    pub open spec fn advanced(self) -> SlipView {
        if self.pending.len() == 0 {
            SlipView { current: None, ..self }
        } else {
            SlipView { current: Some(self.pending[0]), pending: self.pending.skip(1) }
        }
    }

    /// A slip that has no current hop takes its next one.
    pub open spec fn started(self) -> SlipView {
        if self.current is None {
            self.advanced()
        } else {
            self
        }
    }

    /// The slip after it was started and then advanced `hops` times.
    pub open spec fn visit(self, hops: nat) -> SlipView
        decreases hops,
    {
        if hops == 0 {
            self.started()
        } else {
            self.visit((hops - 1) as nat).advanced()
        }
    }
}

pub open spec fn opt_view(route: Option<&Route>) -> Option<RouteView> {
    match route {
        Some(r) => Some(r@),
        None => None,
    }
}

impl View for DynamicRoutingSlip {
    type V = SlipView;

    closed spec fn view(&self) -> SlipView {
        SlipView {
            current: match self.current {
                Some(r) => Some(r@),
                None => None,
            },
            pending: Seq::new(
                self.routes@.len(),
                |i: int| self.routes@[self.routes@.len() - 1 - i]@,
            ),
        }
    }
}

impl DynamicRoutingSlip {
    pub fn new() -> (res: Self)
        ensures
            res@ == (SlipView { current: None, pending: Seq::empty() }),
    {
        DynamicRoutingSlip { routes: Vec::new(), current: None }
    }

    pub fn add_route(&mut self, service: String, operation: String)
        ensures
            final(self)@ == old(self)@.with_route(
                RouteView { service: service@, operation: operation@ },
            ),
    {
        self.routes.push(Route { service, operation });
    }

    /// The hop being visited. Starts the slip on first use.
    pub fn current_route(&mut self) -> (res: Option<&Route>)
        ensures
            final(self)@ == old(self)@.started(),
            opt_view(res) == old(self)@.started().current,
    {
        if self.current.is_none() {
            self.current = self.routes.pop();
        }
        assert(self@ == old(self)@.started());
        self.current.as_ref()
    }

    /// Moves on to the next hop, and returns it.
    pub fn next_route(&mut self) -> (res: Option<&Route>)
        ensures
            final(self)@ == old(self)@.advanced(),
            opt_view(res) == old(self)@.advanced().current,
    {
        self.current = self.routes.pop();
        assert(self@ == old(self)@.advanced());
        self.current.as_ref()
    }
}

/// A document with an identity and an itinerary.
#[derive(Debug, Clone)]
pub struct Envelope {
    pub id: String,
    pub dynamic_routing_slip: DynamicRoutingSlip,
    pub content: Option<Value>,
}

#[verifier::ext_equal]
pub struct EnvelopeView {
    pub id: Seq<char>,
    pub slip: SlipView,
    pub content: Option<Value>,
}

impl EnvelopeView {
    /// The envelope with its slip started, as it stands in a stage's queue.
    pub open spec fn started(self) -> EnvelopeView {
        EnvelopeView { slip: self.slip.started(), ..self }
    }

    /// The envelope headed for its next hop.
    pub open spec fn advanced(self) -> EnvelopeView {
        EnvelopeView { slip: self.slip.advanced(), ..self }
    }

    /// The stage the envelope is headed for.
    pub open spec fn target(self) -> Option<Seq<char>> {
        match self.slip.started().current {
            Some(route) => Some(route.service),
            None => None,
        }
    }
}

impl View for Envelope {
    type V = EnvelopeView;

    open spec fn view(&self) -> EnvelopeView {
        EnvelopeView {
            id: self.id@,
            slip: self.dynamic_routing_slip@,
            content: self.content,
        }
    }
}

/// The hops that visit each name of `services` in order.
pub open spec fn itinerary(services: Seq<Seq<char>>) -> Seq<RouteView> {
    services.map_values(|service: Seq<char>| RouteView { service, operation: OP@ })
}

/// The names themselves, as text.
pub open spec fn names(hops: Seq<String>) -> Seq<Seq<char>> {
    hops.map_values(|hop: String| hop@)
}

impl Envelope {
    /// An empty document known as `id`.
    pub fn document(id: String) -> (res: Self)
        ensures
            res@ == (EnvelopeView {
                id: id@,
                slip: SlipView { current: None, pending: Seq::empty() },
                content: None,
            }),
    {
        Envelope { id, dynamic_routing_slip: DynamicRoutingSlip::new(), content: None }
    }

    pub fn id(&self) -> (res: &str)
        ensures
            res@ == self@.id,
    {
        self.id.as_str()
    }

    pub fn add_route(&mut self, service: String, operation: String)
        ensures
            final(self)@ == (EnvelopeView {
                slip: old(self)@.slip.with_route(
                    RouteView { service: service@, operation: operation@ },
                ),
                ..old(self)@
            }),
    {
        self.dynamic_routing_slip.add_route(service, operation);
    }

    pub fn add_content(&mut self, content: Value)
        ensures
            final(self)@ == (EnvelopeView { content: Some(content), ..old(self)@ }),
    {
        self.content = Some(content);
    }

    pub fn content(&self) -> (res: Option<&Value>)
        ensures
            res == (match self@.content {
                Some(ref v) => Some(v),
                None => None,
            }),
    {
        self.content.as_ref()
    }

    /// The name of the stage the envelope is headed for. Starts its slip.
    pub fn current_service(&mut self) -> (res: Option<&str>)
        ensures
            final(self)@ == old(self)@.started(),
            match res {
                Some(service) => old(self)@.target() == Some(service@),
                None => old(self)@.target() is None,
            },
    {
        match self.dynamic_routing_slip.current_route() {
            Some(route) => Some(route.service.as_str()),
            None => None,
        }
    }

    /// Moves the envelope on to its next hop; `false` when it was at its last.
    pub fn next_hop(&mut self) -> (res: bool)
        ensures
            final(self)@ == old(self)@.advanced(),
            res == (old(self)@.slip.pending.len() > 0),
    {
        self.dynamic_routing_slip.next_route().is_some()
    }
}

/// Build a document envelope known as `id` and addressed to `to`, then
/// visiting each name in `slip` in order.
pub fn make_envelope(id: String, to: &str, payload: Option<Value>, slip: Vec<String>) -> (res: Envelope)
    ensures
        res@ == (EnvelopeView {
            id: id@,
            slip: SlipView {
                current: None,
                pending: itinerary(seq![to@] + names(slip@)),
            },
            content: payload,
        }),
{
    let mut env = Envelope::document(id);
    let ghost hops = slip@;
    let mut rest = slip;
    // Routes are a stack: add the itinerary tail-first, then `to` last.
    assert(itinerary(names(hops.skip(hops.len() as int))) =~= Seq::empty());
    loop
        invariant
            rest@ == hops.take(rest@.len() as int),
            rest@.len() <= hops.len(),
            env@.id == id@,
            env@.content is None,
            env@.slip.current is None,
            env@.slip.pending == itinerary(names(hops.skip(rest@.len() as int))),
        ensures
            env@.id == id@,
            env@.content is None,
            env@.slip.current is None,
            env@.slip.pending == itinerary(names(hops)),
        decreases rest@.len(),
    {
        let ghost left = rest@.len() as int;
        match rest.pop() {
            Some(hop) => {
                env.add_route(hop, OP.to_string());
                proof {
                    assert(hop@ == hops[left - 1]@);
                    assert(env@.slip.pending =~= itinerary(names(hops.skip(left - 1))));
                }
            },
            None => {
                assert(hops.skip(0) =~= hops);
                break;
            },
        }
    }
    env.add_route(to.to_string(), OP.to_string());
    assert(env@.slip.pending =~= itinerary(seq![to@] + names(hops)));
    if let Some(p) = payload {
        env.add_content(p);
    }
    env
}

/// The channel name the envelope is currently headed for.
pub fn target_service(env: &mut Envelope) -> (res: Option<String>)
    ensures
        final(env)@ == old(env)@.started(),
        match res {
            Some(service) => old(env)@.target() == Some(service@),
            None => old(env)@.target() is None,
        },
{
    match env.current_service() {
        Some(service) => Some(service.to_string()),
        None => None,
    }
}

/// The document content (what [`make_envelope`] stored).
pub fn envelope_payload(env: &Envelope) -> (res: Option<&Value>)
    ensures
        res == (match env@.content {
            Some(ref v) => Some(v),
            None => None,
        }),
{
    env.content()
}

pub fn set_payload(env: &mut Envelope, payload: Value)
    ensures
        final(env)@ == (EnvelopeView { content: Some(payload), ..old(env)@ }),
{
    env.add_content(payload);
}

} // verus!
