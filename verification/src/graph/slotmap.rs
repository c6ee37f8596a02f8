use std::collections::HashMap;

use vstd::prelude::*;

use crate::graph::idmap::IdMap;
use crate::graph::scale::Scale;

verus! {

broadcast use vstd::std_specs::hash::group_hash_axioms;

/// Identity of a surface: 32 bytes.
pub type SurfaceId = [u8; 32];

/// Identity of an event: 32 bytes.
pub type EventId = [u8; 32];

/// One QTM event as the graph receives it.
#[derive(Debug, Clone)]
pub struct QtmEvent {
    pub commitment: [u8; 32],
    pub activation: u64,
    pub network: u128,
    pub coordinate: [u8; 32],
    pub delta: u128,
    pub sigma: u128,
    pub dimension: u64,
    pub scale: Scale,
}

/// Another name for a QTM event.
pub type QuantumTransaction = QtmEvent;

/// Geometric position of a surface.
#[derive(Debug, Clone, Copy)]
pub struct SurfaceCoordinate {
    pub dimension: u64,
    pub sigma: u128,
}

/// A surface of the graph: every event that landed on one coordinate.
#[derive(Debug, Clone)]
pub struct SurfaceNode {
    pub coordinate: [u8; 32],
    pub surface: SurfaceCoordinate,
    pub scale: Scale,
    pub total_network: u128,
    pub events: Vec<EventId>,
    pub inbound: Vec<SurfaceId>,
    pub outbound: Vec<SurfaceId>,
}

/// The event and surface store.
#[derive(Debug)]
pub struct QtmGraph {
    pub events: IdMap<QtmEvent>,
    pub surfaces: IdMap<SurfaceNode>,
    pub commitments: IdMap<EventId>,
    pub activation_network: HashMap<u64, u128>,
    pub coordinates: IdMap<SurfaceId>,
    pub sigma_index: HashMap<u128, Vec<SurfaceId>>,
}

/// `a + b`, held at `u128::MAX` where it would overflow.
pub open spec fn sat_add(a: u128, b: u128) -> u128 {
    if a + b > u128::MAX {
        u128::MAX
    } else {
        (a + b) as u128
    }
}

/// The surface that a first event on its coordinate opens.
pub open spec fn opened_surface(node: SurfaceNode, event: QtmEvent) -> bool {
    &&& node.coordinate == event.coordinate
    &&& node.surface.dimension == event.dimension
    &&& node.surface.sigma == event.sigma
    &&& node.scale == event.scale
    &&& node.total_network == event.network
    &&& node.events@ == seq![event.commitment]
    &&& node.inbound@ == Seq::<SurfaceId>::empty()
    &&& node.outbound@ == Seq::<SurfaceId>::empty()
}

/// `after` is `before` once a further event with `network` and id `event_id`
/// has landed on it.
pub open spec fn absorbed_surface(
    before: SurfaceNode,
    after: SurfaceNode,
    event_id: EventId,
    network: u128,
) -> bool {
    &&& after.coordinate == before.coordinate
    &&& after.surface == before.surface
    &&& after.scale == before.scale
    &&& after.total_network == sat_add(before.total_network, network)
    &&& after.events@ == before.events@.push(event_id)
    &&& after.inbound@ == before.inbound@
    &&& after.outbound@ == before.outbound@
}

/// A surface opened by an event takes that event's coordinate, dimension,
/// sigma, scale and network, and lists that event alone.
pub proof fn lemma_opened_surface_takes_event(node: SurfaceNode, event: QtmEvent)
    requires
        opened_surface(node, event),
    ensures
        node.coordinate == event.coordinate,
        node.surface.dimension == event.dimension,
        node.surface.sigma == event.sigma,
        node.scale == event.scale,
        node.total_network == event.network,
        node.events@.len() == 1,
        node.events@[0] == event.commitment,
        node.inbound@.len() == 0,
        node.outbound@.len() == 0,
{
}

/// A surface that absorbs an event keeps its coordinate, geometry and scale,
/// lists the event last, and its network total grows by the event's network
/// up to `u128::MAX`: exactly by it when there is room, else to the ceiling.
pub proof fn lemma_absorbed_surface_adds_event(
    before: SurfaceNode,
    after: SurfaceNode,
    event_id: EventId,
    network: u128,
)
    requires
        absorbed_surface(before, after, event_id, network),
    ensures
        after.coordinate == before.coordinate,
        after.surface == before.surface,
        after.scale == before.scale,
        after.events@.len() == before.events@.len() + 1,
        after.events@.last() == event_id,
        after.events@.take(before.events@.len() as int) == before.events@,
        before.total_network + network <= u128::MAX ==> after.total_network
            == before.total_network + network,
        before.total_network + network > u128::MAX ==> after.total_network == u128::MAX,
        after.total_network >= before.total_network,
        after.total_network >= network,
{
    assert(after.events@.take(before.events@.len() as int) =~= before.events@);
}

impl Default for QtmGraph {
    fn default() -> (g: Self)
        ensures
            g.events@ == Map::<EventId, QtmEvent>::empty(),
            g.surfaces@ == Map::<SurfaceId, SurfaceNode>::empty(),
            g.commitments@ == Map::<[u8; 32], EventId>::empty(),
            g.activation_network@ == Map::<u64, u128>::empty(),
            g.coordinates@ == Map::<[u8; 32], SurfaceId>::empty(),
            g.sigma_index@ == Map::<u128, Vec<SurfaceId>>::empty(),
            g.consistent(),
    {
        QtmGraph::new()
    }
}

impl QtmGraph {
    /// The graph's indexes agree with one another:
    /// - a commitment indexes the event of that id, and the event carries it;
    /// - a coordinate indexes the surface of that id, and the surface sits on it;
    /// - every event listed on a surface is stored;
    /// - a surface listed under a sigma has that sigma;
    /// - every surface is listed under its own sigma, and no bucket lists a
    ///   surface twice (so each surface is listed exactly once).
    pub open spec fn consistent(&self) -> bool {
        &&& self.commitments@.dom() == self.events@.dom()
        &&& forall|c: [u8; 32]| #[trigger]
            self.commitments@.contains_key(c) ==> self.commitments@[c] == c
                && self.events@[c].commitment == c
        &&& self.coordinates@.dom() == self.surfaces@.dom()
        &&& forall|c: [u8; 32]| #[trigger]
            self.coordinates@.contains_key(c) ==> self.coordinates@[c] == c
                && self.surfaces@[c].coordinate == c
        &&& forall|s: SurfaceId, i: int| #[trigger]
            self.surfaces@.contains_key(s) && 0 <= i < self.surfaces@[s].events@.len()
                ==> self.events@.contains_key(#[trigger] self.surfaces@[s].events@[i])
        &&& forall|sigma: u128, i: int| #[trigger]
            self.sigma_index@.contains_key(sigma) && 0 <= i < self.sigma_index@[sigma]@.len()
                ==> self.surfaces@.contains_key(#[trigger] self.sigma_index@[sigma]@[i])
                && self.surfaces@[self.sigma_index@[sigma]@[i]].surface.sigma == sigma
        &&& forall|s: SurfaceId| #[trigger]
            self.surfaces@.contains_key(s) ==> self.sigma_index@.contains_key(
                self.surfaces@[s].surface.sigma,
            ) && self.sigma_index@[self.surfaces@[s].surface.sigma]@.contains(s)
        &&& forall|sigma: u128, i: int, j: int|
            #![trigger self.sigma_index@[sigma]@[i], self.sigma_index@[sigma]@[j]]
            self.sigma_index@.contains_key(sigma) && 0 <= i < j
                < self.sigma_index@[sigma]@.len() ==> self.sigma_index@[sigma]@[i]
                != self.sigma_index@[sigma]@[j]
    }

    /// Under `consistent`, a surface id occurs in the sigma index exactly
    /// once: at one position of the bucket of its own sigma, and nowhere else.
    pub proof fn lemma_surface_listed_once(&self, s: SurfaceId)
        requires
            self.consistent(),
            self.surfaces@.contains_key(s),
        ensures
            ({
                let sigma = self.surfaces@[s].surface.sigma;
                &&& self.sigma_index@.contains_key(sigma)
                &&& exists|i: int|
                    0 <= i < self.sigma_index@[sigma]@.len() && self.sigma_index@[sigma]@[i] == s
                &&& forall|i: int, j: int|
                    0 <= i < self.sigma_index@[sigma]@.len() && 0 <= j
                        < self.sigma_index@[sigma]@.len() && self.sigma_index@[sigma]@[i] == s
                        && self.sigma_index@[sigma]@[j] == s ==> i == j
                &&& forall|other: u128, i: int|
                    other != sigma && self.sigma_index@.contains_key(other) && 0 <= i
                        < self.sigma_index@[other]@.len() ==> self.sigma_index@[other]@[i] != s
            }),
    {
        let sigma = self.surfaces@[s].surface.sigma;
        assert(self.sigma_index@[sigma]@.contains(s));
        assert forall|i: int, j: int|
            0 <= i < self.sigma_index@[sigma]@.len() && 0 <= j < self.sigma_index@[sigma]@.len()
                && self.sigma_index@[sigma]@[i] == s && self.sigma_index@[sigma]@[j] == s
            implies i == j by {
            if i < j {
                assert(self.sigma_index@[sigma]@[i] != self.sigma_index@[sigma]@[j]);
            } else if j < i {
                assert(self.sigma_index@[sigma]@[j] != self.sigma_index@[sigma]@[i]);
            }
        }
        assert forall|other: u128, i: int|
            other != sigma && self.sigma_index@.contains_key(other) && 0 <= i
                < self.sigma_index@[other]@.len() implies self.sigma_index@[other]@[i] != s by {
            let x = self.sigma_index@[other]@[i];
            assert(self.surfaces@[x].surface.sigma == other);
        }
    }

    /// An empty graph.
    pub fn new() -> (g: Self)
        ensures
            g.events@ == Map::<EventId, QtmEvent>::empty(),
            g.surfaces@ == Map::<SurfaceId, SurfaceNode>::empty(),
            g.commitments@ == Map::<[u8; 32], EventId>::empty(),
            g.activation_network@ == Map::<u64, u128>::empty(),
            g.coordinates@ == Map::<[u8; 32], SurfaceId>::empty(),
            g.sigma_index@ == Map::<u128, Vec<SurfaceId>>::empty(),
            g.consistent(),
    {
        QtmGraph {
            events: IdMap::new(),
            surfaces: IdMap::new(),
            commitments: IdMap::new(),
            activation_network: HashMap::new(),
            coordinates: IdMap::new(),
            sigma_index: HashMap::new(),
        }
    }

    /// Record an event.
    ///
    /// The event is stored under its commitment, which is also its id; the
    /// activation's network is recorded. An event on a coordinate that already
    /// has a surface joins that surface and adds its network (saturating);
    /// otherwise it opens a new surface whose id is the coordinate, indexed
    /// under the coordinate and under its sigma. Returns the surface id and
    /// the event id.
    pub fn insert(&mut self, event: QtmEvent) -> (ids: (SurfaceId, EventId))
        requires
            old(self).coordinates@.contains_key(event.coordinate) ==> old(
                self,
            ).surfaces@.contains_key(old(self).coordinates@[event.coordinate]),
        ensures
            ids.1 == event.commitment,
            final(self).events@ == old(self).events@.insert(event.commitment, event),
            final(self).commitments@ == old(self).commitments@.insert(
                event.commitment,
                event.commitment,
            ),
            final(self).activation_network@ == old(self).activation_network@.insert(
                event.activation,
                event.network,
            ),
            old(self).coordinates@.contains_key(event.coordinate) ==> {
                let sid = old(self).coordinates@[event.coordinate];
                &&& ids.0 == sid
                &&& final(self).surfaces@ == old(self).surfaces@.insert(
                    sid,
                    final(self).surfaces@[sid],
                )
                &&& absorbed_surface(
                    old(self).surfaces@[sid],
                    final(self).surfaces@[sid],
                    event.commitment,
                    event.network,
                )
                &&& final(self).surfaces@[sid].coordinate == old(self).surfaces@[sid].coordinate
                &&& final(self).surfaces@[sid].surface == old(self).surfaces@[sid].surface
                &&& final(self).surfaces@[sid].scale == old(self).surfaces@[sid].scale
                &&& final(self).surfaces@[sid].total_network == (if old(self).surfaces@[sid].total_network
                    + event.network > u128::MAX {
                    u128::MAX
                } else {
                    (old(self).surfaces@[sid].total_network + event.network) as u128
                })
                &&& final(self).surfaces@[sid].events@ == old(self).surfaces@[sid].events@.push(
                    event.commitment,
                )
                &&& final(self).coordinates@ == old(self).coordinates@
                &&& final(self).sigma_index@ == old(self).sigma_index@
            },
            !old(self).coordinates@.contains_key(event.coordinate) ==> {
                &&& ids.0 == event.coordinate
                &&& final(self).surfaces@ == old(self).surfaces@.insert(
                    event.coordinate,
                    final(self).surfaces@[event.coordinate],
                )
                &&& opened_surface(final(self).surfaces@[event.coordinate], event)
                &&& final(self).surfaces@[event.coordinate].coordinate == event.coordinate
                &&& final(self).surfaces@[event.coordinate].scale == event.scale
                &&& final(self).surfaces@[event.coordinate].surface.dimension == event.dimension
                &&& final(self).surfaces@[event.coordinate].surface.sigma == event.sigma
                &&& final(self).surfaces@[event.coordinate].total_network == event.network
                &&& final(self).surfaces@[event.coordinate].events@ == seq![event.commitment]
                &&& final(self).coordinates@ == old(self).coordinates@.insert(
                    event.coordinate,
                    event.coordinate,
                )
                &&& final(self).sigma_index@.dom() == old(self).sigma_index@.dom().insert(
                    event.sigma,
                )
                &&& forall|s: u128|
                    s != event.sigma && #[trigger] old(self).sigma_index@.contains_key(s)
                        ==> final(self).sigma_index@[s] == old(self).sigma_index@[s]
                &&& final(self).sigma_index@[event.sigma]@ == (if old(
                    self,
                ).sigma_index@.contains_key(event.sigma) {
                    old(self).sigma_index@[event.sigma]@
                } else {
                    Seq::<SurfaceId>::empty()
                }).push(event.coordinate)
            },
            old(self).consistent() ==> final(self).consistent(),
            old(self).consistent() ==> ids.0 == event.coordinate,
    {
        let ghost pre = *self;
        let coordinate = event.coordinate;
        let commitment = event.commitment;
        let event_id = commitment;
        let activation = event.activation;
        let network = event.network;
        let dimension = event.dimension;
        let sigma = event.sigma;
        let scale = event.scale;
        let ghost ev = event;

        self.events.insert(event_id, event);
        self.commitments.insert(commitment, event_id);
        self.activation_network.insert(activation, network);

        // Existing surface
        let known = match self.coordinates.get(&coordinate) {
            Some(sid) => Some(*sid),
            None => None,
        };
        if let Some(surface_id) = known {
            let taken = self.surfaces.take(&surface_id);
            let mut surface = match taken {
                Some(s) => s,
                None => {
                    assert(false);
                    return (surface_id, event_id);
                },
            };
            let ghost before = surface;
            surface.total_network = surface.total_network.saturating_add(network);
            surface.events.push(event_id);
            self.surfaces.insert(surface_id, surface);
            proof {
                assert(self.surfaces@ =~= pre.surfaces@.insert(surface_id, self.surfaces@[surface_id]));
                if pre.consistent() {
                    self.lemma_consistent_after_join(pre, ev, surface_id);
                }
            }
            return (surface_id, event_id);
        }
        // New surface

        let surface_id = coordinate;
        let mut events: Vec<EventId> = Vec::new();
        events.push(event_id);
        let surface = SurfaceNode {
            coordinate,
            surface: SurfaceCoordinate { dimension, sigma },
            scale,
            total_network: network,
            events,
            inbound: Vec::new(),
            outbound: Vec::new(),
        };
        self.surfaces.insert(surface_id, surface);
        self.coordinates.insert(coordinate, surface_id);

        let listed = self.sigma_index.remove(&sigma);
        let mut list = match listed {
            Some(l) => l,
            None => Vec::new(),
        };
        list.push(surface_id);
        self.sigma_index.insert(sigma, list);
        proof {
            assert(self.surfaces@ =~= pre.surfaces@.insert(coordinate, self.surfaces@[coordinate]));
            assert(self.sigma_index@.dom() =~= pre.sigma_index@.dom().insert(sigma));
            if pre.consistent() {
                self.lemma_consistent_after_open(pre, ev);
            }
        }
        (surface_id, event_id)
    }

    proof fn lemma_consistent_after_join(self, pre: Self, ev: QtmEvent, sid: SurfaceId)
        requires
            pre.consistent(),
            pre.coordinates@.contains_key(ev.coordinate),
            sid == pre.coordinates@[ev.coordinate],
            self.events@ == pre.events@.insert(ev.commitment, ev),
            self.commitments@ == pre.commitments@.insert(ev.commitment, ev.commitment),
            self.coordinates@ == pre.coordinates@,
            self.sigma_index@ == pre.sigma_index@,
            self.surfaces@ == pre.surfaces@.insert(sid, self.surfaces@[sid]),
            absorbed_surface(pre.surfaces@[sid], self.surfaces@[sid], ev.commitment, ev.network),
        ensures
            self.consistent(),
            sid == ev.coordinate,
    {
        assert(self.commitments@.dom() =~= self.events@.dom());
        assert(self.surfaces@.dom() =~= pre.surfaces@.dom());
        assert forall|c: [u8; 32]| #[trigger] self.commitments@.contains_key(c) implies
            self.commitments@[c] == c && self.events@[c].commitment == c by {
            if c != ev.commitment {
                assert(pre.commitments@.contains_key(c));
            }
        }
        assert forall|s: SurfaceId, i: int| #[trigger]
            self.surfaces@.contains_key(s) && 0 <= i < self.surfaces@[s].events@.len()
                implies self.events@.contains_key(#[trigger] self.surfaces@[s].events@[i]) by {
            if s == sid {
                if i < pre.surfaces@[sid].events@.len() {
                    assert(self.surfaces@[s].events@[i] == pre.surfaces@[sid].events@[i]);
                    assert(pre.events@.contains_key(pre.surfaces@[sid].events@[i]));
                }
            } else {
                assert(self.surfaces@[s] == pre.surfaces@[s]);
                assert(pre.events@.contains_key(pre.surfaces@[s].events@[i]));
            }
        }
        assert forall|sigma: u128, i: int| #[trigger]
            self.sigma_index@.contains_key(sigma) && 0 <= i < self.sigma_index@[sigma]@.len()
                implies self.surfaces@.contains_key(#[trigger] self.sigma_index@[sigma]@[i])
                && self.surfaces@[self.sigma_index@[sigma]@[i]].surface.sigma == sigma by {
            assert(pre.surfaces@.contains_key(pre.sigma_index@[sigma]@[i]));
        }
        assert forall|c: [u8; 32]| #[trigger] self.coordinates@.contains_key(c) implies
            self.coordinates@[c] == c && self.surfaces@[c].coordinate == c by {
            assert(pre.coordinates@.contains_key(c));
        }
        assert forall|s: SurfaceId| #[trigger] self.surfaces@.contains_key(s) implies
            self.sigma_index@.contains_key(self.surfaces@[s].surface.sigma)
                && self.sigma_index@[self.surfaces@[s].surface.sigma]@.contains(s) by {
            assert(pre.surfaces@.contains_key(s));
            assert(self.surfaces@[s].surface == pre.surfaces@[s].surface);
        }
    }

    proof fn lemma_consistent_after_open(self, pre: Self, ev: QtmEvent)
        requires
            pre.consistent(),
            !pre.coordinates@.contains_key(ev.coordinate),
            self.events@ == pre.events@.insert(ev.commitment, ev),
            self.commitments@ == pre.commitments@.insert(ev.commitment, ev.commitment),
            self.coordinates@ == pre.coordinates@.insert(ev.coordinate, ev.coordinate),
            self.surfaces@ == pre.surfaces@.insert(ev.coordinate, self.surfaces@[ev.coordinate]),
            opened_surface(self.surfaces@[ev.coordinate], ev),
            self.sigma_index@.dom() == pre.sigma_index@.dom().insert(ev.sigma),
            forall|s: u128|
                s != ev.sigma && #[trigger] pre.sigma_index@.contains_key(s)
                    ==> self.sigma_index@[s] == pre.sigma_index@[s],
            self.sigma_index@[ev.sigma]@ == (if pre.sigma_index@.contains_key(ev.sigma) {
                pre.sigma_index@[ev.sigma]@
            } else {
                Seq::<SurfaceId>::empty()
            }).push(ev.coordinate),
        ensures
            self.consistent(),
    {
        let c0 = ev.coordinate;
        assert(self.commitments@.dom() =~= self.events@.dom());
        assert forall|c: [u8; 32]| #[trigger] self.commitments@.contains_key(c) implies
            self.commitments@[c] == c && self.events@[c].commitment == c by {
            if c != ev.commitment {
                assert(pre.commitments@.contains_key(c));
            }
        }
        assert(self.coordinates@.dom() =~= self.surfaces@.dom());
        assert forall|s: SurfaceId, i: int| #[trigger]
            self.surfaces@.contains_key(s) && 0 <= i < self.surfaces@[s].events@.len()
                implies self.events@.contains_key(#[trigger] self.surfaces@[s].events@[i]) by {
            if s != c0 {
                assert(self.surfaces@[s] == pre.surfaces@[s]);
                assert(pre.events@.contains_key(pre.surfaces@[s].events@[i]));
            }
        }
        assert forall|sigma: u128, i: int| #[trigger]
            self.sigma_index@.contains_key(sigma) && 0 <= i < self.sigma_index@[sigma]@.len()
                implies self.surfaces@.contains_key(#[trigger] self.sigma_index@[sigma]@[i])
                && self.surfaces@[self.sigma_index@[sigma]@[i]].surface.sigma == sigma by {
            let x = self.sigma_index@[sigma]@[i];
            if sigma == ev.sigma {
                if i < self.sigma_index@[sigma]@.len() - 1 {
                    assert(pre.sigma_index@.contains_key(sigma));
                    assert(x == pre.sigma_index@[sigma]@[i]);
                    assert(pre.surfaces@.contains_key(pre.sigma_index@[sigma]@[i]));
                    assert(x != c0);
                }
            } else {
                assert(pre.sigma_index@.contains_key(sigma));
                assert(x == pre.sigma_index@[sigma]@[i]);
                assert(pre.surfaces@.contains_key(pre.sigma_index@[sigma]@[i]));
                assert(x != c0);
            }
        }
        assert forall|c: [u8; 32]| #[trigger] self.coordinates@.contains_key(c) implies
            self.coordinates@[c] == c && self.surfaces@[c].coordinate == c by {
            if c != c0 {
                assert(pre.coordinates@.contains_key(c));
            }
        }
        assert forall|x: SurfaceId| #[trigger] self.surfaces@.contains_key(x) implies
            self.sigma_index@.contains_key(self.surfaces@[x].surface.sigma)
                && self.sigma_index@[self.surfaces@[x].surface.sigma]@.contains(x) by {
            let sg = self.surfaces@[x].surface.sigma;
            if x == c0 {
                let b = self.sigma_index@[ev.sigma]@;
                assert(b[b.len() - 1] == c0);
            } else {
                assert(pre.surfaces@.contains_key(x));
                assert(self.surfaces@[x] == pre.surfaces@[x]);
                assert(pre.sigma_index@[sg]@.contains(x));
                let k = choose|k: int| 0 <= k < pre.sigma_index@[sg]@.len()
                    && pre.sigma_index@[sg]@[k] == x;
                if sg == ev.sigma {
                    assert(self.sigma_index@[sg]@[k] == x);
                } else {
                    assert(self.sigma_index@[sg] == pre.sigma_index@[sg]);
                }
            }
        }
        assert forall|sigma: u128, i: int, j: int|
            self.sigma_index@.contains_key(sigma) && 0 <= i < j < self.sigma_index@[sigma]@.len()
            implies #[trigger] self.sigma_index@[sigma]@[i]
            != #[trigger] self.sigma_index@[sigma]@[j] by {
            if sigma == ev.sigma {
                let b = self.sigma_index@[sigma]@;
                if j == b.len() - 1 {
                    if pre.sigma_index@.contains_key(sigma) {
                        let x = pre.sigma_index@[sigma]@[i];
                        assert(b[i] == x);
                        assert(pre.surfaces@.contains_key(x));
                        assert(!pre.surfaces@.contains_key(c0));
                    }
                } else {
                    assert(pre.sigma_index@.contains_key(sigma));
                    assert(b[i] == pre.sigma_index@[sigma]@[i]);
                    assert(b[j] == pre.sigma_index@[sigma]@[j]);
                }
            } else {
                assert(pre.sigma_index@.contains_key(sigma));
                assert(self.sigma_index@[sigma] == pre.sigma_index@[sigma]);
            }
        }
    }
}

} // verus!
