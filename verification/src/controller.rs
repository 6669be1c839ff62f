//! The orchestrator: owns the devices, keeps every port as a node of a
//! provably acyclic dependency graph, and advances the whole circuit one
//! tick at a time.
//!
//! Edges of the graph are either *internal* — an output port's declared
//! dependency on an input port of the same device, added at registration —
//! or *external* — a user wire from an output port of one device to an
//! input port of another. Both kinds share one acyclicity constraint, and
//! the graph's maintained topological order doubles as the tick's
//! evaluation order.

use vstd::prelude::*;

use crate::device::instance::DeviceInstance;
use crate::device::Device;
use crate::graph::{is_path, reaches, DepGraph};

verus! {

/// The name a caller gives a device at registration.
pub type DeviceIdentifier = String;

/// An error reported by the controller.
#[derive(Debug, PartialEq, Eq, Structural, Clone, Copy)]
pub enum ControllerError {
    /// A device or port named in a connection is not registered.
    UnknownEndpoint,
    /// The connection would close a directed dependency cycle.
    WouldCreateCycle,
    /// A wire must lead from an output port to an input port.
    PortDirection,
    /// The input port already has an incoming wire.
    DuplicateWire,
    /// The device identifier is already registered.
    DuplicateDevice,
    /// An input port has no incoming wire, so the tick cannot resolve it.
    UnresolvedInput,
    /// A device refused a supplied value; a failed earlier tick left stale
    /// per-tick state behind.
    ValueRejected,
}

/// The map that a sequence of `((device, port), value)` entries describes;
/// later entries win, though the tick only builds distinct keys.
pub open spec fn entry_map(s: Seq<((Seq<char>, Seq<char>), u32)>) -> Map<
    (Seq<char>, Seq<char>),
    u32,
>
    decreases s.len(),
{
    if s.len() == 0 {
        Map::empty()
    } else {
        entry_map(s.drop_last()).insert(s.last().0, s.last().1)
    }
}

/// What `entry_map` holds: exactly the keys of the sequence, and under
/// distinct keys each entry's own value.
pub proof fn lemma_entry_map(s: Seq<((Seq<char>, Seq<char>), u32)>)
    ensures
        forall|k: (Seq<char>, Seq<char>)|
            #[trigger] entry_map(s).dom().contains(k) <==> exists|i: int|
                0 <= i < s.len() && (#[trigger] s[i]).0 == k,
        (forall|i: int, j: int| 0 <= i < j < s.len() ==> (#[trigger] s[i]).0 != (#[trigger] s[j]).0)
            ==> forall|i: int|
            0 <= i < s.len() ==> entry_map(s).dom().contains((#[trigger] s[i]).0) && entry_map(s)[
                s[i].0
            ] == s[i].1,
    decreases s.len(),
{
    if s.len() > 0 {
        let rest = s.drop_last();
        lemma_entry_map(rest);
        assert forall|k: (Seq<char>, Seq<char>)| #[trigger] entry_map(s).dom().contains(k)
            implies exists|i: int| 0 <= i < s.len() && (#[trigger] s[i]).0 == k by {
            if k == s.last().0 {
                assert(s[s.len() - 1].0 == k);
            } else {
                assert(entry_map(rest).dom().contains(k));
                let i = choose|i: int| 0 <= i < rest.len() && (#[trigger] rest[i]).0 == k;
                assert(s[i].0 == k);
            }
        }
        assert forall|k: (Seq<char>, Seq<char>)|
            (exists|i: int| 0 <= i < s.len() && (#[trigger] s[i]).0 == k)
            implies #[trigger] entry_map(s).dom().contains(k) by {
            let i = choose|i: int| 0 <= i < s.len() && (#[trigger] s[i]).0 == k;
            if i < s.len() - 1 {
                assert(rest[i].0 == k);
                assert(entry_map(rest).dom().contains(k));
            } else {
                assert(k == s.last().0);
            }
        }
        if forall|i: int, j: int|
            0 <= i < j < s.len() ==> (#[trigger] s[i]).0 != (#[trigger] s[j]).0 {
            assert forall|i: int|
                0 <= i < s.len() implies entry_map(s).dom().contains((#[trigger] s[i]).0)
                && entry_map(s)[s[i].0] == s[i].1 by {
                assert(forall|i2: int, j2: int|
                    0 <= i2 < j2 < rest.len() ==> (#[trigger] rest[i2]).0 != (
                    #[trigger] rest[j2]).0);
                if i < s.len() - 1 {
                    assert(rest[i] == s[i]);
                    assert(s[i].0 != s.last().0);
                }
            }
        }
    }
}

/// The mapping of every port to its resolved value for one tick, keyed by
/// `(device identifier, port identifier)`.
pub struct TickResult {
    entries: Vec<((DeviceIdentifier, String), u32)>,
}

impl View for TickResult {
    type V = Map<(Seq<char>, Seq<char>), u32>;

    closed spec fn view(&self) -> Map<(Seq<char>, Seq<char>), u32> {
        entry_map(self.entries_spec())
    }
}

impl TickResult {
    /// The recorded entries, one per port, in node order.
    pub closed spec fn entries_spec(&self) -> Seq<((Seq<char>, Seq<char>), u32)> {
        Seq::new(self.entries@.len(), |i: int| ((self.entries@[i].0.0@, self.entries@[i].0.1@), self.entries@[i].1))
    }

    /// No two entries name the same port.
    pub open spec fn wf(&self) -> bool {
        forall|i: int, j: int|
            0 <= i < j < self.entries_spec().len() ==> (#[trigger] self.entries_spec()[i]).0 != (
            #[trigger] self.entries_spec()[j]).0
    }

    /// How many ports were resolved.
    pub fn len(&self) -> (r: usize)
        ensures
            r == self.entries_spec().len(),
    {
        self.entries.len()
    }

    /// Whether the named port was resolved this tick.
    pub fn contains_key(&self, key: &(DeviceIdentifier, String)) -> (r: bool)
        requires
            self.wf(),
        ensures
            r == self@.dom().contains((key.0@, key.1@)),
    {
        self.get(key).is_some()
    }

    /// The value the named port resolved to this tick.
    pub fn get(&self, key: &(DeviceIdentifier, String)) -> (r: Option<u32>)
        requires
            self.wf(),
        ensures
            r matches Some(v) ==> self@.dom().contains((key.0@, key.1@)) && v == self@[
                (key.0@, key.1@)
            ],
            r is None ==> !self@.dom().contains((key.0@, key.1@)),
    {
        proof {
            lemma_entry_map(self.entries_spec());
        }
        let mut i: usize = 0;
        while i < self.entries.len()
            invariant
                self.wf(),
                i <= self.entries@.len(),
                forall|j: int| 0 <= j < i ==> (#[trigger] self.entries_spec()[j]).0 != (key.0@, key.1@),
            decreases self.entries@.len() - i,
        {
            let entry = &self.entries[i];
            if entry.0.0 == key.0 && entry.0.1 == key.1 {
                proof {
                    lemma_entry_map(self.entries_spec());
                    assert(self.entries_spec()[i as int].0 == (key.0@, key.1@));
                }
                return Some(entry.1);
            }
            proof {
                assert(self.entries_spec()[i as int].0 != (key.0@, key.1@));
            }
            i += 1;
        }
        proof {
            lemma_entry_map(self.entries_spec());
            if self@.dom().contains((key.0@, key.1@)) {
                let j = choose|j: int|
                    0 <= j < self.entries_spec().len() && (#[trigger] self.entries_spec()[j]).0
                        == (key.0@, key.1@);
                assert(false);
            }
        }
        None
    }
}

/// One port of one registered device, as a node of the dependency graph.
/// `upstream` is the node index of the output wired into this input port,
/// if the node is an input port and a wire exists.
struct PortNode {
    device: usize,
    port: String,
    is_output: bool,
    upstream: Option<usize>,
}

/// Holds devices and the connections between them, and facilitates
/// whole-circuit ticks and information flow.
pub struct Controller {
    devices: Vec<(DeviceIdentifier, DeviceInstance)>,
    nodes: Vec<PortNode>,
    graph: DepGraph,
}

impl Controller {
    /// How many devices are registered.
    pub closed spec fn device_count(&self) -> int {
        self.devices@.len() as int
    }

    /// The identifier of the device at index `d`.
    pub closed spec fn id_spec(&self, d: int) -> Seq<char> {
        self.devices@[d].0@
    }

    /// The device at index `d`.
    pub closed spec fn device_spec(&self, d: int) -> DeviceInstance {
        self.devices@[d].1
    }

    /// How many port nodes the dependency graph has.
    pub closed spec fn node_count(&self) -> int {
        self.nodes@.len() as int
    }

    /// The device index that node `k` belongs to.
    pub closed spec fn node_device(&self, k: int) -> int {
        self.nodes@[k].device as int
    }

    /// The port name of node `k`.
    pub closed spec fn node_port(&self, k: int) -> Seq<char> {
        self.nodes@[k].port@
    }

    /// Whether node `k` is an output port.
    pub closed spec fn node_is_output(&self, k: int) -> bool {
        self.nodes@[k].is_output
    }

    /// Whether input node `k` has an incoming wire.
    pub closed spec fn node_wired(&self, k: int) -> bool {
        self.nodes@[k].upstream is Some
    }

    /// The node index of the output wired into input node `k`.
    pub closed spec fn node_upstream(&self, k: int) -> int {
        self.nodes@[k].upstream->0 as int
    }

    /// All dependency edges, internal and external, as node index pairs.
    pub closed spec fn edges(&self) -> Seq<(usize, usize)> {
        self.graph.edge_seq()
    }

    /// The maintained evaluation order of the nodes.
    pub closed spec fn eval_order(&self) -> Seq<usize> {
        self.graph.order_seq()
    }

    /// The position of node `k` in the evaluation order.
    pub closed spec fn order_position(&self, k: int) -> int {
        self.graph.position(k)
    }

    /// Node `k` exists and is the port `p` of device `d`, on the given side.
    pub open spec fn node_matches(&self, k: int, d: int, p: Seq<char>, is_out: bool) -> bool {
        &&& 0 <= k < self.node_count()
        &&& self.node_device(k) == d
        &&& self.node_port(k) == p
        &&& self.node_is_output(k) == is_out
    }

    /// Some node is the port `p` of device `d`, on the given side.
    pub open spec fn has_node(&self, d: int, p: Seq<char>, is_out: bool) -> bool {
        exists|k: int| self.node_matches(k, d, p, is_out)
    }

    /// The node that is the port `p` of device `d`, on the given side.
    pub open spec fn node_index_of(&self, d: int, p: Seq<char>, is_out: bool) -> int {
        choose|k: int| self.node_matches(k, d, p, is_out)
    }

    /// Every registered device satisfies its own invariant.
    spec fn wf_devices(&self) -> bool {
        forall|d: int| 0 <= d < self.device_count() ==> (#[trigger] self.device_spec(d)).wf()
    }

    /// Device identifiers are pairwise distinct.
    spec fn wf_ids(&self) -> bool {
        forall|d1: int, d2: int|
            0 <= d1 < d2 < self.device_count() ==> #[trigger] self.id_spec(d1)
                != #[trigger] self.id_spec(d2)
    }

    /// Every node points at a registered device and names one of its ports,
    /// on the right side.
    spec fn wf_nodes(&self) -> bool {
        forall|k: int|
            0 <= k < self.node_count() ==> {
                &&& 0 <= #[trigger] self.node_device(k) < self.device_count()
                &&& (self.node_is_output(k) ==> self.device_spec(self.node_device(k)).outputs(
                ).contains(self.node_port(k)))
                &&& (!self.node_is_output(k) ==> self.device_spec(self.node_device(k)).inputs(
                ).contains(self.node_port(k)))
            }
    }

    /// No two nodes stand for the same port of the same device.
    spec fn wf_unique(&self) -> bool {
        forall|k1: int, k2: int|
            0 <= k1 < k2 < self.node_count() ==> !(#[trigger] self.node_device(k1)
                == #[trigger] self.node_device(k2) && self.node_port(k1) == self.node_port(k2))
    }

    /// Every declared port of every registered device has a node.
    spec fn wf_complete(&self) -> bool {
        forall|d: int, p: Seq<char>|
            0 <= d < self.device_count() ==> {
                &&& (#[trigger] self.device_spec(d).inputs().contains(p) ==> self.has_node(
                    d,
                    p,
                    false,
                ))
                &&& (self.device_spec(d).outputs().contains(p) ==> self.has_node(d, p, true))
            }
    }

    /// An input node's recorded upstream is an output node, and the edge
    /// between them is in the graph.
    spec fn wf_upstream(&self) -> bool {
        forall|k: int|
            0 <= k < self.node_count() && !self.node_is_output(k) && #[trigger] self.node_wired(k)
                ==> {
                &&& 0 <= self.node_upstream(k) < self.node_count()
                &&& self.node_is_output(self.node_upstream(k))
                &&& self.edges().contains((self.node_upstream(k) as usize, k as usize))
            }
    }

    /// Every edge is either internal — from an input to an output of the
    /// same device, declared as a dependency — or external — the recorded
    /// wire of its target input node.
    spec fn wf_edges(&self) -> bool {
        forall|e: int|
            0 <= e < self.edges().len() ==> {
                let a = (#[trigger] self.edges()[e]).0 as int;
                let b = self.edges()[e].1 as int;
                &&& if self.node_is_output(b) {
                    &&& self.node_device(a) == self.node_device(b)
                    &&& !self.node_is_output(a)
                    &&& self.device_spec(self.node_device(b)).deps_of(
                        self.node_port(b),
                    ).contains(self.node_port(a))
                } else {
                    &&& self.node_is_output(a)
                    &&& self.nodes@[b].upstream == Some(self.edges()[e].0)
                }
            }
    }

    /// Every declared dependency of every output node has its internal edge
    /// in the graph.
    spec fn wf_dep_edges(&self) -> bool {
        forall|k: int, p: Seq<char>|
            0 <= k < self.node_count() && #[trigger] self.node_is_output(k) && #[trigger] self.device_spec(
                self.node_device(k),
            ).deps_of(self.node_port(k)).contains(p) ==> exists|a: int|
                self.node_matches(a, self.node_device(k), p, false) && self.edges().contains(
                    (a as usize, k as usize),
                )
    }

    /// The controller's invariant: the graph is a well-formed acyclic graph
    /// with one node per declared port of each registered device, and its
    /// edges mirror the devices' declared dependencies and the recorded
    /// wires.
    pub closed spec fn wf(&self) -> bool {
        &&& self.graph.wf()
        &&& self.graph.node_count() == self.node_count()
        &&& self.wf_devices()
        &&& self.wf_ids()
        &&& self.wf_nodes()
        &&& self.wf_unique()
        &&& self.wf_complete()
        &&& self.wf_upstream()
        &&& self.wf_edges()
        &&& self.wf_dep_edges()
    }

    /// An empty controller: no devices, no nodes, no edges.
    pub fn new() -> (r: Controller)
        ensures
            r.wf(),
            r.device_count() == 0,
            r.node_count() == 0,
            r.edges() == Seq::<(usize, usize)>::empty(),
    {
        Controller { devices: Vec::new(), nodes: Vec::new(), graph: DepGraph::new() }
    }

    /// An element of a sequence prefix is an element of the longer sequence.
    proof fn lemma_contains_prefix(
        e1: Seq<(usize, usize)>,
        e2: Seq<(usize, usize)>,
        x: (usize, usize),
    )
        requires
            e1.contains(x),
            e2.len() >= e1.len(),
            forall|i: int| 0 <= i < e1.len() ==> #[trigger] e2[i] == e1[i],
        ensures
            e2.contains(x),
    {
        let i = choose|i: int| 0 <= i < e1.len() && e1[i] == x;
        assert(e2[i] == x);
    }

    /// After appending one node per declared port of a fresh device, and
    /// one internal edge per declared dependency of each of its outputs,
    /// the controller invariant holds again.
    #[verifier::rlimit(100)]
    proof fn lemma_registration_wf(
        &self,
        old_c: Controller,
        device: DeviceInstance,
        n0: int,
        ic: int,
        oc: int,
        iv: Seq<Seq<char>>,
        ov: Seq<Seq<char>>,
    )
        requires
            old_c.wf(),
            device.wf(),
            n0 == old_c.node_count(),
            ic == iv.len(),
            oc == ov.len(),
            iv.no_duplicates(),
            ov.no_duplicates(),
            iv.to_set() == device.inputs(),
            ov.to_set() == device.outputs(),
            self.device_count() == old_c.device_count() + 1,
            forall|d: int|
                0 <= d < old_c.device_count() ==> #[trigger] self.id_spec(d) == old_c.id_spec(d),
            forall|d: int|
                0 <= d < old_c.device_count() ==> #[trigger] self.device_spec(d)
                    == old_c.device_spec(d),
            self.device_spec(old_c.device_count()) == device,
            forall|d: int|
                0 <= d < old_c.device_count() ==> #[trigger] old_c.id_spec(d) != self.id_spec(
                    old_c.device_count(),
                ),
            self.node_count() == n0 + ic + oc,
            forall|k: int| 0 <= k < n0 ==> self.nodes@[k] == old_c.nodes@[k],
            forall|j: int|
                0 <= j < ic ==> (#[trigger] self.nodes@[n0 + j]).device == old_c.device_count()
                    && self.nodes@[n0 + j].port@ == iv[j] && !self.nodes@[n0 + j].is_output
                    && self.nodes@[n0 + j].upstream is None,
            forall|j: int|
                0 <= j < oc ==> (#[trigger] self.nodes@[n0 + ic + j]).device
                    == old_c.device_count() && self.nodes@[n0 + ic + j].port@ == ov[j]
                    && self.nodes@[n0 + ic + j].is_output && self.nodes@[n0 + ic
                    + j].upstream is None,
            self.graph.wf(),
            self.graph.node_count() == self.node_count(),
            old_c.edges().len() <= self.edges().len(),
            forall|e: int|
                0 <= e < old_c.edges().len() ==> #[trigger] self.edges()[e] == old_c.edges()[e],
            forall|e: int|
                old_c.edges().len() <= e < self.edges().len() ==> n0 <= (
                #[trigger] self.edges()[e]).0 < n0 + ic && n0 + ic <= self.edges()[e].1 < n0 + ic
                    + oc && !self.nodes@[self.edges()[e].0 as int].is_output
                    && self.nodes@[self.edges()[e].1 as int].is_output && device.deps_of(
                    self.nodes@[self.edges()[e].1 as int].port@,
                ).contains(self.nodes@[self.edges()[e].0 as int].port@),
            forall|j: int, p: Seq<char>|
                0 <= j < oc && #[trigger] device.deps_of(ov[j]).contains(p) ==> exists|a: int|
                    n0 <= a < n0 + ic && (#[trigger] self.nodes@[a]).port@ == p
                        && self.edges().contains((a as usize, (n0 + ic + j) as usize)),
        ensures
            self.wf(),
            self.node_count() == old_c.node_count() + device.inputs().len()
                + device.outputs().len(),
            forall|k: int|
                old_c.node_count() <= k < self.node_count() ==> #[trigger] self.node_device(k)
                    == old_c.device_count() && !self.node_wired(k),
    {
        let dc = old_c.device_count();
        device.lemma_wf();
        iv.unique_seq_to_set();
        ov.unique_seq_to_set();
        assert(ic == device.inputs().len());
        assert(oc == device.outputs().len());
        assert forall|k: int|
            n0 <= k < n0 + ic implies (#[trigger] self.nodes@[k]).device == dc && self.nodes@[k].port@
            == iv[k - n0] && !self.nodes@[k].is_output && self.nodes@[k].upstream is None by {
            assert(self.nodes@[n0 + (k - n0)].port@ == iv[k - n0]);
        }
        assert forall|k: int|
            n0 + ic <= k < n0 + ic + oc implies (#[trigger] self.nodes@[k]).device == dc
            && self.nodes@[k].port@ == ov[k - n0 - ic] && self.nodes@[k].is_output
            && self.nodes@[k].upstream is None by {
            assert(self.nodes@[n0 + ic + (k - n0 - ic)].port@ == ov[k - n0 - ic]);
        }
        assert forall|k: int| 0 <= k < n0 implies #[trigger] self.node_device(k)
            == old_c.node_device(k) && self.node_port(k) == old_c.node_port(k)
            && self.node_is_output(k) == old_c.node_is_output(k) && self.node_wired(k)
            == old_c.node_wired(k) && self.nodes@[k].upstream == old_c.nodes@[k].upstream by {}
        assert(self.wf_devices()) by {
            assert forall|d: int|
                0 <= d < self.device_count() implies (#[trigger] self.device_spec(d)).wf() by {
                if d < dc {
                    assert(old_c.device_spec(d).wf());
                }
            }
        }
        assert(self.wf_ids()) by {
            assert forall|d1: int, d2: int|
                0 <= d1 < d2 < self.device_count() implies #[trigger] self.id_spec(d1)
                != #[trigger] self.id_spec(d2) by {
                if d2 < dc {
                    assert(old_c.id_spec(d1) != old_c.id_spec(d2));
                } else {
                    assert(old_c.id_spec(d1) != self.id_spec(dc));
                }
            }
        }
        assert(self.wf_nodes()) by {
            assert forall|k: int| 0 <= k < self.node_count() implies {
                &&& 0 <= #[trigger] self.node_device(k) < self.device_count()
                &&& (self.node_is_output(k) ==> self.device_spec(self.node_device(k)).outputs(
                ).contains(self.node_port(k)))
                &&& (!self.node_is_output(k) ==> self.device_spec(self.node_device(k)).inputs(
                ).contains(self.node_port(k)))
            } by {
                if k < n0 {
                    assert(0 <= old_c.node_device(k) < old_c.device_count());
                    assert(old_c.node_is_output(k) ==> old_c.device_spec(
                        old_c.node_device(k),
                    ).outputs().contains(old_c.node_port(k)));
                    assert(!old_c.node_is_output(k) ==> old_c.device_spec(
                        old_c.node_device(k),
                    ).inputs().contains(old_c.node_port(k)));
                } else if k < n0 + ic {
                    assert(self.nodes@[n0 + (k - n0)].port@ == iv[k - n0]);
                    assert(iv.contains(iv[k - n0]));
                    assert(iv.to_set().contains(iv[k - n0]));
                } else {
                    assert(self.nodes@[n0 + ic + (k - n0 - ic)].port@ == ov[k - n0 - ic]);
                    assert(ov.contains(ov[k - n0 - ic]));
                    assert(ov.to_set().contains(ov[k - n0 - ic]));
                }
            }
        }
        assert(self.wf_unique()) by {
            assert forall|k1: int, k2: int|
                0 <= k1 < k2 < self.node_count() implies !(#[trigger] self.node_device(k1)
                == #[trigger] self.node_device(k2) && self.node_port(k1) == self.node_port(
                k2,
            )) by {
                if k2 < n0 {
                    assert(!(old_c.node_device(k1) == old_c.node_device(k2) && old_c.node_port(k1)
                        == old_c.node_port(k2)));
                } else if k1 < n0 {
                    assert(0 <= old_c.node_device(k1) < dc);
                } else {
                    if self.node_port(k1) == self.node_port(k2) {
                        if k1 < n0 + ic && k2 < n0 + ic {
                            assert(iv[k1 - n0] == iv[k2 - n0]);
                        } else if k1 >= n0 + ic && k2 >= n0 + ic {
                            assert(ov[k1 - n0 - ic] == ov[k2 - n0 - ic]);
                        } else {
                            assert(iv.to_set().contains(iv[k1 - n0]));
                            assert(ov.to_set().contains(ov[k2 - n0 - ic]));
                            assert(device.inputs().contains(self.node_port(k1)));
                            assert(device.outputs().contains(self.node_port(k2)));
                            assert(false);
                        }
                    }
                }
            }
        }
        assert(self.wf_complete()) by {
            assert forall|d: int, p: Seq<char>| 0 <= d < self.device_count() implies {
                &&& (#[trigger] self.device_spec(d).inputs().contains(p) ==> self.has_node(
                    d,
                    p,
                    false,
                ))
                &&& (self.device_spec(d).outputs().contains(p) ==> self.has_node(d, p, true))
            } by {
                if d < dc {
                    if old_c.device_spec(d).inputs().contains(p) {
                        assert(old_c.has_node(d, p, false));
                        let k = choose|k: int| old_c.node_matches(k, d, p, false);
                        assert(self.node_matches(k, d, p, false));
                    }
                    if old_c.device_spec(d).outputs().contains(p) {
                        assert(old_c.has_node(d, p, true));
                        let k = choose|k: int| old_c.node_matches(k, d, p, true);
                        assert(self.node_matches(k, d, p, true));
                    }
                } else {
                    if device.inputs().contains(p) {
                        assert(iv.to_set().contains(p));
                        let j = choose|j: int| 0 <= j < iv.len() && iv[j] == p;
                        assert(self.nodes@[n0 + j].port@ == iv[j]);
                        assert(self.node_matches(n0 + j, d, p, false));
                    }
                    if device.outputs().contains(p) {
                        assert(ov.to_set().contains(p));
                        let j = choose|j: int| 0 <= j < ov.len() && ov[j] == p;
                        assert(self.nodes@[n0 + ic + j].port@ == ov[j]);
                        assert(self.node_matches(n0 + ic + j, d, p, true));
                    }
                }
            }
        }
        assert(self.wf_upstream()) by {
            assert forall|k: int|
                0 <= k < self.node_count() && !self.node_is_output(k)
                    && #[trigger] self.node_wired(k) implies {
                &&& 0 <= self.node_upstream(k) < self.node_count()
                &&& self.node_is_output(self.node_upstream(k))
                &&& self.edges().contains((self.node_upstream(k) as usize, k as usize))
            } by {
                assert(k < n0);
                assert(old_c.node_wired(k));
                assert(old_c.edges().contains((old_c.node_upstream(k) as usize, k as usize)));
                let e = choose|e: int|
                    0 <= e < old_c.edges().len() && old_c.edges()[e] == (
                    old_c.node_upstream(k) as usize,
                    k as usize,
                    );
                assert(self.edges()[e] == (self.node_upstream(k) as usize, k as usize));
            }
        }
        assert(self.wf_edges()) by {
            assert forall|e: int| 0 <= e < self.edges().len() implies {
                let a = (#[trigger] self.edges()[e]).0 as int;
                let b = self.edges()[e].1 as int;
                &&& if self.node_is_output(b) {
                    &&& self.node_device(a) == self.node_device(b)
                    &&& !self.node_is_output(a)
                    &&& self.device_spec(self.node_device(b)).deps_of(
                        self.node_port(b),
                    ).contains(self.node_port(a))
                } else {
                    &&& self.node_is_output(a)
                    &&& self.nodes@[b].upstream == Some(self.edges()[e].0)
                }
            } by {
                let a = self.edges()[e].0 as int;
                let b = self.edges()[e].1 as int;
                if e < old_c.edges().len() {
                    assert(self.edges()[e] == old_c.edges()[e]);
                    assert(0 <= a < n0 && 0 <= b < n0) by {
                        assert((old_c.edges()[e]).0 < old_c.node_count());
                        assert((old_c.edges()[e]).1 < old_c.node_count());
                    }
                    if old_c.node_is_output(b) {
                        assert(old_c.node_device(a) == old_c.node_device(b));
                        assert(old_c.device_spec(old_c.node_device(b)).deps_of(
                            old_c.node_port(b),
                        ).contains(old_c.node_port(a)));
                        assert(0 <= old_c.node_device(b) < dc);
                    } else {
                        assert(old_c.nodes@[b].upstream == Some(old_c.edges()[e].0));
                    }
                } else {
                    assert(self.node_is_output(b));
                    assert(self.node_device(a) == dc && self.node_device(b) == dc);
                    assert(self.device_spec(dc) == device);
                }
            }
        }
        assert(self.wf_dep_edges()) by {
            assert forall|k: int, p: Seq<char>|
                0 <= k < self.node_count() && #[trigger] self.node_is_output(k)
                    && #[trigger] self.device_spec(self.node_device(k)).deps_of(
                    self.node_port(k),
                ).contains(p) implies exists|a: int|
                self.node_matches(a, self.node_device(k), p, false) && self.edges().contains(
                    (a as usize, k as usize),
                ) by {
                if k < n0 {
                    assert(old_c.device_spec(old_c.node_device(k)).deps_of(
                        old_c.node_port(k),
                    ).contains(p));
                    let a = choose|a: int|
                        old_c.node_matches(a, old_c.node_device(k), p, false)
                            && old_c.edges().contains((a as usize, k as usize));
                    let e = choose|e: int|
                        0 <= e < old_c.edges().len() && old_c.edges()[e] == (a as usize, k as usize);
                    assert(self.edges()[e] == (a as usize, k as usize));
                    assert(self.node_matches(a, self.node_device(k), p, false));
                    assert(self.edges().contains((a as usize, k as usize)));
                } else {
                    assert(n0 + ic <= k < n0 + ic + oc) by {
                        if k < n0 + ic {
                            assert(!self.nodes@[n0 + (k - n0)].is_output);
                        }
                    }
                    let j = k - n0 - ic;
                    assert(self.nodes@[n0 + ic + j].port@ == ov[j]);
                    assert(device.deps_of(ov[j]).contains(p));
                    let a = choose|a: int|
                        n0 <= a < n0 + ic && (#[trigger] self.nodes@[a]).port@ == p
                            && self.edges().contains((a as usize, (n0 + ic + j) as usize));
                    assert(self.node_matches(a, dc, p, false));
                }
            }
        }
    }

    /// Register a device under a fresh identifier. One graph node is
    /// created per declared port, and one internal edge per declared
    /// dependency of each output port; these cannot close a cycle, because
    /// the new device has no other edges yet. Fails exactly when the
    /// identifier is already registered, leaving the controller unchanged.
    #[verifier::rlimit(100)]
    pub fn add_device(&mut self, id: DeviceIdentifier, device: DeviceInstance) -> (r: Result<
        (),
        ControllerError,
    >)
        requires
            old(self).wf(),
            device.wf(),
        ensures
            final(self).wf(),
            r is Ok <==> (forall|d: int|
                0 <= d < old(self).device_count() ==> #[trigger] old(self).id_spec(d) != id@),
            r is Err ==> *final(self) == *old(self) && r == Err::<(), ControllerError>(
                ControllerError::DuplicateDevice,
            ),
            r is Ok ==> final(self).device_count() == old(self).device_count() + 1,
            r is Ok ==> final(self).id_spec(old(self).device_count()) == id@,
            r is Ok ==> final(self).device_spec(old(self).device_count()) == device,
            r is Ok ==> forall|d: int|
                0 <= d < old(self).device_count() ==> #[trigger] final(self).id_spec(d) == old(
                    self,
                ).id_spec(d),
            r is Ok ==> forall|d: int|
                0 <= d < old(self).device_count() ==> #[trigger] final(self).device_spec(d)
                    == old(self).device_spec(d),
            r is Ok ==> final(self).node_count() == old(self).node_count()
                + device.inputs().len() + device.outputs().len(),
            r is Ok ==> forall|k: int|
                0 <= k < old(self).node_count() ==> #[trigger] final(self).node_device(k) == old(
                    self,
                ).node_device(k) && final(self).node_port(k) == old(self).node_port(k) && final(self).node_is_output(k) == old(self).node_is_output(k) && final(self).node_wired(k)
                    == old(self).node_wired(k) && (old(self).node_wired(k) ==> final(self).node_upstream(k) == old(self).node_upstream(k)),
            r is Ok ==> forall|k: int|
                old(self).node_count() <= k < final(self).node_count()
                    ==> #[trigger] final(self).node_device(k) == old(self).device_count()
                    && !final(self).node_wired(k),
            r is Ok ==> old(self).edges().len() <= final(self).edges().len() && forall|e: int|
                0 <= e < old(self).edges().len() ==> #[trigger] final(self).edges()[e] == old(
                    self,
                ).edges()[e],
            r is Ok ==> forall|e: int|
                old(self).edges().len() <= e < final(self).edges().len()
                    ==> (#[trigger] final(self).edges()[e]).0 >= old(self).node_count() && final(self).edges()[e].1 >= old(self).node_count(),
    {
        if self.find_device(&id).is_some() {
            return Err(ControllerError::DuplicateDevice);
        }
        proof {
            device.lemma_wf();
        }
        let dc = self.devices.len();
        let n0 = self.nodes.len();
        let ghost e0 = self.graph.edge_seq();
        let ghost old_nodes = self.nodes@;
        let in_ports = device.get_input_ports();
        let ghost iv = crate::device::names_view(in_ports@);
        let ic = in_ports.len();
        let mut i: usize = 0;
        while i < ic
            invariant
                self.devices == old(self).devices,
                old(self).wf(),
                device.wf(),
                dc == self.device_count(),
                n0 == old(self).node_count(),
                e0 == old(self).edges(),
                old_nodes == old(self).nodes@,
                iv == crate::device::names_view(in_ports@),
                iv.to_set() == device.inputs(),
                iv.no_duplicates(),
                ic == iv.len(),
                i <= ic,
                self.nodes@.len() == n0 + i,
                self.graph.wf(),
                self.graph.node_count() == n0 + i,
                self.graph.edge_seq() == e0,
                forall|k: int| 0 <= k < n0 ==> self.nodes@[k] == old_nodes[k],
                forall|j: int|
                    0 <= j < i ==> (#[trigger] self.nodes@[n0 + j]).device == dc && self.nodes@[n0
                        + j].port@ == iv[j] && !self.nodes@[n0 + j].is_output && self.nodes@[n0
                        + j].upstream is None,
                forall|x: int| n0 <= x < n0 + i ==> #[trigger] self.graph.position(x) == x,
                forall|x: int|
                    0 <= x < n0 ==> #[trigger] self.graph.position(x) == old(
                        self,
                    ).graph.position(x),
            decreases ic - i,
        {
            let ghost gh = self.graph;
            let node_id = self.graph.add_node();
            self.nodes.push(
                PortNode { device: dc, port: in_ports[i].clone(), is_output: false, upstream: None },
            );
            proof {
                assert(self.nodes@[n0 + i].port@ == iv[i as int]);
                assert forall|x: int|
                    n0 <= x < n0 + i + 1 implies #[trigger] self.graph.position(x) == x by {
                    if x < n0 + i {
                        assert(gh.position(x) == x);
                        assert(self.graph.pos_seq()[x] == gh.pos_seq()[x]);
                    } else {
                        assert(self.graph.pos_seq()[x] == n0 + i);
                    }
                }
                assert forall|x: int|
                    0 <= x < n0 implies #[trigger] self.graph.position(x) == old(
                    self,
                ).graph.position(x) by {
                    assert(gh.position(x) == old(self).graph.position(x));
                    assert(self.graph.pos_seq()[x] == gh.pos_seq()[x]);
                }
            }
            i += 1;
        }
        let out_ports = device.get_output_ports();
        let ghost ov = crate::device::names_view(out_ports@);
        let oc = out_ports.len();
        let mut o: usize = 0;
        while o < oc
            invariant
                self.devices == old(self).devices,
                old(self).wf(),
                device.wf(),
                dc == self.device_count(),
                n0 == old(self).node_count(),
                e0 == old(self).edges(),
                old_nodes == old(self).nodes@,
                iv.to_set() == device.inputs(),
                iv.no_duplicates(),
                ic == iv.len(),
                iv == crate::device::names_view(in_ports@),
                ic == in_ports@.len(),
                ov == crate::device::names_view(out_ports@),
                ov.to_set() == device.outputs(),
                ov.no_duplicates(),
                oc == ov.len(),
                o <= oc,
                self.nodes@.len() == n0 + ic + o,
                self.graph.wf(),
                self.graph.node_count() == n0 + ic + o,
                forall|k: int| 0 <= k < n0 ==> self.nodes@[k] == old_nodes[k],
                forall|j: int|
                    0 <= j < ic ==> (#[trigger] self.nodes@[n0 + j]).device == dc && self.nodes@[n0
                        + j].port@ == iv[j] && !self.nodes@[n0 + j].is_output && self.nodes@[n0
                        + j].upstream is None,
                forall|j: int|
                    0 <= j < o ==> (#[trigger] self.nodes@[n0 + ic + j]).device == dc
                        && self.nodes@[n0 + ic + j].port@ == ov[j] && self.nodes@[n0 + ic
                        + j].is_output && self.nodes@[n0 + ic + j].upstream is None,
                forall|x: int| n0 <= x < n0 + ic + o ==> #[trigger] self.graph.position(x) == x,
                forall|x: int|
                    0 <= x < n0 ==> #[trigger] self.graph.position(x) == old(
                        self,
                    ).graph.position(x),
                e0.len() <= self.graph.edge_seq().len(),
                forall|e: int|
                    0 <= e < e0.len() ==> #[trigger] self.graph.edge_seq()[e] == e0[e],
                forall|e: int|
                    e0.len() <= e < self.graph.edge_seq().len() ==> n0 <= (
                    #[trigger] self.graph.edge_seq()[e]).0 < n0 + ic && n0 + ic
                        <= self.graph.edge_seq()[e].1 < n0 + ic + o && !self.nodes@[self.graph.edge_seq()[e].0 as int].is_output
                        && self.nodes@[self.graph.edge_seq()[e].1 as int].is_output
                        && device.deps_of(
                        self.nodes@[self.graph.edge_seq()[e].1 as int].port@,
                    ).contains(self.nodes@[self.graph.edge_seq()[e].0 as int].port@),
                forall|j: int, p: Seq<char>|
                    0 <= j < o && #[trigger] device.deps_of(ov[j]).contains(p) ==> exists|a: int|
                        n0 <= a < n0 + ic && (#[trigger] self.nodes@[a]).port@ == p
                            && self.graph.edge_seq().contains((a as usize, (n0 + ic + j) as usize)),
            decreases oc - o,
        {
            let ghost gh = self.graph;
            let ghost nodes_h = self.nodes@;
            let out_node = self.graph.add_node();
            self.nodes.push(
                PortNode { device: dc, port: out_ports[o].clone(), is_output: true, upstream: None },
            );
            proof {
                assert(self.nodes@[n0 + ic + o].port@ == ov[o as int]);
                assert forall|x: int|
                    n0 <= x < n0 + ic + o + 1 implies #[trigger] self.graph.position(x) == x by {
                    if x < n0 + ic + o {
                        assert(gh.position(x) == x);
                        assert(self.graph.pos_seq()[x] == gh.pos_seq()[x]);
                    } else {
                        assert(self.graph.pos_seq()[x] == n0 + ic + o);
                    }
                }
                assert forall|x: int|
                    0 <= x < n0 implies #[trigger] self.graph.position(x) == old(
                    self,
                ).graph.position(x) by {
                    assert(gh.position(x) == old(self).graph.position(x));
                    assert(self.graph.pos_seq()[x] == gh.pos_seq()[x]);
                }
                assert forall|j: int, p: Seq<char>|
                    0 <= j < o && #[trigger] device.deps_of(ov[j]).contains(p) implies exists|
                    a: int,
                |
                    n0 <= a < n0 + ic && (#[trigger] self.nodes@[a]).port@ == p
                        && self.graph.edge_seq().contains((a as usize, (n0 + ic + j) as usize)) by {
                    let a = choose|a: int|
                        n0 <= a < n0 + ic && (#[trigger] nodes_h[a]).port@ == p
                            && gh.edge_seq().contains((a as usize, (n0 + ic + j) as usize));
                    assert(self.nodes@[a] == nodes_h[a]);
                    Self::lemma_contains_prefix(
                        gh.edge_seq(),
                        self.graph.edge_seq(),
                        (a as usize, (n0 + ic + j) as usize),
                    );
                }
            }
            let deps = match device.get_output_dependencies(&out_ports[o]) {
                Ok(d) => d,
                Err(_) => {
                    proof {
                        assert(ov.contains(ov[o as int]));
                        assert(device.outputs().contains(out_ports@[o as int]@));
                        assert(false);
                    }
                    vstd::pervasive::unreached()
                },
            };
            let ghost dv = crate::device::names_view(deps@);
            let mut t: usize = 0;
            while t < deps.len()
                invariant
                    self.devices == old(self).devices,
                    old(self).wf(),
                    device.wf(),
                    dc == self.device_count(),
                    n0 == old(self).node_count(),
                    e0 == old(self).edges(),
                    old_nodes == old(self).nodes@,
                    out_node == n0 + ic + o,
                    o < oc,
                    oc == ov.len(),
                    ov.to_set() == device.outputs(),
                    ov.no_duplicates(),
                    iv == crate::device::names_view(in_ports@),
                    ic == in_ports@.len(),
                    self.nodes@.len() == n0 + ic + o + 1,
                    self.graph.wf(),
                    self.graph.node_count() == n0 + ic + o + 1,
                    ic == iv.len(),
                    dv == crate::device::names_view(deps@),
                    dv.to_set() == device.deps_of(ov[o as int]),
                    dv.no_duplicates(),
                    t <= deps@.len(),
                    iv.to_set() == device.inputs(),
                    iv.no_duplicates(),
                    forall|k: int| 0 <= k < n0 ==> self.nodes@[k] == old_nodes[k],
                    forall|j: int|
                        0 <= j < ic ==> (#[trigger] self.nodes@[n0 + j]).device == dc
                            && self.nodes@[n0 + j].port@ == iv[j] && !self.nodes@[n0
                            + j].is_output && self.nodes@[n0 + j].upstream is None,
                    forall|j: int|
                        0 <= j <= o ==> (#[trigger] self.nodes@[n0 + ic + j]).device == dc
                            && self.nodes@[n0 + ic + j].port@ == ov[j] && self.nodes@[n0 + ic
                            + j].is_output && self.nodes@[n0 + ic + j].upstream is None,
                    forall|x: int|
                        n0 <= x < n0 + ic + o + 1 ==> #[trigger] self.graph.position(x) == x,
                    forall|x: int|
                        0 <= x < n0 ==> #[trigger] self.graph.position(x) == old(
                            self,
                        ).graph.position(x),
                    e0.len() <= self.graph.edge_seq().len(),
                    forall|e: int|
                        0 <= e < e0.len() ==> #[trigger] self.graph.edge_seq()[e] == e0[e],
                    forall|e: int|
                        e0.len() <= e < self.graph.edge_seq().len() ==> n0 <= (
                        #[trigger] self.graph.edge_seq()[e]).0 < n0 + ic && n0 + ic
                            <= self.graph.edge_seq()[e].1 < n0 + ic + o + 1
                            && !self.nodes@[self.graph.edge_seq()[e].0 as int].is_output
                            && self.nodes@[self.graph.edge_seq()[e].1 as int].is_output
                            && device.deps_of(
                            self.nodes@[self.graph.edge_seq()[e].1 as int].port@,
                        ).contains(self.nodes@[self.graph.edge_seq()[e].0 as int].port@),
                    forall|j: int, p: Seq<char>|
                        0 <= j < o && #[trigger] device.deps_of(ov[j]).contains(p) ==> exists|
                            a: int,
                        |
                            n0 <= a < n0 + ic && (#[trigger] self.nodes@[a]).port@ == p
                                && self.graph.edge_seq().contains(
                                (a as usize, (n0 + ic + j) as usize),
                            ),
                    forall|tt: int|
                        0 <= tt < t ==> exists|a: int|
                            n0 <= a < n0 + ic && (#[trigger] self.nodes@[a]).port@ == #[trigger] dv[tt]
                                && self.graph.edge_seq().contains((a as usize, out_node as usize)),
                    forall|e: int|
                        e0.len() <= e < self.graph.edge_seq().len() && (
                        #[trigger] self.graph.edge_seq()[e]).1 == out_node ==> exists|tt: int|
                            0 <= tt < t && self.nodes@[self.graph.edge_seq()[e].0 as int].port@
                                == #[trigger] dv[tt],
                decreases deps@.len() - t,
            {
                proof {
                    device.lemma_wf();
                    assert(ov.contains(ov[o as int]));
                    assert(device.outputs().contains(ov[o as int]));
                    assert(dv.contains(dv[t as int]));
                    assert(device.deps_of(ov[o as int]).contains(dv[t as int]));
                    assert(device.inputs().contains(dv[t as int]));
                    assert(iv.to_set().contains(dv[t as int]));
                    assert(iv.contains(dv[t as int]));
                }
                let mut u: usize = 0;
                let mut src: usize = 0;
                let mut found: bool = false;
                while u < ic && !found
                    invariant
                        ic == iv.len(),
                        ic == in_ports@.len(),
                        iv == crate::device::names_view(in_ports@),
                        u <= ic,
                        t < deps@.len(),
                        dv == crate::device::names_view(deps@),
                        iv.contains(dv[t as int]),
                        !found ==> forall|j: int| 0 <= j < u ==> iv[j] != dv[t as int],
                        found ==> src < ic && iv[src as int] == dv[t as int],
                    decreases ic - u, (if found { 0int } else { 1int }),
                {
                    if in_ports[u] == deps[t] {
                        found = true;
                        src = u;
                        proof {
                            assert(iv[u as int] == dv[t as int]);
                        }
                    } else {
                        u += 1;
                    }
                }
                if !found {
                    proof {
                        assert(iv.contains(dv[t as int]));
                        let j = choose|j: int| 0 <= j < iv.len() && iv[j] == dv[t as int];
                        assert(false);
                    }
                }
                let a = n0 + src;
                proof {
                    assert(self.nodes@[a as int].port@ == dv[t as int]);
                    assert(self.graph.position(a as int) == a);
                    assert(self.graph.position(out_node as int) == out_node);
                    assert(!self.graph.edge_seq().contains((a, out_node))) by {
                        if self.graph.edge_seq().contains((a, out_node)) {
                            let e = choose|e: int|
                                0 <= e < self.graph.edge_seq().len() && self.graph.edge_seq()[e]
                                    == (a, out_node);
                            if e < e0.len() {
                                assert(e0[e] == old(self).edges()[e]);
                                assert(old(self).graph.wf());
                                assert((old(self).edges()[e]).1 < n0);
                                assert(false);
                            } else {
                                assert((self.graph.edge_seq()[e]).1 == out_node);
                                let tt = choose|tt: int|
                                    0 <= tt < t && self.nodes@[self.graph.edge_seq()[e].0 as int].port@
                                        == #[trigger] dv[tt];
                                assert(self.nodes@[a as int].port@ == dv[tt]);
                                assert(self.nodes@[a as int].port@ == dv[t as int]);
                                assert(dv[tt] == dv[t as int]);
                                assert(false);
                            }
                        }
                    }
                }
                let ghost edges_before = self.graph.edge_seq();
                let ghost ghd = self.graph;
                let ghost nodes_d = self.nodes@;
                self.graph.add_edge_ordered(a, out_node);
                proof {
                    assert(self.graph.pos_seq() == ghd.pos_seq());
                    assert forall|j: int, p: Seq<char>|
                        0 <= j < o && #[trigger] device.deps_of(ov[j]).contains(p) implies exists|
                        a2: int,
                    |
                        n0 <= a2 < n0 + ic && (#[trigger] self.nodes@[a2]).port@ == p
                            && self.graph.edge_seq().contains(
                            (a2 as usize, (n0 + ic + j) as usize),
                        ) by {
                        let a2 = choose|a2: int|
                            n0 <= a2 < n0 + ic && (#[trigger] nodes_d[a2]).port@ == p
                                && ghd.edge_seq().contains((a2 as usize, (n0 + ic + j) as usize));
                        assert(self.nodes@[a2] == nodes_d[a2]);
                        Self::lemma_contains_prefix(
                            ghd.edge_seq(),
                            self.graph.edge_seq(),
                            (a2 as usize, (n0 + ic + j) as usize),
                        );
                    }
                    assert forall|x: int|
                        n0 <= x < n0 + ic + o + 1 implies #[trigger] self.graph.position(x)
                        == x by {
                        assert(ghd.position(x) == x);
                    }
                    assert forall|x: int|
                        0 <= x < n0 implies #[trigger] self.graph.position(x) == old(
                        self,
                    ).graph.position(x) by {
                        assert(ghd.position(x) == old(self).graph.position(x));
                    }
                    assert forall|tt: int| 0 <= tt < t + 1 implies exists|a2: int|
                        n0 <= a2 < n0 + ic && (#[trigger] self.nodes@[a2]).port@
                            == #[trigger] dv[tt] && self.graph.edge_seq().contains(
                            (a2 as usize, out_node as usize),
                        ) by {
                        if tt < t {
                            let a2 = choose|a2: int|
                                n0 <= a2 < n0 + ic && (#[trigger] self.nodes@[a2]).port@ == dv[tt]
                                    && edges_before.contains((a2 as usize, out_node as usize));
                            let e = choose|e: int|
                                0 <= e < edges_before.len() && edges_before[e] == (
                                a2 as usize,
                                out_node as usize,
                                );
                            assert(self.graph.edge_seq()[e] == (a2 as usize, out_node as usize));
                            assert(self.graph.edge_seq().contains(
                                (a2 as usize, out_node as usize),
                            ));
                        } else {
                            assert(self.graph.edge_seq()[self.graph.edge_seq().len() - 1] == (
                                a,
                                out_node,
                            ));
                            assert(self.graph.edge_seq().contains((a, out_node)));
                            assert(n0 <= a < n0 + ic);
                            assert(self.nodes@[a as int].port@ == dv[tt]);
                        }
                    }
                    assert forall|e: int|
                        e0.len() <= e < self.graph.edge_seq().len() && (
                        #[trigger] self.graph.edge_seq()[e]).1 == out_node implies exists|tt: int|
                        0 <= tt < t + 1 && self.nodes@[self.graph.edge_seq()[e].0 as int].port@
                            == #[trigger] dv[tt] by {
                        if e < self.graph.edge_seq().len() - 1 {
                            assert(self.graph.edge_seq()[e] == edges_before[e]);
                            let tt = choose|tt: int|
                                0 <= tt < t && self.nodes@[edges_before[e].0 as int].port@
                                    == #[trigger] dv[tt];
                            assert(self.nodes@[self.graph.edge_seq()[e].0 as int].port@ == dv[tt]);
                        } else {
                            assert(self.graph.edge_seq()[e] == (a, out_node));
                            assert(self.nodes@[a as int].port@ == dv[t as int]);
                        }
                    }
                }
                t += 1;
            }
            proof {
                assert forall|j: int, p: Seq<char>|
                    0 <= j < o + 1 && #[trigger] device.deps_of(ov[j]).contains(p) implies exists|
                    a: int,
                |
                    n0 <= a < n0 + ic && (#[trigger] self.nodes@[a]).port@ == p
                        && self.graph.edge_seq().contains((a as usize, (n0 + ic + j) as usize)) by {
                    if j == o {
                        assert(dv.to_set().contains(p));
                        assert(dv.contains(p));
                        let tt = choose|tt: int| 0 <= tt < dv.len() && dv[tt] == p;
                        assert(exists|a: int|
                            n0 <= a < n0 + ic && (#[trigger] self.nodes@[a]).port@ == dv[tt]
                                && self.graph.edge_seq().contains(
                                (a as usize, ((n0 + ic + o) as usize) as usize),
                            ));
                    }
                }
            }
            o += 1;
        }
        self.devices.push((id, device));
        proof {
            self.lemma_registration_wf(*old(self), device, n0 as int, ic as int, oc as int, iv, ov);
        }
        Ok(())
    }

    /// Node `k` stands for the port named `port` on the device whose
    /// identifier is `dev`.
    pub open spec fn port_node_matches(&self, k: int, dev: Seq<char>, port: Seq<char>) -> bool {
        &&& 0 <= k < self.node_count()
        &&& 0 <= self.node_device(k) < self.device_count()
        &&& self.id_spec(self.node_device(k)) == dev
        &&& self.node_port(k) == port
    }

    /// Some node stands for the port named `port` on the device named `dev`.
    pub open spec fn has_port(&self, dev: Seq<char>, port: Seq<char>) -> bool {
        exists|k: int| self.port_node_matches(k, dev, port)
    }

    /// The node standing for the port named `port` on the device named
    /// `dev`.
    pub open spec fn port_node(&self, dev: Seq<char>, port: Seq<char>) -> int {
        choose|k: int| self.port_node_matches(k, dev, port)
    }

    /// Under the invariant, at most one node stands for a named port.
    proof fn lemma_port_node_unique(&self, dev: Seq<char>, port: Seq<char>, k1: int, k2: int)
        requires
            self.wf(),
            self.port_node_matches(k1, dev, port),
            self.port_node_matches(k2, dev, port),
        ensures
            k1 == k2,
    {
        if k1 != k2 {
            if self.node_device(k1) != self.node_device(k2) {
                let d1 = self.node_device(k1);
                let d2 = self.node_device(k2);
                if d1 < d2 {
                    assert(self.id_spec(d1) != self.id_spec(d2));
                } else {
                    assert(self.id_spec(d2) != self.id_spec(d1));
                }
            } else {
                if k1 < k2 {
                    assert(!(self.node_device(k1) == self.node_device(k2) && self.node_port(k1)
                        == self.node_port(k2)));
                } else {
                    assert(!(self.node_device(k2) == self.node_device(k1) && self.node_port(k2)
                        == self.node_port(k1)));
                }
            }
        }
    }

    /// The dependency graph is acyclic: no path of at least one edge leads
    /// from a node back to itself, through internal and external edges
    /// alike.
    pub proof fn lemma_acyclic(&self)
        requires
            self.wf(),
        ensures
            forall|p: Seq<usize>|
                is_path(self.edges(), p) && p.len() >= 2 ==> p.first() != p.last(),
    {
        self.graph.lemma_acyclic();
    }

    /// The supplied map that the walk up to evaluation position `i` has
    /// handed device `d`: each input port whose node was already visited,
    /// mapped to its resolved value.
    pub open spec fn walk_supplied(&self, d: int, i: int) -> Map<Seq<char>, u32> {
        Map::new(
            |p: Seq<char>|
                self.device_spec(d).inputs().contains(p) && self.order_position(
                    self.node_index_of(d, p, false),
                ) < i,
            |p: Seq<char>| self.resolved_value(self.node_index_of(d, p, false)),
        )
    }

    /// The supplied map a full tick hands device `d`: every input port
    /// mapped to the resolved value of its node.
    pub open spec fn tick_supplied(&self, d: int) -> Map<Seq<char>, u32> {
        Map::new(
            |p: Seq<char>| self.device_spec(d).inputs().contains(p),
            |p: Seq<char>| self.resolved_value(self.node_index_of(d, p, false)),
        )
    }

    /// The values of the declared dependencies of output `out` on device
    /// `d`, read off a map of already-resolved node values.
    pub open spec fn deps_vals(&self, prev: Map<int, u32>, d: int, out: Seq<char>) -> Map<Seq<char>, u32> {
        Map::new(
            |p: Seq<char>| self.device_spec(d).deps_of(out).contains(p),
            |p: Seq<char>| prev[self.node_index_of(d, p, false)],
        )
    }

    /// The value of node `k`, given the values of all nodes resolved before
    /// it: an output port's value comes from its device, an input port's
    /// from its wired upstream output.
    pub open spec fn node_value_in(&self, prev: Map<int, u32>, k: int) -> u32 {
        if self.node_is_output(k) {
            (self.device_spec(self.node_device(k)).value_of(
                self.deps_vals(prev, self.node_device(k), self.node_port(k)),
                self.node_port(k),
            ))->0
        } else {
            prev[self.node_upstream(k)]
        }
    }

    /// The node values after walking the first `i` positions of the
    /// evaluation order.
    pub open spec fn eval_upto(&self, i: nat) -> Map<int, u32>
        decreases i,
    {
        if i == 0 {
            Map::empty()
        } else {
            let prev = self.eval_upto((i - 1) as nat);
            let k = self.eval_order()[i - 1] as int;
            prev.insert(k, self.node_value_in(prev, k))
        }
    }

    /// The value every port resolves to in one tick of this circuit,
    /// meaningful when the controller is well-formed and every input port
    /// is wired.
    pub open spec fn resolved_value(&self, k: int) -> u32 {
        self.eval_upto(self.node_count() as nat)[k]
    }

    /// Every input port is wired and no device holds per-tick values left
    /// over from a failed tick, so a tick will go through.
    pub open spec fn all_ready(&self) -> bool {
        &&& forall|k: int|
            0 <= k < self.node_count() && !self.node_is_output(k) ==> #[trigger] self.node_wired(
                k,
            )
        &&& forall|d: int|
            0 <= d < self.device_count() ==> #[trigger] self.device_spec(d).supplied() == Map::<
                Seq<char>,
                u32,
            >::empty()
    }

    /// The walk's value maps hold exactly the nodes at positions before
    /// `i`.
    proof fn lemma_eval_dom(&self, i: nat)
        requires
            self.wf(),
            i <= self.node_count(),
        ensures
            forall|k: int|
                #[trigger] self.eval_upto(i).dom().contains(k) <==> (0 <= k < self.node_count()
                    && self.order_position(k) < i),
        decreases i,
    {
        if i > 0 {
            self.lemma_eval_dom((i - 1) as nat);
            let kk = self.eval_order()[i - 1] as int;
            assert(self.order_position(kk) == i - 1);
            assert forall|k: int| #[trigger] self.eval_upto(i).dom().contains(k) implies (0 <= k
                < self.node_count() && self.order_position(k) < i) by {
                if k != kk {
                    assert(self.eval_upto((i - 1) as nat).dom().contains(k));
                }
            }
            assert forall|k: int|
                (0 <= k < self.node_count() && self.order_position(k) < i)
                implies #[trigger] self.eval_upto(i).dom().contains(k) by {
                if k != kk {
                    assert(self.order_position(k) < i - 1 || self.order_position(k) == i - 1);
                    if self.order_position(k) == i - 1 {
                        assert(self.eval_order()[self.order_position(k)] == k);
                        assert(k == kk);
                    }
                    assert(self.eval_upto((i - 1) as nat).dom().contains(k));
                }
            }
        }
    }

    /// Once a node's value is set at its position, later walk steps keep
    /// it; so every prefix map agrees with the full resolution.
    proof fn lemma_eval_stable(&self, i: nat)
        requires
            self.wf(),
            i <= self.node_count(),
        ensures
            forall|k: int|
                0 <= k < self.node_count() && self.order_position(k) < i
                    ==> #[trigger] self.eval_upto(i)[k] == self.resolved_value(k),
        decreases self.node_count() - i,
    {
        if i == self.node_count() {
        } else {
            self.lemma_eval_stable((i + 1) as nat);
            self.lemma_eval_dom(i);
            let kk = self.eval_order()[i as int] as int;
            assert(self.order_position(kk) == i);
            assert forall|k: int|
                0 <= k < self.node_count() && self.order_position(k) < i
                    implies #[trigger] self.eval_upto(i)[k] == self.resolved_value(k) by {
                assert(k != kk);
                assert(self.eval_upto((i + 1) as nat)[k] == self.eval_upto(i)[k]);
                assert(self.eval_upto((i + 1) as nat)[k] == self.resolved_value(k));
            }
        }
    }

    /// Any two nodes for the same port of the same device are the same
    /// node.
    proof fn lemma_node_unique(&self, k1: int, k2: int)
        requires
            self.wf(),
            0 <= k1 < self.node_count(),
            0 <= k2 < self.node_count(),
            self.node_device(k1) == self.node_device(k2),
            self.node_port(k1) == self.node_port(k2),
        ensures
            k1 == k2,
    {
        if k1 < k2 {
            assert(!(self.node_device(k1) == self.node_device(k2) && self.node_port(k1)
                == self.node_port(k2)));
        } else if k2 < k1 {
            assert(!(self.node_device(k2) == self.node_device(k1) && self.node_port(k2)
                == self.node_port(k1)));
        }
    }

    /// An output node's value is determined by any supplied map that covers
    /// its walked dependencies with their resolved values.
    proof fn lemma_output_value(&self, k: int, u: Map<Seq<char>, u32>)
        requires
            self.wf(),
            0 <= k < self.node_count(),
            self.node_is_output(k),
            forall|p: Seq<char>|
                #[trigger] self.device_spec(self.node_device(k)).deps_of(
                    self.node_port(k),
                ).contains(p) ==> u.dom().contains(p) && u[p] == self.resolved_value(
                    self.node_index_of(self.node_device(k), p, false),
                ),
        ensures
            self.device_spec(self.node_device(k)).value_of(u, self.node_port(k)) == Some(
                self.resolved_value(k),
            ),
    {
        let d = self.node_device(k);
        let port = self.node_port(k);
        let i = self.order_position(k);
        assert(self.eval_order()[i] == k as usize);
        self.lemma_eval_dom(i as nat);
        self.lemma_eval_stable(i as nat);
        self.lemma_eval_stable((i + 1) as nat);
        let prev = self.eval_upto(i as nat);
        let m1 = self.deps_vals(prev, d, port);
        assert(self.eval_upto((i + 1) as nat)[k] == self.node_value_in(prev, k));
        assert(self.resolved_value(k) == self.eval_upto((i + 1) as nat)[k]);
        assert forall|p: Seq<char>|
            self.device_spec(d).deps_of(port).contains(p) implies #[trigger] m1.dom().contains(p)
            && m1[p] == u[p] by {
            assert(self.node_is_output(k));
            assert(self.device_spec(self.node_device(k)).deps_of(self.node_port(k)).contains(p));
            let a = choose|a: int|
                self.node_matches(a, self.node_device(k), p, false) && self.edges().contains(
                    (a as usize, k as usize),
                );
            let e = choose|e: int|
                0 <= e < self.edges().len() && self.edges()[e] == (a as usize, k as usize);
            assert(self.edges()[e].0 == a as usize && self.edges()[e].1 == k as usize);
            assert(self.order_position(a) < self.order_position(k));
            let a2 = self.node_index_of(d, p, false);
            assert(self.node_matches(a2, d, p, false));
            self.lemma_node_unique(a, a2);
            assert(prev.dom().contains(a));
            assert(prev[a] == self.resolved_value(a));
            assert(m1.dom().contains(p));
            assert(m1[p] == prev[a2]);
            assert(u[p] == self.resolved_value(a2));
        }
        assert(m1.submap_of(u));
        self.device_spec(d).lemma_value_determined(m1, u, port);
        assert(self.device_spec(d).value_of(m1, port) is Some);
        assert(self.node_value_in(prev, k) == self.device_spec(d).value_of(m1, port)->0);
    }

    /// A wired input node resolves to the value of its upstream output,
    /// which stands earlier in the evaluation order.
    proof fn lemma_input_value(&self, k: int)
        requires
            self.wf(),
            0 <= k < self.node_count(),
            !self.node_is_output(k),
            self.node_wired(k),
        ensures
            0 <= self.node_upstream(k) < self.node_count(),
            self.order_position(self.node_upstream(k)) < self.order_position(k),
            self.resolved_value(k) == self.resolved_value(self.node_upstream(k)),
    {
        let up = self.node_upstream(k);
        let i = self.order_position(k);
        assert(self.node_wired(k));
        assert(0 <= up < self.node_count());
        assert(self.edges().contains((up as usize, k as usize)));
        let e = choose|e: int|
            0 <= e < self.edges().len() && self.edges()[e] == (up as usize, k as usize);
        assert(self.edges()[e].0 == up as usize && self.edges()[e].1 == k as usize);
        assert(self.graph.position((self.graph.edge_seq()[e]).0 as int) < self.graph.position(
            self.graph.edge_seq()[e].1 as int,
        ));
        assert(self.order_position(up) < i);
        assert(self.eval_order()[i] == k as usize);
        self.lemma_eval_dom(i as nat);
        self.lemma_eval_stable(i as nat);
        self.lemma_eval_stable((i + 1) as nat);
        let prev = self.eval_upto(i as nat);
        assert(self.eval_upto((i + 1) as nat)[k] == self.node_value_in(prev, k));
        assert(self.node_value_in(prev, k) == prev[up]);
        assert(prev[up] == self.resolved_value(up));
    }

    /// How one walk step changes the per-device supplied maps: visiting an
    /// input node feeds exactly its own device its own port; visiting an
    /// output node feeds nothing.
    proof fn lemma_walk_step(&self, k: int)
        requires
            self.wf(),
            0 <= k < self.node_count(),
        ensures
            !self.node_is_output(k) ==> forall|d2: int|
                0 <= d2 < self.device_count() && d2 != self.node_device(k)
                    ==> #[trigger] self.walk_supplied(d2, self.order_position(k) + 1)
                    == self.walk_supplied(d2, self.order_position(k)),
            !self.node_is_output(k) ==> self.walk_supplied(
                self.node_device(k),
                self.order_position(k) + 1,
            ) == self.walk_supplied(self.node_device(k), self.order_position(k)).insert(
                self.node_port(k),
                self.resolved_value(k),
            ),
            !self.node_is_output(k) ==> !self.walk_supplied(
                self.node_device(k),
                self.order_position(k),
            ).dom().contains(self.node_port(k)),
            self.node_is_output(k) ==> forall|d2: int|
                0 <= d2 < self.device_count() ==> #[trigger] self.walk_supplied(
                    d2,
                    self.order_position(k) + 1,
                ) == self.walk_supplied(d2, self.order_position(k)),
        decreases 0int,
    {
        let i = self.order_position(k);
        assert(self.eval_order()[i] == k as usize);
        assert forall|d2: int, p: Seq<char>|
            0 <= d2 < self.device_count() && #[trigger] self.device_spec(d2).inputs().contains(p)
                && self.order_position(self.node_index_of(d2, p, false)) == i implies d2
            == self.node_device(k) && p == self.node_port(k) && !self.node_is_output(k) by {
            self.device_spec(d2).lemma_wf();
            assert(self.has_node(d2, p, false));
            let a = self.node_index_of(d2, p, false);
            assert(self.node_matches(a, d2, p, false));
            assert(self.eval_order()[self.order_position(a)] == a as usize);
            assert(a == k);
        }
        if !self.node_is_output(k) {
            let d = self.node_device(k);
            let p0 = self.node_port(k);
            assert forall|d2: int|
                0 <= d2 < self.device_count() && d2 != d implies #[trigger] self.walk_supplied(
                d2,
                i + 1,
            ) == self.walk_supplied(d2, i) by {
                assert(self.walk_supplied(d2, i + 1) =~= self.walk_supplied(d2, i));
            }
            assert(self.node_matches(k, d, p0, false));
            assert(self.device_spec(d).inputs().contains(p0));
            let a = self.node_index_of(d, p0, false);
            assert(self.node_matches(a, d, p0, false));
            self.lemma_node_unique(a, k);
            assert(self.walk_supplied(d, i + 1) =~= self.walk_supplied(d, i).insert(
                p0,
                self.resolved_value(k),
            ));
        } else {
            assert forall|d2: int|
                0 <= d2 < self.device_count() implies #[trigger] self.walk_supplied(d2, i + 1)
                == self.walk_supplied(d2, i) by {
                assert(self.walk_supplied(d2, i + 1) =~= self.walk_supplied(d2, i));
            }
        }
    }

    /// After the full walk, every device has been fed all of its inputs.
    proof fn lemma_walk_full(&self, d: int)
        requires
            self.wf(),
            0 <= d < self.device_count(),
        ensures
            self.walk_supplied(d, self.node_count()) == self.tick_supplied(d),
            self.tick_supplied(d).dom() == self.device_spec(d).inputs(),
    {
        assert forall|p: Seq<char>|
            #[trigger] self.device_spec(d).inputs().contains(p) implies self.order_position(
            self.node_index_of(d, p, false),
        ) < self.node_count() by {
            assert(self.has_node(d, p, false));
            let a = self.node_index_of(d, p, false);
            assert(self.node_matches(a, d, p, false));
        }
        assert(self.walk_supplied(d, self.node_count()) =~= self.tick_supplied(d));
        assert(self.tick_supplied(d).dom() =~= self.device_spec(d).inputs());
    }

    /// The supplied map device `d` holds after the walk has covered the
    /// first `i` positions: whatever it held before the tick, plus the
    /// values fed so far.
    pub open spec fn phase_supplied(&self, d: int, i: int) -> Map<Seq<char>, u32> {
        self.device_spec(d).supplied().union_prefer_right(self.walk_supplied(d, i))
    }

    /// A controller whose nodes and graph agree with a well-formed one, and
    /// whose devices are well-formed with the same port declarations, is
    /// well-formed.
    #[verifier::rlimit(100)]
    proof fn lemma_wf_ports_preserved(&self, oldc: Controller)
        requires
            oldc.wf(),
            self.nodes@ == oldc.nodes@,
            self.graph == oldc.graph,
            self.devices@.len() == oldc.devices@.len(),
            forall|d: int|
                0 <= d < oldc.device_count() ==> #[trigger] self.id_spec(d) == oldc.id_spec(d),
            forall|d: int|
                0 <= d < oldc.device_count() ==> (#[trigger] self.device_spec(d)).wf()
                    && self.device_spec(d).inputs() == oldc.device_spec(d).inputs()
                    && self.device_spec(d).outputs() == oldc.device_spec(d).outputs(),
            forall|d: int, o: Seq<char>|
                0 <= d < oldc.device_count() ==> #[trigger] self.device_spec(d).deps_of(o)
                    == oldc.device_spec(d).deps_of(o),
        ensures
            self.wf(),
    {
        assert(self.wf_ids()) by {
            assert forall|d1: int, d2: int|
                0 <= d1 < d2 < self.device_count() implies #[trigger] self.id_spec(d1)
                != #[trigger] self.id_spec(d2) by {
                assert(oldc.id_spec(d1) != oldc.id_spec(d2));
            }
        }
        assert(self.wf_nodes()) by {
            assert forall|k: int| 0 <= k < self.node_count() implies {
                &&& 0 <= #[trigger] self.node_device(k) < self.device_count()
                &&& (self.node_is_output(k) ==> self.device_spec(self.node_device(k)).outputs(
                ).contains(self.node_port(k)))
                &&& (!self.node_is_output(k) ==> self.device_spec(self.node_device(k)).inputs(
                ).contains(self.node_port(k)))
            } by {
                assert(0 <= oldc.node_device(k) < oldc.device_count());
                assert(oldc.node_is_output(k) ==> oldc.device_spec(oldc.node_device(k)).outputs(
                ).contains(oldc.node_port(k)));
                assert(!oldc.node_is_output(k) ==> oldc.device_spec(oldc.node_device(k)).inputs(
                ).contains(oldc.node_port(k)));
            }
        }
        assert(self.wf_unique()) by {
            assert forall|k1: int, k2: int|
                0 <= k1 < k2 < self.node_count() implies !(#[trigger] self.node_device(k1)
                == #[trigger] self.node_device(k2) && self.node_port(k1) == self.node_port(
                k2,
            )) by {
                assert(!(oldc.node_device(k1) == oldc.node_device(k2) && oldc.node_port(k1)
                    == oldc.node_port(k2)));
            }
        }
        assert(self.wf_complete()) by {
            assert forall|d: int, p: Seq<char>| 0 <= d < self.device_count() implies {
                &&& (#[trigger] self.device_spec(d).inputs().contains(p) ==> self.has_node(
                    d,
                    p,
                    false,
                ))
                &&& (self.device_spec(d).outputs().contains(p) ==> self.has_node(d, p, true))
            } by {
                if oldc.device_spec(d).inputs().contains(p) {
                    let k = choose|k: int| oldc.node_matches(k, d, p, false);
                    assert(self.node_matches(k, d, p, false));
                }
                if oldc.device_spec(d).outputs().contains(p) {
                    let k = choose|k: int| oldc.node_matches(k, d, p, true);
                    assert(self.node_matches(k, d, p, true));
                }
            }
        }
        assert(self.wf_upstream()) by {
            assert forall|k: int|
                0 <= k < self.node_count() && !self.node_is_output(k)
                    && #[trigger] self.node_wired(k) implies {
                &&& 0 <= self.node_upstream(k) < self.node_count()
                &&& self.node_is_output(self.node_upstream(k))
                &&& self.edges().contains((self.node_upstream(k) as usize, k as usize))
            } by {
                assert(oldc.node_wired(k));
                assert(oldc.edges().contains((oldc.node_upstream(k) as usize, k as usize)));
            }
        }
        assert(self.wf_edges()) by {
            assert forall|e: int| 0 <= e < self.edges().len() implies {
                let a = (#[trigger] self.edges()[e]).0 as int;
                let b = self.edges()[e].1 as int;
                &&& if self.node_is_output(b) {
                    &&& self.node_device(a) == self.node_device(b)
                    &&& !self.node_is_output(a)
                    &&& self.device_spec(self.node_device(b)).deps_of(
                        self.node_port(b),
                    ).contains(self.node_port(a))
                } else {
                    &&& self.node_is_output(a)
                    &&& self.nodes@[b].upstream == Some(self.edges()[e].0)
                }
            } by {
                let a = self.edges()[e].0 as int;
                let b = self.edges()[e].1 as int;
                assert(self.edges()[e] == oldc.edges()[e]);
                if oldc.node_is_output(b) {
                    assert(oldc.node_device(a) == oldc.node_device(b));
                    assert(oldc.device_spec(oldc.node_device(b)).deps_of(
                        oldc.node_port(b),
                    ).contains(oldc.node_port(a)));
                    assert(self.device_spec(self.node_device(b)).deps_of(self.node_port(b))
                        == oldc.device_spec(oldc.node_device(b)).deps_of(oldc.node_port(b)));
                } else {
                    assert(oldc.nodes@[b].upstream == Some(oldc.edges()[e].0));
                }
            }
        }
        assert(self.wf_dep_edges()) by {
            assert forall|k: int, p: Seq<char>|
                0 <= k < self.node_count() && #[trigger] self.node_is_output(k)
                    && #[trigger] self.device_spec(self.node_device(k)).deps_of(
                    self.node_port(k),
                ).contains(p) implies exists|a: int|
                self.node_matches(a, self.node_device(k), p, false) && self.edges().contains(
                    (a as usize, k as usize),
                ) by {
                assert(oldc.node_is_output(k));
                assert(self.device_spec(self.node_device(k)).deps_of(self.node_port(k))
                    == oldc.device_spec(oldc.node_device(k)).deps_of(oldc.node_port(k)));
                assert(oldc.device_spec(oldc.node_device(k)).deps_of(oldc.node_port(k)).contains(
                    p,
                ));
                let a = choose|a: int|
                    oldc.node_matches(a, oldc.node_device(k), p, false) && oldc.edges().contains(
                        (a as usize, k as usize),
                    );
                assert(self.node_matches(a, self.node_device(k), p, false));
            }
        }
    }

    /// Mid-walk, every device is its pre-tick self with the fed values
    /// added: its declaration is untouched, it is well-formed, and what it
    /// held before the tick is still there.
    #[verifier::rlimit(100)]
    proof fn lemma_phase_state(&self, c0: Controller, i: int)
        requires
            c0.wf(),
            self.nodes@ == c0.nodes@,
            self.graph == c0.graph,
            self.devices@.len() == c0.devices@.len(),
            forall|d: int|
                0 <= d < c0.device_count() ==> #[trigger] self.id_spec(d) == c0.id_spec(d),
            forall|d: int|
                0 <= d < c0.device_count() ==> #[trigger] self.device_spec(d) == c0.device_spec(
                    d,
                ).with_supplied(c0.phase_supplied(d, i)),
            forall|d: int|
                0 <= d < c0.device_count() ==> (#[trigger] c0.walk_supplied(d, i)).dom().disjoint(
                    c0.device_spec(d).supplied().dom(),
                ),
        ensures
            self.wf(),
            forall|d: int|
                0 <= d < c0.device_count() ==> (#[trigger] c0.phase_supplied(d, i)).dom(
                ).subset_of(c0.device_spec(d).inputs()) && c0.device_spec(d).supplied().submap_of(
                    c0.phase_supplied(d, i),
                ),
    {
        assert forall|d: int|
            0 <= d < c0.device_count() implies (#[trigger] c0.phase_supplied(d, i)).dom(
        ).subset_of(c0.device_spec(d).inputs()) && c0.device_spec(d).supplied().submap_of(
            c0.phase_supplied(d, i),
        ) by {
            c0.device_spec(d).lemma_wf();
            assert forall|p: Seq<char>|
                c0.phase_supplied(d, i).dom().contains(p) implies c0.device_spec(
                d,
            ).inputs().contains(p) by {}
            assert forall|p: Seq<char>|
                c0.device_spec(d).supplied().dom().contains(p) implies c0.phase_supplied(
                d,
                i,
            ).dom().contains(p) && c0.phase_supplied(d, i)[p] == c0.device_spec(d).supplied()[
                p
            ] by {
                assert(!c0.walk_supplied(d, i).dom().contains(p));
            }
        }
        assert forall|d: int|
            0 <= d < c0.device_count() implies (#[trigger] self.device_spec(d)).wf()
            && self.device_spec(d).inputs() == c0.device_spec(d).inputs() && self.device_spec(
            d,
        ).outputs() == c0.device_spec(d).outputs() by {
            c0.device_spec(d).lemma_wf();
            c0.device_spec(d).lemma_with_supplied(c0.phase_supplied(d, i));
        }
        assert forall|d: int, o: Seq<char>|
            0 <= d < c0.device_count() implies #[trigger] self.device_spec(d).deps_of(o)
            == c0.device_spec(d).deps_of(o) by {
            c0.device_spec(d).lemma_wf();
            c0.device_spec(d).lemma_with_supplied(c0.phase_supplied(d, i));
        }
        self.lemma_wf_ports_preserved(c0);
    }

    /// The views that the tick never touches: devices named the same,
    /// nodes, wires and evaluation order unchanged.
    proof fn lemma_structure_eq(&self, c0: Controller)
        requires
            self.nodes@ == c0.nodes@,
            self.graph == c0.graph,
            self.devices@.len() == c0.devices@.len(),
            forall|d: int|
                0 <= d < c0.device_count() ==> #[trigger] self.id_spec(d) == c0.id_spec(d),
        ensures
            self.node_count() == c0.node_count(),
            self.device_count() == c0.device_count(),
            self.edges() == c0.edges(),
            self.eval_order() == c0.eval_order(),
            forall|k: int|
                0 <= k < c0.node_count() ==> #[trigger] self.node_device(k) == c0.node_device(k)
                    && self.node_port(k) == c0.node_port(k) && self.node_is_output(k)
                    == c0.node_is_output(k) && self.node_wired(k) == c0.node_wired(k) && (
                c0.node_wired(k) ==> self.node_upstream(k) == c0.node_upstream(k)),
    {
    }

    /// Perform one tick: resolve every port's value in the maintained
    /// topological order — outputs from their devices, inputs from their
    /// wired upstream outputs — then commit every device's state
    /// transition. Succeeds exactly when every input port is wired and no
    /// device holds values left over from an earlier failed tick; on
    /// failure, values already fed to devices stay fed, but nothing else
    /// changes.
    #[verifier::rlimit(100)]
    pub fn tick(&mut self) -> (r: Result<TickResult, ControllerError>)
        requires
            old(self).wf(),
        ensures
            final(self).wf(),
            final(self).device_count() == old(self).device_count(),
            final(self).node_count() == old(self).node_count(),
            final(self).edges() == old(self).edges(),
            final(self).eval_order() == old(self).eval_order(),
            forall|d: int|
                0 <= d < old(self).device_count() ==> #[trigger] final(self).id_spec(d) == old(
                    self,
                ).id_spec(d),
            forall|k: int|
                0 <= k < old(self).node_count() ==> #[trigger] final(self).node_device(k) == old(
                    self,
                ).node_device(k) && final(self).node_port(k) == old(self).node_port(k) && final(self).node_is_output(k) == old(self).node_is_output(k) && final(self).node_wired(k)
                    == old(self).node_wired(k) && (old(self).node_wired(k) ==> final(self).node_upstream(k) == old(self).node_upstream(k)),
            r is Ok <==> old(self).all_ready(),
            r matches Ok(res) ==> res.wf() && res.entries_spec().len() == old(self).node_count()
                && forall|k: int|
                0 <= k < old(self).node_count() ==> #[trigger] res.entries_spec()[k] == (
                    (
                        old(self).id_spec(old(self).node_device(k)),
                        old(self).node_port(k),
                    ),
                    old(self).resolved_value(k),
                ),
            r matches Ok(res) ==> forall|k: int|
                0 <= k < old(self).node_count() ==> res@.dom().contains(
                    (old(self).id_spec(#[trigger] old(self).node_device(k)), old(self).node_port(k)),
                ) && res@[(old(self).id_spec(old(self).node_device(k)), old(self).node_port(k))]
                    == old(self).resolved_value(k),
            r is Ok ==> forall|d: int|
                0 <= d < old(self).device_count() ==> (#[trigger] old(self).device_spec(
                    d,
                ).with_supplied(old(self).tick_supplied(d))).step_rel(final(self).device_spec(d)),
            r matches Err(e) ==> (e == ControllerError::UnresolvedInput
                || e == ControllerError::ValueRejected) && (e == ControllerError::UnresolvedInput
                ==> exists|k: int|
                0 <= k < old(self).node_count() && !old(self).node_is_output(k) && !(
                #[trigger] old(self).node_wired(k))) && (e == ControllerError::ValueRejected
                ==> exists|d: int|
                0 <= d < old(self).device_count() && (#[trigger] old(self).device_spec(
                    d,
                ).supplied()) != Map::<Seq<char>, u32>::empty()),
            r is Err ==> forall|d: int|
                0 <= d < old(self).device_count() ==> exists|m: Map<Seq<char>, u32>|
                    m.dom().subset_of((#[trigger] old(self).device_spec(d)).inputs()) && old(
                        self,
                    ).device_spec(d).supplied().submap_of(m) && final(self).device_spec(d) == old(
                        self,
                    ).device_spec(d).with_supplied(m),
    {
        let ghost c0 = *old(self);
        let n = self.nodes.len();
        let mut values: Vec<Option<u32>> = Vec::new();
        let mut z: usize = 0;
        while z < n
            invariant
                z <= n,
                values@.len() == z,
                forall|j: int| 0 <= j < z ==> values@[j] is None,
            decreases n - z,
        {
            values.push(None);
            z += 1;
        }
        proof {
            assert forall|d: int|
                0 <= d < c0.device_count() implies #[trigger] self.device_spec(d)
                == c0.device_spec(d).with_supplied(c0.phase_supplied(d, 0)) && (
            c0.walk_supplied(d, 0)).dom().disjoint(c0.device_spec(d).supplied().dom()) by {
                c0.device_spec(d).lemma_wf();
                c0.device_spec(d).lemma_with_supplied(c0.device_spec(d).supplied());
                assert(c0.walk_supplied(d, 0) =~= Map::<Seq<char>, u32>::empty());
                assert(c0.phase_supplied(d, 0) =~= c0.device_spec(d).supplied());
                assert(c0.walk_supplied(d, 0).dom() =~= Set::<Seq<char>>::empty());
            }
        }
        let mut i: usize = 0;
        while i < n
            invariant
                c0 == *old(self),
                c0.wf(),
                self.nodes@ == c0.nodes@,
                self.graph == c0.graph,
                self.devices@.len() == c0.devices@.len(),
                forall|d: int|
                    0 <= d < c0.device_count() ==> #[trigger] self.id_spec(d) == c0.id_spec(d),
                n == c0.node_count(),
                i <= n,
                values@.len() == n,
                forall|k: int|
                    0 <= k < n ==> ((#[trigger] values@[k]) is Some <==> c0.order_position(k)
                        < i),
                forall|k: int|
                    0 <= k < n && c0.order_position(k) < i ==> #[trigger] values@[k] == Some(
                        c0.resolved_value(k),
                    ),
                forall|d: int|
                    0 <= d < c0.device_count() ==> #[trigger] self.device_spec(d)
                        == c0.device_spec(d).with_supplied(c0.phase_supplied(d, i as int)),
                forall|d: int|
                    0 <= d < c0.device_count() ==> (#[trigger] c0.walk_supplied(
                        d,
                        i as int,
                    )).dom().disjoint(c0.device_spec(d).supplied().dom()),
                forall|k: int|
                    0 <= k < n && c0.order_position(k) < i && !c0.node_is_output(k)
                        ==> #[trigger] c0.node_wired(k),
            decreases n - i,
        {
            proof {
                self.lemma_phase_state(c0, i as int);
            }
            let k = self.graph.order_at(i);
            proof {
                assert(c0.order_position(k as int) == i);
            }
            let nd = self.nodes[k].device;
            let ghost dev0 = c0.device_spec(nd as int);
            let ghost u = c0.phase_supplied(nd as int, i as int);
            proof {
                dev0.lemma_wf();
                dev0.lemma_with_supplied(u);
            }
            if self.nodes[k].is_output {
                let pv = self.devices[nd].1.get_port_value(&self.nodes[k].port);
                let ghost port = c0.node_port(k as int);
                proof {
                    assert(dev0.outputs().contains(port));
                    assert forall|p: Seq<char>|
                        #[trigger] c0.device_spec(c0.node_device(k as int)).deps_of(
                            c0.node_port(k as int),
                        ).contains(p) implies u.dom().contains(p) && u[p] == c0.resolved_value(
                        c0.node_index_of(c0.node_device(k as int), p, false),
                    ) by {
                        let a = choose|a: int|
                            c0.node_matches(a, c0.node_device(k as int), p, false)
                                && c0.edges().contains((a as usize, k as usize));
                        let e = choose|e: int|
                            0 <= e < c0.edges().len() && c0.edges()[e] == (a as usize, k as usize);
                        assert(c0.edges()[e].0 == a as usize && c0.edges()[e].1 == k as usize);
                        assert(c0.order_position(a) < c0.order_position(k as int));
                        let a2 = c0.node_index_of(c0.node_device(k as int), p, false);
                        assert(c0.node_matches(a2, c0.node_device(k as int), p, false));
                        c0.lemma_node_unique(a, a2);
                        assert(dev0.inputs().contains(p));
                        assert(c0.walk_supplied(nd as int, i as int).dom().contains(p));
                        assert(c0.walk_supplied(nd as int, i as int)[p] == c0.resolved_value(a));
                        assert(u[p] == c0.walk_supplied(nd as int, i as int)[p]);
                    }
                    c0.lemma_output_value(k as int, u);
                    assert(self.device_spec(nd as int).supplied() == u);
                    assert(self.device_spec(nd as int).value_of(u, port) == dev0.value_of(
                        u,
                        port,
                    ));
                }
                let v = match pv {
                    Ok(Some(v)) => v,
                    Ok(None) => {
                        proof {
                            assert(false);
                        }
                        vstd::pervasive::unreached()
                    },
                    Err(_) => {
                        proof {
                            assert(false);
                        }
                        vstd::pervasive::unreached()
                    },
                };
                values[k] = Some(v);
                proof {
                    c0.lemma_walk_step(k as int);
                    assert forall|d: int|
                        0 <= d < c0.device_count() implies #[trigger] c0.phase_supplied(
                        d,
                        i + 1,
                    ) == c0.phase_supplied(d, i as int) by {
                        assert(c0.walk_supplied(d, i + 1) == c0.walk_supplied(d, i as int));
                    }
                    assert forall|k2: int|
                        0 <= k2 < n implies ((#[trigger] values@[k2]) is Some
                        <==> c0.order_position(k2) < i + 1) by {
                        if k2 != k {
                            if c0.order_position(k2) == i {
                                assert(c0.eval_order()[c0.order_position(k2)] == k2 as usize);
                            }
                        }
                    }
                }
            } else {
                match self.nodes[k].upstream {
                    None => {
                        proof {
                            assert(!c0.node_wired(k as int));
                            self.lemma_structure_eq(c0);
                            assert forall|d: int|
                                0 <= d < c0.device_count() implies exists|m: Map<Seq<char>, u32>|
                                m.dom().subset_of(
                                    (#[trigger] c0.device_spec(d)).inputs(),
                                ) && c0.device_spec(d).supplied().submap_of(m) && self.device_spec(
                                    d,
                                ) == c0.device_spec(d).with_supplied(m) by {
                                let m = c0.phase_supplied(d, i as int);
                                assert(m.dom().subset_of(c0.device_spec(d).inputs())
                                    && c0.device_spec(d).supplied().submap_of(m)
                                    && self.device_spec(d) == c0.device_spec(d).with_supplied(m));
                            }
                        }
                        return Err(ControllerError::UnresolvedInput);
                    },
                    Some(j) => {
                        proof {
                            c0.lemma_input_value(k as int);
                        }
                        let v = match values[j] {
                            Some(v) => v,
                            None => {
                                proof {
                                    assert(false);
                                }
                                vstd::pervasive::unreached()
                            },
                        };
                        let port_clone = self.nodes[k].port.clone();
                        let ghost port = c0.node_port(k as int);
                        proof {
                            assert(port_clone@ == port);
                            assert(dev0.inputs().contains(port));
                            assert(!c0.walk_supplied(nd as int, i as int).dom().contains(port))
                                by {
                                if c0.walk_supplied(nd as int, i as int).dom().contains(port) {
                                    let a2 = c0.node_index_of(nd as int, port, false);
                                    assert(c0.node_matches(a2, nd as int, port, false));
                                    c0.lemma_node_unique(a2, k as int);
                                }
                            }
                        }
                        let ghost s_pre = *self;
                        let entry = &mut self.devices[nd];
                        let res = entry.1.provide_port_value(port_clone, v);
                        match res {
                            Err(_) => {
                                proof {
                                    assert(self.devices@[nd as int].0 == s_pre.devices@[
                                        nd as int
                                    ].0);
                                    assert(self.devices@[nd as int].1 == s_pre.devices@[
                                        nd as int
                                    ].1);
                                    assert forall|d: int|
                                        0 <= d < c0.device_count() implies #[trigger] self.id_spec(
                                        d,
                                    ) == c0.id_spec(d) by {
                                        if d != nd as int {
                                            assert(self.devices@[d] == s_pre.devices@[d]);
                                        }
                                        assert(s_pre.id_spec(d) == c0.id_spec(d));
                                    }
                                    assert forall|d: int|
                                        0 <= d < c0.device_count() implies #[trigger] self.device_spec(
                                        d,
                                    ) == c0.device_spec(d).with_supplied(
                                        c0.phase_supplied(d, i as int),
                                    ) by {
                                        if d != nd as int {
                                            assert(self.devices@[d] == s_pre.devices@[d]);
                                        }
                                        assert(s_pre.device_spec(d) == c0.device_spec(
                                            d,
                                        ).with_supplied(c0.phase_supplied(d, i as int)));
                                        assert(self.device_spec(d) == s_pre.device_spec(d));
                                    }
                                    assert(u.dom().contains(port));
                                    assert(c0.device_spec(nd as int).supplied().dom().contains(
                                        port,
                                    ));
                                    assert(c0.device_spec(nd as int).supplied() != Map::<
                                        Seq<char>,
                                        u32,
                                    >::empty());
                                    self.lemma_phase_state(c0, i as int);
                                    self.lemma_structure_eq(c0);
                                    assert forall|d: int|
                                        0 <= d < c0.device_count() implies exists|
                                        m: Map<Seq<char>, u32>,
                                    |
                                        m.dom().subset_of(
                                            (#[trigger] c0.device_spec(d)).inputs(),
                                        ) && c0.device_spec(d).supplied().submap_of(m)
                                            && self.device_spec(d) == c0.device_spec(
                                            d,
                                        ).with_supplied(m) by {
                                        let m = c0.phase_supplied(d, i as int);
                                        assert(m.dom().subset_of(c0.device_spec(d).inputs())
                                            && c0.device_spec(d).supplied().submap_of(m)
                                            && self.device_spec(d) == c0.device_spec(
                                            d,
                                        ).with_supplied(m));
                                    }
                                }
                                return Err(ControllerError::ValueRejected);
                            },
                            Ok(_) => {
                                proof {
                                    assert(self.devices@[nd as int].0 == s_pre.devices@[
                                        nd as int
                                    ].0);
                                    assert forall|d: int|
                                        0 <= d < c0.device_count() implies #[trigger] self.id_spec(
                                        d,
                                    ) == c0.id_spec(d) by {
                                        if d != nd as int {
                                            assert(self.devices@[d] == s_pre.devices@[d]);
                                        }
                                        assert(s_pre.id_spec(d) == c0.id_spec(d));
                                    }
                                    assert(s_pre.device_spec(nd as int) == dev0.with_supplied(u));
                                    let unew = u.insert(port, v);
                                    assert(self.device_spec(nd as int) == dev0.with_supplied(
                                        u,
                                    ).with_supplied(unew));
                                    assert(unew.dom().subset_of(dev0.inputs()));
                                    assert(self.device_spec(nd as int) == dev0.with_supplied(
                                        unew,
                                    ));
                                    c0.lemma_walk_step(k as int);
                                    assert(c0.phase_supplied(nd as int, i + 1) =~= unew);
                                    assert forall|d: int|
                                        0 <= d < c0.device_count() && d != nd as int
                                        implies #[trigger] c0.phase_supplied(d, i + 1)
                                        == c0.phase_supplied(d, i as int) && self.device_spec(d)
                                        == c0.device_spec(d).with_supplied(
                                        c0.phase_supplied(d, i + 1),
                                    ) by {
                                        assert(c0.walk_supplied(d, i + 1) == c0.walk_supplied(
                                            d,
                                            i as int,
                                        ));
                                        assert(self.devices@[d] == s_pre.devices@[d]);
                                        assert(s_pre.device_spec(d) == c0.device_spec(
                                            d,
                                        ).with_supplied(c0.phase_supplied(d, i as int)));
                                    }
                                    assert forall|d: int|
                                        0 <= d < c0.device_count() implies (
                                    #[trigger] c0.walk_supplied(d, i + 1)).dom().disjoint(
                                        c0.device_spec(d).supplied().dom(),
                                    ) by {
                                        if d == nd as int {
                                            assert(c0.walk_supplied(d, i + 1)
                                                == c0.walk_supplied(d, i as int).insert(
                                                port,
                                                c0.resolved_value(k as int),
                                            ));
                                            assert(!c0.device_spec(
                                                d,
                                            ).supplied().dom().contains(port));
                                        } else {
                                            assert(c0.walk_supplied(d, i + 1)
                                                == c0.walk_supplied(d, i as int));
                                        }
                                    }
                                }
                                values[k] = Some(v);
                                proof {
                                    assert(values@[k as int] == Some(c0.resolved_value(k as int)));
                                    assert forall|k2: int|
                                        0 <= k2 < n implies ((#[trigger] values@[k2]) is Some
                                        <==> c0.order_position(k2) < i + 1) by {
                                        if k2 != k {
                                            if c0.order_position(k2) == i {
                                                assert(c0.eval_order()[c0.order_position(k2)]
                                                    == k2 as usize);
                                            }
                                        }
                                    }
                                }
                            },
                        }
                    },
                }
            }
            i += 1;
        }
        proof {
            assert forall|d: int|
                0 <= d < c0.device_count() implies #[trigger] c0.device_spec(d).supplied()
                == Map::<Seq<char>, u32>::empty() by {
                c0.device_spec(d).lemma_wf();
                c0.lemma_walk_full(d);
                assert forall|p: Seq<char>|
                    !(#[trigger] c0.device_spec(d).supplied().dom().contains(p)) by {
                    if c0.device_spec(d).supplied().dom().contains(p) {
                        assert(c0.device_spec(d).inputs().contains(p));
                        assert(c0.walk_supplied(d, n as int).dom().contains(p));
                    }
                }
                assert(c0.device_spec(d).supplied().dom() =~= Set::<Seq<char>>::empty());
                assert(c0.device_spec(d).supplied() =~= Map::<Seq<char>, u32>::empty());
            }
            assert forall|k: int|
                0 <= k < n && !c0.node_is_output(k) implies #[trigger] c0.node_wired(k) by {
                assert(c0.order_position(k) < n);
            }
            assert(c0.all_ready());
            assert forall|d: int|
                0 <= d < c0.device_count() implies #[trigger] self.device_spec(d)
                == c0.device_spec(d).with_supplied(c0.tick_supplied(d)) by {
                c0.lemma_walk_full(d);
                assert(c0.phase_supplied(d, n as int) =~= c0.tick_supplied(d));
            }
        }
        let dcnt = self.devices.len();
        let mut d: usize = 0;
        while d < dcnt
            invariant
                c0 == *old(self),
                c0.wf(),
                c0.all_ready(),
                self.nodes@ == c0.nodes@,
                self.graph == c0.graph,
                self.devices@.len() == c0.devices@.len(),
                dcnt == c0.device_count(),
                d <= dcnt,
                forall|d2: int|
                    0 <= d2 < c0.device_count() ==> #[trigger] self.id_spec(d2) == c0.id_spec(d2),
                forall|d2: int|
                    0 <= d2 < d ==> (#[trigger] c0.device_spec(d2).with_supplied(
                        c0.tick_supplied(d2),
                    )).step_rel(self.device_spec(d2)),
                forall|d2: int|
                    0 <= d2 < d ==> (#[trigger] self.device_spec(d2)).wf() && self.device_spec(
                        d2,
                    ).inputs() == c0.device_spec(d2).inputs() && self.device_spec(d2).outputs()
                        == c0.device_spec(d2).outputs(),
                forall|d2: int, o: Seq<char>|
                    0 <= d2 < d ==> #[trigger] self.device_spec(d2).deps_of(o) == c0.device_spec(
                        d2,
                    ).deps_of(o),
                forall|d2: int|
                    d <= d2 < c0.device_count() ==> #[trigger] self.device_spec(d2)
                        == c0.device_spec(d2).with_supplied(c0.tick_supplied(d2)),
            decreases dcnt - d,
        {
            let ghost pre = self.device_spec(d as int);
            proof {
                c0.device_spec(d as int).lemma_wf();
                c0.lemma_walk_full(d as int);
                c0.device_spec(d as int).lemma_with_supplied(c0.tick_supplied(d as int));
                assert(pre.wf());
                assert(pre.inputs().subset_of(pre.supplied().dom()));
                pre.lemma_all_inputs_step();
            }
            let ghost s_pre2 = *self;
            let entry = &mut self.devices[d];
            let res = entry.1.tick();
            proof {
                assert(res is Ok);
                pre.lemma_stepped(self.device_spec(d as int));
                assert(self.devices@[d as int].0 == s_pre2.devices@[d as int].0);
                assert forall|d2: int|
                    0 <= d2 < c0.device_count() && d2 != d as int implies #[trigger] self.devices@[
                    d2
                ] == s_pre2.devices@[d2] by {}
                assert forall|d2: int|
                    0 <= d2 < c0.device_count() implies #[trigger] self.id_spec(d2) == c0.id_spec(
                    d2,
                ) by {
                    if d2 != d as int {
                        assert(self.devices@[d2] == s_pre2.devices@[d2]);
                    }
                    assert(s_pre2.id_spec(d2) == c0.id_spec(d2));
                }
                assert forall|d2: int|
                    0 <= d2 < c0.device_count() && d2 != d as int
                    implies #[trigger] self.device_spec(d2) == s_pre2.device_spec(d2) by {
                    assert(self.devices@[d2] == s_pre2.devices@[d2]);
                }
            }
            match res {
                Ok(_) => {},
                Err(_) => {
                    proof {
                        assert(false);
                    }
                },
            }
            d += 1;
        }
        let mut entries: Vec<((DeviceIdentifier, String), u32)> = Vec::new();
        let mut k2: usize = 0;
        while k2 < n
            invariant
                c0 == *old(self),
                c0.wf(),
                self.nodes@ == c0.nodes@,
                self.graph == c0.graph,
                self.devices@.len() == c0.devices@.len(),
                n == c0.node_count(),
                k2 <= n,
                values@.len() == n,
                forall|d2: int|
                    0 <= d2 < c0.device_count() ==> #[trigger] self.id_spec(d2) == c0.id_spec(d2),
                forall|k: int|
                    0 <= k < n ==> #[trigger] values@[k] == Some(c0.resolved_value(k)),
                entries@.len() == k2,
                forall|j: int|
                    0 <= j < k2 ==> ((#[trigger] entries@[j]).0.0@, entries@[j].0.1@) == (
                        c0.id_spec(c0.node_device(j)),
                        c0.node_port(j),
                    ) && entries@[j].1 == c0.resolved_value(j),
            decreases n - k2,
        {
            proof {
                assert(0 <= c0.node_device(k2 as int) < c0.device_count());
            }
            let nd2 = self.nodes[k2].device;
            proof {
                assert(nd2 == c0.node_device(k2 as int));
                assert(self.id_spec(nd2 as int) == c0.id_spec(nd2 as int));
            }
            let id_clone = self.devices[nd2].0.clone();
            let port_clone2 = self.nodes[k2].port.clone();
            let v2 = match values[k2] {
                Some(v) => v,
                None => {
                    proof {
                        assert(false);
                    }
                    vstd::pervasive::unreached()
                },
            };
            entries.push(((id_clone, port_clone2), v2));
            proof {
                assert(id_clone@ == c0.id_spec(c0.node_device(k2 as int)));
                assert(port_clone2@ == c0.node_port(k2 as int));
                assert(entries@[k2 as int].0.0@ == c0.id_spec(c0.node_device(k2 as int)));
            }
            k2 += 1;
        }
        let result = TickResult { entries };
        proof {
            assert forall|j: int|
                0 <= j < n implies #[trigger] result.entries_spec()[j] == (
                (c0.id_spec(c0.node_device(j)), c0.node_port(j)),
                c0.resolved_value(j),
            ) by {}
            assert(result.wf()) by {
                assert forall|j1: int, j2: int|
                    0 <= j1 < j2 < result.entries_spec().len() implies (
                #[trigger] result.entries_spec()[j1]).0 != (
                #[trigger] result.entries_spec()[j2]).0 by {
                    if result.entries_spec()[j1].0 == result.entries_spec()[j2].0 {
                        let da = c0.node_device(j1);
                        let db = c0.node_device(j2);
                        if da != db {
                            if da < db {
                                assert(c0.id_spec(da) != c0.id_spec(db));
                            } else {
                                assert(c0.id_spec(db) != c0.id_spec(da));
                            }
                        } else {
                            assert(!(c0.node_device(j1) == c0.node_device(j2) && c0.node_port(j1)
                                == c0.node_port(j2)));
                        }
                    }
                }
            }
            lemma_entry_map(result.entries_spec());
            assert forall|k: int|
                0 <= k < n implies result@.dom().contains(
                (c0.id_spec(#[trigger] c0.node_device(k)), c0.node_port(k)),
            ) && result@[(c0.id_spec(c0.node_device(k)), c0.node_port(k))] == c0.resolved_value(
                k,
            ) by {
                assert(result.entries_spec()[k].0 == (
                    c0.id_spec(c0.node_device(k)),
                    c0.node_port(k),
                ));
            }
            self.lemma_structure_eq(c0);
            self.lemma_wf_ports_preserved(c0);
        }
        Ok(result)
    }

    /// Resolve a `(device identifier, port name)` pair to its node.
    fn resolve_endpoint(&self, dev: &DeviceIdentifier, port: &String) -> (r: Option<usize>)
        requires
            self.wf(),
        ensures
            r matches Some(k) ==> self.port_node_matches(k as int, dev@, port@) && self.has_port(
                dev@,
                port@,
            ) && self.port_node(dev@, port@) == k as int,
            r is None ==> !self.has_port(dev@, port@),
    {
        let d = match self.find_device(dev) {
            None => {
                proof {
                    assert(!self.has_port(dev@, port@)) by {
                        if self.has_port(dev@, port@) {
                            let k = choose|k: int| self.port_node_matches(k, dev@, port@);
                            assert(self.id_spec(self.node_device(k)) != dev@);
                        }
                    }
                }
                return None;
            },
            Some(d) => d,
        };
        match self.find_node(d, port) {
            None => {
                proof {
                    assert(!self.has_port(dev@, port@)) by {
                        if self.has_port(dev@, port@) {
                            let k = choose|k: int| self.port_node_matches(k, dev@, port@);
                            let kd = self.node_device(k);
                            if kd != d {
                                if kd < d {
                                    assert(self.id_spec(kd) != self.id_spec(d as int));
                                } else {
                                    assert(self.id_spec(d as int) != self.id_spec(kd));
                                }
                            }
                        }
                    }
                }
                None
            },
            Some(k) => {
                proof {
                    assert(self.port_node_matches(k as int, dev@, port@));
                    assert(self.has_port(dev@, port@));
                    self.lemma_port_node_unique(
                        dev@,
                        port@,
                        self.port_node(dev@, port@),
                        k as int,
                    );
                }
                Some(k)
            },
        }
    }

    /// Every node belongs to a registered, well-formed device and names one
    /// of its declared ports, on the side the node is classified as.
    pub proof fn lemma_nodes_classified(&self)
        requires
            self.wf(),
        ensures
            forall|d: int| 0 <= d < self.device_count() ==> (#[trigger] self.device_spec(d)).wf(),
            forall|k: int|
                0 <= k < self.node_count() ==> 0 <= #[trigger] self.node_device(k)
                    < self.device_count() && (self.node_is_output(k) ==> self.device_spec(
                    self.node_device(k),
                ).outputs().contains(self.node_port(k))) && (!self.node_is_output(k)
                    ==> self.device_spec(self.node_device(k)).inputs().contains(
                    self.node_port(k),
                )),
    {
    }

    /// Law: after any legal sequence of registrations and connections, a
    /// full resolution order exists — the maintained evaluation order. It
    /// lists every port node exactly once, and every dependency edge,
    /// internal or external, points forward in it; so walking it resolves
    /// every output before any port that depends on it is evaluated.
    pub proof fn lemma_topological_order(&self)
        requires
            self.wf(),
        ensures
            self.eval_order().len() == self.node_count(),
            forall|i: int|
                0 <= i < self.node_count() ==> #[trigger] self.eval_order()[i]
                    < self.node_count(),
            forall|k: int|
                0 <= k < self.node_count() ==> 0 <= #[trigger] self.order_position(k)
                    < self.node_count() && self.eval_order()[self.order_position(k)] == k,
            forall|e: int|
                0 <= e < self.edges().len() ==> self.order_position(
                    (#[trigger] self.edges()[e]).0 as int,
                ) < self.order_position(self.edges()[e].1 as int),
    {
    }

    /// Attempt to wire the named output port of one device to the named
    /// input port of another. Fails — leaving the controller unchanged — if
    /// an endpoint is unknown, the ports face the wrong way, the input is
    /// already wired, or the wire would close a dependency cycle; the last
    /// is the case exactly when the source node is already reachable from
    /// the target node.
    #[verifier::rlimit(100)]
    pub fn add_connection(
        &mut self,
        from_device: &DeviceIdentifier,
        from_port: &String,
        to_device: &DeviceIdentifier,
        to_port: &String,
    ) -> (r: Result<(), ControllerError>)
        requires
            old(self).wf(),
        ensures
            final(self).wf(),
            final(self).device_count() == old(self).device_count(),
            final(self).node_count() == old(self).node_count(),
            forall|d: int|
                0 <= d < old(self).device_count() ==> #[trigger] final(self).id_spec(d) == old(
                    self,
                ).id_spec(d),
            forall|d: int|
                0 <= d < old(self).device_count() ==> #[trigger] final(self).device_spec(d)
                    == old(self).device_spec(d),
            forall|k: int|
                0 <= k < old(self).node_count() ==> #[trigger] final(self).node_device(k) == old(
                    self,
                ).node_device(k) && final(self).node_port(k) == old(self).node_port(k) && final(self).node_is_output(k) == old(self).node_is_output(k),
            r is Ok <==> ({
                let f = old(self).port_node(from_device@, from_port@);
                let t = old(self).port_node(to_device@, to_port@);
                &&& old(self).has_port(from_device@, from_port@)
                &&& old(self).has_port(to_device@, to_port@)
                &&& old(self).node_is_output(f)
                &&& !old(self).node_is_output(t)
                &&& !old(self).node_wired(t)
                &&& !reaches(old(self).edges(), t as usize, f as usize)
            }),
            r is Ok ==> ({
                let f = old(self).port_node(from_device@, from_port@);
                let t = old(self).port_node(to_device@, to_port@);
                &&& final(self).edges() == old(self).edges().push((f as usize, t as usize))
                &&& final(self).node_wired(t) && final(self).node_upstream(t) == f
                &&& forall|k: int|
                    0 <= k < old(self).node_count() && k != t ==> #[trigger] final(self).node_wired(k) == old(self).node_wired(k) && (old(self).node_wired(k)
                        ==> final(self).node_upstream(k) == old(self).node_upstream(k))
            }),
            r is Err ==> final(self).edges() == old(self).edges() && final(self).eval_order()
                == old(self).eval_order() && forall|k: int|
                0 <= k < old(self).node_count() ==> #[trigger] final(self).node_wired(k) == old(
                    self,
                ).node_wired(k) && (old(self).node_wired(k) ==> final(self).node_upstream(k)
                    == old(self).node_upstream(k)),
            r matches Err(e) ==> if !(old(self).has_port(from_device@, from_port@) && old(
                self,
            ).has_port(to_device@, to_port@)) {
                e == ControllerError::UnknownEndpoint
            } else if !(old(self).node_is_output(old(self).port_node(from_device@, from_port@))
                && !old(self).node_is_output(old(self).port_node(to_device@, to_port@))) {
                e == ControllerError::PortDirection
            } else if old(self).node_wired(old(self).port_node(to_device@, to_port@)) {
                e == ControllerError::DuplicateWire
            } else {
                e == ControllerError::WouldCreateCycle && reaches(
                    old(self).edges(),
                    old(self).port_node(to_device@, to_port@) as usize,
                    old(self).port_node(from_device@, from_port@) as usize,
                )
            },
    {
        let fk = match self.resolve_endpoint(from_device, from_port) {
            None => {
                return Err(ControllerError::UnknownEndpoint);
            },
            Some(k) => k,
        };
        let tk = match self.resolve_endpoint(to_device, to_port) {
            None => {
                return Err(ControllerError::UnknownEndpoint);
            },
            Some(k) => k,
        };
        if !self.nodes[fk].is_output || self.nodes[tk].is_output {
            return Err(ControllerError::PortDirection);
        }
        if self.nodes[tk].upstream.is_some() {
            return Err(ControllerError::DuplicateWire);
        }
        proof {
            assert(!self.edges().contains((fk, tk))) by {
                if self.edges().contains((fk, tk)) {
                    let e = choose|e: int|
                        0 <= e < self.edges().len() && self.edges()[e] == (fk, tk);
                    assert(!self.node_is_output(tk as int));
                    assert(self.nodes@[tk as int].upstream == Some(fk));
                }
            }
            assert(fk != tk);
        }
        let ghost oldc = *self;
        match self.graph.try_add_edge(fk, tk) {
            Err(_) => {
                proof {
                    assert(self.nodes@ == oldc.nodes@);
                    self.lemma_wf_unchanged(oldc);
                }
                Err(ControllerError::WouldCreateCycle)
            },
            Ok(_) => {
                let dev_idx = self.nodes[tk].device;
                let port_name = self.nodes[tk].port.clone();
                self.nodes[tk] = PortNode {
                    device: dev_idx,
                    port: port_name,
                    is_output: false,
                    upstream: Some(fk),
                };
                proof {
                    self.lemma_connection_wf(oldc, fk, tk);
                }
                Ok(())
            },
        }
    }

    /// The invariant depends only on the views: a controller whose devices,
    /// nodes and graph views agree with a well-formed one is well-formed.
    proof fn lemma_wf_unchanged(&self, oldc: Controller)
        requires
            oldc.wf(),
            self.devices@ == oldc.devices@,
            self.nodes@ == oldc.nodes@,
            self.graph.wf(),
            self.graph.node_count() == oldc.graph.node_count(),
            self.graph.edge_seq() == oldc.graph.edge_seq(),
        ensures
            self.wf(),
    {
        assert(self.wf_devices()) by {
            assert forall|d: int|
                0 <= d < self.device_count() implies (#[trigger] self.device_spec(d)).wf() by {
                assert(oldc.device_spec(d).wf());
            }
        }
        assert(self.wf_ids()) by {
            assert forall|d1: int, d2: int|
                0 <= d1 < d2 < self.device_count() implies #[trigger] self.id_spec(d1)
                != #[trigger] self.id_spec(d2) by {
                assert(oldc.id_spec(d1) != oldc.id_spec(d2));
            }
        }
        assert(self.wf_nodes()) by {
            assert forall|k: int| 0 <= k < self.node_count() implies {
                &&& 0 <= #[trigger] self.node_device(k) < self.device_count()
                &&& (self.node_is_output(k) ==> self.device_spec(self.node_device(k)).outputs(
                ).contains(self.node_port(k)))
                &&& (!self.node_is_output(k) ==> self.device_spec(self.node_device(k)).inputs(
                ).contains(self.node_port(k)))
            } by {
                assert(0 <= oldc.node_device(k) < oldc.device_count());
                assert(oldc.node_is_output(k) ==> oldc.device_spec(oldc.node_device(k)).outputs(
                ).contains(oldc.node_port(k)));
                assert(!oldc.node_is_output(k) ==> oldc.device_spec(oldc.node_device(k)).inputs(
                ).contains(oldc.node_port(k)));
            }
        }
        assert(self.wf_unique()) by {
            assert forall|k1: int, k2: int|
                0 <= k1 < k2 < self.node_count() implies !(#[trigger] self.node_device(k1)
                == #[trigger] self.node_device(k2) && self.node_port(k1) == self.node_port(
                k2,
            )) by {
                assert(!(oldc.node_device(k1) == oldc.node_device(k2) && oldc.node_port(k1)
                    == oldc.node_port(k2)));
            }
        }
        assert(self.wf_complete()) by {
            assert forall|d: int, p: Seq<char>| 0 <= d < self.device_count() implies {
                &&& (#[trigger] self.device_spec(d).inputs().contains(p) ==> self.has_node(
                    d,
                    p,
                    false,
                ))
                &&& (self.device_spec(d).outputs().contains(p) ==> self.has_node(d, p, true))
            } by {
                if oldc.device_spec(d).inputs().contains(p) {
                    let k = choose|k: int| oldc.node_matches(k, d, p, false);
                    assert(self.node_matches(k, d, p, false));
                }
                if oldc.device_spec(d).outputs().contains(p) {
                    let k = choose|k: int| oldc.node_matches(k, d, p, true);
                    assert(self.node_matches(k, d, p, true));
                }
            }
        }
        assert(self.wf_upstream()) by {
            assert forall|k: int|
                0 <= k < self.node_count() && !self.node_is_output(k)
                    && #[trigger] self.node_wired(k) implies {
                &&& 0 <= self.node_upstream(k) < self.node_count()
                &&& self.node_is_output(self.node_upstream(k))
                &&& self.edges().contains((self.node_upstream(k) as usize, k as usize))
            } by {
                assert(oldc.node_wired(k));
                assert(oldc.edges().contains((oldc.node_upstream(k) as usize, k as usize)));
            }
        }
        assert(self.wf_edges()) by {
            assert forall|e: int| 0 <= e < self.edges().len() implies {
                let a = (#[trigger] self.edges()[e]).0 as int;
                let b = self.edges()[e].1 as int;
                &&& if self.node_is_output(b) {
                    &&& self.node_device(a) == self.node_device(b)
                    &&& !self.node_is_output(a)
                    &&& self.device_spec(self.node_device(b)).deps_of(
                        self.node_port(b),
                    ).contains(self.node_port(a))
                } else {
                    &&& self.node_is_output(a)
                    &&& self.nodes@[b].upstream == Some(self.edges()[e].0)
                }
            } by {
                let a = self.edges()[e].0 as int;
                let b = self.edges()[e].1 as int;
                assert(self.edges()[e] == oldc.edges()[e]);
                if oldc.node_is_output(b) {
                    assert(oldc.node_device(a) == oldc.node_device(b));
                    assert(oldc.device_spec(oldc.node_device(b)).deps_of(
                        oldc.node_port(b),
                    ).contains(oldc.node_port(a)));
                } else {
                    assert(oldc.nodes@[b].upstream == Some(oldc.edges()[e].0));
                }
            }
        }
        assert(self.wf_dep_edges()) by {
            assert forall|k: int, p: Seq<char>|
                0 <= k < self.node_count() && #[trigger] self.node_is_output(k)
                    && #[trigger] self.device_spec(self.node_device(k)).deps_of(
                    self.node_port(k),
                ).contains(p) implies exists|a: int|
                self.node_matches(a, self.node_device(k), p, false) && self.edges().contains(
                    (a as usize, k as usize),
                ) by {
                assert(oldc.node_is_output(k));
                assert(oldc.device_spec(oldc.node_device(k)).deps_of(oldc.node_port(k)).contains(
                    p,
                ));
                let a = choose|a: int|
                    oldc.node_matches(a, oldc.node_device(k), p, false) && oldc.edges().contains(
                        (a as usize, k as usize),
                    );
                assert(self.node_matches(a, self.node_device(k), p, false));
            }
        }
    }

    /// After a wire from output node `f` to the unwired input node `t` is
    /// committed — the graph accepted the edge and the node recorded its
    /// upstream — the controller invariant holds again.
    #[verifier::rlimit(100)]
    proof fn lemma_connection_wf(&self, oldc: Controller, f: usize, t: usize)
        requires
            oldc.wf(),
            f < oldc.node_count(),
            t < oldc.node_count(),
            oldc.node_is_output(f as int),
            !oldc.node_is_output(t as int),
            !oldc.node_wired(t as int),
            self.devices@ == oldc.devices@,
            self.nodes@.len() == oldc.nodes@.len(),
            forall|k: int|
                0 <= k < oldc.node_count() && k != t ==> self.nodes@[k] == oldc.nodes@[k],
            self.nodes@[t as int].device == oldc.nodes@[t as int].device,
            self.nodes@[t as int].port == oldc.nodes@[t as int].port,
            self.nodes@[t as int].is_output == oldc.nodes@[t as int].is_output,
            self.nodes@[t as int].upstream == Some(f),
            self.graph.wf(),
            self.graph.node_count() == oldc.graph.node_count(),
            self.graph.edge_seq() == oldc.graph.edge_seq().push((f, t)),
        ensures
            self.wf(),
    {
        assert(f != t);
        assert(self.node_upstream(t as int) == f as int);
        assert forall|k: int| 0 <= k < self.node_count() implies #[trigger] self.node_device(k)
            == oldc.node_device(k) && self.node_port(k) == oldc.node_port(k)
            && self.node_is_output(k) == oldc.node_is_output(k) by {}
        assert(self.wf_devices()) by {
            assert forall|d: int|
                0 <= d < self.device_count() implies (#[trigger] self.device_spec(d)).wf() by {
                assert(oldc.device_spec(d).wf());
            }
        }
        assert(self.wf_ids()) by {
            assert forall|d1: int, d2: int|
                0 <= d1 < d2 < self.device_count() implies #[trigger] self.id_spec(d1)
                != #[trigger] self.id_spec(d2) by {
                assert(oldc.id_spec(d1) != oldc.id_spec(d2));
            }
        }
        assert(self.wf_nodes()) by {
            assert forall|k: int| 0 <= k < self.node_count() implies {
                &&& 0 <= #[trigger] self.node_device(k) < self.device_count()
                &&& (self.node_is_output(k) ==> self.device_spec(self.node_device(k)).outputs(
                ).contains(self.node_port(k)))
                &&& (!self.node_is_output(k) ==> self.device_spec(self.node_device(k)).inputs(
                ).contains(self.node_port(k)))
            } by {
                assert(0 <= oldc.node_device(k) < oldc.device_count());
                assert(oldc.node_is_output(k) ==> oldc.device_spec(oldc.node_device(k)).outputs(
                ).contains(oldc.node_port(k)));
                assert(!oldc.node_is_output(k) ==> oldc.device_spec(oldc.node_device(k)).inputs(
                ).contains(oldc.node_port(k)));
            }
        }
        assert(self.wf_unique()) by {
            assert forall|k1: int, k2: int|
                0 <= k1 < k2 < self.node_count() implies !(#[trigger] self.node_device(k1)
                == #[trigger] self.node_device(k2) && self.node_port(k1) == self.node_port(
                k2,
            )) by {
                assert(!(oldc.node_device(k1) == oldc.node_device(k2) && oldc.node_port(k1)
                    == oldc.node_port(k2)));
            }
        }
        assert(self.wf_complete()) by {
            assert forall|d: int, p: Seq<char>| 0 <= d < self.device_count() implies {
                &&& (#[trigger] self.device_spec(d).inputs().contains(p) ==> self.has_node(
                    d,
                    p,
                    false,
                ))
                &&& (self.device_spec(d).outputs().contains(p) ==> self.has_node(d, p, true))
            } by {
                if oldc.device_spec(d).inputs().contains(p) {
                    let k = choose|k: int| oldc.node_matches(k, d, p, false);
                    assert(self.node_matches(k, d, p, false));
                }
                if oldc.device_spec(d).outputs().contains(p) {
                    let k = choose|k: int| oldc.node_matches(k, d, p, true);
                    assert(self.node_matches(k, d, p, true));
                }
            }
        }
        assert(self.wf_upstream()) by {
            assert forall|k: int|
                0 <= k < self.node_count() && !self.node_is_output(k)
                    && #[trigger] self.node_wired(k) implies {
                &&& 0 <= self.node_upstream(k) < self.node_count()
                &&& self.node_is_output(self.node_upstream(k))
                &&& self.edges().contains((self.node_upstream(k) as usize, k as usize))
            } by {
                if k == t {
                    assert(self.node_is_output(f as int));
                    assert(self.edges()[self.edges().len() - 1] == (f, t));
                    assert(self.edges().contains((f, t)));
                    assert((self.node_upstream(k) as usize, k as usize) == (f, t));
                } else {
                    assert(oldc.node_wired(k));
                    assert(oldc.edges().contains((oldc.node_upstream(k) as usize, k as usize)));
                    let e = choose|e: int|
                        0 <= e < oldc.edges().len() && oldc.edges()[e] == (
                        oldc.node_upstream(k) as usize,
                        k as usize,
                        );
                    assert(self.edges()[e] == (self.node_upstream(k) as usize, k as usize));
                }
            }
        }
        assert(self.wf_edges()) by {
            assert forall|e: int| 0 <= e < self.edges().len() implies {
                let a = (#[trigger] self.edges()[e]).0 as int;
                let b = self.edges()[e].1 as int;
                &&& if self.node_is_output(b) {
                    &&& self.node_device(a) == self.node_device(b)
                    &&& !self.node_is_output(a)
                    &&& self.device_spec(self.node_device(b)).deps_of(
                        self.node_port(b),
                    ).contains(self.node_port(a))
                } else {
                    &&& self.node_is_output(a)
                    &&& self.nodes@[b].upstream == Some(self.edges()[e].0)
                }
            } by {
                let a = self.edges()[e].0 as int;
                let b = self.edges()[e].1 as int;
                if e < oldc.edges().len() {
                    assert(self.edges()[e] == oldc.edges()[e]);
                    if oldc.node_is_output(b) {
                        assert(oldc.node_device(a) == oldc.node_device(b));
                        assert(oldc.device_spec(oldc.node_device(b)).deps_of(
                            oldc.node_port(b),
                        ).contains(oldc.node_port(a)));
                    } else {
                        assert(oldc.nodes@[b].upstream == Some(oldc.edges()[e].0));
                        assert(b != t);
                    }
                } else {
                    assert(self.edges()[e] == (f, t));
                    assert(!self.node_is_output(t as int));
                }
            }
        }
        assert(self.wf_dep_edges()) by {
            assert forall|k: int, p: Seq<char>|
                0 <= k < self.node_count() && #[trigger] self.node_is_output(k)
                    && #[trigger] self.device_spec(self.node_device(k)).deps_of(
                    self.node_port(k),
                ).contains(p) implies exists|a: int|
                self.node_matches(a, self.node_device(k), p, false) && self.edges().contains(
                    (a as usize, k as usize),
                ) by {
                assert(oldc.node_is_output(k));
                assert(oldc.device_spec(oldc.node_device(k)).deps_of(oldc.node_port(k)).contains(
                    p,
                ));
                let a = choose|a: int|
                    oldc.node_matches(a, oldc.node_device(k), p, false) && oldc.edges().contains(
                        (a as usize, k as usize),
                    );
                let e = choose|e: int|
                    0 <= e < oldc.edges().len() && oldc.edges()[e] == (a as usize, k as usize);
                assert(self.edges()[e] == (a as usize, k as usize));
                assert(self.node_matches(a, self.node_device(k), p, false));
                assert(self.edges().contains((a as usize, k as usize)));
            }
        }
    }

    /// The index of the registered device with the given identifier.
    fn find_device(&self, id: &String) -> (r: Option<usize>)
        requires
            self.wf(),
        ensures
            r matches Some(d) ==> 0 <= d < self.device_count() && self.id_spec(d as int) == id@,
            r is None ==> forall|d: int|
                0 <= d < self.device_count() ==> #[trigger] self.id_spec(d) != id@,
    {
        let mut d: usize = 0;
        while d < self.devices.len()
            invariant
                self.wf(),
                d <= self.device_count(),
                forall|j: int| 0 <= j < d ==> #[trigger] self.id_spec(j) != id@,
            decreases self.device_count() - d,
        {
            if self.devices[d].0 == *id {
                return Some(d);
            }
            d += 1;
        }
        None
    }

    /// The node standing for the given port of the given device.
    fn find_node(&self, device_idx: usize, port: &String) -> (r: Option<usize>)
        requires
            self.wf(),
            device_idx < self.device_count(),
        ensures
            r matches Some(k) ==> 0 <= k < self.node_count() && self.node_device(k as int)
                == device_idx && self.node_port(k as int) == port@,
            r is None ==> forall|k: int|
                0 <= k < self.node_count() ==> !(#[trigger] self.node_device(k) == device_idx
                    && self.node_port(k) == port@),
    {
        let mut k: usize = 0;
        while k < self.nodes.len()
            invariant
                self.wf(),
                device_idx < self.device_count(),
                k <= self.node_count(),
                forall|j: int|
                    0 <= j < k ==> !(#[trigger] self.node_device(j) == device_idx
                        && self.node_port(j) == port@),
            decreases self.node_count() - k,
        {
            if self.nodes[k].device == device_idx && self.nodes[k].port == *port {
                return Some(k);
            }
            k += 1;
        }
        None
    }
}

} // verus!
