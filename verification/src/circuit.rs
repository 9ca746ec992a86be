//! The circuit graph and the signal propagation scheduler.
//!
//! Components live in an arena with stable identities: removing one
//! component never invalidates another's identifier.  Explicit wires carry a
//! signal from one output pin to one input pin; virtual wires are synthesized
//! from tunnel net membership on every propagation pass.  A pass computes a
//! topological evaluation order over a filtered view of the graph in which
//! edges into clocked components are ignored, evaluates every component in
//! that order, and transmits signals across wires, forcing a width-mismatched
//! transmission to absent.

use vstd::prelude::*;

verus! {

use crate::component::Component;
use crate::component::CompKind;
use crate::component::CompEvent;
use crate::component::PinIndex;
use crate::component::copy_signal;
use crate::component::eval_out;
use crate::component::sig_opt_view;
use crate::signal::Signal;
use crate::context::CircuitContext;

/// A directed, width-tagged connection from an output pin to an input pin,
/// with the last transmitted signal cached for rendering.
pub struct Wire {
    pub start_comp: usize,
    pub start_pin: usize,
    pub end_comp: usize,
    pub end_pin: usize,
    pub data_bits: u8,
    pub value: Option<Signal>,
    pub is_virtual: bool,
}

impl Wire {
    /// The cached last-transmitted signal, as a bit sequence.
    pub open spec fn value_view(self) -> Option<Seq<bool>> {
        sig_opt_view(self.value)
    }

    /// Whether two wires connect the same pins the same way.
    pub open spec fn same_route(self, other: Wire) -> bool {
        self.start_comp == other.start_comp && self.start_pin == other.start_pin && self.end_comp
            == other.end_comp && self.end_pin == other.end_pin && self.data_bits == other.data_bits
            && self.is_virtual == other.is_virtual
    }

    /// A wire with an empty cache.
    pub fn new(
        start_comp: usize,
        start_pin: usize,
        end_comp: usize,
        end_pin: usize,
        data_bits: u8,
        is_virtual: bool,
    ) -> (r: Wire)
        ensures
            r.start_comp == start_comp,
            r.start_pin == start_pin,
            r.end_comp == end_comp,
            r.end_pin == end_pin,
            r.data_bits == data_bits,
            r.is_virtual == is_virtual,
            r.value_view() is None,
    {
        Wire { start_comp, start_pin, end_comp, end_pin, data_bits, value: None, is_virtual }
    }

    /// Caches a transmitted signal.
    pub fn set_signal(&mut self, value: Option<Signal>)
        ensures
            final(self).same_route(*old(self)),
            final(self).value_view() == sig_opt_view(value),
    {
        self.value = value;
    }

    /// The cached last-transmitted signal.
    pub fn get_signal(&self) -> (r: &Option<Signal>)
        ensures
            sig_opt_view(*r) == self.value_view(),
    {
        &self.value
    }
}

/// The circuit: an arena of components, the explicit and virtual wires
/// between them, and the tunnel context.
pub struct Circuit {
    pub nodes: Vec<Option<Component>>,
    pub wires: Vec<Wire>,
    pub context: CircuitContext,
}

impl Circuit {
    /// Whether `cx` names a component that is currently in the circuit.
    pub open spec fn live(self, cx: int) -> bool {
        0 <= cx < self.nodes@.len() && self.nodes@[cx] is Some
    }

    /// The logic unit of a live node.
    pub open spec fn node(self, cx: int) -> CompKind {
        self.nodes@[cx]->0.kind
    }

    /// A wire connects two distinct live components on pins that exist.  A
    /// virtual wire runs between two tunnels' single pins.
    pub open spec fn wire_ok(self, w: Wire) -> bool {
        &&& self.live(w.start_comp as int)
        &&& self.live(w.end_comp as int)
        &&& w.start_comp != w.end_comp
        &&& if w.is_virtual {
            &&& self.node(w.start_comp as int) is Tunnel
            &&& self.node(w.end_comp as int) is Tunnel
            &&& w.start_pin == 0
            &&& w.end_pin == 0
        } else {
            &&& (w.start_pin as nat) < self.node(w.start_comp as int).n_outs()
            &&& (w.end_pin as nat) < self.node(w.end_comp as int).n_ins()
        }
    }

    /// At most one explicit wire terminates at a given input pin.
    pub open spec fn fanin_unique(self) -> bool {
        forall|k1: int, k2: int|
            0 <= k1 < k2 < self.wires@.len() && !(#[trigger] self.wires@[k1]).is_virtual && !(
            #[trigger] self.wires@[k2]).is_virtual ==> !(self.wires@[k1].end_comp
                == self.wires@[k2].end_comp && self.wires@[k1].end_pin == self.wires@[k2].end_pin)
    }

    /// The context records exactly the live tunnels, by label and role.
    pub open spec fn tunnels_consistent(self) -> bool {
        &&& forall|l: Seq<char>, c: usize|
            #[trigger] self.context.is_sender(l, c) <==> self.live(c as int) && (self.node(
                c as int,
            ) matches CompKind::Tunnel(t) && t.kind is Sender && t.label@ == l)
        &&& forall|l: Seq<char>, c: usize|
            #[trigger] self.context.is_receiver(l, c) <==> self.live(c as int) && (self.node(
                c as int,
            ) matches CompKind::Tunnel(t) && t.kind is Receiver && t.label@ == l)
    }

    /// Structural well-formedness of the whole circuit.
    pub open spec fn wf(self) -> bool {
        &&& forall|cx: int| self.live(cx) ==> (#[trigger] self.node(cx)).wf()
        &&& forall|k: int|
            0 <= k < self.wires@.len() ==> self.wire_ok(#[trigger] self.wires@[k])
        &&& self.fanin_unique()
        &&& self.context.wf()
        &&& self.tunnels_consistent()
    }

    /// An empty circuit.
    pub fn new() -> (r: Circuit)
        ensures
            r.wf(),
            r.nodes@.len() == 0,
            r.wires@.len() == 0,
    {
        Circuit { nodes: Vec::new(), wires: Vec::new(), context: CircuitContext::new() }
    }

    /// Inserts a component and returns its stable identifier.  A tunnel is
    /// registered with the context as it enters the circuit.
    pub fn add_component(&mut self, comp: Component) -> (cx: usize)
        requires
            old(self).wf(),
            comp.wf(),
        ensures
            final(self).wf(),
            cx as int == old(self).nodes@.len(),
            final(self).nodes@ == old(self).nodes@.push(Some(comp)),
            final(self).wires@ == old(self).wires@,
            final(self).live(cx as int),
            final(self).node(cx as int) == comp.kind,
            forall|c: int| old(self).live(c) ==> final(self).live(c),
            forall|c: int| old(self).live(c) ==> final(self).node(c) == old(self).node(c),
    {
        let cx = self.nodes.len();
        let event = comp.kind.get_ctx_event(CompEvent::Added);
        self.nodes.push(Some(comp));
        proof {
            assert(forall|c: int|
                0 <= c < old(self).nodes@.len() ==> #[trigger] self.nodes@[c] == old(
                    self,
                ).nodes@[c]);
        }
        match event {
            Some(ev) => {
                self.context.update(ev, cx);
            },
            None => {},
        }
        proof {
            assert forall|l: Seq<char>, c: usize|
                #[trigger] self.context.is_sender(l, c) <==> self.live(c as int) && (self.node(
                    c as int,
                ) matches CompKind::Tunnel(t) && t.kind is Sender && t.label@ == l) by {
                if old(self).context.is_sender(l, c) {
                    assert(old(self).live(c as int));
                }
                if self.live(c as int) && c as int != cx as int {
                    assert(self.nodes@[c as int] == old(self).nodes@[c as int]);
                }
            }
            assert forall|l: Seq<char>, c: usize|
                #[trigger] self.context.is_receiver(l, c) <==> self.live(c as int) && (self.node(
                    c as int,
                ) matches CompKind::Tunnel(t) && t.kind is Receiver && t.label@ == l) by {
                if old(self).context.is_receiver(l, c) {
                    assert(old(self).live(c as int));
                }
                if self.live(c as int) && c as int != cx as int {
                    assert(self.nodes@[c as int] == old(self).nodes@[c as int]);
                }
            }
            assert forall|k: int|
                0 <= k < self.wires@.len() implies self.wire_ok(#[trigger] self.wires@[k]) by {
                assert(old(self).wire_ok(self.wires@[k]));
                let w = self.wires@[k];
                assert(self.nodes@[w.start_comp as int] == old(self).nodes@[w.start_comp as int]);
                assert(self.nodes@[w.end_comp as int] == old(self).nodes@[w.end_comp as int]);
            }
            assert forall|c: int| self.live(c) implies (#[trigger] self.node(c)).wf() by {
                if c < old(self).nodes@.len() {
                    assert(self.nodes@[c] == old(self).nodes@[c]);
                    assert(old(self).live(c));
                    assert((old(self).node(c)).wf());
                    assert(self.node(c) == old(self).node(c));
                } else {
                    assert(self.nodes@[c] == Some(comp));
                    assert(self.node(c) == comp.kind);
                    assert(comp.kind.wf());
                }
            }
            assert(self.fanin_unique());
            assert(self.context.wf());
        }
        cx
    }
    /// Whether wire `k` is a dependency for the evaluation order: edges into
    /// clocked components are ignored, because a clocked component's output
    /// is driven by stored state, not by its current inputs.
    pub open spec fn considered(self, k: int) -> bool {
        &&& 0 <= k < self.wires@.len()
        &&& !self.node(self.wires@[k].end_comp as int).clocked()
    }

    /// A valid evaluation order: every live component exactly once, and for
    /// every dependency wire the source comes before the target.
    pub open spec fn valid_order(self, ord: Seq<usize>) -> bool {
        &&& ord.no_duplicates()
        &&& forall|i: int| 0 <= i < ord.len() ==> self.live(#[trigger] ord[i] as int)
        &&& forall|c: usize| self.live(c as int) ==> ord.contains(c)
        &&& forall|k: int, i: int, j: int|
            self.considered(k) && 0 <= i < ord.len() && 0 <= j < ord.len() && (#[trigger] ord[i])
                == self.wires@[k].start_comp && (#[trigger] ord[j]) == (
            #[trigger] self.wires@[k]).end_comp ==> i < j
    }
}

/// How many dependency wires end at `c` whose source is not yet in `done`.
pub open spec fn cnt_in(g: Circuit, done: Seq<usize>, c: usize, upto: int) -> nat
    decreases upto,
{
    if upto <= 0 {
        0
    } else {
        cnt_in(g, done, c, upto - 1) + if g.considered(upto - 1) && g.wires@[upto - 1].end_comp == c
            && !done.contains(g.wires@[upto - 1].start_comp) {
            1nat
        } else {
            0nat
        }
    }
}

/// How many dependency wires with source `s` and target `c` have index
/// below `upto`.
pub open spec fn cnt_from(g: Circuit, s: usize, c: usize, upto: int) -> nat
    decreases upto,
{
    if upto <= 0 {
        0
    } else {
        cnt_from(g, s, c, upto - 1) + if g.considered(upto - 1) && g.wires@[upto - 1].start_comp
            == s && g.wires@[upto - 1].end_comp == c {
            1nat
        } else {
            0nat
        }
    }
}

/// Every wire from `s` into `c` is counted by [`cnt_in`] as long as `s` is
/// not in `done`.
proof fn lemma_cnt_from_le(g: Circuit, done: Seq<usize>, s: usize, c: usize, upto: int)
    requires
        !done.contains(s),
    ensures
        cnt_from(g, s, c, upto) <= cnt_in(g, done, c, upto),
    decreases upto,
{
    if upto > 0 {
        lemma_cnt_from_le(g, done, s, c, upto - 1);
    }
}

/// A zero unprocessed-dependency count means every dependency source is
/// already in `done`.
proof fn lemma_cnt_in_zero(g: Circuit, done: Seq<usize>, c: usize, upto: int)
    requires
        cnt_in(g, done, c, upto) == 0,
    ensures
        forall|k: int|
            0 <= k < upto && g.considered(k) && (#[trigger] g.wires@[k]).end_comp == c
                ==> done.contains(g.wires@[k].start_comp),
    decreases upto,
{
    if upto > 0 {
        lemma_cnt_in_zero(g, done, c, upto - 1);
    }
}

/// Extending `done` by a node never increases an unprocessed-dependency
/// count, and decreases `c`'s count by exactly the number of dependency
/// wires from that node into `c`.
proof fn lemma_cnt_in_push(g: Circuit, done: Seq<usize>, s: usize, c: usize, upto: int)
    requires
        !done.contains(s),
    ensures
        cnt_in(g, done.push(s), c, upto) + cnt_from(g, s, c, upto) == cnt_in(g, done, c, upto),
    decreases upto,
{
    if upto > 0 {
        lemma_cnt_in_push(g, done, s, c, upto - 1);
        let w = g.wires@[upto - 1];
        assert(done.push(s).contains(w.start_comp) <==> done.contains(w.start_comp) || w.start_comp
            == s) by {
            if done.contains(w.start_comp) {
                let j = choose|j: int| 0 <= j < done.len() && done[j] == w.start_comp;
                assert(done.push(s)[j] == w.start_comp);
            }
            if w.start_comp == s {
                assert(done.push(s)[done.len() as int] == s);
            }
            if done.push(s).contains(w.start_comp) {
                let j = choose|j: int|
                    0 <= j < done.push(s).len() && done.push(s)[j] == w.start_comp;
                if j < done.len() {
                    assert(done[j] == w.start_comp);
                }
            }
        }
    }
}

impl Circuit {
    /// Computes a topological evaluation order over the dependency view of
    /// the graph, or nothing when an illegal cycle (one not broken by any
    /// clocked component) makes ordering impossible.
    fn toposort(&self) -> (r: Option<Vec<usize>>)
        requires
            self.wf(),
        ensures
            r matches Some(ord) ==> self.valid_order(ord@),
            r is None ==> forall|ord: Seq<usize>| !(#[trigger] self.valid_order(ord)),
    {
        let n = self.nodes.len();
        let nw = self.wires.len();
        let ghost g = *self;
        // Count, for every node, the dependency wires that end there.
        let mut indeg: Vec<usize> = Vec::new();
        let mut c0: usize = 0;
        while c0 < n
            invariant
                c0 <= n,
                indeg@.len() == c0 as nat,
                forall|c: int| 0 <= c < c0 as int ==> (#[trigger] indeg@[c]) == 0,
            decreases n - c0,
        {
            indeg.push(0);
            c0 += 1;
        }
        proof {
            assert(forall|c: usize|
                c < n ==> (#[trigger] indeg@[c as int]) as nat == cnt_in(
                    g,
                    Seq::empty(),
                    c,
                    0,
                ));
        }
        let mut k0: usize = 0;
        while k0 < nw
            invariant
                k0 <= nw,
                g == *self,
                self.wf(),
                nw == self.wires@.len(),
                n == self.nodes@.len(),
                indeg@.len() == n as nat,
                forall|c: usize|
                    c < n ==> (#[trigger] indeg@[c as int]) as nat == cnt_in(
                        g,
                        Seq::empty(),
                        c,
                        k0 as int,
                    ),
            decreases nw - k0,
        {
            let e = self.wires[k0].end_comp;
            let clocked = match &self.nodes[e] {
                Some(comp) => comp.kind.is_clocked(),
                None => false,
            };
            proof {
                assert(self.wire_ok(self.wires@[k0 as int]));
                assert(self.live(e as int));
                assert(forall|c: usize|
                    c < n && c != e ==> cnt_in(g, Seq::empty(), c, k0 as int + 1) == cnt_in(
                        g,
                        Seq::empty(),
                        c,
                        k0 as int,
                    ));
                lemma_cnt_from_le(g, Seq::empty(), 0, 0, 0);
            }
            if !clocked {
                proof {
                    assert(g.considered(k0 as int));
                    assert(cnt_in(g, Seq::empty(), e, k0 as int + 1) == cnt_in(
                        g,
                        Seq::empty(),
                        e,
                        k0 as int,
                    ) + 1);
                    lemma_cnt_in_bound(g, Seq::empty(), e, k0 as int);
                }
                let d = indeg[e];
                indeg[e] = d + 1;
            } else {
                proof {
                    assert(!g.considered(k0 as int));
                    assert(cnt_in(g, Seq::empty(), e, k0 as int + 1) == cnt_in(
                        g,
                        Seq::empty(),
                        e,
                        k0 as int,
                    ));
                }
            }
            k0 += 1;
        }
        // Nodes whose dependencies are all satisfied, ready for the order.
        let mut ready: Vec<usize> = Vec::new();
        let mut order: Vec<usize> = Vec::new();
        let mut placed: Vec<bool> = Vec::new();
        let mut c1: usize = 0;
        while c1 < n
            invariant
                c1 <= n,
                placed@.len() == c1 as nat,
                forall|c: int| 0 <= c < c1 as int ==> !(#[trigger] placed@[c]),
            decreases n - c1,
        {
            placed.push(false);
            c1 += 1;
        }
        let mut c2: usize = 0;
        while c2 < n
            invariant
                c2 <= n,
                g == *self,
                self.wf(),
                n == self.nodes@.len(),
                nw == self.wires@.len(),
                indeg@.len() == n as nat,
                placed@.len() == n as nat,
                forall|c: usize|
                    c < n ==> (#[trigger] indeg@[c as int]) as nat == cnt_in(
                        g,
                        Seq::empty(),
                        c,
                        nw as int,
                    ),
                forall|c: int| 0 <= c < n as int ==> !(#[trigger] placed@[c]),
                ready@.no_duplicates(),
                forall|i: int|
                    0 <= i < ready@.len() ==> self.live(#[trigger] ready@[i] as int) && (
                    ready@[i] as int) < c2 as int,
                forall|i: int|
                    0 <= i < ready@.len() ==> indeg@[#[trigger] ready@[i] as int] == 0,
                forall|c: usize|
                    c < c2 && self.live(c as int) && indeg@[c as int] == 0 ==> ready@.contains(c),
            decreases n - c2,
        {
            let is_live = match &self.nodes[c2] {
                Some(_) => true,
                None => false,
            };
            if is_live && indeg[c2] == 0 {
                proof {
                    assert(forall|i: int| 0 <= i < ready@.len() ==> (#[trigger] ready@[i]) != c2);
                }
                let ghost ready_before = ready@;
                ready.push(c2);
                proof {
                    assert forall|c: usize|
                        c < c2 + 1 && self.live(c as int) && indeg@[c as int] == 0 implies ready@.contains(
                        c,
                    ) by {
                        if c < c2 {
                            let i = choose|i: int|
                                0 <= i < ready_before.len() && ready_before[i] == c;
                            assert(ready@[i] == c);
                        } else {
                            assert(ready@[ready@.len() - 1] == c2);
                        }
                    }
                }
            }
            c2 += 1;
        }
        proof {
            assert(order@ == Seq::<usize>::empty());
        }
        // Kahn's algorithm: repeatedly take a node with no unsatisfied
        // dependencies, append it to the order, and release its targets.
        while ready.len() > 0
            invariant
                g == *self,
                self.wf(),
                n == self.nodes@.len(),
                nw == self.wires@.len(),
                indeg@.len() == n as nat,
                placed@.len() == n as nat,
                order@.no_duplicates(),
                ready@.no_duplicates(),
                forall|i: int, j: int|
                    0 <= i < order@.len() && 0 <= j < ready@.len() ==> (#[trigger] order@[i]) != (
                    #[trigger] ready@[j]),
                forall|i: int| 0 <= i < order@.len() ==> self.live(#[trigger] order@[i] as int),
                forall|i: int| 0 <= i < ready@.len() ==> self.live(#[trigger] ready@[i] as int),
                forall|c: usize| placed@[c as int] && c < n <==> order@.contains(c),
                forall|c: usize|
                    c < n ==> (#[trigger] indeg@[c as int]) as nat == cnt_in(
                        g,
                        order@,
                        c,
                        nw as int,
                    ),
                forall|i: int|
                    0 <= i < ready@.len() ==> indeg@[#[trigger] ready@[i] as int] == 0,
                forall|c: usize|
                    self.live(c as int) && !order@.contains(c) && indeg@[c as int] == 0
                        ==> ready@.contains(c),
                forall|k: int, j: int|
                    self.considered(k) && 0 <= j < order@.len() && (#[trigger] order@[j]) == (
                    #[trigger] self.wires@[k]).end_comp ==> exists|i: int|
                        0 <= i < j && order@[i] == self.wires@[k].start_comp,
            decreases n - order@.len(),
        {
            let ghost ready_pre = ready@;
            let next = ready.pop();
            let s = match next {
                Some(s) => s,
                None => {
                    proof {
                        assert(false);
                    }
                    return None;
                },
            };
            let ghost order_before = order@;
            proof {
                assert(ready_pre =~= ready@.push(s));
                assert(ready_pre.contains(s)) by {
                    assert(ready_pre[ready_pre.len() - 1] == s);
                }
                assert(!order@.contains(s)) by {
                    if order@.contains(s) {
                        let i = choose|i: int| 0 <= i < order@.len() && order@[i] == s;
                        assert(order@[i] == ready_pre[ready_pre.len() - 1]);
                    }
                }
                if order@.len() >= n {
                    assert(self.live(s as int));
                    lemma_nodup_live_len(order@.push(s), g);
                }
            }
            order.push(s);
            placed[s] = true;
            proof {
                assert(order@ == order_before.push(s));
                assert(order@.no_duplicates()) by {
                    assert(forall|i: int|
                        0 <= i < order_before.len() ==> (#[trigger] order_before[i]) != s);
                }
                assert forall|c: usize| placed@[c as int] && c < n implies order@.contains(c) by {
                    if c != s {
                        assert(order_before.contains(c));
                        let i = choose|i: int|
                            0 <= i < order_before.len() && order_before[i] == c;
                        assert(order@[i] == c);
                    } else {
                        assert(order@[order@.len() - 1] == s);
                    }
                }
                assert forall|c: usize| c < n && order@.contains(c) implies placed@[c as int] by {
                    let i = choose|i: int| 0 <= i < order@.len() && order@[i] == c;
                    if i < order_before.len() {
                        assert(order_before[i] == c);
                    }
                }
                assert(cnt_in(g, order@, s, nw as int) == 0) by {
                    lemma_cnt_in_push(g, order_before, s, s, nw as int);
                    lemma_cnt_from_le(g, order_before, s, s, nw as int);
                }
                // the new node's dependencies are all in the order before it
                lemma_cnt_in_zero(g, order_before, s, nw as int);
                assert forall|k: int, j: int|
                    self.considered(k) && 0 <= j < order@.len() && (#[trigger] order@[j]) == (
                #[trigger] self.wires@[k]).end_comp implies exists|i: int|
                    0 <= i < j && order@[i] == self.wires@[k].start_comp by {
                    if j < order_before.len() {
                        assert(order_before[j] == self.wires@[k].end_comp);
                        let i = choose|i: int|
                            0 <= i < j && order_before[i] == self.wires@[k].start_comp;
                        assert(order@[i] == self.wires@[k].start_comp);
                    } else {
                        assert(order@[j] == s);
                        assert(order_before.contains(self.wires@[k].start_comp));
                        let i = choose|i: int|
                            0 <= i < order_before.len() && order_before[i] == self.wires@[k].start_comp;
                        assert(order@[i] == self.wires@[k].start_comp);
                    }
                }
            }
            proof {
                assert forall|c: usize|
                    self.live(c as int) && !order@.contains(c) && indeg@[c as int] == 0
                        && cnt_from(g, s, c, nw as int) == cnt_from(g, s, c, 0) implies ready@.contains(
                    c,
                ) by {
                    assert(!order_before.contains(c)) by {
                        if order_before.contains(c) {
                            let i = choose|i: int|
                                0 <= i < order_before.len() && order_before[i] == c;
                            assert(order@[i] == c);
                        }
                    }
                    assert(c != s);
                    assert(ready_pre.contains(c));
                    let i = choose|i: int| 0 <= i < ready_pre.len() && ready_pre[i] == c;
                    assert(i < ready@.len());
                    assert(ready@[i] == c);
                }
            }
            // release the popped node's dependency targets
            let mut k: usize = 0;
            while k < nw
                invariant
                    k <= nw,
                    g == *self,
                    self.wf(),
                    n == self.nodes@.len(),
                    nw == self.wires@.len(),
                    indeg@.len() == n as nat,
                    placed@.len() == n as nat,
                    order@ == order_before.push(s),
                    !order_before.contains(s),
                    order@.no_duplicates(),
                    ready@.no_duplicates(),
                    !ready@.contains(s),
                    forall|i: int, j: int|
                        0 <= i < order@.len() && 0 <= j < ready@.len() ==> (#[trigger] order@[i])
                            != (#[trigger] ready@[j]),
                    forall|i: int| 0 <= i < order@.len() ==> self.live(#[trigger] order@[i] as int),
                    forall|i: int| 0 <= i < ready@.len() ==> self.live(#[trigger] ready@[i] as int),
                    forall|c: usize| placed@[c as int] && c < n <==> order@.contains(c),
                    forall|c: usize|
                        c < n ==> (#[trigger] indeg@[c as int]) as nat == cnt_in(
                            g,
                            order_before,
                            c,
                            nw as int,
                        ) - cnt_from(g, s, c, k as int),
                    forall|c: usize|
                        c < n ==> cnt_from(g, s, c, k as int) <= cnt_in(
                            g,
                            order_before,
                            c,
                            nw as int,
                        ),
                    forall|i: int|
                        0 <= i < ready@.len() ==> indeg@[#[trigger] ready@[i] as int] == 0,
                    forall|c: usize|
                        self.live(c as int) && !order@.contains(c) && indeg@[c as int] == 0
                            && cnt_from(g, s, c, nw as int) == cnt_from(g, s, c, k as int)
                            ==> ready@.contains(c),
                    forall|k2: int, j: int|
                        self.considered(k2) && 0 <= j < order@.len() && (#[trigger] order@[j]) == (
                        #[trigger] self.wires@[k2]).end_comp ==> exists|i: int|
                            0 <= i < j && order@[i] == self.wires@[k2].start_comp,
                decreases nw - k,
            {
                proof {
                    assert(self.wire_ok(self.wires@[k as int]));
                }
                let ghost ready_k = ready@;
                let ghost indeg_k = indeg@;
                let e = self.wires[k].end_comp;
                let from_s = self.wires[k].start_comp == s;
                let clocked = match &self.nodes[e] {
                    Some(comp) => comp.kind.is_clocked(),
                    None => false,
                };
                if from_s && !clocked {
                    proof {
                        assert(g.considered(k as int));
                        assert(cnt_from(g, s, e, k as int + 1) == cnt_from(g, s, e, k as int) + 1);
                        assert(forall|c: usize|
                            c < n && c != e ==> cnt_from(g, s, c, k as int + 1) == cnt_from(
                                g,
                                s,
                                c,
                                k as int,
                            ));
                        lemma_cnt_from_le_full(g, order_before, s, e, k as int + 1, nw as int);
                    }
                    let d = indeg[e];
                    indeg[e] = d - 1;
                    if d == 1 {
                        proof {
                            assert(!order@.contains(e)) by {
                                assert(self.wires@[k as int].start_comp == s);
                                assert(self.wires@[k as int].end_comp == e);
                                if order@.contains(e) {
                                    let j = choose|j: int|
                                        0 <= j < order@.len() && order@[j] == e;
                                    assert(exists|i: int|
                                        0 <= i < j && order@[i] == s);
                                    let i = choose|i: int| 0 <= i < j && order@[i] == s;
                                    assert(order@[order@.len() - 1] == s);
                                    assert(i != order@.len() - 1);
                                }
                            }
                            assert(!ready@.contains(e)) by {
                                if ready@.contains(e) {
                                    let j = choose|j: int|
                                        0 <= j < ready@.len() && ready@[j] == e;
                                    assert(indeg@[e as int] == 0);
                                }
                            }
                        }
                        ready.push(e);
                    }
                } else {
                    proof {
                        assert(forall|c: usize|
                            c < n ==> cnt_from(g, s, c, k as int + 1) == cnt_from(
                                g,
                                s,
                                c,
                                k as int,
                            ));
                    }
                }
                proof {
                    assert forall|c: usize|
                        self.live(c as int) && !order@.contains(c) && indeg@[c as int] == 0
                            && cnt_from(g, s, c, nw as int) == cnt_from(g, s, c, k as int + 1)
                         implies ready@.contains(c) by {
                        let w = self.wires@[k as int];
                        if g.considered(k as int) && w.start_comp == s && w.end_comp == c {
                            if indeg_k[c as int] == 1 {
                                assert(ready@[ready@.len() - 1] == c);
                            } else {
                                assert(indeg@[c as int] == indeg_k[c as int] - 1);
                                assert(false);
                            }
                        } else {
                            assert(cnt_from(g, s, c, k as int + 1) == cnt_from(g, s, c, k as int));
                            assert(indeg@[c as int] == indeg_k[c as int]);
                            assert(ready_k.contains(c));
                            let i = choose|i: int| 0 <= i < ready_k.len() && ready_k[i] == c;
                            assert(ready@[i] == c);
                        }
                    }
                }
                k += 1;
            }
            proof {
                assert forall|c: usize|
                    c < n implies (#[trigger] indeg@[c as int]) as nat == cnt_in(
                    g,
                    order@,
                    c,
                    nw as int,
                ) by {
                    lemma_cnt_in_push(g, order_before, s, c, nw as int);
                }
                assert forall|c: usize|
                    self.live(c as int) && !order@.contains(c) && indeg@[c as int] == 0 implies ready@.contains(
                    c,
                ) by {
                }
            }
        }
        proof {
            assert forall|c: usize|
                self.live(c as int) && !order@.contains(c) implies cnt_in(
                g,
                order@,
                c,
                nw as int,
            ) > 0 by {
                if indeg@[c as int] == 0 {
                    assert(ready@.contains(c));
                    assert(false);
                }
            }
        }
        // A left-over live node means a cycle with no clocked breaker.
        let mut c3: usize = 0;
        while c3 < n
            invariant
                c3 <= n,
                g == *self,
                self.wf(),
                n == self.nodes@.len(),
                nw == self.wires@.len(),
                placed@.len() == n as nat,
                forall|c: usize| placed@[c as int] && c < n <==> order@.contains(c),
                forall|c: usize| c < c3 && self.live(c as int) ==> order@.contains(c),
                forall|c: usize|
                    self.live(c as int) && !(#[trigger] order@.contains(c)) ==> cnt_in(
                        g,
                        order@,
                        c,
                        nw as int,
                    ) > 0,
            decreases n - c3,
        {
            let is_live = match &self.nodes[c3] {
                Some(_) => true,
                None => false,
            };
            if is_live && !placed[c3] {
                proof {
                    assert(!order@.contains(c3 as usize));
                    assert forall|ord2: Seq<usize>| !(#[trigger] self.valid_order(ord2)) by {
                        if self.valid_order(ord2) {
                            assert(ord2.contains(c3 as usize));
                            let j = choose|j: int|
                                0 <= j < ord2.len() && ord2[j] == c3 as usize;
                            assert(!order@.contains(ord2[j]));
                            let m = lemma_first_not_done(ord2, order@, j);
                            let u = ord2[m];
                            assert(self.live(u as int));
                            assert(!order@.contains(u));
                            assert(cnt_in(g, order@, u, nw as int) > 0);
                            lemma_cnt_in_pos(g, order@, u, nw as int);
                            let k = choose|k: int|
                                0 <= k < nw as int && #[trigger] g.considered(k)
                                    && g.wires@[k].end_comp == u && !order@.contains(
                                    g.wires@[k].start_comp,
                                );
                            let sw = g.wires@[k].start_comp;
                            assert(self.wire_ok(self.wires@[k]));
                            assert(self.live(sw as int));
                            assert(ord2.contains(sw));
                            let iw = choose|iw: int| 0 <= iw < ord2.len() && ord2[iw] == sw;
                            assert(self.considered(k));
                            assert(ord2[iw] == self.wires@[k].start_comp);
                            assert(ord2[m] == self.wires@[k].end_comp);
                            assert(iw < m);
                            assert(order@.contains(ord2[iw]));
                            assert(false);
                        }
                    }
                }
                return None;
            }
            c3 += 1;
        }
        proof {
            assert forall|k: int, i: int, j: int|
                self.considered(k) && 0 <= i < order@.len() && 0 <= j < order@.len() && (
            #[trigger] order@[i]) == self.wires@[k].start_comp && (#[trigger] order@[j]) == (
            #[trigger] self.wires@[k]).end_comp implies i < j by {
                let ii = choose|ii: int| 0 <= ii < j && order@[ii] == self.wires@[k].start_comp;
                if ii != i {
                    assert(order@[ii] == order@[i]);
                }
            }
            assert forall|c: usize| self.live(c as int) implies order@.contains(c) by {
            }
        }
        Some(order)
    }
}

impl Circuit {
    /// Builds the virtual wires of one valid net entry: a wire from the
    /// entry's single sender to each of its receivers, carrying the
    /// sender's current width.
    fn entry_wires(&self, t: usize) -> (ew: Vec<Wire>)
        requires
            self.wf(),
            t < self.context.tunnels@.len(),
            self.context.tunnels@[t as int].1.valid(),
        ensures
            ew@.len() == self.context.tunnels@[t as int].1.receivers@.len(),
            forall|j: int|
                0 <= j < ew@.len() ==> (#[trigger] ew@[j]).start_comp
                    == self.context.tunnels@[t as int].1.senders@[0] && ew@[j].end_comp
                    == self.context.tunnels@[t as int].1.receivers@[j] && ew@[j].is_virtual
                    && self.wire_ok(ew@[j]),
    {
        let sx = self.context.tunnels[t].1.senders[0];
        proof {
            let l = self.context.tunnels@[t as int].0@;
            assert(self.context.tunnels@[t as int].1.senders@.contains(sx)) by {
                assert(self.context.tunnels@[t as int].1.senders@[0] == sx);
            }
            assert(self.context.is_sender(l, sx));
        }
        let width = match &self.nodes[sx] {
            Some(comp) => comp.kind.get_pin_width(PinIndex::Output(0)),
            None => 0,
        };
        let mut ew: Vec<Wire> = Vec::new();
        let nr = self.context.tunnels[t].1.receivers.len();
        let mut rj: usize = 0;
        while rj < nr
            invariant
                rj <= nr,
                self.wf(),
                t < self.context.tunnels@.len(),
                self.context.tunnels@[t as int].1.valid(),
                nr == self.context.tunnels@[t as int].1.receivers@.len(),
                sx == self.context.tunnels@[t as int].1.senders@[0],
                self.live(sx as int),
                self.node(sx as int) is Tunnel,
                self.node(sx as int) matches CompKind::Tunnel(tt) && tt.kind is Sender,
                ew@.len() == rj as nat,
                forall|j: int|
                    0 <= j < ew@.len() ==> (#[trigger] ew@[j]).start_comp == sx && ew@[j].end_comp
                        == self.context.tunnels@[t as int].1.receivers@[j] && ew@[j].is_virtual
                        && self.wire_ok(ew@[j]),
            decreases nr - rj,
        {
            let r = self.context.tunnels[t].1.receivers[rj];
            proof {
                let l = self.context.tunnels@[t as int].0@;
                assert(self.context.tunnels@[t as int].1.receivers@.contains(r)) by {
                    assert(self.context.tunnels@[t as int].1.receivers@[rj as int] == r);
                }
                assert(self.context.is_receiver(l, r));
                assert(self.live(r as int));
                assert(r != sx) by {
                    if r == sx {
                        assert(self.node(r as int) == self.node(sx as int));
                    }
                }
            }
            ew.push(Wire::new(sx, 0, r, 0, width, true));
            rj += 1;
        }
        ew
    }

    /// A net entry's single sender is the only sender of its label, and
    /// each of its receivers receives on that label.
    proof fn lemma_entry_net(self, t: int)
        requires
            self.wf(),
            0 <= t < self.context.tunnels@.len(),
            self.context.tunnels@[t].1.valid(),
        ensures
            self.context.is_sender(
                self.context.tunnels@[t].0@,
                self.context.tunnels@[t].1.senders@[0],
            ),
            forall|s2: usize|
                self.context.is_sender(self.context.tunnels@[t].0@, s2) ==> s2
                    == self.context.tunnels@[t].1.senders@[0],
            forall|r: usize|
                self.context.tunnels@[t].1.receivers@.contains(r)
                    ==> #[trigger] self.context.is_receiver(self.context.tunnels@[t].0@, r),
    {
        let l = self.context.tunnels@[t].0@;
        let sx = self.context.tunnels@[t].1.senders@[0];
        assert(self.context.tunnels@[t].1.senders@.contains(sx)) by {
            assert(self.context.tunnels@[t].1.senders@[0] == sx);
        }
        assert(self.context.is_sender(l, sx));
        assert forall|s2: usize| self.context.is_sender(l, s2) implies s2 == sx by {
            let e2 = choose|e2: int|
                0 <= e2 < self.context.tunnels@.len() && (#[trigger] self.context.tunnels@[e2]).0@
                    == l && self.context.tunnels@[e2].1.senders@.contains(s2);
            assert(e2 == t);
            let j2 = choose|j2: int|
                0 <= j2 < self.context.tunnels@[t].1.senders@.len()
                    && self.context.tunnels@[t].1.senders@[j2] == s2;
            assert(j2 == 0);
        }
    }

    /// Builds the virtual wires the tunnel context currently implies: for
    /// each valid net (exactly one sender), one wire from that sender to
    /// every receiver, carrying the sender's current width.
    #[verifier::rlimit(60)]
    fn build_virtual_wires(&self) -> (vw: Vec<Wire>)
        requires
            self.wf(),
        ensures
            forall|i: int|
                0 <= i < vw@.len() ==> (#[trigger] vw@[i]).is_virtual && self.wire_ok(vw@[i]),
            vws_sound(self.context, vw@),
            vws_complete(self.context, vw@),
            vws_unique(vw@),
    {
        let mut vw: Vec<Wire> = Vec::new();
        let nt = self.context.tunnels.len();
        let mut t: usize = 0;
        while t < nt
            invariant
                t <= nt,
                self.wf(),
                nt == self.context.tunnels@.len(),
                forall|i: int|
                    0 <= i < vw@.len() ==> (#[trigger] vw@[i]).is_virtual && self.wire_ok(vw@[i]),
                gen_sound_upto(self.context, vw@, t as int),
                vws_unique(vw@),
                gen_complete_upto(self.context, vw@, t as int),
            decreases nt - t,
        {
            let valid = self.context.tunnels[t].1.is_valid();
            if valid {
                let mut ew = self.entry_wires(t);
                let ghost before = vw@;
                let ghost block = ew@;
                vw.append(&mut ew);
                proof {
                    self.lemma_entry_net(t as int);
                    let lt = self.context.tunnels@[t as int].0@;
                    let sx = self.context.tunnels@[t as int].1.senders@[0];
                    assert(vw@ == before + block);
                    assert(forall|i: int|
                        0 <= i < before.len() ==> #[trigger] vw@[i] == before[i]);
                    assert(forall|i: int|
                        before.len() <= i < vw@.len() ==> #[trigger] vw@[i] == block[i
                            - before.len()]);
                    assert(gen_sound_upto(self.context, vw@, t as int + 1)) by {
                        assert forall|w: Wire|
                            #![trigger vw@.contains(w)]
                            vw@.contains(w) implies exists|e: int|
                            #![trigger self.context.tunnels@[e].1.valid()]
                            0 <= e < t as int + 1 && self.context.tunnels@[e].1.valid()
                                && self.context.tunnels@[e].1.receivers@.contains(w.end_comp)
                                && w.start_comp == self.context.tunnels@[e].1.senders@[0] by {
                            let i = choose|i: int| 0 <= i < vw@.len() && vw@[i] == w;
                            if i < before.len() {
                                assert(before.contains(w)) by {
                                    assert(before[i] == w);
                                }
                                let e0 = choose|e0: int|
                                    #![trigger self.context.tunnels@[e0].1.valid()]
                                    0 <= e0 < t as int && self.context.tunnels@[e0].1.valid()
                                        && self.context.tunnels@[e0].1.receivers@.contains(
                                        w.end_comp,
                                    ) && w.start_comp
                                        == self.context.tunnels@[e0].1.senders@[0];
                                assert(0 <= e0 < t as int + 1);
                            } else {
                                let j = i - before.len();
                                assert(w == block[j]);
                                assert(w.end_comp
                                    == self.context.tunnels@[t as int].1.receivers@[j]);
                                assert(self.context.tunnels@[t as int].1.receivers@.contains(
                                    w.end_comp,
                                ));
                                assert(self.context.tunnels@[t as int].1.valid());
                            }
                        }
                    }
                    assert(vws_unique(vw@)) by {
                        assert forall|k1: int, k2: int|
                            0 <= k1 < k2 < vw@.len() && (#[trigger] vw@[k1]).is_virtual && (
                        #[trigger] vw@[k2]).is_virtual implies vw@[k1].end_comp
                            != vw@[k2].end_comp by {
                            if k2 >= before.len() {
                                let j2 = k2 - before.len();
                                assert(vw@[k2].end_comp
                                    == self.context.tunnels@[t as int].1.receivers@[j2]);
                                assert(self.context.tunnels@[t as int].1.receivers@.contains(
                                    vw@[k2].end_comp,
                                ));
                                assert(self.context.is_receiver(lt, vw@[k2].end_comp));
                                if k1 >= before.len() {
                                    let j1 = k1 - before.len();
                                    assert(vw@[k1].end_comp
                                        == self.context.tunnels@[t as int].1.receivers@[j1]);
                                    assert(self.context.tunnels@[t as int].1.wf());
                                    assert(self.context.tunnels@[t as int].1.receivers@[j1]
                                        != self.context.tunnels@[t as int].1.receivers@[j2]);
                                } else {
                                    if vw@[k1].end_comp == vw@[k2].end_comp {
                                        assert(before.contains(before[k1])) by {
                                            assert(before[k1] == before[k1]);
                                        }
                                        let e0 = choose|e0: int|
                                            #![trigger self.context.tunnels@[e0].1.valid()]
                                            0 <= e0 < t as int
                                                && self.context.tunnels@[e0].1.valid()
                                                && self.context.tunnels@[e0].1.receivers@.contains(
                                                before[k1].end_comp,
                                            ) && before[k1].start_comp
                                                == self.context.tunnels@[e0].1.senders@[0];
                                        let le = self.context.tunnels@[e0].0@;
                                        assert(self.context.is_receiver(le, vw@[k1].end_comp));
                                        assert(le == lt) by {
                                            assert(self.live(vw@[k2].end_comp as int));
                                        }
                                        assert(e0 == t as int);
                                        assert(false);
                                    }
                                }
                            }
                        }
                    }
                    assert(gen_complete_upto(self.context, vw@, t as int + 1)) by {
                        assert forall|e: int, r: usize|
                            #![trigger self.context.tunnels@[e].1.receivers@.contains(r)]
                            0 <= e < t as int + 1 && self.context.tunnels@[e].1.valid()
                                && self.context.tunnels@[e].1.receivers@.contains(
                                r,
                            ) implies exists|i: int|
                            #![trigger vw@[i]]
                            0 <= i < vw@.len() && vw@[i].start_comp
                                == self.context.tunnels@[e].1.senders@[0] && vw@[i].end_comp
                                == r by {
                            if e < t as int {
                                let i0 = choose|i0: int|
                                    #![trigger before[i0]]
                                    0 <= i0 < before.len() && before[i0].start_comp
                                        == self.context.tunnels@[e].1.senders@[0]
                                        && before[i0].end_comp == r;
                                assert(vw@[i0] == before[i0]);
                            } else {
                                let j = choose|j: int|
                                    0 <= j < self.context.tunnels@[t as int].1.receivers@.len()
                                        && self.context.tunnels@[t as int].1.receivers@[j] == r;
                                let i0 = before.len() + j;
                                assert(0 <= i0 < vw@.len());
                                assert(vw@[i0] == block[j]);
                                assert(block[j].start_comp
                                    == self.context.tunnels@[t as int].1.senders@[0]);
                                assert(block[j].end_comp == r);
                            }
                        }
                    }
                }
            } else {
                proof {
                    assert(gen_sound_upto(self.context, vw@, t as int + 1)) by {
                        assert forall|w: Wire|
                            #![trigger vw@.contains(w)]
                            vw@.contains(w) implies exists|e: int|
                            #![trigger self.context.tunnels@[e].1.valid()]
                            0 <= e < t as int + 1 && self.context.tunnels@[e].1.valid()
                                && self.context.tunnels@[e].1.receivers@.contains(w.end_comp)
                                && w.start_comp == self.context.tunnels@[e].1.senders@[0] by {
                            let e0 = choose|e0: int|
                                #![trigger self.context.tunnels@[e0].1.valid()]
                                0 <= e0 < t as int && self.context.tunnels@[e0].1.valid()
                                    && self.context.tunnels@[e0].1.receivers@.contains(w.end_comp)
                                    && w.start_comp == self.context.tunnels@[e0].1.senders@[0];
                            assert(0 <= e0 < t as int + 1);
                        }
                    }
                    assert(gen_complete_upto(self.context, vw@, t as int + 1)) by {
                        assert forall|e: int, r: usize|
                            #![trigger self.context.tunnels@[e].1.receivers@.contains(r)]
                            0 <= e < t as int + 1 && self.context.tunnels@[e].1.valid()
                                && self.context.tunnels@[e].1.receivers@.contains(
                                r,
                            ) implies exists|i: int|
                            #![trigger vw@[i]]
                            0 <= i < vw@.len() && vw@[i].start_comp
                                == self.context.tunnels@[e].1.senders@[0] && vw@[i].end_comp
                                == r by {
                            assert(e != t as int);
                            assert(0 <= e < t as int);
                        }
                    }
                }
            }
            t += 1;
        }
        proof {
            assert(vws_sound(self.context, vw@)) by {
                assert forall|k: int|
                    0 <= k < vw@.len() && (#[trigger] vw@[k]).is_virtual implies exists|
                    l: Seq<char>,
                |
                    #[trigger] self.context.is_receiver(l, vw@[k].end_comp)
                        && self.context.is_sender(l, vw@[k].start_comp) && (forall|s2: usize|
                        self.context.is_sender(l, s2) ==> s2 == vw@[k].start_comp) by {
                    assert(vw@.contains(vw@[k]));
                    let e = choose|e: int|
                        #![trigger self.context.tunnels@[e].1.valid()]
                        0 <= e < nt as int && self.context.tunnels@[e].1.valid()
                            && self.context.tunnels@[e].1.receivers@.contains(vw@[k].end_comp)
                            && vw@[k].start_comp == self.context.tunnels@[e].1.senders@[0];
                    self.lemma_entry_net(e);
                    let l = self.context.tunnels@[e].0@;
                    assert(self.context.is_receiver(l, vw@[k].end_comp));
                    assert(self.context.is_sender(l, vw@[k].start_comp));
                }
            }
            assert(vws_complete(self.context, vw@)) by {
                assert forall|l: Seq<char>, s: usize, r: usize|
                    #[trigger] self.context.is_sender(l, s) && (forall|s2: usize|
                        self.context.is_sender(l, s2) ==> s2 == s)
                        && #[trigger] self.context.is_receiver(l, r) implies exists|k: int|
                    0 <= k < vw@.len() && (#[trigger] vw@[k]).is_virtual && vw@[k].start_comp == s
                        && vw@[k].end_comp == r by {
                    let e = choose|e: int|
                        0 <= e < self.context.tunnels@.len() && (
                        #[trigger] self.context.tunnels@[e]).0@ == l
                            && self.context.tunnels@[e].1.senders@.contains(s);
                    assert(self.context.tunnels@[e].1.valid()) by {
                        let members = self.context.tunnels@[e].1;
                        assert(members.wf());
                        assert forall|j: int|
                            0 <= j < members.senders@.len() implies #[trigger] members.senders@[j]
                            == s by {
                            assert(members.senders@.contains(members.senders@[j]));
                            assert(self.context.is_sender(l, members.senders@[j]));
                        }
                        if members.senders@.len() >= 2 {
                            assert(members.senders@[0] == members.senders@[1]);
                            assert(false);
                        }
                        let js = choose|js: int|
                            0 <= js < members.senders@.len() && members.senders@[js] == s;
                        assert(members.senders@.len() == 1);
                    }
                    assert(self.context.tunnels@[e].1.senders@[0] == s) by {
                        let js = choose|js: int|
                            0 <= js < self.context.tunnels@[e].1.senders@.len()
                                && self.context.tunnels@[e].1.senders@[js] == s;
                        assert(js == 0);
                    }
                    let e2 = choose|e2: int|
                        0 <= e2 < self.context.tunnels@.len() && (
                        #[trigger] self.context.tunnels@[e2]).0@ == l
                            && self.context.tunnels@[e2].1.receivers@.contains(r);
                    assert(e2 == e);
                    assert(self.context.tunnels@[e].1.receivers@.contains(r));
                    let i = choose|i: int|
                        #![trigger vw@[i]]
                        0 <= i < vw@.len() && vw@[i].start_comp
                            == self.context.tunnels@[e].1.senders@[0] && vw@[i].end_comp == r;
                    assert(vw@[i].is_virtual);
                    assert(vw@[i].start_comp == s);
                    assert(vw@[i].end_comp == r);
                }
            }
        }
        vw
    }

    /// One full propagation pass.
    ///
    /// Virtual tunnel wires are regenerated wholesale from the context
    /// (exactly one per valid net and receiver, none for invalid nets),
    /// receivers of invalid nets are forced to absent, and every component
    /// is evaluated in a topological order of the dependency view,
    /// transmitting signals across wires as it goes; a width-mismatched
    /// transmission forces wire and destination to absent.  Afterwards
    /// every combinational component's outputs agree with its inputs,
    /// every wire between non-tunnel components has been transmitted,
    /// every receiver of a valid net reads its unique sender's delivery,
    /// and every receiver of an invalid net reads absent.
    ///
    /// Returns `false`, leaving every component's state untouched, exactly
    /// when no valid evaluation order exists: a feedback cycle not broken
    /// by any clocked component.
    pub fn update_signals(&mut self) -> (ok: bool)
        requires
            old(self).wf(),
        ensures
            final(self).wf(),
            final(self).nodes@.len() == old(self).nodes@.len(),
            forall|c: int| final(self).live(c) <==> old(self).live(c),
            forall|c: int|
                final(self).live(c) ==> (#[trigger] final(self).node(c)).same_shape(
                    old(self).node(c),
                ),
            final(self).context == old(self).context,
            routes_match(explicit_of(final(self).wires@), explicit_of(old(self).wires@)),
            !ok ==> final(self).nodes@ == old(self).nodes@,
            ok ==> forall|c: int|
                final(self).live(c) && (#[trigger] final(self).node(c)).clocked() ==> final(self).node(c).value_at(PinIndex::Output(0usize)) == old(self).node(c).value_at(
                    PinIndex::Output(0usize),
                ),
            ok ==> forall|c: int|
                final(self).live(c) && (#[trigger] final(self).node(c)) is Input ==> final(self).node(c).value_at(PinIndex::Output(0usize)) == old(self).node(c).value_at(
                    PinIndex::Output(0usize),
                ),
            ok ==> forall|l: Seq<char>, r: usize|
                #[trigger] final(self).context.is_receiver(l, r) && !final(self).context.net_valid(
                    l,
                ) ==> final(self).node(r as int).value_at(PinIndex::Output(0usize)) is None,
            ok ==> forall|l: Seq<char>, s: usize, r: usize|
                #[trigger] final(self).context.is_sender(l, s) && (forall|s2: usize|
                    final(self).context.is_sender(l, s2) ==> s2 == s) && #[trigger] final(self).context.is_receiver(l, r) ==> tunnel_delivery(
                    *final(self),
                    s,
                    r,
                ),
            ok ==> exists|ord: Seq<usize>| final(self).valid_order(ord),
            !ok ==> forall|ord: Seq<usize>| !(#[trigger] final(self).valid_order(ord)),
            vws_sound(final(self).context, final(self).wires@),
            vws_complete(final(self).context, final(self).wires@),
            vws_unique(final(self).wires@),
            ok ==> combinational_settled(*final(self)),
            ok ==> wires_transmitted(*final(self)),
    {
        let ghost g0 = *self;
        // Keep the explicit wires; the previous pass's virtual wires are
        // discarded wholesale.
        let mut kept: Vec<Wire> = Vec::new();
        let ghost mut src: Seq<int> = Seq::empty();
        let nw0 = self.wires.len();
        let mut k: usize = 0;
        while k < nw0
            invariant
                k <= nw0,
                *self == g0,
                self.wf(),
                nw0 == self.wires@.len(),
                src.len() == kept@.len(),
                routes_match(kept@, explicit_of(self.wires@.take(k as int))),
                forall|i: int| 0 <= i < src.len() ==> 0 <= #[trigger] src[i] < k as int,
                forall|i: int, j: int| 0 <= i < j < src.len() ==> src[i] < src[j],
                forall|i: int|
                    0 <= i < src.len() ==> (#[trigger] kept@[i]).same_route(self.wires@[src[i]]),
                forall|i: int|
                    0 <= i < src.len() ==> !(#[trigger] self.wires@[src[i]]).is_virtual,
            decreases nw0 - k,
        {
            proof {
                assert(self.wires@.take(k as int + 1).drop_last() =~= self.wires@.take(k as int));
            }
            if !self.wires[k].is_virtual {
                let ghost kept_before = kept@;
                let ghost old_src = src;
                kept.push(copy_wire(&self.wires[k]));
                proof {
                    src = src.push(k as int);
                    assert forall|i: int| 0 <= i < src.len() implies (#[trigger] kept@[i]).same_route(
                        self.wires@[src[i]],
                    ) && !self.wires@[src[i]].is_virtual by {
                        if i < src.len() - 1 {
                            assert(kept@[i] == kept_before[i]);
                            assert(src[i] == old_src[i]);
                        } else {
                            assert(src[i] == k as int);
                            assert(kept@[i] == kept@[kept@.len() - 1]);
                        }
                    }
                }
            }
            k += 1;
        }
        proof {
            assert(self.wires@.take(nw0 as int) =~= self.wires@);
        }
        // Synthesize a virtual wire from each valid net's single sender to
        // every receiver, with the sender's current width.
        let ghost n_explicit = kept@.len();
        let nt = self.context.tunnels.len();
        let mut vw = self.build_virtual_wires();
        let ghost vw_snap = vw@;
        kept.append(&mut vw);
        proof {
            assert(kept@.take(n_explicit as int) =~= kept@.subrange(0, n_explicit as int));
            assert(forall|i: int|
                0 <= i < n_explicit ==> #[trigger] kept@[i] == kept@.take(n_explicit as int)[i]);
        }
        // Commit the refreshed wire list and order the graph.
        self.wires = kept;
        let ghost g1 = *self;
        proof {
            assert(self.nodes@ == g0.nodes@);
            assert(self.context == g0.context);
            assert(forall|c: int| self.live(c) <==> g0.live(c));
            assert(forall|c: int| self.live(c) ==> #[trigger] self.node(c) == g0.node(c));
            assert(forall|i: int|
                0 <= i < n_explicit ==> !(#[trigger] self.wires@[i]).is_virtual);
            assert(forall|i: int|
                n_explicit <= i < self.wires@.len() ==> #[trigger] self.wires@[i] == vw_snap[i
                    - n_explicit]);
            assert(vws_sound(self.context, self.wires@)) by {
                assert forall|k: int|
                    0 <= k < self.wires@.len() && (#[trigger] self.wires@[k]).is_virtual implies exists|
                    l: Seq<char>,
                |
                    #[trigger] self.context.is_receiver(l, self.wires@[k].end_comp)
                        && self.context.is_sender(l, self.wires@[k].start_comp) && (forall|
                        s2: usize,
                    |
                        self.context.is_sender(l, s2) ==> s2 == self.wires@[k].start_comp) by {
                    assert(k >= n_explicit);
                    assert(self.wires@[k] == vw_snap[k - n_explicit]);
                    assert(vw_snap[k - n_explicit].is_virtual);
                }
            }
            assert(vws_complete(self.context, self.wires@)) by {
                assert forall|l: Seq<char>, sc: usize, rc: usize|
                    #[trigger] self.context.is_sender(l, sc) && (forall|s2: usize|
                        self.context.is_sender(l, s2) ==> s2 == sc)
                        && #[trigger] self.context.is_receiver(l, rc) implies exists|k: int|
                    0 <= k < self.wires@.len() && (#[trigger] self.wires@[k]).is_virtual
                        && self.wires@[k].start_comp == sc && self.wires@[k].end_comp == rc by {
                    let k0 = choose|k0: int|
                        0 <= k0 < vw_snap.len() && (#[trigger] vw_snap[k0]).is_virtual
                            && vw_snap[k0].start_comp == sc && vw_snap[k0].end_comp == rc;
                    let k = n_explicit + k0;
                    assert(self.wires@[k] == vw_snap[k0]);
                }
            }
            assert(vws_unique(self.wires@)) by {
                assert forall|k1: int, k2: int|
                    0 <= k1 < k2 < self.wires@.len() && (#[trigger] self.wires@[k1]).is_virtual
                        && (#[trigger] self.wires@[k2]).is_virtual implies self.wires@[k1].end_comp
                    != self.wires@[k2].end_comp by {
                    assert(k1 >= n_explicit && k2 >= n_explicit);
                    assert(self.wires@[k1] == vw_snap[k1 - n_explicit]);
                    assert(self.wires@[k2] == vw_snap[k2 - n_explicit]);
                }
            }
            assert(self.wf()) by {
                assert forall|kk: int|
                    0 <= kk < self.wires@.len() implies self.wire_ok(
                    #[trigger] self.wires@[kk],
                ) by {
                    if kk < n_explicit {
                        let w0 = g0.wires@[src[kk]];
                        assert(self.wires@[kk].same_route(w0));
                        assert(g0.wire_ok(w0));
                    } else {
                        assert(self.wires@[kk] == vw_snap[kk - n_explicit]);
                        assert(g0.wire_ok(vw_snap[kk - n_explicit]));
                    }
                }
                assert(self.fanin_unique()) by {
                    assert forall|k1: int, k2: int|
                        0 <= k1 < k2 < self.wires@.len() && !(
                    #[trigger] self.wires@[k1]).is_virtual && !(
                    #[trigger] self.wires@[k2]).is_virtual implies !(self.wires@[k1].end_comp
                        == self.wires@[k2].end_comp && self.wires@[k1].end_pin
                        == self.wires@[k2].end_pin) by {
                        assert(k1 < n_explicit && k2 < n_explicit);
                        assert(self.wires@[k1].same_route(g0.wires@[src[k1]]));
                        assert(self.wires@[k2].same_route(g0.wires@[src[k2]]));
                        assert(src[k1] < src[k2]);
                    }
                }
            }
            assert(routes_match(explicit_of(self.wires@), explicit_of(g0.wires@))) by {
                lemma_explicit_of_mixed(self.wires@, n_explicit as int);
                assert(explicit_of(self.wires@) =~= self.wires@.take(n_explicit as int));
            }
        }
        let order = match self.toposort() {
            Some(o) => o,
            None => {
                return false;
            },
        };
        proof {
            assert(vws_sound(g1.context, g1.wires@));
            assert(vws_complete(g1.context, g1.wires@));
            assert(vws_unique(g1.wires@));
        }
        // Force every receiver of an invalid net to absent.
        let mut t2: usize = 0;
        while t2 < nt
            invariant
                t2 <= nt,
                self.wf(),
                self.wires@ == g1.wires@,
                self.context == g1.context,
                self.context == g0.context,
                nt == self.context.tunnels@.len(),
                self.nodes@.len() == g0.nodes@.len(),
                forall|c: int| self.live(c) <==> g0.live(c),
                forall|c: int|
                    self.live(c) ==> (#[trigger] self.node(c)).same_shape(g0.node(c)),
                forall|c: int|
                    self.live(c) && !(self.node(c) is Tunnel) ==> #[trigger] self.nodes@[c]
                        == g0.nodes@[c],
                self.valid_order(order@),
            decreases nt - t2,
        {
            let valid = self.context.tunnels[t2].1.is_valid();
            if !valid {
                let nr = self.context.tunnels[t2].1.receivers.len();
                let mut rj: usize = 0;
                while rj < nr
                    invariant
                        rj <= nr,
                        t2 < nt,
                        self.wf(),
                        self.wires@ == g1.wires@,
                        self.context == g1.context,
                        self.context == g0.context,
                        nt == self.context.tunnels@.len(),
                        nr == self.context.tunnels@[t2 as int].1.receivers@.len(),
                        self.nodes@.len() == g0.nodes@.len(),
                        forall|c: int| self.live(c) <==> g0.live(c),
                        forall|c: int|
                            self.live(c) ==> (#[trigger] self.node(c)).same_shape(g0.node(c)),
                        forall|c: int|
                            self.live(c) && !(self.node(c) is Tunnel) ==> #[trigger] self.nodes@[c]
                                == g0.nodes@[c],
                        self.valid_order(order@),
                    decreases nr - rj,
                {
                    let r = self.context.tunnels[t2].1.receivers[rj];
                    proof {
                        let l = self.context.tunnels@[t2 as int].0@;
                        assert(self.context.tunnels@[t2 as int].1.receivers@.contains(r)) by {
                            assert(self.context.tunnels@[t2 as int].1.receivers@[rj as int] == r);
                        }
                        assert(self.context.is_receiver(l, r));
                        assert(self.live(r as int));
                    }
                    let ghost pre = *self;
                    match &mut self.nodes[r] {
                        Some(comp) => {
                            comp.kind.set_pin_value(PinIndex::Output(0), None);
                        },
                        None => {},
                    }
                    proof {
                        assert(forall|c: int|
                            0 <= c < self.nodes@.len() && c != r as int ==> #[trigger] self.nodes@[c]
                                == pre.nodes@[c]);
                        lemma_wf_after_node_change(pre, *self);
                    }
                    rj += 1;
                }
            }
            t2 += 1;
        }
        let ghost g2 = *self;
        proof {
            assert(g2.valid_order(order@));
            assert forall|c: int|
                self.live(c) implies (#[trigger] self.node(c)).same_shape(g2.node(c)) by {
                lemma_same_shape_refl(self.node(c));
            }
        }
        // Evaluate every component in dependency order, transmitting along
        // each of its outgoing wires.
        let mut step: usize = 0;
        while step < order.len()
            invariant
                step <= order@.len(),
                self.wf(),
                self.nodes@.len() == g2.nodes@.len(),
                forall|c: int| self.live(c) <==> g2.live(c),
                forall|c: int|
                    self.live(c) ==> (#[trigger] self.node(c)).same_shape(g2.node(c)),
                self.context == g2.context,
                routes_match(self.wires@, g2.wires@),
                g2.valid_order(order@),
                forall|ti: int|
                    0 <= ti < step as int ==> #[trigger] settled_at(*self, order@[ti] as int),
                forall|k: int, ti: int|
                    0 <= k < self.wires@.len() && 0 <= ti < step as int && (#[trigger] order@[ti])
                        == (#[trigger] self.wires@[k]).start_comp ==> wire_done(*self, k),
                forall|c: int|
                    self.live(c) && (#[trigger] self.node(c)).clocked() ==> self.node(c).value_at(
                        PinIndex::Output(0usize),
                    ) == g2.node(c).value_at(PinIndex::Output(0usize)),
                forall|c: int|
                    self.live(c) && (#[trigger] self.node(c)) is Input ==> self.node(c).value_at(
                        PinIndex::Output(0usize),
                    ) == g2.node(c).value_at(PinIndex::Output(0usize)),
            decreases order@.len() - step,
        {
            let cx = order[step];
            proof {
                assert(g2.live(cx as int));
                assert(self.live(cx as int));
            }
            let ghost pre_eval = *self;
            proof {
                assert(self.node(cx as int).wf());
            }
            match &mut self.nodes[cx] {
                Some(comp) => {
                    comp.do_logic();
                },
                None => {},
            }
            proof {
                assert(forall|c: int|
                    0 <= c < self.nodes@.len() && c != cx as int ==> #[trigger] self.nodes@[c]
                        == pre_eval.nodes@[c]);
                assert forall|c: int|
                    self.live(c) implies (#[trigger] self.node(c)).same_shape(g2.node(c)) by {
                    if c == cx as int {
                        lemma_same_shape_trans(self.node(c), pre_eval.node(c), g2.node(c));
                    }
                }
                lemma_wf_after_node_change(pre_eval, *self);
                assert(settled_at(*self, cx as int)) by {
                    if !self.node(cx as int).clocked() {
                        crate::laws::lemma_eval_idempotent(
                            pre_eval.node(cx as int),
                            self.node(cx as int),
                        );
                    }
                }
                assert forall|ti: int|
                    0 <= ti < step as int implies #[trigger] settled_at(
                    *self,
                    order@[ti] as int,
                ) by {
                    let c = order@[ti] as int;
                    assert(order@[ti] != order@[step as int]);
                    assert(self.nodes@[c] == pre_eval.nodes@[c]);
                    assert(self.node(c) == pre_eval.node(c));
                    lemma_settled_transport(pre_eval, *self, c);
                }
                assert forall|k: int, ti: int|
                    0 <= k < self.wires@.len() && 0 <= ti < step as int && (#[trigger] order@[ti])
                        == (#[trigger] self.wires@[k]).start_comp implies wire_done(*self, k) by {
                    let w = self.wires@[k];
                    assert(w == pre_eval.wires@[k]);
                    assert(wire_done(pre_eval, k));
                    assert(order@[ti] != order@[step as int]);
                    assert(w.start_comp != cx);
                    assert(self.nodes@[w.start_comp as int] == pre_eval.nodes@[w.start_comp as int]);
                    if w.end_comp == cx {
                        if !(self.node(cx as int) is Tunnel) {
                            assert(pre_eval.wire_ok(w));
                            assert((w.end_pin as nat) < pre_eval.node(cx as int).n_ins());
                            assert(self.node(cx as int).value_at(PinIndex::Input(w.end_pin))
                                == pre_eval.node(cx as int).value_at(PinIndex::Input(w.end_pin)));
                            lemma_shape_counts(self.node(cx as int), pre_eval.node(cx as int));
                        }
                    } else {
                        assert(self.nodes@[w.end_comp as int] == pre_eval.nodes@[w.end_comp as int]);
                    }
                }
                assert forall|c: int|
                    self.live(c) && (#[trigger] self.node(c)).clocked() implies self.node(
                    c,
                ).value_at(PinIndex::Output(0usize)) == g2.node(c).value_at(
                    PinIndex::Output(0usize),
                ) by {
                    if c == cx as int {
                        assert(crate::component::eval_out(pre_eval.node(c), 0) == pre_eval.node(
                            c,
                        ).value_at(PinIndex::Output(0usize)));
                    }
                }
                assert forall|c: int|
                    self.live(c) && (#[trigger] self.node(c)) is Input implies self.node(
                    c,
                ).value_at(PinIndex::Output(0usize)) == g2.node(c).value_at(
                    PinIndex::Output(0usize),
                ) by {
                    if c == cx as int {
                        assert(crate::component::eval_out(pre_eval.node(c), 0) == pre_eval.node(
                            c,
                        ).value_at(PinIndex::Output(0usize)));
                    }
                }
            }
            let nwk = self.wires.len();
            let mut wk: usize = 0;
            while wk < nwk
                invariant
                    wk <= nwk,
                    nwk == self.wires@.len(),
                    self.wf(),
                    self.nodes@.len() == g2.nodes@.len(),
                    forall|c: int| self.live(c) <==> g2.live(c),
                    forall|c: int|
                        self.live(c) ==> (#[trigger] self.node(c)).same_shape(g2.node(c)),
                    self.context == g2.context,
                    routes_match(self.wires@, g2.wires@),
                    g2.valid_order(order@),
                    step < order@.len(),
                    order@[step as int] == cx,
                    settled_at(*self, cx as int),
                    forall|ti: int|
                        0 <= ti < step as int ==> #[trigger] settled_at(*self, order@[ti] as int),
                    forall|k: int, ti: int|
                        0 <= k < self.wires@.len() && 0 <= ti < step as int && (
                        #[trigger] order@[ti]) == (#[trigger] self.wires@[k]).start_comp
                            ==> wire_done(*self, k),
                    forall|k: int|
                        0 <= k < wk as int && (#[trigger] self.wires@[k]).start_comp == cx
                            ==> wire_done(*self, k),
                    forall|c: int|
                        self.live(c) && (#[trigger] self.node(c)).clocked() ==> self.node(
                            c,
                        ).value_at(PinIndex::Output(0usize)) == g2.node(c).value_at(
                            PinIndex::Output(0usize),
                        ),
                    forall|c: int|
                        self.live(c) && (#[trigger] self.node(c)) is Input ==> self.node(
                            c,
                        ).value_at(PinIndex::Output(0usize)) == g2.node(c).value_at(
                            PinIndex::Output(0usize),
                        ),
                decreases nwk - wk,
            {
                let from_cx = self.wires[wk].start_comp == cx;
                if from_cx {
                    let sc = self.wires[wk].start_comp;
                    let ec = self.wires[wk].end_comp;
                    let sp = self.wires[wk].start_pin;
                    let ep = self.wires[wk].end_pin;
                    proof {
                        assert(self.wire_ok(self.wires@[wk as int]));
                        lemma_wire_pins_ok(*self, self.wires@[wk as int]);
                    }
                    let sw = match &self.nodes[sc] {
                        Some(comp) => comp.kind.get_pin_width(PinIndex::Output(sp)),
                        None => 0,
                    };
                    let ew = match &self.nodes[ec] {
                        Some(comp) => comp.kind.get_pin_width(PinIndex::Input(ep)),
                        None => 0,
                    };
                    let ghost pre_tx = *self;
                    if sw == ew {
                        let v = match &self.nodes[sc] {
                            Some(comp) => comp.kind.get_pin_value(PinIndex::Output(sp)),
                            None => None,
                        };
                        proof {
                            lemma_value_width(pre_tx.node(sc as int), PinIndex::Output(sp));
                        }
                        let v2 = copy_signal(&v);
                        match &mut self.nodes[ec] {
                            Some(comp) => {
                                comp.kind.set_pin_value(PinIndex::Input(ep), v);
                            },
                            None => {},
                        }
                        self.wires[wk].set_signal(v2);
                    } else {
                        match &mut self.nodes[ec] {
                            Some(comp) => {
                                comp.kind.set_pin_value(PinIndex::Input(ep), None);
                            },
                            None => {},
                        }
                        self.wires[wk].set_signal(None);
                    }
                    proof {
                        assert(forall|c: int|
                            0 <= c < self.nodes@.len() && c != ec as int ==> #[trigger] self.nodes@[c]
                                == pre_tx.nodes@[c]);
                        assert(routes_match(self.wires@, pre_tx.wires@)) by {
                            assert(forall|i: int|
                                0 <= i < self.wires@.len() && i != wk as int
                                    ==> #[trigger] self.wires@[i] == pre_tx.wires@[i]);
                        }
                        assert forall|c: int|
                            self.live(c) implies (#[trigger] self.node(c)).same_shape(
                            g2.node(c),
                        ) by {
                            if c == ec as int {
                                lemma_same_shape_trans(self.node(c), pre_tx.node(c), g2.node(c));
                            }
                        }
                        lemma_wf_after_node_change(pre_tx, *self);
                        assert(settled_at(*self, cx as int)) by {
                            assert(cx != ec);
                            assert(self.node(cx as int) == pre_tx.node(cx as int));
                            lemma_settled_transport(pre_tx, *self, cx as int);
                        }
                        assert forall|ti: int|
                            0 <= ti < step as int implies #[trigger] settled_at(
                            *self,
                            order@[ti] as int,
                        ) by {
                            let c = order@[ti] as int;
                            if c == ec as int {
                                if self.node(c) is Tunnel {
                                    lemma_tunnel_settled(*self, c);
                                } else if !self.node(c).clocked() {
                                    assert(pre_tx.wires@[wk as int].start_comp == cx);
                                    assert(pre_tx.wires@[wk as int].end_comp == ec);
                                    assert(pre_tx.wires@[wk as int].same_route(
                                        g2.wires@[wk as int],
                                    ));
                                    assert(g2.node(ec as int).clocked() == self.node(
                                        ec as int,
                                    ).clocked());
                                    assert(g2.considered(wk as int));
                                    assert(order@[step as int] == g2.wires@[wk as int].start_comp);
                                    assert(order@[ti] == g2.wires@[wk as int].end_comp);
                                    assert((step as int) < ti);
                                    assert(false);
                                }
                            } else {
                                assert(self.nodes@[c] == pre_tx.nodes@[c]);
                                assert(self.node(c) == pre_tx.node(c));
                                lemma_settled_transport(pre_tx, *self, c);
                            }
                        }
                        assert(self.wires@[wk as int].start_comp == cx && self.wires@[wk as int].end_comp
                            == ec && self.wires@[wk as int].end_pin == ep
                            && self.wires@[wk as int].start_pin == sp);
                        assert(wire_done(*self, wk as int)) by {
                            if !(self.node(cx as int) is Tunnel) && !(self.node(ec as int)
                                is Tunnel) {
                                assert(self.node(cx as int) == pre_tx.node(cx as int));
                                lemma_shape_counts(self.node(ec as int), pre_tx.node(ec as int));
                            }
                        }
                        assert forall|k: int|
                            0 <= k < wk as int + 1 && (#[trigger] self.wires@[k]).start_comp == cx
                             implies wire_done(*self, k) by {
                            if k < wk as int {
                                assert(self.wires@[k] == pre_tx.wires@[k]);
                                assert(wire_done(pre_tx, k));
                                lemma_wire_done_preserved(pre_tx, *self, k, wk as int);
                            }
                        }
                        assert forall|k: int, ti: int|
                            0 <= k < self.wires@.len() && 0 <= ti < step as int && (
                        #[trigger] order@[ti]) == (#[trigger] self.wires@[k]).start_comp implies wire_done(
                            *self,
                            k,
                        ) by {
                            assert(order@[ti] != order@[step as int]);
                            assert(k != wk as int);
                            assert(self.wires@[k] == pre_tx.wires@[k]);
                            assert(wire_done(pre_tx, k));
                            lemma_wire_done_preserved(pre_tx, *self, k, wk as int);
                        }
                        assert forall|c: int|
                            self.live(c) && (#[trigger] self.node(c)).clocked() implies self.node(
                            c,
                        ).value_at(PinIndex::Output(0usize)) == g2.node(c).value_at(
                            PinIndex::Output(0usize),
                        ) by {
                            if c == ec as int {
                                assert(!pre_tx.node(c).same_pin(
                                    PinIndex::Input(ep),
                                    PinIndex::Output(0usize),
                                ));
                            }
                        }
                        assert forall|c: int|
                            self.live(c) && (#[trigger] self.node(c)) is Input implies self.node(
                            c,
                        ).value_at(PinIndex::Output(0usize)) == g2.node(c).value_at(
                            PinIndex::Output(0usize),
                        ) by {
                            if c == ec as int {
                                assert(pre_tx.node(c) is Input);
                                assert(pre_tx.wire_ok(pre_tx.wires@[wk as int]));
                                if pre_tx.wires@[wk as int].is_virtual {
                                    assert(pre_tx.node(c) is Tunnel);
                                } else {
                                    assert((pre_tx.wires@[wk as int].end_pin as nat)
                                        < pre_tx.node(c).n_ins());
                                }
                                assert(false);
                            }
                        }
                    }
                }
                wk += 1;
            }
            step += 1;
        }
        let ghost g3 = *self;
        // Re-establish every net's delivery at the end of the pass.
        // Evaluation has already transmitted along each virtual wire and
        // nothing wrote the receivers afterwards, so these writes change no
        // value; restating them makes the net-validity guarantee a local
        // fact instead of a consequence of the evaluation order.
        let mut t3: usize = 0;
        while t3 < nt
            invariant
                t3 <= nt,
                nt == self.context.tunnels@.len(),
                self.wf(),
                self.nodes@.len() == g3.nodes@.len(),
                forall|c: int| self.live(c) <==> g3.live(c),
                forall|c: int|
                    self.live(c) ==> (#[trigger] self.node(c)).same_shape(g3.node(c)),
                self.context == g3.context,
                self.wires@ == g3.wires@,
                forall|l2: Seq<char>, c2: usize|
                    #[trigger] self.context.is_sender(l2, c2) ==> self.nodes@[c2 as int]
                        == g3.nodes@[c2 as int],
                forall|c2: int|
                    self.live(c2) && !(#[trigger] self.node(c2) is Tunnel) ==> self.nodes@[c2]
                        == g3.nodes@[c2],
                forall|e: int| 0 <= e < t3 as int ==> #[trigger] entry_done(*self, e),
            decreases nt - t3,
        {
            let valid = self.context.tunnels[t3].1.is_valid();
            let nr = self.context.tunnels[t3].1.receivers.len();
            let ghost lt = self.context.tunnels@[t3 as int].0@;
            if valid {
                let sx = self.context.tunnels[t3].1.senders[0];
                proof {
                    assert(self.context.tunnels@[t3 as int].1.senders@.contains(sx)) by {
                        assert(self.context.tunnels@[t3 as int].1.senders@[0] == sx);
                    }
                    assert(self.context.is_sender(lt, sx));
                    assert(self.live(sx as int));
                }
                let mut rj: usize = 0;
                while rj < nr
                    invariant
                        rj <= nr,
                        t3 < nt,
                        nt == self.context.tunnels@.len(),
                        nr == self.context.tunnels@[t3 as int].1.receivers@.len(),
                        self.context.tunnels@[t3 as int].1.valid(),
                        lt == self.context.tunnels@[t3 as int].0@,
                        sx == self.context.tunnels@[t3 as int].1.senders@[0],
                        self.context.is_sender(lt, sx),
                        self.live(sx as int),
                        self.wf(),
                        self.nodes@.len() == g3.nodes@.len(),
                        forall|c: int| self.live(c) <==> g3.live(c),
                        forall|c: int|
                            self.live(c) ==> (#[trigger] self.node(c)).same_shape(g3.node(c)),
                        self.context == g3.context,
                        self.wires@ == g3.wires@,
                        forall|l2: Seq<char>, c2: usize|
                            #[trigger] self.context.is_sender(l2, c2) ==> self.nodes@[c2 as int]
                                == g3.nodes@[c2 as int],
                        forall|c2: int|
                            self.live(c2) && !(#[trigger] self.node(c2) is Tunnel)
                                ==> self.nodes@[c2] == g3.nodes@[c2],
                        forall|e: int| 0 <= e < t3 as int ==> #[trigger] entry_done(*self, e),
                        forall|j: int|
                            0 <= j < rj as int ==> tunnel_delivery(
                                *self,
                                sx,
                                #[trigger] self.context.tunnels@[t3 as int].1.receivers@[j],
                            ),
                    decreases nr - rj,
                {
                    let r = self.context.tunnels[t3].1.receivers[rj];
                    proof {
                        assert(self.context.tunnels@[t3 as int].1.receivers@.contains(r)) by {
                            assert(self.context.tunnels@[t3 as int].1.receivers@[rj as int] == r);
                        }
                        assert(self.context.is_receiver(lt, r));
                        assert(self.live(r as int));
                        assert(r != sx) by {
                            if r == sx {
                                assert(self.node(r as int) == self.node(sx as int));
                            }
                        }
                    }
                    let sw = match &self.nodes[sx] {
                        Some(comp) => comp.kind.get_pin_width(PinIndex::Output(0)),
                        None => 0,
                    };
                    let rw = match &self.nodes[r] {
                        Some(comp) => comp.kind.get_pin_width(PinIndex::Output(0)),
                        None => 0,
                    };
                    let ghost pre = *self;
                    if sw == rw {
                        let v = match &self.nodes[sx] {
                            Some(comp) => comp.kind.get_pin_value(PinIndex::Output(0)),
                            None => None,
                        };
                        proof {
                            lemma_value_width(pre.node(sx as int), PinIndex::Output(0usize));
                        }
                        match &mut self.nodes[r] {
                            Some(comp) => {
                                comp.kind.set_pin_value(PinIndex::Output(0), v);
                            },
                            None => {},
                        }
                    } else {
                        match &mut self.nodes[r] {
                            Some(comp) => {
                                comp.kind.set_pin_value(PinIndex::Output(0), None);
                            },
                            None => {},
                        }
                    }
                    proof {
                        assert(forall|c: int|
                            0 <= c < self.nodes@.len() && c != r as int ==> #[trigger] self.nodes@[c]
                                == pre.nodes@[c]);
                        assert(routes_match(self.wires@, pre.wires@)) by {
                            assert(forall|i: int|
                                0 <= i < self.wires@.len() ==> (
                                #[trigger] self.wires@[i]).same_route(pre.wires@[i]));
                        }
                        lemma_wf_after_node_change(pre, *self);
                        lemma_finish_write(pre, *self, g3, lt, r, t3 as int);
                        assert forall|c: int|
                            self.live(c) implies (#[trigger] self.node(c)).same_shape(
                            g3.node(c),
                        ) by {
                            if c == r as int {
                                lemma_same_shape_trans(self.node(c), pre.node(c), g3.node(c));
                            } else {
                                assert(self.nodes@[c] == pre.nodes@[c]);
                            }
                        }
                        assert(self.nodes@[sx as int] == pre.nodes@[sx as int]);
                        assert(tunnel_delivery(*self, sx, r)) by {
                            assert(self.node(sx as int) == pre.node(sx as int));
                        }
                        assert forall|j: int|
                            0 <= j < rj as int + 1 implies tunnel_delivery(
                            *self,
                            sx,
                            #[trigger] self.context.tunnels@[t3 as int].1.receivers@[j],
                        ) by {
                            let rr = self.context.tunnels@[t3 as int].1.receivers@[j];
                            if j < rj as int {
                                assert(self.context.tunnels@[t3 as int].1.wf());
                                assert(rr != r);
                                assert(self.context.tunnels@[t3 as int].1.receivers@.contains(rr));
                                assert(pre.context.is_receiver(lt, rr));
                                assert(pre.live(rr as int));
                                assert(self.nodes@[rr as int] == pre.nodes@[rr as int]);
                                assert(tunnel_delivery(pre, sx, rr));
                            }
                        }
                    }
                    rj += 1;
                }
                proof {
                    assert forall|e: int|
                        0 <= e < t3 as int + 1 implies #[trigger] entry_done(*self, e) by {
                        if e == t3 as int {
                            assert(entry_done(*self, e)) by {
                                assert forall|j: int|
                                    0 <= j < self.context.tunnels@[e].1.receivers@.len() implies tunnel_delivery(
                                    *self,
                                    self.context.tunnels@[e].1.senders@[0],
                                    #[trigger] self.context.tunnels@[e].1.receivers@[j],
                                ) by {
                                }
                            }
                        }
                    }
                }
            } else {
                let mut rj: usize = 0;
                while rj < nr
                    invariant
                        rj <= nr,
                        t3 < nt,
                        nt == self.context.tunnels@.len(),
                        nr == self.context.tunnels@[t3 as int].1.receivers@.len(),
                        !self.context.tunnels@[t3 as int].1.valid(),
                        lt == self.context.tunnels@[t3 as int].0@,
                        self.wf(),
                        self.nodes@.len() == g3.nodes@.len(),
                        forall|c: int| self.live(c) <==> g3.live(c),
                        forall|c: int|
                            self.live(c) ==> (#[trigger] self.node(c)).same_shape(g3.node(c)),
                        self.context == g3.context,
                        self.wires@ == g3.wires@,
                        forall|l2: Seq<char>, c2: usize|
                            #[trigger] self.context.is_sender(l2, c2) ==> self.nodes@[c2 as int]
                                == g3.nodes@[c2 as int],
                        forall|c2: int|
                            self.live(c2) && !(#[trigger] self.node(c2) is Tunnel)
                                ==> self.nodes@[c2] == g3.nodes@[c2],
                        forall|e: int| 0 <= e < t3 as int ==> #[trigger] entry_done(*self, e),
                        forall|j: int|
                            0 <= j < rj as int ==> self.node(
                                (#[trigger] self.context.tunnels@[t3 as int].1.receivers@[j]) as int,
                            ).value_at(PinIndex::Output(0usize)) is None,
                    decreases nr - rj,
                {
                    let r = self.context.tunnels[t3].1.receivers[rj];
                    proof {
                        assert(self.context.tunnels@[t3 as int].1.receivers@.contains(r)) by {
                            assert(self.context.tunnels@[t3 as int].1.receivers@[rj as int] == r);
                        }
                        assert(self.context.is_receiver(lt, r));
                        assert(self.live(r as int));
                    }
                    let ghost pre = *self;
                    match &mut self.nodes[r] {
                        Some(comp) => {
                            comp.kind.set_pin_value(PinIndex::Output(0), None);
                        },
                        None => {},
                    }
                    proof {
                        assert(forall|c: int|
                            0 <= c < self.nodes@.len() && c != r as int ==> #[trigger] self.nodes@[c]
                                == pre.nodes@[c]);
                        assert(routes_match(self.wires@, pre.wires@)) by {
                            assert(forall|i: int|
                                0 <= i < self.wires@.len() ==> (
                                #[trigger] self.wires@[i]).same_route(pre.wires@[i]));
                        }
                        lemma_wf_after_node_change(pre, *self);
                        lemma_finish_write(pre, *self, g3, lt, r, t3 as int);
                        assert forall|c: int|
                            self.live(c) implies (#[trigger] self.node(c)).same_shape(
                            g3.node(c),
                        ) by {
                            if c == r as int {
                                lemma_same_shape_trans(self.node(c), pre.node(c), g3.node(c));
                            } else {
                                assert(self.nodes@[c] == pre.nodes@[c]);
                            }
                        }
                        assert forall|j: int|
                            0 <= j < rj as int + 1 implies self.node(
                            (#[trigger] self.context.tunnels@[t3 as int].1.receivers@[j]) as int,
                        ).value_at(PinIndex::Output(0usize)) is None by {
                            let rr = self.context.tunnels@[t3 as int].1.receivers@[j];
                            if j < rj as int {
                                assert(self.context.tunnels@[t3 as int].1.wf());
                                assert(rr != r);
                                assert(self.context.tunnels@[t3 as int].1.receivers@.contains(rr));
                                assert(pre.context.is_receiver(lt, rr));
                                assert(pre.live(rr as int));
                                assert(self.nodes@[rr as int] == pre.nodes@[rr as int]);
                                assert(pre.node(rr as int).value_at(PinIndex::Output(0usize))
                                    is None);
                            }
                        }
                    }
                    rj += 1;
                }
                proof {
                    assert forall|e: int|
                        0 <= e < t3 as int + 1 implies #[trigger] entry_done(*self, e) by {
                        if e == t3 as int {
                            assert(entry_done(*self, e)) by {
                                assert forall|j: int|
                                    0 <= j < self.context.tunnels@[e].1.receivers@.len() implies self.node(
                                    (#[trigger] self.context.tunnels@[e].1.receivers@[j]) as int,
                                ).value_at(PinIndex::Output(0usize)) is None by {
                                }
                            }
                        }
                    }
                }
            }
            t3 += 1;
        }
        proof {
            lemma_entry_forms(*self);
            assert(routes_match(self.wires@, g2.wires@)) by {
                assert(self.wires@ == g3.wires@);
                assert forall|i: int|
                    0 <= i < self.wires@.len() implies (#[trigger] self.wires@[i]).same_route(
                    g2.wires@[i],
                ) by {
                    assert(g3.wires@[i].same_route(g2.wires@[i]));
                }
            }
            assert forall|c: int|
                self.live(c) implies (#[trigger] self.node(c)).same_shape(g2.node(c)) by {
                lemma_same_shape_trans(self.node(c), g3.node(c), g2.node(c));
            }
            lemma_valid_order_transport(g2, *self, order@);
            assert(g2.wires@ == g1.wires@);
            lemma_vws_transport(g1.context, g1.wires@, self.wires@);
            assert(wires_transmitted(*self)) by {
                assert forall|k: int|
                    0 <= k < self.wires@.len() implies #[trigger] wire_done(*self, k) by {
                    let w = g3.wires@[k];
                    assert(self.wires@[k] == g3.wires@[k]);
                    assert(g3.wire_ok(w));
                    assert(g2.live(w.start_comp as int));
                    assert(order@.contains(w.start_comp));
                    let ti = choose|ti: int|
                        0 <= ti < order@.len() && order@[ti] == w.start_comp;
                    assert(wire_done(g3, k));
                    if !(self.node(w.start_comp as int) is Tunnel) && !(self.node(
                        w.end_comp as int,
                    ) is Tunnel) {
                        assert(self.nodes@[w.start_comp as int] == g3.nodes@[w.start_comp as int]);
                        assert(self.nodes@[w.end_comp as int] == g3.nodes@[w.end_comp as int]);
                    }
                }
            }
            assert(combinational_settled(*self)) by {
                assert forall|cxx: int| self.live(cxx) implies #[trigger] settled_at(
                    *self,
                    cxx,
                ) by {
                    if self.node(cxx) is Tunnel {
                        lemma_tunnel_settled(*self, cxx);
                    } else if !self.node(cxx).clocked() {
                        assert(g2.live(cxx));
                        lemma_vec_len_bound(&g2.nodes);
                        assert((cxx as usize) as int == cxx);
                        assert(g2.live((cxx as usize) as int));
                        assert(order@.contains(cxx as usize));
                        let ti = choose|ti: int|
                            0 <= ti < order@.len() && order@[ti] == cxx as usize;
                        assert(settled_at(g3, order@[ti] as int));
                        assert(order@[ti] as int == cxx);
                        assert(self.nodes@[cxx] == g3.nodes@[cxx]);
                        assert(self.node(cxx) == g3.node(cxx));
                        lemma_settled_transport(g3, *self, cxx);
                    }
                }
            }
            lemma_explicit_routes(self.wires@, g3.wires@);
            lemma_explicit_routes(g3.wires@, g2.wires@);
            lemma_explicit_routes_trans(
                explicit_of(self.wires@),
                explicit_of(g3.wires@),
                explicit_of(g2.wires@),
            );
            lemma_explicit_routes_trans(
                explicit_of(self.wires@),
                explicit_of(g2.wires@),
                explicit_of(g0.wires@),
            );
            assert forall|c: int|
                self.live(c) implies (#[trigger] self.node(c)).same_shape(g0.node(c)) by {
                lemma_same_shape_trans(self.node(c), g3.node(c), g2.node(c));
                lemma_same_shape_trans(self.node(c), g2.node(c), g0.node(c));
            }
            assert forall|c: int|
                self.live(c) && (#[trigger] self.node(c)).clocked() implies self.node(c).value_at(
                PinIndex::Output(0usize),
            ) == g2.node(c).value_at(PinIndex::Output(0usize)) by {
                assert(!(self.node(c) is Tunnel));
                assert(self.nodes@[c] == g3.nodes@[c]);
            }
            assert forall|c: int|
                self.live(c) && (#[trigger] self.node(c)) is Input implies self.node(c).value_at(
                PinIndex::Output(0usize),
            ) == g2.node(c).value_at(PinIndex::Output(0usize)) by {
                assert(!(self.node(c) is Tunnel));
                assert(self.nodes@[c] == g3.nodes@[c]);
            }
        }
        true
    }
}

impl Circuit {
    /// A explicit wire already terminates at input pin `dp` of node `d`.
    pub open spec fn pin_driven(self, d: usize, dp: usize) -> bool {
        exists|k: int|
            0 <= k < self.wires@.len() && !(#[trigger] self.wires@[k]).is_virtual
                && self.wires@[k].end_comp == d && self.wires@[k].end_pin == dp
    }

    /// Whether a wire may be created from output pin `sp` of `s` to input
    /// pin `dp` of `d`: both pins exist, the widths agree, and the input
    /// pin is not already driven.
    pub open spec fn dir_allowed(self, s: usize, sp: usize, d: usize, dp: usize) -> bool {
        &&& (sp as nat) < self.node(s as int).n_outs()
        &&& (dp as nat) < self.node(d as int).n_ins()
        &&& self.node(s as int).width_at(PinIndex::Output(sp)) == self.node(d as int).width_at(
            PinIndex::Input(dp),
        )
        &&& !self.pin_driven(d, dp)
    }

    /// The source and destination a connection attempt names, as
    /// (source component, output pin, destination component, input pin),
    /// whichever order the two pins were given in.
    pub open spec fn connect_route(
        cx_a: usize,
        px_a: PinIndex,
        cx_b: usize,
        px_b: PinIndex,
    ) -> (usize, usize, usize, usize) {
        match (px_a, px_b) {
            (PinIndex::Output(i), PinIndex::Input(j)) => (cx_a, i, cx_b, j),
            (PinIndex::Input(i), PinIndex::Output(j)) => (cx_b, j, cx_a, i),
            _ => (cx_a, 0, cx_b, 0),
        }
    }

    /// Whether a connection attempt between the two named pins is accepted:
    /// distinct live components, exactly one output and one input pin, equal
    /// widths, and a free input pin.
    pub open spec fn connect_allowed(
        self,
        cx_a: usize,
        px_a: PinIndex,
        cx_b: usize,
        px_b: PinIndex,
    ) -> bool {
        &&& cx_a != cx_b
        &&& self.live(cx_a as int)
        &&& self.live(cx_b as int)
        &&& match (px_a, px_b) {
            (PinIndex::Output(i), PinIndex::Input(j)) => self.dir_allowed(cx_a, i, cx_b, j),
            (PinIndex::Input(i), PinIndex::Output(j)) => self.dir_allowed(cx_b, j, cx_a, i),
            _ => false,
        }
    }

    /// Attempts to wire two pins together.
    ///
    /// Fails, mutating nothing, on a self-connection, a dead or missing
    /// endpoint, pin roles that are not exactly one output and one input,
    /// unequal widths, or an input pin that already has an incoming
    /// explicit wire.  On success the wire is created and a full
    /// propagation pass runs.
    pub fn try_connect(&mut self, cx_a: usize, px_a: PinIndex, cx_b: usize, px_b: PinIndex) -> (r:
        bool)
        requires
            old(self).wf(),
        ensures
            r == old(self).connect_allowed(cx_a, px_a, cx_b, px_b),
            !r ==> *final(self) == *old(self),
            final(self).wf(),
            final(self).nodes@.len() == old(self).nodes@.len(),
            forall|c: int| final(self).live(c) <==> old(self).live(c),
            forall|c: int|
                final(self).live(c) ==> (#[trigger] final(self).node(c)).same_shape(
                    old(self).node(c),
                ),
            final(self).context == old(self).context,
            r && (exists|ord: Seq<usize>| final(self).valid_order(ord)) ==> (forall|
                l: Seq<char>,
                rc: usize,
            |
                #[trigger] final(self).context.is_receiver(l, rc)
                    && !final(self).context.net_valid(l) ==> final(self).node(rc as int).value_at(
                    PinIndex::Output(0usize),
                ) is None) && (forall|l: Seq<char>, sc: usize, rc: usize|
                #[trigger] final(self).context.is_sender(l, sc) && (forall|s2: usize|
                    final(self).context.is_sender(l, s2) ==> s2 == sc) && #[trigger] final(self).context.is_receiver(l, rc) ==> tunnel_delivery(
                    *final(self),
                    sc,
                    rc,
                )) && combinational_settled(*final(self)) && wires_transmitted(*final(self)),
            r ==> ({
                let route = Circuit::connect_route(cx_a, px_a, cx_b, px_b);
                let ex = explicit_of(final(self).wires@);
                let ex0 = explicit_of(old(self).wires@);
                &&& ex.len() == ex0.len() + 1
                &&& routes_match(ex.take(ex0.len() as int), ex0)
                &&& ex.last().start_comp == route.0
                &&& ex.last().start_pin == route.1
                &&& ex.last().end_comp == route.2
                &&& ex.last().end_pin == route.3
                &&& !ex.last().is_virtual
                &&& ex.last().data_bits as nat == old(self).node(route.0 as int).width_at(
                    PinIndex::Output(route.1),
                )
            }),
    {
        if cx_a == cx_b {
            return false;
        }
        if cx_a >= self.nodes.len() || cx_b >= self.nodes.len() {
            return false;
        }
        let live_a = match &self.nodes[cx_a] {
            Some(_) => true,
            None => false,
        };
        let live_b = match &self.nodes[cx_b] {
            Some(_) => true,
            None => false,
        };
        if !live_a || !live_b {
            return false;
        }
        let (s, sp, d, dp) = match (px_a, px_b) {
            (PinIndex::Output(i), PinIndex::Input(j)) => (cx_a, i, cx_b, j),
            (PinIndex::Input(i), PinIndex::Output(j)) => (cx_b, j, cx_a, i),
            _ => {
                return false;
            },
        };
        let n_outs = match &self.nodes[s] {
            Some(comp) => comp.kind.n_out_pins(),
            None => 0,
        };
        if sp >= n_outs {
            return false;
        }
        let n_ins = match &self.nodes[d] {
            Some(comp) => comp.kind.n_in_pins(),
            None => 0,
        };
        if dp >= n_ins {
            return false;
        }
        proof {
            assert(self.node(s as int).pin_ok(PinIndex::Output(sp))) by {
                if self.node(s as int) is Tunnel {
                    assert(self.node(s as int).n_outs() <= 1);
                }
            }
            assert(self.node(d as int).pin_ok(PinIndex::Input(dp))) by {
                if self.node(d as int) is Tunnel {
                    assert(self.node(d as int).n_ins() <= 1);
                }
            }
        }
        let ws = match &self.nodes[s] {
            Some(comp) => comp.kind.get_pin_width(PinIndex::Output(sp)),
            None => 0,
        };
        let wd = match &self.nodes[d] {
            Some(comp) => comp.kind.get_pin_width(PinIndex::Input(dp)),
            None => 0,
        };
        if ws != wd {
            return false;
        }
        proof {
            assert(old(self).connect_allowed(cx_a, px_a, cx_b, px_b) == !old(self).pin_driven(
                d,
                dp,
            ));
        }
        let nw = self.wires.len();
        let mut k: usize = 0;
        while k < nw
            invariant
                k <= nw,
                *self == *old(self),
                old(self).wf(),
                nw == self.wires@.len(),
                old(self).connect_allowed(cx_a, px_a, cx_b, px_b) == !old(self).pin_driven(d, dp),
                old(self).live(s as int) && old(self).live(d as int) && s != d,
                (sp as nat) < old(self).node(s as int).n_outs(),
                (dp as nat) < old(self).node(d as int).n_ins(),
                ws as nat == old(self).node(s as int).width_at(PinIndex::Output(sp)),
                ws as nat == old(self).node(d as int).width_at(PinIndex::Input(dp)),
                forall|i: int|
                    0 <= i < k as int ==> !(!(#[trigger] self.wires@[i]).is_virtual
                        && self.wires@[i].end_comp == d && self.wires@[i].end_pin == dp),
            decreases nw - k,
        {
            if !self.wires[k].is_virtual && self.wires[k].end_comp == d && self.wires[k].end_pin
                == dp {
                proof {
                    assert(old(self).pin_driven(d, dp));
                }
                return false;
            }
            k += 1;
        }
        proof {
            assert(!old(self).pin_driven(d, dp));
        }
        let ghost pre = *self;
        self.wires.push(Wire::new(s, sp, d, dp, ws, false));
        proof {
            assert(self.nodes@ == pre.nodes@);
            assert(self.context == pre.context);
            assert(self.wf()) by {
                assert forall|cx: int| self.live(cx) implies (#[trigger] self.node(cx)).wf() by {
                    assert(pre.live(cx));
                    assert(pre.node(cx).wf());
                    assert(self.node(cx) == pre.node(cx));
                }
                assert(self.tunnels_consistent());
                assert(self.context.wf());
                assert forall|kk: int|
                    0 <= kk < self.wires@.len() implies self.wire_ok(
                    #[trigger] self.wires@[kk],
                ) by {
                    if kk < pre.wires@.len() {
                        assert(pre.wire_ok(pre.wires@[kk]));
                        assert(self.wires@[kk] == pre.wires@[kk]);
                    }
                }
                assert(self.fanin_unique()) by {
                    assert forall|k1: int, k2: int|
                        0 <= k1 < k2 < self.wires@.len() && !(
                    #[trigger] self.wires@[k1]).is_virtual && !(
                    #[trigger] self.wires@[k2]).is_virtual implies !(self.wires@[k1].end_comp
                        == self.wires@[k2].end_comp && self.wires@[k1].end_pin
                        == self.wires@[k2].end_pin) by {
                        if k2 < pre.wires@.len() {
                            assert(self.wires@[k1] == pre.wires@[k1]);
                            assert(self.wires@[k2] == pre.wires@[k2]);
                        } else {
                            assert(self.wires@[k1] == pre.wires@[k1]);
                        }
                    }
                }
            }
        }
        proof {
            lemma_explicit_of_push_explicit(pre.wires@, self.wires@.last());
            assert(self.wires@.drop_last() =~= pre.wires@);
            assert(explicit_of(self.wires@) =~= explicit_of(pre.wires@).push(self.wires@.last()));
        }
        let ghost pushed = *self;
        let prop_ok = self.update_signals();
        proof {
            if !prop_ok {
                assert(forall|ord: Seq<usize>| !(#[trigger] self.valid_order(ord)));
            }
            assert forall|c: int|
                final(self).live(c) implies (#[trigger] final(self).node(c)).same_shape(
                old(self).node(c),
            ) by {
                lemma_same_shape_trans(
                    final(self).node(c),
                    pre.node(c),
                    old(self).node(c),
                );
            }
            let route = Circuit::connect_route(cx_a, px_a, cx_b, px_b);
            let ex = explicit_of(self.wires@);
            let exp = explicit_of(pushed.wires@);
            let ex0 = explicit_of(old(self).wires@);
            assert(routes_match(ex, exp));
            assert(ex.len() == ex0.len() + 1);
            assert(ex.last().same_route(exp.last()));
            assert(exp.last() == pushed.wires@.last());
            assert(route.0 == s && route.1 == sp && route.2 == d && route.3 == dp);
            assert(routes_match(ex.take(ex0.len() as int), ex0)) by {
                assert forall|i: int|
                    0 <= i < ex0.len() implies (#[trigger] ex.take(ex0.len() as int)[i]).same_route(
                    ex0[i],
                ) by {
                    assert(ex[i].same_route(exp[i]));
                    assert(exp[i] == ex0[i]);
                }
            }
        }
        true
    }

    /// One clock step: ticks every clocked component, then runs a full
    /// propagation pass.
    ///
    /// After the call every register's output holds what the tick rule
    /// gives: its data input when write-enable was present with any bit
    /// set, its previous output otherwise — propagation never overwrites a
    /// clocked component's output.
    pub fn tick_clock(&mut self) -> (ok: bool)
        requires
            old(self).wf(),
        ensures
            final(self).wf(),
            final(self).nodes@.len() == old(self).nodes@.len(),
            forall|c: int| final(self).live(c) <==> old(self).live(c),
            forall|c: int|
                final(self).live(c) ==> (#[trigger] final(self).node(c)).same_shape(
                    old(self).node(c),
                ),
            final(self).context == old(self).context,
            forall|c: int|
                final(self).live(c) && (#[trigger] final(self).node(c)).clocked() ==> final(self).node(c).value_at(PinIndex::Output(0usize)) == (if crate::component::write_enabled(
                    old(self).node(c).value_at(PinIndex::Input(0usize)),
                ) {
                    old(self).node(c).value_at(PinIndex::Input(1usize))
                } else {
                    old(self).node(c).value_at(PinIndex::Output(0usize))
                }),
            ok ==> forall|l: Seq<char>, r: usize|
                #[trigger] final(self).context.is_receiver(l, r) && !final(self).context.net_valid(
                    l,
                ) ==> final(self).node(r as int).value_at(PinIndex::Output(0usize)) is None,
            ok ==> forall|l: Seq<char>, s: usize, r: usize|
                #[trigger] final(self).context.is_sender(l, s) && (forall|s2: usize|
                    final(self).context.is_sender(l, s2) ==> s2 == s) && #[trigger] final(self).context.is_receiver(l, r) ==> tunnel_delivery(
                    *final(self),
                    s,
                    r,
                ),
            ok ==> exists|ord: Seq<usize>| final(self).valid_order(ord),
            !ok ==> forall|ord: Seq<usize>| !(#[trigger] final(self).valid_order(ord)),
            ok ==> combinational_settled(*final(self)),
            ok ==> wires_transmitted(*final(self)),
    {
        let n = self.nodes.len();
        let mut c: usize = 0;
        while c < n
            invariant
                c <= n,
                n == self.nodes@.len(),
                self.wf(),
                self.nodes@.len() == old(self).nodes@.len(),
                self.wires@ == old(self).wires@,
                self.context == old(self).context,
                forall|cc: int| self.live(cc) <==> old(self).live(cc),
                forall|cc: int|
                    self.live(cc) ==> (#[trigger] self.node(cc)).same_shape(old(self).node(cc)),
                forall|cc: int|
                    c as int <= cc < n as int && self.live(cc) ==> #[trigger] self.nodes@[cc]
                        == old(self).nodes@[cc],
                forall|cc: int|
                    self.live(cc) && !(#[trigger] self.node(cc)).clocked() ==> self.nodes@[cc]
                        == old(self).nodes@[cc],
                forall|cc: int|
                    0 <= cc < c as int && self.live(cc) && (#[trigger] self.node(cc)).clocked()
                        ==> self.node(cc).value_at(PinIndex::Output(0usize)) == (
                    if crate::component::write_enabled(
                        old(self).node(cc).value_at(PinIndex::Input(0usize)),
                    ) {
                        old(self).node(cc).value_at(PinIndex::Input(1usize))
                    } else {
                        old(self).node(cc).value_at(PinIndex::Output(0usize))
                    }),
            decreases n - c,
        {
            let ghost pre = *self;
            proof {
                if pre.live(c as int) {
                    assert(pre.node(c as int).wf());
                }
            }
            match &mut self.nodes[c] {
                Some(comp) => {
                    comp.clock_update();
                },
                None => {},
            }
            proof {
                assert(forall|cc: int|
                    0 <= cc < self.nodes@.len() && cc != c as int ==> #[trigger] self.nodes@[cc]
                        == pre.nodes@[cc]);
                assert forall|cc: int|
                    self.live(cc) implies (#[trigger] self.node(cc)).same_shape(
                    old(self).node(cc),
                ) by {
                    if cc == c as int {
                        lemma_same_shape_trans(
                            self.node(cc),
                            pre.node(cc),
                            old(self).node(cc),
                        );
                    } else {
                        assert(self.nodes@[cc] == pre.nodes@[cc]);
                    }
                }
                assert forall|cc: int|
                    self.live(cc) && !(#[trigger] self.node(cc)).clocked() implies self.nodes@[cc]
                    == old(self).nodes@[cc] by {
                    if cc == c as int {
                        assert(!pre.node(cc).clocked());
                        assert(self.nodes@[cc] == pre.nodes@[cc]);
                        assert(pre.nodes@[cc] == old(self).nodes@[cc]);
                    } else {
                        assert(self.nodes@[cc] == pre.nodes@[cc]);
                    }
                }
                assert forall|cc: int|
                    0 <= cc < c as int + 1 && self.live(cc) && (
                #[trigger] self.node(cc)).clocked() implies self.node(cc).value_at(
                    PinIndex::Output(0usize),
                ) == (if crate::component::write_enabled(
                    old(self).node(cc).value_at(PinIndex::Input(0usize)),
                ) {
                    old(self).node(cc).value_at(PinIndex::Input(1usize))
                } else {
                    old(self).node(cc).value_at(PinIndex::Output(0usize))
                }) by {
                    if cc == c as int {
                        assert(pre.nodes@[cc] == old(self).nodes@[cc]);
                        assert(pre.node(cc).clocked());
                    } else {
                        assert(self.nodes@[cc] == pre.nodes@[cc]);
                    }
                }
                assert(routes_match(self.wires@, pre.wires@)) by {
                    assert(forall|i: int|
                        0 <= i < self.wires@.len() ==> (#[trigger] self.wires@[i]).same_route(
                            pre.wires@[i],
                        ));
                }
                lemma_wf_after_node_change(pre, *self);
            }
            c += 1;
        }
        let ghost ticked = *self;
        let ok = self.update_signals();
        proof {
            assert forall|cc: int|
                final(self).live(cc) implies (#[trigger] final(self).node(cc)).same_shape(
                old(self).node(cc),
            ) by {
                lemma_same_shape_trans(
                    final(self).node(cc),
                    ticked.node(cc),
                    old(self).node(cc),
                );
            }
        }
        ok
    }

    /// One user interaction with a component: only an interactive input
    /// reacts, incrementing its held value, and a change triggers a full
    /// propagation pass.
    pub fn interact(&mut self, cx: usize) -> (changed: bool)
        requires
            old(self).wf(),
        ensures
            final(self).wf(),
            final(self).nodes@.len() == old(self).nodes@.len(),
            forall|c: int| final(self).live(c) <==> old(self).live(c),
            forall|c: int|
                final(self).live(c) ==> (#[trigger] final(self).node(c)).same_shape(
                    old(self).node(c),
                ),
            final(self).context == old(self).context,
            changed == (old(self).live(cx as int) && old(self).node(cx as int) is Input),
            old(self).live(cx as int) && old(self).node(cx as int) is Input ==> ({
                let v = old(self).node(cx as int).value_at(PinIndex::Output(0usize));
                match v {
                    None => final(self).node(cx as int) == old(self).node(cx as int),
                    Some(s) => final(self).node(cx as int).value_at(PinIndex::Output(0usize))
                        matches Some(t) && t.len() == s.len() && crate::signal::load_bits(t) == (
                    crate::signal::load_bits(s) + 1) % vstd::arithmetic::power2::pow2(s.len()),
                }
            }),
            changed && (exists|ord: Seq<usize>| final(self).valid_order(ord)) ==> (forall|
                l: Seq<char>,
                r: usize,
            |
                #[trigger] final(self).context.is_receiver(l, r) && !final(self).context.net_valid(
                    l,
                ) ==> final(self).node(r as int).value_at(PinIndex::Output(0usize)) is None) && (
            forall|l: Seq<char>, s: usize, r: usize|
                #[trigger] final(self).context.is_sender(l, s) && (forall|s2: usize|
                    final(self).context.is_sender(l, s2) ==> s2 == s) && #[trigger] final(self).context.is_receiver(l, r) ==> tunnel_delivery(
                    *final(self),
                    s,
                    r,
                )) && combinational_settled(*final(self)) && wires_transmitted(*final(self)),
    {
        if cx >= self.nodes.len() {
            return false;
        }
        let ghost pre = *self;
        let changed = match &mut self.nodes[cx] {
            Some(comp) => comp.kind.interact(),
            None => false,
        };
        proof {
            assert(forall|cc: int|
                0 <= cc < self.nodes@.len() && cc != cx as int ==> #[trigger] self.nodes@[cc]
                    == pre.nodes@[cc]);
            if self.live(cx as int) {
                assert(self.node(cx as int).same_shape(pre.node(cx as int)));
            }
            assert(routes_match(self.wires@, pre.wires@)) by {
                assert(forall|i: int|
                    0 <= i < self.wires@.len() ==> (#[trigger] self.wires@[i]).same_route(
                        pre.wires@[i],
                    ));
            }
            lemma_wf_after_node_change(pre, *self);
        }
        if changed {
            let ghost poked = *self;
            let prop_ok = self.update_signals();
            proof {
                if !prop_ok {
                    assert(forall|ord: Seq<usize>| !(#[trigger] self.valid_order(ord)));
                }
                assert forall|c: int|
                    final(self).live(c) implies (#[trigger] final(self).node(c)).same_shape(
                    old(self).node(c),
                ) by {
                    lemma_same_shape_trans(
                        final(self).node(c),
                        poked.node(c),
                        old(self).node(c),
                    );
                }
            }
        }
        changed
    }
}

/// Every virtual wire of `ws` runs from the unique sender of one of
/// `ctx`'s nets to one of that net's receivers.
pub open spec fn vws_sound(ctx: CircuitContext, ws: Seq<Wire>) -> bool {
    forall|k: int|
        0 <= k < ws.len() && (#[trigger] ws[k]).is_virtual ==> exists|l: Seq<char>|
            #[trigger] ctx.is_receiver(l, ws[k].end_comp) && ctx.is_sender(l, ws[k].start_comp)
                && (forall|s2: usize| ctx.is_sender(l, s2) ==> s2 == ws[k].start_comp)
}

/// Every valid net of `ctx` has, for each of its receivers, a virtual wire
/// in `ws` from the net's unique sender.
pub open spec fn vws_complete(ctx: CircuitContext, ws: Seq<Wire>) -> bool {
    forall|l: Seq<char>, s: usize, r: usize|
        #[trigger] ctx.is_sender(l, s) && (forall|s2: usize| ctx.is_sender(l, s2) ==> s2 == s)
            && #[trigger] ctx.is_receiver(l, r) ==> exists|k: int|
            0 <= k < ws.len() && (#[trigger] ws[k]).is_virtual && ws[k].start_comp == s
                && ws[k].end_comp == r
}

/// No two virtual wires of `ws` share a receiver.
pub open spec fn vws_unique(ws: Seq<Wire>) -> bool {
    forall|k1: int, k2: int|
        0 <= k1 < k2 < ws.len() && (#[trigger] ws[k1]).is_virtual && (#[trigger] ws[k2]).is_virtual
            ==> ws[k1].end_comp != ws[k2].end_comp
}

/// Generation bookkeeping: every wire built so far belongs to a valid net
/// entry below `t`.
spec fn gen_sound_upto(ctx: CircuitContext, vw: Seq<Wire>, t: int) -> bool {
    forall|w: Wire|
        #![trigger vw.contains(w)]
        vw.contains(w) ==> exists|e: int|
            #![trigger ctx.tunnels@[e].1.valid()]
            0 <= e < t && ctx.tunnels@[e].1.valid() && ctx.tunnels@[e].1.receivers@.contains(
                w.end_comp,
            ) && w.start_comp == ctx.tunnels@[e].1.senders@[0]
}

/// Generation bookkeeping: every valid net entry below `t` already has all
/// its wires.
spec fn gen_complete_upto(ctx: CircuitContext, vw: Seq<Wire>, t: int) -> bool {
    forall|e: int, r: usize|
        #![trigger ctx.tunnels@[e].1.receivers@.contains(r)]
        0 <= e < t && ctx.tunnels@[e].1.valid() && ctx.tunnels@[e].1.receivers@.contains(r)
            ==> exists|i: int|
            #![trigger vw[i]]
            0 <= i < vw.len() && vw[i].start_comp == ctx.tunnels@[e].1.senders@[0] && vw[i].end_comp
                == r
}

/// Node `cx`'s outputs agree with one combinational evaluation of its
/// current inputs.  Clocked components are exempt: their outputs come from
/// stored state.
pub open spec fn settled_at(c: Circuit, cx: int) -> bool {
    !c.node(cx).clocked() ==> forall|oi: usize|
        oi < c.node(cx).n_outs() ==> #[trigger] c.node(cx).value_at(PinIndex::Output(oi))
            == eval_out(c.node(cx), oi as int)
}

/// Every live component that evaluates combinationally has outputs
/// consistent with its current inputs.
pub open spec fn combinational_settled(c: Circuit) -> bool {
    forall|cx: int| c.live(cx) ==> #[trigger] settled_at(c, cx)
}

/// Settledness depends only on the node itself, so it survives changes
/// elsewhere in the circuit.
proof fn lemma_settled_transport(a: Circuit, b: Circuit, cx: int)
    requires
        settled_at(a, cx),
        b.node(cx) == a.node(cx),
    ensures
        settled_at(b, cx),
{
    if !b.node(cx).clocked() {
        assert forall|oi: usize|
            oi < b.node(cx).n_outs() implies #[trigger] b.node(cx).value_at(PinIndex::Output(oi))
            == eval_out(b.node(cx), oi as int) by {
            assert(a.node(cx).value_at(PinIndex::Output(oi)) == eval_out(a.node(cx), oi as int));
        }
    }
}

/// Every vector view is no longer than the machine's address space.
proof fn lemma_vec_len_bound<T>(v: &Vec<T>)
    ensures
        v@.len() <= usize::MAX,
{
    assert(vstd::std_specs::vec::spec_vec_len(v) == v@.len());
}

/// What spec-level transmission along wire `k` guarantees, for a wire
/// between two non-tunnel components: on matching widths the destination
/// input and the cached signal both equal the source output; on a width
/// mismatch both are absent.  Wires touching a tunnel are covered by the
/// net-delivery guarantee instead.
pub open spec fn wire_done(c: Circuit, k: int) -> bool {
    (!(c.node(c.wires@[k].start_comp as int) is Tunnel) && !(c.node(
        c.wires@[k].end_comp as int,
    ) is Tunnel)) ==> ({
        let w = c.wires@[k];
        let sw = c.node(w.start_comp as int).width_at(PinIndex::Output(w.start_pin));
        let dw = c.node(w.end_comp as int).width_at(PinIndex::Input(w.end_pin));
        if sw == dw {
            c.node(w.end_comp as int).value_at(PinIndex::Input(w.end_pin)) == c.node(
                w.start_comp as int,
            ).value_at(PinIndex::Output(w.start_pin)) && w.value_view() == c.node(
                w.start_comp as int,
            ).value_at(PinIndex::Output(w.start_pin))
        } else {
            c.node(w.end_comp as int).value_at(PinIndex::Input(w.end_pin)) is None
                && w.value_view() is None
        }
    })
}

/// Every wire has been transmitted: see [`wire_done`].
pub open spec fn wires_transmitted(c: Circuit) -> bool {
    forall|k: int| 0 <= k < c.wires@.len() ==> #[trigger] wire_done(c, k)
}

/// A transmission into one input pin disturbs no other wire's finished
/// transmission between non-tunnel components.
proof fn lemma_wire_done_preserved(pre: Circuit, post: Circuit, k: int, wkk: int)
    requires
        pre.wf(),
        post.wf(),
        0 <= k < pre.wires@.len(),
        0 <= wkk < pre.wires@.len(),
        k != wkk,
        post.wires@.len() == pre.wires@.len(),
        post.wires@[k] == pre.wires@[k],
        wire_done(pre, k),
        forall|c: int|
            0 <= c < pre.nodes@.len() && c != pre.wires@[wkk].end_comp as int
                ==> #[trigger] post.nodes@[c] == pre.nodes@[c],
        post.nodes@.len() == pre.nodes@.len(),
        post.node(pre.wires@[wkk].end_comp as int).same_shape(
            pre.node(pre.wires@[wkk].end_comp as int),
        ),
        forall|px2: PinIndex|
            pre.node(pre.wires@[wkk].end_comp as int).pin_ok(px2) && !pre.node(
                pre.wires@[wkk].end_comp as int,
            ).same_pin(PinIndex::Input(pre.wires@[wkk].end_pin), px2) ==> #[trigger] post.node(
                pre.wires@[wkk].end_comp as int,
            ).value_at(px2) == pre.node(pre.wires@[wkk].end_comp as int).value_at(px2),
    ensures
        wire_done(post, k),
{
    let w = pre.wires@[k];
    let ec = pre.wires@[wkk].end_comp;
    let ep = pre.wires@[wkk].end_pin;
    if !(post.node(w.start_comp as int) is Tunnel) && !(post.node(w.end_comp as int) is Tunnel) {
        assert(pre.wire_ok(w));
        assert(pre.wire_ok(pre.wires@[wkk]));
        lemma_wire_pins_ok(pre, w);
        if w.start_comp as int != ec as int {
            assert(post.nodes@[w.start_comp as int] == pre.nodes@[w.start_comp as int]);
        } else {
            assert(!(pre.node(ec as int) is Tunnel));
            assert(!pre.node(ec as int).same_pin(
                PinIndex::Input(ep),
                PinIndex::Output(w.start_pin),
            ));
            lemma_shape_counts(post.node(ec as int), pre.node(ec as int));
        }
        if w.end_comp as int != ec as int {
            assert(post.nodes@[w.end_comp as int] == pre.nodes@[w.end_comp as int]);
        } else {
            assert(!(pre.node(ec as int) is Tunnel));
            assert(ep != w.end_pin) by {
                if ep == w.end_pin {
                    assert(!pre.wires@[wkk].is_virtual) by {
                        if pre.wires@[wkk].is_virtual {
                            assert(pre.node(ec as int) is Tunnel);
                        }
                    }
                    assert(!w.is_virtual) by {
                        if w.is_virtual {
                            assert(pre.node(w.end_comp as int) is Tunnel);
                        }
                    }
                    if k < wkk {
                        assert(!(pre.wires@[k].end_comp == pre.wires@[wkk].end_comp
                            && pre.wires@[k].end_pin == pre.wires@[wkk].end_pin));
                    } else {
                        assert(!(pre.wires@[wkk].end_comp == pre.wires@[k].end_comp
                            && pre.wires@[wkk].end_pin == pre.wires@[k].end_pin));
                    }
                }
            }
            assert(!pre.node(ec as int).same_pin(PinIndex::Input(ep), PinIndex::Input(w.end_pin)));
            lemma_shape_counts(post.node(ec as int), pre.node(ec as int));
        }
    }
}

/// A tunnel is always settled: evaluation does not touch its single pin.
proof fn lemma_tunnel_settled(c: Circuit, cx: int)
    requires
        c.node(cx) is Tunnel,
    ensures
        settled_at(c, cx),
{
}

/// What a valid tunnel net delivers to one of its receivers: the sender's
/// current value when the two tunnels' widths agree, absent otherwise.
pub open spec fn tunnel_delivery(c: Circuit, s: usize, r: usize) -> bool {
    if c.node(s as int).width_at(PinIndex::Output(0usize)) == c.node(r as int).width_at(
        PinIndex::Output(0usize),
    ) {
        c.node(r as int).value_at(PinIndex::Output(0usize)) == c.node(s as int).value_at(
            PinIndex::Output(0usize),
        )
    } else {
        c.node(r as int).value_at(PinIndex::Output(0usize)) is None
    }
}

/// What one tunnel context entry guarantees after a propagation pass: a
/// valid entry's receivers each read the sender's delivery, an invalid
/// entry's receivers all read absent.
spec fn entry_done(c: Circuit, e: int) -> bool {
    if c.context.tunnels@[e].1.valid() {
        forall|j: int|
            0 <= j < c.context.tunnels@[e].1.receivers@.len() ==> tunnel_delivery(
                c,
                c.context.tunnels@[e].1.senders@[0],
                #[trigger] c.context.tunnels@[e].1.receivers@[j],
            )
    } else {
        forall|j: int|
            0 <= j < c.context.tunnels@[e].1.receivers@.len() ==> c.node(
                (#[trigger] c.context.tunnels@[e].1.receivers@[j]) as int,
            ).value_at(PinIndex::Output(0usize)) is None
    }
}

/// The wires that survive deleting node `cx`: those incident to it drop
/// out, in order.
pub open spec fn without_node(ws: Seq<Wire>, cx: usize) -> Seq<Wire>
    decreases ws.len(),
{
    if ws.len() == 0 {
        Seq::empty()
    } else {
        without_node(ws.drop_last(), cx) + if ws.last().start_comp == cx || ws.last().end_comp
            == cx {
            Seq::empty()
        } else {
            seq![ws.last()]
        }
    }
}

impl Circuit {
    /// Some wire runs from node `src` into the pin of `c` that `px` names.
    pub open spec fn driven_from(self, src: usize, c: usize, px: PinIndex) -> bool {
        exists|k: int|
            0 <= k < self.wires@.len() && (#[trigger] self.wires@[k]).start_comp == src
                && self.wires@[k].end_comp == c && self.node(c as int).same_pin(
                PinIndex::Input(self.wires@[k].end_pin),
                px,
            )
    }

    /// Deletes a component.
    ///
    /// Every input pin the component was driving is first set to absent,
    /// since its driver vanishes; all incident wires are dropped; a tunnel
    /// retracts its net membership.  Identifiers of other components stay
    /// valid.
    pub fn remove_component(&mut self, cx: usize) -> (removed: bool)
        requires
            old(self).wf(),
        ensures
            final(self).wf(),
            removed == old(self).live(cx as int),
            !removed ==> *final(self) == *old(self),
            final(self).nodes@.len() == old(self).nodes@.len(),
            !final(self).live(cx as int),
            forall|c: int| c != cx as int ==> (final(self).live(c) <==> old(self).live(c)),
            forall|c: int|
                c != cx as int && final(self).live(c) ==> (#[trigger] final(self).node(
                    c,
                )).same_shape(old(self).node(c)),
            routes_match(final(self).wires@, without_node(old(self).wires@, cx)),
            forall|c: usize, px: PinIndex|
                c != cx && final(self).live(c as int) && old(self).node(c as int).pin_ok(px) && (
                #[trigger] final(self).node(c as int).value_at(px)) != old(self).node(
                    c as int,
                ).value_at(px) ==> old(self).driven_from(cx, c, px),
            removed ==> forall|k: int|
                0 <= k < old(self).wires@.len() && (#[trigger] old(self).wires@[k]).start_comp
                    == cx ==> final(self).node(old(self).wires@[k].end_comp as int).value_at(
                    PinIndex::Input(old(self).wires@[k].end_pin),
                ) is None,
    {
        if cx >= self.nodes.len() {
            proof {
                lemma_without_node_unchanged(self.wires@, cx, *self);
            }
            return false;
        }
        let is_live = match &self.nodes[cx] {
            Some(_) => true,
            None => false,
        };
        if !is_live {
            proof {
                lemma_without_node_unchanged(self.wires@, cx, *self);
            }
            return false;
        }
        let ghost g0 = *self;
        // Set every input pin this component drives to absent.
        let nw = self.wires.len();
        let mut k: usize = 0;
        while k < nw
            invariant
                k <= nw,
                nw == self.wires@.len(),
                self.wf(),
                g0.wf(),
                self.live(cx as int),
                self.wires@ == g0.wires@,
                self.context == g0.context,
                self.nodes@.len() == g0.nodes@.len(),
                forall|c: int| self.live(c) <==> g0.live(c),
                forall|c: int|
                    self.live(c) ==> (#[trigger] self.node(c)).same_shape(g0.node(c)),
                self.nodes@[cx as int] == g0.nodes@[cx as int],
                forall|c: usize, px: PinIndex|
                    c != cx && self.live(c as int) && g0.node(c as int).pin_ok(px) && (
                    #[trigger] self.node(c as int).value_at(px)) != g0.node(c as int).value_at(px)
                        ==> g0.driven_from(cx, c, px),
                forall|k2: int|
                    0 <= k2 < k as int && (#[trigger] g0.wires@[k2]).start_comp == cx
                        ==> self.node(g0.wires@[k2].end_comp as int).value_at(
                        PinIndex::Input(g0.wires@[k2].end_pin),
                    ) is None,
            decreases nw - k,
        {
            let from_cx = self.wires[k].start_comp == cx;
            if from_cx {
                let ec = self.wires[k].end_comp;
                let ep = self.wires[k].end_pin;
                proof {
                    assert(self.wire_ok(self.wires@[k as int]));
                    lemma_wire_pins_ok(*self, self.wires@[k as int]);
                }
                let ghost pre = *self;
                match &mut self.nodes[ec] {
                    Some(comp) => {
                        comp.kind.set_pin_value(PinIndex::Input(ep), None);
                    },
                    None => {},
                }
                proof {
                    assert(forall|c: int|
                        0 <= c < self.nodes@.len() && c != ec as int ==> #[trigger] self.nodes@[c]
                            == pre.nodes@[c]);
                    assert forall|c: int|
                        self.live(c) implies (#[trigger] self.node(c)).same_shape(g0.node(c)) by {
                        if c == ec as int {
                            lemma_same_shape_trans(self.node(c), pre.node(c), g0.node(c));
                        } else {
                            assert(self.nodes@[c] == pre.nodes@[c]);
                        }
                    }
                    assert(routes_match(self.wires@, pre.wires@)) by {
                        assert(forall|i: int|
                            0 <= i < self.wires@.len() ==> (#[trigger] self.wires@[i]).same_route(
                                pre.wires@[i],
                            ));
                    }
                    lemma_wf_after_node_change(pre, *self);
                    assert forall|c: usize, px: PinIndex|
                        c != cx && self.live(c as int) && g0.node(c as int).pin_ok(px) && (
                    #[trigger] self.node(c as int).value_at(px)) != g0.node(c as int).value_at(
                        px,
                    ) implies g0.driven_from(cx, c, px) by {
                        if c == ec && self.node(c as int).value_at(px) != pre.node(
                            c as int,
                        ).value_at(px) {
                            assert(pre.node(c as int).same_shape(g0.node(c as int)));
                            lemma_shape_counts(pre.node(c as int), g0.node(c as int));
                            assert(pre.node(c as int).pin_ok(px));
                            assert(pre.node(c as int).same_pin(PinIndex::Input(ep), px));
                            assert(g0.wires@[k as int].start_comp == cx);
                            assert(g0.node(c as int).same_pin(
                                PinIndex::Input(g0.wires@[k as int].end_pin),
                                px,
                            )) by {
                                if !(g0.node(c as int) is Tunnel) {
                                    assert(px == PinIndex::Input(ep));
                                }
                            }
                        }
                    }
                }
            }
            k += 1;
        }
        // Collect the tunnel retraction before the node disappears.
        let event = match &self.nodes[cx] {
            Some(comp) => comp.kind.get_ctx_event(CompEvent::Removed),
            None => None,
        };
        // Drop every incident wire.
        let ghost g1 = *self;
        let mut kept: Vec<Wire> = Vec::new();
        let ghost mut src: Seq<int> = Seq::empty();
        let mut k2: usize = 0;
        while k2 < nw
            invariant
                k2 <= nw,
                *self == g1,
                self.wf(),
                nw == self.wires@.len(),
                src.len() == kept@.len(),
                routes_match(kept@, without_node(self.wires@.take(k2 as int), cx)),
                forall|i: int| 0 <= i < src.len() ==> 0 <= #[trigger] src[i] < k2 as int,
                forall|i: int, j: int| 0 <= i < j < src.len() ==> src[i] < src[j],
                forall|i: int|
                    0 <= i < src.len() ==> (#[trigger] kept@[i]).same_route(self.wires@[src[i]]),
                forall|i: int|
                    0 <= i < src.len() ==> (#[trigger] src[i]) >= 0 && self.wires@[src[i]].start_comp
                        != cx && self.wires@[src[i]].end_comp != cx,
            decreases nw - k2,
        {
            proof {
                assert(self.wires@.take(k2 as int + 1).drop_last() =~= self.wires@.take(
                    k2 as int,
                ));
            }
            let incident = self.wires[k2].start_comp == cx || self.wires[k2].end_comp == cx;
            if !incident {
                let ghost kept_before = kept@;
                kept.push(copy_wire(&self.wires[k2]));
                proof {
                    src = src.push(k2 as int);
                    assert forall|i: int|
                        0 <= i < src.len() implies (#[trigger] kept@[i]).same_route(
                        self.wires@[src[i]],
                    ) by {
                        if i < src.len() - 1 {
                            assert(kept@[i] == kept_before[i]);
                        }
                    }
                }
            }
            k2 += 1;
        }
        proof {
            assert(self.wires@.take(nw as int) =~= self.wires@);
        }
        self.wires = kept;
        self.nodes[cx] = None;
        let ghost g2 = *self;
        match event {
            Some(ev) => {
                self.context.update(ev, cx);
            },
            None => {},
        }
        proof {
            assert(self.nodes@ == g2.nodes@);
            assert(forall|c: int|
                0 <= c < g1.nodes@.len() && c != cx as int ==> #[trigger] self.nodes@[c]
                    == g1.nodes@[c]);
            assert forall|l: Seq<char>, c: usize|
                #[trigger] self.context.is_sender(l, c) <==> self.live(c as int) && (self.node(
                    c as int,
                ) matches CompKind::Tunnel(t) && t.kind is Sender && t.label@ == l) by {
                if g1.context.is_sender(l, c) {
                    assert(g1.live(c as int));
                }
                if self.live(c as int) {
                    assert(c as int != cx as int);
                    assert(self.nodes@[c as int] == g1.nodes@[c as int]);
                }
            }
            assert forall|l: Seq<char>, c: usize|
                #[trigger] self.context.is_receiver(l, c) <==> self.live(c as int) && (self.node(
                    c as int,
                ) matches CompKind::Tunnel(t) && t.kind is Receiver && t.label@ == l) by {
                if g1.context.is_receiver(l, c) {
                    assert(g1.live(c as int));
                }
                if self.live(c as int) {
                    assert(c as int != cx as int);
                    assert(self.nodes@[c as int] == g1.nodes@[c as int]);
                }
            }
            assert forall|c: int|
                c != cx as int && self.live(c) implies (#[trigger] self.node(c)).same_shape(
                g0.node(c),
            ) by {
                assert(self.nodes@[c] == g1.nodes@[c]);
                assert(g1.node(c).same_shape(g0.node(c)));
            }
            assert forall|c: usize, px: PinIndex|
                c != cx && self.live(c as int) && g0.node(c as int).pin_ok(px) && (
            #[trigger] self.node(c as int).value_at(px)) != g0.node(c as int).value_at(
                px,
            ) implies g0.driven_from(cx, c, px) by {
                assert(self.nodes@[c as int] == g1.nodes@[c as int]);
                assert(g1.live(c as int));
                assert(self.node(c as int).value_at(px) == g1.node(c as int).value_at(px));
            }
            assert(self.wf()) by {
                assert forall|c: int| self.live(c) implies (#[trigger] self.node(c)).wf() by {
                    assert(self.nodes@[c] == g1.nodes@[c]);
                    assert(g1.live(c));
                    assert(g1.node(c).wf());
                }
                assert forall|kk: int|
                    0 <= kk < self.wires@.len() implies self.wire_ok(
                    #[trigger] self.wires@[kk],
                ) by {
                    let w0 = g1.wires@[src[kk]];
                    assert(self.wires@[kk].same_route(w0));
                    assert(g1.wire_ok(w0));
                    assert(self.nodes@[w0.start_comp as int] == g1.nodes@[w0.start_comp as int]);
                    assert(self.nodes@[w0.end_comp as int] == g1.nodes@[w0.end_comp as int]);
                }
                assert(self.fanin_unique()) by {
                    assert forall|k1: int, kk2: int|
                        0 <= k1 < kk2 < self.wires@.len() && !(
                    #[trigger] self.wires@[k1]).is_virtual && !(
                    #[trigger] self.wires@[kk2]).is_virtual implies !(self.wires@[k1].end_comp
                        == self.wires@[kk2].end_comp && self.wires@[k1].end_pin
                        == self.wires@[kk2].end_pin) by {
                        assert(self.wires@[k1].same_route(g1.wires@[src[k1]]));
                        assert(self.wires@[kk2].same_route(g1.wires@[src[kk2]]));
                        assert(src[k1] < src[kk2]);
                    }
                }
            }
        }
        true
    }
}

/// The wires that survive reshaping node `cx` to `n_out` output pins and
/// `n_in` input pins: an explicit wire whose pin on `cx` is now out of
/// range drops, and every virtual wire touching `cx` drops (virtual wires
/// are regenerated from the context on the next pass).
pub open spec fn reshaped(ws: Seq<Wire>, cx: usize, n_out: nat, n_in: nat) -> Seq<Wire>
    decreases ws.len(),
{
    if ws.len() == 0 {
        Seq::empty()
    } else {
        reshaped(ws.drop_last(), cx, n_out, n_in) + if reshape_drops(ws.last(), cx, n_out, n_in) {
            Seq::empty()
        } else {
            seq![ws.last()]
        }
    }
}

/// Whether reshaping node `cx` invalidates wire `w`.
pub open spec fn reshape_drops(w: Wire, cx: usize, n_out: nat, n_in: nat) -> bool {
    if w.is_virtual {
        w.start_comp == cx || w.end_comp == cx
    } else {
        (w.start_comp == cx && (w.start_pin as nat) >= n_out) || (w.end_comp == cx && (
        w.end_pin as nat) >= n_in)
    }
}

impl Circuit {
    /// Replaces a component's logic unit after a property edit (bit width,
    /// input count, selector width, splitter arms or mapping, tunnel label
    /// or role).
    ///
    /// Incident wires whose pin index no longer exists are detached, and
    /// tunnel net membership is moved from the old unit to the new one.
    pub fn reconfigure(&mut self, cx: usize, kind: CompKind) -> (done: bool)
        requires
            old(self).wf(),
            kind.wf(),
        ensures
            final(self).wf(),
            done == old(self).live(cx as int),
            !done ==> *final(self) == *old(self),
            done ==> final(self).live(cx as int) && final(self).node(cx as int) == kind,
            final(self).nodes@.len() == old(self).nodes@.len(),
            forall|c: int| final(self).live(c) <==> old(self).live(c),
            forall|c: int|
                c != cx as int && 0 <= c < old(self).nodes@.len() ==> final(self).nodes@[c] == old(
                    self,
                ).nodes@[c],
            done ==> routes_match(
                final(self).wires@,
                reshaped(old(self).wires@, cx, kind.n_outs(), kind.n_ins()),
            ),
    {
        if cx >= self.nodes.len() {
            return false;
        }
        let is_live = match &self.nodes[cx] {
            Some(_) => true,
            None => false,
        };
        if !is_live {
            return false;
        }
        let ghost g0 = *self;
        let ev_old = match &self.nodes[cx] {
            Some(comp) => comp.kind.get_ctx_event(CompEvent::Removed),
            None => None,
        };
        let ev_new = kind.get_ctx_event(CompEvent::Added);
        let n_out_new = kind.n_out_pins();
        let n_in_new = kind.n_in_pins();
        match ev_old {
            Some(ev) => {
                self.context.update(ev, cx);
            },
            None => {},
        }
        self.nodes[cx] = Some(Component::new(kind));
        match ev_new {
            Some(ev) => {
                self.context.update(ev, cx);
            },
            None => {},
        }
        let ghost g1 = *self;
        proof {
            assert(forall|c: int|
                0 <= c < g0.nodes@.len() && c != cx as int ==> #[trigger] self.nodes@[c]
                    == g0.nodes@[c]);
            assert(self.node(cx as int) == kind);
            assert forall|l: Seq<char>, c: usize|
                #[trigger] self.context.is_sender(l, c) <==> self.live(c as int) && (self.node(
                    c as int,
                ) matches CompKind::Tunnel(t) && t.kind is Sender && t.label@ == l) by {
                if g0.context.is_sender(l, c) {
                    assert(g0.live(c as int));
                }
                if self.live(c as int) && c as int != cx as int {
                    assert(self.nodes@[c as int] == g0.nodes@[c as int]);
                }
            }
            assert forall|l: Seq<char>, c: usize|
                #[trigger] self.context.is_receiver(l, c) <==> self.live(c as int) && (self.node(
                    c as int,
                ) matches CompKind::Tunnel(t) && t.kind is Receiver && t.label@ == l) by {
                if g0.context.is_receiver(l, c) {
                    assert(g0.live(c as int));
                }
                if self.live(c as int) && c as int != cx as int {
                    assert(self.nodes@[c as int] == g0.nodes@[c as int]);
                }
            }
        }
        // Detach wires made invalid by the new shape.
        let nw = self.wires.len();
        let mut kept: Vec<Wire> = Vec::new();
        let ghost mut src: Seq<int> = Seq::empty();
        let mut k: usize = 0;
        while k < nw
            invariant
                k <= nw,
                *self == g1,
                g0.wf(),
                nw == self.wires@.len(),
                self.wires@ == g0.wires@,
                n_out_new as nat == kind.n_outs(),
                n_in_new as nat == kind.n_ins(),
                src.len() == kept@.len(),
                routes_match(kept@, reshaped(self.wires@.take(k as int), cx, kind.n_outs(), kind.n_ins())),
                forall|i: int| 0 <= i < src.len() ==> 0 <= #[trigger] src[i] < k as int,
                forall|i: int, j: int| 0 <= i < j < src.len() ==> src[i] < src[j],
                forall|i: int|
                    0 <= i < src.len() ==> (#[trigger] kept@[i]).same_route(self.wires@[src[i]]),
                forall|i: int|
                    0 <= i < src.len() ==> !reshape_drops(
                        #[trigger] self.wires@[src[i]],
                        cx,
                        kind.n_outs(),
                        kind.n_ins(),
                    ),
            decreases nw - k,
        {
            proof {
                assert(self.wires@.take(k as int + 1).drop_last() =~= self.wires@.take(k as int));
            }
            let w_virtual = self.wires[k].is_virtual;
            let w_sc = self.wires[k].start_comp;
            let w_ec = self.wires[k].end_comp;
            let w_sp = self.wires[k].start_pin;
            let w_ep = self.wires[k].end_pin;
            let drops = if w_virtual {
                w_sc == cx || w_ec == cx
            } else {
                (w_sc == cx && w_sp >= n_out_new) || (w_ec == cx && w_ep >= n_in_new)
            };
            if !drops {
                let ghost kept_before = kept@;
                kept.push(copy_wire(&self.wires[k]));
                proof {
                    src = src.push(k as int);
                    assert forall|i: int|
                        0 <= i < src.len() implies (#[trigger] kept@[i]).same_route(
                        self.wires@[src[i]],
                    ) by {
                        if i < src.len() - 1 {
                            assert(kept@[i] == kept_before[i]);
                        }
                    }
                }
            }
            k += 1;
        }
        proof {
            assert(self.wires@.take(nw as int) =~= self.wires@);
        }
        self.wires = kept;
        proof {
            assert(self.nodes@ == g1.nodes@);
            assert(self.context == g1.context);
            assert(self.wf()) by {
                assert forall|c: int| self.live(c) implies (#[trigger] self.node(c)).wf() by {
                    if c != cx as int {
                        assert(self.nodes@[c] == g0.nodes@[c]);
                        assert(g0.live(c));
                        assert(g0.node(c).wf());
                    }
                }
                assert forall|kk: int|
                    0 <= kk < self.wires@.len() implies self.wire_ok(
                    #[trigger] self.wires@[kk],
                ) by {
                    let w0 = g0.wires@[src[kk]];
                    assert(self.wires@[kk].same_route(w0));
                    assert(g0.wire_ok(w0));
                    assert(!reshape_drops(w0, cx, kind.n_outs(), kind.n_ins()));
                    if w0.start_comp as int != cx as int {
                        assert(self.nodes@[w0.start_comp as int] == g0.nodes@[w0.start_comp as int]);
                    }
                    if w0.end_comp as int != cx as int {
                        assert(self.nodes@[w0.end_comp as int] == g0.nodes@[w0.end_comp as int]);
                    }
                }
                assert(self.fanin_unique()) by {
                    assert forall|k1: int, k2: int|
                        0 <= k1 < k2 < self.wires@.len() && !(
                    #[trigger] self.wires@[k1]).is_virtual && !(
                    #[trigger] self.wires@[k2]).is_virtual implies !(self.wires@[k1].end_comp
                        == self.wires@[k2].end_comp && self.wires@[k1].end_pin
                        == self.wires@[k2].end_pin) by {
                        assert(self.wires@[k1].same_route(g0.wires@[src[k1]]));
                        assert(self.wires@[k2].same_route(g0.wires@[src[k2]]));
                        assert(src[k1] < src[k2]);
                    }
                }
            }
        }
        true
    }
}

/// Deleting a node a wire list never mentions leaves the list as it is.
proof fn lemma_without_node_unchanged(ws: Seq<Wire>, cx: usize, g: Circuit)
    requires
        forall|k: int| 0 <= k < ws.len() ==> g.wire_ok(#[trigger] ws[k]),
        !g.live(cx as int),
    ensures
        without_node(ws, cx) == ws,
    decreases ws.len(),
{
    if ws.len() == 0 {
        assert(without_node(ws, cx) =~= ws);
    } else {
        lemma_without_node_unchanged(ws.drop_last(), cx, g);
        assert(g.wire_ok(ws[ws.len() - 1]));
        assert(ws.last().start_comp != cx && ws.last().end_comp != cx);
        assert(without_node(ws, cx) =~= ws);
    }
}

/// A write to one receiver of entry `t3` disturbs no other entry's
/// guarantee and no sender's pin: a node answers to exactly one label and
/// one role.
proof fn lemma_finish_write(
    pre: Circuit,
    post: Circuit,
    g3: Circuit,
    lt: Seq<char>,
    r: usize,
    t3: int,
)
    requires
        pre.wf(),
        post.wf(),
        pre.context == post.context,
        post.nodes@.len() == pre.nodes@.len(),
        0 <= t3 < pre.context.tunnels@.len(),
        lt == pre.context.tunnels@[t3].0@,
        pre.context.is_receiver(lt, r),
        forall|c: int|
            0 <= c < pre.nodes@.len() && c != r as int ==> #[trigger] post.nodes@[c]
                == pre.nodes@[c],
        forall|l2: Seq<char>, c2: usize|
            #[trigger] pre.context.is_sender(l2, c2) ==> pre.nodes@[c2 as int] == g3.nodes@[
                c2 as int],
        forall|c2: int|
            pre.live(c2) && !(#[trigger] pre.node(c2) is Tunnel) ==> pre.nodes@[c2] == g3.nodes@[
                c2],
        forall|e: int| 0 <= e < t3 ==> #[trigger] entry_done(pre, e),
    ensures
        forall|l2: Seq<char>, c2: usize|
            #[trigger] post.context.is_sender(l2, c2) ==> post.nodes@[c2 as int] == g3.nodes@[
                c2 as int],
        forall|c2: int|
            post.live(c2) && !(#[trigger] post.node(c2) is Tunnel) ==> post.nodes@[c2] == g3.nodes@[
                c2],
        forall|e: int| 0 <= e < t3 ==> #[trigger] entry_done(post, e),
{
    assert forall|l2: Seq<char>, c2: usize|
        #[trigger] post.context.is_sender(l2, c2) implies post.nodes@[c2 as int] == g3.nodes@[
        c2 as int] by {
        if c2 == r {
            assert(pre.context.is_sender(l2, r));
            assert(pre.context.is_receiver(lt, r));
            assert(false);
        } else {
            assert(pre.context.is_sender(l2, c2));
            assert(post.nodes@[c2 as int] == pre.nodes@[c2 as int]);
        }
    }
    assert forall|c2: int|
        post.live(c2) && !(#[trigger] post.node(c2) is Tunnel) implies post.nodes@[c2] == g3.nodes@[
        c2] by {
        if c2 == r as int {
            assert(pre.node(c2) is Tunnel);
            assert(post.node(c2).same_shape(pre.node(c2))) by {
                assert(pre.live(c2));
            }
            assert(false);
        } else {
            assert(post.nodes@[c2] == pre.nodes@[c2]);
            assert(pre.node(c2) == post.node(c2));
        }
    }
    assert forall|e: int| 0 <= e < t3 implies #[trigger] entry_done(post, e) by {
        assert(entry_done(pre, e));
        let le = pre.context.tunnels@[e].0@;
        assert(le != lt);
        assert forall|j: int|
            0 <= j < pre.context.tunnels@[e].1.receivers@.len() implies post.nodes@[(
        #[trigger] pre.context.tunnels@[e].1.receivers@[j]) as int] == pre.nodes@[(
        pre.context.tunnels@[e].1.receivers@[j]) as int] by {
            let rr = pre.context.tunnels@[e].1.receivers@[j];
            assert(pre.context.tunnels@[e].1.receivers@.contains(rr));
            assert(pre.context.is_receiver(le, rr));
            if rr == r {
                assert(pre.live(r as int));
                assert(le == lt);
                assert(false);
            }
        }
        if pre.context.tunnels@[e].1.valid() {
            let se = pre.context.tunnels@[e].1.senders@[0];
            assert(pre.context.tunnels@[e].1.senders@.contains(se)) by {
                assert(pre.context.tunnels@[e].1.senders@[0] == se);
            }
            assert(pre.context.is_sender(le, se));
            assert(se != r);
            assert(post.nodes@[se as int] == pre.nodes@[se as int]);
            assert forall|j: int|
                0 <= j < post.context.tunnels@[e].1.receivers@.len() implies tunnel_delivery(
                post,
                post.context.tunnels@[e].1.senders@[0],
                #[trigger] post.context.tunnels@[e].1.receivers@[j],
            ) by {
                let rr = post.context.tunnels@[e].1.receivers@[j];
                assert(tunnel_delivery(pre, se, rr));
                assert(post.nodes@[rr as int] == pre.nodes@[rr as int]);
            }
        } else {
            assert forall|j: int|
                0 <= j < post.context.tunnels@[e].1.receivers@.len() implies post.node(
                (#[trigger] post.context.tunnels@[e].1.receivers@[j]) as int,
            ).value_at(PinIndex::Output(0usize)) is None by {
                let rr = post.context.tunnels@[e].1.receivers@[j];
                assert(pre.node(rr as int).value_at(PinIndex::Output(0usize)) is None);
                assert(post.nodes@[rr as int] == pre.nodes@[rr as int]);
            }
        }
    }
}

/// Entry-by-entry delivery gives the net-validity guarantee for every
/// label: receivers of invalid nets read absent, receivers of valid nets
/// read the unique sender's delivery.
#[verifier::rlimit(100)]
#[verifier::spinoff_prover]
proof fn lemma_entry_forms(c: Circuit)
    requires
        c.wf(),
        forall|e: int|
            0 <= e < c.context.tunnels@.len() ==> #[trigger] entry_done(c, e),
    ensures
        forall|l: Seq<char>, r: usize|
            #[trigger] c.context.is_receiver(l, r) && !c.context.net_valid(l) ==> c.node(
                r as int,
            ).value_at(PinIndex::Output(0usize)) is None,
        forall|l: Seq<char>, s: usize, r: usize|
            #[trigger] c.context.is_sender(l, s) && (forall|s2: usize|
                c.context.is_sender(l, s2) ==> s2 == s) && #[trigger] c.context.is_receiver(l, r)
                ==> tunnel_delivery(c, s, r),
{
    assert forall|l: Seq<char>, r: usize|
        #[trigger] c.context.is_receiver(l, r) && !c.context.net_valid(l) implies c.node(
        r as int,
    ).value_at(PinIndex::Output(0usize)) is None by {
        let e = choose|e: int|
            0 <= e < c.context.tunnels@.len() && (#[trigger] c.context.tunnels@[e]).0@ == l
                && c.context.tunnels@[e].1.receivers@.contains(r);
        let j = choose|j: int|
            0 <= j < c.context.tunnels@[e].1.receivers@.len()
                && c.context.tunnels@[e].1.receivers@[j] == r;
        assert(entry_done(c, e));
        if c.context.tunnels@[e].1.valid() {
            let se = c.context.tunnels@[e].1.senders@[0];
            assert(c.context.tunnels@[e].1.senders@.contains(se)) by {
                assert(c.context.tunnels@[e].1.senders@[0] == se);
            }
            assert(c.context.is_sender(l, se));
            assert forall|s2: usize| c.context.is_sender(l, s2) implies s2 == se by {
                let e2 = choose|e2: int|
                    0 <= e2 < c.context.tunnels@.len() && (#[trigger] c.context.tunnels@[e2]).0@
                        == l && c.context.tunnels@[e2].1.senders@.contains(s2);
                assert(e2 == e);
                let j2 = choose|j2: int|
                    0 <= j2 < c.context.tunnels@[e].1.senders@.len()
                        && c.context.tunnels@[e].1.senders@[j2] == s2;
                assert(j2 == 0);
            }
            assert(c.context.net_valid(l));
            assert(false);
        }
        assert(c.context.tunnels@[e].1.receivers@[j] == r);
    }
    assert forall|l: Seq<char>, s: usize, r: usize|
        #[trigger] c.context.is_sender(l, s) && (forall|s2: usize|
            c.context.is_sender(l, s2) ==> s2 == s) && #[trigger] c.context.is_receiver(l, r)
         implies tunnel_delivery(c, s, r) by {
        let e = choose|e: int|
            0 <= e < c.context.tunnels@.len() && (#[trigger] c.context.tunnels@[e]).0@ == l
                && c.context.tunnels@[e].1.senders@.contains(s);
        assert(entry_done(c, e));
        assert(c.context.tunnels@[e].1.valid()) by {
            let members = c.context.tunnels@[e].1;
            assert(members.wf());
            assert forall|j: int|
                0 <= j < members.senders@.len() implies #[trigger] members.senders@[j] == s by {
                assert(members.senders@.contains(members.senders@[j]));
                assert(c.context.is_sender(l, members.senders@[j]));
            }
            if members.senders@.len() >= 2 {
                assert(members.senders@[0] == members.senders@[1]);
                assert(false);
            }
            let js = choose|js: int| 0 <= js < members.senders@.len() && members.senders@[js] == s;
            assert(members.senders@.len() == 1);
        }
        assert(c.context.tunnels@[e].1.senders@[0] == s) by {
            let js = choose|js: int|
                0 <= js < c.context.tunnels@[e].1.senders@.len()
                    && c.context.tunnels@[e].1.senders@[js] == s;
            assert(js == 0);
        }
        let e2 = choose|e2: int|
            0 <= e2 < c.context.tunnels@.len() && (#[trigger] c.context.tunnels@[e2]).0@ == l
                && c.context.tunnels@[e2].1.receivers@.contains(r);
        assert(e2 == e);
        let j = choose|j: int|
            0 <= j < c.context.tunnels@[e].1.receivers@.len()
                && c.context.tunnels@[e].1.receivers@[j] == r;
        assert(c.context.tunnels@[e].1.receivers@[j] == r);
    }
}

/// A valid evaluation order stays valid when only pin values change: the
/// live set, every component's shape and every wire's route are kept.
proof fn lemma_valid_order_transport(a: Circuit, b: Circuit, ord: Seq<usize>)
    requires
        a.wf(),
        b.wf(),
        a.valid_order(ord),
        b.nodes@.len() == a.nodes@.len(),
        forall|c: int| b.live(c) <==> a.live(c),
        forall|c: int| b.live(c) ==> (#[trigger] b.node(c)).same_shape(a.node(c)),
        routes_match(b.wires@, a.wires@),
    ensures
        b.valid_order(ord),
{
    assert forall|k: int| b.considered(k) <==> a.considered(k) by {
        if 0 <= k < b.wires@.len() {
            assert(b.wires@[k].same_route(a.wires@[k]));
            assert(b.wire_ok(b.wires@[k]));
            assert(a.wire_ok(a.wires@[k]));
            let e = b.wires@[k].end_comp;
            assert(b.node(e as int).same_shape(a.node(e as int)));
            assert(b.node(e as int).clocked() == a.node(e as int).clocked());
        }
    }
    assert forall|k: int, i: int, j: int|
        b.considered(k) && 0 <= i < ord.len() && 0 <= j < ord.len() && (#[trigger] ord[i])
            == b.wires@[k].start_comp && (#[trigger] ord[j]) == (
    #[trigger] b.wires@[k]).end_comp implies i < j by {
        assert(a.considered(k));
        assert(b.wires@[k].same_route(a.wires@[k]));
        assert(ord[i] == a.wires@[k].start_comp);
        assert(ord[j] == a.wires@[k].end_comp);
    }
}

/// Appending an explicit wire appends it to the explicit part too.
proof fn lemma_explicit_of_push_explicit(ws: Seq<Wire>, w: Wire)
    requires
        !w.is_virtual,
    ensures
        explicit_of(ws.push(w)) == explicit_of(ws).push(w),
{
    assert(ws.push(w).drop_last() =~= ws);
    assert(ws.push(w).last() == w);
    assert(explicit_of(ws.push(w)) =~= explicit_of(ws).push(w));
}

/// The virtual-wiring guarantees read only wire routes and the context,
/// so they survive changes to cached signals.
proof fn lemma_vws_transport(ctx: CircuitContext, a: Seq<Wire>, b: Seq<Wire>)
    requires
        routes_match(b, a),
        vws_sound(ctx, a),
        vws_complete(ctx, a),
        vws_unique(a),
    ensures
        vws_sound(ctx, b),
        vws_complete(ctx, b),
        vws_unique(b),
{
    assert forall|k: int|
        0 <= k < b.len() && (#[trigger] b[k]).is_virtual implies exists|l: Seq<char>|
        #[trigger] ctx.is_receiver(l, b[k].end_comp) && ctx.is_sender(l, b[k].start_comp) && (
        forall|s2: usize| ctx.is_sender(l, s2) ==> s2 == b[k].start_comp) by {
        assert(b[k].same_route(a[k]));
        assert(a[k].is_virtual);
        let l = choose|l: Seq<char>|
            #[trigger] ctx.is_receiver(l, a[k].end_comp) && ctx.is_sender(l, a[k].start_comp) && (
            forall|s2: usize| ctx.is_sender(l, s2) ==> s2 == a[k].start_comp);
        assert(ctx.is_receiver(l, b[k].end_comp));
    }
    assert forall|l: Seq<char>, sc: usize, rc: usize|
        #[trigger] ctx.is_sender(l, sc) && (forall|s2: usize| ctx.is_sender(l, s2) ==> s2 == sc)
            && #[trigger] ctx.is_receiver(l, rc) implies exists|k: int|
        0 <= k < b.len() && (#[trigger] b[k]).is_virtual && b[k].start_comp == sc && b[k].end_comp
            == rc by {
        let k0 = choose|k0: int|
            0 <= k0 < a.len() && (#[trigger] a[k0]).is_virtual && a[k0].start_comp == sc
                && a[k0].end_comp == rc;
        assert(b[k0].same_route(a[k0]));
    }
    assert forall|k1: int, k2: int|
        0 <= k1 < k2 < b.len() && (#[trigger] b[k1]).is_virtual && (
    #[trigger] b[k2]).is_virtual implies b[k1].end_comp != b[k2].end_comp by {
        assert(b[k1].same_route(a[k1]));
        assert(b[k2].same_route(a[k2]));
    }
}

/// Shape equality is transitive.
proof fn lemma_same_shape_trans(a: CompKind, b: CompKind, c: CompKind)
    requires
        a.same_shape(b),
        b.same_shape(c),
    ensures
        a.same_shape(c),
{
}

/// Shape equality is reflexive.
proof fn lemma_same_shape_refl(k: CompKind)
    ensures
        k.same_shape(k),
{
    match k {
        CompKind::Gate(x) => {},
        CompKind::Mux(x) => {},
        CompKind::Demux(x) => {},
        CompKind::Register(x) => {},
        CompKind::Input(x) => {},
        CompKind::Output(x) => {},
        CompKind::Splitter(x) => {},
        CompKind::Tunnel(x) => {},
    }
}

/// Route-equal wire lists have route-equal explicit parts.
proof fn lemma_explicit_routes(a: Seq<Wire>, b: Seq<Wire>)
    requires
        routes_match(a, b),
    ensures
        routes_match(explicit_of(a), explicit_of(b)),
    decreases a.len(),
{
    if a.len() > 0 {
        assert(routes_match(a.drop_last(), b.drop_last())) by {
            assert(forall|i: int|
                0 <= i < a.drop_last().len() ==> (#[trigger] a.drop_last()[i]) == a[i]
                    && b.drop_last()[i] == b[i]);
        }
        lemma_explicit_routes(a.drop_last(), b.drop_last());
        assert(a.last().same_route(b.last())) by {
            assert(a[a.len() - 1].same_route(b[a.len() - 1]));
        }
        let ea = explicit_of(a);
        let eb = explicit_of(b);
        if a.last().is_virtual {
            assert(ea =~= explicit_of(a.drop_last()));
            assert(eb =~= explicit_of(b.drop_last()));
        } else {
            assert(ea =~= explicit_of(a.drop_last()).push(a.last()));
            assert(eb =~= explicit_of(b.drop_last()).push(b.last()));
        }
    }
}

/// Route matching is transitive.
proof fn lemma_explicit_routes_trans(a: Seq<Wire>, b: Seq<Wire>, c: Seq<Wire>)
    requires
        routes_match(a, b),
        routes_match(b, c),
    ensures
        routes_match(a, c),
{
    assert forall|i: int| 0 <= i < a.len() implies (#[trigger] a[i]).same_route(c[i]) by {
        assert(a[i].same_route(b[i]));
        assert(b[i].same_route(c[i]));
    }
}

/// Appending only virtual wires to a wire list of explicit wires leaves the
/// explicit part as the original list.
proof fn lemma_explicit_of_mixed(ws: Seq<Wire>, n: int)
    requires
        0 <= n <= ws.len(),
        forall|i: int| 0 <= i < n ==> !(#[trigger] ws[i]).is_virtual,
        forall|i: int| n <= i < ws.len() ==> (#[trigger] ws[i]).is_virtual,
    ensures
        explicit_of(ws) == ws.take(n),
    decreases ws.len(),
{
    if ws.len() == 0 {
        assert(explicit_of(ws) =~= ws.take(n));
    } else {
        if n == ws.len() {
            lemma_explicit_of_mixed(ws.drop_last(), n - 1);
            assert(ws.drop_last().take(n - 1) =~= ws.drop_last());
            assert(explicit_of(ws) =~= ws.take(n));
        } else {
            lemma_explicit_of_mixed(ws.drop_last(), n);
            assert(ws.drop_last().take(n) =~= ws.take(n));
            assert(explicit_of(ws) =~= ws.take(n));
        }
    }
}

/// Two wire lists that connect the same pins in the same order; only the
/// cached signals may differ.
pub open spec fn routes_match(a: Seq<Wire>, b: Seq<Wire>) -> bool {
    a.len() == b.len() && forall|i: int| 0 <= i < a.len() ==> (#[trigger] a[i]).same_route(b[i])
}

/// The explicit wires of a wire list, in order.
pub open spec fn explicit_of(ws: Seq<Wire>) -> Seq<Wire>
    decreases ws.len(),
{
    if ws.len() == 0 {
        Seq::empty()
    } else {
        explicit_of(ws.drop_last()) + if ws.last().is_virtual {
            Seq::empty()
        } else {
            seq![ws.last()]
        }
    }
}

/// An exact copy of a wire.
fn copy_wire(w: &Wire) -> (r: Wire)
    ensures
        r.same_route(*w),
        r.value_view() == w.value_view(),
{
    Wire {
        start_comp: w.start_comp,
        start_pin: w.start_pin,
        end_comp: w.end_comp,
        end_pin: w.end_pin,
        data_bits: w.data_bits,
        value: copy_signal(&w.value),
        is_virtual: w.is_virtual,
    }
}

/// Components of equal shape expose the same pins at the same widths.
proof fn lemma_shape_counts(a: CompKind, b: CompKind)
    requires
        a.wf(),
        b.wf(),
        a.same_shape(b),
    ensures
        a.n_ins() == b.n_ins(),
        a.n_outs() == b.n_outs(),
        forall|px: PinIndex| a.pin_ok(px) <==> b.pin_ok(px),
        forall|px: PinIndex| #[trigger] a.pin_ok(px) ==> a.width_at(px) == b.width_at(px),
{
    assert forall|px: PinIndex| #[trigger] a.pin_ok(px) implies a.width_at(px) == b.width_at(
        px,
    ) by {
        match (a, b) {
            (CompKind::Gate(x), CompKind::Gate(y)) => {
                match px {
                    PinIndex::Input(i) => {
                        assert(x.inputs@[i as int].bits == x.data_bits);
                        assert(y.inputs@[i as int].bits == y.data_bits);
                    },
                    PinIndex::Output(i) => {},
                }
            },
            (CompKind::Mux(x), CompKind::Mux(y)) => {
                match px {
                    PinIndex::Input(i) => {
                        if i != 0 {
                            assert(x.inputs@[i as int - 1].bits == x.data_bits);
                            assert(y.inputs@[i as int - 1].bits == y.data_bits);
                        }
                    },
                    PinIndex::Output(i) => {},
                }
            },
            (CompKind::Demux(x), CompKind::Demux(y)) => {
                match px {
                    PinIndex::Input(i) => {},
                    PinIndex::Output(i) => {
                        assert(x.outputs@[i as int].bits == x.data_bits);
                        assert(y.outputs@[i as int].bits == y.data_bits);
                    },
                }
            },
            (CompKind::Splitter(x), CompKind::Splitter(y)) => {
                match px {
                    PinIndex::Input(i) => {},
                    PinIndex::Output(i) => {
                        assert(x.outputs@[i as int].bits == x.data_bits_out@[i as int]);
                        assert(y.outputs@[i as int].bits == y.data_bits_out@[i as int]);
                    },
                }
            },
            _ => {},
        }
    }
}

/// A present pin value has exactly the pin's declared width.
proof fn lemma_value_width(k: CompKind, px: PinIndex)
    requires
        k.wf(),
        k.pin_ok(px),
    ensures
        k.value_at(px) matches Some(s) ==> s.len() == k.width_at(px),
{
    match k {
        CompKind::Gate(x) => {
            match px {
                PinIndex::Input(i) => {
                    assert(crate::component::pin_wf(x.inputs@[i as int]));
                },
                PinIndex::Output(i) => {},
            }
        },
        CompKind::Mux(x) => {
            match px {
                PinIndex::Input(i) => {
                    if i != 0 {
                        assert(crate::component::pin_wf(x.inputs@[i as int - 1]));
                    }
                },
                PinIndex::Output(i) => {},
            }
        },
        CompKind::Demux(x) => {
            match px {
                PinIndex::Input(i) => {},
                PinIndex::Output(i) => {
                    assert(crate::component::pin_wf(x.outputs@[i as int]));
                },
            }
        },
        CompKind::Splitter(x) => {
            match px {
                PinIndex::Input(i) => {},
                PinIndex::Output(i) => {
                    assert(crate::component::pin_wf(x.outputs@[i as int]));
                },
            }
        },
        _ => {},
    }
}

/// A well-formed wire's endpoints name pins that exist on its endpoint
/// components.
proof fn lemma_wire_pins_ok(g: Circuit, w: Wire)
    requires
        g.wf(),
        g.wire_ok(w),
    ensures
        g.node(w.start_comp as int).pin_ok(PinIndex::Output(w.start_pin)),
        g.node(w.end_comp as int).pin_ok(PinIndex::Input(w.end_pin)),
{
    let ks = g.node(w.start_comp as int);
    let ke = g.node(w.end_comp as int);
    if !w.is_virtual {
        if ks is Tunnel {
            assert((w.start_pin as nat) < ks.n_outs());
            assert(ks.n_outs() <= 1);
        }
        if ke is Tunnel {
            assert((w.end_pin as nat) < ke.n_ins());
            assert(ke.n_ins() <= 1);
        }
    }
}

/// Rebuilding well-formedness after pin values changed: when every live
/// node keeps its shape and stays well-formed, the wires keep their routes,
/// and the context is untouched, the circuit is still well-formed.
proof fn lemma_wf_after_node_change(pre: Circuit, post: Circuit)
    requires
        pre.wf(),
        post.nodes@.len() == pre.nodes@.len(),
        forall|c: int| pre.live(c) <==> post.live(c),
        forall|c: int|
            post.live(c) ==> (#[trigger] post.node(c)).wf() && post.node(c).same_shape(pre.node(c)),
        routes_match(post.wires@, pre.wires@),
        post.context == pre.context,
    ensures
        post.wf(),
{
    assert forall|k: int|
        0 <= k < post.wires@.len() implies post.wire_ok(#[trigger] post.wires@[k]) by {
        let w = post.wires@[k];
        let w0 = pre.wires@[k];
        assert(w.same_route(w0));
        assert(pre.wire_ok(w0));
        lemma_shape_counts(post.node(w.start_comp as int), pre.node(w0.start_comp as int));
        lemma_shape_counts(post.node(w.end_comp as int), pre.node(w0.end_comp as int));
    }
    assert(post.fanin_unique()) by {
        assert forall|k1: int, k2: int|
            0 <= k1 < k2 < post.wires@.len() && !(#[trigger] post.wires@[k1]).is_virtual && !(
        #[trigger] post.wires@[k2]).is_virtual implies !(post.wires@[k1].end_comp
            == post.wires@[k2].end_comp && post.wires@[k1].end_pin
            == post.wires@[k2].end_pin) by {
            assert(post.wires@[k1].same_route(pre.wires@[k1]));
            assert(post.wires@[k2].same_route(pre.wires@[k2]));
        }
    }
    assert forall|l: Seq<char>, c: usize|
        #[trigger] post.context.is_sender(l, c) <==> post.live(c as int) && (post.node(
            c as int,
        ) matches CompKind::Tunnel(t) && t.kind is Sender && t.label@ == l) by {
        assert(pre.context.is_sender(l, c) <==> pre.live(c as int) && (pre.node(
            c as int,
        ) matches CompKind::Tunnel(t) && t.kind is Sender && t.label@ == l));
    }
    assert forall|l: Seq<char>, c: usize|
        #[trigger] post.context.is_receiver(l, c) <==> post.live(c as int) && (post.node(
            c as int,
        ) matches CompKind::Tunnel(t) && t.kind is Receiver && t.label@ == l) by {
        assert(pre.context.is_receiver(l, c) <==> pre.live(c as int) && (pre.node(
            c as int,
        ) matches CompKind::Tunnel(t) && t.kind is Receiver && t.label@ == l));
    }
}

/// A positive unprocessed-dependency count exhibits a dependency wire
/// whose source is still unprocessed.
proof fn lemma_cnt_in_pos(g: Circuit, done: Seq<usize>, c: usize, upto: int)
    requires
        cnt_in(g, done, c, upto) > 0,
    ensures
        exists|k: int|
            0 <= k < upto && #[trigger] g.considered(k) && g.wires@[k].end_comp == c
                && !done.contains(g.wires@[k].start_comp),
    decreases upto,
{
    if upto > 0 {
        if g.considered(upto - 1) && g.wires@[upto - 1].end_comp == c && !done.contains(
            g.wires@[upto - 1].start_comp,
        ) {
            assert(g.considered(upto - 1));
        } else {
            lemma_cnt_in_pos(g, done, c, upto - 1);
        }
    }
}

/// The earliest position in `ord` holding a value outside `done`.
proof fn lemma_first_not_done(ord: Seq<usize>, done: Seq<usize>, j: int) -> (m: int)
    requires
        0 <= j < ord.len(),
        !done.contains(ord[j]),
    ensures
        0 <= m <= j,
        !done.contains(ord[m]),
        forall|i: int| 0 <= i < m ==> done.contains(#[trigger] ord[i]),
    decreases j,
{
    if forall|i: int| 0 <= i < j ==> done.contains(#[trigger] ord[i]) {
        j
    } else {
        let i0 = choose|i0: int| 0 <= i0 < j && !done.contains(#[trigger] ord[i0]);
        lemma_first_not_done(ord, done, i0)
    }
}

/// [`cnt_from`] counted up to a prefix never exceeds the full
/// unprocessed-dependency count.
proof fn lemma_cnt_from_le_full(
    g: Circuit,
    done: Seq<usize>,
    s: usize,
    c: usize,
    upto: int,
    full: int,
)
    requires
        !done.contains(s),
        0 <= upto <= full,
    ensures
        cnt_from(g, s, c, upto) <= cnt_in(g, done, c, full),
    decreases full - upto,
{
    if upto == full {
        lemma_cnt_from_le(g, done, s, c, upto);
    } else {
        lemma_cnt_from_le_full(g, done, s, c, upto, full - 1);
        assert(cnt_in(g, done, c, full) >= cnt_in(g, done, c, full - 1));
    }
}

/// An unprocessed-dependency count never exceeds the number of wires.
proof fn lemma_cnt_in_bound(g: Circuit, done: Seq<usize>, c: usize, upto: int)
    ensures
        cnt_in(g, done, c, upto) <= (if upto < 0 {
            0int
        } else {
            upto
        }),
    decreases upto,
{
    if upto > 0 {
        lemma_cnt_in_bound(g, done, c, upto - 1);
    }
}

/// A duplicate-free sequence of live node identifiers is no longer than the
/// node arena.
proof fn lemma_nodup_live_len(ord: Seq<usize>, g: Circuit)
    requires
        ord.no_duplicates(),
        forall|i: int| 0 <= i < ord.len() ==> g.live(#[trigger] ord[i] as int),
    ensures
        ord.len() <= g.nodes@.len(),
{
    assert(g.nodes@.len() >= 0);
    let m = ord.map_values(|c: usize| c as int);
    assert(m.no_duplicates()) by {
        assert forall|i: int, j: int|
            0 <= i < m.len() && 0 <= j < m.len() && i != j implies m[i] != m[j] by {
            assert(ord[i] != ord[j]);
        }
    }
    lemma_nodup_range_len(m, g.nodes@.len() as int);
}

/// A duplicate-free integer sequence drawn from `[0, n)` has at most `n`
/// elements.
proof fn lemma_nodup_range_len(s: Seq<int>, n: int)
    requires
        n >= 0,
        s.no_duplicates(),
        forall|i: int| 0 <= i < s.len() ==> 0 <= #[trigger] s[i] < n,
    ensures
        s.len() <= n,
{
    broadcast use vstd::seq_lib::group_seq_properties;

    s.unique_seq_to_set();
    let r = vstd::set_lib::set_int_range(0, n);
    assert(s.to_set().subset_of(r));
    assert(n >= 0);
    vstd::set_lib::lemma_int_range(0, n);
    vstd::set_lib::lemma_len_subset(s.to_set(), r);
}

} // verus!
