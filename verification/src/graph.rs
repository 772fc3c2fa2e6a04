//! The wiring of the node graph: which output feeds which input pin, and
//! the order in which compiling the graph visits its nodes.

use vstd::prelude::*;
use crate::order::{TickOrdered, stable_sort, stable_sorted, lemma_stable_sorted_len};

verus! {

/// Connection from `from` node's output pin to `to` node's input pin.
#[derive(Clone, Copy, Debug, PartialEq, Eq, Structural)]
pub struct Wire {
    pub from: u32,
    pub from_pin: usize,
    pub to: u32,
    pub to_pin: usize,
}

impl TickOrdered for Wire {
    /// Inputs are read in the order of their pins.
    open spec fn order_key(&self) -> int {
        self.to_pin as int
    }

    fn key_le(&self, other: &Self) -> (b: bool) {
        self.to_pin <= other.to_pin
    }
}

/// Whether `w` feeds input pin `to_pin` of node `to`.
pub open spec fn feeds(w: Wire, to: u32, to_pin: usize) -> bool {
    w.to == to && w.to_pin == to_pin
}

/// Whether a wire stays when input pin `to_pin` of `to` gets a new one.
pub open spec fn stays(to: u32, to_pin: usize) -> spec_fn(Wire) -> bool {
    |w: Wire| !feeds(w, to, to_pin)
}

/// The wires that stay when input pin `to_pin` of `to` gets a new one.
pub open spec fn unplugged(wires: Seq<Wire>, to: u32, to_pin: usize) -> Seq<Wire> {
    wires.filter(stays(to, to_pin))
}

/// Whether a wire goes into node `id`.
pub open spec fn goes_into(id: u32) -> spec_fn(Wire) -> bool {
    |w: Wire| w.to == id
}

/// The wires into node `id`, ordered by input pin (wires into the same pin
/// keep their order).
pub open spec fn inputs_in_order(wires: Seq<Wire>, id: u32) -> Seq<Wire> {
    stable_sorted(wires.filter(goes_into(id)))
}

/// Wire output pin `from_pin` of `from` into input pin `to_pin` of `to`,
/// replacing whatever fed that input pin.
pub fn connect(wires: &mut Vec<Wire>, from: u32, from_pin: usize, to: u32, to_pin: usize)
    ensures
        final(wires)@ == unplugged(old(wires)@, to, to_pin).push(
            Wire { from, from_pin, to, to_pin },
        ),
{
    let mut kept: Vec<Wire> = Vec::new();
    let mut i: usize = 0;
    while i < wires.len()
        invariant
            i <= wires@.len(),
            wires@ == old(wires)@,
            kept@ == unplugged(wires@.take(i as int), to, to_pin),
        decreases wires@.len() - i,
    {
        let w = wires[i];
        proof {
            let s = wires@.take(i as int + 1);
            assert(s.drop_last() =~= wires@.take(i as int));
            reveal(Seq::filter);
            assert(s.last() == w);
        }
        if !(w.to == to && w.to_pin == to_pin) {
            kept.push(w);
        }
        i += 1;
    }
    assert(wires@.take(wires@.len() as int) =~= wires@);
    kept.push(Wire { from, from_pin, to, to_pin });
    *wires = kept;
}

/// The wires into node `id`, in the order its inputs are read.
pub fn inputs_of(wires: &Vec<Wire>, id: u32) -> (r: Vec<Wire>)
    ensures
        r@ == inputs_in_order(wires@, id),
{
    let mut into: Vec<Wire> = Vec::new();
    let mut i: usize = 0;
    while i < wires.len()
        invariant
            i <= wires@.len(),
            into@ == wires@.take(i as int).filter(goes_into(id)),
        decreases wires@.len() - i,
    {
        let w = wires[i];
        proof {
            let s = wires@.take(i as int + 1);
            assert(s.drop_last() =~= wires@.take(i as int));
            reveal(Seq::filter);
            assert(s.last() == w);
        }
        if w.to == id {
            into.push(w);
        }
        i += 1;
    }
    assert(wires@.take(wires@.len() as int) =~= wires@);
    stable_sort(&into)
}

/// After connecting an input pin, exactly one wire feeds it: the new one.
/// Every other wire is kept, in its order.
pub proof fn law_connect_replaces(wires: Seq<Wire>, from: u32, from_pin: usize, to: u32, to_pin: usize)
    ensures
        ({
            let after = unplugged(wires, to, to_pin).push(Wire { from, from_pin, to, to_pin });
            &&& forall|i: int| 0 <= i < after.len() - 1 ==> !feeds(#[trigger] after[i], to, to_pin)
            &&& after.last() == (Wire { from, from_pin, to, to_pin })
            &&& forall|w: Wire| !feeds(w, to, to_pin) ==> (wires.contains(w) <==> #[trigger] after.contains(w))
        }),
{
    let p = stays(to, to_pin);
    let kept = unplugged(wires, to, to_pin);
    let after = kept.push(Wire { from, from_pin, to, to_pin });
    assert forall|i: int| 0 <= i < after.len() - 1 implies !feeds(#[trigger] after[i], to, to_pin) by {
        assert(after[i] == kept[i]);
        wires.lemma_filter_pred(p, i);
    }
    assert forall|w: Wire| !feeds(w, to, to_pin) implies (wires.contains(w) <==> #[trigger] after.contains(w)) by {
        if wires.contains(w) {
            let k = choose|k: int| 0 <= k < wires.len() && wires[k] == w;
            wires.lemma_filter_contains(p, k);
            let j = choose|j: int| 0 <= j < kept.len() && kept[j] == w;
            assert(after[j] == w);
        }
        if after.contains(w) {
            let j = choose|j: int| 0 <= j < after.len() && after[j] == w;
            if j < kept.len() {
                assert(kept[j] == w);
                assert(kept.contains(w));
                wires.lemma_filter_contains_rev(p, w);
            }
        }
    }
}


/// The wires after connecting `w`, which replaces whatever fed its pin.
pub open spec fn plugged(wires: Seq<Wire>, w: Wire) -> Seq<Wire> {
    unplugged(wires, w.to, w.to_pin).push(w)
}

/// Id of the merge node of the `c`-th group of four layers, in a graph
/// built from layers (the output node is 0; each group adds its merge node,
/// then one source node per layer).
pub open spec fn merge_node(c: int) -> int {
    1 + 5 * c
}

/// Id of the source node of layer `i`.
pub open spec fn source_node(i: int) -> int {
    merge_node(i / 4) + 1 + i % 4
}

/// The wire from group `c`'s merge node into the output.
pub open spec fn merge_wire(c: int) -> Wire {
    Wire { from: merge_node(c) as u32, from_pin: 0, to: 0, to_pin: c as usize }
}

/// The wire from layer `i`'s source node into its group's merge node, at
/// its place in the group.
pub open spec fn source_wire(i: int) -> Wire {
    Wire { from: source_node(i) as u32, from_pin: 0, to: merge_node(i / 4) as u32, to_pin: (i % 4) as usize }
}

/// The wires of a graph built from `n` layers, in the order they were
/// connected: each group's merge wire when the group starts, then each
/// layer's source wire.
pub open spec fn layer_wires(n: nat) -> Seq<Wire>
    decreases n,
{
    if n == 0 {
        Seq::empty()
    } else {
        let i = n - 1;
        let before = layer_wires((n - 1) as nat);
        let with_merge = if i % 4 == 0 {
            plugged(before, merge_wire(i / 4))
        } else {
            before
        };
        plugged(with_merge, source_wire(i))
    }
}

/// The wiring of a graph built from `count` layers: an output node (id 0),
/// one merge node per group of four layers wired into the output pin of
/// the group's number, and one source node per layer wired into its
/// group's merge node. Node ids follow the order the nodes are added in.
/// Compiling reads the output's pins in order, so the layers come back in
/// their order.
pub fn layer_wiring(count: u32) -> (wires: Vec<Wire>)
    requires
        count < 0x8000_0000,
    ensures
        wires@ == layer_wires(count as nat),
{
    let mut wires: Vec<Wire> = Vec::new();
    let mut i: u32 = 0;
    while i < count
        invariant
            i <= count,
            count < 0x8000_0000,
            wires@ == layer_wires(i as nat),
        decreases count - i,
    {
        let c: u32 = i / 4;
        let merge: u32 = 1 + 5 * c;
        if i % 4 == 0 {
            connect(&mut wires, merge, 0, 0, c as usize);
        }
        connect(&mut wires, merge + 1 + i % 4, 0, merge, (i % 4) as usize);
        i += 1;
    }
    wires
}

/// A wire stays through connecting another that feeds a different pin.
proof fn lemma_plugged_keeps(wires: Seq<Wire>, w: Wire, x: Wire)
    requires
        wires.contains(x),
        !feeds(x, w.to, w.to_pin),
    ensures
        plugged(wires, w).contains(x),
{
    law_connect_replaces(wires, w.from, w.from_pin, w.to, w.to_pin);
}

/// Building from layers wires every layer's source node into its group's
/// merge node at the layer's place in the group, and every group's merge
/// node into the output pin of its number: no wire replaces another.
pub proof fn law_layer_wiring(n: nat, i: int)
    requires
        0 <= i < n,
        n < 0x8000_0000,
    ensures
        layer_wires(n).contains(source_wire(i)),
        layer_wires(n).contains(merge_wire(i / 4)),
    decreases n,
{
    let m: int = n - 1;
    let before = layer_wires(m as nat);
    let with_merge = if m % 4 == 0 { plugged(before, merge_wire(m / 4)) } else { before };
    assert(layer_wires(n) == plugged(with_merge, source_wire(m)));
    if i < m {
        law_layer_wiring(m as nat, i);
        if m % 4 == 0 {
            lemma_plugged_keeps(before, merge_wire(m / 4), source_wire(i));
            lemma_plugged_keeps(before, merge_wire(m / 4), merge_wire(i / 4));
        }
        lemma_plugged_keeps(with_merge, source_wire(m), source_wire(i));
        lemma_plugged_keeps(with_merge, source_wire(m), merge_wire(i / 4));
    } else {
        assert(layer_wires(n)[layer_wires(n).len() - 1] == source_wire(i));
        if i % 4 == 0 {
            assert(with_merge[with_merge.len() - 1] == merge_wire(i / 4));
            lemma_plugged_keeps(with_merge, source_wire(m), merge_wire(i / 4));
        } else {
            law_layer_wiring(m as nat, i - 1);
            lemma_plugged_keeps(with_merge, source_wire(m), merge_wire(i / 4));
        }
    }
}

/// One step of compiling a graph, in evaluation order: a step gives a
/// stream of layers.
#[derive(Clone, Copy, Debug, PartialEq, Eq, Structural)]
pub enum EvalStep {
    /// Nothing: a node already being evaluated (a cycle), a chain deeper
    /// than 256 nodes, or an unknown node.
    Empty,
    /// Node `id` applied to the streams of its last `inputs` steps, joined
    /// in order.
    Node { id: u32, inputs: usize },
}

/// Deepest chain of nodes that compiling follows.
pub open spec fn max_depth() -> int {
    256
}

/// The steps that evaluate node `id` while the nodes of `visiting` are
/// being evaluated.
pub open spec fn plan_node(nodes: Seq<u32>, wires: Seq<Wire>, id: u32, visiting: Seq<u32>) -> Seq<EvalStep>
    decreases 257 - visiting.len(), 0nat,
{
    if visiting.contains(id) || visiting.len() > max_depth() || !nodes.contains(id) {
        seq![EvalStep::Empty]
    } else {
        let ins = inputs_in_order(wires, id);
        plan_inputs(nodes, wires, ins, visiting.push(id)).push(
            EvalStep::Node { id, inputs: ins.len() as usize },
        )
    }
}

/// The steps that evaluate the sources of `ins`, one after the other.
pub open spec fn plan_inputs(nodes: Seq<u32>, wires: Seq<Wire>, ins: Seq<Wire>, visiting: Seq<u32>) -> Seq<EvalStep>
    decreases 257 - visiting.len(), ins.len() + 1,
{
    if ins.len() == 0 || visiting.len() > 257 {
        Seq::empty()
    } else {
        plan_inputs(nodes, wires, ins.drop_last(), visiting) + plan_node(nodes, wires, ins.last().from, visiting)
    }
}

/// Whether `v` holds `x`.
fn has_id(v: &Vec<u32>, x: u32) -> (b: bool)
    ensures
        b == v@.contains(x),
{
    let mut j: usize = 0;
    while j < v.len()
        invariant
            j <= v@.len(),
            forall|k: int| 0 <= k < j ==> v@[k] != x,
        decreases v@.len() - j,
    {
        if v[j] == x {
            return true;
        }
        j += 1;
    }
    false
}

fn plan_node_into(nodes: &Vec<u32>, wires: &Vec<Wire>, id: u32, visiting: &mut Vec<u32>, out: &mut Vec<EvalStep>)
    requires
        old(visiting)@.len() <= 257,
    ensures
        final(visiting)@ == old(visiting)@,
        final(out)@ == old(out)@ + plan_node(nodes@, wires@, id, old(visiting)@),
    decreases 257 - old(visiting)@.len(),
{
    if has_id(visiting, id) || visiting.len() > 256 || !has_id(nodes, id) {
        out.push(EvalStep::Empty);
        return;
    }
    let ins = inputs_of(wires, id);
    let ghost v0 = visiting@;
    let ghost out0 = out@;
    visiting.push(id);
    let ghost v1 = visiting@;
    let mut j: usize = 0;
    while j < ins.len()
        invariant
            j <= ins@.len(),
            v1 == v0.push(id),
            v0 == old(visiting)@,
            v0.len() <= 256,
            visiting@ == v1,
            ins@ == inputs_in_order(wires@, id),
            out@ == out0 + plan_inputs(nodes@, wires@, ins@.take(j as int), v1),
        decreases ins@.len() - j,
    {
        proof {
            let t = ins@.take(j as int + 1);
            assert(t.drop_last() =~= ins@.take(j as int));
            assert(t.last() == ins@[j as int]);
        }
        plan_node_into(nodes, wires, ins[j].from, visiting, out);
        j += 1;
        assert(out@ =~= out0 + plan_inputs(nodes@, wires@, ins@.take(j as int), v1));
    }
    visiting.pop();
    assert(visiting@ =~= v0);
    assert(ins@.take(ins@.len() as int) =~= ins@);
    out.push(EvalStep::Node { id, inputs: ins.len() });
    assert(out@ =~= out0 + plan_node(nodes@, wires@, id, v0));
}

/// The steps that compile the graph from node `root` (its output node):
/// each node's inputs first, by pin, then the node itself; a node met again
/// on its own path (a cycle), a chain deeper than 256 nodes or an unknown
/// node gives nothing. `nodes` are the ids of the graph's nodes.
pub fn evaluation_order(nodes: &Vec<u32>, wires: &Vec<Wire>, root: u32) -> (steps: Vec<EvalStep>)
    ensures
        steps@ == plan_node(nodes@, wires@, root, Seq::empty()),
{
    let mut visiting: Vec<u32> = Vec::new();
    let mut steps: Vec<EvalStep> = Vec::new();
    plan_node_into(nodes, wires, root, &mut visiting, &mut steps);
    assert(steps@ =~= plan_node(nodes@, wires@, root, Seq::empty()));
    steps
}


/// Streams a step takes.
pub open spec fn step_needs(s: EvalStep) -> int {
    match s {
        EvalStep::Empty => 0,
        EvalStep::Node { inputs, .. } => inputs as int,
    }
}

/// Streams gained by running `steps` (each step leaves one stream).
pub open spec fn streams_gained(steps: Seq<EvalStep>) -> int
    decreases steps.len(),
{
    if steps.len() == 0 {
        0
    } else {
        streams_gained(steps.drop_last()) + 1 - step_needs(steps.last())
    }
}

/// Whether `steps` can run from `depth` streams: no step takes more
/// streams than there are.
pub open spec fn runs_from(steps: Seq<EvalStep>, depth: int) -> bool
    decreases steps.len(),
{
    if steps.len() == 0 {
        true
    } else {
        runs_from(steps.drop_last(), depth) && depth + streams_gained(steps.drop_last()) >= step_needs(steps.last())
    }
}

proof fn lemma_runs_add(a: Seq<EvalStep>, b: Seq<EvalStep>, d: int)
    requires
        runs_from(a, d),
        runs_from(b, d + streams_gained(a)),
    ensures
        runs_from(a + b, d),
        streams_gained(a + b) == streams_gained(a) + streams_gained(b),
    decreases b.len(),
{
    if b.len() == 0 {
        assert(a + b =~= a);
    } else {
        assert((a + b).drop_last() =~= a + b.drop_last());
        lemma_runs_add(a, b.drop_last(), d);
    }
}

proof fn lemma_runs_deeper(b: Seq<EvalStep>, d: int, e: int)
    requires
        runs_from(b, d),
        d <= e,
    ensures
        runs_from(b, e),
    decreases b.len(),
{
    if b.len() > 0 {
        lemma_runs_deeper(b.drop_last(), d, e);
    }
}

proof fn lemma_plan_node_runs(nodes: Seq<u32>, wires: Seq<Wire>, id: u32, visiting: Seq<u32>)
    requires
        visiting.len() <= 257,
        wires.len() <= usize::MAX,
    ensures
        runs_from(plan_node(nodes, wires, id, visiting), 0),
        streams_gained(plan_node(nodes, wires, id, visiting)) == 1,
    decreases 257 - visiting.len(), 0nat,
{
    if visiting.contains(id) || visiting.len() > max_depth() || !nodes.contains(id) {
        let p = seq![EvalStep::Empty];
        assert(p.drop_last() =~= Seq::<EvalStep>::empty());
        assert(runs_from(Seq::<EvalStep>::empty(), 0));
        assert(streams_gained(Seq::<EvalStep>::empty()) == 0);
        assert(plan_node(nodes, wires, id, visiting) == p);
    } else {
        let into = wires.filter(goes_into(id));
        wires.lemma_filter_len(goes_into(id));
        lemma_stable_sorted_len(into);
        let ins = inputs_in_order(wires, id);
        lemma_plan_inputs_runs(nodes, wires, ins, visiting.push(id));
        let pi = plan_inputs(nodes, wires, ins, visiting.push(id));
        let p = pi.push(EvalStep::Node { id, inputs: ins.len() as usize });
        assert(p.drop_last() =~= pi);
        assert(ins.len() <= usize::MAX);
        assert(step_needs(p.last()) == ins.len());
        assert(plan_node(nodes, wires, id, visiting) == p);
    }
}

proof fn lemma_plan_inputs_runs(nodes: Seq<u32>, wires: Seq<Wire>, ins: Seq<Wire>, visiting: Seq<u32>)
    requires
        visiting.len() <= 257,
        wires.len() <= usize::MAX,
    ensures
        runs_from(plan_inputs(nodes, wires, ins, visiting), 0),
        streams_gained(plan_inputs(nodes, wires, ins, visiting)) == ins.len(),
    decreases 257 - visiting.len(), ins.len() + 1,
{
    if ins.len() > 0 {
        lemma_plan_inputs_runs(nodes, wires, ins.drop_last(), visiting);
        lemma_plan_node_runs(nodes, wires, ins.last().from, visiting);
        let a = plan_inputs(nodes, wires, ins.drop_last(), visiting);
        let b = plan_node(nodes, wires, ins.last().from, visiting);
        lemma_runs_deeper(b, 0, streams_gained(a));
        lemma_runs_add(a, b, 0);
    }
}

/// Compiling a graph always works out: every node finds the streams of its
/// inputs, and one stream, the output's, is left at the end, cycles and
/// missing nodes included.
pub proof fn law_evaluation_leaves_one_stream(nodes: Seq<u32>, wires: Seq<Wire>, root: u32)
    requires
        wires.len() <= usize::MAX,
    ensures
        runs_from(plan_node(nodes, wires, root, Seq::empty()), 0),
        streams_gained(plan_node(nodes, wires, root, Seq::empty())) == 1,
{
    lemma_plan_node_runs(nodes, wires, root, Seq::empty());
}

} // verus!
