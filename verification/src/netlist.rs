use vstd::prelude::*;

use crate::circuit::Circuit;
use crate::logic::foundations::{is_calculated_type, GateType};
use crate::logic::signals::Signal;

verus! {

/// A gate to be added to a circuit: its type, its numbers of inputs and outputs, and the tag
/// of a simple input or output.
pub struct GateSpec {
    pub gate_type: GateType,
    pub input_num: usize,
    pub output_num: usize,
    pub tag: String,
}

impl GateSpec {
    pub fn new(gate_type: GateType, input_num: usize, output_num: usize, tag: String) -> (res: Self)
        ensures
            res.gate_type == gate_type,
            res.input_num == input_num,
            res.output_num == output_num,
            res.tag == tag,
    {
        GateSpec { gate_type, input_num, output_num, tag }
    }
}

/// The gates that `add_gates` adds: computed gates, simple inputs and outputs, and gates that
/// pass their inputs on under the control of their last input.
pub open spec fn spec_addable(s: GateSpec) -> bool {
    &&& s.input_num >= 1
    &&& (is_calculated_type(s.gate_type) || s.gate_type == GateType::SimpleInputType || s.gate_type
        == GateType::SimpleOutputType || ((s.gate_type == GateType::ControlledBufferType || s.gate_type
        == GateType::SignalGatekeeperType) && s.output_num < s.input_num))
}

/// The types of the gates that `specs` describe.
pub open spec fn spec_types_of(specs: Seq<GateSpec>) -> Seq<GateType> {
    specs.map_values(|s: GateSpec| s.gate_type)
}

/// The numbers of inputs and outputs of the gates that `specs` describe.
pub open spec fn spec_shape_of(specs: Seq<GateSpec>) -> Seq<(nat, nat)> {
    specs.map_values(|s: GateSpec| (s.input_num as nat, s.output_num as nat))
}

/// Where output `j` of gate `g` goes after the wires are connected in order: to the
/// destination of the last wire that leaves from there, else to `default`.
pub open spec fn wire_dest(
    wires: Seq<(usize, usize, usize, usize)>,
    g: int,
    j: int,
    default: Option<(int, int)>,
) -> Option<(int, int)>
    decreases wires.len(),
{
    if wires.len() == 0 {
        default
    } else {
        let w = wires.last();
        if w.0 == g && w.1 == j {
            Some((w.2 as int, w.3 as int))
        } else {
            wire_dest(wires.drop_last(), g, j, default)
        }
    }
}

/// `n` copies of `block`, one after the other.
pub open spec fn repeat<A>(block: Seq<A>, n: nat) -> Seq<A>
    decreases n,
{
    if n == 0 {
        Seq::empty()
    } else {
        repeat(block, (n - 1) as nat) + block
    }
}

/// The copies of a block lie side by side.
pub proof fn lemma_repeat_index<A>(block: Seq<A>, n: nat, k: int, r: int)
    requires
        0 <= k < n,
        0 <= r < block.len(),
    ensures
        repeat(block, n).len() == n * block.len(),
        repeat(block, n)[k * block.len() + r] == block[r],
    decreases n,
{
    lemma_repeat_len(block, n);
    lemma_repeat_len(block, (n - 1) as nat);
    let m = (n - 1) as nat;
    assert((n - 1) * block.len() == n * block.len() - block.len()) by (nonlinear_arith);
    if k < n - 1 {
        lemma_repeat_index(block, m, k, r);
        assert(k * block.len() + r < m * block.len()) by (nonlinear_arith)
            requires
                k < m,
                r < block.len(),
        ;
    } else {
        assert(k * block.len() == m * block.len()) by (nonlinear_arith)
            requires
                k == m,
        ;
    }
}

/// The length of `n` copies of a block.
pub proof fn lemma_repeat_len<A>(block: Seq<A>, n: nat)
    ensures
        repeat(block, n).len() == n * block.len(),
    decreases n,
{
    if n > 0 {
        let m = (n - 1) as nat;
        lemma_repeat_len(block, m);
        assert(repeat(block, n) == repeat(block, m) + block);
        assert(m * block.len() + block.len() == n * block.len()) by (nonlinear_arith)
            requires
                m + 1 == n,
        ;
    } else {
        assert(n * block.len() == 0) by (nonlinear_arith)
            requires
                n == 0,
        ;
    }
}

impl Circuit {
    /// Adds the gates that `specs` describe, in order, with their outputs not connected.
    pub fn add_gates(&mut self, specs: &Vec<GateSpec>)
        requires
            old(self).wf(),
            old(self).len() + specs@.len() < usize::MAX,
            forall|k: int| 0 <= k < specs@.len() ==> spec_addable(#[trigger] specs@[k]),
        ensures
            final(self).wf(),
            final(self).len() == old(self).len() + specs@.len(),
            final(self).types() == old(self).types() + spec_types_of(specs@),
            final(self).shape() == old(self).shape() + spec_shape_of(specs@),
            final(self).clock_tick_number == old(self).clock_tick_number,
            old(self).wiring_kept(*final(self)),
            forall|g: int, j: int, d: Option<(int, int)>| old(self).wire(g, j, d) ==> #[trigger] final(self).wire(g, j, d),
            forall|g: int, j: int| old(self).len() <= g && final(self).has_output(g, j) ==> #[trigger] final(self).link(g, j) is None,
            forall|g: int|
                old(self).len() <= g < final(self).len() ==> (#[trigger] final(self).node(g)).members.tag@
                    == specs@[g - old(self).len()].tag@,
    {
        let ghost c0 = *self;
        proof {
            crate::circuit::lemma_wiring_kept_refl(c0);
            assert(c0.shape().len() == c0.len());
        }
        let mut k: usize = 0;
        while k < specs.len()
            invariant
                c0 == *old(self),
                c0.shape().len() == c0.len(),
                c0.len() + specs@.len() < usize::MAX,
                forall|m: int| 0 <= m < specs@.len() ==> spec_addable(#[trigger] specs@[m]),
                k <= specs@.len(),
                self.wf(),
                self.len() == c0.len() + k,
                self.types() == c0.types() + spec_types_of(specs@.subrange(0, k as int)),
                self.shape() == c0.shape() + spec_shape_of(specs@.subrange(0, k as int)),
                self.clock_tick_number == c0.clock_tick_number,
                c0.wiring_kept(*self),
                crate::logic::foundations::shape_extends(c0.shape(), self.shape()),
                forall|g: int, j: int, d: Option<(int, int)>| c0.wire(g, j, d) ==> #[trigger] self.wire(g, j, d),
                forall|g: int, j: int| c0.len() <= g && self.has_output(g, j) ==> #[trigger] self.link(g, j) is None,
                forall|g: int|
                    c0.len() <= g < self.len() ==> (#[trigger] self.node(g)).members.tag@ == specs@[g - c0.len()].tag@,
            decreases specs@.len() - k,
        {
            let ghost before = *self;
            let s = &specs[k];
            proof {
                assert(spec_addable(specs@[k as int]));
            }
            if s.gate_type == GateType::SimpleInputType || s.gate_type == GateType::SimpleOutputType
                || s.gate_type == GateType::SignalGatekeeperType {
                self.add_special_gate(s.gate_type, s.input_num, s.output_num, Signal::LOW_, s.tag.as_str(), 1, Vec::new());
            } else if s.gate_type == GateType::ControlledBufferType {
                self.add_special_gate(s.gate_type, s.input_num, s.output_num, Signal::NONE, s.tag.as_str(), 1, Vec::new());
            } else {
                let g = self.add_logic_gate(s.gate_type, s.input_num, s.output_num);
                let ghost added = *self;
                self.set_tag(g, s.tag.as_str());
                proof {
                    assert(added.shape().len() == added.len());
                    crate::circuit::lemma_wire_kept(added, *self);
                    assert(added.shape().subrange(0, before.shape().len() as int) =~= before.shape());
                    crate::circuit::lemma_wiring_kept_trans(before, added, *self);
                }
            }
            proof {
                assert(specs@.subrange(0, k as int + 1) =~= specs@.subrange(0, k as int).push(specs@[k as int]));
                assert(spec_types_of(specs@.subrange(0, k as int + 1)) =~= spec_types_of(specs@.subrange(0, k as int)).push(specs@[k as int].gate_type));
                assert(spec_shape_of(specs@.subrange(0, k as int + 1)) =~= spec_shape_of(specs@.subrange(0, k as int)).push(
                    (specs@[k as int].input_num as nat, specs@[k as int].output_num as nat),
                ));
                assert(self.shape().len() == self.len());
                assert(before.shape().len() == before.len());
                assert(self.shape().subrange(0, before.shape().len() as int) =~= before.shape());
                assert(before.shape().subrange(0, c0.shape().len() as int) =~= c0.shape());
                assert(self.shape().subrange(0, c0.shape().len() as int) =~= c0.shape());
                crate::circuit::lemma_wiring_kept_trans(c0, before, *self);
                assert forall|g: int| c0.len() <= g < self.len() implies (#[trigger] self.node(g)).members.tag@ == specs@[g - c0.len()].tag@ by {
                    if g < before.len() {
                        assert(before.node(g).members.tag@ == specs@[g - c0.len()].tag@);
                    }
                }
                assert forall|g: int, j: int| c0.len() <= g && self.has_output(g, j) implies #[trigger] self.link(g, j) is None by {
                    if g < before.len() {
                        assert(before.has_output(g, j));
                        assert(before.link(g, j) is None);
                    }
                }
            }
            k = k + 1;
        }
        proof {
            assert(specs@.subrange(0, specs@.len() as int) =~= specs@);
        }
    }

    /// Connects the wires in order: each wire goes from output `.1` of gate `.0` to input `.3`
    /// of gate `.2`. An output takes the last wire that leaves from it; nothing else changes.
    pub fn connect_all(&mut self, wires: &Vec<(usize, usize, usize, usize)>)
        requires
            old(self).wf(),
            forall|k: int|
                0 <= k < wires@.len() ==> old(self).has_output((#[trigger] wires@[k]).0 as int, wires@[k].1 as int)
                    && old(self).has_input(wires@[k].2 as int, wires@[k].3 as int),
        ensures
            final(self).wf(),
            final(self).shape() == old(self).shape(),
            final(self).types() == old(self).types(),
            final(self).clock_tick_number == old(self).clock_tick_number,
            forall|g: int, j: int|
                old(self).has_output(g, j) ==> #[trigger] final(self).link(g, j) == wire_dest(wires@, g, j, old(self).link(g, j)),
    {
        let ghost c0 = *self;
        let mut k: usize = 0;
        while k < wires.len()
            invariant
                c0 == *old(self),
                k <= wires@.len(),
                forall|m: int|
                    0 <= m < wires@.len() ==> c0.has_output((#[trigger] wires@[m]).0 as int, wires@[m].1 as int)
                        && c0.has_input(wires@[m].2 as int, wires@[m].3 as int),
                self.wf(),
                self.shape() == c0.shape(),
                self.types() == c0.types(),
                self.clock_tick_number == c0.clock_tick_number,
                forall|g: int, j: int|
                    c0.has_output(g, j) ==> #[trigger] self.link(g, j) == wire_dest(wires@.subrange(0, k as int), g, j, c0.link(g, j)),
            decreases wires@.len() - k,
        {
            let ghost before = *self;
            let w = wires[k];
            proof {
                assert(c0.has_output(wires@[k as int].0 as int, wires@[k as int].1 as int));
            }
            self.connect(w.0, w.1, w.2, w.3);
            proof {
                assert(wires@.subrange(0, k as int + 1).drop_last() =~= wires@.subrange(0, k as int));
                assert forall|g: int, j: int| c0.has_output(g, j) implies #[trigger] self.link(g, j) == wire_dest(
                    wires@.subrange(0, k as int + 1),
                    g,
                    j,
                    c0.link(g, j),
                ) by {
                    assert(before.link(g, j) == wire_dest(wires@.subrange(0, k as int), g, j, c0.link(g, j)));
                    assert(before.has_output(g, j));
                }
            }
            k = k + 1;
        }
        proof {
            assert(wires@.subrange(0, wires@.len() as int) =~= wires@);
        }
    }
}

/// Wire `w` leaves from an output and arrives at an input of the gates `start..` whose numbers
/// of inputs and outputs are `shape`.
pub open spec fn wire_fits(w: (usize, usize, usize, usize), start: int, shape: Seq<(nat, nat)>) -> bool {
    &&& start <= w.0 < start + shape.len()
    &&& w.1 < shape[w.0 - start].1
    &&& start <= w.2 < start + shape.len()
    &&& w.3 < shape[w.2 - start].0
}

/// An output that no wire leaves from keeps where it went.
pub proof fn lemma_wire_dest_untouched(wires: Seq<(usize, usize, usize, usize)>, g: int, j: int, d: Option<(int, int)>)
    requires
        forall|k: int| 0 <= k < wires.len() ==> !((#[trigger] wires[k]).0 == g && wires[k].1 == j),
    ensures
        wire_dest(wires, g, j, d) == d,
    decreases wires.len(),
{
    if wires.len() > 0 {
        assert(!(wires[wires.len() - 1].0 == g && wires[wires.len() - 1].1 == j));
        assert forall|k: int| 0 <= k < wires.drop_last().len() implies !((#[trigger] wires.drop_last()[k]).0 == g
            && wires.drop_last()[k].1 == j) by {
            assert(wires.drop_last()[k] == wires[k]);
        }
        lemma_wire_dest_untouched(wires.drop_last(), g, j, d);
    }
}

/// Wires that all fit gates added from `start` on leave the gates before `start` as they were.
pub proof fn lemma_wires_keep_old(c0: Circuit, c1: Circuit, c2: Circuit, wires: Seq<(usize, usize, usize, usize)>, start: int, shape: Seq<(nat, nat)>)
    requires
        start == c0.len(),
        c0.wiring_kept(c1),
        c1.shape() == c0.shape() + shape,
        c2.shape() == c1.shape(),
        forall|k: int| 0 <= k < wires.len() ==> wire_fits(#[trigger] wires[k], start, shape),
        forall|g: int, j: int| c1.has_output(g, j) ==> #[trigger] c2.link(g, j) == wire_dest(wires, g, j, c1.link(g, j)),
        forall|g: int, j: int, d: Option<(int, int)>| c0.wire(g, j, d) ==> #[trigger] c1.wire(g, j, d),
    ensures
        c0.wiring_kept(c2),
        forall|g: int, j: int, d: Option<(int, int)>| c0.wire(g, j, d) ==> #[trigger] c2.wire(g, j, d),
{
    assert(c0.shape().len() == c0.len());
    assert forall|g: int, j: int| c0.has_output(g, j) implies #[trigger] c2.link(g, j) == c0.link(g, j) by {
        assert forall|k: int| 0 <= k < wires.len() implies !((#[trigger] wires[k]).0 == g && wires[k].1 == j) by {
            assert(wire_fits(wires[k], start, shape));
        }
        lemma_wire_dest_untouched(wires, g, j, c1.link(g, j));
        assert(c1.has_output(g, j));
    }
    assert forall|g: int, j: int, d: Option<(int, int)>| c0.wire(g, j, d) implies #[trigger] c2.wire(g, j, d) by {
        assert(c1.wire(g, j, d));
        assert forall|k: int| 0 <= k < wires.len() implies !((#[trigger] wires[k]).0 == g && wires[k].1 == j) by {
            assert(wire_fits(wires[k], start, shape));
        }
        lemma_wire_dest_untouched(wires, g, j, c1.link(g, j));
    }
}

} // verus!
