use vstd::prelude::*;

use crate::circuit::{last_conn, settled_from, settled_kept, Circuit};
use crate::logic::basic_gates::{And, ControlledBuffer, Not, Or, XOr};
use crate::logic::foundations::{complex_fits, last_tag_index, ComplexGateMembers, GateOutputState, GateType, LogicGate};
use crate::logic::input_gates::SimpleInput;
use crate::logic::output_gates::SimpleOutput;
use crate::logic::signals::{spec_and, spec_not, spec_or, spec_resolve, spec_xor, GateLogicError, Signal, UniqueID};
use crate::logic::tags::{numbered, numbered_tag};
use crate::netlist::{lemma_repeat_index, lemma_repeat_len, lemma_wires_keep_old, repeat, spec_addable, spec_shape_of, spec_types_of, wire_dest, wire_fits, GateSpec};

verus! {

/// A one-bit half adder: output `S` is `A` XOR `B` and output `C` is `A` AND `B`.
pub struct HalfAdder {
    pub complex_gate: ComplexGateMembers,
    pub sum_xor_gate: XOr,
    pub carry_and_gate: And,
}

impl HalfAdder {
    /// The types of the gates a half adder adds, in order: inputs `A` and `B`, outputs `S`
    /// and `C`, the XOR and the AND.
    pub open spec fn spec_types() -> Seq<GateType> {
        seq![
            GateType::SimpleInputType,
            GateType::SimpleInputType,
            GateType::SimpleOutputType,
            GateType::SimpleOutputType,
            GateType::XOrType,
            GateType::AndType,
        ]
    }

    /// The numbers of inputs and outputs of those gates.
    pub open spec fn spec_shape() -> Seq<(nat, nat)> {
        seq![(1nat, 2nat), (1nat, 2nat), (1nat, 1nat), (1nat, 1nat), (2nat, 1nat), (2nat, 1nat)]
    }

    /// This half adder stands at gates `start..start + 6` of `c`: `A` feeds input 0 of the XOR
    /// and input 1 of the AND, `B` input 1 of the XOR and input 0 of the AND, the XOR feeds
    /// `S` and the AND feeds `C`.
    pub open spec fn wired(&self, c: Circuit, start: int) -> bool {
        &&& self.complex_gate.input_gates@ == seq![start as usize, (start + 1) as usize]
        &&& self.complex_gate.output_gates@ == seq![(start + 2) as usize, (start + 3) as usize]
        &&& self.complex_gate.gate_type == GateType::HalfAdderType
        &&& c.has_input(start, 0) && c.has_input(start + 1, 0)
        &&& c.has_output(start + 2, 0) && c.has_output(start + 3, 0)
        &&& self.sum_xor_gate.gate == start + 4
        &&& self.carry_and_gate.gate == start + 5
        &&& c.wire(start, 0, Some((start + 4, 0int)))
        &&& c.wire(start, 1, Some((start + 5, 1int)))
        &&& c.wire(start + 1, 0, Some((start + 4, 1int)))
        &&& c.wire(start + 1, 1, Some((start + 5, 0int)))
        &&& c.wire(start + 4, 0, Some((start + 2, 0int)))
        &&& c.wire(start + 5, 0, Some((start + 3, 0int)))
    }

    /// Each input of the XOR, the AND and the outputs `S` and `C` holds a single entry, from the
    /// gate wired to it.
    pub open spec fn fed(&self, c: Circuit, start: int) -> bool {
        &&& c.fed_by(start + 4, 0, c.node(start).members.unique_id)
        &&& c.fed_by(start + 4, 1, c.node(start + 1).members.unique_id)
        &&& c.fed_by(start + 5, 0, c.node(start + 1).members.unique_id)
        &&& c.fed_by(start + 5, 1, c.node(start).members.unique_id)
        &&& c.fed_by(start + 2, 0, c.node(start + 4).members.unique_id)
        &&& c.fed_by(start + 3, 0, c.node(start + 5).members.unique_id)
    }

    /// Nothing but the wires of this half adder reaches its inner inputs.
    pub open spec fn sole_senders(&self, c: Circuit, start: int) -> bool {
        &&& c.sole_sender(start + 4, 0, c.node(start).members.unique_id)
        &&& c.sole_sender(start + 4, 1, c.node(start + 1).members.unique_id)
        &&& c.sole_sender(start + 5, 0, c.node(start + 1).members.unique_id)
        &&& c.sole_sender(start + 5, 1, c.node(start).members.unique_id)
        &&& c.sole_sender(start + 2, 0, c.node(start + 4).members.unique_id)
        &&& c.sole_sender(start + 3, 0, c.node(start + 5).members.unique_id)
    }

    /// Wired as above, with the outputs not yet connected and the tags `A`, `B`, `S`, `C`.
    pub open spec fn built(&self, c: Circuit, start: int) -> bool {
        &&& self.wired(c, start)
        &&& c.wire(start + 2, 0, None)
        &&& c.wire(start + 3, 0, None)
        &&& self.complex_gate.tag_names() == seq!["A"@, "B"@, "S"@, "C"@]
        &&& self.complex_gate.tags_laid_out()
    }

    /// Right after it is built, only its own wires reach the inner inputs of a half adder:
    /// the gates that stood before send nowhere past them.
    pub proof fn lemma_sole_senders(&self, c0: Circuit, c: Circuit, start: int)
        requires
            c0.wf(),
            c.wf(),
            start == c0.len(),
            c.shape() == c0.shape() + Self::spec_shape(),
            c0.wiring_kept(c),
            self.built(c, start),
        ensures
            self.sole_senders(c, start),
    {
        assert(c0.shape().len() == c0.len());
        assert forall|g: int, j: int| #[trigger] c.has_output(g, j) implies {
            ||| c.link(g, j) is None
            ||| (c.link(g, j) matches Some(d) && d.0 < start)
            ||| (g == start && j == 0 && c.link(g, j) == Some((start + 4, 0int)))
            ||| (g == start && j == 1 && c.link(g, j) == Some((start + 5, 1int)))
            ||| (g == start + 1 && j == 0 && c.link(g, j) == Some((start + 4, 1int)))
            ||| (g == start + 1 && j == 1 && c.link(g, j) == Some((start + 5, 0int)))
            ||| (g == start + 4 && j == 0 && c.link(g, j) == Some((start + 2, 0int)))
            ||| (g == start + 5 && j == 0 && c.link(g, j) == Some((start + 3, 0int)))
        } by {
            if g < start {
                assert(c.shape()[g] == c0.shape()[g]);
                assert(c0.has_output(g, j));
                assert(c.link(g, j) == c0.link(g, j));
                assert(c0.connections_wf(g));
                if let GateOutputState::Connected(co) = c0.node(g).outputs()[j] {
                    assert(c0.has_input(co.gate as int, co.throughput.input_index as int));
                }
            } else {
                assert(c.shape()[g] == Self::spec_shape()[g - start]);
            }
        }
        assert forall|g: int, j: int| c.has_output(g, j) && #[trigger] c.link(g, j) == Some((start + 4, 0int)) implies c.node(g).members.unique_id == c.node(start).members.unique_id by {}
        assert forall|g: int, j: int| c.has_output(g, j) && #[trigger] c.link(g, j) == Some((start + 4, 1int)) implies c.node(g).members.unique_id == c.node(start + 1).members.unique_id by {}
        assert forall|g: int, j: int| c.has_output(g, j) && #[trigger] c.link(g, j) == Some((start + 5, 0int)) implies c.node(g).members.unique_id == c.node(start + 1).members.unique_id by {}
        assert forall|g: int, j: int| c.has_output(g, j) && #[trigger] c.link(g, j) == Some((start + 5, 1int)) implies c.node(g).members.unique_id == c.node(start).members.unique_id by {}
        assert forall|g: int, j: int| c.has_output(g, j) && #[trigger] c.link(g, j) == Some((start + 2, 0int)) implies c.node(g).members.unique_id == c.node(start + 4).members.unique_id by {}
        assert forall|g: int, j: int| c.has_output(g, j) && #[trigger] c.link(g, j) == Some((start + 3, 0int)) implies c.node(g).members.unique_id == c.node(start + 5).members.unique_id by {}
    }

    /// At rest, a half adder computes: where nothing but its own wires reaches its inner
    /// inputs and its pins `A` and `B` see `a` and `b`, output `S` carries `a` XOR `b` and
    /// output `C` carries `a` AND `b`.
    pub proof fn lemma_computes(&self, c: Circuit, start: int, a: Signal, b: Signal)
        requires
            c.wf(),
            self.wired(c, start),
            c.types().subrange(start, start + 6) == Self::spec_types(),
            c.shape().subrange(start, start + 6) == Self::spec_shape(),
            self.fed(c, start),
            forall|g: int| start <= g < start + 6 ==> #[trigger] c.gate_settled(g),
            spec_resolve(c.node(start).inputs()[0]) == Ok::<Signal, GateLogicError>(a),
            spec_resolve(c.node(start + 1).inputs()[0]) == Ok::<Signal, GateLogicError>(b),
        ensures
            c.node(start + 2).current(0) == spec_xor(seq![a, b]),
            c.node(start + 3).current(0) == spec_and(seq![a, b]),
    {
        let tys = c.types().subrange(start, start + 6);
        assert(tys[0] == c.types()[start]);
        assert(tys[1] == c.types()[start + 1]);
        assert(tys[2] == c.types()[start + 2]);
        assert(tys[3] == c.types()[start + 3]);
        assert(tys[4] == c.types()[start + 4]);
        assert(tys[5] == c.types()[start + 5]);
        let shp = c.shape().subrange(start, start + 6);
        assert(shp[0] == c.shape()[start]);
        assert(shp[1] == c.shape()[start + 1]);
        assert(shp[2] == c.shape()[start + 2]);
        assert(shp[3] == c.shape()[start + 3]);
        assert(shp[4] == c.shape()[start + 4]);
        assert(shp[5] == c.shape()[start + 5]);
        let pa = c.node(start);
        let pb = c.node(start + 1);
        assert(pa.inputs().len() == pa.members.input_signals@.len());
        assert(pb.inputs().len() == pb.members.input_signals@.len());
        crate::circuit::lemma_one_input(pa.inputs(), a);
        crate::circuit::lemma_one_input(pb.inputs(), b);
        assert(c.gate_settled(start));
        assert(c.gate_settled(start + 1));
        assert(pa.current(0) == a);
        assert(pa.current(1) == a);
        assert(pb.current(0) == b);
        assert(pb.current(1) == b);
        assert(last_conn(pa.outputs(), 1, start + 4, 0) == 0);
        assert(last_conn(pa.outputs(), 2, start + 4, 0) == 0);
        assert(last_conn(pa.outputs(), 0, start + 5, 1) == -1);
        assert(last_conn(pa.outputs(), 1, start + 5, 1) == -1);
        assert(last_conn(pa.outputs(), 2, start + 5, 1) == 1);
        assert(last_conn(pb.outputs(), 1, start + 4, 1) == 0);
        assert(last_conn(pb.outputs(), 2, start + 4, 1) == 0);
        assert(last_conn(pb.outputs(), 0, start + 5, 0) == -1);
        assert(last_conn(pb.outputs(), 1, start + 5, 0) == -1);
        assert(last_conn(pb.outputs(), 2, start + 5, 0) == 1);
        crate::circuit::lemma_fed_value(c, start, 0, start + 4, 0);
        crate::circuit::lemma_fed_value(c, start, 1, start + 5, 1);
        crate::circuit::lemma_fed_value(c, start + 1, 0, start + 4, 1);
        crate::circuit::lemma_fed_value(c, start + 1, 1, start + 5, 0);
        let x = c.node(start + 4);
        let n = c.node(start + 5);
        assert(x.inputs().len() == x.members.input_signals@.len());
        assert(n.inputs().len() == n.members.input_signals@.len());
        crate::circuit::lemma_two_inputs(x.inputs(), a, b);
        crate::circuit::lemma_two_inputs(n.inputs(), b, a);
        assert(c.gate_settled(start + 4));
        assert(c.gate_settled(start + 5));
        assert(x.current(0) == spec_xor(seq![a, b]));
        assert(n.current(0) == spec_and(seq![b, a]));
        assert(spec_and(seq![b, a]) == spec_and(seq![a, b])) by {
            assert(seq![b, a].contains(Signal::LOW_) == seq![a, b].contains(Signal::LOW_)) by {
                if seq![b, a].contains(Signal::LOW_) {
                    let i = choose|i: int| 0 <= i < 2 && seq![b, a][i] == Signal::LOW_;
                    assert(seq![a, b][1 - i] == Signal::LOW_);
                }
                if seq![a, b].contains(Signal::LOW_) {
                    let i = choose|i: int| 0 <= i < 2 && seq![a, b][i] == Signal::LOW_;
                    assert(seq![b, a][1 - i] == Signal::LOW_);
                }
            }
        }
        assert(last_conn(x.outputs(), 1, start + 2, 0) == 0);
        assert(last_conn(n.outputs(), 1, start + 3, 0) == 0);
        crate::circuit::lemma_fed_value(c, start + 4, 0, start + 2, 0);
        crate::circuit::lemma_fed_value(c, start + 5, 0, start + 3, 0);
        let so = c.node(start + 2);
        let co = c.node(start + 3);
        assert(so.inputs().len() == so.members.input_signals@.len());
        assert(co.inputs().len() == co.members.input_signals@.len());
        crate::circuit::lemma_one_input(so.inputs(), x.current(0));
        crate::circuit::lemma_one_input(co.inputs(), n.current(0));
        assert(c.gate_settled(start + 2));
        assert(c.gate_settled(start + 3));
    }

    /// The wiring of a half adder stays as long as the outputs of its gates keep their links.
    pub proof fn lemma_wired_kept(&self, c1: Circuit, c2: Circuit, start: int)
        requires
            self.wired(c1, start),
            c2.shape() == c1.shape(),
            forall|g: int, j: int| start <= g < start + 6 && c1.has_output(g, j) ==> #[trigger] c2.link(g, j) == c1.link(g, j),
        ensures
            self.wired(c2, start),
    {
        assert(c2.link(start, 0) == c1.link(start, 0));
        assert(c2.link(start, 1) == c1.link(start, 1));
        assert(c2.link(start + 1, 0) == c1.link(start + 1, 0));
        assert(c2.link(start + 1, 1) == c1.link(start + 1, 1));
        assert(c2.link(start + 4, 0) == c1.link(start + 4, 0));
        assert(c2.link(start + 5, 0) == c1.link(start + 5, 0));
    }

    /// Adds the gates of a half adder to the circuit and wires them, without priming.
    #[verifier::rlimit(40)]
    pub fn build(circuit: &mut Circuit) -> (res: Self)
        requires
            old(circuit).wf(),
            old(circuit).len() + 6 < usize::MAX,
        ensures
            final(circuit).wf(),
            final(circuit).shape() == old(circuit).shape() + Self::spec_shape(),
            final(circuit).types() == old(circuit).types() + Self::spec_types(),
            final(circuit).clock_tick_number == old(circuit).clock_tick_number,
            old(circuit).wiring_kept(*final(circuit)),
            forall|g: int, j: int, d: Option<(int, int)>| old(circuit).wire(g, j, d) ==> #[trigger] final(circuit).wire(g, j, d),
            res.built(*final(circuit), old(circuit).len() as int),
            res.fed(*final(circuit), old(circuit).len() as int),
            final(circuit).node(old(circuit).len() as int).inputs()[0] == seq![(crate::logic::foundations::zero_uid(), Signal::LOW_)],
            final(circuit).node(old(circuit).len() as int + 1).inputs()[0] == seq![(crate::logic::foundations::zero_uid(), Signal::LOW_)],
            forall|h: int| 0 <= h < old(circuit).len() ==> #[trigger] final(circuit).node(h).inputs() == old(circuit).node(h).inputs(),
    {
        let ghost c0 = *circuit;
        let start = circuit.num_gates();
        let a = SimpleInput::new(circuit, 2, "A");
        let ghost c1 = *circuit;
        let b = SimpleInput::new(circuit, 2, "B");
        let ghost c2 = *circuit;
        let s = SimpleOutput::new(circuit, "S");
        let ghost c3 = *circuit;
        let c = SimpleOutput::new(circuit, "C");
        let ghost c4 = *circuit;
        let mut inputs: Vec<usize> = Vec::new();
        inputs.push(a.gate);
        inputs.push(b.gate);
        let mut outputs: Vec<usize> = Vec::new();
        outputs.push(s.gate);
        outputs.push(c.gate);
        proof {
            assert(c1.shape().len() == c1.len());
            assert(c2.shape().len() == c2.len());
            assert(c3.shape().len() == c3.len());
            assert(c4.shape().len() == c4.len());
            assert(c0.shape().len() == c0.len());
            assert(a.gate == start);
            assert(b.gate == start + 1);
            assert(inputs@ =~= seq![start, (start + 1) as usize]);
            assert(outputs@ =~= seq![(start + 2) as usize, (start + 3) as usize]);
            assert(c4.gates@.drop_last()[start as int] == c4.gates@[start as int]);
            assert(c3.gates@.drop_last()[start as int] == c3.gates@[start as int]);
            assert(c2.gates@.drop_last()[start as int] == c2.gates@[start as int]);
            assert(c4.gates@.drop_last()[start + 1] == c4.gates@[start + 1]);
            assert(c3.gates@.drop_last()[start + 1] == c3.gates@[start + 1]);
            assert(c4.gates@.drop_last()[start + 2] == c4.gates@[start + 2]);
        }
        let complex_gate = ComplexGateMembers::new(circuit, GateType::HalfAdderType, inputs, outputs);
        let sum_xor_gate = XOr::new(circuit, 2, 1);
        let ghost c5 = *circuit;
        let carry_and_gate = And::new(circuit, 2, 1);
        let ghost c6 = *circuit;
        proof {
            assert(c6.shape() =~= c0.shape() + Self::spec_shape());
            assert(c6.types() =~= c0.types() + Self::spec_types());
            crate::circuit::lemma_wiring_kept_refl(c0);
        }
        let r1 = circuit.connect(start, 0, start + 4, 0);
        let ghost k1 = *circuit;
        let r2 = circuit.connect(start, 1, start + 5, 1);
        let ghost k2 = *circuit;
        let r3 = circuit.connect(start + 1, 0, start + 4, 1);
        let ghost k3 = *circuit;
        let r4 = circuit.connect(start + 1, 1, start + 5, 0);
        let ghost k4 = *circuit;
        let r5 = circuit.connect(start + 4, 0, start + 2, 0);
        let ghost k5 = *circuit;
        let r6 = circuit.connect(start + 5, 0, start + 3, 0);
        proof {
            assert(complex_gate.tag_names() =~= seq!["A"@, "B"@, "S"@, "C"@]);
            reveal(crate::circuit::inputs_after_connect);
            let z = seq![(crate::logic::foundations::zero_uid(), crate::logic::signals::Signal::LOW_)];
            let ida = c6.node(start as int).members.unique_id;
            let idb = c6.node(start + 1).members.unique_id;
            let idx = c6.node(start + 4).members.unique_id;
            let idn = c6.node(start + 5).members.unique_id;
            assert(c6.gates@.drop_last()[start + 4] == c6.gates@[start + 4]);
            assert(c6.node(start + 4).inputs()[0] == z);
            assert(c6.node(start + 4).inputs()[1] == z);
            assert(c6.node(start + 5).inputs()[0] == z);
            assert(c6.node(start + 5).inputs()[1] == z);
            assert(c6.gates@.drop_last()[start + 2] == c6.gates@[start + 2]);
            assert(c5.gates@.drop_last()[start + 2] == c5.gates@[start + 2]);
            assert(c6.gates@.drop_last()[start + 3] == c6.gates@[start + 3]);
            assert(c5.gates@.drop_last()[start + 3] == c5.gates@[start + 3]);
            assert(c6.node(start + 2).inputs()[0] == z);
            assert(c6.node(start + 3).inputs()[0] == z);
            crate::circuit::lemma_connect_fresh(ida, r1);
            crate::circuit::lemma_connect_fresh(ida, r2);
            crate::circuit::lemma_connect_fresh(idb, r3);
            crate::circuit::lemma_connect_fresh(idb, r4);
            crate::circuit::lemma_connect_fresh(idx, r5);
            crate::circuit::lemma_connect_fresh(idn, r6);
            assert(c6.node(start as int).members.unique_id.id == start + 1);
            assert(c6.node(start + 1).members.unique_id.id == start + 2);
            assert(c6.node(start + 4).members.unique_id.id == start + 5);
            assert(c6.node(start + 5).members.unique_id.id == start + 6);
            assert(k1.node(start as int).members.unique_id.id == start + 1);
            assert(k2.node(start + 1).members.unique_id.id == start + 2);
            assert(k3.node(start + 1).members.unique_id.id == start + 2);
            assert(k4.node(start + 4).members.unique_id.id == start + 5);
            assert(k5.node(start + 5).members.unique_id.id == start + 6);
            assert(k1.node(start + 4).inputs()[1] == z);
            assert(k2.node(start + 4).inputs()[1] == z);
            assert(k1.node(start + 5).inputs()[0] == z);
            assert(k2.node(start + 5).inputs()[0] == z);
            assert(k3.node(start + 5).inputs()[0] == z);
            assert(k3.node(start + 4).inputs()[1] == seq![(idb, r3)]);
            assert(k4.node(start + 4).inputs()[1] == seq![(idb, r3)]);
            assert(k4.node(start + 5).inputs()[0] == seq![(idb, r4)]);
            assert(k5.node(start + 5).inputs()[0] == seq![(idb, r4)]);
            assert(circuit.node(start + 4).inputs()[0] == seq![(ida, r1)]);
            assert(circuit.node(start + 4).inputs()[1] == seq![(idb, r3)]);
            assert(circuit.node(start + 5).inputs()[0] == seq![(idb, r4)]);
            assert(c6.gates@.drop_last()[start as int] == c6.gates@[start as int]);
            assert(c5.gates@.drop_last()[start as int] == c5.gates@[start as int]);
            assert(c6.gates@.drop_last()[start + 1] == c6.gates@[start + 1]);
            assert(c5.gates@.drop_last()[start + 1] == c5.gates@[start + 1]);
            assert(c6.node(start as int).inputs()[0] == z);
            assert(c6.node(start + 1).inputs()[0] == z);
            assert forall|h: int| 0 <= h < start implies #[trigger] circuit.node(h).inputs() == c0.node(h).inputs() by {
                assert(c1.gates@.drop_last()[h] == c1.gates@[h]);
                assert(c2.gates@.drop_last()[h] == c2.gates@[h]);
                assert(c3.gates@.drop_last()[h] == c3.gates@[h]);
                assert(c4.gates@.drop_last()[h] == c4.gates@[h]);
                assert(c5.gates@.drop_last()[h] == c5.gates@[h]);
                assert(c6.gates@.drop_last()[h] == c6.gates@[h]);
                assert(k1.node(h).inputs() == c6.node(h).inputs());
                assert(k2.node(h).inputs() == k1.node(h).inputs());
                assert(k3.node(h).inputs() == k2.node(h).inputs());
                assert(k4.node(h).inputs() == k3.node(h).inputs());
                assert(k5.node(h).inputs() == k4.node(h).inputs());
            }
            assert(circuit.node(start + 5).inputs()[1] == seq![(ida, r2)]);
            assert(circuit.node(start + 2).inputs()[0] == seq![(idx, r5)]);
            assert(circuit.node(start + 3).inputs()[0] == seq![(idn, r6)]);
            assert(circuit.node(start as int).members.unique_id.id == start + 1);
            assert(circuit.node(start + 1).members.unique_id.id == start + 2);
            assert(circuit.node(start + 4).members.unique_id.id == start + 5);
            assert(circuit.node(start + 5).members.unique_id.id == start + 6);
        }
        let mut complex_gate = complex_gate;
        complex_gate.number_child_gates = 6;
        HalfAdder { complex_gate, sum_xor_gate, carry_and_gate }
    }
}


impl LogicGate for HalfAdder {
    open spec fn spec_input_pin(&self, index: int) -> (int, int) {
        (self.complex_gate.input_gates@[index] as int, 0)
    }

    open spec fn spec_output_pin(&self, index: int) -> (int, int) {
        (self.complex_gate.output_gates@[index] as int, 0)
    }

    open spec fn spec_num_inputs(&self) -> nat {
        self.complex_gate.input_gates@.len()
    }

    open spec fn spec_num_outputs(&self) -> nat {
        self.complex_gate.output_gates@.len()
    }

    open spec fn spec_gate_type(&self) -> GateType {
        self.complex_gate.gate_type
    }

    open spec fn spec_unique_id(&self) -> UniqueID {
        self.complex_gate.unique_id
    }

    fn input_pin(&self, index: usize) -> (res: (usize, usize)) {
        (self.complex_gate.input_gates[index], 0)
    }

    fn output_pin(&self, index: usize) -> (res: (usize, usize)) {
        (self.complex_gate.output_gates[index], 0)
    }

    fn num_inputs(&self) -> (res: usize) {
        self.complex_gate.input_gates.len()
    }

    fn num_outputs(&self) -> (res: usize) {
        self.complex_gate.output_gates.len()
    }

    fn get_gate_type(&self) -> (res: GateType) {
        self.complex_gate.gate_type
    }

    fn get_unique_id(&self) -> (res: UniqueID) {
        self.complex_gate.unique_id
    }
}

impl HalfAdder {
    /// Adds a half adder to the circuit and primes it: signals travel until the circuit is at rest.
    /// Fails only when that does not happen or two senders drive one input.
    pub fn new(circuit: &mut Circuit) -> (res: Result<Self, GateLogicError>)
        requires
            old(circuit).wf(),
            old(circuit).len() + 6 < usize::MAX,
        ensures
            final(circuit).wf(),
            final(circuit).shape() == old(circuit).shape() + Self::spec_shape(),
            final(circuit).types() == old(circuit).types() + Self::spec_types(),
            final(circuit).clock_tick_number == old(circuit).clock_tick_number,
            old(circuit).wiring_kept(*final(circuit)),
            match res {
                Ok(gate) => gate.built(*final(circuit), old(circuit).len() as int)
                    && settled_from(*final(circuit), old(circuit).len() as int)
                    && gate.fed(*final(circuit), old(circuit).len() as int),
                Err(e) => crate::run_circuit::failure_shown(*final(circuit), e),
            },
    {
        let ghost c0 = *circuit;
        let start = circuit.num_gates();
        let gate = Self::build(circuit);
        let ghost built_circuit = *circuit;
        proof {
            gate.lemma_sole_senders(c0, built_circuit, start as int);
        }
        let primed = circuit.prime_from(start);
        proof {
            crate::circuit::lemma_wire_kept(built_circuit, *circuit);
            if primed is Ok {
                let c = built_circuit;
                assert(c.node(start as int).members.unique_id.id == start + 1);
                assert(c.node(start + 1).members.unique_id.id == start + 2);
                assert(c.node(start + 4).members.unique_id.id == start + 5);
                assert(c.node(start + 5).members.unique_id.id == start + 6);
                assert(c.fed_by(start + 4, 0, c.node(start as int).members.unique_id));
                assert(c.fed_by(start + 4, 1, c.node(start + 1).members.unique_id));
                assert(c.fed_by(start + 5, 0, c.node(start + 1).members.unique_id));
                assert(c.fed_by(start + 5, 1, c.node(start as int).members.unique_id));
                assert(c.fed_by(start + 2, 0, c.node(start + 4).members.unique_id));
                assert(c.fed_by(start + 3, 0, c.node(start + 5).members.unique_id));
                assert(circuit.node(start as int).members.unique_id.id == start + 1);
                assert(circuit.node(start + 1).members.unique_id.id == start + 2);
                assert(circuit.node(start + 4).members.unique_id.id == start + 5);
                assert(circuit.node(start + 5).members.unique_id.id == start + 6);
            }
        }
        match primed {
            Ok(()) => Ok(gate),
            Err(e) => Err(e),
        }
    }

    /// The input or output index that `tag` names.
    pub fn get_index_from_tag(&self, tag: &str) -> (res: Option<usize>)
        ensures
            res == last_tag_index(self.complex_gate.gate_tags_to_index@, tag@),
    {
        self.complex_gate.get_index_from_tag(tag)
    }

    /// Brings the outputs up to date with what reaches them and returns their states.
    pub fn fetch_output_signals(&self, circuit: &mut Circuit) -> (res: Vec<GateOutputState>)
        requires
            old(circuit).wf(),
            complex_fits(&self.complex_gate, old(circuit).shape(), old(circuit).types()),
        ensures
            final(circuit).wf(),
            final(circuit).shape() == old(circuit).shape(),
            final(circuit).types() == old(circuit).types(),
            old(circuit).wiring_kept(*final(circuit)),
            res@.len() == self.complex_gate.output_gates@.len(),
            forall|i: int| 0 <= i < res@.len() ==> #[trigger] res@[i] == final(circuit).node(self.complex_gate.output_gates@[i] as int).outputs()[0],
    {
        proof {
            assert forall|i: int| 0 <= i < self.complex_gate.output_gates@.len() implies #[trigger] old(circuit).has_output(self.complex_gate.output_gates@[i] as int, 0) by {}
        }
        self.complex_gate.fetch_output_signals_calculate(circuit)
    }

    pub fn get_tag(&self) -> (res: String)
        ensures
            res@ == self.complex_gate.tag@,
    {
        self.complex_gate.tag.clone()
    }

    pub fn set_tag(&mut self, tag: &str)
        ensures
            final(self).complex_gate.tag@ == tag@,
            final(self).complex_gate.input_gates == old(self).complex_gate.input_gates,
            final(self).complex_gate.output_gates == old(self).complex_gate.output_gates,
            final(self).complex_gate.gate_tags_to_index == old(self).complex_gate.gate_tags_to_index,
    {
        self.complex_gate.tag = tag.to_owned();
    }

    pub fn toggle_output_printing(&mut self, print_output: bool)
        ensures
            final(self).complex_gate.should_print_output == print_output,
            final(self).complex_gate.input_gates == old(self).complex_gate.input_gates,
            final(self).complex_gate.output_gates == old(self).complex_gate.output_gates,
    {
        self.complex_gate.should_print_output = print_output;
    }

    /// The number of circuit gates that make up this gate.
    pub fn num_children_gates(&self) -> (res: usize)
        ensures
            res == self.complex_gate.number_child_gates,
    {
        self.complex_gate.number_child_gates
    }
}


/// A one-bit full adder: output `S` is the sum bit of `A + B + C_IN` and `C_OUT` its carry.
pub struct FullAdder {
    pub complex_gate: ComplexGateMembers,
    pub input_half_adder: HalfAdder,
    pub carry_half_adder: HalfAdder,
    pub or_gate: Or,
}

impl FullAdder {
    /// The types of the gates a full adder adds, in order: inputs `A`, `B`, `C_IN`, outputs
    /// `S`, `C_OUT`, two half adders and the OR.
    pub open spec fn spec_types() -> Seq<GateType> {
        seq![
            GateType::SimpleInputType,
            GateType::SimpleInputType,
            GateType::SimpleInputType,
            GateType::SimpleOutputType,
            GateType::SimpleOutputType,
        ] + HalfAdder::spec_types() + HalfAdder::spec_types() + seq![GateType::OrType]
    }

    /// The numbers of inputs and outputs of those gates.
    pub open spec fn spec_shape() -> Seq<(nat, nat)> {
        seq![(1nat, 1nat), (1nat, 1nat), (1nat, 1nat), (1nat, 1nat), (1nat, 1nat)]
            + HalfAdder::spec_shape() + HalfAdder::spec_shape() + seq![(2nat, 1nat)]
    }

    /// This full adder stands at gates `start..start + 18` of `c`: `A` and `B` feed the first
    /// half adder, whose sum and `C_IN` feed the second; the second gives `S`, and the OR of
    /// both carries gives `C_OUT`.
    pub open spec fn wired(&self, c: Circuit, start: int) -> bool {
        &&& self.complex_gate.input_gates@ == seq![start as usize, (start + 1) as usize, (start + 2) as usize]
        &&& self.complex_gate.output_gates@ == seq![(start + 3) as usize, (start + 4) as usize]
        &&& self.complex_gate.gate_type == GateType::FullAdderType
        &&& c.has_input(start, 0) && c.has_input(start + 1, 0) && c.has_input(start + 2, 0)
        &&& c.has_output(start + 3, 0) && c.has_output(start + 4, 0)
        &&& self.input_half_adder.wired(c, start + 5)
        &&& self.carry_half_adder.wired(c, start + 11)
        &&& self.or_gate.gate == start + 17
        &&& c.wire(start, 0, Some((start + 5, 0int)))
        &&& c.wire(start + 1, 0, Some((start + 6, 0int)))
        &&& c.wire(start + 7, 0, Some((start + 11, 0int)))
        &&& c.wire(start + 2, 0, Some((start + 12, 0int)))
        &&& c.wire(start + 13, 0, Some((start + 3, 0int)))
        &&& c.wire(start + 14, 0, Some((start + 17, 0int)))
        &&& c.wire(start + 8, 0, Some((start + 17, 1int)))
        &&& c.wire(start + 17, 0, Some((start + 4, 0int)))
    }

    /// Each inner input of this full adder, its half adders' included, holds a single entry,
    /// sent by whichever gate is wired to it.
    pub open spec fn fed(&self, c: Circuit, start: int) -> bool {
        &&& self.input_half_adder.fed(c, start + 5)
        &&& self.carry_half_adder.fed(c, start + 11)
        &&& c.fed_by(start + 5, 0, c.node(start).members.unique_id)
        &&& c.fed_by(start + 6, 0, c.node(start + 1).members.unique_id)
        &&& c.fed_by(start + 11, 0, c.node(start + 7).members.unique_id)
        &&& c.fed_by(start + 12, 0, c.node(start + 2).members.unique_id)
        &&& c.fed_by(start + 3, 0, c.node(start + 13).members.unique_id)
        &&& c.fed_by(start + 17, 0, c.node(start + 14).members.unique_id)
        &&& c.fed_by(start + 17, 1, c.node(start + 8).members.unique_id)
        &&& c.fed_by(start + 4, 0, c.node(start + 17).members.unique_id)
    }

    /// Nothing but the wires of this full adder reaches its inner inputs.
    pub open spec fn sole_senders(&self, c: Circuit, start: int) -> bool {
        &&& self.input_half_adder.sole_senders(c, start + 5)
        &&& self.carry_half_adder.sole_senders(c, start + 11)
        &&& c.sole_sender(start + 5, 0, c.node(start).members.unique_id)
        &&& c.sole_sender(start + 6, 0, c.node(start + 1).members.unique_id)
        &&& c.sole_sender(start + 11, 0, c.node(start + 7).members.unique_id)
        &&& c.sole_sender(start + 12, 0, c.node(start + 2).members.unique_id)
        &&& c.sole_sender(start + 3, 0, c.node(start + 13).members.unique_id)
        &&& c.sole_sender(start + 17, 0, c.node(start + 14).members.unique_id)
        &&& c.sole_sender(start + 17, 1, c.node(start + 8).members.unique_id)
        &&& c.sole_sender(start + 4, 0, c.node(start + 17).members.unique_id)
    }

    /// Right after it is built, only its own wires reach the inner inputs of a full adder.
    #[verifier::rlimit(60)]
    pub proof fn lemma_sole_senders(&self, c0: Circuit, c: Circuit, start: int)
        requires
            c0.wf(),
            c.wf(),
            start == c0.len(),
            c.shape() == c0.shape() + Self::spec_shape(),
            c0.wiring_kept(c),
            self.built(c, start),
        ensures
            self.sole_senders(c, start),
    {
        assert(c0.shape().len() == c0.len());
        let h1 = start + 5;
        let h2 = start + 11;
        assert forall|g: int, j: int| #[trigger] c.has_output(g, j) implies {
            ||| c.link(g, j) is None
            ||| (c.link(g, j) matches Some(d) && d.0 < start)
            ||| (g == start && j == 0 && c.link(g, j) == Some((start + 5, 0int)))
            ||| (g == start + 1 && j == 0 && c.link(g, j) == Some((start + 6, 0int)))
            ||| (g == start + 2 && j == 0 && c.link(g, j) == Some((start + 12, 0int)))
            ||| (g == h1 && j == 0 && c.link(g, j) == Some((h1 + 4, 0int)))
            ||| (g == h1 && j == 1 && c.link(g, j) == Some((h1 + 5, 1int)))
            ||| (g == h1 + 1 && j == 0 && c.link(g, j) == Some((h1 + 4, 1int)))
            ||| (g == h1 + 1 && j == 1 && c.link(g, j) == Some((h1 + 5, 0int)))
            ||| (g == h1 + 4 && j == 0 && c.link(g, j) == Some((h1 + 2, 0int)))
            ||| (g == h1 + 5 && j == 0 && c.link(g, j) == Some((h1 + 3, 0int)))
            ||| (g == start + 7 && j == 0 && c.link(g, j) == Some((start + 11, 0int)))
            ||| (g == start + 8 && j == 0 && c.link(g, j) == Some((start + 17, 1int)))
            ||| (g == h2 && j == 0 && c.link(g, j) == Some((h2 + 4, 0int)))
            ||| (g == h2 && j == 1 && c.link(g, j) == Some((h2 + 5, 1int)))
            ||| (g == h2 + 1 && j == 0 && c.link(g, j) == Some((h2 + 4, 1int)))
            ||| (g == h2 + 1 && j == 1 && c.link(g, j) == Some((h2 + 5, 0int)))
            ||| (g == h2 + 4 && j == 0 && c.link(g, j) == Some((h2 + 2, 0int)))
            ||| (g == h2 + 5 && j == 0 && c.link(g, j) == Some((h2 + 3, 0int)))
            ||| (g == start + 13 && j == 0 && c.link(g, j) == Some((start + 3, 0int)))
            ||| (g == start + 14 && j == 0 && c.link(g, j) == Some((start + 17, 0int)))
            ||| (g == start + 17 && j == 0 && c.link(g, j) == Some((start + 4, 0int)))
        } by {
            if g < start {
                assert(c.shape()[g] == c0.shape()[g]);
                assert(c0.has_output(g, j));
                assert(c.link(g, j) == c0.link(g, j));
                assert(c0.connections_wf(g));
                if let GateOutputState::Connected(co) = c0.node(g).outputs()[j] {
                    assert(c0.has_input(co.gate as int, co.throughput.input_index as int));
                }
            } else {
                assert(c.shape()[g] == Self::spec_shape()[g - start]);
            }
        }
        let ia = c.node(start).members.unique_id;
        let ib = c.node(start + 1).members.unique_id;
        let ic = c.node(start + 2).members.unique_id;
        assert forall|g: int, j: int| c.has_output(g, j) && #[trigger] c.link(g, j) == Some((start + 5, 0int)) implies c.node(g).members.unique_id == ia by {}
        assert forall|g: int, j: int| c.has_output(g, j) && #[trigger] c.link(g, j) == Some((start + 6, 0int)) implies c.node(g).members.unique_id == ib by {}
        assert forall|g: int, j: int| c.has_output(g, j) && #[trigger] c.link(g, j) == Some((start + 12, 0int)) implies c.node(g).members.unique_id == ic by {}
        assert forall|g: int, j: int| c.has_output(g, j) && #[trigger] c.link(g, j) == Some((start + 11, 0int)) implies c.node(g).members.unique_id == c.node(start + 7).members.unique_id by {}
        assert forall|g: int, j: int| c.has_output(g, j) && #[trigger] c.link(g, j) == Some((start + 3, 0int)) implies c.node(g).members.unique_id == c.node(start + 13).members.unique_id by {}
        assert forall|g: int, j: int| c.has_output(g, j) && #[trigger] c.link(g, j) == Some((start + 17, 0int)) implies c.node(g).members.unique_id == c.node(start + 14).members.unique_id by {}
        assert forall|g: int, j: int| c.has_output(g, j) && #[trigger] c.link(g, j) == Some((start + 17, 1int)) implies c.node(g).members.unique_id == c.node(start + 8).members.unique_id by {}
        assert forall|g: int, j: int| c.has_output(g, j) && #[trigger] c.link(g, j) == Some((start + 4, 0int)) implies c.node(g).members.unique_id == c.node(start + 17).members.unique_id by {}
        assert forall|g: int, j: int| c.has_output(g, j) && #[trigger] c.link(g, j) == Some((h1 + 4, 0int)) implies c.node(g).members.unique_id == c.node(h1).members.unique_id by {}
        assert forall|g: int, j: int| c.has_output(g, j) && #[trigger] c.link(g, j) == Some((h1 + 4, 1int)) implies c.node(g).members.unique_id == c.node(h1 + 1).members.unique_id by {}
        assert forall|g: int, j: int| c.has_output(g, j) && #[trigger] c.link(g, j) == Some((h1 + 5, 0int)) implies c.node(g).members.unique_id == c.node(h1 + 1).members.unique_id by {}
        assert forall|g: int, j: int| c.has_output(g, j) && #[trigger] c.link(g, j) == Some((h1 + 5, 1int)) implies c.node(g).members.unique_id == c.node(h1).members.unique_id by {}
        assert forall|g: int, j: int| c.has_output(g, j) && #[trigger] c.link(g, j) == Some((h1 + 2, 0int)) implies c.node(g).members.unique_id == c.node(h1 + 4).members.unique_id by {}
        assert forall|g: int, j: int| c.has_output(g, j) && #[trigger] c.link(g, j) == Some((h1 + 3, 0int)) implies c.node(g).members.unique_id == c.node(h1 + 5).members.unique_id by {}
        assert forall|g: int, j: int| c.has_output(g, j) && #[trigger] c.link(g, j) == Some((h2 + 4, 0int)) implies c.node(g).members.unique_id == c.node(h2).members.unique_id by {}
        assert forall|g: int, j: int| c.has_output(g, j) && #[trigger] c.link(g, j) == Some((h2 + 4, 1int)) implies c.node(g).members.unique_id == c.node(h2 + 1).members.unique_id by {}
        assert forall|g: int, j: int| c.has_output(g, j) && #[trigger] c.link(g, j) == Some((h2 + 5, 0int)) implies c.node(g).members.unique_id == c.node(h2 + 1).members.unique_id by {}
        assert forall|g: int, j: int| c.has_output(g, j) && #[trigger] c.link(g, j) == Some((h2 + 5, 1int)) implies c.node(g).members.unique_id == c.node(h2).members.unique_id by {}
        assert forall|g: int, j: int| c.has_output(g, j) && #[trigger] c.link(g, j) == Some((h2 + 2, 0int)) implies c.node(g).members.unique_id == c.node(h2 + 4).members.unique_id by {}
        assert forall|g: int, j: int| c.has_output(g, j) && #[trigger] c.link(g, j) == Some((h2 + 3, 0int)) implies c.node(g).members.unique_id == c.node(h2 + 5).members.unique_id by {}
    }

    /// At rest, a full adder computes: where nothing but its own wires reaches its inner
    /// inputs and its pins `A`, `B`, `C_IN` see `a`, `b`, `cin`, output `S` carries
    /// (`a` XOR `b`) XOR `cin` and `C_OUT` carries ((`a` XOR `b`) AND `cin`) OR (`a` AND `b`).
    pub proof fn lemma_computes(&self, c: Circuit, start: int, a: Signal, b: Signal, cin: Signal)
        requires
            c.wf(),
            self.wired(c, start),
            c.types().subrange(start, start + 18) == Self::spec_types(),
            c.shape().subrange(start, start + 18) == Self::spec_shape(),
            self.fed(c, start),
            forall|g: int| start <= g < start + 18 ==> #[trigger] c.gate_settled(g),
            spec_resolve(c.node(start).inputs()[0]) == Ok::<Signal, GateLogicError>(a),
            spec_resolve(c.node(start + 1).inputs()[0]) == Ok::<Signal, GateLogicError>(b),
            spec_resolve(c.node(start + 2).inputs()[0]) == Ok::<Signal, GateLogicError>(cin),
        ensures
            c.node(start + 3).current(0) == spec_xor(seq![spec_xor(seq![a, b]), cin]),
            c.node(start + 4).current(0) == spec_or(seq![spec_and(seq![spec_xor(seq![a, b]), cin]), spec_and(seq![a, b])]),
    {
        let tys = c.types().subrange(start, start + 18);
        let shp = c.shape().subrange(start, start + 18);
        assert forall|k: int| 0 <= k < 18 implies #[trigger] c.types()[start + k] == tys[k] && c.shape()[start + k] == shp[k] by {}
        assert(c.types().subrange(start + 5, start + 11) =~= HalfAdder::spec_types()) by {
            assert forall|k: int| 0 <= k < 6 implies c.types().subrange(start + 5, start + 11)[k] == HalfAdder::spec_types()[k] by {
                assert(c.types()[start + 5 + k] == tys[5 + k]);
            }
        }
        assert(c.types().subrange(start + 11, start + 17) =~= HalfAdder::spec_types()) by {
            assert forall|k: int| 0 <= k < 6 implies c.types().subrange(start + 11, start + 17)[k] == HalfAdder::spec_types()[k] by {
                assert(c.types()[start + 11 + k] == tys[11 + k]);
            }
        }
        assert(c.shape().subrange(start + 5, start + 11) =~= HalfAdder::spec_shape()) by {
            assert forall|k: int| 0 <= k < 6 implies c.shape().subrange(start + 5, start + 11)[k] == HalfAdder::spec_shape()[k] by {
                assert(c.shape()[start + 5 + k] == shp[5 + k]);
            }
        }
        assert(c.shape().subrange(start + 11, start + 17) =~= HalfAdder::spec_shape()) by {
            assert forall|k: int| 0 <= k < 6 implies c.shape().subrange(start + 11, start + 17)[k] == HalfAdder::spec_shape()[k] by {
                assert(c.shape()[start + 11 + k] == shp[11 + k]);
            }
        }
        assert(c.types()[start] == tys[0]);
        assert(c.types()[start + 1] == tys[1]);
        assert(c.types()[start + 2] == tys[2]);
        assert(c.types()[start + 3] == tys[3]);
        assert(c.types()[start + 4] == tys[4]);
        assert(c.types()[start + 17] == tys[17]);
        assert(c.shape()[start] == shp[0]);
        assert(c.shape()[start + 1] == shp[1]);
        assert(c.shape()[start + 2] == shp[2]);
        assert(c.shape()[start + 3] == shp[3]);
        assert(c.shape()[start + 4] == shp[4]);
        assert(c.shape()[start + 7] == shp[7]);
        assert(c.shape()[start + 8] == shp[8]);
        assert(c.shape()[start + 13] == shp[13]);
        assert(c.shape()[start + 14] == shp[14]);
        assert(c.shape()[start + 17] == shp[17]);
        let pa = c.node(start);
        let pb = c.node(start + 1);
        let pc = c.node(start + 2);
        assert(pa.inputs().len() == pa.members.input_signals@.len());
        assert(pb.inputs().len() == pb.members.input_signals@.len());
        assert(pc.inputs().len() == pc.members.input_signals@.len());
        crate::circuit::lemma_one_input(pa.inputs(), a);
        crate::circuit::lemma_one_input(pb.inputs(), b);
        crate::circuit::lemma_one_input(pc.inputs(), cin);
        assert(c.gate_settled(start));
        assert(c.gate_settled(start + 1));
        assert(c.gate_settled(start + 2));
        assert(last_conn(pa.outputs(), 1, start + 5, 0) == 0);
        assert(last_conn(pb.outputs(), 1, start + 6, 0) == 0);
        assert(last_conn(pc.outputs(), 1, start + 12, 0) == 0);
        crate::circuit::lemma_fed_value(c, start, 0, start + 5, 0);
        crate::circuit::lemma_fed_value(c, start + 1, 0, start + 6, 0);
        crate::circuit::lemma_fed_value(c, start + 2, 0, start + 12, 0);
        assert forall|g: int| start + 5 <= g < start + 11 implies #[trigger] c.gate_settled(g) by {}
        self.input_half_adder.lemma_computes(c, start + 5, a, b);
        let x = spec_xor(seq![a, b]);
        let hs = c.node(start + 7);
        let hc = c.node(start + 8);
        assert(last_conn(hs.outputs(), 1, start + 11, 0) == 0);
        assert(c.gate_settled(start + 7));
        crate::circuit::lemma_fed_value(c, start + 7, 0, start + 11, 0);
        assert forall|g: int| start + 11 <= g < start + 17 implies #[trigger] c.gate_settled(g) by {}
        self.carry_half_adder.lemma_computes(c, start + 11, x, cin);
        let s2 = c.node(start + 13);
        let c2 = c.node(start + 14);
        assert(c.gate_settled(start + 13));
        assert(c.gate_settled(start + 14));
        assert(c.gate_settled(start + 8));
        assert(last_conn(s2.outputs(), 1, start + 3, 0) == 0);
        assert(last_conn(c2.outputs(), 1, start + 17, 0) == 0);
        assert(last_conn(hc.outputs(), 1, start + 17, 1) == 0);
        crate::circuit::lemma_fed_value(c, start + 13, 0, start + 3, 0);
        crate::circuit::lemma_fed_value(c, start + 14, 0, start + 17, 0);
        crate::circuit::lemma_fed_value(c, start + 8, 0, start + 17, 1);
        let o = c.node(start + 17);
        assert(o.inputs().len() == o.members.input_signals@.len());
        crate::circuit::lemma_two_inputs(o.inputs(), c2.current(0), hc.current(0));
        assert(c.gate_settled(start + 17));
        assert(last_conn(o.outputs(), 1, start + 4, 0) == 0);
        crate::circuit::lemma_fed_value(c, start + 17, 0, start + 4, 0);
        let so = c.node(start + 3);
        let co = c.node(start + 4);
        assert(so.inputs().len() == so.members.input_signals@.len());
        assert(co.inputs().len() == co.members.input_signals@.len());
        crate::circuit::lemma_one_input(so.inputs(), s2.current(0));
        crate::circuit::lemma_one_input(co.inputs(), o.current(0));
        assert(c.gate_settled(start + 3));
        assert(c.gate_settled(start + 4));
    }

    /// Wired as above, with the outputs not yet connected and the tags `A`, `B`, `C_IN`, `S`,
    /// `C_OUT`.
    pub open spec fn built(&self, c: Circuit, start: int) -> bool {
        &&& self.wired(c, start)
        &&& c.wire(start + 3, 0, None)
        &&& c.wire(start + 4, 0, None)
        &&& self.complex_gate.tag_names() == seq!["A"@, "B"@, "C_IN"@, "S"@, "C_OUT"@]
        &&& self.complex_gate.tags_laid_out()
    }

    /// The wiring of a full adder stays as long as the outputs of its gates, but for `S` and
    /// `C_OUT`, keep their links.
    pub proof fn lemma_wired_kept(&self, c1: Circuit, c2: Circuit, start: int)
        requires
            self.wired(c1, start),
            c2.shape() == c1.shape(),
            forall|g: int, j: int| (start <= g < start + 3 || start + 5 <= g < start + 18) && c1.has_output(g, j)
                ==> #[trigger] c2.link(g, j) == c1.link(g, j),
        ensures
            self.wired(c2, start),
    {
        self.input_half_adder.lemma_wired_kept(c1, c2, start + 5);
        self.carry_half_adder.lemma_wired_kept(c1, c2, start + 11);
        assert(c2.link(start, 0) == c1.link(start, 0));
        assert(c2.link(start + 1, 0) == c1.link(start + 1, 0));
        assert(c2.link(start + 2, 0) == c1.link(start + 2, 0));
        assert(c2.link(start + 7, 0) == c1.link(start + 7, 0));
        assert(c2.link(start + 8, 0) == c1.link(start + 8, 0));
        assert(c2.link(start + 13, 0) == c1.link(start + 13, 0));
        assert(c2.link(start + 14, 0) == c1.link(start + 14, 0));
        assert(c2.link(start + 17, 0) == c1.link(start + 17, 0));
    }

    /// Adds the gates of a full adder to the circuit and wires them, without priming.
    #[verifier::spinoff_prover]
    #[verifier::rlimit(100)]
    pub fn build(circuit: &mut Circuit) -> (res: Self)
        requires
            old(circuit).wf(),
            old(circuit).len() + 18 < usize::MAX,
        ensures
            final(circuit).wf(),
            final(circuit).shape() == old(circuit).shape() + Self::spec_shape(),
            final(circuit).types() == old(circuit).types() + Self::spec_types(),
            final(circuit).clock_tick_number == old(circuit).clock_tick_number,
            old(circuit).wiring_kept(*final(circuit)),
            forall|g: int, j: int, d: Option<(int, int)>| old(circuit).wire(g, j, d) ==> #[trigger] final(circuit).wire(g, j, d),
            res.built(*final(circuit), old(circuit).len() as int),
            res.fed(*final(circuit), old(circuit).len() as int),
    {
        let ghost c0 = *circuit;
        let start = circuit.num_gates();
        let a = SimpleInput::new(circuit, 1, "A");
        let ghost c1 = *circuit;
        let b = SimpleInput::new(circuit, 1, "B");
        let ghost c2 = *circuit;
        let c_in = SimpleInput::new(circuit, 1, "C_IN");
        let ghost c3 = *circuit;
        let s = SimpleOutput::new(circuit, "S");
        let ghost c4 = *circuit;
        let c_out = SimpleOutput::new(circuit, "C_OUT");
        let ghost c5 = *circuit;
        let mut inputs: Vec<usize> = Vec::new();
        inputs.push(a.gate);
        inputs.push(b.gate);
        inputs.push(c_in.gate);
        let mut outputs: Vec<usize> = Vec::new();
        outputs.push(s.gate);
        outputs.push(c_out.gate);
        proof {
            assert(c0.shape().len() == c0.len());
            assert(c1.shape().len() == c1.len());
            assert(c2.shape().len() == c2.len());
            assert(c3.shape().len() == c3.len());
            assert(c4.shape().len() == c4.len());
            assert(c5.shape().len() == c5.len());
            assert(inputs@ =~= seq![start, (start + 1) as usize, (start + 2) as usize]);
            assert(outputs@ =~= seq![(start + 3) as usize, (start + 4) as usize]);
            assert(c5.gates@.drop_last()[start as int] == c5.gates@[start as int]);
            assert(c4.gates@.drop_last()[start as int] == c4.gates@[start as int]);
            assert(c3.gates@.drop_last()[start as int] == c3.gates@[start as int]);
            assert(c2.gates@.drop_last()[start as int] == c2.gates@[start as int]);
            assert(c5.gates@.drop_last()[start + 1] == c5.gates@[start + 1]);
            assert(c4.gates@.drop_last()[start + 1] == c4.gates@[start + 1]);
            assert(c3.gates@.drop_last()[start + 1] == c3.gates@[start + 1]);
            assert(c5.gates@.drop_last()[start + 2] == c5.gates@[start + 2]);
            assert(c4.gates@.drop_last()[start + 2] == c4.gates@[start + 2]);
            assert(c5.gates@.drop_last()[start + 3] == c5.gates@[start + 3]);
        }
        let complex_gate = ComplexGateMembers::new(circuit, GateType::FullAdderType, inputs, outputs);
        let input_half_adder = HalfAdder::build(circuit);
        let ghost c6 = *circuit;
        let carry_half_adder = HalfAdder::build(circuit);
        let ghost c7 = *circuit;
        let or_gate = Or::new(circuit, 2, 1);
        let ghost c8 = *circuit;
        proof {
            assert(c8.shape() =~= c0.shape() + Self::spec_shape());
            assert(c8.types() =~= c0.types() + Self::spec_types());
            assert(complex_gate.tag_names() =~= seq!["A"@, "B"@, "C_IN"@, "S"@, "C_OUT"@]);
        }
        let r1 = circuit.connect(start, 0, start + 5, 0);
        let ghost k1 = *circuit;
        let r2 = circuit.connect(start + 1, 0, start + 6, 0);
        let ghost k2 = *circuit;
        let r3 = circuit.connect(start + 7, 0, start + 11, 0);
        let ghost k3 = *circuit;
        let r4 = circuit.connect(start + 2, 0, start + 12, 0);
        let ghost k4 = *circuit;
        let r5 = circuit.connect(start + 13, 0, start + 3, 0);
        let ghost k5 = *circuit;
        let r6 = circuit.connect(start + 14, 0, start + 17, 0);
        let ghost k6 = *circuit;
        let r7 = circuit.connect(start + 8, 0, start + 17, 1);
        let ghost k7 = *circuit;
        let r8 = circuit.connect(start + 17, 0, start + 4, 0);
        proof {
            reveal(crate::circuit::inputs_after_connect);
            let z = seq![(crate::logic::foundations::zero_uid(), Signal::LOW_)];
            assert forall|h: int| start + 3 <= h < start + 18 implies #[trigger] circuit.node(h).members.unique_id == c8.node(h).members.unique_id by {
                assert(circuit.node(h).members.unique_id.id == h + 1);
                assert(c8.node(h).members.unique_id.id == h + 1);
            }
            assert(circuit.node(start as int).members.unique_id == c8.node(start as int).members.unique_id) by {
                assert(circuit.node(start as int).members.unique_id.id == start + 1);
                assert(c8.node(start as int).members.unique_id.id == start + 1);
            }
            assert(circuit.node(start + 1).members.unique_id == c8.node(start + 1).members.unique_id) by {
                assert(circuit.node(start + 1).members.unique_id.id == start + 2);
                assert(c8.node(start + 1).members.unique_id.id == start + 2);
            }
            assert(circuit.node(start + 2).members.unique_id == c8.node(start + 2).members.unique_id) by {
                assert(circuit.node(start + 2).members.unique_id.id == start + 3);
                assert(c8.node(start + 2).members.unique_id.id == start + 3);
            }
            assert forall|h: int| start + 5 <= h < start + 11 implies #[trigger] c8.node(h).members.unique_id == c6.node(h).members.unique_id by {
                assert(c6.node(h).members.unique_id.id == h + 1);
                assert(c8.node(h).members.unique_id.id == h + 1);
            }
            assert forall|h: int| start + 11 <= h < start + 17 implies #[trigger] c8.node(h).members.unique_id == c7.node(h).members.unique_id by {
                assert(c7.node(h).members.unique_id.id == h + 1);
                assert(c8.node(h).members.unique_id.id == h + 1);
            }
            // inner inputs of the half adders are untouched after they were built
            assert forall|h: int| start + 7 <= h < start + 11 implies #[trigger] circuit.node(h).inputs() == c6.node(h).inputs() by {
                assert(c7.node(h).inputs() == c6.node(h).inputs());
                assert(c8.gates@.drop_last()[h] == c8.gates@[h]);
                assert(k1.node(h).inputs() == c8.node(h).inputs());
                assert(k2.node(h).inputs() == k1.node(h).inputs());
                assert(k3.node(h).inputs() == k2.node(h).inputs());
                assert(k4.node(h).inputs() == k3.node(h).inputs());
                assert(k5.node(h).inputs() == k4.node(h).inputs());
                assert(k6.node(h).inputs() == k5.node(h).inputs());
                assert(k7.node(h).inputs() == k6.node(h).inputs());
            }
            assert forall|h: int| start + 13 <= h < start + 17 implies #[trigger] circuit.node(h).inputs() == c7.node(h).inputs() by {
                assert(c8.gates@.drop_last()[h] == c8.gates@[h]);
                assert(k1.node(h).inputs() == c8.node(h).inputs());
                assert(k2.node(h).inputs() == k1.node(h).inputs());
                assert(k3.node(h).inputs() == k2.node(h).inputs());
                assert(k4.node(h).inputs() == k3.node(h).inputs());
                assert(k5.node(h).inputs() == k4.node(h).inputs());
                assert(k6.node(h).inputs() == k5.node(h).inputs());
                assert(k7.node(h).inputs() == k6.node(h).inputs());
            }
            // the pins of the half adders, the outputs and the OR start with their placeholder
            assert(c7.node(start + 5).inputs() == c6.node(start + 5).inputs());
            assert(c7.node(start + 6).inputs() == c6.node(start + 6).inputs());
            assert(c8.gates@.drop_last()[start + 5] == c8.gates@[start + 5]);
            assert(c8.gates@.drop_last()[start + 6] == c8.gates@[start + 6]);
            assert(c8.gates@.drop_last()[start + 11] == c8.gates@[start + 11]);
            assert(c8.gates@.drop_last()[start + 12] == c8.gates@[start + 12]);
            assert(c8.gates@.drop_last()[start + 3] == c8.gates@[start + 3]);
            assert(c8.gates@.drop_last()[start + 4] == c8.gates@[start + 4]);
            assert(c5.gates@.drop_last()[start + 3] == c5.gates@[start + 3]);
            assert(c6.node(start + 3).inputs() == c5.node(start + 3).inputs());
            assert(c6.node(start + 4).inputs() == c5.node(start + 4).inputs());
            assert(c7.node(start + 3).inputs() == c6.node(start + 3).inputs());
            assert(c7.node(start + 4).inputs() == c6.node(start + 4).inputs());
            assert(c8.node(start + 5).inputs()[0] == z);
            assert(c8.node(start + 6).inputs()[0] == z);
            assert(c8.node(start + 11).inputs()[0] == z);
            assert(c8.node(start + 12).inputs()[0] == z);
            assert(c8.node(start + 3).inputs()[0] == z);
            assert(c8.node(start + 4).inputs()[0] == z);
            assert(c8.node(start + 17).inputs()[0] == z);
            assert(c8.node(start + 17).inputs()[1] == z);
            let ia = c8.node(start as int).members.unique_id;
            let ib = c8.node(start + 1).members.unique_id;
            let ic = c8.node(start + 2).members.unique_id;
            let i7 = c8.node(start + 7).members.unique_id;
            let i8 = c8.node(start + 8).members.unique_id;
            let i13 = c8.node(start + 13).members.unique_id;
            let i14 = c8.node(start + 14).members.unique_id;
            let i17 = c8.node(start + 17).members.unique_id;
            assert(k1.node(start + 1).members.unique_id.id == start + 2);
            assert(k2.node(start + 7).members.unique_id.id == start + 8);
            assert(k3.node(start + 2).members.unique_id.id == start + 3);
            assert(k4.node(start + 13).members.unique_id.id == start + 14);
            assert(k5.node(start + 14).members.unique_id.id == start + 15);
            assert(k6.node(start + 8).members.unique_id.id == start + 9);
            assert(k7.node(start + 17).members.unique_id.id == start + 18);
            assert(c8.node(start as int).members.unique_id.id == start + 1);
            assert(c8.node(start + 1).members.unique_id.id == start + 2);
            assert(c8.node(start + 2).members.unique_id.id == start + 3);
            assert(c8.node(start + 7).members.unique_id.id == start + 8);
            assert(c8.node(start + 8).members.unique_id.id == start + 9);
            assert(c8.node(start + 13).members.unique_id.id == start + 14);
            assert(c8.node(start + 14).members.unique_id.id == start + 15);
            assert(c8.node(start + 17).members.unique_id.id == start + 18);
            assert(k1.node(start + 6).inputs()[0] == z);
            assert(k2.node(start + 11).inputs()[0] == z);
            assert(k3.node(start + 12).inputs()[0] == z);
            assert(k4.node(start + 3).inputs()[0] == z);
            assert(k7.node(start + 4).inputs()[0] == z);
            crate::circuit::lemma_connect_fresh(ia, r1);
            crate::circuit::lemma_connect_fresh(ib, r2);
            crate::circuit::lemma_connect_fresh(i7, r3);
            crate::circuit::lemma_connect_fresh(ic, r4);
            crate::circuit::lemma_connect_fresh(i13, r5);
            crate::circuit::lemma_connect_fresh(i14, r6);
            crate::circuit::lemma_connect_fresh(i8, r7);
            crate::circuit::lemma_connect_fresh(i17, r8);
            assert(k1.node(start + 5).inputs()[0] == seq![(ia, r1)]);
            assert(k2.node(start + 6).inputs()[0] == seq![(ib, r2)]);
            assert(k3.node(start + 11).inputs()[0] == seq![(i7, r3)]);
            assert(k4.node(start + 12).inputs()[0] == seq![(ic, r4)]);
            assert(k5.node(start + 3).inputs()[0] == seq![(i13, r5)]);
            assert(k5.node(start + 17).inputs()[0] == z);
            assert(k6.node(start + 17).inputs()[0] == seq![(i14, r6)]);
            assert(k6.node(start + 17).inputs()[1] == z);
            assert(k7.node(start + 17).inputs()[1] == seq![(i8, r7)]);
            assert(k7.node(start + 17).inputs()[0] == seq![(i14, r6)]);
            assert(circuit.node(start + 4).inputs()[0] == seq![(i17, r8)]);
            assert(circuit.node(start + 5).inputs()[0] == seq![(ia, r1)]);
            assert(circuit.node(start + 6).inputs()[0] == seq![(ib, r2)]);
            assert(circuit.node(start + 11).inputs()[0] == seq![(i7, r3)]);
            assert(circuit.node(start + 12).inputs()[0] == seq![(ic, r4)]);
            assert(circuit.node(start + 3).inputs()[0] == seq![(i13, r5)]);
            assert(circuit.node(start + 17).inputs()[0] == seq![(i14, r6)]);
            assert(circuit.node(start + 17).inputs()[1] == seq![(i8, r7)]);
            assert(input_half_adder.fed(c6, start + 5));
            assert(carry_half_adder.fed(c7, start + 11));
            assert(input_half_adder.fed(*circuit, start + 5));
            assert(carry_half_adder.fed(*circuit, start + 11));
        }
        let mut complex_gate = complex_gate;
        complex_gate.number_child_gates = 18;
        FullAdder { complex_gate, input_half_adder, carry_half_adder, or_gate }
    }
}

impl LogicGate for FullAdder {
    open spec fn spec_input_pin(&self, index: int) -> (int, int) {
        (self.complex_gate.input_gates@[index] as int, 0)
    }

    open spec fn spec_output_pin(&self, index: int) -> (int, int) {
        (self.complex_gate.output_gates@[index] as int, 0)
    }

    open spec fn spec_num_inputs(&self) -> nat {
        self.complex_gate.input_gates@.len()
    }

    open spec fn spec_num_outputs(&self) -> nat {
        self.complex_gate.output_gates@.len()
    }

    open spec fn spec_gate_type(&self) -> GateType {
        self.complex_gate.gate_type
    }

    open spec fn spec_unique_id(&self) -> UniqueID {
        self.complex_gate.unique_id
    }

    fn input_pin(&self, index: usize) -> (res: (usize, usize)) {
        (self.complex_gate.input_gates[index], 0)
    }

    fn output_pin(&self, index: usize) -> (res: (usize, usize)) {
        (self.complex_gate.output_gates[index], 0)
    }

    fn num_inputs(&self) -> (res: usize) {
        self.complex_gate.input_gates.len()
    }

    fn num_outputs(&self) -> (res: usize) {
        self.complex_gate.output_gates.len()
    }

    fn get_gate_type(&self) -> (res: GateType) {
        self.complex_gate.gate_type
    }

    fn get_unique_id(&self) -> (res: UniqueID) {
        self.complex_gate.unique_id
    }
}

impl FullAdder {
    /// Adds a full adder to the circuit and primes it: signals travel until the circuit is at rest.
    /// Fails only when that does not happen or two senders drive one input.
    pub fn new(circuit: &mut Circuit) -> (res: Result<Self, GateLogicError>)
        requires
            old(circuit).wf(),
            old(circuit).len() + 18 < usize::MAX,
        ensures
            final(circuit).wf(),
            final(circuit).shape() == old(circuit).shape() + Self::spec_shape(),
            final(circuit).types() == old(circuit).types() + Self::spec_types(),
            final(circuit).clock_tick_number == old(circuit).clock_tick_number,
            old(circuit).wiring_kept(*final(circuit)),
            match res {
                Ok(gate) => gate.built(*final(circuit), old(circuit).len() as int)
                    && settled_from(*final(circuit), old(circuit).len() as int)
                    && gate.fed(*final(circuit), old(circuit).len() as int),
                Err(e) => crate::run_circuit::failure_shown(*final(circuit), e),
            },
    {
        let ghost c0 = *circuit;
        let start = circuit.num_gates();
        let gate = Self::build(circuit);
        let ghost built_circuit = *circuit;
        proof {
            gate.lemma_sole_senders(c0, built_circuit, start as int);
        }
        let primed = circuit.prime_from(start);
        proof {
            crate::circuit::lemma_wire_kept(built_circuit, *circuit);
            if primed is Ok {
                let c = built_circuit;
                assert forall|h: int| start <= h < start + 18 implies #[trigger] circuit.node(h).members.unique_id == c.node(h).members.unique_id by {
                    assert(circuit.node(h).members.unique_id.id == h + 1);
                    assert(c.node(h).members.unique_id.id == h + 1);
                }
                assert(gate.fed(c, start as int));
                assert(gate.sole_senders(c, start as int));
            }
        }
        match primed {
            Ok(()) => Ok(gate),
            Err(e) => Err(e),
        }
    }

    /// The input or output index that `tag` names.
    pub fn get_index_from_tag(&self, tag: &str) -> (res: Option<usize>)
        ensures
            res == last_tag_index(self.complex_gate.gate_tags_to_index@, tag@),
    {
        self.complex_gate.get_index_from_tag(tag)
    }

    /// Brings the outputs up to date with what reaches them and returns their states.
    pub fn fetch_output_signals(&self, circuit: &mut Circuit) -> (res: Vec<GateOutputState>)
        requires
            old(circuit).wf(),
            complex_fits(&self.complex_gate, old(circuit).shape(), old(circuit).types()),
        ensures
            final(circuit).wf(),
            final(circuit).shape() == old(circuit).shape(),
            final(circuit).types() == old(circuit).types(),
            old(circuit).wiring_kept(*final(circuit)),
            res@.len() == self.complex_gate.output_gates@.len(),
            forall|i: int| 0 <= i < res@.len() ==> #[trigger] res@[i] == final(circuit).node(self.complex_gate.output_gates@[i] as int).outputs()[0],
    {
        proof {
            assert forall|i: int| 0 <= i < self.complex_gate.output_gates@.len() implies #[trigger] old(circuit).has_output(self.complex_gate.output_gates@[i] as int, 0) by {}
        }
        self.complex_gate.fetch_output_signals_calculate(circuit)
    }

    pub fn get_tag(&self) -> (res: String)
        ensures
            res@ == self.complex_gate.tag@,
    {
        self.complex_gate.tag.clone()
    }

    pub fn set_tag(&mut self, tag: &str)
        ensures
            final(self).complex_gate.tag@ == tag@,
            final(self).complex_gate.input_gates == old(self).complex_gate.input_gates,
            final(self).complex_gate.output_gates == old(self).complex_gate.output_gates,
            final(self).complex_gate.gate_tags_to_index == old(self).complex_gate.gate_tags_to_index,
    {
        self.complex_gate.tag = tag.to_owned();
    }

    pub fn toggle_output_printing(&mut self, print_output: bool)
        ensures
            final(self).complex_gate.should_print_output == print_output,
            final(self).complex_gate.input_gates == old(self).complex_gate.input_gates,
            final(self).complex_gate.output_gates == old(self).complex_gate.output_gates,
    {
        self.complex_gate.should_print_output = print_output;
    }

    /// The number of circuit gates that make up this gate.
    pub fn num_children_gates(&self) -> (res: usize)
        ensures
            res == self.complex_gate.number_child_gates,
    {
        self.complex_gate.number_child_gates
    }
}


/// `num_bits` NOT gates side by side: output `o_<k>` is the negation of input `i_<k>`.
pub struct VariableBitNot {
    pub complex_gate: ComplexGateMembers,
    pub not_gates: Vec<Not>,
}

impl VariableBitNot {
    /// Each bit adds input `i_<k>`, output `o_<k>` and a NOT, in that order.
    pub open spec fn spec_types(num_bits: nat) -> Seq<GateType> {
        repeat(seq![GateType::SimpleInputType, GateType::SimpleOutputType, GateType::NotType], num_bits)
    }

    /// The numbers of inputs and outputs of those gates.
    pub open spec fn spec_shape(num_bits: nat) -> Seq<(nat, nat)> {
        repeat(seq![(1nat, 1nat), (1nat, 1nat), (1nat, 1nat)], num_bits)
    }

    /// For every bit, input `i_<k>` feeds NOT `k`, which feeds `o_<k>`.
    pub open spec fn spec_wires(start: int, num_bits: nat) -> Seq<(usize, usize, usize, usize)>
        decreases num_bits,
    {
        if num_bits == 0 {
            Seq::empty()
        } else {
            let b = start + 3 * (num_bits - 1);
            Self::spec_wires(start, (num_bits - 1) as nat) + seq![
                (b as usize, 0usize, (b + 2) as usize, 0usize),
                ((b + 2) as usize, 0usize, (b + 1) as usize, 0usize),
            ]
        }
    }

    /// The pins and tags of a gate of `num_bits` bits that starts at `start`.
    pub open spec fn pins_ok(&self, start: int, num_bits: nat) -> bool {
        &&& self.complex_gate.gate_type == GateType::VariableBitNotType
        &&& self.complex_gate.input_gates@ == Seq::new(num_bits, |k: int| (start + 3 * k) as usize)
        &&& self.complex_gate.output_gates@ == Seq::new(num_bits, |k: int| (start + 3 * k + 1) as usize)
        &&& self.complex_gate.tag_names() == Seq::new(num_bits, |k: int| numbered("i_"@, k)) + Seq::new(
            num_bits,
            |k: int| numbered("o_"@, k),
        )
        &&& self.complex_gate.tags_laid_out()
        &&& self.not_gates@.len() == num_bits
        &&& forall|k: int| 0 <= k < num_bits ==> (#[trigger] self.not_gates@[k]).gate == start + 3 * k + 2
    }

    /// The gates to add for `num_bits` bits, with their tags.
    fn gate_specs(num_bits: usize) -> (res: Vec<GateSpec>)
        ensures
            spec_types_of(res@) == Self::spec_types(num_bits as nat),
            spec_shape_of(res@) == Self::spec_shape(num_bits as nat),
            forall|k: int| 0 <= k < res@.len() ==> spec_addable(#[trigger] res@[k]),
            forall|k: int| 0 <= k < num_bits ==> (#[trigger] res@[3 * k]).tag@ == numbered("i_"@, k) && res@[3 * k + 1].tag@ == numbered("o_"@, k),
    {
        let mut res: Vec<GateSpec> = Vec::new();
        let mut k: usize = 0;
        while k < num_bits
            invariant
                k <= num_bits,
                res@.len() == 3 * k,
                spec_types_of(res@) == Self::spec_types(k as nat),
                spec_shape_of(res@) == Self::spec_shape(k as nat),
                forall|m: int| 0 <= m < res@.len() ==> spec_addable(#[trigger] res@[m]),
                forall|m: int| 0 <= m < k ==> (#[trigger] res@[3 * m]).tag@ == numbered("i_"@, m) && res@[3 * m + 1].tag@ == numbered("o_"@, m),
            decreases num_bits - k,
        {
            let ghost before = res@;
            res.push(GateSpec::new(GateType::SimpleInputType, 1, 1, numbered_tag("i_", k)));
            res.push(GateSpec::new(GateType::SimpleOutputType, 1, 1, numbered_tag("o_", k)));
            res.push(GateSpec::new(GateType::NotType, 1, 1, String::new()));
            proof {
                assert(spec_types_of(res@) =~= spec_types_of(before) + seq![GateType::SimpleInputType, GateType::SimpleOutputType, GateType::NotType]);
                assert(spec_shape_of(res@) =~= spec_shape_of(before) + seq![(1nat, 1nat), (1nat, 1nat), (1nat, 1nat)]);
                assert forall|m: int| 0 <= m < k + 1 implies (#[trigger] res@[3 * m]).tag@ == numbered("i_"@, m) && res@[3 * m + 1].tag@ == numbered("o_"@, m) by {
                    if m < k {
                        assert(res@[3 * m] == before[3 * m]);
                        assert(res@[3 * m + 1] == before[3 * m + 1]);
                    }
                }
            }
            k = k + 1;
        }
        res
    }

    /// The wires to connect for `num_bits` bits starting at gate `start`.
    fn gate_wires(start: usize, num_bits: usize) -> (res: Vec<(usize, usize, usize, usize)>)
        requires
            start + 3 * num_bits < usize::MAX,
        ensures
            res@ == Self::spec_wires(start as int, num_bits as nat),
            forall|k: int| 0 <= k < res@.len() ==> wire_fits(#[trigger] res@[k], start as int, Self::spec_shape(num_bits as nat)),
    {
        let mut res: Vec<(usize, usize, usize, usize)> = Vec::new();
        let mut k: usize = 0;
        let ghost block = seq![(1nat, 1nat), (1nat, 1nat), (1nat, 1nat)];
        proof {
            lemma_repeat_len(block, num_bits as nat);
        }
        while k < num_bits
            invariant
                k <= num_bits,
                start + 3 * num_bits < usize::MAX,
                block == seq![(1nat, 1nat), (1nat, 1nat), (1nat, 1nat)],
                Self::spec_shape(num_bits as nat).len() == num_bits * 3,
                res@ == Self::spec_wires(start as int, k as nat),
                forall|m: int| 0 <= m < res@.len() ==> wire_fits(#[trigger] res@[m], start as int, Self::spec_shape(num_bits as nat)),
            decreases num_bits - k,
        {
            let b = start + 3 * k;
            let ghost before = res@;
            res.push((b, 0, b + 2, 0));
            res.push((b + 2, 0, b + 1, 0));
            proof {
                assert(res@ =~= Self::spec_wires(start as int, k as nat + 1));
                lemma_repeat_index(block, num_bits as nat, k as int, 0);
                lemma_repeat_index(block, num_bits as nat, k as int, 1);
                lemma_repeat_index(block, num_bits as nat, k as int, 2);
                assert(k * 3 == 3 * k);
                assert forall|m: int| 0 <= m < res@.len() implies wire_fits(#[trigger] res@[m], start as int, Self::spec_shape(num_bits as nat)) by {
                    if m < before.len() {
                        assert(res@[m] == before[m]);
                    }
                }
            }
            k = k + 1;
        }
        res
    }

    /// Adds `num_bits` NOT gates with their inputs and outputs to the circuit, wires them and
    /// primes them. Fails only when priming does not come to rest or two senders drive one input.
    pub fn new(circuit: &mut Circuit, num_bits: usize) -> (res: Result<Self, GateLogicError>)
        requires
            old(circuit).wf(),
            num_bits >= 1,
            old(circuit).len() + 3 * num_bits + 1 < usize::MAX,
        ensures
            final(circuit).wf(),
            final(circuit).clock_tick_number == old(circuit).clock_tick_number,
            final(circuit).types() == old(circuit).types() + Self::spec_types(num_bits as nat),
            final(circuit).shape() == old(circuit).shape() + Self::spec_shape(num_bits as nat),
            old(circuit).wiring_kept(*final(circuit)),
            forall|g: int, j: int, d: Option<(int, int)>| old(circuit).wire(g, j, d) ==> #[trigger] final(circuit).wire(g, j, d),
            forall|g: int, j: int|
                old(circuit).len() <= g && final(circuit).has_output(g, j) ==> #[trigger] final(circuit).link(g, j)
                    == wire_dest(Self::spec_wires(old(circuit).len() as int, num_bits as nat), g, j, None),
            match res {
                Ok(gate) => {
                    &&& gate.pins_ok(old(circuit).len() as int, num_bits as nat)
                    &&& complex_fits(&gate.complex_gate, final(circuit).shape(), final(circuit).types())
                    &&& settled_from(*final(circuit), old(circuit).len() as int)
                },
                Err(e) => crate::run_circuit::failure_shown(*final(circuit), e),
            },
    {
        let ghost c0 = *circuit;
        let start = circuit.num_gates();
        let specs = Self::gate_specs(num_bits);
        let wires = Self::gate_wires(start, num_bits);
        let ghost shape = Self::spec_shape(num_bits as nat);
        proof {
            let block = seq![(1nat, 1nat), (1nat, 1nat), (1nat, 1nat)];
            lemma_repeat_len(block, num_bits as nat);
            assert(block.len() == 3);
            assert(num_bits * block.len() == 3 * num_bits) by (nonlinear_arith)
                requires
                    block.len() == 3,
            ;
            assert(spec_shape_of(specs@).len() == specs@.len());
            assert(specs@.len() == 3 * num_bits);
        }
        circuit.add_gates(&specs);
        let ghost c1 = *circuit;
        proof {
            assert forall|k: int| 0 <= k < wires@.len() implies c1.has_output((#[trigger] wires@[k]).0 as int, wires@[k].1 as int)
                && c1.has_input(wires@[k].2 as int, wires@[k].3 as int) by {
                assert(wire_fits(wires@[k], start as int, shape));
            }
        }
        circuit.connect_all(&wires);
        let ghost c2 = *circuit;
        proof {
            lemma_wires_keep_old(c0, c1, c2, wires@, start as int, shape);
            assert(c2.shape().len() == c2.len());
            assert(c0.shape().len() == c0.len());
        }
        let mut input_gates: Vec<usize> = Vec::new();
        let mut output_gates: Vec<usize> = Vec::new();
        let mut input_tags: Vec<String> = Vec::new();
        let mut output_tags: Vec<String> = Vec::new();
        let mut not_gates: Vec<Not> = Vec::new();
        let mut k: usize = 0;
        while k < num_bits
            invariant
                k <= num_bits,
                start == c0.len(),
                start + 3 * num_bits + 1 < usize::MAX,
                c2.len() == start + 3 * num_bits,
                *circuit == c2,
                input_gates@ == Seq::new(k as nat, |m: int| (start + 3 * m) as usize),
                output_gates@ == Seq::new(k as nat, |m: int| (start + 3 * m + 1) as usize),
                input_tags@.len() == k,
                output_tags@.len() == k,
                forall|m: int| 0 <= m < k ==> (#[trigger] input_tags@[m])@ == numbered("i_"@, m),
                forall|m: int| 0 <= m < k ==> (#[trigger] output_tags@[m])@ == numbered("o_"@, m),
                not_gates@.len() == k,
                forall|m: int| 0 <= m < k ==> (#[trigger] not_gates@[m]).gate == start + 3 * m + 2,
            decreases num_bits - k,
        {
            input_gates.push(start + 3 * k);
            output_gates.push(start + 3 * k + 1);
            input_tags.push(numbered_tag("i_", k));
            output_tags.push(numbered_tag("o_", k));
            let g = start + 3 * k + 2;
            not_gates.push(Not { gate: g, input_num: 1, output_num: 1, unique_id: circuit.gates[g].members.unique_id });
            proof {
                assert(input_gates@ =~= Seq::new(k as nat + 1, |m: int| (start + 3 * m) as usize));
                assert(output_gates@ =~= Seq::new(k as nat + 1, |m: int| (start + 3 * m + 1) as usize));
            }
            k = k + 1;
        }
        let complex_gate = ComplexGateMembers::from_tags(
            circuit,
            GateType::VariableBitNotType,
            input_gates,
            output_gates,
            input_tags,
            output_tags,
        );
        let mut complex_gate = complex_gate;
        complex_gate.number_child_gates = 3 * num_bits;
        let gate = VariableBitNot { complex_gate, not_gates };
        proof {
            assert(gate.complex_gate.tag_names() =~= Seq::new(num_bits as nat, |k: int| numbered("i_"@, k)) + Seq::new(
                num_bits as nat,
                |k: int| numbered("o_"@, k),
            ));
            let block_t = seq![GateType::SimpleInputType, GateType::SimpleOutputType, GateType::NotType];
            assert forall|i: int| 0 <= i < gate.complex_gate.input_gates@.len() implies {
                let g = #[trigger] gate.complex_gate.input_gates@[i] as int;
                0 <= g < c2.shape().len() && c2.shape()[g].0 >= 1 && c2.types()[g] == GateType::SimpleInputType
            } by {
                lemma_repeat_index(seq![(1nat, 1nat), (1nat, 1nat), (1nat, 1nat)], num_bits as nat, i, 0);
                lemma_repeat_index(block_t, num_bits as nat, i, 0);
                assert(i * 3 == 3 * i);
            }
            assert forall|i: int| 0 <= i < gate.complex_gate.output_gates@.len() implies {
                let g = #[trigger] gate.complex_gate.output_gates@[i] as int;
                0 <= g < c2.shape().len() && c2.shape()[g].1 >= 1 && c2.types()[g] == GateType::SimpleOutputType
            } by {
                lemma_repeat_index(seq![(1nat, 1nat), (1nat, 1nat), (1nat, 1nat)], num_bits as nat, i, 1);
                lemma_repeat_index(block_t, num_bits as nat, i, 1);
                assert(i * 3 == 3 * i);
            }
            assert(c2.types().len() == c2.shape().len());
        }
        let primed = circuit.prime_from(start);
        proof {
            crate::circuit::lemma_wiring_kept_refl(c2);
            assert(c2.shape().subrange(0, c0.shape().len() as int) =~= c0.shape());
            crate::circuit::lemma_wiring_kept_trans(c0, c2, *circuit);
            crate::circuit::lemma_wire_kept(c2, *circuit);
            assert forall|g: int, j: int| start <= g && circuit.has_output(g, j) implies #[trigger] circuit.link(g, j)
                == wire_dest(Self::spec_wires(start as int, num_bits as nat), g, j, None) by {
                assert(c2.has_output(g, j));
                assert(c1.has_output(g, j));
                assert(c1.link(g, j) is None);
            }
        }
        match primed {
            Ok(()) => Ok(gate),
            Err(e) => Err(e),
        }
    }
}


impl LogicGate for VariableBitNot {
    open spec fn spec_input_pin(&self, index: int) -> (int, int) {
        (self.complex_gate.input_gates@[index] as int, 0)
    }

    open spec fn spec_output_pin(&self, index: int) -> (int, int) {
        (self.complex_gate.output_gates@[index] as int, 0)
    }

    open spec fn spec_num_inputs(&self) -> nat {
        self.complex_gate.input_gates@.len()
    }

    open spec fn spec_num_outputs(&self) -> nat {
        self.complex_gate.output_gates@.len()
    }

    open spec fn spec_gate_type(&self) -> GateType {
        self.complex_gate.gate_type
    }

    open spec fn spec_unique_id(&self) -> UniqueID {
        self.complex_gate.unique_id
    }

    fn input_pin(&self, index: usize) -> (res: (usize, usize)) {
        (self.complex_gate.input_gates[index], 0)
    }

    fn output_pin(&self, index: usize) -> (res: (usize, usize)) {
        (self.complex_gate.output_gates[index], 0)
    }

    fn num_inputs(&self) -> (res: usize) {
        self.complex_gate.input_gates.len()
    }

    fn num_outputs(&self) -> (res: usize) {
        self.complex_gate.output_gates.len()
    }

    fn get_gate_type(&self) -> (res: GateType) {
        self.complex_gate.gate_type
    }

    fn get_unique_id(&self) -> (res: UniqueID) {
        self.complex_gate.unique_id
    }
}

impl VariableBitNot {
    /// The input or output index that `tag` names.
    pub fn get_index_from_tag(&self, tag: &str) -> (res: Option<usize>)
        ensures
            res == last_tag_index(self.complex_gate.gate_tags_to_index@, tag@),
    {
        self.complex_gate.get_index_from_tag(tag)
    }

    /// Brings the outputs up to date with what reaches them and returns their states.
    pub fn fetch_output_signals(&self, circuit: &mut Circuit) -> (res: Vec<GateOutputState>)
        requires
            old(circuit).wf(),
            complex_fits(&self.complex_gate, old(circuit).shape(), old(circuit).types()),
        ensures
            final(circuit).wf(),
            final(circuit).shape() == old(circuit).shape(),
            final(circuit).types() == old(circuit).types(),
            old(circuit).wiring_kept(*final(circuit)),
            res@.len() == self.complex_gate.output_gates@.len(),
            forall|i: int| 0 <= i < res@.len() ==> #[trigger] res@[i] == final(circuit).node(self.complex_gate.output_gates@[i] as int).outputs()[0],
    {
        proof {
            assert forall|i: int| 0 <= i < self.complex_gate.output_gates@.len() implies #[trigger] old(circuit).has_output(self.complex_gate.output_gates@[i] as int, 0) by {}
        }
        self.complex_gate.fetch_output_signals_calculate(circuit)
    }

    pub fn get_tag(&self) -> (res: String)
        ensures
            res@ == self.complex_gate.tag@,
    {
        self.complex_gate.tag.clone()
    }

    pub fn set_tag(&mut self, tag: &str)
        ensures
            final(self).complex_gate.tag@ == tag@,
            final(self).complex_gate.input_gates == old(self).complex_gate.input_gates,
            final(self).complex_gate.output_gates == old(self).complex_gate.output_gates,
            final(self).complex_gate.gate_tags_to_index == old(self).complex_gate.gate_tags_to_index,
    {
        self.complex_gate.tag = tag.to_owned();
    }

    pub fn toggle_output_printing(&mut self, print_output: bool)
        ensures
            final(self).complex_gate.should_print_output == print_output,
            final(self).complex_gate.input_gates == old(self).complex_gate.input_gates,
            final(self).complex_gate.output_gates == old(self).complex_gate.output_gates,
    {
        self.complex_gate.should_print_output = print_output;
    }

    /// The number of circuit gates that make up this gate.
    pub fn num_children_gates(&self) -> (res: usize)
        ensures
            res == self.complex_gate.number_child_gates,
    {
        self.complex_gate.number_child_gates
    }
}

/// `num_bits` AND gates side by side: output `o_<k>` is `a_<k>` AND `b_<k>`.
pub struct VariableBitAnd {
    pub complex_gate: ComplexGateMembers,
    pub and_gates: Vec<And>,
}

impl VariableBitAnd {
    /// The types of the gates a gate of `num_bits` bits adds, in order.
    pub open spec fn spec_types(num_bits: nat) -> Seq<GateType> {
        repeat(seq![GateType::SimpleInputType, GateType::SimpleOutputType, GateType::AndType], num_bits) + repeat(seq![GateType::SimpleInputType], num_bits)
    }

    /// The numbers of inputs and outputs of those gates.
    pub open spec fn spec_shape(num_bits: nat) -> Seq<(nat, nat)> {
        repeat(seq![((1) as nat, (1) as nat), ((1) as nat, (1) as nat), ((2) as nat, (1) as nat)], num_bits) + repeat(seq![((1) as nat, (1) as nat)], num_bits)
    }

    /// The wires of the first `k` bits.
    pub open spec fn spec_bit_wires(start: int, num_bits: nat, k: nat) -> Seq<(usize, usize, usize, usize)>
        decreases k,
    {
        if k == 0 {
            Seq::empty()
        } else {
            Self::spec_bit_wires(start, num_bits, (k - 1) as nat) + seq![
                ((start + 3 * (k - 1) + 0) as usize, (0) as usize, (start + 3 * (k - 1) + 2) as usize, (0) as usize),
                ((start + 3 * num_bits + 1 * (k - 1) + 0) as usize, (0) as usize, (start + 3 * (k - 1) + 2) as usize, (1) as usize),
                ((start + 3 * (k - 1) + 2) as usize, (0) as usize, (start + 3 * (k - 1) + 1) as usize, (0) as usize),
            ]
        }
    }

    /// For every bit, inputs `a_<k>` and `b_<k>` feed AND `k`, which feeds `o_<k>`.
    pub open spec fn spec_wires(start: int, num_bits: nat) -> Seq<(usize, usize, usize, usize)> {
        Self::spec_bit_wires(start, num_bits, num_bits)
    }

    /// The pins, tags and parts of a gate of `num_bits` bits that starts at `start`.
    pub open spec fn pins_ok(&self, start: int, num_bits: nat) -> bool {
        &&& self.complex_gate.gate_type == GateType::VariableBitAndType
        &&& self.complex_gate.input_gates@ == Seq::new(num_bits, |k: int| (start + 3 * k + 0) as usize) + Seq::new(num_bits, |k: int| (start + 3 * num_bits + 1 * k + 0) as usize)
        &&& self.complex_gate.output_gates@ == Seq::new(num_bits, |k: int| (start + 3 * k + 1) as usize)
        &&& self.complex_gate.tag_names() == Seq::new(num_bits, |k: int| numbered("a_"@, k)) + Seq::new(num_bits, |k: int| numbered("b_"@, k)) + Seq::new(num_bits, |k: int| numbered("o_"@, k))
        &&& self.complex_gate.tags_laid_out()
        &&& self.and_gates@.len() == num_bits
        &&& forall|k: int| 0 <= k < num_bits ==> (#[trigger] self.and_gates@[k]).gate == start + 3 * k + 2
    }

    /// The gates to add for `num_bits` bits.
    fn gate_specs(num_bits: usize) -> (res: Vec<GateSpec>)
        requires
            num_bits >= 1,
            3 * num_bits + 1 * num_bits + 0 < usize::MAX,
        ensures
            spec_types_of(res@) == Self::spec_types(num_bits as nat),
            spec_shape_of(res@) == Self::spec_shape(num_bits as nat),
            forall|k: int| 0 <= k < res@.len() ==> spec_addable(#[trigger] res@[k]),
    {
        let mut res: Vec<GateSpec> = Vec::new();
        let mut k: usize = 0;
        while k < num_bits
            invariant
                k <= num_bits,
                spec_types_of(res@) == repeat(seq![GateType::SimpleInputType, GateType::SimpleOutputType, GateType::AndType], k as nat),
                spec_shape_of(res@) == repeat(seq![((1) as nat, (1) as nat), ((1) as nat, (1) as nat), ((2) as nat, (1) as nat)], k as nat),
                forall|m: int| 0 <= m < res@.len() ==> spec_addable(#[trigger] res@[m]),
            decreases num_bits - k,
        {
            let ghost before = res@;
            res.push(GateSpec::new(GateType::SimpleInputType, 1, 1, numbered_tag("a_", k)));
            res.push(GateSpec::new(GateType::SimpleOutputType, 1, 1, numbered_tag("o_", k)));
            res.push(GateSpec::new(GateType::AndType, 2, 1, String::new()));
            proof {
                assert(spec_types_of(res@) =~= spec_types_of(before) + seq![GateType::SimpleInputType, GateType::SimpleOutputType, GateType::AndType]);
                assert(spec_shape_of(res@) =~= spec_shape_of(before) + seq![((1) as nat, (1) as nat), ((1) as nat, (1) as nat), ((2) as nat, (1) as nat)]);
            }
            k = k + 1;
        }
        let ghost first = res@;

        let mut k: usize = 0;
        while k < num_bits
            invariant
                k <= num_bits,
                spec_types_of(res@) == spec_types_of(first) + repeat(seq![GateType::SimpleInputType], k as nat),
                spec_shape_of(res@) == spec_shape_of(first) + repeat(seq![((1) as nat, (1) as nat)], k as nat),
                forall|m: int| 0 <= m < res@.len() ==> spec_addable(#[trigger] res@[m]),
            decreases num_bits - k,
        {
            let ghost before = res@;
            res.push(GateSpec::new(GateType::SimpleInputType, 1, 1, numbered_tag("b_", k)));
            proof {
                assert(spec_types_of(res@) =~= spec_types_of(before) + seq![GateType::SimpleInputType]);
                assert(spec_shape_of(res@) =~= spec_shape_of(before) + seq![((1) as nat, (1) as nat)]);
            }
            k = k + 1;
        }

        let ghost second = res@;

        proof {
            assert(spec_types_of(res@) =~= spec_types_of(second));
            assert(spec_shape_of(res@) =~= spec_shape_of(second));
        }
        res
    }

    /// The wires to connect for `num_bits` bits starting at gate `start`.
    fn gate_wires(start: usize, num_bits: usize) -> (res: Vec<(usize, usize, usize, usize)>)
        requires
            start + 3 * num_bits + 1 * num_bits + 0 < usize::MAX,
            num_bits >= 1,
        ensures
            res@ == Self::spec_wires(start as int, num_bits as nat),
            forall|k: int| 0 <= k < res@.len() ==> wire_fits(#[trigger] res@[k], start as int, Self::spec_shape(num_bits as nat)),
    {
        let mut res: Vec<(usize, usize, usize, usize)> = Vec::new();
        proof {
            lemma_repeat_len(seq![((1) as nat, (1) as nat), ((1) as nat, (1) as nat), ((2) as nat, (1) as nat)], num_bits as nat);
            assert(num_bits * seq![((1) as nat, (1) as nat), ((1) as nat, (1) as nat), ((2) as nat, (1) as nat)].len() == 3 * num_bits) by (nonlinear_arith) requires seq![((1) as nat, (1) as nat), ((1) as nat, (1) as nat), ((2) as nat, (1) as nat)].len() == 3;
            lemma_repeat_len(seq![GateType::SimpleInputType, GateType::SimpleOutputType, GateType::AndType], num_bits as nat);
            assert(num_bits * seq![GateType::SimpleInputType, GateType::SimpleOutputType, GateType::AndType].len() == 3 * num_bits) by (nonlinear_arith) requires seq![GateType::SimpleInputType, GateType::SimpleOutputType, GateType::AndType].len() == 3;
            lemma_repeat_len(seq![((1) as nat, (1) as nat)], num_bits as nat);
            assert(num_bits * seq![((1) as nat, (1) as nat)].len() == 1 * num_bits) by (nonlinear_arith) requires seq![((1) as nat, (1) as nat)].len() == 1;
            lemma_repeat_len(seq![GateType::SimpleInputType], num_bits as nat);
            assert(num_bits * seq![GateType::SimpleInputType].len() == 1 * num_bits) by (nonlinear_arith) requires seq![GateType::SimpleInputType].len() == 1;
        }
        let mut k: usize = 0;
        while k < num_bits
            invariant
                k <= num_bits,
                num_bits >= 1,
                start + 3 * num_bits + 1 * num_bits + 0 < usize::MAX,
                Self::spec_shape(num_bits as nat).len() == 3 * num_bits + 1 * num_bits + 0,
                res@ == Self::spec_bit_wires(start as int, num_bits as nat, k as nat),
                forall|m: int| 0 <= m < res@.len() ==> wire_fits(#[trigger] res@[m], start as int, Self::spec_shape(num_bits as nat)),
            decreases num_bits - k,
        {
            let ghost before = res@;
            res.push((start + 3 * k + 0, 0, start + 3 * k + 2, 0));
            res.push((start + 3 * num_bits + 1 * k + 0, 0, start + 3 * k + 2, 1));
            res.push((start + 3 * k + 2, 0, start + 3 * k + 1, 0));
            proof {
                assert(res@ =~= Self::spec_bit_wires(start as int, num_bits as nat, k as nat + 1));
                lemma_repeat_len(seq![((1) as nat, (1) as nat), ((1) as nat, (1) as nat), ((2) as nat, (1) as nat)], num_bits as nat);
                assert(num_bits * seq![((1) as nat, (1) as nat), ((1) as nat, (1) as nat), ((2) as nat, (1) as nat)].len() == 3 * num_bits) by (nonlinear_arith) requires seq![((1) as nat, (1) as nat), ((1) as nat, (1) as nat), ((2) as nat, (1) as nat)].len() == 3;
                lemma_repeat_len(seq![GateType::SimpleInputType, GateType::SimpleOutputType, GateType::AndType], num_bits as nat);
                assert(num_bits * seq![GateType::SimpleInputType, GateType::SimpleOutputType, GateType::AndType].len() == 3 * num_bits) by (nonlinear_arith) requires seq![GateType::SimpleInputType, GateType::SimpleOutputType, GateType::AndType].len() == 3;
                lemma_repeat_len(seq![((1) as nat, (1) as nat)], num_bits as nat);
                assert(num_bits * seq![((1) as nat, (1) as nat)].len() == 1 * num_bits) by (nonlinear_arith) requires seq![((1) as nat, (1) as nat)].len() == 1;
                lemma_repeat_len(seq![GateType::SimpleInputType], num_bits as nat);
                assert(num_bits * seq![GateType::SimpleInputType].len() == 1 * num_bits) by (nonlinear_arith) requires seq![GateType::SimpleInputType].len() == 1;
                lemma_repeat_index(seq![((1) as nat, (1) as nat), ((1) as nat, (1) as nat), ((2) as nat, (1) as nat)], num_bits as nat, k as int, 0);
                lemma_repeat_index(seq![GateType::SimpleInputType, GateType::SimpleOutputType, GateType::AndType], num_bits as nat, k as int, 0);
                lemma_repeat_index(seq![((1) as nat, (1) as nat), ((1) as nat, (1) as nat), ((2) as nat, (1) as nat)], num_bits as nat, k as int, 1);
                lemma_repeat_index(seq![GateType::SimpleInputType, GateType::SimpleOutputType, GateType::AndType], num_bits as nat, k as int, 1);
                lemma_repeat_index(seq![((1) as nat, (1) as nat), ((1) as nat, (1) as nat), ((2) as nat, (1) as nat)], num_bits as nat, k as int, 2);
                lemma_repeat_index(seq![GateType::SimpleInputType, GateType::SimpleOutputType, GateType::AndType], num_bits as nat, k as int, 2);
                lemma_repeat_index(seq![((1) as nat, (1) as nat)], num_bits as nat, k as int, 0);
                lemma_repeat_index(seq![GateType::SimpleInputType], num_bits as nat, k as int, 0);
                assert(k as int * 3 == 3 * k as int);
                assert(k as int * 1 == 1 * k as int);
                assert forall|m: int| 0 <= m < res@.len() implies wire_fits(#[trigger] res@[m], start as int, Self::spec_shape(num_bits as nat)) by {
                    if m < before.len() {
                        assert(res@[m] == before[m]);
                    }
                }
            }
            k = k + 1;
        }
        let ghost before = res@;

        proof {
            assert(res@ =~= Self::spec_wires(start as int, num_bits as nat));
            assert forall|m: int| 0 <= m < res@.len() implies wire_fits(#[trigger] res@[m], start as int, Self::spec_shape(num_bits as nat)) by {
                if m < before.len() {
                    assert(res@[m] == before[m]);
                }
            }
        }
        res
    }

    /// Adds a gate of `num_bits` bits to the circuit, wires it and primes it. Fails only when
    /// priming does not come to rest or two senders drive one input.
    #[verifier::spinoff_prover]
    #[verifier::rlimit(60)]
    pub fn new(circuit: &mut Circuit, num_bits: usize) -> (res: Result<Self, GateLogicError>)
        requires
            old(circuit).wf(),
            num_bits >= 1,
            old(circuit).len() + 3 * num_bits + 1 * num_bits + 0 + 1 < usize::MAX,
        ensures
            final(circuit).wf(),
            final(circuit).clock_tick_number == old(circuit).clock_tick_number,
            final(circuit).types() == old(circuit).types() + Self::spec_types(num_bits as nat),
            final(circuit).shape() == old(circuit).shape() + Self::spec_shape(num_bits as nat),
            old(circuit).wiring_kept(*final(circuit)),
            forall|g: int, j: int, d: Option<(int, int)>| old(circuit).wire(g, j, d) ==> #[trigger] final(circuit).wire(g, j, d),
            forall|g: int, j: int|
                old(circuit).len() <= g && final(circuit).has_output(g, j) ==> #[trigger] final(circuit).link(g, j)
                    == wire_dest(Self::spec_wires(old(circuit).len() as int, num_bits as nat), g, j, None),
            match res {
                Ok(gate) => {
                    &&& gate.pins_ok(old(circuit).len() as int, num_bits as nat)
                    &&& complex_fits(&gate.complex_gate, final(circuit).shape(), final(circuit).types())
                    &&& settled_from(*final(circuit), old(circuit).len() as int)
                },
                Err(e) => crate::run_circuit::failure_shown(*final(circuit), e),
            },
    {
        let ghost c0 = *circuit;
        let start = circuit.num_gates();
        let specs = Self::gate_specs(num_bits);
        let wires = Self::gate_wires(start, num_bits);
        let ghost shape = Self::spec_shape(num_bits as nat);
        proof {
            lemma_repeat_len(seq![((1) as nat, (1) as nat), ((1) as nat, (1) as nat), ((2) as nat, (1) as nat)], num_bits as nat);
            assert(num_bits * seq![((1) as nat, (1) as nat), ((1) as nat, (1) as nat), ((2) as nat, (1) as nat)].len() == 3 * num_bits) by (nonlinear_arith) requires seq![((1) as nat, (1) as nat), ((1) as nat, (1) as nat), ((2) as nat, (1) as nat)].len() == 3;
            lemma_repeat_len(seq![GateType::SimpleInputType, GateType::SimpleOutputType, GateType::AndType], num_bits as nat);
            assert(num_bits * seq![GateType::SimpleInputType, GateType::SimpleOutputType, GateType::AndType].len() == 3 * num_bits) by (nonlinear_arith) requires seq![GateType::SimpleInputType, GateType::SimpleOutputType, GateType::AndType].len() == 3;
            lemma_repeat_len(seq![((1) as nat, (1) as nat)], num_bits as nat);
            assert(num_bits * seq![((1) as nat, (1) as nat)].len() == 1 * num_bits) by (nonlinear_arith) requires seq![((1) as nat, (1) as nat)].len() == 1;
            lemma_repeat_len(seq![GateType::SimpleInputType], num_bits as nat);
            assert(num_bits * seq![GateType::SimpleInputType].len() == 1 * num_bits) by (nonlinear_arith) requires seq![GateType::SimpleInputType].len() == 1;
            assert(spec_shape_of(specs@).len() == specs@.len());
            assert(specs@.len() == 3 * num_bits + 1 * num_bits + 0);
        }
        circuit.add_gates(&specs);
        let ghost c1 = *circuit;
        proof {
            assert forall|k: int| 0 <= k < wires@.len() implies c1.has_output((#[trigger] wires@[k]).0 as int, wires@[k].1 as int)
                && c1.has_input(wires@[k].2 as int, wires@[k].3 as int) by {
                assert(wire_fits(wires@[k], start as int, shape));
            }
        }
        circuit.connect_all(&wires);
        let ghost c2 = *circuit;
        proof {
            lemma_wires_keep_old(c0, c1, c2, wires@, start as int, shape);
            assert(c2.shape().len() == c2.len());
            assert(c0.shape().len() == c0.len());
            assert(c2.len() == start + 3 * num_bits + 1 * num_bits + 0);
        }
        let mut input_gates: Vec<usize> = Vec::new();
        let mut input_tags: Vec<String> = Vec::new();
        let ghost prev_input_gates_B0 = input_gates@;
        let ghost prev_input_tags_B0 = input_tags@;
        let mut q: usize = 0;
        while q < num_bits
            invariant
                q <= num_bits,
                start + 3 * num_bits + 1 * num_bits + 0 < usize::MAX,
                input_gates@ == prev_input_gates_B0 + Seq::new(q as nat, |m: int| (start + 3 * m + 0) as usize),
                input_tags@.len() == prev_input_tags_B0.len() + q,
                forall|m: int| 0 <= m < prev_input_tags_B0.len() ==> (#[trigger] input_tags@[m]) == prev_input_tags_B0[m],
                forall|m: int| prev_input_tags_B0.len() <= m < prev_input_tags_B0.len() + q ==> (#[trigger] input_tags@[m])@ == numbered("a_"@, m - prev_input_tags_B0.len()),
            decreases num_bits - q,
        {
            input_gates.push(start + 3 * q + 0);
            input_tags.push(numbered_tag("a_", q));
            proof {
                assert(input_gates@ =~= prev_input_gates_B0 + Seq::new(q as nat + 1, |m: int| (start + 3 * m + 0) as usize));
            }
            q = q + 1;
        }
        let ghost prev_input_gates_S0 = input_gates@;
        let ghost prev_input_tags_S0 = input_tags@;
        let mut q: usize = 0;
        while q < num_bits
            invariant
                q <= num_bits,
                start + 3 * num_bits + 1 * num_bits + 0 < usize::MAX,
                input_gates@ == prev_input_gates_S0 + Seq::new(q as nat, |m: int| (start + 3 * num_bits + 1 * m + 0) as usize),
                input_tags@.len() == prev_input_tags_S0.len() + q,
                forall|m: int| 0 <= m < prev_input_tags_S0.len() ==> (#[trigger] input_tags@[m]) == prev_input_tags_S0[m],
                forall|m: int| prev_input_tags_S0.len() <= m < prev_input_tags_S0.len() + q ==> (#[trigger] input_tags@[m])@ == numbered("b_"@, m - prev_input_tags_S0.len()),
            decreases num_bits - q,
        {
            input_gates.push(start + 3 * num_bits + 1 * q + 0);
            input_tags.push(numbered_tag("b_", q));
            proof {
                assert(input_gates@ =~= prev_input_gates_S0 + Seq::new(q as nat + 1, |m: int| (start + 3 * num_bits + 1 * m + 0) as usize));
            }
            q = q + 1;
        }
        let mut output_gates: Vec<usize> = Vec::new();
        let mut output_tags: Vec<String> = Vec::new();
        let ghost prev_output_gates_B1 = output_gates@;
        let ghost prev_output_tags_B1 = output_tags@;
        let mut q: usize = 0;
        while q < num_bits
            invariant
                q <= num_bits,
                start + 3 * num_bits + 1 * num_bits + 0 < usize::MAX,
                output_gates@ == prev_output_gates_B1 + Seq::new(q as nat, |m: int| (start + 3 * m + 1) as usize),
                output_tags@.len() == prev_output_tags_B1.len() + q,
                forall|m: int| 0 <= m < prev_output_tags_B1.len() ==> (#[trigger] output_tags@[m]) == prev_output_tags_B1[m],
                forall|m: int| prev_output_tags_B1.len() <= m < prev_output_tags_B1.len() + q ==> (#[trigger] output_tags@[m])@ == numbered("o_"@, m - prev_output_tags_B1.len()),
            decreases num_bits - q,
        {
            output_gates.push(start + 3 * q + 1);
            output_tags.push(numbered_tag("o_", q));
            proof {
                assert(output_gates@ =~= prev_output_gates_B1 + Seq::new(q as nat + 1, |m: int| (start + 3 * m + 1) as usize));
            }
            q = q + 1;
        }
        let mut and_gates: Vec<And> = Vec::new();
        let mut q: usize = 0;
        while q < num_bits
            invariant
                q <= num_bits,
                start + 3 * num_bits + 1 * num_bits + 0 < usize::MAX,
                *circuit == c2,
                c2.len() == start + 3 * num_bits + 1 * num_bits + 0,
                and_gates@.len() == q,
                forall|m: int| 0 <= m < q ==> (#[trigger] and_gates@[m]).gate == start + 3 * m + 2,
            decreases num_bits - q,
        {
            let g = start + 3 * q + 2;
            and_gates.push(And { gate: g, input_num: 2, output_num: 1, unique_id: circuit.gates[g].members.unique_id });
            q = q + 1;
        }
        proof {
            assert(input_gates@ =~= Seq::new((num_bits as nat), |k: int| ((start as int) + 3 * k + 0) as usize) + Seq::new((num_bits as nat), |k: int| ((start as int) + 3 * (num_bits as nat) + 1 * k + 0) as usize));
            assert(output_gates@ =~= Seq::new((num_bits as nat), |k: int| ((start as int) + 3 * k + 1) as usize));
        }
        let complex_gate = ComplexGateMembers::from_tags(
            circuit,
            GateType::VariableBitAndType,
            input_gates,
            output_gates,
            input_tags,
            output_tags,
        );
        let mut complex_gate = complex_gate;
        complex_gate.number_child_gates = 3 * num_bits + 1 * num_bits + 0;
        let gate = VariableBitAnd { complex_gate, and_gates };
        proof {
            assert(gate.complex_gate.tag_names() =~= Seq::new(num_bits as nat, |k: int| numbered("a_"@, k)) + Seq::new(num_bits as nat, |k: int| numbered("b_"@, k)) + Seq::new(num_bits as nat, |k: int| numbered("o_"@, k))) by {
                assert(gate.complex_gate.tag_names() =~= Seq::new(input_tags@.len(), |k: int| input_tags@[k]@) + Seq::new(
                    output_tags@.len(),
                    |k: int| output_tags@[k]@,
                ));
            }
            lemma_repeat_len(seq![((1) as nat, (1) as nat), ((1) as nat, (1) as nat), ((2) as nat, (1) as nat)], num_bits as nat);
            assert(num_bits * seq![((1) as nat, (1) as nat), ((1) as nat, (1) as nat), ((2) as nat, (1) as nat)].len() == 3 * num_bits) by (nonlinear_arith) requires seq![((1) as nat, (1) as nat), ((1) as nat, (1) as nat), ((2) as nat, (1) as nat)].len() == 3;
            lemma_repeat_len(seq![GateType::SimpleInputType, GateType::SimpleOutputType, GateType::AndType], num_bits as nat);
            assert(num_bits * seq![GateType::SimpleInputType, GateType::SimpleOutputType, GateType::AndType].len() == 3 * num_bits) by (nonlinear_arith) requires seq![GateType::SimpleInputType, GateType::SimpleOutputType, GateType::AndType].len() == 3;
            lemma_repeat_len(seq![((1) as nat, (1) as nat)], num_bits as nat);
            assert(num_bits * seq![((1) as nat, (1) as nat)].len() == 1 * num_bits) by (nonlinear_arith) requires seq![((1) as nat, (1) as nat)].len() == 1;
            lemma_repeat_len(seq![GateType::SimpleInputType], num_bits as nat);
            assert(num_bits * seq![GateType::SimpleInputType].len() == 1 * num_bits) by (nonlinear_arith) requires seq![GateType::SimpleInputType].len() == 1;
            assert forall|i: int| 0 <= i < gate.complex_gate.input_gates@.len() implies {
                let g = #[trigger] gate.complex_gate.input_gates@[i] as int;
                0 <= g < c2.shape().len() && c2.shape()[g].0 >= 1 && c2.types()[g] == GateType::SimpleInputType
            } by {
                if 0 <= i < 0 + num_bits { lemma_repeat_index(seq![((1) as nat, (1) as nat), ((1) as nat, (1) as nat), ((2) as nat, (1) as nat)], num_bits as nat, i - (0), 0); lemma_repeat_index(seq![GateType::SimpleInputType, GateType::SimpleOutputType, GateType::AndType], num_bits as nat, i - (0), 0); assert((i - (0)) * 3 == 3 * (i - (0))); }
                if num_bits <= i < num_bits + num_bits { lemma_repeat_index(seq![((1) as nat, (1) as nat)], num_bits as nat, i - (num_bits), 0); lemma_repeat_index(seq![GateType::SimpleInputType], num_bits as nat, i - (num_bits), 0); assert((i - (num_bits)) * 1 == 1 * (i - (num_bits))); }
            }
            assert forall|i: int| 0 <= i < gate.complex_gate.output_gates@.len() implies {
                let g = #[trigger] gate.complex_gate.output_gates@[i] as int;
                0 <= g < c2.shape().len() && c2.shape()[g].1 >= 1 && c2.types()[g] == GateType::SimpleOutputType
            } by {
                if 0 <= i < 0 + num_bits { lemma_repeat_index(seq![((1) as nat, (1) as nat), ((1) as nat, (1) as nat), ((2) as nat, (1) as nat)], num_bits as nat, i - (0), 1); lemma_repeat_index(seq![GateType::SimpleInputType, GateType::SimpleOutputType, GateType::AndType], num_bits as nat, i - (0), 1); assert((i - (0)) * 3 == 3 * (i - (0))); }
            }
            assert(c2.types().len() == c2.shape().len());
        }
        let primed = circuit.prime_from(start);
        proof {
            crate::circuit::lemma_wiring_kept_refl(c2);
            assert(c2.shape().subrange(0, c0.shape().len() as int) =~= c0.shape());
            crate::circuit::lemma_wiring_kept_trans(c0, c2, *circuit);
            crate::circuit::lemma_wire_kept(c2, *circuit);
            assert forall|g: int, j: int| start <= g && circuit.has_output(g, j) implies #[trigger] circuit.link(g, j)
                == wire_dest(Self::spec_wires(start as int, num_bits as nat), g, j, None) by {
                assert(c2.has_output(g, j));
                assert(c1.has_output(g, j));
                assert(c1.link(g, j) is None);
            }
        }
        match primed {
            Ok(()) => Ok(gate),
            Err(e) => Err(e),
        }
    }
}

impl LogicGate for VariableBitAnd {
    open spec fn spec_input_pin(&self, index: int) -> (int, int) {
        (self.complex_gate.input_gates@[index] as int, 0)
    }

    open spec fn spec_output_pin(&self, index: int) -> (int, int) {
        (self.complex_gate.output_gates@[index] as int, 0)
    }

    open spec fn spec_num_inputs(&self) -> nat {
        self.complex_gate.input_gates@.len()
    }

    open spec fn spec_num_outputs(&self) -> nat {
        self.complex_gate.output_gates@.len()
    }

    open spec fn spec_gate_type(&self) -> GateType {
        self.complex_gate.gate_type
    }

    open spec fn spec_unique_id(&self) -> UniqueID {
        self.complex_gate.unique_id
    }

    fn input_pin(&self, index: usize) -> (res: (usize, usize)) {
        (self.complex_gate.input_gates[index], 0)
    }

    fn output_pin(&self, index: usize) -> (res: (usize, usize)) {
        (self.complex_gate.output_gates[index], 0)
    }

    fn num_inputs(&self) -> (res: usize) {
        self.complex_gate.input_gates.len()
    }

    fn num_outputs(&self) -> (res: usize) {
        self.complex_gate.output_gates.len()
    }

    fn get_gate_type(&self) -> (res: GateType) {
        self.complex_gate.gate_type
    }

    fn get_unique_id(&self) -> (res: UniqueID) {
        self.complex_gate.unique_id
    }
}

impl VariableBitAnd {
    /// The input or output index that `tag` names.
    pub fn get_index_from_tag(&self, tag: &str) -> (res: Option<usize>)
        ensures
            res == last_tag_index(self.complex_gate.gate_tags_to_index@, tag@),
    {
        self.complex_gate.get_index_from_tag(tag)
    }

    /// Brings the outputs up to date with what reaches them and returns their states.
    pub fn fetch_output_signals(&self, circuit: &mut Circuit) -> (res: Vec<GateOutputState>)
        requires
            old(circuit).wf(),
            complex_fits(&self.complex_gate, old(circuit).shape(), old(circuit).types()),
        ensures
            final(circuit).wf(),
            final(circuit).shape() == old(circuit).shape(),
            final(circuit).types() == old(circuit).types(),
            old(circuit).wiring_kept(*final(circuit)),
            res@.len() == self.complex_gate.output_gates@.len(),
            forall|i: int| 0 <= i < res@.len() ==> #[trigger] res@[i] == final(circuit).node(self.complex_gate.output_gates@[i] as int).outputs()[0],
    {
        proof {
            assert forall|i: int| 0 <= i < self.complex_gate.output_gates@.len() implies #[trigger] old(circuit).has_output(self.complex_gate.output_gates@[i] as int, 0) by {}
        }
        self.complex_gate.fetch_output_signals_calculate(circuit)
    }

    pub fn get_tag(&self) -> (res: String)
        ensures
            res@ == self.complex_gate.tag@,
    {
        self.complex_gate.tag.clone()
    }

    pub fn set_tag(&mut self, tag: &str)
        ensures
            final(self).complex_gate.tag@ == tag@,
            final(self).complex_gate.input_gates == old(self).complex_gate.input_gates,
            final(self).complex_gate.output_gates == old(self).complex_gate.output_gates,
            final(self).complex_gate.gate_tags_to_index == old(self).complex_gate.gate_tags_to_index,
    {
        self.complex_gate.tag = tag.to_owned();
    }

    pub fn toggle_output_printing(&mut self, print_output: bool)
        ensures
            final(self).complex_gate.should_print_output == print_output,
            final(self).complex_gate.input_gates == old(self).complex_gate.input_gates,
            final(self).complex_gate.output_gates == old(self).complex_gate.output_gates,
    {
        self.complex_gate.should_print_output = print_output;
    }

    /// The number of circuit gates that make up this gate.
    pub fn num_children_gates(&self) -> (res: usize)
        ensures
            res == self.complex_gate.number_child_gates,
    {
        self.complex_gate.number_child_gates
    }
}

/// `num_bits` OR gates side by side: output `o_<k>` is `a_<k>` OR `b_<k>`.
pub struct VariableBitOr {
    pub complex_gate: ComplexGateMembers,
    pub or_gates: Vec<Or>,
}

impl VariableBitOr {
    /// The types of the gates a gate of `num_bits` bits adds, in order.
    pub open spec fn spec_types(num_bits: nat) -> Seq<GateType> {
        repeat(seq![GateType::SimpleInputType, GateType::SimpleOutputType, GateType::OrType], num_bits) + repeat(seq![GateType::SimpleInputType], num_bits)
    }

    /// The numbers of inputs and outputs of those gates.
    pub open spec fn spec_shape(num_bits: nat) -> Seq<(nat, nat)> {
        repeat(seq![((1) as nat, (1) as nat), ((1) as nat, (1) as nat), ((2) as nat, (1) as nat)], num_bits) + repeat(seq![((1) as nat, (1) as nat)], num_bits)
    }

    /// The wires of the first `k` bits.
    pub open spec fn spec_bit_wires(start: int, num_bits: nat, k: nat) -> Seq<(usize, usize, usize, usize)>
        decreases k,
    {
        if k == 0 {
            Seq::empty()
        } else {
            Self::spec_bit_wires(start, num_bits, (k - 1) as nat) + seq![
                ((start + 3 * (k - 1) + 0) as usize, (0) as usize, (start + 3 * (k - 1) + 2) as usize, (0) as usize),
                ((start + 3 * num_bits + 1 * (k - 1) + 0) as usize, (0) as usize, (start + 3 * (k - 1) + 2) as usize, (1) as usize),
                ((start + 3 * (k - 1) + 2) as usize, (0) as usize, (start + 3 * (k - 1) + 1) as usize, (0) as usize),
            ]
        }
    }

    /// For every bit, inputs `a_<k>` and `b_<k>` feed OR `k`, which feeds `o_<k>`.
    pub open spec fn spec_wires(start: int, num_bits: nat) -> Seq<(usize, usize, usize, usize)> {
        Self::spec_bit_wires(start, num_bits, num_bits)
    }

    /// The pins, tags and parts of a gate of `num_bits` bits that starts at `start`.
    pub open spec fn pins_ok(&self, start: int, num_bits: nat) -> bool {
        &&& self.complex_gate.gate_type == GateType::VariableBitOrType
        &&& self.complex_gate.input_gates@ == Seq::new(num_bits, |k: int| (start + 3 * k + 0) as usize) + Seq::new(num_bits, |k: int| (start + 3 * num_bits + 1 * k + 0) as usize)
        &&& self.complex_gate.output_gates@ == Seq::new(num_bits, |k: int| (start + 3 * k + 1) as usize)
        &&& self.complex_gate.tag_names() == Seq::new(num_bits, |k: int| numbered("a_"@, k)) + Seq::new(num_bits, |k: int| numbered("b_"@, k)) + Seq::new(num_bits, |k: int| numbered("o_"@, k))
        &&& self.complex_gate.tags_laid_out()
        &&& self.or_gates@.len() == num_bits
        &&& forall|k: int| 0 <= k < num_bits ==> (#[trigger] self.or_gates@[k]).gate == start + 3 * k + 2
    }

    /// The gates to add for `num_bits` bits.
    fn gate_specs(num_bits: usize) -> (res: Vec<GateSpec>)
        requires
            num_bits >= 1,
            3 * num_bits + 1 * num_bits + 0 < usize::MAX,
        ensures
            spec_types_of(res@) == Self::spec_types(num_bits as nat),
            spec_shape_of(res@) == Self::spec_shape(num_bits as nat),
            forall|k: int| 0 <= k < res@.len() ==> spec_addable(#[trigger] res@[k]),
    {
        let mut res: Vec<GateSpec> = Vec::new();
        let mut k: usize = 0;
        while k < num_bits
            invariant
                k <= num_bits,
                spec_types_of(res@) == repeat(seq![GateType::SimpleInputType, GateType::SimpleOutputType, GateType::OrType], k as nat),
                spec_shape_of(res@) == repeat(seq![((1) as nat, (1) as nat), ((1) as nat, (1) as nat), ((2) as nat, (1) as nat)], k as nat),
                forall|m: int| 0 <= m < res@.len() ==> spec_addable(#[trigger] res@[m]),
            decreases num_bits - k,
        {
            let ghost before = res@;
            res.push(GateSpec::new(GateType::SimpleInputType, 1, 1, numbered_tag("a_", k)));
            res.push(GateSpec::new(GateType::SimpleOutputType, 1, 1, numbered_tag("o_", k)));
            res.push(GateSpec::new(GateType::OrType, 2, 1, String::new()));
            proof {
                assert(spec_types_of(res@) =~= spec_types_of(before) + seq![GateType::SimpleInputType, GateType::SimpleOutputType, GateType::OrType]);
                assert(spec_shape_of(res@) =~= spec_shape_of(before) + seq![((1) as nat, (1) as nat), ((1) as nat, (1) as nat), ((2) as nat, (1) as nat)]);
            }
            k = k + 1;
        }
        let ghost first = res@;

        let mut k: usize = 0;
        while k < num_bits
            invariant
                k <= num_bits,
                spec_types_of(res@) == spec_types_of(first) + repeat(seq![GateType::SimpleInputType], k as nat),
                spec_shape_of(res@) == spec_shape_of(first) + repeat(seq![((1) as nat, (1) as nat)], k as nat),
                forall|m: int| 0 <= m < res@.len() ==> spec_addable(#[trigger] res@[m]),
            decreases num_bits - k,
        {
            let ghost before = res@;
            res.push(GateSpec::new(GateType::SimpleInputType, 1, 1, numbered_tag("b_", k)));
            proof {
                assert(spec_types_of(res@) =~= spec_types_of(before) + seq![GateType::SimpleInputType]);
                assert(spec_shape_of(res@) =~= spec_shape_of(before) + seq![((1) as nat, (1) as nat)]);
            }
            k = k + 1;
        }

        let ghost second = res@;

        proof {
            assert(spec_types_of(res@) =~= spec_types_of(second));
            assert(spec_shape_of(res@) =~= spec_shape_of(second));
        }
        res
    }

    /// The wires to connect for `num_bits` bits starting at gate `start`.
    fn gate_wires(start: usize, num_bits: usize) -> (res: Vec<(usize, usize, usize, usize)>)
        requires
            start + 3 * num_bits + 1 * num_bits + 0 < usize::MAX,
            num_bits >= 1,
        ensures
            res@ == Self::spec_wires(start as int, num_bits as nat),
            forall|k: int| 0 <= k < res@.len() ==> wire_fits(#[trigger] res@[k], start as int, Self::spec_shape(num_bits as nat)),
    {
        let mut res: Vec<(usize, usize, usize, usize)> = Vec::new();
        proof {
            lemma_repeat_len(seq![((1) as nat, (1) as nat), ((1) as nat, (1) as nat), ((2) as nat, (1) as nat)], num_bits as nat);
            assert(num_bits * seq![((1) as nat, (1) as nat), ((1) as nat, (1) as nat), ((2) as nat, (1) as nat)].len() == 3 * num_bits) by (nonlinear_arith) requires seq![((1) as nat, (1) as nat), ((1) as nat, (1) as nat), ((2) as nat, (1) as nat)].len() == 3;
            lemma_repeat_len(seq![GateType::SimpleInputType, GateType::SimpleOutputType, GateType::OrType], num_bits as nat);
            assert(num_bits * seq![GateType::SimpleInputType, GateType::SimpleOutputType, GateType::OrType].len() == 3 * num_bits) by (nonlinear_arith) requires seq![GateType::SimpleInputType, GateType::SimpleOutputType, GateType::OrType].len() == 3;
            lemma_repeat_len(seq![((1) as nat, (1) as nat)], num_bits as nat);
            assert(num_bits * seq![((1) as nat, (1) as nat)].len() == 1 * num_bits) by (nonlinear_arith) requires seq![((1) as nat, (1) as nat)].len() == 1;
            lemma_repeat_len(seq![GateType::SimpleInputType], num_bits as nat);
            assert(num_bits * seq![GateType::SimpleInputType].len() == 1 * num_bits) by (nonlinear_arith) requires seq![GateType::SimpleInputType].len() == 1;
        }
        let mut k: usize = 0;
        while k < num_bits
            invariant
                k <= num_bits,
                num_bits >= 1,
                start + 3 * num_bits + 1 * num_bits + 0 < usize::MAX,
                Self::spec_shape(num_bits as nat).len() == 3 * num_bits + 1 * num_bits + 0,
                res@ == Self::spec_bit_wires(start as int, num_bits as nat, k as nat),
                forall|m: int| 0 <= m < res@.len() ==> wire_fits(#[trigger] res@[m], start as int, Self::spec_shape(num_bits as nat)),
            decreases num_bits - k,
        {
            let ghost before = res@;
            res.push((start + 3 * k + 0, 0, start + 3 * k + 2, 0));
            res.push((start + 3 * num_bits + 1 * k + 0, 0, start + 3 * k + 2, 1));
            res.push((start + 3 * k + 2, 0, start + 3 * k + 1, 0));
            proof {
                assert(res@ =~= Self::spec_bit_wires(start as int, num_bits as nat, k as nat + 1));
                lemma_repeat_len(seq![((1) as nat, (1) as nat), ((1) as nat, (1) as nat), ((2) as nat, (1) as nat)], num_bits as nat);
                assert(num_bits * seq![((1) as nat, (1) as nat), ((1) as nat, (1) as nat), ((2) as nat, (1) as nat)].len() == 3 * num_bits) by (nonlinear_arith) requires seq![((1) as nat, (1) as nat), ((1) as nat, (1) as nat), ((2) as nat, (1) as nat)].len() == 3;
                lemma_repeat_len(seq![GateType::SimpleInputType, GateType::SimpleOutputType, GateType::OrType], num_bits as nat);
                assert(num_bits * seq![GateType::SimpleInputType, GateType::SimpleOutputType, GateType::OrType].len() == 3 * num_bits) by (nonlinear_arith) requires seq![GateType::SimpleInputType, GateType::SimpleOutputType, GateType::OrType].len() == 3;
                lemma_repeat_len(seq![((1) as nat, (1) as nat)], num_bits as nat);
                assert(num_bits * seq![((1) as nat, (1) as nat)].len() == 1 * num_bits) by (nonlinear_arith) requires seq![((1) as nat, (1) as nat)].len() == 1;
                lemma_repeat_len(seq![GateType::SimpleInputType], num_bits as nat);
                assert(num_bits * seq![GateType::SimpleInputType].len() == 1 * num_bits) by (nonlinear_arith) requires seq![GateType::SimpleInputType].len() == 1;
                lemma_repeat_index(seq![((1) as nat, (1) as nat), ((1) as nat, (1) as nat), ((2) as nat, (1) as nat)], num_bits as nat, k as int, 0);
                lemma_repeat_index(seq![GateType::SimpleInputType, GateType::SimpleOutputType, GateType::OrType], num_bits as nat, k as int, 0);
                lemma_repeat_index(seq![((1) as nat, (1) as nat), ((1) as nat, (1) as nat), ((2) as nat, (1) as nat)], num_bits as nat, k as int, 1);
                lemma_repeat_index(seq![GateType::SimpleInputType, GateType::SimpleOutputType, GateType::OrType], num_bits as nat, k as int, 1);
                lemma_repeat_index(seq![((1) as nat, (1) as nat), ((1) as nat, (1) as nat), ((2) as nat, (1) as nat)], num_bits as nat, k as int, 2);
                lemma_repeat_index(seq![GateType::SimpleInputType, GateType::SimpleOutputType, GateType::OrType], num_bits as nat, k as int, 2);
                lemma_repeat_index(seq![((1) as nat, (1) as nat)], num_bits as nat, k as int, 0);
                lemma_repeat_index(seq![GateType::SimpleInputType], num_bits as nat, k as int, 0);
                assert(k as int * 3 == 3 * k as int);
                assert(k as int * 1 == 1 * k as int);
                assert forall|m: int| 0 <= m < res@.len() implies wire_fits(#[trigger] res@[m], start as int, Self::spec_shape(num_bits as nat)) by {
                    if m < before.len() {
                        assert(res@[m] == before[m]);
                    }
                }
            }
            k = k + 1;
        }
        let ghost before = res@;

        proof {
            assert(res@ =~= Self::spec_wires(start as int, num_bits as nat));
            assert forall|m: int| 0 <= m < res@.len() implies wire_fits(#[trigger] res@[m], start as int, Self::spec_shape(num_bits as nat)) by {
                if m < before.len() {
                    assert(res@[m] == before[m]);
                }
            }
        }
        res
    }

    /// Adds a gate of `num_bits` bits to the circuit, wires it and primes it. Fails only when
    /// priming does not come to rest or two senders drive one input.
    #[verifier::spinoff_prover]
    #[verifier::rlimit(60)]
    pub fn new(circuit: &mut Circuit, num_bits: usize) -> (res: Result<Self, GateLogicError>)
        requires
            old(circuit).wf(),
            num_bits >= 1,
            old(circuit).len() + 3 * num_bits + 1 * num_bits + 0 + 1 < usize::MAX,
        ensures
            final(circuit).wf(),
            final(circuit).clock_tick_number == old(circuit).clock_tick_number,
            final(circuit).types() == old(circuit).types() + Self::spec_types(num_bits as nat),
            final(circuit).shape() == old(circuit).shape() + Self::spec_shape(num_bits as nat),
            old(circuit).wiring_kept(*final(circuit)),
            forall|g: int, j: int, d: Option<(int, int)>| old(circuit).wire(g, j, d) ==> #[trigger] final(circuit).wire(g, j, d),
            forall|g: int, j: int|
                old(circuit).len() <= g && final(circuit).has_output(g, j) ==> #[trigger] final(circuit).link(g, j)
                    == wire_dest(Self::spec_wires(old(circuit).len() as int, num_bits as nat), g, j, None),
            match res {
                Ok(gate) => {
                    &&& gate.pins_ok(old(circuit).len() as int, num_bits as nat)
                    &&& complex_fits(&gate.complex_gate, final(circuit).shape(), final(circuit).types())
                    &&& settled_from(*final(circuit), old(circuit).len() as int)
                },
                Err(e) => crate::run_circuit::failure_shown(*final(circuit), e),
            },
    {
        let ghost c0 = *circuit;
        let start = circuit.num_gates();
        let specs = Self::gate_specs(num_bits);
        let wires = Self::gate_wires(start, num_bits);
        let ghost shape = Self::spec_shape(num_bits as nat);
        proof {
            lemma_repeat_len(seq![((1) as nat, (1) as nat), ((1) as nat, (1) as nat), ((2) as nat, (1) as nat)], num_bits as nat);
            assert(num_bits * seq![((1) as nat, (1) as nat), ((1) as nat, (1) as nat), ((2) as nat, (1) as nat)].len() == 3 * num_bits) by (nonlinear_arith) requires seq![((1) as nat, (1) as nat), ((1) as nat, (1) as nat), ((2) as nat, (1) as nat)].len() == 3;
            lemma_repeat_len(seq![GateType::SimpleInputType, GateType::SimpleOutputType, GateType::OrType], num_bits as nat);
            assert(num_bits * seq![GateType::SimpleInputType, GateType::SimpleOutputType, GateType::OrType].len() == 3 * num_bits) by (nonlinear_arith) requires seq![GateType::SimpleInputType, GateType::SimpleOutputType, GateType::OrType].len() == 3;
            lemma_repeat_len(seq![((1) as nat, (1) as nat)], num_bits as nat);
            assert(num_bits * seq![((1) as nat, (1) as nat)].len() == 1 * num_bits) by (nonlinear_arith) requires seq![((1) as nat, (1) as nat)].len() == 1;
            lemma_repeat_len(seq![GateType::SimpleInputType], num_bits as nat);
            assert(num_bits * seq![GateType::SimpleInputType].len() == 1 * num_bits) by (nonlinear_arith) requires seq![GateType::SimpleInputType].len() == 1;
            assert(spec_shape_of(specs@).len() == specs@.len());
            assert(specs@.len() == 3 * num_bits + 1 * num_bits + 0);
        }
        circuit.add_gates(&specs);
        let ghost c1 = *circuit;
        proof {
            assert forall|k: int| 0 <= k < wires@.len() implies c1.has_output((#[trigger] wires@[k]).0 as int, wires@[k].1 as int)
                && c1.has_input(wires@[k].2 as int, wires@[k].3 as int) by {
                assert(wire_fits(wires@[k], start as int, shape));
            }
        }
        circuit.connect_all(&wires);
        let ghost c2 = *circuit;
        proof {
            lemma_wires_keep_old(c0, c1, c2, wires@, start as int, shape);
            assert(c2.shape().len() == c2.len());
            assert(c0.shape().len() == c0.len());
            assert(c2.len() == start + 3 * num_bits + 1 * num_bits + 0);
        }
        let mut input_gates: Vec<usize> = Vec::new();
        let mut input_tags: Vec<String> = Vec::new();
        let ghost prev_input_gates_B0 = input_gates@;
        let ghost prev_input_tags_B0 = input_tags@;
        let mut q: usize = 0;
        while q < num_bits
            invariant
                q <= num_bits,
                start + 3 * num_bits + 1 * num_bits + 0 < usize::MAX,
                input_gates@ == prev_input_gates_B0 + Seq::new(q as nat, |m: int| (start + 3 * m + 0) as usize),
                input_tags@.len() == prev_input_tags_B0.len() + q,
                forall|m: int| 0 <= m < prev_input_tags_B0.len() ==> (#[trigger] input_tags@[m]) == prev_input_tags_B0[m],
                forall|m: int| prev_input_tags_B0.len() <= m < prev_input_tags_B0.len() + q ==> (#[trigger] input_tags@[m])@ == numbered("a_"@, m - prev_input_tags_B0.len()),
            decreases num_bits - q,
        {
            input_gates.push(start + 3 * q + 0);
            input_tags.push(numbered_tag("a_", q));
            proof {
                assert(input_gates@ =~= prev_input_gates_B0 + Seq::new(q as nat + 1, |m: int| (start + 3 * m + 0) as usize));
            }
            q = q + 1;
        }
        let ghost prev_input_gates_S0 = input_gates@;
        let ghost prev_input_tags_S0 = input_tags@;
        let mut q: usize = 0;
        while q < num_bits
            invariant
                q <= num_bits,
                start + 3 * num_bits + 1 * num_bits + 0 < usize::MAX,
                input_gates@ == prev_input_gates_S0 + Seq::new(q as nat, |m: int| (start + 3 * num_bits + 1 * m + 0) as usize),
                input_tags@.len() == prev_input_tags_S0.len() + q,
                forall|m: int| 0 <= m < prev_input_tags_S0.len() ==> (#[trigger] input_tags@[m]) == prev_input_tags_S0[m],
                forall|m: int| prev_input_tags_S0.len() <= m < prev_input_tags_S0.len() + q ==> (#[trigger] input_tags@[m])@ == numbered("b_"@, m - prev_input_tags_S0.len()),
            decreases num_bits - q,
        {
            input_gates.push(start + 3 * num_bits + 1 * q + 0);
            input_tags.push(numbered_tag("b_", q));
            proof {
                assert(input_gates@ =~= prev_input_gates_S0 + Seq::new(q as nat + 1, |m: int| (start + 3 * num_bits + 1 * m + 0) as usize));
            }
            q = q + 1;
        }
        let mut output_gates: Vec<usize> = Vec::new();
        let mut output_tags: Vec<String> = Vec::new();
        let ghost prev_output_gates_B1 = output_gates@;
        let ghost prev_output_tags_B1 = output_tags@;
        let mut q: usize = 0;
        while q < num_bits
            invariant
                q <= num_bits,
                start + 3 * num_bits + 1 * num_bits + 0 < usize::MAX,
                output_gates@ == prev_output_gates_B1 + Seq::new(q as nat, |m: int| (start + 3 * m + 1) as usize),
                output_tags@.len() == prev_output_tags_B1.len() + q,
                forall|m: int| 0 <= m < prev_output_tags_B1.len() ==> (#[trigger] output_tags@[m]) == prev_output_tags_B1[m],
                forall|m: int| prev_output_tags_B1.len() <= m < prev_output_tags_B1.len() + q ==> (#[trigger] output_tags@[m])@ == numbered("o_"@, m - prev_output_tags_B1.len()),
            decreases num_bits - q,
        {
            output_gates.push(start + 3 * q + 1);
            output_tags.push(numbered_tag("o_", q));
            proof {
                assert(output_gates@ =~= prev_output_gates_B1 + Seq::new(q as nat + 1, |m: int| (start + 3 * m + 1) as usize));
            }
            q = q + 1;
        }
        let mut or_gates: Vec<Or> = Vec::new();
        let mut q: usize = 0;
        while q < num_bits
            invariant
                q <= num_bits,
                start + 3 * num_bits + 1 * num_bits + 0 < usize::MAX,
                *circuit == c2,
                c2.len() == start + 3 * num_bits + 1 * num_bits + 0,
                or_gates@.len() == q,
                forall|m: int| 0 <= m < q ==> (#[trigger] or_gates@[m]).gate == start + 3 * m + 2,
            decreases num_bits - q,
        {
            let g = start + 3 * q + 2;
            or_gates.push(Or { gate: g, input_num: 2, output_num: 1, unique_id: circuit.gates[g].members.unique_id });
            q = q + 1;
        }
        proof {
            assert(input_gates@ =~= Seq::new((num_bits as nat), |k: int| ((start as int) + 3 * k + 0) as usize) + Seq::new((num_bits as nat), |k: int| ((start as int) + 3 * (num_bits as nat) + 1 * k + 0) as usize));
            assert(output_gates@ =~= Seq::new((num_bits as nat), |k: int| ((start as int) + 3 * k + 1) as usize));
        }
        let complex_gate = ComplexGateMembers::from_tags(
            circuit,
            GateType::VariableBitOrType,
            input_gates,
            output_gates,
            input_tags,
            output_tags,
        );
        let mut complex_gate = complex_gate;
        complex_gate.number_child_gates = 3 * num_bits + 1 * num_bits + 0;
        let gate = VariableBitOr { complex_gate, or_gates };
        proof {
            assert(gate.complex_gate.tag_names() =~= Seq::new(num_bits as nat, |k: int| numbered("a_"@, k)) + Seq::new(num_bits as nat, |k: int| numbered("b_"@, k)) + Seq::new(num_bits as nat, |k: int| numbered("o_"@, k))) by {
                assert(gate.complex_gate.tag_names() =~= Seq::new(input_tags@.len(), |k: int| input_tags@[k]@) + Seq::new(
                    output_tags@.len(),
                    |k: int| output_tags@[k]@,
                ));
            }
            lemma_repeat_len(seq![((1) as nat, (1) as nat), ((1) as nat, (1) as nat), ((2) as nat, (1) as nat)], num_bits as nat);
            assert(num_bits * seq![((1) as nat, (1) as nat), ((1) as nat, (1) as nat), ((2) as nat, (1) as nat)].len() == 3 * num_bits) by (nonlinear_arith) requires seq![((1) as nat, (1) as nat), ((1) as nat, (1) as nat), ((2) as nat, (1) as nat)].len() == 3;
            lemma_repeat_len(seq![GateType::SimpleInputType, GateType::SimpleOutputType, GateType::OrType], num_bits as nat);
            assert(num_bits * seq![GateType::SimpleInputType, GateType::SimpleOutputType, GateType::OrType].len() == 3 * num_bits) by (nonlinear_arith) requires seq![GateType::SimpleInputType, GateType::SimpleOutputType, GateType::OrType].len() == 3;
            lemma_repeat_len(seq![((1) as nat, (1) as nat)], num_bits as nat);
            assert(num_bits * seq![((1) as nat, (1) as nat)].len() == 1 * num_bits) by (nonlinear_arith) requires seq![((1) as nat, (1) as nat)].len() == 1;
            lemma_repeat_len(seq![GateType::SimpleInputType], num_bits as nat);
            assert(num_bits * seq![GateType::SimpleInputType].len() == 1 * num_bits) by (nonlinear_arith) requires seq![GateType::SimpleInputType].len() == 1;
            assert forall|i: int| 0 <= i < gate.complex_gate.input_gates@.len() implies {
                let g = #[trigger] gate.complex_gate.input_gates@[i] as int;
                0 <= g < c2.shape().len() && c2.shape()[g].0 >= 1 && c2.types()[g] == GateType::SimpleInputType
            } by {
                if 0 <= i < 0 + num_bits { lemma_repeat_index(seq![((1) as nat, (1) as nat), ((1) as nat, (1) as nat), ((2) as nat, (1) as nat)], num_bits as nat, i - (0), 0); lemma_repeat_index(seq![GateType::SimpleInputType, GateType::SimpleOutputType, GateType::OrType], num_bits as nat, i - (0), 0); assert((i - (0)) * 3 == 3 * (i - (0))); }
                if num_bits <= i < num_bits + num_bits { lemma_repeat_index(seq![((1) as nat, (1) as nat)], num_bits as nat, i - (num_bits), 0); lemma_repeat_index(seq![GateType::SimpleInputType], num_bits as nat, i - (num_bits), 0); assert((i - (num_bits)) * 1 == 1 * (i - (num_bits))); }
            }
            assert forall|i: int| 0 <= i < gate.complex_gate.output_gates@.len() implies {
                let g = #[trigger] gate.complex_gate.output_gates@[i] as int;
                0 <= g < c2.shape().len() && c2.shape()[g].1 >= 1 && c2.types()[g] == GateType::SimpleOutputType
            } by {
                if 0 <= i < 0 + num_bits { lemma_repeat_index(seq![((1) as nat, (1) as nat), ((1) as nat, (1) as nat), ((2) as nat, (1) as nat)], num_bits as nat, i - (0), 1); lemma_repeat_index(seq![GateType::SimpleInputType, GateType::SimpleOutputType, GateType::OrType], num_bits as nat, i - (0), 1); assert((i - (0)) * 3 == 3 * (i - (0))); }
            }
            assert(c2.types().len() == c2.shape().len());
        }
        let primed = circuit.prime_from(start);
        proof {
            crate::circuit::lemma_wiring_kept_refl(c2);
            assert(c2.shape().subrange(0, c0.shape().len() as int) =~= c0.shape());
            crate::circuit::lemma_wiring_kept_trans(c0, c2, *circuit);
            crate::circuit::lemma_wire_kept(c2, *circuit);
            assert forall|g: int, j: int| start <= g && circuit.has_output(g, j) implies #[trigger] circuit.link(g, j)
                == wire_dest(Self::spec_wires(start as int, num_bits as nat), g, j, None) by {
                assert(c2.has_output(g, j));
                assert(c1.has_output(g, j));
                assert(c1.link(g, j) is None);
            }
        }
        match primed {
            Ok(()) => Ok(gate),
            Err(e) => Err(e),
        }
    }
}

impl LogicGate for VariableBitOr {
    open spec fn spec_input_pin(&self, index: int) -> (int, int) {
        (self.complex_gate.input_gates@[index] as int, 0)
    }

    open spec fn spec_output_pin(&self, index: int) -> (int, int) {
        (self.complex_gate.output_gates@[index] as int, 0)
    }

    open spec fn spec_num_inputs(&self) -> nat {
        self.complex_gate.input_gates@.len()
    }

    open spec fn spec_num_outputs(&self) -> nat {
        self.complex_gate.output_gates@.len()
    }

    open spec fn spec_gate_type(&self) -> GateType {
        self.complex_gate.gate_type
    }

    open spec fn spec_unique_id(&self) -> UniqueID {
        self.complex_gate.unique_id
    }

    fn input_pin(&self, index: usize) -> (res: (usize, usize)) {
        (self.complex_gate.input_gates[index], 0)
    }

    fn output_pin(&self, index: usize) -> (res: (usize, usize)) {
        (self.complex_gate.output_gates[index], 0)
    }

    fn num_inputs(&self) -> (res: usize) {
        self.complex_gate.input_gates.len()
    }

    fn num_outputs(&self) -> (res: usize) {
        self.complex_gate.output_gates.len()
    }

    fn get_gate_type(&self) -> (res: GateType) {
        self.complex_gate.gate_type
    }

    fn get_unique_id(&self) -> (res: UniqueID) {
        self.complex_gate.unique_id
    }
}

impl VariableBitOr {
    /// The input or output index that `tag` names.
    pub fn get_index_from_tag(&self, tag: &str) -> (res: Option<usize>)
        ensures
            res == last_tag_index(self.complex_gate.gate_tags_to_index@, tag@),
    {
        self.complex_gate.get_index_from_tag(tag)
    }

    /// Brings the outputs up to date with what reaches them and returns their states.
    pub fn fetch_output_signals(&self, circuit: &mut Circuit) -> (res: Vec<GateOutputState>)
        requires
            old(circuit).wf(),
            complex_fits(&self.complex_gate, old(circuit).shape(), old(circuit).types()),
        ensures
            final(circuit).wf(),
            final(circuit).shape() == old(circuit).shape(),
            final(circuit).types() == old(circuit).types(),
            old(circuit).wiring_kept(*final(circuit)),
            res@.len() == self.complex_gate.output_gates@.len(),
            forall|i: int| 0 <= i < res@.len() ==> #[trigger] res@[i] == final(circuit).node(self.complex_gate.output_gates@[i] as int).outputs()[0],
    {
        proof {
            assert forall|i: int| 0 <= i < self.complex_gate.output_gates@.len() implies #[trigger] old(circuit).has_output(self.complex_gate.output_gates@[i] as int, 0) by {}
        }
        self.complex_gate.fetch_output_signals_calculate(circuit)
    }

    pub fn get_tag(&self) -> (res: String)
        ensures
            res@ == self.complex_gate.tag@,
    {
        self.complex_gate.tag.clone()
    }

    pub fn set_tag(&mut self, tag: &str)
        ensures
            final(self).complex_gate.tag@ == tag@,
            final(self).complex_gate.input_gates == old(self).complex_gate.input_gates,
            final(self).complex_gate.output_gates == old(self).complex_gate.output_gates,
            final(self).complex_gate.gate_tags_to_index == old(self).complex_gate.gate_tags_to_index,
    {
        self.complex_gate.tag = tag.to_owned();
    }

    pub fn toggle_output_printing(&mut self, print_output: bool)
        ensures
            final(self).complex_gate.should_print_output == print_output,
            final(self).complex_gate.input_gates == old(self).complex_gate.input_gates,
            final(self).complex_gate.output_gates == old(self).complex_gate.output_gates,
    {
        self.complex_gate.should_print_output = print_output;
    }

    /// The number of circuit gates that make up this gate.
    pub fn num_children_gates(&self) -> (res: usize)
        ensures
            res == self.complex_gate.number_child_gates,
    {
        self.complex_gate.number_child_gates
    }
}

/// Whether all `num_bits` inputs are LOW: output `O` is the NOR of inputs `i_<k>`.
pub struct VariableBitZ {
    pub complex_gate: ComplexGateMembers,
    pub or_gate: Or,
    pub not_gate: Not,
}

impl VariableBitZ {
    /// The types of the gates a gate of `num_bits` bits adds, in order.
    pub open spec fn spec_types(num_bits: nat) -> Seq<GateType> {
        repeat(seq![GateType::SimpleInputType], num_bits) + seq![GateType::SimpleOutputType, GateType::OrType, GateType::NotType]
    }

    /// The numbers of inputs and outputs of those gates.
    pub open spec fn spec_shape(num_bits: nat) -> Seq<(nat, nat)> {
        repeat(seq![((1) as nat, (1) as nat)], num_bits) + seq![((1) as nat, (1) as nat), ((num_bits) as nat, (1) as nat), ((1) as nat, (1) as nat)]
    }

    /// The wires of the first `k` bits.
    pub open spec fn spec_bit_wires(start: int, num_bits: nat, k: nat) -> Seq<(usize, usize, usize, usize)>
        decreases k,
    {
        if k == 0 {
            Seq::empty()
        } else {
            Self::spec_bit_wires(start, num_bits, (k - 1) as nat) + seq![
                ((start + 1 * (k - 1) + 0) as usize, (0) as usize, (start + 1 * num_bits + 0 * num_bits + 1) as usize, ((k - 1)) as usize),
            ]
        }
    }

    /// Input `i_<k>` feeds input `k` of the OR, which feeds the NOT, which feeds `O`.
    pub open spec fn spec_wires(start: int, num_bits: nat) -> Seq<(usize, usize, usize, usize)> {
        Self::spec_bit_wires(start, num_bits, num_bits) + seq![((start + 1 * num_bits + 0 * num_bits + 1) as usize, (0) as usize, (start + 1 * num_bits + 0 * num_bits + 2) as usize, (0) as usize), ((start + 1 * num_bits + 0 * num_bits + 2) as usize, (0) as usize, (start + 1 * num_bits + 0 * num_bits + 0) as usize, (0) as usize)]
    }

    /// The pins, tags and parts of a gate of `num_bits` bits that starts at `start`.
    pub open spec fn pins_ok(&self, start: int, num_bits: nat) -> bool {
        &&& self.complex_gate.gate_type == GateType::VariableBitZType
        &&& self.complex_gate.input_gates@ == Seq::new(num_bits, |k: int| (start + 1 * k + 0) as usize)
        &&& self.complex_gate.output_gates@ == seq![(start + 1 * num_bits + 0 * num_bits + 0) as usize]
        &&& self.complex_gate.tag_names() == Seq::new(num_bits, |k: int| numbered("i_"@, k)) + seq!["O"@]
        &&& self.complex_gate.tags_laid_out()
        &&& self.or_gate.gate == start + 1 * num_bits + 0 * num_bits + 1
        &&& self.not_gate.gate == start + 1 * num_bits + 0 * num_bits + 2
    }

    /// The gates to add for `num_bits` bits.
    fn gate_specs(num_bits: usize) -> (res: Vec<GateSpec>)
        requires
            num_bits >= 1,
            1 * num_bits + 0 * num_bits + 3 < usize::MAX,
        ensures
            spec_types_of(res@) == Self::spec_types(num_bits as nat),
            spec_shape_of(res@) == Self::spec_shape(num_bits as nat),
            forall|k: int| 0 <= k < res@.len() ==> spec_addable(#[trigger] res@[k]),
    {
        let mut res: Vec<GateSpec> = Vec::new();
        let mut k: usize = 0;
        while k < num_bits
            invariant
                k <= num_bits,
                spec_types_of(res@) == repeat(seq![GateType::SimpleInputType], k as nat),
                spec_shape_of(res@) == repeat(seq![((1) as nat, (1) as nat)], k as nat),
                forall|m: int| 0 <= m < res@.len() ==> spec_addable(#[trigger] res@[m]),
            decreases num_bits - k,
        {
            let ghost before = res@;
            res.push(GateSpec::new(GateType::SimpleInputType, 1, 1, numbered_tag("i_", k)));
            proof {
                assert(spec_types_of(res@) =~= spec_types_of(before) + seq![GateType::SimpleInputType]);
                assert(spec_shape_of(res@) =~= spec_shape_of(before) + seq![((1) as nat, (1) as nat)]);
            }
            k = k + 1;
        }
        let ghost first = res@;

        let ghost second = res@;
        res.push(GateSpec::new(GateType::SimpleOutputType, 1, 1, "O".to_owned()));
        res.push(GateSpec::new(GateType::OrType, num_bits, 1, String::new()));
        res.push(GateSpec::new(GateType::NotType, 1, 1, String::new()));
        proof {
            assert(spec_types_of(res@) =~= spec_types_of(second) + seq![GateType::SimpleOutputType, GateType::OrType, GateType::NotType]);
            assert(spec_shape_of(res@) =~= spec_shape_of(second) + seq![((1) as nat, (1) as nat), ((num_bits) as nat, (1) as nat), ((1) as nat, (1) as nat)]);
        }
        res
    }

    /// The wires to connect for `num_bits` bits starting at gate `start`.
    fn gate_wires(start: usize, num_bits: usize) -> (res: Vec<(usize, usize, usize, usize)>)
        requires
            start + 1 * num_bits + 0 * num_bits + 3 < usize::MAX,
            num_bits >= 1,
        ensures
            res@ == Self::spec_wires(start as int, num_bits as nat),
            forall|k: int| 0 <= k < res@.len() ==> wire_fits(#[trigger] res@[k], start as int, Self::spec_shape(num_bits as nat)),
    {
        let mut res: Vec<(usize, usize, usize, usize)> = Vec::new();
        proof {
            lemma_repeat_len(seq![((1) as nat, (1) as nat)], num_bits as nat);
            assert(num_bits * seq![((1) as nat, (1) as nat)].len() == 1 * num_bits) by (nonlinear_arith) requires seq![((1) as nat, (1) as nat)].len() == 1;
            lemma_repeat_len(seq![GateType::SimpleInputType], num_bits as nat);
            assert(num_bits * seq![GateType::SimpleInputType].len() == 1 * num_bits) by (nonlinear_arith) requires seq![GateType::SimpleInputType].len() == 1;
        }
        let mut k: usize = 0;
        while k < num_bits
            invariant
                k <= num_bits,
                num_bits >= 1,
                start + 1 * num_bits + 0 * num_bits + 3 < usize::MAX,
                Self::spec_shape(num_bits as nat).len() == 1 * num_bits + 0 * num_bits + 3,
                res@ == Self::spec_bit_wires(start as int, num_bits as nat, k as nat),
                forall|m: int| 0 <= m < res@.len() ==> wire_fits(#[trigger] res@[m], start as int, Self::spec_shape(num_bits as nat)),
            decreases num_bits - k,
        {
            let ghost before = res@;
            res.push((start + 1 * k + 0, 0, start + 1 * num_bits + 0 * num_bits + 1, k));
            proof {
                assert(res@ =~= Self::spec_bit_wires(start as int, num_bits as nat, k as nat + 1));
                lemma_repeat_len(seq![((1) as nat, (1) as nat)], num_bits as nat);
                assert(num_bits * seq![((1) as nat, (1) as nat)].len() == 1 * num_bits) by (nonlinear_arith) requires seq![((1) as nat, (1) as nat)].len() == 1;
                lemma_repeat_len(seq![GateType::SimpleInputType], num_bits as nat);
                assert(num_bits * seq![GateType::SimpleInputType].len() == 1 * num_bits) by (nonlinear_arith) requires seq![GateType::SimpleInputType].len() == 1;
                lemma_repeat_index(seq![((1) as nat, (1) as nat)], num_bits as nat, k as int, 0);
                lemma_repeat_index(seq![GateType::SimpleInputType], num_bits as nat, k as int, 0);
                assert(k as int * 1 == 1 * k as int);
                assert forall|m: int| 0 <= m < res@.len() implies wire_fits(#[trigger] res@[m], start as int, Self::spec_shape(num_bits as nat)) by {
                    if m < before.len() {
                        assert(res@[m] == before[m]);
                    }
                }
            }
            k = k + 1;
        }
        let ghost before = res@;
        res.push((start + 1 * num_bits + 0 * num_bits + 1, 0, start + 1 * num_bits + 0 * num_bits + 2, 0));
        res.push((start + 1 * num_bits + 0 * num_bits + 2, 0, start + 1 * num_bits + 0 * num_bits + 0, 0));
        proof {
            assert(res@ =~= Self::spec_wires(start as int, num_bits as nat));
            assert forall|m: int| 0 <= m < res@.len() implies wire_fits(#[trigger] res@[m], start as int, Self::spec_shape(num_bits as nat)) by {
                if m < before.len() {
                    assert(res@[m] == before[m]);
                }
            }
        }
        res
    }

    /// Adds a gate of `num_bits` bits to the circuit, wires it and primes it. Fails only when
    /// priming does not come to rest or two senders drive one input.
    #[verifier::spinoff_prover]
    #[verifier::rlimit(60)]
    pub fn new(circuit: &mut Circuit, num_bits: usize) -> (res: Result<Self, GateLogicError>)
        requires
            old(circuit).wf(),
            num_bits >= 1,
            old(circuit).len() + 1 * num_bits + 0 * num_bits + 3 + 1 < usize::MAX,
        ensures
            final(circuit).wf(),
            final(circuit).clock_tick_number == old(circuit).clock_tick_number,
            final(circuit).types() == old(circuit).types() + Self::spec_types(num_bits as nat),
            final(circuit).shape() == old(circuit).shape() + Self::spec_shape(num_bits as nat),
            old(circuit).wiring_kept(*final(circuit)),
            forall|g: int, j: int, d: Option<(int, int)>| old(circuit).wire(g, j, d) ==> #[trigger] final(circuit).wire(g, j, d),
            forall|g: int, j: int|
                old(circuit).len() <= g && final(circuit).has_output(g, j) ==> #[trigger] final(circuit).link(g, j)
                    == wire_dest(Self::spec_wires(old(circuit).len() as int, num_bits as nat), g, j, None),
            match res {
                Ok(gate) => {
                    &&& gate.pins_ok(old(circuit).len() as int, num_bits as nat)
                    &&& complex_fits(&gate.complex_gate, final(circuit).shape(), final(circuit).types())
                    &&& settled_from(*final(circuit), old(circuit).len() as int)
                },
                Err(e) => crate::run_circuit::failure_shown(*final(circuit), e),
            },
    {
        let ghost c0 = *circuit;
        let start = circuit.num_gates();
        let specs = Self::gate_specs(num_bits);
        let wires = Self::gate_wires(start, num_bits);
        let ghost shape = Self::spec_shape(num_bits as nat);
        proof {
            lemma_repeat_len(seq![((1) as nat, (1) as nat)], num_bits as nat);
            assert(num_bits * seq![((1) as nat, (1) as nat)].len() == 1 * num_bits) by (nonlinear_arith) requires seq![((1) as nat, (1) as nat)].len() == 1;
            lemma_repeat_len(seq![GateType::SimpleInputType], num_bits as nat);
            assert(num_bits * seq![GateType::SimpleInputType].len() == 1 * num_bits) by (nonlinear_arith) requires seq![GateType::SimpleInputType].len() == 1;
            assert(spec_shape_of(specs@).len() == specs@.len());
            assert(specs@.len() == 1 * num_bits + 0 * num_bits + 3);
        }
        circuit.add_gates(&specs);
        let ghost c1 = *circuit;
        proof {
            assert forall|k: int| 0 <= k < wires@.len() implies c1.has_output((#[trigger] wires@[k]).0 as int, wires@[k].1 as int)
                && c1.has_input(wires@[k].2 as int, wires@[k].3 as int) by {
                assert(wire_fits(wires@[k], start as int, shape));
            }
        }
        circuit.connect_all(&wires);
        let ghost c2 = *circuit;
        proof {
            lemma_wires_keep_old(c0, c1, c2, wires@, start as int, shape);
            assert(c2.shape().len() == c2.len());
            assert(c0.shape().len() == c0.len());
            assert(c2.len() == start + 1 * num_bits + 0 * num_bits + 3);
        }
        let mut input_gates: Vec<usize> = Vec::new();
        let mut input_tags: Vec<String> = Vec::new();
        let ghost prev_input_gates_B0 = input_gates@;
        let ghost prev_input_tags_B0 = input_tags@;
        let mut q: usize = 0;
        while q < num_bits
            invariant
                q <= num_bits,
                start + 1 * num_bits + 0 * num_bits + 3 < usize::MAX,
                input_gates@ == prev_input_gates_B0 + Seq::new(q as nat, |m: int| (start + 1 * m + 0) as usize),
                input_tags@.len() == prev_input_tags_B0.len() + q,
                forall|m: int| 0 <= m < prev_input_tags_B0.len() ==> (#[trigger] input_tags@[m]) == prev_input_tags_B0[m],
                forall|m: int| prev_input_tags_B0.len() <= m < prev_input_tags_B0.len() + q ==> (#[trigger] input_tags@[m])@ == numbered("i_"@, m - prev_input_tags_B0.len()),
            decreases num_bits - q,
        {
            input_gates.push(start + 1 * q + 0);
            input_tags.push(numbered_tag("i_", q));
            proof {
                assert(input_gates@ =~= prev_input_gates_B0 + Seq::new(q as nat + 1, |m: int| (start + 1 * m + 0) as usize));
            }
            q = q + 1;
        }
        let mut output_gates: Vec<usize> = Vec::new();
        let mut output_tags: Vec<String> = Vec::new();
        output_gates.push(start + 1 * num_bits + 0 * num_bits + 0);
        output_tags.push("O".to_owned());
        let g = start + 1 * num_bits + 0 * num_bits + 1;
        let or_gate = Or { gate: g, input_num: num_bits, output_num: 1, unique_id: circuit.gates[g].members.unique_id };
        let g = start + 1 * num_bits + 0 * num_bits + 2;
        let not_gate = Not { gate: g, input_num: 1, output_num: 1, unique_id: circuit.gates[g].members.unique_id };
        proof {
            assert(input_gates@ =~= Seq::new((num_bits as nat), |k: int| ((start as int) + 1 * k + 0) as usize));
            assert(output_gates@ =~= seq![((start as int) + 1 * (num_bits as nat) + 0 * (num_bits as nat) + 0) as usize]);
        }
        let complex_gate = ComplexGateMembers::from_tags(
            circuit,
            GateType::VariableBitZType,
            input_gates,
            output_gates,
            input_tags,
            output_tags,
        );
        let mut complex_gate = complex_gate;
        complex_gate.number_child_gates = 1 * num_bits + 0 * num_bits + 3;
        let gate = VariableBitZ { complex_gate, or_gate, not_gate };
        proof {
            assert(gate.complex_gate.tag_names() =~= Seq::new(num_bits as nat, |k: int| numbered("i_"@, k)) + seq!["O"@]) by {
                assert(gate.complex_gate.tag_names() =~= Seq::new(input_tags@.len(), |k: int| input_tags@[k]@) + Seq::new(
                    output_tags@.len(),
                    |k: int| output_tags@[k]@,
                ));
            }
            lemma_repeat_len(seq![((1) as nat, (1) as nat)], num_bits as nat);
            assert(num_bits * seq![((1) as nat, (1) as nat)].len() == 1 * num_bits) by (nonlinear_arith) requires seq![((1) as nat, (1) as nat)].len() == 1;
            lemma_repeat_len(seq![GateType::SimpleInputType], num_bits as nat);
            assert(num_bits * seq![GateType::SimpleInputType].len() == 1 * num_bits) by (nonlinear_arith) requires seq![GateType::SimpleInputType].len() == 1;
            assert forall|i: int| 0 <= i < gate.complex_gate.input_gates@.len() implies {
                let g = #[trigger] gate.complex_gate.input_gates@[i] as int;
                0 <= g < c2.shape().len() && c2.shape()[g].0 >= 1 && c2.types()[g] == GateType::SimpleInputType
            } by {
                if 0 <= i < 0 + num_bits { lemma_repeat_index(seq![((1) as nat, (1) as nat)], num_bits as nat, i - (0), 0); lemma_repeat_index(seq![GateType::SimpleInputType], num_bits as nat, i - (0), 0); assert((i - (0)) * 1 == 1 * (i - (0))); }
            }
            assert forall|i: int| 0 <= i < gate.complex_gate.output_gates@.len() implies {
                let g = #[trigger] gate.complex_gate.output_gates@[i] as int;
                0 <= g < c2.shape().len() && c2.shape()[g].1 >= 1 && c2.types()[g] == GateType::SimpleOutputType
            } by {
                if 0 <= i < 0 + 1 {  }
            }
            assert(c2.types().len() == c2.shape().len());
        }
        let primed = circuit.prime_from(start);
        proof {
            crate::circuit::lemma_wiring_kept_refl(c2);
            assert(c2.shape().subrange(0, c0.shape().len() as int) =~= c0.shape());
            crate::circuit::lemma_wiring_kept_trans(c0, c2, *circuit);
            crate::circuit::lemma_wire_kept(c2, *circuit);
            assert forall|g: int, j: int| start <= g && circuit.has_output(g, j) implies #[trigger] circuit.link(g, j)
                == wire_dest(Self::spec_wires(start as int, num_bits as nat), g, j, None) by {
                assert(c2.has_output(g, j));
                assert(c1.has_output(g, j));
                assert(c1.link(g, j) is None);
            }
        }
        match primed {
            Ok(()) => Ok(gate),
            Err(e) => Err(e),
        }
    }
}

impl LogicGate for VariableBitZ {
    open spec fn spec_input_pin(&self, index: int) -> (int, int) {
        (self.complex_gate.input_gates@[index] as int, 0)
    }

    open spec fn spec_output_pin(&self, index: int) -> (int, int) {
        (self.complex_gate.output_gates@[index] as int, 0)
    }

    open spec fn spec_num_inputs(&self) -> nat {
        self.complex_gate.input_gates@.len()
    }

    open spec fn spec_num_outputs(&self) -> nat {
        self.complex_gate.output_gates@.len()
    }

    open spec fn spec_gate_type(&self) -> GateType {
        self.complex_gate.gate_type
    }

    open spec fn spec_unique_id(&self) -> UniqueID {
        self.complex_gate.unique_id
    }

    fn input_pin(&self, index: usize) -> (res: (usize, usize)) {
        (self.complex_gate.input_gates[index], 0)
    }

    fn output_pin(&self, index: usize) -> (res: (usize, usize)) {
        (self.complex_gate.output_gates[index], 0)
    }

    fn num_inputs(&self) -> (res: usize) {
        self.complex_gate.input_gates.len()
    }

    fn num_outputs(&self) -> (res: usize) {
        self.complex_gate.output_gates.len()
    }

    fn get_gate_type(&self) -> (res: GateType) {
        self.complex_gate.gate_type
    }

    fn get_unique_id(&self) -> (res: UniqueID) {
        self.complex_gate.unique_id
    }
}

impl VariableBitZ {
    /// The input or output index that `tag` names.
    pub fn get_index_from_tag(&self, tag: &str) -> (res: Option<usize>)
        ensures
            res == last_tag_index(self.complex_gate.gate_tags_to_index@, tag@),
    {
        self.complex_gate.get_index_from_tag(tag)
    }

    /// Brings the outputs up to date with what reaches them and returns their states.
    pub fn fetch_output_signals(&self, circuit: &mut Circuit) -> (res: Vec<GateOutputState>)
        requires
            old(circuit).wf(),
            complex_fits(&self.complex_gate, old(circuit).shape(), old(circuit).types()),
        ensures
            final(circuit).wf(),
            final(circuit).shape() == old(circuit).shape(),
            final(circuit).types() == old(circuit).types(),
            old(circuit).wiring_kept(*final(circuit)),
            res@.len() == self.complex_gate.output_gates@.len(),
            forall|i: int| 0 <= i < res@.len() ==> #[trigger] res@[i] == final(circuit).node(self.complex_gate.output_gates@[i] as int).outputs()[0],
    {
        proof {
            assert forall|i: int| 0 <= i < self.complex_gate.output_gates@.len() implies #[trigger] old(circuit).has_output(self.complex_gate.output_gates@[i] as int, 0) by {}
        }
        self.complex_gate.fetch_output_signals_calculate(circuit)
    }

    pub fn get_tag(&self) -> (res: String)
        ensures
            res@ == self.complex_gate.tag@,
    {
        self.complex_gate.tag.clone()
    }

    pub fn set_tag(&mut self, tag: &str)
        ensures
            final(self).complex_gate.tag@ == tag@,
            final(self).complex_gate.input_gates == old(self).complex_gate.input_gates,
            final(self).complex_gate.output_gates == old(self).complex_gate.output_gates,
            final(self).complex_gate.gate_tags_to_index == old(self).complex_gate.gate_tags_to_index,
    {
        self.complex_gate.tag = tag.to_owned();
    }

    pub fn toggle_output_printing(&mut self, print_output: bool)
        ensures
            final(self).complex_gate.should_print_output == print_output,
            final(self).complex_gate.input_gates == old(self).complex_gate.input_gates,
            final(self).complex_gate.output_gates == old(self).complex_gate.output_gates,
    {
        self.complex_gate.should_print_output = print_output;
    }

    /// The number of circuit gates that make up this gate.
    pub fn num_children_gates(&self) -> (res: usize)
        ensures
            res == self.complex_gate.number_child_gates,
    {
        self.complex_gate.number_child_gates
    }
}

/// `num_bits` bits that pass from `i_<k>` to `o_<k>` while `E` is HIGH; while it is LOW the outputs carry NONE.
pub struct VariableBitEnable {
    pub complex_gate: ComplexGateMembers,
    pub control_buffer: ControlledBuffer,
}

impl VariableBitEnable {
    /// The types of the gates a gate of `num_bits` bits adds, in order.
    pub open spec fn spec_types(num_bits: nat) -> Seq<GateType> {
        repeat(seq![GateType::SimpleInputType, GateType::SimpleOutputType], num_bits) + seq![GateType::SimpleInputType, GateType::ControlledBufferType]
    }

    /// The numbers of inputs and outputs of those gates.
    pub open spec fn spec_shape(num_bits: nat) -> Seq<(nat, nat)> {
        repeat(seq![((1) as nat, (1) as nat), ((1) as nat, (1) as nat)], num_bits) + seq![((1) as nat, (1) as nat), ((num_bits + 1) as nat, (num_bits) as nat)]
    }

    /// The wires of the first `k` bits.
    pub open spec fn spec_bit_wires(start: int, num_bits: nat, k: nat) -> Seq<(usize, usize, usize, usize)>
        decreases k,
    {
        if k == 0 {
            Seq::empty()
        } else {
            Self::spec_bit_wires(start, num_bits, (k - 1) as nat) + seq![
                ((start + 2 * (k - 1) + 0) as usize, (0) as usize, (start + 2 * num_bits + 0 * num_bits + 1) as usize, ((k - 1)) as usize),
                ((start + 2 * num_bits + 0 * num_bits + 1) as usize, ((k - 1)) as usize, (start + 2 * (k - 1) + 1) as usize, (0) as usize),
            ]
        }
    }

    /// Input `i_<k>` feeds input `k` of the controlled buffer, whose output `k` feeds `o_<k>`; `E` feeds its enable input.
    pub open spec fn spec_wires(start: int, num_bits: nat) -> Seq<(usize, usize, usize, usize)> {
        Self::spec_bit_wires(start, num_bits, num_bits) + seq![((start + 2 * num_bits + 0 * num_bits + 0) as usize, (0) as usize, (start + 2 * num_bits + 0 * num_bits + 1) as usize, (num_bits) as usize)]
    }

    /// The pins, tags and parts of a gate of `num_bits` bits that starts at `start`.
    pub open spec fn pins_ok(&self, start: int, num_bits: nat) -> bool {
        &&& self.complex_gate.gate_type == GateType::VariableBitEnableType
        &&& self.complex_gate.input_gates@ == Seq::new(num_bits, |k: int| (start + 2 * k + 0) as usize) + seq![(start + 2 * num_bits + 0 * num_bits + 0) as usize]
        &&& self.complex_gate.output_gates@ == Seq::new(num_bits, |k: int| (start + 2 * k + 1) as usize)
        &&& self.complex_gate.tag_names() == Seq::new(num_bits, |k: int| numbered("i_"@, k)) + seq!["E"@] + Seq::new(num_bits, |k: int| numbered("o_"@, k))
        &&& self.complex_gate.tags_laid_out()
        &&& self.control_buffer.gate == start + 2 * num_bits + 0 * num_bits + 1
    }

    /// The gates to add for `num_bits` bits.
    fn gate_specs(num_bits: usize) -> (res: Vec<GateSpec>)
        requires
            num_bits >= 1,
            2 * num_bits + 0 * num_bits + 2 < usize::MAX,
        ensures
            spec_types_of(res@) == Self::spec_types(num_bits as nat),
            spec_shape_of(res@) == Self::spec_shape(num_bits as nat),
            forall|k: int| 0 <= k < res@.len() ==> spec_addable(#[trigger] res@[k]),
    {
        let mut res: Vec<GateSpec> = Vec::new();
        let mut k: usize = 0;
        while k < num_bits
            invariant
                k <= num_bits,
                spec_types_of(res@) == repeat(seq![GateType::SimpleInputType, GateType::SimpleOutputType], k as nat),
                spec_shape_of(res@) == repeat(seq![((1) as nat, (1) as nat), ((1) as nat, (1) as nat)], k as nat),
                forall|m: int| 0 <= m < res@.len() ==> spec_addable(#[trigger] res@[m]),
            decreases num_bits - k,
        {
            let ghost before = res@;
            res.push(GateSpec::new(GateType::SimpleInputType, 1, 1, numbered_tag("i_", k)));
            res.push(GateSpec::new(GateType::SimpleOutputType, 1, 1, numbered_tag("o_", k)));
            proof {
                assert(spec_types_of(res@) =~= spec_types_of(before) + seq![GateType::SimpleInputType, GateType::SimpleOutputType]);
                assert(spec_shape_of(res@) =~= spec_shape_of(before) + seq![((1) as nat, (1) as nat), ((1) as nat, (1) as nat)]);
            }
            k = k + 1;
        }
        let ghost first = res@;

        let ghost second = res@;
        res.push(GateSpec::new(GateType::SimpleInputType, 1, 1, "E".to_owned()));
        res.push(GateSpec::new(GateType::ControlledBufferType, num_bits + 1, num_bits, String::new()));
        proof {
            assert(spec_types_of(res@) =~= spec_types_of(second) + seq![GateType::SimpleInputType, GateType::ControlledBufferType]);
            assert(spec_shape_of(res@) =~= spec_shape_of(second) + seq![((1) as nat, (1) as nat), ((num_bits + 1) as nat, (num_bits) as nat)]);
        }
        res
    }

    /// The wires to connect for `num_bits` bits starting at gate `start`.
    fn gate_wires(start: usize, num_bits: usize) -> (res: Vec<(usize, usize, usize, usize)>)
        requires
            start + 2 * num_bits + 0 * num_bits + 2 < usize::MAX,
            num_bits >= 1,
        ensures
            res@ == Self::spec_wires(start as int, num_bits as nat),
            forall|k: int| 0 <= k < res@.len() ==> wire_fits(#[trigger] res@[k], start as int, Self::spec_shape(num_bits as nat)),
    {
        let mut res: Vec<(usize, usize, usize, usize)> = Vec::new();
        proof {
            lemma_repeat_len(seq![((1) as nat, (1) as nat), ((1) as nat, (1) as nat)], num_bits as nat);
            assert(num_bits * seq![((1) as nat, (1) as nat), ((1) as nat, (1) as nat)].len() == 2 * num_bits) by (nonlinear_arith) requires seq![((1) as nat, (1) as nat), ((1) as nat, (1) as nat)].len() == 2;
            lemma_repeat_len(seq![GateType::SimpleInputType, GateType::SimpleOutputType], num_bits as nat);
            assert(num_bits * seq![GateType::SimpleInputType, GateType::SimpleOutputType].len() == 2 * num_bits) by (nonlinear_arith) requires seq![GateType::SimpleInputType, GateType::SimpleOutputType].len() == 2;
        }
        let mut k: usize = 0;
        while k < num_bits
            invariant
                k <= num_bits,
                num_bits >= 1,
                start + 2 * num_bits + 0 * num_bits + 2 < usize::MAX,
                Self::spec_shape(num_bits as nat).len() == 2 * num_bits + 0 * num_bits + 2,
                res@ == Self::spec_bit_wires(start as int, num_bits as nat, k as nat),
                forall|m: int| 0 <= m < res@.len() ==> wire_fits(#[trigger] res@[m], start as int, Self::spec_shape(num_bits as nat)),
            decreases num_bits - k,
        {
            let ghost before = res@;
            res.push((start + 2 * k + 0, 0, start + 2 * num_bits + 0 * num_bits + 1, k));
            res.push((start + 2 * num_bits + 0 * num_bits + 1, k, start + 2 * k + 1, 0));
            proof {
                assert(res@ =~= Self::spec_bit_wires(start as int, num_bits as nat, k as nat + 1));
                lemma_repeat_len(seq![((1) as nat, (1) as nat), ((1) as nat, (1) as nat)], num_bits as nat);
                assert(num_bits * seq![((1) as nat, (1) as nat), ((1) as nat, (1) as nat)].len() == 2 * num_bits) by (nonlinear_arith) requires seq![((1) as nat, (1) as nat), ((1) as nat, (1) as nat)].len() == 2;
                lemma_repeat_len(seq![GateType::SimpleInputType, GateType::SimpleOutputType], num_bits as nat);
                assert(num_bits * seq![GateType::SimpleInputType, GateType::SimpleOutputType].len() == 2 * num_bits) by (nonlinear_arith) requires seq![GateType::SimpleInputType, GateType::SimpleOutputType].len() == 2;
                lemma_repeat_index(seq![((1) as nat, (1) as nat), ((1) as nat, (1) as nat)], num_bits as nat, k as int, 0);
                lemma_repeat_index(seq![GateType::SimpleInputType, GateType::SimpleOutputType], num_bits as nat, k as int, 0);
                lemma_repeat_index(seq![((1) as nat, (1) as nat), ((1) as nat, (1) as nat)], num_bits as nat, k as int, 1);
                lemma_repeat_index(seq![GateType::SimpleInputType, GateType::SimpleOutputType], num_bits as nat, k as int, 1);
                assert(k as int * 2 == 2 * k as int);
                assert forall|m: int| 0 <= m < res@.len() implies wire_fits(#[trigger] res@[m], start as int, Self::spec_shape(num_bits as nat)) by {
                    if m < before.len() {
                        assert(res@[m] == before[m]);
                    }
                }
            }
            k = k + 1;
        }
        let ghost before = res@;
        res.push((start + 2 * num_bits + 0 * num_bits + 0, 0, start + 2 * num_bits + 0 * num_bits + 1, num_bits));
        proof {
            assert(res@ =~= Self::spec_wires(start as int, num_bits as nat));
            assert forall|m: int| 0 <= m < res@.len() implies wire_fits(#[trigger] res@[m], start as int, Self::spec_shape(num_bits as nat)) by {
                if m < before.len() {
                    assert(res@[m] == before[m]);
                }
            }
        }
        res
    }

    /// Adds a gate of `num_bits` bits to the circuit, wires it and primes it. Fails only when
    /// priming does not come to rest or two senders drive one input.
    #[verifier::spinoff_prover]
    #[verifier::rlimit(60)]
    pub fn new(circuit: &mut Circuit, num_bits: usize) -> (res: Result<Self, GateLogicError>)
        requires
            old(circuit).wf(),
            num_bits >= 1,
            old(circuit).len() + 2 * num_bits + 0 * num_bits + 2 + 1 < usize::MAX,
        ensures
            final(circuit).wf(),
            final(circuit).clock_tick_number == old(circuit).clock_tick_number,
            final(circuit).types() == old(circuit).types() + Self::spec_types(num_bits as nat),
            final(circuit).shape() == old(circuit).shape() + Self::spec_shape(num_bits as nat),
            old(circuit).wiring_kept(*final(circuit)),
            forall|g: int, j: int, d: Option<(int, int)>| old(circuit).wire(g, j, d) ==> #[trigger] final(circuit).wire(g, j, d),
            forall|g: int, j: int|
                old(circuit).len() <= g && final(circuit).has_output(g, j) ==> #[trigger] final(circuit).link(g, j)
                    == wire_dest(Self::spec_wires(old(circuit).len() as int, num_bits as nat), g, j, None),
            match res {
                Ok(gate) => {
                    &&& gate.pins_ok(old(circuit).len() as int, num_bits as nat)
                    &&& complex_fits(&gate.complex_gate, final(circuit).shape(), final(circuit).types())
                    &&& settled_from(*final(circuit), old(circuit).len() as int)
                },
                Err(e) => crate::run_circuit::failure_shown(*final(circuit), e),
            },
    {
        let ghost c0 = *circuit;
        let start = circuit.num_gates();
        let specs = Self::gate_specs(num_bits);
        let wires = Self::gate_wires(start, num_bits);
        let ghost shape = Self::spec_shape(num_bits as nat);
        proof {
            lemma_repeat_len(seq![((1) as nat, (1) as nat), ((1) as nat, (1) as nat)], num_bits as nat);
            assert(num_bits * seq![((1) as nat, (1) as nat), ((1) as nat, (1) as nat)].len() == 2 * num_bits) by (nonlinear_arith) requires seq![((1) as nat, (1) as nat), ((1) as nat, (1) as nat)].len() == 2;
            lemma_repeat_len(seq![GateType::SimpleInputType, GateType::SimpleOutputType], num_bits as nat);
            assert(num_bits * seq![GateType::SimpleInputType, GateType::SimpleOutputType].len() == 2 * num_bits) by (nonlinear_arith) requires seq![GateType::SimpleInputType, GateType::SimpleOutputType].len() == 2;
            assert(spec_shape_of(specs@).len() == specs@.len());
            assert(specs@.len() == 2 * num_bits + 0 * num_bits + 2);
        }
        circuit.add_gates(&specs);
        let ghost c1 = *circuit;
        proof {
            assert forall|k: int| 0 <= k < wires@.len() implies c1.has_output((#[trigger] wires@[k]).0 as int, wires@[k].1 as int)
                && c1.has_input(wires@[k].2 as int, wires@[k].3 as int) by {
                assert(wire_fits(wires@[k], start as int, shape));
            }
        }
        circuit.connect_all(&wires);
        let ghost c2 = *circuit;
        proof {
            lemma_wires_keep_old(c0, c1, c2, wires@, start as int, shape);
            assert(c2.shape().len() == c2.len());
            assert(c0.shape().len() == c0.len());
            assert(c2.len() == start + 2 * num_bits + 0 * num_bits + 2);
        }
        let mut input_gates: Vec<usize> = Vec::new();
        let mut input_tags: Vec<String> = Vec::new();
        let ghost prev_input_gates_B0 = input_gates@;
        let ghost prev_input_tags_B0 = input_tags@;
        let mut q: usize = 0;
        while q < num_bits
            invariant
                q <= num_bits,
                start + 2 * num_bits + 0 * num_bits + 2 < usize::MAX,
                input_gates@ == prev_input_gates_B0 + Seq::new(q as nat, |m: int| (start + 2 * m + 0) as usize),
                input_tags@.len() == prev_input_tags_B0.len() + q,
                forall|m: int| 0 <= m < prev_input_tags_B0.len() ==> (#[trigger] input_tags@[m]) == prev_input_tags_B0[m],
                forall|m: int| prev_input_tags_B0.len() <= m < prev_input_tags_B0.len() + q ==> (#[trigger] input_tags@[m])@ == numbered("i_"@, m - prev_input_tags_B0.len()),
            decreases num_bits - q,
        {
            input_gates.push(start + 2 * q + 0);
            input_tags.push(numbered_tag("i_", q));
            proof {
                assert(input_gates@ =~= prev_input_gates_B0 + Seq::new(q as nat + 1, |m: int| (start + 2 * m + 0) as usize));
            }
            q = q + 1;
        }
        input_gates.push(start + 2 * num_bits + 0 * num_bits + 0);
        input_tags.push("E".to_owned());
        let mut output_gates: Vec<usize> = Vec::new();
        let mut output_tags: Vec<String> = Vec::new();
        let ghost prev_output_gates_B1 = output_gates@;
        let ghost prev_output_tags_B1 = output_tags@;
        let mut q: usize = 0;
        while q < num_bits
            invariant
                q <= num_bits,
                start + 2 * num_bits + 0 * num_bits + 2 < usize::MAX,
                output_gates@ == prev_output_gates_B1 + Seq::new(q as nat, |m: int| (start + 2 * m + 1) as usize),
                output_tags@.len() == prev_output_tags_B1.len() + q,
                forall|m: int| 0 <= m < prev_output_tags_B1.len() ==> (#[trigger] output_tags@[m]) == prev_output_tags_B1[m],
                forall|m: int| prev_output_tags_B1.len() <= m < prev_output_tags_B1.len() + q ==> (#[trigger] output_tags@[m])@ == numbered("o_"@, m - prev_output_tags_B1.len()),
            decreases num_bits - q,
        {
            output_gates.push(start + 2 * q + 1);
            output_tags.push(numbered_tag("o_", q));
            proof {
                assert(output_gates@ =~= prev_output_gates_B1 + Seq::new(q as nat + 1, |m: int| (start + 2 * m + 1) as usize));
            }
            q = q + 1;
        }
        let g = start + 2 * num_bits + 0 * num_bits + 1;
        let control_buffer = ControlledBuffer { gate: g, input_output_num: num_bits, input_num: num_bits + 1, unique_id: circuit.gates[g].members.unique_id };
        proof {
            assert(input_gates@ =~= Seq::new((num_bits as nat), |k: int| ((start as int) + 2 * k + 0) as usize) + seq![((start as int) + 2 * (num_bits as nat) + 0 * (num_bits as nat) + 0) as usize]);
            assert(output_gates@ =~= Seq::new((num_bits as nat), |k: int| ((start as int) + 2 * k + 1) as usize));
        }
        let complex_gate = ComplexGateMembers::from_tags(
            circuit,
            GateType::VariableBitEnableType,
            input_gates,
            output_gates,
            input_tags,
            output_tags,
        );
        let mut complex_gate = complex_gate;
        complex_gate.number_child_gates = 2 * num_bits + 0 * num_bits + 2;
        let gate = VariableBitEnable { complex_gate, control_buffer };
        proof {
            assert(gate.complex_gate.tag_names() =~= Seq::new(num_bits as nat, |k: int| numbered("i_"@, k)) + seq!["E"@] + Seq::new(num_bits as nat, |k: int| numbered("o_"@, k))) by {
                assert(gate.complex_gate.tag_names() =~= Seq::new(input_tags@.len(), |k: int| input_tags@[k]@) + Seq::new(
                    output_tags@.len(),
                    |k: int| output_tags@[k]@,
                ));
            }
            lemma_repeat_len(seq![((1) as nat, (1) as nat), ((1) as nat, (1) as nat)], num_bits as nat);
            assert(num_bits * seq![((1) as nat, (1) as nat), ((1) as nat, (1) as nat)].len() == 2 * num_bits) by (nonlinear_arith) requires seq![((1) as nat, (1) as nat), ((1) as nat, (1) as nat)].len() == 2;
            lemma_repeat_len(seq![GateType::SimpleInputType, GateType::SimpleOutputType], num_bits as nat);
            assert(num_bits * seq![GateType::SimpleInputType, GateType::SimpleOutputType].len() == 2 * num_bits) by (nonlinear_arith) requires seq![GateType::SimpleInputType, GateType::SimpleOutputType].len() == 2;
            assert forall|i: int| 0 <= i < gate.complex_gate.input_gates@.len() implies {
                let g = #[trigger] gate.complex_gate.input_gates@[i] as int;
                0 <= g < c2.shape().len() && c2.shape()[g].0 >= 1 && c2.types()[g] == GateType::SimpleInputType
            } by {
                if 0 <= i < 0 + num_bits { lemma_repeat_index(seq![((1) as nat, (1) as nat), ((1) as nat, (1) as nat)], num_bits as nat, i - (0), 0); lemma_repeat_index(seq![GateType::SimpleInputType, GateType::SimpleOutputType], num_bits as nat, i - (0), 0); assert((i - (0)) * 2 == 2 * (i - (0))); }
                if num_bits <= i < num_bits + 1 {  }
            }
            assert forall|i: int| 0 <= i < gate.complex_gate.output_gates@.len() implies {
                let g = #[trigger] gate.complex_gate.output_gates@[i] as int;
                0 <= g < c2.shape().len() && c2.shape()[g].1 >= 1 && c2.types()[g] == GateType::SimpleOutputType
            } by {
                if 0 <= i < 0 + num_bits { lemma_repeat_index(seq![((1) as nat, (1) as nat), ((1) as nat, (1) as nat)], num_bits as nat, i - (0), 1); lemma_repeat_index(seq![GateType::SimpleInputType, GateType::SimpleOutputType], num_bits as nat, i - (0), 1); assert((i - (0)) * 2 == 2 * (i - (0))); }
            }
            assert(c2.types().len() == c2.shape().len());
        }
        let primed = circuit.prime_from(start);
        proof {
            crate::circuit::lemma_wiring_kept_refl(c2);
            assert(c2.shape().subrange(0, c0.shape().len() as int) =~= c0.shape());
            crate::circuit::lemma_wiring_kept_trans(c0, c2, *circuit);
            crate::circuit::lemma_wire_kept(c2, *circuit);
            assert forall|g: int, j: int| start <= g && circuit.has_output(g, j) implies #[trigger] circuit.link(g, j)
                == wire_dest(Self::spec_wires(start as int, num_bits as nat), g, j, None) by {
                assert(c2.has_output(g, j));
                assert(c1.has_output(g, j));
                assert(c1.link(g, j) is None);
            }
        }
        match primed {
            Ok(()) => Ok(gate),
            Err(e) => Err(e),
        }
    }
}

impl LogicGate for VariableBitEnable {
    open spec fn spec_input_pin(&self, index: int) -> (int, int) {
        (self.complex_gate.input_gates@[index] as int, 0)
    }

    open spec fn spec_output_pin(&self, index: int) -> (int, int) {
        (self.complex_gate.output_gates@[index] as int, 0)
    }

    open spec fn spec_num_inputs(&self) -> nat {
        self.complex_gate.input_gates@.len()
    }

    open spec fn spec_num_outputs(&self) -> nat {
        self.complex_gate.output_gates@.len()
    }

    open spec fn spec_gate_type(&self) -> GateType {
        self.complex_gate.gate_type
    }

    open spec fn spec_unique_id(&self) -> UniqueID {
        self.complex_gate.unique_id
    }

    fn input_pin(&self, index: usize) -> (res: (usize, usize)) {
        (self.complex_gate.input_gates[index], 0)
    }

    fn output_pin(&self, index: usize) -> (res: (usize, usize)) {
        (self.complex_gate.output_gates[index], 0)
    }

    fn num_inputs(&self) -> (res: usize) {
        self.complex_gate.input_gates.len()
    }

    fn num_outputs(&self) -> (res: usize) {
        self.complex_gate.output_gates.len()
    }

    fn get_gate_type(&self) -> (res: GateType) {
        self.complex_gate.gate_type
    }

    fn get_unique_id(&self) -> (res: UniqueID) {
        self.complex_gate.unique_id
    }
}

impl VariableBitEnable {
    /// The input or output index that `tag` names.
    pub fn get_index_from_tag(&self, tag: &str) -> (res: Option<usize>)
        ensures
            res == last_tag_index(self.complex_gate.gate_tags_to_index@, tag@),
    {
        self.complex_gate.get_index_from_tag(tag)
    }

    /// Brings the outputs up to date with what reaches them and returns their states.
    pub fn fetch_output_signals(&self, circuit: &mut Circuit) -> (res: Vec<GateOutputState>)
        requires
            old(circuit).wf(),
            complex_fits(&self.complex_gate, old(circuit).shape(), old(circuit).types()),
        ensures
            final(circuit).wf(),
            final(circuit).shape() == old(circuit).shape(),
            final(circuit).types() == old(circuit).types(),
            old(circuit).wiring_kept(*final(circuit)),
            res@.len() == self.complex_gate.output_gates@.len(),
            forall|i: int| 0 <= i < res@.len() ==> #[trigger] res@[i] == final(circuit).node(self.complex_gate.output_gates@[i] as int).outputs()[0],
    {
        proof {
            assert forall|i: int| 0 <= i < self.complex_gate.output_gates@.len() implies #[trigger] old(circuit).has_output(self.complex_gate.output_gates@[i] as int, 0) by {}
        }
        self.complex_gate.fetch_output_signals_calculate(circuit)
    }

    pub fn get_tag(&self) -> (res: String)
        ensures
            res@ == self.complex_gate.tag@,
    {
        self.complex_gate.tag.clone()
    }

    pub fn set_tag(&mut self, tag: &str)
        ensures
            final(self).complex_gate.tag@ == tag@,
            final(self).complex_gate.input_gates == old(self).complex_gate.input_gates,
            final(self).complex_gate.output_gates == old(self).complex_gate.output_gates,
            final(self).complex_gate.gate_tags_to_index == old(self).complex_gate.gate_tags_to_index,
    {
        self.complex_gate.tag = tag.to_owned();
    }

    pub fn toggle_output_printing(&mut self, print_output: bool)
        ensures
            final(self).complex_gate.should_print_output == print_output,
            final(self).complex_gate.input_gates == old(self).complex_gate.input_gates,
            final(self).complex_gate.output_gates == old(self).complex_gate.output_gates,
    {
        self.complex_gate.should_print_output = print_output;
    }

    /// The number of circuit gates that make up this gate.
    pub fn num_children_gates(&self) -> (res: usize)
        ensures
            res == self.complex_gate.number_child_gates,
    {
        self.complex_gate.number_child_gates
    }
}


/// One bit of a comparator: `C` is `A` XOR `B`; `E` tells that the bits are equal and so were all bits above (`ABOVE_E`); `A_L` tells that `A` is larger, here or above (`ABOVE_L`).
pub struct XOrLE {
    pub complex_gate: ComplexGateMembers,
    pub xor_gate: XOr,
    pub not_gate: Not,
    pub equal_and_gate: And,
    pub middle_and_gate: And,
    pub or_gate: Or,
}

impl XOrLE {
    /// The types of the gates this gate adds, in the order they are added.
    pub open spec fn spec_types() -> Seq<GateType> {
        seq![GateType::SimpleInputType, GateType::SimpleInputType, GateType::SimpleInputType, GateType::SimpleInputType, GateType::SimpleOutputType, GateType::SimpleOutputType, GateType::SimpleOutputType, GateType::XOrType, GateType::NotType, GateType::AndType, GateType::AndType, GateType::OrType]
    }

    /// The numbers of inputs and outputs of those gates.
    pub open spec fn spec_shape() -> Seq<(nat, nat)> {
        seq![(1nat, 2nat), (1nat, 1nat), (1nat, 2nat), (1nat, 1nat), (1nat, 1nat), (1nat, 1nat), (1nat, 1nat), (2nat, 3nat), (1nat, 1nat), (2nat, 1nat), (3nat, 1nat), (2nat, 1nat)]
    }

    /// This gate stands at gates `start..start + 12` of `c`, `A` and `B` feed the XOR, whose negation ANDed with `ABOVE_E` gives `E`; `ABOVE_E`, `A` and the XOR feed the middle AND, which ORed with `ABOVE_L` gives `A_L`; the XOR also gives `C`.
    pub open spec fn wired(&self, c: Circuit, start: int) -> bool {
        &&& self.complex_gate.input_gates@ == seq![(start) as usize, (start + 1) as usize, (start + 2) as usize, (start + 3) as usize]
        &&& self.complex_gate.output_gates@ == seq![(start + 4) as usize, (start + 5) as usize, (start + 6) as usize]
        &&& self.complex_gate.gate_type == GateType::XOrLEType
        &&& c.has_input(start, 0)
        &&& c.has_input(start + 1, 0)
        &&& c.has_input(start + 2, 0)
        &&& c.has_input(start + 3, 0)
        &&& c.has_output(start + 4, 0)
        &&& c.has_output(start + 5, 0)
        &&& c.has_output(start + 6, 0)
        &&& self.xor_gate.gate == start + 7
        &&& self.not_gate.gate == start + 8
        &&& self.equal_and_gate.gate == start + 9
        &&& self.middle_and_gate.gate == start + 10
        &&& self.or_gate.gate == start + 11
        &&& c.wire(start, 0, Some((start + 7, 0int)))
        &&& c.wire(start, 1, Some((start + 10, 1int)))
        &&& c.wire(start + 1, 0, Some((start + 7, 1int)))
        &&& c.wire(start + 7, 0, Some((start + 8, 0int)))
        &&& c.wire(start + 7, 1, Some((start + 10, 2int)))
        &&& c.wire(start + 7, 2, Some((start + 4, 0int)))
        &&& c.wire(start + 8, 0, Some((start + 9, 0int)))
        &&& c.wire(start + 9, 0, Some((start + 5, 0int)))
        &&& c.wire(start + 2, 0, Some((start + 10, 0int)))
        &&& c.wire(start + 2, 1, Some((start + 9, 1int)))
        &&& c.wire(start + 10, 0, Some((start + 11, 0int)))
        &&& c.wire(start + 3, 0, Some((start + 11, 1int)))
        &&& c.wire(start + 11, 0, Some((start + 6, 0int)))
    }

    /// The wiring of this gate stays as long as the outputs of its gates, but for `C`, `E` and
    /// `A_L`, keep their links.
    pub proof fn lemma_wired_kept(&self, c1: Circuit, c2: Circuit, start: int)
        requires
            self.wired(c1, start),
            c2.shape() == c1.shape(),
            forall|g: int, j: int| (start <= g < start + 4 || start + 7 <= g < start + 12) && c1.has_output(g, j)
                ==> #[trigger] c2.link(g, j) == c1.link(g, j),
        ensures
            self.wired(c2, start),
    {
        assert(c2.link(start, 0) == c1.link(start, 0));
        assert(c2.link(start, 1) == c1.link(start, 1));
        assert(c2.link(start + 1, 0) == c1.link(start + 1, 0));
        assert(c2.link(start + 2, 0) == c1.link(start + 2, 0));
        assert(c2.link(start + 2, 1) == c1.link(start + 2, 1));
        assert(c2.link(start + 3, 0) == c1.link(start + 3, 0));
        assert(c2.link(start + 7, 0) == c1.link(start + 7, 0));
        assert(c2.link(start + 7, 1) == c1.link(start + 7, 1));
        assert(c2.link(start + 7, 2) == c1.link(start + 7, 2));
        assert(c2.link(start + 8, 0) == c1.link(start + 8, 0));
        assert(c2.link(start + 9, 0) == c1.link(start + 9, 0));
        assert(c2.link(start + 10, 0) == c1.link(start + 10, 0));
        assert(c2.link(start + 11, 0) == c1.link(start + 11, 0));
    }

    /// Each inner input of this comparator holds a single entry, sent by whichever gate is
    /// wired to it.
    pub open spec fn fed(&self, c: Circuit, start: int) -> bool {
        &&& c.fed_by(start + 7, 0, c.node(start).members.unique_id)
        &&& c.fed_by(start + 10, 1, c.node(start).members.unique_id)
        &&& c.fed_by(start + 7, 1, c.node(start + 1).members.unique_id)
        &&& c.fed_by(start + 8, 0, c.node(start + 7).members.unique_id)
        &&& c.fed_by(start + 10, 2, c.node(start + 7).members.unique_id)
        &&& c.fed_by(start + 4, 0, c.node(start + 7).members.unique_id)
        &&& c.fed_by(start + 9, 0, c.node(start + 8).members.unique_id)
        &&& c.fed_by(start + 5, 0, c.node(start + 9).members.unique_id)
        &&& c.fed_by(start + 10, 0, c.node(start + 2).members.unique_id)
        &&& c.fed_by(start + 9, 1, c.node(start + 2).members.unique_id)
        &&& c.fed_by(start + 11, 0, c.node(start + 10).members.unique_id)
        &&& c.fed_by(start + 11, 1, c.node(start + 3).members.unique_id)
        &&& c.fed_by(start + 6, 0, c.node(start + 11).members.unique_id)
    }

    /// Nothing but the wires of this comparator reaches its inner inputs.
    pub open spec fn sole_senders(&self, c: Circuit, start: int) -> bool {
        &&& c.sole_sender(start + 7, 0, c.node(start).members.unique_id)
        &&& c.sole_sender(start + 10, 1, c.node(start).members.unique_id)
        &&& c.sole_sender(start + 7, 1, c.node(start + 1).members.unique_id)
        &&& c.sole_sender(start + 8, 0, c.node(start + 7).members.unique_id)
        &&& c.sole_sender(start + 10, 2, c.node(start + 7).members.unique_id)
        &&& c.sole_sender(start + 4, 0, c.node(start + 7).members.unique_id)
        &&& c.sole_sender(start + 9, 0, c.node(start + 8).members.unique_id)
        &&& c.sole_sender(start + 5, 0, c.node(start + 9).members.unique_id)
        &&& c.sole_sender(start + 10, 0, c.node(start + 2).members.unique_id)
        &&& c.sole_sender(start + 9, 1, c.node(start + 2).members.unique_id)
        &&& c.sole_sender(start + 11, 0, c.node(start + 10).members.unique_id)
        &&& c.sole_sender(start + 11, 1, c.node(start + 3).members.unique_id)
        &&& c.sole_sender(start + 6, 0, c.node(start + 11).members.unique_id)
    }

    /// Right after it is built, only its own wires reach the inner inputs of a comparator.
    #[verifier::rlimit(40)]
    pub proof fn lemma_sole_senders(&self, c0: Circuit, c: Circuit, start: int)
        requires
            c0.wf(),
            c.wf(),
            start == c0.len(),
            c.shape() == c0.shape() + Self::spec_shape(),
            c0.wiring_kept(c),
            self.built(c, start),
        ensures
            self.sole_senders(c, start),
    {
        assert(c0.shape().len() == c0.len());
        assert forall|g: int, j: int| #[trigger] c.has_output(g, j) implies {
            ||| c.link(g, j) is None
            ||| (c.link(g, j) matches Some(d) && d.0 < start)
            ||| (g == start + 0 && j == 0 && c.link(g, j) == Some((start + 7, 0int)))
            ||| (g == start + 0 && j == 1 && c.link(g, j) == Some((start + 10, 1int)))
            ||| (g == start + 1 && j == 0 && c.link(g, j) == Some((start + 7, 1int)))
            ||| (g == start + 7 && j == 0 && c.link(g, j) == Some((start + 8, 0int)))
            ||| (g == start + 7 && j == 1 && c.link(g, j) == Some((start + 10, 2int)))
            ||| (g == start + 7 && j == 2 && c.link(g, j) == Some((start + 4, 0int)))
            ||| (g == start + 8 && j == 0 && c.link(g, j) == Some((start + 9, 0int)))
            ||| (g == start + 9 && j == 0 && c.link(g, j) == Some((start + 5, 0int)))
            ||| (g == start + 2 && j == 0 && c.link(g, j) == Some((start + 10, 0int)))
            ||| (g == start + 2 && j == 1 && c.link(g, j) == Some((start + 9, 1int)))
            ||| (g == start + 10 && j == 0 && c.link(g, j) == Some((start + 11, 0int)))
            ||| (g == start + 3 && j == 0 && c.link(g, j) == Some((start + 11, 1int)))
            ||| (g == start + 11 && j == 0 && c.link(g, j) == Some((start + 6, 0int)))
        } by {
            if g < start {
                assert(c.shape()[g] == c0.shape()[g]);
                assert(c0.has_output(g, j));
                assert(c.link(g, j) == c0.link(g, j));
                assert(c0.connections_wf(g));
                if let GateOutputState::Connected(co) = c0.node(g).outputs()[j] {
                    assert(c0.has_input(co.gate as int, co.throughput.input_index as int));
                }
            } else {
                assert(c.shape()[g] == Self::spec_shape()[g - start]);
            }
        }
        assert forall|g: int, j: int| c.has_output(g, j) && #[trigger] c.link(g, j) == Some((start + 7, 0int)) implies c.node(g).members.unique_id == c.node(start + 0).members.unique_id by {}
        assert forall|g: int, j: int| c.has_output(g, j) && #[trigger] c.link(g, j) == Some((start + 10, 1int)) implies c.node(g).members.unique_id == c.node(start + 0).members.unique_id by {}
        assert forall|g: int, j: int| c.has_output(g, j) && #[trigger] c.link(g, j) == Some((start + 7, 1int)) implies c.node(g).members.unique_id == c.node(start + 1).members.unique_id by {}
        assert forall|g: int, j: int| c.has_output(g, j) && #[trigger] c.link(g, j) == Some((start + 8, 0int)) implies c.node(g).members.unique_id == c.node(start + 7).members.unique_id by {}
        assert forall|g: int, j: int| c.has_output(g, j) && #[trigger] c.link(g, j) == Some((start + 10, 2int)) implies c.node(g).members.unique_id == c.node(start + 7).members.unique_id by {}
        assert forall|g: int, j: int| c.has_output(g, j) && #[trigger] c.link(g, j) == Some((start + 4, 0int)) implies c.node(g).members.unique_id == c.node(start + 7).members.unique_id by {}
        assert forall|g: int, j: int| c.has_output(g, j) && #[trigger] c.link(g, j) == Some((start + 9, 0int)) implies c.node(g).members.unique_id == c.node(start + 8).members.unique_id by {}
        assert forall|g: int, j: int| c.has_output(g, j) && #[trigger] c.link(g, j) == Some((start + 5, 0int)) implies c.node(g).members.unique_id == c.node(start + 9).members.unique_id by {}
        assert forall|g: int, j: int| c.has_output(g, j) && #[trigger] c.link(g, j) == Some((start + 10, 0int)) implies c.node(g).members.unique_id == c.node(start + 2).members.unique_id by {}
        assert forall|g: int, j: int| c.has_output(g, j) && #[trigger] c.link(g, j) == Some((start + 9, 1int)) implies c.node(g).members.unique_id == c.node(start + 2).members.unique_id by {}
        assert forall|g: int, j: int| c.has_output(g, j) && #[trigger] c.link(g, j) == Some((start + 11, 0int)) implies c.node(g).members.unique_id == c.node(start + 10).members.unique_id by {}
        assert forall|g: int, j: int| c.has_output(g, j) && #[trigger] c.link(g, j) == Some((start + 11, 1int)) implies c.node(g).members.unique_id == c.node(start + 3).members.unique_id by {}
        assert forall|g: int, j: int| c.has_output(g, j) && #[trigger] c.link(g, j) == Some((start + 6, 0int)) implies c.node(g).members.unique_id == c.node(start + 11).members.unique_id by {}
    }

    /// At rest, a one-bit comparator computes: where nothing but its own wires reaches its
    /// inner inputs and its pins `A`, `B`, `ABOVE_E`, `ABOVE_L` see `a`, `b`, `ae`, `al`,
    /// output `C` carries `a` XOR `b`; `E` carries NOT(`a` XOR `b`) AND `ae`; and `A_L`
    /// carries (`ae` AND `a` AND (`a` XOR `b`)) OR `al`.
    #[verifier::rlimit(40)]
    pub proof fn lemma_computes(&self, c: Circuit, start: int, a: Signal, b: Signal, ae: Signal, al: Signal)
        requires
            c.wf(),
            self.wired(c, start),
            c.types().subrange(start, start + 12) == Self::spec_types(),
            c.shape().subrange(start, start + 12) == Self::spec_shape(),
            self.fed(c, start),
            forall|g: int| start <= g < start + 12 ==> #[trigger] c.gate_settled(g),
            spec_resolve(c.node(start).inputs()[0]) == Ok::<Signal, GateLogicError>(a),
            spec_resolve(c.node(start + 1).inputs()[0]) == Ok::<Signal, GateLogicError>(b),
            spec_resolve(c.node(start + 2).inputs()[0]) == Ok::<Signal, GateLogicError>(ae),
            spec_resolve(c.node(start + 3).inputs()[0]) == Ok::<Signal, GateLogicError>(al),
        ensures
            c.node(start + 4).current(0) == spec_xor(seq![a, b]),
            c.node(start + 5).current(0) == spec_and(seq![spec_not(seq![spec_xor(seq![a, b])]), ae]),
            c.node(start + 6).current(0) == spec_or(seq![spec_and(seq![ae, a, spec_xor(seq![a, b])]), al]),
    {
        let tys = c.types().subrange(start, start + 12);
        let shp = c.shape().subrange(start, start + 12);
        assert forall|k: int| 0 <= k < 12 implies #[trigger] c.types()[start + k] == tys[k] && c.shape()[start + k] == shp[k] by {}
        assert(c.types()[start] == tys[0] && c.shape()[start] == shp[0]);
        assert(c.types()[start + 1] == tys[1] && c.shape()[start + 1] == shp[1]);
        assert(c.types()[start + 2] == tys[2] && c.shape()[start + 2] == shp[2]);
        assert(c.types()[start + 3] == tys[3] && c.shape()[start + 3] == shp[3]);
        assert(c.types()[start + 4] == tys[4] && c.shape()[start + 4] == shp[4]);
        assert(c.types()[start + 5] == tys[5] && c.shape()[start + 5] == shp[5]);
        assert(c.types()[start + 6] == tys[6] && c.shape()[start + 6] == shp[6]);
        assert(c.types()[start + 7] == tys[7] && c.shape()[start + 7] == shp[7]);
        assert(c.types()[start + 8] == tys[8] && c.shape()[start + 8] == shp[8]);
        assert(c.types()[start + 9] == tys[9] && c.shape()[start + 9] == shp[9]);
        assert(c.types()[start + 10] == tys[10] && c.shape()[start + 10] == shp[10]);
        assert(c.types()[start + 11] == tys[11] && c.shape()[start + 11] == shp[11]);
        let pa = c.node(start);
        let pb = c.node(start + 1);
        let pe = c.node(start + 2);
        let pl = c.node(start + 3);
        assert(pa.inputs().len() == pa.members.input_signals@.len());
        assert(pb.inputs().len() == pb.members.input_signals@.len());
        assert(pe.inputs().len() == pe.members.input_signals@.len());
        assert(pl.inputs().len() == pl.members.input_signals@.len());
        crate::circuit::lemma_one_input(pa.inputs(), a);
        crate::circuit::lemma_one_input(pb.inputs(), b);
        crate::circuit::lemma_one_input(pe.inputs(), ae);
        crate::circuit::lemma_one_input(pl.inputs(), al);
        assert(c.gate_settled(start));
        assert(c.gate_settled(start + 1));
        assert(c.gate_settled(start + 2));
        assert(c.gate_settled(start + 3));
        assert(last_conn(pa.outputs(), 1, start + 7, 0) == 0);
        assert(last_conn(pa.outputs(), 2, start + 7, 0) == 0);
        assert(last_conn(pa.outputs(), 2, start + 10, 1) == 1);
        assert(last_conn(pb.outputs(), 1, start + 7, 1) == 0);
        assert(last_conn(pe.outputs(), 1, start + 10, 0) == 0);
        assert(last_conn(pe.outputs(), 2, start + 10, 0) == 0);
        assert(last_conn(pe.outputs(), 2, start + 9, 1) == 1);
        assert(last_conn(pl.outputs(), 1, start + 11, 1) == 0);
        crate::circuit::lemma_fed_value(c, start, 0, start + 7, 0);
        crate::circuit::lemma_fed_value(c, start, 1, start + 10, 1);
        crate::circuit::lemma_fed_value(c, start + 1, 0, start + 7, 1);
        crate::circuit::lemma_fed_value(c, start + 2, 0, start + 10, 0);
        crate::circuit::lemma_fed_value(c, start + 2, 1, start + 9, 1);
        crate::circuit::lemma_fed_value(c, start + 3, 0, start + 11, 1);
        let x = c.node(start + 7);
        assert(x.inputs().len() == x.members.input_signals@.len());
        crate::circuit::lemma_two_inputs(x.inputs(), a, b);
        assert(c.gate_settled(start + 7));
        let xv = spec_xor(seq![a, b]);
        assert(x.current(0) == xv && x.current(1) == xv && x.current(2) == xv);
        assert(last_conn(x.outputs(), 1, start + 8, 0) == 0);
        assert(last_conn(x.outputs(), 2, start + 8, 0) == 0);
        assert(last_conn(x.outputs(), 3, start + 8, 0) == 0);
        assert(last_conn(x.outputs(), 2, start + 10, 2) == 1);
        assert(last_conn(x.outputs(), 3, start + 10, 2) == 1);
        assert(last_conn(x.outputs(), 3, start + 4, 0) == 2);
        crate::circuit::lemma_fed_value(c, start + 7, 0, start + 8, 0);
        crate::circuit::lemma_fed_value(c, start + 7, 1, start + 10, 2);
        crate::circuit::lemma_fed_value(c, start + 7, 2, start + 4, 0);
        let nt = c.node(start + 8);
        assert(nt.inputs().len() == nt.members.input_signals@.len());
        crate::circuit::lemma_one_input(nt.inputs(), xv);
        assert(c.gate_settled(start + 8));
        assert(last_conn(nt.outputs(), 1, start + 9, 0) == 0);
        crate::circuit::lemma_fed_value(c, start + 8, 0, start + 9, 0);
        let ea = c.node(start + 9);
        assert(ea.inputs().len() == ea.members.input_signals@.len());
        crate::circuit::lemma_two_inputs(ea.inputs(), nt.current(0), ae);
        assert(c.gate_settled(start + 9));
        let ma = c.node(start + 10);
        assert(ma.inputs().len() == ma.members.input_signals@.len());
        crate::circuit::lemma_three_inputs(ma.inputs(), ae, a, xv);
        assert(c.gate_settled(start + 10));
        assert(last_conn(ma.outputs(), 1, start + 11, 0) == 0);
        crate::circuit::lemma_fed_value(c, start + 10, 0, start + 11, 0);
        let o = c.node(start + 11);
        assert(o.inputs().len() == o.members.input_signals@.len());
        crate::circuit::lemma_two_inputs(o.inputs(), ma.current(0), al);
        assert(c.gate_settled(start + 11));
        assert(last_conn(ea.outputs(), 1, start + 5, 0) == 0);
        assert(last_conn(o.outputs(), 1, start + 6, 0) == 0);
        crate::circuit::lemma_fed_value(c, start + 9, 0, start + 5, 0);
        crate::circuit::lemma_fed_value(c, start + 11, 0, start + 6, 0);
        let oc = c.node(start + 4);
        let oe = c.node(start + 5);
        let ol = c.node(start + 6);
        assert(oc.inputs().len() == oc.members.input_signals@.len());
        assert(oe.inputs().len() == oe.members.input_signals@.len());
        assert(ol.inputs().len() == ol.members.input_signals@.len());
        crate::circuit::lemma_one_input(oc.inputs(), xv);
        crate::circuit::lemma_one_input(oe.inputs(), ea.current(0));
        crate::circuit::lemma_one_input(ol.inputs(), o.current(0));
        assert(c.gate_settled(start + 4));
        assert(c.gate_settled(start + 5));
        assert(c.gate_settled(start + 6));
    }

    /// Wired as above, with the outputs not yet connected and the tags in place.
    pub open spec fn built(&self, c: Circuit, start: int) -> bool {
        &&& self.wired(c, start)
        &&& c.wire(start + 4, 0, None)
        &&& c.wire(start + 5, 0, None)
        &&& c.wire(start + 6, 0, None)
        &&& self.complex_gate.tag_names() == seq!["A"@, "B"@, "ABOVE_E"@, "ABOVE_L"@, "C"@, "E"@, "A_L"@]
        &&& self.complex_gate.tags_laid_out()
    }

    /// Adds the gates of this gate to the circuit and wires them, without priming.
    #[verifier::spinoff_prover]
    #[verifier::rlimit(80)]
    pub fn build(circuit: &mut Circuit) -> (res: Self)
        requires
            old(circuit).wf(),
            old(circuit).len() + 12 < usize::MAX,
        ensures
            final(circuit).wf(),
            final(circuit).shape() == old(circuit).shape() + Self::spec_shape(),
            final(circuit).types() == old(circuit).types() + Self::spec_types(),
            final(circuit).clock_tick_number == old(circuit).clock_tick_number,
            old(circuit).wiring_kept(*final(circuit)),
            forall|g: int, j: int, d: Option<(int, int)>| old(circuit).wire(g, j, d) ==> #[trigger] final(circuit).wire(g, j, d),
            res.built(*final(circuit), old(circuit).len() as int),
            res.fed(*final(circuit), old(circuit).len() as int),
    {
        let ghost c0 = *circuit;
        let start = circuit.num_gates();
        let a = SimpleInput::new(circuit, 2, "A");
        let ghost c1 = *circuit;
        let b = SimpleInput::new(circuit, 1, "B");
        let ghost c2 = *circuit;
        let above_e = SimpleInput::new(circuit, 2, "ABOVE_E");
        let ghost c3 = *circuit;
        let above_l = SimpleInput::new(circuit, 1, "ABOVE_L");
        let ghost c4 = *circuit;
        let c = SimpleOutput::new(circuit, "C");
        let ghost c5 = *circuit;
        let e = SimpleOutput::new(circuit, "E");
        let ghost c6 = *circuit;
        let a_l = SimpleOutput::new(circuit, "A_L");
        let ghost c7 = *circuit;
        let mut inputs: Vec<usize> = Vec::new();
        inputs.push(a.gate);
        inputs.push(b.gate);
        inputs.push(above_e.gate);
        inputs.push(above_l.gate);
        let mut outputs: Vec<usize> = Vec::new();
        outputs.push(c.gate);
        outputs.push(e.gate);
        outputs.push(a_l.gate);
        proof {
            assert(c0.shape().len() == c0.len());
            assert(c1.shape().len() == c1.len());
            assert(c2.shape().len() == c2.len());
            assert(c3.shape().len() == c3.len());
            assert(c4.shape().len() == c4.len());
            assert(c5.shape().len() == c5.len());
            assert(c6.shape().len() == c6.len());
            assert(c7.shape().len() == c7.len());
            assert(inputs@ =~= seq![(start) as usize, (start + 1) as usize, (start + 2) as usize, (start + 3) as usize]);
            assert(outputs@ =~= seq![(start + 4) as usize, (start + 5) as usize, (start + 6) as usize]);
            assert(c2.gates@.drop_last()[(start) as int] == c2.gates@[(start) as int]);
            assert(c3.gates@.drop_last()[(start) as int] == c3.gates@[(start) as int]);
            assert(c4.gates@.drop_last()[(start) as int] == c4.gates@[(start) as int]);
            assert(c5.gates@.drop_last()[(start) as int] == c5.gates@[(start) as int]);
            assert(c6.gates@.drop_last()[(start) as int] == c6.gates@[(start) as int]);
            assert(c7.gates@.drop_last()[(start) as int] == c7.gates@[(start) as int]);
            assert(c3.gates@.drop_last()[(start + 1) as int] == c3.gates@[(start + 1) as int]);
            assert(c4.gates@.drop_last()[(start + 1) as int] == c4.gates@[(start + 1) as int]);
            assert(c5.gates@.drop_last()[(start + 1) as int] == c5.gates@[(start + 1) as int]);
            assert(c6.gates@.drop_last()[(start + 1) as int] == c6.gates@[(start + 1) as int]);
            assert(c7.gates@.drop_last()[(start + 1) as int] == c7.gates@[(start + 1) as int]);
            assert(c4.gates@.drop_last()[(start + 2) as int] == c4.gates@[(start + 2) as int]);
            assert(c5.gates@.drop_last()[(start + 2) as int] == c5.gates@[(start + 2) as int]);
            assert(c6.gates@.drop_last()[(start + 2) as int] == c6.gates@[(start + 2) as int]);
            assert(c7.gates@.drop_last()[(start + 2) as int] == c7.gates@[(start + 2) as int]);
            assert(c5.gates@.drop_last()[(start + 3) as int] == c5.gates@[(start + 3) as int]);
            assert(c6.gates@.drop_last()[(start + 3) as int] == c6.gates@[(start + 3) as int]);
            assert(c7.gates@.drop_last()[(start + 3) as int] == c7.gates@[(start + 3) as int]);
            assert(c6.gates@.drop_last()[(start + 4) as int] == c6.gates@[(start + 4) as int]);
            assert(c7.gates@.drop_last()[(start + 4) as int] == c7.gates@[(start + 4) as int]);
            assert(c7.gates@.drop_last()[(start + 5) as int] == c7.gates@[(start + 5) as int]);
        }
        let complex_gate = ComplexGateMembers::new(circuit, GateType::XOrLEType, inputs, outputs);
        let xor_gate = XOr::new(circuit, 2, 3);
        let ghost x1 = *circuit;
        let not_gate = Not::new(circuit, 1);
        let ghost x2 = *circuit;
        let equal_and_gate = And::new(circuit, 2, 1);
        let ghost x3 = *circuit;
        let middle_and_gate = And::new(circuit, 3, 1);
        let ghost x4 = *circuit;
        let or_gate = Or::new(circuit, 2, 1);
        let ghost c_end = *circuit;
        proof {
            assert(c_end.shape() =~= c0.shape() + Self::spec_shape());
            assert(c_end.types() =~= c0.types() + Self::spec_types());
            assert(complex_gate.tag_names() =~= seq!["A"@, "B"@, "ABOVE_E"@, "ABOVE_L"@, "C"@, "E"@, "A_L"@]);
        }
        let r1 = circuit.connect(start, 0, start + 7, 0);
        let ghost k1 = *circuit;
        let r2 = circuit.connect(start, 1, start + 10, 1);
        let ghost k2 = *circuit;
        let r3 = circuit.connect(start + 1, 0, start + 7, 1);
        let ghost k3 = *circuit;
        let r4 = circuit.connect(start + 7, 0, start + 8, 0);
        let ghost k4 = *circuit;
        let r5 = circuit.connect(start + 7, 1, start + 10, 2);
        let ghost k5 = *circuit;
        let r6 = circuit.connect(start + 7, 2, start + 4, 0);
        let ghost k6 = *circuit;
        let r7 = circuit.connect(start + 8, 0, start + 9, 0);
        let ghost k7 = *circuit;
        let r8 = circuit.connect(start + 9, 0, start + 5, 0);
        let ghost k8 = *circuit;
        let r9 = circuit.connect(start + 2, 0, start + 10, 0);
        let ghost k9 = *circuit;
        let r10 = circuit.connect(start + 2, 1, start + 9, 1);
        let ghost k10 = *circuit;
        let r11 = circuit.connect(start + 10, 0, start + 11, 0);
        let ghost k11 = *circuit;
        let r12 = circuit.connect(start + 3, 0, start + 11, 1);
        let ghost k12 = *circuit;
        let r13 = circuit.connect(start + 11, 0, start + 6, 0);
        proof {
            reveal(crate::circuit::inputs_after_connect);
            let z = seq![(crate::logic::foundations::zero_uid(), Signal::LOW_)];
            assert(c6.gates@.drop_last()[start + 4] == c6.gates@[start + 4]);
            assert(c7.gates@.drop_last()[start + 4] == c7.gates@[start + 4]);
            assert(x1.gates@.drop_last()[start + 4] == x1.gates@[start + 4]);
            assert(x2.gates@.drop_last()[start + 4] == x2.gates@[start + 4]);
            assert(x3.gates@.drop_last()[start + 4] == x3.gates@[start + 4]);
            assert(x4.gates@.drop_last()[start + 4] == x4.gates@[start + 4]);
            assert(c_end.gates@.drop_last()[start + 4] == c_end.gates@[start + 4]);
            assert(c7.gates@.drop_last()[start + 5] == c7.gates@[start + 5]);
            assert(x1.gates@.drop_last()[start + 5] == x1.gates@[start + 5]);
            assert(x2.gates@.drop_last()[start + 5] == x2.gates@[start + 5]);
            assert(x3.gates@.drop_last()[start + 5] == x3.gates@[start + 5]);
            assert(x4.gates@.drop_last()[start + 5] == x4.gates@[start + 5]);
            assert(c_end.gates@.drop_last()[start + 5] == c_end.gates@[start + 5]);
            assert(x1.gates@.drop_last()[start + 6] == x1.gates@[start + 6]);
            assert(x2.gates@.drop_last()[start + 6] == x2.gates@[start + 6]);
            assert(x3.gates@.drop_last()[start + 6] == x3.gates@[start + 6]);
            assert(x4.gates@.drop_last()[start + 6] == x4.gates@[start + 6]);
            assert(c_end.gates@.drop_last()[start + 6] == c_end.gates@[start + 6]);
            assert(x2.gates@.drop_last()[start + 7] == x2.gates@[start + 7]);
            assert(x3.gates@.drop_last()[start + 7] == x3.gates@[start + 7]);
            assert(x4.gates@.drop_last()[start + 7] == x4.gates@[start + 7]);
            assert(c_end.gates@.drop_last()[start + 7] == c_end.gates@[start + 7]);
            assert(x3.gates@.drop_last()[start + 8] == x3.gates@[start + 8]);
            assert(x4.gates@.drop_last()[start + 8] == x4.gates@[start + 8]);
            assert(c_end.gates@.drop_last()[start + 8] == c_end.gates@[start + 8]);
            assert(x4.gates@.drop_last()[start + 9] == x4.gates@[start + 9]);
            assert(c_end.gates@.drop_last()[start + 9] == c_end.gates@[start + 9]);
            assert(c_end.gates@.drop_last()[start + 10] == c_end.gates@[start + 10]);
            assert(c_end.node(start + 4).inputs()[0] == z);
            assert(c_end.node(start + 5).inputs()[0] == z);
            assert(c_end.node(start + 6).inputs()[0] == z);
            assert(c_end.node(start + 7).inputs()[0] == z);
            assert(c_end.node(start + 7).inputs()[1] == z);
            assert(c_end.node(start + 8).inputs()[0] == z);
            assert(c_end.node(start + 9).inputs()[0] == z);
            assert(c_end.node(start + 9).inputs()[1] == z);
            assert(c_end.node(start + 10).inputs()[0] == z);
            assert(c_end.node(start + 10).inputs()[1] == z);
            assert(c_end.node(start + 10).inputs()[2] == z);
            assert(c_end.node(start + 11).inputs()[0] == z);
            assert(c_end.node(start + 11).inputs()[1] == z);
            assert(c_end.node(start as int).members.unique_id.id == start + 1);
            crate::circuit::lemma_connect_fresh(UniqueID { id: (start + 1) as usize }, r1);
            assert(k1.node(start + 7).inputs()[0] == seq![(UniqueID { id: (start + 1) as usize }, r1)]);
            assert(k2.node(start + 7).inputs()[0] == seq![(UniqueID { id: (start + 1) as usize }, r1)]);
            assert(k3.node(start + 7).inputs()[0] == seq![(UniqueID { id: (start + 1) as usize }, r1)]);
            assert(k4.node(start + 7).inputs()[0] == seq![(UniqueID { id: (start + 1) as usize }, r1)]);
            assert(k5.node(start + 7).inputs()[0] == seq![(UniqueID { id: (start + 1) as usize }, r1)]);
            assert(k6.node(start + 7).inputs()[0] == seq![(UniqueID { id: (start + 1) as usize }, r1)]);
            assert(k7.node(start + 7).inputs()[0] == seq![(UniqueID { id: (start + 1) as usize }, r1)]);
            assert(k8.node(start + 7).inputs()[0] == seq![(UniqueID { id: (start + 1) as usize }, r1)]);
            assert(k9.node(start + 7).inputs()[0] == seq![(UniqueID { id: (start + 1) as usize }, r1)]);
            assert(k10.node(start + 7).inputs()[0] == seq![(UniqueID { id: (start + 1) as usize }, r1)]);
            assert(k11.node(start + 7).inputs()[0] == seq![(UniqueID { id: (start + 1) as usize }, r1)]);
            assert(k12.node(start + 7).inputs()[0] == seq![(UniqueID { id: (start + 1) as usize }, r1)]);
            assert(circuit.node(start + 7).inputs()[0] == seq![(UniqueID { id: (start + 1) as usize }, r1)]);
            assert(k1.node(start + 10).inputs()[1] == z);
            assert(k1.node(start as int).members.unique_id.id == start + 1);
            crate::circuit::lemma_connect_fresh(UniqueID { id: (start + 1) as usize }, r2);
            assert(k2.node(start + 10).inputs()[1] == seq![(UniqueID { id: (start + 1) as usize }, r2)]);
            assert(k3.node(start + 10).inputs()[1] == seq![(UniqueID { id: (start + 1) as usize }, r2)]);
            assert(k4.node(start + 10).inputs()[1] == seq![(UniqueID { id: (start + 1) as usize }, r2)]);
            assert(k5.node(start + 10).inputs()[1] == seq![(UniqueID { id: (start + 1) as usize }, r2)]);
            assert(k6.node(start + 10).inputs()[1] == seq![(UniqueID { id: (start + 1) as usize }, r2)]);
            assert(k7.node(start + 10).inputs()[1] == seq![(UniqueID { id: (start + 1) as usize }, r2)]);
            assert(k8.node(start + 10).inputs()[1] == seq![(UniqueID { id: (start + 1) as usize }, r2)]);
            assert(k9.node(start + 10).inputs()[1] == seq![(UniqueID { id: (start + 1) as usize }, r2)]);
            assert(k10.node(start + 10).inputs()[1] == seq![(UniqueID { id: (start + 1) as usize }, r2)]);
            assert(k11.node(start + 10).inputs()[1] == seq![(UniqueID { id: (start + 1) as usize }, r2)]);
            assert(k12.node(start + 10).inputs()[1] == seq![(UniqueID { id: (start + 1) as usize }, r2)]);
            assert(circuit.node(start + 10).inputs()[1] == seq![(UniqueID { id: (start + 1) as usize }, r2)]);
            assert(k1.node(start + 7).inputs()[1] == z);
            assert(k2.node(start + 7).inputs()[1] == z);
            assert(k2.node(start + 1).members.unique_id.id == start + 2);
            crate::circuit::lemma_connect_fresh(UniqueID { id: (start + 2) as usize }, r3);
            assert(k3.node(start + 7).inputs()[1] == seq![(UniqueID { id: (start + 2) as usize }, r3)]);
            assert(k4.node(start + 7).inputs()[1] == seq![(UniqueID { id: (start + 2) as usize }, r3)]);
            assert(k5.node(start + 7).inputs()[1] == seq![(UniqueID { id: (start + 2) as usize }, r3)]);
            assert(k6.node(start + 7).inputs()[1] == seq![(UniqueID { id: (start + 2) as usize }, r3)]);
            assert(k7.node(start + 7).inputs()[1] == seq![(UniqueID { id: (start + 2) as usize }, r3)]);
            assert(k8.node(start + 7).inputs()[1] == seq![(UniqueID { id: (start + 2) as usize }, r3)]);
            assert(k9.node(start + 7).inputs()[1] == seq![(UniqueID { id: (start + 2) as usize }, r3)]);
            assert(k10.node(start + 7).inputs()[1] == seq![(UniqueID { id: (start + 2) as usize }, r3)]);
            assert(k11.node(start + 7).inputs()[1] == seq![(UniqueID { id: (start + 2) as usize }, r3)]);
            assert(k12.node(start + 7).inputs()[1] == seq![(UniqueID { id: (start + 2) as usize }, r3)]);
            assert(circuit.node(start + 7).inputs()[1] == seq![(UniqueID { id: (start + 2) as usize }, r3)]);
            assert(k1.node(start + 8).inputs()[0] == z);
            assert(k2.node(start + 8).inputs()[0] == z);
            assert(k3.node(start + 8).inputs()[0] == z);
            assert(k3.node(start + 7).members.unique_id.id == start + 8);
            crate::circuit::lemma_connect_fresh(UniqueID { id: (start + 8) as usize }, r4);
            assert(k4.node(start + 8).inputs()[0] == seq![(UniqueID { id: (start + 8) as usize }, r4)]);
            assert(k5.node(start + 8).inputs()[0] == seq![(UniqueID { id: (start + 8) as usize }, r4)]);
            assert(k6.node(start + 8).inputs()[0] == seq![(UniqueID { id: (start + 8) as usize }, r4)]);
            assert(k7.node(start + 8).inputs()[0] == seq![(UniqueID { id: (start + 8) as usize }, r4)]);
            assert(k8.node(start + 8).inputs()[0] == seq![(UniqueID { id: (start + 8) as usize }, r4)]);
            assert(k9.node(start + 8).inputs()[0] == seq![(UniqueID { id: (start + 8) as usize }, r4)]);
            assert(k10.node(start + 8).inputs()[0] == seq![(UniqueID { id: (start + 8) as usize }, r4)]);
            assert(k11.node(start + 8).inputs()[0] == seq![(UniqueID { id: (start + 8) as usize }, r4)]);
            assert(k12.node(start + 8).inputs()[0] == seq![(UniqueID { id: (start + 8) as usize }, r4)]);
            assert(circuit.node(start + 8).inputs()[0] == seq![(UniqueID { id: (start + 8) as usize }, r4)]);
            assert(k1.node(start + 10).inputs()[2] == z);
            assert(k2.node(start + 10).inputs()[2] == z);
            assert(k3.node(start + 10).inputs()[2] == z);
            assert(k4.node(start + 10).inputs()[2] == z);
            assert(k4.node(start + 7).members.unique_id.id == start + 8);
            crate::circuit::lemma_connect_fresh(UniqueID { id: (start + 8) as usize }, r5);
            assert(k5.node(start + 10).inputs()[2] == seq![(UniqueID { id: (start + 8) as usize }, r5)]);
            assert(k6.node(start + 10).inputs()[2] == seq![(UniqueID { id: (start + 8) as usize }, r5)]);
            assert(k7.node(start + 10).inputs()[2] == seq![(UniqueID { id: (start + 8) as usize }, r5)]);
            assert(k8.node(start + 10).inputs()[2] == seq![(UniqueID { id: (start + 8) as usize }, r5)]);
            assert(k9.node(start + 10).inputs()[2] == seq![(UniqueID { id: (start + 8) as usize }, r5)]);
            assert(k10.node(start + 10).inputs()[2] == seq![(UniqueID { id: (start + 8) as usize }, r5)]);
            assert(k11.node(start + 10).inputs()[2] == seq![(UniqueID { id: (start + 8) as usize }, r5)]);
            assert(k12.node(start + 10).inputs()[2] == seq![(UniqueID { id: (start + 8) as usize }, r5)]);
            assert(circuit.node(start + 10).inputs()[2] == seq![(UniqueID { id: (start + 8) as usize }, r5)]);
            assert(k1.node(start + 4).inputs()[0] == z);
            assert(k2.node(start + 4).inputs()[0] == z);
            assert(k3.node(start + 4).inputs()[0] == z);
            assert(k4.node(start + 4).inputs()[0] == z);
            assert(k5.node(start + 4).inputs()[0] == z);
            assert(k5.node(start + 7).members.unique_id.id == start + 8);
            crate::circuit::lemma_connect_fresh(UniqueID { id: (start + 8) as usize }, r6);
            assert(k6.node(start + 4).inputs()[0] == seq![(UniqueID { id: (start + 8) as usize }, r6)]);
            assert(k7.node(start + 4).inputs()[0] == seq![(UniqueID { id: (start + 8) as usize }, r6)]);
            assert(k8.node(start + 4).inputs()[0] == seq![(UniqueID { id: (start + 8) as usize }, r6)]);
            assert(k9.node(start + 4).inputs()[0] == seq![(UniqueID { id: (start + 8) as usize }, r6)]);
            assert(k10.node(start + 4).inputs()[0] == seq![(UniqueID { id: (start + 8) as usize }, r6)]);
            assert(k11.node(start + 4).inputs()[0] == seq![(UniqueID { id: (start + 8) as usize }, r6)]);
            assert(k12.node(start + 4).inputs()[0] == seq![(UniqueID { id: (start + 8) as usize }, r6)]);
            assert(circuit.node(start + 4).inputs()[0] == seq![(UniqueID { id: (start + 8) as usize }, r6)]);
            assert(k1.node(start + 9).inputs()[0] == z);
            assert(k2.node(start + 9).inputs()[0] == z);
            assert(k3.node(start + 9).inputs()[0] == z);
            assert(k4.node(start + 9).inputs()[0] == z);
            assert(k5.node(start + 9).inputs()[0] == z);
            assert(k6.node(start + 9).inputs()[0] == z);
            assert(k6.node(start + 8).members.unique_id.id == start + 9);
            crate::circuit::lemma_connect_fresh(UniqueID { id: (start + 9) as usize }, r7);
            assert(k7.node(start + 9).inputs()[0] == seq![(UniqueID { id: (start + 9) as usize }, r7)]);
            assert(k8.node(start + 9).inputs()[0] == seq![(UniqueID { id: (start + 9) as usize }, r7)]);
            assert(k9.node(start + 9).inputs()[0] == seq![(UniqueID { id: (start + 9) as usize }, r7)]);
            assert(k10.node(start + 9).inputs()[0] == seq![(UniqueID { id: (start + 9) as usize }, r7)]);
            assert(k11.node(start + 9).inputs()[0] == seq![(UniqueID { id: (start + 9) as usize }, r7)]);
            assert(k12.node(start + 9).inputs()[0] == seq![(UniqueID { id: (start + 9) as usize }, r7)]);
            assert(circuit.node(start + 9).inputs()[0] == seq![(UniqueID { id: (start + 9) as usize }, r7)]);
            assert(k1.node(start + 5).inputs()[0] == z);
            assert(k2.node(start + 5).inputs()[0] == z);
            assert(k3.node(start + 5).inputs()[0] == z);
            assert(k4.node(start + 5).inputs()[0] == z);
            assert(k5.node(start + 5).inputs()[0] == z);
            assert(k6.node(start + 5).inputs()[0] == z);
            assert(k7.node(start + 5).inputs()[0] == z);
            assert(k7.node(start + 9).members.unique_id.id == start + 10);
            crate::circuit::lemma_connect_fresh(UniqueID { id: (start + 10) as usize }, r8);
            assert(k8.node(start + 5).inputs()[0] == seq![(UniqueID { id: (start + 10) as usize }, r8)]);
            assert(k9.node(start + 5).inputs()[0] == seq![(UniqueID { id: (start + 10) as usize }, r8)]);
            assert(k10.node(start + 5).inputs()[0] == seq![(UniqueID { id: (start + 10) as usize }, r8)]);
            assert(k11.node(start + 5).inputs()[0] == seq![(UniqueID { id: (start + 10) as usize }, r8)]);
            assert(k12.node(start + 5).inputs()[0] == seq![(UniqueID { id: (start + 10) as usize }, r8)]);
            assert(circuit.node(start + 5).inputs()[0] == seq![(UniqueID { id: (start + 10) as usize }, r8)]);
            assert(k1.node(start + 10).inputs()[0] == z);
            assert(k2.node(start + 10).inputs()[0] == z);
            assert(k3.node(start + 10).inputs()[0] == z);
            assert(k4.node(start + 10).inputs()[0] == z);
            assert(k5.node(start + 10).inputs()[0] == z);
            assert(k6.node(start + 10).inputs()[0] == z);
            assert(k7.node(start + 10).inputs()[0] == z);
            assert(k8.node(start + 10).inputs()[0] == z);
            assert(k8.node(start + 2).members.unique_id.id == start + 3);
            crate::circuit::lemma_connect_fresh(UniqueID { id: (start + 3) as usize }, r9);
            assert(k9.node(start + 10).inputs()[0] == seq![(UniqueID { id: (start + 3) as usize }, r9)]);
            assert(k10.node(start + 10).inputs()[0] == seq![(UniqueID { id: (start + 3) as usize }, r9)]);
            assert(k11.node(start + 10).inputs()[0] == seq![(UniqueID { id: (start + 3) as usize }, r9)]);
            assert(k12.node(start + 10).inputs()[0] == seq![(UniqueID { id: (start + 3) as usize }, r9)]);
            assert(circuit.node(start + 10).inputs()[0] == seq![(UniqueID { id: (start + 3) as usize }, r9)]);
            assert(k1.node(start + 9).inputs()[1] == z);
            assert(k2.node(start + 9).inputs()[1] == z);
            assert(k3.node(start + 9).inputs()[1] == z);
            assert(k4.node(start + 9).inputs()[1] == z);
            assert(k5.node(start + 9).inputs()[1] == z);
            assert(k6.node(start + 9).inputs()[1] == z);
            assert(k7.node(start + 9).inputs()[1] == z);
            assert(k8.node(start + 9).inputs()[1] == z);
            assert(k9.node(start + 9).inputs()[1] == z);
            assert(k9.node(start + 2).members.unique_id.id == start + 3);
            crate::circuit::lemma_connect_fresh(UniqueID { id: (start + 3) as usize }, r10);
            assert(k10.node(start + 9).inputs()[1] == seq![(UniqueID { id: (start + 3) as usize }, r10)]);
            assert(k11.node(start + 9).inputs()[1] == seq![(UniqueID { id: (start + 3) as usize }, r10)]);
            assert(k12.node(start + 9).inputs()[1] == seq![(UniqueID { id: (start + 3) as usize }, r10)]);
            assert(circuit.node(start + 9).inputs()[1] == seq![(UniqueID { id: (start + 3) as usize }, r10)]);
            assert(k1.node(start + 11).inputs()[0] == z);
            assert(k2.node(start + 11).inputs()[0] == z);
            assert(k3.node(start + 11).inputs()[0] == z);
            assert(k4.node(start + 11).inputs()[0] == z);
            assert(k5.node(start + 11).inputs()[0] == z);
            assert(k6.node(start + 11).inputs()[0] == z);
            assert(k7.node(start + 11).inputs()[0] == z);
            assert(k8.node(start + 11).inputs()[0] == z);
            assert(k9.node(start + 11).inputs()[0] == z);
            assert(k10.node(start + 11).inputs()[0] == z);
            assert(k10.node(start + 10).members.unique_id.id == start + 11);
            crate::circuit::lemma_connect_fresh(UniqueID { id: (start + 11) as usize }, r11);
            assert(k11.node(start + 11).inputs()[0] == seq![(UniqueID { id: (start + 11) as usize }, r11)]);
            assert(k12.node(start + 11).inputs()[0] == seq![(UniqueID { id: (start + 11) as usize }, r11)]);
            assert(circuit.node(start + 11).inputs()[0] == seq![(UniqueID { id: (start + 11) as usize }, r11)]);
            assert(k1.node(start + 11).inputs()[1] == z);
            assert(k2.node(start + 11).inputs()[1] == z);
            assert(k3.node(start + 11).inputs()[1] == z);
            assert(k4.node(start + 11).inputs()[1] == z);
            assert(k5.node(start + 11).inputs()[1] == z);
            assert(k6.node(start + 11).inputs()[1] == z);
            assert(k7.node(start + 11).inputs()[1] == z);
            assert(k8.node(start + 11).inputs()[1] == z);
            assert(k9.node(start + 11).inputs()[1] == z);
            assert(k10.node(start + 11).inputs()[1] == z);
            assert(k11.node(start + 11).inputs()[1] == z);
            assert(k11.node(start + 3).members.unique_id.id == start + 4);
            crate::circuit::lemma_connect_fresh(UniqueID { id: (start + 4) as usize }, r12);
            assert(k12.node(start + 11).inputs()[1] == seq![(UniqueID { id: (start + 4) as usize }, r12)]);
            assert(circuit.node(start + 11).inputs()[1] == seq![(UniqueID { id: (start + 4) as usize }, r12)]);
            assert(k1.node(start + 6).inputs()[0] == z);
            assert(k2.node(start + 6).inputs()[0] == z);
            assert(k3.node(start + 6).inputs()[0] == z);
            assert(k4.node(start + 6).inputs()[0] == z);
            assert(k5.node(start + 6).inputs()[0] == z);
            assert(k6.node(start + 6).inputs()[0] == z);
            assert(k7.node(start + 6).inputs()[0] == z);
            assert(k8.node(start + 6).inputs()[0] == z);
            assert(k9.node(start + 6).inputs()[0] == z);
            assert(k10.node(start + 6).inputs()[0] == z);
            assert(k11.node(start + 6).inputs()[0] == z);
            assert(k12.node(start + 6).inputs()[0] == z);
            assert(k12.node(start + 11).members.unique_id.id == start + 12);
            crate::circuit::lemma_connect_fresh(UniqueID { id: (start + 12) as usize }, r13);
            assert(circuit.node(start + 6).inputs()[0] == seq![(UniqueID { id: (start + 12) as usize }, r13)]);
            assert(circuit.node(start as int).members.unique_id.id == start + 1);
            assert(circuit.node(start + 1).members.unique_id.id == start + 2);
            assert(circuit.node(start + 2).members.unique_id.id == start + 3);
            assert(circuit.node(start + 3).members.unique_id.id == start + 4);
            assert(circuit.node(start + 7).members.unique_id.id == start + 8);
            assert(circuit.node(start + 8).members.unique_id.id == start + 9);
            assert(circuit.node(start + 9).members.unique_id.id == start + 10);
            assert(circuit.node(start + 10).members.unique_id.id == start + 11);
            assert(circuit.node(start + 11).members.unique_id.id == start + 12);
        }
        let mut complex_gate = complex_gate;
        complex_gate.number_child_gates = 12;
        XOrLE { complex_gate, xor_gate, not_gate, equal_and_gate, middle_and_gate, or_gate }
    }
}

impl LogicGate for XOrLE {
    open spec fn spec_input_pin(&self, index: int) -> (int, int) {
        (self.complex_gate.input_gates@[index] as int, 0)
    }

    open spec fn spec_output_pin(&self, index: int) -> (int, int) {
        (self.complex_gate.output_gates@[index] as int, 0)
    }

    open spec fn spec_num_inputs(&self) -> nat {
        self.complex_gate.input_gates@.len()
    }

    open spec fn spec_num_outputs(&self) -> nat {
        self.complex_gate.output_gates@.len()
    }

    open spec fn spec_gate_type(&self) -> GateType {
        self.complex_gate.gate_type
    }

    open spec fn spec_unique_id(&self) -> UniqueID {
        self.complex_gate.unique_id
    }

    fn input_pin(&self, index: usize) -> (res: (usize, usize)) {
        (self.complex_gate.input_gates[index], 0)
    }

    fn output_pin(&self, index: usize) -> (res: (usize, usize)) {
        (self.complex_gate.output_gates[index], 0)
    }

    fn num_inputs(&self) -> (res: usize) {
        self.complex_gate.input_gates.len()
    }

    fn num_outputs(&self) -> (res: usize) {
        self.complex_gate.output_gates.len()
    }

    fn get_gate_type(&self) -> (res: GateType) {
        self.complex_gate.gate_type
    }

    fn get_unique_id(&self) -> (res: UniqueID) {
        self.complex_gate.unique_id
    }
}

impl XOrLE {
    /// Adds a one-bit comparator to the circuit and primes it: signals travel until the circuit is at rest.
    /// Fails only when that does not happen or two senders drive one input.
    pub fn new(circuit: &mut Circuit) -> (res: Result<Self, GateLogicError>)
        requires
            old(circuit).wf(),
            old(circuit).len() + 12 < usize::MAX,
        ensures
            final(circuit).wf(),
            final(circuit).shape() == old(circuit).shape() + Self::spec_shape(),
            final(circuit).types() == old(circuit).types() + Self::spec_types(),
            final(circuit).clock_tick_number == old(circuit).clock_tick_number,
            old(circuit).wiring_kept(*final(circuit)),
            match res {
                Ok(gate) => gate.built(*final(circuit), old(circuit).len() as int)
                    && settled_from(*final(circuit), old(circuit).len() as int)
                    && gate.fed(*final(circuit), old(circuit).len() as int),
                Err(e) => crate::run_circuit::failure_shown(*final(circuit), e),
            },
    {
        let ghost c0 = *circuit;
        let start = circuit.num_gates();
        let gate = Self::build(circuit);
        let ghost built_circuit = *circuit;
        proof {
            gate.lemma_sole_senders(c0, built_circuit, start as int);
        }
        let primed = circuit.prime_from(start);
        proof {
            crate::circuit::lemma_wire_kept(built_circuit, *circuit);
            if primed is Ok {
                let c = built_circuit;
                assert forall|h: int| start <= h < start + 12 implies #[trigger] circuit.node(h).members.unique_id == c.node(h).members.unique_id by {
                    assert(circuit.node(h).members.unique_id.id == h + 1);
                    assert(c.node(h).members.unique_id.id == h + 1);
                }
                assert(gate.fed(c, start as int));
                assert(gate.sole_senders(c, start as int));
            }
        }
        match primed {
            Ok(()) => Ok(gate),
            Err(e) => Err(e),
        }
    }

    /// The input or output index that `tag` names.
    pub fn get_index_from_tag(&self, tag: &str) -> (res: Option<usize>)
        ensures
            res == last_tag_index(self.complex_gate.gate_tags_to_index@, tag@),
    {
        self.complex_gate.get_index_from_tag(tag)
    }

    /// Brings the outputs up to date with what reaches them and returns their states.
    pub fn fetch_output_signals(&self, circuit: &mut Circuit) -> (res: Vec<GateOutputState>)
        requires
            old(circuit).wf(),
            complex_fits(&self.complex_gate, old(circuit).shape(), old(circuit).types()),
        ensures
            final(circuit).wf(),
            final(circuit).shape() == old(circuit).shape(),
            final(circuit).types() == old(circuit).types(),
            old(circuit).wiring_kept(*final(circuit)),
            res@.len() == self.complex_gate.output_gates@.len(),
            forall|i: int| 0 <= i < res@.len() ==> #[trigger] res@[i] == final(circuit).node(self.complex_gate.output_gates@[i] as int).outputs()[0],
    {
        proof {
            assert forall|i: int| 0 <= i < self.complex_gate.output_gates@.len() implies #[trigger] old(circuit).has_output(self.complex_gate.output_gates@[i] as int, 0) by {}
        }
        self.complex_gate.fetch_output_signals_calculate(circuit)
    }

    pub fn get_tag(&self) -> (res: String)
        ensures
            res@ == self.complex_gate.tag@,
    {
        self.complex_gate.tag.clone()
    }

    pub fn set_tag(&mut self, tag: &str)
        ensures
            final(self).complex_gate.tag@ == tag@,
            final(self).complex_gate.input_gates == old(self).complex_gate.input_gates,
            final(self).complex_gate.output_gates == old(self).complex_gate.output_gates,
            final(self).complex_gate.gate_tags_to_index == old(self).complex_gate.gate_tags_to_index,
    {
        self.complex_gate.tag = tag.to_owned();
    }

    pub fn toggle_output_printing(&mut self, print_output: bool)
        ensures
            final(self).complex_gate.should_print_output == print_output,
            final(self).complex_gate.input_gates == old(self).complex_gate.input_gates,
            final(self).complex_gate.output_gates == old(self).complex_gate.output_gates,
    {
        self.complex_gate.should_print_output = print_output;
    }

    /// The number of circuit gates that make up this gate.
    pub fn num_children_gates(&self) -> (res: usize)
        ensures
            res == self.complex_gate.number_child_gates,
    {
        self.complex_gate.number_child_gates
    }
}

} // verus!
