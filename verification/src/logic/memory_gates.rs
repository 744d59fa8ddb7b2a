use vstd::prelude::*;

use crate::circuit::{last_conn, settled_from, Circuit};
use crate::logic::basic_gates::{Nand, Nor};
use crate::logic::foundations::{complex_fits, last_tag_index, ComplexGateMembers, GateOutputState, GateType, LogicGate};
use crate::logic::input_gates::SimpleInput;
use crate::logic::output_gates::SimpleOutput;
use crate::logic::signals::{spec_nand, spec_nor, spec_resolve, GateInput, GateLogicError, Signal, UniqueID};
use crate::logic::tags::{decimal_chars, numbered, numbered_tag};

verus! {

/// A latch of two cross-coupled NOR gates: `S` sets `Q`, `R` resets it, and `~Q` is its negation.
pub struct SRLatch {
    pub complex_gate: ComplexGateMembers,
    pub top_nor_gate: Nor,
    pub bottom_nor_gate: Nor,
}

impl SRLatch {
    /// The types of the gates this gate adds, in the order they are added.
    pub open spec fn spec_types() -> Seq<GateType> {
        seq![GateType::SimpleInputType, GateType::SimpleInputType, GateType::SimpleOutputType, GateType::SimpleOutputType, GateType::NorType, GateType::NorType]
    }

    /// The numbers of inputs and outputs of those gates.
    pub open spec fn spec_shape() -> Seq<(nat, nat)> {
        seq![(1nat, 1nat), (1nat, 1nat), (1nat, 1nat), (1nat, 1nat), (2nat, 2nat), (2nat, 2nat)]
    }

    /// This gate stands at gates `start..start + 6` of `c`, `R` feeds input 0 of the top NOR, `S` input 1 of the bottom NOR; the top NOR feeds `Q` and input 0 of the bottom NOR, which feeds `~Q` and input 1 of the top NOR.
    pub open spec fn wired(&self, c: Circuit, start: int) -> bool {
        &&& self.complex_gate.input_gates@ == seq![(start + 1) as usize, (start) as usize]
        &&& self.complex_gate.output_gates@ == seq![(start + 2) as usize, (start + 3) as usize]
        &&& self.complex_gate.gate_type == GateType::SRLatchType
        &&& c.has_input(start, 0) && c.has_input(start + 1, 0)
        &&& c.has_output(start + 2, 0) && c.has_output(start + 3, 0)
        &&& self.top_nor_gate.gate == start + 4
        &&& self.bottom_nor_gate.gate == start + 5
        &&& c.wire(start, 0, Some((start + 4, 0int)))
        &&& c.wire(start + 1, 0, Some((start + 5, 1int)))
        &&& c.wire(start + 4, 0, Some((start + 2, 0int)))
        &&& c.wire(start + 4, 1, Some((start + 5, 0int)))
        &&& c.wire(start + 5, 0, Some((start + 3, 0int)))
        &&& c.wire(start + 5, 1, Some((start + 4, 1int)))
    }

    /// Each input of the two NORs and of the outputs `Q` and `~Q` holds a single entry, sent by
    /// whichever gate is wired to it.
    pub open spec fn fed(&self, c: Circuit, start: int) -> bool {
        &&& c.fed_by(start + 4, 0, c.node(start).members.unique_id)
        &&& c.fed_by(start + 5, 1, c.node(start + 1).members.unique_id)
        &&& c.fed_by(start + 2, 0, c.node(start + 4).members.unique_id)
        &&& c.fed_by(start + 5, 0, c.node(start + 4).members.unique_id)
        &&& c.fed_by(start + 3, 0, c.node(start + 5).members.unique_id)
        &&& c.fed_by(start + 4, 1, c.node(start + 5).members.unique_id)
    }

    /// Nothing but the wires of this latch reaches its inner inputs.
    pub open spec fn sole_senders(&self, c: Circuit, start: int) -> bool {
        &&& c.sole_sender(start + 4, 0, c.node(start).members.unique_id)
        &&& c.sole_sender(start + 5, 1, c.node(start + 1).members.unique_id)
        &&& c.sole_sender(start + 2, 0, c.node(start + 4).members.unique_id)
        &&& c.sole_sender(start + 5, 0, c.node(start + 4).members.unique_id)
        &&& c.sole_sender(start + 3, 0, c.node(start + 5).members.unique_id)
        &&& c.sole_sender(start + 4, 1, c.node(start + 5).members.unique_id)
    }

    /// Right after it is built, only its own wires reach the inner inputs of a latch.
    pub proof fn lemma_sole_senders(&self, c0: Circuit, c: Circuit, start: int)
        requires
            c0.wf(),
            c.wf(),
            start == c0.len(),
            c.shape() == c0.shape() + Self::spec_shape(),
            c0.wiring_kept(c),
            self.built(c, start),
        ensures
            self.sole_senders(c, start),
            c.unlinked(start, 0),
            c.unlinked(start + 1, 0),
    {
        assert(c0.shape().len() == c0.len());
        assert forall|g: int, j: int| #[trigger] c.has_output(g, j) implies {
            ||| c.link(g, j) is None
            ||| (c.link(g, j) matches Some(d) && d.0 < start)
            ||| (g == start && j == 0 && c.link(g, j) == Some((start + 4, 0int)))
            ||| (g == start + 1 && j == 0 && c.link(g, j) == Some((start + 5, 1int)))
            ||| (g == start + 4 && j == 0 && c.link(g, j) == Some((start + 2, 0int)))
            ||| (g == start + 4 && j == 1 && c.link(g, j) == Some((start + 5, 0int)))
            ||| (g == start + 5 && j == 0 && c.link(g, j) == Some((start + 3, 0int)))
            ||| (g == start + 5 && j == 1 && c.link(g, j) == Some((start + 4, 1int)))
        } by {
            if g < start {
                assert(c.shape()[g] == c0.shape()[g]);
                assert(c0.has_output(g, j));
                assert(c.link(g, j) == c0.link(g, j));
                assert(c0.connections_wf(g));
                if let GateOutputState::Connected(co) = c0.node(g).outputs()[j] {
                    assert(c0.has_input(co.gate as int, co.throughput.input_index as int));
                }
            } else {
                assert(c.shape()[g] == Self::spec_shape()[g - start]);
            }
        }
        assert forall|g: int, j: int| c.has_output(g, j) && #[trigger] c.link(g, j) == Some((start + 4, 0int)) implies c.node(g).members.unique_id == c.node(start).members.unique_id by {}
        assert forall|g: int, j: int| c.has_output(g, j) && #[trigger] c.link(g, j) == Some((start + 5, 1int)) implies c.node(g).members.unique_id == c.node(start + 1).members.unique_id by {}
        assert forall|g: int, j: int| c.has_output(g, j) && #[trigger] c.link(g, j) == Some((start + 2, 0int)) implies c.node(g).members.unique_id == c.node(start + 4).members.unique_id by {}
        assert forall|g: int, j: int| c.has_output(g, j) && #[trigger] c.link(g, j) == Some((start + 5, 0int)) implies c.node(g).members.unique_id == c.node(start + 4).members.unique_id by {}
        assert forall|g: int, j: int| c.has_output(g, j) && #[trigger] c.link(g, j) == Some((start + 3, 0int)) implies c.node(g).members.unique_id == c.node(start + 5).members.unique_id by {}
        assert forall|g: int, j: int| c.has_output(g, j) && #[trigger] c.link(g, j) == Some((start + 4, 1int)) implies c.node(g).members.unique_id == c.node(start + 5).members.unique_id by {}
    }

    /// At rest, a latch holds: where nothing but its own wires reaches its inner inputs and
    /// its pins `R` and `S` see `r` and `s`, output `Q` carries NOR of `r` and `~Q`, and `~Q`
    /// carries NOR of `Q` and `s`. So `R` HIGH makes `Q` LOW, `S` HIGH makes `~Q` LOW, and with
    /// both LOW the outputs keep each other.
    pub proof fn lemma_holds(&self, c: Circuit, start: int, r: Signal, s: Signal)
        requires
            c.wf(),
            self.wired(c, start),
            c.types().subrange(start, start + 6) == Self::spec_types(),
            c.shape().subrange(start, start + 6) == Self::spec_shape(),
            self.fed(c, start),
            forall|g: int| start <= g < start + 6 ==> #[trigger] c.gate_settled(g),
            spec_resolve(c.node(start).inputs()[0]) == Ok::<Signal, GateLogicError>(r),
            spec_resolve(c.node(start + 1).inputs()[0]) == Ok::<Signal, GateLogicError>(s),
        ensures
            c.node(start + 2).current(0) == spec_nor(seq![r, c.node(start + 3).current(0)]),
            c.node(start + 3).current(0) == spec_nor(seq![c.node(start + 2).current(0), s]),
    {
        let tys = c.types().subrange(start, start + 6);
        assert(tys[0] == c.types()[start]);
        assert(tys[1] == c.types()[start + 1]);
        assert(tys[2] == c.types()[start + 2]);
        assert(tys[3] == c.types()[start + 3]);
        assert(tys[4] == c.types()[start + 4]);
        assert(tys[5] == c.types()[start + 5]);
        let shp = c.shape().subrange(start, start + 6);
        assert(shp[0] == c.shape()[start]);
        assert(shp[1] == c.shape()[start + 1]);
        assert(shp[2] == c.shape()[start + 2]);
        assert(shp[3] == c.shape()[start + 3]);
        assert(shp[4] == c.shape()[start + 4]);
        assert(shp[5] == c.shape()[start + 5]);
        let pr = c.node(start);
        let ps = c.node(start + 1);
        assert(pr.inputs().len() == pr.members.input_signals@.len());
        assert(ps.inputs().len() == ps.members.input_signals@.len());
        crate::circuit::lemma_one_input(pr.inputs(), r);
        crate::circuit::lemma_one_input(ps.inputs(), s);
        assert(c.gate_settled(start));
        assert(c.gate_settled(start + 1));
        assert(pr.current(0) == r);
        assert(ps.current(0) == s);
        assert(last_conn(pr.outputs(), 1, start + 4, 0) == 0);
        assert(last_conn(ps.outputs(), 1, start + 5, 1) == 0);
        let top = c.node(start + 4);
        let bot = c.node(start + 5);
        assert(last_conn(top.outputs(), 1, start + 2, 0) == 0);
        assert(last_conn(top.outputs(), 2, start + 2, 0) == 0);
        assert(last_conn(top.outputs(), 0, start + 5, 0) == -1);
        assert(last_conn(top.outputs(), 1, start + 5, 0) == -1);
        assert(last_conn(top.outputs(), 2, start + 5, 0) == 1);
        assert(last_conn(bot.outputs(), 1, start + 3, 0) == 0);
        assert(last_conn(bot.outputs(), 2, start + 3, 0) == 0);
        assert(last_conn(bot.outputs(), 0, start + 4, 1) == -1);
        assert(last_conn(bot.outputs(), 1, start + 4, 1) == -1);
        assert(last_conn(bot.outputs(), 2, start + 4, 1) == 1);
        crate::circuit::lemma_fed_value(c, start, 0, start + 4, 0);
        crate::circuit::lemma_fed_value(c, start + 1, 0, start + 5, 1);
        crate::circuit::lemma_fed_value(c, start + 4, 0, start + 2, 0);
        crate::circuit::lemma_fed_value(c, start + 4, 1, start + 5, 0);
        crate::circuit::lemma_fed_value(c, start + 5, 0, start + 3, 0);
        crate::circuit::lemma_fed_value(c, start + 5, 1, start + 4, 1);
        assert(top.inputs().len() == top.members.input_signals@.len());
        assert(bot.inputs().len() == bot.members.input_signals@.len());
        crate::circuit::lemma_two_inputs(top.inputs(), r, bot.current(1));
        crate::circuit::lemma_two_inputs(bot.inputs(), top.current(1), s);
        assert(c.gate_settled(start + 4));
        assert(c.gate_settled(start + 5));
        assert(top.current(0) == top.current(1));
        assert(bot.current(0) == bot.current(1));
        let q = c.node(start + 2);
        let nq = c.node(start + 3);
        assert(q.inputs().len() == q.members.input_signals@.len());
        assert(nq.inputs().len() == nq.members.input_signals@.len());
        crate::circuit::lemma_one_input(q.inputs(), top.current(0));
        crate::circuit::lemma_one_input(nq.inputs(), bot.current(0));
        assert(c.gate_settled(start + 2));
        assert(c.gate_settled(start + 3));
    }

    /// Wired as above, with the outputs not yet connected and the tags in place.
    pub open spec fn built(&self, c: Circuit, start: int) -> bool {
        &&& self.wired(c, start)
        &&& c.wire(start + 2, 0, None)
        &&& c.wire(start + 3, 0, None)
        &&& self.complex_gate.tag_names() == seq!["S"@, "R"@, "Q"@, "~Q"@]
        &&& self.complex_gate.tags_laid_out()
    }

    /// Adds the gates of this gate to the circuit and wires them, without priming.
    #[verifier::spinoff_prover]
    #[verifier::rlimit(60)]
    pub fn build(circuit: &mut Circuit) -> (res: Self)
        requires
            old(circuit).wf(),
            old(circuit).len() + 6 < usize::MAX,
        ensures
            final(circuit).wf(),
            final(circuit).shape() == old(circuit).shape() + Self::spec_shape(),
            final(circuit).types() == old(circuit).types() + Self::spec_types(),
            final(circuit).clock_tick_number == old(circuit).clock_tick_number,
            old(circuit).wiring_kept(*final(circuit)),
            forall|g: int, j: int, d: Option<(int, int)>| old(circuit).wire(g, j, d) ==> #[trigger] final(circuit).wire(g, j, d),
            res.built(*final(circuit), old(circuit).len() as int),
            res.fed(*final(circuit), old(circuit).len() as int),
            final(circuit).node(old(circuit).len() as int).inputs()[0] == seq![(crate::logic::foundations::zero_uid(), Signal::LOW_)],
            final(circuit).node(old(circuit).len() as int + 1).inputs()[0] == seq![(crate::logic::foundations::zero_uid(), Signal::LOW_)],
    {
        let ghost c0 = *circuit;
        let start = circuit.num_gates();
        let r = SimpleInput::new(circuit, 1, "R");
        let ghost c1 = *circuit;
        let s = SimpleInput::new(circuit, 1, "S");
        let ghost c2 = *circuit;
        let q = SimpleOutput::new(circuit, "Q");
        let ghost c3 = *circuit;
        let nq = SimpleOutput::new(circuit, "~Q");
        let ghost c4 = *circuit;
        let mut inputs: Vec<usize> = Vec::new();
        inputs.push(s.gate);
        inputs.push(r.gate);
        let mut outputs: Vec<usize> = Vec::new();
        outputs.push(q.gate);
        outputs.push(nq.gate);
        proof {
            assert(c0.shape().len() == c0.len());
            assert(c1.shape().len() == c1.len());
            assert(c2.shape().len() == c2.len());
            assert(c3.shape().len() == c3.len());
            assert(c4.shape().len() == c4.len());
            assert(inputs@ =~= seq![(start + 1) as usize, (start) as usize]);
            assert(outputs@ =~= seq![(start + 2) as usize, (start + 3) as usize]);
            assert(c2.gates@.drop_last()[(start) as int] == c2.gates@[(start) as int]);
            assert(c3.gates@.drop_last()[(start) as int] == c3.gates@[(start) as int]);
            assert(c4.gates@.drop_last()[(start) as int] == c4.gates@[(start) as int]);
            assert(c3.gates@.drop_last()[(start + 1) as int] == c3.gates@[(start + 1) as int]);
            assert(c4.gates@.drop_last()[(start + 1) as int] == c4.gates@[(start + 1) as int]);
            assert(c4.gates@.drop_last()[(start + 2) as int] == c4.gates@[(start + 2) as int]);
        }
        let complex_gate = ComplexGateMembers::new(circuit, GateType::SRLatchType, inputs, outputs);
        let top_nor_gate = Nor::new(circuit, 2, 2);
        let ghost c_top = *circuit;
        let bottom_nor_gate = Nor::new(circuit, 2, 2);
        let ghost c_end = *circuit;
        proof {
            assert(c_end.shape() =~= c0.shape() + Self::spec_shape());
            assert(c_end.types() =~= c0.types() + Self::spec_types());
            assert(complex_gate.tag_names() =~= seq!["S"@, "R"@, "Q"@, "~Q"@]);
        }
        let r1 = circuit.connect(start, 0, start + 4, 0);
        let ghost k1 = *circuit;
        let r2 = circuit.connect(start + 1, 0, start + 5, 1);
        let ghost k2 = *circuit;
        let r3 = circuit.connect(start + 4, 0, start + 2, 0);
        let ghost k3 = *circuit;
        let r4 = circuit.connect(start + 4, 1, start + 5, 0);
        let ghost k4 = *circuit;
        let r5 = circuit.connect(start + 5, 0, start + 3, 0);
        let ghost k5 = *circuit;
        let r6 = circuit.connect(start + 5, 1, start + 4, 1);
        let ghost k6 = *circuit;
        proof {
            reveal(crate::circuit::inputs_after_connect);
            let z = seq![(crate::logic::foundations::zero_uid(), Signal::LOW_)];
            assert(c_end.gates@.drop_last()[start + 4] == c_end.gates@[start + 4]);
            assert(c_end.gates@.drop_last()[start + 2] == c_end.gates@[start + 2]);
            assert(c_top.gates@.drop_last()[start + 2] == c_top.gates@[start + 2]);
            assert(c_end.gates@.drop_last()[start + 3] == c_end.gates@[start + 3]);
            assert(c_top.gates@.drop_last()[start + 3] == c_top.gates@[start + 3]);
            assert(c4.gates@.drop_last()[start + 2] == c4.gates@[start + 2]);
            assert(c_end.node(start + 4).inputs()[0] == z);
            assert(c_end.node(start + 4).inputs()[1] == z);
            assert(c_end.node(start + 5).inputs()[0] == z);
            assert(c_end.node(start + 5).inputs()[1] == z);
            assert(c_end.node(start + 2).inputs()[0] == z);
            assert(c_end.node(start + 3).inputs()[0] == z);
            let idr = UniqueID { id: (start + 1) as usize };
            let ids = UniqueID { id: (start + 2) as usize };
            let idt = UniqueID { id: (start + 5) as usize };
            let idb = UniqueID { id: (start + 6) as usize };
            assert(c_end.node(start as int).members.unique_id.id == start + 1);
            assert(k1.node(start + 1).members.unique_id.id == start + 2);
            assert(k2.node(start + 4).members.unique_id.id == start + 5);
            assert(k3.node(start + 4).members.unique_id.id == start + 5);
            assert(k4.node(start + 5).members.unique_id.id == start + 6);
            assert(k5.node(start + 5).members.unique_id.id == start + 6);
            crate::circuit::lemma_connect_fresh(idr, r1);
            crate::circuit::lemma_connect_fresh(ids, r2);
            crate::circuit::lemma_connect_fresh(idt, r3);
            crate::circuit::lemma_connect_fresh(idt, r4);
            crate::circuit::lemma_connect_fresh(idb, r5);
            crate::circuit::lemma_connect_fresh(idb, r6);
            assert(k1.node(start + 4).inputs()[0] == seq![(idr, r1)]);
            assert(k1.node(start + 4).inputs()[1] == z);
            assert(k1.node(start + 5).inputs()[0] == z);
            assert(k1.node(start + 5).inputs()[1] == z);
            assert(k2.node(start + 5).inputs()[1] == seq![(ids, r2)]);
            assert(k2.node(start + 5).inputs()[0] == z);
            assert(k3.node(start + 2).inputs()[0] == seq![(idt, r3)]);
            assert(k4.node(start + 5).inputs()[0] == seq![(idt, r4)]);
            assert(k4.node(start + 5).inputs()[1] == seq![(ids, r2)]);
            assert(k5.node(start + 3).inputs()[0] == seq![(idb, r5)]);
            assert(k6.node(start + 4).inputs()[1] == seq![(idb, r6)]);
            assert(k6.node(start + 4).inputs()[0] == seq![(idr, r1)]);
            assert(k6.node(start + 5).inputs()[0] == seq![(idt, r4)]);
            assert(k6.node(start + 5).inputs()[1] == seq![(ids, r2)]);
            assert(k6.node(start + 2).inputs()[0] == seq![(idt, r3)]);
            assert(k6.node(start + 3).inputs()[0] == seq![(idb, r5)]);
        }
        circuit.set_tag(start + 4, "TOP_NOR_GATE");
        circuit.set_tag(start + 5, "BOTTOM_NOR_GATE");
        proof {
            assert(circuit.node(start as int).members.unique_id.id == start + 1);
            assert(circuit.node(start + 1).members.unique_id.id == start + 2);
            assert(circuit.node(start + 4).members.unique_id.id == start + 5);
            assert(circuit.node(start + 5).members.unique_id.id == start + 6);
            assert(circuit.node(start + 4).inputs() == k6.node(start + 4).inputs());
            assert(circuit.node(start + 5).inputs() == k6.node(start + 5).inputs());
            assert(circuit.node(start + 2) == k6.node(start + 2));
            assert(circuit.node(start + 3) == k6.node(start + 3));
            let z = seq![(crate::logic::foundations::zero_uid(), Signal::LOW_)];
            assert(c2.gates@.drop_last()[start as int] == c2.gates@[start as int]);
            assert(c3.gates@.drop_last()[start as int] == c3.gates@[start as int]);
            assert(c3.gates@.drop_last()[start + 1] == c3.gates@[start + 1]);
            assert(c4.gates@.drop_last()[start as int] == c4.gates@[start as int]);
            assert(c4.gates@.drop_last()[start + 1] == c4.gates@[start + 1]);
            assert(c_top.gates@.drop_last()[start as int] == c_top.gates@[start as int]);
            assert(c_top.gates@.drop_last()[start + 1] == c_top.gates@[start + 1]);
            assert(c_end.gates@.drop_last()[start as int] == c_end.gates@[start as int]);
            assert(c_end.gates@.drop_last()[start + 1] == c_end.gates@[start + 1]);
            assert(c_end.node(start as int).inputs()[0] == z);
            assert(c_end.node(start + 1).inputs()[0] == z);
            assert(k1.node(start as int).inputs() == c_end.node(start as int).inputs());
            assert(k2.node(start as int).inputs() == k1.node(start as int).inputs());
            assert(k3.node(start as int).inputs() == k2.node(start as int).inputs());
            assert(k4.node(start as int).inputs() == k3.node(start as int).inputs());
            assert(k5.node(start as int).inputs() == k4.node(start as int).inputs());
            assert(k6.node(start as int).inputs() == k5.node(start as int).inputs());
            assert(k1.node(start + 1).inputs() == c_end.node(start + 1).inputs());
            assert(k2.node(start + 1).inputs() == k1.node(start + 1).inputs());
            assert(k3.node(start + 1).inputs() == k2.node(start + 1).inputs());
            assert(k4.node(start + 1).inputs() == k3.node(start + 1).inputs());
            assert(k5.node(start + 1).inputs() == k4.node(start + 1).inputs());
            assert(k6.node(start + 1).inputs() == k5.node(start + 1).inputs());
            assert(circuit.node(start as int) == k6.node(start as int));
            assert(circuit.node(start + 1) == k6.node(start + 1));
        }
        let mut complex_gate = complex_gate;
        complex_gate.number_child_gates = 6;
        SRLatch { complex_gate, top_nor_gate, bottom_nor_gate }
    }
}

impl LogicGate for SRLatch {
    open spec fn spec_input_pin(&self, index: int) -> (int, int) {
        (self.complex_gate.input_gates@[index] as int, 0)
    }

    open spec fn spec_output_pin(&self, index: int) -> (int, int) {
        (self.complex_gate.output_gates@[index] as int, 0)
    }

    open spec fn spec_num_inputs(&self) -> nat {
        self.complex_gate.input_gates@.len()
    }

    open spec fn spec_num_outputs(&self) -> nat {
        self.complex_gate.output_gates@.len()
    }

    open spec fn spec_gate_type(&self) -> GateType {
        self.complex_gate.gate_type
    }

    open spec fn spec_unique_id(&self) -> UniqueID {
        self.complex_gate.unique_id
    }

    fn input_pin(&self, index: usize) -> (res: (usize, usize)) {
        (self.complex_gate.input_gates[index], 0)
    }

    fn output_pin(&self, index: usize) -> (res: (usize, usize)) {
        (self.complex_gate.output_gates[index], 0)
    }

    fn num_inputs(&self) -> (res: usize) {
        self.complex_gate.input_gates.len()
    }

    fn num_outputs(&self) -> (res: usize) {
        self.complex_gate.output_gates.len()
    }

    fn get_gate_type(&self) -> (res: GateType) {
        self.complex_gate.gate_type
    }

    fn get_unique_id(&self) -> (res: UniqueID) {
        self.complex_gate.unique_id
    }
}

impl SRLatch {
    /// The input or output index that `tag` names.
    pub fn get_index_from_tag(&self, tag: &str) -> (res: Option<usize>)
        ensures
            res == last_tag_index(self.complex_gate.gate_tags_to_index@, tag@),
    {
        self.complex_gate.get_index_from_tag(tag)
    }

    /// Brings the outputs up to date with what reaches them and returns their states.
    pub fn fetch_output_signals(&self, circuit: &mut Circuit) -> (res: Vec<GateOutputState>)
        requires
            old(circuit).wf(),
            complex_fits(&self.complex_gate, old(circuit).shape(), old(circuit).types()),
        ensures
            final(circuit).wf(),
            final(circuit).shape() == old(circuit).shape(),
            final(circuit).types() == old(circuit).types(),
            old(circuit).wiring_kept(*final(circuit)),
            res@.len() == self.complex_gate.output_gates@.len(),
            forall|i: int| 0 <= i < res@.len() ==> #[trigger] res@[i] == final(circuit).node(self.complex_gate.output_gates@[i] as int).outputs()[0],
    {
        proof {
            assert forall|i: int| 0 <= i < self.complex_gate.output_gates@.len() implies #[trigger] old(circuit).has_output(self.complex_gate.output_gates@[i] as int, 0) by {}
        }
        self.complex_gate.fetch_output_signals_calculate(circuit)
    }

    pub fn get_tag(&self) -> (res: String)
        ensures
            res@ == self.complex_gate.tag@,
    {
        self.complex_gate.tag.clone()
    }

    pub fn set_tag(&mut self, tag: &str)
        ensures
            final(self).complex_gate.tag@ == tag@,
            final(self).complex_gate.input_gates == old(self).complex_gate.input_gates,
            final(self).complex_gate.output_gates == old(self).complex_gate.output_gates,
            final(self).complex_gate.gate_tags_to_index == old(self).complex_gate.gate_tags_to_index,
    {
        self.complex_gate.tag = tag.to_owned();
    }

    pub fn toggle_output_printing(&mut self, print_output: bool)
        ensures
            final(self).complex_gate.should_print_output == print_output,
            final(self).complex_gate.input_gates == old(self).complex_gate.input_gates,
            final(self).complex_gate.output_gates == old(self).complex_gate.output_gates,
    {
        self.complex_gate.should_print_output = print_output;
    }

    /// The number of circuit gates that make up this gate.
    pub fn num_children_gates(&self) -> (res: usize)
        ensures
            res == self.complex_gate.number_child_gates,
    {
        self.complex_gate.number_child_gates
    }
}

impl SRLatch {
    /// Adds an SR latch to the circuit and primes it from a forced start: `R` is held HIGH, so that `Q` starts LOW and `~Q` HIGH; then `R` is set back to LOW without letting it travel. Fails only
    /// when priming never comes to rest.
    pub fn new(circuit: &mut Circuit) -> (res: Result<Self, GateLogicError>)
        requires
            old(circuit).wf(),
            old(circuit).len() + 6 < usize::MAX,
        ensures
            final(circuit).wf(),
            final(circuit).shape() == old(circuit).shape() + Self::spec_shape(),
            final(circuit).types() == old(circuit).types() + Self::spec_types(),
            final(circuit).clock_tick_number == old(circuit).clock_tick_number,
            old(circuit).wiring_kept(*final(circuit)),
            forall|g: int, j: int, d: Option<(int, int)>| old(circuit).wire(g, j, d) ==> #[trigger] final(circuit).wire(g, j, d),
            match res {
                Ok(gate) => gate.built(*final(circuit), old(circuit).len() as int)
                    && gate.fed(*final(circuit), old(circuit).len() as int)
                    && final(circuit).node(old(circuit).len() as int + 2).current(0) == Signal::LOW_
                    && final(circuit).node(old(circuit).len() as int + 3).current(0) == Signal::HIGH
                    && forall|g: int| old(circuit).len() < g < old(circuit).len() + 6 ==> #[trigger] final(circuit).gate_settled(g),
                Err(e) => crate::run_circuit::failure_shown(*final(circuit), e),
            },
    {
        let ghost c0 = *circuit;
        let start = circuit.num_gates();
        let gate = Self::build(circuit);
        proof {
            assert(circuit.shape().subrange(0, c0.shape().len() as int) =~= c0.shape());
            gate.lemma_sole_senders(c0, *circuit, start as int);
        }
        let ghost prev1 = *circuit;
        let forced1 = circuit.update_input_signal(start, GateInput::new(0, Signal::HIGH, UniqueID::zero_id()));
        proof {
            crate::circuit::lemma_wire_kept(prev1, *circuit);
            crate::circuit::lemma_wiring_kept_trans(c0, prev1, *circuit);
        }
        if let Err(e) = forced1 {
            return Err(e);
        }
        let ghost prev0 = *circuit;
        let primed = circuit.prime_from(start);
        proof {
            crate::circuit::lemma_wire_kept(prev0, *circuit);
            crate::circuit::lemma_wiring_kept_trans(c0, prev0, *circuit);
        }
        if let Err(e) = primed {
            return Err(e);
        }
        let ghost prev2 = *circuit;
        let forced2 = circuit.update_input_signal(start, GateInput::new(0, Signal::LOW_, UniqueID::zero_id()));
        proof {
            crate::circuit::lemma_wire_kept(prev2, *circuit);
            crate::circuit::lemma_wiring_kept_trans(c0, prev2, *circuit);
        }
        if let Err(e) = forced2 {
            return Err(e);
        }
        proof {
            assert(circuit.node(start as int).members.unique_id.id == start + 1);
            assert(circuit.node(start + 1).members.unique_id.id == start + 2);
            assert(circuit.node(start + 4).members.unique_id.id == start + 5);
            assert(circuit.node(start + 5).members.unique_id.id == start + 6);
            assert(prev1.node(start as int).members.unique_id.id == start + 1);
            assert(prev1.node(start + 1).members.unique_id.id == start + 2);
            assert(prev1.node(start + 4).members.unique_id.id == start + 5);
            assert(prev1.node(start + 5).members.unique_id.id == start + 6);
            assert(prev0.node(start + 4) == prev1.node(start + 4));
            assert(prev0.node(start + 5) == prev1.node(start + 5));
            assert(prev0.node(start + 2) == prev1.node(start + 2));
            assert(prev0.node(start + 3) == prev1.node(start + 3));
            assert(prev0.node(start as int).members.unique_id.id == start + 1);
            assert(prev0.node(start + 1).members.unique_id.id == start + 2);
            assert(prev0.node(start + 4).members.unique_id.id == start + 5);
            assert(prev0.node(start + 5).members.unique_id.id == start + 6);
            assert(prev0.fed_by(start + 4, 0, prev0.node(start as int).members.unique_id));
            assert(prev0.fed_by(start + 5, 1, prev0.node(start + 1).members.unique_id));
            assert(prev0.fed_by(start + 2, 0, prev0.node(start + 4).members.unique_id));
            assert(prev0.fed_by(start + 5, 0, prev0.node(start + 4).members.unique_id));
            assert(prev0.fed_by(start + 3, 0, prev0.node(start + 5).members.unique_id));
            assert(prev0.fed_by(start + 4, 1, prev0.node(start + 5).members.unique_id));
            crate::circuit::lemma_sole_sender_kept(prev1, prev0, start + 4, 0, prev1.node(start as int).members.unique_id);
            crate::circuit::lemma_sole_sender_kept(prev1, prev0, start + 5, 1, prev1.node(start + 1).members.unique_id);
            crate::circuit::lemma_sole_sender_kept(prev1, prev0, start + 2, 0, prev1.node(start + 4).members.unique_id);
            crate::circuit::lemma_sole_sender_kept(prev1, prev0, start + 5, 0, prev1.node(start + 4).members.unique_id);
            crate::circuit::lemma_sole_sender_kept(prev1, prev0, start + 3, 0, prev1.node(start + 5).members.unique_id);
            crate::circuit::lemma_sole_sender_kept(prev1, prev0, start + 4, 1, prev1.node(start + 5).members.unique_id);
            assert(prev2.fed_by(start + 4, 0, prev0.node(start as int).members.unique_id));
            assert(prev2.fed_by(start + 5, 1, prev0.node(start + 1).members.unique_id));
            assert(prev2.fed_by(start + 2, 0, prev0.node(start + 4).members.unique_id));
            assert(prev2.fed_by(start + 5, 0, prev0.node(start + 4).members.unique_id));
            assert(prev2.fed_by(start + 3, 0, prev0.node(start + 5).members.unique_id));
            assert(prev2.fed_by(start + 4, 1, prev0.node(start + 5).members.unique_id));
            assert(circuit.node(start + 4) == prev2.node(start + 4));
            assert(circuit.node(start + 5) == prev2.node(start + 5));
            assert(circuit.node(start + 2) == prev2.node(start + 2));
            assert(circuit.node(start + 3) == prev2.node(start + 3));
            // the pins: nothing reaches them, so priming leaves what was put there
            let z = seq![(crate::logic::foundations::zero_uid(), Signal::LOW_)];
            let hz = seq![(crate::logic::foundations::zero_uid(), Signal::HIGH)];
            assert(crate::logic::foundations::has_entry(z, crate::logic::foundations::zero_uid())) by {
                assert(z[0].0 == crate::logic::foundations::zero_uid());
            }
            assert(crate::logic::foundations::spec_set_entry(z, crate::logic::foundations::zero_uid(), Signal::HIGH) =~= hz);
            assert(prev1.types()[start as int] == Self::spec_types()[0]);
            assert(prev1.node(start as int).members.gate_type == GateType::SimpleInputType);
            assert(prev0.node(start as int).inputs()[0] == hz);
            assert(prev0.node(start + 1) == prev1.node(start + 1));
            assert forall|g: int, j: int| prev0.has_output(g, j) implies #[trigger] prev0.link(g, j) != Some((start as int, 0int)) by {
                assert(prev1.has_output(g, j));
                assert(prev1.link(g, j) == prev0.link(g, j));
            }
            assert forall|g: int, j: int| prev0.has_output(g, j) implies #[trigger] prev0.link(g, j) != Some((start + 1, 0int)) by {
                assert(prev1.has_output(g, j));
                assert(prev1.link(g, j) == prev0.link(g, j));
            }
            assert(prev0.unlinked(start as int, 0));
            assert(prev0.unlinked(start + 1, 0));
            assert(prev2.node(start as int).inputs()[0] == hz);
            assert(prev2.node(start + 1).inputs()[0] == z);
            crate::circuit::lemma_single_entry(hz);
            crate::circuit::lemma_single_entry(z);
            assert forall|g: int| start <= g < start + 6 implies #[trigger] prev2.gate_settled(g) by {}
            assert(prev2.types().subrange(start as int, start + 6) =~= Self::spec_types());
            assert(prev2.shape().subrange(start as int, start + 6) =~= Self::spec_shape());
            assert(prev2.node(start as int).members.unique_id.id == start + 1);
            assert(prev2.node(start + 1).members.unique_id.id == start + 2);
            assert(prev2.node(start + 4).members.unique_id.id == start + 5);
            assert(prev2.node(start + 5).members.unique_id.id == start + 6);
            assert(gate.fed(prev2, start as int));
            gate.lemma_holds(prev2, start as int, Signal::HIGH, Signal::LOW_);
            let q = prev2.node(start + 2).current(0);
            let nq = prev2.node(start + 3).current(0);
            assert(seq![Signal::HIGH, nq].contains(Signal::HIGH)) by {
                assert(seq![Signal::HIGH, nq][0] == Signal::HIGH);
            }
            assert(q == Signal::LOW_);
            assert(!seq![q, Signal::LOW_].contains(Signal::HIGH));
            assert(nq == Signal::HIGH);
            assert forall|g: int, j: int| prev2.has_output(g, j) implies #[trigger] prev2.link(g, j) != Some((start as int, 0int)) by {
                assert(prev0.has_output(g, j));
                assert(prev0.link(g, j) == prev2.link(g, j));
            }
            assert(prev2.shape()[start as int] == Self::spec_shape()[0]) by {
                assert(prev2.shape().subrange(start as int, start + 6)[0] == prev2.shape()[start as int]);
            }
            assert forall|g: int| start < g < start + 6 implies #[trigger] circuit.gate_settled(g) by {
                crate::run_circuit::lemma_settled_after_pin_update(prev2, *circuit, start as int, g);
            }
        }
        Ok(gate)
    }
}

/// A latch of two cross-coupled NAND gates, set and reset by LOW: `S` LOW sets `Q`, `R` LOW resets it.
pub struct ActiveLowSRLatch {
    pub complex_gate: ComplexGateMembers,
    pub top_nand_gate: Nand,
    pub bottom_nand_gate: Nand,
}

impl ActiveLowSRLatch {
    /// The types of the gates this gate adds, in the order they are added.
    pub open spec fn spec_types() -> Seq<GateType> {
        seq![GateType::SimpleInputType, GateType::SimpleInputType, GateType::SimpleOutputType, GateType::SimpleOutputType, GateType::NandType, GateType::NandType]
    }

    /// The numbers of inputs and outputs of those gates.
    pub open spec fn spec_shape() -> Seq<(nat, nat)> {
        seq![(1nat, 1nat), (1nat, 1nat), (1nat, 1nat), (1nat, 1nat), (2nat, 2nat), (2nat, 2nat)]
    }

    /// This gate stands at gates `start..start + 6` of `c`, `S` feeds input 0 of the top NAND, `R` input 1 of the bottom NAND; the top NAND feeds `Q` and input 0 of the bottom NAND, which feeds `~Q` and input 1 of the top NAND.
    pub open spec fn wired(&self, c: Circuit, start: int) -> bool {
        &&& self.complex_gate.input_gates@ == seq![(start + 1) as usize, (start) as usize]
        &&& self.complex_gate.output_gates@ == seq![(start + 2) as usize, (start + 3) as usize]
        &&& self.complex_gate.gate_type == GateType::ActiveLowSRLatchType
        &&& c.has_input(start, 0) && c.has_input(start + 1, 0)
        &&& c.has_output(start + 2, 0) && c.has_output(start + 3, 0)
        &&& self.top_nand_gate.gate == start + 5
        &&& self.bottom_nand_gate.gate == start + 4
        &&& c.wire(start + 1, 0, Some((start + 5, 0int)))
        &&& c.wire(start, 0, Some((start + 4, 1int)))
        &&& c.wire(start + 5, 0, Some((start + 2, 0int)))
        &&& c.wire(start + 5, 1, Some((start + 4, 0int)))
        &&& c.wire(start + 4, 0, Some((start + 3, 0int)))
        &&& c.wire(start + 4, 1, Some((start + 5, 1int)))
    }

    /// Each input of the two NANDs and of the outputs `Q` and `~Q` holds a single entry, sent
    /// by whichever gate is wired to it.
    pub open spec fn fed(&self, c: Circuit, start: int) -> bool {
        &&& c.fed_by(start + 5, 0, c.node(start + 1).members.unique_id)
        &&& c.fed_by(start + 4, 1, c.node(start).members.unique_id)
        &&& c.fed_by(start + 2, 0, c.node(start + 5).members.unique_id)
        &&& c.fed_by(start + 4, 0, c.node(start + 5).members.unique_id)
        &&& c.fed_by(start + 3, 0, c.node(start + 4).members.unique_id)
        &&& c.fed_by(start + 5, 1, c.node(start + 4).members.unique_id)
    }

    /// Nothing but the wires of this latch reaches its inner inputs.
    pub open spec fn sole_senders(&self, c: Circuit, start: int) -> bool {
        &&& c.sole_sender(start + 5, 0, c.node(start + 1).members.unique_id)
        &&& c.sole_sender(start + 4, 1, c.node(start).members.unique_id)
        &&& c.sole_sender(start + 2, 0, c.node(start + 5).members.unique_id)
        &&& c.sole_sender(start + 4, 0, c.node(start + 5).members.unique_id)
        &&& c.sole_sender(start + 3, 0, c.node(start + 4).members.unique_id)
        &&& c.sole_sender(start + 5, 1, c.node(start + 4).members.unique_id)
    }

    /// Right after it is built, only its own wires reach the inner inputs of a latch.
    pub proof fn lemma_sole_senders(&self, c0: Circuit, c: Circuit, start: int)
        requires
            c0.wf(),
            c.wf(),
            start == c0.len(),
            c.shape() == c0.shape() + Self::spec_shape(),
            c0.wiring_kept(c),
            self.built(c, start),
        ensures
            self.sole_senders(c, start),
    {
        assert(c0.shape().len() == c0.len());
        assert forall|g: int, j: int| #[trigger] c.has_output(g, j) implies {
            ||| c.link(g, j) is None
            ||| (c.link(g, j) matches Some(d) && d.0 < start)
            ||| (g == start + 1 && j == 0 && c.link(g, j) == Some((start + 5, 0int)))
            ||| (g == start && j == 0 && c.link(g, j) == Some((start + 4, 1int)))
            ||| (g == start + 5 && j == 0 && c.link(g, j) == Some((start + 2, 0int)))
            ||| (g == start + 5 && j == 1 && c.link(g, j) == Some((start + 4, 0int)))
            ||| (g == start + 4 && j == 0 && c.link(g, j) == Some((start + 3, 0int)))
            ||| (g == start + 4 && j == 1 && c.link(g, j) == Some((start + 5, 1int)))
        } by {
            if g < start {
                assert(c.shape()[g] == c0.shape()[g]);
                assert(c0.has_output(g, j));
                assert(c.link(g, j) == c0.link(g, j));
                assert(c0.connections_wf(g));
                if let GateOutputState::Connected(co) = c0.node(g).outputs()[j] {
                    assert(c0.has_input(co.gate as int, co.throughput.input_index as int));
                }
            } else {
                assert(c.shape()[g] == Self::spec_shape()[g - start]);
            }
        }
        assert forall|g: int, j: int| c.has_output(g, j) && #[trigger] c.link(g, j) == Some((start + 5, 0int)) implies c.node(g).members.unique_id == c.node(start + 1).members.unique_id by {}
        assert forall|g: int, j: int| c.has_output(g, j) && #[trigger] c.link(g, j) == Some((start + 4, 1int)) implies c.node(g).members.unique_id == c.node(start).members.unique_id by {}
        assert forall|g: int, j: int| c.has_output(g, j) && #[trigger] c.link(g, j) == Some((start + 2, 0int)) implies c.node(g).members.unique_id == c.node(start + 5).members.unique_id by {}
        assert forall|g: int, j: int| c.has_output(g, j) && #[trigger] c.link(g, j) == Some((start + 4, 0int)) implies c.node(g).members.unique_id == c.node(start + 5).members.unique_id by {}
        assert forall|g: int, j: int| c.has_output(g, j) && #[trigger] c.link(g, j) == Some((start + 3, 0int)) implies c.node(g).members.unique_id == c.node(start + 4).members.unique_id by {}
        assert forall|g: int, j: int| c.has_output(g, j) && #[trigger] c.link(g, j) == Some((start + 5, 1int)) implies c.node(g).members.unique_id == c.node(start + 4).members.unique_id by {}
    }

    /// At rest, an active-low latch holds: where nothing but its own wires reaches its inner
    /// inputs and its pins `R` and `S` see `r` and `s`, output `Q` carries NAND of `s` and
    /// `~Q`, and `~Q` carries NAND of `Q` and `r`. So `S` LOW makes `Q` HIGH, `R` LOW makes
    /// `~Q` HIGH, and with both HIGH the outputs keep each other.
    pub proof fn lemma_holds(&self, c: Circuit, start: int, r: Signal, s: Signal)
        requires
            c.wf(),
            self.wired(c, start),
            c.types().subrange(start, start + 6) == Self::spec_types(),
            c.shape().subrange(start, start + 6) == Self::spec_shape(),
            self.fed(c, start),
            forall|g: int| start <= g < start + 6 ==> #[trigger] c.gate_settled(g),
            spec_resolve(c.node(start).inputs()[0]) == Ok::<Signal, GateLogicError>(r),
            spec_resolve(c.node(start + 1).inputs()[0]) == Ok::<Signal, GateLogicError>(s),
        ensures
            c.node(start + 2).current(0) == spec_nand(seq![s, c.node(start + 3).current(0)]),
            c.node(start + 3).current(0) == spec_nand(seq![c.node(start + 2).current(0), r]),
    {
        let tys = c.types().subrange(start, start + 6);
        assert(tys[0] == c.types()[start]);
        assert(tys[1] == c.types()[start + 1]);
        assert(tys[2] == c.types()[start + 2]);
        assert(tys[3] == c.types()[start + 3]);
        assert(tys[4] == c.types()[start + 4]);
        assert(tys[5] == c.types()[start + 5]);
        let shp = c.shape().subrange(start, start + 6);
        assert(shp[0] == c.shape()[start]);
        assert(shp[1] == c.shape()[start + 1]);
        assert(shp[2] == c.shape()[start + 2]);
        assert(shp[3] == c.shape()[start + 3]);
        assert(shp[4] == c.shape()[start + 4]);
        assert(shp[5] == c.shape()[start + 5]);
        let pr = c.node(start);
        let ps = c.node(start + 1);
        assert(pr.inputs().len() == pr.members.input_signals@.len());
        assert(ps.inputs().len() == ps.members.input_signals@.len());
        crate::circuit::lemma_one_input(pr.inputs(), r);
        crate::circuit::lemma_one_input(ps.inputs(), s);
        assert(c.gate_settled(start));
        assert(c.gate_settled(start + 1));
        assert(pr.current(0) == r);
        assert(ps.current(0) == s);
        assert(last_conn(pr.outputs(), 1, start + 4, 1) == 0);
        assert(last_conn(ps.outputs(), 1, start + 5, 0) == 0);
        let top = c.node(start + 5);
        let bot = c.node(start + 4);
        assert(last_conn(top.outputs(), 1, start + 2, 0) == 0);
        assert(last_conn(top.outputs(), 2, start + 2, 0) == 0);
        assert(last_conn(top.outputs(), 0, start + 4, 0) == -1);
        assert(last_conn(top.outputs(), 1, start + 4, 0) == -1);
        assert(last_conn(top.outputs(), 2, start + 4, 0) == 1);
        assert(last_conn(bot.outputs(), 1, start + 3, 0) == 0);
        assert(last_conn(bot.outputs(), 2, start + 3, 0) == 0);
        assert(last_conn(bot.outputs(), 0, start + 5, 1) == -1);
        assert(last_conn(bot.outputs(), 1, start + 5, 1) == -1);
        assert(last_conn(bot.outputs(), 2, start + 5, 1) == 1);
        crate::circuit::lemma_fed_value(c, start + 1, 0, start + 5, 0);
        crate::circuit::lemma_fed_value(c, start, 0, start + 4, 1);
        crate::circuit::lemma_fed_value(c, start + 5, 0, start + 2, 0);
        crate::circuit::lemma_fed_value(c, start + 5, 1, start + 4, 0);
        crate::circuit::lemma_fed_value(c, start + 4, 0, start + 3, 0);
        crate::circuit::lemma_fed_value(c, start + 4, 1, start + 5, 1);
        assert(top.inputs().len() == top.members.input_signals@.len());
        assert(bot.inputs().len() == bot.members.input_signals@.len());
        crate::circuit::lemma_two_inputs(top.inputs(), s, bot.current(1));
        crate::circuit::lemma_two_inputs(bot.inputs(), top.current(1), r);
        assert(c.gate_settled(start + 4));
        assert(c.gate_settled(start + 5));
        assert(top.current(0) == top.current(1));
        assert(bot.current(0) == bot.current(1));
        let q = c.node(start + 2);
        let nq = c.node(start + 3);
        assert(q.inputs().len() == q.members.input_signals@.len());
        assert(nq.inputs().len() == nq.members.input_signals@.len());
        crate::circuit::lemma_one_input(q.inputs(), top.current(0));
        crate::circuit::lemma_one_input(nq.inputs(), bot.current(0));
        assert(c.gate_settled(start + 2));
        assert(c.gate_settled(start + 3));
    }

    /// Wired as above, with the outputs not yet connected and the tags in place.
    pub open spec fn built(&self, c: Circuit, start: int) -> bool {
        &&& self.wired(c, start)
        &&& c.wire(start + 2, 0, None)
        &&& c.wire(start + 3, 0, None)
        &&& self.complex_gate.tag_names() == seq!["S"@, "R"@, "Q"@, "~Q"@]
        &&& self.complex_gate.tags_laid_out()
    }

    /// Adds the gates of this gate to the circuit and wires them, without priming.
    #[verifier::spinoff_prover]
    #[verifier::rlimit(60)]
    pub fn build(circuit: &mut Circuit) -> (res: Self)
        requires
            old(circuit).wf(),
            old(circuit).len() + 6 < usize::MAX,
        ensures
            final(circuit).wf(),
            final(circuit).shape() == old(circuit).shape() + Self::spec_shape(),
            final(circuit).types() == old(circuit).types() + Self::spec_types(),
            final(circuit).clock_tick_number == old(circuit).clock_tick_number,
            old(circuit).wiring_kept(*final(circuit)),
            forall|g: int, j: int, d: Option<(int, int)>| old(circuit).wire(g, j, d) ==> #[trigger] final(circuit).wire(g, j, d),
            res.built(*final(circuit), old(circuit).len() as int),
            res.fed(*final(circuit), old(circuit).len() as int),
    {
        let ghost c0 = *circuit;
        let start = circuit.num_gates();
        let r = SimpleInput::new(circuit, 1, "R");
        let ghost c1 = *circuit;
        let s = SimpleInput::new(circuit, 1, "S");
        let ghost c2 = *circuit;
        let q = SimpleOutput::new(circuit, "Q");
        let ghost c3 = *circuit;
        let nq = SimpleOutput::new(circuit, "~Q");
        let ghost c4 = *circuit;
        let mut inputs: Vec<usize> = Vec::new();
        inputs.push(s.gate);
        inputs.push(r.gate);
        let mut outputs: Vec<usize> = Vec::new();
        outputs.push(q.gate);
        outputs.push(nq.gate);
        proof {
            assert(c0.shape().len() == c0.len());
            assert(c1.shape().len() == c1.len());
            assert(c2.shape().len() == c2.len());
            assert(c3.shape().len() == c3.len());
            assert(c4.shape().len() == c4.len());
            assert(inputs@ =~= seq![(start + 1) as usize, (start) as usize]);
            assert(outputs@ =~= seq![(start + 2) as usize, (start + 3) as usize]);
            assert(c2.gates@.drop_last()[(start) as int] == c2.gates@[(start) as int]);
            assert(c3.gates@.drop_last()[(start) as int] == c3.gates@[(start) as int]);
            assert(c4.gates@.drop_last()[(start) as int] == c4.gates@[(start) as int]);
            assert(c3.gates@.drop_last()[(start + 1) as int] == c3.gates@[(start + 1) as int]);
            assert(c4.gates@.drop_last()[(start + 1) as int] == c4.gates@[(start + 1) as int]);
            assert(c4.gates@.drop_last()[(start + 2) as int] == c4.gates@[(start + 2) as int]);
        }
        let complex_gate = ComplexGateMembers::new(circuit, GateType::ActiveLowSRLatchType, inputs, outputs);
        let bottom_nand_gate = Nand::new(circuit, 2, 2);
        let ghost c_bot = *circuit;
        let top_nand_gate = Nand::new(circuit, 2, 2);
        let ghost c_end = *circuit;
        proof {
            assert(c_end.shape() =~= c0.shape() + Self::spec_shape());
            assert(c_end.types() =~= c0.types() + Self::spec_types());
            assert(complex_gate.tag_names() =~= seq!["S"@, "R"@, "Q"@, "~Q"@]);
        }
        let r1 = circuit.connect(start + 1, 0, start + 5, 0);
        let ghost k1 = *circuit;
        let r2 = circuit.connect(start, 0, start + 4, 1);
        let ghost k2 = *circuit;
        let r3 = circuit.connect(start + 5, 0, start + 2, 0);
        let ghost k3 = *circuit;
        let r4 = circuit.connect(start + 5, 1, start + 4, 0);
        let ghost k4 = *circuit;
        let r5 = circuit.connect(start + 4, 0, start + 3, 0);
        let ghost k5 = *circuit;
        let r6 = circuit.connect(start + 4, 1, start + 5, 1);
        proof {
            reveal(crate::circuit::inputs_after_connect);
            let z = seq![(crate::logic::foundations::zero_uid(), Signal::LOW_)];
            assert(c_end.gates@.drop_last()[start + 4] == c_end.gates@[start + 4]);
            assert(c_end.gates@.drop_last()[start + 2] == c_end.gates@[start + 2]);
            assert(c_bot.gates@.drop_last()[start + 2] == c_bot.gates@[start + 2]);
            assert(c_end.gates@.drop_last()[start + 3] == c_end.gates@[start + 3]);
            assert(c_bot.gates@.drop_last()[start + 3] == c_bot.gates@[start + 3]);
            assert(c4.gates@.drop_last()[start + 2] == c4.gates@[start + 2]);
            assert(c_end.node(start + 4).inputs()[0] == z);
            assert(c_end.node(start + 4).inputs()[1] == z);
            assert(c_end.node(start + 5).inputs()[0] == z);
            assert(c_end.node(start + 5).inputs()[1] == z);
            assert(c_end.node(start + 2).inputs()[0] == z);
            assert(c_end.node(start + 3).inputs()[0] == z);
            let idr = UniqueID { id: (start + 1) as usize };
            let ids = UniqueID { id: (start + 2) as usize };
            let idb = UniqueID { id: (start + 5) as usize };
            let idt = UniqueID { id: (start + 6) as usize };
            assert(c_end.node(start + 1).members.unique_id.id == start + 2);
            assert(k1.node(start as int).members.unique_id.id == start + 1);
            assert(k2.node(start + 5).members.unique_id.id == start + 6);
            assert(k3.node(start + 5).members.unique_id.id == start + 6);
            assert(k4.node(start + 4).members.unique_id.id == start + 5);
            assert(k5.node(start + 4).members.unique_id.id == start + 5);
            crate::circuit::lemma_connect_fresh(ids, r1);
            crate::circuit::lemma_connect_fresh(idr, r2);
            crate::circuit::lemma_connect_fresh(idt, r3);
            crate::circuit::lemma_connect_fresh(idt, r4);
            crate::circuit::lemma_connect_fresh(idb, r5);
            crate::circuit::lemma_connect_fresh(idb, r6);
            assert(k1.node(start + 5).inputs()[0] == seq![(ids, r1)]);
            assert(k1.node(start + 5).inputs()[1] == z);
            assert(k1.node(start + 4).inputs()[0] == z);
            assert(k1.node(start + 4).inputs()[1] == z);
            assert(k2.node(start + 4).inputs()[1] == seq![(idr, r2)]);
            assert(k2.node(start + 4).inputs()[0] == z);
            assert(k2.node(start + 2).inputs()[0] == z);
            assert(k3.node(start + 2).inputs()[0] == seq![(idt, r3)]);
            assert(k3.node(start + 4).inputs()[0] == z);
            assert(k4.node(start + 4).inputs()[0] == seq![(idt, r4)]);
            assert(k4.node(start + 4).inputs()[1] == seq![(idr, r2)]);
            assert(k4.node(start + 3).inputs()[0] == z);
            assert(k5.node(start + 3).inputs()[0] == seq![(idb, r5)]);
            assert(k5.node(start + 5).inputs()[1] == z);
            assert(k5.node(start + 5).inputs()[0] == seq![(ids, r1)]);
            assert(circuit.node(start + 5).inputs()[1] == seq![(idb, r6)]);
            assert(circuit.node(start + 5).inputs()[0] == seq![(ids, r1)]);
            assert(circuit.node(start + 4).inputs()[0] == seq![(idt, r4)]);
            assert(circuit.node(start + 4).inputs()[1] == seq![(idr, r2)]);
            assert(circuit.node(start + 2).inputs()[0] == seq![(idt, r3)]);
            assert(circuit.node(start + 3).inputs()[0] == seq![(idb, r5)]);
            assert(circuit.node(start as int).members.unique_id.id == start + 1);
            assert(circuit.node(start + 1).members.unique_id.id == start + 2);
            assert(circuit.node(start + 4).members.unique_id.id == start + 5);
            assert(circuit.node(start + 5).members.unique_id.id == start + 6);
        }
        let mut complex_gate = complex_gate;
        complex_gate.number_child_gates = 6;
        ActiveLowSRLatch { complex_gate, top_nand_gate, bottom_nand_gate }
    }
}

impl LogicGate for ActiveLowSRLatch {
    open spec fn spec_input_pin(&self, index: int) -> (int, int) {
        (self.complex_gate.input_gates@[index] as int, 0)
    }

    open spec fn spec_output_pin(&self, index: int) -> (int, int) {
        (self.complex_gate.output_gates@[index] as int, 0)
    }

    open spec fn spec_num_inputs(&self) -> nat {
        self.complex_gate.input_gates@.len()
    }

    open spec fn spec_num_outputs(&self) -> nat {
        self.complex_gate.output_gates@.len()
    }

    open spec fn spec_gate_type(&self) -> GateType {
        self.complex_gate.gate_type
    }

    open spec fn spec_unique_id(&self) -> UniqueID {
        self.complex_gate.unique_id
    }

    fn input_pin(&self, index: usize) -> (res: (usize, usize)) {
        (self.complex_gate.input_gates[index], 0)
    }

    fn output_pin(&self, index: usize) -> (res: (usize, usize)) {
        (self.complex_gate.output_gates[index], 0)
    }

    fn num_inputs(&self) -> (res: usize) {
        self.complex_gate.input_gates.len()
    }

    fn num_outputs(&self) -> (res: usize) {
        self.complex_gate.output_gates.len()
    }

    fn get_gate_type(&self) -> (res: GateType) {
        self.complex_gate.gate_type
    }

    fn get_unique_id(&self) -> (res: UniqueID) {
        self.complex_gate.unique_id
    }
}

impl ActiveLowSRLatch {
    /// The input or output index that `tag` names.
    pub fn get_index_from_tag(&self, tag: &str) -> (res: Option<usize>)
        ensures
            res == last_tag_index(self.complex_gate.gate_tags_to_index@, tag@),
    {
        self.complex_gate.get_index_from_tag(tag)
    }

    /// Brings the outputs up to date with what reaches them and returns their states.
    pub fn fetch_output_signals(&self, circuit: &mut Circuit) -> (res: Vec<GateOutputState>)
        requires
            old(circuit).wf(),
            complex_fits(&self.complex_gate, old(circuit).shape(), old(circuit).types()),
        ensures
            final(circuit).wf(),
            final(circuit).shape() == old(circuit).shape(),
            final(circuit).types() == old(circuit).types(),
            old(circuit).wiring_kept(*final(circuit)),
            res@.len() == self.complex_gate.output_gates@.len(),
            forall|i: int| 0 <= i < res@.len() ==> #[trigger] res@[i] == final(circuit).node(self.complex_gate.output_gates@[i] as int).outputs()[0],
    {
        proof {
            assert forall|i: int| 0 <= i < self.complex_gate.output_gates@.len() implies #[trigger] old(circuit).has_output(self.complex_gate.output_gates@[i] as int, 0) by {}
        }
        self.complex_gate.fetch_output_signals_calculate(circuit)
    }

    pub fn get_tag(&self) -> (res: String)
        ensures
            res@ == self.complex_gate.tag@,
    {
        self.complex_gate.tag.clone()
    }

    pub fn set_tag(&mut self, tag: &str)
        ensures
            final(self).complex_gate.tag@ == tag@,
            final(self).complex_gate.input_gates == old(self).complex_gate.input_gates,
            final(self).complex_gate.output_gates == old(self).complex_gate.output_gates,
            final(self).complex_gate.gate_tags_to_index == old(self).complex_gate.gate_tags_to_index,
    {
        self.complex_gate.tag = tag.to_owned();
    }

    pub fn toggle_output_printing(&mut self, print_output: bool)
        ensures
            final(self).complex_gate.should_print_output == print_output,
            final(self).complex_gate.input_gates == old(self).complex_gate.input_gates,
            final(self).complex_gate.output_gates == old(self).complex_gate.output_gates,
    {
        self.complex_gate.should_print_output = print_output;
    }

    /// The number of circuit gates that make up this gate.
    pub fn num_children_gates(&self) -> (res: usize)
        ensures
            res == self.complex_gate.number_child_gates,
    {
        self.complex_gate.number_child_gates
    }
}

impl ActiveLowSRLatch {
    /// Adds an active-low SR latch to the circuit and primes it from a forced start: `R` and `S` are both held HIGH, where the latch starts. Fails only
    /// when priming never comes to rest.
    pub fn new(circuit: &mut Circuit) -> (res: Result<Self, GateLogicError>)
        requires
            old(circuit).wf(),
            old(circuit).len() + 6 < usize::MAX,
        ensures
            final(circuit).wf(),
            final(circuit).shape() == old(circuit).shape() + Self::spec_shape(),
            final(circuit).types() == old(circuit).types() + Self::spec_types(),
            final(circuit).clock_tick_number == old(circuit).clock_tick_number,
            old(circuit).wiring_kept(*final(circuit)),
            forall|g: int, j: int, d: Option<(int, int)>| old(circuit).wire(g, j, d) ==> #[trigger] final(circuit).wire(g, j, d),
            match res {
                Ok(gate) => gate.built(*final(circuit), old(circuit).len() as int)
                    && gate.fed(*final(circuit), old(circuit).len() as int),
                Err(e) => crate::run_circuit::failure_shown(*final(circuit), e),
            },
    {
        let ghost c0 = *circuit;
        let start = circuit.num_gates();
        let gate = Self::build(circuit);
        proof {
            assert(circuit.shape().subrange(0, c0.shape().len() as int) =~= c0.shape());
            gate.lemma_sole_senders(c0, *circuit, start as int);
        }
        let ghost prev1 = *circuit;
        let forced1 = circuit.update_input_signal(start, GateInput::new(0, Signal::HIGH, UniqueID::zero_id()));
        proof {
            crate::circuit::lemma_wire_kept(prev1, *circuit);
            crate::circuit::lemma_wiring_kept_trans(c0, prev1, *circuit);
        }
        if let Err(e) = forced1 {
            return Err(e);
        }
        let ghost prev2 = *circuit;
        let forced2 = circuit.update_input_signal(start + 1, GateInput::new(0, Signal::HIGH, UniqueID::zero_id()));
        proof {
            crate::circuit::lemma_wire_kept(prev2, *circuit);
            crate::circuit::lemma_wiring_kept_trans(c0, prev2, *circuit);
        }
        if let Err(e) = forced2 {
            return Err(e);
        }
        let ghost prev0 = *circuit;
        let primed = circuit.prime_from(start);
        proof {
            crate::circuit::lemma_wire_kept(prev0, *circuit);
            crate::circuit::lemma_wiring_kept_trans(c0, prev0, *circuit);
        }
        if let Err(e) = primed {
            return Err(e);
        }
        proof {
            crate::circuit::lemma_wiring_kept_refl(prev1);
            crate::circuit::lemma_wiring_kept_trans(prev1, prev2, prev0);
            assert forall|h: int| start <= h < start + 6 implies #[trigger] prev0.node(h).members.unique_id == prev1.node(h).members.unique_id by {
                assert(prev0.node(h).members.unique_id.id == h + 1);
                assert(prev1.node(h).members.unique_id.id == h + 1);
            }
            assert forall|h: int| start <= h < start + 6 implies #[trigger] circuit.node(h).members.unique_id == prev1.node(h).members.unique_id by {
                assert(circuit.node(h).members.unique_id.id == h + 1);
                assert(prev1.node(h).members.unique_id.id == h + 1);
            }
            assert forall|h: int| start + 2 <= h < start + 6 implies #[trigger] prev0.node(h) == prev1.node(h) by {
                assert(prev2.node(h) == prev1.node(h));
            }
            let i0 = prev1.node(start as int).members.unique_id;
            let i1 = prev1.node(start + 1).members.unique_id;
            let i4 = prev1.node(start + 4).members.unique_id;
            let i5 = prev1.node(start + 5).members.unique_id;
            assert(prev0.fed_by(start + 5, 0, i1));
            assert(prev0.fed_by(start + 4, 1, i0));
            assert(prev0.fed_by(start + 2, 0, i5));
            assert(prev0.fed_by(start + 4, 0, i5));
            assert(prev0.fed_by(start + 3, 0, i4));
            assert(prev0.fed_by(start + 5, 1, i4));
            crate::circuit::lemma_sole_sender_kept(prev1, prev0, start + 5, 0, i1);
            crate::circuit::lemma_sole_sender_kept(prev1, prev0, start + 4, 1, i0);
            crate::circuit::lemma_sole_sender_kept(prev1, prev0, start + 2, 0, i5);
            crate::circuit::lemma_sole_sender_kept(prev1, prev0, start + 4, 0, i5);
            crate::circuit::lemma_sole_sender_kept(prev1, prev0, start + 3, 0, i4);
            crate::circuit::lemma_sole_sender_kept(prev1, prev0, start + 5, 1, i4);
            assert(circuit.fed_by(start + 5, 0, i1));
            assert(circuit.fed_by(start + 4, 1, i0));
            assert(circuit.fed_by(start + 2, 0, i5));
            assert(circuit.fed_by(start + 4, 0, i5));
            assert(circuit.fed_by(start + 3, 0, i4));
            assert(circuit.fed_by(start + 5, 1, i4));
        }
        Ok(gate)
    }
}


/// A one-bit memory: while `E` is HIGH the stored bit follows `S`; while `E` is LOW it is
/// kept. Every output (`Q`, `Q_1`, `Q_2`, ...) carries the stored bit.
pub struct OneBitMemoryCell {
    pub complex_gate: ComplexGateMembers,
    pub set_enable_nand_gate: Nand,
    pub enable_nand_gate: Nand,
    pub sr_top_nand_gate: Nand,
    pub sr_bottom_nand_gate: Nand,
}

impl OneBitMemoryCell {
    /// The types of the gates a cell with `output_num` outputs adds, in order: inputs `S`
    /// and `E`, the outputs, and four NAND gates.
    pub open spec fn spec_types(output_num: nat) -> Seq<GateType> {
        seq![GateType::SimpleInputType, GateType::SimpleInputType] + Seq::new(
            output_num,
            |i: int| GateType::SimpleOutputType,
        ) + seq![GateType::NandType, GateType::NandType, GateType::NandType, GateType::NandType]
    }

    /// The numbers of inputs and outputs of those gates.
    pub open spec fn spec_shape(output_num: nat) -> Seq<(nat, nat)> {
        seq![(1nat, 1nat), (1nat, 2nat)] + Seq::new(output_num, |i: int| (1nat, 1nat)) + seq![
            (2nat, 2nat),
            (2nat, 1nat),
            (2nat, (1 + output_num) as nat),
            (2nat, 1nat),
        ]
    }

    /// The tag of output `i`: `Q`, then `Q_1`, `Q_2`, ...
    pub open spec fn output_tag(i: int) -> Seq<char> {
        if i == 0 {
            "Q"@
        } else {
            "Q_"@ + decimal_chars(i as nat)
        }
    }

    /// This cell stands at gates `start..start + output_num + 6` of `c`: `S` and `E` feed the
    /// set-enable NAND, `E` also the enable NAND, which the set-enable NAND feeds too; these
    /// two drive the NAND latch, whose top gate feeds every output.
    pub open spec fn wired(&self, c: Circuit, start: int, output_num: nat) -> bool {
        let p = start + 2 + output_num;
        &&& self.complex_gate.input_gates@ == seq![(start + 1) as usize, start as usize]
        &&& self.complex_gate.output_gates@ == Seq::new(output_num, |i: int| (start + 2 + i) as usize)
        &&& self.complex_gate.gate_type == GateType::OneBitMemoryCellType
        &&& c.has_input(start, 0) && c.has_input(start + 1, 0)
        &&& forall|i: int| 0 <= i < output_num ==> c.has_output((#[trigger] self.complex_gate.output_gates@[i]) as int, 0)
        &&& self.set_enable_nand_gate.gate == p
        &&& self.enable_nand_gate.gate == p + 1
        &&& self.sr_top_nand_gate.gate == p + 2
        &&& self.sr_bottom_nand_gate.gate == p + 3
        &&& c.wire(start, 0, Some((p, 0int)))
        &&& c.wire(start + 1, 0, Some((p, 1int)))
        &&& c.wire(start + 1, 1, Some((p + 1, 1int)))
        &&& c.wire(p, 0, Some((p + 2, 0int)))
        &&& c.wire(p, 1, Some((p + 1, 0int)))
        &&& c.wire(p + 1, 0, Some((p + 3, 1int)))
        &&& c.wire(p + 2, 0, Some((start + 2, 0int)))
        &&& c.wire(p + 2, 1, Some((p + 3, 0int)))
        &&& c.wire(p + 3, 0, Some((p + 2, 1int)))
        &&& forall|i: int|
            1 <= i < output_num ==> c.wire(
                p + 2,
                i + 1,
                Some(((#[trigger] self.complex_gate.output_gates@[i]) as int, 0int)),
            )
    }

    /// Wired as above, with the outputs not yet connected and the tags `E`, `S`, `Q`, `Q_1`,
    /// ...
    pub open spec fn built(&self, c: Circuit, start: int, output_num: nat) -> bool {
        &&& self.wired(c, start, output_num)
        &&& forall|i: int| 0 <= i < output_num ==> c.wire((#[trigger] self.complex_gate.output_gates@[i]) as int, 0, None)
        &&& self.complex_gate.tag_names() == seq!["E"@, "S"@] + Seq::new(output_num, |i: int| Self::output_tag(i))
        &&& self.complex_gate.tags_laid_out()
    }

    /// Adds the gates of a cell with `output_num` outputs and wires them, without priming.
    #[verifier::spinoff_prover]
    #[verifier::rlimit(80)]
    pub fn build(circuit: &mut Circuit, output_num: usize) -> (res: Self)
        requires
            old(circuit).wf(),
            old(circuit).len() + output_num + 6 < usize::MAX,
            output_num >= 1,
        ensures
            final(circuit).wf(),
            final(circuit).shape() == old(circuit).shape() + Self::spec_shape(output_num as nat),
            final(circuit).types() == old(circuit).types() + Self::spec_types(output_num as nat),
            final(circuit).clock_tick_number == old(circuit).clock_tick_number,
            old(circuit).wiring_kept(*final(circuit)),
            forall|g: int, j: int, d: Option<(int, int)>| old(circuit).wire(g, j, d) ==> #[trigger] final(circuit).wire(g, j, d),
            res.built(*final(circuit), old(circuit).len() as int, output_num as nat),
    {
        let ghost c0 = *circuit;
        let start = circuit.num_gates();
        let s = SimpleInput::new(circuit, 1, "S");
        let ghost c1 = *circuit;
        let e = SimpleInput::new(circuit, 2, "E");
        let ghost c2 = *circuit;
        let mut outputs: Vec<usize> = Vec::new();
        let mut i: usize = 0;
        proof {
            assert(c0.shape().len() == c0.len());
            assert(c1.shape().len() == c1.len());
            assert(c2.shape().len() == c2.len());
            assert(c2.gates@.drop_last()[start as int] == c2.gates@[start as int]);
            assert(c2.shape() =~= c0.shape() + seq![(1nat, 1nat), (1nat, 2nat)]);
            assert(c2.types() =~= c0.types() + seq![GateType::SimpleInputType, GateType::SimpleInputType]);
            assert(c2.shape().subrange(0, c0.shape().len() as int) =~= c0.shape());
        }
        while i < output_num
            invariant
                start == c0.len(),
                c0.len() + output_num + 6 < usize::MAX,
                i <= output_num,
                circuit.wf(),
                circuit.len() == start + 2 + i,
                circuit.shape() == c2.shape() + Seq::new(i as nat, |k: int| (1nat, 1nat)),
                circuit.types() == c2.types() + Seq::new(i as nat, |k: int| GateType::SimpleOutputType),
                circuit.clock_tick_number == c0.clock_tick_number,
                c0.wiring_kept(*circuit),
                forall|g: int, j: int, d: Option<(int, int)>| c0.wire(g, j, d) ==> #[trigger] circuit.wire(g, j, d),
                c2.shape() == c0.shape() + seq![(1nat, 1nat), (1nat, 2nat)],
                c2.types() == c0.types() + seq![GateType::SimpleInputType, GateType::SimpleInputType],
                outputs@ == Seq::new(i as nat, |k: int| (start + 2 + k) as usize),
                circuit.node(start as int).members.tag@ == "S"@,
                circuit.node(start + 1).members.tag@ == "E"@,
                forall|k: int| 0 <= k < i ==> #[trigger] circuit.node(start + 2 + k).members.tag@ == Self::output_tag(k),
                forall|k: int| 0 <= k < i ==> #[trigger] circuit.wire(start + 2 + k, 0, None),
            decreases output_num - i,
        {
            let ghost before = *circuit;
            let tag = if i == 0 {
                "Q".to_owned()
            } else {
                numbered_tag("Q_", i)
            };
            proof {
                assert(tag@ == Self::output_tag(i as int));
            }
            let out = SimpleOutput::new(circuit, tag.as_str());
            proof {
                assert(circuit.node(out.gate as int).members.tag@ == Self::output_tag(i as int));
                assert(out.gate == start + 2 + i);
            }
            outputs.push(out.gate);
            proof {
                assert(circuit.shape().len() == circuit.len());
                assert(before.shape().len() == before.len());
                assert(before.shape().subrange(0, c0.shape().len() as int) =~= c0.shape());
                assert(circuit.shape() =~= c2.shape() + Seq::new(i as nat + 1, |k: int| (1nat, 1nat)));
                assert(circuit.types() =~= c2.types() + Seq::new(i as nat + 1, |k: int| GateType::SimpleOutputType));
                assert(outputs@ =~= Seq::new(i as nat + 1, |k: int| (start + 2 + k) as usize));
                assert(circuit.gates@.drop_last()[start as int] == circuit.gates@[start as int]);
                assert(circuit.gates@.drop_last()[start + 1] == circuit.gates@[start + 1]);
                assert forall|k: int| 0 <= k < i + 1 implies #[trigger] circuit.node(start + 2 + k).members.tag@ == Self::output_tag(k) by {
                    if k < i {
                        assert(before.node(start + 2 + k).members.tag@ == Self::output_tag(k));
                        assert(circuit.gates@.drop_last()[start + 2 + k] == circuit.gates@[start + 2 + k]);
                    }
                }
                assert forall|k: int| 0 <= k < i + 1 implies #[trigger] circuit.wire(start + 2 + k, 0, None) by {
                    if k < i {
                        assert(before.wire(start + 2 + k, 0, None));
                    }
                }
                assert(circuit.shape().subrange(0, before.shape().len() as int) =~= before.shape());
                crate::circuit::lemma_wiring_kept_trans(c0, before, *circuit);
            }
            i = i + 1;
        }
        let mut inputs: Vec<usize> = Vec::new();
        inputs.push(e.gate);
        inputs.push(s.gate);
        let ghost c3 = *circuit;
        proof {
            assert(inputs@ =~= seq![(start + 1) as usize, start as usize]);
        }
        let complex_gate = ComplexGateMembers::new(circuit, GateType::OneBitMemoryCellType, inputs, outputs);
        proof {
            assert(complex_gate.tag_names() =~= seq!["E"@, "S"@] + Seq::new(output_num as nat, |i: int| Self::output_tag(i))) by {
                assert forall|k: int| 2 <= k < 2 + output_num implies complex_gate.tag_names()[k] == Self::output_tag(k - 2) by {
                    assert(c3.node(start + 2 + (k - 2)).members.tag@ == Self::output_tag(k - 2));
                }
            }
        }
        let p = start + 2 + output_num;
        let set_enable_nand_gate = Nand::new(circuit, 2, 2);
        let enable_nand_gate = Nand::new(circuit, 2, 1);
        let sr_top_nand_gate = Nand::new(circuit, 2, 1 + output_num);
        let sr_bottom_nand_gate = Nand::new(circuit, 2, 1);
        let ghost c4 = *circuit;
        proof {
            assert(c4.shape() =~= c0.shape() + Self::spec_shape(output_num as nat));
            assert(c4.types() =~= c0.types() + Self::spec_types(output_num as nat));
        }
        circuit.connect(start, 0, p, 0);
        circuit.connect(start + 1, 0, p, 1);
        circuit.connect(start + 1, 1, p + 1, 1);
        circuit.connect(p, 0, p + 2, 0);
        circuit.connect(p, 1, p + 1, 0);
        circuit.connect(p + 1, 0, p + 3, 1);
        circuit.connect(p + 2, 0, start + 2, 0);
        circuit.connect(p + 2, 1, p + 3, 0);
        circuit.connect(p + 3, 0, p + 2, 1);
        let ghost c5 = *circuit;
        let mut k: usize = 1;
        while k < output_num
            invariant
                1 <= k <= output_num,
                p == start + 2 + output_num,
                p + 4 < usize::MAX,
                circuit.wf(),
                circuit.shape() == c5.shape(),
                circuit.types() == c5.types(),
                circuit.clock_tick_number == c5.clock_tick_number,
                c0.wiring_kept(*circuit),
                c0.shape().len() == start,
                c5.shape() == c0.shape() + Self::spec_shape(output_num as nat),
                start == c0.len(),
                forall|g: int, j: int, d: Option<(int, int)>| c5.wire(g, j, d) && !(g == p + 2 && j >= 2) ==> #[trigger] circuit.wire(g, j, d),
                forall|m: int| 1 <= m < k ==> circuit.wire(p + 2, m + 1, Some(((#[trigger] complex_gate.output_gates@[m]) as int, 0int))),
                complex_gate.output_gates@ == Seq::new(output_num as nat, |i: int| (start + 2 + i) as usize),
            decreases output_num - k,
        {
            let ghost before = *circuit;
            proof {
                assert(c0.shape().len() == c0.len());
                assert(Self::spec_shape(output_num as nat)[output_num + 4] == (2nat, (1 + output_num) as nat));
                assert(Self::spec_shape(output_num as nat)[2 + k] == (1nat, 1nat));
                assert(circuit.has_output(p + 2, k + 1));
                assert(circuit.has_input(start + 2 + k, 0));
            }
            circuit.connect(p + 2, k + 1, start + 2 + k, 0);
            proof {
                assert forall|g: int, j: int| c0.has_output(g, j) implies #[trigger] circuit.link(g, j) == c0.link(g, j) by {
                    assert(before.link(g, j) == c0.link(g, j));
                    assert(before.has_output(g, j));
                }
                assert forall|m: int| 1 <= m < k + 1 implies circuit.wire(p + 2, m + 1, Some(((#[trigger] complex_gate.output_gates@[m]) as int, 0int))) by {
                    if m < k {
                        assert(before.wire(p + 2, m + 1, Some((complex_gate.output_gates@[m] as int, 0int))));
                    }
                }
            }
            k = k + 1;
        }
        let mut complex_gate = complex_gate;
        complex_gate.number_child_gates = output_num + 6;
        OneBitMemoryCell { complex_gate, set_enable_nand_gate, enable_nand_gate, sr_top_nand_gate, sr_bottom_nand_gate }
    }
}


impl LogicGate for OneBitMemoryCell {
    open spec fn spec_input_pin(&self, index: int) -> (int, int) {
        (self.complex_gate.input_gates@[index] as int, 0)
    }

    open spec fn spec_output_pin(&self, index: int) -> (int, int) {
        (self.complex_gate.output_gates@[index] as int, 0)
    }

    open spec fn spec_num_inputs(&self) -> nat {
        self.complex_gate.input_gates@.len()
    }

    open spec fn spec_num_outputs(&self) -> nat {
        self.complex_gate.output_gates@.len()
    }

    open spec fn spec_gate_type(&self) -> GateType {
        self.complex_gate.gate_type
    }

    open spec fn spec_unique_id(&self) -> UniqueID {
        self.complex_gate.unique_id
    }

    fn input_pin(&self, index: usize) -> (res: (usize, usize)) {
        (self.complex_gate.input_gates[index], 0)
    }

    fn output_pin(&self, index: usize) -> (res: (usize, usize)) {
        (self.complex_gate.output_gates[index], 0)
    }

    fn num_inputs(&self) -> (res: usize) {
        self.complex_gate.input_gates.len()
    }

    fn num_outputs(&self) -> (res: usize) {
        self.complex_gate.output_gates.len()
    }

    fn get_gate_type(&self) -> (res: GateType) {
        self.complex_gate.gate_type
    }

    fn get_unique_id(&self) -> (res: UniqueID) {
        self.complex_gate.unique_id
    }
}

impl OneBitMemoryCell {
    /// The input or output index that `tag` names.
    pub fn get_index_from_tag(&self, tag: &str) -> (res: Option<usize>)
        ensures
            res == last_tag_index(self.complex_gate.gate_tags_to_index@, tag@),
    {
        self.complex_gate.get_index_from_tag(tag)
    }

    /// Brings the outputs up to date with what reaches them and returns their states.
    pub fn fetch_output_signals(&self, circuit: &mut Circuit) -> (res: Vec<GateOutputState>)
        requires
            old(circuit).wf(),
            complex_fits(&self.complex_gate, old(circuit).shape(), old(circuit).types()),
        ensures
            final(circuit).wf(),
            final(circuit).shape() == old(circuit).shape(),
            final(circuit).types() == old(circuit).types(),
            old(circuit).wiring_kept(*final(circuit)),
            res@.len() == self.complex_gate.output_gates@.len(),
            forall|i: int| 0 <= i < res@.len() ==> #[trigger] res@[i] == final(circuit).node(self.complex_gate.output_gates@[i] as int).outputs()[0],
    {
        proof {
            assert forall|i: int| 0 <= i < self.complex_gate.output_gates@.len() implies #[trigger] old(circuit).has_output(self.complex_gate.output_gates@[i] as int, 0) by {}
        }
        self.complex_gate.fetch_output_signals_calculate(circuit)
    }

    pub fn get_tag(&self) -> (res: String)
        ensures
            res@ == self.complex_gate.tag@,
    {
        self.complex_gate.tag.clone()
    }

    pub fn set_tag(&mut self, tag: &str)
        ensures
            final(self).complex_gate.tag@ == tag@,
            final(self).complex_gate.input_gates == old(self).complex_gate.input_gates,
            final(self).complex_gate.output_gates == old(self).complex_gate.output_gates,
            final(self).complex_gate.gate_tags_to_index == old(self).complex_gate.gate_tags_to_index,
    {
        self.complex_gate.tag = tag.to_owned();
    }

    pub fn toggle_output_printing(&mut self, print_output: bool)
        ensures
            final(self).complex_gate.should_print_output == print_output,
            final(self).complex_gate.input_gates == old(self).complex_gate.input_gates,
            final(self).complex_gate.output_gates == old(self).complex_gate.output_gates,
    {
        self.complex_gate.should_print_output = print_output;
    }

    /// The number of circuit gates that make up this gate.
    pub fn num_children_gates(&self) -> (res: usize)
        ensures
            res == self.complex_gate.number_child_gates,
    {
        self.complex_gate.number_child_gates
    }
}

impl OneBitMemoryCell {
    /// Adds a one-bit memory cell with `output_num` outputs to the circuit and primes it from a forced start: `E` is held HIGH, so that the stored bit starts LOW; then `E` is set back to LOW without letting it travel. Fails only
    /// when priming never comes to rest.
    pub fn new(circuit: &mut Circuit, output_num: usize) -> (res: Result<Self, GateLogicError>)
        requires
            old(circuit).wf(),
            old(circuit).len() + output_num + 6 < usize::MAX,
            output_num >= 1,
        ensures
            final(circuit).wf(),
            final(circuit).shape() == old(circuit).shape() + Self::spec_shape(output_num as nat),
            final(circuit).types() == old(circuit).types() + Self::spec_types(output_num as nat),
            final(circuit).clock_tick_number == old(circuit).clock_tick_number,
            old(circuit).wiring_kept(*final(circuit)),
            forall|g: int, j: int, d: Option<(int, int)>| old(circuit).wire(g, j, d) ==> #[trigger] final(circuit).wire(g, j, d),
            match res {
                Ok(gate) => gate.built(*final(circuit), old(circuit).len() as int, output_num as nat),
                Err(e) => crate::run_circuit::failure_shown(*final(circuit), e),
            },
    {
        let ghost c0 = *circuit;
        let start = circuit.num_gates();
        let gate = Self::build(circuit, output_num);
        proof {
            assert(circuit.shape().subrange(0, c0.shape().len() as int) =~= c0.shape());
        }
        let ghost prev1 = *circuit;
        let forced1 = circuit.update_input_signal(start + 1, GateInput::new(0, Signal::HIGH, UniqueID::zero_id()));
        proof {
            crate::circuit::lemma_wire_kept(prev1, *circuit);
            crate::circuit::lemma_wiring_kept_trans(c0, prev1, *circuit);
        }
        if let Err(e) = forced1 {
            return Err(e);
        }
        let ghost prev0 = *circuit;
        let primed = circuit.prime_from(start);
        proof {
            crate::circuit::lemma_wire_kept(prev0, *circuit);
            crate::circuit::lemma_wiring_kept_trans(c0, prev0, *circuit);
        }
        if let Err(e) = primed {
            return Err(e);
        }
        let ghost prev2 = *circuit;
        let forced2 = circuit.update_input_signal(start + 1, GateInput::new(0, Signal::LOW_, UniqueID::zero_id()));
        proof {
            crate::circuit::lemma_wire_kept(prev2, *circuit);
            crate::circuit::lemma_wiring_kept_trans(c0, prev2, *circuit);
        }
        if let Err(e) = forced2 {
            return Err(e);
        }
        Ok(gate)
    }
}


/// A memory of `number_bits` bits. While `S` is HIGH, bit `k` stores input `i_<k>`; it shows
/// on outputs `o_<k>` and `reg_<k>`.
pub struct VariableBitMemoryCell {
    pub complex_gate: ComplexGateMembers,
    pub one_bit_memory_cells: Vec<OneBitMemoryCell>,
}

impl VariableBitMemoryCell {
    /// The number of circuit gates a memory of `number_bits` bits uses.
    pub open spec fn spec_len(number_bits: nat) -> nat {
        11 * number_bits + 1
    }

    /// This memory stands at gates `start..start + 11 * number_bits + 1` of `c`. Bit `k` has
    /// input `i_<k>` at `start + 10 * k`, output `o_<k>` right after it and its cell after
    /// that; the outputs `reg_<k>` follow all the bits, and `S` comes last. Input `i_<k>`
    /// feeds the `S` of cell `k`, output `k` of `S` its `E`, and its two outputs feed `o_<k>`
    /// and `reg_<k>`.
    pub open spec fn wired(&self, c: Circuit, start: int, number_bits: nat) -> bool {
        let n = number_bits as int;
        &&& self.complex_gate.input_gates@ == Seq::new(number_bits, |k: int| (start + 10 * k) as usize).push(
            (start + 11 * n) as usize,
        )
        &&& self.complex_gate.output_gates@ == Seq::new(number_bits, |k: int| (start + 10 * k + 1) as usize)
            + Seq::new(number_bits, |k: int| (start + 10 * n + k) as usize)
        &&& self.complex_gate.gate_type == GateType::VariableBitMemoryCellType
        &&& self.one_bit_memory_cells@.len() == number_bits
        &&& forall|k: int|
            0 <= k < n ==> {
                let cell = #[trigger] self.one_bit_memory_cells@[k];
                &&& cell.wired(c, start + 10 * k + 2, 2)
                &&& c.wire(start + 10 * k, 0, Some((start + 10 * k + 2, 0int)))
                &&& c.wire(start + 11 * n, k, Some((start + 10 * k + 3, 0int)))
                &&& c.wire(start + 10 * k + 4, 0, Some((start + 10 * k + 1, 0int)))
                &&& c.wire(start + 10 * k + 5, 0, Some((start + 10 * n + k, 0int)))
            }
    }

    /// Wired as above, with its inputs and outputs in the circuit and tagged `i_<k>`, `S`,
    /// `o_<k>`, `reg_<k>`.
    pub open spec fn built(&self, c: Circuit, start: int, number_bits: nat) -> bool {
        &&& self.wired(c, start, number_bits)
        &&& complex_fits(&self.complex_gate, c.shape(), c.types())
        &&& self.complex_gate.tag_names() == Seq::new(number_bits, |k: int| numbered("i_"@, k)).push("S"@)
            + Seq::new(number_bits, |k: int| numbered("o_"@, k)) + Seq::new(number_bits, |k: int| numbered("reg_"@, k))
        &&& self.complex_gate.tags_laid_out()
    }
}


impl VariableBitMemoryCell {
    /// Adds a memory of `number_bits` bits to the circuit and primes it. Each cell is primed
    /// as it is added, then the whole memory. Fails only when priming does not come to rest or two senders drive one input.
    #[verifier::spinoff_prover]
    #[verifier::rlimit(100)]
    pub fn new(circuit: &mut Circuit, number_bits: usize) -> (res: Result<Self, GateLogicError>)
        requires
            old(circuit).wf(),
            number_bits >= 1,
            old(circuit).len() + 11 * number_bits + 1 < usize::MAX,
        ensures
            final(circuit).wf(),
            final(circuit).clock_tick_number == old(circuit).clock_tick_number,
            old(circuit).wiring_kept(*final(circuit)),
            forall|g: int, j: int, d: Option<(int, int)>| old(circuit).wire(g, j, d) ==> #[trigger] final(circuit).wire(g, j, d),
            match res {
                Ok(gate) => {
                    &&& final(circuit).len() == old(circuit).len() + Self::spec_len(number_bits as nat)
                    &&& crate::logic::foundations::shape_extends(old(circuit).shape(), final(circuit).shape())
                    &&& crate::logic::foundations::types_extend(old(circuit).types(), final(circuit).types())
                    &&& gate.built(*final(circuit), old(circuit).len() as int, number_bits as nat)
                    &&& settled_from(*final(circuit), old(circuit).len() as int)
                },
                Err(e) => crate::run_circuit::failure_shown(*final(circuit), e),
            },
    {
        let ghost c0 = *circuit;
        let start = circuit.num_gates();
        let n = number_bits;
        let mut input_gates: Vec<usize> = Vec::new();
        let mut input_tags: Vec<String> = Vec::new();
        let mut output_gates: Vec<usize> = Vec::new();
        let mut output_tags: Vec<String> = Vec::new();
        let mut cells: Vec<OneBitMemoryCell> = Vec::new();
        proof {
            crate::circuit::lemma_wiring_kept_refl(c0);
            assert(c0.shape().len() == c0.len());
            assert(c0.types().subrange(0, c0.types().len() as int) =~= c0.types());
        }
        let mut i: usize = 0;
        while i < n
            invariant
                c0 == *old(circuit),
                start == c0.len(),
                c0.shape().len() == start,
                start + 11 * n + 1 < usize::MAX,
                i <= n,
                circuit.wf(),
                circuit.len() == start + 10 * i,
                circuit.clock_tick_number == c0.clock_tick_number,
                c0.wiring_kept(*circuit),
                crate::logic::foundations::shape_extends(c0.shape(), circuit.shape()),
                crate::logic::foundations::types_extend(c0.types(), circuit.types()),
                forall|g: int, j: int, d: Option<(int, int)>| c0.wire(g, j, d) ==> #[trigger] circuit.wire(g, j, d),
                input_gates@ == Seq::new(i as nat, |k: int| (start + 10 * k) as usize),
                output_gates@ == Seq::new(i as nat, |k: int| (start + 10 * k + 1) as usize),
                input_tags@.len() == i,
                output_tags@.len() == i,
                forall|k: int| 0 <= k < i ==> (#[trigger] input_tags@[k])@ == numbered("i_"@, k),
                forall|k: int| 0 <= k < i ==> (#[trigger] output_tags@[k])@ == numbered("o_"@, k),
                cells@.len() == i,
                forall|k: int| 0 <= k < i ==> (#[trigger] cells@[k]).built(*circuit, start + 10 * k + 2, 2),
                forall|k: int|
                    0 <= k < i ==> {
                        let g = (#[trigger] input_gates@[k]) as int;
                        &&& circuit.shape()[g] == (1nat, 1nat)
                        &&& circuit.types()[g] == GateType::SimpleInputType
                        &&& circuit.wire(g, 0, None)
                    },
                forall|k: int|
                    0 <= k < i ==> {
                        let g = (#[trigger] output_gates@[k]) as int;
                        &&& circuit.shape()[g] == (1nat, 1nat)
                        &&& circuit.types()[g] == GateType::SimpleOutputType
                        &&& circuit.wire(g, 0, None)
                    },
            decreases n - i,
        {
            let ghost before = *circuit;
            let in_tag = numbered_tag("i_", i);
            let input = SimpleInput::new(circuit, 1, in_tag.as_str());
            let out_tag = numbered_tag("o_", i);
            let output = SimpleOutput::new(circuit, out_tag.as_str());
            let ghost mid = *circuit;
            proof {
                assert(mid.shape().subrange(0, c0.shape().len() as int) =~= c0.shape()) by {
                    assert(before.shape().subrange(0, c0.shape().len() as int) =~= c0.shape());
                }
                assert(mid.types().subrange(0, c0.types().len() as int) =~= c0.types()) by {
                    assert(before.types().subrange(0, c0.types().len() as int) =~= c0.types());
                }
            }
            let cell = match OneBitMemoryCell::new(circuit, 2) {
                Ok(cell) => cell,
                Err(e) => {
                    return Err(e);
                },
            };
            proof {
                assert(circuit.shape().subrange(0, c0.shape().len() as int) =~= c0.shape()) by {
                    assert(circuit.shape().subrange(0, mid.shape().len() as int) =~= mid.shape());
                }
                assert(circuit.types().subrange(0, c0.types().len() as int) =~= c0.types()) by {
                    assert(circuit.types().subrange(0, mid.types().len() as int) =~= mid.types());
                }
                assert(circuit.shape().subrange(0, mid.shape().len() as int) =~= mid.shape());
                assert(circuit.types().subrange(0, mid.types().len() as int) =~= mid.types());
                assert(mid.shape().subrange(0, before.shape().len() as int) =~= before.shape());
                assert(mid.types().subrange(0, before.types().len() as int) =~= before.types());
                crate::circuit::lemma_wiring_kept_trans(c0, before, mid);
                crate::circuit::lemma_wiring_kept_trans(c0, mid, *circuit);
            }
            input_gates.push(input.gate);
            output_gates.push(output.gate);
            input_tags.push(in_tag);
            output_tags.push(out_tag);
            cells.push(cell);
            proof {
                assert(input_gates@ =~= Seq::new(i as nat + 1, |k: int| (start + 10 * k) as usize));
                assert(output_gates@ =~= Seq::new(i as nat + 1, |k: int| (start + 10 * k + 1) as usize));
                assert forall|k: int| 0 <= k < i + 1 implies (#[trigger] cells@[k]).built(*circuit, start + 10 * k + 2, 2) by {
                    if k < i {
                        assert(before.len() == start + 10 * i);
                        crate::circuit::lemma_wire_kept(before, before);
                    }
                }
            }
            i = i + 1;
        }
        let ghost c1 = *circuit;
        let mut j: usize = 0;
        while j < n
            invariant
                c0 == *old(circuit),
                start == c0.len(),
                c0.shape().len() == start,
                start + 11 * n + 1 < usize::MAX,
                j <= n,
                circuit.wf(),
                circuit.len() == start + 10 * n + j,
                circuit.clock_tick_number == c0.clock_tick_number,
                c0.wiring_kept(*circuit),
                crate::logic::foundations::shape_extends(c0.shape(), circuit.shape()),
                crate::logic::foundations::types_extend(c0.types(), circuit.types()),
                forall|g: int, j2: int, d: Option<(int, int)>| c0.wire(g, j2, d) ==> #[trigger] circuit.wire(g, j2, d),
                input_gates@ == Seq::new(n as nat, |k: int| (start + 10 * k) as usize),
                output_gates@ == Seq::new(n as nat, |k: int| (start + 10 * k + 1) as usize) + Seq::new(
                    j as nat,
                    |k: int| (start + 10 * n + k) as usize,
                ),
                input_tags@.len() == n,
                output_tags@.len() == n + j,
                forall|k: int| 0 <= k < n ==> (#[trigger] input_tags@[k])@ == numbered("i_"@, k),
                forall|k: int| 0 <= k < n ==> (#[trigger] output_tags@[k])@ == numbered("o_"@, k),
                forall|k: int| n <= k < n + j ==> (#[trigger] output_tags@[k])@ == numbered("reg_"@, k - n),
                cells@.len() == n,
                forall|k: int| 0 <= k < n ==> (#[trigger] cells@[k]).built(*circuit, start + 10 * k + 2, 2),
                forall|k: int|
                    0 <= k < n ==> {
                        let g = (#[trigger] input_gates@[k]) as int;
                        &&& circuit.shape()[g] == (1nat, 1nat)
                        &&& circuit.types()[g] == GateType::SimpleInputType
                        &&& circuit.wire(g, 0, None)
                    },
                forall|k: int|
                    0 <= k < n + j ==> {
                        let g = (#[trigger] output_gates@[k]) as int;
                        &&& circuit.shape()[g] == (1nat, 1nat)
                        &&& circuit.types()[g] == GateType::SimpleOutputType
                        &&& circuit.wire(g, 0, None)
                    },
            decreases n - j,
        {
            let ghost before = *circuit;
            let reg_tag = numbered_tag("reg_", j);
            let output = SimpleOutput::new(circuit, reg_tag.as_str());
            proof {
                assert(circuit.shape().subrange(0, c0.shape().len() as int) =~= c0.shape()) by {
                    assert(before.shape().subrange(0, c0.shape().len() as int) =~= c0.shape());
                }
                assert(circuit.types().subrange(0, c0.types().len() as int) =~= c0.types()) by {
                    assert(before.types().subrange(0, c0.types().len() as int) =~= c0.types());
                }
                assert(circuit.shape().subrange(0, before.shape().len() as int) =~= before.shape());
                assert(circuit.types().subrange(0, before.types().len() as int) =~= before.types());
                crate::circuit::lemma_wiring_kept_trans(c0, before, *circuit);
            }
            output_gates.push(output.gate);
            output_tags.push(reg_tag);
            proof {
                assert(output_gates@ =~= Seq::new(n as nat, |k: int| (start + 10 * k + 1) as usize) + Seq::new(
                    j as nat + 1,
                    |k: int| (start + 10 * n + k) as usize,
                ));
                assert forall|k: int| 0 <= k < n implies (#[trigger] cells@[k]).built(*circuit, start + 10 * k + 2, 2) by {
                    assert(before.len() == start + 10 * n + j);
                }
            }
            j = j + 1;
        }
        let ghost c2 = *circuit;
        let s_tag = "S".to_owned();
        let s_input = SimpleInput::new(circuit, n, s_tag.as_str());
        proof {
            assert(circuit.shape().subrange(0, c0.shape().len() as int) =~= c0.shape()) by {
                assert(c2.shape().subrange(0, c0.shape().len() as int) =~= c0.shape());
            }
            assert(circuit.types().subrange(0, c0.types().len() as int) =~= c0.types()) by {
                assert(c2.types().subrange(0, c0.types().len() as int) =~= c0.types());
            }
            assert(circuit.shape().subrange(0, c2.shape().len() as int) =~= c2.shape());
            assert(circuit.types().subrange(0, c2.types().len() as int) =~= c2.types());
            crate::circuit::lemma_wiring_kept_trans(c0, c2, *circuit);
        }
        input_gates.push(s_input.gate);
        input_tags.push(s_tag);
        let ghost c3 = *circuit;
        proof {
            assert(input_gates@ =~= Seq::new(n as nat, |k: int| (start + 10 * k) as usize).push((start + 11 * n) as usize));
            assert(input_gates@[0] == start);
            assert(c2.shape().len() == c2.len());
            assert(c3.shape().len() == c3.len());
            assert(c3.len() == start + 11 * n + 1);
            assert(output_gates@.len() == 2 * n);
        }
        let complex_gate = ComplexGateMembers::from_tags(
            circuit,
            GateType::VariableBitMemoryCellType,
            input_gates,
            output_gates,
            input_tags,
            output_tags,
        );
        proof {
            assert(complex_gate.tag_names() =~= Seq::new(n as nat, |k: int| numbered("i_"@, k)).push("S"@)
                + Seq::new(n as nat, |k: int| numbered("o_"@, k)) + Seq::new(n as nat, |k: int| numbered("reg_"@, k)));
            assert forall|k: int| 0 <= k < n implies (#[trigger] cells@[k]).built(*circuit, start + 10 * k + 2, 2) by {
                assert(c2.len() == start + 11 * n);
            }
            assert(c3.shape()[start + 11 * n] == (1nat, n as nat));
            assert(c3.shape().subrange(0, c0.shape().len() as int) =~= c0.shape()) by {
                assert(c3.shape().subrange(0, c2.shape().len() as int) =~= c2.shape());
                assert(c2.shape().subrange(0, c0.shape().len() as int) =~= c0.shape());
            }
            assert(c3.types().subrange(0, c0.types().len() as int) =~= c0.types()) by {
                assert(c3.types().subrange(0, c2.types().len() as int) =~= c2.types());
                assert(c2.types().subrange(0, c0.types().len() as int) =~= c0.types());
            }
        }
        let ghost c4 = *circuit;
        let mut k: usize = 0;
        while k < n
            invariant
                c0 == *old(circuit),
                start == c0.len(),
                c0.shape().len() == start,
                start + 11 * n + 1 < usize::MAX,
                k <= n,
                c4 == c3,
                crate::logic::foundations::shape_extends(c0.shape(), circuit.shape()),
                circuit.wf(),
                circuit.shape() == c4.shape(),
                circuit.types() == c4.types(),
                circuit.len() == start + 11 * n + 1,
                circuit.clock_tick_number == c0.clock_tick_number,
                c0.wiring_kept(*circuit),
                forall|g: int, j2: int, d: Option<(int, int)>| c0.wire(g, j2, d) ==> #[trigger] circuit.wire(g, j2, d),
                c4.shape()[start + 11 * n] == (1nat, n as nat),
                complex_gate.input_gates@ == Seq::new(n as nat, |k: int| (start + 10 * k) as usize).push((start + 11 * n) as usize),
                complex_gate.output_gates@ == Seq::new(n as nat, |k: int| (start + 10 * k + 1) as usize)
                    + Seq::new(n as nat, |k: int| (start + 10 * n + k) as usize),
                cells@.len() == n,
                forall|m: int|
                    0 <= m < n ==> {
                        let g = (#[trigger] complex_gate.input_gates@[m]) as int;
                        &&& circuit.shape()[g] == (1nat, 1nat)
                        &&& circuit.types()[g] == GateType::SimpleInputType
                    },
                forall|m: int|
                    0 <= m < 2 * n ==> {
                        let g = (#[trigger] complex_gate.output_gates@[m]) as int;
                        &&& circuit.shape()[g] == (1nat, 1nat)
                        &&& circuit.types()[g] == GateType::SimpleOutputType
                    },
                forall|m: int|
                    0 <= m < n ==> {
                        &&& (#[trigger] cells@[m]).wired(*circuit, start + 10 * m + 2, 2)
                        &&& m < k ==> circuit.wire(start + 10 * m, 0, Some((start + 10 * m + 2, 0int)))
                        &&& m < k ==> circuit.wire(start + 11 * n, m, Some((start + 10 * m + 3, 0int)))
                        &&& m < k ==> circuit.wire(start + 10 * m + 4, 0, Some((start + 10 * m + 1, 0int)))
                        &&& m < k ==> circuit.wire(start + 10 * m + 5, 0, Some((start + 10 * n + m, 0int)))
                    },
            decreases n - k,
        {
            let kk = k;
            k = k + 1;
            let ghost before = *circuit;
            proof {
                let cell = cells@[kk as int];
                assert(cell.wired(before, start + 10 * kk + 2, 2));
                assert(cell.complex_gate.output_gates@[0] == start + 10 * kk + 4);
                assert(cell.complex_gate.output_gates@[1] == start + 10 * kk + 5);
                assert(before.has_output(start + 10 * kk + 4, 0));
                assert(before.has_output(start + 10 * kk + 5, 0));
                assert(complex_gate.input_gates@[kk as int] == start + 10 * kk);
                assert(complex_gate.output_gates@[kk as int] == start + 10 * kk + 1);
                assert(complex_gate.output_gates@[n + kk] == start + 10 * n + kk);
                assert(before.shape()[start + 10 * kk] == (1nat, 1nat));
                assert(before.shape()[start + 10 * kk + 1] == (1nat, 1nat));
                assert(before.shape()[start + 10 * n + kk] == (1nat, 1nat));
            }
            circuit.connect(start + 10 * kk, 0, start + 10 * kk + 2, 0);
            circuit.connect(start + 11 * n, kk, start + 10 * kk + 3, 0);
            circuit.connect(start + 10 * kk + 4, 0, start + 10 * kk + 1, 0);
            circuit.connect(start + 10 * kk + 5, 0, start + 10 * n + kk, 0);
            proof {
                assert(circuit.wire(start + 10 * kk, 0, Some((start + 10 * kk + 2, 0int))));
                assert(circuit.wire(start + 11 * n, kk as int, Some((start + 10 * kk + 3, 0int))));
                assert(circuit.wire(start + 10 * kk + 4, 0, Some((start + 10 * kk + 1, 0int))));
                assert(circuit.wire(start + 10 * kk + 5, 0, Some((start + 10 * n + kk, 0int))));
                assert forall|m: int| 0 <= m < n implies {
                    &&& (#[trigger] cells@[m]).wired(*circuit, start + 10 * m + 2, 2)
                    &&& m < k ==> circuit.wire(start + 10 * m, 0, Some((start + 10 * m + 2, 0int)))
                    &&& m < k ==> circuit.wire(start + 11 * n, m, Some((start + 10 * m + 3, 0int)))
                    &&& m < k ==> circuit.wire(start + 10 * m + 4, 0, Some((start + 10 * m + 1, 0int)))
                    &&& m < k ==> circuit.wire(start + 10 * m + 5, 0, Some((start + 10 * n + m, 0int)))
                } by {
                    assert(cells@[m].wired(before, start + 10 * m + 2, 2));
                    if m < kk {
                        assert(before.wire(start + 10 * m, 0, Some((start + 10 * m + 2, 0int))));
                        assert(before.wire(start + 11 * n, m, Some((start + 10 * m + 3, 0int))));
                        assert(before.wire(start + 10 * m + 4, 0, Some((start + 10 * m + 1, 0int))));
                        assert(before.wire(start + 10 * m + 5, 0, Some((start + 10 * n + m, 0int))));
                    }
                }
                assert forall|g: int, j2: int| c0.has_output(g, j2) implies #[trigger] circuit.link(g, j2) == c0.link(g, j2) by {
                    assert(before.link(g, j2) == c0.link(g, j2));
                    assert(before.has_output(g, j2));
                }
            }
        }
        let mut complex_gate = complex_gate;
        complex_gate.number_child_gates = 11 * n + 1;
        let gate = VariableBitMemoryCell { complex_gate, one_bit_memory_cells: cells };
        let ghost c5 = *circuit;
        proof {
            assert(gate.wired(c5, start as int, n as nat));
            assert(gate.complex_gate.tag_names() == Seq::new(n as nat, |k: int| numbered("i_"@, k)).push("S"@)
                + Seq::new(n as nat, |k: int| numbered("o_"@, k)) + Seq::new(n as nat, |k: int| numbered("reg_"@, k)));
            assert(gate.complex_gate.tags_laid_out());
            assert(complex_fits(&gate.complex_gate, c5.shape(), c5.types()));
            assert(gate.built(c5, start as int, n as nat));
        }
        let primed = circuit.prime_from(start);
        proof {
            crate::circuit::lemma_wire_kept(c5, *circuit);
            assert(circuit.shape().subrange(0, c0.shape().len() as int) =~= c0.shape()) by {
                assert(c5.shape().subrange(0, c0.shape().len() as int) =~= c0.shape());
            }
            assert(circuit.types().subrange(0, c0.types().len() as int) =~= c0.types()) by {
                assert(c5.types().subrange(0, c0.types().len() as int) =~= c0.types());
            }
            crate::circuit::lemma_wiring_kept_refl(c5);
            crate::circuit::lemma_wiring_kept_trans(c0, c5, *circuit);
            assert forall|m: int| 0 <= m < n implies (#[trigger] gate.one_bit_memory_cells@[m]).wired(*circuit, start + 10 * m + 2, 2) by {
                assert(gate.one_bit_memory_cells@[m].wired(c5, start + 10 * m + 2, 2));
            }
        }
        match primed {
            Ok(()) => Ok(gate),
            Err(e) => Err(e),
        }
    }
}


impl LogicGate for VariableBitMemoryCell {
    open spec fn spec_input_pin(&self, index: int) -> (int, int) {
        (self.complex_gate.input_gates@[index] as int, 0)
    }

    open spec fn spec_output_pin(&self, index: int) -> (int, int) {
        (self.complex_gate.output_gates@[index] as int, 0)
    }

    open spec fn spec_num_inputs(&self) -> nat {
        self.complex_gate.input_gates@.len()
    }

    open spec fn spec_num_outputs(&self) -> nat {
        self.complex_gate.output_gates@.len()
    }

    open spec fn spec_gate_type(&self) -> GateType {
        self.complex_gate.gate_type
    }

    open spec fn spec_unique_id(&self) -> UniqueID {
        self.complex_gate.unique_id
    }

    fn input_pin(&self, index: usize) -> (res: (usize, usize)) {
        (self.complex_gate.input_gates[index], 0)
    }

    fn output_pin(&self, index: usize) -> (res: (usize, usize)) {
        (self.complex_gate.output_gates[index], 0)
    }

    fn num_inputs(&self) -> (res: usize) {
        self.complex_gate.input_gates.len()
    }

    fn num_outputs(&self) -> (res: usize) {
        self.complex_gate.output_gates.len()
    }

    fn get_gate_type(&self) -> (res: GateType) {
        self.complex_gate.gate_type
    }

    fn get_unique_id(&self) -> (res: UniqueID) {
        self.complex_gate.unique_id
    }
}

impl VariableBitMemoryCell {
    /// The input or output index that `tag` names.
    pub fn get_index_from_tag(&self, tag: &str) -> (res: Option<usize>)
        ensures
            res == last_tag_index(self.complex_gate.gate_tags_to_index@, tag@),
    {
        self.complex_gate.get_index_from_tag(tag)
    }

    /// Brings the outputs up to date with what reaches them and returns their states.
    pub fn fetch_output_signals(&self, circuit: &mut Circuit) -> (res: Vec<GateOutputState>)
        requires
            old(circuit).wf(),
            complex_fits(&self.complex_gate, old(circuit).shape(), old(circuit).types()),
        ensures
            final(circuit).wf(),
            final(circuit).shape() == old(circuit).shape(),
            final(circuit).types() == old(circuit).types(),
            old(circuit).wiring_kept(*final(circuit)),
            res@.len() == self.complex_gate.output_gates@.len(),
            forall|i: int| 0 <= i < res@.len() ==> #[trigger] res@[i] == final(circuit).node(self.complex_gate.output_gates@[i] as int).outputs()[0],
    {
        proof {
            assert forall|i: int| 0 <= i < self.complex_gate.output_gates@.len() implies #[trigger] old(circuit).has_output(self.complex_gate.output_gates@[i] as int, 0) by {}
        }
        self.complex_gate.fetch_output_signals_calculate(circuit)
    }

    pub fn get_tag(&self) -> (res: String)
        ensures
            res@ == self.complex_gate.tag@,
    {
        self.complex_gate.tag.clone()
    }

    pub fn set_tag(&mut self, tag: &str)
        ensures
            final(self).complex_gate.tag@ == tag@,
            final(self).complex_gate.input_gates == old(self).complex_gate.input_gates,
            final(self).complex_gate.output_gates == old(self).complex_gate.output_gates,
            final(self).complex_gate.gate_tags_to_index == old(self).complex_gate.gate_tags_to_index,
    {
        self.complex_gate.tag = tag.to_owned();
    }

    pub fn toggle_output_printing(&mut self, print_output: bool)
        ensures
            final(self).complex_gate.should_print_output == print_output,
            final(self).complex_gate.input_gates == old(self).complex_gate.input_gates,
            final(self).complex_gate.output_gates == old(self).complex_gate.output_gates,
    {
        self.complex_gate.should_print_output = print_output;
    }

    /// The number of circuit gates that make up this gate.
    pub fn num_children_gates(&self) -> (res: usize)
        ensures
            res == self.complex_gate.number_child_gates,
    {
        self.complex_gate.number_child_gates
    }
}

} // verus!
