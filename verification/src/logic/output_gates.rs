use vstd::prelude::*;

use crate::circuit::{is_fresh, Circuit};
use crate::logic::foundations::{gate_fits, GateType, LogicGate};
use crate::logic::signals::{Signal, UniqueID};

verus! {

/// A gate that the signals of a circuit end at.
pub trait OutputGate {
    fn get_output_tag(&self, circuit: &Circuit) -> (res: String)
        requires
            self.spec_gate() < circuit.len(),
        ensures
            res@ == circuit.node(self.spec_gate() as int).members.tag@,
    ;

    spec fn spec_gate(&self) -> usize;
}

/// Handle of a simple output: it shows the signal on its only input, and passes it on by its
/// only output. Complex gates send their outputs through these.
pub struct SimpleOutput {
    pub gate: usize,
    pub unique_id: UniqueID,
}

impl SimpleOutput {
    pub fn new(circuit: &mut Circuit, tag: &str) -> (res: Self)
        requires
            old(circuit).wf(),
            old(circuit).len() + 1 < usize::MAX,
        ensures
            final(circuit).wf(),
            res.gate == old(circuit).len(),
            final(circuit).gates@.drop_last() == old(circuit).gates@,
            old(circuit).wiring_kept(*final(circuit)),
            forall|g: int, j: int, d: Option<(int, int)>| old(circuit).wire(g, j, d) ==> #[trigger] final(circuit).wire(g, j, d),
            final(circuit).shape() == old(circuit).shape().push((1 as nat, 1 as nat)),
            final(circuit).types() == old(circuit).types().push(GateType::SimpleOutputType),
            final(circuit).clock_tick_number == old(circuit).clock_tick_number,
            gate_fits(&res, final(circuit).shape()),
            res.unique_id.id == old(circuit).len() + 1,
            is_fresh(final(circuit).node(res.gate as int), GateType::SimpleOutputType, 1 as nat, 1 as nat, Signal::LOW_, res.unique_id),
            final(circuit).node(res.gate as int).members.tag@ == tag@,
    {
        let gate = circuit.add_special_gate(GateType::SimpleOutputType, 1, 1, Signal::LOW_, tag, 1, Vec::new());
        let unique_id = circuit.gates[gate].members.unique_id;
        SimpleOutput { gate, unique_id }
    }
}

impl OutputGate for SimpleOutput {
    open spec fn spec_gate(&self) -> usize {
        self.gate
    }

    fn get_output_tag(&self, circuit: &Circuit) -> (res: String) {
        circuit.get_tag(self.gate)
    }
}

impl LogicGate for SimpleOutput {
    open spec fn spec_input_pin(&self, index: int) -> (int, int) {
        (self.gate as int, index)
    }

    open spec fn spec_output_pin(&self, index: int) -> (int, int) {
        (self.gate as int, index)
    }

    open spec fn spec_num_inputs(&self) -> nat {
        (1usize) as nat
    }

    open spec fn spec_num_outputs(&self) -> nat {
        (1usize) as nat
    }

    open spec fn spec_gate_type(&self) -> GateType {
        GateType::SimpleOutputType
    }

    open spec fn spec_unique_id(&self) -> UniqueID {
        self.unique_id
    }

    fn input_pin(&self, index: usize) -> (res: (usize, usize)) {
        (self.gate, index)
    }

    fn output_pin(&self, index: usize) -> (res: (usize, usize)) {
        (self.gate, index)
    }

    fn num_inputs(&self) -> (res: usize) {
        1usize
    }

    fn num_outputs(&self) -> (res: usize) {
        1usize
    }

    fn get_gate_type(&self) -> (res: GateType) {
        GateType::SimpleOutputType
    }

    fn get_unique_id(&self) -> (res: UniqueID) {
        self.unique_id
    }
}

} // verus!
