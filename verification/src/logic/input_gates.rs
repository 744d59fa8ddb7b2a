use vstd::prelude::*;

use crate::circuit::{is_fresh, Circuit};
use crate::logic::foundations::{gate_fits, output_signal, GateOutputState, GateType, LogicGate};
use crate::logic::signals::{Signal, UniqueID};

verus! {

/// Handle of a clock: each tick it flips the signal on all its outputs.
pub struct Clock {
    pub gate: usize,
    pub output_num: usize,
    pub unique_id: UniqueID,
}

impl Clock {
    pub fn new(circuit: &mut Circuit, output_num: usize, tag: &str) -> (res: Self)
        requires
            old(circuit).wf(),
            old(circuit).len() + 1 < usize::MAX,
            output_num != 0,
        ensures
            final(circuit).wf(),
            res.gate == old(circuit).len(),
            final(circuit).gates@.drop_last() == old(circuit).gates@,
            old(circuit).wiring_kept(*final(circuit)),
            forall|g: int, j: int, d: Option<(int, int)>| old(circuit).wire(g, j, d) ==> #[trigger] final(circuit).wire(g, j, d),
            final(circuit).shape() == old(circuit).shape().push((1 as nat, output_num as nat)),
            final(circuit).types() == old(circuit).types().push(GateType::ClockType),
            final(circuit).clock_tick_number == old(circuit).clock_tick_number,
            gate_fits(&res, final(circuit).shape()),
            res.unique_id.id == old(circuit).len() + 1,
            is_fresh(final(circuit).node(res.gate as int), GateType::ClockType, 1 as nat, output_num as nat, Signal::LOW_, res.unique_id),
            res.output_num == output_num,
            final(circuit).node(res.gate as int).members.tag@ == tag@,
            final(circuit).node(res.gate as int).previous_signal == Signal::LOW_,
    {
        let gate = circuit.add_special_gate(GateType::ClockType, 1, output_num, Signal::LOW_, tag, 1, Vec::new());
        let unique_id = circuit.gates[gate].members.unique_id;
        Clock { gate, output_num, unique_id }
    }

    /// Sets the clock, and all its outputs, to `clock_signal`.
    pub fn set_clock_state(&self, circuit: &mut Circuit, clock_signal: Signal)
        requires
            old(circuit).wf(),
            self.gate < old(circuit).len(),
        ensures
            final(circuit).wf(),
            final(circuit).shape() == old(circuit).shape(),
            final(circuit).types() == old(circuit).types(),
            final(circuit).node(self.gate as int).previous_signal == clock_signal,
            forall|j: int| 0 <= j < final(circuit).node(self.gate as int).outputs().len() ==> #[trigger] final(circuit).node(self.gate as int).current(j) == clock_signal,
    {
        circuit.set_clock_state(self.gate, clock_signal);
    }

    /// Disconnects output `current_output_index`, which must be connected.
    pub fn disconnect_gate(&self, circuit: &mut Circuit, current_output_index: usize)
        requires
            old(circuit).wf(),
            old(circuit).has_output(self.gate as int, current_output_index as int),
            old(circuit).node(self.gate as int).outputs()[current_output_index as int] is Connected,
        ensures
            final(circuit).wf(),
            final(circuit).shape() == old(circuit).shape(),
            final(circuit).types() == old(circuit).types(),
            final(circuit).node(self.gate as int).outputs()[current_output_index as int] == GateOutputState::NotConnected(
                output_signal(old(circuit).node(self.gate as int).outputs()[current_output_index as int]),
            ),
    {
        circuit.disconnect_gate(self.gate, current_output_index);
    }
}

impl LogicGate for Clock {
    open spec fn spec_input_pin(&self, index: int) -> (int, int) {
        (self.gate as int, index)
    }

    open spec fn spec_output_pin(&self, index: int) -> (int, int) {
        (self.gate as int, index)
    }

    open spec fn spec_num_inputs(&self) -> nat {
        (1usize) as nat
    }

    open spec fn spec_num_outputs(&self) -> nat {
        (self.output_num) as nat
    }

    open spec fn spec_gate_type(&self) -> GateType {
        GateType::ClockType
    }

    open spec fn spec_unique_id(&self) -> UniqueID {
        self.unique_id
    }

    fn input_pin(&self, index: usize) -> (res: (usize, usize)) {
        (self.gate, index)
    }

    fn output_pin(&self, index: usize) -> (res: (usize, usize)) {
        (self.gate, index)
    }

    fn num_inputs(&self) -> (res: usize) {
        1usize
    }

    fn num_outputs(&self) -> (res: usize) {
        self.output_num
    }

    fn get_gate_type(&self) -> (res: GateType) {
        GateType::ClockType
    }

    fn get_unique_id(&self) -> (res: UniqueID) {
        self.unique_id
    }
}

/// Handle of an automatic input: each tick it sends the next of its values on all outputs.
pub struct AutomaticInput {
    pub gate: usize,
    pub output_num: usize,
    pub unique_id: UniqueID,
}

impl AutomaticInput {
    pub fn new(circuit: &mut Circuit, values_to_be_output: Vec<Signal>, output_num: usize, tag: &str) -> (res: Self)
        requires
            old(circuit).wf(),
            old(circuit).len() + 1 < usize::MAX,
        ensures
            final(circuit).wf(),
            res.gate == old(circuit).len(),
            final(circuit).gates@.drop_last() == old(circuit).gates@,
            old(circuit).wiring_kept(*final(circuit)),
            forall|g: int, j: int, d: Option<(int, int)>| old(circuit).wire(g, j, d) ==> #[trigger] final(circuit).wire(g, j, d),
            final(circuit).shape() == old(circuit).shape().push((1 as nat, output_num as nat)),
            final(circuit).types() == old(circuit).types().push(GateType::AutomaticInputType),
            final(circuit).clock_tick_number == old(circuit).clock_tick_number,
            gate_fits(&res, final(circuit).shape()),
            res.unique_id.id == old(circuit).len() + 1,
            is_fresh(final(circuit).node(res.gate as int), GateType::AutomaticInputType, 1 as nat, output_num as nat, Signal::HIGH, res.unique_id),
            res.output_num == output_num,
            final(circuit).node(res.gate as int).members.tag@ == tag@,
            final(circuit).node(res.gate as int).values_to_be_output@ == values_to_be_output@,
    {
        let gate = circuit.add_special_gate(GateType::AutomaticInputType, 1, output_num, Signal::HIGH, tag, 1, values_to_be_output);
        let unique_id = circuit.gates[gate].members.unique_id;
        AutomaticInput { gate, output_num, unique_id }
    }

    /// Disconnects output `current_output_index`, which must be connected.
    pub fn disconnect_gate(&self, circuit: &mut Circuit, current_output_index: usize)
        requires
            old(circuit).wf(),
            old(circuit).has_output(self.gate as int, current_output_index as int),
            old(circuit).node(self.gate as int).outputs()[current_output_index as int] is Connected,
        ensures
            final(circuit).wf(),
            final(circuit).shape() == old(circuit).shape(),
            final(circuit).types() == old(circuit).types(),
            final(circuit).node(self.gate as int).outputs()[current_output_index as int] == GateOutputState::NotConnected(
                output_signal(old(circuit).node(self.gate as int).outputs()[current_output_index as int]),
            ),
    {
        circuit.disconnect_gate(self.gate, current_output_index);
    }
}

impl LogicGate for AutomaticInput {
    open spec fn spec_input_pin(&self, index: int) -> (int, int) {
        (self.gate as int, index)
    }

    open spec fn spec_output_pin(&self, index: int) -> (int, int) {
        (self.gate as int, index)
    }

    open spec fn spec_num_inputs(&self) -> nat {
        (1usize) as nat
    }

    open spec fn spec_num_outputs(&self) -> nat {
        (self.output_num) as nat
    }

    open spec fn spec_gate_type(&self) -> GateType {
        GateType::AutomaticInputType
    }

    open spec fn spec_unique_id(&self) -> UniqueID {
        self.unique_id
    }

    fn input_pin(&self, index: usize) -> (res: (usize, usize)) {
        (self.gate, index)
    }

    fn output_pin(&self, index: usize) -> (res: (usize, usize)) {
        (self.gate, index)
    }

    fn num_inputs(&self) -> (res: usize) {
        1usize
    }

    fn num_outputs(&self) -> (res: usize) {
        self.output_num
    }

    fn get_gate_type(&self) -> (res: GateType) {
        GateType::AutomaticInputType
    }

    fn get_unique_id(&self) -> (res: UniqueID) {
        self.unique_id
    }
}

/// Handle of a simple input: it sends its only input to all its outputs. Complex gates receive
/// their inputs through these.
pub struct SimpleInput {
    pub gate: usize,
    pub output_num: usize,
    pub unique_id: UniqueID,
}

impl SimpleInput {
    pub fn new(circuit: &mut Circuit, output_num: usize, tag: &str) -> (res: Self)
        requires
            old(circuit).wf(),
            old(circuit).len() + 1 < usize::MAX,
            output_num != 0,
        ensures
            final(circuit).wf(),
            res.gate == old(circuit).len(),
            final(circuit).gates@.drop_last() == old(circuit).gates@,
            old(circuit).wiring_kept(*final(circuit)),
            forall|g: int, j: int, d: Option<(int, int)>| old(circuit).wire(g, j, d) ==> #[trigger] final(circuit).wire(g, j, d),
            final(circuit).shape() == old(circuit).shape().push((1 as nat, output_num as nat)),
            final(circuit).types() == old(circuit).types().push(GateType::SimpleInputType),
            final(circuit).clock_tick_number == old(circuit).clock_tick_number,
            gate_fits(&res, final(circuit).shape()),
            res.unique_id.id == old(circuit).len() + 1,
            is_fresh(final(circuit).node(res.gate as int), GateType::SimpleInputType, 1 as nat, output_num as nat, Signal::LOW_, res.unique_id),
            res.output_num == output_num,
            final(circuit).node(res.gate as int).members.tag@ == tag@,
    {
        let gate = circuit.add_special_gate(GateType::SimpleInputType, 1, output_num, Signal::LOW_, tag, 1, Vec::new());
        let unique_id = circuit.gates[gate].members.unique_id;
        SimpleInput { gate, output_num, unique_id }
    }
}

impl LogicGate for SimpleInput {
    open spec fn spec_input_pin(&self, index: int) -> (int, int) {
        (self.gate as int, index)
    }

    open spec fn spec_output_pin(&self, index: int) -> (int, int) {
        (self.gate as int, index)
    }

    open spec fn spec_num_inputs(&self) -> nat {
        (1usize) as nat
    }

    open spec fn spec_num_outputs(&self) -> nat {
        (self.output_num) as nat
    }

    open spec fn spec_gate_type(&self) -> GateType {
        GateType::SimpleInputType
    }

    open spec fn spec_unique_id(&self) -> UniqueID {
        self.unique_id
    }

    fn input_pin(&self, index: usize) -> (res: (usize, usize)) {
        (self.gate, index)
    }

    fn output_pin(&self, index: usize) -> (res: (usize, usize)) {
        (self.gate, index)
    }

    fn num_inputs(&self) -> (res: usize) {
        1usize
    }

    fn num_outputs(&self) -> (res: usize) {
        self.output_num
    }

    fn get_gate_type(&self) -> (res: GateType) {
        GateType::SimpleInputType
    }

    fn get_unique_id(&self) -> (res: UniqueID) {
        self.unique_id
    }
}

} // verus!
