use vstd::prelude::*;

use crate::circuit::{is_fresh, Circuit};
use crate::logic::foundations::{gate_fits, GateType, LogicGate};
use crate::logic::signals::{Signal, UniqueID};
use crate::logic::tags::{index_from_numbered_tag, spec_numbered_tag, str_eq};

verus! {

/// Handle of an OR gate: HIGH when any input is HIGH.
pub struct Or {
    pub gate: usize,
    pub input_num: usize,
    pub output_num: usize,
    pub unique_id: UniqueID,
}

impl Or {
    /// Adds a new gate of this kind to the circuit. Its outputs start unconnected, carrying what it computes
    /// from all-`LOW_` inputs.
    pub fn new(circuit: &mut Circuit, input_num: usize, output_num: usize) -> (res: Self)
        requires
            old(circuit).wf(),
            old(circuit).len() + 1 < usize::MAX,
            input_num != 0,
        ensures
            final(circuit).wf(),
            res.gate == old(circuit).len(),
            res.input_num == input_num,
            res.output_num == output_num,
            final(circuit).gates@.drop_last() == old(circuit).gates@,
            old(circuit).wiring_kept(*final(circuit)),
            forall|g: int, j: int, d: Option<(int, int)>| old(circuit).wire(g, j, d) ==> #[trigger] final(circuit).wire(g, j, d),
            final(circuit).shape() == old(circuit).shape().push((input_num as nat, output_num as nat)),
            final(circuit).types() == old(circuit).types().push(GateType::OrType),
            final(circuit).clock_tick_number == old(circuit).clock_tick_number,
            gate_fits(&res, final(circuit).shape()),
            is_fresh(
                final(circuit).node(res.gate as int),
                GateType::OrType,
                input_num as nat,
                output_num as nat,
                Signal::LOW_,
                res.unique_id,
            ),
            res.unique_id.id == old(circuit).len() + 1,
    {
        let input_num: usize = input_num;
        let gate = circuit.add_logic_gate(GateType::OrType, input_num, output_num);
        proof {
            let lows = Seq::new(input_num as nat, |j: int| Signal::LOW_);
            assert(lows[0] == Signal::LOW_);
            assert(!lows.contains(Signal::HIGH));
        }
        let unique_id = circuit.gates[gate].members.unique_id;
        Or { gate, input_num, output_num, unique_id }
    }
}

impl LogicGate for Or {
    open spec fn spec_input_pin(&self, index: int) -> (int, int) {
        (self.gate as int, index)
    }

    open spec fn spec_output_pin(&self, index: int) -> (int, int) {
        (self.gate as int, index)
    }

    open spec fn spec_num_inputs(&self) -> nat {
        self.input_num as nat
    }

    open spec fn spec_num_outputs(&self) -> nat {
        self.output_num as nat
    }

    open spec fn spec_gate_type(&self) -> GateType {
        GateType::OrType
    }

    open spec fn spec_unique_id(&self) -> UniqueID {
        self.unique_id
    }

    fn input_pin(&self, index: usize) -> (res: (usize, usize)) {
        (self.gate, index)
    }

    fn output_pin(&self, index: usize) -> (res: (usize, usize)) {
        (self.gate, index)
    }

    fn num_inputs(&self) -> (res: usize) {
        self.input_num
    }

    fn num_outputs(&self) -> (res: usize) {
        self.output_num
    }

    fn get_gate_type(&self) -> (res: GateType) {
        GateType::OrType
    }

    fn get_unique_id(&self) -> (res: UniqueID) {
        self.unique_id
    }
}

/// Handle of an AND gate: LOW when any input is LOW.
pub struct And {
    pub gate: usize,
    pub input_num: usize,
    pub output_num: usize,
    pub unique_id: UniqueID,
}

impl And {
    /// Adds a new gate of this kind to the circuit. Its outputs start unconnected, carrying what it computes
    /// from all-`LOW_` inputs.
    pub fn new(circuit: &mut Circuit, input_num: usize, output_num: usize) -> (res: Self)
        requires
            old(circuit).wf(),
            old(circuit).len() + 1 < usize::MAX,
            input_num != 0,
        ensures
            final(circuit).wf(),
            res.gate == old(circuit).len(),
            res.input_num == input_num,
            res.output_num == output_num,
            final(circuit).gates@.drop_last() == old(circuit).gates@,
            old(circuit).wiring_kept(*final(circuit)),
            forall|g: int, j: int, d: Option<(int, int)>| old(circuit).wire(g, j, d) ==> #[trigger] final(circuit).wire(g, j, d),
            final(circuit).shape() == old(circuit).shape().push((input_num as nat, output_num as nat)),
            final(circuit).types() == old(circuit).types().push(GateType::AndType),
            final(circuit).clock_tick_number == old(circuit).clock_tick_number,
            gate_fits(&res, final(circuit).shape()),
            is_fresh(
                final(circuit).node(res.gate as int),
                GateType::AndType,
                input_num as nat,
                output_num as nat,
                Signal::LOW_,
                res.unique_id,
            ),
            res.unique_id.id == old(circuit).len() + 1,
    {
        let input_num: usize = input_num;
        let gate = circuit.add_logic_gate(GateType::AndType, input_num, output_num);
        proof {
            let lows = Seq::new(input_num as nat, |j: int| Signal::LOW_);
            assert(lows[0] == Signal::LOW_);
            assert(!lows.contains(Signal::HIGH));
        }
        let unique_id = circuit.gates[gate].members.unique_id;
        And { gate, input_num, output_num, unique_id }
    }
}

impl LogicGate for And {
    open spec fn spec_input_pin(&self, index: int) -> (int, int) {
        (self.gate as int, index)
    }

    open spec fn spec_output_pin(&self, index: int) -> (int, int) {
        (self.gate as int, index)
    }

    open spec fn spec_num_inputs(&self) -> nat {
        self.input_num as nat
    }

    open spec fn spec_num_outputs(&self) -> nat {
        self.output_num as nat
    }

    open spec fn spec_gate_type(&self) -> GateType {
        GateType::AndType
    }

    open spec fn spec_unique_id(&self) -> UniqueID {
        self.unique_id
    }

    fn input_pin(&self, index: usize) -> (res: (usize, usize)) {
        (self.gate, index)
    }

    fn output_pin(&self, index: usize) -> (res: (usize, usize)) {
        (self.gate, index)
    }

    fn num_inputs(&self) -> (res: usize) {
        self.input_num
    }

    fn num_outputs(&self) -> (res: usize) {
        self.output_num
    }

    fn get_gate_type(&self) -> (res: GateType) {
        GateType::AndType
    }

    fn get_unique_id(&self) -> (res: UniqueID) {
        self.unique_id
    }
}

/// Handle of a NOT gate: the opposite of its only input.
pub struct Not {
    pub gate: usize,
    pub input_num: usize,
    pub output_num: usize,
    pub unique_id: UniqueID,
}

impl Not {
    /// Adds a new gate of this kind to the circuit. Its outputs start unconnected, carrying what it computes
    /// from all-`LOW_` inputs.
    pub fn new(circuit: &mut Circuit, output_num: usize) -> (res: Self)
        requires
            old(circuit).wf(),
            old(circuit).len() + 1 < usize::MAX,
        ensures
            final(circuit).wf(),
            res.gate == old(circuit).len(),
            res.input_num == 1,
            res.output_num == output_num,
            final(circuit).gates@.drop_last() == old(circuit).gates@,
            old(circuit).wiring_kept(*final(circuit)),
            forall|g: int, j: int, d: Option<(int, int)>| old(circuit).wire(g, j, d) ==> #[trigger] final(circuit).wire(g, j, d),
            final(circuit).shape() == old(circuit).shape().push((1 as nat, output_num as nat)),
            final(circuit).types() == old(circuit).types().push(GateType::NotType),
            final(circuit).clock_tick_number == old(circuit).clock_tick_number,
            gate_fits(&res, final(circuit).shape()),
            is_fresh(
                final(circuit).node(res.gate as int),
                GateType::NotType,
                1 as nat,
                output_num as nat,
                Signal::HIGH,
                res.unique_id,
            ),
            res.unique_id.id == old(circuit).len() + 1,
    {
        let input_num: usize = 1;
        let gate = circuit.add_logic_gate(GateType::NotType, input_num, output_num);
        proof {
            let lows = Seq::new(input_num as nat, |j: int| Signal::LOW_);
            assert(lows[0] == Signal::LOW_);
            assert(!lows.contains(Signal::HIGH));
        }
        let unique_id = circuit.gates[gate].members.unique_id;
        Not { gate, input_num, output_num, unique_id }
    }
}

impl LogicGate for Not {
    open spec fn spec_input_pin(&self, index: int) -> (int, int) {
        (self.gate as int, index)
    }

    open spec fn spec_output_pin(&self, index: int) -> (int, int) {
        (self.gate as int, index)
    }

    open spec fn spec_num_inputs(&self) -> nat {
        self.input_num as nat
    }

    open spec fn spec_num_outputs(&self) -> nat {
        self.output_num as nat
    }

    open spec fn spec_gate_type(&self) -> GateType {
        GateType::NotType
    }

    open spec fn spec_unique_id(&self) -> UniqueID {
        self.unique_id
    }

    fn input_pin(&self, index: usize) -> (res: (usize, usize)) {
        (self.gate, index)
    }

    fn output_pin(&self, index: usize) -> (res: (usize, usize)) {
        (self.gate, index)
    }

    fn num_inputs(&self) -> (res: usize) {
        self.input_num
    }

    fn num_outputs(&self) -> (res: usize) {
        self.output_num
    }

    fn get_gate_type(&self) -> (res: GateType) {
        GateType::NotType
    }

    fn get_unique_id(&self) -> (res: UniqueID) {
        self.unique_id
    }
}

/// Handle of a NOR gate: the opposite of an OR gate.
pub struct Nor {
    pub gate: usize,
    pub input_num: usize,
    pub output_num: usize,
    pub unique_id: UniqueID,
}

impl Nor {
    /// Adds a new gate of this kind to the circuit. Its outputs start unconnected, carrying what it computes
    /// from all-`LOW_` inputs.
    pub fn new(circuit: &mut Circuit, input_num: usize, output_num: usize) -> (res: Self)
        requires
            old(circuit).wf(),
            old(circuit).len() + 1 < usize::MAX,
            input_num != 0,
        ensures
            final(circuit).wf(),
            res.gate == old(circuit).len(),
            res.input_num == input_num,
            res.output_num == output_num,
            final(circuit).gates@.drop_last() == old(circuit).gates@,
            old(circuit).wiring_kept(*final(circuit)),
            forall|g: int, j: int, d: Option<(int, int)>| old(circuit).wire(g, j, d) ==> #[trigger] final(circuit).wire(g, j, d),
            final(circuit).shape() == old(circuit).shape().push((input_num as nat, output_num as nat)),
            final(circuit).types() == old(circuit).types().push(GateType::NorType),
            final(circuit).clock_tick_number == old(circuit).clock_tick_number,
            gate_fits(&res, final(circuit).shape()),
            is_fresh(
                final(circuit).node(res.gate as int),
                GateType::NorType,
                input_num as nat,
                output_num as nat,
                Signal::HIGH,
                res.unique_id,
            ),
            res.unique_id.id == old(circuit).len() + 1,
    {
        let input_num: usize = input_num;
        let gate = circuit.add_logic_gate(GateType::NorType, input_num, output_num);
        proof {
            let lows = Seq::new(input_num as nat, |j: int| Signal::LOW_);
            assert(lows[0] == Signal::LOW_);
            assert(!lows.contains(Signal::HIGH));
        }
        let unique_id = circuit.gates[gate].members.unique_id;
        Nor { gate, input_num, output_num, unique_id }
    }
}

impl LogicGate for Nor {
    open spec fn spec_input_pin(&self, index: int) -> (int, int) {
        (self.gate as int, index)
    }

    open spec fn spec_output_pin(&self, index: int) -> (int, int) {
        (self.gate as int, index)
    }

    open spec fn spec_num_inputs(&self) -> nat {
        self.input_num as nat
    }

    open spec fn spec_num_outputs(&self) -> nat {
        self.output_num as nat
    }

    open spec fn spec_gate_type(&self) -> GateType {
        GateType::NorType
    }

    open spec fn spec_unique_id(&self) -> UniqueID {
        self.unique_id
    }

    fn input_pin(&self, index: usize) -> (res: (usize, usize)) {
        (self.gate, index)
    }

    fn output_pin(&self, index: usize) -> (res: (usize, usize)) {
        (self.gate, index)
    }

    fn num_inputs(&self) -> (res: usize) {
        self.input_num
    }

    fn num_outputs(&self) -> (res: usize) {
        self.output_num
    }

    fn get_gate_type(&self) -> (res: GateType) {
        GateType::NorType
    }

    fn get_unique_id(&self) -> (res: UniqueID) {
        self.unique_id
    }
}

/// Handle of a NAND gate: the opposite of an AND gate.
pub struct Nand {
    pub gate: usize,
    pub input_num: usize,
    pub output_num: usize,
    pub unique_id: UniqueID,
}

impl Nand {
    /// Adds a new gate of this kind to the circuit. Its outputs start unconnected, carrying what it computes
    /// from all-`LOW_` inputs.
    pub fn new(circuit: &mut Circuit, input_num: usize, output_num: usize) -> (res: Self)
        requires
            old(circuit).wf(),
            old(circuit).len() + 1 < usize::MAX,
            input_num != 0,
        ensures
            final(circuit).wf(),
            res.gate == old(circuit).len(),
            res.input_num == input_num,
            res.output_num == output_num,
            final(circuit).gates@.drop_last() == old(circuit).gates@,
            old(circuit).wiring_kept(*final(circuit)),
            forall|g: int, j: int, d: Option<(int, int)>| old(circuit).wire(g, j, d) ==> #[trigger] final(circuit).wire(g, j, d),
            final(circuit).shape() == old(circuit).shape().push((input_num as nat, output_num as nat)),
            final(circuit).types() == old(circuit).types().push(GateType::NandType),
            final(circuit).clock_tick_number == old(circuit).clock_tick_number,
            gate_fits(&res, final(circuit).shape()),
            is_fresh(
                final(circuit).node(res.gate as int),
                GateType::NandType,
                input_num as nat,
                output_num as nat,
                Signal::HIGH,
                res.unique_id,
            ),
            res.unique_id.id == old(circuit).len() + 1,
    {
        let input_num: usize = input_num;
        let gate = circuit.add_logic_gate(GateType::NandType, input_num, output_num);
        proof {
            let lows = Seq::new(input_num as nat, |j: int| Signal::LOW_);
            assert(lows[0] == Signal::LOW_);
            assert(!lows.contains(Signal::HIGH));
        }
        let unique_id = circuit.gates[gate].members.unique_id;
        Nand { gate, input_num, output_num, unique_id }
    }
}

impl LogicGate for Nand {
    open spec fn spec_input_pin(&self, index: int) -> (int, int) {
        (self.gate as int, index)
    }

    open spec fn spec_output_pin(&self, index: int) -> (int, int) {
        (self.gate as int, index)
    }

    open spec fn spec_num_inputs(&self) -> nat {
        self.input_num as nat
    }

    open spec fn spec_num_outputs(&self) -> nat {
        self.output_num as nat
    }

    open spec fn spec_gate_type(&self) -> GateType {
        GateType::NandType
    }

    open spec fn spec_unique_id(&self) -> UniqueID {
        self.unique_id
    }

    fn input_pin(&self, index: usize) -> (res: (usize, usize)) {
        (self.gate, index)
    }

    fn output_pin(&self, index: usize) -> (res: (usize, usize)) {
        (self.gate, index)
    }

    fn num_inputs(&self) -> (res: usize) {
        self.input_num
    }

    fn num_outputs(&self) -> (res: usize) {
        self.output_num
    }

    fn get_gate_type(&self) -> (res: GateType) {
        GateType::NandType
    }

    fn get_unique_id(&self) -> (res: UniqueID) {
        self.unique_id
    }
}

/// Handle of an XOR gate: HIGH when its inputs hold both a LOW and a HIGH.
pub struct XOr {
    pub gate: usize,
    pub input_num: usize,
    pub output_num: usize,
    pub unique_id: UniqueID,
}

impl XOr {
    /// Adds a new gate of this kind to the circuit. Its outputs start unconnected, carrying what it computes
    /// from all-`LOW_` inputs.
    pub fn new(circuit: &mut Circuit, input_num: usize, output_num: usize) -> (res: Self)
        requires
            old(circuit).wf(),
            old(circuit).len() + 1 < usize::MAX,
            input_num != 0,
        ensures
            final(circuit).wf(),
            res.gate == old(circuit).len(),
            res.input_num == input_num,
            res.output_num == output_num,
            final(circuit).gates@.drop_last() == old(circuit).gates@,
            old(circuit).wiring_kept(*final(circuit)),
            forall|g: int, j: int, d: Option<(int, int)>| old(circuit).wire(g, j, d) ==> #[trigger] final(circuit).wire(g, j, d),
            final(circuit).shape() == old(circuit).shape().push((input_num as nat, output_num as nat)),
            final(circuit).types() == old(circuit).types().push(GateType::XOrType),
            final(circuit).clock_tick_number == old(circuit).clock_tick_number,
            gate_fits(&res, final(circuit).shape()),
            is_fresh(
                final(circuit).node(res.gate as int),
                GateType::XOrType,
                input_num as nat,
                output_num as nat,
                Signal::LOW_,
                res.unique_id,
            ),
            res.unique_id.id == old(circuit).len() + 1,
    {
        let input_num: usize = input_num;
        let gate = circuit.add_logic_gate(GateType::XOrType, input_num, output_num);
        proof {
            let lows = Seq::new(input_num as nat, |j: int| Signal::LOW_);
            assert(lows[0] == Signal::LOW_);
            assert(!lows.contains(Signal::HIGH));
        }
        let unique_id = circuit.gates[gate].members.unique_id;
        XOr { gate, input_num, output_num, unique_id }
    }
}

impl LogicGate for XOr {
    open spec fn spec_input_pin(&self, index: int) -> (int, int) {
        (self.gate as int, index)
    }

    open spec fn spec_output_pin(&self, index: int) -> (int, int) {
        (self.gate as int, index)
    }

    open spec fn spec_num_inputs(&self) -> nat {
        self.input_num as nat
    }

    open spec fn spec_num_outputs(&self) -> nat {
        self.output_num as nat
    }

    open spec fn spec_gate_type(&self) -> GateType {
        GateType::XOrType
    }

    open spec fn spec_unique_id(&self) -> UniqueID {
        self.unique_id
    }

    fn input_pin(&self, index: usize) -> (res: (usize, usize)) {
        (self.gate, index)
    }

    fn output_pin(&self, index: usize) -> (res: (usize, usize)) {
        (self.gate, index)
    }

    fn num_inputs(&self) -> (res: usize) {
        self.input_num
    }

    fn num_outputs(&self) -> (res: usize) {
        self.output_num
    }

    fn get_gate_type(&self) -> (res: GateType) {
        GateType::XOrType
    }

    fn get_unique_id(&self) -> (res: UniqueID) {
        self.unique_id
    }
}

} // verus!

verus! {

/// Handle of a splitter: input `i` is sent, unchanged, to outputs
/// `i * outputs_per_input` to `(i + 1) * outputs_per_input - 1`.
pub struct Splitter {
    pub gate: usize,
    pub input_num: usize,
    pub outputs_per_input: usize,
    pub output_num: usize,
    pub unique_id: UniqueID,
}

impl Splitter {
    pub fn new(circuit: &mut Circuit, input_num: usize, outputs_per_input: usize) -> (res: Self)
        requires
            old(circuit).wf(),
            old(circuit).len() + 1 < usize::MAX,
            input_num != 0,
            outputs_per_input != 0,
            input_num * outputs_per_input <= usize::MAX,
        ensures
            final(circuit).wf(),
            res.gate == old(circuit).len(),
            final(circuit).gates@.drop_last() == old(circuit).gates@,
            old(circuit).wiring_kept(*final(circuit)),
            forall|g: int, j: int, d: Option<(int, int)>| old(circuit).wire(g, j, d) ==> #[trigger] final(circuit).wire(g, j, d),
            final(circuit).shape() == old(circuit).shape().push((input_num as nat, (input_num * outputs_per_input) as nat)),
            final(circuit).types() == old(circuit).types().push(GateType::SplitterType),
            final(circuit).clock_tick_number == old(circuit).clock_tick_number,
            gate_fits(&res, final(circuit).shape()),
            res.unique_id.id == old(circuit).len() + 1,
            is_fresh(final(circuit).node(res.gate as int), GateType::SplitterType, input_num as nat, (input_num * outputs_per_input) as nat, Signal::LOW_, res.unique_id),
            res.input_num == input_num,
            res.outputs_per_input == outputs_per_input,
            res.output_num == input_num * outputs_per_input,
            final(circuit).node(res.gate as int).outputs_per_input == outputs_per_input,
            final(circuit).node(res.gate as int).pull_output is None,
    {
        let output_num = input_num * outputs_per_input;
        let gate = circuit.add_special_gate(GateType::SplitterType, input_num, output_num, Signal::LOW_, "", outputs_per_input, Vec::new());
        let unique_id = circuit.gates[gate].members.unique_id;
        Splitter { gate, input_num, outputs_per_input, output_num, unique_id }
    }

    /// The output that copy `index_of_output` of input `input_index` leaves by.
    pub fn get_index_for_output(&self, input_index: usize, index_of_output: usize) -> (res: usize)
        requires
            input_index < self.input_num,
            index_of_output < self.outputs_per_input,
            self.input_num * self.outputs_per_input <= usize::MAX,
        ensures
            res == input_index * self.outputs_per_input + index_of_output,
            res < self.input_num * self.outputs_per_input,
    {
        proof {
            assert(input_index * self.outputs_per_input + index_of_output < self.input_num * self.outputs_per_input) by (nonlinear_arith)
                requires
                    input_index < self.input_num,
                    index_of_output < self.outputs_per_input;
        }
        input_index * self.outputs_per_input + index_of_output
    }

    /// From now on, a `NONE` input is sent as `signal`.
    pub fn pull_output(&self, circuit: &mut Circuit, signal: Signal)
        requires
            old(circuit).wf(),
            self.gate < old(circuit).len(),
        ensures
            final(circuit).wf(),
            final(circuit).shape() == old(circuit).shape(),
            final(circuit).types() == old(circuit).types(),
            final(circuit).node(self.gate as int).pull_output == Some(signal),
            forall|h: int| 0 <= h < old(circuit).len() && h != self.gate ==> #[trigger] final(circuit).node(h) == old(circuit).node(h),
    {
        circuit.set_pull_output(self.gate, signal);
    }
}

impl LogicGate for Splitter {
    open spec fn spec_input_pin(&self, index: int) -> (int, int) {
        (self.gate as int, index)
    }

    open spec fn spec_output_pin(&self, index: int) -> (int, int) {
        (self.gate as int, index)
    }

    open spec fn spec_num_inputs(&self) -> nat {
        (self.input_num) as nat
    }

    open spec fn spec_num_outputs(&self) -> nat {
        (self.output_num) as nat
    }

    open spec fn spec_gate_type(&self) -> GateType {
        GateType::SplitterType
    }

    open spec fn spec_unique_id(&self) -> UniqueID {
        self.unique_id
    }

    fn input_pin(&self, index: usize) -> (res: (usize, usize)) {
        (self.gate, index)
    }

    fn output_pin(&self, index: usize) -> (res: (usize, usize)) {
        (self.gate, index)
    }

    fn num_inputs(&self) -> (res: usize) {
        self.input_num
    }

    fn num_outputs(&self) -> (res: usize) {
        self.output_num
    }

    fn get_gate_type(&self) -> (res: GateType) {
        GateType::SplitterType
    }

    fn get_unique_id(&self) -> (res: UniqueID) {
        self.unique_id
    }
}

/// Handle of a controlled buffer: while its last input (the enable, tag `E`) is HIGH, each
/// other input passes to the output of the same index; otherwise every output is `NONE`.
pub struct ControlledBuffer {
    pub gate: usize,
    pub input_output_num: usize,
    pub input_num: usize,
    pub unique_id: UniqueID,
}

impl ControlledBuffer {
    pub fn new(circuit: &mut Circuit, input_output_num: usize) -> (res: Self)
        requires
            old(circuit).wf(),
            old(circuit).len() + 1 < usize::MAX,
            input_output_num < usize::MAX,
        ensures
            final(circuit).wf(),
            res.gate == old(circuit).len(),
            final(circuit).gates@.drop_last() == old(circuit).gates@,
            old(circuit).wiring_kept(*final(circuit)),
            forall|g: int, j: int, d: Option<(int, int)>| old(circuit).wire(g, j, d) ==> #[trigger] final(circuit).wire(g, j, d),
            final(circuit).shape() == old(circuit).shape().push(((input_output_num + 1) as nat, input_output_num as nat)),
            final(circuit).types() == old(circuit).types().push(GateType::ControlledBufferType),
            final(circuit).clock_tick_number == old(circuit).clock_tick_number,
            gate_fits(&res, final(circuit).shape()),
            res.unique_id.id == old(circuit).len() + 1,
            is_fresh(final(circuit).node(res.gate as int), GateType::ControlledBufferType, (input_output_num + 1) as nat, input_output_num as nat, Signal::NONE, res.unique_id),
            res.input_output_num == input_output_num,
            res.input_num == input_output_num + 1,
    {
        let gate = circuit.add_special_gate(GateType::ControlledBufferType, input_output_num + 1, input_output_num, Signal::NONE, "", 1, Vec::new());
        let unique_id = circuit.gates[gate].members.unique_id;
        ControlledBuffer { gate, input_output_num, input_num: input_output_num + 1, unique_id }
    }

    /// The input named by `tag`: `E` is the enable; `i_<n>` and `o_<n>` name index `n`.
    pub fn get_index_from_tag(&self, tag: &str) -> (res: Option<usize>)
        ensures
            tag@ == "E"@ ==> res == Some(self.input_output_num),
            tag@ != "E"@ ==> match res {
                Some(v) => spec_numbered_tag(tag@) == Some(v as nat),
                None => spec_numbered_tag(tag@) is None || spec_numbered_tag(tag@)->0 > usize::MAX,
            },
    {
        if str_eq(tag, "E") {
            Some(self.input_output_num)
        } else {
            index_from_numbered_tag(tag)
        }
    }
}

impl LogicGate for ControlledBuffer {
    open spec fn spec_input_pin(&self, index: int) -> (int, int) {
        (self.gate as int, index)
    }

    open spec fn spec_output_pin(&self, index: int) -> (int, int) {
        (self.gate as int, index)
    }

    open spec fn spec_num_inputs(&self) -> nat {
        (self.input_num) as nat
    }

    open spec fn spec_num_outputs(&self) -> nat {
        (self.input_output_num) as nat
    }

    open spec fn spec_gate_type(&self) -> GateType {
        GateType::ControlledBufferType
    }

    open spec fn spec_unique_id(&self) -> UniqueID {
        self.unique_id
    }

    fn input_pin(&self, index: usize) -> (res: (usize, usize)) {
        (self.gate, index)
    }

    fn output_pin(&self, index: usize) -> (res: (usize, usize)) {
        (self.gate, index)
    }

    fn num_inputs(&self) -> (res: usize) {
        self.input_num
    }

    fn num_outputs(&self) -> (res: usize) {
        self.input_output_num
    }

    fn get_gate_type(&self) -> (res: GateType) {
        GateType::ControlledBufferType
    }

    fn get_unique_id(&self) -> (res: UniqueID) {
        self.unique_id
    }
}

} // verus!
