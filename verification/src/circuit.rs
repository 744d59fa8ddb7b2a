use vstd::prelude::*;

use crate::logic::foundations::{
    entries_ok, output_signal, spec_calculate, is_calculated_type, BasicGateMembers,
    ConnectedOutput, GateLogic, GateOutputState, GateType, calculate_input_signals_from_all_inputs,
    lemma_resolve_all_len, spec_remove_entries, spec_set_entry, zero_uid, OscillationDetection,
};
use crate::logic::signals::{
    all_low_from, entries_view, spec_resolve, spec_resolve_all, GateInput, GateLogicError, InputEntries, Signal,
    UniqueID,
};

verus! {

/// One gate of a circuit: its members, and what only some gate types use.
pub struct GateNode {
    pub members: BasicGateMembers,
    /// For a splitter: how many outputs each input feeds.
    pub outputs_per_input: usize,
    /// For a splitter: the signal sent in place of `NONE`, if any.
    pub pull_output: Option<Signal>,
    /// For an automatic input: the signals still to be sent, first one first.
    pub values_to_be_output: Vec<Signal>,
    /// For a clock: the signal it produced last.
    pub previous_signal: Signal,
}

impl GateNode {
    pub open spec fn inputs(&self) -> Seq<Seq<(UniqueID, Signal)>> {
        entries_view(self.members.input_signals@)
    }

    pub open spec fn outputs(&self) -> Seq<GateOutputState> {
        self.members.output_states@
    }

    pub open spec fn gate_type(&self) -> GateType {
        self.members.gate_type
    }

    /// The signal that output `i` currently carries.
    pub open spec fn current(&self, i: int) -> Signal {
        output_signal(self.outputs()[i])
    }

    pub open spec fn wf(&self) -> bool {
        &&& self.members.input_signals@.len() >= 1
        &&& self.members.oscillation_detection.wf()
        &&& self.outputs_per_input >= 1
        &&& self.gate_type() == GateType::SplitterType ==> self.outputs().len()
            <= self.members.input_signals@.len() * self.outputs_per_input
        &&& (self.gate_type() == GateType::ControlledBufferType || self.gate_type()
            == GateType::SignalGatekeeperType) ==> self.outputs().len()
            < self.members.input_signals@.len()
    }

    /// What output `i` should carry when the inputs see `vals`. Sources (clocks and automatic
    /// inputs), and a disabled signal gatekeeper, hold their outputs.
    pub open spec fn expected_output(&self, vals: Seq<Signal>, i: int) -> Signal {
        match self.gate_type() {
            GateType::SplitterType => {
                let s = vals[i / (self.outputs_per_input as int)];
                if s == Signal::NONE && self.pull_output is Some {
                    self.pull_output->0
                } else {
                    s
                }
            },
            GateType::ControlledBufferType => if vals.last() == Signal::HIGH {
                vals[i]
            } else {
                Signal::NONE
            },
            GateType::SignalGatekeeperType => if vals.last() == Signal::HIGH {
                vals[i]
            } else {
                self.current(i)
            },
            GateType::ClockType | GateType::AutomaticInputType => self.current(i),
            t => spec_calculate(t, vals),
        }
    }

    /// The signal of every output, computed from the inputs, or the first input conflict.
    pub open spec fn spec_outputs(&self) -> Result<Seq<Signal>, GateLogicError> {
        match spec_resolve_all(self.inputs()) {
            Err(e) => Err(e),
            Ok(vals) => Ok(Seq::new(self.outputs().len(), |i: int| self.expected_output(vals, i))),
        }
    }

    /// The outputs carry what the inputs call for (or the inputs conflict).
    pub open spec fn evaluated(&self) -> bool {
        match self.spec_outputs() {
            Err(_) => true,
            Ok(sigs) => forall|i: int|
                0 <= i < self.outputs().len() ==> #[trigger] self.current(i) == sigs[i],
        }
    }

    /// The signal that output `i` calls for now, or the one it carries if the inputs conflict.
    pub open spec fn connect_signal(&self, i: int) -> Signal {
        match self.spec_outputs() {
            Ok(sigs) => sigs[i],
            Err(_) => self.current(i),
        }
    }

    /// What output `i` should carry when the inputs see `vals`.
    pub fn output_for(&self, vals: &Vec<Signal>, i: usize) -> (res: Signal)
        requires
            self.wf(),
            vals@.len() == self.members.input_signals@.len(),
            i < self.outputs().len(),
        ensures
            res == self.expected_output(vals@, i as int),
    {
        match self.members.gate_type {
            GateType::SplitterType => {
                let k = self.outputs_per_input;
                let n = vals.len();
                assert(i / k < n) by (nonlinear_arith)
                    requires
                        i < n * k,
                        k >= 1,
                ;
                let s = vals[i / k];
                if s == Signal::NONE {
                    match self.pull_output {
                        Some(p) => p,
                        None => s,
                    }
                } else {
                    s
                }
            },
            GateType::ControlledBufferType => {
                if vals[vals.len() - 1] == Signal::HIGH {
                    vals[i]
                } else {
                    Signal::NONE
                }
            },
            GateType::SignalGatekeeperType => {
                if vals[vals.len() - 1] == Signal::HIGH {
                    vals[i]
                } else {
                    signal_of_state(&self.members.output_states[i])
                }
            },
            GateType::ClockType | GateType::AutomaticInputType => {
                signal_of_state(&self.members.output_states[i])
            },
            _ => calculate_signal(self.members.gate_type, vals),
        }
    }

    /// The signal of every output, computed from the inputs, or the first input conflict.
    pub fn compute_output_signals(&self) -> (res: Result<Vec<Signal>, GateLogicError>)
        requires
            self.wf(),
        ensures
            match res {
                Ok(v) => self.spec_outputs() == Ok::<Seq<Signal>, GateLogicError>(v@),
                Err(e) => self.spec_outputs() == Err::<Seq<Signal>, GateLogicError>(e),
            },
    {
        let vals = match calculate_input_signals_from_all_inputs(&self.members.input_signals) {
            Ok(v) => v,
            Err(e) => {
                return Err(e);
            },
        };
        proof {
            lemma_resolve_all_len(self.inputs());
        }
        let mut out: Vec<Signal> = Vec::new();
        let mut i: usize = 0;
        while i < self.members.output_states.len()
            invariant
                self.wf(),
                vals@.len() == self.members.input_signals@.len(),
                i <= self.outputs().len(),
                out@.len() == i,
                forall|j: int| 0 <= j < i ==> #[trigger] out@[j] == self.expected_output(vals@, j),
            decreases self.outputs().len() - i,
        {
            let s = self.output_for(&vals, i);
            out.push(s);
            i = i + 1;
        }
        assert(out@ =~= Seq::new(self.outputs().len(), |j: int| self.expected_output(vals@, j)));
        Ok(out)
    }

    /// A controlled buffer whose enable input is not HIGH: it sends `NONE` on every output
    /// and keeps the states it holds.
    pub open spec fn is_disabled_buffer(&self) -> bool {
        &&& self.gate_type() == GateType::ControlledBufferType
        &&& spec_resolve_all(self.inputs()) matches Ok(vals)
        &&& vals.last() != Signal::HIGH
    }

    /// Whether this gate is a controlled buffer whose enable input is not HIGH.
    pub fn disabled_buffer(&self) -> (res: bool)
        requires
            self.wf(),
        ensures
            res == self.is_disabled_buffer(),
    {
        if self.members.gate_type != GateType::ControlledBufferType {
            return false;
        }
        match calculate_input_signals_from_all_inputs(&self.members.input_signals) {
            Ok(vals) => {
                proof {
                    lemma_resolve_all_len(self.inputs());
                }
                vals[vals.len() - 1] != Signal::HIGH
            },
            Err(_) => false,
        }
    }

    /// The signal that output `i` calls for now, or the one it carries if the inputs conflict.
    pub fn compute_connect_signal(&self, i: usize) -> (res: Signal)
        requires
            self.wf(),
            i < self.outputs().len(),
        ensures
            res == self.connect_signal(i as int),
    {
        match self.compute_output_signals() {
            Ok(v) => v[i],
            Err(_) => signal_of_state(&self.members.output_states[i]),
        }
    }
}

/// The signal that an output state carries.
pub fn signal_of_state(state: &GateOutputState) -> (res: Signal)
    ensures
        res == output_signal(*state),
{
    match state {
        GateOutputState::NotConnected(s) => *s,
        GateOutputState::Connected(c) => c.throughput.signal,
    }
}

/// The output of a calculated gate type for resolved input signals.
pub fn calculate_signal(gate_type: GateType, vals: &Vec<Signal>) -> (res: Signal)
    requires
        vals@.len() >= 1,
    ensures
        res == spec_calculate(gate_type, vals@),
{
    match gate_type {
        GateType::NotType => GateLogic::calculate_output_for_not(vals),
        GateType::OrType => GateLogic::calculate_output_for_or(vals),
        GateType::AndType => GateLogic::calculate_output_for_and(vals),
        GateType::NorType => GateLogic::calculate_output_for_nor(vals),
        GateType::NandType => GateLogic::calculate_output_for_nand(vals),
        GateType::XOrType => GateLogic::calculate_output_for_xor(vals),
        GateType::ClockType => GateLogic::calculate_output_for_clock(vals),
        _ => vals[0],
    }
}

/// A gate just created: `input_num` inputs each holding `LOW_` from the zero id, and
/// `output_num` unconnected outputs carrying `signal`.
pub open spec fn is_fresh(
    n: GateNode,
    gate_type: GateType,
    input_num: nat,
    output_num: nat,
    signal: Signal,
    id: UniqueID,
) -> bool {
    &&& n.members.gate_type == gate_type
    &&& n.members.input_signals@.len() == input_num
    &&& all_low_from(n.inputs(), zero_uid())
    &&& n.outputs().len() == output_num
    &&& forall|i: int| 0 <= i < output_num ==> #[trigger] n.outputs()[i] == GateOutputState::NotConnected(signal)
    &&& n.members.unique_id == id
    &&& n.wf()
}

/// Output state `state` goes to input `idx` of gate `t`.
pub open spec fn connected_to(state: GateOutputState, t: int, idx: int) -> bool {
    state matches GateOutputState::Connected(co) && co.gate == t && co.throughput.input_index == idx
}

/// The last of the first `k` outputs that goes to input `idx` of gate `t`, or -1.
pub open spec fn last_conn(outs: Seq<GateOutputState>, k: int, t: int, idx: int) -> int
    decreases k,
{
    if k <= 0 {
        -1
    } else if connected_to(outs[k - 1], t, idx) {
        k - 1
    } else {
        last_conn(outs, k - 1, t, idx)
    }
}

/// A circuit: its gates, each at a fixed position, and the current clock tick.
pub struct Circuit {
    pub gates: Vec<GateNode>,
    pub clock_tick_number: usize,
}

impl Circuit {
    pub open spec fn node(&self, g: int) -> GateNode {
        self.gates@[g]
    }

    pub open spec fn len(&self) -> nat {
        self.gates@.len()
    }

    /// The number of inputs and outputs of every gate.
    pub open spec fn shape(&self) -> Seq<(nat, nat)> {
        Seq::new(
            self.gates@.len(),
            |g: int|
                (
                    self.gates@[g].members.input_signals@.len(),
                    self.gates@[g].members.output_states@.len(),
                ),
        )
    }

    /// The type of every gate.
    pub open spec fn types(&self) -> Seq<GateType> {
        Seq::new(self.gates@.len(), |g: int| self.gates@[g].members.gate_type)
    }

    /// Gate `g` exists and has input `i`.
    pub open spec fn has_input(&self, g: int, i: int) -> bool {
        0 <= g < self.shape().len() && 0 <= i < self.shape()[g].0
    }

    /// Gate `g` exists and has output `i`.
    pub open spec fn has_output(&self, g: int, i: int) -> bool {
        0 <= g < self.shape().len() && 0 <= i < self.shape()[g].1
    }

    /// Where output `j` of gate `g` goes: the destination gate and input, if connected.
    pub open spec fn link(&self, g: int, j: int) -> Option<(int, int)> {
        match self.node(g).outputs()[j] {
            GateOutputState::Connected(co) => Some((co.gate as int, co.throughput.input_index as int)),
            GateOutputState::NotConnected(_) => None,
        }
    }

    /// Gate `g` has output `j`, and it goes to `dest`.
    pub open spec fn wire(&self, g: int, j: int, dest: Option<(int, int)>) -> bool {
        self.has_output(g, j) && self.link(g, j) == dest
    }

    /// Every output of this circuit goes, in `later`, where it goes here.
    pub open spec fn wiring_kept(&self, later: Circuit) -> bool {
        forall|g: int, j: int| self.has_output(g, j) ==> #[trigger] later.link(g, j) == self.link(g, j)
    }

    /// Every connected output of gate `g` goes to an existing input and is sent under the id
    /// of `g`.
    pub open spec fn connections_wf(&self, g: int) -> bool {
        forall|j: int|
            0 <= j < self.node(g).outputs().len() ==> (#[trigger] self.node(g).outputs()[j] matches GateOutputState::Connected(
                co,
            ) ==> {
                &&& self.has_input(co.gate as int, co.throughput.input_index as int)
                &&& co.throughput.sending_id == self.node(g).members.unique_id
            })
    }

    pub open spec fn wf(&self) -> bool {
        &&& self.gates@.len() < usize::MAX
        &&& forall|g: int| 0 <= g < self.gates@.len() ==> #[trigger] self.node(g).wf()
        &&& forall|g: int|
            0 <= g < self.gates@.len() ==> #[trigger] self.node(g).members.unique_id.id == g + 1
        &&& forall|g: int| 0 <= g < self.gates@.len() ==> #[trigger] self.connections_wf(g)
    }

    /// Every connected output of gate `g` has reached its destination: there, every entry
    /// under the id of `g` carries the signal of the last output of `g` that goes there.
    pub open spec fn delivered(&self, g: int) -> bool {
        forall|j: int|
            0 <= j < self.node(g).outputs().len() ==> #[trigger] self.output_delivered(g, j)
    }

    /// Output `j` of gate `g`, if connected and the last of `g` to go where it goes, has
    /// reached its destination.
    pub open spec fn output_delivered(&self, g: int, j: int) -> bool {
        let outs = self.node(g).outputs();
        match outs[j] {
            GateOutputState::Connected(co) => last_conn(
                outs,
                outs.len() as int,
                co.gate as int,
                co.throughput.input_index as int,
            ) == j ==> entries_ok(
                self.node(co.gate as int).inputs()[co.throughput.input_index as int],
                co.throughput.sending_id,
                co.throughput.signal,
            ),
            _ => true,
        }
    }

    /// Input `idx` of gate `t` holds a single entry, from the sender with id `id`.
    pub open spec fn fed_by(&self, t: int, idx: int, id: UniqueID) -> bool {
        &&& self.has_input(t, idx)
        &&& self.node(t).inputs()[idx].len() == 1
        &&& self.node(t).inputs()[idx][0].0 == id
    }

    /// Each output linked to input `idx` of gate `t` is sent under the number `id`.
    pub open spec fn sole_sender(&self, t: int, idx: int, id: UniqueID) -> bool {
        forall|g: int, j: int|
            self.has_output(g, j) && #[trigger] self.link(g, j) == Some((t, idx))
                ==> self.node(g).members.unique_id == id
    }

    /// No output of any gate goes to input `idx` of gate `t`.
    pub open spec fn unlinked(&self, t: int, idx: int) -> bool {
        forall|g: int, j: int| self.has_output(g, j) ==> #[trigger] self.link(g, j) != Some((t, idx))
    }

    /// Every input that nothing reaches in `self` holds the same entries in `later`.
    pub open spec fn unlinked_kept(&self, later: Circuit) -> bool {
        forall|t: int, idx: int|
            self.has_input(t, idx) && self.unlinked(t, idx) ==> #[trigger] later.node(t).inputs()[idx]
                == self.node(t).inputs()[idx]
    }

    /// Every input that is fed by its sole sender in `self` is still fed by it in `later`.
    pub open spec fn feeds_kept(&self, later: Circuit) -> bool {
        forall|t: int, idx: int, id: UniqueID|
            self.fed_by(t, idx, id) && self.sole_sender(t, idx, id) ==> #[trigger] later.fed_by(t, idx, id)
    }

    /// Gate `g` needs no more work: its outputs are up to date and delivered.
    pub open spec fn gate_settled(&self, g: int) -> bool {
        self.node(g).evaluated() && self.delivered(g)
    }

    /// No gate needs more work: the circuit is at rest.
    pub open spec fn settled(&self) -> bool {
        forall|g: int| 0 <= g < self.gates@.len() ==> #[trigger] self.gate_settled(g)
    }

    pub fn new() -> (res: Self)
        ensures
            res.wf(),
            res.len() == 0,
            res.clock_tick_number == 0,
    {
        Circuit { gates: Vec::new(), clock_tick_number: 0 }
    }

    pub fn num_gates(&self) -> (res: usize)
        ensures
            res == self.len(),
    {
        self.gates.len()
    }

    pub fn get_clock_tick_number(&self) -> (res: usize)
        ensures
            res == self.clock_tick_number,
    {
        self.clock_tick_number
    }

    /// Moves to the next clock tick.
    pub fn advance_clock_tick(&mut self)
        requires
            old(self).clock_tick_number < usize::MAX,
        ensures
            final(self).clock_tick_number == old(self).clock_tick_number + 1,
            final(self).gates == old(self).gates,
    {
        self.clock_tick_number = self.clock_tick_number + 1;
    }

    /// The id that the next gate added to the circuit gets.
    pub fn next_unique_id(&self) -> (res: UniqueID)
        requires
            self.wf(),
        ensures
            res.id == self.len() + 1,
    {
        let mut counter = self.gates.len();
        UniqueID::generate(&mut counter)
    }

    /// Adds a gate whose outputs are not connected yet. Returns its position.
    pub fn add_gate(&mut self, node: GateNode) -> (res: usize)
        requires
            old(self).wf(),
            old(self).len() + 1 < usize::MAX,
            node.wf(),
            node.members.unique_id.id == old(self).len() + 1,
            forall|j: int|
                0 <= j < node.outputs().len() ==> #[trigger] node.outputs()[j] is NotConnected,
        ensures
            final(self).wf(),
            res == old(self).len(),
            final(self).gates@ == old(self).gates@.push(node),
            final(self).shape() == old(self).shape().push(
                (node.members.input_signals@.len(), node.members.output_states@.len()),
            ),
            final(self).types() == old(self).types().push(node.members.gate_type),
            final(self).clock_tick_number == old(self).clock_tick_number,
    {
        let res = self.gates.len();
        self.gates.push(node);
        proof {
            assert(self.shape() =~= old(self).shape().push(
                (node.members.input_signals@.len(), node.members.output_states@.len()),
            ));
            assert(self.types() =~= old(self).types().push(node.members.gate_type));
            assert forall|g: int, j: int| old(self).has_output(g, j) implies #[trigger] self.link(g, j) == old(self).link(g, j) by {
                assert(self.node(g) == old(self).node(g));
            }
            assert forall|g: int| 0 <= g < self.gates@.len() implies #[trigger] self.connections_wf(
                g,
            ) by {
                if g < res {
                    assert(old(self).connections_wf(g));
                    assert(self.node(g) == old(self).node(g));
                    assert forall|j: int| 0 <= j < self.node(g).outputs().len() implies (
                    #[trigger] self.node(g).outputs()[j] matches GateOutputState::Connected(co) ==> {
                        &&& self.has_input(co.gate as int, co.throughput.input_index as int)
                        &&& co.throughput.sending_id == self.node(g).members.unique_id
                    }) by {
                        assert(old(self).node(g).outputs()[j] == self.node(g).outputs()[j]);
                    }
                } else {
                    assert(self.node(g) == node);
                }
            }
            assert forall|g: int| 0 <= g < self.gates@.len() implies #[trigger] self.node(g).wf() by {
                if g < res {
                    assert(old(self).node(g).wf());
                }
            }
            assert forall|g: int| 0 <= g < self.gates@.len() implies #[trigger] self.node(
                g,
            ).members.unique_id.id == g + 1 by {
                if g < res {
                    assert(old(self).node(g).members.unique_id.id == g + 1);
                }
            }
        }
        res
    }

    /// Adds an unconnected gate and returns its position.
    fn add_node(
        &mut self,
        gate_type: GateType,
        input_num: usize,
        output_num: usize,
        output_signal: Option<Signal>,
        tag: &str,
        outputs_per_input: usize,
        pull_output: Option<Signal>,
        values_to_be_output: Vec<Signal>,
    ) -> (res: usize)
        requires
            old(self).wf(),
            old(self).len() + 1 < usize::MAX,
            input_num != 0,
            output_signal is None ==> is_calculated_type(gate_type),
            outputs_per_input >= 1,
            gate_type == GateType::SplitterType ==> output_num <= input_num * outputs_per_input,
            (gate_type == GateType::ControlledBufferType || gate_type == GateType::SignalGatekeeperType)
                ==> output_num < input_num,
        ensures
            final(self).wf(),
            res == old(self).len(),
            final(self).gates@.drop_last() == old(self).gates@,
            old(self).wiring_kept(*final(self)),
            final(self).len() == old(self).len() + 1,
            final(self).shape() == old(self).shape().push((input_num as nat, output_num as nat)),
            final(self).types() == old(self).types().push(gate_type),
            final(self).clock_tick_number == old(self).clock_tick_number,
            is_fresh(
                final(self).node(res as int),
                gate_type,
                input_num as nat,
                output_num as nat,
                match output_signal {
                    Some(s) => s,
                    None => spec_calculate(gate_type, Seq::new(input_num as nat, |j: int| Signal::LOW_)),
                },
                UniqueID { id: (old(self).len() + 1) as usize },
            ),
            final(self).node(res as int).members.tag@ == tag@,
            final(self).node(res as int).outputs_per_input == outputs_per_input,
            final(self).node(res as int).pull_output == pull_output,
            final(self).node(res as int).values_to_be_output@ == values_to_be_output@,
            final(self).node(res as int).previous_signal == Signal::LOW_,
    {
        let id = self.next_unique_id();
        let mut members = BasicGateMembers::new(
            input_num,
            output_num,
            gate_type,
            0,
            output_signal,
            id,
            self.clock_tick_number,
        );
        members.tag = tag.to_owned();
        let node = GateNode {
            members,
            outputs_per_input,
            pull_output,
            values_to_be_output,
            previous_signal: Signal::LOW_,
        };
        let res = self.add_gate(node);
        proof {
            assert(self.gates@.drop_last() =~= old(self).gates@);
        }
        res
    }

    /// Adds a basic logic gate (OR, AND, NOT, NOR, NAND, XOR) whose outputs carry what it
    /// computes from all-`LOW_` inputs.
    pub fn add_logic_gate(&mut self, gate_type: GateType, input_num: usize, output_num: usize) -> (res:
        usize)
        requires
            old(self).wf(),
            old(self).len() + 1 < usize::MAX,
            input_num != 0,
            is_calculated_type(gate_type),
        ensures
            final(self).wf(),
            res == old(self).len(),
            final(self).gates@.drop_last() == old(self).gates@,
            old(self).wiring_kept(*final(self)),
            final(self).len() == old(self).len() + 1,
            final(self).shape() == old(self).shape().push((input_num as nat, output_num as nat)),
            final(self).types() == old(self).types().push(gate_type),
            final(self).clock_tick_number == old(self).clock_tick_number,
            is_fresh(
                final(self).node(res as int),
                gate_type,
                input_num as nat,
                output_num as nat,
                spec_calculate(gate_type, Seq::new(input_num as nat, |j: int| Signal::LOW_)),
                UniqueID { id: (old(self).len() + 1) as usize },
            ),
    {
        self.add_node(gate_type, input_num, output_num, None, "", 1, None, Vec::new())
    }

    /// Adds a gate of a type that is not computed from all-`LOW_` inputs; its outputs carry
    /// `signal`. Splitters send input `i / outputs_per_input` to output `i`.
    pub fn add_special_gate(
        &mut self,
        gate_type: GateType,
        input_num: usize,
        output_num: usize,
        signal: Signal,
        tag: &str,
        outputs_per_input: usize,
        values_to_be_output: Vec<Signal>,
    ) -> (res: usize)
        requires
            old(self).wf(),
            old(self).len() + 1 < usize::MAX,
            input_num != 0,
            outputs_per_input >= 1,
            gate_type == GateType::SplitterType ==> output_num <= input_num * outputs_per_input,
            (gate_type == GateType::ControlledBufferType || gate_type == GateType::SignalGatekeeperType)
                ==> output_num < input_num,
        ensures
            final(self).wf(),
            res == old(self).len(),
            final(self).gates@.drop_last() == old(self).gates@,
            old(self).wiring_kept(*final(self)),
            final(self).len() == old(self).len() + 1,
            final(self).shape() == old(self).shape().push((input_num as nat, output_num as nat)),
            final(self).types() == old(self).types().push(gate_type),
            final(self).clock_tick_number == old(self).clock_tick_number,
            is_fresh(
                final(self).node(res as int),
                gate_type,
                input_num as nat,
                output_num as nat,
                signal,
                UniqueID { id: (old(self).len() + 1) as usize },
            ),
            final(self).node(res as int).members.tag@ == tag@,
            final(self).node(res as int).outputs_per_input == outputs_per_input,
            final(self).node(res as int).pull_output is None,
            final(self).node(res as int).values_to_be_output@ == values_to_be_output@,
            final(self).node(res as int).previous_signal == Signal::LOW_,
    {
        self.add_node(gate_type, input_num, output_num, Some(signal), tag, outputs_per_input, None, values_to_be_output)
    }

    /// Connects output `output_index` of gate `output_gate` to input `input_index` of gate
    /// `input_gate`. The output carries the signal that it calls for now; the input drops its
    /// placeholder from the zero id and records that signal from the sending gate. Returns the
    /// signal.
    pub fn connect(
        &mut self,
        output_gate: usize,
        output_index: usize,
        input_gate: usize,
        input_index: usize,
    ) -> (res: Signal)
        requires
            old(self).wf(),
            old(self).has_output(output_gate as int, output_index as int),
            old(self).has_input(input_gate as int, input_index as int),
        ensures
            final(self).wf(),
            final(self).shape() == old(self).shape(),
            final(self).types() == old(self).types(),
            final(self).clock_tick_number == old(self).clock_tick_number,
            res == old(self).node(output_gate as int).connect_signal(output_index as int),
            final(self).link(output_gate as int, output_index as int) == Some((input_gate as int, input_index as int)),
            forall|g: int, j: int| old(self).has_output(g, j) && !(g == output_gate && j == output_index)
                ==> #[trigger] final(self).link(g, j) == old(self).link(g, j),
            final(self).wire(output_gate as int, output_index as int, Some((input_gate as int, input_index as int))),
            forall|g: int, j: int, d: Option<(int, int)>| old(self).wire(g, j, d) && !(g == output_gate && j == output_index)
                ==> #[trigger] final(self).wire(g, j, d),
            inputs_after_connect(*old(self), *final(self), output_gate as int, input_gate as int, input_index as int, res),
            outputs_after_connect(*old(self), *final(self), output_gate as int, output_index as int),
            final(self).node(output_gate as int).outputs()[output_index as int]
                == GateOutputState::Connected(
                ConnectedOutput {
                    throughput: GateInput {
                        input_index,
                        signal: res,
                        sending_id: old(self).node(output_gate as int).members.unique_id,
                    },
                    gate: input_gate,
                },
            ),
    {
        let ghost old_self = *self;
        let signal = self.gates[output_gate].compute_connect_signal(output_index);
        let sending_id = self.gates[output_gate].members.unique_id;
        let state = GateOutputState::Connected(
            ConnectedOutput {
                throughput: GateInput::new(input_index, signal, sending_id),
                gate: input_gate,
            },
        );
        self.gates[output_gate].members.output_states.set(output_index, state);
        let ghost mid = *self;
        self.gates[input_gate].members.internal_update_index_to_id(sending_id, input_index, signal);
        proof {
            crate::run_circuit::lemma_entries_view_update(
                mid.node(input_gate as int).members.input_signals@,
                input_index as int,
                self.node(input_gate as int).members.input_signals@[input_index as int],
            );
            assert(mid.node(input_gate as int).inputs() == old_self.node(input_gate as int).inputs());
            reveal(inputs_after_connect);
            reveal(outputs_after_connect);
            assert forall|h: int, k: int|
                0 <= h < old_self.len() && 0 <= k < old_self.node(h).outputs().len() && !(h == output_gate && k == output_index)
                    implies #[trigger] self.node(h).outputs()[k] == old_self.node(h).outputs()[k] by {
                assert(mid.node(h).outputs()[k] == old_self.node(h).outputs()[k]);
            }
            assert(self.shape() =~= old_self.shape());
            assert(self.types() =~= old_self.types());
            assert forall|g: int| 0 <= g < self.gates@.len() implies #[trigger] self.node(g).wf() by {
                assert(old_self.node(g).wf());
            }
            assert forall|g: int| 0 <= g < self.gates@.len() implies #[trigger] self.node(
                g,
            ).members.unique_id.id == g + 1 by {
                assert(old_self.node(g).members.unique_id.id == g + 1);
            }
            assert forall|g: int| 0 <= g < self.gates@.len() implies #[trigger] self.connections_wf(
                g,
            ) by {
                assert(old_self.connections_wf(g));
                assert forall|j: int| 0 <= j < self.node(g).outputs().len() implies (
                #[trigger] self.node(g).outputs()[j] matches GateOutputState::Connected(co) ==> {
                    &&& self.has_input(co.gate as int, co.throughput.input_index as int)
                    &&& co.throughput.sending_id == self.node(g).members.unique_id
                }) by {
                    if g != output_gate || j != output_index {
                        assert(self.node(g).outputs()[j] == old_self.node(g).outputs()[j]);
                    }
                }
            }
        }
        signal
    }
}

/// What a connection does to the inputs: input `idx` of gate `t` drops its placeholder from
/// the zero id and records `signal` from gate `g`; every other input stays as it was.
#[verifier::opaque]
pub open spec fn inputs_after_connect(before: Circuit, after: Circuit, g: int, t: int, idx: int, signal: Signal) -> bool {
    &&& after.node(t).inputs() == before.node(t).inputs().update(
        idx,
        spec_set_entry(
            spec_remove_entries(before.node(t).inputs()[idx], zero_uid()),
            before.node(g).members.unique_id,
            signal,
        ),
    )
    &&& forall|h: int| 0 <= h < before.len() && h != t ==> #[trigger] after.node(h).inputs() == before.node(h).inputs()
}

/// What a connection does to the outputs: every output but output `j` of gate `g` keeps its
/// state, signal included.
#[verifier::opaque]
pub open spec fn outputs_after_connect(before: Circuit, after: Circuit, g: int, j: int) -> bool {
    forall|h: int, k: int|
        0 <= h < before.len() && 0 <= k < before.node(h).outputs().len() && !(h == g && k == j)
            ==> #[trigger] after.node(h).outputs()[k] == before.node(h).outputs()[k]
}

/// Keeping the wiring is transitive.
pub proof fn lemma_wiring_kept_trans(a: Circuit, b: Circuit, c: Circuit)
    requires
        a.wiring_kept(b),
        b.wiring_kept(c),
        crate::logic::foundations::shape_extends(a.shape(), b.shape()),
    ensures
        a.wiring_kept(c),
{
    assert forall|g: int, j: int| a.has_output(g, j) implies #[trigger] c.link(g, j) == a.link(g, j) by {
        assert(b.shape().subrange(0, a.shape().len() as int)[g] == b.shape()[g]);
        assert(b.has_output(g, j));
        assert(b.link(g, j) == a.link(g, j));
    }
}

/// A circuit keeps its own wiring.
pub proof fn lemma_wiring_kept_refl(a: Circuit)
    ensures
        a.wiring_kept(a),
        crate::logic::foundations::shape_extends(a.shape(), a.shape()),
{
    assert(a.shape().subrange(0, a.shape().len() as int) =~= a.shape());
}

/// Who sends to an input depends only on the wiring.
pub proof fn lemma_sole_sender_kept(c0: Circuit, c1: Circuit, t: int, idx: int, id: UniqueID)
    requires
        c0.wf(),
        c1.wf(),
        c0.wiring_kept(c1),
        c1.shape() == c0.shape(),
        c0.sole_sender(t, idx, id),
    ensures
        c1.sole_sender(t, idx, id),
{
    assert forall|g: int, j: int| c1.has_output(g, j) && #[trigger] c1.link(g, j) == Some((t, idx)) implies c1.node(g).members.unique_id == id by {
        assert(c0.has_output(g, j));
        assert(c0.link(g, j) == c1.link(g, j));
        assert(c0.node(g).members.unique_id.id == g + 1);
        assert(c1.node(g).members.unique_id.id == g + 1);
    }
}

/// Keeping the feeds is transitive, where the wiring is kept.
pub proof fn lemma_feeds_kept_trans(a: Circuit, b: Circuit, c: Circuit)
    requires
        a.wf(),
        b.wf(),
        a.wiring_kept(b),
        b.shape() == a.shape(),
        a.feeds_kept(b),
        b.feeds_kept(c),
    ensures
        a.feeds_kept(c),
{
    assert forall|t: int, idx: int, id: UniqueID| a.fed_by(t, idx, id) && a.sole_sender(t, idx, id) implies #[trigger] c.fed_by(t, idx, id) by {
        lemma_sole_sender_kept(a, b, t, idx, id);
        assert(b.fed_by(t, idx, id));
    }
}

/// Keeping what nothing reaches is transitive, where the wiring is kept.
pub proof fn lemma_unlinked_kept_trans(a: Circuit, b: Circuit, c: Circuit)
    requires
        a.wiring_kept(b),
        b.shape() == a.shape(),
        a.unlinked_kept(b),
        b.unlinked_kept(c),
    ensures
        a.unlinked_kept(c),
{
    assert forall|t: int, idx: int| a.has_input(t, idx) && a.unlinked(t, idx) implies #[trigger] c.node(t).inputs()[idx]
        == a.node(t).inputs()[idx] by {
        assert forall|g: int, j: int| b.has_output(g, j) implies #[trigger] b.link(g, j) != Some((t, idx)) by {
            assert(a.has_output(g, j));
            assert(a.link(g, j) == b.link(g, j));
        }
        assert(b.node(t).inputs()[idx] == a.node(t).inputs()[idx]);
    }
}

/// A circuit keeps what nothing reaches.
pub proof fn lemma_unlinked_kept_refl(a: Circuit)
    ensures
        a.unlinked_kept(a),
{
}

/// A circuit keeps its own feeds.
pub proof fn lemma_feeds_kept_refl(a: Circuit)
    ensures
        a.feeds_kept(a),
{
}

/// Connecting a sender to an input that holds only its placeholder leaves that sender's
/// entry alone there.
pub proof fn lemma_connect_fresh(id: UniqueID, s: Signal)
    ensures
        spec_set_entry(spec_remove_entries(seq![(zero_uid(), Signal::LOW_)], zero_uid()), id, s) == seq![(id, s)],
{
    let e = seq![(zero_uid(), Signal::LOW_)];
    assert(e.drop_last() =~= Seq::<(UniqueID, Signal)>::empty());
    assert(spec_remove_entries(e.drop_last(), zero_uid()) =~= Seq::<(UniqueID, Signal)>::empty());
    assert(spec_remove_entries(e, zero_uid()) =~= Seq::<(UniqueID, Signal)>::empty());
    assert(!crate::logic::foundations::has_entry(Seq::<(UniqueID, Signal)>::empty(), id));
    assert(Seq::<(UniqueID, Signal)>::empty().push((id, s)) =~= seq![(id, s)]);
}

/// The signal that input `idx` of gate `t` sees, when its senders do not conflict.
pub open spec fn input_value(c: Circuit, t: int, idx: int) -> Signal {
    spec_resolve(c.node(t).inputs()[idx])->Ok_0
}

/// An input with a single entry sees the signal of that entry.
pub proof fn lemma_single_entry(entries: Seq<(UniqueID, Signal)>)
    requires
        entries.len() == 1,
    ensures
        spec_resolve(entries) == Ok::<Signal, GateLogicError>(entries[0].1),
{
    reveal_with_fuel(spec_resolve, 2);
    assert(entries.drop_last() =~= Seq::<(UniqueID, Signal)>::empty());
}

/// A gate with one input sees what that input sees.
pub proof fn lemma_one_input(inputs: Seq<Seq<(UniqueID, Signal)>>, a: Signal)
    requires
        inputs.len() == 1,
        spec_resolve(inputs[0]) == Ok::<Signal, GateLogicError>(a),
    ensures
        spec_resolve_all(inputs) == Ok::<Seq<Signal>, GateLogicError>(seq![a]),
{
    reveal_with_fuel(spec_resolve_all, 2);
    assert(inputs.drop_last() =~= Seq::<Seq<(UniqueID, Signal)>>::empty());
    assert(inputs.last() == inputs[0]);
    assert(Seq::<Signal>::empty().push(a) =~= seq![a]);
}

/// A gate with two inputs sees what they see.
pub proof fn lemma_two_inputs(inputs: Seq<Seq<(UniqueID, Signal)>>, a: Signal, b: Signal)
    requires
        inputs.len() == 2,
        spec_resolve(inputs[0]) == Ok::<Signal, GateLogicError>(a),
        spec_resolve(inputs[1]) == Ok::<Signal, GateLogicError>(b),
    ensures
        spec_resolve_all(inputs) == Ok::<Seq<Signal>, GateLogicError>(seq![a, b]),
{
    lemma_one_input(inputs.drop_last(), a);
    assert(inputs.last() == inputs[1]);
    assert(seq![a].push(b) =~= seq![a, b]);
}

/// A gate with three inputs sees what they see.
pub proof fn lemma_three_inputs(inputs: Seq<Seq<(UniqueID, Signal)>>, a: Signal, b: Signal, x: Signal)
    requires
        inputs.len() == 3,
        spec_resolve(inputs[0]) == Ok::<Signal, GateLogicError>(a),
        spec_resolve(inputs[1]) == Ok::<Signal, GateLogicError>(b),
        spec_resolve(inputs[2]) == Ok::<Signal, GateLogicError>(x),
    ensures
        spec_resolve_all(inputs) == Ok::<Seq<Signal>, GateLogicError>(seq![a, b, x]),
{
    lemma_two_inputs(inputs.drop_last(), a, b);
    assert(inputs.last() == inputs[2]);
    assert(seq![a, b].push(x) =~= seq![a, b, x]);
}

/// At rest, an input fed only by output `j` of gate `g`, the last output of `g` that goes
/// there, sees what that output carries.
pub proof fn lemma_fed_value(c: Circuit, g: int, j: int, t: int, idx: int)
    requires
        c.wf(),
        c.gate_settled(g),
        c.wire(g, j, Some((t, idx))),
        last_conn(c.node(g).outputs(), c.node(g).outputs().len() as int, t, idx) == j,
        c.fed_by(t, idx, c.node(g).members.unique_id),
    ensures
        spec_resolve(c.node(t).inputs()[idx]) == Ok::<Signal, GateLogicError>(c.node(g).current(j)),
        input_value(c, t, idx) == c.node(g).current(j),
{
    assert(c.connections_wf(g));
    assert(c.output_delivered(g, j));
    let e = c.node(t).inputs()[idx];
    assert(e[0].0 == c.node(g).members.unique_id);
    lemma_single_entry(e);
}

/// Every gate from `start` on is settled.
pub open spec fn settled_from(c: Circuit, start: int) -> bool {
    forall|g: int| start <= g < c.len() ==> #[trigger] c.gate_settled(g)
}

/// Every gate of `before` that was settled is settled in `after`.
pub open spec fn settled_kept(before: Circuit, after: Circuit) -> bool {
    forall|g: int| 0 <= g < before.len() && before.gate_settled(g) ==> #[trigger] after.gate_settled(g)
}

/// What keeps the wiring and the shape keeps every wire.
pub proof fn lemma_wire_kept(c1: Circuit, c2: Circuit)
    requires
        c1.wiring_kept(c2),
        c2.shape() == c1.shape(),
    ensures
        forall|g: int, j: int, d: Option<(int, int)>| #[trigger] c1.wire(g, j, d) ==> c2.wire(g, j, d),
{
}

/// What keeps the wiring while only adding gates keeps every wire.
pub proof fn lemma_wire_kept_grown(c1: Circuit, c2: Circuit)
    requires
        c1.wiring_kept(c2),
        crate::logic::foundations::shape_extends(c1.shape(), c2.shape()),
    ensures
        forall|g: int, j: int, d: Option<(int, int)>| #[trigger] c1.wire(g, j, d) ==> c2.wire(g, j, d),
{
    assert forall|g: int, j: int, d: Option<(int, int)>| #[trigger] c1.wire(g, j, d) implies c2.wire(g, j, d) by {
        assert(c2.shape().subrange(0, c1.shape().len() as int)[g] == c2.shape()[g]);
    }
}

} // verus!
