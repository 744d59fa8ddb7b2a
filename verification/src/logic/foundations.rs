use vstd::prelude::*;

use crate::circuit::Circuit;
use crate::globals::MAX_INPUT_CHANGES;
use crate::logic::signals::{
    spec_and, spec_clock, spec_nand, spec_nor, spec_not, spec_or, spec_resolve, spec_resolve_all,
    spec_xor, all_low_from, entries_view, GateInput, GateLogicError, InputEntries, Signal, UniqueID,
};

verus! {

/// What a gate reports for one output: the signal itself, and where it goes if the output is
/// connected.
#[derive(PartialEq, Eq, Structural, Debug, Clone, Copy)]
pub enum GateOutputState {
    NotConnected(Signal),
    Connected(ConnectedOutput),
}

/// A connected output: `throughput` is what reaches input `throughput.input_index` of that gate
/// at position `gate` of the circuit.
#[derive(PartialEq, Eq, Structural, Debug, Clone, Copy)]
pub struct ConnectedOutput {
    pub throughput: GateInput,
    pub gate: usize,
}

pub open spec fn output_signal(state: GateOutputState) -> Signal {
    match state {
        GateOutputState::NotConnected(s) => s,
        GateOutputState::Connected(c) => c.throughput.signal,
    }
}

pub open spec fn with_signal(state: GateOutputState, s: Signal) -> GateOutputState {
    match state {
        GateOutputState::NotConnected(_) => GateOutputState::NotConnected(s),
        GateOutputState::Connected(c) => GateOutputState::Connected(
            ConnectedOutput { throughput: GateInput { signal: s, ..c.throughput }, ..c },
        ),
    }
}

/// The signal that an output state carries.
pub fn signal_of(state: &GateOutputState) -> (res: Signal)
    ensures
        res == output_signal(*state),
{
    match state {
        GateOutputState::NotConnected(s) => *s,
        GateOutputState::Connected(c) => c.throughput.signal,
    }
}

/// The same output state carrying another signal; where it goes is kept.
pub fn set_signal(state: &GateOutputState, s: Signal) -> (res: GateOutputState)
    ensures
        res == with_signal(*state, s),
{
    match state {
        GateOutputState::NotConnected(_) => GateOutputState::NotConnected(s),
        GateOutputState::Connected(c) => GateOutputState::Connected(
            ConnectedOutput {
                throughput: GateInput::new(c.throughput.input_index, s, c.throughput.sending_id),
                gate: c.gate,
            },
        ),
    }
}

#[derive(Debug)]
pub struct InputSignalReturn {
    pub changed_count_this_tick: usize,
    pub input_signal_updated: bool,
}

/// Counts how often the inputs of a gate change during one clock tick.
#[derive(PartialEq, Eq, Structural, Debug, Clone, Copy)]
pub struct OscillationDetection {
    pub current_tick: usize,
    pub changed_count_this_tick: usize,
}

impl OscillationDetection {
    pub open spec fn wf(&self) -> bool {
        self.changed_count_this_tick <= MAX_INPUT_CHANGES
    }

    pub fn new(clock_tick_number: usize) -> (res: Self)
        ensures
            res.current_tick == clock_tick_number,
            res.changed_count_this_tick == 0,
            res.wf(),
    {
        OscillationDetection { current_tick: clock_tick_number, changed_count_this_tick: 0 }
    }

    /// Records one change of an input sent by `input_id` during tick `clock_tick_number` and
    /// returns how many changes this tick has seen. Changes sent by the zero id are not
    /// counted. Up to `MAX_INPUT_CHANGES` changes are allowed in one tick; one more is reported
    /// as oscillation.
    pub fn detect_oscillation(&mut self, input_id: UniqueID, clock_tick_number: usize) -> (res:
        Result<usize, GateLogicError>)
        requires
            old(self).wf(),
        ensures
            final(self).wf(),
            input_id.id == 0 ==> res == Ok::<usize, GateLogicError>(
                old(self).changed_count_this_tick,
            ) && *final(self) == *old(self),
            input_id.id != 0 && old(self).current_tick != clock_tick_number ==> res == Ok::<
                usize,
                GateLogicError,
            >(1) && final(self).current_tick == clock_tick_number
                && final(self).changed_count_this_tick == 1,
            input_id.id != 0 && old(self).current_tick == clock_tick_number ==> {
                if old(self).changed_count_this_tick + 1 > MAX_INPUT_CHANGES {
                    res == Err::<usize, GateLogicError>(GateLogicError::OscillationDetected)
                        && *final(self) == *old(self)
                } else {
                    res == Ok::<usize, GateLogicError>(
                        (old(self).changed_count_this_tick + 1) as usize,
                    ) && final(self).current_tick == clock_tick_number
                        && final(self).changed_count_this_tick == old(
                        self,
                    ).changed_count_this_tick + 1
                }
            },
    {
        if input_id.id == 0 {
            return Ok(self.changed_count_this_tick);
        }
        if self.current_tick == clock_tick_number {
            if self.changed_count_this_tick >= MAX_INPUT_CHANGES {
                return Err(GateLogicError::OscillationDetected);
            }
            self.changed_count_this_tick = self.changed_count_this_tick + 1;
        } else {
            self.current_tick = clock_tick_number;
            self.changed_count_this_tick = 1;
        }
        Ok(self.changed_count_this_tick)
    }
}

#[derive(PartialEq, Eq, Structural, Debug, Clone, Copy)]
pub enum GateType {
    UnknownType,
    NotType,
    OrType,
    AndType,
    NorType,
    NandType,
    XOrType,
    SplitterType,
    ControlledBufferType,
    SignalGatekeeperType,
    ClockType,
    AutomaticInputType,
    SimpleOutputType,
    SimpleInputType,
    SRLatchType,
    ActiveLowSRLatchType,
    OneBitMemoryCellType,
    VariableBitMemoryCellType,
    VariableCPUEnableType,
    MasterSlaveJKFlipFlopType,
    FourCycleClockHookupType,
    VariableBitCounterType,
    VariableBitMultiplexerType,
    VariableBitRegisterType,
    VariableDecoderType,
    VariableSingleRAMCellType,
    RAMUnitType,
    HalfAdderType,
    FullAdderType,
    VariableBitAdderType,
    VariableBitShiftLeftType,
    VariableBitNotType,
    VariableBitAndType,
    VariableBitOrType,
    XOrLEType,
    VariableBitXOrLEType,
    VariableBitZType,
    VariableBitEnableType,
    ArithmeticLogicUnitType,
    VariableBitBusOneType,
    VariableOutputStepperType,
    ControlSectionType,
    VariableBitCPUType,
}

/// Gate types whose single output signal is a function of their inputs alone.
pub open spec fn is_calculated_type(gate_type: GateType) -> bool {
    match gate_type {
        GateType::NotType | GateType::OrType | GateType::AndType | GateType::NorType
        | GateType::NandType | GateType::XOrType | GateType::ClockType
        | GateType::AutomaticInputType | GateType::SimpleInputType => true,
        _ => false,
    }
}

/// The output of a calculated gate type for the given input signals.
pub open spec fn spec_calculate(gate_type: GateType, signals: Seq<Signal>) -> Signal {
    match gate_type {
        GateType::NotType => spec_not(signals),
        GateType::OrType => spec_or(signals),
        GateType::AndType => spec_and(signals),
        GateType::NorType => spec_nor(signals),
        GateType::NandType => spec_nand(signals),
        GateType::XOrType => spec_xor(signals),
        GateType::ClockType => spec_clock(signals),
        _ => signals[0],
    }
}

/// The output of a calculated gate type from the entries of its inputs.
pub open spec fn spec_calculate_from_inputs(gate_type: GateType, inputs: Seq<Seq<(UniqueID, Signal)>>) -> Result<
    Signal,
    GateLogicError,
> {
    match spec_resolve_all(inputs) {
        Err(e) => Err(e),
        Ok(signals) => Ok(spec_calculate(gate_type, signals)),
    }
}

pub struct GateLogic;

impl GateLogic {
    pub fn calculate_output_for_or(input_signals: &Vec<Signal>) -> (res: Signal)
        ensures
            res == spec_or(input_signals@),
    {
        let mut i: usize = 0;
        while i < input_signals.len()
            invariant
                i <= input_signals.len(),
                forall|j: int| 0 <= j < i ==> input_signals@[j] != Signal::HIGH,
            decreases input_signals.len() - i,
        {
            if input_signals[i] == Signal::HIGH {
                assert(input_signals@.contains(Signal::HIGH)) by {
                    assert(input_signals@[i as int] == Signal::HIGH);
                }
                return Signal::HIGH;
            }
            i = i + 1;
        }
        Signal::LOW_
    }

    pub fn calculate_output_for_and(input_signals: &Vec<Signal>) -> (res: Signal)
        ensures
            res == spec_and(input_signals@),
    {
        let mut i: usize = 0;
        while i < input_signals.len()
            invariant
                i <= input_signals.len(),
                forall|j: int| 0 <= j < i ==> input_signals@[j] != Signal::LOW_,
            decreases input_signals.len() - i,
        {
            if input_signals[i] == Signal::LOW_ {
                assert(input_signals@.contains(Signal::LOW_)) by {
                    assert(input_signals@[i as int] == Signal::LOW_);
                }
                return Signal::LOW_;
            }
            i = i + 1;
        }
        Signal::HIGH
    }

    /// A NOT gate looks at its first input only.
    pub fn calculate_output_for_not(input_signals: &Vec<Signal>) -> (res: Signal)
        requires
            input_signals@.len() >= 1,
        ensures
            res == spec_not(input_signals@),
    {
        if input_signals[0] == Signal::HIGH {
            Signal::LOW_
        } else {
            Signal::HIGH
        }
    }

    pub fn calculate_output_for_nor(input_signals: &Vec<Signal>) -> (res: Signal)
        ensures
            res == spec_nor(input_signals@),
    {
        let or_signal = vec![GateLogic::calculate_output_for_or(input_signals)];
        assert(or_signal@ == seq![spec_or(input_signals@)]);
        GateLogic::calculate_output_for_not(&or_signal)
    }

    pub fn calculate_output_for_nand(input_signals: &Vec<Signal>) -> (res: Signal)
        ensures
            res == spec_nand(input_signals@),
    {
        let and_signal = vec![GateLogic::calculate_output_for_and(input_signals)];
        assert(and_signal@ == seq![spec_and(input_signals@)]);
        GateLogic::calculate_output_for_not(&and_signal)
    }

    pub fn calculate_output_for_xor(input_signals: &Vec<Signal>) -> (res: Signal)
        ensures
            res == spec_xor(input_signals@),
    {
        let mut high_signal_exists = false;
        let mut low_signal_exists = false;
        let mut i: usize = 0;
        while i < input_signals.len()
            invariant
                i <= input_signals.len(),
                high_signal_exists <==> exists|j: int|
                    0 <= j < i && #[trigger] input_signals@[j] == Signal::HIGH,
                low_signal_exists <==> exists|j: int|
                    0 <= j < i && #[trigger] input_signals@[j] == Signal::LOW_,
                !(high_signal_exists && low_signal_exists),
            decreases input_signals.len() - i,
        {
            match input_signals[i] {
                Signal::NONE => {},
                Signal::LOW_ => {
                    low_signal_exists = true;
                },
                Signal::HIGH => {
                    high_signal_exists = true;
                },
            }
            if high_signal_exists && low_signal_exists {
                let ghost s = input_signals@;
                assert(s.contains(Signal::HIGH) && s.contains(Signal::LOW_)) by {
                    let jh = choose|j: int| 0 <= j < i + 1 && s[j] == Signal::HIGH;
                    let jl = choose|j: int| 0 <= j < i + 1 && s[j] == Signal::LOW_;
                    assert(s[jh] == Signal::HIGH);
                    assert(s[jl] == Signal::LOW_);
                }
                return Signal::HIGH;
            }
            i = i + 1;
        }
        let ghost s = input_signals@;
        assert(s.contains(Signal::HIGH) <==> high_signal_exists) by {
            if s.contains(Signal::HIGH) {
                let j = choose|j: int| 0 <= j < s.len() && s[j] == Signal::HIGH;
                assert(s[j] == Signal::HIGH);
            }
            if high_signal_exists {
                let j = choose|j: int| 0 <= j < i && s[j] == Signal::HIGH;
                assert(s[j] == Signal::HIGH);
            }
        }
        assert(s.contains(Signal::LOW_) <==> low_signal_exists) by {
            if s.contains(Signal::LOW_) {
                let j = choose|j: int| 0 <= j < s.len() && s[j] == Signal::LOW_;
                assert(s[j] == Signal::LOW_);
            }
            if low_signal_exists {
                let j = choose|j: int| 0 <= j < i && s[j] == Signal::LOW_;
                assert(s[j] == Signal::LOW_);
            }
        }
        if !high_signal_exists && !low_signal_exists {
            Signal::NONE
        } else {
            Signal::LOW_
        }
    }

    /// A clock flips the signal it last produced.
    pub fn calculate_output_for_clock(input_signals: &Vec<Signal>) -> (res: Signal)
        requires
            input_signals@.len() >= 1,
        ensures
            res == spec_clock(input_signals@),
    {
        if input_signals[0] == Signal::LOW_ {
            Signal::HIGH
        } else {
            Signal::LOW_
        }
    }

    pub fn calculate_output_for_automatic_input(input_signals: &Vec<Signal>) -> (res: Signal)
        requires
            input_signals@.len() >= 1,
        ensures
            res == input_signals@[0],
    {
        input_signals[0]
    }

    pub fn calculate_output_for_simple_input(input_signals: &Vec<Signal>) -> (res: Signal)
        requires
            input_signals@.len() >= 1,
        ensures
            res == input_signals@[0],
    {
        input_signals[0]
    }

    /// The output of a calculated gate type for the entries on its inputs, or the first
    /// conflict among them.
    pub fn calculate_output_from_inputs(gate_type: GateType, input_signals: &Vec<InputEntries>) -> (res:
        Result<Signal, GateLogicError>)
        requires
            is_calculated_type(gate_type),
            input_signals@.len() >= 1,
        ensures
            res == spec_calculate_from_inputs(gate_type, entries_view(input_signals@)),
    {
        let signals = match calculate_input_signals_from_all_inputs(input_signals) {
            Err(e) => {
                return Err(e);
            },
            Ok(s) => s,
        };
        proof {
            lemma_resolve_all_len(entries_view(input_signals@));
        }
        let output_signal = match gate_type {
            GateType::NotType => GateLogic::calculate_output_for_not(&signals),
            GateType::OrType => GateLogic::calculate_output_for_or(&signals),
            GateType::AndType => GateLogic::calculate_output_for_and(&signals),
            GateType::NorType => GateLogic::calculate_output_for_nor(&signals),
            GateType::NandType => GateLogic::calculate_output_for_nand(&signals),
            GateType::XOrType => GateLogic::calculate_output_for_xor(&signals),
            GateType::ClockType => GateLogic::calculate_output_for_clock(&signals),
            GateType::AutomaticInputType => GateLogic::calculate_output_for_automatic_input(
                &signals,
            ),
            _ => GateLogic::calculate_output_for_simple_input(&signals),
        };
        Ok(output_signal)
    }
}

/// Resolved inputs come one per input.
pub proof fn lemma_resolve_all_len(inputs: Seq<Seq<(UniqueID, Signal)>>)
    ensures
        spec_resolve_all(inputs) matches Ok(s) ==> s.len() == inputs.len(),
        spec_resolve_all(inputs) matches Ok(s) ==> forall|i: int|
            0 <= i < inputs.len() ==> spec_resolve(#[trigger] inputs[i]) == Ok::<
                Signal,
                GateLogicError,
            >(s[i]),
    decreases inputs.len(),
{
    if inputs.len() > 0 {
        lemma_resolve_all_len(inputs.drop_last());
        if let Ok(s) = spec_resolve_all(inputs) {
            let p = spec_resolve_all(inputs.drop_last())->Ok_0;
            assert forall|i: int| 0 <= i < inputs.len() implies spec_resolve(
                #[trigger] inputs[i],
            ) == Ok::<Signal, GateLogicError>(s[i]) by {
                if i < inputs.len() - 1 {
                    assert(inputs.drop_last()[i] == inputs[i]);
                }
            }
        }
    }
}

/// Inputs whose entries each resolve resolve together.
pub proof fn lemma_resolve_all_ok(inputs: Seq<Seq<(UniqueID, Signal)>>, signals: Seq<Signal>)
    requires
        signals.len() == inputs.len(),
        forall|i: int|
            0 <= i < inputs.len() ==> spec_resolve(#[trigger] inputs[i]) == Ok::<
                Signal,
                GateLogicError,
            >(signals[i]),
    ensures
        spec_resolve_all(inputs) == Ok::<Seq<Signal>, GateLogicError>(signals),
    decreases inputs.len(),
{
    if inputs.len() > 0 {
        assert forall|i: int| 0 <= i < inputs.len() - 1 implies spec_resolve(
            #[trigger] inputs.drop_last()[i],
        ) == Ok::<Signal, GateLogicError>(signals.drop_last()[i]) by {
            assert(inputs.drop_last()[i] == inputs[i]);
        }
        lemma_resolve_all_ok(inputs.drop_last(), signals.drop_last());
        assert(spec_resolve(inputs[inputs.len() - 1]) == Ok::<Signal, GateLogicError>(
            signals[inputs.len() - 1],
        ));
        assert(signals.drop_last().push(signals.last()) =~= signals);
    } else {
        assert(signals =~= Seq::<Signal>::empty());
    }
}

/// The signal that one input sees.
pub fn calculate_input_signal_from_single_inputs(input_signal: &InputEntries) -> (res: Result<
    Signal,
    GateLogicError,
>)
    ensures
        res == spec_resolve(input_signal@),
{
    let mut final_signal = Signal::NONE;
    let mut i: usize = 0;
    while i < input_signal.len()
        invariant
            i <= input_signal.len(),
            spec_resolve(input_signal@.subrange(0, i as int)) == Ok::<Signal, GateLogicError>(
                final_signal,
            ),
        decreases input_signal.len() - i,
    {
        let s = input_signal[i].1;
        proof {
            assert(input_signal@.subrange(0, i as int + 1).drop_last() =~= input_signal@.subrange(
                0,
                i as int,
            ));
        }
        if final_signal == Signal::NONE {
            final_signal = s;
        } else if s != Signal::NONE {
            proof {
                lemma_resolve_err_extends(input_signal@, i as int + 1);
            }
            return Err(GateLogicError::MultipleValidSignalsWhenCalculating);
        }
        i = i + 1;
    }
    assert(input_signal@.subrange(0, i as int) =~= input_signal@);
    Ok(final_signal)
}

/// Once a prefix of the entries conflicts, the whole list does.
pub proof fn lemma_resolve_err_extends(entries: Seq<(UniqueID, Signal)>, k: int)
    requires
        0 <= k <= entries.len(),
        spec_resolve(entries.subrange(0, k)) is Err,
    ensures
        spec_resolve(entries) == spec_resolve(entries.subrange(0, k)),
    decreases entries.len() - k,
{
    if k == entries.len() {
        assert(entries.subrange(0, k) =~= entries);
    } else {
        assert(entries.subrange(0, k + 1).drop_last() =~= entries.subrange(0, k));
        lemma_resolve_err_extends(entries, k + 1);
    }
}

/// The signals that all inputs of a gate see, or the first conflict.
pub fn calculate_input_signals_from_all_inputs(input_signals: &Vec<InputEntries>) -> (res: Result<
    Vec<Signal>,
    GateLogicError,
>)
    ensures
        match res {
            Ok(v) => spec_resolve_all(entries_view(input_signals@)) == Ok::<
                Seq<Signal>,
                GateLogicError,
            >(v@),
            Err(e) => spec_resolve_all(entries_view(input_signals@)) == Err::<
                Seq<Signal>,
                GateLogicError,
            >(e),
        },
{
    let ghost ev = entries_view(input_signals@);
    let mut final_signals: Vec<Signal> = Vec::new();
    let mut i: usize = 0;
    while i < input_signals.len()
        invariant
            i <= input_signals.len(),
            ev == entries_view(input_signals@),
            spec_resolve_all(ev.subrange(0, i as int)) == Ok::<Seq<Signal>, GateLogicError>(
                final_signals@,
            ),
        decreases input_signals.len() - i,
    {
        proof {
            assert(ev.subrange(0, i as int + 1).drop_last() =~= ev.subrange(0, i as int));
            assert(ev.subrange(0, i as int + 1).last() == input_signals@[i as int]@);
        }
        match calculate_input_signal_from_single_inputs(&input_signals[i]) {
            Ok(s) => {
                final_signals.push(s);
            },
            Err(e) => {
                proof {
                    lemma_resolve_all_err_extends(ev, i as int + 1);
                }
                return Err(e);
            },
        }
        i = i + 1;
    }
    assert(ev.subrange(0, i as int) =~= ev);
    Ok(final_signals)
}

/// Once a prefix of the inputs conflicts, all of them do, with the same conflict.
pub proof fn lemma_resolve_all_err_extends(inputs: Seq<Seq<(UniqueID, Signal)>>, k: int)
    requires
        0 <= k <= inputs.len(),
        spec_resolve_all(inputs.subrange(0, k)) is Err,
    ensures
        spec_resolve_all(inputs) == spec_resolve_all(inputs.subrange(0, k)),
    decreases inputs.len() - k,
{
    if k == inputs.len() {
        assert(inputs.subrange(0, k) =~= inputs);
    } else {
        assert(inputs.subrange(0, k + 1).drop_last() =~= inputs.subrange(0, k));
        lemma_resolve_all_err_extends(inputs, k + 1);
    }
}

/// Puts `new_signal` on every output; where each output goes is kept.
pub fn set_all_gate_output_to_signal(output_states: &mut Vec<GateOutputState>, new_signal: Signal)
    ensures
        final(output_states)@.len() == old(output_states)@.len(),
        forall|i: int|
            0 <= i < old(output_states)@.len() ==> #[trigger] final(output_states)@[i]
                == with_signal(old(output_states)@[i], new_signal),
{
    let mut i: usize = 0;
    while i < output_states.len()
        invariant
            i <= output_states.len(),
            output_states@.len() == old(output_states)@.len(),
            forall|j: int|
                0 <= j < i ==> #[trigger] output_states@[j] == with_signal(
                    old(output_states)@[j],
                    new_signal,
                ),
            forall|j: int| i <= j < output_states@.len() ==> output_states@[j] == old(output_states)@[j],
        decreases output_states.len() - i,
    {
        let updated = set_signal(&output_states[i], new_signal);
        output_states.set(i, updated);
        i = i + 1;
    }
}

} // verus!

verus! {

/// The id reserved for signals that do not come from a gate.
pub open spec fn zero_uid() -> UniqueID {
    UniqueID { id: 0 }
}

/// Some entry of the list comes from `id`.
pub open spec fn has_entry(entries: Seq<(UniqueID, Signal)>, id: UniqueID) -> bool {
    exists|k: int| 0 <= k < entries.len() && #[trigger] entries[k].0 == id
}

/// Some entry comes from `id`, and every entry from `id` carries `s`.
pub open spec fn entries_ok(entries: Seq<(UniqueID, Signal)>, id: UniqueID, s: Signal) -> bool {
    &&& has_entry(entries, id)
    &&& forall|k: int| 0 <= k < entries.len() && #[trigger] entries[k].0 == id ==> entries[k].1 == s
}

/// The entries after `id` sends `s`: its entries carry `s`, or a new entry is added at the end.
pub open spec fn spec_set_entry(entries: Seq<(UniqueID, Signal)>, id: UniqueID, s: Signal) -> Seq<
    (UniqueID, Signal),
> {
    if has_entry(entries, id) {
        Seq::new(entries.len(), |k: int| if entries[k].0 == id { (id, s) } else { entries[k] })
    } else {
        entries.push((id, s))
    }
}

/// The entries without those from `id`.
pub open spec fn spec_remove_entries(entries: Seq<(UniqueID, Signal)>, id: UniqueID) -> Seq<
    (UniqueID, Signal),
>
    decreases entries.len(),
{
    if entries.len() == 0 {
        entries
    } else {
        let kept = spec_remove_entries(entries.drop_last(), id);
        if entries.last().0 == id {
            kept
        } else {
            kept.push(entries.last())
        }
    }
}

/// Removing the entries of a sender that has none changes nothing.
pub proof fn lemma_remove_absent(entries: Seq<(UniqueID, Signal)>, id: UniqueID)
    requires
        !has_entry(entries, id),
    ensures
        spec_remove_entries(entries, id) == entries,
    decreases entries.len(),
{
    if entries.len() > 0 {
        assert(!has_entry(entries.drop_last(), id)) by {
            if has_entry(entries.drop_last(), id) {
                let k = choose|k: int|
                    0 <= k < entries.drop_last().len() && #[trigger] entries.drop_last()[k].0 == id;
                assert(entries[k].0 == id);
            }
        }
        lemma_remove_absent(entries.drop_last(), id);
        assert(entries[entries.len() - 1].0 != id);
        assert(entries.drop_last().push(entries.last()) =~= entries);
    }
}

/// Records that `id` sends `s` on this input. Returns whether the entries changed.
pub fn set_entry(entries: &mut InputEntries, id: UniqueID, s: Signal) -> (changed: bool)
    ensures
        final(entries)@ == spec_set_entry(old(entries)@, id, s),
        changed == !entries_ok(old(entries)@, id, s),
        !changed ==> final(entries)@ == old(entries)@,
        entries_ok(final(entries)@, id, s),
{
    let ghost old_entries = entries@;
    let mut found = false;
    let mut changed = false;
    let mut k: usize = 0;
    while k < entries.len()
        invariant
            k <= entries.len(),
            entries@.len() == old_entries.len(),
            forall|j: int|
                0 <= j < k ==> #[trigger] entries@[j] == if old_entries[j].0 == id {
                    (id, s)
                } else {
                    old_entries[j]
                },
            forall|j: int| k <= j < entries@.len() ==> entries@[j] == old_entries[j],
            found <==> exists|j: int| 0 <= j < k && #[trigger] old_entries[j].0 == id,
            changed <==> exists|j: int|
                0 <= j < k && #[trigger] old_entries[j].0 == id && old_entries[j].1 != s,
        decreases entries.len() - k,
    {
        let ghost kk = k as int;
        if entries[k].0 == id {
            if entries[k].1 != s {
                changed = true;
            }
            found = true;
            entries.set(k, (id, s));
        }
        proof {
            if old_entries[kk].0 == id {
                assert(old_entries[kk].0 == id);
            }
        }
        k = k + 1;
    }
    if !found {
        entries.push((id, s));
        changed = true;
        assert(entries@ =~= old_entries.push((id, s)));
        assert(entries@[old_entries.len() as int].0 == id);
    } else {
        assert(entries@ =~= Seq::new(
            old_entries.len(),
            |j: int| if old_entries[j].0 == id { (id, s) } else { old_entries[j] },
        ));
        if !changed {
            assert(entries@ =~= old_entries);
        }
        proof {
            let j = choose|j: int| 0 <= j < k && #[trigger] old_entries[j].0 == id;
            assert(entries@[j].0 == id);
        }
    }
    changed
}

/// Whether some entry comes from `id`.
pub fn contains_entry(entries: &InputEntries, id: UniqueID) -> (res: bool)
    ensures
        res == has_entry(entries@, id),
{
    let mut k: usize = 0;
    while k < entries.len()
        invariant
            k <= entries.len(),
            forall|j: int| 0 <= j < k ==> #[trigger] entries@[j].0 != id,
        decreases entries.len() - k,
    {
        if entries[k].0 == id {
            assert(entries@[k as int].0 == id);
            return true;
        }
        k = k + 1;
    }
    false
}

/// The signal of the last entry from `id`, if there is one.
pub open spec fn spec_last_signal(entries: Seq<(UniqueID, Signal)>, id: UniqueID) -> Option<Signal>
    decreases entries.len(),
{
    if entries.len() == 0 {
        None
    } else if entries.last().0 == id {
        Some(entries.last().1)
    } else {
        spec_last_signal(entries.drop_last(), id)
    }
}

/// The entries of an input after the sender `id` is disconnected from it: its entries go,
/// and an input left with none keeps the last removed signal under the zero id. Entries
/// without one from `id` stay as they are.
pub open spec fn entries_after_disconnect(entries: Seq<(UniqueID, Signal)>, id: UniqueID) -> Seq<(UniqueID, Signal)> {
    if !has_entry(entries, id) {
        entries
    } else if spec_remove_entries(entries, id).len() > 0 {
        spec_remove_entries(entries, id)
    } else {
        seq![(zero_uid(), spec_last_signal(entries, id)->0)]
    }
}

/// Removes every entry from `id`; returns the signal of the last one removed, if any.
pub fn remove_entries(entries: &mut InputEntries, id: UniqueID) -> (removed: Option<Signal>)
    ensures
        final(entries)@ == spec_remove_entries(old(entries)@, id),
        removed is Some <==> has_entry(old(entries)@, id),
        removed == spec_last_signal(old(entries)@, id),
{
    let ghost old_entries = entries@;
    let mut kept: InputEntries = Vec::new();
    let mut removed: Option<Signal> = None;
    let mut k: usize = 0;
    while k < entries.len()
        invariant
            k <= entries.len(),
            entries@ == old_entries,
            kept@ == spec_remove_entries(old_entries.subrange(0, k as int), id),
            removed is Some <==> exists|j: int| 0 <= j < k && #[trigger] old_entries[j].0 == id,
            removed == spec_last_signal(old_entries.subrange(0, k as int), id),
        decreases entries.len() - k,
    {
        let e = entries[k];
        proof {
            assert(old_entries.subrange(0, k as int + 1).drop_last() =~= old_entries.subrange(
                0,
                k as int,
            ));
        }
        if e.0 == id {
            removed = Some(e.1);
        } else {
            kept.push(e);
        }
        k = k + 1;
    }
    assert(old_entries.subrange(0, k as int) =~= old_entries);
    *entries = kept;
    removed
}

/// The fields that every gate of the circuit has.
pub struct BasicGateMembers {
    pub input_signals: Vec<InputEntries>,
    pub output_states: Vec<GateOutputState>,
    pub unique_id: UniqueID,
    pub oscillation_detection: OscillationDetection,
    pub should_print_output: bool,
    pub print_each_input_output_gate: bool,
    pub gate_type: GateType,
    pub tag: String,
    pub number_child_gates: usize,
}

impl BasicGateMembers {
    /// A gate with `input_num` inputs, each holding `LOW_` from the zero id, and `output_num`
    /// unconnected outputs. Their signal is `output_signal`, or else what that gate type computes
    /// from all-`LOW_` inputs.
    pub fn new(
        input_num: usize,
        output_num: usize,
        gate_type: GateType,
        number_child_gates: usize,
        output_signal: Option<Signal>,
        unique_id: UniqueID,
        clock_tick_number: usize,
    ) -> (res: Self)
        requires
            input_num != 0,
            output_signal is None ==> is_calculated_type(gate_type),
        ensures
            res.input_signals@.len() == input_num,
            all_low_from(entries_view(res.input_signals@), zero_uid()),
            res.output_states@.len() == output_num,
            forall|i: int|
                0 <= i < output_num ==> #[trigger] res.output_states@[i]
                    == GateOutputState::NotConnected(
                    match output_signal {
                        Some(s) => s,
                        None => spec_calculate(gate_type, Seq::new(input_num as nat, |j: int| Signal::LOW_)),
                    },
                ),
            res.unique_id == unique_id,
            res.oscillation_detection == OscillationDetection::new_spec(clock_tick_number),
            res.gate_type == gate_type,
            res.tag@ == Seq::<char>::empty(),
            res.number_child_gates == number_child_gates,
            !res.should_print_output,
            res.print_each_input_output_gate,
    {
        let mut input_signals: Vec<InputEntries> = Vec::new();
        let mut i: usize = 0;
        while i < input_num
            invariant
                i <= input_num,
                input_signals@.len() == i,
                all_low_from(entries_view(input_signals@), zero_uid()),
            decreases input_num - i,
        {
            let entry = vec![(UniqueID::zero_id(), Signal::LOW_)];
            assert(entry@ =~= seq![(zero_uid(), Signal::LOW_)]);
            let ghost prev = input_signals@;
            input_signals.push(entry);
            assert forall|j: int| 0 <= j < input_signals@.len() implies #[trigger] entries_view(
                input_signals@,
            )[j] == seq![(zero_uid(), Signal::LOW_)] by {
                if j < prev.len() {
                    assert(input_signals@[j] == prev[j]);
                    assert(entries_view(prev)[j] == seq![(zero_uid(), Signal::LOW_)]);
                }
            }
            i = i + 1;
        }
        let signal = match output_signal {
            Some(s) => s,
            None => {
                proof {
                    reveal_with_fuel(spec_resolve, 2);
                    let lows = Seq::new(input_num as nat, |j: int| Signal::LOW_);
                    let ev = entries_view(input_signals@);
                    assert forall|j: int| 0 <= j < input_num implies spec_resolve(
                        #[trigger] ev[j],
                    ) == Ok::<Signal, GateLogicError>(lows[j]) by {
                        assert(ev[j] == seq![(zero_uid(), Signal::LOW_)]);
                        assert(ev[j].drop_last() =~= Seq::<(UniqueID, Signal)>::empty());
                    }
                    lemma_resolve_all_ok(ev, lows);
                }
                match GateLogic::calculate_output_from_inputs(gate_type, &input_signals) {
                    Ok(s) => s,
                    Err(_) => Signal::LOW_,
                }
            },
        };
        let mut output_states: Vec<GateOutputState> = Vec::new();
        let mut j: usize = 0;
        while j < output_num
            invariant
                j <= output_num,
                output_states@.len() == j,
                forall|k: int|
                    0 <= k < j ==> #[trigger] output_states@[k] == GateOutputState::NotConnected(
                        signal,
                    ),
            decreases output_num - j,
        {
            output_states.push(GateOutputState::NotConnected(signal));
            j = j + 1;
        }
        BasicGateMembers {
            input_signals,
            output_states,
            unique_id,
            oscillation_detection: OscillationDetection::new(clock_tick_number),
            should_print_output: false,
            print_each_input_output_gate: true,
            gate_type,
            tag: String::new(),
            number_child_gates,
        }
    }

    /// Records that `input.sending_id` now sends `input.signal` to input `input.input_index`,
    /// counting the change for oscillation detection.
    pub fn update_input_signal(&mut self, input: GateInput, clock_tick_number: usize) -> (res:
        Result<InputSignalReturn, GateLogicError>)
        requires
            input.input_index < old(self).input_signals@.len(),
            old(self).oscillation_detection.wf(),
        ensures
            final(self).oscillation_detection.wf(),
            final(self).output_states == old(self).output_states,
            final(self).unique_id == old(self).unique_id,
            final(self).gate_type == old(self).gate_type,
            final(self).input_signals@.len() == old(self).input_signals@.len(),
            final(self).tag == old(self).tag,
            res is Err <==> input.sending_id.id != 0 && old(self).oscillation_detection.current_tick
                == clock_tick_number && old(self).oscillation_detection.changed_count_this_tick + 1
                > MAX_INPUT_CHANGES,
            res is Err || input.sending_id.id == 0 ==> final(self).oscillation_detection == old(self).oscillation_detection,
            res is Ok && input.sending_id.id != 0 ==> final(self).oscillation_detection == (OscillationDetection {
                current_tick: clock_tick_number,
                changed_count_this_tick: if old(self).oscillation_detection.current_tick == clock_tick_number {
                    (old(self).oscillation_detection.changed_count_this_tick + 1) as usize
                } else {
                    1usize
                },
            }),
            res matches Ok(r) ==> r.changed_count_this_tick == final(self).oscillation_detection.changed_count_this_tick,
            match res {
                Ok(r) => {
                    &&& final(self).input_signals@ == old(self).input_signals@.update(
                        input.input_index as int,
                        final(self).input_signals@[input.input_index as int],
                    )
                    &&& final(self).input_signals@[input.input_index as int]@ == spec_set_entry(
                        old(self).input_signals@[input.input_index as int]@,
                        input.sending_id,
                        input.signal,
                    )
                    &&& r.input_signal_updated == !entries_ok(
                        old(self).input_signals@[input.input_index as int]@,
                        input.sending_id,
                        input.signal,
                    )
                },
                Err(e) => e == GateLogicError::OscillationDetected && final(self).input_signals
                    == old(self).input_signals,
            },
    {
        let changed_count_this_tick = match self.oscillation_detection.detect_oscillation(
            input.sending_id,
            clock_tick_number,
        ) {
            Ok(c) => c,
            Err(e) => {
                return Err(e);
            },
        };
        let input_signal_updated = set_entry(
            &mut self.input_signals[input.input_index],
            input.sending_id,
            input.signal,
        );
        Ok(InputSignalReturn { changed_count_this_tick, input_signal_updated })
    }

    /// Prepares input `gate_input_index` for a new connection from `sending_id`: the zero-id
    /// placeholder is dropped and the sender's signal recorded.
    pub fn internal_update_index_to_id(
        &mut self,
        sending_id: UniqueID,
        gate_input_index: usize,
        signal: Signal,
    )
        requires
            gate_input_index < old(self).input_signals@.len(),
        ensures
            final(self).output_states == old(self).output_states,
            final(self).unique_id == old(self).unique_id,
            final(self).gate_type == old(self).gate_type,
            final(self).oscillation_detection == old(self).oscillation_detection,
            final(self).input_signals@.len() == old(self).input_signals@.len(),
            final(self).input_signals@ == old(self).input_signals@.update(
                gate_input_index as int,
                final(self).input_signals@[gate_input_index as int],
            ),
            final(self).input_signals@[gate_input_index as int]@ == spec_set_entry(
                spec_remove_entries(
                    old(self).input_signals@[gate_input_index as int]@,
                    zero_uid(),
                ),
                sending_id,
                signal,
            ),
    {
        remove_entries(&mut self.input_signals[gate_input_index], UniqueID::zero_id());
        set_entry(&mut self.input_signals[gate_input_index], sending_id, signal);
    }

    /// Removes the connection from `connected_id` to input `input_index`. An input left with
    /// no entry keeps the removed signal under the zero id. Returns false, changing nothing,
    /// when there was no such connection.
    pub fn remove_connected_input(&mut self, input_index: usize, connected_id: UniqueID) -> (res:
        bool)
        requires
            input_index < old(self).input_signals@.len(),
        ensures
            final(self).output_states == old(self).output_states,
            final(self).unique_id == old(self).unique_id,
            final(self).gate_type == old(self).gate_type,
            final(self).oscillation_detection == old(self).oscillation_detection,
            final(self).input_signals@.len() == old(self).input_signals@.len(),
            res == has_entry(old(self).input_signals@[input_index as int]@, connected_id),
            !res ==> final(self).input_signals == old(self).input_signals,
            res ==> final(self).input_signals@ == old(self).input_signals@.update(
                input_index as int,
                final(self).input_signals@[input_index as int],
            ),
            res && spec_remove_entries(old(self).input_signals@[input_index as int]@, connected_id).len()
                > 0 ==> final(self).input_signals@[input_index as int]@ == spec_remove_entries(
                old(self).input_signals@[input_index as int]@,
                connected_id,
            ),
            res && spec_remove_entries(old(self).input_signals@[input_index as int]@, connected_id).len()
                == 0 ==> final(self).input_signals@[input_index as int]@ == seq![(zero_uid(), spec_last_signal(
                old(self).input_signals@[input_index as int]@, connected_id)->0)],
    {
        if !contains_entry(&self.input_signals[input_index], connected_id) {
            return false;
        }
        let mut entries = InputEntries::new();
        std::mem::swap(&mut entries, &mut self.input_signals[input_index]);
        let removed = remove_entries(&mut entries, connected_id);
        match removed {
            None => {},
            Some(signal) => {
                if entries.len() == 0 {
                    entries.push((UniqueID::zero_id(), signal));
                }
            },
        }
        std::mem::swap(&mut entries, &mut self.input_signals[input_index]);
        true
    }

    pub fn toggle_print_each_input_output_gate(&mut self, print_each_input_output_gate: bool)
        ensures
            final(self).print_each_input_output_gate == print_each_input_output_gate,
            final(self).input_signals == old(self).input_signals,
            final(self).output_states == old(self).output_states,
            final(self).unique_id == old(self).unique_id,
            final(self).gate_type == old(self).gate_type,
            final(self).oscillation_detection == old(self).oscillation_detection,
    {
        self.print_each_input_output_gate = print_each_input_output_gate;
    }
}

impl OscillationDetection {
    pub open spec fn new_spec(clock_tick_number: usize) -> Self {
        OscillationDetection { current_tick: clock_tick_number, changed_count_this_tick: 0 }
    }
}

} // verus!

verus! {

/// What every gate offers, wherever its signals live in the circuit: an input of that gate is
/// an input of some gate of the circuit, and so is an output.
pub trait LogicGate {
    /// The circuit gate and input that input `index` of this gate stands for.
    spec fn spec_input_pin(&self, index: int) -> (int, int);

    /// The circuit gate and output that output `index` of this gate stands for.
    spec fn spec_output_pin(&self, index: int) -> (int, int);

    spec fn spec_num_inputs(&self) -> nat;

    spec fn spec_num_outputs(&self) -> nat;

    spec fn spec_gate_type(&self) -> GateType;

    spec fn spec_unique_id(&self) -> UniqueID;

    fn input_pin(&self, index: usize) -> (res: (usize, usize))
        requires
            index < self.spec_num_inputs(),
        ensures
            res.0 as int == self.spec_input_pin(index as int).0,
            res.1 as int == self.spec_input_pin(index as int).1,
    ;

    fn output_pin(&self, index: usize) -> (res: (usize, usize))
        requires
            index < self.spec_num_outputs(),
        ensures
            res.0 as int == self.spec_output_pin(index as int).0,
            res.1 as int == self.spec_output_pin(index as int).1,
    ;

    fn num_inputs(&self) -> (res: usize)
        ensures
            res == self.spec_num_inputs(),
    ;

    fn num_outputs(&self) -> (res: usize)
        ensures
            res == self.spec_num_outputs(),
    ;

    fn get_gate_type(&self) -> (res: GateType)
        ensures
            res == self.spec_gate_type(),
    ;

    fn get_unique_id(&self) -> (res: UniqueID)
        ensures
            res == self.spec_unique_id(),
    ;
}

/// Every input and output of that gate is an input or output of the circuit of that shape.
pub open spec fn gate_fits<T: LogicGate>(gate: &T, shape: Seq<(nat, nat)>) -> bool {
    &&& forall|i: int|
        0 <= i < gate.spec_num_inputs() ==> {
            let p = #[trigger] gate.spec_input_pin(i);
            0 <= p.0 < shape.len() && 0 <= p.1 < shape[p.0].0
        }
    &&& forall|i: int|
        0 <= i < gate.spec_num_outputs() ==> {
            let p = #[trigger] gate.spec_output_pin(i);
            0 <= p.0 < shape.len() && 0 <= p.1 < shape[p.0].1
        }
}

/// The shape `s2` keeps the gates of `s1` and may add more.
pub open spec fn shape_extends(s1: Seq<(nat, nat)>, s2: Seq<(nat, nat)>) -> bool {
    s1.len() <= s2.len() && s2.subrange(0, s1.len() as int) == s1
}

/// A gate that fits a circuit still fits after the circuit grew.
pub proof fn lemma_fits_extends<T: LogicGate>(gate: &T, s1: Seq<(nat, nat)>, s2: Seq<(nat, nat)>)
    requires
        gate_fits(gate, s1),
        shape_extends(s1, s2),
    ensures
        gate_fits(gate, s2),
{
    assert forall|i: int| 0 <= i < gate.spec_num_inputs() implies {
        let p = #[trigger] gate.spec_input_pin(i);
        0 <= p.0 < s2.len() && 0 <= p.1 < s2[p.0].0
    } by {
        let p = gate.spec_input_pin(i);
        assert(s2.subrange(0, s1.len() as int)[p.0] == s2[p.0]);
    }
    assert forall|i: int| 0 <= i < gate.spec_num_outputs() implies {
        let p = #[trigger] gate.spec_output_pin(i);
        0 <= p.0 < s2.len() && 0 <= p.1 < s2[p.0].1
    } by {
        let p = gate.spec_output_pin(i);
        assert(s2.subrange(0, s1.len() as int)[p.0] == s2[p.0]);
    }
}

/// Growth of a circuit is transitive.
pub proof fn lemma_shape_extends_trans(s1: Seq<(nat, nat)>, s2: Seq<(nat, nat)>, s3: Seq<(nat, nat)>)
    requires
        shape_extends(s1, s2),
        shape_extends(s2, s3),
    ensures
        shape_extends(s1, s3),
{
    assert(s3.subrange(0, s1.len() as int) =~= s1) by {
        assert forall|i: int| 0 <= i < s1.len() implies s3.subrange(0, s1.len() as int)[i] == s1[i] by {
            assert(s3.subrange(0, s2.len() as int)[i] == s3[i]);
            assert(s2.subrange(0, s1.len() as int)[i] == s2[i]);
        }
    }
}

/// Connects output `output_index` of `output_gate` to input `input_index` of `input_gate`;
/// returns the signal that the output carries (see `Circuit::connect`).
pub fn connect_gates<A: LogicGate, B: LogicGate>(
    circuit: &mut Circuit,
    output_gate: &A,
    output_index: usize,
    input_gate: &B,
    input_index: usize,
) -> (res: Signal)
    requires
        old(circuit).wf(),
        gate_fits(output_gate, old(circuit).shape()),
        gate_fits(input_gate, old(circuit).shape()),
        output_index < output_gate.spec_num_outputs(),
        input_index < input_gate.spec_num_inputs(),
    ensures
        final(circuit).wf(),
        final(circuit).shape() == old(circuit).shape(),
        final(circuit).types() == old(circuit).types(),
        final(circuit).clock_tick_number == old(circuit).clock_tick_number,
        ({
            let (og, oi) = output_gate.spec_output_pin(output_index as int);
            let (ig, ii) = input_gate.spec_input_pin(input_index as int);
            &&& res == old(circuit).node(og).connect_signal(oi)
            &&& final(circuit).node(og).outputs()[oi] == GateOutputState::Connected(
                ConnectedOutput {
                    throughput: GateInput {
                        input_index: ii as usize,
                        signal: res,
                        sending_id: old(circuit).node(og).members.unique_id,
                    },
                    gate: ig as usize,
                },
            )
            &&& crate::circuit::inputs_after_connect(*old(circuit), *final(circuit), og, ig, ii, res)
            &&& crate::circuit::outputs_after_connect(*old(circuit), *final(circuit), og, oi)
        }),
{
    let (og, oi) = output_gate.output_pin(output_index);
    let (ig, ii) = input_gate.input_pin(input_index);
    proof {
        let p = output_gate.spec_output_pin(output_index as int);
        let q = input_gate.spec_input_pin(input_index as int);
    }
    circuit.connect(og, oi, ig, ii)
}

#[derive(PartialEq, Eq, Structural, Debug, Clone, Copy)]
pub enum GateTagType {
    Input,
    Output,
}

/// Where a tag of a complex gate points: input or output number `index`.
#[derive(PartialEq, Eq, Structural, Debug, Clone, Copy)]
pub struct GateTagInfo {
    pub index: usize,
    pub tag_type: GateTagType,
}

impl GateTagInfo {
    pub fn new(index: usize, tag_type: GateTagType) -> (res: Self)
        ensures
            res.index == index,
            res.tag_type == tag_type,
    {
        GateTagInfo { index, tag_type }
    }
}

/// The members of a gate built from other gates. Its inputs are simple inputs of the circuit
/// and its outputs simple outputs; every tag of those names an input or output of this gate.
pub struct ComplexGateMembers {
    pub gate_type: GateType,
    pub unique_id: UniqueID,
    pub tag: String,
    pub input_gates: Vec<usize>,
    pub output_gates: Vec<usize>,
    pub gate_tags_to_index: Vec<(String, GateTagInfo)>,
    pub number_child_gates: usize,
    pub should_print_output: bool,
}

/// The inputs of a complex gate are simple inputs and its outputs simple outputs of a circuit
/// with these gate shapes and types.
pub open spec fn complex_fits(cg: &ComplexGateMembers, shape: Seq<(nat, nat)>, types: Seq<GateType>) -> bool {
    &&& shape.len() == types.len()
    &&& forall|i: int|
        0 <= i < cg.input_gates@.len() ==> {
            let g = #[trigger] cg.input_gates@[i] as int;
            0 <= g < shape.len() && shape[g].0 >= 1 && types[g] == GateType::SimpleInputType
        }
    &&& forall|i: int|
        0 <= i < cg.output_gates@.len() ==> {
            let g = #[trigger] cg.output_gates@[i] as int;
            0 <= g < shape.len() && shape[g].1 >= 1 && types[g] == GateType::SimpleOutputType
        }
}

/// The types `t2` keep the gates of `t1` and may add more.
pub open spec fn types_extend(t1: Seq<GateType>, t2: Seq<GateType>) -> bool {
    t1.len() <= t2.len() && t2.subrange(0, t1.len() as int) == t1
}

/// A complex gate that fits a circuit still fits after the circuit grew.
pub proof fn lemma_complex_fits_extends(
    cg: &ComplexGateMembers,
    s1: Seq<(nat, nat)>,
    t1: Seq<GateType>,
    s2: Seq<(nat, nat)>,
    t2: Seq<GateType>,
)
    requires
        complex_fits(cg, s1, t1),
        shape_extends(s1, s2),
        types_extend(t1, t2),
        s2.len() == t2.len(),
    ensures
        complex_fits(cg, s2, t2),
{
    assert forall|i: int| 0 <= i < cg.input_gates@.len() implies {
        let g = #[trigger] cg.input_gates@[i] as int;
        0 <= g < s2.len() && s2[g].0 >= 1 && t2[g] == GateType::SimpleInputType
    } by {
        let g = cg.input_gates@[i] as int;
        assert(s2.subrange(0, s1.len() as int)[g] == s2[g]);
        assert(t2.subrange(0, t1.len() as int)[g] == t2[g]);
    }
    assert forall|i: int| 0 <= i < cg.output_gates@.len() implies {
        let g = #[trigger] cg.output_gates@[i] as int;
        0 <= g < s2.len() && s2[g].1 >= 1 && t2[g] == GateType::SimpleOutputType
    } by {
        let g = cg.output_gates@[i] as int;
        assert(s2.subrange(0, s1.len() as int)[g] == s2[g]);
        assert(t2.subrange(0, t1.len() as int)[g] == t2[g]);
    }
}

/// Growth of the types of a circuit is transitive.
pub proof fn lemma_types_extend_trans(t1: Seq<GateType>, t2: Seq<GateType>, t3: Seq<GateType>)
    requires
        types_extend(t1, t2),
        types_extend(t2, t3),
    ensures
        types_extend(t1, t3),
{
    assert(t3.subrange(0, t1.len() as int) =~= t1) by {
        assert forall|i: int| 0 <= i < t1.len() implies t3.subrange(0, t1.len() as int)[i] == t1[i] by {
            assert(t3.subrange(0, t2.len() as int)[i] == t3[i]);
            assert(t2.subrange(0, t1.len() as int)[i] == t2[i]);
        }
    }
}

/// The index that the last entry of `table` with tag `tag` gives, if any.
pub open spec fn last_tag_index(table: Seq<(String, GateTagInfo)>, tag: Seq<char>) -> Option<usize>
    decreases table.len(),
{
    if table.len() == 0 {
        None
    } else if table.last().0@ == tag {
        Some(table.last().1.index)
    } else {
        last_tag_index(table.drop_last(), tag)
    }
}

/// The tag table of a complex gate: the tags of its inputs, then those of its outputs.
pub open spec fn tag_table_ok(
    table: Seq<(String, GateTagInfo)>,
    circuit: Circuit,
    input_gates: Seq<usize>,
    output_gates: Seq<usize>,
) -> bool {
    &&& table.len() == input_gates.len() + output_gates.len()
    &&& forall|k: int|
        0 <= k < input_gates.len() ==> (#[trigger] table[k]).0@ == circuit.node(input_gates[k] as int).members.tag@
            && table[k].1 == (GateTagInfo { index: k as usize, tag_type: GateTagType::Input })
    &&& forall|k: int|
        0 <= k < output_gates.len() ==> (#[trigger] table[input_gates.len() + k]).0@ == circuit.node(
            output_gates[k] as int,
        ).members.tag@ && table[input_gates.len() + k].1 == (GateTagInfo {
            index: k as usize,
            tag_type: GateTagType::Output,
        })
}

impl ComplexGateMembers {
    /// The tags of the tag table, in order.
    pub open spec fn tag_names(&self) -> Seq<Seq<char>> {
        Seq::new(self.gate_tags_to_index@.len(), |k: int| self.gate_tags_to_index@[k].0@)
    }

    /// The tag table names the inputs in order, then the outputs in order.
    pub open spec fn tags_laid_out(&self) -> bool {
        let n = self.input_gates@.len();
        &&& self.gate_tags_to_index@.len() == n + self.output_gates@.len()
        &&& forall|k: int|
            0 <= k < self.gate_tags_to_index@.len() ==> #[trigger] self.gate_tags_to_index@[k].1 == (if k < n {
                GateTagInfo { index: k as usize, tag_type: GateTagType::Input }
            } else {
                GateTagInfo { index: (k - n) as usize, tag_type: GateTagType::Output }
            })
    }

    /// The members of a complex gate of type `gate_type` whose inputs and outputs are the given
    /// simple inputs and outputs; its tags are theirs, and its id is that of its first input.
    pub fn new(
        circuit: &Circuit,
        gate_type: GateType,
        input_gates: Vec<usize>,
        output_gates: Vec<usize>,
    ) -> (res: Self)
        requires
            input_gates@.len() >= 1,
            forall|i: int| 0 <= i < input_gates@.len() ==> #[trigger] input_gates@[i] < circuit.len(),
            forall|i: int| 0 <= i < output_gates@.len() ==> #[trigger] output_gates@[i] < circuit.len(),
        ensures
            res.gate_type == gate_type,
            res.input_gates@ == input_gates@,
            res.output_gates@ == output_gates@,
            res.unique_id == circuit.node(input_gates@[0] as int).members.unique_id,
            res.tag@ == Seq::<char>::empty(),
            tag_table_ok(res.gate_tags_to_index@, *circuit, input_gates@, output_gates@),
            res.tags_laid_out(),
            forall|k: int| 0 <= k < input_gates@.len() ==> #[trigger] res.tag_names()[k] == circuit.node(input_gates@[k] as int).members.tag@,
            forall|k: int| input_gates@.len() <= k < input_gates@.len() + output_gates@.len() ==> #[trigger] res.tag_names()[k]
                == circuit.node(output_gates@[k - input_gates@.len()] as int).members.tag@,
            res.number_child_gates == 0,
            !res.should_print_output,
    {
        let mut table: Vec<(String, GateTagInfo)> = Vec::new();
        let mut i: usize = 0;
        while i < input_gates.len()
            invariant
                i <= input_gates@.len(),
                table@.len() == i,
                forall|k: int| 0 <= k < input_gates@.len() ==> #[trigger] input_gates@[k] < circuit.len(),
                forall|k: int|
                    0 <= k < i ==> (#[trigger] table@[k]).0@ == circuit.node(input_gates@[k] as int).members.tag@
                        && table@[k].1 == (GateTagInfo { index: k as usize, tag_type: GateTagType::Input }),
            decreases input_gates@.len() - i,
        {
            let tag = circuit.get_tag(input_gates[i]);
            table.push((tag, GateTagInfo::new(i, GateTagType::Input)));
            i = i + 1;
        }
        let n = input_gates.len();
        let mut j: usize = 0;
        while j < output_gates.len()
            invariant
                n == input_gates@.len(),
                j <= output_gates@.len(),
                table@.len() == n + j,
                forall|k: int| 0 <= k < output_gates@.len() ==> #[trigger] output_gates@[k] < circuit.len(),
                forall|k: int|
                    0 <= k < n ==> (#[trigger] table@[k]).0@ == circuit.node(input_gates@[k] as int).members.tag@
                        && table@[k].1 == (GateTagInfo { index: k as usize, tag_type: GateTagType::Input }),
                forall|k: int|
                    0 <= k < j ==> (#[trigger] table@[n + k]).0@ == circuit.node(output_gates@[k] as int).members.tag@
                        && table@[n + k].1 == (GateTagInfo { index: k as usize, tag_type: GateTagType::Output }),
            decreases output_gates@.len() - j,
        {
            let tag = circuit.get_tag(output_gates[j]);
            table.push((tag, GateTagInfo::new(j, GateTagType::Output)));
            j = j + 1;
        }
        let unique_id = circuit.gates[input_gates[0]].members.unique_id;
        proof {
            assert forall|k: int| n <= k < n + output_gates@.len() implies #[trigger] table@[k].0@
                == circuit.node(output_gates@[k - n] as int).members.tag@ by {
                assert(table@[n + (k - n)].0@ == circuit.node(output_gates@[k - n] as int).members.tag@);
            }
            assert forall|k: int| 0 <= k < table@.len() implies #[trigger] table@[k].1 == (if k < n {
                GateTagInfo { index: k as usize, tag_type: GateTagType::Input }
            } else {
                GateTagInfo { index: (k - n) as usize, tag_type: GateTagType::Output }
            }) by {
                if k >= n {
                    assert(table@[n + (k - n)].1 == (GateTagInfo { index: (k - n) as usize, tag_type: GateTagType::Output }));
                }
            }
        }
        ComplexGateMembers {
            gate_type,
            unique_id,
            tag: String::new(),
            input_gates,
            output_gates,
            gate_tags_to_index: table,
            number_child_gates: 0,
            should_print_output: false,
        }
    }

    /// The members of a complex gate of type `gate_type` whose inputs and outputs are the given
    /// simple inputs and outputs, tagged `input_tags` and `output_tags`; its id is that of its
    /// first input.
    pub fn from_tags(
        circuit: &Circuit,
        gate_type: GateType,
        input_gates: Vec<usize>,
        output_gates: Vec<usize>,
        input_tags: Vec<String>,
        output_tags: Vec<String>,
    ) -> (res: Self)
        requires
            input_gates@.len() >= 1,
            input_gates@[0] < circuit.len(),
            input_tags@.len() == input_gates@.len(),
            output_tags@.len() == output_gates@.len(),
        ensures
            res.gate_type == gate_type,
            res.input_gates@ == input_gates@,
            res.output_gates@ == output_gates@,
            res.unique_id == circuit.node(input_gates@[0] as int).members.unique_id,
            res.tag@ == Seq::<char>::empty(),
            res.tags_laid_out(),
            res.tag_names() == Seq::new(input_tags@.len(), |k: int| input_tags@[k]@) + Seq::new(
                output_tags@.len(),
                |k: int| output_tags@[k]@,
            ),
            res.number_child_gates == 0,
            !res.should_print_output,
    {
        let n = input_gates.len();
        let mut table: Vec<(String, GateTagInfo)> = Vec::new();
        let mut i: usize = 0;
        while i < n
            invariant
                n == input_gates@.len(),
                n == input_tags@.len(),
                i <= n,
                table@.len() == i,
                forall|k: int| 0 <= k < i ==> (#[trigger] table@[k]).0@ == input_tags@[k]@
                    && table@[k].1 == (GateTagInfo { index: k as usize, tag_type: GateTagType::Input }),
            decreases n - i,
        {
            table.push((input_tags[i].clone(), GateTagInfo::new(i, GateTagType::Input)));
            i = i + 1;
        }
        let mut j: usize = 0;
        while j < output_gates.len()
            invariant
                n == input_gates@.len(),
                n == input_tags@.len(),
                output_tags@.len() == output_gates@.len(),
                j <= output_gates@.len(),
                table@.len() == n + j,
                forall|k: int| 0 <= k < n ==> (#[trigger] table@[k]).0@ == input_tags@[k]@
                    && table@[k].1 == (GateTagInfo { index: k as usize, tag_type: GateTagType::Input }),
                forall|k: int| n <= k < n + j ==> (#[trigger] table@[k]).0@ == output_tags@[k - n]@
                    && table@[k].1 == (GateTagInfo { index: (k - n) as usize, tag_type: GateTagType::Output }),
            decreases output_gates@.len() - j,
        {
            table.push((output_tags[j].clone(), GateTagInfo::new(j, GateTagType::Output)));
            j = j + 1;
        }
        let unique_id = circuit.gates[input_gates[0]].members.unique_id;
        let res = ComplexGateMembers {
            gate_type,
            unique_id,
            tag: String::new(),
            input_gates,
            output_gates,
            gate_tags_to_index: table,
            number_child_gates: 0,
            should_print_output: false,
        };
        proof {
            assert(res.tag_names() =~= Seq::new(input_tags@.len(), |k: int| input_tags@[k]@) + Seq::new(
                output_tags@.len(),
                |k: int| output_tags@[k]@,
            ));
        }
        res
    }

    /// The input or output index that `tag` names. A later entry of the tag table overrides
    /// an earlier one with the same tag, so the last entry with that tag decides.
    pub fn get_index_from_tag(&self, tag: &str) -> (res: Option<usize>)
        ensures
            res == last_tag_index(self.gate_tags_to_index@, tag@),
    {
        let mut k: usize = self.gate_tags_to_index.len();
        assert(self.gate_tags_to_index@.subrange(0, k as int) =~= self.gate_tags_to_index@);
        while k > 0
            invariant
                k <= self.gate_tags_to_index@.len(),
                last_tag_index(self.gate_tags_to_index@, tag@) == last_tag_index(
                    self.gate_tags_to_index@.subrange(0, k as int),
                    tag@,
                ),
            decreases k,
        {
            proof {
                assert(self.gate_tags_to_index@.subrange(0, k as int).drop_last() =~= self.gate_tags_to_index@.subrange(0, k - 1));
            }
            k = k - 1;
            if crate::logic::tags::str_eq(self.gate_tags_to_index[k].0.as_str(), tag) {
                return Some(self.gate_tags_to_index[k].1.index);
            }
        }
        None
    }

    /// The circuit gates that stand for the inputs and outputs of this gate, with their
    /// current output states.
    pub fn fetch_output_signals_no_calculate(&self, circuit: &Circuit) -> (res: Vec<GateOutputState>)
        requires
            forall|i: int| 0 <= i < self.output_gates@.len() ==> #[trigger] circuit.has_output(self.output_gates@[i] as int, 0),
        ensures
            res@.len() == self.output_gates@.len(),
            forall|i: int| 0 <= i < res@.len() ==> #[trigger] res@[i] == circuit.node(self.output_gates@[i] as int).outputs()[0],
    {
        let mut res: Vec<GateOutputState> = Vec::new();
        let mut i: usize = 0;
        while i < self.output_gates.len()
            invariant
                i <= self.output_gates@.len(),
                res@.len() == i,
                forall|k: int| 0 <= k < self.output_gates@.len() ==> #[trigger] circuit.has_output(self.output_gates@[k] as int, 0),
                forall|k: int| 0 <= k < i ==> #[trigger] res@[k] == circuit.node(self.output_gates@[k] as int).outputs()[0],
            decreases self.output_gates@.len() - i,
        {
            let g = self.output_gates[i];
            proof {
                assert(circuit.has_output(g as int, 0));
            }
            res.push(circuit.gates[g].members.output_states[0]);
            i = i + 1;
        }
        res
    }

    /// Brings every output of this gate up to date with what reaches it and returns their
    /// states.
    pub fn fetch_output_signals_calculate(&self, circuit: &mut Circuit) -> (res: Vec<GateOutputState>)
        requires
            old(circuit).wf(),
            forall|i: int| 0 <= i < self.output_gates@.len() ==> #[trigger] old(circuit).has_output(self.output_gates@[i] as int, 0),
        ensures
            final(circuit).wf(),
            final(circuit).shape() == old(circuit).shape(),
            final(circuit).types() == old(circuit).types(),
            final(circuit).clock_tick_number == old(circuit).clock_tick_number,
            res@.len() == self.output_gates@.len(),
            forall|i: int| 0 <= i < res@.len() ==> #[trigger] res@[i] == final(circuit).node(self.output_gates@[i] as int).outputs()[0],
            forall|i: int| 0 <= i < res@.len() ==> #[trigger] final(circuit).node(self.output_gates@[i] as int).evaluated(),
            old(circuit).wiring_kept(*final(circuit)),
    {
        let ghost c0 = *circuit;
        proof {
            crate::circuit::lemma_wiring_kept_refl(c0);
        }
        let mut i: usize = 0;
        while i < self.output_gates.len()
            invariant
                i <= self.output_gates@.len(),
                circuit.wf(),
                circuit.shape() == c0.shape(),
                circuit.types() == c0.types(),
                circuit.clock_tick_number == c0.clock_tick_number,
                circuit.len() == c0.len(),
                c0.wiring_kept(*circuit),
                forall|k: int| 0 <= k < self.output_gates@.len() ==> #[trigger] c0.has_output(self.output_gates@[k] as int, 0),
                forall|k: int| 0 <= k < i ==> #[trigger] circuit.node(self.output_gates@[k] as int).evaluated(),
            decreases self.output_gates@.len() - i,
        {
            let g = self.output_gates[i];
            proof {
                assert(c0.has_output(g as int, 0));
            }
            let ghost before = *circuit;
            circuit.evaluate_gate(g);
            proof {
                crate::circuit::lemma_wiring_kept_refl(c0);
                crate::circuit::lemma_wiring_kept_trans(c0, before, *circuit);
                assert forall|k: int| 0 <= k < i + 1 implies #[trigger] circuit.node(self.output_gates@[k] as int).evaluated() by {
                    if self.output_gates@[k] != g {
                        assert(c0.has_output(self.output_gates@[k] as int, 0));
                        assert(before.node(self.output_gates@[k] as int).evaluated());
                        assert(circuit.node(self.output_gates@[k] as int) == before.node(self.output_gates@[k] as int));
                    }
                }
            }
            i = i + 1;
        }
        proof {
            assert forall|k: int| 0 <= k < self.output_gates@.len() implies #[trigger] circuit.has_output(self.output_gates@[k] as int, 0) by {
                assert(c0.has_output(self.output_gates@[k] as int, 0));
            }
        }
        self.fetch_output_signals_no_calculate(circuit)
    }

    pub fn toggle_output_printing(&mut self, print_output: bool)
        ensures
            final(self).should_print_output == print_output,
            final(self).input_gates == old(self).input_gates,
            final(self).output_gates == old(self).output_gates,
            final(self).gate_type == old(self).gate_type,
            final(self).unique_id == old(self).unique_id,
    {
        self.should_print_output = print_output;
    }
}

} // verus!
