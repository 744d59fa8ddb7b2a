use vstd::prelude::*;

verus! {

/// A tri-state signal. `NONE` is the high-impedance state: it never overrides another signal
/// that reaches the same input.
#[allow(non_camel_case_types)]
#[derive(PartialEq, Eq, Structural, Debug, Clone, Copy)]
pub enum Signal {
    NONE,
    LOW_,
    HIGH,
}

#[derive(PartialEq, Eq, Structural, Debug, Clone, Copy)]
pub enum GateLogicError {
    /// An automatic input was asked for its next value after its last one was sent.
    NoMoreAutomaticInputsRemaining,
    /// Two or more drivers put a signal other than `NONE` on the same input.
    MultipleValidSignalsWhenCalculating,
    /// An input changed too many times during one clock tick.
    OscillationDetected,
}

/// The ways in which letting signals travel through a circuit can fail: an input changed too
/// often during one clock tick, or two senders drove one input with signals other than `NONE`.
#[verifier::opaque]
pub open spec fn is_run_failure(e: GateLogicError) -> bool {
    e == GateLogicError::OscillationDetected || e == GateLogicError::MultipleValidSignalsWhenCalculating
}

/// Exactly oscillation and conflicting drivers are failures of a run.
pub proof fn lemma_run_failures()
    ensures
        is_run_failure(GateLogicError::OscillationDetected),
        is_run_failure(GateLogicError::MultipleValidSignalsWhenCalculating),
        !is_run_failure(GateLogicError::NoMoreAutomaticInputsRemaining),
{
    reveal(is_run_failure);
}

/// The identity of a gate. The id `0` is reserved for signals that do not come from a gate.
#[derive(PartialEq, Eq, Structural, Debug, Clone, Copy, Hash)]
pub struct UniqueID {
    pub id: usize,
}

impl UniqueID {
    /// Takes the next identity from `counter`, which then moves past it.
    pub fn generate(counter: &mut usize) -> (res: Self)
        requires
            *old(counter) < usize::MAX,
        ensures
            res.id == *old(counter) + 1,
            *final(counter) == *old(counter) + 1,
    {
        *counter = *counter + 1;
        UniqueID { id: *counter }
    }

    pub fn zero_id() -> (res: Self)
        ensures
            res.id == 0,
    {
        UniqueID { id: 0 }
    }

    pub fn id(&self) -> (res: usize)
        ensures
            res == self.id,
    {
        self.id
    }
}

/// A signal on its way to input `input_index` of some gate, sent by `sending_id`.
#[derive(PartialEq, Eq, Structural, Debug, Clone, Copy)]
pub struct GateInput {
    pub input_index: usize,
    pub signal: Signal,
    pub sending_id: UniqueID,
}

impl GateInput {
    pub fn new(input_index: usize, signal: Signal, sending_id: UniqueID) -> (res: Self)
        ensures
            res.input_index == input_index,
            res.signal == signal,
            res.sending_id == sending_id,
    {
        GateInput { input_index, signal, sending_id }
    }
}

/// The entries of one gate input: one signal per connected sender.
pub type InputEntries = Vec<(UniqueID, Signal)>;

/// The signal that one input sees, given the signals that its senders put on it, in order.
/// `NONE` entries are ignored; two entries other than `NONE` are a conflict.
pub open spec fn spec_resolve(entries: Seq<(UniqueID, Signal)>) -> Result<Signal, GateLogicError>
    decreases entries.len(),
{
    if entries.len() == 0 {
        Ok(Signal::NONE)
    } else {
        match spec_resolve(entries.drop_last()) {
            Err(e) => Err(e),
            Ok(found) => {
                let s = entries.last().1;
                if found == Signal::NONE {
                    Ok(s)
                } else if s != Signal::NONE {
                    Err(GateLogicError::MultipleValidSignalsWhenCalculating)
                } else {
                    Ok(found)
                }
            },
        }
    }
}

/// The number of entries that carry a signal other than `NONE`.
pub open spec fn driven_count(entries: Seq<(UniqueID, Signal)>) -> nat
    decreases entries.len(),
{
    if entries.len() == 0 {
        0
    } else {
        driven_count(entries.drop_last()) + if entries.last().1 != Signal::NONE {
            1nat
        } else {
            0nat
        }
    }
}

/// The entries of every input, as sequences.
pub open spec fn entries_view(inputs: Seq<InputEntries>) -> Seq<Seq<(UniqueID, Signal)>> {
    inputs.map_values(|e: InputEntries| e@)
}

/// The signals that all inputs of a gate see, or the first conflict.
pub open spec fn spec_resolve_all(inputs: Seq<Seq<(UniqueID, Signal)>>) -> Result<Seq<Signal>, GateLogicError>
    decreases inputs.len(),
{
    if inputs.len() == 0 {
        Ok(Seq::empty())
    } else {
        match spec_resolve_all(inputs.drop_last()) {
            Err(e) => Err(e),
            Ok(prefix) => match spec_resolve(inputs.last()) {
                Err(e) => Err(e),
                Ok(s) => Ok(prefix.push(s)),
            },
        }
    }
}

pub open spec fn spec_or(signals: Seq<Signal>) -> Signal {
    if signals.contains(Signal::HIGH) {
        Signal::HIGH
    } else {
        Signal::LOW_
    }
}

pub open spec fn spec_and(signals: Seq<Signal>) -> Signal {
    if signals.contains(Signal::LOW_) {
        Signal::LOW_
    } else {
        Signal::HIGH
    }
}

pub open spec fn spec_not(signals: Seq<Signal>) -> Signal {
    if signals[0] == Signal::HIGH {
        Signal::LOW_
    } else {
        Signal::HIGH
    }
}

pub open spec fn spec_nor(signals: Seq<Signal>) -> Signal {
    spec_not(seq![spec_or(signals)])
}

pub open spec fn spec_nand(signals: Seq<Signal>) -> Signal {
    spec_not(seq![spec_and(signals)])
}

/// HIGH when both a LOW and a HIGH are present, NONE when neither is, LOW otherwise.
pub open spec fn spec_xor(signals: Seq<Signal>) -> Signal {
    let high = signals.contains(Signal::HIGH);
    let low = signals.contains(Signal::LOW_);
    if high && low {
        Signal::HIGH
    } else if !high && !low {
        Signal::NONE
    } else {
        Signal::LOW_
    }
}

pub open spec fn spec_clock(signals: Seq<Signal>) -> Signal {
    if signals[0] == Signal::LOW_ {
        Signal::HIGH
    } else {
        Signal::LOW_
    }
}

/// Every input is `LOW_` from the given sender.
pub open spec fn all_low_from(inputs: Seq<Seq<(UniqueID, Signal)>>, id: UniqueID) -> bool {
    forall|i: int| 0 <= i < inputs.len() ==> #[trigger] inputs[i] == seq![(id, Signal::LOW_)]
}

/// The only way in which resolving an input fails is a conflict between two drivers.
pub proof fn lemma_resolve_error(entries: Seq<(UniqueID, Signal)>)
    ensures
        spec_resolve(entries) matches Err(e) ==> e == GateLogicError::MultipleValidSignalsWhenCalculating,
    decreases entries.len(),
{
    if entries.len() > 0 {
        lemma_resolve_error(entries.drop_last());
    }
}

/// The only way in which resolving the inputs of a gate fails is a conflict between two
/// drivers of one input.
pub proof fn lemma_resolve_all_error(inputs: Seq<Seq<(UniqueID, Signal)>>)
    ensures
        spec_resolve_all(inputs) matches Err(e) ==> e == GateLogicError::MultipleValidSignalsWhenCalculating,
    decreases inputs.len(),
{
    if inputs.len() > 0 {
        lemma_resolve_all_error(inputs.drop_last());
        lemma_resolve_error(inputs.last());
    }
}

/// A resolved input is never a conflict when at most one sender drives it.
pub proof fn lemma_resolve_count(entries: Seq<(UniqueID, Signal)>)
    ensures
        driven_count(entries) <= 1 ==> spec_resolve(entries) is Ok,
        driven_count(entries) == 0 ==> spec_resolve(entries) == Ok::<Signal, GateLogicError>(Signal::NONE),
        driven_count(entries) >= 2 ==> spec_resolve(entries) is Err,
        spec_resolve(entries) matches Ok(s) ==> (s == Signal::NONE <==> driven_count(entries) == 0),
    decreases entries.len(),
{
    if entries.len() > 0 {
        lemma_resolve_count(entries.drop_last());
    }
}

/// What an input sees does not depend on the order in which its senders are listed: it is
/// `NONE` when no sender drives it, the one driven signal when exactly one does, and a
/// conflict otherwise.
pub proof fn lemma_resolve_is_order_free(entries: Seq<(UniqueID, Signal)>, i: int)
    requires
        0 <= i < entries.len(),
        entries[i].1 != Signal::NONE,
        driven_count(entries) == 1,
    ensures
        spec_resolve(entries) == Ok::<Signal, GateLogicError>(entries[i].1),
    decreases entries.len(),
{
    let n = entries.len();
    lemma_resolve_count(entries.drop_last());
    if i == n - 1 {
        lemma_resolve_count(entries.drop_last());
        assert(driven_count(entries.drop_last()) == 0);
    } else {
        assert(entries.drop_last()[i] == entries[i]);
        lemma_driven_count_pos(entries.drop_last(), i);
        assert(entries.last().1 == Signal::NONE);
        lemma_resolve_is_order_free(entries.drop_last(), i);
    }
}

proof fn lemma_driven_count_pos(entries: Seq<(UniqueID, Signal)>, i: int)
    requires
        0 <= i < entries.len(),
        entries[i].1 != Signal::NONE,
    ensures
        driven_count(entries) >= 1,
    decreases entries.len(),
{
    if i < entries.len() - 1 {
        assert(entries.drop_last()[i] == entries[i]);
        lemma_driven_count_pos(entries.drop_last(), i);
    }
}

} // verus!
