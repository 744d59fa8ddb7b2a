use vstd::prelude::*;

use crate::circuit::{connected_to, last_conn, Circuit, GateNode};
use crate::logic::foundations::GateType;
use crate::globals::MAX_INPUT_CHANGES;
use crate::logic::foundations::{
    entries_ok, has_entry, output_signal, set_signal, spec_set_entry, with_signal,
    GateOutputState, InputSignalReturn,
};
use crate::logic::signals::{
    entries_view, GateInput, GateLogicError, InputEntries, Signal, UniqueID,
};

verus! {

/// How many more input changes gate `n` may take during tick `tick` before it is taken as
/// oscillating; a gate last changed in another tick has its whole allowance, and one more.
pub open spec fn change_budget(n: GateNode, tick: usize) -> nat {
    let d = n.members.oscillation_detection;
    if d.current_tick == tick {
        (MAX_INPUT_CHANGES - d.changed_count_this_tick) as nat
    } else {
        (MAX_INPUT_CHANGES + 1) as nat
    }
}

/// The change budgets of the first `k` gates of `c`, added up.
pub open spec fn budget_upto(c: Circuit, k: int) -> nat
    decreases k,
{
    if k <= 0 {
        0
    } else {
        budget_upto(c, k - 1) + change_budget(c.node(k - 1), c.clock_tick_number)
    }
}

/// The change budgets of all gates of `c`, added up: every change that propagation makes
/// uses some of it up.
pub open spec fn total_budget(c: Circuit) -> nat {
    budget_upto(c, c.len() as int)
}

/// Gate `t` has taken as many input changes during the current tick as it may.
pub open spec fn at_change_limit(c: Circuit, t: int) -> bool {
    &&& c.node(t).members.oscillation_detection.current_tick == c.clock_tick_number
    &&& c.node(t).members.oscillation_detection.changed_count_this_tick == MAX_INPUT_CHANGES
}

/// Two senders drive one input of gate `t` with signals other than `NONE`.
pub open spec fn has_conflict(c: Circuit, t: int) -> bool {
    c.node(t).spec_outputs() is Err
}

/// The failure `e` shows in circuit `c`: for an oscillation, a gate that has taken all the
/// input changes it may this tick; for conflicting drivers, a gate whose inputs conflict.
#[verifier::opaque]
pub open spec fn failure_shown(c: Circuit, e: GateLogicError) -> bool {
    ||| e == GateLogicError::OscillationDetected && exists|t: int| 0 <= t < c.len() && #[trigger] at_change_limit(c, t)
    ||| e == GateLogicError::MultipleValidSignalsWhenCalculating && exists|t: int| 0 <= t < c.len() && #[trigger] has_conflict(c, t)
}

/// Where one gate's budget shrinks by `d` and every other stays, the total shrinks by `d`.
pub proof fn lemma_budget_change(c1: Circuit, c2: Circuit, t: int, d: nat, k: int)
    requires
        c1.len() == c2.len(),
        c1.clock_tick_number == c2.clock_tick_number,
        0 <= t < c1.len(),
        0 <= k <= c1.len(),
        forall|h: int| 0 <= h < c1.len() && h != t ==> #[trigger] change_budget(c2.node(h), c2.clock_tick_number)
            == change_budget(c1.node(h), c1.clock_tick_number),
        change_budget(c2.node(t), c2.clock_tick_number) + d == change_budget(c1.node(t), c1.clock_tick_number),
    ensures
        budget_upto(c2, k) + (if t < k { d } else { 0 }) == budget_upto(c1, k),
    decreases k,
{
    if k > 0 {
        lemma_budget_change(c1, c2, t, d, k - 1);
        if k - 1 != t {
            assert(change_budget(c2.node(k - 1), c2.clock_tick_number) == change_budget(c1.node(k - 1), c1.clock_tick_number));
        }
    }
}

/// Where no gate's budget changes, neither does the total.
pub proof fn lemma_budget_same(c1: Circuit, c2: Circuit, k: int)
    requires
        c1.len() == c2.len(),
        c1.clock_tick_number == c2.clock_tick_number,
        0 <= k <= c1.len(),
        forall|h: int| 0 <= h < c1.len() ==> #[trigger] change_budget(c2.node(h), c2.clock_tick_number)
            == change_budget(c1.node(h), c1.clock_tick_number),
    ensures
        budget_upto(c2, k) == budget_upto(c1, k),
    decreases k,
{
    if k > 0 {
        lemma_budget_same(c1, c2, k - 1);
        assert(change_budget(c2.node(k - 1), c2.clock_tick_number) == change_budget(c1.node(k - 1), c1.clock_tick_number));
    }
}

/// Every gate that was settled at the start, or was queued, and is no longer pending is
/// settled.
pub open spec fn work_ok(c0: Circuit, c: Circuit, q: Seq<usize>, head: int) -> bool {
    forall|h: int|
        0 <= h < c0.len() && (c0.gate_settled(h) || q.contains(h as usize)) && !q.subrange(
            head,
            q.len() as int,
        ).contains(h as usize) ==> #[trigger] c.gate_settled(h)
}

/// The items added to a queue since it had `start` items.
pub open spec fn pushed_since(queue: Seq<usize>, start: int) -> Seq<usize> {
    queue.subrange(start, queue.len() as int)
}

/// Two gates that compute and send the same things.
pub open spec fn same_logic(n1: GateNode, n2: GateNode) -> bool {
    &&& n1.inputs() == n2.inputs()
    &&& n1.outputs() == n2.outputs()
    &&& n1.members.gate_type == n2.members.gate_type
    &&& n1.outputs_per_input == n2.outputs_per_input
    &&& n1.pull_output == n2.pull_output
    &&& n1.members.unique_id == n2.members.unique_id
}

/// Gates that compute the same things are evaluated alike.
pub proof fn lemma_same_logic_evaluated(n1: GateNode, n2: GateNode)
    requires
        same_logic(n1, n2),
    ensures
        n1.spec_outputs() == n2.spec_outputs(),
        n1.evaluated() == n2.evaluated(),
{
    if let Ok(vals) = crate::logic::signals::spec_resolve_all(n1.inputs()) {
        assert forall|i: int| 0 <= i < n1.outputs().len() implies n1.expected_output(vals, i)
            == n2.expected_output(vals, i) by {
            assert(n1.current(i) == n2.current(i));
        }
        assert(Seq::new(n1.outputs().len(), |i: int| n1.expected_output(vals, i)) =~= Seq::new(
            n2.outputs().len(),
            |i: int| n2.expected_output(vals, i),
        ));
    }
    if let Ok(sigs) = n1.spec_outputs() {
        assert forall|i: int| 0 <= i < n1.outputs().len() implies #[trigger] n1.current(i) == n2.current(i) by {}
    }
}

/// Output `j` of gate `g` has reached its destination, counting only the first `k` outputs
/// of `g`.
pub open spec fn output_delivered_upto(c: Circuit, g: int, j: int, k: int) -> bool {
    let outs = c.node(g).outputs();
    match outs[j] {
        GateOutputState::Connected(co) => last_conn(
            outs,
            k,
            co.gate as int,
            co.throughput.input_index as int,
        ) == j ==> entries_ok(
            c.node(co.gate as int).inputs()[co.throughput.input_index as int],
            co.throughput.sending_id,
            co.throughput.signal,
        ),
        _ => true,
    }
}

pub proof fn lemma_entries_view_update(v: Seq<InputEntries>, i: int, x: InputEntries)
    requires
        0 <= i < v.len(),
    ensures
        entries_view(v.update(i, x)) == entries_view(v).update(i, x@),
{
    assert(entries_view(v.update(i, x)) =~= entries_view(v).update(i, x@));
}

/// Entries from one sender are untouched when another sender sends.
pub proof fn lemma_set_entry_other(
    entries: Seq<(UniqueID, Signal)>,
    id: UniqueID,
    s: Signal,
    id2: UniqueID,
    s2: Signal,
)
    requires
        id != id2,
    ensures
        entries_ok(spec_set_entry(entries, id, s), id2, s2) == entries_ok(entries, id2, s2),
{
    let e2 = spec_set_entry(entries, id, s);
    let n = entries.len();
    assert(forall|k: int| 0 <= k < n ==> (#[trigger] e2[k].0 == id2) == (entries[k].0 == id2));
    assert(forall|k: int| 0 <= k < n && entries[k].0 == id2 ==> #[trigger] e2[k] == entries[k]);
    assert(forall|k: int| n <= k < e2.len() ==> #[trigger] e2[k].0 != id2);
    if has_entry(entries, id2) {
        let k = choose|k: int| 0 <= k < entries.len() && #[trigger] entries[k].0 == id2;
        assert(e2[k].0 == id2);
    }
    if has_entry(e2, id2) {
        let k = choose|k: int| 0 <= k < e2.len() && #[trigger] e2[k].0 == id2;
        assert(entries[k].0 == id2);
    }
    if entries_ok(entries, id2, s2) {
        assert forall|k: int| 0 <= k < e2.len() && #[trigger] e2[k].0 == id2 implies e2[k].1 == s2 by {
            assert(entries[k].0 == id2);
        }
    }
    if entries_ok(e2, id2, s2) {
        assert forall|k: int| 0 <= k < entries.len() && #[trigger] entries[k].0 == id2 implies entries[k].1 == s2 by {
            assert(e2[k].0 == id2);
        }
    }
}

/// Sending what the entries already hold changes nothing.
pub proof fn lemma_set_entry_same(entries: Seq<(UniqueID, Signal)>, id: UniqueID, s: Signal)
    requires
        entries_ok(entries, id, s),
    ensures
        spec_set_entry(entries, id, s) == entries,
{
    assert(spec_set_entry(entries, id, s) =~= entries);
}

/// The last of the first `k + 1` outputs going to a place is output `k` if it goes there, and
/// otherwise the last of the first `k`.
pub proof fn lemma_last_conn_step(outs: Seq<GateOutputState>, k: int, t: int, idx: int)
    requires
        0 <= k,
    ensures
        last_conn(outs, k + 1, t, idx) == if connected_to(outs[k], t, idx) {
            k
        } else {
            last_conn(outs, k, t, idx)
        },
        -1 <= last_conn(outs, k, t, idx) < k,
    decreases k,
{
    if k > 0 {
        lemma_last_conn_step(outs, k - 1, t, idx);
    }
}

/// The last output going to a place goes there.
pub proof fn lemma_last_conn_goes_there(outs: Seq<GateOutputState>, k: int, t: int, idx: int)
    requires
        last_conn(outs, k, t, idx) >= 0,
    ensures
        connected_to(outs[last_conn(outs, k, t, idx)], t, idx),
    decreases k,
{
    if k > 0 && !connected_to(outs[k - 1], t, idx) {
        lemma_last_conn_goes_there(outs, k - 1, t, idx);
    }
}

/// When only the inputs of other gates are untouched and the outputs of `h` are kept,
/// delivery of `h` does not change.
pub proof fn lemma_delivered_frame(c1: Circuit, c2: Circuit, h: int)
    requires
        c1.wf(),
        c1.len() == c2.len(),
        0 <= h < c1.len(),
        c1.node(h).outputs() == c2.node(h).outputs(),
        forall|t: int| 0 <= t < c1.len() ==> #[trigger] c2.node(t).inputs() == c1.node(t).inputs(),
    ensures
        c1.delivered(h) == c2.delivered(h),
{
    assert(c1.connections_wf(h));
    assert forall|j: int| 0 <= j < c1.node(h).outputs().len() implies #[trigger] c1.output_delivered(
        h,
        j,
    ) == c2.output_delivered(h, j) by {
        if let GateOutputState::Connected(co) = c1.node(h).outputs()[j] {
            assert(c2.node(co.gate as int).inputs() == c1.node(co.gate as int).inputs());
        }
    }
    if c1.delivered(h) {
        assert forall|j: int| 0 <= j < c2.node(h).outputs().len() implies #[trigger] c2.output_delivered(h, j) by {
            assert(c1.output_delivered(h, j));
        }
    }
    if c2.delivered(h) {
        assert forall|j: int| 0 <= j < c1.node(h).outputs().len() implies #[trigger] c1.output_delivered(h, j) by {
            assert(c2.output_delivered(h, j));
        }
    }
}

impl GateNode {
    /// Puts the given signals on the outputs; where each output goes is kept.
    pub fn apply_signals(&mut self, sigs: &Vec<Signal>)
        requires
            sigs@.len() == old(self).outputs().len(),
        ensures
            final(self).outputs().len() == old(self).outputs().len(),
            forall|j: int|
                0 <= j < old(self).outputs().len() ==> #[trigger] final(self).outputs()[j]
                    == with_signal(old(self).outputs()[j], sigs@[j]),
            final(self).members.input_signals == old(self).members.input_signals,
            final(self).members.unique_id == old(self).members.unique_id,
            final(self).members.gate_type == old(self).members.gate_type,
            final(self).members.oscillation_detection == old(self).members.oscillation_detection,
            final(self).outputs_per_input == old(self).outputs_per_input,
            final(self).pull_output == old(self).pull_output,
            final(self).previous_signal == old(self).previous_signal,
            final(self).values_to_be_output == old(self).values_to_be_output,
            final(self).members.tag == old(self).members.tag,
    {
        let mut j: usize = 0;
        while j < self.members.output_states.len()
            invariant
                j <= self.outputs().len(),
                sigs@.len() == old(self).outputs().len(),
                self.outputs().len() == old(self).outputs().len(),
                forall|i: int|
                    0 <= i < j ==> #[trigger] self.outputs()[i] == with_signal(
                        old(self).outputs()[i],
                        sigs@[i],
                    ),
                forall|i: int| j <= i < self.outputs().len() ==> self.outputs()[i] == old(self).outputs()[i],
                self.members.input_signals == old(self).members.input_signals,
                self.members.unique_id == old(self).members.unique_id,
                self.members.gate_type == old(self).members.gate_type,
                self.members.oscillation_detection == old(self).members.oscillation_detection,
                self.outputs_per_input == old(self).outputs_per_input,
                self.pull_output == old(self).pull_output,
                self.previous_signal == old(self).previous_signal,
                self.values_to_be_output == old(self).values_to_be_output,
                self.members.tag == old(self).members.tag,
            decreases self.outputs().len() - j,
        {
            let updated = set_signal(&self.members.output_states[j], sigs[j]);
            self.members.output_states.set(j, updated);
            j = j + 1;
        }
    }
}

impl Circuit {
    /// Brings the outputs of gate `g` up to date with its inputs. Nothing else changes; when
    /// two senders drive one of its inputs, nothing changes at all and the conflict is returned.
    pub fn evaluate_gate(&mut self, g: usize) -> (res: Result<(), GateLogicError>)
        requires
            old(self).wf(),
            g < old(self).len(),
        ensures
            res is Err <==> old(self).node(g as int).spec_outputs() is Err,
            res matches Err(e) ==> old(self).node(g as int).spec_outputs() == Err::<Seq<Signal>, GateLogicError>(e)
                && *final(self) == *old(self) && e == GateLogicError::MultipleValidSignalsWhenCalculating,
            res is Ok ==> forall|j: int| 0 <= j < old(self).node(g as int).outputs().len() ==> #[trigger] final(self).node(g as int).outputs()[j]
                == with_signal(old(self).node(g as int).outputs()[j], old(self).node(g as int).spec_outputs()->Ok_0[j]),
            final(self).node(g as int).members.oscillation_detection == old(self).node(g as int).members.oscillation_detection,
            final(self).wf(),
            final(self).shape() == old(self).shape(),
            final(self).types() == old(self).types(),
            final(self).clock_tick_number == old(self).clock_tick_number,
            final(self).len() == old(self).len(),
            forall|h: int| 0 <= h < old(self).len() && h != g ==> #[trigger] final(self).node(h) == old(self).node(h),
            final(self).node(g as int).inputs() == old(self).node(g as int).inputs(),
            final(self).node(g as int).evaluated(),
            final(self).node(g as int).members.unique_id == old(self).node(g as int).members.unique_id,
            final(self).node(g as int).outputs().len() == old(self).node(g as int).outputs().len(),
            forall|j: int| 0 <= j < old(self).node(g as int).outputs().len() ==> #[trigger] final(self).node(g as int).outputs()[j]
                == with_signal(old(self).node(g as int).outputs()[j], output_signal(final(self).node(g as int).outputs()[j])),
            forall|h: int| 0 <= h < old(self).len() && h != g && #[trigger] old(self).gate_settled(h) ==> final(self).gate_settled(h),
            old(self).wiring_kept(*final(self)),
    {
        let ghost old_self = *self;
        match self.gates[g].compute_output_signals() {
            Err(e) => {
                proof {
                    crate::logic::signals::lemma_resolve_all_error(old_self.node(g as int).inputs());
                    crate::circuit::lemma_wiring_kept_refl(old_self);
                    assert(self.shape() =~= old_self.shape());
                    assert(self.types() =~= old_self.types());
                    assert forall|j: int| 0 <= j < self.node(g as int).outputs().len() implies #[trigger] self.node(g as int).outputs()[j]
                        == with_signal(self.node(g as int).outputs()[j], output_signal(self.node(g as int).outputs()[j])) by {
                        let o = self.node(g as int).outputs()[j];
                        match o {
                            GateOutputState::NotConnected(_) => {},
                            GateOutputState::Connected(co) => {
                                assert(co.throughput == crate::logic::signals::GateInput { signal: co.throughput.signal, ..co.throughput });
                                assert(co == crate::logic::foundations::ConnectedOutput { throughput: co.throughput, ..co });
                            },
                        }
                    }
                }
                return Err(e);
            },
            Ok(sigs) => {
                self.gates[g].apply_signals(&sigs);
                proof {
                    let n0 = old_self.node(g as int);
                    let n1 = self.node(g as int);
                    assert forall|j: int| 0 <= j < n1.outputs().len() implies #[trigger] n1.current(j)
                        == sigs@[j] by {
                        assert(n1.outputs()[j] == with_signal(n0.outputs()[j], sigs@[j]));
                    }
                    assert forall|j: int| 0 <= j < n1.outputs().len() implies #[trigger] n1.outputs()[j]
                        == with_signal(n0.outputs()[j], output_signal(n1.outputs()[j])) by {
                        assert(n1.outputs()[j] == with_signal(n0.outputs()[j], sigs@[j]));
                    }
                    let vals = spec_resolve_all_ok_value(n0);
                    assert(n1.inputs() == n0.inputs());
                    assert forall|j: int| 0 <= j < n1.outputs().len() implies n1.expected_output(vals, j)
                        == sigs@[j] by {
                        assert(sigs@[j] == n0.expected_output(vals, j));
                        assert(n1.current(j) == sigs@[j]);
                    }
                    assert(n1.spec_outputs() == Ok::<Seq<Signal>, GateLogicError>(sigs@)) by {
                        assert(Seq::new(n1.outputs().len(), |i: int| n1.expected_output(vals, i)) =~= sigs@);
                    }
                }
            },
        }
        proof {
            assert(self.shape() =~= old_self.shape());
            assert(self.types() =~= old_self.types());
            assert forall|h: int| 0 <= h < self.len() implies #[trigger] self.node(h).wf() by {
                assert(old_self.node(h).wf());
            }
            assert forall|h: int| 0 <= h < self.len() implies #[trigger] self.node(h).members.unique_id.id == h + 1 by {
                assert(old_self.node(h).members.unique_id.id == h + 1);
            }
            assert forall|h: int| 0 <= h < self.len() implies #[trigger] self.connections_wf(h) by {
                assert(old_self.connections_wf(h));
                assert forall|j: int| 0 <= j < self.node(h).outputs().len() implies (
                #[trigger] self.node(h).outputs()[j] matches GateOutputState::Connected(co) ==> {
                    &&& self.has_input(co.gate as int, co.throughput.input_index as int)
                    &&& co.throughput.sending_id == self.node(h).members.unique_id
                }) by {
                    if h == g {
                        if let GateOutputState::Connected(co) = old_self.node(h).outputs()[j] {
                            assert(self.node(h).outputs()[j] matches GateOutputState::Connected(co2) && co2.gate == co.gate && co2.throughput.input_index == co.throughput.input_index && co2.throughput.sending_id == co.throughput.sending_id);
                        }
                    }
                }
            }
            assert forall|t: int| 0 <= t < self.len() implies #[trigger] self.node(t).inputs() == old_self.node(t).inputs() by {}
            assert forall|h: int, j: int| old_self.has_output(h, j) implies #[trigger] self.link(h, j) == old_self.link(h, j) by {
                if h == g {
                    assert(self.node(h).outputs()[j] == with_signal(old_self.node(h).outputs()[j], output_signal(self.node(h).outputs()[j])));
                }
            }
            assert forall|h: int| 0 <= h < old_self.len() && h != g && #[trigger] old_self.gate_settled(h) implies self.gate_settled(h) by {
                lemma_delivered_frame(old_self, *self, h);
            }
        }
        Ok(())
    }
}

/// One delivery into input `idx` of gate `t`, from that gate with id `id`, keeps every other
/// settled gate settled unless `t` itself changed.
pub proof fn lemma_delivery_step(
    b: Circuit,
    a: Circuit,
    g: int,
    t: int,
    idx: int,
    id: UniqueID,
    s: Signal,
    changed: bool,
)
    requires
        b.wf(),
        a.wf(),
        a.len() == b.len(),
        0 <= g < b.len(),
        0 <= t < b.len(),
        0 <= idx < b.node(t).inputs().len(),
        id == b.node(g).members.unique_id,
        forall|x: int| 0 <= x < b.len() && x != t ==> #[trigger] a.node(x) == b.node(x),
        a.node(t).outputs() == b.node(t).outputs(),
        a.node(t).members.gate_type == b.node(t).members.gate_type,
        a.node(t).outputs_per_input == b.node(t).outputs_per_input,
        a.node(t).pull_output == b.node(t).pull_output,
        a.node(t).members.unique_id == b.node(t).members.unique_id,
        a.node(t).inputs() == b.node(t).inputs().update(
            idx,
            spec_set_entry(b.node(t).inputs()[idx], id, s),
        ),
        changed == !entries_ok(b.node(t).inputs()[idx], id, s),
    ensures
        forall|h: int|
            0 <= h < b.len() && h != g && #[trigger] b.gate_settled(h) && (h != t || !changed)
                ==> a.gate_settled(h),
        b.node(g).evaluated() && (g != t || !changed) ==> a.node(g).evaluated(),
        entries_ok(a.node(t).inputs()[idx], id, s),
        forall|x: int, i: int|
            0 <= x < b.len() && 0 <= i < b.node(x).inputs().len() && (x != t || i != idx)
                ==> #[trigger] a.node(x).inputs()[i] == b.node(x).inputs()[i],
        a.node(g).outputs() == b.node(g).outputs(),
{
    let l = b.node(t).inputs()[idx];
    if !changed {
        lemma_set_entry_same(l, id, s);
        assert(a.node(t).inputs() =~= b.node(t).inputs());
    }
    assert(a.node(t).inputs()[idx] == spec_set_entry(l, id, s));
    assert(entries_ok(spec_set_entry(l, id, s), id, s)) by {
        if has_entry(l, id) {
            let k = choose|k: int| 0 <= k < l.len() && #[trigger] l[k].0 == id;
            assert(spec_set_entry(l, id, s)[k].0 == id);
        } else {
            assert(spec_set_entry(l, id, s)[l.len() as int].0 == id);
        }
    }
    assert forall|h: int|
        0 <= h < b.len() && h != g && #[trigger] b.gate_settled(h) && (h != t || !changed)
            implies a.gate_settled(h) by {
        if h == t {
            lemma_same_logic_evaluated(a.node(t), b.node(t));
        }
        assert(a.node(h).evaluated());
        assert(b.connections_wf(h));
        assert(b.node(h).members.unique_id.id == h + 1);
        assert(b.node(g).members.unique_id.id == g + 1);
        assert forall|j: int| 0 <= j < a.node(h).outputs().len() implies #[trigger] a.output_delivered(
            h,
            j,
        ) by {
            assert(b.output_delivered(h, j));
            if let GateOutputState::Connected(co) = b.node(h).outputs()[j] {
                let t2 = co.gate as int;
                let i2 = co.throughput.input_index as int;
                if t2 == t && i2 == idx {
                    lemma_set_entry_other(l, id, s, co.throughput.sending_id, co.throughput.signal);
                } else if t2 != t {
                    assert(a.node(t2) == b.node(t2));
                }
            }
        }
    }
    if g == t && !changed {
        lemma_same_logic_evaluated(a.node(t), b.node(t));
    }
}

/// A circuit in which only the input entries and oscillation count of gate `t` changed, the
/// number of its inputs kept, is still well formed.
pub proof fn lemma_wf_after_input_update(b: Circuit, a: Circuit, t: int)
    requires
        b.wf(),
        a.len() == b.len(),
        0 <= t < b.len(),
        forall|x: int| 0 <= x < b.len() && x != t ==> #[trigger] a.node(x) == b.node(x),
        a.node(t).outputs() == b.node(t).outputs(),
        a.node(t).members.gate_type == b.node(t).members.gate_type,
        a.node(t).outputs_per_input == b.node(t).outputs_per_input,
        a.node(t).members.unique_id == b.node(t).members.unique_id,
        a.node(t).members.input_signals@.len() == b.node(t).members.input_signals@.len(),
        a.node(t).members.oscillation_detection.wf(),
    ensures
        a.wf(),
        a.shape() == b.shape(),
        a.types() == b.types(),
        b.wiring_kept(a),
{
    assert forall|h: int| 0 <= h < a.len() implies #[trigger] a.node(h).wf() by {
        assert(b.node(h).wf());
    }
    assert forall|h: int| 0 <= h < a.len() implies #[trigger] a.shape()[h] == b.shape()[h] by {
        if h != t {
            assert(a.node(h) == b.node(h));
        }
    }
    assert forall|h: int| 0 <= h < a.len() implies #[trigger] a.types()[h] == b.types()[h] by {
        if h != t {
            assert(a.node(h) == b.node(h));
        }
    }
    assert(a.shape() =~= b.shape());
    assert(a.types() =~= b.types());
    assert forall|h: int| 0 <= h < a.len() implies #[trigger] a.node(h).members.unique_id.id == h + 1 by {
        assert(b.node(h).members.unique_id.id == h + 1);
    }
    assert forall|h: int| 0 <= h < a.len() implies #[trigger] a.connections_wf(h) by {
        assert(b.connections_wf(h));
        assert forall|j: int| 0 <= j < a.node(h).outputs().len() implies (
        #[trigger] a.node(h).outputs()[j] matches GateOutputState::Connected(co) ==> {
            &&& a.has_input(co.gate as int, co.throughput.input_index as int)
            &&& co.throughput.sending_id == a.node(h).members.unique_id
        }) by {
            assert(b.node(h).outputs()[j] == a.node(h).outputs()[j]);
        }
    }
    assert forall|h: int, j: int| b.has_output(h, j) implies #[trigger] a.link(h, j) == b.link(h, j) by {
        if h != t {
            assert(a.node(h) == b.node(h));
        }
    }
}

impl Circuit {
    /// Sends the signal of every connected output of gate `g` to its destination, first output
    /// first, counting each change for oscillation detection. Every gate whose inputs changed
    /// is added to `queue`.
    pub fn deliver_outputs(&mut self, g: usize, queue: &mut Vec<usize>) -> (res: Result<
        (),
        GateLogicError,
    >)
        requires
            old(self).wf(),
            g < old(self).len(),
            forall|i: int| 0 <= i < old(queue)@.len() ==> #[trigger] old(queue)@[i] < old(self).len(),
        ensures
            final(self).wf(),
            final(self).shape() == old(self).shape(),
            final(self).types() == old(self).types(),
            final(self).clock_tick_number == old(self).clock_tick_number,
            final(self).len() == old(self).len(),
            final(queue)@.len() >= old(queue)@.len(),
            final(queue)@.subrange(0, old(queue)@.len() as int) == old(queue)@,
            forall|i: int| 0 <= i < final(queue)@.len() ==> #[trigger] final(queue)@[i] < old(self).len(),
            res matches Err(e) ==> e == GateLogicError::OscillationDetected && failure_shown(*final(self), e),
            res is Ok ==> total_budget(*final(self)) + (final(queue)@.len() - old(queue)@.len()) <= total_budget(*old(self)),
            res is Ok ==> old(self).feeds_kept(*final(self)),
            res is Ok ==> old(self).unlinked_kept(*final(self)),
            res is Ok ==> final(self).delivered(g as int),
            res is Ok ==> final(self).node(g as int).outputs() == old(self).node(g as int).outputs(),
            res is Ok && old(self).node(g as int).evaluated() && !pushed_since(final(queue)@, old(queue)@.len() as int).contains(g)
                ==> final(self).node(g as int).evaluated(),
            res is Ok ==> forall|h: int| 0 <= h < old(self).len() && h != g && #[trigger] old(self).gate_settled(h)
                && !pushed_since(final(queue)@, old(queue)@.len() as int).contains(h as usize) ==> final(self).gate_settled(h),
            old(self).wiring_kept(*final(self)),
    {
        let ghost c0 = *self;
        let ghost q0 = queue@;
        let n = self.gates[g].members.output_states.len();
        proof {
            crate::circuit::lemma_wiring_kept_refl(c0);
            crate::circuit::lemma_feeds_kept_refl(c0);
            crate::circuit::lemma_unlinked_kept_refl(c0);
        }
        let mut k: usize = 0;
        while k < n
            invariant
                c0 == *old(self),
                q0 == old(queue)@,
                g < c0.len(),
                n == c0.node(g as int).outputs().len(),
                k <= n,
                self.wf(),
                self.shape() == c0.shape(),
                self.types() == c0.types(),
                self.clock_tick_number == c0.clock_tick_number,
                self.len() == c0.len(),
                queue@.len() >= q0.len(),
                queue@.subrange(0, q0.len() as int) == q0,
                forall|i: int| 0 <= i < queue@.len() ==> #[trigger] queue@[i] < c0.len(),
                self.node(g as int).outputs() == c0.node(g as int).outputs(),
                c0.node(g as int).evaluated() && !pushed_since(queue@, q0.len() as int).contains(g)
                    ==> self.node(g as int).evaluated(),
                forall|h: int| 0 <= h < c0.len() && h != g && #[trigger] c0.gate_settled(h)
                    && !pushed_since(queue@, q0.len() as int).contains(h as usize) ==> self.gate_settled(h),
                c0.wf(),
                c0.wiring_kept(*self),
                c0.feeds_kept(*self),
                c0.unlinked_kept(*self),
                total_budget(*self) + (queue@.len() - q0.len()) <= total_budget(c0),
                forall|j: int| 0 <= j < k ==> #[trigger] output_delivered_upto(*self, g as int, j, k as int),
            decreases n - k,
        {
            let ghost b = *self;
            let ghost qb = queue@;
            let state = self.gates[g].members.output_states[k];
            proof {
                assert forall|j: int| 0 <= j < k implies #[trigger] output_delivered_upto(b, g as int, j, k as int) by {}
            }
            match state {
                GateOutputState::NotConnected(_) => {
                    proof {
                        assert forall|j: int| 0 <= j < k + 1 implies #[trigger] output_delivered_upto(*self, g as int, j, k as int + 1) by {
                            let outs = self.node(g as int).outputs();
                            if j < k {
                                assert(output_delivered_upto(*self, g as int, j, k as int));
                                if let GateOutputState::Connected(co) = outs[j] {
                                    lemma_last_conn_step(outs, k as int, co.gate as int, co.throughput.input_index as int);
                                }
                            }
                        }
                    }
                },
                GateOutputState::Connected(co) => {
                    let t = co.gate;
                    let tick = self.clock_tick_number;
                    proof {
                        assert(b.connections_wf(g as int));
                        assert(b.node(g as int).outputs()[k as int] == state);
                        assert(b.node(t as int).wf());
                    }
                    let r = self.gates[t].members.update_input_signal(co.throughput, tick);
                    proof {
                        lemma_wf_after_input_update(b, *self, t as int);
                        crate::circuit::lemma_wiring_kept_refl(c0);
                        crate::circuit::lemma_wiring_kept_trans(c0, b, *self);
                        lemma_entries_view_update(b.node(t as int).members.input_signals@, co.throughput.input_index as int, self.node(t as int).members.input_signals@[co.throughput.input_index as int]);
                    }
                    proof {
                        assert(b.node(g as int).members.unique_id.id == g + 1);
                        assert(b.node(t as int).members.oscillation_detection.wf());
                    }
                    match r {
                        Err(e) => {
                            assert(self.shape() == c0.shape());
                            assert(self.types() == c0.types());
                            proof {
                                assert(at_change_limit(*self, t as int));
                                reveal(failure_shown);
                            }
                            return Err(e);
                        },
                        Ok(ret) => {
                            proof {
                                let tb = change_budget(b.node(t as int), b.clock_tick_number);
                                let ta = change_budget(self.node(t as int), self.clock_tick_number);
                                assert(ta + 1 <= tb);
                                assert forall|h: int| 0 <= h < b.len() && h != t implies #[trigger] change_budget(self.node(h), self.clock_tick_number)
                                    == change_budget(b.node(h), b.clock_tick_number) by {
                                    assert(self.node(h) == b.node(h));
                                }
                                lemma_budget_change(b, *self, t as int, (tb - ta) as nat, b.len() as int);
                            }
                            if ret.input_signal_updated {
                                queue.push(t);
                            }
                            proof {
                                let idx = co.throughput.input_index as int;
                                assert(b.has_output(g as int, k as int));
                                assert(b.has_input(t as int, idx));
                                lemma_feeds_after_delivery(c0, b, *self, g as int, k as int, t as int, idx, co.throughput.sending_id, co.throughput.signal);
                                lemma_unlinked_after_delivery(c0, b, *self, g as int, k as int, t as int, idx, co.throughput.sending_id, co.throughput.signal);
                                lemma_delivery_step(b, *self, g as int, t as int, idx, co.throughput.sending_id, co.throughput.signal, ret.input_signal_updated);
                                let pa = pushed_since(queue@, q0.len() as int);
                                let pb = pushed_since(qb, q0.len() as int);
                                if ret.input_signal_updated {
                                    assert(pa =~= pb.push(t));
                                    assert forall|h: usize| #[trigger] pa.contains(h) == (pb.contains(h) || h == t) by {
                                        if pa.contains(h) && h != t {
                                            let i = choose|i: int| 0 <= i < pa.len() && pa[i] == h;
                                            assert(pb[i] == h);
                                        }
                                        if pb.contains(h) {
                                            let i = choose|i: int| 0 <= i < pb.len() && pb[i] == h;
                                            assert(pa[i] == h);
                                        }
                                        if h == t {
                                            assert(pa[pb.len() as int] == h);
                                        }
                                    }
                                    assert(queue@.subrange(0, q0.len() as int) =~= qb.subrange(0, q0.len() as int));
                                } else {
                                    assert(pa == pb);
                                }
                                assert forall|j: int| 0 <= j < k + 1 implies #[trigger] output_delivered_upto(*self, g as int, j, k as int + 1) by {
                                    let outs = self.node(g as int).outputs();
                                    if let GateOutputState::Connected(coj) = outs[j] {
                                        let tj = coj.gate as int;
                                        let ij = coj.throughput.input_index as int;
                                        lemma_last_conn_step(outs, k as int, tj, ij);
                                        if j < k {
                                            assert(output_delivered_upto(b, g as int, j, k as int));
                                            if !(tj == t && ij == idx) {
                                                assert(b.connections_wf(g as int));
                                                assert(self.node(tj).inputs()[ij] == b.node(tj).inputs()[ij]);
                                            }
                                        }
                                    }
                                }
                            }
                        },
                    }
                },
            }
            k = k + 1;
        }
        proof {
            assert forall|j: int| 0 <= j < n implies #[trigger] self.output_delivered(g as int, j) by {
                assert(output_delivered_upto(*self, g as int, j, n as int));
            }
        }
        Ok(())
    }
}

/// Changing only the entries of gate `p`, which has a single input that nothing reaches,
/// keeps every other settled gate settled.
pub proof fn lemma_settled_after_pin_update(c1: Circuit, c2: Circuit, p: int, h: int)
    requires
        c1.wf(),
        c1.len() == c2.len(),
        0 <= p < c1.len(),
        0 <= h < c1.len(),
        h != p,
        c1.shape()[p].0 == 1,
        c1.unlinked(p, 0),
        forall|t: int| 0 <= t < c1.len() && t != p ==> #[trigger] c2.node(t) == c1.node(t),
        c1.gate_settled(h),
    ensures
        c2.gate_settled(h),
{
    assert(c2.node(h) == c1.node(h));
    assert(c1.connections_wf(h));
    assert forall|j: int| 0 <= j < c2.node(h).outputs().len() implies #[trigger] c2.output_delivered(h, j) by {
        assert(c1.output_delivered(h, j));
        if let GateOutputState::Connected(co) = c1.node(h).outputs()[j] {
            assert(c1.has_input(co.gate as int, co.throughput.input_index as int));
            assert(c1.has_output(h, j));
            assert(c1.link(h, j) != Some((p, 0int)));
            assert(co.gate != p);
            assert(c2.node(co.gate as int) == c1.node(co.gate as int));
        }
    }
}

/// A delivery from gate `g` over its output `k` keeps every input that nothing reaches.
pub proof fn lemma_unlinked_after_delivery(
    c0: Circuit,
    b: Circuit,
    a: Circuit,
    g: int,
    k: int,
    t: int,
    idx: int,
    sender: UniqueID,
    s: Signal,
)
    requires
        c0.wiring_kept(b),
        b.shape() == c0.shape(),
        a.len() == b.len(),
        c0.unlinked_kept(b),
        b.has_output(g, k),
        b.link(g, k) == Some((t, idx)),
        b.has_input(t, idx),
        a.node(t).inputs() == b.node(t).inputs().update(idx, spec_set_entry(b.node(t).inputs()[idx], sender, s)),
        forall|h: int| 0 <= h < b.len() && h != t ==> #[trigger] a.node(h) == b.node(h),
    ensures
        c0.unlinked_kept(a),
{
    assert forall|t2: int, i2: int| c0.has_input(t2, i2) && c0.unlinked(t2, i2) implies #[trigger] a.node(t2).inputs()[i2]
        == c0.node(t2).inputs()[i2] by {
        assert(b.node(t2).inputs()[i2] == c0.node(t2).inputs()[i2]);
        assert(c0.has_output(g, k));
        assert(c0.link(g, k) == b.link(g, k));
        assert(b.node(t2).inputs().len() == b.node(t2).members.input_signals@.len());
        if t2 == t {
            assert(i2 != idx);
            assert(a.node(t).inputs()[i2] == b.node(t).inputs()[i2]);
        } else {
            assert(a.node(t2) == b.node(t2));
        }
    }
}

/// A delivery from gate `g` over its output `k` keeps every input fed by its sole sender.
pub proof fn lemma_feeds_after_delivery(
    c0: Circuit,
    b: Circuit,
    a: Circuit,
    g: int,
    k: int,
    t: int,
    idx: int,
    sender: UniqueID,
    s: Signal,
)
    requires
        c0.wf(),
        b.wf(),
        c0.wiring_kept(b),
        b.shape() == c0.shape(),
        a.shape() == b.shape(),
        a.len() == b.len(),
        c0.feeds_kept(b),
        b.has_output(g, k),
        b.link(g, k) == Some((t, idx)),
        sender == b.node(g).members.unique_id,
        b.has_input(t, idx),
        a.node(t).inputs() == b.node(t).inputs().update(idx, spec_set_entry(b.node(t).inputs()[idx], sender, s)),
        forall|h: int| 0 <= h < b.len() && h != t ==> #[trigger] a.node(h) == b.node(h),
    ensures
        c0.feeds_kept(a),
{
    assert forall|t2: int, i2: int, id: UniqueID| c0.fed_by(t2, i2, id) && c0.sole_sender(t2, i2, id) implies #[trigger] a.fed_by(t2, i2, id) by {
        assert(b.fed_by(t2, i2, id));
        assert(b.node(t2).inputs().len() == b.node(t2).members.input_signals@.len());
        if t2 == t && i2 == idx {
            assert(c0.has_output(g, k));
            assert(c0.link(g, k) == b.link(g, k));
            assert(c0.node(g).members.unique_id.id == g + 1);
            assert(b.node(g).members.unique_id.id == g + 1);
            assert(sender == id);
            let e = b.node(t).inputs()[idx];
            assert(has_entry(e, id)) by {
                assert(e[0].0 == id);
            }
            assert(spec_set_entry(e, id, s).len() == 1);
            assert(spec_set_entry(e, id, s)[0].0 == id);
            assert(a.node(t).inputs()[idx] == spec_set_entry(e, id, s));
        } else if t2 == t {
            assert(a.node(t).inputs()[i2] == b.node(t).inputs()[i2]);
        } else {
            assert(a.node(t2) == b.node(t2));
        }
    }
}

/// How the pending part of a work queue changes when its item at `head` is taken and more
/// items are appended.
pub proof fn lemma_queue_step(q: Seq<usize>, q2: Seq<usize>, head: int, h: usize)
    requires
        0 <= head < q.len(),
        q2.len() >= q.len(),
        q2.subrange(0, q.len() as int) == q,
    ensures
        q2.contains(h) && !q2.subrange(head + 1, q2.len() as int).contains(h) ==> q.contains(h),
        !q2.subrange(head + 1, q2.len() as int).contains(h) && h != q[head] ==> !q.subrange(
            head,
            q.len() as int,
        ).contains(h),
        !q2.subrange(head + 1, q2.len() as int).contains(h) ==> !pushed_since(q2, q.len() as int).contains(h),
{
    assert(forall|i: int| 0 <= i < q.len() ==> #[trigger] q2[i] == q[i]) by {
        assert forall|i: int| 0 <= i < q.len() implies #[trigger] q2[i] == q[i] by {
            assert(q2.subrange(0, q.len() as int)[i] == q2[i]);
        }
    }
    let rest = q2.subrange(head + 1, q2.len() as int);
    if q2.contains(h) && !rest.contains(h) {
        let i = choose|i: int| 0 <= i < q2.len() && q2[i] == h;
        if i > head {
            assert(rest[i - head - 1] == h);
        }
        assert(q[i] == h);
    }
    if !rest.contains(h) && h != q[head] && q.subrange(head, q.len() as int).contains(h) {
        let i = choose|i: int| 0 <= i < q.len() - head && q.subrange(head, q.len() as int)[i] == h;
        assert(i > 0);
        assert(rest[i - 1] == q2[head + i]);
    }
    let p = pushed_since(q2, q.len() as int);
    if !rest.contains(h) && p.contains(h) {
        let i = choose|i: int| 0 <= i < p.len() && p[i] == h;
        assert(rest[q.len() - head - 1 + i] == p[i]);
    }
}

impl Circuit {
    /// Brings gate `g` up to date and delivers its outputs.
    pub fn process_gate(&mut self, g: usize, queue: &mut Vec<usize>) -> (res: Result<
        (),
        GateLogicError,
    >)
        requires
            old(self).wf(),
            g < old(self).len(),
            forall|i: int| 0 <= i < old(queue)@.len() ==> #[trigger] old(queue)@[i] < old(self).len(),
        ensures
            final(self).wf(),
            final(self).shape() == old(self).shape(),
            final(self).types() == old(self).types(),
            final(self).clock_tick_number == old(self).clock_tick_number,
            final(self).len() == old(self).len(),
            final(queue)@.len() >= old(queue)@.len(),
            final(queue)@.subrange(0, old(queue)@.len() as int) == old(queue)@,
            forall|i: int| 0 <= i < final(queue)@.len() ==> #[trigger] final(queue)@[i] < old(self).len(),
            res matches Err(e) ==> crate::logic::signals::is_run_failure(e) && failure_shown(*final(self), e),
            res is Ok ==> total_budget(*final(self)) + (final(queue)@.len() - old(queue)@.len()) <= total_budget(*old(self)),
            res is Ok ==> old(self).feeds_kept(*final(self)),
            res is Ok ==> old(self).unlinked_kept(*final(self)),
            res is Ok ==> forall|h: int| 0 <= h < old(self).len() && (h == g || old(self).gate_settled(h))
                && !pushed_since(final(queue)@, old(queue)@.len() as int).contains(h as usize) ==> #[trigger] final(self).gate_settled(h),
            old(self).wiring_kept(*final(self)),
    {
        let ghost c0 = *self;
        proof {
            crate::logic::signals::lemma_run_failures();
        }
        let evaluated = self.evaluate_gate(g);
        if let Err(e) = evaluated {
            proof {
                crate::circuit::lemma_wiring_kept_refl(c0);
                assert(has_conflict(*self, g as int));
                reveal(failure_shown);
            }
            return Err(e);
        }
        let ghost c1 = *self;
        proof {
            assert forall|h: int| 0 <= h < c0.len() implies #[trigger] change_budget(c1.node(h), c1.clock_tick_number)
                == change_budget(c0.node(h), c0.clock_tick_number) by {
                if h != g {
                    assert(c1.node(h) == c0.node(h));
                }
            }
            lemma_budget_same(c0, c1, c0.len() as int);
        }
        let res = self.deliver_outputs(g, queue);
        proof {
            crate::circuit::lemma_wiring_kept_refl(c0);
            crate::circuit::lemma_wiring_kept_trans(c0, c1, *self);
            assert forall|t: int, idx: int, id: UniqueID| c0.fed_by(t, idx, id) && c0.sole_sender(t, idx, id) implies #[trigger] c1.fed_by(t, idx, id) by {
                if t != g {
                    assert(c1.node(t) == c0.node(t));
                }
            }
            assert forall|t: int, idx: int| c0.has_input(t, idx) && c0.unlinked(t, idx) implies #[trigger] c1.node(t).inputs()[idx]
                == c0.node(t).inputs()[idx] by {
                if t != g {
                    assert(c1.node(t) == c0.node(t));
                }
            }
            if res is Ok {
                crate::circuit::lemma_unlinked_kept_trans(c0, c1, *self);
                crate::circuit::lemma_feeds_kept_trans(c0, c1, *self);
                assert forall|h: int| 0 <= h < c0.len() && (h == g || #[trigger] c0.gate_settled(h))
                    && !pushed_since(queue@, old(queue)@.len() as int).contains(h as usize) implies self.gate_settled(h) by {
                    if h != g {
                        assert(c1.gate_settled(h));
                    }
                }
            }
        }
        res
    }

    /// Processes gates from `queue`, and the gates they disturb, until nothing more changes.
    /// Fails with `MultipleValidSignalsWhenCalculating` when a gate to be brought up to date has
    /// two senders driving one input, and with `OscillationDetected` when the inputs of a gate
    /// would change more than `MAX_INPUT_CHANGES` times in this tick; the failure stops the
    /// work right there, so the circuit shows it. Every change uses up some of the gates'
    /// budgets, so the work always ends. On success, every gate that
    /// was settled before or was queued is settled.
    pub fn propagate(&mut self, queue: Vec<usize>) -> (res: Result<(), GateLogicError>)
        requires
            old(self).wf(),
            forall|i: int| 0 <= i < queue@.len() ==> #[trigger] queue@[i] < old(self).len(),
        ensures
            final(self).wf(),
            final(self).shape() == old(self).shape(),
            final(self).types() == old(self).types(),
            final(self).clock_tick_number == old(self).clock_tick_number,
            final(self).len() == old(self).len(),
            res is Ok ==> forall|h: int| 0 <= h < old(self).len() && (old(self).gate_settled(h)
                || queue@.contains(h as usize)) ==> #[trigger] final(self).gate_settled(h),
            res matches Err(e) ==> crate::logic::signals::is_run_failure(e) && failure_shown(*final(self), e),
            res is Ok ==> old(self).feeds_kept(*final(self)),
            res is Ok ==> old(self).unlinked_kept(*final(self)),
            old(self).wiring_kept(*final(self)),
    {
        let ghost c0 = *self;
        let ghost q0 = queue@;
        let mut queue = queue;
        let mut head: usize = 0;
        proof {
            crate::circuit::lemma_wiring_kept_refl(c0);
            crate::circuit::lemma_feeds_kept_refl(c0);
            crate::circuit::lemma_unlinked_kept_refl(c0);
            crate::logic::signals::lemma_run_failures();
        }
        assert(queue@.subrange(0, queue@.len() as int) =~= queue@);
        while head < queue.len()
            invariant
                c0 == *old(self),
                self.wf(),
                self.shape() == c0.shape(),
                self.types() == c0.types(),
                self.clock_tick_number == c0.clock_tick_number,
                self.len() == c0.len(),
                head <= queue@.len(),
                queue@.len() >= q0.len(),
                queue@.subrange(0, q0.len() as int) == q0,
                forall|i: int| 0 <= i < queue@.len() ==> #[trigger] queue@[i] < c0.len(),
                c0.wf(),
                c0.wiring_kept(*self),
                c0.feeds_kept(*self),
                c0.unlinked_kept(*self),
                work_ok(c0, *self, queue@, head as int),
            decreases total_budget(*self) + queue@.len() - head,
        {
            let ghost qb = queue@;
            let ghost b = *self;
            let g = queue[head];
            let r = self.process_gate(g, &mut queue);
            proof {
                crate::circuit::lemma_wiring_kept_refl(c0);
                crate::circuit::lemma_wiring_kept_trans(c0, b, *self);
            }
            if let Err(e) = r {
                return Err(e);
            }
            proof {
                crate::circuit::lemma_feeds_kept_trans(c0, b, *self);
                crate::circuit::lemma_unlinked_kept_trans(c0, b, *self);
                assert(work_ok(c0, b, qb, head as int));
                assert forall|h: int| 0 <= h < c0.len() && (#[trigger] c0.gate_settled(h) || queue@.contains(h as usize))
                    && !queue@.subrange(head as int + 1, queue@.len() as int).contains(h as usize) implies self.gate_settled(h) by {
                    lemma_queue_step(qb, queue@, head as int, h as usize);
                    if h != g {
                        assert(!qb.subrange(head as int, qb.len() as int).contains(h as usize));
                        assert(c0.gate_settled(h) || qb.contains(h as usize));
                        assert(b.gate_settled(h));
                    }
                    assert(!pushed_since(queue@, qb.len() as int).contains(h as usize));
                    assert(h == g || b.gate_settled(h));
                }
                assert(queue@.subrange(0, q0.len() as int) =~= qb.subrange(0, q0.len() as int)) by {
                    assert forall|i: int| 0 <= i < q0.len() implies queue@[i] == qb[i] by {
                        assert(queue@.subrange(0, qb.len() as int)[i] == queue@[i]);
                    }
                }
            }
            head = head + 1;
        }
        proof {
            assert(work_ok(c0, *self, queue@, head as int));
            assert(queue@.subrange(head as int, queue@.len() as int) =~= Seq::<usize>::empty());
            assert forall|h: int| 0 <= h < c0.len() && #[trigger] c0.gate_settled(h) implies self.gate_settled(h) by {
                assert(!queue@.subrange(head as int, queue@.len() as int).contains(h as usize));
            }
            assert forall|h: int| 0 <= h < c0.len() && (#[trigger] c0.gate_settled(h) || q0.contains(h as usize)) implies self.gate_settled(h) by {
                assert(queue@.subrange(head as int, queue@.len() as int) =~= Seq::<usize>::empty());
                assert(!queue@.subrange(head as int, queue@.len() as int).contains(h as usize));
                if q0.contains(h as usize) {
                    let i = choose|i: int| 0 <= i < q0.len() && q0[i] == h as usize;
                    assert(queue@.subrange(0, q0.len() as int)[i] == queue@[i]);
                    assert(queue@.contains(h as usize));
                }
                assert(c0.gate_settled(h) || queue@.contains(h as usize));
                assert(work_ok(c0, *self, queue@, head as int));
            }
        }
        Ok(())
    }
}

/// The resolved inputs of a gate whose inputs do not conflict.
pub open spec fn spec_resolve_all_ok_value(n: GateNode) -> Seq<Signal> {
    crate::logic::signals::spec_resolve_all(n.inputs())->Ok_0
}

} // verus!

verus! {

/// No position appears twice.
pub open spec fn no_duplicates(s: Seq<usize>) -> bool {
    forall|i: int, j: int| 0 <= i < j < s.len() ==> #[trigger] s[i] != #[trigger] s[j]
}

/// A copy of a list of output states.
pub fn copy_output_states(states: &Vec<GateOutputState>) -> (res: Vec<GateOutputState>)
    ensures
        res@ == states@,
{
    let mut res: Vec<GateOutputState> = Vec::new();
    let mut i: usize = 0;
    while i < states.len()
        invariant
            i <= states@.len(),
            res@ == states@.subrange(0, i as int),
        decreases states@.len() - i,
    {
        res.push(states[i]);
        i = i + 1;
    }
    assert(res@ =~= states@);
    res
}

impl Circuit {
    /// Lets gate `g` produce its next outputs as an input of the circuit: an automatic input
    /// sends its next value (or fails with `NoMoreAutomaticInputsRemaining` when none is left),
    /// a clock flips its signal, and any other gate computes its outputs from its inputs (or
    /// fails with `MultipleValidSignalsWhenCalculating` when two senders drive one of them).
    pub fn fetch_input_gate(&mut self, g: usize) -> (res: Result<(), GateLogicError>)
        requires
            old(self).wf(),
            g < old(self).len(),
        ensures
            final(self).wf(),
            final(self).shape() == old(self).shape(),
            final(self).types() == old(self).types(),
            final(self).clock_tick_number == old(self).clock_tick_number,
            final(self).len() == old(self).len(),
            forall|h: int| 0 <= h < old(self).len() && h != g && #[trigger] old(self).gate_settled(h) ==> final(self).gate_settled(h),
            forall|h: int| 0 <= h < old(self).len() && h != g ==> #[trigger] final(self).node(h) == old(self).node(h),
            final(self).node(g as int).inputs() == old(self).node(g as int).inputs(),
            final(self).node(g as int).evaluated(),
            res == Err::<(), GateLogicError>(GateLogicError::NoMoreAutomaticInputsRemaining) <==> (
                old(self).node(g as int).members.gate_type == GateType::AutomaticInputType
                && old(self).node(g as int).values_to_be_output@.len() == 0),
            res == Err::<(), GateLogicError>(GateLogicError::MultipleValidSignalsWhenCalculating) <==> (
                old(self).node(g as int).members.gate_type != GateType::AutomaticInputType
                && old(self).node(g as int).members.gate_type != GateType::ClockType
                && old(self).node(g as int).spec_outputs() is Err),
            res matches Err(e) ==> e == GateLogicError::NoMoreAutomaticInputsRemaining
                || e == GateLogicError::MultipleValidSignalsWhenCalculating,
            res == Err::<(), GateLogicError>(GateLogicError::MultipleValidSignalsWhenCalculating) ==> has_conflict(*final(self), g as int),
            old(self).node(g as int).members.gate_type == GateType::AutomaticInputType && res is Ok ==> {
                &&& final(self).node(g as int).values_to_be_output@ == old(self).node(g as int).values_to_be_output@.drop_first()
                &&& forall|j: int| 0 <= j < final(self).node(g as int).outputs().len() ==> #[trigger] final(self).node(g as int).current(j)
                    == old(self).node(g as int).values_to_be_output@[0]
            },
            old(self).node(g as int).members.gate_type == GateType::ClockType ==> {
                &&& final(self).node(g as int).previous_signal == (if old(self).node(g as int).previous_signal == Signal::LOW_ { Signal::HIGH } else { Signal::LOW_ })
                &&& forall|j: int| 0 <= j < final(self).node(g as int).outputs().len() ==> #[trigger] final(self).node(g as int).current(j)
                    == final(self).node(g as int).previous_signal
            },
            old(self).wiring_kept(*final(self)),
    {
        let gate_type = self.gates[g].members.gate_type;
        let ghost c0 = *self;
        match gate_type {
            GateType::AutomaticInputType | GateType::ClockType => {
                let signal = if gate_type == GateType::AutomaticInputType {
                    if self.gates[g].values_to_be_output.len() == 0 {
                        return Err(GateLogicError::NoMoreAutomaticInputsRemaining);
                    }
                    let v = self.gates[g].values_to_be_output.remove(0);
                    assert(self.node(g as int).values_to_be_output@ =~= c0.node(g as int).values_to_be_output@.drop_first());
                    v
                } else {
                    let next = if self.gates[g].previous_signal == Signal::LOW_ {
                        Signal::HIGH
                    } else {
                        Signal::LOW_
                    };
                    self.gates[g].previous_signal = next;
                    next
                };
                let n = self.gates[g].members.output_states.len();
                let mut sigs: Vec<Signal> = Vec::new();
                let mut i: usize = 0;
                while i < n
                    invariant
                        i <= n,
                        sigs@.len() == i,
                        forall|j: int| 0 <= j < i ==> #[trigger] sigs@[j] == signal,
                    decreases n - i,
                {
                    sigs.push(signal);
                    i = i + 1;
                }
                self.gates[g].apply_signals(&sigs);
                proof {
                    assert(c0.node(g as int).wf());
                    assert forall|j: int| 0 <= j < self.node(g as int).outputs().len() implies #[trigger] self.node(g as int).current(j) == signal by {
                        assert(self.node(g as int).outputs()[j] == with_signal(c0.node(g as int).outputs()[j], sigs@[j]));
                    }
                    assert(self.shape() =~= c0.shape());
                    assert(self.types() =~= c0.types());
                    assert forall|h: int| 0 <= h < self.len() implies #[trigger] self.node(h).wf() by {
                        assert(c0.node(h).wf());
                    }
                    assert forall|h: int| 0 <= h < self.len() implies #[trigger] self.node(h).members.unique_id.id == h + 1 by {
                        assert(c0.node(h).members.unique_id.id == h + 1);
                    }
                    assert forall|h: int| 0 <= h < self.len() implies #[trigger] self.connections_wf(h) by {
                        assert(c0.connections_wf(h));
                        assert forall|j: int| 0 <= j < self.node(h).outputs().len() implies (
                        #[trigger] self.node(h).outputs()[j] matches GateOutputState::Connected(co) ==> {
                            &&& self.has_input(co.gate as int, co.throughput.input_index as int)
                            &&& co.throughput.sending_id == self.node(h).members.unique_id
                        }) by {
                            if h == g {
                                if let GateOutputState::Connected(co) = c0.node(h).outputs()[j] {
                                    assert(self.node(h).outputs()[j] matches GateOutputState::Connected(co2) && co2.gate == co.gate && co2.throughput.input_index == co.throughput.input_index && co2.throughput.sending_id == co.throughput.sending_id);
                                }
                            }
                        }
                    }
                    assert forall|t: int| 0 <= t < self.len() implies #[trigger] self.node(t).inputs() == c0.node(t).inputs() by {}
                    assert forall|h: int| 0 <= h < c0.len() && h != g && #[trigger] c0.gate_settled(h) implies self.gate_settled(h) by {
                        lemma_delivered_frame(c0, *self, h);
                        assert(self.node(h) == c0.node(h));
                    }
                    assert(self.node(g as int).evaluated()) by {
                        let n1 = self.node(g as int);
                        if let Ok(vals) = crate::logic::signals::spec_resolve_all(n1.inputs()) {
                            assert forall|i: int| 0 <= i < n1.outputs().len() implies #[trigger] n1.current(i) == n1.spec_outputs()->Ok_0[i] by {}
                        }
                    }
                }
                Ok(())
            },
            _ => self.evaluate_gate(g),
        }
    }

    /// Brings every gate up to date and lets all signals travel until the circuit is at rest.
    pub fn prime(&mut self) -> (res: Result<(), GateLogicError>)
        requires
            old(self).wf(),
        ensures
            final(self).wf(),
            final(self).shape() == old(self).shape(),
            final(self).types() == old(self).types(),
            final(self).clock_tick_number == old(self).clock_tick_number,
            res is Ok ==> final(self).settled(),
            res matches Err(e) ==> crate::logic::signals::is_run_failure(e) && failure_shown(*final(self), e),
            old(self).wiring_kept(*final(self)),
    {
        let mut queue: Vec<usize> = Vec::new();
        let mut g: usize = 0;
        while g < self.gates.len()
            invariant
                g <= self.len(),
                queue@.len() == g,
                forall|i: int| 0 <= i < g ==> #[trigger] queue@[i] == i,
            decreases self.len() - g,
        {
            queue.push(g);
            g = g + 1;
        }
        let ghost q = queue@;
        let res = self.propagate(queue);
        proof {
            if res is Ok {
                assert forall|h: int| 0 <= h < self.len() implies #[trigger] self.gate_settled(h) by {
                    assert(q[h] == h as usize);
                    assert(q.contains(h as usize));
                }
            }
        }
        res
    }

    /// Brings the gates from `start` on up to date and lets all signals travel until the
    /// circuit is at rest; gates that were settled stay settled.
    pub fn prime_from(&mut self, start: usize) -> (res: Result<(), GateLogicError>)
        requires
            old(self).wf(),
        ensures
            final(self).wf(),
            final(self).shape() == old(self).shape(),
            final(self).types() == old(self).types(),
            final(self).clock_tick_number == old(self).clock_tick_number,
            old(self).wiring_kept(*final(self)),
            res is Ok ==> forall|h: int| 0 <= h < old(self).len() && (start <= h || old(self).gate_settled(h))
                ==> #[trigger] final(self).gate_settled(h),
            res is Ok ==> old(self).feeds_kept(*final(self)),
            res is Ok ==> old(self).unlinked_kept(*final(self)),
            res matches Err(e) ==> crate::logic::signals::is_run_failure(e) && failure_shown(*final(self), e),
    {
        let mut queue: Vec<usize> = Vec::new();
        let mut g: usize = start;
        while g < self.gates.len()
            invariant
                start <= g,
                queue@.len() == g - start,
                forall|i: int| 0 <= i < queue@.len() ==> #[trigger] queue@[i] == start + i,
                forall|i: int| 0 <= i < queue@.len() ==> #[trigger] queue@[i] < self.len(),
            decreases self.len() - g,
        {
            queue.push(g);
            g = g + 1;
        }
        let ghost q = queue@;
        let res = self.propagate(queue);
        proof {
            if res is Ok {
                assert forall|h: int| 0 <= h < old(self).len() && (start <= h || old(self).gate_settled(h))
                    implies #[trigger] self.gate_settled(h) by {
                    if start <= h && !old(self).gate_settled(h) {
                        assert(q[h - start] == h as usize);
                        assert(q.contains(h as usize));
                    }
                }
            }
        }
        res
    }

    /// One clock tick: every gate of `input_gates` produces its next outputs (see
    /// `fetch_input_gate`), then the signals travel. Only the input gates are taken as changed,
    /// unless `propagate_signal_through_circuit` asks for every gate to be brought up to date.
    /// Returns false, letting no signal travel, when an automatic input has no value left; fails
    /// when two senders drive one input of a gate that is brought up to date, or when an input
    /// changes too often.
    pub fn run_circuit(&mut self, input_gates: &Vec<usize>, propagate_signal_through_circuit: bool) -> (res: Result<bool, GateLogicError>)
        requires
            old(self).wf(),
            forall|i: int| 0 <= i < input_gates@.len() ==> #[trigger] input_gates@[i] < old(self).len(),
        ensures
            final(self).wf(),
            final(self).shape() == old(self).shape(),
            final(self).types() == old(self).types(),
            final(self).clock_tick_number == old(self).clock_tick_number,
            res == Ok::<bool, GateLogicError>(true) ==> forall|h: int| 0 <= h < old(self).len() && (old(self).gate_settled(h)
                || input_gates@.contains(h as usize) || propagate_signal_through_circuit) ==> #[trigger] final(self).gate_settled(h),
            no_duplicates(input_gates@) ==> (res == Ok::<bool, GateLogicError>(false) ==> exists|i: int| 0 <= i < input_gates@.len()
                && old(self).node(#[trigger] input_gates@[i] as int).members.gate_type == GateType::AutomaticInputType
                && old(self).node(input_gates@[i] as int).values_to_be_output@.len() == 0),
            no_duplicates(input_gates@) && (forall|k: int| 0 <= k < input_gates@.len() ==> #[trigger] conflict_free_source(
                old(self).node(input_gates@[k] as int))) ==> ((exists|i: int| 0 <= i < input_gates@.len()
                && old(self).node(#[trigger] input_gates@[i] as int).members.gate_type == GateType::AutomaticInputType
                && old(self).node(input_gates@[i] as int).values_to_be_output@.len() == 0) ==> res == Ok::<bool, GateLogicError>(false)),
            res matches Err(e) ==> crate::logic::signals::is_run_failure(e) && failure_shown(*final(self), e),
            res == Ok::<bool, GateLogicError>(true) ==> old(self).feeds_kept(*final(self)),
            res == Ok::<bool, GateLogicError>(true) ==> old(self).unlinked_kept(*final(self)),
            old(self).wiring_kept(*final(self)),
    {
        let ghost c0 = *self;
        proof {
            crate::circuit::lemma_wiring_kept_refl(c0);
            crate::circuit::lemma_feeds_kept_refl(c0);
            crate::circuit::lemma_unlinked_kept_refl(c0);
        }
        let mut i: usize = 0;
        while i < input_gates.len()
            invariant
                c0 == *old(self),
                i <= input_gates@.len(),
                forall|k: int| 0 <= k < input_gates@.len() ==> #[trigger] input_gates@[k] < c0.len(),
                self.wf(),
                self.shape() == c0.shape(),
                self.types() == c0.types(),
                self.clock_tick_number == c0.clock_tick_number,
                self.len() == c0.len(),
                    forall|h: int| 0 <= h < c0.len() && c0.gate_settled(h) && !input_gates@.contains(h as usize) ==> #[trigger] self.gate_settled(h),
                forall|h: int| 0 <= h < c0.len() && !input_gates@.subrange(0, i as int).contains(h as usize) ==> #[trigger] self.node(h) == c0.node(h),
                no_duplicates(input_gates@) ==> forall|k: int| 0 <= k < i ==> !(#[trigger] c0.node(input_gates@[k] as int).members.gate_type == GateType::AutomaticInputType
                    && c0.node(input_gates@[k] as int).values_to_be_output@.len() == 0),
                no_duplicates(input_gates@) ==> forall|k: int| i <= k < input_gates@.len() ==> #[trigger] self.node(input_gates@[k] as int) == c0.node(input_gates@[k] as int),
                c0.wf(),
                c0.wiring_kept(*self),
                c0.feeds_kept(*self),
                c0.unlinked_kept(*self),
            decreases input_gates@.len() - i,
        {
            let g = input_gates[i];
            let ghost b = *self;
            let r = self.fetch_input_gate(g);
            proof {
                crate::circuit::lemma_wiring_kept_refl(c0);
                crate::circuit::lemma_wiring_kept_trans(c0, b, *self);
                assert forall|t: int, idx: int, id: UniqueID| b.fed_by(t, idx, id) && b.sole_sender(t, idx, id) implies #[trigger] self.fed_by(t, idx, id) by {
                    if t != g {
                        assert(self.node(t) == b.node(t));
                    }
                }
                crate::circuit::lemma_feeds_kept_trans(c0, b, *self);
                assert forall|t: int, idx: int| b.has_input(t, idx) && b.unlinked(t, idx) implies #[trigger] self.node(t).inputs()[idx]
                    == b.node(t).inputs()[idx] by {
                    if t != g {
                        assert(self.node(t) == b.node(t));
                    }
                }
                crate::circuit::lemma_unlinked_kept_trans(c0, b, *self);
                let pre = input_gates@.subrange(0, i as int);
                let pre2 = input_gates@.subrange(0, i as int + 1);
                assert(pre2 =~= pre.push(g));
                assert forall|h: usize| #[trigger] pre2.contains(h) == (pre.contains(h) || h == g) by {
                    if pre2.contains(h) && h != g {
                        let k = choose|k: int| 0 <= k < pre2.len() && pre2[k] == h;
                        assert(pre[k] == h);
                    }
                    if pre.contains(h) {
                        let k = choose|k: int| 0 <= k < pre.len() && pre[k] == h;
                        assert(pre2[k] == h);
                    }
                    if h == g {
                        assert(pre2[i as int] == h);
                    }
                }
            }
            if let Err(e) = r {
                proof {
                    if no_duplicates(input_gates@) {
                        assert(b.node(g as int) == c0.node(g as int));
                    }
                }
                if e == GateLogicError::NoMoreAutomaticInputsRemaining {
                    return Ok(false);
                }
                proof {
                    crate::logic::signals::lemma_run_failures();
                    reveal(failure_shown);
                    assert(has_conflict(*self, g as int));
                    if no_duplicates(input_gates@) && (forall|k: int| 0 <= k < input_gates@.len() ==> #[trigger] conflict_free_source(
                        c0.node(input_gates@[k] as int))) {
                        assert(conflict_free_source(c0.node(input_gates@[i as int] as int)));
                    }
                }
                return Err(e);
            }
            proof {
                assert forall|h: int| 0 <= h < c0.len() && c0.gate_settled(h) && !input_gates@.contains(h as usize)
                    implies #[trigger] self.gate_settled(h) by {
                    assert(input_gates@[i as int] == g);
                    assert(h != g);
                    assert(b.gate_settled(h));
                }
                let pre2 = input_gates@.subrange(0, i as int + 1);
                assert forall|h: int| 0 <= h < c0.len() && !pre2.contains(h as usize) implies #[trigger] self.node(h) == c0.node(h) by {
                    assert(h as usize != g);
                }
                if no_duplicates(input_gates@) {
                    assert(b.node(g as int) == c0.node(g as int));
                    assert forall|k: int| i + 1 <= k < input_gates@.len() implies #[trigger] self.node(input_gates@[k] as int) == c0.node(input_gates@[k] as int) by {
                        assert(input_gates@[k] != input_gates@[i as int]);
                        assert(b.node(input_gates@[k] as int) == c0.node(input_gates@[k] as int));
                    }
                }
            }
            i = i + 1;
        }
        let ghost b = *self;
        let mut queue: Vec<usize> = Vec::new();
        queue = copy_positions(input_gates);
        if propagate_signal_through_circuit {
            let n = input_gates.len();
            let mut g: usize = 0;
            while g < self.gates.len()
                invariant
                    n == input_gates@.len(),
                    g <= self.len(),
                    queue@.len() == n + g,
                    forall|k: int| 0 <= k < n ==> #[trigger] queue@[k] == input_gates@[k],
                    forall|k: int| 0 <= k < g ==> #[trigger] queue@[n + k] == k,
                decreases self.len() - g,
            {
                queue.push(g);
                g = g + 1;
            }
        }
        let ghost q = queue@;
        assert forall|k: int| 0 <= k < q.len() implies #[trigger] q[k] < self.len() by {
            if k < input_gates@.len() {
                assert(q[k] == input_gates@[k]);
            } else {
                assert(q[input_gates@.len() + (k - input_gates@.len())] == k - input_gates@.len());
            }
        }
        let r = self.propagate(queue);
        proof {
            crate::circuit::lemma_wiring_kept_refl(c0);
            crate::circuit::lemma_wiring_kept_trans(c0, b, *self);
            if r is Ok {
                crate::circuit::lemma_feeds_kept_trans(c0, b, *self);
                crate::circuit::lemma_unlinked_kept_trans(c0, b, *self);
            }
        }
        if let Err(e) = r {
            return Err(e);
        }
        proof {
            assert forall|h: int| 0 <= h < c0.len() && (c0.gate_settled(h)
                || input_gates@.contains(h as usize) || propagate_signal_through_circuit) implies #[trigger] self.gate_settled(h) by {
                if input_gates@.contains(h as usize) {
                    let i = choose|i: int| 0 <= i < input_gates@.len() && input_gates@[i] == h as usize;
                    assert(q[i] == h as usize);
                    assert(q.contains(h as usize));
                } else if propagate_signal_through_circuit {
                    assert(q[input_gates@.len() + h] == h as usize);
                    assert(q.contains(h as usize));
                } else {
                    assert(b.gate_settled(h));
                }
            }
        }
        Ok(true)
    }
}

/// A gate that, taken as an input of the circuit, never meets conflicting drivers: a clock, an
/// automatic input, or a gate whose inputs resolve.
pub open spec fn conflict_free_source(n: GateNode) -> bool {
    n.members.gate_type == GateType::AutomaticInputType || n.members.gate_type == GateType::ClockType
        || n.spec_outputs() is Ok
}

/// A copy of a list of gate positions.
pub fn copy_positions(positions: &Vec<usize>) -> (res: Vec<usize>)
    ensures
        res@ == positions@,
{
    let mut res: Vec<usize> = Vec::new();
    let mut i: usize = 0;
    while i < positions.len()
        invariant
            i <= positions@.len(),
            res@ == positions@.subrange(0, i as int),
        decreases positions@.len() - i,
    {
        res.push(positions[i]);
        i = i + 1;
    }
    assert(res@ =~= positions@);
    res
}

} // verus!

verus! {

impl Circuit {
    /// Records `input.signal` from `input.sending_id` on input `input.input_index` of gate `g`,
    /// counting the change for oscillation detection. An automatic input instead appends the
    /// signal to the values it will send.
    pub fn update_input_signal(&mut self, g: usize, input: GateInput) -> (res: Result<InputSignalReturn, GateLogicError>)
        requires
            old(self).wf(),
            old(self).has_input(g as int, input.input_index as int),
        ensures
            final(self).wf(),
            final(self).shape() == old(self).shape(),
            final(self).types() == old(self).types(),
            final(self).clock_tick_number == old(self).clock_tick_number,
            forall|h: int| 0 <= h < old(self).len() && h != g ==> #[trigger] final(self).node(h) == old(self).node(h),
            res is Err <==> old(self).node(g as int).members.gate_type != GateType::AutomaticInputType
                && input.sending_id.id != 0
                && old(self).node(g as int).members.oscillation_detection.current_tick == old(self).clock_tick_number
                && old(self).node(g as int).members.oscillation_detection.changed_count_this_tick + 1 > MAX_INPUT_CHANGES,
            old(self).node(g as int).members.gate_type == GateType::AutomaticInputType ==> {
                &&& final(self).node(g as int).values_to_be_output@ == old(self).node(g as int).values_to_be_output@.push(input.signal)
                &&& res matches Ok(r) && r.changed_count_this_tick == 1 && r.input_signal_updated
            },
            old(self).node(g as int).members.gate_type != GateType::AutomaticInputType ==> match res {
                Ok(r) => {
                    &&& final(self).node(g as int).inputs() == old(self).node(g as int).inputs().update(
                        input.input_index as int,
                        spec_set_entry(old(self).node(g as int).inputs()[input.input_index as int], input.sending_id, input.signal),
                    )
                    &&& r.input_signal_updated == !entries_ok(
                        old(self).node(g as int).inputs()[input.input_index as int],
                        input.sending_id,
                        input.signal,
                    )
                },
                Err(e) => e == GateLogicError::OscillationDetected && final(self).node(g as int).inputs() == old(self).node(g as int).inputs(),
            },
            old(self).wiring_kept(*final(self)),
    {
        let ghost c0 = *self;
        proof {
            assert(c0.node(g as int).wf());
        }
        if self.gates[g].members.gate_type == GateType::AutomaticInputType {
            self.gates[g].values_to_be_output.push(input.signal);
            proof {
                lemma_wf_after_input_update(c0, *self, g as int);
            }
            return Ok(InputSignalReturn { changed_count_this_tick: 1, input_signal_updated: true });
        }
        let tick = self.clock_tick_number;
        let r = self.gates[g].members.update_input_signal(input, tick);
        proof {
            lemma_wf_after_input_update(c0, *self, g as int);
            lemma_entries_view_update(c0.node(g as int).members.input_signals@, input.input_index as int, self.node(g as int).members.input_signals@[input.input_index as int]);
        }
        r
    }

    /// Brings the outputs of gate `g` up to date with its inputs and returns them. When two
    /// senders drive one of its inputs, nothing changes and the conflict is returned. A
    /// controlled buffer whose enable input is not HIGH returns its output states carrying
    /// `NONE` and keeps the states it holds.
    pub fn fetch_output_signals_calculate(&mut self, g: usize) -> (res: Result<Vec<GateOutputState>, GateLogicError>)
        requires
            old(self).wf(),
            g < old(self).len(),
        ensures
            final(self).wf(),
            final(self).shape() == old(self).shape(),
            final(self).types() == old(self).types(),
            final(self).clock_tick_number == old(self).clock_tick_number,
            forall|h: int| 0 <= h < old(self).len() && h != g ==> #[trigger] final(self).node(h) == old(self).node(h),
            final(self).node(g as int).inputs() == old(self).node(g as int).inputs(),
            res is Err <==> old(self).node(g as int).spec_outputs() is Err,
            res matches Err(e) ==> old(self).node(g as int).spec_outputs() == Err::<Seq<Signal>, GateLogicError>(e)
                && *final(self) == *old(self),
            old(self).node(g as int).is_disabled_buffer() ==> *final(self) == *old(self),
            !old(self).node(g as int).is_disabled_buffer() ==> (res matches Ok(v) ==> {
                &&& final(self).node(g as int).evaluated()
                &&& v@ == final(self).node(g as int).outputs()
            }),
            res matches Ok(v) ==> {
                &&& v@.len() == old(self).node(g as int).outputs().len()
                &&& forall|j: int| 0 <= j < v@.len() ==> #[trigger] v@[j] == with_signal(
                    old(self).node(g as int).outputs()[j],
                    old(self).node(g as int).spec_outputs()->Ok_0[j],
                )
            },
            old(self).wiring_kept(*final(self)),
    {
        let ghost c0 = *self;
        proof {
            assert(c0.node(g as int).wf());
            crate::circuit::lemma_wiring_kept_refl(c0);
        }
        if self.gates[g].disabled_buffer() {
            let n = self.gates[g].members.output_states.len();
            let mut out: Vec<GateOutputState> = Vec::new();
            let mut j: usize = 0;
            while j < n
                invariant
                    n == c0.node(g as int).outputs().len(),
                    *self == c0,
                    g < c0.len(),
                    j <= n,
                    out@.len() == j,
                    forall|i: int| 0 <= i < j ==> #[trigger] out@[i] == with_signal(c0.node(g as int).outputs()[i], Signal::NONE),
                decreases n - j,
            {
                out.push(set_signal(&self.gates[g].members.output_states[j], Signal::NONE));
                j = j + 1;
            }
            proof {
                let n0 = c0.node(g as int);
                let vals = crate::logic::signals::spec_resolve_all(n0.inputs())->Ok_0;
                assert forall|i: int| 0 <= i < n0.outputs().len() implies n0.spec_outputs()->Ok_0[i] == Signal::NONE by {
                    assert(n0.expected_output(vals, i) == Signal::NONE);
                }
            }
            return Ok(out);
        }
        match self.evaluate_gate(g) {
            Err(e) => Err(e),
            Ok(()) => {
                Ok(copy_output_states(&self.gates[g].members.output_states))
            },
        }
    }

    /// The outputs of gate `g` as they are. A controlled buffer, which holds nothing of its
    /// own, always reports what its inputs call for, unless they conflict.
    pub fn fetch_output_signals_no_calculate(&self, g: usize) -> (res: Vec<GateOutputState>)
        requires
            self.wf(),
            g < self.len(),
        ensures
            self.node(g as int).gate_type() == GateType::ControlledBufferType && self.node(g as int).spec_outputs() is Ok ==> {
                &&& res@.len() == self.node(g as int).outputs().len()
                &&& forall|j: int| 0 <= j < res@.len() ==> #[trigger] res@[j] == with_signal(
                    self.node(g as int).outputs()[j],
                    self.node(g as int).spec_outputs()->Ok_0[j],
                )
            },
            !(self.node(g as int).gate_type() == GateType::ControlledBufferType && self.node(g as int).spec_outputs() is Ok)
                ==> res@ == self.node(g as int).outputs(),
    {
        proof {
            assert(self.node(g as int).wf());
        }
        if self.gates[g].members.gate_type == GateType::ControlledBufferType {
            if let Ok(sigs) = self.gates[g].compute_output_signals() {
                let n = self.gates[g].members.output_states.len();
                let mut out: Vec<GateOutputState> = Vec::new();
                let mut j: usize = 0;
                while j < n
                    invariant
                        n == self.node(g as int).outputs().len(),
                        sigs@.len() == n,
                        g < self.len(),
                        j <= n,
                        out@.len() == j,
                        forall|i: int| 0 <= i < j ==> #[trigger] out@[i] == with_signal(self.node(g as int).outputs()[i], sigs@[i]),
                    decreases n - j,
                {
                    out.push(set_signal(&self.gates[g].members.output_states[j], sigs[j]));
                    j = j + 1;
                }
                return out;
            }
        }
        copy_output_states(&self.gates[g].members.output_states)
    }

    /// Lets a splitter send `signal` in place of `NONE`.
    pub fn set_pull_output(&mut self, g: usize, signal: Signal)
        requires
            old(self).wf(),
            g < old(self).len(),
        ensures
            final(self).wf(),
            final(self).shape() == old(self).shape(),
            final(self).types() == old(self).types(),
            final(self).clock_tick_number == old(self).clock_tick_number,
            forall|h: int| 0 <= h < old(self).len() && h != g ==> #[trigger] final(self).node(h) == old(self).node(h),
            final(self).node(g as int).pull_output == Some(signal),
            final(self).node(g as int).inputs() == old(self).node(g as int).inputs(),
            final(self).node(g as int).outputs() == old(self).node(g as int).outputs(),
            old(self).wiring_kept(*final(self)),
    {
        let ghost c0 = *self;
        proof {
            assert(c0.node(g as int).wf());
        }
        self.gates[g].pull_output = Some(signal);
        proof {
            lemma_wf_after_input_update(c0, *self, g as int);
        }
    }

    /// Sets the tag of gate `g`.
    pub fn set_tag(&mut self, g: usize, tag: &str)
        requires
            old(self).wf(),
            g < old(self).len(),
        ensures
            final(self).wf(),
            final(self).shape() == old(self).shape(),
            final(self).types() == old(self).types(),
            final(self).clock_tick_number == old(self).clock_tick_number,
            forall|h: int| 0 <= h < old(self).len() && h != g ==> #[trigger] final(self).node(h) == old(self).node(h),
            final(self).node(g as int).members.tag@ == tag@,
            same_logic(final(self).node(g as int), old(self).node(g as int)),
            old(self).wiring_kept(*final(self)),
    {
        let ghost c0 = *self;
        proof {
            assert(c0.node(g as int).wf());
        }
        self.gates[g].members.tag = tag.to_owned();
        proof {
            lemma_wf_after_input_update(c0, *self, g as int);
        }
    }

    /// The tag of gate `g`.
    pub fn get_tag(&self, g: usize) -> (res: String)
        requires
            g < self.len(),
        ensures
            res@ == self.node(g as int).members.tag@,
    {
        self.gates[g].members.tag.clone()
    }

    /// Sets the signal of a clock and of all its outputs.
    pub fn set_clock_state(&mut self, g: usize, clock_signal: Signal)
        requires
            old(self).wf(),
            g < old(self).len(),
        ensures
            final(self).wf(),
            final(self).shape() == old(self).shape(),
            final(self).types() == old(self).types(),
            final(self).clock_tick_number == old(self).clock_tick_number,
            forall|h: int| 0 <= h < old(self).len() && h != g ==> #[trigger] final(self).node(h) == old(self).node(h),
            final(self).node(g as int).previous_signal == clock_signal,
            final(self).node(g as int).outputs().len() == old(self).node(g as int).outputs().len(),
            forall|j: int| 0 <= j < old(self).node(g as int).outputs().len() ==> #[trigger] final(self).node(g as int).outputs()[j]
                == with_signal(old(self).node(g as int).outputs()[j], clock_signal),
            old(self).wiring_kept(*final(self)),
    {
        let ghost c0 = *self;
        proof {
            assert(c0.node(g as int).wf());
        }
        self.gates[g].previous_signal = clock_signal;
        crate::logic::foundations::set_all_gate_output_to_signal(&mut self.gates[g].members.output_states, clock_signal);
        proof {
            lemma_wf_after_signal_change(c0, *self, g as int);
        }
    }

    /// Disconnects output `current_output_index` of gate `g`: the entries from `g` leave the
    /// input it went to, and the output keeps its signal, unconnected.
    pub fn disconnect_gate(&mut self, g: usize, current_output_index: usize)
        requires
            old(self).wf(),
            old(self).has_output(g as int, current_output_index as int),
            old(self).node(g as int).outputs()[current_output_index as int] is Connected,
        ensures
            final(self).wf(),
            final(self).shape() == old(self).shape(),
            final(self).types() == old(self).types(),
            final(self).clock_tick_number == old(self).clock_tick_number,
            final(self).node(g as int).outputs()[current_output_index as int] == GateOutputState::NotConnected(
                output_signal(old(self).node(g as int).outputs()[current_output_index as int]),
            ),
            old(self).node(g as int).outputs()[current_output_index as int] matches GateOutputState::Connected(co) ==> {
                &&& final(self).node(co.gate as int).inputs() == old(self).node(co.gate as int).inputs().update(
                    co.throughput.input_index as int,
                    crate::logic::foundations::entries_after_disconnect(
                        old(self).node(co.gate as int).inputs()[co.throughput.input_index as int],
                        old(self).node(g as int).members.unique_id,
                    ),
                )
                &&& forall|h: int| 0 <= h < old(self).len() && h != co.gate ==> #[trigger] final(self).node(h).inputs() == old(self).node(h).inputs()
            },
    {
        let ghost c0 = *self;
        let state = self.gates[g].members.output_states[current_output_index];
        match state {
            GateOutputState::NotConnected(_) => {},
            GateOutputState::Connected(co) => {
                proof {
                    assert(c0.connections_wf(g as int));
                    assert(c0.node(g as int).outputs()[current_output_index as int] == state);
                    assert(c0.node(co.gate as int).wf());
                }
                let t = co.gate;
                let sending_id = self.gates[g].members.unique_id;
                self.gates[t].members.remove_connected_input(co.throughput.input_index, sending_id);
                let ghost mid = *self;
                proof {
                    lemma_wf_after_input_update(c0, mid, t as int);
                    lemma_entries_view_update(c0.node(t as int).members.input_signals@, co.throughput.input_index as int,
                        mid.node(t as int).members.input_signals@[co.throughput.input_index as int]);
                    assert(mid.node(t as int).members.input_signals@ == c0.node(t as int).members.input_signals@.update(
                        co.throughput.input_index as int, mid.node(t as int).members.input_signals@[co.throughput.input_index as int]));
                }
                self.gates[g].members.output_states.set(current_output_index, GateOutputState::NotConnected(co.throughput.signal));
                proof {
                    assert(self.shape() =~= mid.shape());
                    assert(self.types() =~= mid.types());
                    assert forall|h: int| 0 <= h < self.len() implies #[trigger] self.node(h).wf() by {
                        assert(mid.node(h).wf());
                    }
                    assert forall|h: int| 0 <= h < self.len() implies #[trigger] self.node(h).members.unique_id.id == h + 1 by {
                        assert(mid.node(h).members.unique_id.id == h + 1);
                    }
                    assert forall|h: int| 0 <= h < self.len() implies #[trigger] self.connections_wf(h) by {
                        assert(mid.connections_wf(h));
                        assert forall|j: int| 0 <= j < self.node(h).outputs().len() implies (
                        #[trigger] self.node(h).outputs()[j] matches GateOutputState::Connected(co2) ==> {
                            &&& self.has_input(co2.gate as int, co2.throughput.input_index as int)
                            &&& co2.throughput.sending_id == self.node(h).members.unique_id
                        }) by {
                            if h != g || j != current_output_index {
                                assert(self.node(h).outputs()[j] == mid.node(h).outputs()[j]);
                            }
                        }
                    }
                }
            },
        }
    }
}

/// Changing only the signals of the outputs of gate `t`, keeping where they go, keeps the
/// circuit well formed.
pub proof fn lemma_wf_after_signal_change(b: Circuit, a: Circuit, t: int)
    requires
        b.wf(),
        a.len() == b.len(),
        0 <= t < b.len(),
        forall|x: int| 0 <= x < b.len() && x != t ==> #[trigger] a.node(x) == b.node(x),
        a.node(t).outputs().len() == b.node(t).outputs().len(),
        forall|j: int| 0 <= j < b.node(t).outputs().len() ==> #[trigger] a.node(t).outputs()[j] == with_signal(b.node(t).outputs()[j], output_signal(a.node(t).outputs()[j])),
        a.node(t).members.gate_type == b.node(t).members.gate_type,
        a.node(t).outputs_per_input == b.node(t).outputs_per_input,
        a.node(t).members.unique_id == b.node(t).members.unique_id,
        a.node(t).members.input_signals@.len() == b.node(t).members.input_signals@.len(),
        a.node(t).members.oscillation_detection.wf(),
    ensures
        a.wf(),
        a.shape() == b.shape(),
        a.types() == b.types(),
        b.wiring_kept(a),
{
    assert forall|h: int| 0 <= h < a.len() implies #[trigger] a.node(h).wf() by {
        assert(b.node(h).wf());
    }
    assert forall|h: int| 0 <= h < a.len() implies #[trigger] a.shape()[h] == b.shape()[h] by {
        if h != t {
            assert(a.node(h) == b.node(h));
        }
    }
    assert forall|h: int| 0 <= h < a.len() implies #[trigger] a.types()[h] == b.types()[h] by {
        if h != t {
            assert(a.node(h) == b.node(h));
        }
    }
    assert(a.shape() =~= b.shape());
    assert(a.types() =~= b.types());
    assert forall|h: int| 0 <= h < a.len() implies #[trigger] a.node(h).members.unique_id.id == h + 1 by {
        assert(b.node(h).members.unique_id.id == h + 1);
    }
    assert forall|h: int| 0 <= h < a.len() implies #[trigger] a.connections_wf(h) by {
        assert(b.connections_wf(h));
        assert forall|j: int| 0 <= j < a.node(h).outputs().len() implies (
        #[trigger] a.node(h).outputs()[j] matches GateOutputState::Connected(co) ==> {
            &&& a.has_input(co.gate as int, co.throughput.input_index as int)
            &&& co.throughput.sending_id == a.node(h).members.unique_id
        }) by {
            if h == t {
                if let GateOutputState::Connected(co) = b.node(h).outputs()[j] {
                    assert(a.node(h).outputs()[j] matches GateOutputState::Connected(co2) && co2.gate == co.gate && co2.throughput.input_index == co.throughput.input_index && co2.throughput.sending_id == co.throughput.sending_id);
                }
            } else {
                assert(a.node(h) == b.node(h));
            }
        }
    }
    assert forall|h: int, j: int| b.has_output(h, j) implies #[trigger] a.link(h, j) == b.link(h, j) by {
        if h != t {
            assert(a.node(h) == b.node(h));
        } else {
            assert(a.node(t).outputs()[j] == with_signal(b.node(t).outputs()[j], output_signal(a.node(t).outputs()[j])));
        }
    }
}

} // verus!
