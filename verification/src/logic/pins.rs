use vstd::prelude::*;

use crate::circuit::Circuit;
use crate::logic::basic_gates::And;
use crate::logic::foundations::{shape_extends, types_extend, GateType};
use crate::logic::input_gates::SimpleInput;
use crate::logic::output_gates::SimpleOutput;
use crate::logic::tags::{numbered, numbered_tag};

verus! {

/// Gate `g` of `c` is a simple input with one output that goes nowhere yet.
pub open spec fn fresh_input(c: Circuit, g: int) -> bool {
    &&& c.shape()[g] == (1nat, 1nat)
    &&& c.types()[g] == GateType::SimpleInputType
    &&& c.wire(g, 0, None)
}

/// Gate `g` of `c` is a simple output whose output goes nowhere yet.
pub open spec fn fresh_output(c: Circuit, g: int) -> bool {
    &&& c.shape()[g] == (1nat, 1nat)
    &&& c.types()[g] == GateType::SimpleOutputType
    &&& c.wire(g, 0, None)
}

/// What every builder of pins keeps: the old gates, their wires and the clock.
pub open spec fn pins_added(c0: Circuit, c1: Circuit, count: nat) -> bool {
    &&& c1.wf()
    &&& c1.len() == c0.len() + count
    &&& c1.clock_tick_number == c0.clock_tick_number
    &&& shape_extends(c0.shape(), c1.shape())
    &&& types_extend(c0.types(), c1.types())
    &&& c0.wiring_kept(c1)
    &&& forall|g: int, j: int, d: Option<(int, int)>| c0.wire(g, j, d) ==> #[trigger] c1.wire(g, j, d)
}

/// Adds, for every `k` below `number_inputs_outputs`, an input tagged `i_<k>` and an output
/// tagged `o_<k>` right after it, and appends them and their tags to the lists.
pub fn build_simple_inputs_and_outputs(
    circuit: &mut Circuit,
    number_inputs_outputs: usize,
    input_gates: &mut Vec<usize>,
    input_tags: &mut Vec<String>,
    output_gates: &mut Vec<usize>,
    output_tags: &mut Vec<String>,
)
    requires
        old(circuit).wf(),
        old(circuit).len() + 2 * number_inputs_outputs < usize::MAX,
    ensures
        pins_added(*old(circuit), *final(circuit), 2 * number_inputs_outputs as nat),
        final(input_gates)@ == old(input_gates)@ + Seq::new(
            number_inputs_outputs as nat,
            |k: int| (old(circuit).len() + 2 * k) as usize,
        ),
        final(output_gates)@ == old(output_gates)@ + Seq::new(
            number_inputs_outputs as nat,
            |k: int| (old(circuit).len() + 2 * k + 1) as usize,
        ),
        final(input_tags)@.len() == old(input_tags)@.len() + number_inputs_outputs,
        final(output_tags)@.len() == old(output_tags)@.len() + number_inputs_outputs,
        forall|k: int| 0 <= k < old(input_tags)@.len() ==> #[trigger] final(input_tags)@[k] == old(input_tags)@[k],
        forall|k: int| 0 <= k < old(output_tags)@.len() ==> #[trigger] final(output_tags)@[k] == old(output_tags)@[k],
        forall|k: int|
            0 <= k < number_inputs_outputs ==> (#[trigger] final(input_tags)@[old(input_tags)@.len() + k])@ == numbered("i_"@, k),
        forall|k: int|
            0 <= k < number_inputs_outputs ==> (#[trigger] final(output_tags)@[old(output_tags)@.len() + k])@ == numbered("o_"@, k),
        forall|k: int| 0 <= k < number_inputs_outputs ==> #[trigger] fresh_input(*final(circuit), old(circuit).len() + 2 * k),
        forall|k: int| 0 <= k < number_inputs_outputs ==> #[trigger] fresh_output(*final(circuit), old(circuit).len() + 2 * k + 1),
{
    let ghost c0 = *circuit;
    let ghost ig0 = input_gates@;
    let ghost og0 = output_gates@;
    let ghost it0 = input_tags@;
    let ghost ot0 = output_tags@;
    let start = circuit.num_gates();
    let n = number_inputs_outputs;
    proof {
        crate::circuit::lemma_wiring_kept_refl(c0);
        assert(c0.shape().subrange(0, c0.shape().len() as int) =~= c0.shape());
        assert(c0.types().subrange(0, c0.types().len() as int) =~= c0.types());
    }
    let mut i: usize = 0;
    while i < n
        invariant
            c0 == *old(circuit),
            ig0 == old(input_gates)@,
            og0 == old(output_gates)@,
            it0 == old(input_tags)@,
            ot0 == old(output_tags)@,
            start == c0.len(),
            c0.shape().len() == start,
            start + 2 * n < usize::MAX,
            i <= n,
            pins_added(c0, *circuit, 2 * i as nat),
            input_gates@ == ig0 + Seq::new(i as nat, |k: int| (start + 2 * k) as usize),
            output_gates@ == og0 + Seq::new(i as nat, |k: int| (start + 2 * k + 1) as usize),
            input_tags@.len() == it0.len() + i,
            output_tags@.len() == ot0.len() + i,
            forall|k: int| 0 <= k < it0.len() ==> #[trigger] input_tags@[k] == it0[k],
            forall|k: int| 0 <= k < ot0.len() ==> #[trigger] output_tags@[k] == ot0[k],
            forall|k: int| 0 <= k < i ==> (#[trigger] input_tags@[it0.len() + k])@ == numbered("i_"@, k),
            forall|k: int| 0 <= k < i ==> (#[trigger] output_tags@[ot0.len() + k])@ == numbered("o_"@, k),
            forall|k: int| 0 <= k < i ==> #[trigger] fresh_input(*circuit, start + 2 * k),
            forall|k: int| 0 <= k < i ==> #[trigger] fresh_output(*circuit, start + 2 * k + 1),
        decreases n - i,
    {
        let ghost before = *circuit;
        let in_tag = numbered_tag("i_", i);
        let input = SimpleInput::new(circuit, 1, in_tag.as_str());
        let ghost mid = *circuit;
        let out_tag = numbered_tag("o_", i);
        let output = SimpleOutput::new(circuit, out_tag.as_str());
        proof {
            assert(mid.shape().subrange(0, before.shape().len() as int) =~= before.shape());
            assert(mid.types().subrange(0, before.types().len() as int) =~= before.types());
            assert(circuit.shape().subrange(0, mid.shape().len() as int) =~= mid.shape());
            assert(circuit.types().subrange(0, mid.types().len() as int) =~= mid.types());
            assert(circuit.shape().subrange(0, c0.shape().len() as int) =~= c0.shape()) by {
                assert(before.shape().subrange(0, c0.shape().len() as int) =~= c0.shape());
            }
            assert(circuit.types().subrange(0, c0.types().len() as int) =~= c0.types()) by {
                assert(before.types().subrange(0, c0.types().len() as int) =~= c0.types());
            }
            assert(mid.shape().subrange(0, c0.shape().len() as int) =~= c0.shape()) by {
                assert(before.shape().subrange(0, c0.shape().len() as int) =~= c0.shape());
            }
            assert(mid.types().subrange(0, c0.types().len() as int) =~= c0.types()) by {
                assert(before.types().subrange(0, c0.types().len() as int) =~= c0.types());
            }
            crate::circuit::lemma_wiring_kept_trans(c0, before, mid);
            crate::circuit::lemma_wiring_kept_trans(c0, mid, *circuit);
            assert forall|k: int| 0 <= k < i + 1 implies #[trigger] fresh_input(*circuit, start + 2 * k) by {
                if k < i {
                    assert(fresh_input(before, start + 2 * k));
                }
            }
            assert forall|k: int| 0 <= k < i + 1 implies #[trigger] fresh_output(*circuit, start + 2 * k + 1) by {
                if k < i {
                    assert(fresh_output(before, start + 2 * k + 1));
                }
            }
        }
        input_gates.push(input.gate);
        output_gates.push(output.gate);
        input_tags.push(in_tag);
        output_tags.push(out_tag);
        proof {
            assert(input_gates@ =~= ig0 + Seq::new(i as nat + 1, |k: int| (start + 2 * k) as usize));
            assert(output_gates@ =~= og0 + Seq::new(i as nat + 1, |k: int| (start + 2 * k + 1) as usize));
        }
        i = i + 1;
    }
}

/// Adds, for every `k` below `number_inputs_outputs`, an input tagged `i_<k>`, an output
/// tagged `o_<k>` and a two-input AND right after them; appends the pins and their tags to
/// the lists and the ANDs to `and_gates`.
pub fn build_simple_inputs_and_outputs_with_and(
    circuit: &mut Circuit,
    number_inputs_outputs: usize,
    input_gates: &mut Vec<usize>,
    input_tags: &mut Vec<String>,
    output_gates: &mut Vec<usize>,
    output_tags: &mut Vec<String>,
    and_gates: &mut Vec<And>,
)
    requires
        old(circuit).wf(),
        old(circuit).len() + 3 * number_inputs_outputs < usize::MAX,
    ensures
        pins_added(*old(circuit), *final(circuit), 3 * number_inputs_outputs as nat),
        final(input_gates)@ == old(input_gates)@ + Seq::new(
            number_inputs_outputs as nat,
            |k: int| (old(circuit).len() + 3 * k) as usize,
        ),
        final(output_gates)@ == old(output_gates)@ + Seq::new(
            number_inputs_outputs as nat,
            |k: int| (old(circuit).len() + 3 * k + 1) as usize,
        ),
        final(input_tags)@.len() == old(input_tags)@.len() + number_inputs_outputs,
        final(output_tags)@.len() == old(output_tags)@.len() + number_inputs_outputs,
        forall|k: int| 0 <= k < old(input_tags)@.len() ==> #[trigger] final(input_tags)@[k] == old(input_tags)@[k],
        forall|k: int| 0 <= k < old(output_tags)@.len() ==> #[trigger] final(output_tags)@[k] == old(output_tags)@[k],
        forall|k: int|
            0 <= k < number_inputs_outputs ==> (#[trigger] final(input_tags)@[old(input_tags)@.len() + k])@ == numbered("i_"@, k),
        forall|k: int|
            0 <= k < number_inputs_outputs ==> (#[trigger] final(output_tags)@[old(output_tags)@.len() + k])@ == numbered("o_"@, k),
        forall|k: int| 0 <= k < number_inputs_outputs ==> #[trigger] fresh_input(*final(circuit), old(circuit).len() + 3 * k),
        forall|k: int| 0 <= k < number_inputs_outputs ==> #[trigger] fresh_output(*final(circuit), old(circuit).len() + 3 * k + 1),
        final(and_gates)@.len() == old(and_gates)@.len() + number_inputs_outputs,
        forall|k: int| 0 <= k < old(and_gates)@.len() ==> #[trigger] final(and_gates)@[k] == old(and_gates)@[k],
        forall|k: int|
            0 <= k < number_inputs_outputs ==> (#[trigger] final(and_gates)@[old(and_gates)@.len() + k]).gate == old(circuit).len() + 3 * k + 2,
        forall|k: int|
            0 <= k < number_inputs_outputs ==> #[trigger] final(circuit).shape()[old(circuit).len() + 3 * k + 2] == (2nat, 1nat),
{
    let ghost c0 = *circuit;
    let ghost ig0 = input_gates@;
    let ghost og0 = output_gates@;
    let ghost it0 = input_tags@;
    let ghost ot0 = output_tags@;
    let ghost ag0 = and_gates@;
    let start = circuit.num_gates();
    let n = number_inputs_outputs;
    proof {
        crate::circuit::lemma_wiring_kept_refl(c0);
        assert(c0.shape().subrange(0, c0.shape().len() as int) =~= c0.shape());
        assert(c0.types().subrange(0, c0.types().len() as int) =~= c0.types());
    }
    let mut i: usize = 0;
    while i < n
        invariant
            c0 == *old(circuit),
            ig0 == old(input_gates)@,
            og0 == old(output_gates)@,
            it0 == old(input_tags)@,
            ot0 == old(output_tags)@,
            ag0 == old(and_gates)@,
            start == c0.len(),
            c0.shape().len() == start,
            start + 3 * n < usize::MAX,
            i <= n,
            pins_added(c0, *circuit, 3 * i as nat),
            input_gates@ == ig0 + Seq::new(i as nat, |k: int| (start + 3 * k) as usize),
            output_gates@ == og0 + Seq::new(i as nat, |k: int| (start + 3 * k + 1) as usize),
            input_tags@.len() == it0.len() + i,
            output_tags@.len() == ot0.len() + i,
            forall|k: int| 0 <= k < it0.len() ==> #[trigger] input_tags@[k] == it0[k],
            forall|k: int| 0 <= k < ot0.len() ==> #[trigger] output_tags@[k] == ot0[k],
            forall|k: int| 0 <= k < i ==> (#[trigger] input_tags@[it0.len() + k])@ == numbered("i_"@, k),
            forall|k: int| 0 <= k < i ==> (#[trigger] output_tags@[ot0.len() + k])@ == numbered("o_"@, k),
            forall|k: int| 0 <= k < i ==> #[trigger] fresh_input(*circuit, start + 3 * k),
            forall|k: int| 0 <= k < i ==> #[trigger] fresh_output(*circuit, start + 3 * k + 1),
            and_gates@.len() == ag0.len() + i,
            forall|k: int| 0 <= k < ag0.len() ==> #[trigger] and_gates@[k] == ag0[k],
            forall|k: int|
                0 <= k < i ==> (#[trigger] and_gates@[ag0.len() + k]).gate == start + 3 * k + 2,
            forall|k: int| 0 <= k < i ==> #[trigger] circuit.shape()[start + 3 * k + 2] == (2nat, 1nat),
        decreases n - i,
    {
        let ii = i;
        i = i + 1;
        let ghost before = *circuit;
        let in_tag = numbered_tag("i_", ii);
        let input = SimpleInput::new(circuit, 1, in_tag.as_str());
        let ghost mid = *circuit;
        let out_tag = numbered_tag("o_", ii);
        let output = SimpleOutput::new(circuit, out_tag.as_str());
        let ghost mid2 = *circuit;
        let and_gate = And::new(circuit, 2, 1);
        proof {
            assert(mid.shape().subrange(0, before.shape().len() as int) =~= before.shape());
            assert(mid.types().subrange(0, before.types().len() as int) =~= before.types());
            assert(mid2.shape().subrange(0, mid.shape().len() as int) =~= mid.shape());
            assert(mid2.types().subrange(0, mid.types().len() as int) =~= mid.types());
            assert(circuit.shape().subrange(0, mid2.shape().len() as int) =~= mid2.shape());
            assert(circuit.types().subrange(0, mid2.types().len() as int) =~= mid2.types());
            assert(mid2.shape().subrange(0, c0.shape().len() as int) =~= c0.shape()) by {
                assert(before.shape().subrange(0, c0.shape().len() as int) =~= c0.shape());
            }
            assert(mid2.types().subrange(0, c0.types().len() as int) =~= c0.types()) by {
                assert(before.types().subrange(0, c0.types().len() as int) =~= c0.types());
            }
            assert(circuit.shape().subrange(0, c0.shape().len() as int) =~= c0.shape()) by {
                assert(before.shape().subrange(0, c0.shape().len() as int) =~= c0.shape());
            }
            assert(circuit.types().subrange(0, c0.types().len() as int) =~= c0.types()) by {
                assert(before.types().subrange(0, c0.types().len() as int) =~= c0.types());
            }
            assert(mid.shape().subrange(0, c0.shape().len() as int) =~= c0.shape()) by {
                assert(before.shape().subrange(0, c0.shape().len() as int) =~= c0.shape());
            }
            assert(mid.types().subrange(0, c0.types().len() as int) =~= c0.types()) by {
                assert(before.types().subrange(0, c0.types().len() as int) =~= c0.types());
            }
            crate::circuit::lemma_wiring_kept_trans(c0, before, mid);
            crate::circuit::lemma_wiring_kept_trans(c0, mid, mid2);
            crate::circuit::lemma_wiring_kept_trans(c0, mid2, *circuit);
            assert forall|k: int| 0 <= k < i implies #[trigger] fresh_input(*circuit, start + 3 * k) by {
                if k < ii {
                    assert(fresh_input(before, start + 3 * k));
                }
            }
            assert forall|k: int| 0 <= k < i implies #[trigger] fresh_output(*circuit, start + 3 * k + 1) by {
                if k < ii {
                    assert(fresh_output(before, start + 3 * k + 1));
                }
            }
        }
        input_gates.push(input.gate);
        output_gates.push(output.gate);
        input_tags.push(in_tag);
        output_tags.push(out_tag);
        let ghost ag_before = and_gates@;
        and_gates.push(and_gate);
        proof {
            let g_new = start + 3 * ii + 2;
            assert(and_gate.gate == g_new);
            assert(circuit.node(g_new).outputs()[0] == crate::logic::foundations::GateOutputState::NotConnected(circuit.node(g_new).outputs()[0]->NotConnected_0));
            assert(circuit.wire(g_new, 0, None));
            assert(input_gates@ =~= ig0 + Seq::new(i as nat, |k: int| (start + 3 * k) as usize));
            assert(output_gates@ =~= og0 + Seq::new(i as nat, |k: int| (start + 3 * k + 1) as usize));
            assert forall|k: int| 0 <= k < i implies (#[trigger] and_gates@[ag0.len() + k]).gate == start + 3 * k + 2 by {
                if k < ii {
                    assert(ag_before[ag0.len() + k].gate == start + 3 * k + 2);
                }
            }
            assert forall|k: int| 0 <= k < i implies #[trigger] circuit.shape()[start + 3 * k + 2] == (2nat, 1nat) by {
                if k < ii {
                    let g = start + 3 * k + 2;
                    assert(before.shape()[g] == (2nat, 1nat));
                    assert(circuit.shape().subrange(0, before.shape().len() as int)[g] == circuit.shape()[g]);
                    assert(circuit.types().subrange(0, before.types().len() as int)[g] == circuit.types()[g]);
                } else {
                    assert(mid2.shape().len() == mid2.len());
                }
            }
        }
    }
}

/// Adds, for every `k` below `number_inputs_outputs`, an output tagged `reg_<k>`, and appends
/// them and their tags to the lists.
pub fn push_reg_outputs_to_output_gates(
    circuit: &mut Circuit,
    number_inputs_outputs: usize,
    output_gates: &mut Vec<usize>,
    output_tags: &mut Vec<String>,
)
    requires
        old(circuit).wf(),
        old(circuit).len() + number_inputs_outputs < usize::MAX,
    ensures
        pins_added(*old(circuit), *final(circuit), number_inputs_outputs as nat),
        final(output_gates)@ == old(output_gates)@ + Seq::new(
            number_inputs_outputs as nat,
            |k: int| (old(circuit).len() + k) as usize,
        ),
        final(output_tags)@.len() == old(output_tags)@.len() + number_inputs_outputs,
        forall|k: int| 0 <= k < old(output_tags)@.len() ==> #[trigger] final(output_tags)@[k] == old(output_tags)@[k],
        forall|k: int|
            0 <= k < number_inputs_outputs ==> (#[trigger] final(output_tags)@[old(output_tags)@.len() + k])@ == numbered("reg_"@, k),
        forall|k: int| 0 <= k < number_inputs_outputs ==> #[trigger] fresh_output(*final(circuit), old(circuit).len() + k),
{
    let ghost c0 = *circuit;
    let ghost og0 = output_gates@;
    let ghost ot0 = output_tags@;
    let start = circuit.num_gates();
    let n = number_inputs_outputs;
    proof {
        crate::circuit::lemma_wiring_kept_refl(c0);
        assert(c0.shape().subrange(0, c0.shape().len() as int) =~= c0.shape());
        assert(c0.types().subrange(0, c0.types().len() as int) =~= c0.types());
    }
    let mut i: usize = 0;
    while i < n
        invariant
            c0 == *old(circuit),
            og0 == old(output_gates)@,
            ot0 == old(output_tags)@,
            start == c0.len(),
            c0.shape().len() == start,
            start + n < usize::MAX,
            i <= n,
            pins_added(c0, *circuit, i as nat),
            output_gates@ == og0 + Seq::new(i as nat, |k: int| (start + k) as usize),
            output_tags@.len() == ot0.len() + i,
            forall|k: int| 0 <= k < ot0.len() ==> #[trigger] output_tags@[k] == ot0[k],
            forall|k: int| 0 <= k < i ==> (#[trigger] output_tags@[ot0.len() + k])@ == numbered("reg_"@, k),
            forall|k: int| 0 <= k < i ==> #[trigger] fresh_output(*circuit, start + k),
        decreases n - i,
    {
        let ghost before = *circuit;
        let out_tag = numbered_tag("reg_", i);
        let output = SimpleOutput::new(circuit, out_tag.as_str());
        proof {
            assert(circuit.shape().subrange(0, before.shape().len() as int) =~= before.shape());
            assert(circuit.types().subrange(0, before.types().len() as int) =~= before.types());
            assert(circuit.shape().subrange(0, c0.shape().len() as int) =~= c0.shape()) by {
                assert(before.shape().subrange(0, c0.shape().len() as int) =~= c0.shape());
            }
            assert(circuit.types().subrange(0, c0.types().len() as int) =~= c0.types()) by {
                assert(before.types().subrange(0, c0.types().len() as int) =~= c0.types());
            }
            crate::circuit::lemma_wiring_kept_trans(c0, before, *circuit);
            assert forall|k: int| 0 <= k < i + 1 implies #[trigger] fresh_output(*circuit, start + k) by {
                if k < i {
                    assert(fresh_output(before, start + k));
                }
            }
        }
        output_gates.push(output.gate);
        output_tags.push(out_tag);
        proof {
            assert(output_gates@ =~= og0 + Seq::new(i as nat + 1, |k: int| (start + k) as usize));
        }
        i = i + 1;
    }
}

} // verus!
