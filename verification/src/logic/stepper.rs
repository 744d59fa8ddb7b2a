use vstd::prelude::*;

use crate::circuit::{settled_from, Circuit};
use crate::logic::basic_gates::{And, Not, Or};
use crate::logic::foundations::{
    complex_fits,
    last_tag_index,
    lemma_shape_extends_trans,
    lemma_types_extend_trans,
    shape_extends,
    types_extend,
    ComplexGateMembers,
    GateOutputState,
    GateType,
    LogicGate,
};
use crate::logic::input_gates::SimpleInput;
use crate::logic::memory_gates::OneBitMemoryCell;
use crate::logic::output_gates::SimpleOutput;
use crate::logic::signals::{GateInput, GateLogicError, Signal, UniqueID};
use crate::logic::tags::{numbered, numbered_tag};

verus! {

/// Where output `o_<k>` of a stepper standing at `start` is; its NOT follows it.
pub open spec fn stepper_out(start: int, k: int) -> int {
    if k == 0 {
        start
    } else {
        start + 19 * k - 17
    }
}

/// Where the AND of stage `k` (below the last stage) is.
pub open spec fn stepper_and(start: int, k: int) -> int {
    start + 19 * k + 4
}

/// Where the one-output memory cell of stage `k` of a stepper of `n` outputs is.
pub open spec fn stepper_even_cell(start: int, n: int, k: int) -> int {
    if k < n - 1 {
        start + 19 * k + 5
    } else {
        start + 19 * k + 2
    }
}

/// Where the other memory cell of stage `k` is: three outputs, or five in the last stage.
pub open spec fn stepper_odd_cell(start: int, n: int, k: int) -> int {
    if k < n - 1 {
        start + 19 * k + 12
    } else {
        start + 19 * k + 9
    }
}

/// What drives `o_<k>` by its output 0: the OR for stage 0, else the AND of the stage
/// before.
pub open spec fn stepper_next(start: int, n: int, k: int) -> int {
    if k == 0 {
        start + 19 * n + 2
    } else {
        stepper_and(start, k - 1)
    }
}

/// Block `i`, from 1 on, of a stepper at `start`: `o_<i>`, its NOT, the AND of stage `i - 1`
/// and the two memory cells of stage `i - 1`.
pub open spec fn stepper_block(c: Circuit, start: int, i: int) -> bool {
    let b = start + 19 * i - 17;
    &&& c.shape()[b] == (1nat, 1nat)
    &&& c.types()[b] == GateType::SimpleOutputType
    &&& c.shape()[b + 1] == (1nat, 1nat)
    &&& c.shape()[b + 2] == (2nat, 1nat)
    &&& c.shape()[b + 3] == (1nat, 1nat)
    &&& c.shape()[b + 4] == (1nat, 2nat)
    &&& c.shape()[b + 5] == (1nat, 1nat)
    &&& c.shape()[b + 10] == (1nat, 1nat)
    &&& c.shape()[b + 11] == (1nat, 2nat)
    &&& c.shape()[b + 12] == (1nat, 1nat)
    &&& c.shape()[b + 13] == (1nat, 1nat)
    &&& c.shape()[b + 14] == (1nat, 1nat)
}

/// The pins that stage `k` of a stepper of `n` outputs standing at `start` in `c` uses.
pub open spec fn stepper_pins(c: Circuit, start: int, n: int, k: int) -> bool {
    let e = stepper_even_cell(start, n, k);
    let o = stepper_odd_cell(start, n, k);
    &&& c.shape()[stepper_out(start, k)] == (1nat, 1nat)
    &&& c.types()[stepper_out(start, k)] == GateType::SimpleOutputType
    &&& c.shape()[stepper_out(start, k) + 1] == (1nat, 1nat)
    &&& c.shape()[e] == (1nat, 1nat)
    &&& c.shape()[e + 1] == (1nat, 2nat)
    &&& c.shape()[e + 2] == (1nat, 1nat)
    &&& c.shape()[o] == (1nat, 1nat)
    &&& c.shape()[o + 1] == (1nat, 2nat)
    &&& c.shape()[o + 2] == (1nat, 1nat)
    &&& c.shape()[o + 3] == (1nat, 1nat)
    &&& c.shape()[o + 4] == (1nat, 1nat)
    &&& k < n - 1 ==> c.shape()[stepper_and(start, k)] == (2nat, 1nat)
    &&& k == n - 1 ==> c.shape()[o + 5] == (1nat, 1nat) && c.shape()[o + 6] == (1nat, 1nat)
}

/// The control gates of a stepper of `n` outputs standing at `start` in `c`: `CLK`, the
/// output OR, the top and bottom clock ORs, the NOT of the clock and the NOT that feeds the
/// first cell.
pub open spec fn stepper_control_pins(c: Circuit, start: int, n: int) -> bool {
    let x = start + 19 * n;
    &&& c.len() == x + 7
    &&& c.shape()[x + 1] == (1nat, 2nat)
    &&& c.types()[x + 1] == GateType::SimpleInputType
    &&& c.shape()[x + 2] == (2nat, 1nat)
    &&& c.shape()[x + 3] == (2nat, n as nat)
    &&& c.shape()[x + 4] == (2nat, n as nat)
    &&& c.shape()[x + 5] == (1nat, 1nat)
    &&& c.shape()[x + 6] == (1nat, 1nat)
}

/// Stage `k` of a stepper of `n` outputs standing at `start` in `c` is wired: the top clock OR
/// enables the first cell, which sets the second, enabled by the bottom clock OR; the NOT of
/// the second cell's `Q_1` and its `Q_2` pass through what drives `o_<k>`. Below the last
/// stage, the second cell's `Q` sets the first cell of the next stage.
pub open spec fn stepper_stage_wired(c: Circuit, start: int, n: int, k: int) -> bool {
    let e = stepper_even_cell(start, n, k);
    let o = stepper_odd_cell(start, n, k);
    let out = stepper_out(start, k);
    let next = stepper_next(start, n, k);
    &&& c.wire(start + 19 * n + 3, k, Some((e + 1, 0int)))
    &&& c.wire(e + 2, 0, Some((o, 0int)))
    &&& c.wire(start + 19 * n + 4, k, Some((o + 1, 0int)))
    &&& c.wire(next, 0, Some((out, 0int)))
    &&& c.wire(out + 1, 0, Some((next, 1int)))
    &&& k < n - 1 ==> {
        &&& c.wire(o + 3, 0, Some((out + 1, 0int)))
        &&& c.wire(o + 4, 0, Some((stepper_and(start, k), 0int)))
        &&& c.wire(o + 2, 0, Some((stepper_even_cell(start, n, k + 1), 0int)))
    }
}

/// The control wires of a stepper of `n` outputs standing at `start` in `c`: `CLK` feeds the
/// top clock OR and, through a NOT, the bottom one; the last cell's `Q` goes to the last NOT,
/// `Q_1` to the output OR, `Q_2` through a NOT to the first cell, `Q_3` and `Q_4` to the clock
/// ORs.
pub open spec fn stepper_controls_wired(c: Circuit, start: int, n: int) -> bool {
    let x = start + 19 * n;
    let o = stepper_odd_cell(start, n, n - 1);
    &&& c.wire(x + 1, 0, Some((x + 3, 1int)))
    &&& c.wire(x + 1, 1, Some((x + 5, 0int)))
    &&& c.wire(x + 5, 0, Some((x + 4, 1int)))
    &&& c.wire(x + 6, 0, Some((stepper_even_cell(start, n, 0), 0int)))
    &&& c.wire(o + 2, 0, Some((stepper_out(start, n - 1) + 1, 0int)))
    &&& c.wire(o + 3, 0, Some((x + 2, 0int)))
    &&& c.wire(o + 4, 0, Some((x + 6, 0int)))
    &&& c.wire(o + 5, 0, Some((x + 3, 0int)))
    &&& c.wire(o + 6, 0, Some((x + 4, 0int)))
}

/// The memory cells of stage `k` of a stepper of `n` outputs standing at `start` are
/// `cells[2 * k]` and `cells[2 * k + 1]`, with their inputs `E` and `S` where the layout puts
/// them.
pub open spec fn stepper_cells_at(cells: Seq<OneBitMemoryCell>, start: int, n: int, k: int) -> bool {
    let e = stepper_even_cell(start, n, k);
    let o = stepper_odd_cell(start, n, k);
    &&& cells[2 * k].complex_gate.input_gates@ == seq![(e + 1) as usize, e as usize]
    &&& cells[2 * k + 1].complex_gate.input_gates@ == seq![(o + 1) as usize, o as usize]
}

/// A block kept while the circuit only grows is kept.
proof fn lemma_block_kept(c1: Circuit, c2: Circuit, start: int, i: int)
    requires
        stepper_block(c1, start, i),
        0 <= start,
        1 <= i,
        start + 19 * i - 2 <= c1.shape().len(),
        c1.types().len() == c1.shape().len(),
        shape_extends(c1.shape(), c2.shape()),
        types_extend(c1.types(), c2.types()),
    ensures
        stepper_block(c2, start, i),
{
    let b = start + 19 * i - 17;
    assert(c2.shape()[b] == c1.shape()[b]);
    assert(c2.types()[b] == c1.types()[b]);
    assert(c2.shape()[b + 1] == c1.shape()[b + 1]);
    assert(c2.shape()[b + 2] == c1.shape()[b + 2]);
    assert(c2.shape()[b + 3] == c1.shape()[b + 3]);
    assert(c2.shape()[b + 4] == c1.shape()[b + 4]);
    assert(c2.shape()[b + 5] == c1.shape()[b + 5]);
    assert(c2.shape()[b + 10] == c1.shape()[b + 10]);
    assert(c2.shape()[b + 11] == c1.shape()[b + 11]);
    assert(c2.shape()[b + 12] == c1.shape()[b + 12]);
    assert(c2.shape()[b + 13] == c1.shape()[b + 13]);
    assert(c2.shape()[b + 14] == c1.shape()[b + 14]);
}

/// Output `j` of gate `g` is one that wiring stage `k` of a stepper of `n` outputs standing at
/// `start` connects.
pub open spec fn stepper_stage_output(start: int, n: int, k: int, g: int, j: int) -> bool {
    let x = start + 19 * n;
    let o = stepper_odd_cell(start, n, k);
    ||| (g == x + 3 || g == x + 4) && j == k
    ||| j == 0 && (g == stepper_even_cell(start, n, k) + 2 || g == stepper_next(start, n, k) || g == stepper_out(start, k) + 1)
    ||| j == 0 && k < n - 1 && o + 2 <= g <= o + 4
}

/// Wiring one stage keeps the wires of every other stage.
proof fn lemma_stage_kept(c1: Circuit, c2: Circuit, start: int, n: int, m: int, k: int)
    requires
        0 <= start,
        2 <= n,
        0 <= m < n,
        0 <= k < n,
        m != k,
        stepper_stage_wired(c1, start, n, m),
        c2.shape() == c1.shape(),
        forall|g: int, j: int| c1.has_output(g, j) && !stepper_stage_output(start, n, k, g, j) ==> #[trigger] c2.link(g, j) == c1.link(g, j),
    ensures
        stepper_stage_wired(c2, start, n, m),
{
    let x = start + 19 * n;
    let e = stepper_even_cell(start, n, m);
    let o = stepper_odd_cell(start, n, m);
    let out = stepper_out(start, m);
    let next = stepper_next(start, n, m);
    assert(c2.link(x + 3, m) == c1.link(x + 3, m));
    assert(c2.link(e + 2, 0) == c1.link(e + 2, 0));
    assert(c2.link(x + 4, m) == c1.link(x + 4, m));
    assert(c2.link(next, 0) == c1.link(next, 0));
    assert(c2.link(out + 1, 0) == c1.link(out + 1, 0));
    if m < n - 1 {
        assert(c2.link(o + 3, 0) == c1.link(o + 3, 0));
        assert(c2.link(o + 4, 0) == c1.link(o + 4, 0));
        assert(c2.link(o + 2, 0) == c1.link(o + 2, 0));
    }
}

/// Wiring a stage keeps the control wires.
proof fn lemma_controls_kept(c1: Circuit, c2: Circuit, start: int, n: int, k: int)
    requires
        0 <= start,
        2 <= n,
        0 <= k < n,
        stepper_controls_wired(c1, start, n),
        c2.shape() == c1.shape(),
        forall|g: int, j: int| c1.has_output(g, j) && !stepper_stage_output(start, n, k, g, j) ==> #[trigger] c2.link(g, j) == c1.link(g, j),
    ensures
        stepper_controls_wired(c2, start, n),
{
    let x = start + 19 * n;
    let o = stepper_odd_cell(start, n, n - 1);
    assert(c2.link(x + 1, 0) == c1.link(x + 1, 0));
    assert(c2.link(x + 1, 1) == c1.link(x + 1, 1));
    assert(c2.link(x + 5, 0) == c1.link(x + 5, 0));
    assert(c2.link(x + 6, 0) == c1.link(x + 6, 0));
    assert(c2.link(o + 2, 0) == c1.link(o + 2, 0));
    assert(c2.link(o + 3, 0) == c1.link(o + 3, 0));
    assert(c2.link(o + 4, 0) == c1.link(o + 4, 0));
    assert(c2.link(o + 5, 0) == c1.link(o + 5, 0));
    assert(c2.link(o + 6, 0) == c1.link(o + 6, 0));
}

/// A stepper of `number_outputs` outputs `o_<k>`: exactly one output is HIGH at a time, and
/// each full cycle of `CLK` (LOW, then HIGH) moves it one output on, from the last back to the
/// first. Each stage is a pair of memory cells clocked on opposite halves of `CLK`; the last
/// cell feeds back to the first.
pub struct VariableOutputStepper {
    pub complex_gate: ComplexGateMembers,
    pub mem_cells: Vec<OneBitMemoryCell>,
    pub output_and_gates: Vec<And>,
    pub output_not_gates: Vec<Not>,
    pub output_or_gate: Or,
    pub clk_top_or_gate: Or,
    pub clk_bottom_or_gate: Or,
    pub clk_bottom_not_gate: Not,
    pub mem_one_not_gate: Not,
}

impl VariableOutputStepper {
    /// The number of circuit gates a stepper of `n` outputs uses.
    pub open spec fn spec_len(n: nat) -> nat {
        19 * n + 7
    }

    /// Where the pins and the parts of a stepper of `n` outputs standing at `start` are.
    pub open spec fn positions(&self, start: int, n: nat) -> bool {
        let nn = n as int;
        let x = start + 19 * nn;
        &&& self.complex_gate.input_gates@ == seq![(x + 1) as usize]
        &&& self.complex_gate.output_gates@ == Seq::new(n, |k: int| stepper_out(start, k) as usize)
        &&& self.complex_gate.gate_type == GateType::VariableOutputStepperType
        &&& self.mem_cells@.len() == 2 * nn
        &&& forall|k: int| 0 <= k < nn ==> #[trigger] stepper_cells_at(self.mem_cells@, start, nn, k)
        &&& self.output_not_gates@.len() == nn
        &&& forall|k: int| 0 <= k < nn ==> (#[trigger] self.output_not_gates@[k]).gate == stepper_out(start, k) + 1
        &&& self.output_and_gates@.len() == nn - 1
        &&& forall|k: int| 0 <= k < nn - 1 ==> (#[trigger] self.output_and_gates@[k]).gate == stepper_and(start, k)
        &&& self.output_or_gate.gate == x + 2
        &&& self.clk_top_or_gate.gate == x + 3
        &&& self.clk_bottom_or_gate.gate == x + 4
        &&& self.clk_bottom_not_gate.gate == x + 5
        &&& self.mem_one_not_gate.gate == x + 6
    }

    /// The gates of this stepper stand from `start` on in `c`, with `CLK` and `o_<k>` tagged,
    /// but not yet wired to each other.
    pub open spec fn laid_out(&self, c: Circuit, start: int, n: nat) -> bool {
        let nn = n as int;
        &&& self.positions(start, n)
        &&& complex_fits(&self.complex_gate, c.shape(), c.types())
        &&& self.complex_gate.tag_names() == seq!["CLK"@] + Seq::new(n, |k: int| numbered("o_"@, k))
        &&& self.complex_gate.tags_laid_out()
        &&& stepper_control_pins(c, start, nn)
        &&& forall|k: int| 0 <= k < nn ==> #[trigger] stepper_pins(c, start, nn, k)
    }

    /// This stepper stands at gates `start..start + 19 * n + 7` of `c`, its control wires and
    /// every stage wired as `stepper_controls_wired` and `stepper_stage_wired` say.
    pub open spec fn wired(&self, c: Circuit, start: int, n: nat) -> bool {
        let nn = n as int;
        &&& self.positions(start, n)
        &&& stepper_controls_wired(c, start, nn)
        &&& forall|k: int| 0 <= k < nn ==> #[trigger] stepper_stage_wired(c, start, nn, k)
    }

    /// Wired as above, with its pins in the circuit and tagged `CLK` and `o_<k>`.
    pub open spec fn built(&self, c: Circuit, start: int, n: nat) -> bool {
        &&& self.wired(c, start, n)
        &&& complex_fits(&self.complex_gate, c.shape(), c.types())
        &&& self.complex_gate.tag_names() == seq!["CLK"@] + Seq::new(n, |k: int| numbered("o_"@, k))
        &&& self.complex_gate.tags_laid_out()
    }
}

impl VariableOutputStepper {
    /// Adds the gates of a stepper of `number_outputs` outputs, priming each memory cell as it
    /// is added, without wiring them to each other.
    #[verifier::spinoff_prover]
    #[verifier::rlimit(100)]
    fn assemble(circuit: &mut Circuit, number_outputs: usize) -> (res: Result<Self, GateLogicError>)
        requires
            old(circuit).wf(),
            number_outputs >= 2,
            old(circuit).len() + 19 * number_outputs + 7 < usize::MAX,
        ensures
            final(circuit).wf(),
            final(circuit).clock_tick_number == old(circuit).clock_tick_number,
            old(circuit).wiring_kept(*final(circuit)),
            forall|g: int, j: int, d: Option<(int, int)>| old(circuit).wire(g, j, d) ==> #[trigger] final(circuit).wire(g, j, d),
            match res {
                Ok(gate) => {
                    &&& shape_extends(old(circuit).shape(), final(circuit).shape())
                    &&& types_extend(old(circuit).types(), final(circuit).types())
                    &&& gate.laid_out(*final(circuit), old(circuit).len() as int, number_outputs as nat)
                },
                Err(e) => crate::run_circuit::failure_shown(*final(circuit), e),
            },
    {
        let ghost c0 = *circuit;
        let start = circuit.num_gates();
        let n = number_outputs;
        proof {
            crate::circuit::lemma_wiring_kept_refl(c0);
            assert(c0.shape().len() == c0.len());
            assert(c0.types().len() == c0.len());
            assert(c0.types().subrange(0, c0.types().len() as int) =~= c0.types());
        }
        let mut output_gates: Vec<usize> = Vec::new();
        let mut output_tags: Vec<String> = Vec::new();
        let mut nots: Vec<Not> = Vec::new();
        let mut ands: Vec<And> = Vec::new();
        let mut cells: Vec<OneBitMemoryCell> = Vec::new();
        let first_tag = numbered_tag("o_", 0);
        let first_out = SimpleOutput::new(circuit, first_tag.as_str());
        let first_not = Not::new(circuit, 1);
        let ghost c1 = *circuit;
        proof {
            assert(c1.shape() =~= c0.shape() + seq![(1nat, 1nat), (1nat, 1nat)]);
            assert(c1.types() =~= c0.types() + seq![GateType::SimpleOutputType, GateType::NotType]);
            assert(c1.shape().subrange(0, c0.shape().len() as int) =~= c0.shape());
            assert(c1.types().subrange(0, c0.types().len() as int) =~= c0.types());
        }
        output_gates.push(first_out.gate);
        output_tags.push(first_tag);
        nots.push(first_not);
        proof {
            assert(output_gates@ =~= Seq::new(1nat, |k: int| stepper_out(start as int, k) as usize));
        }
        let mut i: usize = 1;
        while i < n
            invariant
                c0 == *old(circuit),
                start == c0.len(),
                c0.shape().len() == start,
                c0.types().len() == start,
                start + 19 * n + 7 < usize::MAX,
                2 <= n,
                1 <= i <= n,
                circuit.wf(),
                circuit.len() == start + 19 * i - 17,
                circuit.clock_tick_number == c0.clock_tick_number,
                shape_extends(c0.shape(), circuit.shape()),
                types_extend(c0.types(), circuit.types()),
                c0.wiring_kept(*circuit),
                forall|g: int, j: int, d: Option<(int, int)>| c0.wire(g, j, d) ==> #[trigger] circuit.wire(g, j, d),
                circuit.shape()[start as int] == (1nat, 1nat),
                circuit.types()[start as int] == GateType::SimpleOutputType,
                circuit.shape()[start + 1] == (1nat, 1nat),
                forall|m: int| 1 <= m < i ==> #[trigger] stepper_block(*circuit, start as int, m),
                output_gates@ == Seq::new(i as nat, |k: int| stepper_out(start as int, k) as usize),
                output_tags@.len() == i,
                forall|k: int| 0 <= k < i ==> (#[trigger] output_tags@[k])@ == numbered("o_"@, k),
                nots@.len() == i,
                forall|k: int| 0 <= k < i ==> (#[trigger] nots@[k]).gate == stepper_out(start as int, k) + 1,
                ands@.len() == i - 1,
                forall|k: int| 0 <= k < i - 1 ==> (#[trigger] ands@[k]).gate == stepper_and(start as int, k),
                cells@.len() == 2 * (i - 1),
                forall|k: int| 0 <= k < i - 1 ==> #[trigger] stepper_cells_at(cells@, start as int, n as int, k),
            decreases n - i,
        {
            let ghost before = *circuit;
            let o_tag = numbered_tag("o_", i);
            let output = SimpleOutput::new(circuit, o_tag.as_str());
            let not_gate = Not::new(circuit, 1);
            let and_gate = And::new(circuit, 2, 1);
            let ghost mid = *circuit;
            proof {
                assert(before.shape().len() == before.len());
                assert(before.types().len() == before.len());
                assert(mid.shape() =~= before.shape() + seq![(1nat, 1nat), (1nat, 1nat), (2nat, 1nat)]);
                assert(mid.types() =~= before.types() + seq![GateType::SimpleOutputType, GateType::NotType, GateType::AndType]);
                assert(mid.shape().subrange(0, before.shape().len() as int) =~= before.shape());
                assert(mid.types().subrange(0, before.types().len() as int) =~= before.types());
                lemma_shape_extends_trans(c0.shape(), before.shape(), mid.shape());
                lemma_types_extend_trans(c0.types(), before.types(), mid.types());
                crate::circuit::lemma_wiring_kept_trans(c0, before, mid);
            }
            let first = match OneBitMemoryCell::new(circuit, 1) {
                Ok(cell) => cell,
                Err(e) => {
                    proof {
                        crate::circuit::lemma_wiring_kept_trans(c0, mid, *circuit);
                    }
                    return Err(e);
                },
            };
            let ghost mid2 = *circuit;
            proof {
                assert(mid.shape().len() == mid.len());
                assert(mid2.shape().subrange(0, mid.shape().len() as int) =~= mid.shape());
                lemma_shape_extends_trans(c0.shape(), mid.shape(), mid2.shape());
                crate::circuit::lemma_wiring_kept_trans(c0, mid, mid2);
            }
            let second = match OneBitMemoryCell::new(circuit, 3) {
                Ok(cell) => cell,
                Err(e) => {
                    proof {
                        crate::circuit::lemma_wiring_kept_trans(c0, mid2, *circuit);
                    }
                    return Err(e);
                },
            };
            let ghost after = *circuit;
            proof {
                assert(mid2.shape().len() == mid2.len());
                assert(mid2.types().len() == mid2.len());
                assert(mid.types().len() == mid.len());
                assert(after.shape() =~= before.shape() + seq![(1nat, 1nat), (1nat, 1nat), (2nat, 1nat)]
                    + OneBitMemoryCell::spec_shape(1) + OneBitMemoryCell::spec_shape(3));
                assert(after.types() =~= before.types() + seq![GateType::SimpleOutputType, GateType::NotType, GateType::AndType]
                    + OneBitMemoryCell::spec_types(1) + OneBitMemoryCell::spec_types(3));
                assert(after.shape().subrange(0, before.shape().len() as int) =~= before.shape());
                assert(after.types().subrange(0, before.types().len() as int) =~= before.types());
                lemma_shape_extends_trans(c0.shape(), before.shape(), after.shape());
                lemma_types_extend_trans(c0.types(), before.types(), after.types());
                crate::circuit::lemma_wiring_kept_trans(c0, mid2, after);
                assert(stepper_block(after, start as int, i as int));
                assert forall|m: int| 1 <= m < i + 1 implies #[trigger] stepper_block(after, start as int, m) by {
                    if m < i {
                        lemma_block_kept(before, after, start as int, m);
                    }
                }
                assert(after.shape()[start as int] == before.shape()[start as int]);
                assert(after.types()[start as int] == before.types()[start as int]);
                assert(after.shape()[start + 1] == before.shape()[start + 1]);
            }
            let ghost old_cells = cells@;
            output_gates.push(output.gate);
            output_tags.push(o_tag);
            nots.push(not_gate);
            ands.push(and_gate);
            cells.push(first);
            cells.push(second);
            proof {
                assert(output_gates@ =~= Seq::new(i as nat + 1, |k: int| stepper_out(start as int, k) as usize));
                assert forall|k: int| 0 <= k < i implies #[trigger] stepper_cells_at(cells@, start as int, n as int, k) by {
                    if k < i - 1 {
                        assert(stepper_cells_at(old_cells, start as int, n as int, k));
                        assert(cells@[2 * k] == old_cells[2 * k]);
                        assert(cells@[2 * k + 1] == old_cells[2 * k + 1]);
                    } else {
                        assert(mid.len() == start + 19 * k + 5);
                        assert(mid2.len() == start + 19 * k + 12);
                        assert(first.wired(mid2, mid.len() as int, 1));
                        assert(second.wired(after, mid2.len() as int, 3));
                        assert(cells@[2 * k] == first);
                        assert(cells@[2 * k + 1] == second);
                    }
                }
            }
            i = i + 1;
        }
        let ghost c2 = *circuit;
        let last_first = match OneBitMemoryCell::new(circuit, 1) {
            Ok(cell) => cell,
            Err(e) => {
                proof {
                    crate::circuit::lemma_wiring_kept_trans(c0, c2, *circuit);
                }
                return Err(e);
            },
        };
        let ghost c3 = *circuit;
        proof {
            assert(c2.shape().len() == c2.len());
            assert(c3.shape().subrange(0, c2.shape().len() as int) =~= c2.shape());
            lemma_shape_extends_trans(c0.shape(), c2.shape(), c3.shape());
            crate::circuit::lemma_wiring_kept_trans(c0, c2, c3);
        }
        let last_second = match OneBitMemoryCell::new(circuit, 5) {
            Ok(cell) => cell,
            Err(e) => {
                proof {
                    crate::circuit::lemma_wiring_kept_trans(c0, c3, *circuit);
                }
                return Err(e);
            },
        };
        let ghost c4 = *circuit;
        let clk_tag = "CLK".to_owned();
        let clk = SimpleInput::new(circuit, 2, clk_tag.as_str());
        let output_or_gate = Or::new(circuit, 2, 1);
        let clk_top_or_gate = Or::new(circuit, 2, n);
        let clk_bottom_or_gate = Or::new(circuit, 2, n);
        let clk_bottom_not_gate = Not::new(circuit, 1);
        let mem_one_not_gate = Not::new(circuit, 1);
        let ghost c5 = *circuit;
        proof {
            assert(c2.types().len() == c2.len());
            assert(c3.shape().len() == c3.len());
            assert(c3.types().len() == c3.len());
            assert(c4.shape().len() == c4.len());
            assert(c4.types().len() == c4.len());
            assert(c5.shape() =~= c2.shape() + OneBitMemoryCell::spec_shape(1) + OneBitMemoryCell::spec_shape(5) + seq![
                (1nat, 2nat),
                (2nat, 1nat),
                (2nat, n as nat),
                (2nat, n as nat),
                (1nat, 1nat),
                (1nat, 1nat),
            ]);
            assert(c5.types() =~= c2.types() + OneBitMemoryCell::spec_types(1) + OneBitMemoryCell::spec_types(5) + seq![
                GateType::SimpleInputType,
                GateType::OrType,
                GateType::OrType,
                GateType::OrType,
                GateType::NotType,
                GateType::NotType,
            ]);
            assert(c5.shape().subrange(0, c2.shape().len() as int) =~= c2.shape());
            assert(c5.types().subrange(0, c2.types().len() as int) =~= c2.types());
            lemma_shape_extends_trans(c0.shape(), c2.shape(), c5.shape());
            lemma_types_extend_trans(c0.types(), c2.types(), c5.types());
            assert(c5.shape().subrange(0, c4.shape().len() as int) =~= c4.shape());
            crate::circuit::lemma_wiring_kept_trans(c0, c3, c4);
            assert(c4.shape().subrange(0, c2.shape().len() as int) =~= c2.shape());
            lemma_shape_extends_trans(c0.shape(), c2.shape(), c4.shape());
            crate::circuit::lemma_wiring_kept_trans(c0, c4, c5);
        }
        let mut input_gates: Vec<usize> = Vec::new();
        input_gates.push(clk.gate);
        let mut input_tags: Vec<String> = Vec::new();
        input_tags.push(clk_tag);
        let ghost loop_cells = cells@;
        cells.push(last_first);
        cells.push(last_second);
        let ghost otags = output_tags@;
        let complex_gate = ComplexGateMembers::from_tags(
            circuit,
            GateType::VariableOutputStepperType,
            input_gates,
            output_gates,
            input_tags,
            output_tags,
        );
        let gate = VariableOutputStepper {
            complex_gate,
            mem_cells: cells,
            output_and_gates: ands,
            output_not_gates: nots,
            output_or_gate,
            clk_top_or_gate,
            clk_bottom_or_gate,
            clk_bottom_not_gate,
            mem_one_not_gate,
        };
        proof {
            let st = start as int;
            let nn = n as int;
            assert(c2.len() == st + 19 * nn - 17);
            assert(c5.shape()[st] == c2.shape()[st]);
            assert(c5.types()[st] == c2.types()[st]);
            assert(c5.shape()[st + 1] == c2.shape()[st + 1]);
            assert forall|m: int| 1 <= m < nn implies #[trigger] stepper_block(c5, st, m) by {
                assert(stepper_block(c2, st, m));
                lemma_block_kept(c2, c5, st, m);
            }
            assert(last_first.wired(c3, st + 19 * nn - 17, 1));
            assert(last_second.wired(c4, st + 19 * nn - 10, 5));
            assert forall|k: int| 0 <= k < nn implies #[trigger] stepper_pins(c5, st, nn, k) by {
                if k > 0 {
                    assert(stepper_block(c5, st, k));
                }
                if k < nn - 1 {
                    assert(stepper_block(c5, st, k + 1));
                }
            }
            assert(gate.complex_gate.tag_names() =~= seq!["CLK"@] + Seq::new(n as nat, |k: int| numbered("o_"@, k)));
            assert forall|k: int| 0 <= k < nn implies #[trigger] stepper_cells_at(gate.mem_cells@, st, nn, k) by {
                if k < nn - 1 {
                    assert(stepper_cells_at(loop_cells, st, nn, k));
                    assert(gate.mem_cells@[2 * k] == loop_cells[2 * k]);
                    assert(gate.mem_cells@[2 * k + 1] == loop_cells[2 * k + 1]);
                } else {
                    assert(gate.mem_cells@[2 * k] == last_first);
                    assert(gate.mem_cells@[2 * k + 1] == last_second);
                }
            }
            assert forall|i: int| 0 <= i < gate.complex_gate.output_gates@.len() implies {
                let g = #[trigger] gate.complex_gate.output_gates@[i] as int;
                0 <= g < c5.shape().len() && c5.shape()[g].1 >= 1 && c5.types()[g] == GateType::SimpleOutputType
            } by {
                assert(stepper_pins(c5, st, nn, i));
            }
            assert(gate.positions(st, n as nat));
            assert(gate.laid_out(c5, st, n as nat));
        }
        Ok(gate)
    }
}

impl VariableOutputStepper {
    /// Connects the control gates of a stepper of `n` outputs whose gates stand from `start` on.
    #[verifier::spinoff_prover]
    fn connect_controls(circuit: &mut Circuit, start: usize, n: usize)
        requires
            old(circuit).wf(),
            2 <= n,
            start + 19 * n + 7 < usize::MAX,
            stepper_control_pins(*old(circuit), start as int, n as int),
            stepper_pins(*old(circuit), start as int, n as int, 0),
            stepper_pins(*old(circuit), start as int, n as int, n - 1),
        ensures
            final(circuit).wf(),
            final(circuit).shape() == old(circuit).shape(),
            final(circuit).types() == old(circuit).types(),
            final(circuit).clock_tick_number == old(circuit).clock_tick_number,
            forall|g: int, j: int| old(circuit).has_output(g, j) && g < start ==> #[trigger] final(circuit).link(g, j) == old(circuit).link(g, j),
            stepper_controls_wired(*final(circuit), start as int, n as int),
    {
        let x = start + 19 * n;
        let o = start + 19 * n - 10;
        let last_not = start + 19 * n - 35;
        proof {
            assert(stepper_odd_cell(start as int, n as int, n - 1) == o);
            assert(stepper_out(start as int, n - 1) + 1 == last_not);
            assert(stepper_even_cell(start as int, n as int, 0) == start + 5);
        }
        circuit.connect(x + 1, 0, x + 3, 1);
        circuit.connect(x + 1, 1, x + 5, 0);
        circuit.connect(x + 5, 0, x + 4, 1);
        circuit.connect(x + 6, 0, start + 5, 0);
        circuit.connect(o + 2, 0, last_not, 0);
        circuit.connect(o + 3, 0, x + 2, 0);
        circuit.connect(o + 4, 0, x + 6, 0);
        circuit.connect(o + 5, 0, x + 3, 0);
        circuit.connect(o + 6, 0, x + 4, 0);
        proof {
            assert(circuit.wire(x + 1, 0, Some(((x + 3) as int, 1int))));
            assert(circuit.wire(x + 1, 1, Some(((x + 5) as int, 0int))));
            assert(circuit.wire(x + 5, 0, Some(((x + 4) as int, 1int))));
            assert(circuit.wire(x + 6, 0, Some(((start + 5) as int, 0int))));
            assert(circuit.wire(o + 2, 0, Some((last_not as int, 0int))));
            assert(circuit.wire(o + 3, 0, Some(((x + 2) as int, 0int))));
            assert(circuit.wire(o + 4, 0, Some(((x + 6) as int, 0int))));
            assert(circuit.wire(o + 5, 0, Some(((x + 3) as int, 0int))));
            assert(stepper_controls_wired(*circuit, start as int, n as int));
        }
    }

    /// Connects stage `k` of a stepper of `n` outputs whose gates stand from `start` on.
    #[verifier::spinoff_prover]
    #[verifier::rlimit(40)]
    fn connect_stage(circuit: &mut Circuit, start: usize, n: usize, k: usize)
        requires
            old(circuit).wf(),
            2 <= n,
            k < n,
            start + 19 * n + 7 < usize::MAX,
            stepper_control_pins(*old(circuit), start as int, n as int),
            forall|m: int| 0 <= m < n ==> #[trigger] stepper_pins(*old(circuit), start as int, n as int, m),
        ensures
            final(circuit).wf(),
            final(circuit).shape() == old(circuit).shape(),
            final(circuit).types() == old(circuit).types(),
            final(circuit).clock_tick_number == old(circuit).clock_tick_number,
            forall|g: int, j: int|
                old(circuit).has_output(g, j) && !stepper_stage_output(start as int, n as int, k as int, g, j)
                    ==> #[trigger] final(circuit).link(g, j) == old(circuit).link(g, j),
            stepper_stage_wired(*final(circuit), start as int, n as int, k as int),
    {
        let x = start + 19 * n;
        let last = k + 1 == n;
        let e = if last { start + 19 * k + 2 } else { start + 19 * k + 5 };
        let o = if last { start + 19 * k + 9 } else { start + 19 * k + 12 };
        let out = if k == 0 { start } else { start + 19 * k - 17 };
        let next = if k == 0 { x + 2 } else { start + 19 * (k - 1) + 4 };
        proof {
            assert(stepper_pins(*old(circuit), start as int, n as int, k as int));
            if k > 0 {
                assert(stepper_pins(*old(circuit), start as int, n as int, k - 1));
            }
            if !last {
                assert(stepper_pins(*old(circuit), start as int, n as int, k + 1));
            }
        }
        circuit.connect(e + 2, 0, o, 0);
        circuit.connect(x + 3, k, e + 1, 0);
        if !last {
            let next_cell = if k + 2 == n { start + 19 * (k + 1) + 2 } else { start + 19 * (k + 1) + 5 };
            circuit.connect(o + 2, 0, next_cell, 0);
        }
        circuit.connect(x + 4, k, o + 1, 0);
        if !last {
            circuit.connect(o + 3, 0, out + 1, 0);
            circuit.connect(o + 4, 0, start + 19 * k + 4, 0);
        }
        circuit.connect(next, 0, out, 0);
        circuit.connect(out + 1, 0, next, 1);
    }

    /// Connects every stage of a stepper of `n` outputs whose gates stand from `start` on,
    /// keeping its control wires.
    #[verifier::spinoff_prover]
    #[verifier::rlimit(40)]
    fn connect_stages(circuit: &mut Circuit, start: usize, n: usize)
        requires
            old(circuit).wf(),
            2 <= n,
            start + 19 * n + 7 < usize::MAX,
            stepper_control_pins(*old(circuit), start as int, n as int),
            forall|m: int| 0 <= m < n ==> #[trigger] stepper_pins(*old(circuit), start as int, n as int, m),
            stepper_controls_wired(*old(circuit), start as int, n as int),
        ensures
            final(circuit).wf(),
            final(circuit).shape() == old(circuit).shape(),
            final(circuit).types() == old(circuit).types(),
            final(circuit).clock_tick_number == old(circuit).clock_tick_number,
            forall|g: int, j: int| old(circuit).has_output(g, j) && g < start ==> #[trigger] final(circuit).link(g, j) == old(circuit).link(g, j),
            stepper_controls_wired(*final(circuit), start as int, n as int),
            forall|m: int| 0 <= m < n ==> #[trigger] stepper_stage_wired(*final(circuit), start as int, n as int, m),
    {
        let ghost c0 = *circuit;
        let mut k: usize = 0;
        while k < n
            invariant
                2 <= n,
                start + 19 * n + 7 < usize::MAX,
                k <= n,
                circuit.wf(),
                circuit.shape() == c0.shape(),
                circuit.types() == c0.types(),
                circuit.clock_tick_number == c0.clock_tick_number,
                stepper_control_pins(c0, start as int, n as int),
                forall|m: int| 0 <= m < n ==> #[trigger] stepper_pins(c0, start as int, n as int, m),
                forall|g: int, j: int| c0.has_output(g, j) && g < start ==> #[trigger] circuit.link(g, j) == c0.link(g, j),
                stepper_controls_wired(*circuit, start as int, n as int),
                forall|m: int| 0 <= m < k ==> #[trigger] stepper_stage_wired(*circuit, start as int, n as int, m),
            decreases n - k,
        {
            let ghost before = *circuit;
            proof {
                assert(stepper_control_pins(before, start as int, n as int));
                assert forall|m: int| 0 <= m < n implies #[trigger] stepper_pins(before, start as int, n as int, m) by {
                    assert(stepper_pins(c0, start as int, n as int, m));
                }
            }
            Self::connect_stage(circuit, start, n, k);
            proof {
                lemma_controls_kept(before, *circuit, start as int, n as int, k as int);
                assert forall|m: int| 0 <= m < k + 1 implies #[trigger] stepper_stage_wired(*circuit, start as int, n as int, m) by {
                    if m < k {
                        lemma_stage_kept(before, *circuit, start as int, n as int, m, k as int);
                    }
                }
                assert forall|g: int, j: int| c0.has_output(g, j) && g < start implies #[trigger] circuit.link(g, j) == c0.link(g, j) by {
                    assert(before.link(g, j) == c0.link(g, j));
                    assert(!stepper_stage_output(start as int, n as int, k as int, g, j));
                }
            }
            k = k + 1;
        }
    }
}

impl VariableOutputStepper {
    /// Adds a stepper of `number_outputs` outputs to the circuit, wires it and primes it; the
    /// memory cells are primed as they are added. Fails only when priming does not come to rest or two senders drive one input.
    #[verifier::spinoff_prover]
    #[verifier::rlimit(100)]
    pub fn new(circuit: &mut Circuit, number_outputs: usize) -> (res: Result<Self, GateLogicError>)
        requires
            old(circuit).wf(),
            number_outputs >= 2,
            old(circuit).len() + 19 * number_outputs + 7 < usize::MAX,
        ensures
            final(circuit).wf(),
            final(circuit).clock_tick_number == old(circuit).clock_tick_number,
            old(circuit).wiring_kept(*final(circuit)),
            forall|g: int, j: int, d: Option<(int, int)>| old(circuit).wire(g, j, d) ==> #[trigger] final(circuit).wire(g, j, d),
            match res {
                Ok(gate) => {
                    &&& final(circuit).len() == old(circuit).len() + Self::spec_len(number_outputs as nat)
                    &&& shape_extends(old(circuit).shape(), final(circuit).shape())
                    &&& types_extend(old(circuit).types(), final(circuit).types())
                    &&& gate.built(*final(circuit), old(circuit).len() as int, number_outputs as nat)
                    &&& settled_from(*final(circuit), old(circuit).len() as int)
                },
                Err(e) => crate::run_circuit::failure_shown(*final(circuit), e),
            },
    {
        let ghost c0 = *circuit;
        let start = circuit.num_gates();
        let n = number_outputs;
        let mut gate = match Self::assemble(circuit, n) {
            Ok(gate) => gate,
            Err(e) => {
                return Err(e);
            },
        };
        let ghost c5 = *circuit;
        proof {
            assert(stepper_pins(c5, start as int, n as int, 0));
            assert(stepper_pins(c5, start as int, n as int, n - 1));
        }
        let forced = circuit.update_input_signal(start + 19 * n + 2, GateInput::new(1, Signal::HIGH, UniqueID::zero_id()));
        let ghost c6 = *circuit;
        proof {
            crate::circuit::lemma_wire_kept(c5, c6);
            crate::circuit::lemma_wiring_kept_trans(c0, c5, c6);
        }
        if let Err(e) = forced {
            return Err(e);
        }
        proof {
            assert forall|m: int| 0 <= m < n implies #[trigger] stepper_pins(c6, start as int, n as int, m) by {
                assert(stepper_pins(c5, start as int, n as int, m));
            }
        }
        Self::connect_controls(circuit, start, n);
        let ghost c7 = *circuit;
        proof {
            assert forall|m: int| 0 <= m < n implies #[trigger] stepper_pins(c7, start as int, n as int, m) by {
                assert(stepper_pins(c6, start as int, n as int, m));
            }
        }
        Self::connect_stages(circuit, start, n);
        let ghost c8 = *circuit;
        proof {
            assert forall|g: int, j2: int| c0.has_output(g, j2) implies #[trigger] circuit.link(g, j2) == c0.link(g, j2) by {
                assert(c5.has_output(g, j2));
                assert(c5.shape().subrange(0, c0.shape().len() as int)[g] == c5.shape()[g]);
                assert(c6.link(g, j2) == c0.link(g, j2));
                assert(c7.link(g, j2) == c6.link(g, j2));
            }
            crate::circuit::lemma_wire_kept_grown(c0, c8);
        }
        gate.complex_gate.number_child_gates = 19 * n + 7;
        proof {
            assert(gate.positions(start as int, n as nat));
            assert(gate.wired(c8, start as int, n as nat));
            assert(gate.built(c8, start as int, n as nat));
        }
        let primed = circuit.prime_from(start);
        proof {
            crate::circuit::lemma_wire_kept(c8, *circuit);
            crate::circuit::lemma_wiring_kept_trans(c0, c8, *circuit);
            assert forall|m: int| 0 <= m < n implies #[trigger] stepper_stage_wired(*circuit, start as int, n as int, m) by {
                assert(stepper_stage_wired(c8, start as int, n as int, m));
            }
            assert(stepper_controls_wired(c8, start as int, n as int));
            assert(gate.wired(*circuit, start as int, n as nat));
            assert(gate.built(*circuit, start as int, n as nat));
        }
        match primed {
            Ok(()) => Ok(gate),
            Err(e) => Err(e),
        }
    }
}

impl LogicGate for VariableOutputStepper {
    open spec fn spec_input_pin(&self, index: int) -> (int, int) {
        (self.complex_gate.input_gates@[index] as int, 0)
    }

    open spec fn spec_output_pin(&self, index: int) -> (int, int) {
        (self.complex_gate.output_gates@[index] as int, 0)
    }

    open spec fn spec_num_inputs(&self) -> nat {
        self.complex_gate.input_gates@.len()
    }

    open spec fn spec_num_outputs(&self) -> nat {
        self.complex_gate.output_gates@.len()
    }

    open spec fn spec_gate_type(&self) -> GateType {
        self.complex_gate.gate_type
    }

    open spec fn spec_unique_id(&self) -> UniqueID {
        self.complex_gate.unique_id
    }

    fn input_pin(&self, index: usize) -> (res: (usize, usize)) {
        (self.complex_gate.input_gates[index], 0)
    }

    fn output_pin(&self, index: usize) -> (res: (usize, usize)) {
        (self.complex_gate.output_gates[index], 0)
    }

    fn num_inputs(&self) -> (res: usize) {
        self.complex_gate.input_gates.len()
    }

    fn num_outputs(&self) -> (res: usize) {
        self.complex_gate.output_gates.len()
    }

    fn get_gate_type(&self) -> (res: GateType) {
        self.complex_gate.gate_type
    }

    fn get_unique_id(&self) -> (res: UniqueID) {
        self.complex_gate.unique_id
    }
}

impl VariableOutputStepper {
    /// The input or output index that `tag` names.
    pub fn get_index_from_tag(&self, tag: &str) -> (res: Option<usize>)
        ensures
            res == last_tag_index(self.complex_gate.gate_tags_to_index@, tag@),
    {
        self.complex_gate.get_index_from_tag(tag)
    }

    /// Brings the outputs up to date with what reaches them and returns their states.
    pub fn fetch_output_signals(&self, circuit: &mut Circuit) -> (res: Vec<GateOutputState>)
        requires
            old(circuit).wf(),
            complex_fits(&self.complex_gate, old(circuit).shape(), old(circuit).types()),
        ensures
            final(circuit).wf(),
            final(circuit).shape() == old(circuit).shape(),
            final(circuit).types() == old(circuit).types(),
            old(circuit).wiring_kept(*final(circuit)),
            res@.len() == self.complex_gate.output_gates@.len(),
            forall|i: int| 0 <= i < res@.len() ==> #[trigger] res@[i] == final(circuit).node(self.complex_gate.output_gates@[i] as int).outputs()[0],
    {
        proof {
            assert forall|i: int| 0 <= i < self.complex_gate.output_gates@.len() implies #[trigger] old(circuit).has_output(self.complex_gate.output_gates@[i] as int, 0) by {}
        }
        self.complex_gate.fetch_output_signals_calculate(circuit)
    }

    pub fn get_tag(&self) -> (res: String)
        ensures
            res@ == self.complex_gate.tag@,
    {
        self.complex_gate.tag.clone()
    }

    pub fn set_tag(&mut self, tag: &str)
        ensures
            final(self).complex_gate.tag@ == tag@,
            final(self).complex_gate.input_gates == old(self).complex_gate.input_gates,
            final(self).complex_gate.output_gates == old(self).complex_gate.output_gates,
            final(self).complex_gate.gate_tags_to_index == old(self).complex_gate.gate_tags_to_index,
    {
        self.complex_gate.tag = tag.to_owned();
    }

    pub fn toggle_output_printing(&mut self, print_output: bool)
        ensures
            final(self).complex_gate.should_print_output == print_output,
            final(self).complex_gate.input_gates == old(self).complex_gate.input_gates,
            final(self).complex_gate.output_gates == old(self).complex_gate.output_gates,
    {
        self.complex_gate.should_print_output = print_output;
    }

    /// The number of circuit gates that make up this gate.
    pub fn num_children_gates(&self) -> (res: usize)
        ensures
            res == self.complex_gate.number_child_gates,
    {
        self.complex_gate.number_child_gates
    }
}

} // verus!
