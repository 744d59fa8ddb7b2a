use vstd::prelude::*;

use crate::circuit::{settled_from, Circuit};
use crate::logic::arithmetic_gates::{FullAdder, XOrLE};
use crate::logic::foundations::{complex_fits, last_tag_index, shape_extends, types_extend, ComplexGateMembers, GateOutputState, GateType, LogicGate};
use crate::logic::pins::{build_simple_inputs_and_outputs, fresh_input, fresh_output};
use crate::logic::processor_components::VariableBitRegister;
use crate::logic::input_gates::SimpleInput;
use crate::logic::output_gates::SimpleOutput;
use crate::logic::signals::{GateInput, GateLogicError, Signal, UniqueID};
use crate::logic::tags::{numbered, numbered_tag};

verus! {

/// Offset `d` from the first gate of an adder's bits falls on a gate of a full adder whose
/// outputs the adder leaves alone: every bit takes 20 gates, the full adder the last 18 of
/// them, and its `S` and `C_OUT` are at its offsets 3 and 4.
#[verifier::opaque]
pub open spec fn inside_full_adder(d: int) -> bool {
    let r = d % 20;
    2 <= r < 5 || 7 <= r < 20
}

/// The outputs an adder connects while wiring bit `k` are outside every full adder.
pub proof fn lemma_inside_full_adder(d: int, k: int)
    requires
        0 <= d,
        0 <= k,
        inside_full_adder(d),
    ensures
        d != 20 * k,
        d != 20 * k + 5,
        d != 20 * k + 6,
{
    reveal(inside_full_adder);
    assert((20 * k) % 20 == 0) by (nonlinear_arith) requires k >= 0;
    assert((20 * k + 5) % 20 == 5) by (nonlinear_arith) requires k >= 0;
    assert((20 * k + 6) % 20 == 6) by (nonlinear_arith) requires k >= 0;
}

/// The gates of full adder `m` that it wires itself are inside it.
pub proof fn lemma_inside_full_adder_at(d: int, m: int)
    requires
        0 <= m,
        20 * m + 2 <= d < 20 * m + 5 || 20 * m + 7 <= d < 20 * m + 20,
    ensures
        inside_full_adder(d),
{
    reveal(inside_full_adder);
    assert(d % 20 == d - 20 * m) by (nonlinear_arith)
        requires
            0 <= m,
            20 * m <= d < 20 * m + 20;
}

/// A ripple-carry adder of `num_bits` bits: outputs `o_<k>` and `C_OUT` are the sum of
/// `a`, `b` and `C_IN`, bit `0` being the lowest.
pub struct VariableBitAdder {
    pub complex_gate: ComplexGateMembers,
    pub full_adders: Vec<FullAdder>,
}

impl VariableBitAdder {
    /// The number of circuit gates an adder of `num_bits` bits uses.
    pub open spec fn spec_len(num_bits: nat) -> nat {
        21 * num_bits + 2
    }

    /// This adder stands at gates `start..start + 21 * num_bits + 2` of `c`. Bit `k` has input
    /// `a_<k>` at `start + 20 * k`, output `o_<k>` right after it and its full adder after
    /// that; the inputs `b_<k>` follow all the bits, then `C_IN` and `C_OUT`. Inputs `a_<k>` and
    /// `b_<k>` feed `A` and `B` of full adder `k`, whose `S` feeds `o_<k>`; `C_IN` feeds the
    /// carry of the first full adder, each carry out feeds the carry in of the next, and the
    /// last one feeds `C_OUT`.
    pub open spec fn wired(&self, c: Circuit, start: int, num_bits: nat) -> bool {
        let n = num_bits as int;
        &&& self.complex_gate.input_gates@ == Seq::new(num_bits, |k: int| (start + 20 * k) as usize)
            + Seq::new(num_bits, |k: int| (start + 20 * n + k) as usize) + seq![(start + 21 * n) as usize]
        &&& self.complex_gate.output_gates@ == Seq::new(num_bits, |k: int| (start + 20 * k + 1) as usize).push(
            (start + 21 * n + 1) as usize,
        )
        &&& self.complex_gate.gate_type == GateType::VariableBitAdderType
        &&& self.full_adders@.len() == num_bits
        &&& c.wire(start + 21 * n, 0, Some((start + 4, 0int)))
        &&& forall|k: int|
            0 <= k < n ==> {
                let fa = #[trigger] self.full_adders@[k];
                &&& fa.wired(c, start + 20 * k + 2)
                &&& c.wire(start + 20 * k, 0, Some((start + 20 * k + 2, 0int)))
                &&& c.wire(start + 20 * n + k, 0, Some((start + 20 * k + 3, 0int)))
                &&& c.wire(start + 20 * k + 5, 0, Some((start + 20 * k + 1, 0int)))
                &&& c.wire(
                    start + 20 * k + 6,
                    0,
                    Some(if k + 1 < n { (start + 20 * (k + 1) + 4, 0int) } else { (start + 21 * n + 1, 0int) }),
                )
            }
    }

    /// Wired as above, with its inputs and outputs in the circuit and tagged `a_<k>`, `b_<k>`,
    /// `C_IN`, `o_<k>`, `C_OUT`.
    pub open spec fn built(&self, c: Circuit, start: int, num_bits: nat) -> bool {
        &&& self.wired(c, start, num_bits)
        &&& complex_fits(&self.complex_gate, c.shape(), c.types())
        &&& self.complex_gate.tag_names() == Seq::new(num_bits, |k: int| numbered("a_"@, k)) + Seq::new(
            num_bits,
            |k: int| numbered("b_"@, k),
        ) + seq!["C_IN"@] + Seq::new(num_bits, |k: int| numbered("o_"@, k)) + seq!["C_OUT"@]
        &&& self.complex_gate.tags_laid_out()
    }
}

impl VariableBitAdder {
    /// Connects bit `k` of an adder whose gates stand from `start` on: `a_<k>` and `b_<k>` to
    /// its full adder, whose `S` goes to `o_<k>`, and the carry into it.
    fn connect_bit(circuit: &mut Circuit, start: usize, n: usize, k: usize)
        requires
            old(circuit).wf(),
            k < n,
            start + 21 * n + 2 < usize::MAX,
            old(circuit).has_output(start + 20 * k, 0),
            old(circuit).has_output(start + 20 * n + k, 0),
            old(circuit).has_output(start + 20 * k + 5, 0),
            k == 0 ==> old(circuit).has_output(start + 21 * n, 0),
            k > 0 ==> old(circuit).has_output(start + 20 * (k - 1) + 6, 0),
            old(circuit).has_input(start + 20 * k + 2, 0),
            old(circuit).has_input(start + 20 * k + 3, 0),
            old(circuit).has_input(start + 20 * k + 4, 0),
            old(circuit).has_input(start + 20 * k + 1, 0),
        ensures
            final(circuit).wf(),
            final(circuit).shape() == old(circuit).shape(),
            final(circuit).types() == old(circuit).types(),
            final(circuit).clock_tick_number == old(circuit).clock_tick_number,
            final(circuit).wire(start + 20 * k, 0, Some((start + 20 * k + 2, 0int))),
            final(circuit).wire(start + 20 * n + k, 0, Some((start + 20 * k + 3, 0int))),
            final(circuit).wire(start + 20 * k + 5, 0, Some((start + 20 * k + 1, 0int))),
            k == 0 ==> final(circuit).wire(start + 21 * n, 0, Some((start + 4, 0int))),
            k > 0 ==> final(circuit).wire(start + 20 * (k - 1) + 6, 0, Some((start + 20 * k + 4, 0int))),
            forall|g: int, j: int|
                old(circuit).has_output(g, j) && g != start + 20 * k && g != start + 20 * n + k && g != start + 20 * k + 5
                    && (k > 0 || g != start + 21 * n) && (k == 0 || g != start + 20 * (k - 1) + 6) ==> #[trigger] final(circuit).link(g, j)
                    == old(circuit).link(g, j),
    {
        circuit.connect(start + 20 * k, 0, start + 20 * k + 2, 0);
        circuit.connect(start + 20 * n + k, 0, start + 20 * k + 3, 0);
        circuit.connect(start + 20 * k + 5, 0, start + 20 * k + 1, 0);
        if k == 0 {
            circuit.connect(start + 21 * n, 0, start + 4, 0);
        } else {
            circuit.connect(start + 20 * (k - 1) + 6, 0, start + 20 * k + 4, 0);
        }
    }

    /// Connects the bits of an adder whose gates stand from `start` on.
    #[verifier::spinoff_prover]
    #[verifier::rlimit(100)]
    fn connect_bits(circuit: &mut Circuit, adders: &Vec<FullAdder>, start: usize, n: usize)
        requires
            old(circuit).wf(),
            n >= 1,
            start + 21 * n + 2 < usize::MAX,
            old(circuit).len() == start + 21 * n + 2,
            old(circuit).shape()[start + 21 * n] == (1nat, 1nat),
            old(circuit).shape()[start + 21 * n + 1] == (1nat, 1nat),
            forall|m: int| 0 <= m < n ==> #[trigger] old(circuit).shape()[start + 20 * m] == (1nat, 1nat),
            forall|m: int| 0 <= m < n ==> #[trigger] old(circuit).shape()[start + 20 * m + 1] == (1nat, 1nat),
            forall|m: int| 0 <= m < n ==> #[trigger] old(circuit).shape()[start + 20 * n + m] == (1nat, 1nat),
            adders@.len() == n,
            forall|m: int| 0 <= m < n ==> (#[trigger] adders@[m]).wired(*old(circuit), start + 20 * m + 2),
        ensures
            final(circuit).wf(),
            final(circuit).shape() == old(circuit).shape(),
            final(circuit).types() == old(circuit).types(),
            final(circuit).clock_tick_number == old(circuit).clock_tick_number,
            forall|g: int, j: int| old(circuit).has_output(g, j) && g < start ==> #[trigger] final(circuit).link(g, j) == old(circuit).link(g, j),
            final(circuit).wire(start + 21 * n, 0, Some((start + 4, 0int))),
            forall|m: int|
                0 <= m < n ==> {
                    &&& (#[trigger] adders@[m]).wired(*final(circuit), start + 20 * m + 2)
                    &&& final(circuit).wire(start + 20 * m, 0, Some((start + 20 * m + 2, 0int)))
                    &&& final(circuit).wire(start + 20 * n + m, 0, Some((start + 20 * m + 3, 0int)))
                    &&& final(circuit).wire(start + 20 * m + 5, 0, Some((start + 20 * m + 1, 0int)))
                    &&& final(circuit).wire(
                        start + 20 * m + 6,
                        0,
                        Some(if m + 1 < n { (start + 20 * (m + 1) + 4, 0int) } else { (start + 21 * n + 1, 0int) }),
                    )
                },
    {
        let ghost c4 = *circuit;
        let mut k: usize = 0;
        while k < n
            invariant
                start + 21 * n + 2 < usize::MAX,
                k <= n,
                circuit.wf(),
                circuit.shape() == c4.shape(),
                circuit.types() == c4.types(),
                circuit.len() == start + 21 * n + 2,
                circuit.clock_tick_number == c4.clock_tick_number,
                c4.shape()[start + 21 * n] == (1nat, 1nat),
                c4.shape()[start + 21 * n + 1] == (1nat, 1nat),
                forall|m: int| 0 <= m < n ==> #[trigger] c4.shape()[start + 20 * m] == (1nat, 1nat),
                forall|m: int| 0 <= m < n ==> #[trigger] c4.shape()[start + 20 * m + 1] == (1nat, 1nat),
                forall|m: int| 0 <= m < n ==> #[trigger] c4.shape()[start + 20 * n + m] == (1nat, 1nat),
                forall|m: int| 0 <= m < n ==> (#[trigger] adders@[m]).wired(c4, start + 20 * m + 2),
                forall|g: int, j: int| c4.has_output(g, j) && g < start ==> #[trigger] circuit.link(g, j) == c4.link(g, j),
                forall|g: int, j: int|
                    c4.has_output(g, j) && start <= g < start + 20 * n && #[trigger] inside_full_adder(g - start)
                        ==> #[trigger] circuit.link(g, j) == c4.link(g, j),
                adders@.len() == n,
                k > 0 ==> circuit.wire(start + 21 * n, 0, Some((start + 4, 0int))),
                forall|m: int|
                    0 <= m < k ==> {
                        &&& #[trigger] circuit.wire(start + 20 * m, 0, Some((start + 20 * m + 2, 0int)))
                        &&& circuit.wire(start + 20 * n + m, 0, Some((start + 20 * m + 3, 0int)))
                        &&& circuit.wire(start + 20 * m + 5, 0, Some((start + 20 * m + 1, 0int)))
                        &&& m + 1 < k ==> circuit.wire(start + 20 * m + 6, 0, Some((start + 20 * (m + 1) + 4, 0int)))
                    },
            decreases n - k,
        {
            let kk = k;
            k = k + 1;
            let ghost before = *circuit;
            proof {
                assert(adders@[kk as int].wired(c4, start + 20 * kk + 2));
                assert(c4.shape()[start + 20 * n + kk] == (1nat, 1nat));
                assert(c4.shape()[start + 20 * kk] == (1nat, 1nat));
                assert(c4.shape()[start + 20 * kk + 1] == (1nat, 1nat));
                if kk > 0 {
                    assert(adders@[kk - 1].wired(c4, start + 20 * (kk - 1) + 2));
                }
            }
            Self::connect_bit(circuit, start, n, kk);
            proof {
                if kk > 0 {
                    assert(before.wire(start + 21 * n, 0, Some((start + 4, 0int))));
                    assert(circuit.link(start + 21 * n, 0) == before.link(start + 21 * n, 0));
                }
                assert forall|m: int| 0 <= m < k implies {
                    &&& #[trigger] circuit.wire(start + 20 * m, 0, Some((start + 20 * m + 2, 0int)))
                    &&& circuit.wire(start + 20 * n + m, 0, Some((start + 20 * m + 3, 0int)))
                    &&& circuit.wire(start + 20 * m + 5, 0, Some((start + 20 * m + 1, 0int)))
                    &&& m + 1 < k ==> circuit.wire(start + 20 * m + 6, 0, Some((start + 20 * (m + 1) + 4, 0int)))
                } by {
                    if m < kk {
                        assert(before.wire(start + 20 * m, 0, Some((start + 20 * m + 2, 0int))));
                        assert(before.wire(start + 20 * n + m, 0, Some((start + 20 * m + 3, 0int))));
                        assert(before.wire(start + 20 * m + 5, 0, Some((start + 20 * m + 1, 0int))));
                    }
                    if m + 1 < kk {
                        assert(before.wire(start + 20 * m + 6, 0, Some((start + 20 * (m + 1) + 4, 0int))));
                    }
                }
                assert forall|g: int, j: int| c4.has_output(g, j) && g < start implies #[trigger] circuit.link(g, j) == c4.link(g, j) by {
                    assert(before.link(g, j) == c4.link(g, j));
                }
                assert forall|g: int, j: int|
                    c4.has_output(g, j) && start <= g < start + 20 * n && #[trigger] inside_full_adder(g - start)
                        implies #[trigger] circuit.link(g, j) == c4.link(g, j) by {
                    assert(before.link(g, j) == c4.link(g, j));
                    lemma_inside_full_adder(g - start, kk as int);
                    if kk > 0 {
                        lemma_inside_full_adder(g - start, kk - 1);
                    }
                }
            }
        }
        let ghost c5 = *circuit;
        proof {
            assert(adders@[n - 1].wired(c4, start + 20 * (n - 1) + 2));
        }
        circuit.connect(start + 20 * (n - 1) + 6, 0, start + 21 * n + 1, 0);
        proof {
            assert forall|g: int, j: int| c4.has_output(g, j) && g < start implies #[trigger] circuit.link(g, j) == c4.link(g, j) by {
                assert(c5.link(g, j) == c4.link(g, j));
            }
            assert forall|m: int| 0 <= m < n implies (#[trigger] adders@[m]).wired(*circuit, start + 20 * m + 2) by {
                let s0 = start + 20 * m + 2;
                assert forall|g: int, j: int| (s0 <= g < s0 + 3 || s0 + 5 <= g < s0 + 18) && c4.has_output(g, j)
                    implies #[trigger] circuit.link(g, j) == c4.link(g, j) by {
                    lemma_inside_full_adder_at(g - start, m);
                    lemma_inside_full_adder(g - start, n - 1);
                    assert(c5.link(g, j) == c4.link(g, j));
                }
                adders@[m].lemma_wired_kept(c4, *circuit, s0);
            }
            assert(c5.wire(start + 21 * n, 0, Some((start + 4, 0int))));
            assert forall|m: int| 0 <= m < n implies {
                &&& #[trigger] circuit.wire(start + 20 * m, 0, Some((start + 20 * m + 2, 0int)))
                &&& circuit.wire(start + 20 * n + m, 0, Some((start + 20 * m + 3, 0int)))
                &&& circuit.wire(start + 20 * m + 5, 0, Some((start + 20 * m + 1, 0int)))
                &&& circuit.wire(
                    start + 20 * m + 6,
                    0,
                    Some(if m + 1 < n { (start + 20 * (m + 1) + 4, 0int) } else { (start + 21 * n + 1, 0int) }),
                )
            } by {
                assert(c5.wire(start + 20 * m, 0, Some((start + 20 * m + 2, 0int))));
                assert(c5.wire(start + 20 * n + m, 0, Some((start + 20 * m + 3, 0int))));
                assert(c5.wire(start + 20 * m + 5, 0, Some((start + 20 * m + 1, 0int))));
                if m + 1 < n {
                    assert(c5.wire(start + 20 * m + 6, 0, Some((start + 20 * (m + 1) + 4, 0int))));
                }
            }
        }
    }

    /// Adds an adder of `num_bits` bits to the circuit and primes it. Each full adder is primed
    /// as it is added, then the whole adder. Fails only when priming does not come to rest or two senders drive one input.
    #[verifier::spinoff_prover]
    #[verifier::rlimit(100)]
    pub fn new(circuit: &mut Circuit, num_bits: usize) -> (res: Result<Self, GateLogicError>)
        requires
            old(circuit).wf(),
            num_bits >= 1,
            old(circuit).len() + 21 * num_bits + 2 < usize::MAX,
        ensures
            final(circuit).wf(),
            final(circuit).clock_tick_number == old(circuit).clock_tick_number,
            old(circuit).wiring_kept(*final(circuit)),
            forall|g: int, j: int, d: Option<(int, int)>| old(circuit).wire(g, j, d) ==> #[trigger] final(circuit).wire(g, j, d),
            match res {
                Ok(gate) => {
                    &&& final(circuit).len() == old(circuit).len() + Self::spec_len(num_bits as nat)
                    &&& shape_extends(old(circuit).shape(), final(circuit).shape())
                    &&& types_extend(old(circuit).types(), final(circuit).types())
                    &&& gate.built(*final(circuit), old(circuit).len() as int, num_bits as nat)
                    &&& settled_from(*final(circuit), old(circuit).len() as int)
                },
                Err(e) => crate::run_circuit::failure_shown(*final(circuit), e),
            },
    {
        let ghost c0 = *circuit;
        let start = circuit.num_gates();
        let n = num_bits;
        let mut input_gates: Vec<usize> = Vec::new();
        let mut input_tags: Vec<String> = Vec::new();
        let mut output_gates: Vec<usize> = Vec::new();
        let mut output_tags: Vec<String> = Vec::new();
        let mut adders: Vec<FullAdder> = Vec::new();
        proof {
            crate::circuit::lemma_wiring_kept_refl(c0);
            assert(c0.shape().len() == c0.len());
            assert(c0.types().len() == c0.len());
            assert(c0.types().subrange(0, c0.types().len() as int) =~= c0.types());
        }
        let mut i: usize = 0;
        while i < n
            invariant
                c0 == *old(circuit),
                start == c0.len(),
                c0.shape().len() == start,
                c0.types().len() == start,
                start + 21 * n + 2 < usize::MAX,
                i <= n,
                circuit.wf(),
                circuit.len() == start + 20 * i,
                circuit.clock_tick_number == c0.clock_tick_number,
                c0.wiring_kept(*circuit),
                shape_extends(c0.shape(), circuit.shape()),
                types_extend(c0.types(), circuit.types()),
                forall|g: int, j: int, d: Option<(int, int)>| c0.wire(g, j, d) ==> #[trigger] circuit.wire(g, j, d),
                input_gates@ == Seq::new(i as nat, |k: int| (start + 20 * k) as usize),
                output_gates@ == Seq::new(i as nat, |k: int| (start + 20 * k + 1) as usize),
                input_tags@.len() == i,
                output_tags@.len() == i,
                forall|k: int| 0 <= k < i ==> (#[trigger] input_tags@[k])@ == numbered("a_"@, k),
                forall|k: int| 0 <= k < i ==> (#[trigger] output_tags@[k])@ == numbered("o_"@, k),
                adders@.len() == i,
                forall|k: int| 0 <= k < i ==> (#[trigger] adders@[k]).built(*circuit, start + 20 * k + 2),
                forall|k: int|
                    0 <= k < i ==> {
                        let g = (#[trigger] input_gates@[k]) as int;
                        &&& circuit.shape()[g] == (1nat, 1nat)
                        &&& circuit.types()[g] == GateType::SimpleInputType
                        &&& circuit.wire(g, 0, None)
                    },
                forall|k: int|
                    0 <= k < i ==> {
                        let g = (#[trigger] output_gates@[k]) as int;
                        &&& circuit.shape()[g] == (1nat, 1nat)
                        &&& circuit.types()[g] == GateType::SimpleOutputType
                        &&& circuit.wire(g, 0, None)
                    },
            decreases n - i,
        {
            let ghost before = *circuit;
            let a_tag = numbered_tag("a_", i);
            let input = SimpleInput::new(circuit, 1, a_tag.as_str());
            let o_tag = numbered_tag("o_", i);
            let output = SimpleOutput::new(circuit, o_tag.as_str());
            let ghost mid = *circuit;
            proof {
                assert(mid.shape().subrange(0, c0.shape().len() as int) =~= c0.shape()) by {
                    assert(before.shape().subrange(0, c0.shape().len() as int) =~= c0.shape());
                }
                assert(mid.types().subrange(0, c0.types().len() as int) =~= c0.types()) by {
                    assert(before.types().subrange(0, c0.types().len() as int) =~= c0.types());
                }
            }
            let adder = match FullAdder::new(circuit) {
                Ok(adder) => adder,
                Err(e) => {
                    return Err(e);
                },
            };
            proof {
                assert(circuit.shape().subrange(0, c0.shape().len() as int) =~= c0.shape()) by {
                    assert(circuit.shape().subrange(0, mid.shape().len() as int) =~= mid.shape());
                }
                assert(circuit.types().subrange(0, c0.types().len() as int) =~= c0.types()) by {
                    assert(circuit.types().subrange(0, mid.types().len() as int) =~= mid.types());
                }
                assert(circuit.shape().subrange(0, mid.shape().len() as int) =~= mid.shape());
                assert(circuit.types().subrange(0, mid.types().len() as int) =~= mid.types());
                assert(mid.shape().subrange(0, before.shape().len() as int) =~= before.shape());
                assert(mid.types().subrange(0, before.types().len() as int) =~= before.types());
                crate::circuit::lemma_wiring_kept_trans(c0, before, mid);
                crate::circuit::lemma_wiring_kept_trans(c0, mid, *circuit);
                crate::circuit::lemma_wire_kept_grown(mid, *circuit);
            }
            input_gates.push(input.gate);
            output_gates.push(output.gate);
            input_tags.push(a_tag);
            output_tags.push(o_tag);
            adders.push(adder);
            proof {
                assert(input_gates@ =~= Seq::new(i as nat + 1, |k: int| (start + 20 * k) as usize));
                assert(output_gates@ =~= Seq::new(i as nat + 1, |k: int| (start + 20 * k + 1) as usize));
                assert forall|k: int| 0 <= k < i + 1 implies (#[trigger] adders@[k]).built(*circuit, start + 20 * k + 2) by {
                    if k < i {
                        assert(before.len() == start + 20 * i);
                        assert(circuit.shape().subrange(0, before.shape().len() as int) =~= before.shape());
                        assert(circuit.types().subrange(0, before.types().len() as int) =~= before.types());
                        crate::circuit::lemma_wire_kept_grown(before, *circuit);
                        assert(adders@[k].built(before, start + 20 * k + 2));
                    }
                }
            }
            i = i + 1;
        }
        let mut j: usize = 0;
        while j < n
            invariant
                c0 == *old(circuit),
                start == c0.len(),
                c0.shape().len() == start,
                c0.types().len() == start,
                start + 21 * n + 2 < usize::MAX,
                j <= n,
                circuit.wf(),
                circuit.len() == start + 20 * n + j,
                circuit.clock_tick_number == c0.clock_tick_number,
                c0.wiring_kept(*circuit),
                shape_extends(c0.shape(), circuit.shape()),
                types_extend(c0.types(), circuit.types()),
                forall|g: int, j2: int, d: Option<(int, int)>| c0.wire(g, j2, d) ==> #[trigger] circuit.wire(g, j2, d),
                input_gates@ == Seq::new(n as nat, |k: int| (start + 20 * k) as usize) + Seq::new(
                    j as nat,
                    |k: int| (start + 20 * n + k) as usize,
                ),
                output_gates@ == Seq::new(n as nat, |k: int| (start + 20 * k + 1) as usize),
                input_tags@.len() == n + j,
                output_tags@.len() == n,
                forall|k: int| 0 <= k < n ==> (#[trigger] input_tags@[k])@ == numbered("a_"@, k),
                forall|k: int| n <= k < n + j ==> (#[trigger] input_tags@[k])@ == numbered("b_"@, k - n),
                forall|k: int| 0 <= k < n ==> (#[trigger] output_tags@[k])@ == numbered("o_"@, k),
                adders@.len() == n,
                forall|k: int| 0 <= k < n ==> (#[trigger] adders@[k]).built(*circuit, start + 20 * k + 2),
                forall|k: int|
                    0 <= k < n + j ==> {
                        let g = (#[trigger] input_gates@[k]) as int;
                        &&& circuit.shape()[g] == (1nat, 1nat)
                        &&& circuit.types()[g] == GateType::SimpleInputType
                        &&& circuit.wire(g, 0, None)
                    },
                forall|k: int|
                    0 <= k < n ==> {
                        let g = (#[trigger] output_gates@[k]) as int;
                        &&& circuit.shape()[g] == (1nat, 1nat)
                        &&& circuit.types()[g] == GateType::SimpleOutputType
                        &&& circuit.wire(g, 0, None)
                    },
            decreases n - j,
        {
            let ghost before = *circuit;
            let b_tag = numbered_tag("b_", j);
            let input = SimpleInput::new(circuit, 1, b_tag.as_str());
            proof {
                assert(circuit.shape().subrange(0, c0.shape().len() as int) =~= c0.shape()) by {
                    assert(before.shape().subrange(0, c0.shape().len() as int) =~= c0.shape());
                }
                assert(circuit.types().subrange(0, c0.types().len() as int) =~= c0.types()) by {
                    assert(before.types().subrange(0, c0.types().len() as int) =~= c0.types());
                }
                assert(circuit.shape().subrange(0, before.shape().len() as int) =~= before.shape());
                assert(circuit.types().subrange(0, before.types().len() as int) =~= before.types());
                crate::circuit::lemma_wiring_kept_trans(c0, before, *circuit);
            }
            input_gates.push(input.gate);
            input_tags.push(b_tag);
            proof {
                assert(input_gates@ =~= Seq::new(n as nat, |k: int| (start + 20 * k) as usize) + Seq::new(
                    j as nat + 1,
                    |k: int| (start + 20 * n + k) as usize,
                ));
                assert forall|k: int| 0 <= k < n implies (#[trigger] adders@[k]).built(*circuit, start + 20 * k + 2) by {
                    assert(before.len() == start + 20 * n + j);
                }
            }
            j = j + 1;
        }
        let ghost c2 = *circuit;
        let ghost ins2 = input_gates@;
        let ghost outs2 = output_gates@;
        let c_in_tag = "C_IN".to_owned();
        let c_in = SimpleInput::new(circuit, 1, c_in_tag.as_str());
        let ghost c3 = *circuit;
        let c_out_tag = "C_OUT".to_owned();
        let c_out = SimpleOutput::new(circuit, c_out_tag.as_str());
        let ghost c4 = *circuit;
        proof {
            assert(c3.shape().subrange(0, c2.shape().len() as int) =~= c2.shape());
            assert(c3.types().subrange(0, c2.types().len() as int) =~= c2.types());
            assert(c4.shape().subrange(0, c3.shape().len() as int) =~= c3.shape());
            assert(c4.types().subrange(0, c3.types().len() as int) =~= c3.types());
            assert(c4.shape().subrange(0, c0.shape().len() as int) =~= c0.shape()) by {
                assert(c2.shape().subrange(0, c0.shape().len() as int) =~= c0.shape());
            }
            assert(c4.types().subrange(0, c0.types().len() as int) =~= c0.types()) by {
                assert(c2.types().subrange(0, c0.types().len() as int) =~= c0.types());
            }
            crate::circuit::lemma_wiring_kept_trans(c0, c2, c3);
            assert(c3.shape().subrange(0, c0.shape().len() as int) =~= c0.shape()) by {
                assert(c2.shape().subrange(0, c0.shape().len() as int) =~= c0.shape());
            }
            assert(c3.types().subrange(0, c0.types().len() as int) =~= c0.types()) by {
                assert(c2.types().subrange(0, c0.types().len() as int) =~= c0.types());
            }
            crate::circuit::lemma_wiring_kept_trans(c0, c3, c4);
            assert(c4.shape().subrange(0, c2.shape().len() as int) =~= c2.shape());
            assert(c4.types().subrange(0, c2.types().len() as int) =~= c2.types());
            crate::circuit::lemma_wiring_kept_trans(c2, c3, c4);
        }
        input_gates.push(c_in.gate);
        input_tags.push(c_in_tag);
        output_gates.push(c_out.gate);
        output_tags.push(c_out_tag);
        proof {
            assert(input_gates@ =~= Seq::new(n as nat, |k: int| (start + 20 * k) as usize) + Seq::new(
                n as nat,
                |k: int| (start + 20 * n + k) as usize,
            ) + seq![(start + 21 * n) as usize]);
            assert(output_gates@ =~= Seq::new(n as nat, |k: int| (start + 20 * k + 1) as usize).push(
                (start + 21 * n + 1) as usize,
            ));
            assert(input_gates@[0] == start);
            assert(c2.shape().len() == c2.len());
            assert(c4.shape().len() == c4.len());
            assert(c4.len() == start + 21 * n + 2);
            assert forall|k: int| 0 <= k < n implies (#[trigger] adders@[k]).built(c4, start + 20 * k + 2) by {
                assert(adders@[k].built(c2, start + 20 * k + 2));
                crate::circuit::lemma_wire_kept_grown(c2, c4);
            }
        }
        let complex_gate = ComplexGateMembers::from_tags(
            circuit,
            GateType::VariableBitAdderType,
            input_gates,
            output_gates,
            input_tags,
            output_tags,
        );
        proof {
            assert(complex_gate.tag_names() =~= Seq::new(n as nat, |k: int| numbered("a_"@, k)) + Seq::new(
                n as nat,
                |k: int| numbered("b_"@, k),
            ) + seq!["C_IN"@] + Seq::new(n as nat, |k: int| numbered("o_"@, k)) + seq!["C_OUT"@]);
        }
        proof {
            assert forall|m: int| 0 <= m < n implies (#[trigger] adders@[m]).wired(c4, start + 20 * m + 2) by {
                assert(adders@[m].built(c4, start + 20 * m + 2));
            }
            assert(c4.shape().subrange(0, c2.shape().len() as int) =~= c2.shape());
            assert(c4.types().subrange(0, c2.types().len() as int) =~= c2.types());
            assert forall|m: int| 0 <= m < n implies #[trigger] c4.shape()[start + 20 * m] == (1nat, 1nat) by {
                assert(ins2[m] == start + 20 * m);
                assert(c2.shape()[ins2[m] as int] == (1nat, 1nat));
                assert(c4.shape().subrange(0, c2.shape().len() as int)[start + 20 * m] == c4.shape()[start + 20 * m]);
                assert(c4.types().subrange(0, c2.types().len() as int)[start + 20 * m] == c4.types()[start + 20 * m]);
            }
            assert forall|m: int| 0 <= m < n implies #[trigger] c4.shape()[start + 20 * m + 1] == (1nat, 1nat) by {
                assert(outs2[m] == start + 20 * m + 1);
                assert(c2.shape()[outs2[m] as int] == (1nat, 1nat));
                assert(c4.shape().subrange(0, c2.shape().len() as int)[start + 20 * m + 1] == c4.shape()[start + 20 * m + 1]);
                assert(c4.types().subrange(0, c2.types().len() as int)[start + 20 * m + 1] == c4.types()[start + 20 * m + 1]);
            }
            assert forall|m: int| 0 <= m < n implies #[trigger] c4.shape()[start + 20 * n + m] == (1nat, 1nat) by {
                assert(ins2[n + m] == start + 20 * n + m);
                assert(c2.shape()[ins2[n + m] as int] == (1nat, 1nat));
                assert(c4.shape().subrange(0, c2.shape().len() as int)[start + 20 * n + m] == c4.shape()[start + 20 * n + m]);
                assert(c4.types().subrange(0, c2.types().len() as int)[start + 20 * n + m] == c4.types()[start + 20 * n + m]);
            }
        }
        Self::connect_bits(circuit, &adders, start, n);
        let ghost c6 = *circuit;
        proof {
            assert forall|g: int, j2: int| c0.has_output(g, j2) implies #[trigger] circuit.link(g, j2) == c0.link(g, j2) by {
                assert(c4.has_output(g, j2));
            }
            crate::circuit::lemma_wire_kept_grown(c0, c4);
        }
        let mut complex_gate = complex_gate;
        complex_gate.number_child_gates = 21 * n + 2;
        let gate = VariableBitAdder { complex_gate, full_adders: adders };
        proof {
            assert forall|m: int| 0 <= m < n implies {
                let fa = #[trigger] gate.full_adders@[m];
                &&& fa.wired(c6, start + 20 * m + 2)
                &&& c6.wire(start + 20 * m, 0, Some((start + 20 * m + 2, 0int)))
                &&& c6.wire(start + 20 * n + m, 0, Some((start + 20 * m + 3, 0int)))
                &&& c6.wire(start + 20 * m + 5, 0, Some((start + 20 * m + 1, 0int)))
                &&& c6.wire(
                    start + 20 * m + 6,
                    0,
                    Some(if m + 1 < n { (start + 20 * (m + 1) + 4, 0int) } else { (start + 21 * n + 1, 0int) }),
                )
            } by {
            }
            assert(gate.wired(c6, start as int, n as nat));
            assert(gate.complex_gate.tags_laid_out());
            assert(complex_fits(&gate.complex_gate, c6.shape(), c6.types()));
            assert(gate.built(c6, start as int, n as nat));
        }
        let primed = circuit.prime_from(start);
        proof {
            crate::circuit::lemma_wire_kept(c6, *circuit);
            crate::circuit::lemma_wiring_kept_trans(c0, c6, *circuit);
            assert forall|m: int| 0 <= m < n implies (#[trigger] gate.full_adders@[m]).wired(*circuit, start + 20 * m + 2) by {
                assert(gate.full_adders@[m].wired(c6, start + 20 * m + 2));
            }
        }
        match primed {
            Ok(()) => Ok(gate),
            Err(e) => Err(e),
        }
    }
}

impl LogicGate for VariableBitAdder {
    open spec fn spec_input_pin(&self, index: int) -> (int, int) {
        (self.complex_gate.input_gates@[index] as int, 0)
    }

    open spec fn spec_output_pin(&self, index: int) -> (int, int) {
        (self.complex_gate.output_gates@[index] as int, 0)
    }

    open spec fn spec_num_inputs(&self) -> nat {
        self.complex_gate.input_gates@.len()
    }

    open spec fn spec_num_outputs(&self) -> nat {
        self.complex_gate.output_gates@.len()
    }

    open spec fn spec_gate_type(&self) -> GateType {
        self.complex_gate.gate_type
    }

    open spec fn spec_unique_id(&self) -> UniqueID {
        self.complex_gate.unique_id
    }

    fn input_pin(&self, index: usize) -> (res: (usize, usize)) {
        (self.complex_gate.input_gates[index], 0)
    }

    fn output_pin(&self, index: usize) -> (res: (usize, usize)) {
        (self.complex_gate.output_gates[index], 0)
    }

    fn num_inputs(&self) -> (res: usize) {
        self.complex_gate.input_gates.len()
    }

    fn num_outputs(&self) -> (res: usize) {
        self.complex_gate.output_gates.len()
    }

    fn get_gate_type(&self) -> (res: GateType) {
        self.complex_gate.gate_type
    }

    fn get_unique_id(&self) -> (res: UniqueID) {
        self.complex_gate.unique_id
    }
}

impl VariableBitAdder {
    /// The input or output index that `tag` names.
    pub fn get_index_from_tag(&self, tag: &str) -> (res: Option<usize>)
        ensures
            res == last_tag_index(self.complex_gate.gate_tags_to_index@, tag@),
    {
        self.complex_gate.get_index_from_tag(tag)
    }

    /// Brings the outputs up to date with what reaches them and returns their states.
    pub fn fetch_output_signals(&self, circuit: &mut Circuit) -> (res: Vec<GateOutputState>)
        requires
            old(circuit).wf(),
            complex_fits(&self.complex_gate, old(circuit).shape(), old(circuit).types()),
        ensures
            final(circuit).wf(),
            final(circuit).shape() == old(circuit).shape(),
            final(circuit).types() == old(circuit).types(),
            old(circuit).wiring_kept(*final(circuit)),
            res@.len() == self.complex_gate.output_gates@.len(),
            forall|i: int| 0 <= i < res@.len() ==> #[trigger] res@[i] == final(circuit).node(self.complex_gate.output_gates@[i] as int).outputs()[0],
    {
        proof {
            assert forall|i: int| 0 <= i < self.complex_gate.output_gates@.len() implies #[trigger] old(circuit).has_output(self.complex_gate.output_gates@[i] as int, 0) by {}
        }
        self.complex_gate.fetch_output_signals_calculate(circuit)
    }

    pub fn get_tag(&self) -> (res: String)
        ensures
            res@ == self.complex_gate.tag@,
    {
        self.complex_gate.tag.clone()
    }

    pub fn set_tag(&mut self, tag: &str)
        ensures
            final(self).complex_gate.tag@ == tag@,
            final(self).complex_gate.input_gates == old(self).complex_gate.input_gates,
            final(self).complex_gate.output_gates == old(self).complex_gate.output_gates,
            final(self).complex_gate.gate_tags_to_index == old(self).complex_gate.gate_tags_to_index,
    {
        self.complex_gate.tag = tag.to_owned();
    }

    pub fn toggle_output_printing(&mut self, print_output: bool)
        ensures
            final(self).complex_gate.should_print_output == print_output,
            final(self).complex_gate.input_gates == old(self).complex_gate.input_gates,
            final(self).complex_gate.output_gates == old(self).complex_gate.output_gates,
    {
        self.complex_gate.should_print_output = print_output;
    }

    /// The number of circuit gates that make up this gate.
    pub fn num_children_gates(&self) -> (res: usize)
        ensures
            res == self.complex_gate.number_child_gates,
    {
        self.complex_gate.number_child_gates
    }
}

/// Offset `d` from the first gate of a comparator's bits falls on a gate of a one-bit
/// comparator whose outputs the comparator leaves alone: every bit takes 14 gates, the
/// one-bit comparator the last 12 of them, and its `C`, `E` and `A_L` are at its offsets 4 to 6.
#[verifier::opaque]
pub open spec fn inside_xor_le(d: int) -> bool {
    let r = d % 14;
    2 <= r < 6 || 9 <= r < 14
}

/// The outputs a comparator connects while wiring bit `k` are outside every one-bit comparator.
pub proof fn lemma_inside_xor_le(d: int, k: int)
    requires
        0 <= d,
        0 <= k,
        inside_xor_le(d),
    ensures
        d != 14 * k,
        d != 14 * k + 6,
        d != 14 * k + 7,
        d != 14 * k + 8,
{
    reveal(inside_xor_le);
    assert((14 * k) % 14 == 0) by (nonlinear_arith) requires k >= 0;
    assert((14 * k + 6) % 14 == 6) by (nonlinear_arith) requires k >= 0;
    assert((14 * k + 7) % 14 == 7) by (nonlinear_arith) requires k >= 0;
    assert((14 * k + 8) % 14 == 8) by (nonlinear_arith) requires k >= 0;
}

/// The gates of one-bit comparator `m` that it wires itself are inside it.
pub proof fn lemma_inside_xor_le_at(d: int, m: int)
    requires
        0 <= m,
        14 * m + 2 <= d < 14 * m + 6 || 14 * m + 9 <= d < 14 * m + 14,
    ensures
        inside_xor_le(d),
{
    reveal(inside_xor_le);
    assert(d % 14 == d - 14 * m) by (nonlinear_arith)
        requires
            0 <= m,
            14 * m <= d < 14 * m + 14;
}

/// A comparator of `num_bits` bits: `o_<k>` is `a_<k>` XOR `b_<k>`, `L` tells that `a` is
/// larger than `b` and `E` that they are equal, bit `num_bits - 1` being the highest.
pub struct VariableBitXOrLE {
    pub complex_gate: ComplexGateMembers,
    pub xor_le_gates: Vec<XOrLE>,
}

impl VariableBitXOrLE {
    /// The number of circuit gates a comparator of `num_bits` bits uses.
    pub open spec fn spec_len(num_bits: nat) -> nat {
        15 * num_bits + 2
    }

    /// This comparator stands at gates `start..start + 15 * num_bits + 2` of `c`. Bit `k` has
    /// input `a_<k>` at `start + 14 * k`, output `o_<k>` right after it and its one-bit
    /// comparator after that; the inputs `b_<k>` follow all the bits, then the outputs `L` and
    /// `E`. Inputs `a_<k>` and `b_<k>` feed `A` and `B` of one-bit comparator `k`, whose `C`
    /// feeds `o_<k>`; its `ABOVE_E` and `ABOVE_L` come from `E` and `A_L` of the comparator of
    /// the bit above, and those of the lowest bit give `E` and `L`.
    pub open spec fn wired(&self, c: Circuit, start: int, num_bits: nat) -> bool {
        let n = num_bits as int;
        &&& self.complex_gate.input_gates@ == Seq::new(num_bits, |k: int| (start + 14 * k) as usize)
            + Seq::new(num_bits, |k: int| (start + 14 * n + k) as usize)
        &&& self.complex_gate.output_gates@ == Seq::new(num_bits, |k: int| (start + 14 * k + 1) as usize)
            + seq![(start + 15 * n) as usize, (start + 15 * n + 1) as usize]
        &&& self.complex_gate.gate_type == GateType::VariableBitXOrLEType
        &&& self.xor_le_gates@.len() == num_bits
        &&& c.wire(start + 7, 0, Some((start + 15 * n + 1, 0int)))
        &&& c.wire(start + 8, 0, Some((start + 15 * n, 0int)))
        &&& forall|k: int|
            0 <= k < n ==> {
                let x = #[trigger] self.xor_le_gates@[k];
                &&& x.wired(c, start + 14 * k + 2)
                &&& c.wire(start + 14 * k, 0, Some((start + 14 * k + 2, 0int)))
                &&& c.wire(start + 14 * n + k, 0, Some((start + 14 * k + 3, 0int)))
                &&& c.wire(start + 14 * k + 6, 0, Some((start + 14 * k + 1, 0int)))
                &&& k + 1 < n ==> c.wire(start + 14 * (k + 1) + 7, 0, Some((start + 14 * k + 4, 0int)))
                &&& k + 1 < n ==> c.wire(start + 14 * (k + 1) + 8, 0, Some((start + 14 * k + 5, 0int)))
            }
    }

    /// Wired as above, with its inputs and outputs in the circuit and tagged `a_<k>`, `b_<k>`,
    /// `o_<k>`, `L`, `E`.
    pub open spec fn built(&self, c: Circuit, start: int, num_bits: nat) -> bool {
        &&& self.wired(c, start, num_bits)
        &&& complex_fits(&self.complex_gate, c.shape(), c.types())
        &&& self.complex_gate.tag_names() == Seq::new(num_bits, |k: int| numbered("a_"@, k)) + Seq::new(
            num_bits,
            |k: int| numbered("b_"@, k),
        ) + Seq::new(num_bits, |k: int| numbered("o_"@, k)) + seq!["L"@, "E"@]
        &&& self.complex_gate.tags_laid_out()
    }
}

impl VariableBitXOrLE {
    /// Connects bit `k` of a comparator whose gates stand from `start` on: `a_<k>` and `b_<k>`
    /// to its one-bit comparator, whose `C` goes to `o_<k>`, and the comparator of the bit
    /// above into it.
    fn connect_bit(circuit: &mut Circuit, start: usize, n: usize, k: usize)
        requires
            old(circuit).wf(),
            k < n,
            start + 15 * n + 2 < usize::MAX,
            old(circuit).has_output(start + 14 * k, 0),
            old(circuit).has_output(start + 14 * n + k, 0),
            old(circuit).has_output(start + 14 * k + 6, 0),
            k + 1 < n ==> old(circuit).has_output(start + 14 * (k + 1) + 7, 0),
            k + 1 < n ==> old(circuit).has_output(start + 14 * (k + 1) + 8, 0),
            old(circuit).has_input(start + 14 * k + 2, 0),
            old(circuit).has_input(start + 14 * k + 3, 0),
            old(circuit).has_input(start + 14 * k + 4, 0),
            old(circuit).has_input(start + 14 * k + 5, 0),
            old(circuit).has_input(start + 14 * k + 1, 0),
        ensures
            final(circuit).wf(),
            final(circuit).shape() == old(circuit).shape(),
            final(circuit).types() == old(circuit).types(),
            final(circuit).clock_tick_number == old(circuit).clock_tick_number,
            final(circuit).wire(start + 14 * k, 0, Some((start + 14 * k + 2, 0int))),
            final(circuit).wire(start + 14 * n + k, 0, Some((start + 14 * k + 3, 0int))),
            final(circuit).wire(start + 14 * k + 6, 0, Some((start + 14 * k + 1, 0int))),
            k + 1 < n ==> final(circuit).wire(start + 14 * (k + 1) + 7, 0, Some((start + 14 * k + 4, 0int))),
            k + 1 < n ==> final(circuit).wire(start + 14 * (k + 1) + 8, 0, Some((start + 14 * k + 5, 0int))),
            forall|g: int, j: int|
                old(circuit).has_output(g, j) && g != start + 14 * k && g != start + 14 * n + k && g != start + 14 * k + 6
                    && (k + 1 >= n || (g != start + 14 * (k + 1) + 7 && g != start + 14 * (k + 1) + 8))
                    ==> #[trigger] final(circuit).link(g, j) == old(circuit).link(g, j),
    {
        circuit.connect(start + 14 * k, 0, start + 14 * k + 2, 0);
        circuit.connect(start + 14 * n + k, 0, start + 14 * k + 3, 0);
        circuit.connect(start + 14 * k + 6, 0, start + 14 * k + 1, 0);
        if k + 1 < n {
            circuit.connect(start + 14 * (k + 1) + 7, 0, start + 14 * k + 4, 0);
            circuit.connect(start + 14 * (k + 1) + 8, 0, start + 14 * k + 5, 0);
        }
    }

    /// Connects the bits of a comparator whose gates stand from `start` on.
    #[verifier::spinoff_prover]
    #[verifier::rlimit(100)]
    fn connect_bits(circuit: &mut Circuit, gates: &Vec<XOrLE>, start: usize, n: usize)
        requires
            old(circuit).wf(),
            n >= 1,
            start + 15 * n + 2 < usize::MAX,
            old(circuit).len() == start + 15 * n + 2,
            old(circuit).shape()[start + 15 * n] == (1nat, 1nat),
            old(circuit).shape()[start + 15 * n + 1] == (1nat, 1nat),
            forall|m: int| 0 <= m < n ==> #[trigger] old(circuit).shape()[start + 14 * m] == (1nat, 1nat),
            forall|m: int| 0 <= m < n ==> #[trigger] old(circuit).shape()[start + 14 * m + 1] == (1nat, 1nat),
            forall|m: int| 0 <= m < n ==> #[trigger] old(circuit).shape()[start + 14 * n + m] == (1nat, 1nat),
            gates@.len() == n,
            forall|m: int| 0 <= m < n ==> (#[trigger] gates@[m]).wired(*old(circuit), start + 14 * m + 2),
        ensures
            final(circuit).wf(),
            final(circuit).shape() == old(circuit).shape(),
            final(circuit).types() == old(circuit).types(),
            final(circuit).clock_tick_number == old(circuit).clock_tick_number,
            forall|g: int, j: int| old(circuit).has_output(g, j) && g < start ==> #[trigger] final(circuit).link(g, j) == old(circuit).link(g, j),
            final(circuit).wire(start + 7, 0, Some((start + 15 * n + 1, 0int))),
            final(circuit).wire(start + 8, 0, Some((start + 15 * n, 0int))),
            forall|m: int|
                0 <= m < n ==> {
                    &&& (#[trigger] gates@[m]).wired(*final(circuit), start + 14 * m + 2)
                    &&& final(circuit).wire(start + 14 * m, 0, Some((start + 14 * m + 2, 0int)))
                    &&& final(circuit).wire(start + 14 * n + m, 0, Some((start + 14 * m + 3, 0int)))
                    &&& final(circuit).wire(start + 14 * m + 6, 0, Some((start + 14 * m + 1, 0int)))
                    &&& m + 1 < n ==> final(circuit).wire(start + 14 * (m + 1) + 7, 0, Some((start + 14 * m + 4, 0int)))
                    &&& m + 1 < n ==> final(circuit).wire(start + 14 * (m + 1) + 8, 0, Some((start + 14 * m + 5, 0int)))
                },
    {
        let ghost c4 = *circuit;
        let mut k: usize = 0;
        while k < n
            invariant
                start + 15 * n + 2 < usize::MAX,
                k <= n,
                circuit.wf(),
                circuit.shape() == c4.shape(),
                circuit.types() == c4.types(),
                circuit.len() == start + 15 * n + 2,
                circuit.clock_tick_number == c4.clock_tick_number,
                c4.shape()[start + 15 * n] == (1nat, 1nat),
                c4.shape()[start + 15 * n + 1] == (1nat, 1nat),
                forall|m: int| 0 <= m < n ==> #[trigger] c4.shape()[start + 14 * m] == (1nat, 1nat),
                forall|m: int| 0 <= m < n ==> #[trigger] c4.shape()[start + 14 * m + 1] == (1nat, 1nat),
                forall|m: int| 0 <= m < n ==> #[trigger] c4.shape()[start + 14 * n + m] == (1nat, 1nat),
                forall|m: int| 0 <= m < n ==> (#[trigger] gates@[m]).wired(c4, start + 14 * m + 2),
                forall|g: int, j: int| c4.has_output(g, j) && g < start ==> #[trigger] circuit.link(g, j) == c4.link(g, j),
                forall|g: int, j: int|
                    c4.has_output(g, j) && start <= g < start + 14 * n && #[trigger] inside_xor_le(g - start)
                        ==> #[trigger] circuit.link(g, j) == c4.link(g, j),
                gates@.len() == n,
                forall|m: int|
                    0 <= m < k ==> {
                        &&& #[trigger] circuit.wire(start + 14 * m, 0, Some((start + 14 * m + 2, 0int)))
                        &&& circuit.wire(start + 14 * n + m, 0, Some((start + 14 * m + 3, 0int)))
                        &&& circuit.wire(start + 14 * m + 6, 0, Some((start + 14 * m + 1, 0int)))
                        &&& m + 1 < n ==> circuit.wire(start + 14 * (m + 1) + 7, 0, Some((start + 14 * m + 4, 0int)))
                        &&& m + 1 < n ==> circuit.wire(start + 14 * (m + 1) + 8, 0, Some((start + 14 * m + 5, 0int)))
                    },
            decreases n - k,
        {
            let kk = k;
            k = k + 1;
            let ghost before = *circuit;
            proof {
                assert(gates@[kk as int].wired(c4, start + 14 * kk + 2));
                assert(c4.shape()[start + 14 * n + kk] == (1nat, 1nat));
                assert(c4.shape()[start + 14 * kk] == (1nat, 1nat));
                assert(c4.shape()[start + 14 * kk + 1] == (1nat, 1nat));
                if kk + 1 < n {
                    assert(gates@[kk + 1].wired(c4, start + 14 * (kk + 1) + 2));
                }
            }
            Self::connect_bit(circuit, start, n, kk);
            proof {
                assert forall|m: int| 0 <= m < k implies {
                    &&& #[trigger] circuit.wire(start + 14 * m, 0, Some((start + 14 * m + 2, 0int)))
                    &&& circuit.wire(start + 14 * n + m, 0, Some((start + 14 * m + 3, 0int)))
                    &&& circuit.wire(start + 14 * m + 6, 0, Some((start + 14 * m + 1, 0int)))
                    &&& m + 1 < n ==> circuit.wire(start + 14 * (m + 1) + 7, 0, Some((start + 14 * m + 4, 0int)))
                    &&& m + 1 < n ==> circuit.wire(start + 14 * (m + 1) + 8, 0, Some((start + 14 * m + 5, 0int)))
                } by {
                    if m < kk {
                        assert(before.wire(start + 14 * m, 0, Some((start + 14 * m + 2, 0int))));
                        assert(before.wire(start + 14 * n + m, 0, Some((start + 14 * m + 3, 0int))));
                        assert(before.wire(start + 14 * m + 6, 0, Some((start + 14 * m + 1, 0int))));
                        if m + 1 < n {
                            assert(before.wire(start + 14 * (m + 1) + 7, 0, Some((start + 14 * m + 4, 0int))));
                            assert(before.wire(start + 14 * (m + 1) + 8, 0, Some((start + 14 * m + 5, 0int))));
                        }
                    }
                }
                assert forall|g: int, j: int| c4.has_output(g, j) && g < start implies #[trigger] circuit.link(g, j) == c4.link(g, j) by {
                    assert(before.link(g, j) == c4.link(g, j));
                }
                assert forall|g: int, j: int|
                    c4.has_output(g, j) && start <= g < start + 14 * n && #[trigger] inside_xor_le(g - start)
                        implies #[trigger] circuit.link(g, j) == c4.link(g, j) by {
                    assert(before.link(g, j) == c4.link(g, j));
                    lemma_inside_xor_le(g - start, kk as int);
                    lemma_inside_xor_le(g - start, kk + 1);
                }
            }
        }
        let ghost c5 = *circuit;
        proof {
            assert(gates@[0].wired(c4, start + 2));
        }
        circuit.connect(start + 7, 0, start + 15 * n + 1, 0);
        let ghost c6 = *circuit;
        circuit.connect(start + 8, 0, start + 15 * n, 0);
        proof {
            assert(c6.wire(start + 7, 0, Some((start + 15 * n + 1, 0int))));
            assert(circuit.wire(start + 7, 0, Some((start + 15 * n + 1, 0int))));
            assert forall|g: int, j: int| c4.has_output(g, j) && g < start implies #[trigger] circuit.link(g, j) == c4.link(g, j) by {
                assert(c5.link(g, j) == c4.link(g, j));
            }
            assert forall|m: int| 0 <= m < n implies (#[trigger] gates@[m]).wired(*circuit, start + 14 * m + 2) by {
                let s0 = start + 14 * m + 2;
                assert forall|g: int, j: int| (s0 <= g < s0 + 4 || s0 + 7 <= g < s0 + 12) && c4.has_output(g, j)
                    implies #[trigger] circuit.link(g, j) == c4.link(g, j) by {
                    lemma_inside_xor_le_at(g - start, m);
                    lemma_inside_xor_le(g - start, 0);
                    assert(c5.link(g, j) == c4.link(g, j));
                }
                gates@[m].lemma_wired_kept(c4, *circuit, s0);
            }
            assert forall|m: int| 0 <= m < n implies {
                &&& #[trigger] circuit.wire(start + 14 * m, 0, Some((start + 14 * m + 2, 0int)))
                &&& circuit.wire(start + 14 * n + m, 0, Some((start + 14 * m + 3, 0int)))
                &&& circuit.wire(start + 14 * m + 6, 0, Some((start + 14 * m + 1, 0int)))
                &&& m + 1 < n ==> circuit.wire(start + 14 * (m + 1) + 7, 0, Some((start + 14 * m + 4, 0int)))
                &&& m + 1 < n ==> circuit.wire(start + 14 * (m + 1) + 8, 0, Some((start + 14 * m + 5, 0int)))
            } by {
                assert(c5.wire(start + 14 * m, 0, Some((start + 14 * m + 2, 0int))));
                assert(c5.wire(start + 14 * n + m, 0, Some((start + 14 * m + 3, 0int))));
                assert(c5.wire(start + 14 * m + 6, 0, Some((start + 14 * m + 1, 0int))));
                if m + 1 < n {
                    assert(c5.wire(start + 14 * (m + 1) + 7, 0, Some((start + 14 * m + 4, 0int))));
                    assert(c5.wire(start + 14 * (m + 1) + 8, 0, Some((start + 14 * m + 5, 0int))));
                }
            }
        }
    }

    /// Adds and wires the gates of a comparator of `num_bits` bits, priming each one-bit
    /// comparator as it is added.
    #[verifier::spinoff_prover]
    #[verifier::rlimit(100)]
    fn assemble(circuit: &mut Circuit, num_bits: usize) -> (res: Result<Self, GateLogicError>)
        requires
            old(circuit).wf(),
            num_bits >= 1,
            old(circuit).len() + 15 * num_bits + 2 < usize::MAX,
        ensures
            final(circuit).wf(),
            final(circuit).clock_tick_number == old(circuit).clock_tick_number,
            old(circuit).wiring_kept(*final(circuit)),
            forall|g: int, j: int, d: Option<(int, int)>| old(circuit).wire(g, j, d) ==> #[trigger] final(circuit).wire(g, j, d),
            match res {
                Ok(gate) => {
                    &&& final(circuit).len() == old(circuit).len() + Self::spec_len(num_bits as nat)
                    &&& shape_extends(old(circuit).shape(), final(circuit).shape())
                    &&& types_extend(old(circuit).types(), final(circuit).types())
                    &&& gate.built(*final(circuit), old(circuit).len() as int, num_bits as nat)
                },
                Err(e) => crate::run_circuit::failure_shown(*final(circuit), e),
            },
    {
        let ghost c0 = *circuit;
        let start = circuit.num_gates();
        let n = num_bits;
        let mut input_gates: Vec<usize> = Vec::new();
        let mut input_tags: Vec<String> = Vec::new();
        let mut output_gates: Vec<usize> = Vec::new();
        let mut output_tags: Vec<String> = Vec::new();
        let mut gates: Vec<XOrLE> = Vec::new();
        proof {
            crate::circuit::lemma_wiring_kept_refl(c0);
            assert(c0.shape().len() == c0.len());
            assert(c0.types().len() == c0.len());
            assert(c0.types().subrange(0, c0.types().len() as int) =~= c0.types());
        }
        let mut i: usize = 0;
        while i < n
            invariant
                c0 == *old(circuit),
                start == c0.len(),
                c0.shape().len() == start,
                c0.types().len() == start,
                start + 15 * n + 2 < usize::MAX,
                i <= n,
                circuit.wf(),
                circuit.len() == start + 14 * i,
                circuit.clock_tick_number == c0.clock_tick_number,
                c0.wiring_kept(*circuit),
                shape_extends(c0.shape(), circuit.shape()),
                types_extend(c0.types(), circuit.types()),
                forall|g: int, j: int, d: Option<(int, int)>| c0.wire(g, j, d) ==> #[trigger] circuit.wire(g, j, d),
                input_gates@ == Seq::new(i as nat, |k: int| (start + 14 * k) as usize),
                output_gates@ == Seq::new(i as nat, |k: int| (start + 14 * k + 1) as usize),
                input_tags@.len() == i,
                output_tags@.len() == i,
                forall|k: int| 0 <= k < i ==> (#[trigger] input_tags@[k])@ == numbered("a_"@, k),
                forall|k: int| 0 <= k < i ==> (#[trigger] output_tags@[k])@ == numbered("o_"@, k),
                gates@.len() == i,
                forall|k: int| 0 <= k < i ==> (#[trigger] gates@[k]).built(*circuit, start + 14 * k + 2),
                forall|k: int|
                    0 <= k < i ==> {
                        let g = (#[trigger] input_gates@[k]) as int;
                        &&& circuit.shape()[g] == (1nat, 1nat)
                        &&& circuit.types()[g] == GateType::SimpleInputType
                        &&& circuit.wire(g, 0, None)
                    },
                forall|k: int|
                    0 <= k < i ==> {
                        let g = (#[trigger] output_gates@[k]) as int;
                        &&& circuit.shape()[g] == (1nat, 1nat)
                        &&& circuit.types()[g] == GateType::SimpleOutputType
                        &&& circuit.wire(g, 0, None)
                    },
            decreases n - i,
        {
            let ghost before = *circuit;
            let a_tag = numbered_tag("a_", i);
            let input = SimpleInput::new(circuit, 1, a_tag.as_str());
            let o_tag = numbered_tag("o_", i);
            let output = SimpleOutput::new(circuit, o_tag.as_str());
            let ghost mid = *circuit;
            proof {
                assert(mid.shape().subrange(0, c0.shape().len() as int) =~= c0.shape()) by {
                    assert(before.shape().subrange(0, c0.shape().len() as int) =~= c0.shape());
                }
                assert(mid.types().subrange(0, c0.types().len() as int) =~= c0.types()) by {
                    assert(before.types().subrange(0, c0.types().len() as int) =~= c0.types());
                }
            }
            let gate_k = match XOrLE::new(circuit) {
                Ok(gate_k) => gate_k,
                Err(e) => {
                    return Err(e);
                },
            };
            proof {
                assert(circuit.shape().subrange(0, c0.shape().len() as int) =~= c0.shape()) by {
                    assert(circuit.shape().subrange(0, mid.shape().len() as int) =~= mid.shape());
                }
                assert(circuit.types().subrange(0, c0.types().len() as int) =~= c0.types()) by {
                    assert(circuit.types().subrange(0, mid.types().len() as int) =~= mid.types());
                }
                assert(circuit.shape().subrange(0, mid.shape().len() as int) =~= mid.shape());
                assert(circuit.types().subrange(0, mid.types().len() as int) =~= mid.types());
                assert(mid.shape().subrange(0, before.shape().len() as int) =~= before.shape());
                assert(mid.types().subrange(0, before.types().len() as int) =~= before.types());
                crate::circuit::lemma_wiring_kept_trans(c0, before, mid);
                crate::circuit::lemma_wiring_kept_trans(c0, mid, *circuit);
                crate::circuit::lemma_wire_kept_grown(mid, *circuit);
            }
            input_gates.push(input.gate);
            output_gates.push(output.gate);
            input_tags.push(a_tag);
            output_tags.push(o_tag);
            gates.push(gate_k);
            proof {
                assert(input_gates@ =~= Seq::new(i as nat + 1, |k: int| (start + 14 * k) as usize));
                assert(output_gates@ =~= Seq::new(i as nat + 1, |k: int| (start + 14 * k + 1) as usize));
                assert forall|k: int| 0 <= k < i + 1 implies (#[trigger] gates@[k]).built(*circuit, start + 14 * k + 2) by {
                    if k < i {
                        assert(before.len() == start + 14 * i);
                        assert(circuit.shape().subrange(0, before.shape().len() as int) =~= before.shape());
                        assert(circuit.types().subrange(0, before.types().len() as int) =~= before.types());
                        crate::circuit::lemma_wire_kept_grown(before, *circuit);
                        assert(gates@[k].built(before, start + 14 * k + 2));
                    }
                }
            }
            i = i + 1;
        }
        let mut j: usize = 0;
        while j < n
            invariant
                c0 == *old(circuit),
                start == c0.len(),
                c0.shape().len() == start,
                c0.types().len() == start,
                start + 15 * n + 2 < usize::MAX,
                j <= n,
                circuit.wf(),
                circuit.len() == start + 14 * n + j,
                circuit.clock_tick_number == c0.clock_tick_number,
                c0.wiring_kept(*circuit),
                shape_extends(c0.shape(), circuit.shape()),
                types_extend(c0.types(), circuit.types()),
                forall|g: int, j2: int, d: Option<(int, int)>| c0.wire(g, j2, d) ==> #[trigger] circuit.wire(g, j2, d),
                input_gates@ == Seq::new(n as nat, |k: int| (start + 14 * k) as usize) + Seq::new(
                    j as nat,
                    |k: int| (start + 14 * n + k) as usize,
                ),
                output_gates@ == Seq::new(n as nat, |k: int| (start + 14 * k + 1) as usize),
                input_tags@.len() == n + j,
                output_tags@.len() == n,
                forall|k: int| 0 <= k < n ==> (#[trigger] input_tags@[k])@ == numbered("a_"@, k),
                forall|k: int| n <= k < n + j ==> (#[trigger] input_tags@[k])@ == numbered("b_"@, k - n),
                forall|k: int| 0 <= k < n ==> (#[trigger] output_tags@[k])@ == numbered("o_"@, k),
                gates@.len() == n,
                forall|k: int| 0 <= k < n ==> (#[trigger] gates@[k]).built(*circuit, start + 14 * k + 2),
                forall|k: int|
                    0 <= k < n + j ==> {
                        let g = (#[trigger] input_gates@[k]) as int;
                        &&& circuit.shape()[g] == (1nat, 1nat)
                        &&& circuit.types()[g] == GateType::SimpleInputType
                        &&& circuit.wire(g, 0, None)
                    },
                forall|k: int|
                    0 <= k < n ==> {
                        let g = (#[trigger] output_gates@[k]) as int;
                        &&& circuit.shape()[g] == (1nat, 1nat)
                        &&& circuit.types()[g] == GateType::SimpleOutputType
                        &&& circuit.wire(g, 0, None)
                    },
            decreases n - j,
        {
            let ghost before = *circuit;
            let b_tag = numbered_tag("b_", j);
            let input = SimpleInput::new(circuit, 1, b_tag.as_str());
            proof {
                assert(circuit.shape().subrange(0, c0.shape().len() as int) =~= c0.shape()) by {
                    assert(before.shape().subrange(0, c0.shape().len() as int) =~= c0.shape());
                }
                assert(circuit.types().subrange(0, c0.types().len() as int) =~= c0.types()) by {
                    assert(before.types().subrange(0, c0.types().len() as int) =~= c0.types());
                }
                assert(circuit.shape().subrange(0, before.shape().len() as int) =~= before.shape());
                assert(circuit.types().subrange(0, before.types().len() as int) =~= before.types());
                crate::circuit::lemma_wiring_kept_trans(c0, before, *circuit);
            }
            input_gates.push(input.gate);
            input_tags.push(b_tag);
            proof {
                assert(input_gates@ =~= Seq::new(n as nat, |k: int| (start + 14 * k) as usize) + Seq::new(
                    j as nat + 1,
                    |k: int| (start + 14 * n + k) as usize,
                ));
                assert forall|k: int| 0 <= k < n implies (#[trigger] gates@[k]).built(*circuit, start + 14 * k + 2) by {
                    assert(before.len() == start + 14 * n + j);
                }
            }
            j = j + 1;
        }
        let ghost c2 = *circuit;
        let ghost ins2 = input_gates@;
        let ghost outs2 = output_gates@;
        let l_tag = "L".to_owned();
        let l_out = SimpleOutput::new(circuit, l_tag.as_str());
        let ghost c3 = *circuit;
        let e_tag = "E".to_owned();
        let e_out = SimpleOutput::new(circuit, e_tag.as_str());
        let ghost c4 = *circuit;
        proof {
            assert(c3.shape().subrange(0, c2.shape().len() as int) =~= c2.shape());
            assert(c3.types().subrange(0, c2.types().len() as int) =~= c2.types());
            assert(c4.shape().subrange(0, c3.shape().len() as int) =~= c3.shape());
            assert(c4.types().subrange(0, c3.types().len() as int) =~= c3.types());
            assert(c4.shape().subrange(0, c0.shape().len() as int) =~= c0.shape()) by {
                assert(c2.shape().subrange(0, c0.shape().len() as int) =~= c0.shape());
            }
            assert(c4.types().subrange(0, c0.types().len() as int) =~= c0.types()) by {
                assert(c2.types().subrange(0, c0.types().len() as int) =~= c0.types());
            }
            crate::circuit::lemma_wiring_kept_trans(c0, c2, c3);
            assert(c3.shape().subrange(0, c0.shape().len() as int) =~= c0.shape()) by {
                assert(c2.shape().subrange(0, c0.shape().len() as int) =~= c0.shape());
            }
            assert(c3.types().subrange(0, c0.types().len() as int) =~= c0.types()) by {
                assert(c2.types().subrange(0, c0.types().len() as int) =~= c0.types());
            }
            crate::circuit::lemma_wiring_kept_trans(c0, c3, c4);
            assert(c4.shape().subrange(0, c2.shape().len() as int) =~= c2.shape());
            assert(c4.types().subrange(0, c2.types().len() as int) =~= c2.types());
            crate::circuit::lemma_wiring_kept_trans(c2, c3, c4);
        }
        output_gates.push(l_out.gate);
        output_tags.push(l_tag);
        output_gates.push(e_out.gate);
        output_tags.push(e_tag);
        proof {
            assert(input_gates@ =~= Seq::new(n as nat, |k: int| (start + 14 * k) as usize) + Seq::new(
                n as nat,
                |k: int| (start + 14 * n + k) as usize,
            ));
            assert(output_gates@ =~= Seq::new(n as nat, |k: int| (start + 14 * k + 1) as usize)
                + seq![(start + 15 * n) as usize, (start + 15 * n + 1) as usize]);
            assert(input_gates@[0] == start);
            assert(c2.shape().len() == c2.len());
            assert(c4.shape().len() == c4.len());
            assert(c4.len() == start + 15 * n + 2);
            assert forall|k: int| 0 <= k < n implies (#[trigger] gates@[k]).built(c4, start + 14 * k + 2) by {
                assert(gates@[k].built(c2, start + 14 * k + 2));
                crate::circuit::lemma_wire_kept_grown(c2, c4);
            }
        }
        let complex_gate = ComplexGateMembers::from_tags(
            circuit,
            GateType::VariableBitXOrLEType,
            input_gates,
            output_gates,
            input_tags,
            output_tags,
        );
        proof {
            assert(complex_gate.tag_names() =~= Seq::new(n as nat, |k: int| numbered("a_"@, k)) + Seq::new(
                n as nat,
                |k: int| numbered("b_"@, k),
            ) + Seq::new(n as nat, |k: int| numbered("o_"@, k)) + seq!["L"@, "E"@]);
        }
        proof {
            assert forall|m: int| 0 <= m < n implies (#[trigger] gates@[m]).wired(c4, start + 14 * m + 2) by {
                assert(gates@[m].built(c4, start + 14 * m + 2));
            }
            assert(c4.shape().subrange(0, c2.shape().len() as int) =~= c2.shape());
            assert(c4.types().subrange(0, c2.types().len() as int) =~= c2.types());
            assert forall|m: int| 0 <= m < n implies #[trigger] c4.shape()[start + 14 * m] == (1nat, 1nat) by {
                assert(ins2[m] == start + 14 * m);
                assert(c2.shape()[ins2[m] as int] == (1nat, 1nat));
                assert(c4.shape().subrange(0, c2.shape().len() as int)[start + 14 * m] == c4.shape()[start + 14 * m]);
                assert(c4.types().subrange(0, c2.types().len() as int)[start + 14 * m] == c4.types()[start + 14 * m]);
            }
            assert forall|m: int| 0 <= m < n implies #[trigger] c4.shape()[start + 14 * m + 1] == (1nat, 1nat) by {
                assert(outs2[m] == start + 14 * m + 1);
                assert(c2.shape()[outs2[m] as int] == (1nat, 1nat));
                assert(c4.shape().subrange(0, c2.shape().len() as int)[start + 14 * m + 1] == c4.shape()[start + 14 * m + 1]);
                assert(c4.types().subrange(0, c2.types().len() as int)[start + 14 * m + 1] == c4.types()[start + 14 * m + 1]);
            }
            assert forall|m: int| 0 <= m < n implies #[trigger] c4.shape()[start + 14 * n + m] == (1nat, 1nat) by {
                assert(ins2[n + m] == start + 14 * n + m);
                assert(c2.shape()[ins2[n + m] as int] == (1nat, 1nat));
                assert(c4.shape().subrange(0, c2.shape().len() as int)[start + 14 * n + m] == c4.shape()[start + 14 * n + m]);
                assert(c4.types().subrange(0, c2.types().len() as int)[start + 14 * n + m] == c4.types()[start + 14 * n + m]);
            }
        }
        Self::connect_bits(circuit, &gates, start, n);
        let ghost c6 = *circuit;
        proof {
            assert forall|g: int, j2: int| c0.has_output(g, j2) implies #[trigger] circuit.link(g, j2) == c0.link(g, j2) by {
                assert(c4.has_output(g, j2));
            }
            crate::circuit::lemma_wire_kept_grown(c0, c4);
        }
        let mut complex_gate = complex_gate;
        complex_gate.number_child_gates = 15 * n + 2;
        let gate = VariableBitXOrLE { complex_gate, xor_le_gates: gates };
        proof {
            assert forall|m: int| 0 <= m < n implies {
                let x = #[trigger] gate.xor_le_gates@[m];
                &&& x.wired(c6, start + 14 * m + 2)
                &&& c6.wire(start + 14 * m, 0, Some((start + 14 * m + 2, 0int)))
                &&& c6.wire(start + 14 * n + m, 0, Some((start + 14 * m + 3, 0int)))
                &&& c6.wire(start + 14 * m + 6, 0, Some((start + 14 * m + 1, 0int)))
                &&& m + 1 < n ==> c6.wire(start + 14 * (m + 1) + 7, 0, Some((start + 14 * m + 4, 0int)))
                &&& m + 1 < n ==> c6.wire(start + 14 * (m + 1) + 8, 0, Some((start + 14 * m + 5, 0int)))
            } by {
            }
            assert(gate.wired(c6, start as int, n as nat));
            assert(gate.complex_gate.tags_laid_out());
            assert(complex_fits(&gate.complex_gate, c6.shape(), c6.types()));
            assert(gate.built(c6, start as int, n as nat));
            assert(gate.xor_le_gates@[n - 1].wired(c6, start + 14 * (n - 1) + 2));
        }
        Ok(gate)
    }

    /// Adds a comparator of `num_bits` bits to the circuit and primes it. Each one-bit comparator
    /// is primed as it is added; the one of the highest bit gets `ABOVE_E` HIGH and `ABOVE_L`
    /// LOW, then the whole comparator is primed. Fails only when priming does not come to rest or two senders drive one input.
    #[verifier::spinoff_prover]
    #[verifier::rlimit(100)]
    pub fn new(circuit: &mut Circuit, num_bits: usize) -> (res: Result<Self, GateLogicError>)
        requires
            old(circuit).wf(),
            num_bits >= 1,
            old(circuit).len() + 15 * num_bits + 2 < usize::MAX,
        ensures
            final(circuit).wf(),
            final(circuit).clock_tick_number == old(circuit).clock_tick_number,
            old(circuit).wiring_kept(*final(circuit)),
            forall|g: int, j: int, d: Option<(int, int)>| old(circuit).wire(g, j, d) ==> #[trigger] final(circuit).wire(g, j, d),
            match res {
                Ok(gate) => {
                    &&& final(circuit).len() == old(circuit).len() + Self::spec_len(num_bits as nat)
                    &&& shape_extends(old(circuit).shape(), final(circuit).shape())
                    &&& types_extend(old(circuit).types(), final(circuit).types())
                    &&& gate.built(*final(circuit), old(circuit).len() as int, num_bits as nat)
                    &&& settled_from(*final(circuit), old(circuit).len() as int)
                },
                Err(e) => crate::run_circuit::failure_shown(*final(circuit), e),
            },
    {
        let ghost c0 = *circuit;
        let start = circuit.num_gates();
        let n = num_bits;
        let gate = match Self::assemble(circuit, n) {
            Ok(gate) => gate,
            Err(e) => {
                return Err(e);
            },
        };
        let ghost c6 = *circuit;
        proof {
            assert(gate.xor_le_gates@[n - 1].wired(c6, start + 14 * (n - 1) + 2));
        }
        let forced_e = circuit.update_input_signal(start + 14 * (n - 1) + 4, GateInput::new(0, Signal::HIGH, UniqueID::zero_id()));
        let ghost c7 = *circuit;
        proof {
            crate::circuit::lemma_wire_kept(c6, c7);
            assert forall|g: int, j: int, d: Option<(int, int)>| c0.wire(g, j, d) implies #[trigger] c7.wire(g, j, d) by {
                assert(c6.wire(g, j, d));
            }
            crate::circuit::lemma_wiring_kept_trans(c0, c6, c7);
        }
        if let Err(e) = forced_e {
            return Err(e);
        }
        let forced_l = circuit.update_input_signal(start + 14 * (n - 1) + 5, GateInput::new(0, Signal::LOW_, UniqueID::zero_id()));
        let ghost c8 = *circuit;
        proof {
            crate::circuit::lemma_wire_kept(c7, c8);
            crate::circuit::lemma_wiring_kept_trans(c0, c6, c7);
            crate::circuit::lemma_wiring_kept_trans(c0, c7, c8);
            assert forall|m: int| 0 <= m < n implies (#[trigger] gate.xor_le_gates@[m]).wired(c8, start + 14 * m + 2) by {
                assert(gate.xor_le_gates@[m].wired(c6, start + 14 * m + 2));
            }
            assert(gate.wired(c8, start as int, n as nat));
            assert(gate.built(c8, start as int, n as nat));
        }
        if let Err(e) = forced_l {
            return Err(e);
        }
        let primed = circuit.prime_from(start);
        proof {
            crate::circuit::lemma_wire_kept(c8, *circuit);
            crate::circuit::lemma_wiring_kept_trans(c0, c8, *circuit);
            assert forall|m: int| 0 <= m < n implies (#[trigger] gate.xor_le_gates@[m]).wired(*circuit, start + 14 * m + 2) by {
                assert(gate.xor_le_gates@[m].wired(c8, start + 14 * m + 2));
            }
        }
        match primed {
            Ok(()) => Ok(gate),
            Err(e) => Err(e),
        }
    }
}


impl LogicGate for VariableBitXOrLE {
    open spec fn spec_input_pin(&self, index: int) -> (int, int) {
        (self.complex_gate.input_gates@[index] as int, 0)
    }

    open spec fn spec_output_pin(&self, index: int) -> (int, int) {
        (self.complex_gate.output_gates@[index] as int, 0)
    }

    open spec fn spec_num_inputs(&self) -> nat {
        self.complex_gate.input_gates@.len()
    }

    open spec fn spec_num_outputs(&self) -> nat {
        self.complex_gate.output_gates@.len()
    }

    open spec fn spec_gate_type(&self) -> GateType {
        self.complex_gate.gate_type
    }

    open spec fn spec_unique_id(&self) -> UniqueID {
        self.complex_gate.unique_id
    }

    fn input_pin(&self, index: usize) -> (res: (usize, usize)) {
        (self.complex_gate.input_gates[index], 0)
    }

    fn output_pin(&self, index: usize) -> (res: (usize, usize)) {
        (self.complex_gate.output_gates[index], 0)
    }

    fn num_inputs(&self) -> (res: usize) {
        self.complex_gate.input_gates.len()
    }

    fn num_outputs(&self) -> (res: usize) {
        self.complex_gate.output_gates.len()
    }

    fn get_gate_type(&self) -> (res: GateType) {
        self.complex_gate.gate_type
    }

    fn get_unique_id(&self) -> (res: UniqueID) {
        self.complex_gate.unique_id
    }
}

impl VariableBitXOrLE {
    /// The input or output index that `tag` names.
    pub fn get_index_from_tag(&self, tag: &str) -> (res: Option<usize>)
        ensures
            res == last_tag_index(self.complex_gate.gate_tags_to_index@, tag@),
    {
        self.complex_gate.get_index_from_tag(tag)
    }

    /// Brings the outputs up to date with what reaches them and returns their states.
    pub fn fetch_output_signals(&self, circuit: &mut Circuit) -> (res: Vec<GateOutputState>)
        requires
            old(circuit).wf(),
            complex_fits(&self.complex_gate, old(circuit).shape(), old(circuit).types()),
        ensures
            final(circuit).wf(),
            final(circuit).shape() == old(circuit).shape(),
            final(circuit).types() == old(circuit).types(),
            old(circuit).wiring_kept(*final(circuit)),
            res@.len() == self.complex_gate.output_gates@.len(),
            forall|i: int| 0 <= i < res@.len() ==> #[trigger] res@[i] == final(circuit).node(self.complex_gate.output_gates@[i] as int).outputs()[0],
    {
        proof {
            assert forall|i: int| 0 <= i < self.complex_gate.output_gates@.len() implies #[trigger] old(circuit).has_output(self.complex_gate.output_gates@[i] as int, 0) by {}
        }
        self.complex_gate.fetch_output_signals_calculate(circuit)
    }

    pub fn get_tag(&self) -> (res: String)
        ensures
            res@ == self.complex_gate.tag@,
    {
        self.complex_gate.tag.clone()
    }

    pub fn set_tag(&mut self, tag: &str)
        ensures
            final(self).complex_gate.tag@ == tag@,
            final(self).complex_gate.input_gates == old(self).complex_gate.input_gates,
            final(self).complex_gate.output_gates == old(self).complex_gate.output_gates,
            final(self).complex_gate.gate_tags_to_index == old(self).complex_gate.gate_tags_to_index,
    {
        self.complex_gate.tag = tag.to_owned();
    }

    pub fn toggle_output_printing(&mut self, print_output: bool)
        ensures
            final(self).complex_gate.should_print_output == print_output,
            final(self).complex_gate.input_gates == old(self).complex_gate.input_gates,
            final(self).complex_gate.output_gates == old(self).complex_gate.output_gates,
    {
        self.complex_gate.should_print_output = print_output;
    }

    /// The number of circuit gates that make up this gate.
    pub fn num_children_gates(&self) -> (res: usize)
        ensures
            res == self.complex_gate.number_child_gates,
    {
        self.complex_gate.number_child_gates
    }
}

/// Where output `k` of the first register of a shifter of `n` bits standing at `start` goes:
/// to `S_OUT` for the bit shifted out, else to the neighbouring input of the second register.
pub open spec fn shift_target(start: int, n: int, k: int, left: bool) -> (int, int) {
    let r2 = start + 19 * n + 7;
    if (left && k == n - 1) || (!left && k == 0) {
        (start + 2 * n + 1, 0)
    } else {
        (r2 + 2 * (if left { k + 1 } else { k - 1 }), 0)
    }
}

/// Bit `k` of a shifter of `n` bits standing at `start` in `c` is wired: `i_<k>` into the first
/// register, its output `k` on to `shift_target`, and output `k` of the second register to `o_<k>`.
pub open spec fn shift_bit_wired(c: Circuit, start: int, n: int, k: int, left: bool) -> bool {
    let r1 = start + 2 * n + 2;
    let r2 = start + 19 * n + 7;
    &&& c.wire(start + 2 * k, 0, Some((r1 + 2 * k, 0int)))
    &&& c.wire(r1 + 2 * k + 1, 0, Some(shift_target(start, n, k, left)))
    &&& c.wire(r2 + 2 * k + 1, 0, Some((start + 2 * k + 1, 0int)))
}

/// The pins that wiring bit `k` of a shifter of `n` bits standing at `start` in `c` uses exist.
pub open spec fn shift_bit_pins(c: Circuit, start: int, n: int, k: int, left: bool) -> bool {
    let r1 = start + 2 * n + 2;
    let r2 = start + 19 * n + 7;
    &&& c.has_output(start + 2 * k, 0)
    &&& c.has_input(r1 + 2 * k, 0)
    &&& c.has_output(r1 + 2 * k + 1, 0)
    &&& c.has_input(shift_target(start, n, k, left).0, 0)
    &&& c.has_output(r2 + 2 * k + 1, 0)
    &&& c.has_input(start + 2 * k + 1, 0)
}

/// A shifter of `num_bits` bits: `o_<k>` is `i_<k - 1>` (with `S_IN` shifted in at bit 0) and
/// `S_OUT` the highest input bit when `LEFT_SHIFT`; otherwise `o_<k>` is `i_<k + 1>` (with
/// `S_IN` at the highest bit) and `S_OUT` is `i_0`. It passes the bits through two registers
/// whose `S` and `E` are held HIGH.
pub struct VariableBitShiftLeft<const LEFT_SHIFT: bool> {
    pub complex_gate: ComplexGateMembers,
    pub first_register: VariableBitRegister,
    pub second_register: VariableBitRegister,
}

impl<const LEFT_SHIFT: bool> VariableBitShiftLeft<LEFT_SHIFT> {
    /// The number of circuit gates a shifter of `n` bits uses.
    pub open spec fn spec_len(n: nat) -> nat {
        36 * n + 12
    }

    /// Where the pins and the registers of a shifter of `n` bits standing at `start` are:
    /// inputs `i_<k>` and outputs `o_<k>` in turns, then `S_IN`, `S_OUT` and the two registers.
    pub open spec fn positions(&self, start: int, n: nat) -> bool {
        let nn = n as int;
        let r1 = start + 2 * nn + 2;
        let r2 = start + 19 * nn + 7;
        &&& self.complex_gate.input_gates@ == Seq::new(n, |k: int| (start + 2 * k) as usize).push((start + 2 * nn) as usize)
        &&& self.complex_gate.output_gates@ == Seq::new(n, |k: int| (start + 2 * k + 1) as usize).push(
            (start + 2 * nn + 1) as usize,
        )
        &&& self.complex_gate.gate_type == GateType::VariableBitShiftLeftType
        &&& self.first_register.complex_gate.input_gates@ == Seq::new(n, |k: int| (r1 + 2 * k) as usize) + seq![
            (r1 + 3 * nn) as usize,
            (r1 + 3 * nn + 1) as usize,
        ]
        &&& self.first_register.complex_gate.output_gates@ == Seq::new(n, |k: int| (r1 + 2 * k + 1) as usize)
            + Seq::new(n, |k: int| (r1 + 2 * nn + k) as usize)
        &&& self.second_register.complex_gate.input_gates@ == Seq::new(n, |k: int| (r2 + 2 * k) as usize) + seq![
            (r2 + 3 * nn) as usize,
            (r2 + 3 * nn + 1) as usize,
        ]
        &&& self.second_register.complex_gate.output_gates@ == Seq::new(n, |k: int| (r2 + 2 * k + 1) as usize)
            + Seq::new(n, |k: int| (r2 + 2 * nn + k) as usize)
    }

    /// This shifter stands at gates `start..start + 36 * n + 12` of `c`, laid out as
    /// `positions` says, with every bit wired as `shift_bit_wired` says and `S_IN` feeding the
    /// input of the second register that no bit reaches.
    pub open spec fn wired(&self, c: Circuit, start: int, n: nat) -> bool {
        let nn = n as int;
        let r2 = start + 19 * nn + 7;
        &&& self.positions(start, n)
        &&& c.wire(start + 2 * nn, 0, Some((r2 + 2 * (if LEFT_SHIFT { 0 } else { nn - 1 }), 0int)))
        &&& forall|k: int| 0 <= k < nn ==> #[trigger] shift_bit_wired(c, start, nn, k, LEFT_SHIFT)
    }

    /// Wired as above, with its inputs and outputs in the circuit and tagged `i_<k>`, `S_IN`,
    /// `o_<k>`, `S_OUT`.
    pub open spec fn built(&self, c: Circuit, start: int, n: nat) -> bool {
        &&& self.wired(c, start, n)
        &&& complex_fits(&self.complex_gate, c.shape(), c.types())
        &&& self.complex_gate.tag_names() == Seq::new(n, |k: int| numbered("i_"@, k)) + seq!["S_IN"@]
            + Seq::new(n, |k: int| numbered("o_"@, k)) + seq!["S_OUT"@]
        &&& self.complex_gate.tags_laid_out()
    }

    /// The gates of this shifter stand from `start` on in `c`, with its inputs and outputs
    /// tagged, but not yet wired.
    pub open spec fn laid_out(&self, c: Circuit, start: int, n: nat) -> bool {
        let nn = n as int;
        let r1 = start + 2 * nn + 2;
        let r2 = start + 19 * nn + 7;
        &&& self.positions(start, n)
        &&& complex_fits(&self.complex_gate, c.shape(), c.types())
        &&& self.complex_gate.tag_names() == Seq::new(n, |k: int| numbered("i_"@, k)) + seq!["S_IN"@]
            + Seq::new(n, |k: int| numbered("o_"@, k)) + seq!["S_OUT"@]
        &&& self.complex_gate.tags_laid_out()
        &&& c.len() == start + 36 * nn + 12
        &&& c.has_output(start + 2 * nn, 0)
        &&& c.has_input(r2 + 2 * (if LEFT_SHIFT { 0 } else { nn - 1 }), 0)
        &&& c.has_input(r1 + 3 * nn, 0)
        &&& c.has_input(r1 + 3 * nn + 1, 0)
        &&& c.has_input(r2 + 3 * nn, 0)
        &&& c.has_input(r2 + 3 * nn + 1, 0)
        &&& forall|k: int| 0 <= k < nn ==> #[trigger] shift_bit_pins(c, start, nn, k, LEFT_SHIFT)
    }
}

impl<const LEFT_SHIFT: bool> VariableBitShiftLeft<LEFT_SHIFT> {
    /// Adds the gates of a shifter of `num_bits` bits, priming its registers as they are
    /// added, without wiring them.
    #[verifier::spinoff_prover]
    #[verifier::rlimit(100)]
    fn assemble(circuit: &mut Circuit, num_bits: usize) -> (res: Result<Self, GateLogicError>)
        requires
            old(circuit).wf(),
            num_bits >= 1,
            old(circuit).len() + 36 * num_bits + 12 < usize::MAX,
        ensures
            final(circuit).wf(),
            final(circuit).clock_tick_number == old(circuit).clock_tick_number,
            old(circuit).wiring_kept(*final(circuit)),
            forall|g: int, j: int, d: Option<(int, int)>| old(circuit).wire(g, j, d) ==> #[trigger] final(circuit).wire(g, j, d),
            match res {
                Ok(gate) => {
                    &&& shape_extends(old(circuit).shape(), final(circuit).shape())
                    &&& types_extend(old(circuit).types(), final(circuit).types())
                    &&& gate.laid_out(*final(circuit), old(circuit).len() as int, num_bits as nat)
                },
                Err(e) => crate::run_circuit::failure_shown(*final(circuit), e),
            },
    {
        let ghost c0 = *circuit;
        let start = circuit.num_gates();
        let n = num_bits;
        let mut input_gates: Vec<usize> = Vec::new();
        let mut input_tags: Vec<String> = Vec::new();
        let mut output_gates: Vec<usize> = Vec::new();
        let mut output_tags: Vec<String> = Vec::new();
        build_simple_inputs_and_outputs(circuit, n, &mut input_gates, &mut input_tags, &mut output_gates, &mut output_tags);
        let ghost c1 = *circuit;
        let ghost it1 = input_tags@;
        let ghost ot1 = output_tags@;
        let s_in_tag = "S_IN".to_owned();
        let s_in = SimpleInput::new(circuit, 1, s_in_tag.as_str());
        let s_out_tag = "S_OUT".to_owned();
        let s_out = SimpleOutput::new(circuit, s_out_tag.as_str());
        let ghost c2 = *circuit;
        input_gates.push(s_in.gate);
        input_tags.push(s_in_tag);
        output_gates.push(s_out.gate);
        output_tags.push(s_out_tag);
        proof {
            assert(c0.shape().len() == c0.len());
            assert(c1.shape().len() == c1.len());
            assert(c1.types().len() == c1.len());
            assert(c2.shape().len() == c2.len());
            assert(c2.types().len() == c2.len());
            assert(c2.shape() =~= c1.shape() + seq![(1nat, 1nat), (1nat, 1nat)]);
            assert(c2.types() =~= c1.types() + seq![GateType::SimpleInputType, GateType::SimpleOutputType]);
            assert(c2.shape().subrange(0, c1.shape().len() as int) =~= c1.shape());
            assert(c2.types().subrange(0, c1.types().len() as int) =~= c1.types());
            assert(c2.shape().subrange(0, c0.shape().len() as int) =~= c0.shape()) by {
                assert(c1.shape().subrange(0, c0.shape().len() as int) =~= c0.shape());
            }
            assert(c2.types().subrange(0, c0.types().len() as int) =~= c0.types()) by {
                assert(c1.types().subrange(0, c0.types().len() as int) =~= c0.types());
            }
            crate::circuit::lemma_wiring_kept_trans(c0, c1, c2);
        }
        let first_register = match VariableBitRegister::new(circuit, n) {
            Ok(r) => r,
            Err(e) => {
                return Err(e);
            },
        };
        let ghost c3 = *circuit;
        let second_register = match VariableBitRegister::new(circuit, n) {
            Ok(r) => r,
            Err(e) => {
                return Err(e);
            },
        };
        let ghost c4 = *circuit;
        proof {
            assert(c3.shape().len() == c3.len());
            assert(c4.shape().len() == c4.len());
            assert(c4.types().len() == c4.len());
            assert(c4.shape().subrange(0, c2.shape().len() as int) =~= c2.shape()) by {
                assert(c4.shape().subrange(0, c3.shape().len() as int) =~= c3.shape());
                assert(c3.shape().subrange(0, c2.shape().len() as int) =~= c2.shape());
            }
            assert(c4.types().subrange(0, c2.types().len() as int) =~= c2.types()) by {
                assert(c4.types().subrange(0, c3.types().len() as int) =~= c3.types());
                assert(c3.types().subrange(0, c2.types().len() as int) =~= c2.types());
            }
            assert(c4.shape().subrange(0, c3.shape().len() as int) =~= c3.shape());
            assert(c4.shape().subrange(0, c1.shape().len() as int) =~= c1.shape());
            assert(c4.types().subrange(0, c1.types().len() as int) =~= c1.types());
            assert(c4.shape().subrange(0, c0.shape().len() as int) =~= c0.shape());
            assert(c4.types().subrange(0, c0.types().len() as int) =~= c0.types());
            assert(c3.shape().subrange(0, c0.shape().len() as int) =~= c0.shape()) by {
                assert(c3.shape().subrange(0, c2.shape().len() as int) =~= c2.shape());
            }
            crate::circuit::lemma_wiring_kept_trans(c0, c2, c3);
            crate::circuit::lemma_wiring_kept_trans(c0, c3, c4);
        }
        let ghost ins = input_gates@;
        let ghost outs = output_gates@;
        let ghost itags = input_tags@;
        let ghost otags = output_tags@;
        let complex_gate = ComplexGateMembers::from_tags(
            circuit,
            GateType::VariableBitShiftLeftType,
            input_gates,
            output_gates,
            input_tags,
            output_tags,
        );
        let mut complex_gate = complex_gate;
        complex_gate.number_child_gates = 36 * n + 12;
        let r1 = start + 2 * n + 2;
        let r2 = start + 19 * n + 7;
        let gate = VariableBitShiftLeft::<LEFT_SHIFT> { complex_gate, first_register, second_register };
        proof {
            assert(itags.len() == n + 1);
            assert(otags.len() == n + 1);
            let expected = Seq::new(n as nat, |k: int| numbered("i_"@, k)) + seq!["S_IN"@]
                + Seq::new(n as nat, |k: int| numbered("o_"@, k)) + seq!["S_OUT"@];
            assert forall|i: int| 0 <= i < gate.complex_gate.tag_names().len() implies #[trigger] gate.complex_gate.tag_names()[i] == expected[i] by {
                if i < n {
                    assert(it1[0 + i]@ == numbered("i_"@, i));
                    assert(itags[i] == it1[i]);
                } else if i < n + 1 {
                } else if i < 2 * n + 1 {
                    let k = i - n - 1;
                    assert(ot1[0 + k]@ == numbered("o_"@, k));
                    assert(otags[k] == ot1[k]);
                } else {
                }
            }
            assert(gate.complex_gate.tag_names() =~= expected);
            assert(ins =~= Seq::new(n as nat, |k: int| (start + 2 * k) as usize).push((start + 2 * n) as usize));
            assert(outs =~= Seq::new(n as nat, |k: int| (start + 2 * k + 1) as usize).push((start + 2 * n + 1) as usize));
            assert(gate.positions(start as int, n as nat));
            assert(c4.shape()[start + 2 * n] == c2.shape()[start + 2 * n]);
            assert(c4.shape()[start + 2 * n + 1] == c2.shape()[start + 2 * n + 1]);
            assert(c4.types()[start + 2 * n] == c2.types()[start + 2 * n]);
            assert(c4.types()[start + 2 * n + 1] == c2.types()[start + 2 * n + 1]);
            assert(first_register.complex_gate.input_gates@[n as int] == r1 + 3 * n);
            assert(first_register.complex_gate.input_gates@[n + 1] == r1 + 3 * n + 1);
            assert(second_register.complex_gate.input_gates@[n as int] == r2 + 3 * n);
            assert(second_register.complex_gate.input_gates@[n + 1] == r2 + 3 * n + 1);
            assert(c4.shape()[r1 + 3 * n] == c3.shape()[r1 + 3 * n]);
            assert(c4.shape()[r1 + 3 * n + 1] == c3.shape()[r1 + 3 * n + 1]);
            let s_target = r2 + 2 * (if LEFT_SHIFT { 0 } else { n - 1 });
            let s_index: int = if LEFT_SHIFT { 0 } else { n - 1 };
            assert(second_register.complex_gate.input_gates@[s_index] == s_target);
            assert forall|k: int| 0 <= k < n implies #[trigger] shift_bit_pins(c4, start as int, n as int, k, LEFT_SHIFT) by {
                assert(fresh_input(c1, start + 2 * k));
                assert(fresh_output(c1, start + 2 * k + 1));
                assert(c4.shape()[start + 2 * k] == c1.shape()[start + 2 * k]);
                assert(c4.shape()[start + 2 * k + 1] == c1.shape()[start + 2 * k + 1]);
                assert(first_register.complex_gate.input_gates@[k] == r1 + 2 * k);
                assert(first_register.complex_gate.output_gates@[k] == r1 + 2 * k + 1);
                assert(second_register.complex_gate.output_gates@[k] == r2 + 2 * k + 1);
                assert(c4.shape()[r1 + 2 * k] == c3.shape()[r1 + 2 * k]);
                assert(c4.shape()[r1 + 2 * k + 1] == c3.shape()[r1 + 2 * k + 1]);
                let t = shift_target(start as int, n as int, k, LEFT_SHIFT);
                if !((LEFT_SHIFT && k == n - 1) || (!LEFT_SHIFT && k == 0)) {
                    let kk: int = if LEFT_SHIFT { k + 1 } else { k - 1 };
                    assert(second_register.complex_gate.input_gates@[kk] == r2 + 2 * kk);
                }
            }
            assert forall|i: int| 0 <= i < gate.complex_gate.input_gates@.len() implies {
                let g = #[trigger] gate.complex_gate.input_gates@[i] as int;
                0 <= g < c4.shape().len() && c4.shape()[g].0 >= 1 && c4.types()[g] == GateType::SimpleInputType
            } by {
                if i < n {
                    assert(fresh_input(c1, start + 2 * i));
                    assert(c4.types()[start + 2 * i] == c1.types()[start + 2 * i]);
                    assert(c4.shape()[start + 2 * i] == c1.shape()[start + 2 * i]);
                }
            }
            assert forall|i: int| 0 <= i < gate.complex_gate.output_gates@.len() implies {
                let g = #[trigger] gate.complex_gate.output_gates@[i] as int;
                0 <= g < c4.shape().len() && c4.shape()[g].1 >= 1 && c4.types()[g] == GateType::SimpleOutputType
            } by {
                if i < n {
                    assert(fresh_output(c1, start + 2 * i + 1));
                    assert(c4.types()[start + 2 * i + 1] == c1.types()[start + 2 * i + 1]);
                    assert(c4.shape()[start + 2 * i + 1] == c1.shape()[start + 2 * i + 1]);
                }
            }
            assert(gate.laid_out(c4, start as int, n as nat));
        }
        Ok(gate)
    }

    /// Connects bit `k` of a shifter whose gates stand from `start` on.
    fn connect_bit(circuit: &mut Circuit, start: usize, n: usize, k: usize)
        requires
            old(circuit).wf(),
            k < n,
            start + 36 * n + 12 < usize::MAX,
            shift_bit_pins(*old(circuit), start as int, n as int, k as int, LEFT_SHIFT),
        ensures
            final(circuit).wf(),
            final(circuit).shape() == old(circuit).shape(),
            final(circuit).types() == old(circuit).types(),
            final(circuit).clock_tick_number == old(circuit).clock_tick_number,
            shift_bit_wired(*final(circuit), start as int, n as int, k as int, LEFT_SHIFT),
            forall|g: int, j: int|
                old(circuit).has_output(g, j) && g != start + 2 * k && g != start + 2 * n + 2 + 2 * k + 1
                    && g != start + 19 * n + 7 + 2 * k + 1 ==> #[trigger] final(circuit).link(g, j) == old(circuit).link(g, j),
    {
        let r1 = start + 2 * n + 2;
        let r2 = start + 19 * n + 7;
        circuit.connect(start + 2 * k, 0, r1 + 2 * k, 0);
        if (LEFT_SHIFT && k == n - 1) || (!LEFT_SHIFT && k == 0) {
            circuit.connect(r1 + 2 * k + 1, 0, start + 2 * n + 1, 0);
        } else {
            let second_index = if LEFT_SHIFT {
                k + 1
            } else {
                k - 1
            };
            circuit.connect(r1 + 2 * k + 1, 0, r2 + 2 * second_index, 0);
        }
        circuit.connect(r2 + 2 * k + 1, 0, start + 2 * k + 1, 0);
    }

    /// Connects the bits of a shifter whose gates stand from `start` on.
    #[verifier::spinoff_prover]
    #[verifier::rlimit(100)]
    fn connect_bits(circuit: &mut Circuit, start: usize, n: usize)
        requires
            old(circuit).wf(),
            start + 36 * n + 12 < usize::MAX,
            forall|k: int| 0 <= k < n ==> #[trigger] shift_bit_pins(*old(circuit), start as int, n as int, k, LEFT_SHIFT),
        ensures
            final(circuit).wf(),
            final(circuit).shape() == old(circuit).shape(),
            final(circuit).types() == old(circuit).types(),
            final(circuit).clock_tick_number == old(circuit).clock_tick_number,
            forall|g: int, j: int| old(circuit).has_output(g, j) && g < start + 2 * n + 2 && g != start + 2 * n + 1 && (g >= start ==> g == start + 2 * n || (g - start) % 2 == 1)
                ==> #[trigger] final(circuit).link(g, j) == old(circuit).link(g, j),
            forall|k: int| 0 <= k < n ==> #[trigger] shift_bit_wired(*final(circuit), start as int, n as int, k, LEFT_SHIFT),
    {
        let ghost c4 = *circuit;
        let mut k: usize = 0;
        while k < n
            invariant
                start + 36 * n + 12 < usize::MAX,
                k <= n,
                circuit.wf(),
                circuit.shape() == c4.shape(),
                circuit.types() == c4.types(),
                circuit.clock_tick_number == c4.clock_tick_number,
                forall|m: int| 0 <= m < n ==> #[trigger] shift_bit_pins(c4, start as int, n as int, m, LEFT_SHIFT),
                forall|g: int, j: int| c4.has_output(g, j) && g < start + 2 * n + 2 && g != start + 2 * n + 1 && (g >= start ==> g == start + 2 * n || (g - start) % 2 == 1)
                    ==> #[trigger] circuit.link(g, j) == c4.link(g, j),
                forall|m: int| 0 <= m < k ==> #[trigger] shift_bit_wired(*circuit, start as int, n as int, m, LEFT_SHIFT),
            decreases n - k,
        {
            let kk = k;
            k = k + 1;
            let ghost before = *circuit;
            proof {
                assert(shift_bit_pins(c4, start as int, n as int, kk as int, LEFT_SHIFT));
            }
            Self::connect_bit(circuit, start, n, kk);
            proof {
                assert forall|m: int| 0 <= m < k implies #[trigger] shift_bit_wired(*circuit, start as int, n as int, m, LEFT_SHIFT) by {
                    if m < kk {
                        assert(shift_bit_wired(before, start as int, n as int, m, LEFT_SHIFT));
                        let r1 = start + 2 * n + 2;
                        let r2 = start + 19 * n + 7;
                        assert(before.link(start + 2 * m, 0) == circuit.link(start + 2 * m, 0));
                        assert(before.link(r1 + 2 * m + 1, 0) == circuit.link(r1 + 2 * m + 1, 0));
                        assert(before.link(r2 + 2 * m + 1, 0) == circuit.link(r2 + 2 * m + 1, 0));
                    }
                }
                assert forall|g: int, j: int|
                    c4.has_output(g, j) && g < start + 2 * n + 2 && g != start + 2 * n + 1 && (g >= start ==> g == start + 2 * n || (g - start) % 2 == 1)
                        implies #[trigger] circuit.link(g, j) == c4.link(g, j) by {
                    assert(before.link(g, j) == c4.link(g, j));
                    assert((2 * kk) % 2 == 0) by (nonlinear_arith);
                }
            }
        }
    }

    /// Adds a shifter of `num_bits` bits to the circuit, holds `S` and `E` of both registers
    /// HIGH, wires it and primes it. Fails only when priming does not come to rest or two senders drive one input.
    #[verifier::spinoff_prover]
    #[verifier::rlimit(100)]
    pub fn new(circuit: &mut Circuit, num_bits: usize) -> (res: Result<Self, GateLogicError>)
        requires
            old(circuit).wf(),
            num_bits >= 1,
            old(circuit).len() + 36 * num_bits + 12 < usize::MAX,
        ensures
            final(circuit).wf(),
            final(circuit).clock_tick_number == old(circuit).clock_tick_number,
            old(circuit).wiring_kept(*final(circuit)),
            forall|g: int, j: int, d: Option<(int, int)>| old(circuit).wire(g, j, d) ==> #[trigger] final(circuit).wire(g, j, d),
            match res {
                Ok(gate) => {
                    &&& final(circuit).len() == old(circuit).len() + Self::spec_len(num_bits as nat)
                    &&& shape_extends(old(circuit).shape(), final(circuit).shape())
                    &&& types_extend(old(circuit).types(), final(circuit).types())
                    &&& gate.built(*final(circuit), old(circuit).len() as int, num_bits as nat)
                    &&& settled_from(*final(circuit), old(circuit).len() as int)
                },
                Err(e) => crate::run_circuit::failure_shown(*final(circuit), e),
            },
    {
        let ghost c0 = *circuit;
        let start = circuit.num_gates();
        let n = num_bits;
        let gate = match Self::assemble(circuit, n) {
            Ok(gate) => gate,
            Err(e) => {
                return Err(e);
            },
        };
        let ghost c4 = *circuit;
        let r1 = start + 2 * n + 2;
        let r2 = start + 19 * n + 7;
        let f1 = circuit.update_input_signal(r1 + 3 * n, GateInput::new(0, Signal::HIGH, UniqueID::zero_id()));
        if f1.is_err() {
            proof {
                crate::circuit::lemma_wire_kept_grown(c0, c4);
                crate::circuit::lemma_wire_kept(c4, *circuit);
                crate::circuit::lemma_wiring_kept_trans(c0, c4, *circuit);
            }
            return Err(GateLogicError::OscillationDetected);
        }
        let f2 = circuit.update_input_signal(r1 + 3 * n + 1, GateInput::new(0, Signal::HIGH, UniqueID::zero_id()));
        let f3 = circuit.update_input_signal(r2 + 3 * n, GateInput::new(0, Signal::HIGH, UniqueID::zero_id()));
        let f4 = circuit.update_input_signal(r2 + 3 * n + 1, GateInput::new(0, Signal::HIGH, UniqueID::zero_id()));
        let ghost c5 = *circuit;
        proof {
            crate::circuit::lemma_wire_kept_grown(c0, c4);
            crate::circuit::lemma_wiring_kept_trans(c0, c4, c5);
            crate::circuit::lemma_wire_kept(c4, c5);
            assert forall|k: int| 0 <= k < n implies #[trigger] shift_bit_pins(c5, start as int, n as int, k, LEFT_SHIFT) by {
                assert(shift_bit_pins(c4, start as int, n as int, k, LEFT_SHIFT));
            }
        }
        if f2.is_err() || f3.is_err() || f4.is_err() {
            return Err(GateLogicError::OscillationDetected);
        }
        Self::connect_bits(circuit, start, n);
        let ghost c6 = *circuit;
        let s_index = if LEFT_SHIFT {
            0
        } else {
            n - 1
        };
        circuit.connect(start + 2 * n, 0, r2 + 2 * s_index, 0);
        let ghost c7 = *circuit;
        proof {
            assert(c6.link(start + 2 * n, 0) == c5.link(start + 2 * n, 0));
            assert forall|k: int| 0 <= k < n implies #[trigger] shift_bit_wired(c7, start as int, n as int, k, LEFT_SHIFT) by {
                assert(shift_bit_wired(c6, start as int, n as int, k, LEFT_SHIFT));
            }
            assert forall|g: int, j2: int| c0.has_output(g, j2) implies #[trigger] c7.link(g, j2) == c0.link(g, j2) by {
                assert(c4.has_output(g, j2));
                assert(c5.link(g, j2) == c0.link(g, j2));
                assert(c6.link(g, j2) == c5.link(g, j2));
            }
            crate::circuit::lemma_wire_kept_grown(c0, c7);
            assert(gate.wired(c7, start as int, n as nat));
            assert(gate.built(c7, start as int, n as nat));
        }
        let primed = circuit.prime_from(start);
        proof {
            crate::circuit::lemma_wire_kept(c7, *circuit);
            crate::circuit::lemma_wiring_kept_trans(c0, c7, *circuit);
            assert forall|k: int| 0 <= k < n implies #[trigger] shift_bit_wired(*circuit, start as int, n as int, k, LEFT_SHIFT) by {
                assert(shift_bit_wired(c7, start as int, n as int, k, LEFT_SHIFT));
            }
            assert(gate.wired(*circuit, start as int, n as nat));
            assert(gate.built(*circuit, start as int, n as nat));
            assert(circuit.shape().subrange(0, c0.shape().len() as int) =~= c0.shape()) by {
                assert(c4.shape().subrange(0, c0.shape().len() as int) =~= c0.shape());
            }
            assert(circuit.types().subrange(0, c0.types().len() as int) =~= c0.types()) by {
                assert(c4.types().subrange(0, c0.types().len() as int) =~= c0.types());
            }
        }
        match primed {
            Ok(()) => Ok(gate),
            Err(e) => Err(e),
        }
    }
}

impl<const LEFT_SHIFT: bool> LogicGate for VariableBitShiftLeft<LEFT_SHIFT> {
    open spec fn spec_input_pin(&self, index: int) -> (int, int) {
        (self.complex_gate.input_gates@[index] as int, 0)
    }

    open spec fn spec_output_pin(&self, index: int) -> (int, int) {
        (self.complex_gate.output_gates@[index] as int, 0)
    }

    open spec fn spec_num_inputs(&self) -> nat {
        self.complex_gate.input_gates@.len()
    }

    open spec fn spec_num_outputs(&self) -> nat {
        self.complex_gate.output_gates@.len()
    }

    open spec fn spec_gate_type(&self) -> GateType {
        self.complex_gate.gate_type
    }

    open spec fn spec_unique_id(&self) -> UniqueID {
        self.complex_gate.unique_id
    }

    fn input_pin(&self, index: usize) -> (res: (usize, usize)) {
        (self.complex_gate.input_gates[index], 0)
    }

    fn output_pin(&self, index: usize) -> (res: (usize, usize)) {
        (self.complex_gate.output_gates[index], 0)
    }

    fn num_inputs(&self) -> (res: usize) {
        self.complex_gate.input_gates.len()
    }

    fn num_outputs(&self) -> (res: usize) {
        self.complex_gate.output_gates.len()
    }

    fn get_gate_type(&self) -> (res: GateType) {
        self.complex_gate.gate_type
    }

    fn get_unique_id(&self) -> (res: UniqueID) {
        self.complex_gate.unique_id
    }
}

impl<const LEFT_SHIFT: bool> VariableBitShiftLeft<LEFT_SHIFT> {
    /// The input or output index that `tag` names.
    pub fn get_index_from_tag(&self, tag: &str) -> (res: Option<usize>)
        ensures
            res == last_tag_index(self.complex_gate.gate_tags_to_index@, tag@),
    {
        self.complex_gate.get_index_from_tag(tag)
    }

    /// Brings the outputs up to date with what reaches them and returns their states.
    pub fn fetch_output_signals(&self, circuit: &mut Circuit) -> (res: Vec<GateOutputState>)
        requires
            old(circuit).wf(),
            complex_fits(&self.complex_gate, old(circuit).shape(), old(circuit).types()),
        ensures
            final(circuit).wf(),
            final(circuit).shape() == old(circuit).shape(),
            final(circuit).types() == old(circuit).types(),
            old(circuit).wiring_kept(*final(circuit)),
            res@.len() == self.complex_gate.output_gates@.len(),
            forall|i: int| 0 <= i < res@.len() ==> #[trigger] res@[i] == final(circuit).node(self.complex_gate.output_gates@[i] as int).outputs()[0],
    {
        proof {
            assert forall|i: int| 0 <= i < self.complex_gate.output_gates@.len() implies #[trigger] old(circuit).has_output(self.complex_gate.output_gates@[i] as int, 0) by {}
        }
        self.complex_gate.fetch_output_signals_calculate(circuit)
    }

    pub fn get_tag(&self) -> (res: String)
        ensures
            res@ == self.complex_gate.tag@,
    {
        self.complex_gate.tag.clone()
    }

    pub fn set_tag(&mut self, tag: &str)
        ensures
            final(self).complex_gate.tag@ == tag@,
            final(self).complex_gate.input_gates == old(self).complex_gate.input_gates,
            final(self).complex_gate.output_gates == old(self).complex_gate.output_gates,
            final(self).complex_gate.gate_tags_to_index == old(self).complex_gate.gate_tags_to_index,
    {
        self.complex_gate.tag = tag.to_owned();
    }

    pub fn toggle_output_printing(&mut self, print_output: bool)
        ensures
            final(self).complex_gate.should_print_output == print_output,
            final(self).complex_gate.input_gates == old(self).complex_gate.input_gates,
            final(self).complex_gate.output_gates == old(self).complex_gate.output_gates,
    {
        self.complex_gate.should_print_output = print_output;
    }

    /// The number of circuit gates that make up this gate.
    pub fn num_children_gates(&self) -> (res: usize)
        ensures
            res == self.complex_gate.number_child_gates,
    {
        self.complex_gate.number_child_gates
    }
}

} // verus!
