use vstd::prelude::*;

use crate::circuit::{settled_from, Circuit};
use crate::logic::basic_gates::{Not, Splitter};
use crate::logic::complex_logic::MasterSlaveJKFlipFlop;
use crate::logic::foundations::{complex_fits, last_tag_index, shape_extends, types_extend, ComplexGateMembers, GateOutputState, GateType, LogicGate};
use crate::logic::input_gates::SimpleInput;
use crate::logic::output_gates::SimpleOutput;
use crate::logic::signals::{GateInput, GateLogicError, Signal, UniqueID};
use crate::logic::tags::{numbered, numbered_tag};

verus! {

/// The gates that wiring bit `k` of a counter standing at `start` in `c` uses: output `o_<k>`
/// at `start + 1 + 16 * k`, then a flip-flop (`J`, `CLK_IN`, `K`, `Q`, `NOT_Q`, ...) and a NOT.
pub open spec fn counter_block(c: Circuit, start: int, k: int) -> bool {
    let b = start + 1 + 16 * k;
    &&& c.shape()[b] == (1nat, 1nat)
    &&& c.types()[b] == GateType::SimpleOutputType
    &&& c.shape()[b + 1] == (1nat, 1nat)
    &&& c.shape()[b + 2] == (1nat, 3nat)
    &&& c.shape()[b + 3] == (1nat, 1nat)
    &&& c.shape()[b + 5] == (1nat, 1nat)
    &&& c.shape()[b + 15] == (1nat, 1nat)
}

/// Bit `k` of a counter of `n` bits standing at `start` in `c` is wired: its flip-flop's `NOT_Q`
/// goes into the splitter, whose first copy gives `o_<k>` and whose second copy clocks the next
/// flip-flop; the first flip-flop is clocked by `CLK_IN`.
pub open spec fn counter_bit_wired(c: Circuit, start: int, n: int, k: int) -> bool {
    let s = start + 1 + 16 * n;
    &&& c.wire(start + 6 + 16 * k, 0, Some((s, k)))
    &&& c.wire(s, 2 * k, Some((start + 1 + 16 * k, 0int)))
    &&& if k == 0 {
        c.wire(start, 0, Some((start + 3, 0int)))
    } else {
        c.wire(s, 2 * (k - 1) + 1, Some((start + 3 + 16 * k, 0int)))
    }
}

/// A ripple counter of `num_output_pins` bits: each falling edge of `CLK_IN` adds one to the
/// number on `o_<k>` (`o_0` the lowest bit). Every bit is a JK flip-flop with `J` and `K` held
/// HIGH, clocked by the bit below; a splitter copies each `NOT_Q` to the output and to the next
/// clock.
pub struct VariableBitCounter {
    pub complex_gate: ComplexGateMembers,
    pub flip_flops: Vec<MasterSlaveJKFlipFlop>,
    pub flip_flop_clk_in_not_gates: Vec<Not>,
    pub flip_flop_output_splitter: Splitter,
}

impl VariableBitCounter {
    /// The number of circuit gates a counter of `n` bits uses.
    pub open spec fn spec_len(n: nat) -> nat {
        16 * n + 2
    }

    /// This counter stands at gates `start..start + 16 * n + 2` of `c`: `CLK_IN`, then for every
    /// bit its output, its flip-flop and a NOT, then the splitter; every bit is wired as
    /// `counter_bit_wired` says.
    pub open spec fn wired(&self, c: Circuit, start: int, n: nat) -> bool {
        let nn = n as int;
        &&& self.complex_gate.input_gates@ == seq![start as usize]
        &&& self.complex_gate.output_gates@ == Seq::new(n, |k: int| (start + 1 + 16 * k) as usize)
        &&& self.complex_gate.gate_type == GateType::VariableBitCounterType
        &&& self.flip_flops@.len() == nn
        &&& forall|k: int| 0 <= k < nn ==> (#[trigger] self.flip_flops@[k]).pins_ok(start + 2 + 16 * k)
        &&& self.flip_flop_clk_in_not_gates@.len() == nn
        &&& forall|k: int| 0 <= k < nn ==> (#[trigger] self.flip_flop_clk_in_not_gates@[k]).gate == start + 16 + 16 * k
        &&& self.flip_flop_output_splitter.gate == start + 1 + 16 * nn
        &&& self.flip_flop_output_splitter.input_num == nn
        &&& self.flip_flop_output_splitter.outputs_per_input == 2
        &&& forall|k: int| 0 <= k < nn ==> #[trigger] counter_bit_wired(c, start, nn, k)
    }

    /// Wired as above, with its pins in the circuit and tagged `CLK_IN` and `o_<k>`.
    pub open spec fn built(&self, c: Circuit, start: int, n: nat) -> bool {
        &&& self.wired(c, start, n)
        &&& complex_fits(&self.complex_gate, c.shape(), c.types())
        &&& self.complex_gate.tag_names() == seq!["CLK_IN"@] + Seq::new(n, |k: int| numbered("o_"@, k))
        &&& self.complex_gate.tags_laid_out()
    }
}

impl VariableBitCounter {
    /// Connects bit `k` of a counter of `n` bits whose gates stand from `start` on.
    fn connect_bit(circuit: &mut Circuit, start: usize, n: usize, k: usize)
        requires
            old(circuit).wf(),
            k < n,
            start + 16 * n + 2 < usize::MAX,
            old(circuit).shape()[start + 1 + 16 * n] == (n as nat, (2 * n) as nat),
            old(circuit).shape().len() == start + 16 * n + 2,
            old(circuit).shape()[start as int] == (1nat, 1nat),
            counter_block(*old(circuit), start as int, k as int),
        ensures
            final(circuit).wf(),
            final(circuit).shape() == old(circuit).shape(),
            final(circuit).types() == old(circuit).types(),
            final(circuit).clock_tick_number == old(circuit).clock_tick_number,
            counter_bit_wired(*final(circuit), start as int, n as int, k as int),
            forall|g: int, j: int|
                old(circuit).has_output(g, j) && g != start + 6 + 16 * k && !(g == start + 1 + 16 * n && (j == 2 * k || j == 2 * k - 1))
                    && !(k == 0 && g == start) ==> #[trigger] final(circuit).link(g, j) == old(circuit).link(g, j),
    {
        let s = start + 1 + 16 * n;
        proof {
            assert(2 * k + 1 < 2 * n);
        }
        circuit.connect(start + 6 + 16 * k, 0, s, k);
        if k == 0 {
            circuit.connect(start, 0, start + 3, 0);
        } else {
            circuit.connect(s, 2 * (k - 1) + 1, start + 3 + 16 * k, 0);
        }
        circuit.connect(s, 2 * k, start + 1 + 16 * k, 0);
    }
}

impl VariableBitCounter {
    /// Adds a counter of `num_output_pins` bits to the circuit, holds `J` and `K` of every
    /// flip-flop HIGH, wires it and primes it. Each flip-flop is primed as it is added. Fails
    /// only when priming never comes to rest.
    #[verifier::spinoff_prover]
    #[verifier::rlimit(100)]
    pub fn new(circuit: &mut Circuit, num_output_pins: usize) -> (res: Result<Self, GateLogicError>)
        requires
            old(circuit).wf(),
            num_output_pins >= 1,
            old(circuit).len() + 16 * num_output_pins + 2 < usize::MAX,
        ensures
            final(circuit).wf(),
            final(circuit).clock_tick_number == old(circuit).clock_tick_number,
            old(circuit).wiring_kept(*final(circuit)),
            forall|g: int, j: int, d: Option<(int, int)>| old(circuit).wire(g, j, d) ==> #[trigger] final(circuit).wire(g, j, d),
            match res {
                Ok(gate) => {
                    &&& final(circuit).len() == old(circuit).len() + Self::spec_len(num_output_pins as nat)
                    &&& shape_extends(old(circuit).shape(), final(circuit).shape())
                    &&& types_extend(old(circuit).types(), final(circuit).types())
                    &&& gate.built(*final(circuit), old(circuit).len() as int, num_output_pins as nat)
                    &&& settled_from(*final(circuit), old(circuit).len() as int)
                },
                Err(e) => crate::run_circuit::failure_shown(*final(circuit), e),
            },
    {
        let ghost c0 = *circuit;
        let start = circuit.num_gates();
        let n = num_output_pins;
        proof {
            crate::circuit::lemma_wiring_kept_refl(c0);
            assert(c0.shape().len() == c0.len());
            assert(c0.types().len() == c0.len());
        }
        let clk_tag = "CLK_IN".to_owned();
        let clk = SimpleInput::new(circuit, 1, clk_tag.as_str());
        let ghost c1 = *circuit;
        proof {
            assert(c1.shape().subrange(0, c0.shape().len() as int) =~= c0.shape());
            assert(c1.types().subrange(0, c0.types().len() as int) =~= c0.types());
        }
        let mut output_gates: Vec<usize> = Vec::new();
        let mut output_tags: Vec<String> = Vec::new();
        let mut flip_flops: Vec<MasterSlaveJKFlipFlop> = Vec::new();
        let mut nots: Vec<Not> = Vec::new();
        let mut i: usize = 0;
        while i < n
            invariant
                c0 == *old(circuit),
                start == c0.len(),
                c0.shape().len() == start,
                c0.types().len() == start,
                start + 16 * n + 2 < usize::MAX,
                i <= n,
                circuit.wf(),
                circuit.len() == start + 1 + 16 * i,
                circuit.clock_tick_number == c0.clock_tick_number,
                shape_extends(c0.shape(), circuit.shape()),
                types_extend(c0.types(), circuit.types()),
                c0.wiring_kept(*circuit),
                forall|g: int, j: int, d: Option<(int, int)>| c0.wire(g, j, d) ==> #[trigger] circuit.wire(g, j, d),
                circuit.shape()[start as int] == (1nat, 1nat),
                circuit.types()[start as int] == GateType::SimpleInputType,
                output_gates@ == Seq::new(i as nat, |k: int| (start + 1 + 16 * k) as usize),
                output_tags@.len() == i,
                forall|k: int| 0 <= k < i ==> (#[trigger] output_tags@[k])@ == numbered("o_"@, k),
                flip_flops@.len() == i,
                forall|k: int| 0 <= k < i ==> (#[trigger] flip_flops@[k]).pins_ok(start + 2 + 16 * k),
                nots@.len() == i,
                forall|k: int| 0 <= k < i ==> (#[trigger] nots@[k]).gate == start + 16 + 16 * k,
                forall|k: int| 0 <= k < i ==> #[trigger] counter_block(*circuit, start as int, k),
            decreases n - i,
        {
            let ghost before = *circuit;
            let o_tag = numbered_tag("o_", i);
            let output = SimpleOutput::new(circuit, o_tag.as_str());
            let ghost mid = *circuit;
            let mut flip_flop = match MasterSlaveJKFlipFlop::new(circuit) {
                Ok(f) => f,
                Err(e) => {
                    proof {
                        assert(mid.shape().subrange(0, c0.shape().len() as int) =~= c0.shape()) by {
                            assert(before.shape().subrange(0, c0.shape().len() as int) =~= c0.shape());
                        }
                        crate::circuit::lemma_wiring_kept_trans(c0, before, mid);
                        crate::circuit::lemma_wiring_kept_trans(c0, mid, *circuit);
                    }
                    return Err(e);
                },
            };
            flip_flop.complex_gate.tag = numbered_tag("flip_flop_", i);
            let ghost mid2 = *circuit;
            let not_gate = Not::new(circuit, 1);
            let ghost mid3 = *circuit;
            proof {
                assert(mid3.shape().len() == mid3.len());
                assert(mid2.shape().len() == mid2.len());
                assert(mid3.len() == mid2.len() + 1);
            }
            circuit.set_tag(not_gate.gate, numbered_tag("flip_flop_clk_in_not_", i).as_str());
            proof {
                crate::circuit::lemma_wire_kept(mid3, *circuit);
                assert(mid.shape().subrange(0, c0.shape().len() as int) =~= c0.shape()) by {
                    assert(before.shape().subrange(0, c0.shape().len() as int) =~= c0.shape());
                }
                assert(circuit.shape() =~= before.shape().push((1nat, 1nat)) + MasterSlaveJKFlipFlop::spec_shape().push((1nat, 1nat)));
                assert(circuit.types() =~= before.types().push(GateType::SimpleOutputType) + MasterSlaveJKFlipFlop::spec_types().push(
                    GateType::NotType,
                ));
                assert(before.shape().len() == before.len());
                assert(before.types().len() == before.len());
                assert(circuit.shape().subrange(0, before.shape().len() as int) =~= before.shape());
                assert(circuit.types().subrange(0, before.types().len() as int) =~= before.types());
                assert(circuit.shape().subrange(0, c0.shape().len() as int) =~= c0.shape()) by {
                    assert(before.shape().subrange(0, c0.shape().len() as int) =~= c0.shape());
                }
                assert(circuit.types().subrange(0, c0.types().len() as int) =~= c0.types()) by {
                    assert(before.types().subrange(0, c0.types().len() as int) =~= c0.types());
                }
                crate::circuit::lemma_wiring_kept_trans(c0, before, mid);
                crate::circuit::lemma_wiring_kept_trans(c0, mid, mid2);
                assert(mid2.shape().subrange(0, c0.shape().len() as int) =~= c0.shape()) by {
                    assert(mid2.shape().subrange(0, mid.shape().len() as int) =~= mid.shape());
                }
                assert(mid3.shape().subrange(0, c0.shape().len() as int) =~= c0.shape()) by {
                    assert(mid3.shape().subrange(0, mid2.shape().len() as int) =~= mid2.shape());
                }
                crate::circuit::lemma_wiring_kept_trans(c0, mid2, mid3);
                crate::circuit::lemma_wiring_kept_trans(c0, mid3, *circuit);
                assert(counter_block(*circuit, start as int, i as int));
                assert forall|k: int| 0 <= k < i + 1 implies #[trigger] counter_block(*circuit, start as int, k) by {
                    if k < i {
                        assert(counter_block(before, start as int, k));
                        let b = start + 1 + 16 * k;
                        assert(circuit.shape()[b] == before.shape()[b]);
                        assert(circuit.types()[b] == before.types()[b]);
                        assert(circuit.shape()[b + 1] == before.shape()[b + 1]);
                        assert(circuit.shape()[b + 2] == before.shape()[b + 2]);
                        assert(circuit.shape()[b + 3] == before.shape()[b + 3]);
                        assert(circuit.shape()[b + 5] == before.shape()[b + 5]);
                        assert(circuit.shape()[b + 15] == before.shape()[b + 15]);
                    }
                }
                assert(circuit.shape()[start as int] == before.shape()[start as int]);
                assert(circuit.types()[start as int] == before.types()[start as int]);
            }
            output_gates.push(output.gate);
            output_tags.push(o_tag);
            flip_flops.push(flip_flop);
            nots.push(not_gate);
            proof {
                assert(output_gates@ =~= Seq::new(i as nat + 1, |k: int| (start + 1 + 16 * k) as usize));
            }
            i = i + 1;
        }
        let ghost c2 = *circuit;
        proof {
            assert(2 * n <= usize::MAX);
            assert(n * 2 == 2 * n);
        }
        let splitter = Splitter::new(circuit, n, 2);
        let ghost c3 = *circuit;
        proof {
            assert(c2.shape().len() == c2.len());
            assert(c2.types().len() == c2.len());
            assert(c3.shape().subrange(0, c2.shape().len() as int) =~= c2.shape());
            assert(c3.types().subrange(0, c2.types().len() as int) =~= c2.types());
            assert(c3.shape().subrange(0, c0.shape().len() as int) =~= c0.shape()) by {
                assert(c2.shape().subrange(0, c0.shape().len() as int) =~= c0.shape());
            }
            assert(c3.types().subrange(0, c0.types().len() as int) =~= c0.types()) by {
                assert(c2.types().subrange(0, c0.types().len() as int) =~= c0.types());
            }
            crate::circuit::lemma_wiring_kept_trans(c0, c2, c3);
            assert forall|k: int| 0 <= k < n implies #[trigger] counter_block(c3, start as int, k) by {
                assert(counter_block(c2, start as int, k));
                let b = start + 1 + 16 * k;
                assert(c3.shape()[b] == c2.shape()[b]);
                assert(c3.types()[b] == c2.types()[b]);
                assert(c3.shape()[b + 1] == c2.shape()[b + 1]);
                assert(c3.shape()[b + 2] == c2.shape()[b + 2]);
                assert(c3.shape()[b + 3] == c2.shape()[b + 3]);
                assert(c3.shape()[b + 5] == c2.shape()[b + 5]);
                assert(c3.shape()[b + 15] == c2.shape()[b + 15]);
            }
            assert(c3.shape()[start as int] == c2.shape()[start as int]);
            assert(c3.types()[start as int] == c2.types()[start as int]);
        }
        let mut input_gates: Vec<usize> = Vec::new();
        input_gates.push(clk.gate);
        let mut input_tags: Vec<String> = Vec::new();
        input_tags.push(clk_tag);
        let ghost otags = output_tags@;
        let complex_gate = ComplexGateMembers::from_tags(
            circuit,
            GateType::VariableBitCounterType,
            input_gates,
            output_gates,
            input_tags,
            output_tags,
        );
        let mut k: usize = 0;
        while k < n
            invariant
                c0 == *old(circuit),
                start == c0.len(),
                c0.shape().len() == start,
                start + 16 * n + 2 < usize::MAX,
                k <= n,
                circuit.wf(),
                circuit.shape() == c3.shape(),
                circuit.types() == c3.types(),
                circuit.clock_tick_number == c0.clock_tick_number,
                c3.len() == start + 16 * n + 2,
                c3.shape().len() == c3.len(),
                c3.shape()[start + 1 + 16 * n] == (n as nat, (2 * n) as nat),
                c3.shape()[start as int] == (1nat, 1nat),
                shape_extends(c0.shape(), c3.shape()),
                c0.wiring_kept(*circuit),
                forall|g: int, j: int, d: Option<(int, int)>| c0.wire(g, j, d) ==> #[trigger] circuit.wire(g, j, d),
                forall|m: int| 0 <= m < n ==> #[trigger] counter_block(c3, start as int, m),
                forall|m: int| 0 <= m < k ==> #[trigger] counter_bit_wired(*circuit, start as int, n as int, m),
            decreases n - k,
        {
            let ghost before = *circuit;
            proof {
                assert(counter_block(c3, start as int, k as int));
            }
            let forced_j = circuit.update_input_signal(start + 2 + 16 * k, GateInput::new(0, Signal::HIGH, UniqueID::zero_id()));
            let ghost after_j = *circuit;
            proof {
                crate::circuit::lemma_wire_kept(before, after_j);
                crate::circuit::lemma_wiring_kept_trans(c0, before, after_j);
            }
            if let Err(e) = forced_j {
                return Err(e);
            }
            let forced_k = circuit.update_input_signal(start + 4 + 16 * k, GateInput::new(0, Signal::HIGH, UniqueID::zero_id()));
            let ghost after_k = *circuit;
            proof {
                crate::circuit::lemma_wire_kept(after_j, after_k);
                crate::circuit::lemma_wiring_kept_trans(c0, after_j, after_k);
            }
            if let Err(e) = forced_k {
                return Err(e);
            }
            Self::connect_bit(circuit, start, n, k);
            proof {
                assert forall|g: int, j2: int| c0.has_output(g, j2) implies #[trigger] circuit.link(g, j2) == c0.link(g, j2) by {
                    assert(after_k.link(g, j2) == c0.link(g, j2));
                    assert(c3.shape().subrange(0, c0.shape().len() as int)[g] == c3.shape()[g]);
                    assert(after_k.has_output(g, j2));
                }
                assert forall|g: int, j2: int, d: Option<(int, int)>| c0.wire(g, j2, d) implies #[trigger] circuit.wire(g, j2, d) by {
                    assert(after_k.wire(g, j2, d));
                    assert(c3.shape().subrange(0, c0.shape().len() as int)[g] == c3.shape()[g]);
                }
                assert forall|m: int| 0 <= m < k + 1 implies #[trigger] counter_bit_wired(*circuit, start as int, n as int, m) by {
                    if m < k {
                        assert(counter_bit_wired(before, start as int, n as int, m));
                        assert(counter_bit_wired(after_k, start as int, n as int, m));
                        let s = start + 1 + 16 * n;
                        assert(circuit.link(start + 6 + 16 * m, 0) == after_k.link(start + 6 + 16 * m, 0));
                        assert(circuit.link(s, 2 * m) == after_k.link(s, 2 * m));
                        if m == 0 {
                            assert(circuit.link(start as int, 0) == after_k.link(start as int, 0));
                        } else {
                            assert(circuit.link(s, 2 * (m - 1) + 1) == after_k.link(s, 2 * (m - 1) + 1));
                        }
                    }
                }
            }
            k = k + 1;
        }
        let ghost c4 = *circuit;
        let mut complex_gate = complex_gate;
        complex_gate.number_child_gates = 16 * n + 2;
        let gate = VariableBitCounter {
            complex_gate,
            flip_flops,
            flip_flop_clk_in_not_gates: nots,
            flip_flop_output_splitter: splitter,
        };
        proof {
            assert(gate.complex_gate.tag_names() =~= seq!["CLK_IN"@] + Seq::new(n as nat, |k: int| numbered("o_"@, k)));
            assert forall|i: int| 0 <= i < gate.complex_gate.output_gates@.len() implies {
                let g = #[trigger] gate.complex_gate.output_gates@[i] as int;
                0 <= g < c4.shape().len() && c4.shape()[g].1 >= 1 && c4.types()[g] == GateType::SimpleOutputType
            } by {
                assert(counter_block(c3, start as int, i));
            }
            assert(gate.wired(c4, start as int, n as nat));
            assert(gate.built(c4, start as int, n as nat));
        }
        let primed = circuit.prime_from(start);
        proof {
            crate::circuit::lemma_wire_kept(c4, *circuit);
            assert forall|g: int, j2: int| c0.has_output(g, j2) implies #[trigger] circuit.link(g, j2) == c0.link(g, j2) by {
                assert(c4.link(g, j2) == c0.link(g, j2));
                assert(c3.shape().subrange(0, c0.shape().len() as int)[g] == c3.shape()[g]);
                assert(c4.has_output(g, j2));
            }
            assert forall|m: int| 0 <= m < n implies #[trigger] counter_bit_wired(*circuit, start as int, n as int, m) by {
                assert(counter_bit_wired(c4, start as int, n as int, m));
            }
            assert(gate.built(*circuit, start as int, n as nat));
        }
        match primed {
            Ok(()) => Ok(gate),
            Err(e) => Err(e),
        }
    }
}

impl LogicGate for VariableBitCounter {
    open spec fn spec_input_pin(&self, index: int) -> (int, int) {
        (self.complex_gate.input_gates@[index] as int, 0)
    }

    open spec fn spec_output_pin(&self, index: int) -> (int, int) {
        (self.complex_gate.output_gates@[index] as int, 0)
    }

    open spec fn spec_num_inputs(&self) -> nat {
        self.complex_gate.input_gates@.len()
    }

    open spec fn spec_num_outputs(&self) -> nat {
        self.complex_gate.output_gates@.len()
    }

    open spec fn spec_gate_type(&self) -> GateType {
        self.complex_gate.gate_type
    }

    open spec fn spec_unique_id(&self) -> UniqueID {
        self.complex_gate.unique_id
    }

    fn input_pin(&self, index: usize) -> (res: (usize, usize)) {
        (self.complex_gate.input_gates[index], 0)
    }

    fn output_pin(&self, index: usize) -> (res: (usize, usize)) {
        (self.complex_gate.output_gates[index], 0)
    }

    fn num_inputs(&self) -> (res: usize) {
        self.complex_gate.input_gates.len()
    }

    fn num_outputs(&self) -> (res: usize) {
        self.complex_gate.output_gates.len()
    }

    fn get_gate_type(&self) -> (res: GateType) {
        self.complex_gate.gate_type
    }

    fn get_unique_id(&self) -> (res: UniqueID) {
        self.complex_gate.unique_id
    }
}

impl VariableBitCounter {
    /// The input or output index that `tag` names.
    pub fn get_index_from_tag(&self, tag: &str) -> (res: Option<usize>)
        ensures
            res == last_tag_index(self.complex_gate.gate_tags_to_index@, tag@),
    {
        self.complex_gate.get_index_from_tag(tag)
    }

    /// Brings the outputs up to date with what reaches them and returns their states.
    pub fn fetch_output_signals(&self, circuit: &mut Circuit) -> (res: Vec<GateOutputState>)
        requires
            old(circuit).wf(),
            complex_fits(&self.complex_gate, old(circuit).shape(), old(circuit).types()),
        ensures
            final(circuit).wf(),
            final(circuit).shape() == old(circuit).shape(),
            final(circuit).types() == old(circuit).types(),
            old(circuit).wiring_kept(*final(circuit)),
            res@.len() == self.complex_gate.output_gates@.len(),
            forall|i: int| 0 <= i < res@.len() ==> #[trigger] res@[i] == final(circuit).node(self.complex_gate.output_gates@[i] as int).outputs()[0],
    {
        proof {
            assert forall|i: int| 0 <= i < self.complex_gate.output_gates@.len() implies #[trigger] old(circuit).has_output(self.complex_gate.output_gates@[i] as int, 0) by {}
        }
        self.complex_gate.fetch_output_signals_calculate(circuit)
    }

    pub fn get_tag(&self) -> (res: String)
        ensures
            res@ == self.complex_gate.tag@,
    {
        self.complex_gate.tag.clone()
    }

    pub fn set_tag(&mut self, tag: &str)
        ensures
            final(self).complex_gate.tag@ == tag@,
            final(self).complex_gate.input_gates == old(self).complex_gate.input_gates,
            final(self).complex_gate.output_gates == old(self).complex_gate.output_gates,
            final(self).complex_gate.gate_tags_to_index == old(self).complex_gate.gate_tags_to_index,
    {
        self.complex_gate.tag = tag.to_owned();
    }

    pub fn toggle_output_printing(&mut self, print_output: bool)
        ensures
            final(self).complex_gate.should_print_output == print_output,
            final(self).complex_gate.input_gates == old(self).complex_gate.input_gates,
            final(self).complex_gate.output_gates == old(self).complex_gate.output_gates,
    {
        self.complex_gate.should_print_output = print_output;
    }

    /// The number of circuit gates that make up this gate.
    pub fn num_children_gates(&self) -> (res: usize)
        ensures
            res == self.complex_gate.number_child_gates,
    {
        self.complex_gate.number_child_gates
    }
}

} // verus!
