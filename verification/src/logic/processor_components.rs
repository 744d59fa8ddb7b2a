use vstd::prelude::*;

use crate::circuit::{settled_from, Circuit};
use crate::logic::basic_gates::{And, ControlledBuffer, Not, Or};
use crate::logic::complex_logic::VariableBitCPUEnable;
use crate::logic::foundations::{complex_fits, last_tag_index, shape_extends, types_extend, ComplexGateMembers, GateOutputState, GateType, LogicGate};
use crate::logic::input_gates::SimpleInput;
use crate::logic::memory_gates::VariableBitMemoryCell;
use crate::logic::pins::{build_simple_inputs_and_outputs, build_simple_inputs_and_outputs_with_and, fresh_input, fresh_output, push_reg_outputs_to_output_gates};
use crate::logic::signals::{GateLogicError, UniqueID};
use crate::logic::tags::{numbered, numbered_tag};
use crate::netlist::{lemma_repeat_len, repeat, spec_addable, spec_shape_of, spec_types_of, GateSpec};
use vstd::arithmetic::power2::{lemma2_to64, lemma_pow2_pos, lemma_pow2_strictly_increases, lemma_pow2_unfold, pow2};

verus! {

/// Bit `k` of a register of `n` bits standing at `start` in `c` is wired: `i_<k>` to the
/// memory, the memory's `o_<k>` to the enable, the memory's `reg_<k>` to `reg_<k>`, the
/// enable to the buffer and the buffer to `o_<k>`.
pub open spec fn register_bit_wired(c: Circuit, start: int, n: int, k: int) -> bool {
    &&& c.wire(start + 2 * k, 0, Some((start + 3 * n + 2 + 10 * k, 0int)))
    &&& c.wire(start + 3 * n + 2 + 10 * k + 1, 0, Some((start + 14 * n + 3 + 3 * k, 0int)))
    &&& c.wire(start + 3 * n + 2 + 10 * n + k, 0, Some((start + 2 * n + k, 0int)))
    &&& c.wire(start + 14 * n + 3 + 3 * k + 1, 0, Some((start + 17 * n + 4, k)))
    &&& c.wire(start + 17 * n + 4, k, Some((start + 2 * k + 1, 0int)))
}

/// The pins that wiring bit `k` of a register of `n` bits standing at `start` in `c` uses exist.
pub open spec fn register_bit_pins(c: Circuit, start: int, n: int, k: int) -> bool {
    &&& c.has_output(start + 2 * k, 0)
    &&& c.has_input(start + 3 * n + 2 + 10 * k, 0)
    &&& c.has_output(start + 3 * n + 2 + 10 * k + 1, 0)
    &&& c.has_input(start + 14 * n + 3 + 3 * k, 0)
    &&& c.has_output(start + 3 * n + 2 + 10 * n + k, 0)
    &&& c.has_input(start + 2 * n + k, 0)
    &&& c.has_output(start + 14 * n + 3 + 3 * k + 1, 0)
    &&& c.has_input(start + 17 * n + 4, k)
    &&& c.has_output(start + 17 * n + 4, k)
    &&& c.has_input(start + 2 * k + 1, 0)
}

/// A register of `number_bits` bits: while `S` is HIGH it stores `i_<k>`; the stored bits
/// always show on `reg_<k>`, and on `o_<k>` only while `E` is HIGH (otherwise `o_<k>` is NONE).
pub struct VariableBitRegister {
    pub complex_gate: ComplexGateMembers,
    pub memory: VariableBitMemoryCell,
    pub enable: VariableBitCPUEnable,
    pub controlled_buffer: ControlledBuffer,
}

impl VariableBitRegister {
    /// The number of circuit gates a register of `number_bits` bits uses.
    pub open spec fn spec_len(number_bits: nat) -> nat {
        17 * number_bits + 5
    }

    /// This register stands at gates `start..start + 17 * number_bits + 5` of `c`: inputs
    /// `i_<k>` and outputs `o_<k>` in turns, the outputs `reg_<k>`, the inputs `S` and `E`,
    /// then the memory, the enable and the buffer. Input `i_<k>` feeds bit `k` of the memory;
    /// the memory's `o_<k>` feeds the enable, whose output goes through the buffer to `o_<k>`,
    /// and the memory's `reg_<k>` feeds `reg_<k>`. `S` feeds the memory's `S`; `E` feeds the
    /// enable's `E` and the buffer's enable.
    pub open spec fn wired(&self, c: Circuit, start: int, number_bits: nat) -> bool {
        let n = number_bits as int;
        let m = start + 3 * n + 2;
        let p = m + 11 * n + 1;
        let b = p + 3 * n + 1;
        &&& self.complex_gate.input_gates@ == Seq::new(number_bits, |k: int| (start + 2 * k) as usize)
            + seq![(start + 3 * n) as usize, (start + 3 * n + 1) as usize]
        &&& self.complex_gate.output_gates@ == Seq::new(number_bits, |k: int| (start + 2 * k + 1) as usize)
            + Seq::new(number_bits, |k: int| (start + 2 * n + k) as usize)
        &&& self.complex_gate.gate_type == GateType::VariableBitRegisterType
        &&& self.memory.complex_gate.input_gates@ == Seq::new(number_bits, |k: int| (m + 10 * k) as usize).push(
            (m + 11 * n) as usize,
        )
        &&& self.memory.complex_gate.output_gates@ == Seq::new(number_bits, |k: int| (m + 10 * k + 1) as usize)
            + Seq::new(number_bits, |k: int| (m + 10 * n + k) as usize)
        &&& self.enable.pins_ok(p, number_bits)
        &&& self.controlled_buffer.gate == b
        &&& self.controlled_buffer.input_output_num == number_bits
        &&& c.wire(start + 3 * n, 0, Some((m + 11 * n, 0int)))
        &&& c.wire(start + 3 * n + 1, 0, Some((p + 3 * n, 0int)))
        &&& c.wire(start + 3 * n + 1, 1, Some((b, n)))
        &&& forall|k: int| 0 <= k < n ==> #[trigger] register_bit_wired(c, start, n, k)
    }

    /// Wired as above, with its inputs and outputs in the circuit and tagged `i_<k>`, `S`, `E`,
    /// `o_<k>`, `reg_<k>`.
    pub open spec fn built(&self, c: Circuit, start: int, number_bits: nat) -> bool {
        &&& self.wired(c, start, number_bits)
        &&& complex_fits(&self.complex_gate, c.shape(), c.types())
        &&& self.complex_gate.tag_names() == Seq::new(number_bits, |k: int| numbered("i_"@, k)) + seq!["S"@, "E"@]
            + Seq::new(number_bits, |k: int| numbered("o_"@, k)) + Seq::new(number_bits, |k: int| numbered("reg_"@, k))
        &&& self.complex_gate.tags_laid_out()
    }
}

impl VariableBitRegister {
    /// Adds a register of `number_bits` bits to the circuit and primes it. Its memory and its
    /// enable are primed as they are added. Fails only when priming does not come to rest or two senders drive one input.
    #[verifier::spinoff_prover]
    #[verifier::rlimit(100)]
    pub fn new(circuit: &mut Circuit, number_bits: usize) -> (res: Result<Self, GateLogicError>)
        requires
            old(circuit).wf(),
            number_bits >= 1,
            old(circuit).len() + 17 * number_bits + 5 < usize::MAX,
        ensures
            final(circuit).wf(),
            final(circuit).clock_tick_number == old(circuit).clock_tick_number,
            old(circuit).wiring_kept(*final(circuit)),
            forall|g: int, j: int, d: Option<(int, int)>| old(circuit).wire(g, j, d) ==> #[trigger] final(circuit).wire(g, j, d),
            match res {
                Ok(gate) => {
                    &&& final(circuit).len() == old(circuit).len() + Self::spec_len(number_bits as nat)
                    &&& shape_extends(old(circuit).shape(), final(circuit).shape())
                    &&& types_extend(old(circuit).types(), final(circuit).types())
                    &&& gate.built(*final(circuit), old(circuit).len() as int, number_bits as nat)
                    &&& settled_from(*final(circuit), old(circuit).len() as int)
                },
                Err(e) => crate::run_circuit::failure_shown(*final(circuit), e),
            },
    {
        let ghost c0 = *circuit;
        let start = circuit.num_gates();
        let n = number_bits;
        let mut input_gates: Vec<usize> = Vec::new();
        let mut input_tags: Vec<String> = Vec::new();
        let mut output_gates: Vec<usize> = Vec::new();
        let mut output_tags: Vec<String> = Vec::new();
        build_simple_inputs_and_outputs(circuit, n, &mut input_gates, &mut input_tags, &mut output_gates, &mut output_tags);
        let ghost c1 = *circuit;
        let ghost it1 = input_tags@;
        let ghost ot1 = output_tags@;
        push_reg_outputs_to_output_gates(circuit, n, &mut output_gates, &mut output_tags);
        let ghost c2 = *circuit;
        let s_tag = "S".to_owned();
        let s_in = SimpleInput::new(circuit, 1, s_tag.as_str());
        let ghost c2a = *circuit;
        let e_tag = "E".to_owned();
        let e_in = SimpleInput::new(circuit, 2, e_tag.as_str());
        let ghost c3 = *circuit;
        input_gates.push(s_in.gate);
        input_tags.push(s_tag);
        input_gates.push(e_in.gate);
        input_tags.push(e_tag);
        proof {
            assert(c0.shape().len() == c0.len());
            assert(c0.types().len() == c0.len());
            assert(c1.shape().len() == c1.len());
            assert(c2.shape().len() == c2.len());
            assert(c2.types().len() == c2.len());
            assert(c2a.shape().len() == c2a.len());
            assert(c2a.types().len() == c2a.len());
            assert(c3.shape().len() == c3.len());
            assert(c3.types().len() == c3.len());
            assert(c3.shape().subrange(0, c2.shape().len() as int) =~= c2.shape());
            assert(c3.types().subrange(0, c2.types().len() as int) =~= c2.types());
        }
        let memory = match VariableBitMemoryCell::new(circuit, n) {
            Ok(m) => m,
            Err(e) => {
                return Err(e);
            },
        };
        let ghost c4 = *circuit;
        let enable = match VariableBitCPUEnable::new(circuit, n) {
            Ok(e) => e,
            Err(e) => {
                return Err(e);
            },
        };
        let ghost c5 = *circuit;
        proof {
            lemma_repeat_len(seq![((1) as nat, (1) as nat), ((1) as nat, (1) as nat), ((2) as nat, (1) as nat)], n as nat);
            assert(n * 3 == 3 * n);
            assert(c5.shape().len() == c4.shape().len() + 3 * n + 1);
            assert(c4.shape().len() == c4.len());
            assert(c5.shape().len() == c5.len());
        }
        let controlled_buffer = ControlledBuffer::new(circuit, n);
        let ghost c6 = *circuit;
        proof {
            assert(c6.shape().len() == c6.len());
            assert(c6.types().len() == c6.len());
            assert(c5.len() == start + 17 * n + 4);
            assert(c6.shape().subrange(0, c5.shape().len() as int) =~= c5.shape());
            assert(c5.shape().subrange(0, c4.shape().len() as int) =~= c4.shape());
            assert(c6.types().subrange(0, c5.types().len() as int) =~= c5.types());
            assert(c5.types().subrange(0, c4.types().len() as int) =~= c4.types());
            assert(c6.shape().subrange(0, c4.shape().len() as int) =~= c4.shape());
            assert(c6.types().subrange(0, c4.types().len() as int) =~= c4.types());
            assert(c6.shape().subrange(0, c3.shape().len() as int) =~= c3.shape()) by {
                assert(c4.shape().subrange(0, c3.shape().len() as int) =~= c3.shape());
            }
            assert(c6.types().subrange(0, c3.types().len() as int) =~= c3.types()) by {
                assert(c4.types().subrange(0, c3.types().len() as int) =~= c3.types());
            }
            assert(c6.shape().subrange(0, c2.shape().len() as int) =~= c2.shape());
            assert(c6.types().subrange(0, c2.types().len() as int) =~= c2.types());
            assert(c2.shape().subrange(0, c1.shape().len() as int) =~= c1.shape());
            assert(c6.shape().subrange(0, c1.shape().len() as int) =~= c1.shape());
            assert(c6.shape().subrange(0, c0.shape().len() as int) =~= c0.shape()) by {
                assert(c1.shape().subrange(0, c0.shape().len() as int) =~= c0.shape());
            }
            crate::circuit::lemma_wiring_kept_trans(c0, c1, c2);
            assert(c2.shape().subrange(0, c0.shape().len() as int) =~= c0.shape()) by {
                assert(c1.shape().subrange(0, c0.shape().len() as int) =~= c0.shape());
            }
            assert(c2a.shape().subrange(0, c0.shape().len() as int) =~= c0.shape()) by {
                assert(c2.shape().subrange(0, c0.shape().len() as int) =~= c0.shape()) by {
                    assert(c1.shape().subrange(0, c0.shape().len() as int) =~= c0.shape());
                }
            }
            assert(c3.shape().subrange(0, c0.shape().len() as int) =~= c0.shape()) by {
                assert(c2.shape().subrange(0, c0.shape().len() as int) =~= c0.shape()) by {
                    assert(c1.shape().subrange(0, c0.shape().len() as int) =~= c0.shape());
                }
            }
            assert(c4.shape().subrange(0, c0.shape().len() as int) =~= c0.shape());
            assert(c5.shape().subrange(0, c0.shape().len() as int) =~= c0.shape());
            crate::circuit::lemma_wiring_kept_trans(c0, c2, c2a);
            crate::circuit::lemma_wiring_kept_trans(c0, c2a, c3);
            crate::circuit::lemma_wiring_kept_trans(c0, c3, c4);
            crate::circuit::lemma_wiring_kept_trans(c0, c4, c5);
            crate::circuit::lemma_wiring_kept_trans(c0, c5, c6);
        }
        let ghost ins = input_gates@;
        let ghost outs = output_gates@;
        let ghost itags = input_tags@;
        let ghost otags = output_tags@;
        let complex_gate = ComplexGateMembers::from_tags(
            circuit,
            GateType::VariableBitRegisterType,
            input_gates,
            output_gates,
            input_tags,
            output_tags,
        );
        let m0 = start + 3 * n + 2;
        let p0 = m0 + 11 * n + 1;
        proof {
            assert(itags.len() == n + 2);
            assert(itags[n as int]@ == "S"@);
            assert(itags[n + 1]@ == "E"@);
            assert forall|k: int| 0 <= k < n implies #[trigger] itags[k] == it1[k] by {}
            let expected = Seq::new(n as nat, |k: int| numbered("i_"@, k)) + seq!["S"@, "E"@]
                + Seq::new(n as nat, |k: int| numbered("o_"@, k)) + Seq::new(n as nat, |k: int| numbered("reg_"@, k));
            assert forall|i: int| 0 <= i < complex_gate.tag_names().len() implies #[trigger] complex_gate.tag_names()[i] == expected[i] by {
                if i < n {
                    assert(it1[0 + i]@ == numbered("i_"@, i));
                } else if i < n + 2 {
                } else if i < 2 * n + 2 {
                    let k = i - n - 2;
                    assert(ot1[0 + k]@ == numbered("o_"@, k));
                    assert(otags[k] == ot1[k]);
                } else {
                    let k = i - 2 * n - 2;
                    assert(otags[n + k]@ == numbered("reg_"@, k));
                }
            }
            assert(complex_gate.tag_names() =~= Seq::new(n as nat, |k: int| numbered("i_"@, k)) + seq!["S"@, "E"@]
                + Seq::new(n as nat, |k: int| numbered("o_"@, k)) + Seq::new(n as nat, |k: int| numbered("reg_"@, k)));
            assert(ins =~= Seq::new(n as nat, |k: int| (start + 2 * k) as usize) + seq![(start + 3 * n) as usize, (start + 3 * n + 1) as usize]);
            assert(outs =~= Seq::new(n as nat, |k: int| (start + 2 * k + 1) as usize) + Seq::new(n as nat, |k: int| (start + 2 * n + k) as usize));
            assert(memory.complex_gate.input_gates@[n as int] == m0 + 11 * n);
            assert(enable.complex_gate.input_gates@[n as int] == p0 + 3 * n);
            assert(c6.shape()[start + 3 * n] == c3.shape()[start + 3 * n]);
            assert(c6.shape()[start + 3 * n + 1] == c3.shape()[start + 3 * n + 1]);
            assert(c6.shape()[m0 + 11 * n] == c4.shape()[m0 + 11 * n]);
            assert(c6.shape()[p0 + 3 * n] == c5.shape()[p0 + 3 * n]);
            assert forall|k: int|
                0 <= k < n implies #[trigger] register_bit_pins(c6, start as int, n as int, k) by {
                assert(fresh_input(c1, start + 2 * k));
                assert(fresh_output(c1, start + 2 * k + 1));
                assert(fresh_output(c2, start + 2 * n + k));
                assert(c6.shape()[start + 2 * k] == c1.shape()[start + 2 * k]);
                assert(c6.shape()[start + 2 * k + 1] == c1.shape()[start + 2 * k + 1]);
                assert(c6.shape()[start + 2 * n + k] == c2.shape()[start + 2 * n + k]);
                assert(memory.complex_gate.input_gates@[k] == m0 + 10 * k);
                assert(memory.complex_gate.output_gates@[k] == m0 + 10 * k + 1);
                assert(memory.complex_gate.output_gates@[n + k] == m0 + 10 * n + k);
                assert(c6.shape()[m0 + 10 * k] == c4.shape()[m0 + 10 * k]);
                assert(c6.shape()[m0 + 10 * k + 1] == c4.shape()[m0 + 10 * k + 1]);
                assert(c6.shape()[m0 + 10 * n + k] == c4.shape()[m0 + 10 * n + k]);
                assert(enable.complex_gate.input_gates@[k] == p0 + 3 * k);
                assert(enable.complex_gate.output_gates@[k] == p0 + 3 * k + 1);
                assert(c6.shape()[p0 + 3 * k] == c5.shape()[p0 + 3 * k]);
                assert(c6.shape()[p0 + 3 * k + 1] == c5.shape()[p0 + 3 * k + 1]);
            }
        }
        Self::connect_all_bits(circuit, start, n);
        let ghost c7 = *circuit;
        proof {
            assert forall|g: int, j2: int| c0.has_output(g, j2) implies #[trigger] circuit.link(g, j2) == c0.link(g, j2) by {
                assert(c6.has_output(g, j2));
            }
            crate::circuit::lemma_wire_kept_grown(c0, c7);
        }
        let gate = VariableBitRegister { complex_gate, memory, enable, controlled_buffer };
        proof {
            assert(gate.wired(c7, start as int, n as nat));
            assert forall|i: int| 0 <= i < gate.complex_gate.input_gates@.len() implies {
                let g = #[trigger] gate.complex_gate.input_gates@[i] as int;
                0 <= g < c7.shape().len() && c7.shape()[g].0 >= 1 && c7.types()[g] == GateType::SimpleInputType
            } by {
                if i < n {
                    assert(fresh_input(c1, start + 2 * i));
                    assert(c6.types()[start + 2 * i] == c1.types()[start + 2 * i]) by {
                        assert(c6.types().subrange(0, c2.types().len() as int) =~= c2.types());
                        assert(c2.types().subrange(0, c1.types().len() as int) =~= c1.types());
                    }
                    assert(c6.shape()[start + 2 * i] == c1.shape()[start + 2 * i]);
                } else {
                    assert(c6.types()[start + 3 * n] == c3.types()[start + 3 * n]);
                    assert(c6.types()[start + 3 * n + 1] == c3.types()[start + 3 * n + 1]);
                }
            }
            assert forall|i: int| 0 <= i < gate.complex_gate.output_gates@.len() implies {
                let g = #[trigger] gate.complex_gate.output_gates@[i] as int;
                0 <= g < c7.shape().len() && c7.shape()[g].1 >= 1 && c7.types()[g] == GateType::SimpleOutputType
            } by {
                if i < n {
                    assert(fresh_output(c1, start + 2 * i + 1));
                    assert(c6.types()[start + 2 * i + 1] == c1.types()[start + 2 * i + 1]) by {
                        assert(c6.types().subrange(0, c2.types().len() as int) =~= c2.types());
                        assert(c2.types().subrange(0, c1.types().len() as int) =~= c1.types());
                    }
                    assert(c6.shape()[start + 2 * i + 1] == c1.shape()[start + 2 * i + 1]);
                } else {
                    let k = i - n;
                    assert(fresh_output(c2, start + 2 * n + k));
                    assert(c6.types()[start + 2 * n + k] == c2.types()[start + 2 * n + k]);
                    assert(c6.shape()[start + 2 * n + k] == c2.shape()[start + 2 * n + k]);
                }
            }
            assert(complex_fits(&gate.complex_gate, c7.shape(), c7.types()));
            assert(gate.built(c7, start as int, n as nat));
        }
        let primed = circuit.prime_from(start);
        proof {
            crate::circuit::lemma_wire_kept(c7, *circuit);
            crate::circuit::lemma_wiring_kept_trans(c0, c7, *circuit);
            assert forall|k: int| 0 <= k < n implies #[trigger] register_bit_wired(*circuit, start as int, n as int, k) by {
                assert(register_bit_wired(c7, start as int, n as int, k));
            }
            assert(gate.wired(*circuit, start as int, n as nat));
            assert(gate.built(*circuit, start as int, n as nat));
            assert(circuit.len() == start + 17 * n + 5);
            assert(circuit.shape().subrange(0, c0.shape().len() as int) =~= c0.shape());
            assert(circuit.types().subrange(0, c0.types().len() as int) =~= c0.types()) by {
                assert(c6.types().subrange(0, c2.types().len() as int) =~= c2.types());
                assert(c2.types().subrange(0, c0.types().len() as int) =~= c0.types()) by {
                    assert(c2.types().subrange(0, c1.types().len() as int) =~= c1.types());
                }
            }
        }
        match primed {
            Ok(()) => Ok(gate),
            Err(e) => Err(e),
        }
    }

    /// Connects bit `k` of a register whose gates stand from `start` on.
    fn connect_bit(circuit: &mut Circuit, start: usize, n: usize, k: usize)
        requires
            old(circuit).wf(),
            k < n,
            start + 17 * n + 5 < usize::MAX,
            old(circuit).has_output(start + 2 * k, 0),
            old(circuit).has_input(start + 3 * n + 2 + 10 * k, 0),
            old(circuit).has_output(start + 3 * n + 2 + 10 * k + 1, 0),
            old(circuit).has_input(start + 14 * n + 3 + 3 * k, 0),
            old(circuit).has_output(start + 3 * n + 2 + 10 * n + k, 0),
            old(circuit).has_input(start + 2 * n + k, 0),
            old(circuit).has_output(start + 14 * n + 3 + 3 * k + 1, 0),
            old(circuit).has_input(start + 17 * n + 4, k as int),
            old(circuit).has_output(start + 17 * n + 4, k as int),
            old(circuit).has_input(start + 2 * k + 1, 0),
        ensures
            final(circuit).wf(),
            final(circuit).shape() == old(circuit).shape(),
            final(circuit).types() == old(circuit).types(),
            final(circuit).clock_tick_number == old(circuit).clock_tick_number,
            final(circuit).wire(start + 2 * k, 0, Some((start + 3 * n + 2 + 10 * k, 0int))),
            final(circuit).wire(start + 3 * n + 2 + 10 * k + 1, 0, Some((start + 14 * n + 3 + 3 * k, 0int))),
            final(circuit).wire(start + 3 * n + 2 + 10 * n + k, 0, Some((start + 2 * n + k, 0int))),
            final(circuit).wire(start + 14 * n + 3 + 3 * k + 1, 0, Some((start + 17 * n + 4, k as int))),
            final(circuit).wire(start + 17 * n + 4, k as int, Some((start + 2 * k + 1, 0int))),
            forall|g: int, j: int|
                old(circuit).has_output(g, j) && g != start + 2 * k && g != start + 3 * n + 2 + 10 * k + 1
                    && g != start + 3 * n + 2 + 10 * n + k && g != start + 14 * n + 3 + 3 * k + 1
                    && !(g == start + 17 * n + 4 && j == k) ==> #[trigger] final(circuit).link(g, j) == old(circuit).link(g, j),
    {
        let m = start + 3 * n + 2;
        let p = start + 14 * n + 3;
        let b = start + 17 * n + 4;
        circuit.connect(start + 2 * k, 0, m + 10 * k, 0);
        circuit.connect(m + 10 * k + 1, 0, p + 3 * k, 0);
        circuit.connect(m + 10 * n + k, 0, start + 2 * n + k, 0);
        circuit.connect(p + 3 * k + 1, 0, b, k);
        circuit.connect(b, k, start + 2 * k + 1, 0);
    }

    /// Connects a register whose gates stand from `start` on.
    #[verifier::spinoff_prover]
    #[verifier::rlimit(100)]
    fn connect_all_bits(circuit: &mut Circuit, start: usize, n: usize)
        requires
            old(circuit).wf(),
            n >= 1,
            start + 17 * n + 5 < usize::MAX,
            old(circuit).has_output(start + 3 * n, 0),
            old(circuit).has_output(start + 3 * n + 1, 0),
            old(circuit).has_output(start + 3 * n + 1, 1),
            old(circuit).has_input(start + 14 * n + 2, 0),
            old(circuit).has_input(start + 17 * n + 3, 0),
            old(circuit).has_input(start + 17 * n + 4, n as int),
            forall|k: int|
                0 <= k < n ==> #[trigger] register_bit_pins(*old(circuit), start as int, n as int, k),
        ensures
            final(circuit).wf(),
            final(circuit).shape() == old(circuit).shape(),
            final(circuit).types() == old(circuit).types(),
            final(circuit).clock_tick_number == old(circuit).clock_tick_number,
            forall|g: int, j: int| old(circuit).has_output(g, j) && g < start ==> #[trigger] final(circuit).link(g, j) == old(circuit).link(g, j),
            final(circuit).wire(start + 3 * n, 0, Some((start + 14 * n + 2, 0int))),
            final(circuit).wire(start + 3 * n + 1, 0, Some((start + 17 * n + 3, 0int))),
            final(circuit).wire(start + 3 * n + 1, 1, Some((start + 17 * n + 4, n as int))),
            forall|k: int|
                0 <= k < n ==> #[trigger] register_bit_wired(*final(circuit), start as int, n as int, k),
    {
        let ghost c4 = *circuit;
        let mut k: usize = 0;
        while k < n
            invariant
                start + 17 * n + 5 < usize::MAX,
                k <= n,
                circuit.wf(),
                circuit.shape() == c4.shape(),
                circuit.types() == c4.types(),
                circuit.clock_tick_number == c4.clock_tick_number,
                forall|m: int|
                    0 <= m < n ==> #[trigger] register_bit_pins(c4, start as int, n as int, m),
                forall|g: int, j: int| c4.has_output(g, j) && g < start ==> #[trigger] circuit.link(g, j) == c4.link(g, j),
                forall|m: int|
                    0 <= m < k ==> #[trigger] register_bit_wired(*circuit, start as int, n as int, m),
            decreases n - k,
        {
            let kk = k;
            k = k + 1;
            let ghost before = *circuit;
            proof {
                assert(register_bit_pins(c4, start as int, n as int, kk as int));
            }
            Self::connect_bit(circuit, start, n, kk);
            proof {
                assert forall|m: int| 0 <= m < k implies #[trigger] register_bit_wired(*circuit, start as int, n as int, m) by {
                    if m < kk {
                        assert(register_bit_wired(before, start as int, n as int, m));
                        assert(before.wire(start + 2 * m, 0, Some((start + 3 * n + 2 + 10 * m, 0int))));
                        assert(before.wire(start + 3 * n + 2 + 10 * m + 1, 0, Some((start + 14 * n + 3 + 3 * m, 0int))));
                        assert(before.wire(start + 3 * n + 2 + 10 * n + m, 0, Some((start + 2 * n + m, 0int))));
                        assert(before.wire(start + 14 * n + 3 + 3 * m + 1, 0, Some((start + 17 * n + 4, m))));
                        assert(before.wire(start + 17 * n + 4, m, Some((start + 2 * m + 1, 0int))));
                    }
                }
                assert forall|g: int, j: int| c4.has_output(g, j) && g < start implies #[trigger] circuit.link(g, j) == c4.link(g, j) by {
                    assert(before.link(g, j) == c4.link(g, j));
                }
            }
        }
        let ghost c5 = *circuit;
        circuit.connect(start + 3 * n, 0, start + 14 * n + 2, 0);
        let ghost c6 = *circuit;
        circuit.connect(start + 3 * n + 1, 0, start + 17 * n + 3, 0);
        let ghost c7 = *circuit;
        circuit.connect(start + 3 * n + 1, 1, start + 17 * n + 4, n);
        proof {
            assert(c7.wire(start + 3 * n, 0, Some((start + 14 * n + 2, 0int))));
            assert(c7.wire(start + 3 * n + 1, 0, Some((start + 17 * n + 3, 0int))));
            assert forall|g: int, j: int| c4.has_output(g, j) && g < start implies #[trigger] circuit.link(g, j) == c4.link(g, j) by {
                assert(c5.link(g, j) == c4.link(g, j));
            }
            assert forall|m: int| 0 <= m < n implies #[trigger] register_bit_wired(*circuit, start as int, n as int, m) by {
                assert(register_bit_wired(c5, start as int, n as int, m));
                assert(c5.wire(start + 2 * m, 0, Some((start + 3 * n + 2 + 10 * m, 0int))));
                assert(c5.wire(start + 3 * n + 2 + 10 * m + 1, 0, Some((start + 14 * n + 3 + 3 * m, 0int))));
                assert(c5.wire(start + 3 * n + 2 + 10 * n + m, 0, Some((start + 2 * n + m, 0int))));
                assert(c5.wire(start + 14 * n + 3 + 3 * m + 1, 0, Some((start + 17 * n + 4, m))));
                assert(c5.wire(start + 17 * n + 4, m, Some((start + 2 * m + 1, 0int))));
            }
        }
    }
}

impl LogicGate for VariableBitRegister {
    open spec fn spec_input_pin(&self, index: int) -> (int, int) {
        (self.complex_gate.input_gates@[index] as int, 0)
    }

    open spec fn spec_output_pin(&self, index: int) -> (int, int) {
        (self.complex_gate.output_gates@[index] as int, 0)
    }

    open spec fn spec_num_inputs(&self) -> nat {
        self.complex_gate.input_gates@.len()
    }

    open spec fn spec_num_outputs(&self) -> nat {
        self.complex_gate.output_gates@.len()
    }

    open spec fn spec_gate_type(&self) -> GateType {
        self.complex_gate.gate_type
    }

    open spec fn spec_unique_id(&self) -> UniqueID {
        self.complex_gate.unique_id
    }

    fn input_pin(&self, index: usize) -> (res: (usize, usize)) {
        (self.complex_gate.input_gates[index], 0)
    }

    fn output_pin(&self, index: usize) -> (res: (usize, usize)) {
        (self.complex_gate.output_gates[index], 0)
    }

    fn num_inputs(&self) -> (res: usize) {
        self.complex_gate.input_gates.len()
    }

    fn num_outputs(&self) -> (res: usize) {
        self.complex_gate.output_gates.len()
    }

    fn get_gate_type(&self) -> (res: GateType) {
        self.complex_gate.gate_type
    }

    fn get_unique_id(&self) -> (res: UniqueID) {
        self.complex_gate.unique_id
    }
}

impl VariableBitRegister {
    /// The input or output index that `tag` names.
    pub fn get_index_from_tag(&self, tag: &str) -> (res: Option<usize>)
        ensures
            res == last_tag_index(self.complex_gate.gate_tags_to_index@, tag@),
    {
        self.complex_gate.get_index_from_tag(tag)
    }

    /// Brings the outputs up to date with what reaches them and returns their states.
    pub fn fetch_output_signals(&self, circuit: &mut Circuit) -> (res: Vec<GateOutputState>)
        requires
            old(circuit).wf(),
            complex_fits(&self.complex_gate, old(circuit).shape(), old(circuit).types()),
        ensures
            final(circuit).wf(),
            final(circuit).shape() == old(circuit).shape(),
            final(circuit).types() == old(circuit).types(),
            old(circuit).wiring_kept(*final(circuit)),
            res@.len() == self.complex_gate.output_gates@.len(),
            forall|i: int| 0 <= i < res@.len() ==> #[trigger] res@[i] == final(circuit).node(self.complex_gate.output_gates@[i] as int).outputs()[0],
    {
        proof {
            assert forall|i: int| 0 <= i < self.complex_gate.output_gates@.len() implies #[trigger] old(circuit).has_output(self.complex_gate.output_gates@[i] as int, 0) by {}
        }
        self.complex_gate.fetch_output_signals_calculate(circuit)
    }

    pub fn get_tag(&self) -> (res: String)
        ensures
            res@ == self.complex_gate.tag@,
    {
        self.complex_gate.tag.clone()
    }

    pub fn set_tag(&mut self, tag: &str)
        ensures
            final(self).complex_gate.tag@ == tag@,
            final(self).complex_gate.input_gates == old(self).complex_gate.input_gates,
            final(self).complex_gate.output_gates == old(self).complex_gate.output_gates,
            final(self).complex_gate.gate_tags_to_index == old(self).complex_gate.gate_tags_to_index,
    {
        self.complex_gate.tag = tag.to_owned();
    }

    pub fn toggle_output_printing(&mut self, print_output: bool)
        ensures
            final(self).complex_gate.should_print_output == print_output,
            final(self).complex_gate.input_gates == old(self).complex_gate.input_gates,
            final(self).complex_gate.output_gates == old(self).complex_gate.output_gates,
    {
        self.complex_gate.should_print_output = print_output;
    }

    /// The number of circuit gates that make up this gate.
    pub fn num_children_gates(&self) -> (res: usize)
        ensures
            res == self.complex_gate.number_child_gates,
    {
        self.complex_gate.number_child_gates
    }
}

/// Bit `k` of a RAM cell of `n` bits standing at `start` in `c` is wired: the register's
/// `reg_<k>` to `reg_<k>`, `i_<k>` to the register, the register's `o_<k>` to the buffer and
/// the buffer to `o_<k>`.
pub open spec fn ram_cell_bit_wired(c: Circuit, start: int, n: int, k: int) -> bool {
    let r = start + 3 * n + 5;
    let b = start + 20 * n + 14;
    &&& c.wire(r + 2 * n + k, 0, Some((start + 2 * n + k, 0int)))
    &&& c.wire(start + 2 * k, 0, Some((r + 2 * k, 0int)))
    &&& c.wire(r + 2 * k + 1, 0, Some((b, k)))
    &&& c.wire(b, k, Some((start + 2 * k + 1, 0int)))
}

/// The pins that wiring bit `k` of a RAM cell of `n` bits standing at `start` in `c` uses exist.
pub open spec fn ram_cell_bit_pins(c: Circuit, start: int, n: int, k: int) -> bool {
    let r = start + 3 * n + 5;
    let b = start + 20 * n + 14;
    &&& c.has_output(r + 2 * n + k, 0)
    &&& c.has_input(start + 2 * n + k, 0)
    &&& c.has_output(start + 2 * k, 0)
    &&& c.has_input(r + 2 * k, 0)
    &&& c.has_output(r + 2 * k + 1, 0)
    &&& c.has_input(b, k)
    &&& c.has_output(b, k)
    &&& c.has_input(start + 2 * k + 1, 0)
}

/// The control gates of a RAM cell of `n` bits standing at `start` in `c` are wired.
pub open spec fn ram_cell_controls_wired(c: Circuit, start: int, n: int) -> bool {
    let p = start + 3 * n;
    let r = start + 3 * n + 5;
    let a = start + 20 * n + 10;
    &&& c.wire(p, 0, Some((a, 0int)))
    &&& c.wire(p + 1, 0, Some((a, 1int)))
    &&& c.wire(p + 2, 0, Some((a + 1, 1int)))
    &&& c.wire(p + 3, 0, Some((a + 2, 1int)))
    &&& c.wire(p + 4, 0, Some((a + 3, 0int)))
    &&& c.wire(a, 0, Some((a + 1, 0int)))
    &&& c.wire(a, 1, Some((a + 2, 0int)))
    &&& c.wire(a + 1, 0, Some((a + 3, 1int)))
    &&& c.wire(a + 3, 0, Some((r + 3 * n, 0int)))
    &&& c.wire(a + 2, 0, Some((r + 3 * n + 1, 0int)))
    &&& c.wire(a + 2, 1, Some((a + 4, n)))
}

/// One cell of a RAM: a register of `number_inputs_outputs` bits selected by `H` AND `V`. When
/// selected, `S` stores `i_<k>` and `E` shows the stored bits on `o_<k>` (otherwise NONE); `R`
/// stores them whether selected or not. The stored bits always show on `reg_<k>`.
pub struct SingleRAMCell {
    pub complex_gate: ComplexGateMembers,
    pub register: VariableBitRegister,
    pub h_v_and_gate: And,
    pub set_and_gate: And,
    pub enable_and_gate: And,
    pub reset_or_gate: Or,
    pub controlled_buffer: ControlledBuffer,
}

impl SingleRAMCell {
    /// The number of circuit gates a cell of `n` bits uses.
    pub open spec fn spec_len(n: nat) -> nat {
        20 * n + 15
    }

    /// Where the pins and the parts of a cell of `n` bits standing at `start` are.
    pub open spec fn positions(&self, start: int, n: nat) -> bool {
        let nn = n as int;
        let p = start + 3 * nn;
        let r = start + 3 * nn + 5;
        let a = start + 20 * nn + 10;
        &&& self.complex_gate.input_gates@ == Seq::new(n, |k: int| (start + 2 * k) as usize) + seq![
            p as usize,
            (p + 1) as usize,
            (p + 2) as usize,
            (p + 3) as usize,
            (p + 4) as usize,
        ]
        &&& self.complex_gate.output_gates@ == Seq::new(n, |k: int| (start + 2 * k + 1) as usize)
            + Seq::new(n, |k: int| (start + 2 * nn + k) as usize)
        &&& self.complex_gate.gate_type == GateType::VariableSingleRAMCellType
        &&& self.register.complex_gate.input_gates@ == Seq::new(n, |k: int| (r + 2 * k) as usize) + seq![
            (r + 3 * nn) as usize,
            (r + 3 * nn + 1) as usize,
        ]
        &&& self.register.complex_gate.output_gates@ == Seq::new(n, |k: int| (r + 2 * k + 1) as usize)
            + Seq::new(n, |k: int| (r + 2 * nn + k) as usize)
        &&& self.h_v_and_gate.gate == a
        &&& self.set_and_gate.gate == a + 1
        &&& self.enable_and_gate.gate == a + 2
        &&& self.reset_or_gate.gate == a + 3
        &&& self.controlled_buffer.gate == a + 4
        &&& self.controlled_buffer.input_output_num == n
    }

    /// This cell stands at gates `start..start + 20 * n + 15` of `c`: inputs `i_<k>` and outputs
    /// `o_<k>` in turns, the outputs `reg_<k>`, the inputs `H`, `V`, `S`, `E`, `R`, the register,
    /// then the AND of `H` and `V`, the AND that sets, the AND that enables, the OR that resets
    /// and the buffer. `H` AND `V` feeds both other ANDs; with `S` it sets, with `E` it enables;
    /// the set AND OR `R` drives the register's `S`; the enable AND drives the register's `E`
    /// and the buffer's enable.
    pub open spec fn wired(&self, c: Circuit, start: int, n: nat) -> bool {
        let nn = n as int;
        &&& self.positions(start, n)
        &&& ram_cell_controls_wired(c, start, nn)
        &&& forall|k: int| 0 <= k < nn ==> #[trigger] ram_cell_bit_wired(c, start, nn, k)
    }

    /// The gates of this cell stand from `start` on in `c`, with its inputs and outputs tagged,
    /// but not yet wired.
    pub open spec fn laid_out(&self, c: Circuit, start: int, n: nat) -> bool {
        let nn = n as int;
        let a = start + 20 * nn + 10;
        &&& self.positions(start, n)
        &&& complex_fits(&self.complex_gate, c.shape(), c.types())
        &&& self.complex_gate.tag_names() == Seq::new(n, |k: int| numbered("i_"@, k)) + seq!["H"@, "V"@, "S"@, "E"@, "R"@]
            + Seq::new(n, |k: int| numbered("o_"@, k)) + Seq::new(n, |k: int| numbered("reg_"@, k))
        &&& self.complex_gate.tags_laid_out()
        &&& c.len() == start + 20 * nn + 15
        &&& forall|k: int| 0 <= k < nn ==> #[trigger] ram_cell_bit_pins(c, start, nn, k)
        &&& forall|q: int| 0 <= q < 5 ==> #[trigger] c.has_output(start + 3 * nn + q, 0)
        &&& c.shape()[a] == (2nat, 2nat)
        &&& c.shape()[a + 1] == (2nat, 1nat)
        &&& c.shape()[a + 2] == (2nat, 2nat)
        &&& c.shape()[a + 3] == (2nat, 1nat)
        &&& c.shape()[a + 4] == ((nn + 1) as nat, n)
        &&& c.has_input(start + 6 * nn + 5, 0)
        &&& c.has_input(start + 6 * nn + 6, 0)
    }

    /// Wired as above, with its inputs and outputs in the circuit and tagged `i_<k>`, `H`, `V`,
    /// `S`, `E`, `R`, `o_<k>`, `reg_<k>`.
    pub open spec fn built(&self, c: Circuit, start: int, n: nat) -> bool {
        &&& self.wired(c, start, n)
        &&& complex_fits(&self.complex_gate, c.shape(), c.types())
        &&& self.complex_gate.tag_names() == Seq::new(n, |k: int| numbered("i_"@, k)) + seq!["H"@, "V"@, "S"@, "E"@, "R"@]
            + Seq::new(n, |k: int| numbered("o_"@, k)) + Seq::new(n, |k: int| numbered("reg_"@, k))
        &&& self.complex_gate.tags_laid_out()
    }
}

impl SingleRAMCell {
    /// Adds the gates of a RAM cell of `number_inputs_outputs` bits, priming its register as it
    /// is added, without wiring them.
    #[verifier::spinoff_prover]
    #[verifier::rlimit(100)]
    fn assemble(circuit: &mut Circuit, number_inputs_outputs: usize) -> (res: Result<Self, GateLogicError>)
        requires
            old(circuit).wf(),
            number_inputs_outputs >= 1,
            old(circuit).len() + 20 * number_inputs_outputs + 15 < usize::MAX,
        ensures
            final(circuit).wf(),
            final(circuit).clock_tick_number == old(circuit).clock_tick_number,
            old(circuit).wiring_kept(*final(circuit)),
            forall|g: int, j: int, d: Option<(int, int)>| old(circuit).wire(g, j, d) ==> #[trigger] final(circuit).wire(g, j, d),
            match res {
                Ok(gate) => {
                    &&& shape_extends(old(circuit).shape(), final(circuit).shape())
                    &&& types_extend(old(circuit).types(), final(circuit).types())
                    &&& gate.laid_out(*final(circuit), old(circuit).len() as int, number_inputs_outputs as nat)
                },
                Err(e) => crate::run_circuit::failure_shown(*final(circuit), e),
            },
    {
        let ghost c0 = *circuit;
        let start = circuit.num_gates();
        let n = number_inputs_outputs;
        let mut input_gates: Vec<usize> = Vec::new();
        let mut input_tags: Vec<String> = Vec::new();
        let mut output_gates: Vec<usize> = Vec::new();
        let mut output_tags: Vec<String> = Vec::new();
        build_simple_inputs_and_outputs(circuit, n, &mut input_gates, &mut input_tags, &mut output_gates, &mut output_tags);
        let ghost c1 = *circuit;
        let ghost it1 = input_tags@;
        let ghost ot1 = output_tags@;
        push_reg_outputs_to_output_gates(circuit, n, &mut output_gates, &mut output_tags);
        let ghost c2 = *circuit;
        let h_tag = "H".to_owned();
        let h_in = SimpleInput::new(circuit, 1, h_tag.as_str());
        let v_tag = "V".to_owned();
        let v_in = SimpleInput::new(circuit, 1, v_tag.as_str());
        let s_tag = "S".to_owned();
        let s_in = SimpleInput::new(circuit, 1, s_tag.as_str());
        let e_tag = "E".to_owned();
        let e_in = SimpleInput::new(circuit, 1, e_tag.as_str());
        let r_tag = "R".to_owned();
        let r_in = SimpleInput::new(circuit, 1, r_tag.as_str());
        let ghost c3 = *circuit;
        input_gates.push(h_in.gate);
        input_tags.push(h_tag);
        input_gates.push(v_in.gate);
        input_tags.push(v_tag);
        input_gates.push(s_in.gate);
        input_tags.push(s_tag);
        input_gates.push(e_in.gate);
        input_tags.push(e_tag);
        input_gates.push(r_in.gate);
        input_tags.push(r_tag);
        proof {
            assert(c0.shape().len() == c0.len());
            assert(c0.types().len() == c0.len());
            assert(c1.shape().len() == c1.len());
            assert(c2.shape().len() == c2.len());
            assert(c2.types().len() == c2.len());
            assert(c3.shape().len() == c3.len());
            assert(c3.types().len() == c3.len());
            assert(c3.shape() =~= c2.shape() + seq![(1nat, 1nat), (1nat, 1nat), (1nat, 1nat), (1nat, 1nat), (1nat, 1nat)]);
            assert(c3.types() =~= c2.types() + seq![
                GateType::SimpleInputType,
                GateType::SimpleInputType,
                GateType::SimpleInputType,
                GateType::SimpleInputType,
                GateType::SimpleInputType,
            ]);
            assert(c3.shape().subrange(0, c2.shape().len() as int) =~= c2.shape());
            assert(c3.types().subrange(0, c2.types().len() as int) =~= c2.types());
            assert(c2.shape().subrange(0, c0.shape().len() as int) =~= c0.shape()) by {
                assert(c1.shape().subrange(0, c0.shape().len() as int) =~= c0.shape());
            }
            assert(c3.shape().subrange(0, c0.shape().len() as int) =~= c0.shape());
            crate::circuit::lemma_wiring_kept_trans(c0, c1, c2);
        }
        let register = match VariableBitRegister::new(circuit, n) {
            Ok(r) => r,
            Err(e) => {
                return Err(e);
            },
        };
        let ghost c4 = *circuit;
        let h_v_and_gate = And::new(circuit, 2, 2);
        let set_and_gate = And::new(circuit, 2, 1);
        let enable_and_gate = And::new(circuit, 2, 2);
        let reset_or_gate = Or::new(circuit, 2, 1);
        let controlled_buffer = ControlledBuffer::new(circuit, n);
        let ghost c5 = *circuit;
        proof {
            assert(c4.shape().len() == c4.len());
            assert(c4.types().len() == c4.len());
            assert(c5.shape().len() == c5.len());
            assert(c5.types().len() == c5.len());
            assert(c5.shape() =~= c4.shape() + seq![(2nat, 2nat), (2nat, 1nat), (2nat, 2nat), (2nat, 1nat), ((n + 1) as nat, n as nat)]);
            assert(c5.types() =~= c4.types() + seq![
                GateType::AndType,
                GateType::AndType,
                GateType::AndType,
                GateType::OrType,
                GateType::ControlledBufferType,
            ]);
            assert(c5.shape().subrange(0, c4.shape().len() as int) =~= c4.shape());
            assert(c5.types().subrange(0, c4.types().len() as int) =~= c4.types());
            assert(c5.shape().subrange(0, c3.shape().len() as int) =~= c3.shape()) by {
                assert(c4.shape().subrange(0, c3.shape().len() as int) =~= c3.shape());
            }
            assert(c5.types().subrange(0, c3.types().len() as int) =~= c3.types()) by {
                assert(c4.types().subrange(0, c3.types().len() as int) =~= c3.types());
            }
            assert(c5.shape().subrange(0, c2.shape().len() as int) =~= c2.shape());
            assert(c5.types().subrange(0, c2.types().len() as int) =~= c2.types());
            assert(c2.shape().subrange(0, c1.shape().len() as int) =~= c1.shape());
            assert(c2.types().subrange(0, c1.types().len() as int) =~= c1.types());
            assert(c5.shape().subrange(0, c1.shape().len() as int) =~= c1.shape());
            assert(c5.types().subrange(0, c1.types().len() as int) =~= c1.types());
            assert(c5.shape().subrange(0, c0.shape().len() as int) =~= c0.shape());
            assert(c4.shape().subrange(0, c0.shape().len() as int) =~= c0.shape());
            crate::circuit::lemma_wiring_kept_trans(c0, c2, c3);
            crate::circuit::lemma_wiring_kept_trans(c0, c3, c4);
            crate::circuit::lemma_wiring_kept_trans(c0, c4, c5);
        }
        let ghost ins = input_gates@;
        let ghost outs = output_gates@;
        let ghost itags = input_tags@;
        let ghost otags = output_tags@;
        let complex_gate = ComplexGateMembers::from_tags(
            circuit,
            GateType::VariableSingleRAMCellType,
            input_gates,
            output_gates,
            input_tags,
            output_tags,
        );
        let r0 = start + 3 * n + 5;
        proof {
            assert(itags.len() == n + 5);
            assert forall|k: int| 0 <= k < n implies #[trigger] itags[k] == it1[k] by {}
            let expected = Seq::new(n as nat, |k: int| numbered("i_"@, k)) + seq!["H"@, "V"@, "S"@, "E"@, "R"@]
                + Seq::new(n as nat, |k: int| numbered("o_"@, k)) + Seq::new(n as nat, |k: int| numbered("reg_"@, k));
            assert forall|i: int| 0 <= i < complex_gate.tag_names().len() implies #[trigger] complex_gate.tag_names()[i] == expected[i] by {
                if i < n {
                    assert(it1[0 + i]@ == numbered("i_"@, i));
                } else if i < n + 5 {
                } else if i < 2 * n + 5 {
                    let k = i - n - 5;
                    assert(ot1[0 + k]@ == numbered("o_"@, k));
                    assert(otags[k] == ot1[k]);
                } else {
                    let k = i - 2 * n - 5;
                    assert(otags[n + k]@ == numbered("reg_"@, k));
                }
            }
            assert(complex_gate.tag_names() =~= expected);
            assert(ins =~= Seq::new(n as nat, |k: int| (start + 2 * k) as usize) + seq![
                (start + 3 * n) as usize,
                (start + 3 * n + 1) as usize,
                (start + 3 * n + 2) as usize,
                (start + 3 * n + 3) as usize,
                (start + 3 * n + 4) as usize,
            ]);
            assert(outs =~= Seq::new(n as nat, |k: int| (start + 2 * k + 1) as usize) + Seq::new(n as nat, |k: int| (start + 2 * n + k) as usize));
            assert(register.complex_gate.input_gates@[n as int] == r0 + 3 * n);
            assert(register.complex_gate.input_gates@[n + 1] == r0 + 3 * n + 1);
            assert(c5.shape()[r0 + 3 * n] == c4.shape()[r0 + 3 * n]);
            assert(c5.shape()[r0 + 3 * n + 1] == c4.shape()[r0 + 3 * n + 1]);
            assert forall|q: int| 0 <= q < 5 implies #[trigger] c5.has_output(start + 3 * n + q, 0) by {
                assert(c5.shape()[start + 3 * n + q] == c3.shape()[start + 3 * n + q]);
            }
            assert forall|k: int| 0 <= k < n implies #[trigger] ram_cell_bit_pins(c5, start as int, n as int, k) by {
                assert(fresh_input(c1, start + 2 * k));
                assert(fresh_output(c1, start + 2 * k + 1));
                assert(fresh_output(c2, start + 2 * n + k));
                assert(c5.shape()[start + 2 * k] == c1.shape()[start + 2 * k]);
                assert(c5.shape()[start + 2 * k + 1] == c1.shape()[start + 2 * k + 1]);
                assert(c5.shape()[start + 2 * n + k] == c2.shape()[start + 2 * n + k]);
                assert(register.complex_gate.input_gates@[k] == r0 + 2 * k);
                assert(register.complex_gate.output_gates@[k] == r0 + 2 * k + 1);
                assert(register.complex_gate.output_gates@[n + k] == r0 + 2 * n + k);
                assert(c5.shape()[r0 + 2 * k] == c4.shape()[r0 + 2 * k]);
                assert(c5.shape()[r0 + 2 * k + 1] == c4.shape()[r0 + 2 * k + 1]);
                assert(c5.shape()[r0 + 2 * n + k] == c4.shape()[r0 + 2 * n + k]);
            }
        }
        let gate = SingleRAMCell {
            complex_gate,
            register,
            h_v_and_gate,
            set_and_gate,
            enable_and_gate,
            reset_or_gate,
            controlled_buffer,
        };
        proof {
            assert forall|i: int| 0 <= i < gate.complex_gate.input_gates@.len() implies {
                let g = #[trigger] gate.complex_gate.input_gates@[i] as int;
                0 <= g < c5.shape().len() && c5.shape()[g].0 >= 1 && c5.types()[g] == GateType::SimpleInputType
            } by {
                if i < n {
                    assert(fresh_input(c1, start + 2 * i));
                    assert(c5.types()[start + 2 * i] == c1.types()[start + 2 * i]);
                    assert(c5.shape()[start + 2 * i] == c1.shape()[start + 2 * i]);
                } else {
                    assert(c5.types()[start + 3 * n + (i - n)] == c3.types()[start + 3 * n + (i - n)]);
                    assert(c5.shape()[start + 3 * n + (i - n)] == c3.shape()[start + 3 * n + (i - n)]);
                }
            }
            assert forall|i: int| 0 <= i < gate.complex_gate.output_gates@.len() implies {
                let g = #[trigger] gate.complex_gate.output_gates@[i] as int;
                0 <= g < c5.shape().len() && c5.shape()[g].1 >= 1 && c5.types()[g] == GateType::SimpleOutputType
            } by {
                if i < n {
                    assert(fresh_output(c1, start + 2 * i + 1));
                    assert(c5.types()[start + 2 * i + 1] == c1.types()[start + 2 * i + 1]);
                    assert(c5.shape()[start + 2 * i + 1] == c1.shape()[start + 2 * i + 1]);
                } else {
                    let k = i - n;
                    assert(fresh_output(c2, start + 2 * n + k));
                    assert(c5.types()[start + 2 * n + k] == c2.types()[start + 2 * n + k]);
                    assert(c5.shape()[start + 2 * n + k] == c2.shape()[start + 2 * n + k]);
                }
            }
            assert(gate.laid_out(c5, start as int, n as nat));
            assert(c5.types().subrange(0, c0.types().len() as int) =~= c0.types()) by {
                assert(c5.types().subrange(0, c2.types().len() as int) =~= c2.types());
                assert(c2.types().subrange(0, c0.types().len() as int) =~= c0.types()) by {
                    assert(c2.types().subrange(0, c1.types().len() as int) =~= c1.types());
                    assert(c1.types().subrange(0, c0.types().len() as int) =~= c0.types());
                }
            }
            assert(c5.shape().subrange(0, c0.shape().len() as int) =~= c0.shape());
        }
        Ok(gate)
    }

    /// Adds a RAM cell of `number_inputs_outputs` bits to the circuit and primes it. Its
    /// register is primed as it is added. Fails only when priming does not come to rest or two senders drive one input.
    #[verifier::spinoff_prover]
    #[verifier::rlimit(100)]
    pub fn new(circuit: &mut Circuit, number_inputs_outputs: usize) -> (res: Result<Self, GateLogicError>)
        requires
            old(circuit).wf(),
            number_inputs_outputs >= 1,
            old(circuit).len() + 20 * number_inputs_outputs + 15 < usize::MAX,
        ensures
            final(circuit).wf(),
            final(circuit).clock_tick_number == old(circuit).clock_tick_number,
            old(circuit).wiring_kept(*final(circuit)),
            forall|g: int, j: int, d: Option<(int, int)>| old(circuit).wire(g, j, d) ==> #[trigger] final(circuit).wire(g, j, d),
            match res {
                Ok(gate) => {
                    &&& final(circuit).len() == old(circuit).len() + Self::spec_len(number_inputs_outputs as nat)
                    &&& shape_extends(old(circuit).shape(), final(circuit).shape())
                    &&& types_extend(old(circuit).types(), final(circuit).types())
                    &&& gate.built(*final(circuit), old(circuit).len() as int, number_inputs_outputs as nat)
                    &&& settled_from(*final(circuit), old(circuit).len() as int)
                },
                Err(e) => crate::run_circuit::failure_shown(*final(circuit), e),
            },
    {
        let ghost c0 = *circuit;
        let start = circuit.num_gates();
        let n = number_inputs_outputs;
        let gate = match Self::assemble(circuit, n) {
            Ok(gate) => gate,
            Err(e) => {
                return Err(e);
            },
        };
        let ghost c5 = *circuit;
        proof {
            let a0 = start + 20 * n + 10;
            assert(c5.has_input(a0 as int, 0) && c5.has_input(a0 as int, 1));
            assert(c5.has_input(start + 20 * n + 14, n as int));
        }
        Self::connect_controls(circuit, start, n);
        let ghost c6 = *circuit;
        proof {
            assert forall|k: int| 0 <= k < n implies #[trigger] ram_cell_bit_pins(c6, start as int, n as int, k) by {
                assert(ram_cell_bit_pins(c5, start as int, n as int, k));
            }
        }
        Self::connect_bits(circuit, start, n);
        let ghost c7 = *circuit;
        proof {
            assert forall|g: int, j2: int| c5.has_output(g, j2) && g < start implies #[trigger] circuit.link(g, j2) == c5.link(g, j2) by {
                assert(c6.has_output(g, j2));
            }
            assert forall|g: int, j2: int| c0.has_output(g, j2) implies #[trigger] circuit.link(g, j2) == c0.link(g, j2) by {
                assert(c5.has_output(g, j2));
                assert(c5.shape().subrange(0, c0.shape().len() as int)[g] == c5.shape()[g]);
            }
            crate::circuit::lemma_wire_kept_grown(c0, c7);
        }
        proof {
            assert(gate.wired(c7, start as int, n as nat));
            assert(complex_fits(&gate.complex_gate, c7.shape(), c7.types()));
            assert(gate.built(c7, start as int, n as nat));
        }
        let primed = circuit.prime_from(start);
        proof {
            crate::circuit::lemma_wire_kept(c7, *circuit);
            crate::circuit::lemma_wiring_kept_trans(c0, c7, *circuit);
            assert forall|k: int| 0 <= k < n implies #[trigger] ram_cell_bit_wired(*circuit, start as int, n as int, k) by {
                assert(ram_cell_bit_wired(c7, start as int, n as int, k));
            }
            assert(ram_cell_controls_wired(c7, start as int, n as int));
            assert(gate.wired(*circuit, start as int, n as nat));
            assert(gate.built(*circuit, start as int, n as nat));
            assert(circuit.shape().subrange(0, c0.shape().len() as int) =~= c0.shape()) by {
                assert(c5.shape().subrange(0, c0.shape().len() as int) =~= c0.shape());
            }
            assert(circuit.types().subrange(0, c0.types().len() as int) =~= c0.types()) by {
                assert(c5.types().subrange(0, c0.types().len() as int) =~= c0.types());
            }
        }
        match primed {
            Ok(()) => Ok(gate),
            Err(e) => Err(e),
        }
    }

    /// Connects the control gates of a cell whose gates stand from `start` on.
    #[verifier::spinoff_prover]
    #[verifier::rlimit(100)]
    fn connect_controls(circuit: &mut Circuit, start: usize, n: usize)
        requires
            old(circuit).wf(),
            start + 20 * n + 15 < usize::MAX,
            forall|q: int| 0 <= q < 5 ==> #[trigger] old(circuit).has_output(start + 3 * n + q, 0),
            old(circuit).has_input(start + 20 * n + 10, 0),
            old(circuit).has_input(start + 20 * n + 10, 1),
            old(circuit).has_output(start + 20 * n + 10, 0),
            old(circuit).has_output(start + 20 * n + 10, 1),
            old(circuit).has_input(start + 20 * n + 11, 0),
            old(circuit).has_input(start + 20 * n + 11, 1),
            old(circuit).has_output(start + 20 * n + 11, 0),
            old(circuit).has_input(start + 20 * n + 12, 0),
            old(circuit).has_input(start + 20 * n + 12, 1),
            old(circuit).has_output(start + 20 * n + 12, 0),
            old(circuit).has_output(start + 20 * n + 12, 1),
            old(circuit).has_input(start + 20 * n + 13, 0),
            old(circuit).has_input(start + 20 * n + 13, 1),
            old(circuit).has_output(start + 20 * n + 13, 0),
            old(circuit).has_input(start + 20 * n + 14, n as int),
            old(circuit).has_input(start + 6 * n + 5, 0),
            old(circuit).has_input(start + 6 * n + 6, 0),
        ensures
            final(circuit).wf(),
            final(circuit).shape() == old(circuit).shape(),
            final(circuit).types() == old(circuit).types(),
            final(circuit).clock_tick_number == old(circuit).clock_tick_number,
            forall|g: int, j: int| old(circuit).has_output(g, j) && g < start ==> #[trigger] final(circuit).link(g, j) == old(circuit).link(g, j),
            ram_cell_controls_wired(*final(circuit), start as int, n as int),
    {
        let p = start + 3 * n;
        let a = start + 20 * n + 10;
        proof {
            assert(old(circuit).has_output(p + 0, 0));
            assert(old(circuit).has_output(p + 1, 0));
            assert(old(circuit).has_output(p + 2, 0));
            assert(old(circuit).has_output(p + 3, 0));
            assert(old(circuit).has_output(p + 4, 0));
        }
        circuit.connect(p, 0, a, 0);
        let ghost x1 = *circuit;
        circuit.connect(p + 1, 0, a, 1);
        let ghost x2 = *circuit;
        circuit.connect(p + 2, 0, a + 1, 1);
        let ghost x3 = *circuit;
        circuit.connect(p + 3, 0, a + 2, 1);
        let ghost x4 = *circuit;
        circuit.connect(p + 4, 0, a + 3, 0);
        let ghost x5 = *circuit;
        circuit.connect(a, 0, a + 1, 0);
        let ghost x6 = *circuit;
        circuit.connect(a, 1, a + 2, 0);
        let ghost x7 = *circuit;
        circuit.connect(a + 1, 0, a + 3, 1);
        let ghost x8 = *circuit;
        circuit.connect(a + 3, 0, start + 6 * n + 5, 0);
        let ghost x9 = *circuit;
        circuit.connect(a + 2, 0, start + 6 * n + 6, 0);
        let ghost x10 = *circuit;
        circuit.connect(a + 2, 1, a + 4, n);
        proof {
            assert(x10.wire(p as int, 0, Some((a as int, 0int))));
            assert(x10.wire(p + 1, 0, Some((a as int, 1int))));
            assert(x10.wire(p + 2, 0, Some((a + 1, 1int))));
            assert(x10.wire(p + 3, 0, Some((a + 2, 1int))));
            assert(x10.wire(p + 4, 0, Some((a + 3, 0int))));
            assert(x10.wire(a as int, 0, Some((a + 1, 0int))));
            assert(x10.wire(a as int, 1, Some((a + 2, 0int))));
            assert(x10.wire(a + 1, 0, Some((a + 3, 1int))));
            assert(x10.wire(a + 3, 0, Some((start + 6 * n + 5, 0int))));
            assert(ram_cell_controls_wired(*circuit, start as int, n as int));
        }
    }

    /// Connects bit `k` of a cell whose gates stand from `start` on.
    fn connect_bit(circuit: &mut Circuit, start: usize, n: usize, k: usize)
        requires
            old(circuit).wf(),
            k < n,
            start + 20 * n + 15 < usize::MAX,
            ram_cell_bit_pins(*old(circuit), start as int, n as int, k as int),
        ensures
            final(circuit).wf(),
            final(circuit).shape() == old(circuit).shape(),
            final(circuit).types() == old(circuit).types(),
            final(circuit).clock_tick_number == old(circuit).clock_tick_number,
            ram_cell_bit_wired(*final(circuit), start as int, n as int, k as int),
            forall|g: int, j: int|
                old(circuit).has_output(g, j) && g != start + 3 * n + 5 + 2 * n + k && g != start + 2 * k
                    && g != start + 3 * n + 5 + 2 * k + 1 && !(g == start + 20 * n + 14 && j == k)
                    ==> #[trigger] final(circuit).link(g, j) == old(circuit).link(g, j),
    {
        let r = start + 3 * n + 5;
        let b = start + 20 * n + 14;
        circuit.connect(r + 2 * n + k, 0, start + 2 * n + k, 0);
        circuit.connect(start + 2 * k, 0, r + 2 * k, 0);
        circuit.connect(r + 2 * k + 1, 0, b, k);
        circuit.connect(b, k, start + 2 * k + 1, 0);
    }

    /// Connects the bits of a cell whose gates stand from `start` on, keeping its controls.
    #[verifier::spinoff_prover]
    #[verifier::rlimit(100)]
    fn connect_bits(circuit: &mut Circuit, start: usize, n: usize)
        requires
            old(circuit).wf(),
            start + 20 * n + 15 < usize::MAX,
            forall|k: int| 0 <= k < n ==> #[trigger] ram_cell_bit_pins(*old(circuit), start as int, n as int, k),
            ram_cell_controls_wired(*old(circuit), start as int, n as int),
        ensures
            final(circuit).wf(),
            final(circuit).shape() == old(circuit).shape(),
            final(circuit).types() == old(circuit).types(),
            final(circuit).clock_tick_number == old(circuit).clock_tick_number,
            forall|g: int, j: int| old(circuit).has_output(g, j) && g < start ==> #[trigger] final(circuit).link(g, j) == old(circuit).link(g, j),
            ram_cell_controls_wired(*final(circuit), start as int, n as int),
            forall|k: int| 0 <= k < n ==> #[trigger] ram_cell_bit_wired(*final(circuit), start as int, n as int, k),
    {
        let ghost c4 = *circuit;
        let mut k: usize = 0;
        while k < n
            invariant
                start + 20 * n + 15 < usize::MAX,
                k <= n,
                circuit.wf(),
                circuit.shape() == c4.shape(),
                circuit.types() == c4.types(),
                circuit.clock_tick_number == c4.clock_tick_number,
                forall|m: int| 0 <= m < n ==> #[trigger] ram_cell_bit_pins(c4, start as int, n as int, m),
                forall|g: int, j: int| c4.has_output(g, j) && g < start ==> #[trigger] circuit.link(g, j) == c4.link(g, j),
                ram_cell_controls_wired(*circuit, start as int, n as int),
                forall|m: int| 0 <= m < k ==> #[trigger] ram_cell_bit_wired(*circuit, start as int, n as int, m),
            decreases n - k,
        {
            let kk = k;
            k = k + 1;
            let ghost before = *circuit;
            proof {
                assert(ram_cell_bit_pins(c4, start as int, n as int, kk as int));
            }
            Self::connect_bit(circuit, start, n, kk);
            proof {
                let p = start + 3 * n;
                let a = start + 20 * n + 10;
                assert(ram_cell_controls_wired(before, start as int, n as int));
                assert(circuit.link(p as int, 0) == before.link(p as int, 0));
                assert(circuit.link(p + 1, 0) == before.link(p + 1, 0));
                assert(circuit.link(p + 2, 0) == before.link(p + 2, 0));
                assert(circuit.link(p + 3, 0) == before.link(p + 3, 0));
                assert(circuit.link(p + 4, 0) == before.link(p + 4, 0));
                assert(circuit.link(a as int, 0) == before.link(a as int, 0));
                assert(circuit.link(a as int, 1) == before.link(a as int, 1));
                assert(circuit.link(a + 1, 0) == before.link(a + 1, 0));
                assert(circuit.link(a + 2, 0) == before.link(a + 2, 0));
                assert(circuit.link(a + 2, 1) == before.link(a + 2, 1));
                assert(circuit.link(a + 3, 0) == before.link(a + 3, 0));
                assert forall|m: int| 0 <= m < k implies #[trigger] ram_cell_bit_wired(*circuit, start as int, n as int, m) by {
                    if m < kk {
                        assert(ram_cell_bit_wired(before, start as int, n as int, m));
                        let r = start + 3 * n + 5;
                        let b = start + 20 * n + 14;
                        assert(before.link(r + 2 * n + m, 0) == circuit.link(r + 2 * n + m, 0));
                        assert(before.link(start + 2 * m, 0) == circuit.link(start + 2 * m, 0));
                        assert(before.link(r + 2 * m + 1, 0) == circuit.link(r + 2 * m + 1, 0));
                        assert(before.link(b, m) == circuit.link(b, m));
                    }
                }
                assert forall|g: int, j: int| c4.has_output(g, j) && g < start implies #[trigger] circuit.link(g, j) == c4.link(g, j) by {
                    assert(before.link(g, j) == c4.link(g, j));
                }
            }
        }
    }
}

impl LogicGate for SingleRAMCell {
    open spec fn spec_input_pin(&self, index: int) -> (int, int) {
        (self.complex_gate.input_gates@[index] as int, 0)
    }

    open spec fn spec_output_pin(&self, index: int) -> (int, int) {
        (self.complex_gate.output_gates@[index] as int, 0)
    }

    open spec fn spec_num_inputs(&self) -> nat {
        self.complex_gate.input_gates@.len()
    }

    open spec fn spec_num_outputs(&self) -> nat {
        self.complex_gate.output_gates@.len()
    }

    open spec fn spec_gate_type(&self) -> GateType {
        self.complex_gate.gate_type
    }

    open spec fn spec_unique_id(&self) -> UniqueID {
        self.complex_gate.unique_id
    }

    fn input_pin(&self, index: usize) -> (res: (usize, usize)) {
        (self.complex_gate.input_gates[index], 0)
    }

    fn output_pin(&self, index: usize) -> (res: (usize, usize)) {
        (self.complex_gate.output_gates[index], 0)
    }

    fn num_inputs(&self) -> (res: usize) {
        self.complex_gate.input_gates.len()
    }

    fn num_outputs(&self) -> (res: usize) {
        self.complex_gate.output_gates.len()
    }

    fn get_gate_type(&self) -> (res: GateType) {
        self.complex_gate.gate_type
    }

    fn get_unique_id(&self) -> (res: UniqueID) {
        self.complex_gate.unique_id
    }
}

impl SingleRAMCell {
    /// The input or output index that `tag` names.
    pub fn get_index_from_tag(&self, tag: &str) -> (res: Option<usize>)
        ensures
            res == last_tag_index(self.complex_gate.gate_tags_to_index@, tag@),
    {
        self.complex_gate.get_index_from_tag(tag)
    }

    /// Brings the outputs up to date with what reaches them and returns their states.
    pub fn fetch_output_signals(&self, circuit: &mut Circuit) -> (res: Vec<GateOutputState>)
        requires
            old(circuit).wf(),
            complex_fits(&self.complex_gate, old(circuit).shape(), old(circuit).types()),
        ensures
            final(circuit).wf(),
            final(circuit).shape() == old(circuit).shape(),
            final(circuit).types() == old(circuit).types(),
            old(circuit).wiring_kept(*final(circuit)),
            res@.len() == self.complex_gate.output_gates@.len(),
            forall|i: int| 0 <= i < res@.len() ==> #[trigger] res@[i] == final(circuit).node(self.complex_gate.output_gates@[i] as int).outputs()[0],
    {
        proof {
            assert forall|i: int| 0 <= i < self.complex_gate.output_gates@.len() implies #[trigger] old(circuit).has_output(self.complex_gate.output_gates@[i] as int, 0) by {}
        }
        self.complex_gate.fetch_output_signals_calculate(circuit)
    }

    pub fn get_tag(&self) -> (res: String)
        ensures
            res@ == self.complex_gate.tag@,
    {
        self.complex_gate.tag.clone()
    }

    pub fn set_tag(&mut self, tag: &str)
        ensures
            final(self).complex_gate.tag@ == tag@,
            final(self).complex_gate.input_gates == old(self).complex_gate.input_gates,
            final(self).complex_gate.output_gates == old(self).complex_gate.output_gates,
            final(self).complex_gate.gate_tags_to_index == old(self).complex_gate.gate_tags_to_index,
    {
        self.complex_gate.tag = tag.to_owned();
    }

    pub fn toggle_output_printing(&mut self, print_output: bool)
        ensures
            final(self).complex_gate.should_print_output == print_output,
            final(self).complex_gate.input_gates == old(self).complex_gate.input_gates,
            final(self).complex_gate.output_gates == old(self).complex_gate.output_gates,
    {
        self.complex_gate.should_print_output = print_output;
    }

    /// The number of circuit gates that make up this gate.
    pub fn num_children_gates(&self) -> (res: usize)
        ensures
            res == self.complex_gate.number_child_gates,
    {
        self.complex_gate.number_child_gates
    }
}

/// Bit `k` of a bus-one gate of `n` bits standing at `start` in `c` is wired: bit 0 through the
/// OR of `i_0` and `BUS_1`, every other bit through the AND of `i_<k>` and the NOT of `BUS_1`.
pub open spec fn bus_one_bit_wired(c: Circuit, start: int, n: int, k: int) -> bool {
    if k == 0 {
        &&& c.wire(start, 0, Some((start + 3 * n + 1, 0int)))
        &&& c.wire(start + 3 * n + 1, 0, Some((start + 1, 0int)))
    } else {
        &&& c.wire(start + 3 * k, 0, Some((start + 3 * k - 1, 0int)))
        &&& c.wire(start + 3 * n + 2, k - 1, Some((start + 3 * k - 1, 1int)))
        &&& c.wire(start + 3 * k - 1, 0, Some((start + 3 * k + 1, 0int)))
    }
}

/// A gate of `number_bits` bits that passes `i_<k>` to `o_<k>` while `BUS_1` is LOW, and puts
/// the number one on the outputs while `BUS_1` is HIGH.
pub struct VariableBitBusOne {
    pub complex_gate: ComplexGateMembers,
    pub and_gates: Vec<And>,
    pub or_gate: Or,
    pub not_gate: Not,
}

impl VariableBitBusOne {
    /// The number of circuit gates a gate of `n` bits uses.
    pub open spec fn spec_len(n: nat) -> nat {
        3 * n + 3
    }

    /// This gate stands at gates `start..start + 3 * n + 3` of `c`: for every bit an input
    /// `i_<k>`, an output `o_<k>` and an AND (the last AND is left unused), then `BUS_1`, the OR
    /// and the NOT. `BUS_1` feeds the NOT and the OR, and every bit is wired as
    /// `bus_one_bit_wired` says.
    pub open spec fn wired(&self, c: Circuit, start: int, n: nat) -> bool {
        let nn = n as int;
        &&& self.complex_gate.input_gates@ == Seq::new(n, |k: int| (start + 3 * k) as usize).push((start + 3 * nn) as usize)
        &&& self.complex_gate.output_gates@ == Seq::new(n, |k: int| (start + 3 * k + 1) as usize)
        &&& self.complex_gate.gate_type == GateType::VariableBitBusOneType
        &&& self.and_gates@.len() == nn - 1
        &&& forall|k: int| 0 <= k < nn - 1 ==> (#[trigger] self.and_gates@[k]).gate == start + 3 * k + 2
        &&& self.or_gate.gate == start + 3 * nn + 1
        &&& self.not_gate.gate == start + 3 * nn + 2
        &&& c.wire(start + 3 * nn, 0, Some((start + 3 * nn + 2, 0int)))
        &&& c.wire(start + 3 * nn, 1, Some((start + 3 * nn + 1, 1int)))
        &&& forall|k: int| 0 <= k < nn ==> #[trigger] bus_one_bit_wired(c, start, nn, k)
    }

    /// Wired as above, with its inputs and outputs in the circuit and tagged `i_<k>`, `BUS_1`,
    /// `o_<k>`.
    pub open spec fn built(&self, c: Circuit, start: int, n: nat) -> bool {
        &&& self.wired(c, start, n)
        &&& complex_fits(&self.complex_gate, c.shape(), c.types())
        &&& self.complex_gate.tag_names() == Seq::new(n, |k: int| numbered("i_"@, k)) + seq!["BUS_1"@]
            + Seq::new(n, |k: int| numbered("o_"@, k))
        &&& self.complex_gate.tags_laid_out()
    }
}

impl VariableBitBusOne {
    /// Connects bit `k` of a gate of `n` bits whose gates stand from `start` on.
    fn connect_bit(circuit: &mut Circuit, start: usize, n: usize, k: usize)
        requires
            old(circuit).wf(),
            k < n,
            start + 3 * n + 3 < usize::MAX,
            start + 3 * n + 3 <= old(circuit).shape().len(),
            forall|m: int| 0 <= m < n ==> #[trigger] old(circuit).shape()[start + 3 * m] == (1nat, 1nat),
            forall|m: int| 0 <= m < n ==> #[trigger] old(circuit).shape()[start + 3 * m + 1] == (1nat, 1nat),
            forall|m: int| 0 <= m < n ==> #[trigger] old(circuit).shape()[start + 3 * m + 2] == (2nat, 1nat),
            old(circuit).shape()[start + 3 * n] == (1nat, 2nat),
            old(circuit).shape()[start + 3 * n + 1] == (2nat, 1nat),
            old(circuit).shape()[start + 3 * n + 2] == (1nat, (n - 1) as nat),
        ensures
            final(circuit).wf(),
            final(circuit).shape() == old(circuit).shape(),
            final(circuit).types() == old(circuit).types(),
            final(circuit).clock_tick_number == old(circuit).clock_tick_number,
            bus_one_bit_wired(*final(circuit), start as int, n as int, k as int),
            k == 0 ==> final(circuit).wire(start + 3 * n, 1, Some((start + 3 * n + 1, 1int))),
            forall|g: int, j: int|
                old(circuit).has_output(g, j) && g != start + 3 * k && (k > 0 || (!(g == start + 3 * n && j == 1) && g != start + 3 * n + 1))
                    && (k == 0 || (!(g == start + 3 * n + 2 && j == k - 1) && g != start + 3 * k - 1))
                    ==> #[trigger] final(circuit).link(g, j) == old(circuit).link(g, j),
    {
        if k == 0 {
            proof {
                assert(old(circuit).shape()[start + 3 * 0] == (1nat, 1nat));
                assert(old(circuit).shape()[start + 3 * 0 + 1] == (1nat, 1nat));
            }
            circuit.connect(start, 0, start + 3 * n + 1, 0);
            circuit.connect(start + 3 * n, 1, start + 3 * n + 1, 1);
            circuit.connect(start + 3 * n + 1, 0, start + 1, 0);
        } else {
            proof {
                assert(old(circuit).shape()[start + 3 * k] == (1nat, 1nat));
                assert(old(circuit).shape()[start + 3 * k + 1] == (1nat, 1nat));
                assert(old(circuit).shape()[start + 3 * (k - 1) + 2] == (2nat, 1nat));
            }
            circuit.connect(start + 3 * k, 0, start + 3 * k - 1, 0);
            circuit.connect(start + 3 * n + 2, k - 1, start + 3 * k - 1, 1);
            circuit.connect(start + 3 * k - 1, 0, start + 3 * k + 1, 0);
        }
    }

    /// Adds a gate of `number_bits` bits to the circuit, wires it and primes it. Fails only when
    /// priming does not come to rest or two senders drive one input.
    #[verifier::spinoff_prover]
    #[verifier::rlimit(100)]
    pub fn new(circuit: &mut Circuit, number_bits: usize) -> (res: Result<Self, GateLogicError>)
        requires
            old(circuit).wf(),
            number_bits >= 1,
            old(circuit).len() + 3 * number_bits + 3 < usize::MAX,
        ensures
            final(circuit).wf(),
            final(circuit).clock_tick_number == old(circuit).clock_tick_number,
            old(circuit).wiring_kept(*final(circuit)),
            forall|g: int, j: int, d: Option<(int, int)>| old(circuit).wire(g, j, d) ==> #[trigger] final(circuit).wire(g, j, d),
            match res {
                Ok(gate) => {
                    &&& final(circuit).len() == old(circuit).len() + Self::spec_len(number_bits as nat)
                    &&& shape_extends(old(circuit).shape(), final(circuit).shape())
                    &&& types_extend(old(circuit).types(), final(circuit).types())
                    &&& gate.built(*final(circuit), old(circuit).len() as int, number_bits as nat)
                    &&& settled_from(*final(circuit), old(circuit).len() as int)
                },
                Err(e) => crate::run_circuit::failure_shown(*final(circuit), e),
            },
    {
        let ghost c0 = *circuit;
        let start = circuit.num_gates();
        let n = number_bits;
        let mut input_gates: Vec<usize> = Vec::new();
        let mut input_tags: Vec<String> = Vec::new();
        let mut output_gates: Vec<usize> = Vec::new();
        let mut output_tags: Vec<String> = Vec::new();
        let mut and_gates: Vec<And> = Vec::new();
        build_simple_inputs_and_outputs_with_and(
            circuit,
            n,
            &mut input_gates,
            &mut input_tags,
            &mut output_gates,
            &mut output_tags,
            &mut and_gates,
        );
        let ghost c1 = *circuit;
        let ghost it1 = input_tags@;
        let ghost ot1 = output_tags@;
        let ghost ag1 = and_gates@;
        and_gates.pop();
        let bus_tag = "BUS_1".to_owned();
        let bus_in = SimpleInput::new(circuit, 2, bus_tag.as_str());
        input_gates.push(bus_in.gate);
        input_tags.push(bus_tag);
        let or_gate = Or::new(circuit, 2, 1);
        let not_gate = Not::new(circuit, n - 1);
        let ghost c2 = *circuit;
        proof {
            assert(c0.shape().len() == c0.len());
            assert(c1.shape().len() == c1.len());
            assert(c1.types().len() == c1.len());
            assert(c2.shape().len() == c2.len());
            assert(c2.types().len() == c2.len());
            assert(c2.shape() =~= c1.shape() + seq![(1nat, 2nat), (2nat, 1nat), (1nat, (n - 1) as nat)]);
            assert(c2.types() =~= c1.types() + seq![GateType::SimpleInputType, GateType::OrType, GateType::NotType]);
            assert(c2.shape().subrange(0, c1.shape().len() as int) =~= c1.shape());
            assert(c2.types().subrange(0, c1.types().len() as int) =~= c1.types());
            assert(c2.shape().subrange(0, c0.shape().len() as int) =~= c0.shape()) by {
                assert(c1.shape().subrange(0, c0.shape().len() as int) =~= c0.shape());
            }
            assert(c2.types().subrange(0, c0.types().len() as int) =~= c0.types()) by {
                assert(c1.types().subrange(0, c0.types().len() as int) =~= c0.types());
            }
            crate::circuit::lemma_wiring_kept_trans(c0, c1, c2);
            assert forall|m: int| 0 <= m < n implies #[trigger] c2.shape()[start + 3 * m] == (1nat, 1nat) by {
                assert(fresh_input(c1, start + 3 * m));
            }
            assert forall|m: int| 0 <= m < n implies #[trigger] c2.shape()[start + 3 * m + 1] == (1nat, 1nat) by {
                assert(fresh_output(c1, start + 3 * m + 1));
            }
            assert forall|m: int| 0 <= m < n implies #[trigger] c2.shape()[start + 3 * m + 2] == (2nat, 1nat) by {
                assert(c1.shape()[start + 3 * m + 2] == (2nat, 1nat));
            }
        }
        circuit.connect(start + 3 * n, 0, start + 3 * n + 2, 0);
        let ghost c3 = *circuit;
        let mut k: usize = 0;
        while k < n
            invariant
                start + 3 * n + 3 < usize::MAX,
                n >= 1,
                k <= n,
                circuit.wf(),
                circuit.shape() == c2.shape(),
                circuit.types() == c2.types(),
                circuit.clock_tick_number == c0.clock_tick_number,
                forall|m: int| 0 <= m < n ==> #[trigger] c2.shape()[start + 3 * m] == (1nat, 1nat),
                forall|m: int| 0 <= m < n ==> #[trigger] c2.shape()[start + 3 * m + 1] == (1nat, 1nat),
                forall|m: int| 0 <= m < n ==> #[trigger] c2.shape()[start + 3 * m + 2] == (2nat, 1nat),
                c2.shape()[start + 3 * n] == (1nat, 2nat),
                c2.shape()[start + 3 * n + 1] == (2nat, 1nat),
                c2.shape()[start + 3 * n + 2] == (1nat, (n - 1) as nat),
                c2.shape().len() == start + 3 * n + 3,
                c3.shape() == c2.shape(),
                forall|g: int, j: int| c3.has_output(g, j) && g < start ==> #[trigger] circuit.link(g, j) == c3.link(g, j),
                circuit.wire(start + 3 * n, 0, Some((start + 3 * n + 2, 0int))),
                k > 0 ==> circuit.wire(start + 3 * n, 1, Some((start + 3 * n + 1, 1int))),
                forall|m: int| 0 <= m < k ==> #[trigger] bus_one_bit_wired(*circuit, start as int, n as int, m),
            decreases n - k,
        {
            let kk = k;
            k = k + 1;
            let ghost before = *circuit;
            Self::connect_bit(circuit, start, n, kk);
            proof {
                assert(circuit.link(start + 3 * n, 0) == before.link(start + 3 * n, 0));
                if kk > 0 {
                    assert(circuit.link(start + 3 * n, 1) == before.link(start + 3 * n, 1));
                }
                assert forall|m: int| 0 <= m < k implies #[trigger] bus_one_bit_wired(*circuit, start as int, n as int, m) by {
                    if m < kk {
                        assert(bus_one_bit_wired(before, start as int, n as int, m));
                        if m == 0 {
                            assert(circuit.link(start as int, 0) == before.link(start as int, 0));
                            assert(circuit.link(start + 3 * n + 1, 0) == before.link(start + 3 * n + 1, 0));
                        } else {
                            assert(circuit.link(start + 3 * m, 0) == before.link(start + 3 * m, 0));
                            assert(circuit.link(start + 3 * n + 2, m - 1) == before.link(start + 3 * n + 2, m - 1));
                            assert(circuit.link(start + 3 * m - 1, 0) == before.link(start + 3 * m - 1, 0));
                        }
                    }
                }
                assert forall|g: int, j: int| c3.has_output(g, j) && g < start implies #[trigger] circuit.link(g, j) == c3.link(g, j) by {
                    assert(before.link(g, j) == c3.link(g, j));
                    assert(c3.shape() == c2.shape());
                    assert(before.has_output(g, j));
                    assert(g != start + 3 * kk);
                    assert(kk == 0 || g != start + 3 * kk - 1);
                }
            }
        }
        let ghost c4 = *circuit;
        proof {
            assert forall|g: int, j2: int| c0.has_output(g, j2) implies #[trigger] c4.link(g, j2) == c0.link(g, j2) by {
                assert(c2.has_output(g, j2));
                assert(c3.link(g, j2) == c2.link(g, j2));
            }
            crate::circuit::lemma_wire_kept_grown(c0, c4);
        }
        let ghost ins = input_gates@;
        let ghost outs = output_gates@;
        let ghost itags = input_tags@;
        let ghost otags = output_tags@;
        let complex_gate = ComplexGateMembers::from_tags(
            circuit,
            GateType::VariableBitBusOneType,
            input_gates,
            output_gates,
            input_tags,
            output_tags,
        );
        let gate = VariableBitBusOne { complex_gate, and_gates, or_gate, not_gate };
        proof {
            assert(itags.len() == n + 1);
            let expected = Seq::new(n as nat, |k: int| numbered("i_"@, k)) + seq!["BUS_1"@] + Seq::new(n as nat, |k: int| numbered("o_"@, k));
            assert forall|i: int| 0 <= i < gate.complex_gate.tag_names().len() implies #[trigger] gate.complex_gate.tag_names()[i] == expected[i] by {
                if i < n {
                    assert(it1[0 + i]@ == numbered("i_"@, i));
                    assert(itags[i] == it1[i]);
                } else if i < n + 1 {
                } else {
                    let k = i - n - 1;
                    assert(ot1[0 + k]@ == numbered("o_"@, k));
                }
            }
            assert(gate.complex_gate.tag_names() =~= expected);
            assert(ins =~= Seq::new(n as nat, |k: int| (start + 3 * k) as usize).push((start + 3 * n) as usize));
            assert(outs =~= Seq::new(n as nat, |k: int| (start + 3 * k + 1) as usize));
            assert forall|k: int| 0 <= k < n - 1 implies (#[trigger] gate.and_gates@[k]).gate == start + 3 * k + 2 by {
                assert(gate.and_gates@[k] == ag1[0 + k]);
            }
            assert(gate.wired(c4, start as int, n as nat));
            assert forall|i: int| 0 <= i < gate.complex_gate.input_gates@.len() implies {
                let g = #[trigger] gate.complex_gate.input_gates@[i] as int;
                0 <= g < c4.shape().len() && c4.shape()[g].0 >= 1 && c4.types()[g] == GateType::SimpleInputType
            } by {
                if i < n {
                    assert(fresh_input(c1, start + 3 * i));
                    assert(c2.types()[start + 3 * i] == c1.types()[start + 3 * i]);
                }
            }
            assert forall|i: int| 0 <= i < gate.complex_gate.output_gates@.len() implies {
                let g = #[trigger] gate.complex_gate.output_gates@[i] as int;
                0 <= g < c4.shape().len() && c4.shape()[g].1 >= 1 && c4.types()[g] == GateType::SimpleOutputType
            } by {
                assert(fresh_output(c1, start + 3 * i + 1));
                assert(c2.types()[start + 3 * i + 1] == c1.types()[start + 3 * i + 1]);
            }
            assert(gate.built(c4, start as int, n as nat));
        }
        let primed = circuit.prime_from(start);
        proof {
            crate::circuit::lemma_wire_kept(c4, *circuit);
            crate::circuit::lemma_wiring_kept_trans(c0, c4, *circuit);
            assert forall|k: int| 0 <= k < n implies #[trigger] bus_one_bit_wired(*circuit, start as int, n as int, k) by {
                assert(bus_one_bit_wired(c4, start as int, n as int, k));
            }
            assert(gate.built(*circuit, start as int, n as nat));
            assert(circuit.shape().subrange(0, c0.shape().len() as int) =~= c0.shape()) by {
                assert(c2.shape().subrange(0, c0.shape().len() as int) =~= c0.shape());
            }
            assert(circuit.types().subrange(0, c0.types().len() as int) =~= c0.types()) by {
                assert(c2.types().subrange(0, c0.types().len() as int) =~= c0.types());
            }
        }
        match primed {
            Ok(()) => Ok(gate),
            Err(e) => Err(e),
        }
    }
}

impl LogicGate for VariableBitBusOne {
    open spec fn spec_input_pin(&self, index: int) -> (int, int) {
        (self.complex_gate.input_gates@[index] as int, 0)
    }

    open spec fn spec_output_pin(&self, index: int) -> (int, int) {
        (self.complex_gate.output_gates@[index] as int, 0)
    }

    open spec fn spec_num_inputs(&self) -> nat {
        self.complex_gate.input_gates@.len()
    }

    open spec fn spec_num_outputs(&self) -> nat {
        self.complex_gate.output_gates@.len()
    }

    open spec fn spec_gate_type(&self) -> GateType {
        self.complex_gate.gate_type
    }

    open spec fn spec_unique_id(&self) -> UniqueID {
        self.complex_gate.unique_id
    }

    fn input_pin(&self, index: usize) -> (res: (usize, usize)) {
        (self.complex_gate.input_gates[index], 0)
    }

    fn output_pin(&self, index: usize) -> (res: (usize, usize)) {
        (self.complex_gate.output_gates[index], 0)
    }

    fn num_inputs(&self) -> (res: usize) {
        self.complex_gate.input_gates.len()
    }

    fn num_outputs(&self) -> (res: usize) {
        self.complex_gate.output_gates.len()
    }

    fn get_gate_type(&self) -> (res: GateType) {
        self.complex_gate.gate_type
    }

    fn get_unique_id(&self) -> (res: UniqueID) {
        self.complex_gate.unique_id
    }
}

impl VariableBitBusOne {
    /// The input or output index that `tag` names.
    pub fn get_index_from_tag(&self, tag: &str) -> (res: Option<usize>)
        ensures
            res == last_tag_index(self.complex_gate.gate_tags_to_index@, tag@),
    {
        self.complex_gate.get_index_from_tag(tag)
    }

    /// Brings the outputs up to date with what reaches them and returns their states.
    pub fn fetch_output_signals(&self, circuit: &mut Circuit) -> (res: Vec<GateOutputState>)
        requires
            old(circuit).wf(),
            complex_fits(&self.complex_gate, old(circuit).shape(), old(circuit).types()),
        ensures
            final(circuit).wf(),
            final(circuit).shape() == old(circuit).shape(),
            final(circuit).types() == old(circuit).types(),
            old(circuit).wiring_kept(*final(circuit)),
            res@.len() == self.complex_gate.output_gates@.len(),
            forall|i: int| 0 <= i < res@.len() ==> #[trigger] res@[i] == final(circuit).node(self.complex_gate.output_gates@[i] as int).outputs()[0],
    {
        proof {
            assert forall|i: int| 0 <= i < self.complex_gate.output_gates@.len() implies #[trigger] old(circuit).has_output(self.complex_gate.output_gates@[i] as int, 0) by {}
        }
        self.complex_gate.fetch_output_signals_calculate(circuit)
    }

    pub fn get_tag(&self) -> (res: String)
        ensures
            res@ == self.complex_gate.tag@,
    {
        self.complex_gate.tag.clone()
    }

    pub fn set_tag(&mut self, tag: &str)
        ensures
            final(self).complex_gate.tag@ == tag@,
            final(self).complex_gate.input_gates == old(self).complex_gate.input_gates,
            final(self).complex_gate.output_gates == old(self).complex_gate.output_gates,
            final(self).complex_gate.gate_tags_to_index == old(self).complex_gate.gate_tags_to_index,
    {
        self.complex_gate.tag = tag.to_owned();
    }

    pub fn toggle_output_printing(&mut self, print_output: bool)
        ensures
            final(self).complex_gate.should_print_output == print_output,
            final(self).complex_gate.input_gates == old(self).complex_gate.input_gates,
            final(self).complex_gate.output_gates == old(self).complex_gate.output_gates,
    {
        self.complex_gate.should_print_output = print_output;
    }

    /// The number of circuit gates that make up this gate.
    pub fn num_children_gates(&self) -> (res: usize)
        ensures
            res == self.complex_gate.number_child_gates,
    {
        self.complex_gate.number_child_gates
    }
}

/// `2` to the power `e`.
pub fn two_to(e: usize) -> (res: usize)
    requires
        pow2(e as nat) < usize::MAX,
    ensures
        res == pow2(e as nat),
{
    proof {
        lemma2_to64();
    }
    let mut r: usize = 1;
    let mut k: usize = 0;
    while k < e
        invariant
            k <= e,
            r == pow2(k as nat),
            pow2(e as nat) < usize::MAX,
        decreases e - k,
    {
        proof {
            lemma_pow2_unfold((k + 1) as nat);
            if k + 1 < e {
                lemma_pow2_strictly_increases((k + 1) as nat, e as nat);
            }
        }
        r = r * 2;
        k = k + 1;
    }
    r
}

/// Input `j` of a decoder of `n` inputs and `outs` outputs standing at `start` in `c` feeds its NOT.
pub open spec fn decoder_input_wired(c: Circuit, start: int, n: int, outs: int, j: int) -> bool {
    c.wire(start + j, 0, Some((start + n + 2 * outs + j, 0int)))
}

/// AND `i` of a decoder of `n` inputs and `outs` outputs standing at `start` in `c` feeds `o_<i>`.
pub open spec fn decoder_and_wired(c: Circuit, start: int, n: int, outs: int, i: int) -> bool {
    c.wire(start + n + outs + i, 0, Some((start + n + i, 0int)))
}

/// A decoder of `number_inputs` inputs: output `o_<i>` is HIGH exactly when the inputs, `i_0`
/// being the lowest bit, spell the number `i`. It is built from one AND per output and one NOT
/// per input.
pub struct VariableDecoder {
    pub complex_gate: ComplexGateMembers,
    pub and_gates: Vec<And>,
    pub not_gates: Vec<Not>,
}

impl VariableDecoder {
    /// The numbers of inputs and outputs of the gates of a decoder of `n` inputs, in order:
    /// the inputs, the outputs, the ANDs and the NOTs.
    pub open spec fn spec_shape(n: nat) -> Seq<(nat, nat)> {
        let outs = pow2(n);
        Seq::new(
            2 * n + 2 * outs,
            |k: int|
                if k < n {
                    (1nat, (outs / 2 + 1) as nat)
                } else if k < n + outs {
                    (1nat, 1nat)
                } else if k < n + 2 * outs {
                    (n, 1nat)
                } else {
                    (1nat, (outs / 2) as nat)
                },
        )
    }

    /// The types of those gates.
    pub open spec fn spec_types(n: nat) -> Seq<GateType> {
        let outs = pow2(n);
        Seq::new(
            2 * n + 2 * outs,
            |k: int|
                if k < n {
                    GateType::SimpleInputType
                } else if k < n + outs {
                    GateType::SimpleOutputType
                } else if k < n + 2 * outs {
                    GateType::AndType
                } else {
                    GateType::NotType
                },
        )
    }

    /// This decoder stands at gates `start..start + 2 * n + 2 * 2^n` of `c`: its inputs, its
    /// outputs, its ANDs and its NOTs. Input `i_<j>` feeds NOT `j` and AND `i` feeds `o_<i>`.
    pub open spec fn wired(&self, c: Circuit, start: int, n: nat) -> bool {
        let outs = pow2(n) as int;
        let nn = n as int;
        &&& self.complex_gate.input_gates@ == Seq::new(n, |j: int| (start + j) as usize)
        &&& self.complex_gate.output_gates@ == Seq::new(pow2(n), |i: int| (start + nn + i) as usize)
        &&& self.complex_gate.gate_type == GateType::VariableDecoderType
        &&& self.and_gates@.len() == outs
        &&& forall|i: int| 0 <= i < outs ==> (#[trigger] self.and_gates@[i]).gate == start + nn + outs + i
        &&& self.not_gates@.len() == nn
        &&& forall|j: int| 0 <= j < nn ==> (#[trigger] self.not_gates@[j]).gate == start + nn + 2 * outs + j
        &&& forall|j: int| 0 <= j < nn ==> #[trigger] decoder_input_wired(c, start, nn, outs, j)
        &&& forall|i: int| 0 <= i < outs ==> #[trigger] decoder_and_wired(c, start, nn, outs, i)
    }

    /// Wired as above, with its inputs and outputs in the circuit and tagged `i_<j>` and `o_<i>`.
    pub open spec fn built(&self, c: Circuit, start: int, n: nat) -> bool {
        &&& self.wired(c, start, n)
        &&& complex_fits(&self.complex_gate, c.shape(), c.types())
        &&& self.complex_gate.tag_names() == Seq::new(n, |j: int| numbered("i_"@, j)) + Seq::new(
            pow2(n),
            |i: int| numbered("o_"@, i),
        )
        &&& self.complex_gate.tags_laid_out()
    }
}

impl VariableDecoder {
    /// The gates of a decoder of `n` inputs and `outs == 2^n` outputs, with the tags of its
    /// inputs and outputs.
    fn gate_specs(n: usize, outs: usize) -> (res: (Vec<GateSpec>, Vec<String>, Vec<String>))
        requires
            n >= 1,
            outs == pow2(n as nat),
            2 * n + 2 * outs < usize::MAX,
        ensures
            res.0@.len() == 2 * n + 2 * outs,
            spec_shape_of(res.0@) == Self::spec_shape(n as nat),
            spec_types_of(res.0@) == Self::spec_types(n as nat),
            forall|k: int| 0 <= k < res.0@.len() ==> spec_addable(#[trigger] res.0@[k]),
            res.1@.len() == n,
            forall|j: int| 0 <= j < n ==> (#[trigger] res.1@[j])@ == numbered("i_"@, j),
            res.2@.len() == outs,
            forall|i: int| 0 <= i < outs ==> (#[trigger] res.2@[i])@ == numbered("o_"@, i),
    {
        let half = outs / 2;
        let mut specs: Vec<GateSpec> = Vec::new();
        let mut in_tags: Vec<String> = Vec::new();
        let mut out_tags: Vec<String> = Vec::new();
        let mut j: usize = 0;
        while j < n
            invariant
                j <= n,
                half == outs / 2,
                outs == pow2(n as nat),
                2 * n + 2 * outs < usize::MAX,
                specs@.len() == j,
                forall|k: int| 0 <= k < specs@.len() ==> spec_addable(#[trigger] specs@[k]),
                forall|k: int| 0 <= k < specs@.len() ==> (#[trigger] specs@[k]).gate_type == Self::spec_types(n as nat)[k]
                    && (specs@[k].input_num as nat, specs@[k].output_num as nat) == Self::spec_shape(n as nat)[k],
                in_tags@.len() == j,
                forall|m: int| 0 <= m < j ==> (#[trigger] in_tags@[m])@ == numbered("i_"@, m),
            decreases n - j,
        {
            let tag = numbered_tag("i_", j);
            specs.push(GateSpec::new(GateType::SimpleInputType, 1, half + 1, numbered_tag("i_", j)));
            in_tags.push(tag);
            j = j + 1;
        }
        let mut i: usize = 0;
        while i < outs
            invariant
                i <= outs,
                half == outs / 2,
                outs == pow2(n as nat),
                2 * n + 2 * outs < usize::MAX,
                specs@.len() == n + i,
                forall|k: int| 0 <= k < specs@.len() ==> spec_addable(#[trigger] specs@[k]),
                forall|k: int| 0 <= k < specs@.len() ==> (#[trigger] specs@[k]).gate_type == Self::spec_types(n as nat)[k]
                    && (specs@[k].input_num as nat, specs@[k].output_num as nat) == Self::spec_shape(n as nat)[k],
                out_tags@.len() == i,
                forall|m: int| 0 <= m < i ==> (#[trigger] out_tags@[m])@ == numbered("o_"@, m),
            decreases outs - i,
        {
            let tag = numbered_tag("o_", i);
            specs.push(GateSpec::new(GateType::SimpleOutputType, 1, 1, numbered_tag("o_", i)));
            out_tags.push(tag);
            i = i + 1;
        }
        let mut i: usize = 0;
        while i < outs
            invariant
                i <= outs,
                n >= 1,
                half == outs / 2,
                outs == pow2(n as nat),
                2 * n + 2 * outs < usize::MAX,
                specs@.len() == n + outs + i,
                forall|k: int| 0 <= k < specs@.len() ==> spec_addable(#[trigger] specs@[k]),
                forall|k: int| 0 <= k < specs@.len() ==> (#[trigger] specs@[k]).gate_type == Self::spec_types(n as nat)[k]
                    && (specs@[k].input_num as nat, specs@[k].output_num as nat) == Self::spec_shape(n as nat)[k],
            decreases outs - i,
        {
            specs.push(GateSpec::new(GateType::AndType, n, 1, String::new()));
            i = i + 1;
        }
        let mut j: usize = 0;
        while j < n
            invariant
                j <= n,
                half == outs / 2,
                outs == pow2(n as nat),
                2 * n + 2 * outs < usize::MAX,
                specs@.len() == n + 2 * outs + j,
                forall|k: int| 0 <= k < specs@.len() ==> spec_addable(#[trigger] specs@[k]),
                forall|k: int| 0 <= k < specs@.len() ==> (#[trigger] specs@[k]).gate_type == Self::spec_types(n as nat)[k]
                    && (specs@[k].input_num as nat, specs@[k].output_num as nat) == Self::spec_shape(n as nat)[k],
            decreases n - j,
        {
            specs.push(GateSpec::new(GateType::NotType, 1, half, String::new()));
            j = j + 1;
        }
        proof {
            assert(spec_shape_of(specs@) =~= Self::spec_shape(n as nat));
            assert(spec_types_of(specs@) =~= Self::spec_types(n as nat));
        }
        (specs, in_tags, out_tags)
    }

    /// Adds a decoder of `number_inputs` inputs to the circuit, wires it and primes it. Every AND
    /// takes each input either straight or through its NOT, as the bit of its number says.
    /// Fails only when priming does not come to rest or two senders drive one input.
    #[verifier::spinoff_prover]
    #[verifier::rlimit(100)]
    pub fn new(circuit: &mut Circuit, number_inputs: usize) -> (res: Result<Self, GateLogicError>)
        requires
            old(circuit).wf(),
            number_inputs >= 1,
            old(circuit).len() + 2 * number_inputs + 2 * pow2(number_inputs as nat) < usize::MAX,
        ensures
            final(circuit).wf(),
            final(circuit).clock_tick_number == old(circuit).clock_tick_number,
            final(circuit).shape() == old(circuit).shape() + Self::spec_shape(number_inputs as nat),
            final(circuit).types() == old(circuit).types() + Self::spec_types(number_inputs as nat),
            old(circuit).wiring_kept(*final(circuit)),
            forall|g: int, j: int, d: Option<(int, int)>| old(circuit).wire(g, j, d) ==> #[trigger] final(circuit).wire(g, j, d),
            match res {
                Ok(gate) => {
                    &&& gate.built(*final(circuit), old(circuit).len() as int, number_inputs as nat)
                    &&& settled_from(*final(circuit), old(circuit).len() as int)
                },
                Err(e) => crate::run_circuit::failure_shown(*final(circuit), e),
            },
    {
        let ghost c0 = *circuit;
        let start = circuit.num_gates();
        let n = number_inputs;
        let outs = two_to(n);
        let half = outs / 2;
        proof {
            lemma_pow2_unfold(n as nat);
            assert(half * 2 == outs);
        }
        let (specs, in_tags, out_tags) = Self::gate_specs(n, outs);
        circuit.add_gates(&specs);
        let ghost c1 = *circuit;
        proof {
            assert(c0.shape().len() == c0.len());
            assert(c0.types().len() == c0.len());
            assert forall|k: int| 0 <= k < 2 * n + 2 * outs implies #[trigger] c1.shape()[start + k] == Self::spec_shape(n as nat)[k]
                && c1.types()[start + k] == Self::spec_types(n as nat)[k] by {}
        }
        let mut input_gates: Vec<usize> = Vec::new();
        let mut j: usize = 0;
        while j < n
            invariant
                j <= n,
                start + 2 * n + 2 * outs < usize::MAX,
                input_gates@ == Seq::new(j as nat, |m: int| (start + m) as usize),
            decreases n - j,
        {
            input_gates.push(start + j);
            proof {
                assert(input_gates@ =~= Seq::new(j as nat + 1, |m: int| (start + m) as usize));
            }
            j = j + 1;
        }
        let mut output_gates: Vec<usize> = Vec::new();
        let mut and_gates: Vec<And> = Vec::new();
        let mut i: usize = 0;
        while i < outs
            invariant
                i <= outs,
                *circuit == c1,
                c1.len() == start + 2 * n + 2 * outs,
                start + 2 * n + 2 * outs < usize::MAX,
                output_gates@ == Seq::new(i as nat, |m: int| (start + n + m) as usize),
                and_gates@.len() == i,
                forall|m: int| 0 <= m < i ==> (#[trigger] and_gates@[m]).gate == start + n + outs + m,
            decreases outs - i,
        {
            output_gates.push(start + n + i);
            let g = start + n + outs + i;
            and_gates.push(And { gate: g, input_num: n, output_num: 1, unique_id: circuit.gates[g].members.unique_id });
            proof {
                assert(output_gates@ =~= Seq::new(i as nat + 1, |m: int| (start + n + m) as usize));
            }
            i = i + 1;
        }
        let mut not_gates: Vec<Not> = Vec::new();
        let mut j: usize = 0;
        while j < n
            invariant
                j <= n,
                *circuit == c1,
                c1.len() == start + 2 * n + 2 * outs,
                start + 2 * n + 2 * outs < usize::MAX,
                not_gates@.len() == j,
                forall|m: int| 0 <= m < j ==> (#[trigger] not_gates@[m]).gate == start + n + 2 * outs + m,
            decreases n - j,
        {
            let g = start + n + 2 * outs + j;
            not_gates.push(Not { gate: g, input_num: 1, output_num: half, unique_id: circuit.gates[g].members.unique_id });
            j = j + 1;
        }
        let complex_gate = ComplexGateMembers::from_tags(
            circuit,
            GateType::VariableDecoderType,
            input_gates,
            output_gates,
            in_tags,
            out_tags,
        );
        Self::connect_gates(circuit, start, n, outs);
        let ghost c2 = *circuit;
        let gate = VariableDecoder { complex_gate, and_gates, not_gates };
        proof {
            assert(gate.complex_gate.tag_names() =~= Seq::new(n as nat, |j: int| numbered("i_"@, j)) + Seq::new(
                pow2(n as nat),
                |i: int| numbered("o_"@, i),
            ));
            assert forall|i: int| 0 <= i < gate.complex_gate.input_gates@.len() implies {
                let g = #[trigger] gate.complex_gate.input_gates@[i] as int;
                0 <= g < c2.shape().len() && c2.shape()[g].0 >= 1 && c2.types()[g] == GateType::SimpleInputType
            } by {
                assert(c1.shape()[start + i] == Self::spec_shape(n as nat)[i]);
            }
            assert forall|i: int| 0 <= i < gate.complex_gate.output_gates@.len() implies {
                let g = #[trigger] gate.complex_gate.output_gates@[i] as int;
                0 <= g < c2.shape().len() && c2.shape()[g].1 >= 1 && c2.types()[g] == GateType::SimpleOutputType
            } by {
                assert(c1.shape()[start + n + i] == Self::spec_shape(n as nat)[n + i]);
            }
            assert(gate.built(c2, start as int, n as nat));
            assert forall|g: int, j2: int| c0.has_output(g, j2) implies #[trigger] c2.link(g, j2) == c0.link(g, j2) by {
                assert(c1.has_output(g, j2));
            }
        }
        let primed = circuit.prime_from(start);
        proof {
            crate::circuit::lemma_wire_kept(c2, *circuit);
            assert(c2.shape().subrange(0, c0.shape().len() as int) =~= c0.shape());
            crate::circuit::lemma_wiring_kept_trans(c0, c2, *circuit);
            assert forall|g: int, j2: int, d: Option<(int, int)>| c0.wire(g, j2, d) implies #[trigger] circuit.wire(g, j2, d) by {
                assert(c1.wire(g, j2, d));
                assert(c2.wire(g, j2, d));
            }
            assert forall|j: int| 0 <= j < n implies #[trigger] decoder_input_wired(*circuit, start as int, n as int, outs as int, j) by {
                assert(decoder_input_wired(c2, start as int, n as int, outs as int, j));
            }
            assert forall|i: int| 0 <= i < outs implies #[trigger] decoder_and_wired(*circuit, start as int, n as int, outs as int, i) by {
                assert(decoder_and_wired(c2, start as int, n as int, outs as int, i));
            }
            assert(gate.built(*circuit, start as int, n as nat));
        }
        match primed {
            Ok(()) => Ok(gate),
            Err(e) => Err(e),
        }
    }

    /// Wires a decoder of `n` inputs and `outs == 2^n` outputs whose gates stand from `start`
    /// on, in this order: the NOTs first, then every AND in turn, taking for input
    /// `j` the next free output of the NOT of `i_<j>` or of `i_<j>` itself.
    #[verifier::spinoff_prover]
    #[verifier::rlimit(100)]
    fn connect_gates(circuit: &mut Circuit, start: usize, n: usize, outs: usize)
        requires
            old(circuit).wf(),
            n >= 1,
            outs == pow2(n as nat),
            start + 2 * n + 2 * outs < usize::MAX,
            old(circuit).len() == start + 2 * n + 2 * outs,
            forall|k: int| 0 <= k < 2 * n + 2 * outs ==> #[trigger] old(circuit).shape()[start + k] == Self::spec_shape(n as nat)[k],
            forall|g: int, j: int| start <= g && old(circuit).has_output(g, j) ==> #[trigger] old(circuit).link(g, j) is None,
        ensures
            final(circuit).wf(),
            final(circuit).shape() == old(circuit).shape(),
            final(circuit).types() == old(circuit).types(),
            final(circuit).clock_tick_number == old(circuit).clock_tick_number,
            forall|g: int, j: int| old(circuit).has_output(g, j) && g < start ==> #[trigger] final(circuit).link(g, j) == old(circuit).link(g, j),
            forall|j: int| 0 <= j < n ==> #[trigger] decoder_input_wired(*final(circuit), start as int, n as int, outs as int, j),
            forall|i: int| 0 <= i < outs ==> #[trigger] decoder_and_wired(*final(circuit), start as int, n as int, outs as int, i),
    {
        let ghost c1 = *circuit;
        let half = outs / 2;
        proof {
            lemma_pow2_unfold(n as nat);
        }
        let mut j: usize = 0;
        while j < n
            invariant
                j <= n,
                half == outs / 2,
                half * 2 == outs,
                n >= 1,
                outs == pow2(n as nat),
                start + 2 * n + 2 * outs < usize::MAX,
                circuit.wf(),
                circuit.shape() == c1.shape(),
                circuit.types() == c1.types(),
                circuit.clock_tick_number == c1.clock_tick_number,
                c1.len() == start + 2 * n + 2 * outs,
                forall|k: int| 0 <= k < 2 * n + 2 * outs ==> #[trigger] c1.shape()[start + k] == Self::spec_shape(n as nat)[k],
                forall|g: int, j2: int| c1.has_output(g, j2) && g < start ==> #[trigger] circuit.link(g, j2) == c1.link(g, j2),
                forall|m: int| 0 <= m < j ==> #[trigger] decoder_input_wired(*circuit, start as int, n as int, outs as int, m),
            decreases n - j,
        {
            let ghost before = *circuit;
            proof {
                assert(c1.shape()[start + j] == Self::spec_shape(n as nat)[j as int]);
                assert(c1.shape()[start + (n + 2 * outs + j)] == Self::spec_shape(n as nat)[n + 2 * outs + j]);
            }
            circuit.connect(start + j, 0, start + n + 2 * outs + j, 0);
            proof {
                assert forall|m: int| 0 <= m < j + 1 implies #[trigger] decoder_input_wired(*circuit, start as int, n as int, outs as int, m) by {
                    if m < j {
                        assert(decoder_input_wired(before, start as int, n as int, outs as int, m));
                    }
                }
                assert forall|g: int, j2: int| c1.has_output(g, j2) && g < start implies #[trigger] circuit.link(g, j2) == c1.link(g, j2) by {
                    assert(before.link(g, j2) == c1.link(g, j2));
                }
            }
            j = j + 1;
        }
        let mut input_gate_index: Vec<usize> = Vec::new();
        let mut not_gate_index: Vec<usize> = Vec::new();
        let mut j: usize = 0;
        while j < n
            invariant
                j <= n,
                input_gate_index@.len() == j,
                not_gate_index@.len() == j,
                forall|m: int| 0 <= m < j ==> #[trigger] input_gate_index@[m] == 1,
                forall|m: int| 0 <= m < j ==> #[trigger] not_gate_index@[m] == 0,
            decreases n - j,
        {
            input_gate_index.push(1);
            not_gate_index.push(0);
            j = j + 1;
        }
        let mut i: usize = 0;
        while i < outs
            invariant
                i <= outs,
                half == outs / 2,
                half * 2 == outs,
                n >= 1,
                outs == pow2(n as nat),
                start + 2 * n + 2 * outs < usize::MAX,
                circuit.wf(),
                circuit.shape() == c1.shape(),
                circuit.types() == c1.types(),
                circuit.clock_tick_number == c1.clock_tick_number,
                c1.len() == start + 2 * n + 2 * outs,
                forall|k: int| 0 <= k < 2 * n + 2 * outs ==> #[trigger] c1.shape()[start + k] == Self::spec_shape(n as nat)[k],
                forall|g: int, j2: int| c1.has_output(g, j2) && g < start ==> #[trigger] circuit.link(g, j2) == c1.link(g, j2),
                forall|m: int| 0 <= m < n ==> #[trigger] decoder_input_wired(*circuit, start as int, n as int, outs as int, m),
                forall|m: int| 0 <= m < i ==> #[trigger] decoder_and_wired(*circuit, start as int, n as int, outs as int, m),
                input_gate_index@.len() == n,
                not_gate_index@.len() == n,
                forall|m: int| 0 <= m < n ==> 1 <= #[trigger] input_gate_index@[m] <= i + 1,
                forall|m: int| 0 <= m < n ==> #[trigger] not_gate_index@[m] <= i,
            decreases outs - i,
        {
            let ghost outer = *circuit;
            let mut j: usize = 0;
            let mut p: usize = 1;
            proof {
                lemma2_to64();
            }
            while j < n
                invariant
                    j <= n,
                    i < outs,
                    p == pow2(j as nat),
                    outs == pow2(n as nat),
                    half == outs / 2,
                    half * 2 == outs,
                    start + 2 * n + 2 * outs < usize::MAX,
                    circuit.wf(),
                    circuit.shape() == c1.shape(),
                    circuit.types() == c1.types(),
                    circuit.clock_tick_number == c1.clock_tick_number,
                    c1.len() == start + 2 * n + 2 * outs,
                    forall|k: int| 0 <= k < 2 * n + 2 * outs ==> #[trigger] c1.shape()[start + k] == Self::spec_shape(n as nat)[k],
                    forall|g: int, j2: int| c1.has_output(g, j2) && g < start ==> #[trigger] circuit.link(g, j2) == c1.link(g, j2),
                    forall|m: int| 0 <= m < n ==> #[trigger] decoder_input_wired(*circuit, start as int, n as int, outs as int, m),
                    forall|m: int| 0 <= m < i ==> #[trigger] decoder_and_wired(*circuit, start as int, n as int, outs as int, m),
                    input_gate_index@.len() == n,
                    not_gate_index@.len() == n,
                    forall|m: int| 0 <= m < n ==> 1 <= #[trigger] input_gate_index@[m] <= i + 2,
                    forall|m: int| 0 <= m < n ==> #[trigger] not_gate_index@[m] <= i + 1,
                    forall|m: int| j <= m < n ==> 1 <= #[trigger] input_gate_index@[m] <= i + 1,
                    forall|m: int| j <= m < n ==> #[trigger] not_gate_index@[m] <= i,
                decreases n - j,
            {
                let ghost before = *circuit;
                proof {
                    lemma_pow2_pos(j as nat);
                }
                let bit = (i / p) % 2;
                proof {
                    assert(c1.shape()[start + (n + outs + i)] == Self::spec_shape(n as nat)[n + outs + i]);
                    assert(c1.shape()[start + j] == Self::spec_shape(n as nat)[j as int]);
                    assert(c1.shape()[start + (n + 2 * outs + j)] == Self::spec_shape(n as nat)[n + 2 * outs + j]);
                }
                if bit == 0 {
                    let next_index = not_gate_index[j];
                    not_gate_index.set(j, next_index + 1);
                    if next_index < half {
                        circuit.connect(start + n + 2 * outs + j, next_index, start + n + outs + i, j);
                    }
                } else {
                    let next_index = input_gate_index[j];
                    input_gate_index.set(j, next_index + 1);
                    if next_index < half + 1 {
                        circuit.connect(start + j, next_index, start + n + outs + i, j);
                    }
                }
                proof {
                    assert forall|m: int| 0 <= m < n implies #[trigger] decoder_input_wired(*circuit, start as int, n as int, outs as int, m) by {
                        assert(decoder_input_wired(before, start as int, n as int, outs as int, m));
                    }
                    assert forall|m: int| 0 <= m < i implies #[trigger] decoder_and_wired(*circuit, start as int, n as int, outs as int, m) by {
                        assert(decoder_and_wired(before, start as int, n as int, outs as int, m));
                    }
                    assert forall|g: int, j2: int| c1.has_output(g, j2) && g < start implies #[trigger] circuit.link(g, j2) == c1.link(g, j2) by {
                        assert(before.link(g, j2) == c1.link(g, j2));
                    }
                    if j + 1 < n {
                        lemma_pow2_unfold((j + 1) as nat);
                        lemma_pow2_strictly_increases((j + 1) as nat, n as nat);
                    } else {
                        lemma_pow2_unfold((j + 1) as nat);
                    }
                }
                j = j + 1;
                p = p * 2;
            }
            let ghost before = *circuit;
            proof {
                assert(c1.shape()[start + (n + outs + i)] == Self::spec_shape(n as nat)[n + outs + i]);
                assert(c1.shape()[start + (n + i)] == Self::spec_shape(n as nat)[n + i]);
            }
            circuit.connect(start + n + outs + i, 0, start + n + i, 0);
            proof {
                assert forall|m: int| 0 <= m < n implies #[trigger] decoder_input_wired(*circuit, start as int, n as int, outs as int, m) by {
                    assert(decoder_input_wired(before, start as int, n as int, outs as int, m));
                }
                assert forall|m: int| 0 <= m < i + 1 implies #[trigger] decoder_and_wired(*circuit, start as int, n as int, outs as int, m) by {
                    if m < i {
                        assert(decoder_and_wired(before, start as int, n as int, outs as int, m));
                    }
                }
                assert forall|g: int, j2: int| c1.has_output(g, j2) && g < start implies #[trigger] circuit.link(g, j2) == c1.link(g, j2) by {
                    assert(before.link(g, j2) == c1.link(g, j2));
                }
            }
            i = i + 1;
        }
    }
}

impl LogicGate for VariableDecoder {
    open spec fn spec_input_pin(&self, index: int) -> (int, int) {
        (self.complex_gate.input_gates@[index] as int, 0)
    }

    open spec fn spec_output_pin(&self, index: int) -> (int, int) {
        (self.complex_gate.output_gates@[index] as int, 0)
    }

    open spec fn spec_num_inputs(&self) -> nat {
        self.complex_gate.input_gates@.len()
    }

    open spec fn spec_num_outputs(&self) -> nat {
        self.complex_gate.output_gates@.len()
    }

    open spec fn spec_gate_type(&self) -> GateType {
        self.complex_gate.gate_type
    }

    open spec fn spec_unique_id(&self) -> UniqueID {
        self.complex_gate.unique_id
    }

    fn input_pin(&self, index: usize) -> (res: (usize, usize)) {
        (self.complex_gate.input_gates[index], 0)
    }

    fn output_pin(&self, index: usize) -> (res: (usize, usize)) {
        (self.complex_gate.output_gates[index], 0)
    }

    fn num_inputs(&self) -> (res: usize) {
        self.complex_gate.input_gates.len()
    }

    fn num_outputs(&self) -> (res: usize) {
        self.complex_gate.output_gates.len()
    }

    fn get_gate_type(&self) -> (res: GateType) {
        self.complex_gate.gate_type
    }

    fn get_unique_id(&self) -> (res: UniqueID) {
        self.complex_gate.unique_id
    }
}

impl VariableDecoder {
    /// The input or output index that `tag` names.
    pub fn get_index_from_tag(&self, tag: &str) -> (res: Option<usize>)
        ensures
            res == last_tag_index(self.complex_gate.gate_tags_to_index@, tag@),
    {
        self.complex_gate.get_index_from_tag(tag)
    }

    /// Brings the outputs up to date with what reaches them and returns their states.
    pub fn fetch_output_signals(&self, circuit: &mut Circuit) -> (res: Vec<GateOutputState>)
        requires
            old(circuit).wf(),
            complex_fits(&self.complex_gate, old(circuit).shape(), old(circuit).types()),
        ensures
            final(circuit).wf(),
            final(circuit).shape() == old(circuit).shape(),
            final(circuit).types() == old(circuit).types(),
            old(circuit).wiring_kept(*final(circuit)),
            res@.len() == self.complex_gate.output_gates@.len(),
            forall|i: int| 0 <= i < res@.len() ==> #[trigger] res@[i] == final(circuit).node(self.complex_gate.output_gates@[i] as int).outputs()[0],
    {
        proof {
            assert forall|i: int| 0 <= i < self.complex_gate.output_gates@.len() implies #[trigger] old(circuit).has_output(self.complex_gate.output_gates@[i] as int, 0) by {}
        }
        self.complex_gate.fetch_output_signals_calculate(circuit)
    }

    pub fn get_tag(&self) -> (res: String)
        ensures
            res@ == self.complex_gate.tag@,
    {
        self.complex_gate.tag.clone()
    }

    pub fn set_tag(&mut self, tag: &str)
        ensures
            final(self).complex_gate.tag@ == tag@,
            final(self).complex_gate.input_gates == old(self).complex_gate.input_gates,
            final(self).complex_gate.output_gates == old(self).complex_gate.output_gates,
            final(self).complex_gate.gate_tags_to_index == old(self).complex_gate.gate_tags_to_index,
    {
        self.complex_gate.tag = tag.to_owned();
    }

    pub fn toggle_output_printing(&mut self, print_output: bool)
        ensures
            final(self).complex_gate.should_print_output == print_output,
            final(self).complex_gate.input_gates == old(self).complex_gate.input_gates,
            final(self).complex_gate.output_gates == old(self).complex_gate.output_gates,
    {
        self.complex_gate.should_print_output = print_output;
    }

    /// The number of circuit gates that make up this gate.
    pub fn num_children_gates(&self) -> (res: usize)
        ensures
            res == self.complex_gate.number_child_gates,
    {
        self.complex_gate.number_child_gates
    }
}

} // verus!
