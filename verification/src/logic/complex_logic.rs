use vstd::prelude::*;

use crate::circuit::{settled_from, Circuit};
use crate::logic::basic_gates::{And, ControlledBuffer, Nand, Not, Or, Splitter};
use crate::logic::foundations::{complex_fits, last_tag_index, ComplexGateMembers, GateOutputState, GateType, LogicGate};
use crate::logic::signals::{GateInput, GateLogicError, Signal, UniqueID};
use crate::logic::tags::{numbered, numbered_tag};
use crate::netlist::{lemma_wire_dest_untouched, lemma_repeat_index, lemma_repeat_len, lemma_wires_keep_old, repeat, spec_addable, spec_shape_of, spec_types_of, wire_dest, wire_fits, GateSpec};

verus! {

/// A gate of `num_bits` bits that lets input `i_<k>` through to output `o_<k>` while `E` is HIGH, and gives LOW otherwise.
pub struct VariableBitCPUEnable {
    pub complex_gate: ComplexGateMembers,
    pub and_gates: Vec<And>,
}

impl VariableBitCPUEnable {
    /// The types of the gates a gate of `num_bits` bits adds, in order.
    pub open spec fn spec_types(num_bits: nat) -> Seq<GateType> {
        repeat(seq![GateType::SimpleInputType, GateType::SimpleOutputType, GateType::AndType], num_bits) + seq![GateType::SimpleInputType]
    }

    /// The numbers of inputs and outputs of those gates.
    pub open spec fn spec_shape(num_bits: nat) -> Seq<(nat, nat)> {
        repeat(seq![((1) as nat, (1) as nat), ((1) as nat, (1) as nat), ((2) as nat, (1) as nat)], num_bits) + seq![((1) as nat, (num_bits) as nat)]
    }

    /// The wires of the first `k` bits.
    pub open spec fn spec_bit_wires(start: int, num_bits: nat, k: nat) -> Seq<(usize, usize, usize, usize)>
        decreases k,
    {
        if k == 0 {
            Seq::empty()
        } else {
            Self::spec_bit_wires(start, num_bits, (k - 1) as nat) + seq![
                ((start + 3 * (k - 1) + 0) as usize, (0) as usize, (start + 3 * (k - 1) + 2) as usize, (0) as usize),
                ((start + 3 * num_bits + 0 * num_bits + 0) as usize, ((k - 1)) as usize, (start + 3 * (k - 1) + 2) as usize, (1) as usize),
                ((start + 3 * (k - 1) + 2) as usize, (0) as usize, (start + 3 * (k - 1) + 1) as usize, (0) as usize),
            ]
        }
    }

    /// For every bit, input `i_<k>` and output `k` of `E` feed AND `k`, which feeds `o_<k>`.
    pub open spec fn spec_wires(start: int, num_bits: nat) -> Seq<(usize, usize, usize, usize)> {
        Self::spec_bit_wires(start, num_bits, num_bits)
    }

    /// The pins, tags and parts of a gate of `num_bits` bits that starts at `start`.
    pub open spec fn pins_ok(&self, start: int, num_bits: nat) -> bool {
        &&& self.complex_gate.gate_type == GateType::VariableCPUEnableType
        &&& self.complex_gate.input_gates@ == Seq::new(num_bits, |k: int| (start + 3 * k + 0) as usize) + seq![(start + 3 * num_bits + 0 * num_bits + 0) as usize]
        &&& self.complex_gate.output_gates@ == Seq::new(num_bits, |k: int| (start + 3 * k + 1) as usize)
        &&& self.complex_gate.tag_names() == Seq::new(num_bits, |k: int| numbered("i_"@, k)) + seq!["E"@] + Seq::new(num_bits, |k: int| numbered("o_"@, k))
        &&& self.complex_gate.tags_laid_out()
        &&& self.and_gates@.len() == num_bits
        &&& forall|k: int| 0 <= k < num_bits ==> (#[trigger] self.and_gates@[k]).gate == start + 3 * k + 2
    }

    /// The gates to add for `num_bits` bits.
    fn gate_specs(num_bits: usize) -> (res: Vec<GateSpec>)
        requires
            num_bits >= 1,
            3 * num_bits + 0 * num_bits + 1 < usize::MAX,
        ensures
            spec_types_of(res@) == Self::spec_types(num_bits as nat),
            spec_shape_of(res@) == Self::spec_shape(num_bits as nat),
            forall|k: int| 0 <= k < res@.len() ==> spec_addable(#[trigger] res@[k]),
    {
        let mut res: Vec<GateSpec> = Vec::new();
        let mut k: usize = 0;
        while k < num_bits
            invariant
                k <= num_bits,
                spec_types_of(res@) == repeat(seq![GateType::SimpleInputType, GateType::SimpleOutputType, GateType::AndType], k as nat),
                spec_shape_of(res@) == repeat(seq![((1) as nat, (1) as nat), ((1) as nat, (1) as nat), ((2) as nat, (1) as nat)], k as nat),
                forall|m: int| 0 <= m < res@.len() ==> spec_addable(#[trigger] res@[m]),
            decreases num_bits - k,
        {
            let ghost before = res@;
            res.push(GateSpec::new(GateType::SimpleInputType, 1, 1, numbered_tag("i_", k)));
            res.push(GateSpec::new(GateType::SimpleOutputType, 1, 1, numbered_tag("o_", k)));
            res.push(GateSpec::new(GateType::AndType, 2, 1, String::new()));
            proof {
                assert(spec_types_of(res@) =~= spec_types_of(before) + seq![GateType::SimpleInputType, GateType::SimpleOutputType, GateType::AndType]);
                assert(spec_shape_of(res@) =~= spec_shape_of(before) + seq![((1) as nat, (1) as nat), ((1) as nat, (1) as nat), ((2) as nat, (1) as nat)]);
            }
            k = k + 1;
        }
        let ghost first = res@;

        let ghost second = res@;
        res.push(GateSpec::new(GateType::SimpleInputType, 1, num_bits, "E".to_owned()));
        proof {
            assert(spec_types_of(res@) =~= spec_types_of(second) + seq![GateType::SimpleInputType]);
            assert(spec_shape_of(res@) =~= spec_shape_of(second) + seq![((1) as nat, (num_bits) as nat)]);
        }
        res
    }

    /// The wires to connect for `num_bits` bits starting at gate `start`.
    fn gate_wires(start: usize, num_bits: usize) -> (res: Vec<(usize, usize, usize, usize)>)
        requires
            start + 3 * num_bits + 0 * num_bits + 1 < usize::MAX,
            num_bits >= 1,
        ensures
            res@ == Self::spec_wires(start as int, num_bits as nat),
            forall|k: int| 0 <= k < res@.len() ==> wire_fits(#[trigger] res@[k], start as int, Self::spec_shape(num_bits as nat)),
    {
        let mut res: Vec<(usize, usize, usize, usize)> = Vec::new();
        proof {
            lemma_repeat_len(seq![((1) as nat, (1) as nat), ((1) as nat, (1) as nat), ((2) as nat, (1) as nat)], num_bits as nat);
            assert(num_bits * seq![((1) as nat, (1) as nat), ((1) as nat, (1) as nat), ((2) as nat, (1) as nat)].len() == 3 * num_bits) by (nonlinear_arith) requires seq![((1) as nat, (1) as nat), ((1) as nat, (1) as nat), ((2) as nat, (1) as nat)].len() == 3;
            lemma_repeat_len(seq![GateType::SimpleInputType, GateType::SimpleOutputType, GateType::AndType], num_bits as nat);
            assert(num_bits * seq![GateType::SimpleInputType, GateType::SimpleOutputType, GateType::AndType].len() == 3 * num_bits) by (nonlinear_arith) requires seq![GateType::SimpleInputType, GateType::SimpleOutputType, GateType::AndType].len() == 3;
        }
        let mut k: usize = 0;
        while k < num_bits
            invariant
                k <= num_bits,
                num_bits >= 1,
                start + 3 * num_bits + 0 * num_bits + 1 < usize::MAX,
                Self::spec_shape(num_bits as nat).len() == 3 * num_bits + 0 * num_bits + 1,
                res@ == Self::spec_bit_wires(start as int, num_bits as nat, k as nat),
                forall|m: int| 0 <= m < res@.len() ==> wire_fits(#[trigger] res@[m], start as int, Self::spec_shape(num_bits as nat)),
            decreases num_bits - k,
        {
            let ghost before = res@;
            res.push((start + 3 * k + 0, 0, start + 3 * k + 2, 0));
            res.push((start + 3 * num_bits + 0 * num_bits + 0, k, start + 3 * k + 2, 1));
            res.push((start + 3 * k + 2, 0, start + 3 * k + 1, 0));
            proof {
                assert(res@ =~= Self::spec_bit_wires(start as int, num_bits as nat, k as nat + 1));
                lemma_repeat_len(seq![((1) as nat, (1) as nat), ((1) as nat, (1) as nat), ((2) as nat, (1) as nat)], num_bits as nat);
                assert(num_bits * seq![((1) as nat, (1) as nat), ((1) as nat, (1) as nat), ((2) as nat, (1) as nat)].len() == 3 * num_bits) by (nonlinear_arith) requires seq![((1) as nat, (1) as nat), ((1) as nat, (1) as nat), ((2) as nat, (1) as nat)].len() == 3;
                lemma_repeat_len(seq![GateType::SimpleInputType, GateType::SimpleOutputType, GateType::AndType], num_bits as nat);
                assert(num_bits * seq![GateType::SimpleInputType, GateType::SimpleOutputType, GateType::AndType].len() == 3 * num_bits) by (nonlinear_arith) requires seq![GateType::SimpleInputType, GateType::SimpleOutputType, GateType::AndType].len() == 3;
                lemma_repeat_index(seq![((1) as nat, (1) as nat), ((1) as nat, (1) as nat), ((2) as nat, (1) as nat)], num_bits as nat, k as int, 0);
                lemma_repeat_index(seq![GateType::SimpleInputType, GateType::SimpleOutputType, GateType::AndType], num_bits as nat, k as int, 0);
                lemma_repeat_index(seq![((1) as nat, (1) as nat), ((1) as nat, (1) as nat), ((2) as nat, (1) as nat)], num_bits as nat, k as int, 1);
                lemma_repeat_index(seq![GateType::SimpleInputType, GateType::SimpleOutputType, GateType::AndType], num_bits as nat, k as int, 1);
                lemma_repeat_index(seq![((1) as nat, (1) as nat), ((1) as nat, (1) as nat), ((2) as nat, (1) as nat)], num_bits as nat, k as int, 2);
                lemma_repeat_index(seq![GateType::SimpleInputType, GateType::SimpleOutputType, GateType::AndType], num_bits as nat, k as int, 2);
                assert(k as int * 3 == 3 * k as int);
                assert forall|m: int| 0 <= m < res@.len() implies wire_fits(#[trigger] res@[m], start as int, Self::spec_shape(num_bits as nat)) by {
                    if m < before.len() {
                        assert(res@[m] == before[m]);
                    }
                }
            }
            k = k + 1;
        }
        let ghost before = res@;

        proof {
            assert(res@ =~= Self::spec_wires(start as int, num_bits as nat));
            assert forall|m: int| 0 <= m < res@.len() implies wire_fits(#[trigger] res@[m], start as int, Self::spec_shape(num_bits as nat)) by {
                if m < before.len() {
                    assert(res@[m] == before[m]);
                }
            }
        }
        res
    }

    /// Adds a gate of `num_bits` bits to the circuit, wires it and primes it. Fails only when
    /// priming does not come to rest or two senders drive one input.
    #[verifier::spinoff_prover]
    #[verifier::rlimit(60)]
    pub fn new(circuit: &mut Circuit, num_bits: usize) -> (res: Result<Self, GateLogicError>)
        requires
            old(circuit).wf(),
            num_bits >= 1,
            old(circuit).len() + 3 * num_bits + 0 * num_bits + 1 + 1 < usize::MAX,
        ensures
            final(circuit).wf(),
            final(circuit).clock_tick_number == old(circuit).clock_tick_number,
            final(circuit).types() == old(circuit).types() + Self::spec_types(num_bits as nat),
            final(circuit).shape() == old(circuit).shape() + Self::spec_shape(num_bits as nat),
            old(circuit).wiring_kept(*final(circuit)),
            forall|g: int, j: int, d: Option<(int, int)>| old(circuit).wire(g, j, d) ==> #[trigger] final(circuit).wire(g, j, d),
            forall|g: int, j: int|
                old(circuit).len() <= g && final(circuit).has_output(g, j) ==> #[trigger] final(circuit).link(g, j)
                    == wire_dest(Self::spec_wires(old(circuit).len() as int, num_bits as nat), g, j, None),
            match res {
                Ok(gate) => {
                    &&& gate.pins_ok(old(circuit).len() as int, num_bits as nat)
                    &&& complex_fits(&gate.complex_gate, final(circuit).shape(), final(circuit).types())
                    &&& settled_from(*final(circuit), old(circuit).len() as int)
                },
                Err(e) => crate::run_circuit::failure_shown(*final(circuit), e),
            },
    {
        let ghost c0 = *circuit;
        let start = circuit.num_gates();
        let specs = Self::gate_specs(num_bits);
        let wires = Self::gate_wires(start, num_bits);
        let ghost shape = Self::spec_shape(num_bits as nat);
        proof {
            lemma_repeat_len(seq![((1) as nat, (1) as nat), ((1) as nat, (1) as nat), ((2) as nat, (1) as nat)], num_bits as nat);
            assert(num_bits * seq![((1) as nat, (1) as nat), ((1) as nat, (1) as nat), ((2) as nat, (1) as nat)].len() == 3 * num_bits) by (nonlinear_arith) requires seq![((1) as nat, (1) as nat), ((1) as nat, (1) as nat), ((2) as nat, (1) as nat)].len() == 3;
            lemma_repeat_len(seq![GateType::SimpleInputType, GateType::SimpleOutputType, GateType::AndType], num_bits as nat);
            assert(num_bits * seq![GateType::SimpleInputType, GateType::SimpleOutputType, GateType::AndType].len() == 3 * num_bits) by (nonlinear_arith) requires seq![GateType::SimpleInputType, GateType::SimpleOutputType, GateType::AndType].len() == 3;
            assert(spec_shape_of(specs@).len() == specs@.len());
            assert(specs@.len() == 3 * num_bits + 0 * num_bits + 1);
        }
        circuit.add_gates(&specs);
        let ghost c1 = *circuit;
        proof {
            assert forall|k: int| 0 <= k < wires@.len() implies c1.has_output((#[trigger] wires@[k]).0 as int, wires@[k].1 as int)
                && c1.has_input(wires@[k].2 as int, wires@[k].3 as int) by {
                assert(wire_fits(wires@[k], start as int, shape));
            }
        }
        circuit.connect_all(&wires);
        let ghost c2 = *circuit;
        proof {
            lemma_wires_keep_old(c0, c1, c2, wires@, start as int, shape);
            assert(c2.shape().len() == c2.len());
            assert(c0.shape().len() == c0.len());
            assert(c2.len() == start + 3 * num_bits + 0 * num_bits + 1);
        }
        let mut input_gates: Vec<usize> = Vec::new();
        let mut input_tags: Vec<String> = Vec::new();
        let ghost prev_input_gates_B0 = input_gates@;
        let ghost prev_input_tags_B0 = input_tags@;
        let mut q: usize = 0;
        while q < num_bits
            invariant
                q <= num_bits,
                start + 3 * num_bits + 0 * num_bits + 1 < usize::MAX,
                input_gates@ == prev_input_gates_B0 + Seq::new(q as nat, |m: int| (start + 3 * m + 0) as usize),
                input_tags@.len() == prev_input_tags_B0.len() + q,
                forall|m: int| 0 <= m < prev_input_tags_B0.len() ==> (#[trigger] input_tags@[m]) == prev_input_tags_B0[m],
                forall|m: int| prev_input_tags_B0.len() <= m < prev_input_tags_B0.len() + q ==> (#[trigger] input_tags@[m])@ == numbered("i_"@, m - prev_input_tags_B0.len()),
            decreases num_bits - q,
        {
            input_gates.push(start + 3 * q + 0);
            input_tags.push(numbered_tag("i_", q));
            proof {
                assert(input_gates@ =~= prev_input_gates_B0 + Seq::new(q as nat + 1, |m: int| (start + 3 * m + 0) as usize));
            }
            q = q + 1;
        }
        input_gates.push(start + 3 * num_bits + 0 * num_bits + 0);
        input_tags.push("E".to_owned());
        let mut output_gates: Vec<usize> = Vec::new();
        let mut output_tags: Vec<String> = Vec::new();
        let ghost prev_output_gates_B1 = output_gates@;
        let ghost prev_output_tags_B1 = output_tags@;
        let mut q: usize = 0;
        while q < num_bits
            invariant
                q <= num_bits,
                start + 3 * num_bits + 0 * num_bits + 1 < usize::MAX,
                output_gates@ == prev_output_gates_B1 + Seq::new(q as nat, |m: int| (start + 3 * m + 1) as usize),
                output_tags@.len() == prev_output_tags_B1.len() + q,
                forall|m: int| 0 <= m < prev_output_tags_B1.len() ==> (#[trigger] output_tags@[m]) == prev_output_tags_B1[m],
                forall|m: int| prev_output_tags_B1.len() <= m < prev_output_tags_B1.len() + q ==> (#[trigger] output_tags@[m])@ == numbered("o_"@, m - prev_output_tags_B1.len()),
            decreases num_bits - q,
        {
            output_gates.push(start + 3 * q + 1);
            output_tags.push(numbered_tag("o_", q));
            proof {
                assert(output_gates@ =~= prev_output_gates_B1 + Seq::new(q as nat + 1, |m: int| (start + 3 * m + 1) as usize));
            }
            q = q + 1;
        }
        let mut and_gates: Vec<And> = Vec::new();
        let mut q: usize = 0;
        while q < num_bits
            invariant
                q <= num_bits,
                start + 3 * num_bits + 0 * num_bits + 1 < usize::MAX,
                *circuit == c2,
                c2.len() == start + 3 * num_bits + 0 * num_bits + 1,
                and_gates@.len() == q,
                forall|m: int| 0 <= m < q ==> (#[trigger] and_gates@[m]).gate == start + 3 * m + 2,
            decreases num_bits - q,
        {
            let g = start + 3 * q + 2;
            and_gates.push(And { gate: g, input_num: 2, output_num: 1, unique_id: circuit.gates[g].members.unique_id });
            q = q + 1;
        }
        proof {
            assert(input_gates@ =~= Seq::new((num_bits as nat), |k: int| ((start as int) + 3 * k + 0) as usize) + seq![((start as int) + 3 * (num_bits as nat) + 0 * (num_bits as nat) + 0) as usize]);
            assert(output_gates@ =~= Seq::new((num_bits as nat), |k: int| ((start as int) + 3 * k + 1) as usize));
        }
        let complex_gate = ComplexGateMembers::from_tags(
            circuit,
            GateType::VariableCPUEnableType,
            input_gates,
            output_gates,
            input_tags,
            output_tags,
        );
        let mut complex_gate = complex_gate;
        complex_gate.number_child_gates = 3 * num_bits + 0 * num_bits + 1;
        let gate = VariableBitCPUEnable { complex_gate, and_gates };
        proof {
            assert(gate.complex_gate.tag_names() =~= Seq::new(num_bits as nat, |k: int| numbered("i_"@, k)) + seq!["E"@] + Seq::new(num_bits as nat, |k: int| numbered("o_"@, k))) by {
                assert(gate.complex_gate.tag_names() =~= Seq::new(input_tags@.len(), |k: int| input_tags@[k]@) + Seq::new(
                    output_tags@.len(),
                    |k: int| output_tags@[k]@,
                ));
            }
            lemma_repeat_len(seq![((1) as nat, (1) as nat), ((1) as nat, (1) as nat), ((2) as nat, (1) as nat)], num_bits as nat);
            assert(num_bits * seq![((1) as nat, (1) as nat), ((1) as nat, (1) as nat), ((2) as nat, (1) as nat)].len() == 3 * num_bits) by (nonlinear_arith) requires seq![((1) as nat, (1) as nat), ((1) as nat, (1) as nat), ((2) as nat, (1) as nat)].len() == 3;
            lemma_repeat_len(seq![GateType::SimpleInputType, GateType::SimpleOutputType, GateType::AndType], num_bits as nat);
            assert(num_bits * seq![GateType::SimpleInputType, GateType::SimpleOutputType, GateType::AndType].len() == 3 * num_bits) by (nonlinear_arith) requires seq![GateType::SimpleInputType, GateType::SimpleOutputType, GateType::AndType].len() == 3;
            assert forall|i: int| 0 <= i < gate.complex_gate.input_gates@.len() implies {
                let g = #[trigger] gate.complex_gate.input_gates@[i] as int;
                0 <= g < c2.shape().len() && c2.shape()[g].0 >= 1 && c2.types()[g] == GateType::SimpleInputType
            } by {
                if 0 <= i < 0 + num_bits { lemma_repeat_index(seq![((1) as nat, (1) as nat), ((1) as nat, (1) as nat), ((2) as nat, (1) as nat)], num_bits as nat, i - (0), 0); lemma_repeat_index(seq![GateType::SimpleInputType, GateType::SimpleOutputType, GateType::AndType], num_bits as nat, i - (0), 0); assert((i - (0)) * 3 == 3 * (i - (0))); }
                if num_bits <= i < num_bits + 1 {  }
            }
            assert forall|i: int| 0 <= i < gate.complex_gate.output_gates@.len() implies {
                let g = #[trigger] gate.complex_gate.output_gates@[i] as int;
                0 <= g < c2.shape().len() && c2.shape()[g].1 >= 1 && c2.types()[g] == GateType::SimpleOutputType
            } by {
                if 0 <= i < 0 + num_bits { lemma_repeat_index(seq![((1) as nat, (1) as nat), ((1) as nat, (1) as nat), ((2) as nat, (1) as nat)], num_bits as nat, i - (0), 1); lemma_repeat_index(seq![GateType::SimpleInputType, GateType::SimpleOutputType, GateType::AndType], num_bits as nat, i - (0), 1); assert((i - (0)) * 3 == 3 * (i - (0))); }
            }
            assert(c2.types().len() == c2.shape().len());
        }
        let primed = circuit.prime_from(start);
        proof {
            crate::circuit::lemma_wiring_kept_refl(c2);
            assert(c2.shape().subrange(0, c0.shape().len() as int) =~= c0.shape());
            crate::circuit::lemma_wiring_kept_trans(c0, c2, *circuit);
            crate::circuit::lemma_wire_kept(c2, *circuit);
            assert forall|g: int, j: int| start <= g && circuit.has_output(g, j) implies #[trigger] circuit.link(g, j)
                == wire_dest(Self::spec_wires(start as int, num_bits as nat), g, j, None) by {
                assert(c2.has_output(g, j));
                assert(c1.has_output(g, j));
                assert(c1.link(g, j) is None);
            }
        }
        match primed {
            Ok(()) => Ok(gate),
            Err(e) => Err(e),
        }
    }
}

impl LogicGate for VariableBitCPUEnable {
    open spec fn spec_input_pin(&self, index: int) -> (int, int) {
        (self.complex_gate.input_gates@[index] as int, 0)
    }

    open spec fn spec_output_pin(&self, index: int) -> (int, int) {
        (self.complex_gate.output_gates@[index] as int, 0)
    }

    open spec fn spec_num_inputs(&self) -> nat {
        self.complex_gate.input_gates@.len()
    }

    open spec fn spec_num_outputs(&self) -> nat {
        self.complex_gate.output_gates@.len()
    }

    open spec fn spec_gate_type(&self) -> GateType {
        self.complex_gate.gate_type
    }

    open spec fn spec_unique_id(&self) -> UniqueID {
        self.complex_gate.unique_id
    }

    fn input_pin(&self, index: usize) -> (res: (usize, usize)) {
        (self.complex_gate.input_gates[index], 0)
    }

    fn output_pin(&self, index: usize) -> (res: (usize, usize)) {
        (self.complex_gate.output_gates[index], 0)
    }

    fn num_inputs(&self) -> (res: usize) {
        self.complex_gate.input_gates.len()
    }

    fn num_outputs(&self) -> (res: usize) {
        self.complex_gate.output_gates.len()
    }

    fn get_gate_type(&self) -> (res: GateType) {
        self.complex_gate.gate_type
    }

    fn get_unique_id(&self) -> (res: UniqueID) {
        self.complex_gate.unique_id
    }
}

impl VariableBitCPUEnable {
    /// The input or output index that `tag` names.
    pub fn get_index_from_tag(&self, tag: &str) -> (res: Option<usize>)
        ensures
            res == last_tag_index(self.complex_gate.gate_tags_to_index@, tag@),
    {
        self.complex_gate.get_index_from_tag(tag)
    }

    /// Brings the outputs up to date with what reaches them and returns their states.
    pub fn fetch_output_signals(&self, circuit: &mut Circuit) -> (res: Vec<GateOutputState>)
        requires
            old(circuit).wf(),
            complex_fits(&self.complex_gate, old(circuit).shape(), old(circuit).types()),
        ensures
            final(circuit).wf(),
            final(circuit).shape() == old(circuit).shape(),
            final(circuit).types() == old(circuit).types(),
            old(circuit).wiring_kept(*final(circuit)),
            res@.len() == self.complex_gate.output_gates@.len(),
            forall|i: int| 0 <= i < res@.len() ==> #[trigger] res@[i] == final(circuit).node(self.complex_gate.output_gates@[i] as int).outputs()[0],
    {
        proof {
            assert forall|i: int| 0 <= i < self.complex_gate.output_gates@.len() implies #[trigger] old(circuit).has_output(self.complex_gate.output_gates@[i] as int, 0) by {}
        }
        self.complex_gate.fetch_output_signals_calculate(circuit)
    }

    pub fn get_tag(&self) -> (res: String)
        ensures
            res@ == self.complex_gate.tag@,
    {
        self.complex_gate.tag.clone()
    }

    pub fn set_tag(&mut self, tag: &str)
        ensures
            final(self).complex_gate.tag@ == tag@,
            final(self).complex_gate.input_gates == old(self).complex_gate.input_gates,
            final(self).complex_gate.output_gates == old(self).complex_gate.output_gates,
            final(self).complex_gate.gate_tags_to_index == old(self).complex_gate.gate_tags_to_index,
    {
        self.complex_gate.tag = tag.to_owned();
    }

    pub fn toggle_output_printing(&mut self, print_output: bool)
        ensures
            final(self).complex_gate.should_print_output == print_output,
            final(self).complex_gate.input_gates == old(self).complex_gate.input_gates,
            final(self).complex_gate.output_gates == old(self).complex_gate.output_gates,
    {
        self.complex_gate.should_print_output = print_output;
    }

    /// The number of circuit gates that make up this gate.
    pub fn num_children_gates(&self) -> (res: usize)
        ensures
            res == self.complex_gate.number_child_gates,
    {
        self.complex_gate.number_child_gates
    }
}

/// A gate of `num_bits` bits that passes input `i_<k>` on to output `o_<k>` while `E` is HIGH, and holds the outputs while `E` is LOW.
pub struct SignalGatekeeper {
    pub complex_gate: ComplexGateMembers,

}

impl SignalGatekeeper {
    /// The types of the gates a gate of `num_bits` bits adds, in order.
    pub open spec fn spec_types(num_bits: nat) -> Seq<GateType> {
        repeat(seq![GateType::SimpleInputType, GateType::SimpleOutputType], num_bits) + seq![GateType::SimpleInputType, GateType::SignalGatekeeperType]
    }

    /// The numbers of inputs and outputs of those gates.
    pub open spec fn spec_shape(num_bits: nat) -> Seq<(nat, nat)> {
        repeat(seq![((1) as nat, (1) as nat), ((1) as nat, (1) as nat)], num_bits) + seq![((1) as nat, (num_bits) as nat), ((num_bits + 1) as nat, (num_bits) as nat)]
    }

    /// The wires of the first `k` bits.
    pub open spec fn spec_bit_wires(start: int, num_bits: nat, k: nat) -> Seq<(usize, usize, usize, usize)>
        decreases k,
    {
        if k == 0 {
            Seq::empty()
        } else {
            Self::spec_bit_wires(start, num_bits, (k - 1) as nat) + seq![
                ((start + 2 * (k - 1) + 0) as usize, (0) as usize, (start + 2 * num_bits + 0 * num_bits + 1) as usize, ((k - 1)) as usize),
                ((start + 2 * num_bits + 0 * num_bits + 1) as usize, ((k - 1)) as usize, (start + 2 * (k - 1) + 1) as usize, (0) as usize),
            ]
        }
    }

    /// For every bit, input `i_<k>` feeds input `k` of the keeper, whose output `k` feeds `o_<k>`; `E` feeds its last input.
    pub open spec fn spec_wires(start: int, num_bits: nat) -> Seq<(usize, usize, usize, usize)> {
        Self::spec_bit_wires(start, num_bits, num_bits) + seq![((start + 2 * num_bits + 0 * num_bits + 0) as usize, (0) as usize, (start + 2 * num_bits + 0 * num_bits + 1) as usize, (num_bits) as usize)]
    }

    /// The pins, tags and parts of a gate of `num_bits` bits that starts at `start`.
    pub open spec fn pins_ok(&self, start: int, num_bits: nat) -> bool {
        &&& self.complex_gate.gate_type == GateType::SignalGatekeeperType
        &&& self.complex_gate.input_gates@ == Seq::new(num_bits, |k: int| (start + 2 * k + 0) as usize) + seq![(start + 2 * num_bits + 0 * num_bits + 0) as usize]
        &&& self.complex_gate.output_gates@ == Seq::new(num_bits, |k: int| (start + 2 * k + 1) as usize)
        &&& self.complex_gate.tag_names() == Seq::new(num_bits, |k: int| numbered("i_"@, k)) + seq!["E"@] + Seq::new(num_bits, |k: int| numbered("o_"@, k))
        &&& self.complex_gate.tags_laid_out()

    }

    /// The gates to add for `num_bits` bits.
    fn gate_specs(num_bits: usize) -> (res: Vec<GateSpec>)
        requires
            num_bits >= 1,
            2 * num_bits + 0 * num_bits + 2 < usize::MAX,
        ensures
            spec_types_of(res@) == Self::spec_types(num_bits as nat),
            spec_shape_of(res@) == Self::spec_shape(num_bits as nat),
            forall|k: int| 0 <= k < res@.len() ==> spec_addable(#[trigger] res@[k]),
    {
        let mut res: Vec<GateSpec> = Vec::new();
        let mut k: usize = 0;
        while k < num_bits
            invariant
                k <= num_bits,
                spec_types_of(res@) == repeat(seq![GateType::SimpleInputType, GateType::SimpleOutputType], k as nat),
                spec_shape_of(res@) == repeat(seq![((1) as nat, (1) as nat), ((1) as nat, (1) as nat)], k as nat),
                forall|m: int| 0 <= m < res@.len() ==> spec_addable(#[trigger] res@[m]),
            decreases num_bits - k,
        {
            let ghost before = res@;
            res.push(GateSpec::new(GateType::SimpleInputType, 1, 1, numbered_tag("i_", k)));
            res.push(GateSpec::new(GateType::SimpleOutputType, 1, 1, numbered_tag("o_", k)));
            proof {
                assert(spec_types_of(res@) =~= spec_types_of(before) + seq![GateType::SimpleInputType, GateType::SimpleOutputType]);
                assert(spec_shape_of(res@) =~= spec_shape_of(before) + seq![((1) as nat, (1) as nat), ((1) as nat, (1) as nat)]);
            }
            k = k + 1;
        }
        let ghost first = res@;

        let ghost second = res@;
        res.push(GateSpec::new(GateType::SimpleInputType, 1, num_bits, "E".to_owned()));
        res.push(GateSpec::new(GateType::SignalGatekeeperType, num_bits + 1, num_bits, String::new()));
        proof {
            assert(spec_types_of(res@) =~= spec_types_of(second) + seq![GateType::SimpleInputType, GateType::SignalGatekeeperType]);
            assert(spec_shape_of(res@) =~= spec_shape_of(second) + seq![((1) as nat, (num_bits) as nat), ((num_bits + 1) as nat, (num_bits) as nat)]);
        }
        res
    }

    /// The wires to connect for `num_bits` bits starting at gate `start`.
    fn gate_wires(start: usize, num_bits: usize) -> (res: Vec<(usize, usize, usize, usize)>)
        requires
            start + 2 * num_bits + 0 * num_bits + 2 < usize::MAX,
            num_bits >= 1,
        ensures
            res@ == Self::spec_wires(start as int, num_bits as nat),
            forall|k: int| 0 <= k < res@.len() ==> wire_fits(#[trigger] res@[k], start as int, Self::spec_shape(num_bits as nat)),
    {
        let mut res: Vec<(usize, usize, usize, usize)> = Vec::new();
        proof {
            lemma_repeat_len(seq![((1) as nat, (1) as nat), ((1) as nat, (1) as nat)], num_bits as nat);
            assert(num_bits * seq![((1) as nat, (1) as nat), ((1) as nat, (1) as nat)].len() == 2 * num_bits) by (nonlinear_arith) requires seq![((1) as nat, (1) as nat), ((1) as nat, (1) as nat)].len() == 2;
            lemma_repeat_len(seq![GateType::SimpleInputType, GateType::SimpleOutputType], num_bits as nat);
            assert(num_bits * seq![GateType::SimpleInputType, GateType::SimpleOutputType].len() == 2 * num_bits) by (nonlinear_arith) requires seq![GateType::SimpleInputType, GateType::SimpleOutputType].len() == 2;
        }
        let mut k: usize = 0;
        while k < num_bits
            invariant
                k <= num_bits,
                num_bits >= 1,
                start + 2 * num_bits + 0 * num_bits + 2 < usize::MAX,
                Self::spec_shape(num_bits as nat).len() == 2 * num_bits + 0 * num_bits + 2,
                res@ == Self::spec_bit_wires(start as int, num_bits as nat, k as nat),
                forall|m: int| 0 <= m < res@.len() ==> wire_fits(#[trigger] res@[m], start as int, Self::spec_shape(num_bits as nat)),
            decreases num_bits - k,
        {
            let ghost before = res@;
            res.push((start + 2 * k + 0, 0, start + 2 * num_bits + 0 * num_bits + 1, k));
            res.push((start + 2 * num_bits + 0 * num_bits + 1, k, start + 2 * k + 1, 0));
            proof {
                assert(res@ =~= Self::spec_bit_wires(start as int, num_bits as nat, k as nat + 1));
                lemma_repeat_len(seq![((1) as nat, (1) as nat), ((1) as nat, (1) as nat)], num_bits as nat);
                assert(num_bits * seq![((1) as nat, (1) as nat), ((1) as nat, (1) as nat)].len() == 2 * num_bits) by (nonlinear_arith) requires seq![((1) as nat, (1) as nat), ((1) as nat, (1) as nat)].len() == 2;
                lemma_repeat_len(seq![GateType::SimpleInputType, GateType::SimpleOutputType], num_bits as nat);
                assert(num_bits * seq![GateType::SimpleInputType, GateType::SimpleOutputType].len() == 2 * num_bits) by (nonlinear_arith) requires seq![GateType::SimpleInputType, GateType::SimpleOutputType].len() == 2;
                lemma_repeat_index(seq![((1) as nat, (1) as nat), ((1) as nat, (1) as nat)], num_bits as nat, k as int, 0);
                lemma_repeat_index(seq![GateType::SimpleInputType, GateType::SimpleOutputType], num_bits as nat, k as int, 0);
                lemma_repeat_index(seq![((1) as nat, (1) as nat), ((1) as nat, (1) as nat)], num_bits as nat, k as int, 1);
                lemma_repeat_index(seq![GateType::SimpleInputType, GateType::SimpleOutputType], num_bits as nat, k as int, 1);
                assert(k as int * 2 == 2 * k as int);
                assert forall|m: int| 0 <= m < res@.len() implies wire_fits(#[trigger] res@[m], start as int, Self::spec_shape(num_bits as nat)) by {
                    if m < before.len() {
                        assert(res@[m] == before[m]);
                    }
                }
            }
            k = k + 1;
        }
        let ghost before = res@;
        res.push((start + 2 * num_bits + 0 * num_bits + 0, 0, start + 2 * num_bits + 0 * num_bits + 1, num_bits));
        proof {
            assert(res@ =~= Self::spec_wires(start as int, num_bits as nat));
            assert forall|m: int| 0 <= m < res@.len() implies wire_fits(#[trigger] res@[m], start as int, Self::spec_shape(num_bits as nat)) by {
                if m < before.len() {
                    assert(res@[m] == before[m]);
                }
            }
        }
        res
    }

    /// Adds a gate of `num_bits` bits to the circuit, wires it and primes it. Fails only when
    /// priming does not come to rest or two senders drive one input.
    #[verifier::spinoff_prover]
    #[verifier::rlimit(60)]
    pub fn new(circuit: &mut Circuit, num_bits: usize) -> (res: Result<Self, GateLogicError>)
        requires
            old(circuit).wf(),
            num_bits >= 1,
            old(circuit).len() + 2 * num_bits + 0 * num_bits + 2 + 1 < usize::MAX,
        ensures
            final(circuit).wf(),
            final(circuit).clock_tick_number == old(circuit).clock_tick_number,
            final(circuit).types() == old(circuit).types() + Self::spec_types(num_bits as nat),
            final(circuit).shape() == old(circuit).shape() + Self::spec_shape(num_bits as nat),
            old(circuit).wiring_kept(*final(circuit)),
            forall|g: int, j: int, d: Option<(int, int)>| old(circuit).wire(g, j, d) ==> #[trigger] final(circuit).wire(g, j, d),
            forall|g: int, j: int|
                old(circuit).len() <= g && final(circuit).has_output(g, j) ==> #[trigger] final(circuit).link(g, j)
                    == wire_dest(Self::spec_wires(old(circuit).len() as int, num_bits as nat), g, j, None),
            match res {
                Ok(gate) => {
                    &&& gate.pins_ok(old(circuit).len() as int, num_bits as nat)
                    &&& complex_fits(&gate.complex_gate, final(circuit).shape(), final(circuit).types())
                    &&& settled_from(*final(circuit), old(circuit).len() as int)
                },
                Err(e) => crate::run_circuit::failure_shown(*final(circuit), e),
            },
    {
        let ghost c0 = *circuit;
        let start = circuit.num_gates();
        let specs = Self::gate_specs(num_bits);
        let wires = Self::gate_wires(start, num_bits);
        let ghost shape = Self::spec_shape(num_bits as nat);
        proof {
            lemma_repeat_len(seq![((1) as nat, (1) as nat), ((1) as nat, (1) as nat)], num_bits as nat);
            assert(num_bits * seq![((1) as nat, (1) as nat), ((1) as nat, (1) as nat)].len() == 2 * num_bits) by (nonlinear_arith) requires seq![((1) as nat, (1) as nat), ((1) as nat, (1) as nat)].len() == 2;
            lemma_repeat_len(seq![GateType::SimpleInputType, GateType::SimpleOutputType], num_bits as nat);
            assert(num_bits * seq![GateType::SimpleInputType, GateType::SimpleOutputType].len() == 2 * num_bits) by (nonlinear_arith) requires seq![GateType::SimpleInputType, GateType::SimpleOutputType].len() == 2;
            assert(spec_shape_of(specs@).len() == specs@.len());
            assert(specs@.len() == 2 * num_bits + 0 * num_bits + 2);
        }
        circuit.add_gates(&specs);
        let ghost c1 = *circuit;
        proof {
            assert forall|k: int| 0 <= k < wires@.len() implies c1.has_output((#[trigger] wires@[k]).0 as int, wires@[k].1 as int)
                && c1.has_input(wires@[k].2 as int, wires@[k].3 as int) by {
                assert(wire_fits(wires@[k], start as int, shape));
            }
        }
        circuit.connect_all(&wires);
        let ghost c2 = *circuit;
        proof {
            lemma_wires_keep_old(c0, c1, c2, wires@, start as int, shape);
            assert(c2.shape().len() == c2.len());
            assert(c0.shape().len() == c0.len());
            assert(c2.len() == start + 2 * num_bits + 0 * num_bits + 2);
        }
        let mut input_gates: Vec<usize> = Vec::new();
        let mut input_tags: Vec<String> = Vec::new();
        let ghost prev_input_gates_B0 = input_gates@;
        let ghost prev_input_tags_B0 = input_tags@;
        let mut q: usize = 0;
        while q < num_bits
            invariant
                q <= num_bits,
                start + 2 * num_bits + 0 * num_bits + 2 < usize::MAX,
                input_gates@ == prev_input_gates_B0 + Seq::new(q as nat, |m: int| (start + 2 * m + 0) as usize),
                input_tags@.len() == prev_input_tags_B0.len() + q,
                forall|m: int| 0 <= m < prev_input_tags_B0.len() ==> (#[trigger] input_tags@[m]) == prev_input_tags_B0[m],
                forall|m: int| prev_input_tags_B0.len() <= m < prev_input_tags_B0.len() + q ==> (#[trigger] input_tags@[m])@ == numbered("i_"@, m - prev_input_tags_B0.len()),
            decreases num_bits - q,
        {
            input_gates.push(start + 2 * q + 0);
            input_tags.push(numbered_tag("i_", q));
            proof {
                assert(input_gates@ =~= prev_input_gates_B0 + Seq::new(q as nat + 1, |m: int| (start + 2 * m + 0) as usize));
            }
            q = q + 1;
        }
        input_gates.push(start + 2 * num_bits + 0 * num_bits + 0);
        input_tags.push("E".to_owned());
        let mut output_gates: Vec<usize> = Vec::new();
        let mut output_tags: Vec<String> = Vec::new();
        let ghost prev_output_gates_B1 = output_gates@;
        let ghost prev_output_tags_B1 = output_tags@;
        let mut q: usize = 0;
        while q < num_bits
            invariant
                q <= num_bits,
                start + 2 * num_bits + 0 * num_bits + 2 < usize::MAX,
                output_gates@ == prev_output_gates_B1 + Seq::new(q as nat, |m: int| (start + 2 * m + 1) as usize),
                output_tags@.len() == prev_output_tags_B1.len() + q,
                forall|m: int| 0 <= m < prev_output_tags_B1.len() ==> (#[trigger] output_tags@[m]) == prev_output_tags_B1[m],
                forall|m: int| prev_output_tags_B1.len() <= m < prev_output_tags_B1.len() + q ==> (#[trigger] output_tags@[m])@ == numbered("o_"@, m - prev_output_tags_B1.len()),
            decreases num_bits - q,
        {
            output_gates.push(start + 2 * q + 1);
            output_tags.push(numbered_tag("o_", q));
            proof {
                assert(output_gates@ =~= prev_output_gates_B1 + Seq::new(q as nat + 1, |m: int| (start + 2 * m + 1) as usize));
            }
            q = q + 1;
        }

        proof {
            assert(input_gates@ =~= Seq::new((num_bits as nat), |k: int| ((start as int) + 2 * k + 0) as usize) + seq![((start as int) + 2 * (num_bits as nat) + 0 * (num_bits as nat) + 0) as usize]);
            assert(output_gates@ =~= Seq::new((num_bits as nat), |k: int| ((start as int) + 2 * k + 1) as usize));
        }
        let complex_gate = ComplexGateMembers::from_tags(
            circuit,
            GateType::SignalGatekeeperType,
            input_gates,
            output_gates,
            input_tags,
            output_tags,
        );
        let mut complex_gate = complex_gate;
        complex_gate.number_child_gates = 2 * num_bits + 0 * num_bits + 2;
        let gate = SignalGatekeeper { complex_gate,  };
        proof {
            assert(gate.complex_gate.tag_names() =~= Seq::new(num_bits as nat, |k: int| numbered("i_"@, k)) + seq!["E"@] + Seq::new(num_bits as nat, |k: int| numbered("o_"@, k))) by {
                assert(gate.complex_gate.tag_names() =~= Seq::new(input_tags@.len(), |k: int| input_tags@[k]@) + Seq::new(
                    output_tags@.len(),
                    |k: int| output_tags@[k]@,
                ));
            }
            lemma_repeat_len(seq![((1) as nat, (1) as nat), ((1) as nat, (1) as nat)], num_bits as nat);
            assert(num_bits * seq![((1) as nat, (1) as nat), ((1) as nat, (1) as nat)].len() == 2 * num_bits) by (nonlinear_arith) requires seq![((1) as nat, (1) as nat), ((1) as nat, (1) as nat)].len() == 2;
            lemma_repeat_len(seq![GateType::SimpleInputType, GateType::SimpleOutputType], num_bits as nat);
            assert(num_bits * seq![GateType::SimpleInputType, GateType::SimpleOutputType].len() == 2 * num_bits) by (nonlinear_arith) requires seq![GateType::SimpleInputType, GateType::SimpleOutputType].len() == 2;
            assert forall|i: int| 0 <= i < gate.complex_gate.input_gates@.len() implies {
                let g = #[trigger] gate.complex_gate.input_gates@[i] as int;
                0 <= g < c2.shape().len() && c2.shape()[g].0 >= 1 && c2.types()[g] == GateType::SimpleInputType
            } by {
                if 0 <= i < 0 + num_bits { lemma_repeat_index(seq![((1) as nat, (1) as nat), ((1) as nat, (1) as nat)], num_bits as nat, i - (0), 0); lemma_repeat_index(seq![GateType::SimpleInputType, GateType::SimpleOutputType], num_bits as nat, i - (0), 0); assert((i - (0)) * 2 == 2 * (i - (0))); }
                if num_bits <= i < num_bits + 1 {  }
            }
            assert forall|i: int| 0 <= i < gate.complex_gate.output_gates@.len() implies {
                let g = #[trigger] gate.complex_gate.output_gates@[i] as int;
                0 <= g < c2.shape().len() && c2.shape()[g].1 >= 1 && c2.types()[g] == GateType::SimpleOutputType
            } by {
                if 0 <= i < 0 + num_bits { lemma_repeat_index(seq![((1) as nat, (1) as nat), ((1) as nat, (1) as nat)], num_bits as nat, i - (0), 1); lemma_repeat_index(seq![GateType::SimpleInputType, GateType::SimpleOutputType], num_bits as nat, i - (0), 1); assert((i - (0)) * 2 == 2 * (i - (0))); }
            }
            assert(c2.types().len() == c2.shape().len());
        }
        let primed = circuit.prime_from(start);
        proof {
            crate::circuit::lemma_wiring_kept_refl(c2);
            assert(c2.shape().subrange(0, c0.shape().len() as int) =~= c0.shape());
            crate::circuit::lemma_wiring_kept_trans(c0, c2, *circuit);
            crate::circuit::lemma_wire_kept(c2, *circuit);
            assert forall|g: int, j: int| start <= g && circuit.has_output(g, j) implies #[trigger] circuit.link(g, j)
                == wire_dest(Self::spec_wires(start as int, num_bits as nat), g, j, None) by {
                assert(c2.has_output(g, j));
                assert(c1.has_output(g, j));
                assert(c1.link(g, j) is None);
            }
        }
        match primed {
            Ok(()) => Ok(gate),
            Err(e) => Err(e),
        }
    }
}

impl LogicGate for SignalGatekeeper {
    open spec fn spec_input_pin(&self, index: int) -> (int, int) {
        (self.complex_gate.input_gates@[index] as int, 0)
    }

    open spec fn spec_output_pin(&self, index: int) -> (int, int) {
        (self.complex_gate.output_gates@[index] as int, 0)
    }

    open spec fn spec_num_inputs(&self) -> nat {
        self.complex_gate.input_gates@.len()
    }

    open spec fn spec_num_outputs(&self) -> nat {
        self.complex_gate.output_gates@.len()
    }

    open spec fn spec_gate_type(&self) -> GateType {
        self.complex_gate.gate_type
    }

    open spec fn spec_unique_id(&self) -> UniqueID {
        self.complex_gate.unique_id
    }

    fn input_pin(&self, index: usize) -> (res: (usize, usize)) {
        (self.complex_gate.input_gates[index], 0)
    }

    fn output_pin(&self, index: usize) -> (res: (usize, usize)) {
        (self.complex_gate.output_gates[index], 0)
    }

    fn num_inputs(&self) -> (res: usize) {
        self.complex_gate.input_gates.len()
    }

    fn num_outputs(&self) -> (res: usize) {
        self.complex_gate.output_gates.len()
    }

    fn get_gate_type(&self) -> (res: GateType) {
        self.complex_gate.gate_type
    }

    fn get_unique_id(&self) -> (res: UniqueID) {
        self.complex_gate.unique_id
    }
}

impl SignalGatekeeper {
    /// The input or output index that `tag` names.
    pub fn get_index_from_tag(&self, tag: &str) -> (res: Option<usize>)
        ensures
            res == last_tag_index(self.complex_gate.gate_tags_to_index@, tag@),
    {
        self.complex_gate.get_index_from_tag(tag)
    }

    /// Brings the outputs up to date with what reaches them and returns their states.
    pub fn fetch_output_signals(&self, circuit: &mut Circuit) -> (res: Vec<GateOutputState>)
        requires
            old(circuit).wf(),
            complex_fits(&self.complex_gate, old(circuit).shape(), old(circuit).types()),
        ensures
            final(circuit).wf(),
            final(circuit).shape() == old(circuit).shape(),
            final(circuit).types() == old(circuit).types(),
            old(circuit).wiring_kept(*final(circuit)),
            res@.len() == self.complex_gate.output_gates@.len(),
            forall|i: int| 0 <= i < res@.len() ==> #[trigger] res@[i] == final(circuit).node(self.complex_gate.output_gates@[i] as int).outputs()[0],
    {
        proof {
            assert forall|i: int| 0 <= i < self.complex_gate.output_gates@.len() implies #[trigger] old(circuit).has_output(self.complex_gate.output_gates@[i] as int, 0) by {}
        }
        self.complex_gate.fetch_output_signals_calculate(circuit)
    }

    pub fn get_tag(&self) -> (res: String)
        ensures
            res@ == self.complex_gate.tag@,
    {
        self.complex_gate.tag.clone()
    }

    pub fn set_tag(&mut self, tag: &str)
        ensures
            final(self).complex_gate.tag@ == tag@,
            final(self).complex_gate.input_gates == old(self).complex_gate.input_gates,
            final(self).complex_gate.output_gates == old(self).complex_gate.output_gates,
            final(self).complex_gate.gate_tags_to_index == old(self).complex_gate.gate_tags_to_index,
    {
        self.complex_gate.tag = tag.to_owned();
    }

    pub fn toggle_output_printing(&mut self, print_output: bool)
        ensures
            final(self).complex_gate.should_print_output == print_output,
            final(self).complex_gate.input_gates == old(self).complex_gate.input_gates,
            final(self).complex_gate.output_gates == old(self).complex_gate.output_gates,
    {
        self.complex_gate.should_print_output = print_output;
    }

    /// The number of circuit gates that make up this gate.
    pub fn num_children_gates(&self) -> (res: usize)
        ensures
            res == self.complex_gate.number_child_gates,
    {
        self.complex_gate.number_child_gates
    }
}

/// A master-slave JK flip-flop: on a clock pulse `J` sets `Q`, `K` resets it, and both together toggle it; `NOT_Q` is its negation.
pub struct MasterSlaveJKFlipFlop {
    pub complex_gate: ComplexGateMembers,
    pub j_input_nand: Nand,
    pub k_input_nand: Nand,
    pub q1_output_nand: Nand,
    pub q1_not_output_nand: Nand,
    pub q1_input_nand: Nand,
    pub q1_not_input_nand: Nand,
    pub q_output_nand: Nand,
    pub q_not_output_nand: Nand,
    pub not_gate: Not,
}

impl MasterSlaveJKFlipFlop {
    /// The types of the gates this gate adds, in the order they are added.
    pub open spec fn spec_types() -> Seq<GateType> {
        seq![GateType::SimpleInputType, GateType::SimpleInputType, GateType::SimpleInputType, GateType::SimpleOutputType, GateType::SimpleOutputType, GateType::NandType, GateType::NandType, GateType::NandType, GateType::NandType, GateType::NandType, GateType::NandType, GateType::NandType, GateType::NandType, GateType::NotType]
    }

    /// The numbers of inputs and outputs of those gates.
    pub open spec fn spec_shape() -> Seq<(nat, nat)> {
        seq![(1nat, 1nat), (1nat, 3nat), (1nat, 1nat), (1nat, 1nat), (1nat, 1nat), (3nat, 1nat), (3nat, 1nat), (2nat, 2nat), (2nat, 2nat), (2nat, 1nat), (2nat, 1nat), (2nat, 3nat), (2nat, 3nat), (1nat, 2nat)]
    }

    /// A master latch of NANDs gated by `CLK_IN` and the fed-back outputs, then a slave latch of NANDs gated by the negated clock, which gives `Q` and `NOT_Q`.
    pub open spec fn spec_wires(start: int) -> Seq<(usize, usize, usize, usize)> {
        seq![
            ((start + 1) as usize, 0usize, (start + 5) as usize, 2usize),
            ((start + 1) as usize, 1usize, (start + 6) as usize, 0usize),
            ((start + 1) as usize, 2usize, (start + 13) as usize, 0usize),
            ((start + 0) as usize, 0usize, (start + 5) as usize, 1usize),
            ((start + 2) as usize, 0usize, (start + 6) as usize, 1usize),
            ((start + 5) as usize, 0usize, (start + 7) as usize, 0usize),
            ((start + 6) as usize, 0usize, (start + 8) as usize, 1usize),
            ((start + 7) as usize, 0usize, (start + 9) as usize, 0usize),
            ((start + 7) as usize, 1usize, (start + 8) as usize, 0usize),
            ((start + 8) as usize, 0usize, (start + 10) as usize, 1usize),
            ((start + 8) as usize, 1usize, (start + 7) as usize, 1usize),
            ((start + 13) as usize, 0usize, (start + 9) as usize, 1usize),
            ((start + 13) as usize, 1usize, (start + 10) as usize, 0usize),
            ((start + 9) as usize, 0usize, (start + 11) as usize, 0usize),
            ((start + 10) as usize, 0usize, (start + 12) as usize, 1usize),
            ((start + 11) as usize, 0usize, (start + 3) as usize, 0usize),
            ((start + 11) as usize, 1usize, (start + 12) as usize, 0usize),
            ((start + 11) as usize, 2usize, (start + 6) as usize, 2usize),
            ((start + 12) as usize, 0usize, (start + 4) as usize, 0usize),
            ((start + 12) as usize, 1usize, (start + 11) as usize, 1usize),
            ((start + 12) as usize, 2usize, (start + 5) as usize, 0usize),
        ]
    }

    /// The pins, tags and parts of this gate when it starts at `start`.
    pub open spec fn pins_ok(&self, start: int) -> bool {
        &&& self.complex_gate.gate_type == GateType::MasterSlaveJKFlipFlopType
        &&& self.complex_gate.input_gates@ == seq![(start + 0) as usize, (start + 1) as usize, (start + 2) as usize]
        &&& self.complex_gate.output_gates@ == seq![(start + 3) as usize, (start + 4) as usize]
        &&& self.complex_gate.tag_names() == seq!["J"@, "CLK_IN"@, "K"@, "Q"@, "NOT_Q"@]
        &&& self.complex_gate.tags_laid_out()
        &&& self.j_input_nand.gate == start + 5
        &&& self.k_input_nand.gate == start + 6
        &&& self.q1_output_nand.gate == start + 7
        &&& self.q1_not_output_nand.gate == start + 8
        &&& self.q1_input_nand.gate == start + 9
        &&& self.q1_not_input_nand.gate == start + 10
        &&& self.q_output_nand.gate == start + 11
        &&& self.q_not_output_nand.gate == start + 12
        &&& self.not_gate.gate == start + 13
    }

    /// Adds this gate to the circuit, wires it and primes it. While it is primed, `CLK_IN` is held HIGH. Fails only when
    /// priming does not come to rest or two senders drive one input.
    #[verifier::spinoff_prover]
    #[verifier::rlimit(60)]
    pub fn new(circuit: &mut Circuit) -> (res: Result<Self, GateLogicError>)
        requires
            old(circuit).wf(),
            old(circuit).len() + 14 < usize::MAX,
        ensures
            final(circuit).wf(),
            final(circuit).clock_tick_number == old(circuit).clock_tick_number,
            final(circuit).types() == old(circuit).types() + Self::spec_types(),
            final(circuit).shape() == old(circuit).shape() + Self::spec_shape(),
            old(circuit).wiring_kept(*final(circuit)),
            forall|g: int, j: int, d: Option<(int, int)>| old(circuit).wire(g, j, d) ==> #[trigger] final(circuit).wire(g, j, d),
            forall|g: int, j: int|
                old(circuit).len() <= g && final(circuit).has_output(g, j) ==> #[trigger] final(circuit).link(g, j)
                    == wire_dest(Self::spec_wires(old(circuit).len() as int), g, j, None),
            match res {
                Ok(gate) => {
                    &&& gate.pins_ok(old(circuit).len() as int)
                    &&& complex_fits(&gate.complex_gate, final(circuit).shape(), final(circuit).types())
                    &&& settled_from(*final(circuit), old(circuit).len() as int)
                },
                Err(e) => crate::run_circuit::failure_shown(*final(circuit), e),
            },
    {
        let ghost c0 = *circuit;
        let start = circuit.num_gates();
        let mut specs: Vec<GateSpec> = Vec::new();
        specs.push(GateSpec::new(GateType::SimpleInputType, 1, 1, "J".to_owned()));
        specs.push(GateSpec::new(GateType::SimpleInputType, 1, 3, "CLK_IN".to_owned()));
        specs.push(GateSpec::new(GateType::SimpleInputType, 1, 1, "K".to_owned()));
        specs.push(GateSpec::new(GateType::SimpleOutputType, 1, 1, "Q".to_owned()));
        specs.push(GateSpec::new(GateType::SimpleOutputType, 1, 1, "NOT_Q".to_owned()));
        specs.push(GateSpec::new(GateType::NandType, 3, 1, String::new()));
        specs.push(GateSpec::new(GateType::NandType, 3, 1, String::new()));
        specs.push(GateSpec::new(GateType::NandType, 2, 2, String::new()));
        specs.push(GateSpec::new(GateType::NandType, 2, 2, String::new()));
        specs.push(GateSpec::new(GateType::NandType, 2, 1, String::new()));
        specs.push(GateSpec::new(GateType::NandType, 2, 1, String::new()));
        specs.push(GateSpec::new(GateType::NandType, 2, 3, String::new()));
        specs.push(GateSpec::new(GateType::NandType, 2, 3, String::new()));
        specs.push(GateSpec::new(GateType::NotType, 1, 2, String::new()));
        let mut wires: Vec<(usize, usize, usize, usize)> = Vec::new();
        wires.push((start + 1, 0, start + 5, 2));
        wires.push((start + 1, 1, start + 6, 0));
        wires.push((start + 1, 2, start + 13, 0));
        wires.push((start + 0, 0, start + 5, 1));
        wires.push((start + 2, 0, start + 6, 1));
        wires.push((start + 5, 0, start + 7, 0));
        wires.push((start + 6, 0, start + 8, 1));
        wires.push((start + 7, 0, start + 9, 0));
        wires.push((start + 7, 1, start + 8, 0));
        wires.push((start + 8, 0, start + 10, 1));
        wires.push((start + 8, 1, start + 7, 1));
        wires.push((start + 13, 0, start + 9, 1));
        wires.push((start + 13, 1, start + 10, 0));
        wires.push((start + 9, 0, start + 11, 0));
        wires.push((start + 10, 0, start + 12, 1));
        wires.push((start + 11, 0, start + 3, 0));
        wires.push((start + 11, 1, start + 12, 0));
        wires.push((start + 11, 2, start + 6, 2));
        wires.push((start + 12, 0, start + 4, 0));
        wires.push((start + 12, 1, start + 11, 1));
        wires.push((start + 12, 2, start + 5, 0));
        proof {
            assert(spec_types_of(specs@) =~= Self::spec_types());
            assert(spec_shape_of(specs@) =~= Self::spec_shape());
            assert(wires@ =~= Self::spec_wires(start as int));
            assert forall|k: int| 0 <= k < specs@.len() implies spec_addable(#[trigger] specs@[k]) by {}
        }
        circuit.add_gates(&specs);
        let ghost c1 = *circuit;
        proof {
            assert forall|k: int| 0 <= k < wires@.len() implies wire_fits(#[trigger] wires@[k], start as int, Self::spec_shape()) by {}
            assert forall|k: int| 0 <= k < wires@.len() implies c1.has_output((#[trigger] wires@[k]).0 as int, wires@[k].1 as int)
                && c1.has_input(wires@[k].2 as int, wires@[k].3 as int) by {
                assert(wire_fits(wires@[k], start as int, Self::spec_shape()));
            }
        }
        circuit.connect_all(&wires);
        let ghost c2 = *circuit;
        proof {
            assert forall|k: int| 0 <= k < wires@.len() implies wire_fits(#[trigger] wires@[k], start as int, Self::spec_shape()) by {}
            lemma_wires_keep_old(c0, c1, c2, wires@, start as int, Self::spec_shape());
            assert(c2.shape().len() == c2.len());
            assert(c0.shape().len() == c0.len());
            assert forall|g: int, j: int| start <= g && c2.has_output(g, j) implies #[trigger] c2.link(g, j)
                == wire_dest(Self::spec_wires(start as int), g, j, None) by {
                assert(c1.has_output(g, j));
                assert(c1.link(g, j) is None);
            }
        }
        let mut input_gates: Vec<usize> = Vec::new();
        let mut input_tags: Vec<String> = Vec::new();
        input_gates.push(start + 0);
        input_tags.push("J".to_owned());
        input_gates.push(start + 1);
        input_tags.push("CLK_IN".to_owned());
        input_gates.push(start + 2);
        input_tags.push("K".to_owned());
        let mut output_gates: Vec<usize> = Vec::new();
        let mut output_tags: Vec<String> = Vec::new();
        output_gates.push(start + 3);
        output_tags.push("Q".to_owned());
        output_gates.push(start + 4);
        output_tags.push("NOT_Q".to_owned());
        let j_input_nand = Nand { gate: start + 5, input_num: 3, output_num: 1, unique_id: circuit.gates[start + 5].members.unique_id };
        let k_input_nand = Nand { gate: start + 6, input_num: 3, output_num: 1, unique_id: circuit.gates[start + 6].members.unique_id };
        let q1_output_nand = Nand { gate: start + 7, input_num: 2, output_num: 2, unique_id: circuit.gates[start + 7].members.unique_id };
        let q1_not_output_nand = Nand { gate: start + 8, input_num: 2, output_num: 2, unique_id: circuit.gates[start + 8].members.unique_id };
        let q1_input_nand = Nand { gate: start + 9, input_num: 2, output_num: 1, unique_id: circuit.gates[start + 9].members.unique_id };
        let q1_not_input_nand = Nand { gate: start + 10, input_num: 2, output_num: 1, unique_id: circuit.gates[start + 10].members.unique_id };
        let q_output_nand = Nand { gate: start + 11, input_num: 2, output_num: 3, unique_id: circuit.gates[start + 11].members.unique_id };
        let q_not_output_nand = Nand { gate: start + 12, input_num: 2, output_num: 3, unique_id: circuit.gates[start + 12].members.unique_id };
        let not_gate = Not { gate: start + 13, input_num: 1, output_num: 2, unique_id: circuit.gates[start + 13].members.unique_id };
        proof {
            assert(input_gates@ =~= seq![((start as int) + 0) as usize, ((start as int) + 1) as usize, ((start as int) + 2) as usize]);
            assert(output_gates@ =~= seq![((start as int) + 3) as usize, ((start as int) + 4) as usize]);
        }
        let complex_gate = ComplexGateMembers::from_tags(
            circuit,
            GateType::MasterSlaveJKFlipFlopType,
            input_gates,
            output_gates,
            input_tags,
            output_tags,
        );
        let mut complex_gate = complex_gate;
        complex_gate.number_child_gates = 14;
        let gate = MasterSlaveJKFlipFlop { complex_gate, j_input_nand, k_input_nand, q1_output_nand, q1_not_output_nand, q1_input_nand, q1_not_input_nand, q_output_nand, q_not_output_nand, not_gate };
        proof {
            assert(gate.complex_gate.tag_names() =~= seq!["J"@, "CLK_IN"@, "K"@, "Q"@, "NOT_Q"@]);
            assert(complex_fits(&gate.complex_gate, c2.shape(), c2.types()));
            assert(c2.shape().subrange(0, c0.shape().len() as int) =~= c0.shape());
            crate::circuit::lemma_wiring_kept_refl(c2);
        }
        let ghost prev1 = *circuit;
        let forced1 = circuit.update_input_signal(start + 1, GateInput::new(0, Signal::HIGH, UniqueID::zero_id()));
        proof {
            crate::circuit::lemma_wire_kept(prev1, *circuit);
            crate::circuit::lemma_wiring_kept_trans(c0, prev1, *circuit);
            assert forall|g: int, j: int| start <= g && circuit.has_output(g, j) implies #[trigger] circuit.link(g, j)
                == wire_dest(Self::spec_wires(start as int), g, j, None) by {
                assert(prev1.has_output(g, j));
            }
        }
        if let Err(e) = forced1 {
            return Err(e);
        }
        let ghost prev0 = *circuit;
        let primed = circuit.prime_from(start);
        proof {
            crate::circuit::lemma_wire_kept(prev0, *circuit);
            crate::circuit::lemma_wiring_kept_trans(c0, prev0, *circuit);
            assert forall|g: int, j: int| start <= g && circuit.has_output(g, j) implies #[trigger] circuit.link(g, j)
                == wire_dest(Self::spec_wires(start as int), g, j, None) by {
                assert(prev0.has_output(g, j));
            }
        }
        if let Err(e) = primed {
            return Err(e);
        }

        Ok(gate)
    }
}

impl LogicGate for MasterSlaveJKFlipFlop {
    open spec fn spec_input_pin(&self, index: int) -> (int, int) {
        (self.complex_gate.input_gates@[index] as int, 0)
    }

    open spec fn spec_output_pin(&self, index: int) -> (int, int) {
        (self.complex_gate.output_gates@[index] as int, 0)
    }

    open spec fn spec_num_inputs(&self) -> nat {
        self.complex_gate.input_gates@.len()
    }

    open spec fn spec_num_outputs(&self) -> nat {
        self.complex_gate.output_gates@.len()
    }

    open spec fn spec_gate_type(&self) -> GateType {
        self.complex_gate.gate_type
    }

    open spec fn spec_unique_id(&self) -> UniqueID {
        self.complex_gate.unique_id
    }

    fn input_pin(&self, index: usize) -> (res: (usize, usize)) {
        (self.complex_gate.input_gates[index], 0)
    }

    fn output_pin(&self, index: usize) -> (res: (usize, usize)) {
        (self.complex_gate.output_gates[index], 0)
    }

    fn num_inputs(&self) -> (res: usize) {
        self.complex_gate.input_gates.len()
    }

    fn num_outputs(&self) -> (res: usize) {
        self.complex_gate.output_gates.len()
    }

    fn get_gate_type(&self) -> (res: GateType) {
        self.complex_gate.gate_type
    }

    fn get_unique_id(&self) -> (res: UniqueID) {
        self.complex_gate.unique_id
    }
}

impl MasterSlaveJKFlipFlop {
    /// `J` sets and `K` resets: as it is built, pin `J` feeds the input NAND whose output drives
    /// the master's `Q` side, which the slave passes on to pin `Q`, and pin `K` feeds the input
    /// NAND whose output drives the master's `NOT_Q` side, which the slave passes on to pin
    /// `NOT_Q`. `CLK_IN` gates both input NANDs, and each of them also sees the slave's opposite
    /// output (`J`'s sees `NOT_Q`, `K`'s sees `Q`), so that both together toggle.
    #[verifier::rlimit(60)]
    pub proof fn lemma_j_sets_k_resets(&self, c: Circuit, start: int)
        requires
            self.pins_ok(start),
            0 <= start,
            start + 15 < usize::MAX,
            c.shape().len() >= start + 14,
            c.shape().subrange(start, start + 14) == Self::spec_shape(),
            forall|g: int, j: int|
                start <= g && c.has_output(g, j) ==> #[trigger] c.link(g, j) == wire_dest(Self::spec_wires(start), g, j, None),
        ensures
            ({
                let pin_j = self.complex_gate.input_gates@[0] as int;
                let pin_clk = self.complex_gate.input_gates@[1] as int;
                let pin_k = self.complex_gate.input_gates@[2] as int;
                let pin_q = self.complex_gate.output_gates@[0] as int;
                let pin_nq = self.complex_gate.output_gates@[1] as int;
                let jn = self.j_input_nand.gate as int;
                let kn = self.k_input_nand.gate as int;
                let m = self.q1_output_nand.gate as int;
                let mb = self.q1_not_output_nand.gate as int;
                let si = self.q1_input_nand.gate as int;
                let sib = self.q1_not_input_nand.gate as int;
                let so = self.q_output_nand.gate as int;
                let sob = self.q_not_output_nand.gate as int;
                &&& c.link(pin_j, 0) matches Some(p) && p.0 == jn
                &&& c.link(pin_k, 0) matches Some(p) && p.0 == kn
                &&& c.link(pin_clk, 0) matches Some(p) && p.0 == jn
                &&& c.link(pin_clk, 1) matches Some(p) && p.0 == kn
                &&& c.link(jn, 0) matches Some(p) && p.0 == m
                &&& c.link(kn, 0) matches Some(p) && p.0 == mb
                &&& c.link(m, 0) matches Some(p) && p.0 == si
                &&& c.link(mb, 0) matches Some(p) && p.0 == sib
                &&& c.link(si, 0) matches Some(p) && p.0 == so
                &&& c.link(sib, 0) matches Some(p) && p.0 == sob
                &&& c.link(so, 0) == Some((pin_q, 0int))
                &&& c.link(sob, 0) == Some((pin_nq, 0int))
                &&& c.link(sob, 2) matches Some(p) && p.0 == jn
                &&& c.link(so, 2) matches Some(p) && p.0 == kn
            }),
    {
        let ws = Self::spec_wires(start);
        reveal_with_fuel(wire_dest, 22);
        let shp = c.shape().subrange(start, start + 14);
        assert forall|i: int| 0 <= i < 14 implies c.shape()[start + i] == #[trigger] Self::spec_shape()[i] by {
            assert(shp[i] == c.shape()[start + i]);
        }
        assert(c.has_output(start, 0));
        assert(c.has_output(start + 1, 0));
        assert(c.has_output(start + 1, 1));
        assert(c.has_output(start + 2, 0));
        assert(c.has_output(start + 5, 0));
        assert(c.has_output(start + 6, 0));
        assert(c.has_output(start + 7, 0));
        assert(c.has_output(start + 8, 0));
        assert(c.has_output(start + 9, 0));
        assert(c.has_output(start + 10, 0));
        assert(c.has_output(start + 11, 0));
        assert(c.has_output(start + 11, 2));
        assert(c.has_output(start + 12, 0));
        assert(c.has_output(start + 12, 2));
        assert(wire_dest(ws, start, 0, None) == Some((start + 5, 1int)));
        assert(wire_dest(ws, start + 2, 0, None) == Some((start + 6, 1int)));
        assert(wire_dest(ws, start + 1, 0, None) == Some((start + 5, 2int)));
        assert(wire_dest(ws, start + 1, 1, None) == Some((start + 6, 0int)));
        assert(wire_dest(ws, start + 5, 0, None) == Some((start + 7, 0int)));
        assert(wire_dest(ws, start + 6, 0, None) == Some((start + 8, 1int)));
        assert(wire_dest(ws, start + 7, 0, None) == Some((start + 9, 0int)));
        assert(wire_dest(ws, start + 8, 0, None) == Some((start + 10, 1int)));
        assert(wire_dest(ws, start + 9, 0, None) == Some((start + 11, 0int)));
        assert(wire_dest(ws, start + 10, 0, None) == Some((start + 12, 1int)));
        assert(wire_dest(ws, start + 11, 0, None) == Some((start + 3, 0int)));
        assert(wire_dest(ws, start + 12, 0, None) == Some((start + 4, 0int)));
        assert(wire_dest(ws, start + 12, 2, None) == Some((start + 5, 0int)));
        assert(wire_dest(ws, start + 11, 2, None) == Some((start + 6, 2int)));
    }

    /// The input or output index that `tag` names.
    pub fn get_index_from_tag(&self, tag: &str) -> (res: Option<usize>)
        ensures
            res == last_tag_index(self.complex_gate.gate_tags_to_index@, tag@),
    {
        self.complex_gate.get_index_from_tag(tag)
    }

    /// Brings the outputs up to date with what reaches them and returns their states.
    pub fn fetch_output_signals(&self, circuit: &mut Circuit) -> (res: Vec<GateOutputState>)
        requires
            old(circuit).wf(),
            complex_fits(&self.complex_gate, old(circuit).shape(), old(circuit).types()),
        ensures
            final(circuit).wf(),
            final(circuit).shape() == old(circuit).shape(),
            final(circuit).types() == old(circuit).types(),
            old(circuit).wiring_kept(*final(circuit)),
            res@.len() == self.complex_gate.output_gates@.len(),
            forall|i: int| 0 <= i < res@.len() ==> #[trigger] res@[i] == final(circuit).node(self.complex_gate.output_gates@[i] as int).outputs()[0],
    {
        proof {
            assert forall|i: int| 0 <= i < self.complex_gate.output_gates@.len() implies #[trigger] old(circuit).has_output(self.complex_gate.output_gates@[i] as int, 0) by {}
        }
        self.complex_gate.fetch_output_signals_calculate(circuit)
    }

    pub fn get_tag(&self) -> (res: String)
        ensures
            res@ == self.complex_gate.tag@,
    {
        self.complex_gate.tag.clone()
    }

    pub fn set_tag(&mut self, tag: &str)
        ensures
            final(self).complex_gate.tag@ == tag@,
            final(self).complex_gate.input_gates == old(self).complex_gate.input_gates,
            final(self).complex_gate.output_gates == old(self).complex_gate.output_gates,
            final(self).complex_gate.gate_tags_to_index == old(self).complex_gate.gate_tags_to_index,
    {
        self.complex_gate.tag = tag.to_owned();
    }

    pub fn toggle_output_printing(&mut self, print_output: bool)
        ensures
            final(self).complex_gate.should_print_output == print_output,
            final(self).complex_gate.input_gates == old(self).complex_gate.input_gates,
            final(self).complex_gate.output_gates == old(self).complex_gate.output_gates,
    {
        self.complex_gate.should_print_output = print_output;
    }

    /// The number of circuit gates that make up this gate.
    pub fn num_children_gates(&self) -> (res: usize)
        ensures
            res == self.complex_gate.number_child_gates,
    {
        self.complex_gate.number_child_gates
    }
}

/// A clock divider that turns each clock cycle into four steps: it drives a JK flip-flop
/// (`J` and `K` held HIGH, so it toggles) from the negated `CLK_IN`, and gives the halved
/// clock on `CLK_OUT`, `CLK_IN` AND that clock on `CLKS`, and `CLK_IN` NAND its negation on
/// `CLKE`.
pub struct FourCycleClockHookup {
    pub complex_gate: ComplexGateMembers,
    pub flip_flop: MasterSlaveJKFlipFlop,
    pub q_splitter: Splitter,
    pub q_input_and: And,
    pub q_not_input_nand: Nand,
    pub flip_flop_clk_in_not: Not,
}

impl FourCycleClockHookup {
    /// The types of the gates this gate adds, in order: `CLK_IN`, the three outputs, the
    /// flip-flop, the splitter, the AND, the NAND and the NOT.
    pub open spec fn spec_types() -> Seq<GateType> {
        seq![GateType::SimpleInputType, GateType::SimpleOutputType, GateType::SimpleOutputType, GateType::SimpleOutputType]
            + MasterSlaveJKFlipFlop::spec_types() + seq![GateType::SplitterType, GateType::AndType, GateType::NandType, GateType::NotType]
    }

    /// The numbers of inputs and outputs of those gates.
    pub open spec fn spec_shape() -> Seq<(nat, nat)> {
        seq![(1nat, 3nat), (1nat, 1nat), (1nat, 1nat), (1nat, 1nat)] + MasterSlaveJKFlipFlop::spec_shape() + seq![
            (1nat, 2nat),
            (2nat, 1nat),
            (2nat, 1nat),
            (1nat, 1nat),
        ]
    }

    /// `CLK_IN` feeds the AND, the NAND and the NOT; the NOT drives the flip-flop's clock; its
    /// `Q` goes through the splitter to the AND and to `CLK_OUT`, its `NOT_Q` to the NAND; the
    /// AND gives `CLKS` and the NAND `CLKE`.
    pub open spec fn spec_wires(start: int) -> Seq<(usize, usize, usize, usize)> {
        seq![
            (start as usize, 0usize, (start + 19) as usize, 0usize),
            (start as usize, 1usize, (start + 20) as usize, 1usize),
            (start as usize, 2usize, (start + 21) as usize, 0usize),
            ((start + 21) as usize, 0usize, (start + 5) as usize, 0usize),
            ((start + 7) as usize, 0usize, (start + 18) as usize, 0usize),
            ((start + 18) as usize, 0usize, (start + 19) as usize, 1usize),
            ((start + 18) as usize, 1usize, (start + 1) as usize, 0usize),
            ((start + 8) as usize, 0usize, (start + 20) as usize, 0usize),
            ((start + 19) as usize, 0usize, (start + 2) as usize, 0usize),
            ((start + 20) as usize, 0usize, (start + 3) as usize, 0usize),
        ]
    }

    /// Where output `j` of gate `g` goes once this gate stands at `start`: the wires above,
    /// over the wiring of the flip-flop.
    pub open spec fn spec_link(start: int, g: int, j: int) -> Option<(int, int)> {
        wire_dest(Self::spec_wires(start), g, j, wire_dest(MasterSlaveJKFlipFlop::spec_wires(start + 4), g, j, None))
    }

    /// The pins, tags and parts of this gate when it starts at `start`.
    pub open spec fn pins_ok(&self, start: int) -> bool {
        &&& self.complex_gate.gate_type == GateType::FourCycleClockHookupType
        &&& self.complex_gate.input_gates@ == seq![start as usize]
        &&& self.complex_gate.output_gates@ == seq![(start + 1) as usize, (start + 2) as usize, (start + 3) as usize]
        &&& self.complex_gate.tag_names() == seq!["CLK_IN"@, "CLK_OUT"@, "CLKS"@, "CLKE"@]
        &&& self.complex_gate.tags_laid_out()
        &&& self.flip_flop.pins_ok(start + 4)
        &&& self.q_splitter.gate == start + 18
        &&& self.q_input_and.gate == start + 19
        &&& self.q_not_input_nand.gate == start + 20
        &&& self.flip_flop_clk_in_not.gate == start + 21
    }

    /// Adds this gate to the circuit and wires it, with `J` and `K` of the flip-flop held
    /// HIGH; then primes it four times, `CLK_IN` held HIGH, LOW, HIGH and LOW in turn (each
    /// time the change travels from `CLK_IN` first), and leaves `CLK_IN` LOW. Fails only when priming does not come to rest or two senders drive one input.
    #[verifier::spinoff_prover]
    #[verifier::rlimit(100)]
    pub fn new(circuit: &mut Circuit) -> (res: Result<Self, GateLogicError>)
        requires
            old(circuit).wf(),
            old(circuit).len() + 22 < usize::MAX,
        ensures
            final(circuit).wf(),
            final(circuit).clock_tick_number == old(circuit).clock_tick_number,
            old(circuit).wiring_kept(*final(circuit)),
            forall|g: int, j: int, d: Option<(int, int)>| old(circuit).wire(g, j, d) ==> #[trigger] final(circuit).wire(g, j, d),
            match res {
                Ok(gate) => {
                    &&& final(circuit).types() == old(circuit).types() + Self::spec_types()
                    &&& final(circuit).shape() == old(circuit).shape() + Self::spec_shape()
                    &&& forall|g: int, j: int|
                        old(circuit).len() <= g && final(circuit).has_output(g, j) ==> #[trigger] final(circuit).link(g, j)
                            == Self::spec_link(old(circuit).len() as int, g, j)
                    &&& gate.pins_ok(old(circuit).len() as int)
                    &&& complex_fits(&gate.complex_gate, final(circuit).shape(), final(circuit).types())
                },
                Err(e) => crate::run_circuit::failure_shown(*final(circuit), e),
            },
    {
        let ghost c0 = *circuit;
        let start = circuit.num_gates();
        proof {
            assert(c0.shape().len() == c0.len());
            crate::circuit::lemma_wiring_kept_refl(c0);
        }
        let mut specs: Vec<GateSpec> = Vec::new();
        specs.push(GateSpec::new(GateType::SimpleInputType, 1, 3, "CLK_IN".to_owned()));
        specs.push(GateSpec::new(GateType::SimpleOutputType, 1, 1, "CLK_OUT".to_owned()));
        specs.push(GateSpec::new(GateType::SimpleOutputType, 1, 1, "CLKS".to_owned()));
        specs.push(GateSpec::new(GateType::SimpleOutputType, 1, 1, "CLKE".to_owned()));
        proof {
            assert forall|k: int| 0 <= k < specs@.len() implies spec_addable(#[trigger] specs@[k]) by {}
        }
        circuit.add_gates(&specs);
        let ghost c1 = *circuit;
        let flip_flop = match MasterSlaveJKFlipFlop::new(circuit) {
            Ok(f) => f,
            Err(e) => {
                proof {
                    assert(c1.shape().subrange(0, c0.shape().len() as int) =~= c0.shape());
                    crate::circuit::lemma_wiring_kept_trans(c0, c1, *circuit);
                }
                return Err(e);
            },
        };
        let ghost c2 = *circuit;
        let q_splitter = Splitter::new(circuit, 1, 2);
        let ghost c3 = *circuit;
        let mut specs2: Vec<GateSpec> = Vec::new();
        specs2.push(GateSpec::new(GateType::AndType, 2, 1, String::new()));
        specs2.push(GateSpec::new(GateType::NandType, 2, 1, String::new()));
        specs2.push(GateSpec::new(GateType::NotType, 1, 1, String::new()));
        proof {
            assert forall|k: int| 0 <= k < specs2@.len() implies spec_addable(#[trigger] specs2@[k]) by {}
            assert(c3.shape().len() == c3.len());
        }
        circuit.add_gates(&specs2);
        let ghost c4 = *circuit;
        proof {
            assert(spec_types_of(specs@) =~= seq![GateType::SimpleInputType, GateType::SimpleOutputType, GateType::SimpleOutputType, GateType::SimpleOutputType]);
            assert(spec_shape_of(specs@) =~= seq![(1nat, 3nat), (1nat, 1nat), (1nat, 1nat), (1nat, 1nat)]);
            assert(spec_types_of(specs2@) =~= seq![GateType::AndType, GateType::NandType, GateType::NotType]);
            assert(spec_shape_of(specs2@) =~= seq![(2nat, 1nat), (2nat, 1nat), (1nat, 1nat)]);
            assert(c4.types() =~= c0.types() + Self::spec_types());
            assert(c4.shape() =~= c0.shape() + Self::spec_shape());
            assert(c1.shape().subrange(0, c0.shape().len() as int) =~= c0.shape());
            assert(c2.shape().subrange(0, c1.shape().len() as int) =~= c1.shape());
            assert(c3.shape().subrange(0, c2.shape().len() as int) =~= c2.shape());
            assert(c2.shape().subrange(0, c0.shape().len() as int) =~= c0.shape());
            assert(c3.shape().subrange(0, c0.shape().len() as int) =~= c0.shape());
            crate::circuit::lemma_wiring_kept_trans(c0, c1, c2);
            crate::circuit::lemma_wiring_kept_trans(c0, c2, c3);
            crate::circuit::lemma_wiring_kept_trans(c0, c3, c4);
            crate::circuit::lemma_wiring_kept_trans(c2, c3, c4);
            let jk = MasterSlaveJKFlipFlop::spec_wires(start + 4);
            assert forall|g: int, j: int| start <= g && c4.has_output(g, j) implies #[trigger] c4.link(g, j)
                == wire_dest(jk, g, j, None) by {
                if start + 4 <= g < start + 18 {
                    assert(c2.has_output(g, j));
                    assert(c2.link(g, j) == wire_dest(jk, g, j, None));
                } else {
                    assert forall|k: int| 0 <= k < jk.len() implies !((#[trigger] jk[k]).0 == g && jk[k].1 == j) by {}
                    lemma_wire_dest_untouched(jk, g, j, None);
                    if g < start + 4 {
                        assert(c1.has_output(g, j));
                        assert(c1.link(g, j) is None);
                    } else if g == start + 18 {
                        assert(c3.node(g).outputs()[j] == GateOutputState::NotConnected(Signal::LOW_));
                    }
                }
            }
        }
        let ghost c4b = *circuit;
        let forced_j = circuit.update_input_signal(start + 4, GateInput::new(0, Signal::HIGH, UniqueID::zero_id()));
        let ghost c4c = *circuit;
        let forced_k = circuit.update_input_signal(start + 6, GateInput::new(0, Signal::HIGH, UniqueID::zero_id()));
        proof {
            crate::circuit::lemma_wiring_kept_refl(c4);
            assert(c4.shape().subrange(0, c0.shape().len() as int) =~= c0.shape());
            crate::circuit::lemma_wiring_kept_trans(c0, c4, c4c);
            assert(c4c.shape().subrange(0, c0.shape().len() as int) =~= c0.shape());
            crate::circuit::lemma_wiring_kept_trans(c0, c4c, *circuit);
            crate::circuit::lemma_wire_kept(c4, c4c);
            crate::circuit::lemma_wire_kept(c4c, *circuit);
        }
        if forced_j.is_err() || forced_k.is_err() {
            return Err(GateLogicError::OscillationDetected);
        }
        let ghost c5 = *circuit;
        let mut wires: Vec<(usize, usize, usize, usize)> = Vec::new();
        wires.push((start, 0, start + 19, 0));
        wires.push((start, 1, start + 20, 1));
        wires.push((start, 2, start + 21, 0));
        wires.push((start + 21, 0, start + 5, 0));
        wires.push((start + 7, 0, start + 18, 0));
        wires.push((start + 18, 0, start + 19, 1));
        wires.push((start + 18, 1, start + 1, 0));
        wires.push((start + 8, 0, start + 20, 0));
        wires.push((start + 19, 0, start + 2, 0));
        wires.push((start + 20, 0, start + 3, 0));
        proof {
            assert(wires@ =~= Self::spec_wires(start as int));
            assert forall|k: int| 0 <= k < wires@.len() implies wire_fits(#[trigger] wires@[k], start as int, Self::spec_shape()) by {}
            assert forall|k: int| 0 <= k < wires@.len() implies c5.has_output((#[trigger] wires@[k]).0 as int, wires@[k].1 as int)
                && c5.has_input(wires@[k].2 as int, wires@[k].3 as int) by {
                assert(wire_fits(wires@[k], start as int, Self::spec_shape()));
            }
        }
        circuit.connect_all(&wires);
        let ghost c6 = *circuit;
        proof {
            assert forall|k: int| 0 <= k < wires@.len() implies wire_fits(#[trigger] wires@[k], start as int, Self::spec_shape()) by {}
            assert(c0.wiring_kept(c5));
            assert forall|g: int, j: int| c0.has_output(g, j) implies #[trigger] c6.link(g, j) == c0.link(g, j) by {
                assert forall|k: int| 0 <= k < wires@.len() implies !((#[trigger] wires@[k]).0 == g && wires@[k].1 == j) by {
                    assert(wire_fits(wires@[k], start as int, Self::spec_shape()));
                }
                lemma_wire_dest_untouched(wires@, g, j, c5.link(g, j));
                assert(c5.has_output(g, j));
            }
            assert forall|g: int, j: int, d: Option<(int, int)>| c0.wire(g, j, d) implies #[trigger] c6.wire(g, j, d) by {
                assert(c5.wire(g, j, d));
                assert forall|k: int| 0 <= k < wires@.len() implies !((#[trigger] wires@[k]).0 == g && wires@[k].1 == j) by {
                    assert(wire_fits(wires@[k], start as int, Self::spec_shape()));
                }
                lemma_wire_dest_untouched(wires@, g, j, c5.link(g, j));
            }
            assert forall|g: int, j: int| start <= g && c6.has_output(g, j) implies #[trigger] c6.link(g, j)
                == Self::spec_link(start as int, g, j) by {
                assert(c5.has_output(g, j));
                assert(c4.has_output(g, j));
                assert(c4c.has_output(g, j));
            }
            assert(c6.shape().subrange(0, c0.shape().len() as int) =~= c0.shape());
        }
        let mut input_gates: Vec<usize> = Vec::new();
        input_gates.push(start);
        let mut input_tags: Vec<String> = Vec::new();
        input_tags.push("CLK_IN".to_owned());
        let mut output_gates: Vec<usize> = Vec::new();
        output_gates.push(start + 1);
        output_gates.push(start + 2);
        output_gates.push(start + 3);
        let mut output_tags: Vec<String> = Vec::new();
        output_tags.push("CLK_OUT".to_owned());
        output_tags.push("CLKS".to_owned());
        output_tags.push("CLKE".to_owned());
        proof {
            assert(input_gates@ =~= seq![start]);
            assert(output_gates@ =~= seq![(start + 1) as usize, (start + 2) as usize, (start + 3) as usize]);
        }
        let complex_gate = ComplexGateMembers::from_tags(
            circuit,
            GateType::FourCycleClockHookupType,
            input_gates,
            output_gates,
            input_tags,
            output_tags,
        );
        let mut complex_gate = complex_gate;
        complex_gate.number_child_gates = 22;
        let q_input_and = And { gate: start + 19, input_num: 2, output_num: 1, unique_id: circuit.gates[start + 19].members.unique_id };
        let q_not_input_nand = Nand { gate: start + 20, input_num: 2, output_num: 1, unique_id: circuit.gates[start + 20].members.unique_id };
        let flip_flop_clk_in_not = Not { gate: start + 21, input_num: 1, output_num: 1, unique_id: circuit.gates[start + 21].members.unique_id };
        let gate = FourCycleClockHookup { complex_gate, flip_flop, q_splitter, q_input_and, q_not_input_nand, flip_flop_clk_in_not };
        proof {
            assert(gate.complex_gate.tag_names() =~= seq!["CLK_IN"@, "CLK_OUT"@, "CLKS"@, "CLKE"@]);
            assert(complex_fits(&gate.complex_gate, c6.shape(), c6.types()));
            crate::circuit::lemma_wiring_kept_refl(c6);
        }
        let mut input_signal = Signal::LOW_;
        let mut i: usize = 0;
        while i < 4
            invariant
                c0 == *old(circuit),
                start == c0.len(),
                circuit.wf(),
                circuit.shape() == c6.shape(),
                circuit.types() == c6.types(),
                circuit.clock_tick_number == c0.clock_tick_number,
                c6.wiring_kept(*circuit),
                c0.wiring_kept(*circuit),
                c6.shape().subrange(0, c0.shape().len() as int) == c0.shape(),
                c6.shape() == c0.shape() + Self::spec_shape(),
                forall|g: int, j: int, d: Option<(int, int)>| c0.wire(g, j, d) ==> #[trigger] circuit.wire(g, j, d),
            decreases 4 - i,
        {
            input_signal = if input_signal == Signal::LOW_ {
                Signal::HIGH
            } else {
                Signal::LOW_
            };
            let ghost before = *circuit;
            let updated = circuit.update_input_signal(start, GateInput::new(0, input_signal, UniqueID::zero_id()));
            let ghost mid0 = *circuit;
            let mut from_input: Vec<usize> = Vec::new();
            from_input.push(start);
            proof {
                assert(c6.shape().len() == c6.len());
                assert(mid0.shape().len() == mid0.len());
            }
            let travelled = circuit.propagate(from_input);
            let ghost mid = *circuit;
            proof {
                crate::circuit::lemma_wiring_kept_refl(before);
                crate::circuit::lemma_wiring_kept_trans(before, mid0, mid);
                assert(before.shape().subrange(0, c6.shape().len() as int) =~= c6.shape());
                crate::circuit::lemma_wiring_kept_trans(c6, before, mid);
                assert(before.shape().subrange(0, c0.shape().len() as int) =~= c0.shape());
                crate::circuit::lemma_wiring_kept_trans(c0, before, mid);
                crate::circuit::lemma_wire_kept(before, mid0);
                crate::circuit::lemma_wire_kept(mid0, mid);
            }
            if let Err(e) = updated {
                return Err(e);
            }
            if let Err(e) = travelled {
                return Err(e);
            }
            let primed = circuit.prime_from(start);
            proof {
                crate::circuit::lemma_wiring_kept_trans(before, mid, *circuit);
                crate::circuit::lemma_wiring_kept_trans(c6, before, *circuit);
                crate::circuit::lemma_wiring_kept_trans(c0, before, *circuit);
                crate::circuit::lemma_wire_kept(mid, *circuit);
            }
            if let Err(e) = primed {
                return Err(e);
            }
            i = i + 1;
        }
        let ghost before = *circuit;
        let last = circuit.update_input_signal(start, GateInput::new(0, Signal::LOW_, UniqueID::zero_id()));
        proof {
            crate::circuit::lemma_wiring_kept_refl(before);
            assert(before.shape().subrange(0, c0.shape().len() as int) =~= c0.shape());
            crate::circuit::lemma_wiring_kept_trans(c0, before, *circuit);
            crate::circuit::lemma_wire_kept(before, *circuit);
            assert(before.shape().subrange(0, c6.shape().len() as int) =~= c6.shape());
            crate::circuit::lemma_wiring_kept_trans(c6, before, *circuit);
            assert forall|g: int, j: int| start <= g && circuit.has_output(g, j) implies #[trigger] circuit.link(g, j)
                == Self::spec_link(start as int, g, j) by {
                assert(c6.has_output(g, j));
            }
        }
        if let Err(e) = last {
            return Err(e);
        }
        Ok(gate)
    }
}

impl LogicGate for FourCycleClockHookup {
    open spec fn spec_input_pin(&self, index: int) -> (int, int) {
        (self.complex_gate.input_gates@[index] as int, 0)
    }

    open spec fn spec_output_pin(&self, index: int) -> (int, int) {
        (self.complex_gate.output_gates@[index] as int, 0)
    }

    open spec fn spec_num_inputs(&self) -> nat {
        self.complex_gate.input_gates@.len()
    }

    open spec fn spec_num_outputs(&self) -> nat {
        self.complex_gate.output_gates@.len()
    }

    open spec fn spec_gate_type(&self) -> GateType {
        self.complex_gate.gate_type
    }

    open spec fn spec_unique_id(&self) -> UniqueID {
        self.complex_gate.unique_id
    }

    fn input_pin(&self, index: usize) -> (res: (usize, usize)) {
        (self.complex_gate.input_gates[index], 0)
    }

    fn output_pin(&self, index: usize) -> (res: (usize, usize)) {
        (self.complex_gate.output_gates[index], 0)
    }

    fn num_inputs(&self) -> (res: usize) {
        self.complex_gate.input_gates.len()
    }

    fn num_outputs(&self) -> (res: usize) {
        self.complex_gate.output_gates.len()
    }

    fn get_gate_type(&self) -> (res: GateType) {
        self.complex_gate.gate_type
    }

    fn get_unique_id(&self) -> (res: UniqueID) {
        self.complex_gate.unique_id
    }
}

impl FourCycleClockHookup {
    /// The input or output index that `tag` names.
    pub fn get_index_from_tag(&self, tag: &str) -> (res: Option<usize>)
        ensures
            res == last_tag_index(self.complex_gate.gate_tags_to_index@, tag@),
    {
        self.complex_gate.get_index_from_tag(tag)
    }

    /// Brings the outputs up to date with what reaches them and returns their states.
    pub fn fetch_output_signals(&self, circuit: &mut Circuit) -> (res: Vec<GateOutputState>)
        requires
            old(circuit).wf(),
            complex_fits(&self.complex_gate, old(circuit).shape(), old(circuit).types()),
        ensures
            final(circuit).wf(),
            final(circuit).shape() == old(circuit).shape(),
            final(circuit).types() == old(circuit).types(),
            old(circuit).wiring_kept(*final(circuit)),
            res@.len() == self.complex_gate.output_gates@.len(),
            forall|i: int| 0 <= i < res@.len() ==> #[trigger] res@[i] == final(circuit).node(self.complex_gate.output_gates@[i] as int).outputs()[0],
    {
        proof {
            assert forall|i: int| 0 <= i < self.complex_gate.output_gates@.len() implies #[trigger] old(circuit).has_output(self.complex_gate.output_gates@[i] as int, 0) by {}
        }
        self.complex_gate.fetch_output_signals_calculate(circuit)
    }

    pub fn get_tag(&self) -> (res: String)
        ensures
            res@ == self.complex_gate.tag@,
    {
        self.complex_gate.tag.clone()
    }

    pub fn set_tag(&mut self, tag: &str)
        ensures
            final(self).complex_gate.tag@ == tag@,
            final(self).complex_gate.input_gates == old(self).complex_gate.input_gates,
            final(self).complex_gate.output_gates == old(self).complex_gate.output_gates,
            final(self).complex_gate.gate_tags_to_index == old(self).complex_gate.gate_tags_to_index,
    {
        self.complex_gate.tag = tag.to_owned();
    }

    pub fn toggle_output_printing(&mut self, print_output: bool)
        ensures
            final(self).complex_gate.should_print_output == print_output,
            final(self).complex_gate.input_gates == old(self).complex_gate.input_gates,
            final(self).complex_gate.output_gates == old(self).complex_gate.output_gates,
    {
        self.complex_gate.should_print_output = print_output;
    }

    /// The number of circuit gates that make up this gate.
    pub fn num_children_gates(&self) -> (res: usize)
        ensures
            res == self.complex_gate.number_child_gates,
    {
        self.complex_gate.number_child_gates
    }
}

} // verus!
