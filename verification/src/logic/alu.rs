use vstd::prelude::*;

use crate::circuit::{settled_from, Circuit};
use crate::logic::arithmetic_gates::{VariableBitAnd, VariableBitEnable, VariableBitNot, VariableBitOr, VariableBitZ};
use crate::logic::basic_gates::{ControlledBuffer, Splitter};
use crate::logic::complex_logic::SignalGatekeeper;
use crate::logic::foundations::{
    complex_fits,
    last_tag_index,
    lemma_complex_fits_extends,
    lemma_shape_extends_trans,
    lemma_types_extend_trans,
    shape_extends,
    types_extend,
    ComplexGateMembers,
    GateOutputState,
    GateType,
    LogicGate,
};
use crate::logic::input_gates::SimpleInput;
use crate::logic::output_gates::SimpleOutput;
use crate::logic::pins::pins_added;
use crate::logic::processor_components::VariableDecoder;
use crate::logic::signals::{GateInput, GateLogicError, Signal, UniqueID};
use crate::logic::tags::{numbered, numbered_tag};
use crate::logic::variable_arithmetic::{VariableBitAdder, VariableBitShiftLeft, VariableBitXOrLE};
use crate::netlist::{lemma_repeat_len, repeat, wire_dest};
use vstd::arithmetic::power2::{lemma2_to64, pow2};

verus! {

/// The operations of an arithmetic logic unit, each chosen by the signals on its select
/// inputs `A`, `B`, `C`.
#[derive(PartialEq, Eq, Structural, Debug, Clone, Copy)]
pub enum AluOperations {
    /// No operation: the outputs are released.
    Off,
    XOrLe,
    Or,
    And,
    Not,
    Shl,
    Shr,
    Adder,
}

/// The signals to put on the select inputs `A`, `B`, `C`, one value each.
pub struct AluReturns {
    pub a: Vec<Signal>,
    pub b: Vec<Signal>,
    pub c: Vec<Signal>,
}

/// The signals on `A`, `B`, `C` that choose an operation.
pub open spec fn spec_select_lines(op: AluOperations) -> (Signal, Signal, Signal) {
    match op {
        AluOperations::Off => (Signal::HIGH, Signal::HIGH, Signal::HIGH),
        AluOperations::XOrLe => (Signal::HIGH, Signal::HIGH, Signal::LOW_),
        AluOperations::Or => (Signal::HIGH, Signal::LOW_, Signal::HIGH),
        AluOperations::And => (Signal::HIGH, Signal::LOW_, Signal::LOW_),
        AluOperations::Not => (Signal::LOW_, Signal::HIGH, Signal::HIGH),
        AluOperations::Shl => (Signal::LOW_, Signal::HIGH, Signal::LOW_),
        AluOperations::Shr => (Signal::LOW_, Signal::LOW_, Signal::HIGH),
        AluOperations::Adder => (Signal::LOW_, Signal::LOW_, Signal::LOW_),
    }
}

/// A select line read as a bit: HIGH is 1.
pub open spec fn signal_bit(x: Signal) -> int {
    if x == Signal::HIGH {
        1
    } else {
        0
    }
}

/// The number that the select lines of `op` spell, `A` being the highest bit: the decoder
/// output that is HIGH when they choose `op`.
pub open spec fn select_number(op: AluOperations) -> int {
    4 * signal_bit(spec_select_lines(op).0) + 2 * signal_bit(spec_select_lines(op).1) + signal_bit(
        spec_select_lines(op).2,
    )
}

impl AluReturns {
    pub fn new(a: Signal, b: Signal, c: Signal) -> (res: Self)
        ensures
            res.a@ == seq![a],
            res.b@ == seq![b],
            res.c@ == seq![c],
    {
        AluReturns { a: vec![a], b: vec![b], c: vec![c] }
    }
}

impl AluOperations {
    /// The select signals of `alu_operation`.
    pub fn get_vectors(alu_operation: AluOperations) -> (res: AluReturns)
        ensures
            res.a@ == seq![spec_select_lines(alu_operation).0],
            res.b@ == seq![spec_select_lines(alu_operation).1],
            res.c@ == seq![spec_select_lines(alu_operation).2],
    {
        match alu_operation {
            AluOperations::Off => AluReturns::new(Signal::HIGH, Signal::HIGH, Signal::HIGH),
            AluOperations::XOrLe => AluReturns::new(Signal::HIGH, Signal::HIGH, Signal::LOW_),
            AluOperations::Or => AluReturns::new(Signal::HIGH, Signal::LOW_, Signal::HIGH),
            AluOperations::And => AluReturns::new(Signal::HIGH, Signal::LOW_, Signal::LOW_),
            AluOperations::Not => AluReturns::new(Signal::LOW_, Signal::HIGH, Signal::HIGH),
            AluOperations::Shl => AluReturns::new(Signal::LOW_, Signal::HIGH, Signal::LOW_),
            AluOperations::Shr => AluReturns::new(Signal::LOW_, Signal::LOW_, Signal::HIGH),
            AluOperations::Adder => AluReturns::new(Signal::LOW_, Signal::LOW_, Signal::LOW_),
        }
    }
}

/// Where enable `j` of an ALU of `n` bits standing at `s` is; its splitter follows it.
pub open spec fn alu_enable(s: int, n: int, j: int) -> int {
    s + 3 * n + 8 + j * (2 * n + 3)
}

/// Where the splitter of enable `j` is.
pub open spec fn alu_enable_splitter(s: int, n: int, j: int) -> int {
    alu_enable(s, n, j) + 2 * n + 2
}

/// Where input gatekeeper `j` is.
pub open spec fn alu_keeper(s: int, n: int, j: int) -> int {
    s + 17 * n + 29 + j * (2 * n + 2)
}

/// Where carry gatekeeper `j` is.
pub open spec fn alu_carry_keeper(s: int, n: int, j: int) -> int {
    s + 35 * n + 47 + 4 * j
}

/// Where decoder splitter `j` is.
pub open spec fn alu_decoder_splitter(s: int, n: int, j: int) -> int {
    s + 35 * n + 59 + j
}

/// The number of copies decoder splitter `j` makes: for OR, AND, NOT, SHL, SHR, the adder.
pub open spec fn alu_copies(j: int) -> nat {
    if j == 0 || j == 1 {
        3
    } else if j == 2 {
        2
    } else if j == 3 || j == 4 {
        4
    } else {
        5
    }
}

/// Where the comparator is.
pub open spec fn alu_xor_le(s: int, n: int) -> int {
    s + 35 * n + 65
}

/// Where the OR of the bits is.
pub open spec fn alu_or(s: int, n: int) -> int {
    s + 50 * n + 67
}

/// Where the AND of the bits is.
pub open spec fn alu_and(s: int, n: int) -> int {
    s + 54 * n + 67
}

/// Where the NOT of the bits is.
pub open spec fn alu_not(s: int, n: int) -> int {
    s + 58 * n + 67
}

/// Where the left shifter is.
pub open spec fn alu_shl(s: int, n: int) -> int {
    s + 61 * n + 67
}

/// Where the right shifter is.
pub open spec fn alu_shr(s: int, n: int) -> int {
    s + 97 * n + 79
}

/// Where the adder is.
pub open spec fn alu_adder(s: int, n: int) -> int {
    s + 133 * n + 91
}

/// Where the decoder of `A`, `B`, `C` is.
pub open spec fn alu_decoder(s: int, n: int) -> int {
    s + 154 * n + 93
}

/// Where controlled buffer `j` (of the left shifter, the right shifter, the adder) is.
pub open spec fn alu_buffer(s: int, n: int, j: int) -> int {
    s + 154 * n + 115 + j
}

/// Where the zero detector is.
pub open spec fn alu_z(s: int, n: int) -> int {
    s + 154 * n + 118
}

/// A wire from output `j` of gate `g` to input `k` of gate `h`.
pub open spec fn wire(g: int, j: int, h: int, k: int) -> (usize, usize, usize, usize) {
    (g as usize, j as usize, h as usize, k as usize)
}

/// A gatekeeper, an enable or a register-like part standing at `g` has input `2 * i` and
/// output `2 * i + 1` for bit `i`.
pub open spec fn paired_bit_pins(c: Circuit, g: int, i: int) -> bool {
    c.has_input(g + 2 * i, 0) && c.has_output(g + 2 * i + 1, 0)
}

/// The pins that the wires of bit `i` of an ALU of `n` bits standing at `s` in `c` use.
pub open spec fn alu_bit_pins(c: Circuit, s: int, n: int, i: int) -> bool {
    let x = alu_xor_le(s, n);
    &&& c.has_output(s + 2 * i, 6)
    &&& c.has_input(s + 2 * i + 1, 0)
    &&& c.has_output(s + 2 * n + i, 3)
    &&& paired_bit_pins(c, alu_keeper(s, n, 0), i)
    &&& paired_bit_pins(c, alu_keeper(s, n, 1), i)
    &&& paired_bit_pins(c, alu_keeper(s, n, 2), i)
    &&& paired_bit_pins(c, alu_keeper(s, n, 3), i)
    &&& paired_bit_pins(c, alu_keeper(s, n, 4), i)
    &&& paired_bit_pins(c, alu_keeper(s, n, 5), i)
    &&& paired_bit_pins(c, alu_keeper(s, n, 6), i)
    &&& paired_bit_pins(c, alu_keeper(s, n, 7), i)
    &&& paired_bit_pins(c, alu_keeper(s, n, 8), i)
    &&& c.has_input(x + 14 * i, 0) && c.has_input(x + 14 * n + i, 0) && c.has_output(x + 14 * i + 1, 0)
    &&& c.has_input(alu_or(s, n) + 3 * i, 0) && c.has_input(alu_or(s, n) + 3 * n + i, 0)
    &&& c.has_output(alu_or(s, n) + 3 * i + 1, 0)
    &&& c.has_input(alu_and(s, n) + 3 * i, 0) && c.has_input(alu_and(s, n) + 3 * n + i, 0)
    &&& c.has_output(alu_and(s, n) + 3 * i + 1, 0)
    &&& c.has_input(alu_not(s, n) + 3 * i, 0) && c.has_output(alu_not(s, n) + 3 * i + 1, 0)
    &&& paired_bit_pins(c, alu_shl(s, n), i)
    &&& paired_bit_pins(c, alu_shr(s, n), i)
    &&& c.has_input(alu_adder(s, n) + 20 * i, 0) && c.has_input(alu_adder(s, n) + 20 * n + i, 0)
    &&& c.has_output(alu_adder(s, n) + 20 * i + 1, 0)
    &&& c.has_input(alu_z(s, n) + i, 0)
}

/// The pins that the wires of enable `j` for bit `i` use: the enable's, and its splitter's.
pub open spec fn alu_enable_pins(c: Circuit, s: int, n: int, j: int, i: int) -> bool {
    &&& paired_bit_pins(c, alu_enable(s, n, j), i)
    &&& c.has_input(alu_enable_splitter(s, n, j), i)
    &&& c.has_output(alu_enable_splitter(s, n, j), 2 * i + 1)
}

/// The pins that the control wires of an ALU of `n` bits standing at `s` in `c` use.
pub open spec fn alu_control_pins(c: Circuit, s: int, n: int) -> bool {
    let x = alu_xor_le(s, n);
    let d = alu_decoder(s, n);
    &&& c.has_output(s + 3 * n, 0) && c.has_output(s + 3 * n + 1, 0) && c.has_output(s + 3 * n + 2, 0)
    &&& c.has_output(s + 3 * n + 3, 0)
    &&& c.has_input(s + 3 * n + 4, 0) && c.has_input(s + 3 * n + 5, 0) && c.has_input(s + 3 * n + 6, 0)
    &&& c.has_input(s + 3 * n + 7, 0)
    &&& forall|j: int| 0 <= j < 3 ==> #[trigger] paired_bit_pins(c, alu_carry_keeper(s, n, j), 0)
    &&& forall|j: int| 0 <= j < 3 ==> c.has_input(#[trigger] alu_carry_keeper(s, n, j) + 2, 0)
    &&& c.has_input(alu_shl(s, n) + 2 * n, 0) && c.has_input(alu_shr(s, n) + 2 * n, 0)
    &&& c.has_input(alu_adder(s, n) + 21 * n, 0)
    &&& c.has_output(x + 15 * n, 0) && c.has_output(x + 15 * n + 1, 0) && c.has_output(alu_z(s, n) + n, 0)
    &&& c.has_output(alu_shl(s, n) + 2 * n + 1, 0) && c.has_output(alu_shr(s, n) + 2 * n + 1, 0)
    &&& c.has_output(alu_adder(s, n) + 21 * n + 1, 0)
    &&& forall|j: int| 0 <= j < 3 ==> c.has_input(#[trigger] alu_buffer(s, n, j), n) && c.has_output(alu_buffer(s, n, j), 0)
    &&& c.has_input(d, 0) && c.has_input(d + 1, 0) && c.has_input(d + 2, 0)
    &&& forall|r: int| 0 <= r < 7 ==> #[trigger] c.has_output(d + 3 + r, 0)
    &&& forall|j: int|
        0 <= j < 6 ==> c.has_input(#[trigger] alu_decoder_splitter(s, n, j), 0) && c.has_output(
            alu_decoder_splitter(s, n, j),
            alu_copies(j) - 1,
        )
    &&& forall|j: int| 0 <= j < 7 ==> c.has_input(#[trigger] alu_enable(s, n, j) + 2 * n, 0)
    &&& forall|j: int| 0 <= j < 9 ==> c.has_input(#[trigger] alu_keeper(s, n, j) + 2 * n, 0)
}

/// Gates may be added and wired: what had inputs and outputs still has them.
proof fn lemma_pins_kept(c1: Circuit, c2: Circuit)
    requires
        shape_extends(c1.shape(), c2.shape()),
    ensures
        forall|g: int, i: int| #[trigger] c1.has_input(g, i) ==> c2.has_input(g, i),
        forall|g: int, i: int| #[trigger] c1.has_output(g, i) ==> c2.has_output(g, i),
{
    assert forall|g: int, i: int| #[trigger] c1.has_input(g, i) implies c2.has_input(g, i) by {
        assert(c2.shape().subrange(0, c1.shape().len() as int)[g] == c2.shape()[g]);
    }
    assert forall|g: int, i: int| #[trigger] c1.has_output(g, i) implies c2.has_output(g, i) by {
        assert(c2.shape().subrange(0, c1.shape().len() as int)[g] == c2.shape()[g]);
    }
}

/// Growth in two steps is growth.
proof fn lemma_added_trans(c0: Circuit, c1: Circuit, c2: Circuit, a: nat, b: nat)
    requires
        pins_added(c0, c1, a),
        pins_added(c1, c2, b),
    ensures
        pins_added(c0, c2, a + b),
{
    lemma_shape_extends_trans(c0.shape(), c1.shape(), c2.shape());
    lemma_types_extend_trans(c0.types(), c1.types(), c2.types());
    crate::circuit::lemma_wiring_kept_trans(c0, c1, c2);
}

/// The pins of bit `k` of an ALU of `n` bits standing at `s` in `c`: input `a_<k>` with seven
/// outputs, output `o_<k>` right after it, and input `b_<k>` with four outputs.
pub open spec fn alu_pin_shapes(c: Circuit, s: int, n: int, k: int) -> bool {
    &&& c.shape()[s + 2 * k] == (1nat, 7nat)
    &&& c.types()[s + 2 * k] == GateType::SimpleInputType
    &&& c.shape()[s + 2 * k + 1] == (1nat, 1nat)
    &&& c.types()[s + 2 * k + 1] == GateType::SimpleOutputType
    &&& c.shape()[s + 2 * n + k] == (1nat, 4nat)
    &&& c.types()[s + 2 * n + k] == GateType::SimpleInputType
}

/// The other pins of an ALU of `n` bits standing at `s` in `c`: inputs `A`, `B`, `C` and
/// `C_IN`, then outputs `A_L`, `EQ`, `Z` and `C_OUT`.
pub open spec fn alu_control_shapes(c: Circuit, s: int, n: int) -> bool {
    let x = s + 3 * n;
    &&& c.shape()[x] == (1nat, 1nat) && c.types()[x] == GateType::SimpleInputType
    &&& c.shape()[x + 1] == (1nat, 1nat) && c.types()[x + 1] == GateType::SimpleInputType
    &&& c.shape()[x + 2] == (1nat, 1nat) && c.types()[x + 2] == GateType::SimpleInputType
    &&& c.shape()[x + 3] == (1nat, 3nat) && c.types()[x + 3] == GateType::SimpleInputType
    &&& c.shape()[x + 4] == (1nat, 1nat) && c.types()[x + 4] == GateType::SimpleOutputType
    &&& c.shape()[x + 5] == (1nat, 1nat) && c.types()[x + 5] == GateType::SimpleOutputType
    &&& c.shape()[x + 6] == (1nat, 1nat) && c.types()[x + 6] == GateType::SimpleOutputType
    &&& c.shape()[x + 7] == (1nat, 1nat) && c.types()[x + 7] == GateType::SimpleOutputType
}

/// The input gates of an ALU of `n` bits standing at `s`: `a_<k>`, `b_<k>`, `A`, `B`, `C`,
/// `C_IN`.
pub open spec fn alu_input_gates(s: int, n: nat) -> Seq<usize> {
    let nn = n as int;
    Seq::new(n, |k: int| (s + 2 * k) as usize) + Seq::new(n, |k: int| (s + 2 * nn + k) as usize) + seq![
        (s + 3 * nn) as usize,
        (s + 3 * nn + 1) as usize,
        (s + 3 * nn + 2) as usize,
        (s + 3 * nn + 3) as usize,
    ]
}

/// The output gates: `o_<k>`, `A_L`, `EQ`, `Z`, `C_OUT`.
pub open spec fn alu_output_gates(s: int, n: nat) -> Seq<usize> {
    let nn = n as int;
    Seq::new(n, |k: int| (s + 2 * k + 1) as usize) + seq![
        (s + 3 * nn + 4) as usize,
        (s + 3 * nn + 5) as usize,
        (s + 3 * nn + 6) as usize,
        (s + 3 * nn + 7) as usize,
    ]
}

/// The tags of the inputs and outputs of an ALU of `n` bits, in order.
pub open spec fn alu_tags(n: nat) -> Seq<Seq<char>> {
    Seq::new(n, |k: int| numbered("a_"@, k)) + Seq::new(n, |k: int| numbered("b_"@, k)) + seq!["A"@, "B"@, "C"@, "C_IN"@]
        + Seq::new(n, |k: int| numbered("o_"@, k)) + seq!["A_L"@, "EQ"@, "Z"@, "C_OUT"@]
}

/// Adds the pins of an ALU of `n` bits: `a_<k>` and `o_<k>` in turns, then `b_<k>`, `A`, `B`,
/// `C`, `C_IN`, `A_L`, `EQ`, `Z` and `C_OUT`. Returns the input gates, their tags, the output
/// gates and their tags.
#[verifier::spinoff_prover]
#[verifier::rlimit(100)]
fn build_alu_pins(circuit: &mut Circuit, n: usize) -> (res: (Vec<usize>, Vec<String>, Vec<usize>, Vec<String>))
    requires
        old(circuit).wf(),
        n >= 1,
        old(circuit).len() + 3 * n + 8 < usize::MAX,
    ensures
        pins_added(*old(circuit), *final(circuit), (3 * n + 8) as nat),
        res.0@ == alu_input_gates(old(circuit).len() as int, n as nat),
        res.2@ == alu_output_gates(old(circuit).len() as int, n as nat),
        res.1@.len() == 2 * n + 4,
        res.3@.len() == n + 4,
        Seq::new(res.1@.len(), |k: int| res.1@[k]@) + Seq::new(res.3@.len(), |k: int| res.3@[k]@) == alu_tags(n as nat),
        forall|k: int| 0 <= k < n ==> #[trigger] alu_pin_shapes(*final(circuit), old(circuit).len() as int, n as int, k),
        alu_control_shapes(*final(circuit), old(circuit).len() as int, n as int),
{
    let ghost c0 = *circuit;
    let s = circuit.num_gates();
    proof {
        crate::circuit::lemma_wiring_kept_refl(c0);
        assert(c0.shape().len() == c0.len());
        assert(c0.types().len() == c0.len());
        assert(c0.types().subrange(0, c0.types().len() as int) =~= c0.types());
    }
    let mut ins: Vec<usize> = Vec::new();
    let mut itags: Vec<String> = Vec::new();
    let mut outs: Vec<usize> = Vec::new();
    let mut otags: Vec<String> = Vec::new();
    let mut k: usize = 0;
    while k < n
        invariant
            c0 == *old(circuit),
            s == c0.len(),
            s + 3 * n + 8 < usize::MAX,
            k <= n,
            pins_added(c0, *circuit, (2 * k) as nat),
            ins@ == Seq::new(k as nat, |m: int| (s + 2 * m) as usize),
            outs@ == Seq::new(k as nat, |m: int| (s + 2 * m + 1) as usize),
            itags@.len() == k,
            otags@.len() == k,
            forall|m: int| 0 <= m < k ==> (#[trigger] itags@[m])@ == numbered("a_"@, m),
            forall|m: int| 0 <= m < k ==> (#[trigger] otags@[m])@ == numbered("o_"@, m),
            forall|m: int|
                0 <= m < k ==> circuit.shape()[s + 2 * m] == (1nat, 7nat) && #[trigger] circuit.types()[s + 2 * m]
                    == GateType::SimpleInputType,
            forall|m: int|
                0 <= m < k ==> circuit.shape()[s + 2 * m + 1] == (1nat, 1nat) && #[trigger] circuit.types()[s + 2 * m + 1]
                    == GateType::SimpleOutputType,
        decreases n - k,
    {
        let ghost before = *circuit;
        let a_tag = numbered_tag("a_", k);
        let a_in = SimpleInput::new(circuit, 7, a_tag.as_str());
        let o_tag = numbered_tag("o_", k);
        let o_out = SimpleOutput::new(circuit, o_tag.as_str());
        proof {
            assert(before.shape().len() == before.len());
            assert(before.types().len() == before.len());
            assert(circuit.shape() =~= before.shape() + seq![(1nat, 7nat), (1nat, 1nat)]);
            assert(circuit.types() =~= before.types() + seq![GateType::SimpleInputType, GateType::SimpleOutputType]);
            assert(circuit.shape().subrange(0, before.shape().len() as int) =~= before.shape());
            assert(circuit.types().subrange(0, before.types().len() as int) =~= before.types());
            assert(pins_added(before, *circuit, 2));
            lemma_added_trans(c0, before, *circuit, (2 * k) as nat, 2);
            assert forall|m: int| 0 <= m < k + 1 implies circuit.shape()[s + 2 * m] == (1nat, 7nat) && #[trigger] circuit.types()[s + 2 * m]
                == GateType::SimpleInputType by {
                if m < k {
                    assert(circuit.shape()[s + 2 * m] == before.shape()[s + 2 * m]);
                    assert(circuit.types()[s + 2 * m] == before.types()[s + 2 * m]);
                }
            }
            assert forall|m: int| 0 <= m < k + 1 implies circuit.shape()[s + 2 * m + 1] == (1nat, 1nat) && #[trigger] circuit.types()[s + 2 * m + 1]
                == GateType::SimpleOutputType by {
                if m < k {
                    assert(circuit.shape()[s + 2 * m + 1] == before.shape()[s + 2 * m + 1]);
                    assert(circuit.types()[s + 2 * m + 1] == before.types()[s + 2 * m + 1]);
                }
            }
        }
        ins.push(a_in.gate);
        itags.push(a_tag);
        outs.push(o_out.gate);
        otags.push(o_tag);
        proof {
            assert(ins@ =~= Seq::new(k as nat + 1, |m: int| (s + 2 * m) as usize));
            assert(outs@ =~= Seq::new(k as nat + 1, |m: int| (s + 2 * m + 1) as usize));
        }
        k = k + 1;
    }
    let ghost c1 = *circuit;
    let mut k: usize = 0;
    while k < n
        invariant
            c0 == *old(circuit),
            s == c0.len(),
            s + 3 * n + 8 < usize::MAX,
            k <= n,
            pins_added(c0, *circuit, (2 * n + k) as nat),
            pins_added(c0, c1, (2 * n) as nat),
            ins@ == Seq::new(n as nat, |m: int| (s + 2 * m) as usize) + Seq::new(k as nat, |m: int| (s + 2 * n + m) as usize),
            itags@.len() == n + k,
            forall|m: int| 0 <= m < n ==> (#[trigger] itags@[m])@ == numbered("a_"@, m),
            forall|m: int| 0 <= m < k ==> (#[trigger] itags@[n + m])@ == numbered("b_"@, m),
            forall|m: int|
                0 <= m < n ==> circuit.shape()[s + 2 * m] == (1nat, 7nat) && #[trigger] circuit.types()[s + 2 * m]
                    == GateType::SimpleInputType,
            forall|m: int|
                0 <= m < n ==> circuit.shape()[s + 2 * m + 1] == (1nat, 1nat) && #[trigger] circuit.types()[s + 2 * m + 1]
                    == GateType::SimpleOutputType,
            forall|m: int|
                0 <= m < k ==> circuit.shape()[s + 2 * n + m] == (1nat, 4nat) && #[trigger] circuit.types()[s + 2 * n + m]
                    == GateType::SimpleInputType,
        decreases n - k,
    {
        let ghost before = *circuit;
        let b_tag = numbered_tag("b_", k);
        let b_in = SimpleInput::new(circuit, 4, b_tag.as_str());
        proof {
            assert(before.shape().len() == before.len());
            assert(before.types().len() == before.len());
            assert(circuit.shape().subrange(0, before.shape().len() as int) =~= before.shape());
            assert(circuit.types().subrange(0, before.types().len() as int) =~= before.types());
            assert(circuit.shape().len() == circuit.len());
            assert(circuit.len() == before.len() + 1);
            assert(pins_added(before, *circuit, 1));
            lemma_added_trans(c0, before, *circuit, (2 * n + k) as nat, 1);
            assert forall|m: int| 0 <= m < n implies circuit.shape()[s + 2 * m] == (1nat, 7nat) && #[trigger] circuit.types()[s + 2 * m]
                == GateType::SimpleInputType by {
                assert(circuit.shape()[s + 2 * m] == before.shape()[s + 2 * m]);
                assert(circuit.types()[s + 2 * m] == before.types()[s + 2 * m]);
            }
            assert forall|m: int| 0 <= m < n implies circuit.shape()[s + 2 * m + 1] == (1nat, 1nat) && #[trigger] circuit.types()[s + 2 * m + 1]
                == GateType::SimpleOutputType by {
                assert(circuit.shape()[s + 2 * m + 1] == before.shape()[s + 2 * m + 1]);
                assert(circuit.types()[s + 2 * m + 1] == before.types()[s + 2 * m + 1]);
            }
            assert forall|m: int| 0 <= m < k + 1 implies circuit.shape()[s + 2 * n + m] == (1nat, 4nat) && #[trigger] circuit.types()[s + 2 * n + m]
                == GateType::SimpleInputType by {
                if m < k {
                    assert(circuit.shape()[s + 2 * n + m] == before.shape()[s + 2 * n + m]);
                    assert(circuit.types()[s + 2 * n + m] == before.types()[s + 2 * n + m]);
                }
            }
        }
        ins.push(b_in.gate);
        itags.push(b_tag);
        proof {
            assert(ins@ =~= Seq::new(n as nat, |m: int| (s + 2 * m) as usize) + Seq::new(k as nat + 1, |m: int| (s + 2 * n + m) as usize));
        }
        k = k + 1;
    }
    let ghost c2 = *circuit;
    let ghost it2 = itags@;
    let ghost ot2 = otags@;
    let a_tag = "A".to_owned();
    let a_in = SimpleInput::new(circuit, 1, a_tag.as_str());
    let b_tag = "B".to_owned();
    let b_in = SimpleInput::new(circuit, 1, b_tag.as_str());
    let c_tag = "C".to_owned();
    let c_in = SimpleInput::new(circuit, 1, c_tag.as_str());
    let cin_tag = "C_IN".to_owned();
    let cin_in = SimpleInput::new(circuit, 3, cin_tag.as_str());
    let al_tag = "A_L".to_owned();
    let al_out = SimpleOutput::new(circuit, al_tag.as_str());
    let eq_tag = "EQ".to_owned();
    let eq_out = SimpleOutput::new(circuit, eq_tag.as_str());
    let z_tag = "Z".to_owned();
    let z_out = SimpleOutput::new(circuit, z_tag.as_str());
    let cout_tag = "C_OUT".to_owned();
    let cout_out = SimpleOutput::new(circuit, cout_tag.as_str());
    let ghost c3 = *circuit;
    proof {
        assert(c2.shape().len() == c2.len());
        assert(c2.types().len() == c2.len());
        assert(c3.shape() =~= c2.shape() + seq![
            (1nat, 1nat),
            (1nat, 1nat),
            (1nat, 1nat),
            (1nat, 3nat),
            (1nat, 1nat),
            (1nat, 1nat),
            (1nat, 1nat),
            (1nat, 1nat),
        ]);
        assert(c3.types() =~= c2.types() + seq![
            GateType::SimpleInputType,
            GateType::SimpleInputType,
            GateType::SimpleInputType,
            GateType::SimpleInputType,
            GateType::SimpleOutputType,
            GateType::SimpleOutputType,
            GateType::SimpleOutputType,
            GateType::SimpleOutputType,
        ]);
        assert(c3.shape().subrange(0, c2.shape().len() as int) =~= c2.shape());
        assert(c3.types().subrange(0, c2.types().len() as int) =~= c2.types());
        assert(pins_added(c2, c3, 8));
        lemma_added_trans(c0, c2, c3, (3 * n) as nat, 8);
        assert forall|k: int| 0 <= k < n implies #[trigger] alu_pin_shapes(c3, s as int, n as int, k) by {
            assert(c3.shape()[s + 2 * k] == c2.shape()[s + 2 * k]);
            assert(c3.types()[s + 2 * k] == c2.types()[s + 2 * k]);
            assert(c3.shape()[s + 2 * k + 1] == c2.shape()[s + 2 * k + 1]);
            assert(c3.types()[s + 2 * k + 1] == c2.types()[s + 2 * k + 1]);
            assert(c3.shape()[s + 2 * n + k] == c2.shape()[s + 2 * n + k]);
            assert(c3.types()[s + 2 * n + k] == c2.types()[s + 2 * n + k]);
        }
    }
    ins.push(a_in.gate);
    itags.push(a_tag);
    ins.push(b_in.gate);
    itags.push(b_tag);
    ins.push(c_in.gate);
    itags.push(c_tag);
    ins.push(cin_in.gate);
    itags.push(cin_tag);
    outs.push(al_out.gate);
    otags.push(al_tag);
    outs.push(eq_out.gate);
    otags.push(eq_tag);
    outs.push(z_out.gate);
    otags.push(z_tag);
    outs.push(cout_out.gate);
    otags.push(cout_tag);
    proof {
        assert(ins@ =~= alu_input_gates(s as int, n as nat));
        assert(outs@ =~= alu_output_gates(s as int, n as nat));
        let lhs = Seq::new(itags@.len(), |k: int| itags@[k]@) + Seq::new(otags@.len(), |k: int| otags@[k]@);
        let rhs = alu_tags(n as nat);
        assert(lhs.len() == rhs.len());
        assert forall|i: int| 0 <= i < lhs.len() implies lhs[i] == rhs[i] by {
            if i < n {
                assert(itags@[i] == it2[i]);
            } else if i < 2 * n {
                let m = i - n;
                assert(itags@[n + m] == it2[n + m]);
            } else if i < 2 * n + 4 {
            } else if i < 3 * n + 4 {
                let m = i - 2 * n - 4;
                assert(otags@[m] == ot2[m]);
            }
        }
        assert(lhs =~= rhs);
    }
    (ins, itags, outs, otags)
}

/// Enable `en` of `n` bits stands at `b` in `c`, and splitter `sp` right after it copies each
/// of its `n` outputs twice.
pub open spec fn enable_at(en: VariableBitEnable, sp: Splitter, c: Circuit, b: int, n: nat) -> bool {
    &&& en.pins_ok(b, n)
    &&& complex_fits(&en.complex_gate, c.shape(), c.types())
    &&& sp.gate == b + 2 * n + 2
    &&& sp.input_num == n
    &&& sp.outputs_per_input == 2
    &&& c.shape()[b + 2 * n + 2] == (n, 2 * n)
}

/// Gatekeeper `gk` of `width` bits stands at `b` in `c`.
pub open spec fn keeper_at(gk: SignalGatekeeper, c: Circuit, b: int, width: nat) -> bool {
    &&& gk.pins_ok(b, width)
    &&& complex_fits(&gk.complex_gate, c.shape(), c.types())
}

/// Growth keeps an enable in place.
proof fn lemma_enable_kept(en: VariableBitEnable, sp: Splitter, c1: Circuit, c2: Circuit, b: int, n: nat)
    requires
        enable_at(en, sp, c1, b, n),
        0 <= b,
        b + 2 * n + 2 < c1.len(),
        shape_extends(c1.shape(), c2.shape()),
        types_extend(c1.types(), c2.types()),
        c2.shape().len() == c2.types().len(),
    ensures
        enable_at(en, sp, c2, b, n),
{
    lemma_complex_fits_extends(&en.complex_gate, c1.shape(), c1.types(), c2.shape(), c2.types());
    assert(c2.shape().subrange(0, c1.shape().len() as int)[b + 2 * n + 2] == c2.shape()[b + 2 * n + 2]);
}

/// Growth keeps a gatekeeper in place.
proof fn lemma_keeper_kept(gk: SignalGatekeeper, c1: Circuit, c2: Circuit, b: int, width: nat)
    requires
        keeper_at(gk, c1, b, width),
        shape_extends(c1.shape(), c2.shape()),
        types_extend(c1.types(), c2.types()),
        c2.shape().len() == c2.types().len(),
    ensures
        keeper_at(gk, c2, b, width),
{
    lemma_complex_fits_extends(&gk.complex_gate, c1.shape(), c1.types(), c2.shape(), c2.types());
}

/// Adds the seven enables of an ALU of `n` bits, each followed by its splitter.
#[verifier::spinoff_prover]
#[verifier::rlimit(50)]
fn build_enables(circuit: &mut Circuit, n: usize) -> (res: Result<(Vec<VariableBitEnable>, Vec<Splitter>), GateLogicError>)
    requires
        old(circuit).wf(),
        n >= 1,
        old(circuit).len() + 7 * (2 * n + 3) < usize::MAX,
    ensures
        final(circuit).wf(),
        final(circuit).clock_tick_number == old(circuit).clock_tick_number,
        old(circuit).wiring_kept(*final(circuit)),
        forall|g: int, j: int, d: Option<(int, int)>| old(circuit).wire(g, j, d) ==> #[trigger] final(circuit).wire(g, j, d),
        match res {
            Ok((ens, sps)) => {
                &&& pins_added(*old(circuit), *final(circuit), (7 * (2 * n + 3)) as nat)
                &&& ens@.len() == 7
                &&& sps@.len() == 7
                &&& forall|j: int|
                    0 <= j < 7 ==> #[trigger] enable_at(ens@[j], sps@[j], *final(circuit), old(circuit).len() + j * (2 * n + 3), n as nat)
            },
            Err(e) => crate::run_circuit::failure_shown(*final(circuit), e),
        },
{
    let ghost c0 = *circuit;
    let b = circuit.num_gates();
    proof {
        crate::circuit::lemma_wiring_kept_refl(c0);
        assert(c0.types().subrange(0, c0.types().len() as int) =~= c0.types());
        assert(c0.shape().len() == c0.len());
        assert(c0.types().len() == c0.len());
    }
    let mut ens: Vec<VariableBitEnable> = Vec::new();
    let mut sps: Vec<Splitter> = Vec::new();
    let mut j: usize = 0;
    while j < 7
        invariant
            c0 == *old(circuit),
            b == c0.len(),
            n >= 1,
            b + 7 * (2 * n + 3) < usize::MAX,
            j <= 7,
            circuit.wf(),
            pins_added(c0, *circuit, (j * (2 * n + 3)) as nat),
            ens@.len() == j,
            sps@.len() == j,
            forall|m: int| 0 <= m < j ==> #[trigger] enable_at(ens@[m], sps@[m], *circuit, b + m * (2 * n + 3), n as nat),
        decreases 7 - j,
    {
        let ghost before = *circuit;
        proof {
            assert(j * (2 * n + 3) + (2 * n + 3) <= 7 * (2 * n + 3)) by (nonlinear_arith)
                requires
                    0 <= j < 7,
                    n >= 0,
            ;
        }
        let en = match VariableBitEnable::new(circuit, n) {
            Ok(en) => en,
            Err(e) => {
                return Err(e);
            },
        };
        let ghost mid = *circuit;
        proof {
            let blk = seq![((1) as nat, (1) as nat), ((1) as nat, (1) as nat)];
            lemma_repeat_len(blk, n as nat);
            assert(blk.len() == 2);
            assert(repeat(blk, n as nat).len() == n * 2);
            assert(VariableBitEnable::spec_shape(n as nat) == repeat(blk, n as nat) + seq![((1) as nat, (1) as nat), ((n + 1) as nat, (n) as nat)]);
            assert(VariableBitEnable::spec_shape(n as nat).len() == 2 * n + 2);
            assert(before.shape().len() == before.len());
            assert(before.types().len() == before.len());
            assert(mid.shape().len() == mid.len());
            assert(mid.types().len() == mid.len());
            assert(mid.len() == before.len() + 2 * n + 2);
        }
        let sp = Splitter::new(circuit, n, 2);
        proof {
            assert(mid.shape().subrange(0, before.shape().len() as int) =~= before.shape());
            assert(circuit.shape().subrange(0, before.shape().len() as int) =~= before.shape());
            assert(mid.types().subrange(0, before.types().len() as int) =~= before.types());
            assert(circuit.types().subrange(0, before.types().len() as int) =~= before.types());
            assert(circuit.shape().subrange(0, mid.shape().len() as int) =~= mid.shape());
            assert(circuit.types().subrange(0, mid.types().len() as int) =~= mid.types());
            crate::circuit::lemma_wiring_kept_trans(before, mid, *circuit);
            assert(pins_added(before, *circuit, (2 * n + 3) as nat));
            lemma_added_trans(c0, before, *circuit, (j * (2 * n + 3)) as nat, (2 * n + 3) as nat);
            assert((j + 1) * (2 * n + 3) == j * (2 * n + 3) + (2 * n + 3)) by (nonlinear_arith);
            lemma_complex_fits_extends(&en.complex_gate, mid.shape(), mid.types(), circuit.shape(), circuit.types());
            assert(enable_at(en, sp, *circuit, b + j * (2 * n + 3), n as nat));
            assert forall|m: int| 0 <= m < j implies #[trigger] enable_at(ens@[m], sps@[m], *circuit, b + m * (2 * n + 3), n as nat) by {
                assert(m * (2 * n + 3) + (2 * n + 3) <= j * (2 * n + 3)) by (nonlinear_arith)
                    requires
                        m < j,
                ;
                lemma_enable_kept(ens@[m], sps@[m], before, *circuit, b + m * (2 * n + 3), n as nat);
            }
        }
        let ghost old_ens = ens@;
        let ghost old_sps = sps@;
        ens.push(en);
        sps.push(sp);
        proof {
            assert forall|m: int| 0 <= m < j + 1 implies #[trigger] enable_at(ens@[m], sps@[m], *circuit, b + m * (2 * n + 3), n as nat) by {
                if m < j {
                    assert(ens@[m] == old_ens[m]);
                    assert(sps@[m] == old_sps[m]);
                }
            }
        }
        j = j + 1;
    }
    Ok((ens, sps))
}

/// Adds `count` gatekeepers of `width` bits, one after the other.
#[verifier::spinoff_prover]
#[verifier::rlimit(50)]
fn build_keepers(circuit: &mut Circuit, width: usize, count: usize) -> (res: Result<Vec<SignalGatekeeper>, GateLogicError>)
    requires
        old(circuit).wf(),
        width >= 1,
        old(circuit).len() + count * (2 * width + 2) + 1 < usize::MAX,
    ensures
        final(circuit).wf(),
        final(circuit).clock_tick_number == old(circuit).clock_tick_number,
        old(circuit).wiring_kept(*final(circuit)),
        forall|g: int, j: int, d: Option<(int, int)>| old(circuit).wire(g, j, d) ==> #[trigger] final(circuit).wire(g, j, d),
        match res {
            Ok(gks) => {
                &&& pins_added(*old(circuit), *final(circuit), (count * (2 * width + 2)) as nat)
                &&& gks@.len() == count
                &&& forall|j: int|
                    0 <= j < count ==> #[trigger] keeper_at(gks@[j], *final(circuit), old(circuit).len() + j * (2 * width + 2), width as nat)
            },
            Err(e) => crate::run_circuit::failure_shown(*final(circuit), e),
        },
{
    let ghost c0 = *circuit;
    let b = circuit.num_gates();
    proof {
        crate::circuit::lemma_wiring_kept_refl(c0);
        assert(c0.types().subrange(0, c0.types().len() as int) =~= c0.types());
        assert(c0.shape().len() == c0.len());
        assert(c0.types().len() == c0.len());
    }
    let mut gks: Vec<SignalGatekeeper> = Vec::new();
    let mut j: usize = 0;
    while j < count
        invariant
            c0 == *old(circuit),
            b == c0.len(),
            width >= 1,
            b + count * (2 * width + 2) + 1 < usize::MAX,
            j <= count,
            circuit.wf(),
            pins_added(c0, *circuit, (j * (2 * width + 2)) as nat),
            gks@.len() == j,
            forall|m: int| 0 <= m < j ==> #[trigger] keeper_at(gks@[m], *circuit, b + m * (2 * width + 2), width as nat),
        decreases count - j,
    {
        let ghost before = *circuit;
        proof {
            assert(j * (2 * width + 2) + (2 * width + 2) <= count * (2 * width + 2)) by (nonlinear_arith)
                requires
                    j < count,
            ;
        }
        let gk = match SignalGatekeeper::new(circuit, width) {
            Ok(gk) => gk,
            Err(e) => {
                return Err(e);
            },
        };
        proof {
            let blk = seq![((1) as nat, (1) as nat), ((1) as nat, (1) as nat)];
            lemma_repeat_len(blk, width as nat);
            assert(blk.len() == 2);
            assert(repeat(blk, width as nat).len() == width * 2);
            assert(SignalGatekeeper::spec_shape(width as nat).len() == 2 * width + 2);
            assert(before.shape().len() == before.len());
            assert(before.types().len() == before.len());
            assert(circuit.shape().subrange(0, before.shape().len() as int) =~= before.shape());
            assert(circuit.types().subrange(0, before.types().len() as int) =~= before.types());
            assert(pins_added(before, *circuit, (2 * width + 2) as nat));
            lemma_added_trans(c0, before, *circuit, (j * (2 * width + 2)) as nat, (2 * width + 2) as nat);
            assert((j + 1) * (2 * width + 2) == j * (2 * width + 2) + (2 * width + 2)) by (nonlinear_arith);
            assert(keeper_at(gk, *circuit, b + j * (2 * width + 2), width as nat));
            assert forall|m: int| 0 <= m < j implies #[trigger] keeper_at(gks@[m], *circuit, b + m * (2 * width + 2), width as nat) by {
                lemma_keeper_kept(gks@[m], before, *circuit, b + m * (2 * width + 2), width as nat);
            }
        }
        let ghost old_gks = gks@;
        gks.push(gk);
        proof {
            assert forall|m: int| 0 <= m < j + 1 implies #[trigger] keeper_at(gks@[m], *circuit, b + m * (2 * width + 2), width as nat) by {
                if m < j {
                    assert(gks@[m] == old_gks[m]);
                }
            }
        }
        j = j + 1;
    }
    Ok(gks)
}

/// What only adds gates, of `k` more in all, with shapes `sh` and types `ty`, keeps the rest.
proof fn lemma_grown_by(c1: Circuit, c2: Circuit, sh: Seq<(nat, nat)>, ty: Seq<GateType>, k: nat)
    requires
        c2.wf(),
        c2.shape() == c1.shape() + sh,
        c2.types() == c1.types() + ty,
        sh.len() == k,
        c2.clock_tick_number == c1.clock_tick_number,
        c1.wiring_kept(c2),
        forall|g: int, j: int, d: Option<(int, int)>| c1.wire(g, j, d) ==> #[trigger] c2.wire(g, j, d),
    ensures
        pins_added(c1, c2, k),
{
    assert(c1.shape().len() == c1.len());
    assert(c1.types().len() == c1.len());
    assert(c2.shape().len() == c2.len());
    assert(c2.shape().subrange(0, c1.shape().len() as int) =~= c1.shape());
    assert(c2.types().subrange(0, c1.types().len() as int) =~= c1.types());
}

/// The pins of a gatekeeper, or of an enable, that stands at `b` with `width` bits: input
/// `2 * i` and output `2 * i + 1` for each bit, and `E` after them.
proof fn lemma_paired_pins(cg: ComplexGateMembers, c: Circuit, b: int, width: nat)
    requires
        complex_fits(&cg, c.shape(), c.types()),
        cg.input_gates@ == Seq::new(width, |k: int| (b + 2 * k + 0) as usize) + seq![(b + 2 * width + 0 * width + 0) as usize],
        cg.output_gates@ == Seq::new(width, |k: int| (b + 2 * k + 1) as usize),
        0 <= b,
        b + 40 * width + 40 < usize::MAX,
    ensures
        forall|i: int| 0 <= i < width ==> #[trigger] paired_bit_pins(c, b, i),
        c.has_input(b + 2 * width, 0),
{
    assert forall|i: int| 0 <= i < width implies #[trigger] paired_bit_pins(c, b, i) by {
        assert(cg.input_gates@[i] == b + 2 * i);
        assert(cg.output_gates@[i] == b + 2 * i + 1);
    }
    assert(cg.input_gates@[width as int] == b + 2 * width);
}

/// The pins of a part of `n` bits at `x` with inputs `x + 3 * i` and `x + 3 * n + i` and
/// outputs `x + 3 * i + 1`, as the OR and the AND of the bits have them.
pub open spec fn two_input_bit_pins(c: Circuit, x: int, n: int, i: int) -> bool {
    c.has_input(x + 3 * i, 0) && c.has_input(x + 3 * n + i, 0) && c.has_output(x + 3 * i + 1, 0)
}

proof fn lemma_two_input_pins(cg: ComplexGateMembers, c: Circuit, x: int, n: nat)
    requires
        complex_fits(&cg, c.shape(), c.types()),
        cg.input_gates@ == Seq::new(n, |k: int| (x + 3 * k + 0) as usize) + Seq::new(n, |k: int| (x + 3 * n + 1 * k + 0) as usize),
        cg.output_gates@ == Seq::new(n, |k: int| (x + 3 * k + 1) as usize),
        0 <= x,
        x + 40 * n + 40 < usize::MAX,
    ensures
        forall|i: int| 0 <= i < n ==> #[trigger] two_input_bit_pins(c, x, n as int, i),
{
    assert forall|i: int| 0 <= i < n implies #[trigger] two_input_bit_pins(c, x, n as int, i) by {
        assert(cg.input_gates@[i] == x + 3 * i);
        assert(cg.input_gates@[n + i] == x + 3 * n + i);
        assert(cg.output_gates@[i] == x + 3 * i + 1);
    }
}

/// The NOT of the bits at `x` has input `x + 3 * i` and output `x + 3 * i + 1` for bit `i`.
pub open spec fn not_bit_pins(c: Circuit, x: int, i: int) -> bool {
    c.has_input(x + 3 * i, 0) && c.has_output(x + 3 * i + 1, 0)
}

proof fn lemma_not_pins(g: VariableBitNot, c: Circuit, x: int, n: nat)
    requires
        complex_fits(&g.complex_gate, c.shape(), c.types()),
        g.pins_ok(x, n),
        0 <= x,
        x + 40 * n + 40 < usize::MAX,
    ensures
        forall|i: int| 0 <= i < n ==> #[trigger] not_bit_pins(c, x, i),
{
    assert forall|i: int| 0 <= i < n implies #[trigger] not_bit_pins(c, x, i) by {
        assert(g.complex_gate.input_gates@[i] == x + 3 * i);
        assert(g.complex_gate.output_gates@[i] == x + 3 * i + 1);
    }
}

/// The zero detector at `x` has input `x + i` for bit `i`, and its output `O` at `x + n`.
proof fn lemma_z_pins(g: VariableBitZ, c: Circuit, x: int, n: nat)
    requires
        complex_fits(&g.complex_gate, c.shape(), c.types()),
        g.pins_ok(x, n),
        0 <= x,
        x + n + 3 < usize::MAX,
    ensures
        forall|i: int| 0 <= i < n ==> #[trigger] c.has_input(x + i, 0),
        c.has_output(x + n, 0),
{
    assert forall|i: int| 0 <= i < n implies #[trigger] c.has_input(x + i, 0) by {
        assert(g.complex_gate.input_gates@[i] == x + 1 * i + 0);
    }
    assert(g.complex_gate.output_gates@[0] == x + n);
}

/// The comparator at `x` has inputs `a_<i>` at `x + 14 * i` and `b_<i>` at `x + 14 * n + i`,
/// outputs `o_<i>` at `x + 14 * i + 1`, and `L` and `E` at `x + 15 * n` and after.
pub open spec fn xor_le_bit_pins(c: Circuit, x: int, n: int, i: int) -> bool {
    c.has_input(x + 14 * i, 0) && c.has_input(x + 14 * n + i, 0) && c.has_output(x + 14 * i + 1, 0)
}

proof fn lemma_xor_le_pins(cg: ComplexGateMembers, c: Circuit, x: int, n: nat)
    requires
        complex_fits(&cg, c.shape(), c.types()),
        cg.input_gates@ == Seq::new(n, |k: int| (x + 14 * k) as usize) + Seq::new(n, |k: int| (x + 14 * n + k) as usize),
        cg.output_gates@ == Seq::new(n, |k: int| (x + 14 * k + 1) as usize) + seq![(x + 15 * n) as usize, (x + 15 * n + 1) as usize],
        0 <= x,
        x + 40 * n + 40 < usize::MAX,
    ensures
        forall|i: int| 0 <= i < n ==> #[trigger] xor_le_bit_pins(c, x, n as int, i),
        c.has_output(x + 15 * n, 0),
        c.has_output(x + 15 * n + 1, 0),
{
    assert forall|i: int| 0 <= i < n implies #[trigger] xor_le_bit_pins(c, x, n as int, i) by {
        assert(cg.input_gates@[i] == x + 14 * i);
        assert(cg.input_gates@[n + i] == x + 14 * n + i);
        assert(cg.output_gates@[i] == x + 14 * i + 1);
    }
    assert(cg.output_gates@[n as int] == x + 15 * n);
    assert(cg.output_gates@[n as int + 1] == x + 15 * n + 1);
}

/// The adder at `x` has inputs `a_<i>` at `x + 20 * i` and `b_<i>` at `x + 20 * n + i`,
/// outputs `o_<i>` at `x + 20 * i + 1`, `C_IN` at `x + 21 * n` and `C_OUT` after it.
pub open spec fn adder_bit_pins(c: Circuit, x: int, n: int, i: int) -> bool {
    c.has_input(x + 20 * i, 0) && c.has_input(x + 20 * n + i, 0) && c.has_output(x + 20 * i + 1, 0)
}

proof fn lemma_adder_pins(cg: ComplexGateMembers, c: Circuit, x: int, n: nat)
    requires
        complex_fits(&cg, c.shape(), c.types()),
        cg.input_gates@ == Seq::new(n, |k: int| (x + 20 * k) as usize) + Seq::new(n, |k: int| (x + 20 * n + k) as usize) + seq![
            (x + 21 * n) as usize,
        ],
        cg.output_gates@ == Seq::new(n, |k: int| (x + 20 * k + 1) as usize).push((x + 21 * n + 1) as usize),
        0 <= x,
        x + 21 * n + 2 < usize::MAX,
    ensures
        forall|i: int| 0 <= i < n ==> #[trigger] adder_bit_pins(c, x, n as int, i),
        c.has_input(x + 21 * n, 0),
        c.has_output(x + 21 * n + 1, 0),
{
    assert forall|i: int| 0 <= i < n implies #[trigger] adder_bit_pins(c, x, n as int, i) by {
        assert(cg.input_gates@[i] == x + 20 * i);
        assert(cg.input_gates@[n + i] == x + 20 * n + i);
        assert(cg.output_gates@[i] == x + 20 * i + 1);
    }
    assert(cg.input_gates@[2 * n as int] == x + 21 * n);
    assert(cg.output_gates@[n as int] == x + 21 * n + 1);
}

/// The decoder at `d` has inputs at `d`, `d + 1`, `d + 2` and outputs from `d + 3` on.
proof fn lemma_decoder_pins(cg: ComplexGateMembers, c: Circuit, d: int)
    requires
        complex_fits(&cg, c.shape(), c.types()),
        cg.input_gates@ == Seq::new(3, |j: int| (d + j) as usize),
        cg.output_gates@ == Seq::new(8, |i: int| (d + 3 + i) as usize),
        0 <= d,
        d + 22 < usize::MAX,
    ensures
        c.has_input(d, 0) && c.has_input(d + 1, 0) && c.has_input(d + 2, 0),
        forall|r: int| 0 <= r < 8 ==> #[trigger] c.has_output(d + 3 + r, 0),
{
    assert(cg.input_gates@[0] == d);
    assert(cg.input_gates@[1] == d + 1);
    assert(cg.input_gates@[2] == d + 2);
    assert forall|r: int| 0 <= r < 8 implies #[trigger] c.has_output(d + 3 + r, 0) by {
        assert(cg.output_gates@[r] == d + 3 + r);
    }
}

/// A shifter at `x` has input `i_<i>` at `x + 2 * i` and output `o_<i>` right after it, then
/// `S_IN` and `S_OUT`.
proof fn lemma_shift_pins<const LEFT_SHIFT: bool>(cg: ComplexGateMembers, c: Circuit, x: int, n: nat)
    requires
        complex_fits(&cg, c.shape(), c.types()),
        cg.input_gates@ == Seq::new(n, |k: int| (x + 2 * k) as usize).push((x + 2 * n) as usize),
        cg.output_gates@ == Seq::new(n, |k: int| (x + 2 * k + 1) as usize).push((x + 2 * n + 1) as usize),
        0 <= x,
        x + 40 * n + 40 < usize::MAX,
    ensures
        forall|i: int| 0 <= i < n ==> #[trigger] paired_bit_pins(c, x, i),
        c.has_input(x + 2 * n, 0),
        c.has_output(x + 2 * n + 1, 0),
{
    assert forall|i: int| 0 <= i < n implies #[trigger] paired_bit_pins(c, x, i) by {
        assert(cg.input_gates@[i] == x + 2 * i);
        assert(cg.output_gates@[i] == x + 2 * i + 1);
    }
    assert(cg.input_gates@[n as int] == x + 2 * n);
    assert(cg.output_gates@[n as int] == x + 2 * n + 1);
}

/// An arithmetic logic unit of `num_bits` bits: three select lines `A`, `B`, `C` choose which
/// of its units (comparator, OR, AND, NOT, left shift, right shift, adder, or none) shows its
/// result on `o_<k>`; the others are cut off by gatekeepers and enables. `A_L` and `EQ` always
/// compare `a` and `b`, `Z` tells whether the result is zero and `C_OUT` carries what the
/// shifters shift out or the adder carries out.
pub struct ArithmeticLogicUnit {
    pub complex_gate: ComplexGateMembers,
    pub xor_le: VariableBitXOrLE,
    pub or: VariableBitOr,
    pub and: VariableBitAnd,
    pub not: VariableBitNot,
    pub shift_left: VariableBitShiftLeft<true>,
    pub shift_right: VariableBitShiftLeft<false>,
    pub adder: VariableBitAdder,
    pub decoder: VariableDecoder,
    pub decoder_splitters: Vec<Splitter>,
    pub enable_gates: Vec<VariableBitEnable>,
    pub enable_splitters: Vec<Splitter>,
    pub shl_controlled_buffer: ControlledBuffer,
    pub shr_controlled_buffer: ControlledBuffer,
    pub adder_controlled_buffer: ControlledBuffer,
    pub z: VariableBitZ,
    pub input_signal_gatekeepers: Vec<SignalGatekeeper>,
    pub carry_in_signal_gatekeepers: Vec<SignalGatekeeper>,
}

impl ArithmeticLogicUnit {
    /// The number of circuit gates an ALU of `n` bits uses.
    pub open spec fn spec_len(n: nat) -> nat {
        155 * n + 121
    }

    /// Where the pins and the parts of an ALU of `n` bits standing at `s` are.
    #[verifier::opaque]
    pub open spec fn positions(&self, s: int, n: nat) -> bool {
        let nn = n as int;
        let x = alu_xor_le(s, nn);
        let a = alu_adder(s, nn);
        let d = alu_decoder(s, nn);
        &&& self.complex_gate.input_gates@ == alu_input_gates(s, n)
        &&& self.complex_gate.output_gates@ == alu_output_gates(s, n)
        &&& self.complex_gate.gate_type == GateType::ArithmeticLogicUnitType
        &&& self.enable_gates@.len() == 7
        &&& self.enable_splitters@.len() == 7
        &&& self.input_signal_gatekeepers@.len() == 9
        &&& self.carry_in_signal_gatekeepers@.len() == 3
        &&& self.decoder_splitters@.len() == 6
        &&& forall|j: int|
            0 <= j < 6 ==> (#[trigger] self.decoder_splitters@[j]).gate == alu_decoder_splitter(s, nn, j)
                && self.decoder_splitters@[j].input_num == 1 && self.decoder_splitters@[j].outputs_per_input == alu_copies(j)
        &&& self.xor_le.complex_gate.input_gates@ == Seq::new(n, |k: int| (x + 14 * k) as usize) + Seq::new(
            n,
            |k: int| (x + 14 * nn + k) as usize,
        )
        &&& self.xor_le.complex_gate.output_gates@ == Seq::new(n, |k: int| (x + 14 * k + 1) as usize) + seq![
            (x + 15 * nn) as usize,
            (x + 15 * nn + 1) as usize,
        ]
        &&& self.or.pins_ok(alu_or(s, nn), n)
        &&& self.and.pins_ok(alu_and(s, nn), n)
        &&& self.not.pins_ok(alu_not(s, nn), n)
        &&& self.shift_left.positions(alu_shl(s, nn), n)
        &&& self.shift_right.positions(alu_shr(s, nn), n)
        &&& self.adder.complex_gate.input_gates@ == Seq::new(n, |k: int| (a + 20 * k) as usize) + Seq::new(
            n,
            |k: int| (a + 20 * nn + k) as usize,
        ) + seq![(a + 21 * nn) as usize]
        &&& self.adder.complex_gate.output_gates@ == Seq::new(n, |k: int| (a + 20 * k + 1) as usize).push((a + 21 * nn + 1) as usize)
        &&& self.decoder.complex_gate.input_gates@ == Seq::new(3, |j: int| (d + j) as usize)
        &&& self.decoder.complex_gate.output_gates@ == Seq::new(8, |i: int| (d + 3 + i) as usize)
        &&& self.shl_controlled_buffer.gate == alu_buffer(s, nn, 0)
        &&& self.shr_controlled_buffer.gate == alu_buffer(s, nn, 1)
        &&& self.adder_controlled_buffer.gate == alu_buffer(s, nn, 2)
        &&& self.shl_controlled_buffer.input_output_num == n
        &&& self.shr_controlled_buffer.input_output_num == n
        &&& self.adder_controlled_buffer.input_output_num == n
        &&& self.z.pins_ok(alu_z(s, nn), n)
    }

    /// The parts of this ALU stand at gates `start..start + 155 * n + 121` of `c` where
    /// `positions` says, each with its own wiring, but not yet wired to each other; its pins
    /// are tagged `a_<k>`, `b_<k>`, `A`, `B`, `C`, `C_IN`, `o_<k>`, `A_L`, `EQ`, `Z`, `C_OUT`.
    pub open spec fn laid_out(&self, c: Circuit, s: int, n: nat) -> bool {
        let nn = n as int;
        &&& self.positions(s, n)
        &&& c.len() == s + 155 * nn + 121
        &&& complex_fits(&self.complex_gate, c.shape(), c.types())
        &&& self.complex_gate.tag_names() == alu_tags(n)
        &&& self.complex_gate.tags_laid_out()
        &&& forall|i: int| 0 <= i < nn ==> #[trigger] alu_bit_pins(c, s, nn, i)
        &&& forall|j: int, i: int| 0 <= j < 7 && 0 <= i < nn ==> #[trigger] alu_enable_pins(c, s, nn, j, i)
        &&& alu_control_pins(c, s, nn)
        &&& c.has_input(s + 3 * nn, 0) && c.has_input(s + 3 * nn + 1, 0) && c.has_input(s + 3 * nn + 2, 0)
    }
}

impl ArithmeticLogicUnit {
    /// Every part of this ALU stands in `c` where `positions` says, with its pins there.
    pub open spec fn parts_fit(&self, c: Circuit, s: int, n: nat) -> bool {
        let nn = n as int;
        &&& self.positions(s, n)
        &&& c.len() == s + 155 * nn + 121
        &&& c.shape().len() == c.types().len()
        &&& forall|k: int| 0 <= k < nn ==> #[trigger] alu_pin_shapes(c, s, nn, k)
        &&& alu_control_shapes(c, s, nn)
        &&& forall|j: int|
            0 <= j < 7 ==> #[trigger] enable_at(self.enable_gates@[j], self.enable_splitters@[j], c, alu_enable(s, nn, j), n)
        &&& forall|j: int| 0 <= j < 9 ==> #[trigger] keeper_at(self.input_signal_gatekeepers@[j], c, alu_keeper(s, nn, j), n)
        &&& forall|j: int| 0 <= j < 3 ==> #[trigger] keeper_at(self.carry_in_signal_gatekeepers@[j], c, alu_carry_keeper(s, nn, j), 1)
        &&& forall|j: int| 0 <= j < 6 ==> c.shape()[#[trigger] alu_decoder_splitter(s, nn, j)] == (1nat, alu_copies(j))
        &&& complex_fits(&self.xor_le.complex_gate, c.shape(), c.types())
        &&& complex_fits(&self.or.complex_gate, c.shape(), c.types())
        &&& complex_fits(&self.and.complex_gate, c.shape(), c.types())
        &&& complex_fits(&self.not.complex_gate, c.shape(), c.types())
        &&& complex_fits(&self.shift_left.complex_gate, c.shape(), c.types())
        &&& complex_fits(&self.shift_right.complex_gate, c.shape(), c.types())
        &&& complex_fits(&self.adder.complex_gate, c.shape(), c.types())
        &&& complex_fits(&self.decoder.complex_gate, c.shape(), c.types())
        &&& complex_fits(&self.z.complex_gate, c.shape(), c.types())
        &&& forall|j: int| 0 <= j < 3 ==> c.shape()[#[trigger] alu_buffer(s, nn, j)] == ((n + 1) as nat, n)
    }

    /// Where every part fits, every wire of the ALU finds its pins.
    #[verifier::spinoff_prover]
    #[verifier::rlimit(60)]
    proof fn lemma_parts_pins(&self, c: Circuit, s: int, n: nat)
        requires
            self.parts_fit(c, s, n),
            0 <= s,
            n >= 1,
            s + 155 * n + 121 < usize::MAX,
        ensures
            forall|i: int| 0 <= i < n ==> #[trigger] alu_bit_pins(c, s, n as int, i),
            forall|j: int, i: int| 0 <= j < 7 && 0 <= i < n ==> #[trigger] alu_enable_pins(c, s, n as int, j, i),
            alu_control_pins(c, s, n as int),
    {
        reveal(ArithmeticLogicUnit::positions);
        let nn = n as int;
        assert forall|j: int, i: int| 0 <= j < 9 && 0 <= i < nn implies #[trigger] paired_bit_pins(c, alu_keeper(s, nn, j), i) by {
            let gk = self.input_signal_gatekeepers@[j];
            assert(keeper_at(gk, c, alu_keeper(s, nn, j), n));
            assert(j * (2 * nn + 2) <= 8 * (2 * nn + 2)) by (nonlinear_arith)
                requires
                    0 <= j < 9,
                    nn >= 0,
            ;
            lemma_paired_pins(gk.complex_gate, c, alu_keeper(s, nn, j), n);
        }
        assert forall|j: int| 0 <= j < 9 implies c.has_input(#[trigger] alu_keeper(s, nn, j) + 2 * nn, 0) by {
            let gk = self.input_signal_gatekeepers@[j];
            assert(keeper_at(gk, c, alu_keeper(s, nn, j), n));
            assert(j * (2 * nn + 2) <= 8 * (2 * nn + 2)) by (nonlinear_arith)
                requires
                    0 <= j < 9,
                    nn >= 0,
            ;
            lemma_paired_pins(gk.complex_gate, c, alu_keeper(s, nn, j), n);
        }
        assert forall|j: int, i: int| 0 <= j < 7 && 0 <= i < nn implies #[trigger] paired_bit_pins(c, alu_enable(s, nn, j), i) by {
            let en = self.enable_gates@[j];
            assert(enable_at(en, self.enable_splitters@[j], c, alu_enable(s, nn, j), n));
            assert(j * (2 * nn + 3) <= 6 * (2 * nn + 3)) by (nonlinear_arith)
                requires
                    0 <= j < 7,
                    nn >= 0,
            ;
            lemma_paired_pins(en.complex_gate, c, alu_enable(s, nn, j), n);
        }
        assert forall|j: int| 0 <= j < 7 implies c.has_input(#[trigger] alu_enable(s, nn, j) + 2 * nn, 0) by {
            let en = self.enable_gates@[j];
            assert(enable_at(en, self.enable_splitters@[j], c, alu_enable(s, nn, j), n));
            assert(j * (2 * nn + 3) <= 6 * (2 * nn + 3)) by (nonlinear_arith)
                requires
                    0 <= j < 7,
                    nn >= 0,
            ;
            lemma_paired_pins(en.complex_gate, c, alu_enable(s, nn, j), n);
        }
        assert forall|j: int| 0 <= j < 3 implies #[trigger] paired_bit_pins(c, alu_carry_keeper(s, nn, j), 0) && c.has_input(
            alu_carry_keeper(s, nn, j) + 2,
            0,
        ) by {
            let gk = self.carry_in_signal_gatekeepers@[j];
            assert(keeper_at(gk, c, alu_carry_keeper(s, nn, j), 1));
            lemma_paired_pins(gk.complex_gate, c, alu_carry_keeper(s, nn, j), 1);
        }
        assert forall|j: int| 0 <= j < 3 implies c.has_input(#[trigger] alu_carry_keeper(s, nn, j) + 2, 0) by {
            assert(paired_bit_pins(c, alu_carry_keeper(s, nn, j), 0));
        }
        lemma_xor_le_pins(self.xor_le.complex_gate, c, alu_xor_le(s, nn), n);
        lemma_two_input_pins(self.or.complex_gate, c, alu_or(s, nn), n);
        lemma_two_input_pins(self.and.complex_gate, c, alu_and(s, nn), n);
        lemma_not_pins(self.not, c, alu_not(s, nn), n);
        lemma_shift_pins::<true>(self.shift_left.complex_gate, c, alu_shl(s, nn), n);
        lemma_shift_pins::<false>(self.shift_right.complex_gate, c, alu_shr(s, nn), n);
        lemma_adder_pins(self.adder.complex_gate, c, alu_adder(s, nn), n);
        lemma_decoder_pins(self.decoder.complex_gate, c, alu_decoder(s, nn));
        lemma_z_pins(self.z, c, alu_z(s, nn), n);
        assert forall|i: int| 0 <= i < nn implies #[trigger] alu_bit_pins(c, s, nn, i) by {
            assert(alu_pin_shapes(c, s, nn, i));
            assert(xor_le_bit_pins(c, alu_xor_le(s, nn), nn, i));
            assert(two_input_bit_pins(c, alu_or(s, nn), nn, i));
            assert(two_input_bit_pins(c, alu_and(s, nn), nn, i));
            assert(not_bit_pins(c, alu_not(s, nn), i));
            assert(adder_bit_pins(c, alu_adder(s, nn), nn, i));
            assert(paired_bit_pins(c, alu_shl(s, nn), i));
            assert(paired_bit_pins(c, alu_shr(s, nn), i));
            assert(c.has_input(alu_z(s, nn) + i, 0));
        }
        assert forall|j: int, i: int| 0 <= j < 7 && 0 <= i < nn implies #[trigger] alu_enable_pins(c, s, nn, j, i) by {
            assert(enable_at(self.enable_gates@[j], self.enable_splitters@[j], c, alu_enable(s, nn, j), n));
            assert(paired_bit_pins(c, alu_enable(s, nn, j), i));
            assert(j * (2 * nn + 3) <= 6 * (2 * nn + 3)) by (nonlinear_arith)
                requires
                    0 <= j < 7,
                    nn >= 0,
            ;
        }
        assert forall|j: int| 0 <= j < 3 implies c.has_input(#[trigger] alu_buffer(s, nn, j), nn) && c.has_output(alu_buffer(s, nn, j), 0) by {
            assert(c.shape()[alu_buffer(s, nn, j)] == ((n + 1) as nat, n));
        }
        assert forall|j: int| 0 <= j < 6 implies c.has_input(#[trigger] alu_decoder_splitter(s, nn, j), 0) && c.has_output(
            alu_decoder_splitter(s, nn, j),
            alu_copies(j) - 1,
        ) by {
            assert(c.shape()[alu_decoder_splitter(s, nn, j)] == (1nat, alu_copies(j)));
        }
        assert(alu_control_shapes(c, s, nn));
        assert(alu_control_pins(c, s, nn));
    }
}

/// The numbers of gates that the parts of the ALU add.
proof fn lemma_part_lens(n: nat)
    ensures
        VariableBitOr::spec_shape(n).len() == 4 * n,
        VariableBitAnd::spec_shape(n).len() == 4 * n,
        VariableBitNot::spec_shape(n).len() == 3 * n,
        VariableBitZ::spec_shape(n).len() == n + 3,
        pow2(3) == 8,
        VariableDecoder::spec_shape(3).len() == 22,
{
    let b3 = seq![((1) as nat, (1) as nat), ((1) as nat, (1) as nat), ((2) as nat, (1) as nat)];
    let b1 = seq![((1) as nat, (1) as nat)];
    let n3 = seq![(1nat, 1nat), (1nat, 1nat), (1nat, 1nat)];
    lemma_repeat_len(b3, n);
    lemma_repeat_len(b1, n);
    lemma_repeat_len(n3, n);
    assert(b3.len() == 3);
    assert(b1.len() == 1);
    assert(n3.len() == 3);
    assert(repeat(b3, n).len() == n * 3);
    assert(repeat(b1, n).len() == n * 1);
    assert(VariableBitOr::spec_shape(n) == repeat(b3, n) + repeat(b1, n));
    assert(VariableBitAnd::spec_shape(n) == repeat(b3, n) + repeat(b1, n));
    lemma2_to64();
}

/// The ALU's pins keep their shapes while gates are added.
proof fn lemma_pin_shapes_kept(c1: Circuit, c2: Circuit, s: int, n: int)
    requires
        0 <= s,
        1 <= n,
        s + 3 * n + 8 <= c1.len(),
        c1.types().len() == c1.len(),
        shape_extends(c1.shape(), c2.shape()),
        types_extend(c1.types(), c2.types()),
        forall|k: int| 0 <= k < n ==> #[trigger] alu_pin_shapes(c1, s, n, k),
        alu_control_shapes(c1, s, n),
    ensures
        forall|k: int| 0 <= k < n ==> #[trigger] alu_pin_shapes(c2, s, n, k),
        alu_control_shapes(c2, s, n),
{
    assert forall|k: int| 0 <= k < n implies #[trigger] alu_pin_shapes(c2, s, n, k) by {
        assert(alu_pin_shapes(c1, s, n, k));
        assert(c2.shape()[s + 2 * k] == c1.shape()[s + 2 * k]);
        assert(c2.types()[s + 2 * k] == c1.types()[s + 2 * k]);
        assert(c2.shape()[s + 2 * k + 1] == c1.shape()[s + 2 * k + 1]);
        assert(c2.types()[s + 2 * k + 1] == c1.types()[s + 2 * k + 1]);
        assert(c2.shape()[s + 2 * n + k] == c1.shape()[s + 2 * n + k]);
        assert(c2.types()[s + 2 * n + k] == c1.types()[s + 2 * n + k]);
    }
    let x = s + 3 * n;
    assert(c2.shape()[x] == c1.shape()[x] && c2.types()[x] == c1.types()[x]);
    assert(c2.shape()[x + 1] == c1.shape()[x + 1] && c2.types()[x + 1] == c1.types()[x + 1]);
    assert(c2.shape()[x + 2] == c1.shape()[x + 2] && c2.types()[x + 2] == c1.types()[x + 2]);
    assert(c2.shape()[x + 3] == c1.shape()[x + 3] && c2.types()[x + 3] == c1.types()[x + 3]);
    assert(c2.shape()[x + 4] == c1.shape()[x + 4] && c2.types()[x + 4] == c1.types()[x + 4]);
    assert(c2.shape()[x + 5] == c1.shape()[x + 5] && c2.types()[x + 5] == c1.types()[x + 5]);
    assert(c2.shape()[x + 6] == c1.shape()[x + 6] && c2.types()[x + 6] == c1.types()[x + 6]);
    assert(c2.shape()[x + 7] == c1.shape()[x + 7] && c2.types()[x + 7] == c1.types()[x + 7]);
}

/// The ALU's own pins are simple inputs and outputs where its gate lists say.
proof fn lemma_alu_fits(cg: ComplexGateMembers, c: Circuit, s: int, n: nat)
    requires
        0 <= s,
        1 <= n,
        s + 3 * n + 8 <= c.len(),
        c.shape().len() == c.types().len(),
        cg.input_gates@ == alu_input_gates(s, n),
        cg.output_gates@ == alu_output_gates(s, n),
        s + 3 * n + 8 < usize::MAX,
        forall|k: int| 0 <= k < n ==> #[trigger] alu_pin_shapes(c, s, n as int, k),
        alu_control_shapes(c, s, n as int),
    ensures
        complex_fits(&cg, c.shape(), c.types()),
{
    let nn = n as int;
    assert forall|i: int| 0 <= i < cg.input_gates@.len() implies {
        let g = #[trigger] cg.input_gates@[i] as int;
        0 <= g < c.shape().len() && c.shape()[g].0 >= 1 && c.types()[g] == GateType::SimpleInputType
    } by {
        if i < nn {
            assert(alu_pin_shapes(c, s, nn, i));
        } else if i < 2 * nn {
            assert(alu_pin_shapes(c, s, nn, i - nn));
        }
    }
    assert forall|i: int| 0 <= i < cg.output_gates@.len() implies {
        let g = #[trigger] cg.output_gates@[i] as int;
        0 <= g < c.shape().len() && c.shape()[g].1 >= 1 && c.types()[g] == GateType::SimpleOutputType
    } by {
        if i < nn {
            assert(alu_pin_shapes(c, s, nn, i));
        }
    }
}


/// The pins, enables, gatekeepers and decoder splitters of an ALU, as they are added.
struct AluFront {
    ins: Vec<usize>,
    itags: Vec<String>,
    outs: Vec<usize>,
    otags: Vec<String>,
    ens: Vec<VariableBitEnable>,
    sps: Vec<Splitter>,
    gks: Vec<SignalGatekeeper>,
    cgks: Vec<SignalGatekeeper>,
    dsps: Vec<Splitter>,
}

/// The units, decoder, buffers and zero detector of an ALU, as they are added.
struct AluUnits {
    xor_le: VariableBitXOrLE,
    or: VariableBitOr,
    and: VariableBitAnd,
    not: VariableBitNot,
    shift_left: VariableBitShiftLeft<true>,
    shift_right: VariableBitShiftLeft<false>,
    adder: VariableBitAdder,
    decoder: VariableDecoder,
    shl_buffer: ControlledBuffer,
    shr_buffer: ControlledBuffer,
    adder_buffer: ControlledBuffer,
    z: VariableBitZ,
}

/// The front of an ALU of `n` bits standing at `s` in `c`, as `build_front` leaves it.
spec fn front_fits(f: AluFront, c: Circuit, s: int, n: nat) -> bool {
    let nn = n as int;
    &&& f.ins@ == alu_input_gates(s, n)
    &&& f.outs@ == alu_output_gates(s, n)
    &&& f.itags@.len() == 2 * n + 4
    &&& f.otags@.len() == n + 4
    &&& Seq::new(f.itags@.len(), |k: int| f.itags@[k]@) + Seq::new(f.otags@.len(), |k: int| f.otags@[k]@) == alu_tags(n)
    &&& forall|k: int| 0 <= k < nn ==> #[trigger] alu_pin_shapes(c, s, nn, k)
    &&& alu_control_shapes(c, s, nn)
    &&& f.ens@.len() == 7
    &&& f.sps@.len() == 7
    &&& forall|j: int| 0 <= j < 7 ==> #[trigger] enable_at(f.ens@[j], f.sps@[j], c, alu_enable(s, nn, j), n)
    &&& f.gks@.len() == 9
    &&& forall|j: int| 0 <= j < 9 ==> #[trigger] keeper_at(f.gks@[j], c, alu_keeper(s, nn, j), n)
    &&& f.cgks@.len() == 3
    &&& forall|j: int| 0 <= j < 3 ==> #[trigger] keeper_at(f.cgks@[j], c, alu_carry_keeper(s, nn, j), 1)
    &&& f.dsps@.len() == 6
    &&& forall|j: int|
        0 <= j < 6 ==> (#[trigger] f.dsps@[j]).gate == alu_decoder_splitter(s, nn, j) && f.dsps@[j].input_num == 1
            && f.dsps@[j].outputs_per_input == alu_copies(j)
    &&& forall|j: int| 0 <= j < 6 ==> c.shape()[#[trigger] alu_decoder_splitter(s, nn, j)] == (1nat, alu_copies(j))
}

/// What `front_fits` says stays true while gates are added.
proof fn lemma_front_kept(f: AluFront, c1: Circuit, c2: Circuit, s: int, n: nat)
    requires
        front_fits(f, c1, s, n),
        0 <= s,
        n >= 1,
        c1.len() == s + 35 * n + 65,
        c1.types().len() == c1.len(),
        c2.shape().len() == c2.types().len(),
        shape_extends(c1.shape(), c2.shape()),
        types_extend(c1.types(), c2.types()),
    ensures
        front_fits(f, c2, s, n),
{
    let nn = n as int;
    lemma_pin_shapes_kept(c1, c2, s, nn);
    assert forall|j: int| 0 <= j < 7 implies #[trigger] enable_at(f.ens@[j], f.sps@[j], c2, alu_enable(s, nn, j), n) by {
        assert(enable_at(f.ens@[j], f.sps@[j], c1, alu_enable(s, nn, j), n));
        assert(j * (2 * nn + 3) + 2 * nn + 2 < 7 * (2 * nn + 3)) by (nonlinear_arith)
            requires
                0 <= j < 7,
                nn >= 0,
        ;
        lemma_enable_kept(f.ens@[j], f.sps@[j], c1, c2, alu_enable(s, nn, j), n);
    }
    assert forall|j: int| 0 <= j < 9 implies #[trigger] keeper_at(f.gks@[j], c2, alu_keeper(s, nn, j), n) by {
        lemma_keeper_kept(f.gks@[j], c1, c2, alu_keeper(s, nn, j), n);
    }
    assert forall|j: int| 0 <= j < 3 implies #[trigger] keeper_at(f.cgks@[j], c2, alu_carry_keeper(s, nn, j), 1) by {
        lemma_keeper_kept(f.cgks@[j], c1, c2, alu_carry_keeper(s, nn, j), 1);
    }
    assert forall|j: int| 0 <= j < 6 implies c2.shape()[#[trigger] alu_decoder_splitter(s, nn, j)] == (1nat, alu_copies(j)) by {
        assert(c2.shape()[alu_decoder_splitter(s, nn, j)] == c1.shape()[alu_decoder_splitter(s, nn, j)]);
    }
}

/// Adds the pins, the enables with their splitters, the gatekeepers and the decoder
/// splitters of an ALU of `n` bits.
#[verifier::spinoff_prover]
#[verifier::rlimit(100)]
fn build_front(circuit: &mut Circuit, n: usize) -> (res: Result<AluFront, GateLogicError>)
    requires
        old(circuit).wf(),
        n >= 1,
        old(circuit).len() + 155 * n + 121 < usize::MAX,
    ensures
        final(circuit).wf(),
        final(circuit).clock_tick_number == old(circuit).clock_tick_number,
        match res {
            Ok(f) => {
                &&& pins_added(*old(circuit), *final(circuit), (35 * n + 65) as nat)
                &&& front_fits(f, *final(circuit), old(circuit).len() as int, n as nat)
            },
            Err(e) => crate::run_circuit::failure_shown(*final(circuit), e),
        },
{
    let ghost c0 = *circuit;
    let s = circuit.num_gates();
    let (ins, itags, outs, otags) = build_alu_pins(circuit, n);
    let ghost c1 = *circuit;
    let (ens, sps) = match build_enables(circuit, n) {
        Ok(parts) => parts,
        Err(e) => {
            return Err(e);
        },
    };
    let ghost c2 = *circuit;
    proof {
        lemma_added_trans(c0, c1, c2, (3 * n + 8) as nat, (7 * (2 * n + 3)) as nat);
    }
    let gks = match build_keepers(circuit, n, 9) {
        Ok(parts) => parts,
        Err(e) => {
            return Err(e);
        },
    };
    let ghost c3 = *circuit;
    proof {
        lemma_added_trans(c0, c2, c3, (17 * n + 29) as nat, (9 * (2 * n + 2)) as nat);
    }
    let cgks = match build_keepers(circuit, 1, 3) {
        Ok(parts) => parts,
        Err(e) => {
            return Err(e);
        },
    };
    let ghost c4 = *circuit;
    proof {
        lemma_added_trans(c0, c3, c4, (35 * n + 47) as nat, 12);
    }
    let dsp0 = Splitter::new(circuit, 1, 3);
    let dsp1 = Splitter::new(circuit, 1, 3);
    let dsp2 = Splitter::new(circuit, 1, 2);
    let dsp3 = Splitter::new(circuit, 1, 4);
    let dsp4 = Splitter::new(circuit, 1, 4);
    let dsp5 = Splitter::new(circuit, 1, 5);
    let ghost c5 = *circuit;
    proof {
        assert(c4.shape().len() == c4.len());
        let sh = seq![(1nat, 3nat), (1nat, 3nat), (1nat, 2nat), (1nat, 4nat), (1nat, 4nat), (1nat, 5nat)];
        let ty = seq![
            GateType::SplitterType,
            GateType::SplitterType,
            GateType::SplitterType,
            GateType::SplitterType,
            GateType::SplitterType,
            GateType::SplitterType,
        ];
        assert(c5.shape() =~= c4.shape() + sh);
        assert(c5.types() =~= c4.types() + ty);
        lemma_grown_by(c4, c5, sh, ty, 6);
        lemma_added_trans(c0, c4, c5, (35 * n + 59) as nat, 6);
    }
    let mut dsps: Vec<Splitter> = Vec::new();
    dsps.push(dsp0);
    dsps.push(dsp1);
    dsps.push(dsp2);
    dsps.push(dsp3);
    dsps.push(dsp4);
    dsps.push(dsp5);
    let f = AluFront { ins, itags, outs, otags, ens, sps, gks, cgks, dsps };
    proof {
        let st = s as int;
        let nn = n as int;
        assert(c5.types().len() == c5.len());
        lemma_added_trans(c3, c4, c5, 12, 6);
        lemma_added_trans(c2, c3, c5, (18 * nn + 18) as nat, 18);
        lemma_added_trans(c1, c2, c5, (14 * nn + 21) as nat, (18 * nn + 36) as nat);
        lemma_pin_shapes_kept(c1, c5, st, nn);
        assert forall|j: int| 0 <= j < 7 implies #[trigger] enable_at(f.ens@[j], f.sps@[j], c5, alu_enable(st, nn, j), n as nat) by {
            assert(enable_at(f.ens@[j], f.sps@[j], c2, c1.len() + j * (2 * nn + 3), n as nat));
            assert(j * (2 * nn + 3) + 2 * nn + 2 < 7 * (2 * nn + 3)) by (nonlinear_arith)
                requires
                    0 <= j < 7,
                    nn >= 0,
            ;
            lemma_enable_kept(f.ens@[j], f.sps@[j], c2, c5, c1.len() + j * (2 * nn + 3), n as nat);
        }
        assert forall|j: int| 0 <= j < 9 implies #[trigger] keeper_at(f.gks@[j], c5, alu_keeper(st, nn, j), n as nat) by {
            assert(keeper_at(f.gks@[j], c3, c2.len() + j * (2 * nn + 2), n as nat));
            lemma_keeper_kept(f.gks@[j], c3, c5, c2.len() + j * (2 * nn + 2), n as nat);
        }
        assert(c3.len() == st + 35 * nn + 47);
        assert forall|j: int| 0 <= j < 3 implies #[trigger] keeper_at(f.cgks@[j], c5, alu_carry_keeper(st, nn, j), 1) by {
            assert(c3.len() + j * (2 * 1 + 2) == alu_carry_keeper(st, nn, j));
            assert(keeper_at(f.cgks@[j], c4, c3.len() + j * (2 * 1 + 2), 1));
            lemma_keeper_kept(f.cgks@[j], c4, c5, c3.len() + j * (2 * 1 + 2), 1);
        }
        assert forall|j: int| 0 <= j < 6 implies (#[trigger] f.dsps@[j]).gate == alu_decoder_splitter(st, nn, j) && f.dsps@[j].input_num
            == 1 && f.dsps@[j].outputs_per_input == alu_copies(j) by {
        }
        assert forall|j: int| 0 <= j < 6 implies c5.shape()[#[trigger] alu_decoder_splitter(st, nn, j)] == (1nat, alu_copies(j)) by {
        }
        assert(front_fits(f, c5, st, n as nat));
    }
    Ok(f)
}

/// The units of an ALU of `n` bits standing at `s` in `c`, as `build_units` leaves them.
spec fn units_fit(u: AluUnits, c: Circuit, s: int, n: nat) -> bool {
    let nn = n as int;
    let x = alu_xor_le(s, nn);
    let a = alu_adder(s, nn);
    let d = alu_decoder(s, nn);
    &&& u.xor_le.complex_gate.input_gates@ == Seq::new(n, |k: int| (x + 14 * k) as usize) + Seq::new(
        n,
        |k: int| (x + 14 * nn + k) as usize,
    )
    &&& u.xor_le.complex_gate.output_gates@ == Seq::new(n, |k: int| (x + 14 * k + 1) as usize) + seq![
        (x + 15 * nn) as usize,
        (x + 15 * nn + 1) as usize,
    ]
    &&& u.or.pins_ok(alu_or(s, nn), n)
    &&& u.and.pins_ok(alu_and(s, nn), n)
    &&& u.not.pins_ok(alu_not(s, nn), n)
    &&& u.shift_left.positions(alu_shl(s, nn), n)
    &&& u.shift_right.positions(alu_shr(s, nn), n)
    &&& u.adder.complex_gate.input_gates@ == Seq::new(n, |k: int| (a + 20 * k) as usize) + Seq::new(
        n,
        |k: int| (a + 20 * nn + k) as usize,
    ) + seq![(a + 21 * nn) as usize]
    &&& u.adder.complex_gate.output_gates@ == Seq::new(n, |k: int| (a + 20 * k + 1) as usize).push((a + 21 * nn + 1) as usize)
    &&& u.decoder.complex_gate.input_gates@ == Seq::new(3, |j: int| (d + j) as usize)
    &&& u.decoder.complex_gate.output_gates@ == Seq::new(8, |i: int| (d + 3 + i) as usize)
    &&& u.shl_buffer.gate == alu_buffer(s, nn, 0) && u.shl_buffer.input_output_num == n
    &&& u.shr_buffer.gate == alu_buffer(s, nn, 1) && u.shr_buffer.input_output_num == n
    &&& u.adder_buffer.gate == alu_buffer(s, nn, 2) && u.adder_buffer.input_output_num == n
    &&& forall|j: int| 0 <= j < 3 ==> c.shape()[#[trigger] alu_buffer(s, nn, j)] == ((n + 1) as nat, n)
    &&& u.z.pins_ok(alu_z(s, nn), n)
    &&& complex_fits(&u.xor_le.complex_gate, c.shape(), c.types())
    &&& complex_fits(&u.or.complex_gate, c.shape(), c.types())
    &&& complex_fits(&u.and.complex_gate, c.shape(), c.types())
    &&& complex_fits(&u.not.complex_gate, c.shape(), c.types())
    &&& complex_fits(&u.shift_left.complex_gate, c.shape(), c.types())
    &&& complex_fits(&u.shift_right.complex_gate, c.shape(), c.types())
    &&& complex_fits(&u.adder.complex_gate, c.shape(), c.types())
    &&& complex_fits(&u.decoder.complex_gate, c.shape(), c.types())
    &&& complex_fits(&u.z.complex_gate, c.shape(), c.types())
}

/// The comparator and the OR, AND and NOT of the bits of an ALU of `n` bits at `s`, in `c`.
spec fn logic_units_fit(x: VariableBitXOrLE, o: VariableBitOr, a: VariableBitAnd, t: VariableBitNot, c: Circuit, s: int, n: nat) -> bool {
    let nn = n as int;
    let xs = alu_xor_le(s, nn);
    &&& x.complex_gate.input_gates@ == Seq::new(n, |k: int| (xs + 14 * k) as usize) + Seq::new(
        n,
        |k: int| (xs + 14 * nn + k) as usize,
    )
    &&& x.complex_gate.output_gates@ == Seq::new(n, |k: int| (xs + 14 * k + 1) as usize) + seq![
        (xs + 15 * nn) as usize,
        (xs + 15 * nn + 1) as usize,
    ]
    &&& o.pins_ok(alu_or(s, nn), n)
    &&& a.pins_ok(alu_and(s, nn), n)
    &&& t.pins_ok(alu_not(s, nn), n)
    &&& complex_fits(&x.complex_gate, c.shape(), c.types())
    &&& complex_fits(&o.complex_gate, c.shape(), c.types())
    &&& complex_fits(&a.complex_gate, c.shape(), c.types())
    &&& complex_fits(&t.complex_gate, c.shape(), c.types())
}

/// The shifters and the adder of an ALU of `n` bits at `s`, in `c`.
spec fn shift_add_fit(l: VariableBitShiftLeft<true>, r: VariableBitShiftLeft<false>, ad: VariableBitAdder, c: Circuit, s: int, n: nat) -> bool {
    let nn = n as int;
    let a = alu_adder(s, nn);
    &&& l.positions(alu_shl(s, nn), n)
    &&& r.positions(alu_shr(s, nn), n)
    &&& ad.complex_gate.input_gates@ == Seq::new(n, |k: int| (a + 20 * k) as usize) + Seq::new(
        n,
        |k: int| (a + 20 * nn + k) as usize,
    ) + seq![(a + 21 * nn) as usize]
    &&& ad.complex_gate.output_gates@ == Seq::new(n, |k: int| (a + 20 * k + 1) as usize).push((a + 21 * nn + 1) as usize)
    &&& complex_fits(&l.complex_gate, c.shape(), c.types())
    &&& complex_fits(&r.complex_gate, c.shape(), c.types())
    &&& complex_fits(&ad.complex_gate, c.shape(), c.types())
}

/// Adds the comparator and the OR, AND and NOT of the bits.
#[verifier::spinoff_prover]
#[verifier::rlimit(60)]
fn build_logic_units(circuit: &mut Circuit, s: usize, n: usize) -> (res: Result<
    (VariableBitXOrLE, VariableBitOr, VariableBitAnd, VariableBitNot),
    GateLogicError,
>)
    requires
        old(circuit).wf(),
        n >= 1,
        old(circuit).len() == s + 35 * n + 65,
        s + 155 * n + 122 < usize::MAX,
    ensures
        final(circuit).wf(),
        final(circuit).clock_tick_number == old(circuit).clock_tick_number,
        match res {
            Ok((x, o, a, t)) => {
                &&& pins_added(*old(circuit), *final(circuit), (26 * n + 2) as nat)
                &&& logic_units_fit(x, o, a, t, *final(circuit), s as int, n as nat)
            },
            Err(e) => crate::run_circuit::failure_shown(*final(circuit), e),
        },
{
    let ghost c5 = *circuit;
    proof {
        lemma_part_lens(n as nat);
    }
    let xor_le = match VariableBitXOrLE::new(circuit, n) {
        Ok(part) => part,
        Err(e) => {
            return Err(e);
        },
    };
    let ghost c6 = *circuit;
    let or = match VariableBitOr::new(circuit, n) {
        Ok(part) => part,
        Err(e) => {
            return Err(e);
        },
    };
    let ghost c7 = *circuit;
    proof {
        lemma_grown_by(c6, c7, VariableBitOr::spec_shape(n as nat), VariableBitOr::spec_types(n as nat), (4 * n) as nat);
        lemma_added_trans(c5, c6, c7, (15 * n + 2) as nat, (4 * n) as nat);
    }
    let and = match VariableBitAnd::new(circuit, n) {
        Ok(part) => part,
        Err(e) => {
            return Err(e);
        },
    };
    let ghost c8 = *circuit;
    proof {
        lemma_grown_by(c7, c8, VariableBitAnd::spec_shape(n as nat), VariableBitAnd::spec_types(n as nat), (4 * n) as nat);
        lemma_added_trans(c5, c7, c8, (19 * n + 2) as nat, (4 * n) as nat);
    }
    let not = match VariableBitNot::new(circuit, n) {
        Ok(part) => part,
        Err(e) => {
            return Err(e);
        },
    };
    let ghost c9 = *circuit;
    proof {
        lemma_grown_by(c8, c9, VariableBitNot::spec_shape(n as nat), VariableBitNot::spec_types(n as nat), (3 * n) as nat);
        lemma_added_trans(c5, c8, c9, (23 * n + 2) as nat, (3 * n) as nat);
        assert(c9.types().len() == c9.len());
        lemma_added_trans(c7, c8, c9, (4 * n) as nat, (3 * n) as nat);
        lemma_added_trans(c6, c7, c9, (4 * n) as nat, (7 * n) as nat);
        lemma_complex_fits_extends(&xor_le.complex_gate, c6.shape(), c6.types(), c9.shape(), c9.types());
        lemma_complex_fits_extends(&or.complex_gate, c7.shape(), c7.types(), c9.shape(), c9.types());
        lemma_complex_fits_extends(&and.complex_gate, c8.shape(), c8.types(), c9.shape(), c9.types());
    }
    Ok((xor_le, or, and, not))
}

/// Adds the two shifters and the adder.
#[verifier::spinoff_prover]
#[verifier::rlimit(60)]
fn build_shift_add(circuit: &mut Circuit, s: usize, n: usize) -> (res: Result<
    (VariableBitShiftLeft<true>, VariableBitShiftLeft<false>, VariableBitAdder),
    GateLogicError,
>)
    requires
        old(circuit).wf(),
        n >= 1,
        old(circuit).len() == s + 61 * n + 67,
        s + 155 * n + 122 < usize::MAX,
    ensures
        final(circuit).wf(),
        final(circuit).clock_tick_number == old(circuit).clock_tick_number,
        match res {
            Ok((l, r, a)) => {
                &&& pins_added(*old(circuit), *final(circuit), (93 * n + 26) as nat)
                &&& shift_add_fit(l, r, a, *final(circuit), s as int, n as nat)
            },
            Err(e) => crate::run_circuit::failure_shown(*final(circuit), e),
        },
{
    let ghost c9 = *circuit;
    let shift_left = match VariableBitShiftLeft::<true>::new(circuit, n) {
        Ok(part) => part,
        Err(e) => {
            return Err(e);
        },
    };
    let ghost c10 = *circuit;
    let shift_right = match VariableBitShiftLeft::<false>::new(circuit, n) {
        Ok(part) => part,
        Err(e) => {
            return Err(e);
        },
    };
    let ghost c11 = *circuit;
    proof {
        assert(pins_added(c9, c10, (36 * n + 12) as nat));
        assert(pins_added(c10, c11, (36 * n + 12) as nat));
        lemma_added_trans(c9, c10, c11, (36 * n + 12) as nat, (36 * n + 12) as nat);
    }
    let adder = match VariableBitAdder::new(circuit, n) {
        Ok(part) => part,
        Err(e) => {
            return Err(e);
        },
    };
    let ghost c12 = *circuit;
    proof {
        assert(pins_added(c11, c12, (21 * n + 2) as nat));
        lemma_added_trans(c9, c11, c12, (72 * n + 24) as nat, (21 * n + 2) as nat);
        assert(c12.types().len() == c12.len());
        lemma_added_trans(c10, c11, c12, (36 * n + 12) as nat, (21 * n + 2) as nat);
        lemma_complex_fits_extends(&shift_left.complex_gate, c10.shape(), c10.types(), c12.shape(), c12.types());
        lemma_complex_fits_extends(&shift_right.complex_gate, c11.shape(), c11.types(), c12.shape(), c12.types());
    }
    Ok((shift_left, shift_right, adder))
}

/// Adds the units, the decoder, the three controlled buffers and the zero detector of an ALU
/// of `n` bits whose front stands at `s`.
#[verifier::spinoff_prover]
#[verifier::rlimit(100)]
fn build_units(circuit: &mut Circuit, s: usize, n: usize) -> (res: Result<AluUnits, GateLogicError>)
    requires
        old(circuit).wf(),
        n >= 1,
        old(circuit).len() == s + 35 * n + 65,
        s + 155 * n + 122 < usize::MAX,
    ensures
        final(circuit).wf(),
        final(circuit).clock_tick_number == old(circuit).clock_tick_number,
        match res {
            Ok(u) => {
                &&& pins_added(*old(circuit), *final(circuit), (120 * n + 56) as nat)
                &&& units_fit(u, *final(circuit), s as int, n as nat)
            },
            Err(e) => crate::run_circuit::failure_shown(*final(circuit), e),
        },
{
    let ghost c5 = *circuit;
    proof {
        lemma_part_lens(n as nat);
    }
    let (xor_le, or, and, not) = match build_logic_units(circuit, s, n) {
        Ok(parts) => parts,
        Err(e) => {
            return Err(e);
        },
    };
    let ghost c9 = *circuit;
    let (shift_left, shift_right, adder) = match build_shift_add(circuit, s, n) {
        Ok(parts) => parts,
        Err(e) => {
            return Err(e);
        },
    };
    let ghost c12 = *circuit;
    proof {
        lemma_added_trans(c5, c9, c12, (26 * n + 2) as nat, (93 * n + 26) as nat);
    }
    let decoder = match VariableDecoder::new(circuit, 3) {
        Ok(part) => part,
        Err(e) => {
            return Err(e);
        },
    };
    let ghost c13 = *circuit;
    proof {
        lemma_grown_by(c12, c13, VariableDecoder::spec_shape(3), VariableDecoder::spec_types(3), 22);
    }
    let shl_buffer = ControlledBuffer::new(circuit, n);
    let shr_buffer = ControlledBuffer::new(circuit, n);
    let adder_buffer = ControlledBuffer::new(circuit, n);
    let ghost c14 = *circuit;
    proof {
        assert(c13.shape().len() == c13.len());
        let sh = seq![((n + 1) as nat, n as nat), ((n + 1) as nat, n as nat), ((n + 1) as nat, n as nat)];
        let ty = seq![GateType::ControlledBufferType, GateType::ControlledBufferType, GateType::ControlledBufferType];
        assert(c14.shape() =~= c13.shape() + sh);
        assert(c14.types() =~= c13.types() + ty);
        lemma_grown_by(c13, c14, sh, ty, 3);
        lemma_added_trans(c12, c13, c14, 22, 3);
    }
    let z = match VariableBitZ::new(circuit, n) {
        Ok(part) => part,
        Err(e) => {
            return Err(e);
        },
    };
    let ghost c15 = *circuit;
    let u = AluUnits { xor_le, or, and, not, shift_left, shift_right, adder, decoder, shl_buffer, shr_buffer, adder_buffer, z };
    proof {
        let st = s as int;
        let nn = n as int;
        let c = c15;
        lemma_grown_by(c14, c, VariableBitZ::spec_shape(n as nat), VariableBitZ::spec_types(n as nat), (n + 3) as nat);
        lemma_added_trans(c12, c14, c, 25, (nn + 3) as nat);
        lemma_added_trans(c9, c12, c, (93 * nn + 26) as nat, (nn + 28) as nat);
        lemma_added_trans(c5, c9, c, (26 * nn + 2) as nat, (94 * nn + 54) as nat);
        lemma_added_trans(c13, c14, c, 3, (nn + 3) as nat);
        assert(c.types().len() == c.len());
        lemma_complex_fits_extends(&u.xor_le.complex_gate, c9.shape(), c9.types(), c.shape(), c.types());
        lemma_complex_fits_extends(&u.or.complex_gate, c9.shape(), c9.types(), c.shape(), c.types());
        lemma_complex_fits_extends(&u.and.complex_gate, c9.shape(), c9.types(), c.shape(), c.types());
        lemma_complex_fits_extends(&u.not.complex_gate, c9.shape(), c9.types(), c.shape(), c.types());
        lemma_complex_fits_extends(&u.shift_left.complex_gate, c12.shape(), c12.types(), c.shape(), c.types());
        lemma_complex_fits_extends(&u.shift_right.complex_gate, c12.shape(), c12.types(), c.shape(), c.types());
        lemma_complex_fits_extends(&u.adder.complex_gate, c12.shape(), c12.types(), c.shape(), c.types());
        lemma_complex_fits_extends(&u.decoder.complex_gate, c13.shape(), c13.types(), c.shape(), c.types());
        assert forall|j: int| 0 <= j < 3 implies c.shape()[#[trigger] alu_buffer(st, nn, j)] == ((n + 1) as nat, n as nat) by {
            assert(c.shape()[c13.len() + j] == c14.shape()[c13.len() + j]);
        }
        assert(units_fit(u, c, st, n as nat));
    }
    Ok(u)
}
impl ArithmeticLogicUnit {
    /// Adds the parts of an ALU of `num_bits` bits in order, each primed as it is added,
    /// without wiring them to each other.
    #[verifier::spinoff_prover]
    #[verifier::rlimit(60)]
    fn assemble(circuit: &mut Circuit, num_bits: usize) -> (res: Result<Self, GateLogicError>)
        requires
            old(circuit).wf(),
            num_bits >= 1,
            old(circuit).len() + 155 * num_bits + 122 < usize::MAX,
        ensures
            final(circuit).wf(),
            final(circuit).clock_tick_number == old(circuit).clock_tick_number,
            match res {
                Ok(gate) => {
                    &&& pins_added(*old(circuit), *final(circuit), Self::spec_len(num_bits as nat))
                    &&& gate.laid_out(*final(circuit), old(circuit).len() as int, num_bits as nat)
                },
                Err(e) => crate::run_circuit::failure_shown(*final(circuit), e),
            },
    {
        let ghost c0 = *circuit;
        let s = circuit.num_gates();
        let n = num_bits;
        let f = match build_front(circuit, n) {
            Ok(f) => f,
            Err(e) => {
                return Err(e);
            },
        };
        let ghost c5 = *circuit;
        let u = match build_units(circuit, s, n) {
            Ok(u) => u,
            Err(e) => {
                return Err(e);
            },
        };
        let ghost c15 = *circuit;
        let ghost fs = f;
        let AluFront { ins, itags, outs, otags, ens, sps, gks, cgks, dsps } = f;
        let mut complex_gate = ComplexGateMembers::from_tags(circuit, GateType::ArithmeticLogicUnitType, ins, outs, itags, otags);
        complex_gate.number_child_gates = 155 * n + 121;
        let AluUnits { xor_le, or, and, not, shift_left, shift_right, adder, decoder, shl_buffer, shr_buffer, adder_buffer, z } = u;
        let gate = ArithmeticLogicUnit {
            complex_gate,
            xor_le,
            or,
            and,
            not,
            shift_left,
            shift_right,
            adder,
            decoder,
            decoder_splitters: dsps,
            enable_gates: ens,
            enable_splitters: sps,
            shl_controlled_buffer: shl_buffer,
            shr_controlled_buffer: shr_buffer,
            adder_controlled_buffer: adder_buffer,
            z,
            input_signal_gatekeepers: gks,
            carry_in_signal_gatekeepers: cgks,
        };
        proof {
            let st = s as int;
            let nn = n as int;
            assert(c15.shape().len() == c15.len());
            assert(c15.types().len() == c15.len());
            assert(c5.types().len() == c5.len());
            lemma_front_kept(fs, c5, c15, st, n as nat);
            lemma_added_trans(c0, c5, c15, (35 * n + 65) as nat, (120 * n + 56) as nat);
            lemma_alu_fits(gate.complex_gate, c15, st, n as nat);
            reveal(ArithmeticLogicUnit::positions);
            assert(gate.positions(st, n as nat));
            assert(alu_control_shapes(c15, st, nn));
            assert(gate.parts_fit(c15, st, n as nat));
            gate.lemma_parts_pins(c15, st, n as nat);
            assert(gate.laid_out(c15, st, n as nat));
        }
        Ok(gate)
    }
}

/// The wires of bit `i` of an ALU of `n` bits standing at `s` that carry `a_<i>` into the
/// units: straight into the comparator, through a gatekeeper into every other unit.
pub open spec fn alu_a_wires(s: int, n: int, i: int) -> Seq<(usize, usize, usize, usize)> {
    let a = s + 2 * i;
    seq![
        wire(a, 0, alu_xor_le(s, n) + 14 * i, 0),
        wire(a, 1, alu_keeper(s, n, 0) + 2 * i, 0),
        wire(alu_keeper(s, n, 0) + 2 * i + 1, 0, alu_or(s, n) + 3 * i, 0),
        wire(a, 2, alu_keeper(s, n, 1) + 2 * i, 0),
        wire(alu_keeper(s, n, 1) + 2 * i + 1, 0, alu_and(s, n) + 3 * i, 0),
        wire(a, 3, alu_keeper(s, n, 2) + 2 * i, 0),
        wire(alu_keeper(s, n, 2) + 2 * i + 1, 0, alu_not(s, n) + 3 * i, 0),
        wire(a, 4, alu_keeper(s, n, 3) + 2 * i, 0),
        wire(alu_keeper(s, n, 3) + 2 * i + 1, 0, alu_shl(s, n) + 2 * i, 0),
        wire(a, 5, alu_keeper(s, n, 4) + 2 * i, 0),
        wire(alu_keeper(s, n, 4) + 2 * i + 1, 0, alu_shr(s, n) + 2 * i, 0),
        wire(a, 6, alu_keeper(s, n, 5) + 2 * i, 0),
        wire(alu_keeper(s, n, 5) + 2 * i + 1, 0, alu_adder(s, n) + 20 * i, 0),
    ]
}

/// The wires of bit `i` that carry `b_<i>` into the units that take it.
pub open spec fn alu_b_wires(s: int, n: int, i: int) -> Seq<(usize, usize, usize, usize)> {
    let b = s + 2 * n + i;
    seq![
        wire(b, 0, alu_xor_le(s, n) + 14 * n + i, 0),
        wire(b, 1, alu_keeper(s, n, 6) + 2 * i, 0),
        wire(alu_keeper(s, n, 6) + 2 * i + 1, 0, alu_or(s, n) + 3 * n + i, 0),
        wire(b, 2, alu_keeper(s, n, 7) + 2 * i, 0),
        wire(alu_keeper(s, n, 7) + 2 * i + 1, 0, alu_and(s, n) + 3 * n + i, 0),
        wire(b, 3, alu_keeper(s, n, 8) + 2 * i, 0),
        wire(alu_keeper(s, n, 8) + 2 * i + 1, 0, alu_adder(s, n) + 20 * n + i, 0),
    ]
}

/// The wires that carry bit `i` of every unit into its enable.
pub open spec fn alu_unit_wires(s: int, n: int, i: int) -> Seq<(usize, usize, usize, usize)> {
    seq![
        wire(alu_xor_le(s, n) + 14 * i + 1, 0, alu_enable(s, n, 0) + 2 * i, 0),
        wire(alu_or(s, n) + 3 * i + 1, 0, alu_enable(s, n, 1) + 2 * i, 0),
        wire(alu_and(s, n) + 3 * i + 1, 0, alu_enable(s, n, 2) + 2 * i, 0),
        wire(alu_not(s, n) + 3 * i + 1, 0, alu_enable(s, n, 3) + 2 * i, 0),
        wire(alu_shl(s, n) + 2 * i + 1, 0, alu_enable(s, n, 4) + 2 * i, 0),
        wire(alu_shr(s, n) + 2 * i + 1, 0, alu_enable(s, n, 5) + 2 * i, 0),
        wire(alu_adder(s, n) + 20 * i + 1, 0, alu_enable(s, n, 6) + 2 * i, 0),
    ]
}

/// The wires of enable `j` for bit `i`: into its splitter, whose copies go to the zero
/// detector and to `o_<i>`.
pub open spec fn alu_enable_wires(s: int, n: int, j: int, i: int) -> Seq<(usize, usize, usize, usize)> {
    let sp = alu_enable_splitter(s, n, j);
    seq![
        wire(alu_enable(s, n, j) + 2 * i + 1, 0, sp, i),
        wire(sp, 2 * i, alu_z(s, n) + i, 0),
        wire(sp, 2 * i + 1, s + 2 * i + 1, 0),
    ]
}

/// All the wires of bit `i`.
pub open spec fn alu_bit_wires(s: int, n: int, i: int) -> Seq<(usize, usize, usize, usize)> {
    alu_a_wires(s, n, i) + alu_b_wires(s, n, i) + alu_unit_wires(s, n, i) + alu_enable_wires(s, n, 0, i) + alu_enable_wires(s, n, 1, i) + alu_enable_wires(s, n, 2, i)
        + alu_enable_wires(s, n, 3, i) + alu_enable_wires(s, n, 4, i) + alu_enable_wires(s, n, 5, i) + alu_enable_wires(
        s,
        n,
        6,
        i,
    )
}

/// The wires of the first `k` bits, bit by bit.
pub open spec fn alu_bits_wires(s: int, n: int, k: int) -> Seq<(usize, usize, usize, usize)>
    decreases k,
{
    if k <= 0 {
        Seq::empty()
    } else {
        alu_bits_wires(s, n, k - 1) + alu_bit_wires(s, n, k - 1)
    }
}

/// The wires of `C_IN` through its gatekeepers into the shifters and the adder (each wire from
/// `C_IN` replaces the one before it), of `L`, `E` and `O` to `A_L`, `EQ` and `Z`, and of what the
/// shifters shift out and the adder carries out through the buffers to `C_OUT`.
pub open spec fn alu_carry_wires(s: int, n: int) -> Seq<(usize, usize, usize, usize)> {
    let x = alu_xor_le(s, n);
    let d = alu_decoder(s, n);
    let cin = s + 3 * n + 3;
    let cout = s + 3 * n + 7;
    seq![
        wire(cin, 0, alu_carry_keeper(s, n, 0), 0),
        wire(alu_carry_keeper(s, n, 0) + 1, 0, alu_shl(s, n) + 2 * n, 0),
        wire(cin, 0, alu_carry_keeper(s, n, 1), 0),
        wire(alu_carry_keeper(s, n, 1) + 1, 0, alu_shr(s, n) + 2 * n, 0),
        wire(cin, 0, alu_carry_keeper(s, n, 2), 0),
        wire(alu_carry_keeper(s, n, 2) + 1, 0, alu_adder(s, n) + 21 * n, 0),
        wire(x + 15 * n, 0, s + 3 * n + 4, 0),
        wire(x + 15 * n + 1, 0, s + 3 * n + 5, 0),
        wire(alu_z(s, n) + n, 0, s + 3 * n + 6, 0),
        wire(alu_shl(s, n) + 2 * n + 1, 0, alu_buffer(s, n, 0), 0),
        wire(alu_shr(s, n) + 2 * n + 1, 0, alu_buffer(s, n, 1), 0),
        wire(alu_adder(s, n) + 21 * n + 1, 0, alu_buffer(s, n, 2), 0),
        wire(alu_buffer(s, n, 0), 0, cout, 0),
        wire(alu_buffer(s, n, 1), 0, cout, 0),
        wire(alu_buffer(s, n, 2), 0, cout, 0),
    ]
}

/// The wires of `A`, `B`, `C` into the decoder, and of the decoder's outputs into their
/// splitters and into the comparator's enable.
pub open spec fn alu_select_wires(s: int, n: int) -> Seq<(usize, usize, usize, usize)> {
    let x = alu_xor_le(s, n);
    let d = alu_decoder(s, n);
    let cin = s + 3 * n + 3;
    let cout = s + 3 * n + 7;
    seq![
        wire(s + 3 * n, 0, d + 2, 0),
        wire(s + 3 * n + 1, 0, d + 1, 0),
        wire(s + 3 * n + 2, 0, d, 0),
        wire(d + 3 + 5, 0, alu_decoder_splitter(s, n, 0), 0),
        wire(d + 3 + 4, 0, alu_decoder_splitter(s, n, 1), 0),
        wire(d + 3 + 3, 0, alu_decoder_splitter(s, n, 2), 0),
        wire(d + 3 + 2, 0, alu_decoder_splitter(s, n, 3), 0),
        wire(d + 3 + 1, 0, alu_decoder_splitter(s, n, 4), 0),
        wire(d + 3 + 0, 0, alu_decoder_splitter(s, n, 5), 0),
        wire(d + 3 + 6, 0, alu_enable(s, n, 0) + 2 * n, 0),
    ]
}

/// The wires of the decoder splitters to the enables, gatekeepers and buffers of the units
/// they select.
pub open spec fn alu_splitter_wires(s: int, n: int) -> Seq<(usize, usize, usize, usize)> {
    let x = alu_xor_le(s, n);
    let d = alu_decoder(s, n);
    let cin = s + 3 * n + 3;
    let cout = s + 3 * n + 7;
    seq![
        wire(alu_decoder_splitter(s, n, 0), 0, alu_enable(s, n, 1) + 2 * n, 0),
        wire(alu_decoder_splitter(s, n, 0), 1, alu_keeper(s, n, 0) + 2 * n, 0),
        wire(alu_decoder_splitter(s, n, 0), 2, alu_keeper(s, n, 6) + 2 * n, 0),
        wire(alu_decoder_splitter(s, n, 1), 0, alu_enable(s, n, 2) + 2 * n, 0),
        wire(alu_decoder_splitter(s, n, 1), 1, alu_keeper(s, n, 1) + 2 * n, 0),
        wire(alu_decoder_splitter(s, n, 1), 2, alu_keeper(s, n, 7) + 2 * n, 0),
        wire(alu_decoder_splitter(s, n, 2), 0, alu_enable(s, n, 3) + 2 * n, 0),
        wire(alu_decoder_splitter(s, n, 2), 1, alu_keeper(s, n, 2) + 2 * n, 0),
        wire(alu_decoder_splitter(s, n, 3), 0, alu_enable(s, n, 4) + 2 * n, 0),
        wire(alu_decoder_splitter(s, n, 3), 1, alu_keeper(s, n, 3) + 2 * n, 0),
        wire(alu_decoder_splitter(s, n, 3), 2, alu_carry_keeper(s, n, 0) + 2, 0),
        wire(alu_decoder_splitter(s, n, 3), 3, alu_buffer(s, n, 0), n),
        wire(alu_decoder_splitter(s, n, 4), 0, alu_enable(s, n, 5) + 2 * n, 0),
        wire(alu_decoder_splitter(s, n, 4), 1, alu_keeper(s, n, 4) + 2 * n, 0),
        wire(alu_decoder_splitter(s, n, 4), 2, alu_carry_keeper(s, n, 1) + 2, 0),
        wire(alu_decoder_splitter(s, n, 4), 3, alu_buffer(s, n, 1), n),
        wire(alu_decoder_splitter(s, n, 5), 0, alu_enable(s, n, 6) + 2 * n, 0),
        wire(alu_decoder_splitter(s, n, 5), 1, alu_keeper(s, n, 5) + 2 * n, 0),
        wire(alu_decoder_splitter(s, n, 5), 2, alu_keeper(s, n, 8) + 2 * n, 0),
        wire(alu_decoder_splitter(s, n, 5), 3, alu_carry_keeper(s, n, 2) + 2, 0),
        wire(alu_decoder_splitter(s, n, 5), 4, alu_buffer(s, n, 2), n),
    ]
}

/// The control wires of an ALU of `n` bits standing at `s`.
pub open spec fn alu_control_wires(s: int, n: int) -> Seq<(usize, usize, usize, usize)> {
    alu_carry_wires(s, n) + alu_select_wires(s, n) + alu_splitter_wires(s, n)
}

/// Every wire of an ALU of `n` bits standing at `s`, in the order they are connected.
pub open spec fn alu_wires(s: int, n: int) -> Seq<(usize, usize, usize, usize)> {
    alu_bits_wires(s, n, n) + alu_control_wires(s, n)
}

/// Wire `w` leaves from an output of a gate from `s` on in `c` and arrives at an input.
pub open spec fn alu_wire_fits(c: Circuit, s: int, w: (usize, usize, usize, usize)) -> bool {
    &&& w.0 >= s
    &&& c.has_output(w.0 as int, w.1 as int)
    &&& c.has_input(w.2 as int, w.3 as int)
}

/// Appends wire `w` to the list.
fn push_wire(wires: &mut Vec<(usize, usize, usize, usize)>, w: (usize, usize, usize, usize), Ghost(c): Ghost<Circuit>, s: usize)
    requires
        alu_wire_fits(c, s as int, w),
        forall|m: int| 0 <= m < old(wires)@.len() ==> #[trigger] alu_wire_fits(c, s as int, old(wires)@[m]),
    ensures
        final(wires)@ == old(wires)@.push(w),
        forall|m: int| 0 <= m < final(wires)@.len() ==> #[trigger] alu_wire_fits(c, s as int, final(wires)@[m]),
{
    wires.push(w);
    proof {
        assert forall|m: int| 0 <= m < wires@.len() implies #[trigger] alu_wire_fits(c, s as int, wires@[m]) by {
            if m < old(wires)@.len() {
                assert(wires@[m] == old(wires)@[m]);
            }
        }
    }
}

/// Appends the wires of bit `i` that carry `a_<i>` into the units.
#[verifier::spinoff_prover]
#[verifier::rlimit(60)]
fn push_a_wires(wires: &mut Vec<(usize, usize, usize, usize)>, s: usize, n: usize, i: usize, Ghost(c): Ghost<Circuit>)
    requires
        n >= 1,
        i < n,
        s + 155 * n + 122 < usize::MAX,
        alu_bit_pins(c, s as int, n as int, i as int),
        forall|j: int| 0 <= j < 7 ==> #[trigger] alu_enable_pins(c, s as int, n as int, j, i as int),
        forall|m: int| 0 <= m < old(wires)@.len() ==> #[trigger] alu_wire_fits(c, s as int, old(wires)@[m]),
    ensures
        final(wires)@ == old(wires)@ + alu_a_wires(s as int, n as int, i as int),
        forall|m: int| 0 <= m < final(wires)@.len() ==> #[trigger] alu_wire_fits(c, s as int, final(wires)@[m]),
{
    let a = s + 2 * i;
    let b = s + 2 * n + i;
    let x = s + 35 * n + 65;
    let o = s + 50 * n + 67;
    let an = s + 54 * n + 67;
    let t = s + 58 * n + 67;
    let l = s + 61 * n + 67;
    let r = s + 97 * n + 79;
    let ad = s + 133 * n + 91;
    let k_step = 2 * n + 2;
    let k0 = s + 17 * n + 29 + 2 * i;
    let e_step = 2 * n + 3;
    let e0 = s + 3 * n + 8 + 2 * i;
    proof {
        assert(alu_enable_pins(c, s as int, n as int, 0, i as int));
        assert(alu_enable_pins(c, s as int, n as int, 1, i as int));
        assert(alu_enable_pins(c, s as int, n as int, 2, i as int));
        assert(alu_enable_pins(c, s as int, n as int, 3, i as int));
        assert(alu_enable_pins(c, s as int, n as int, 4, i as int));
        assert(alu_enable_pins(c, s as int, n as int, 5, i as int));
        assert(alu_enable_pins(c, s as int, n as int, 6, i as int));
    }
    push_wire(wires, (a, 0, x + 14 * i, 0), Ghost(c), s);
    push_wire(wires, (a, 1, k0, 0), Ghost(c), s);
    push_wire(wires, (k0 + 1, 0, o + 3 * i, 0), Ghost(c), s);
    push_wire(wires, (a, 2, k0 + k_step, 0), Ghost(c), s);
    push_wire(wires, (k0 + k_step + 1, 0, an + 3 * i, 0), Ghost(c), s);
    push_wire(wires, (a, 3, k0 + 2 * k_step, 0), Ghost(c), s);
    push_wire(wires, (k0 + 2 * k_step + 1, 0, t + 3 * i, 0), Ghost(c), s);
    push_wire(wires, (a, 4, k0 + 3 * k_step, 0), Ghost(c), s);
    push_wire(wires, (k0 + 3 * k_step + 1, 0, l + 2 * i, 0), Ghost(c), s);
    push_wire(wires, (a, 5, k0 + 4 * k_step, 0), Ghost(c), s);
    push_wire(wires, (k0 + 4 * k_step + 1, 0, r + 2 * i, 0), Ghost(c), s);
    push_wire(wires, (a, 6, k0 + 5 * k_step, 0), Ghost(c), s);
    push_wire(wires, (k0 + 5 * k_step + 1, 0, ad + 20 * i, 0), Ghost(c), s);
    proof {
        assert(wires@ =~= old(wires)@ + alu_a_wires(s as int, n as int, i as int));
    }
}

/// Appends the wires of bit `i` that carry `b_<i>` into the units.
#[verifier::spinoff_prover]
#[verifier::rlimit(60)]
fn push_b_wires(wires: &mut Vec<(usize, usize, usize, usize)>, s: usize, n: usize, i: usize, Ghost(c): Ghost<Circuit>)
    requires
        n >= 1,
        i < n,
        s + 155 * n + 122 < usize::MAX,
        alu_bit_pins(c, s as int, n as int, i as int),
        forall|j: int| 0 <= j < 7 ==> #[trigger] alu_enable_pins(c, s as int, n as int, j, i as int),
        forall|m: int| 0 <= m < old(wires)@.len() ==> #[trigger] alu_wire_fits(c, s as int, old(wires)@[m]),
    ensures
        final(wires)@ == old(wires)@ + alu_b_wires(s as int, n as int, i as int),
        forall|m: int| 0 <= m < final(wires)@.len() ==> #[trigger] alu_wire_fits(c, s as int, final(wires)@[m]),
{
    let a = s + 2 * i;
    let b = s + 2 * n + i;
    let x = s + 35 * n + 65;
    let o = s + 50 * n + 67;
    let an = s + 54 * n + 67;
    let t = s + 58 * n + 67;
    let l = s + 61 * n + 67;
    let r = s + 97 * n + 79;
    let ad = s + 133 * n + 91;
    let k_step = 2 * n + 2;
    let k0 = s + 17 * n + 29 + 2 * i;
    let e_step = 2 * n + 3;
    let e0 = s + 3 * n + 8 + 2 * i;
    proof {
        assert(alu_enable_pins(c, s as int, n as int, 0, i as int));
        assert(alu_enable_pins(c, s as int, n as int, 1, i as int));
        assert(alu_enable_pins(c, s as int, n as int, 2, i as int));
        assert(alu_enable_pins(c, s as int, n as int, 3, i as int));
        assert(alu_enable_pins(c, s as int, n as int, 4, i as int));
        assert(alu_enable_pins(c, s as int, n as int, 5, i as int));
        assert(alu_enable_pins(c, s as int, n as int, 6, i as int));
    }
    push_wire(wires, (b, 0, x + 14 * n + i, 0), Ghost(c), s);
    push_wire(wires, (b, 1, k0 + 6 * k_step, 0), Ghost(c), s);
    push_wire(wires, (k0 + 6 * k_step + 1, 0, o + 3 * n + i, 0), Ghost(c), s);
    push_wire(wires, (b, 2, k0 + 7 * k_step, 0), Ghost(c), s);
    push_wire(wires, (k0 + 7 * k_step + 1, 0, an + 3 * n + i, 0), Ghost(c), s);
    push_wire(wires, (b, 3, k0 + 8 * k_step, 0), Ghost(c), s);
    push_wire(wires, (k0 + 8 * k_step + 1, 0, ad + 20 * n + i, 0), Ghost(c), s);
    proof {
        assert(wires@ =~= old(wires)@ + alu_b_wires(s as int, n as int, i as int));
    }
}

/// Appends the wires that carry bit `i` of every unit into its enable.
#[verifier::spinoff_prover]
#[verifier::rlimit(60)]
fn push_unit_wires(wires: &mut Vec<(usize, usize, usize, usize)>, s: usize, n: usize, i: usize, Ghost(c): Ghost<Circuit>)
    requires
        n >= 1,
        i < n,
        s + 155 * n + 122 < usize::MAX,
        alu_bit_pins(c, s as int, n as int, i as int),
        forall|j: int| 0 <= j < 7 ==> #[trigger] alu_enable_pins(c, s as int, n as int, j, i as int),
        forall|m: int| 0 <= m < old(wires)@.len() ==> #[trigger] alu_wire_fits(c, s as int, old(wires)@[m]),
    ensures
        final(wires)@ == old(wires)@ + alu_unit_wires(s as int, n as int, i as int),
        forall|m: int| 0 <= m < final(wires)@.len() ==> #[trigger] alu_wire_fits(c, s as int, final(wires)@[m]),
{
    let a = s + 2 * i;
    let b = s + 2 * n + i;
    let x = s + 35 * n + 65;
    let o = s + 50 * n + 67;
    let an = s + 54 * n + 67;
    let t = s + 58 * n + 67;
    let l = s + 61 * n + 67;
    let r = s + 97 * n + 79;
    let ad = s + 133 * n + 91;
    let k_step = 2 * n + 2;
    let k0 = s + 17 * n + 29 + 2 * i;
    let e_step = 2 * n + 3;
    let e0 = s + 3 * n + 8 + 2 * i;
    proof {
        assert(alu_enable_pins(c, s as int, n as int, 0, i as int));
        assert(alu_enable_pins(c, s as int, n as int, 1, i as int));
        assert(alu_enable_pins(c, s as int, n as int, 2, i as int));
        assert(alu_enable_pins(c, s as int, n as int, 3, i as int));
        assert(alu_enable_pins(c, s as int, n as int, 4, i as int));
        assert(alu_enable_pins(c, s as int, n as int, 5, i as int));
        assert(alu_enable_pins(c, s as int, n as int, 6, i as int));
    }
    push_wire(wires, (x + 14 * i + 1, 0, e0, 0), Ghost(c), s);
    push_wire(wires, (o + 3 * i + 1, 0, e0 + e_step, 0), Ghost(c), s);
    push_wire(wires, (an + 3 * i + 1, 0, e0 + 2 * e_step, 0), Ghost(c), s);
    push_wire(wires, (t + 3 * i + 1, 0, e0 + 3 * e_step, 0), Ghost(c), s);
    push_wire(wires, (l + 2 * i + 1, 0, e0 + 4 * e_step, 0), Ghost(c), s);
    push_wire(wires, (r + 2 * i + 1, 0, e0 + 5 * e_step, 0), Ghost(c), s);
    push_wire(wires, (ad + 20 * i + 1, 0, e0 + 6 * e_step, 0), Ghost(c), s);
    proof {
        assert(wires@ =~= old(wires)@ + alu_unit_wires(s as int, n as int, i as int));
    }
}

/// Appends the wires of enable `j` for bit `i`.
fn push_enable_wires(wires: &mut Vec<(usize, usize, usize, usize)>, s: usize, n: usize, j: usize, i: usize, Ghost(c): Ghost<Circuit>)
    requires
        n >= 1,
        i < n,
        j < 7,
        s + 155 * n + 122 < usize::MAX,
        alu_bit_pins(c, s as int, n as int, i as int),
        alu_enable_pins(c, s as int, n as int, j as int, i as int),
        forall|m: int| 0 <= m < old(wires)@.len() ==> #[trigger] alu_wire_fits(c, s as int, old(wires)@[m]),
    ensures
        final(wires)@ == old(wires)@ + alu_enable_wires(s as int, n as int, j as int, i as int),
        forall|m: int| 0 <= m < final(wires)@.len() ==> #[trigger] alu_wire_fits(c, s as int, final(wires)@[m]),
{
    proof {
        assert(j * (2 * n + 3) <= 6 * (2 * n + 3)) by (nonlinear_arith)
            requires
                j < 7,
        ;
    }
    let e = s + 3 * n + 8 + j * (2 * n + 3);
    let sp = e + 2 * n + 2;
    push_wire(wires, (e + 2 * i + 1, 0, sp, i), Ghost(c), s);
    push_wire(wires, (sp, 2 * i, s + 154 * n + 118 + i, 0), Ghost(c), s);
    push_wire(wires, (sp, 2 * i + 1, s + 2 * i + 1, 0), Ghost(c), s);
    proof {
        assert(wires@ =~= old(wires)@ + alu_enable_wires(s as int, n as int, j as int, i as int));
    }
}

/// Appends the wires of `C_IN`, of the comparison and zero outputs, and of the carries.
#[verifier::spinoff_prover]
#[verifier::rlimit(60)]
fn push_carry_wires(wires: &mut Vec<(usize, usize, usize, usize)>, s: usize, n: usize, Ghost(c): Ghost<Circuit>)
    requires
        n >= 1,
        s + 155 * n + 122 < usize::MAX,
        alu_control_pins(c, s as int, n as int),
        forall|m: int| 0 <= m < old(wires)@.len() ==> #[trigger] alu_wire_fits(c, s as int, old(wires)@[m]),
    ensures
        final(wires)@ == old(wires)@ + alu_carry_wires(s as int, n as int),
        forall|m: int| 0 <= m < final(wires)@.len() ==> #[trigger] alu_wire_fits(c, s as int, final(wires)@[m]),
{
    let x = s + 35 * n + 65;
    let d = s + 154 * n + 93;
    let cin = s + 3 * n + 3;
    let cout = s + 3 * n + 7;
    let ck = s + 35 * n + 47;
    let ds = s + 35 * n + 59;
    let bf = s + 154 * n + 115;
    let en = s + 3 * n + 8;
    let e_step = 2 * n + 3;
    let kp = s + 17 * n + 29;
    let k_step = 2 * n + 2;
    let shl = s + 61 * n + 67;
    let shr = s + 97 * n + 79;
    let ad = s + 133 * n + 91;
    let z = s + 154 * n + 118;
    proof {
        let sn = s as int;
        let nn = n as int;
        assert(paired_bit_pins(c, alu_carry_keeper(sn, nn, 0), 0));
        assert(paired_bit_pins(c, alu_carry_keeper(sn, nn, 1), 0));
        assert(paired_bit_pins(c, alu_carry_keeper(sn, nn, 2), 0));
        assert(c.has_input(alu_carry_keeper(sn, nn, 0) + 2, 0));
        assert(c.has_input(alu_carry_keeper(sn, nn, 1) + 2, 0));
        assert(c.has_input(alu_carry_keeper(sn, nn, 2) + 2, 0));
        assert(c.has_input(alu_buffer(sn, nn, 0), nn));
        assert(c.has_input(alu_buffer(sn, nn, 1), nn));
        assert(c.has_input(alu_buffer(sn, nn, 2), nn));
        assert(c.has_output(alu_decoder(sn, nn) + 3 + 0, 0));
        assert(c.has_output(alu_decoder(sn, nn) + 3 + 1, 0));
        assert(c.has_output(alu_decoder(sn, nn) + 3 + 2, 0));
        assert(c.has_output(alu_decoder(sn, nn) + 3 + 3, 0));
        assert(c.has_output(alu_decoder(sn, nn) + 3 + 4, 0));
        assert(c.has_output(alu_decoder(sn, nn) + 3 + 5, 0));
        assert(c.has_output(alu_decoder(sn, nn) + 3 + 6, 0));
        assert(c.has_input(alu_decoder_splitter(sn, nn, 0), 0));
        assert(c.has_input(alu_decoder_splitter(sn, nn, 1), 0));
        assert(c.has_input(alu_decoder_splitter(sn, nn, 2), 0));
        assert(c.has_input(alu_decoder_splitter(sn, nn, 3), 0));
        assert(c.has_input(alu_decoder_splitter(sn, nn, 4), 0));
        assert(c.has_input(alu_decoder_splitter(sn, nn, 5), 0));
        assert(c.has_input(alu_enable(sn, nn, 0) + 2 * nn, 0));
        assert(c.has_input(alu_enable(sn, nn, 1) + 2 * nn, 0));
        assert(c.has_input(alu_enable(sn, nn, 2) + 2 * nn, 0));
        assert(c.has_input(alu_enable(sn, nn, 3) + 2 * nn, 0));
        assert(c.has_input(alu_enable(sn, nn, 4) + 2 * nn, 0));
        assert(c.has_input(alu_enable(sn, nn, 5) + 2 * nn, 0));
        assert(c.has_input(alu_enable(sn, nn, 6) + 2 * nn, 0));
        assert(c.has_input(alu_keeper(sn, nn, 0) + 2 * nn, 0));
        assert(c.has_input(alu_keeper(sn, nn, 1) + 2 * nn, 0));
        assert(c.has_input(alu_keeper(sn, nn, 2) + 2 * nn, 0));
        assert(c.has_input(alu_keeper(sn, nn, 3) + 2 * nn, 0));
        assert(c.has_input(alu_keeper(sn, nn, 4) + 2 * nn, 0));
        assert(c.has_input(alu_keeper(sn, nn, 5) + 2 * nn, 0));
        assert(c.has_input(alu_keeper(sn, nn, 6) + 2 * nn, 0));
        assert(c.has_input(alu_keeper(sn, nn, 7) + 2 * nn, 0));
        assert(c.has_input(alu_keeper(sn, nn, 8) + 2 * nn, 0));
    }
    push_wire(wires, (cin, 0, (ck + 0), 0), Ghost(c), s);
    push_wire(wires, ((ck + 0) + 1, 0, shl + 2 * n, 0), Ghost(c), s);
    push_wire(wires, (cin, 0, (ck + 4), 0), Ghost(c), s);
    push_wire(wires, ((ck + 4) + 1, 0, shr + 2 * n, 0), Ghost(c), s);
    push_wire(wires, (cin, 0, (ck + 8), 0), Ghost(c), s);
    push_wire(wires, ((ck + 8) + 1, 0, ad + 21 * n, 0), Ghost(c), s);
    push_wire(wires, (x + 15 * n, 0, s + 3 * n + 4, 0), Ghost(c), s);
    push_wire(wires, (x + 15 * n + 1, 0, s + 3 * n + 5, 0), Ghost(c), s);
    push_wire(wires, (z + n, 0, s + 3 * n + 6, 0), Ghost(c), s);
    push_wire(wires, (shl + 2 * n + 1, 0, (bf + 0), 0), Ghost(c), s);
    push_wire(wires, (shr + 2 * n + 1, 0, (bf + 1), 0), Ghost(c), s);
    push_wire(wires, (ad + 21 * n + 1, 0, (bf + 2), 0), Ghost(c), s);
    push_wire(wires, ((bf + 0), 0, cout, 0), Ghost(c), s);
    push_wire(wires, ((bf + 1), 0, cout, 0), Ghost(c), s);
    push_wire(wires, ((bf + 2), 0, cout, 0), Ghost(c), s);
    proof {
        assert(wires@ =~= old(wires)@ + alu_carry_wires(s as int, n as int));
    }
}

/// Appends the wires of the select inputs into the decoder and of the decoder's outputs.
#[verifier::spinoff_prover]
#[verifier::rlimit(60)]
fn push_select_wires(wires: &mut Vec<(usize, usize, usize, usize)>, s: usize, n: usize, Ghost(c): Ghost<Circuit>)
    requires
        n >= 1,
        s + 155 * n + 122 < usize::MAX,
        alu_control_pins(c, s as int, n as int),
        forall|m: int| 0 <= m < old(wires)@.len() ==> #[trigger] alu_wire_fits(c, s as int, old(wires)@[m]),
    ensures
        final(wires)@ == old(wires)@ + alu_select_wires(s as int, n as int),
        forall|m: int| 0 <= m < final(wires)@.len() ==> #[trigger] alu_wire_fits(c, s as int, final(wires)@[m]),
{
    let x = s + 35 * n + 65;
    let d = s + 154 * n + 93;
    let cin = s + 3 * n + 3;
    let cout = s + 3 * n + 7;
    let ck = s + 35 * n + 47;
    let ds = s + 35 * n + 59;
    let bf = s + 154 * n + 115;
    let en = s + 3 * n + 8;
    let e_step = 2 * n + 3;
    let kp = s + 17 * n + 29;
    let k_step = 2 * n + 2;
    let shl = s + 61 * n + 67;
    let shr = s + 97 * n + 79;
    let ad = s + 133 * n + 91;
    let z = s + 154 * n + 118;
    proof {
        let sn = s as int;
        let nn = n as int;
        assert(paired_bit_pins(c, alu_carry_keeper(sn, nn, 0), 0));
        assert(paired_bit_pins(c, alu_carry_keeper(sn, nn, 1), 0));
        assert(paired_bit_pins(c, alu_carry_keeper(sn, nn, 2), 0));
        assert(c.has_input(alu_carry_keeper(sn, nn, 0) + 2, 0));
        assert(c.has_input(alu_carry_keeper(sn, nn, 1) + 2, 0));
        assert(c.has_input(alu_carry_keeper(sn, nn, 2) + 2, 0));
        assert(c.has_input(alu_buffer(sn, nn, 0), nn));
        assert(c.has_input(alu_buffer(sn, nn, 1), nn));
        assert(c.has_input(alu_buffer(sn, nn, 2), nn));
        assert(c.has_output(alu_decoder(sn, nn) + 3 + 0, 0));
        assert(c.has_output(alu_decoder(sn, nn) + 3 + 1, 0));
        assert(c.has_output(alu_decoder(sn, nn) + 3 + 2, 0));
        assert(c.has_output(alu_decoder(sn, nn) + 3 + 3, 0));
        assert(c.has_output(alu_decoder(sn, nn) + 3 + 4, 0));
        assert(c.has_output(alu_decoder(sn, nn) + 3 + 5, 0));
        assert(c.has_output(alu_decoder(sn, nn) + 3 + 6, 0));
        assert(c.has_input(alu_decoder_splitter(sn, nn, 0), 0));
        assert(c.has_input(alu_decoder_splitter(sn, nn, 1), 0));
        assert(c.has_input(alu_decoder_splitter(sn, nn, 2), 0));
        assert(c.has_input(alu_decoder_splitter(sn, nn, 3), 0));
        assert(c.has_input(alu_decoder_splitter(sn, nn, 4), 0));
        assert(c.has_input(alu_decoder_splitter(sn, nn, 5), 0));
        assert(c.has_input(alu_enable(sn, nn, 0) + 2 * nn, 0));
        assert(c.has_input(alu_enable(sn, nn, 1) + 2 * nn, 0));
        assert(c.has_input(alu_enable(sn, nn, 2) + 2 * nn, 0));
        assert(c.has_input(alu_enable(sn, nn, 3) + 2 * nn, 0));
        assert(c.has_input(alu_enable(sn, nn, 4) + 2 * nn, 0));
        assert(c.has_input(alu_enable(sn, nn, 5) + 2 * nn, 0));
        assert(c.has_input(alu_enable(sn, nn, 6) + 2 * nn, 0));
        assert(c.has_input(alu_keeper(sn, nn, 0) + 2 * nn, 0));
        assert(c.has_input(alu_keeper(sn, nn, 1) + 2 * nn, 0));
        assert(c.has_input(alu_keeper(sn, nn, 2) + 2 * nn, 0));
        assert(c.has_input(alu_keeper(sn, nn, 3) + 2 * nn, 0));
        assert(c.has_input(alu_keeper(sn, nn, 4) + 2 * nn, 0));
        assert(c.has_input(alu_keeper(sn, nn, 5) + 2 * nn, 0));
        assert(c.has_input(alu_keeper(sn, nn, 6) + 2 * nn, 0));
        assert(c.has_input(alu_keeper(sn, nn, 7) + 2 * nn, 0));
        assert(c.has_input(alu_keeper(sn, nn, 8) + 2 * nn, 0));
    }
    push_wire(wires, (s + 3 * n, 0, d + 2, 0), Ghost(c), s);
    push_wire(wires, (s + 3 * n + 1, 0, d + 1, 0), Ghost(c), s);
    push_wire(wires, (s + 3 * n + 2, 0, d, 0), Ghost(c), s);
    push_wire(wires, (d + 3 + 5, 0, (ds + 0), 0), Ghost(c), s);
    push_wire(wires, (d + 3 + 4, 0, (ds + 1), 0), Ghost(c), s);
    push_wire(wires, (d + 3 + 3, 0, (ds + 2), 0), Ghost(c), s);
    push_wire(wires, (d + 3 + 2, 0, (ds + 3), 0), Ghost(c), s);
    push_wire(wires, (d + 3 + 1, 0, (ds + 4), 0), Ghost(c), s);
    push_wire(wires, (d + 3 + 0, 0, (ds + 5), 0), Ghost(c), s);
    push_wire(wires, (d + 3 + 6, 0, (en + 0 * e_step) + 2 * n, 0), Ghost(c), s);
    proof {
        assert(wires@ =~= old(wires)@ + alu_select_wires(s as int, n as int));
    }
}

/// Appends the wires of the decoder splitters.
#[verifier::spinoff_prover]
#[verifier::rlimit(60)]
fn push_splitter_wires(wires: &mut Vec<(usize, usize, usize, usize)>, s: usize, n: usize, Ghost(c): Ghost<Circuit>)
    requires
        n >= 1,
        s + 155 * n + 122 < usize::MAX,
        alu_control_pins(c, s as int, n as int),
        forall|m: int| 0 <= m < old(wires)@.len() ==> #[trigger] alu_wire_fits(c, s as int, old(wires)@[m]),
    ensures
        final(wires)@ == old(wires)@ + alu_splitter_wires(s as int, n as int),
        forall|m: int| 0 <= m < final(wires)@.len() ==> #[trigger] alu_wire_fits(c, s as int, final(wires)@[m]),
{
    let x = s + 35 * n + 65;
    let d = s + 154 * n + 93;
    let cin = s + 3 * n + 3;
    let cout = s + 3 * n + 7;
    let ck = s + 35 * n + 47;
    let ds = s + 35 * n + 59;
    let bf = s + 154 * n + 115;
    let en = s + 3 * n + 8;
    let e_step = 2 * n + 3;
    let kp = s + 17 * n + 29;
    let k_step = 2 * n + 2;
    let shl = s + 61 * n + 67;
    let shr = s + 97 * n + 79;
    let ad = s + 133 * n + 91;
    let z = s + 154 * n + 118;
    proof {
        let sn = s as int;
        let nn = n as int;
        assert(paired_bit_pins(c, alu_carry_keeper(sn, nn, 0), 0));
        assert(paired_bit_pins(c, alu_carry_keeper(sn, nn, 1), 0));
        assert(paired_bit_pins(c, alu_carry_keeper(sn, nn, 2), 0));
        assert(c.has_input(alu_carry_keeper(sn, nn, 0) + 2, 0));
        assert(c.has_input(alu_carry_keeper(sn, nn, 1) + 2, 0));
        assert(c.has_input(alu_carry_keeper(sn, nn, 2) + 2, 0));
        assert(c.has_input(alu_buffer(sn, nn, 0), nn));
        assert(c.has_input(alu_buffer(sn, nn, 1), nn));
        assert(c.has_input(alu_buffer(sn, nn, 2), nn));
        assert(c.has_output(alu_decoder(sn, nn) + 3 + 0, 0));
        assert(c.has_output(alu_decoder(sn, nn) + 3 + 1, 0));
        assert(c.has_output(alu_decoder(sn, nn) + 3 + 2, 0));
        assert(c.has_output(alu_decoder(sn, nn) + 3 + 3, 0));
        assert(c.has_output(alu_decoder(sn, nn) + 3 + 4, 0));
        assert(c.has_output(alu_decoder(sn, nn) + 3 + 5, 0));
        assert(c.has_output(alu_decoder(sn, nn) + 3 + 6, 0));
        assert(c.has_input(alu_decoder_splitter(sn, nn, 0), 0));
        assert(c.has_input(alu_decoder_splitter(sn, nn, 1), 0));
        assert(c.has_input(alu_decoder_splitter(sn, nn, 2), 0));
        assert(c.has_input(alu_decoder_splitter(sn, nn, 3), 0));
        assert(c.has_input(alu_decoder_splitter(sn, nn, 4), 0));
        assert(c.has_input(alu_decoder_splitter(sn, nn, 5), 0));
        assert(c.has_input(alu_enable(sn, nn, 0) + 2 * nn, 0));
        assert(c.has_input(alu_enable(sn, nn, 1) + 2 * nn, 0));
        assert(c.has_input(alu_enable(sn, nn, 2) + 2 * nn, 0));
        assert(c.has_input(alu_enable(sn, nn, 3) + 2 * nn, 0));
        assert(c.has_input(alu_enable(sn, nn, 4) + 2 * nn, 0));
        assert(c.has_input(alu_enable(sn, nn, 5) + 2 * nn, 0));
        assert(c.has_input(alu_enable(sn, nn, 6) + 2 * nn, 0));
        assert(c.has_input(alu_keeper(sn, nn, 0) + 2 * nn, 0));
        assert(c.has_input(alu_keeper(sn, nn, 1) + 2 * nn, 0));
        assert(c.has_input(alu_keeper(sn, nn, 2) + 2 * nn, 0));
        assert(c.has_input(alu_keeper(sn, nn, 3) + 2 * nn, 0));
        assert(c.has_input(alu_keeper(sn, nn, 4) + 2 * nn, 0));
        assert(c.has_input(alu_keeper(sn, nn, 5) + 2 * nn, 0));
        assert(c.has_input(alu_keeper(sn, nn, 6) + 2 * nn, 0));
        assert(c.has_input(alu_keeper(sn, nn, 7) + 2 * nn, 0));
        assert(c.has_input(alu_keeper(sn, nn, 8) + 2 * nn, 0));
    }
    push_wire(wires, ((ds + 0), 0, (en + 1 * e_step) + 2 * n, 0), Ghost(c), s);
    push_wire(wires, ((ds + 0), 1, (kp + 0 * k_step) + 2 * n, 0), Ghost(c), s);
    push_wire(wires, ((ds + 0), 2, (kp + 6 * k_step) + 2 * n, 0), Ghost(c), s);
    push_wire(wires, ((ds + 1), 0, (en + 2 * e_step) + 2 * n, 0), Ghost(c), s);
    push_wire(wires, ((ds + 1), 1, (kp + 1 * k_step) + 2 * n, 0), Ghost(c), s);
    push_wire(wires, ((ds + 1), 2, (kp + 7 * k_step) + 2 * n, 0), Ghost(c), s);
    push_wire(wires, ((ds + 2), 0, (en + 3 * e_step) + 2 * n, 0), Ghost(c), s);
    push_wire(wires, ((ds + 2), 1, (kp + 2 * k_step) + 2 * n, 0), Ghost(c), s);
    push_wire(wires, ((ds + 3), 0, (en + 4 * e_step) + 2 * n, 0), Ghost(c), s);
    push_wire(wires, ((ds + 3), 1, (kp + 3 * k_step) + 2 * n, 0), Ghost(c), s);
    push_wire(wires, ((ds + 3), 2, (ck + 0) + 2, 0), Ghost(c), s);
    push_wire(wires, ((ds + 3), 3, (bf + 0), n), Ghost(c), s);
    push_wire(wires, ((ds + 4), 0, (en + 5 * e_step) + 2 * n, 0), Ghost(c), s);
    push_wire(wires, ((ds + 4), 1, (kp + 4 * k_step) + 2 * n, 0), Ghost(c), s);
    push_wire(wires, ((ds + 4), 2, (ck + 4) + 2, 0), Ghost(c), s);
    push_wire(wires, ((ds + 4), 3, (bf + 1), n), Ghost(c), s);
    push_wire(wires, ((ds + 5), 0, (en + 6 * e_step) + 2 * n, 0), Ghost(c), s);
    push_wire(wires, ((ds + 5), 1, (kp + 5 * k_step) + 2 * n, 0), Ghost(c), s);
    push_wire(wires, ((ds + 5), 2, (kp + 8 * k_step) + 2 * n, 0), Ghost(c), s);
    push_wire(wires, ((ds + 5), 3, (ck + 8) + 2, 0), Ghost(c), s);
    push_wire(wires, ((ds + 5), 4, (bf + 2), n), Ghost(c), s);
    proof {
        assert(wires@ =~= old(wires)@ + alu_splitter_wires(s as int, n as int));
    }
}

/// Appends all the wires of bit `i`.
#[verifier::spinoff_prover]
#[verifier::rlimit(40)]
fn push_bit_wires(wires: &mut Vec<(usize, usize, usize, usize)>, s: usize, n: usize, i: usize, Ghost(c): Ghost<Circuit>)
    requires
        n >= 1,
        i < n,
        s + 155 * n + 122 < usize::MAX,
        alu_bit_pins(c, s as int, n as int, i as int),
        forall|j: int| 0 <= j < 7 ==> #[trigger] alu_enable_pins(c, s as int, n as int, j, i as int),
        forall|m: int| 0 <= m < old(wires)@.len() ==> #[trigger] alu_wire_fits(c, s as int, old(wires)@[m]),
    ensures
        final(wires)@ == old(wires)@ + alu_bit_wires(s as int, n as int, i as int),
        forall|m: int| 0 <= m < final(wires)@.len() ==> #[trigger] alu_wire_fits(c, s as int, final(wires)@[m]),
{
    push_a_wires(wires, s, n, i, Ghost(c));
    push_b_wires(wires, s, n, i, Ghost(c));
    push_unit_wires(wires, s, n, i, Ghost(c));
    let mut j: usize = 0;
    while j < 7
        invariant
            n >= 1,
            i < n,
            j <= 7,
            s + 155 * n + 122 < usize::MAX,
            alu_bit_pins(c, s as int, n as int, i as int),
            forall|j2: int| 0 <= j2 < 7 ==> #[trigger] alu_enable_pins(c, s as int, n as int, j2, i as int),
            forall|m: int| 0 <= m < wires@.len() ==> #[trigger] alu_wire_fits(c, s as int, wires@[m]),
            wires@ == old(wires)@ + alu_a_wires(s as int, n as int, i as int) + alu_b_wires(s as int, n as int, i as int)
                + alu_unit_wires(s as int, n as int, i as int) + (if j >= 1 { alu_enable_wires(s as int, n as int, 0, i as int) } else { Seq::empty() })
                + (if j >= 2 { alu_enable_wires(s as int, n as int, 1, i as int) } else { Seq::empty() })
                + (if j >= 3 { alu_enable_wires(s as int, n as int, 2, i as int) } else { Seq::empty() })
                + (if j >= 4 { alu_enable_wires(s as int, n as int, 3, i as int) } else { Seq::empty() })
                + (if j >= 5 { alu_enable_wires(s as int, n as int, 4, i as int) } else { Seq::empty() })
                + (if j >= 6 { alu_enable_wires(s as int, n as int, 5, i as int) } else { Seq::empty() })
                + (if j >= 7 { alu_enable_wires(s as int, n as int, 6, i as int) } else { Seq::empty() }),
        decreases 7 - j,
    {
        let ghost before = wires@;
        push_enable_wires(wires, s, n, j, i, Ghost(c));
        proof {
            assert(wires@ =~= before + alu_enable_wires(s as int, n as int, j as int, i as int));
        }
        j = j + 1;
    }
    proof {
        assert(wires@ =~= old(wires)@ + alu_bit_wires(s as int, n as int, i as int));
    }
}

/// The list of every wire of an ALU of `n` bits whose parts stand from `s` on in `c`.
#[verifier::spinoff_prover]
fn wire_list(s: usize, n: usize, Ghost(c): Ghost<Circuit>) -> (res: Vec<(usize, usize, usize, usize)>)
    requires
        n >= 1,
        s + 155 * n + 122 < usize::MAX,
        forall|i: int| 0 <= i < n ==> #[trigger] alu_bit_pins(c, s as int, n as int, i),
        forall|j: int, i: int| 0 <= j < 7 && 0 <= i < n ==> #[trigger] alu_enable_pins(c, s as int, n as int, j, i),
        alu_control_pins(c, s as int, n as int),
    ensures
        res@ == alu_wires(s as int, n as int),
        forall|m: int| 0 <= m < res@.len() ==> #[trigger] alu_wire_fits(c, s as int, res@[m]),
{
    let mut wires: Vec<(usize, usize, usize, usize)> = Vec::new();
    let mut i: usize = 0;
    while i < n
        invariant
            n >= 1,
            i <= n,
            s + 155 * n + 122 < usize::MAX,
            forall|i2: int| 0 <= i2 < n ==> #[trigger] alu_bit_pins(c, s as int, n as int, i2),
            forall|j: int, i2: int| 0 <= j < 7 && 0 <= i2 < n ==> #[trigger] alu_enable_pins(c, s as int, n as int, j, i2),
            wires@ == alu_bits_wires(s as int, n as int, i as int),
            forall|m: int| 0 <= m < wires@.len() ==> #[trigger] alu_wire_fits(c, s as int, wires@[m]),
        decreases n - i,
    {
        proof {
            assert(alu_bit_pins(c, s as int, n as int, i as int));
            assert forall|j: int| 0 <= j < 7 implies #[trigger] alu_enable_pins(c, s as int, n as int, j, i as int) by {
            }
        }
        push_bit_wires(&mut wires, s, n, i, Ghost(c));
        i = i + 1;
    }
    push_carry_wires(&mut wires, s, n, Ghost(c));
    push_select_wires(&mut wires, s, n, Ghost(c));
    push_splitter_wires(&mut wires, s, n, Ghost(c));
    proof {
        assert(wires@ =~= alu_wires(s as int, n as int));
    }
    wires
}


/// Connects every wire of an ALU of `n` bits whose parts stand from `s` on.
#[verifier::spinoff_prover]
fn wire_up(circuit: &mut Circuit, s: usize, n: usize)
    requires
        old(circuit).wf(),
        n >= 1,
        s + 155 * n + 122 < usize::MAX,
        forall|i: int| 0 <= i < n ==> #[trigger] alu_bit_pins(*old(circuit), s as int, n as int, i),
        forall|j: int, i: int| 0 <= j < 7 && 0 <= i < n ==> #[trigger] alu_enable_pins(*old(circuit), s as int, n as int, j, i),
        alu_control_pins(*old(circuit), s as int, n as int),
    ensures
        final(circuit).wf(),
        final(circuit).shape() == old(circuit).shape(),
        final(circuit).types() == old(circuit).types(),
        final(circuit).clock_tick_number == old(circuit).clock_tick_number,
        forall|g: int, j: int|
            old(circuit).has_output(g, j) ==> #[trigger] final(circuit).link(g, j) == wire_dest(
                alu_wires(s as int, n as int),
                g,
                j,
                old(circuit).link(g, j),
            ),
        forall|g: int, j: int| old(circuit).has_output(g, j) && g < s ==> #[trigger] final(circuit).link(g, j) == old(circuit).link(g, j),
{
    let ghost c1 = *circuit;
    let wires = wire_list(s, n, Ghost(c1));
    proof {
        assert forall|k: int| 0 <= k < wires@.len() implies c1.has_output((#[trigger] wires@[k]).0 as int, wires@[k].1 as int)
            && c1.has_input(wires@[k].2 as int, wires@[k].3 as int) by {
            assert(alu_wire_fits(c1, s as int, wires@[k]));
        }
    }
    circuit.connect_all(&wires);
    proof {
        let ws = wires@;
        assert forall|g: int, j: int| c1.has_output(g, j) && g < s implies #[trigger] circuit.link(g, j) == c1.link(g, j) by {
            assert forall|k: int| 0 <= k < ws.len() implies !((#[trigger] ws[k]).0 == g && ws[k].1 == j) by {
                assert(alu_wire_fits(c1, s as int, ws[k]));
            }
            crate::netlist::lemma_wire_dest_untouched(ws, g, j, c1.link(g, j));
        }
    }
}

/// Holds the three select inputs `A`, `B`, `C`, standing from `g` on, HIGH until something
/// drives them.
fn hold_selects(circuit: &mut Circuit, g: usize) -> (res: Result<(), GateLogicError>)
    requires
        old(circuit).wf(),
        old(circuit).has_input(g as int, 0),
        old(circuit).has_input(g + 1, 0),
        old(circuit).has_input(g + 2, 0),
    ensures
        final(circuit).wf(),
        final(circuit).shape() == old(circuit).shape(),
        final(circuit).types() == old(circuit).types(),
        final(circuit).clock_tick_number == old(circuit).clock_tick_number,
        old(circuit).wiring_kept(*final(circuit)),
        res matches Err(e) ==> crate::run_circuit::failure_shown(*final(circuit), e),
{
    let ghost c0 = *circuit;
    proof {
        crate::circuit::lemma_wiring_kept_refl(c0);
    }
    let forced_a = circuit.update_input_signal(g, GateInput::new(0, Signal::HIGH, UniqueID::zero_id()));
    let ghost c1 = *circuit;
    if let Err(e) = forced_a {
        return Err(e);
    }
    let forced_b = circuit.update_input_signal(g + 1, GateInput::new(0, Signal::HIGH, UniqueID::zero_id()));
    let ghost c2 = *circuit;
    proof {
        crate::circuit::lemma_wiring_kept_trans(c0, c1, c2);
    }
    if let Err(e) = forced_b {
        return Err(e);
    }
    let forced_c = circuit.update_input_signal(g + 2, GateInput::new(0, Signal::HIGH, UniqueID::zero_id()));
    proof {
        crate::circuit::lemma_wiring_kept_trans(c0, c2, *circuit);
    }
    if let Err(e) = forced_c {
        return Err(e);
    }
    Ok(())
}

/// Where some wire of `ws` leaves from output `j` of gate `g`, the last one decides where it
/// goes, whatever it went to before.
proof fn lemma_wire_dest_chosen(ws: Seq<(usize, usize, usize, usize)>, g: int, j: int, d: Option<(int, int)>)
    requires
        wire_dest(ws, g, j, None) is Some,
    ensures
        wire_dest(ws, g, j, d) == wire_dest(ws, g, j, None),
    decreases ws.len(),
{
    if ws.len() > 0 {
        let w = ws.last();
        if !(w.0 == g && w.1 == j) {
            lemma_wire_dest_chosen(ws.drop_last(), g, j, d);
        }
    }
}

/// The wires of `b` come after those of `a`: where an output goes after all of them is where
/// it goes after `b`, starting from where it went after `a`.
proof fn lemma_wire_dest_append(
    a: Seq<(usize, usize, usize, usize)>,
    b: Seq<(usize, usize, usize, usize)>,
    g: int,
    j: int,
    d: Option<(int, int)>,
)
    ensures
        wire_dest(a + b, g, j, d) == wire_dest(b, g, j, wire_dest(a, g, j, d)),
    decreases b.len(),
{
    if b.len() == 0 {
        assert(a + b =~= a);
    } else {
        assert((a + b).last() == b.last());
        assert((a + b).drop_last() =~= a + b.drop_last());
        lemma_wire_dest_append(a, b.drop_last(), g, j, d);
    }
}

/// Where a control wire leaves from output `j` of gate `g`, the control wires alone decide
/// where that output of an ALU goes.
proof fn lemma_control_dest(s: int, n: int, g: int, j: int)
    requires
        wire_dest(alu_control_wires(s, n), g, j, None) is Some,
    ensures
        wire_dest(alu_wires(s, n), g, j, None) == wire_dest(alu_control_wires(s, n), g, j, None),
{
    let bits = alu_bits_wires(s, n, n);
    let ctrl = alu_control_wires(s, n);
    lemma_wire_dest_append(bits, ctrl, g, j, None);
    lemma_wire_dest_chosen(ctrl, g, j, wire_dest(bits, g, j, None));
}

/// Where an output goes after the control wires, in their three groups.
proof fn lemma_control_groups(s: int, n: int, g: int, j: int)
    ensures
        wire_dest(alu_control_wires(s, n), g, j, None) == wire_dest(
            alu_splitter_wires(s, n),
            g,
            j,
            wire_dest(alu_select_wires(s, n), g, j, wire_dest(alu_carry_wires(s, n), g, j, None)),
        ),
{
    let cw = alu_carry_wires(s, n);
    let sw = alu_select_wires(s, n);
    let pw = alu_splitter_wires(s, n);
    lemma_wire_dest_append(cw + sw, pw, g, j, None);
    lemma_wire_dest_append(cw, sw, g, j, None);
}

/// Where the control wires take `A`, `B` and `C`: to the decoder's inputs `i_2`, `i_1`, `i_0`.
#[verifier::spinoff_prover]
#[verifier::rlimit(100)]
proof fn lemma_select_pin_dests(s: int, n: int)
    requires
        n >= 1,
        0 <= s,
        s + 155 * n + 122 < usize::MAX,
    ensures
        wire_dest(alu_control_wires(s, n), s + 3 * n, 0, None) == Some((alu_decoder(s, n) + 2, 0int)),
        wire_dest(alu_control_wires(s, n), s + 3 * n + 1, 0, None) == Some((alu_decoder(s, n) + 1, 0int)),
        wire_dest(alu_control_wires(s, n), s + 3 * n + 2, 0, None) == Some((alu_decoder(s, n), 0int)),
{
    let pw = alu_splitter_wires(s, n);
    let sw = alu_select_wires(s, n);
    let cw = alu_carry_wires(s, n);
    let d = alu_decoder(s, n);
    assert forall|g: int| s + 3 * n <= g <= s + 3 * n + 2 implies wire_dest(alu_control_wires(s, n), g, 0, None) == Some(
        (d + 2 - (g - s - 3 * n), 0int),
    ) by {
        lemma_control_groups(s, n, g, 0);
        let x = wire_dest(cw, g, 0, None);
        assert(wire_dest(sw, g, 0, x) == Some((d + 2 - (g - s - 3 * n), 0int))) by {
            reveal_with_fuel(wire_dest, 11);
        }
        assert forall|k: int| 0 <= k < pw.len() implies !((#[trigger] pw[k]).0 == g && pw[k].1 == 0) by {}
        crate::netlist::lemma_wire_dest_untouched(pw, g, 0, wire_dest(sw, g, 0, x));
    }
    assert(wire_dest(alu_control_wires(s, n), s + 3 * n, 0, None) == Some((d + 2, 0int)));
    assert(wire_dest(alu_control_wires(s, n), s + 3 * n + 1, 0, None) == Some((d + 1, 0int)));
    assert(wire_dest(alu_control_wires(s, n), s + 3 * n + 2, 0, None) == Some((d, 0int)));
}

/// Where the control wires take `C_IN`, the output of the adder's carry gatekeeper, decoder
/// output `o_0` and the last copy but one of the splitter that `o_0` drives.
proof fn lemma_carry_in_dests(s: int, n: int)
    requires
        n >= 1,
        0 <= s,
        s + 155 * n + 122 < usize::MAX,
    ensures
        wire_dest(alu_control_wires(s, n), s + 3 * n + 3, 0, None) == Some((alu_carry_keeper(s, n, 2), 0int)),
        wire_dest(alu_control_wires(s, n), alu_carry_keeper(s, n, 2) + 1, 0, None) == Some((alu_adder(s, n) + 21 * n, 0int)),
        wire_dest(alu_control_wires(s, n), alu_decoder(s, n) + 3, 0, None) == Some((alu_decoder_splitter(s, n, 5), 0int)),
        wire_dest(alu_control_wires(s, n), alu_decoder_splitter(s, n, 5), 3, None) == Some(
            (alu_carry_keeper(s, n, 2) + 2, 0int),
        ),
{
    lemma_carried_dest(s, n, s + 3 * n + 3, (alu_carry_keeper(s, n, 2), 0int));
    lemma_carried_dest(s, n, alu_carry_keeper(s, n, 2) + 1, (alu_adder(s, n) + 21 * n, 0int));
    lemma_selected_dest(s, n, 0);
    lemma_split_dest(s, n, 5, 3);
}

/// Where a carry wire from output 0 of `g` that the later control wires leave alone goes.
#[verifier::spinoff_prover]
#[verifier::rlimit(100)]
proof fn lemma_carried_dest(s: int, n: int, g: int, t: (int, int))
    requires
        n >= 1,
        0 <= s,
        s + 155 * n + 122 < usize::MAX,
        (g == s + 3 * n + 3 && t == (alu_carry_keeper(s, n, 2), 0int)) || (g == alu_carry_keeper(s, n, 2) + 1 && t == (
            alu_adder(s, n) + 21 * n,
            0int,
        )) || (g == alu_carry_keeper(s, n, 0) + 1 && t == (alu_shl(s, n) + 2 * n, 0int)) || (g == alu_carry_keeper(s, n, 1)
            + 1 && t == (alu_shr(s, n) + 2 * n, 0int)),
    ensures
        wire_dest(alu_control_wires(s, n), g, 0, None) == Some(t),
{
    let pw = alu_splitter_wires(s, n);
    let sw = alu_select_wires(s, n);
    let cw = alu_carry_wires(s, n);
    lemma_control_groups(s, n, g, 0);
    assert(wire_dest(cw, g, 0, None) == Some(t)) by {
        reveal_with_fuel(wire_dest, 15);
    }
    assert(wire_dest(sw, g, 0, Some(t)) == Some(t)) by {
        reveal_with_fuel(wire_dest, 11);
    }
    assert(wire_dest(pw, g, 0, Some(t)) == Some(t)) by {
        reveal_with_fuel(wire_dest, 22);
    }
}

/// Decoder outputs `o_0` to `o_5` go to the decoder splitters, last to first.
#[verifier::spinoff_prover]
#[verifier::rlimit(100)]
proof fn lemma_selected_dest(s: int, n: int, r: int)
    requires
        n >= 1,
        0 <= s,
        s + 155 * n + 122 < usize::MAX,
        0 <= r < 6,
    ensures
        wire_dest(alu_control_wires(s, n), alu_decoder(s, n) + 3 + r, 0, None) == Some(
            (alu_decoder_splitter(s, n, 5 - r), 0int),
        ),
{
    let pw = alu_splitter_wires(s, n);
    let sw = alu_select_wires(s, n);
    let cw = alu_carry_wires(s, n);
    let d = alu_decoder(s, n);
    let t = (alu_decoder_splitter(s, n, 5 - r), 0int);
    lemma_control_groups(s, n, d + 3 + r, 0);
    let x = wire_dest(cw, d + 3 + r, 0, None);
    assert(wire_dest(sw, d + 3 + r, 0, x) == Some(t)) by {
        reveal_with_fuel(wire_dest, 9);
    }
    assert(wire_dest(pw, d + 3 + r, 0, Some(t)) == Some(t)) by {
        reveal_with_fuel(wire_dest, 22);
    }
}

/// The splitters of the left shifter, the right shifter and the adder each send a copy to
/// the enable of their carry gatekeeper.
#[verifier::spinoff_prover]
#[verifier::rlimit(100)]
proof fn lemma_split_dest(s: int, n: int, q: int, o: int)
    requires
        n >= 1,
        0 <= s,
        s + 155 * n + 122 < usize::MAX,
        (q == 3 && o == 2) || (q == 4 && o == 2) || (q == 5 && o == 3),
    ensures
        wire_dest(alu_control_wires(s, n), alu_decoder_splitter(s, n, q), o, None) == Some(
            (alu_carry_keeper(s, n, q - 3) + 2, 0int),
        ),
{
    let pw = alu_splitter_wires(s, n);
    let sw = alu_select_wires(s, n);
    let cw = alu_carry_wires(s, n);
    let ds = alu_decoder_splitter(s, n, q);
    lemma_control_groups(s, n, ds, o);
    let y = wire_dest(sw, ds, o, wire_dest(cw, ds, o, None));
    assert(wire_dest(pw, ds, o, y) == Some((alu_carry_keeper(s, n, q - 3) + 2, 0int))) by {
        reveal_with_fuel(wire_dest, 12);
    }
}

/// Decoder output `o_6` goes straight to the comparator's enable.
#[verifier::spinoff_prover]
#[verifier::rlimit(100)]
proof fn lemma_compare_selected_dest(s: int, n: int)
    requires
        n >= 1,
        0 <= s,
        s + 155 * n + 122 < usize::MAX,
    ensures
        wire_dest(alu_control_wires(s, n), alu_decoder(s, n) + 9, 0, None) == Some((alu_enable(s, n, 0) + 2 * n, 0int)),
{
    let pw = alu_splitter_wires(s, n);
    let sw = alu_select_wires(s, n);
    let cw = alu_carry_wires(s, n);
    let d = alu_decoder(s, n);
    let t = (alu_enable(s, n, 0) + 2 * n, 0int);
    lemma_control_groups(s, n, d + 9, 0);
    let x = wire_dest(cw, d + 9, 0, None);
    assert(wire_dest(sw, d + 9, 0, x) == Some(t)) by {
        reveal_with_fuel(wire_dest, 2);
    }
    assert(wire_dest(pw, d + 9, 0, Some(t)) == Some(t)) by {
        reveal_with_fuel(wire_dest, 22);
    }
}

/// The first three decoder splitters (behind OR, AND, NOT) send their copies to the enable
/// of their unit and to the gatekeepers in front of it.
#[verifier::spinoff_prover]
#[verifier::rlimit(100)]
proof fn lemma_logic_split_dest(s: int, n: int, q: int, o: int, t: int)
    requires
        n >= 1,
        0 <= s,
        s + 155 * n + 122 < usize::MAX,
        (q == 0 && o == 0 && t == alu_enable(s, n, 1) + 2 * n) || (q == 0 && o == 1 && t == alu_keeper(s, n, 0) + 2 * n) || (q
            == 0 && o == 2 && t == alu_keeper(s, n, 6) + 2 * n) || (q == 1 && o == 0 && t == alu_enable(s, n, 2) + 2 * n) || (q
            == 1 && o == 1 && t == alu_keeper(s, n, 1) + 2 * n) || (q == 1 && o == 2 && t == alu_keeper(s, n, 7) + 2 * n) || (q
            == 2 && o == 0 && t == alu_enable(s, n, 3) + 2 * n) || (q == 2 && o == 1 && t == alu_keeper(s, n, 2) + 2 * n),
    ensures
        wire_dest(alu_control_wires(s, n), alu_decoder_splitter(s, n, q), o, None) == Some((t, 0int)),
{
    let pw = alu_splitter_wires(s, n);
    let sw = alu_select_wires(s, n);
    let cw = alu_carry_wires(s, n);
    let ds = alu_decoder_splitter(s, n, q);
    lemma_control_groups(s, n, ds, o);
    let y = wire_dest(sw, ds, o, wire_dest(cw, ds, o, None));
    assert(wire_dest(pw, ds, o, y) == Some((t, 0int))) by {
        reveal_with_fuel(wire_dest, 22);
    }
}

/// The last three decoder splitters (behind the left shifter, the right shifter, the adder)
/// send their copies to the enable of their unit and to the gatekeepers in front of it.
#[verifier::spinoff_prover]
#[verifier::rlimit(100)]
proof fn lemma_arith_split_dest(s: int, n: int, q: int, o: int, t: int)
    requires
        n >= 1,
        0 <= s,
        s + 155 * n + 122 < usize::MAX,
        (q == 3 && o == 0 && t == alu_enable(s, n, 4) + 2 * n) || (q == 3 && o == 1 && t == alu_keeper(s, n, 3) + 2 * n) || (q
            == 4 && o == 0 && t == alu_enable(s, n, 5) + 2 * n) || (q == 4 && o == 1 && t == alu_keeper(s, n, 4) + 2 * n) || (q
            == 5 && o == 0 && t == alu_enable(s, n, 6) + 2 * n) || (q == 5 && o == 1 && t == alu_keeper(s, n, 5) + 2 * n) || (q
            == 5 && o == 2 && t == alu_keeper(s, n, 8) + 2 * n),
    ensures
        wire_dest(alu_control_wires(s, n), alu_decoder_splitter(s, n, q), o, None) == Some((t, 0int)),
{
    let pw = alu_splitter_wires(s, n);
    let sw = alu_select_wires(s, n);
    let cw = alu_carry_wires(s, n);
    let ds = alu_decoder_splitter(s, n, q);
    lemma_control_groups(s, n, ds, o);
    let y = wire_dest(sw, ds, o, wire_dest(cw, ds, o, None));
    assert(wire_dest(pw, ds, o, y) == Some((t, 0int))) by {
        reveal_with_fuel(wire_dest, 13);
    }
}

/// One copy of what output `o` feeds reaches input `t`.
pub open spec fn switched_by(c: Circuit, o: int, t: int) -> bool {
    c.link(o, 0) matches Some(p) && exists|j: int| #[trigger] c.link(p.0, j) == Some((t, 0int))
}

/// A one-bit gatekeeper standing at `k` (data in at `k`, out at `k + 1`, enable at `k + 2`)
/// sends into input pin `target`, and one copy of what output `o` feeds reaches its enable.
pub open spec fn keeper_gated_by(c: Circuit, k: int, target: int, o: int) -> bool {
    &&& c.link(k + 1, 0) == Some((target, 0int))
    &&& switched_by(c, o, k + 2)
}

/// Growth that keeps the shape keeps the control pins.
proof fn lemma_control_pins_kept(c1: Circuit, c2: Circuit, s: int, n: int)
    requires
        c1.shape() == c2.shape(),
        alu_control_pins(c1, s, n),
    ensures
        alu_control_pins(c2, s, n),
{
    assert forall|j: int| 0 <= j < 3 implies #[trigger] paired_bit_pins(c2, alu_carry_keeper(s, n, j), 0) by {
        assert(paired_bit_pins(c1, alu_carry_keeper(s, n, j), 0));
    }
    assert forall|j: int| 0 <= j < 3 implies c2.has_input(#[trigger] alu_carry_keeper(s, n, j) + 2, 0) by {
        assert(c1.has_input(alu_carry_keeper(s, n, j) + 2, 0));
    }
    assert forall|j: int| 0 <= j < 3 implies c2.has_input(#[trigger] alu_buffer(s, n, j), n) && c2.has_output(
        alu_buffer(s, n, j),
        0,
    ) by {
        assert(c1.has_input(alu_buffer(s, n, j), n));
    }
    assert forall|r: int| 0 <= r < 7 implies #[trigger] c2.has_output(alu_decoder(s, n) + 3 + r, 0) by {
        assert(c1.has_output(alu_decoder(s, n) + 3 + r, 0));
    }
    assert forall|j: int| 0 <= j < 6 implies c2.has_input(#[trigger] alu_decoder_splitter(s, n, j), 0) && c2.has_output(
        alu_decoder_splitter(s, n, j),
        alu_copies(j) - 1,
    ) by {
        assert(c1.has_input(alu_decoder_splitter(s, n, j), 0));
    }
    assert forall|j: int| 0 <= j < 7 implies c2.has_input(#[trigger] alu_enable(s, n, j) + 2 * n, 0) by {
        assert(c1.has_input(alu_enable(s, n, j) + 2 * n, 0));
    }
    assert forall|j: int| 0 <= j < 9 implies c2.has_input(#[trigger] alu_keeper(s, n, j) + 2 * n, 0) by {
        assert(c1.has_input(alu_keeper(s, n, j) + 2 * n, 0));
    }
}

impl ArithmeticLogicUnit {
    /// This ALU stands at gates `start..start + 155 * n + 121` of `c` where `positions` says,
    /// its pins tagged `a_<k>`, `b_<k>`, `A`, `B`, `C`, `C_IN`, `o_<k>`, `A_L`, `EQ`, `Z`,
    /// `C_OUT`; every output that a wire of `alu_wires` leaves from goes where the last such
    /// wire goes.
    pub open spec fn built(&self, c: Circuit, s: int, n: nat) -> bool {
        &&& self.positions(s, n)
        &&& c.len() == s + 155 * n + 121
        &&& complex_fits(&self.complex_gate, c.shape(), c.types())
        &&& self.complex_gate.tag_names() == alu_tags(n)
        &&& self.complex_gate.tags_laid_out()
        &&& alu_control_pins(c, s, n as int)
        &&& forall|g: int, j: int|
            c.has_output(g, j) && wire_dest(alu_wires(s, n as int), g, j, None) is Some ==> #[trigger] c.link(g, j)
                == wire_dest(alu_wires(s, n as int), g, j, None)
    }

    /// Adds an ALU of `num_bits` bits to the circuit, wires it, holds `A`, `B` and `C` HIGH
    /// until something drives them (which selects no unit), and primes it. Its parts are primed
    /// as they are added. Fails only when priming does not come to rest or two senders drive one input.
    #[verifier::spinoff_prover]
    #[verifier::rlimit(100)]
    pub fn new(circuit: &mut Circuit, num_bits: usize) -> (res: Result<Self, GateLogicError>)
        requires
            old(circuit).wf(),
            num_bits >= 1,
            old(circuit).len() + 155 * num_bits + 122 < usize::MAX,
        ensures
            final(circuit).wf(),
            final(circuit).clock_tick_number == old(circuit).clock_tick_number,
            match res {
                Ok(gate) => {
                    &&& final(circuit).len() == old(circuit).len() + Self::spec_len(num_bits as nat)
                    &&& shape_extends(old(circuit).shape(), final(circuit).shape())
                    &&& types_extend(old(circuit).types(), final(circuit).types())
                    &&& old(circuit).wiring_kept(*final(circuit))
                    &&& forall|g: int, j: int, d: Option<(int, int)>| old(circuit).wire(g, j, d) ==> #[trigger] final(circuit).wire(g, j, d)
                    &&& gate.built(*final(circuit), old(circuit).len() as int, num_bits as nat)
                    &&& settled_from(*final(circuit), old(circuit).len() as int)
                },
                Err(e) => crate::run_circuit::failure_shown(*final(circuit), e),
            },
    {
        let ghost c0 = *circuit;
        let s = circuit.num_gates();
        let n = num_bits;
        let gate = match Self::assemble(circuit, n) {
            Ok(gate) => gate,
            Err(e) => {
                return Err(e);
            },
        };
        let ghost c1 = *circuit;
        wire_up(circuit, s, n);
        let ghost c2 = *circuit;
        if let Err(e) = hold_selects(circuit, s + 3 * n) {
            return Err(e);
        }
        let ghost c3 = *circuit;
        let primed = circuit.prime_from(s);
        proof {
            let st = s as int;
            let nn = n as int;
            let ws = alu_wires(st, nn);
            crate::circuit::lemma_wiring_kept_refl(c2);
            crate::circuit::lemma_wiring_kept_trans(c2, c3, *circuit);
            assert forall|g: int, j: int| c0.has_output(g, j) implies #[trigger] circuit.link(g, j) == c0.link(g, j) by {
                assert(c1.shape().subrange(0, c0.shape().len() as int)[g] == c1.shape()[g]);
                assert(c1.has_output(g, j));
                assert(c2.has_output(g, j));
            }
            crate::circuit::lemma_wire_kept_grown(c0, *circuit);
            assert forall|g: int, j: int|
                circuit.has_output(g, j) && wire_dest(ws, g, j, None) is Some implies #[trigger] circuit.link(g, j) == wire_dest(
                ws,
                g,
                j,
                None,
            ) by {
                assert(c2.has_output(g, j));
                assert(c1.has_output(g, j));
                lemma_wire_dest_chosen(ws, g, j, c1.link(g, j));
            }
            assert(alu_control_pins(c1, st, nn));
            lemma_control_pins_kept(c1, *circuit, st, nn);
            assert(gate.built(*circuit, st, n as nat));
        }
        match primed {
            Ok(()) => Ok(gate),
            Err(e) => Err(e),
        }
    }
}

impl ArithmeticLogicUnit {
    /// The adder's carry-in is gated by the adder's select. As built, `A`, `B` and `C` feed
    /// decoder inputs `i_2`, `i_1` and `i_0`. Pin `C_IN` feeds the data input of a one-bit
    /// gatekeeper (data in at its first gate, out at the next, enable after that) whose output
    /// goes to the adder's own `C_IN`. Its enable hangs off the splitter behind decoder output
    /// number `select_number(Adder)`. So the carry-in reaches the adder only when the select
    /// lines choose the adder.
    #[verifier::spinoff_prover]
    #[verifier::rlimit(100)]
    pub proof fn lemma_adder_carry_in_gated(&self, c: Circuit, s: int, n: nat)
        requires
            self.built(c, s, n),
            n >= 1,
            0 <= s,
            s + 155 * n + 122 < usize::MAX,
        ensures
            ({
                let nn = n as int;
                let ins = self.complex_gate.input_gates@;
                let dec_in = self.decoder.complex_gate.input_gates@;
                let dec_out = self.decoder.complex_gate.output_gates@;
                let adder_cin = self.adder.complex_gate.input_gates@[2 * nn] as int;
                &&& c.link(ins[2 * nn] as int, 0) == Some((dec_in[2] as int, 0int))
                &&& c.link(ins[2 * nn + 1] as int, 0) == Some((dec_in[1] as int, 0int))
                &&& c.link(ins[2 * nn + 2] as int, 0) == Some((dec_in[0] as int, 0int))
                &&& c.link(ins[2 * nn + 3] as int, 0) matches Some(k) && (k.1 == 0 && keeper_gated_by(
                    c,
                    k.0,
                    adder_cin,
                    dec_out[select_number(AluOperations::Adder)] as int,
                ))
            }),
    {
        let nn = n as int;
        reveal(ArithmeticLogicUnit::positions);
        let d = alu_decoder(s, nn);
        let a = alu_adder(s, nn);
        let ck = alu_carry_keeper(s, nn, 2);
        let ds = alu_decoder_splitter(s, nn, 5);
        let ins = self.complex_gate.input_gates@;
        assert(ins[2 * nn] == (s + 3 * nn) as usize);
        assert(ins[2 * nn + 1] == (s + 3 * nn + 1) as usize);
        assert(ins[2 * nn + 2] == (s + 3 * nn + 2) as usize);
        assert(ins[2 * nn + 3] == (s + 3 * nn + 3) as usize);
        assert(self.adder.complex_gate.input_gates@[2 * nn] == (a + 21 * nn) as usize);
        assert(self.decoder.complex_gate.input_gates@[0] == d as usize);
        assert(self.decoder.complex_gate.input_gates@[1] == (d + 1) as usize);
        assert(self.decoder.complex_gate.input_gates@[2] == (d + 2) as usize);
        assert(select_number(AluOperations::Adder) == 0);
        assert(self.decoder.complex_gate.output_gates@[0] == (d + 3) as usize);
        assert(paired_bit_pins(c, ck, 0));
        assert(c.has_output(d + 3 + 0, 0));
        assert(c.has_output(ds, alu_copies(5) - 1));
        lemma_select_pin_dests(s, nn);
        lemma_carry_in_dests(s, nn);
        lemma_control_dest(s, nn, s + 3 * nn, 0);
        lemma_control_dest(s, nn, s + 3 * nn + 1, 0);
        lemma_control_dest(s, nn, s + 3 * nn + 2, 0);
        lemma_control_dest(s, nn, s + 3 * nn + 3, 0);
        lemma_control_dest(s, nn, ck + 1, 0);
        lemma_control_dest(s, nn, d + 3, 0);
        lemma_control_dest(s, nn, ds, 3);
        assert(c.has_output(s + 3 * nn + 3, 0));
        assert(c.link(s + 3 * nn + 3, 0) == Some((ck, 0int)));
        assert(c.link(ck + 1, 0) == Some((a + 21 * nn, 0int)));
        assert(c.link(d + 3, 0) == Some((ds, 0int)));
        assert(c.link(ds, 3) == Some((ck + 2, 0int)));
        assert(c.link(s + 3 * nn, 0) == Some((d + 2, 0int)));
        assert(c.link(s + 3 * nn + 1, 0) == Some((d + 1, 0int)));
        assert(c.link(s + 3 * nn + 2, 0) == Some((d, 0int)));
        let dec_in = self.decoder.complex_gate.input_gates@;
        let dec_out = self.decoder.complex_gate.output_gates@;
        assert(c.link(ins[2 * nn] as int, 0) == Some((dec_in[2] as int, 0int)));
        assert(c.link(ins[2 * nn + 1] as int, 0) == Some((dec_in[1] as int, 0int)));
        assert(c.link(ins[2 * nn + 2] as int, 0) == Some((dec_in[0] as int, 0int)));
        assert(c.link(ins[2 * nn + 3] as int, 0) == Some((ck, 0int)));
        assert(c.link(dec_out[select_number(AluOperations::Adder)] as int, 0) == Some((ds, 0int)));
        assert(exists|j: int| #[trigger] c.link(ds, j) == Some((ck + 2, 0int)));
        let adder_cin = self.adder.complex_gate.input_gates@[2 * nn] as int;
        assert(c.link(ck + 1, 0) == Some((adder_cin, 0int)));
        assert(c.link(ins[2 * nn + 3] as int, 0) matches Some(k) && (k.1 == 0 && c.link(k.0 + 1, 0) == Some((adder_cin, 0int))));
        assert(keeper_gated_by(c, ck, adder_cin, dec_out[select_number(AluOperations::Adder)] as int));
    }
}

impl ArithmeticLogicUnit {
    /// The shifters' carry-ins are gated by their selects. As built, the left shifter's `S_IN`
    /// is fed by a one-bit gatekeeper whose enable hangs off the splitter behind decoder output
    /// number `select_number(Shl)`; the right shifter's likewise with `select_number(Shr)`.
    #[verifier::spinoff_prover]
    #[verifier::rlimit(100)]
    pub proof fn lemma_shifter_carry_ins_gated(&self, c: Circuit, s: int, n: nat)
        requires
            self.built(c, s, n),
            n >= 1,
            0 <= s,
            s + 155 * n + 122 < usize::MAX,
        ensures
            ({
                let nn = n as int;
                let dec_out = self.decoder.complex_gate.output_gates@;
                &&& exists|k: int|
                    #[trigger] keeper_gated_by(
                        c,
                        k,
                        self.shift_left.complex_gate.input_gates@[nn] as int,
                        dec_out[select_number(AluOperations::Shl)] as int,
                    )
                &&& exists|k: int|
                    #[trigger] keeper_gated_by(
                        c,
                        k,
                        self.shift_right.complex_gate.input_gates@[nn] as int,
                        dec_out[select_number(AluOperations::Shr)] as int,
                    )
            }),
    {
        let nn = n as int;
        reveal(ArithmeticLogicUnit::positions);
        let d = alu_decoder(s, nn);
        let ck0 = alu_carry_keeper(s, nn, 0);
        let ck1 = alu_carry_keeper(s, nn, 1);
        let ds3 = alu_decoder_splitter(s, nn, 3);
        let ds4 = alu_decoder_splitter(s, nn, 4);
        let dec_out = self.decoder.complex_gate.output_gates@;
        assert(self.shift_left.complex_gate.input_gates@[nn] == (alu_shl(s, nn) + 2 * nn) as usize);
        assert(self.shift_right.complex_gate.input_gates@[nn] == (alu_shr(s, nn) + 2 * nn) as usize);
        assert(select_number(AluOperations::Shl) == 2);
        assert(select_number(AluOperations::Shr) == 1);
        assert(dec_out[2] == (d + 3 + 2) as usize);
        assert(dec_out[1] == (d + 3 + 1) as usize);
        assert(paired_bit_pins(c, ck0, 0));
        assert(paired_bit_pins(c, ck1, 0));
        assert(c.has_output(d + 3 + 2, 0));
        assert(c.has_output(d + 3 + 1, 0));
        assert(c.has_output(ds3, alu_copies(3) - 1));
        assert(c.has_output(ds4, alu_copies(4) - 1));
        lemma_carried_dest(s, nn, ck0 + 1, (alu_shl(s, nn) + 2 * nn, 0int));
        lemma_carried_dest(s, nn, ck1 + 1, (alu_shr(s, nn) + 2 * nn, 0int));
        lemma_selected_dest(s, nn, 2);
        lemma_selected_dest(s, nn, 1);
        lemma_split_dest(s, nn, 3, 2);
        lemma_split_dest(s, nn, 4, 2);
        lemma_control_dest(s, nn, ck0 + 1, 0);
        lemma_control_dest(s, nn, ck1 + 1, 0);
        lemma_control_dest(s, nn, d + 3 + 2, 0);
        lemma_control_dest(s, nn, d + 3 + 1, 0);
        lemma_control_dest(s, nn, ds3, 2);
        lemma_control_dest(s, nn, ds4, 2);
        assert(c.link(ck0 + 1, 0) == Some((alu_shl(s, nn) + 2 * nn, 0int)));
        assert(c.link(ck1 + 1, 0) == Some((alu_shr(s, nn) + 2 * nn, 0int)));
        assert(c.link(d + 3 + 2, 0) == Some((ds3, 0int)));
        assert(c.link(d + 3 + 1, 0) == Some((ds4, 0int)));
        assert(c.link(ds3, 2) == Some((ck0 + 2, 0int)));
        assert(c.link(ds4, 2) == Some((ck1 + 2, 0int)));
        assert(keeper_gated_by(c, ck0, self.shift_left.complex_gate.input_gates@[nn] as int, dec_out[2] as int));
        assert(keeper_gated_by(c, ck1, self.shift_right.complex_gate.input_gates@[nn] as int, dec_out[1] as int));
    }
}

impl ArithmeticLogicUnit {
    /// The select lines switch each unit on through the decoder. As built, decoder output
    /// number `select_number(XOrLe)` drives the comparator's enable (enable 0) directly. For OR,
    /// AND, NOT, the left shifter, the right shifter and the adder (enables 1 to 6), the
    /// splitter behind output number `select_number(op)` reaches the enable of that unit's result
    /// and the enable of every input gatekeeper in front of that unit: gatekeepers 0 and 6 for
    /// OR, 1 and 7 for AND, 2 for NOT, 3 for the left shifter, 4 for the right shifter, 5 and
    /// 8 for the adder.
    #[verifier::spinoff_prover]
    #[verifier::rlimit(100)]
    pub proof fn lemma_units_switched_by_select(&self, c: Circuit, s: int, n: nat)
        requires
            self.built(c, s, n),
            n >= 1,
            0 <= s,
            s + 155 * n + 122 < usize::MAX,
        ensures
            ({
                let nn = n as int;
                let dec_out = self.decoder.complex_gate.output_gates@;
                let o_xor = dec_out[select_number(AluOperations::XOrLe)] as int;
                let o_or = dec_out[select_number(AluOperations::Or)] as int;
                let o_and = dec_out[select_number(AluOperations::And)] as int;
                let o_not = dec_out[select_number(AluOperations::Not)] as int;
                let o_shl = dec_out[select_number(AluOperations::Shl)] as int;
                let o_shr = dec_out[select_number(AluOperations::Shr)] as int;
                let o_add = dec_out[select_number(AluOperations::Adder)] as int;
                &&& c.link(o_xor, 0) == Some((alu_enable(s, nn, 0) + 2 * nn, 0int))
                &&& switched_by(c, o_or, alu_enable(s, nn, 1) + 2 * nn)
                &&& switched_by(c, o_or, alu_keeper(s, nn, 0) + 2 * nn)
                &&& switched_by(c, o_or, alu_keeper(s, nn, 6) + 2 * nn)
                &&& switched_by(c, o_and, alu_enable(s, nn, 2) + 2 * nn)
                &&& switched_by(c, o_and, alu_keeper(s, nn, 1) + 2 * nn)
                &&& switched_by(c, o_and, alu_keeper(s, nn, 7) + 2 * nn)
                &&& switched_by(c, o_not, alu_enable(s, nn, 3) + 2 * nn)
                &&& switched_by(c, o_not, alu_keeper(s, nn, 2) + 2 * nn)
                &&& switched_by(c, o_shl, alu_enable(s, nn, 4) + 2 * nn)
                &&& switched_by(c, o_shl, alu_keeper(s, nn, 3) + 2 * nn)
                &&& switched_by(c, o_shr, alu_enable(s, nn, 5) + 2 * nn)
                &&& switched_by(c, o_shr, alu_keeper(s, nn, 4) + 2 * nn)
                &&& switched_by(c, o_add, alu_enable(s, nn, 6) + 2 * nn)
                &&& switched_by(c, o_add, alu_keeper(s, nn, 5) + 2 * nn)
                &&& switched_by(c, o_add, alu_keeper(s, nn, 8) + 2 * nn)
            }),
    {
        let nn = n as int;
        reveal(ArithmeticLogicUnit::positions);
        let d = alu_decoder(s, nn);
        let dec_out = self.decoder.complex_gate.output_gates@;
        assert(select_number(AluOperations::XOrLe) == 6);
        assert(select_number(AluOperations::Or) == 5);
        assert(select_number(AluOperations::And) == 4);
        assert(select_number(AluOperations::Not) == 3);
        assert(select_number(AluOperations::Shl) == 2);
        assert(select_number(AluOperations::Shr) == 1);
        assert(select_number(AluOperations::Adder) == 0);
        assert forall|r: int| 0 <= r < 7 implies dec_out[r] == (d + 3 + r) as usize && c.has_output(d + 3 + r, 0) by {}
        assert forall|r: int| 0 <= r < 6 implies #[trigger] c.link(d + 3 + r, 0) == Some(
            (alu_decoder_splitter(s, nn, 5 - r), 0int),
        ) by {
            assert(c.has_output(d + 3 + r, 0));
            lemma_selected_dest(s, nn, r);
            lemma_control_dest(s, nn, d + 3 + r, 0);
        }
        lemma_compare_selected_dest(s, nn);
        assert(c.has_output(d + 9, 0));
        lemma_control_dest(s, nn, d + 9, 0);
        assert(c.link(d + 3 + 6, 0) == Some((alu_enable(s, nn, 0) + 2 * nn, 0int)));
        assert forall|q: int| 0 <= q < 6 implies c.has_output(#[trigger] alu_decoder_splitter(s, nn, q), alu_copies(q) - 1) by {}
        lemma_logic_split_dest(s, nn, 0, 0, alu_enable(s, nn, 1) + 2 * nn);
        lemma_control_dest(s, nn, alu_decoder_splitter(s, nn, 0), 0);
        lemma_logic_split_dest(s, nn, 0, 1, alu_keeper(s, nn, 0) + 2 * nn);
        lemma_control_dest(s, nn, alu_decoder_splitter(s, nn, 0), 1);
        lemma_logic_split_dest(s, nn, 0, 2, alu_keeper(s, nn, 6) + 2 * nn);
        lemma_control_dest(s, nn, alu_decoder_splitter(s, nn, 0), 2);
        lemma_logic_split_dest(s, nn, 1, 0, alu_enable(s, nn, 2) + 2 * nn);
        lemma_control_dest(s, nn, alu_decoder_splitter(s, nn, 1), 0);
        lemma_logic_split_dest(s, nn, 1, 1, alu_keeper(s, nn, 1) + 2 * nn);
        lemma_control_dest(s, nn, alu_decoder_splitter(s, nn, 1), 1);
        lemma_logic_split_dest(s, nn, 1, 2, alu_keeper(s, nn, 7) + 2 * nn);
        lemma_control_dest(s, nn, alu_decoder_splitter(s, nn, 1), 2);
        lemma_logic_split_dest(s, nn, 2, 0, alu_enable(s, nn, 3) + 2 * nn);
        lemma_control_dest(s, nn, alu_decoder_splitter(s, nn, 2), 0);
        lemma_logic_split_dest(s, nn, 2, 1, alu_keeper(s, nn, 2) + 2 * nn);
        lemma_control_dest(s, nn, alu_decoder_splitter(s, nn, 2), 1);
        lemma_arith_split_dest(s, nn, 3, 0, alu_enable(s, nn, 4) + 2 * nn);
        lemma_control_dest(s, nn, alu_decoder_splitter(s, nn, 3), 0);
        lemma_arith_split_dest(s, nn, 3, 1, alu_keeper(s, nn, 3) + 2 * nn);
        lemma_control_dest(s, nn, alu_decoder_splitter(s, nn, 3), 1);
        lemma_arith_split_dest(s, nn, 4, 0, alu_enable(s, nn, 5) + 2 * nn);
        lemma_control_dest(s, nn, alu_decoder_splitter(s, nn, 4), 0);
        lemma_arith_split_dest(s, nn, 4, 1, alu_keeper(s, nn, 4) + 2 * nn);
        lemma_control_dest(s, nn, alu_decoder_splitter(s, nn, 4), 1);
        lemma_arith_split_dest(s, nn, 5, 0, alu_enable(s, nn, 6) + 2 * nn);
        lemma_control_dest(s, nn, alu_decoder_splitter(s, nn, 5), 0);
        lemma_arith_split_dest(s, nn, 5, 1, alu_keeper(s, nn, 5) + 2 * nn);
        lemma_control_dest(s, nn, alu_decoder_splitter(s, nn, 5), 1);
        lemma_arith_split_dest(s, nn, 5, 2, alu_keeper(s, nn, 8) + 2 * nn);
        lemma_control_dest(s, nn, alu_decoder_splitter(s, nn, 5), 2);
        assert(c.link(d + 3 + 5, 0) == Some((alu_decoder_splitter(s, nn, 0), 0int)));
        assert(c.link(d + 3 + 4, 0) == Some((alu_decoder_splitter(s, nn, 1), 0int)));
        assert(c.link(d + 3 + 3, 0) == Some((alu_decoder_splitter(s, nn, 2), 0int)));
        assert(c.link(d + 3 + 2, 0) == Some((alu_decoder_splitter(s, nn, 3), 0int)));
        assert(c.link(d + 3 + 1, 0) == Some((alu_decoder_splitter(s, nn, 4), 0int)));
        assert(c.link(d + 3 + 0, 0) == Some((alu_decoder_splitter(s, nn, 5), 0int)));
        assert(c.link(alu_decoder_splitter(s, nn, 0), 0) == Some((alu_enable(s, nn, 1) + 2 * nn, 0int)));
        assert(c.link(alu_decoder_splitter(s, nn, 0), 1) == Some((alu_keeper(s, nn, 0) + 2 * nn, 0int)));
        assert(c.link(alu_decoder_splitter(s, nn, 0), 2) == Some((alu_keeper(s, nn, 6) + 2 * nn, 0int)));
        assert(c.link(alu_decoder_splitter(s, nn, 1), 0) == Some((alu_enable(s, nn, 2) + 2 * nn, 0int)));
        assert(c.link(alu_decoder_splitter(s, nn, 1), 1) == Some((alu_keeper(s, nn, 1) + 2 * nn, 0int)));
        assert(c.link(alu_decoder_splitter(s, nn, 1), 2) == Some((alu_keeper(s, nn, 7) + 2 * nn, 0int)));
        assert(c.link(alu_decoder_splitter(s, nn, 2), 0) == Some((alu_enable(s, nn, 3) + 2 * nn, 0int)));
        assert(c.link(alu_decoder_splitter(s, nn, 2), 1) == Some((alu_keeper(s, nn, 2) + 2 * nn, 0int)));
        assert(c.link(alu_decoder_splitter(s, nn, 3), 0) == Some((alu_enable(s, nn, 4) + 2 * nn, 0int)));
        assert(c.link(alu_decoder_splitter(s, nn, 3), 1) == Some((alu_keeper(s, nn, 3) + 2 * nn, 0int)));
        assert(c.link(alu_decoder_splitter(s, nn, 4), 0) == Some((alu_enable(s, nn, 5) + 2 * nn, 0int)));
        assert(c.link(alu_decoder_splitter(s, nn, 4), 1) == Some((alu_keeper(s, nn, 4) + 2 * nn, 0int)));
        assert(c.link(alu_decoder_splitter(s, nn, 5), 0) == Some((alu_enable(s, nn, 6) + 2 * nn, 0int)));
        assert(c.link(alu_decoder_splitter(s, nn, 5), 1) == Some((alu_keeper(s, nn, 5) + 2 * nn, 0int)));
        assert(c.link(alu_decoder_splitter(s, nn, 5), 2) == Some((alu_keeper(s, nn, 8) + 2 * nn, 0int)));
    }
}

impl LogicGate for ArithmeticLogicUnit {
    open spec fn spec_input_pin(&self, index: int) -> (int, int) {
        (self.complex_gate.input_gates@[index] as int, 0)
    }

    open spec fn spec_output_pin(&self, index: int) -> (int, int) {
        (self.complex_gate.output_gates@[index] as int, 0)
    }

    open spec fn spec_num_inputs(&self) -> nat {
        self.complex_gate.input_gates@.len()
    }

    open spec fn spec_num_outputs(&self) -> nat {
        self.complex_gate.output_gates@.len()
    }

    open spec fn spec_gate_type(&self) -> GateType {
        self.complex_gate.gate_type
    }

    open spec fn spec_unique_id(&self) -> UniqueID {
        self.complex_gate.unique_id
    }

    fn input_pin(&self, index: usize) -> (res: (usize, usize)) {
        (self.complex_gate.input_gates[index], 0)
    }

    fn output_pin(&self, index: usize) -> (res: (usize, usize)) {
        (self.complex_gate.output_gates[index], 0)
    }

    fn num_inputs(&self) -> (res: usize) {
        self.complex_gate.input_gates.len()
    }

    fn num_outputs(&self) -> (res: usize) {
        self.complex_gate.output_gates.len()
    }

    fn get_gate_type(&self) -> (res: GateType) {
        self.complex_gate.gate_type
    }

    fn get_unique_id(&self) -> (res: UniqueID) {
        self.complex_gate.unique_id
    }
}

impl ArithmeticLogicUnit {
    /// The input or output index that `tag` names.
    pub fn get_index_from_tag(&self, tag: &str) -> (res: Option<usize>)
        ensures
            res == last_tag_index(self.complex_gate.gate_tags_to_index@, tag@),
    {
        self.complex_gate.get_index_from_tag(tag)
    }

    /// Brings the outputs up to date with what reaches them and returns their states.
    pub fn fetch_output_signals(&self, circuit: &mut Circuit) -> (res: Vec<GateOutputState>)
        requires
            old(circuit).wf(),
            complex_fits(&self.complex_gate, old(circuit).shape(), old(circuit).types()),
        ensures
            final(circuit).wf(),
            final(circuit).shape() == old(circuit).shape(),
            final(circuit).types() == old(circuit).types(),
            old(circuit).wiring_kept(*final(circuit)),
            res@.len() == self.complex_gate.output_gates@.len(),
            forall|i: int| 0 <= i < res@.len() ==> #[trigger] res@[i] == final(circuit).node(self.complex_gate.output_gates@[i] as int).outputs()[0],
    {
        proof {
            assert forall|i: int| 0 <= i < self.complex_gate.output_gates@.len() implies #[trigger] old(circuit).has_output(self.complex_gate.output_gates@[i] as int, 0) by {}
        }
        self.complex_gate.fetch_output_signals_calculate(circuit)
    }

    pub fn get_tag(&self) -> (res: String)
        ensures
            res@ == self.complex_gate.tag@,
    {
        self.complex_gate.tag.clone()
    }

    pub fn set_tag(&mut self, tag: &str)
        ensures
            final(self).complex_gate.tag@ == tag@,
            final(self).complex_gate.input_gates == old(self).complex_gate.input_gates,
            final(self).complex_gate.output_gates == old(self).complex_gate.output_gates,
            final(self).complex_gate.gate_tags_to_index == old(self).complex_gate.gate_tags_to_index,
    {
        self.complex_gate.tag = tag.to_owned();
    }

    pub fn toggle_output_printing(&mut self, print_output: bool)
        ensures
            final(self).complex_gate.should_print_output == print_output,
            final(self).complex_gate.input_gates == old(self).complex_gate.input_gates,
            final(self).complex_gate.output_gates == old(self).complex_gate.output_gates,
    {
        self.complex_gate.should_print_output = print_output;
    }

    /// The number of circuit gates that make up this gate.
    pub fn num_children_gates(&self) -> (res: usize)
        ensures
            res == self.complex_gate.number_child_gates,
    {
        self.complex_gate.number_child_gates
    }
}

} // verus!
