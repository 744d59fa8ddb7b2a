use vstd::prelude::*;

use crate::circuit::{settled_from, Circuit};
use crate::logic::basic_gates::{And, Not, Or};
use crate::logic::foundations::{complex_fits, last_tag_index, ComplexGateMembers, GateOutputState, GateType, LogicGate};
use crate::logic::signals::{GateLogicError, UniqueID};
use crate::logic::tags::{decimal_chars, double_numbered_tag, numbered, numbered_tag};
use crate::netlist::{spec_addable, spec_shape_of, spec_types_of, GateSpec};
use vstd::arithmetic::power2::{lemma2_to64, lemma_pow2_pos, lemma_pow2_strictly_increases, lemma_pow2_unfold, pow2};

verus! {

/// The tag of bit `j` of data input `i` of a multiplexer.
pub open spec fn mux_input_tag(i: int, j: int) -> Seq<char> {
    numbered("I_"@, i) + "_bit_"@ + decimal_chars(j as nat)
}

/// Data input `x` (input `x / bus` of bit `x % bus`) of a multiplexer with `bus` bits and
/// `inputs` inputs standing at `start` in `c` feeds input 0 of its AND.
pub open spec fn mux_input_wired(c: Circuit, start: int, bus: int, inputs: int, x: int) -> bool {
    let a = bus * inputs;
    c.wire(start + a + bus + x, 0, Some((start + (x % bus) * inputs + x / bus, 0int)))
}

/// AND `x` of such a multiplexer feeds input `x % inputs` of OR `x / inputs`.
pub open spec fn mux_and_wired(c: Circuit, start: int, bus: int, inputs: int, x: int) -> bool {
    let a = bus * inputs;
    c.wire(start + x, 0, Some((start + a + x / inputs, x % inputs)))
}

/// OR `i` of such a multiplexer with `lines` control lines feeds `o_<i>`.
pub open spec fn mux_or_wired(c: Circuit, start: int, bus: int, inputs: int, lines: int, i: int) -> bool {
    let a = bus * inputs;
    c.wire(start + a + i, 0, Some((start + 2 * a + bus + 2 * lines + i, 0int)))
}

/// Control line `k` of such a multiplexer feeds its NOT.
pub open spec fn mux_control_wired(c: Circuit, start: int, bus: int, inputs: int, k: int) -> bool {
    let a = bus * inputs;
    c.wire(start + 2 * a + bus + 2 * k + 1, 0, Some((start + 2 * a + bus + 2 * k, 0int)))
}

/// A multiplexer of `number_inputs` inputs of `bus_size` bits: the control lines `C_<k>`
/// (`C_0` the highest bit) select input `i`, whose bits `I_<i>_bit_<j>` show on `o_<j>`. Every
/// bit of every input has an AND of itself and the control lines (straight or through their
/// NOT); an OR per bit gathers the ANDs.
pub struct VariableBitMultiplexer {
    pub complex_gate: ComplexGateMembers,
    pub input_and_gates: Vec<And>,
    pub input_or_gates: Vec<Or>,
    pub control_lines: Vec<Not>,
}

impl VariableBitMultiplexer {
    /// The numbers of inputs and outputs of the gates of a multiplexer, in order: the ANDs, the
    /// ORs, the data inputs, a NOT and a control input per line, and the outputs.
    pub open spec fn spec_shape(bus: nat, inputs: nat, lines: nat) -> Seq<(nat, nat)> {
        let a = bus * inputs;
        Seq::new(
            2 * a + 2 * bus + 2 * lines,
            |k: int|
                if k < a {
                    ((lines + 1) as nat, 1nat)
                } else if k < a + bus {
                    (inputs, 1nat)
                } else if k < 2 * a + bus {
                    (1nat, 1nat)
                } else if k < 2 * a + bus + 2 * lines {
                    if (k - 2 * a - bus) % 2 == 0 {
                        (1nat, (a / 2) as nat)
                    } else {
                        (1nat, (a / 2 + 1) as nat)
                    }
                } else {
                    (1nat, 1nat)
                },
        )
    }

    /// The types of those gates.
    pub open spec fn spec_types(bus: nat, inputs: nat, lines: nat) -> Seq<GateType> {
        let a = bus * inputs;
        Seq::new(
            2 * a + 2 * bus + 2 * lines,
            |k: int|
                if k < a {
                    GateType::AndType
                } else if k < a + bus {
                    GateType::OrType
                } else if k < 2 * a + bus {
                    GateType::SimpleInputType
                } else if k < 2 * a + bus + 2 * lines {
                    if (k - 2 * a - bus) % 2 == 0 {
                        GateType::NotType
                    } else {
                        GateType::SimpleInputType
                    }
                } else {
                    GateType::SimpleOutputType
                },
        )
    }

    /// This multiplexer stands at gates `start..` of `c` as `spec_shape` lays them out, with
    /// `lines` control lines, and is wired as `mux_control_wired`, `mux_input_wired`,
    /// `mux_and_wired` and `mux_or_wired` say.
    pub open spec fn wired(&self, c: Circuit, start: int, bus: nat, inputs: nat, lines: nat) -> bool {
        let a = (bus * inputs) as int;
        let b = bus as int;
        &&& self.complex_gate.input_gates@ == Seq::new(bus * inputs, |x: int| (start + a + b + x) as usize) + Seq::new(
            lines,
            |k: int| (start + 2 * a + b + 2 * k + 1) as usize,
        )
        &&& self.complex_gate.output_gates@ == Seq::new(bus, |i: int| (start + 2 * a + b + 2 * lines + i) as usize)
        &&& self.complex_gate.gate_type == GateType::VariableBitMultiplexerType
        &&& self.input_and_gates@.len() == a
        &&& forall|x: int| 0 <= x < a ==> (#[trigger] self.input_and_gates@[x]).gate == start + x
        &&& self.input_or_gates@.len() == b
        &&& forall|i: int| 0 <= i < b ==> (#[trigger] self.input_or_gates@[i]).gate == start + a + i
        &&& self.control_lines@.len() == lines
        &&& forall|k: int| 0 <= k < lines ==> (#[trigger] self.control_lines@[k]).gate == start + 2 * a + b + 2 * k
        &&& forall|k: int| 0 <= k < lines ==> #[trigger] mux_control_wired(c, start, b, inputs as int, k)
        &&& forall|x: int| 0 <= x < a ==> #[trigger] mux_input_wired(c, start, b, inputs as int, x)
        &&& forall|x: int| 0 <= x < a ==> #[trigger] mux_and_wired(c, start, b, inputs as int, x)
        &&& forall|i: int| 0 <= i < b ==> #[trigger] mux_or_wired(c, start, b, inputs as int, lines as int, i)
    }

    /// Wired as above, with its inputs and outputs in the circuit and tagged `I_<i>_bit_<j>`,
    /// `C_<k>` and `o_<j>`.
    pub open spec fn built(&self, c: Circuit, start: int, bus: nat, inputs: nat, lines: nat) -> bool {
        &&& self.wired(c, start, bus, inputs, lines)
        &&& complex_fits(&self.complex_gate, c.shape(), c.types())
        &&& self.complex_gate.tag_names() == Seq::new(bus * inputs, |x: int| mux_input_tag(x / bus as int, x % bus as int))
            + Seq::new(lines, |k: int| numbered("C_"@, k)) + Seq::new(bus, |i: int| numbered("o_"@, i))
        &&& self.complex_gate.tags_laid_out()
    }
}

/// The number of control lines that select among `n` inputs, `n` being a power of two.
fn control_lines_for(n: usize) -> (res: usize)
    requires
        exists|e: nat| pow2(e) == n,
    ensures
        pow2(res as nat) == n,
{
    proof {
        lemma2_to64();
    }
    let ghost e = choose|e: nat| pow2(e) == n;
    proof {
        lemma_pow2_pos(e);
    }
    let mut p: usize = 1;
    let mut c: usize = 0;
    while p < n
        invariant
            p == pow2(c as nat),
            pow2(e) == n,
            p <= n,
            c <= e,
            c < p,
        decreases n - p,
    {
        proof {
            lemma_pow2_pos(c as nat);
            if c >= e {
                if c > e {
                    lemma_pow2_strictly_increases(e, c as nat);
                }
            }
            assert(c < e);
            lemma_pow2_unfold((c + 1) as nat);
            if c + 1 < e {
                lemma_pow2_strictly_increases((c + 1) as nat, e);
            }
        }
        p = p * 2;
        c = c + 1;
    }
    c
}

impl VariableBitMultiplexer {
    /// The gates of a multiplexer of `inputs` inputs of `bus` bits with `lines` control lines,
    /// and the tags of its inputs and outputs.
    fn gate_specs(bus: usize, inputs: usize, lines: usize) -> (res: (Vec<GateSpec>, Vec<String>, Vec<String>))
        requires
            bus >= 1,
            inputs >= 1,
            2 * (bus * inputs) + 2 * bus + 2 * lines < usize::MAX,
        ensures
            res.0@.len() == 2 * (bus * inputs) + 2 * bus + 2 * lines,
            spec_shape_of(res.0@) == Self::spec_shape(bus as nat, inputs as nat, lines as nat),
            spec_types_of(res.0@) == Self::spec_types(bus as nat, inputs as nat, lines as nat),
            forall|k: int| 0 <= k < res.0@.len() ==> spec_addable(#[trigger] res.0@[k]),
            res.1@.len() == bus * inputs + lines,
            forall|x: int| 0 <= x < bus * inputs ==> (#[trigger] res.1@[x])@ == mux_input_tag(x / bus as int, x % bus as int),
            forall|k: int| 0 <= k < lines ==> (#[trigger] res.1@[bus * inputs + k])@ == numbered("C_"@, k),
            res.2@.len() == bus,
            forall|i: int| 0 <= i < bus ==> (#[trigger] res.2@[i])@ == numbered("o_"@, i),
    {
        let a = bus * inputs;
        let half = a / 2;
        let ghost shape = Self::spec_shape(bus as nat, inputs as nat, lines as nat);
        let ghost types = Self::spec_types(bus as nat, inputs as nat, lines as nat);
        let mut specs: Vec<GateSpec> = Vec::new();
        let mut in_tags: Vec<String> = Vec::new();
        let mut out_tags: Vec<String> = Vec::new();
        let mut x: usize = 0;
        while x < a
            invariant
                x <= a,
                a == bus * inputs,
                half == a / 2,
                2 * a + 2 * bus + 2 * lines < usize::MAX,
                shape == Self::spec_shape(bus as nat, inputs as nat, lines as nat),
                types == Self::spec_types(bus as nat, inputs as nat, lines as nat),
                specs@.len() == x,
                forall|k: int| 0 <= k < specs@.len() ==> spec_addable(#[trigger] specs@[k]),
                forall|k: int| 0 <= k < specs@.len() ==> (#[trigger] specs@[k]).gate_type == types[k]
                    && (specs@[k].input_num as nat, specs@[k].output_num as nat) == shape[k],
            decreases a - x,
        {
            specs.push(GateSpec::new(GateType::AndType, lines + 1, 1, numbered_tag("and_", x)));
            x = x + 1;
        }
        let mut i: usize = 0;
        while i < bus
            invariant
                i <= bus,
                a == bus * inputs,
                half == a / 2,
                inputs >= 1,
                2 * a + 2 * bus + 2 * lines < usize::MAX,
                shape == Self::spec_shape(bus as nat, inputs as nat, lines as nat),
                types == Self::spec_types(bus as nat, inputs as nat, lines as nat),
                specs@.len() == a + i,
                forall|k: int| 0 <= k < specs@.len() ==> spec_addable(#[trigger] specs@[k]),
                forall|k: int| 0 <= k < specs@.len() ==> (#[trigger] specs@[k]).gate_type == types[k]
                    && (specs@[k].input_num as nat, specs@[k].output_num as nat) == shape[k],
            decreases bus - i,
        {
            specs.push(GateSpec::new(GateType::OrType, inputs, 1, numbered_tag("or_", i)));
            i = i + 1;
        }
        let mut x: usize = 0;
        while x < a
            invariant
                x <= a,
                a == bus * inputs,
                half == a / 2,
                bus >= 1,
                2 * a + 2 * bus + 2 * lines < usize::MAX,
                shape == Self::spec_shape(bus as nat, inputs as nat, lines as nat),
                types == Self::spec_types(bus as nat, inputs as nat, lines as nat),
                specs@.len() == a + bus + x,
                forall|k: int| 0 <= k < specs@.len() ==> spec_addable(#[trigger] specs@[k]),
                forall|k: int| 0 <= k < specs@.len() ==> (#[trigger] specs@[k]).gate_type == types[k]
                    && (specs@[k].input_num as nat, specs@[k].output_num as nat) == shape[k],
                in_tags@.len() == x,
                forall|m: int| 0 <= m < x ==> (#[trigger] in_tags@[m])@ == mux_input_tag(m / bus as int, m % bus as int),
            decreases a - x,
        {
            let tag = double_numbered_tag("I_", x / bus, "_bit_", x % bus);
            specs.push(GateSpec::new(GateType::SimpleInputType, 1, 1, double_numbered_tag("I_", x / bus, "_bit_", x % bus)));
            in_tags.push(tag);
            proof {
                reveal_strlit("I_");
                reveal_strlit("_bit_");
            }
            x = x + 1;
        }
        let mut k: usize = 0;
        while k < lines
            invariant
                k <= lines,
                a == bus * inputs,
                half == a / 2,
                2 * a + 2 * bus + 2 * lines < usize::MAX,
                shape == Self::spec_shape(bus as nat, inputs as nat, lines as nat),
                types == Self::spec_types(bus as nat, inputs as nat, lines as nat),
                specs@.len() == 2 * a + bus + 2 * k,
                forall|m: int| 0 <= m < specs@.len() ==> spec_addable(#[trigger] specs@[m]),
                forall|m: int| 0 <= m < specs@.len() ==> (#[trigger] specs@[m]).gate_type == types[m]
                    && (specs@[m].input_num as nat, specs@[m].output_num as nat) == shape[m],
                in_tags@.len() == a + k,
                forall|m: int| 0 <= m < a ==> (#[trigger] in_tags@[m])@ == mux_input_tag(m / bus as int, m % bus as int),
                forall|m: int| 0 <= m < k ==> (#[trigger] in_tags@[a + m])@ == numbered("C_"@, m),
            decreases lines - k,
        {
            specs.push(GateSpec::new(GateType::NotType, 1, half, numbered_tag("not_", k)));
            proof {
                assert((2 * a + bus + 2 * k - 2 * a - bus) % 2 == 0) by (nonlinear_arith);
            }
            let tag = numbered_tag("C_", k);
            specs.push(GateSpec::new(GateType::SimpleInputType, 1, half + 1, numbered_tag("C_", k)));
            proof {
                assert((2 * a + bus + 2 * k + 1 - 2 * a - bus) % 2 == 1) by (nonlinear_arith);
            }
            in_tags.push(tag);
            k = k + 1;
        }
        let mut i: usize = 0;
        while i < bus
            invariant
                i <= bus,
                a == bus * inputs,
                half == a / 2,
                2 * a + 2 * bus + 2 * lines < usize::MAX,
                shape == Self::spec_shape(bus as nat, inputs as nat, lines as nat),
                types == Self::spec_types(bus as nat, inputs as nat, lines as nat),
                specs@.len() == 2 * a + bus + 2 * lines + i,
                forall|m: int| 0 <= m < specs@.len() ==> spec_addable(#[trigger] specs@[m]),
                forall|m: int| 0 <= m < specs@.len() ==> (#[trigger] specs@[m]).gate_type == types[m]
                    && (specs@[m].input_num as nat, specs@[m].output_num as nat) == shape[m],
                out_tags@.len() == i,
                forall|m: int| 0 <= m < i ==> (#[trigger] out_tags@[m])@ == numbered("o_"@, m),
            decreases bus - i,
        {
            let tag = numbered_tag("o_", i);
            specs.push(GateSpec::new(GateType::SimpleOutputType, 1, 1, numbered_tag("o_", i)));
            out_tags.push(tag);
            i = i + 1;
        }
        proof {
            assert(spec_shape_of(specs@) =~= shape);
            assert(spec_types_of(specs@) =~= types);
        }
        (specs, in_tags, out_tags)
    }
}

/// The number of control lines of a multiplexer of `n` inputs, `n` being a power of two.
pub open spec fn log2_of(n: nat) -> nat {
    choose|e: nat| pow2(e) == n
}

/// The AND and OR that a data input and an AND of a multiplexer reach exist.
pub proof fn lemma_mux_index(x: int, bus: int, inputs: int)
    requires
        0 <= x < bus * inputs,
        bus > 0,
        inputs > 0,
    ensures
        0 <= (x % bus) * inputs + x / bus < bus * inputs,
        0 <= x / inputs < bus,
        0 <= x % inputs < inputs,
        0 <= x / bus < inputs,
{
    assert(x == bus * (x / bus) + x % bus) by (nonlinear_arith) requires bus > 0;
    assert(0 <= x % bus < bus) by (nonlinear_arith) requires bus > 0;
    assert(0 <= x / bus) by (nonlinear_arith) requires bus > 0, x >= 0;
    assert(x / bus < inputs) by (nonlinear_arith)
        requires
            x == bus * (x / bus) + x % bus,
            0 <= x % bus,
            x < bus * inputs,
            bus > 0,
    ;
    assert((x % bus) * inputs + x / bus < bus * inputs) by (nonlinear_arith)
        requires
            0 <= x % bus <= bus - 1,
            0 <= x / bus < inputs,
            inputs > 0,
    ;
    assert(0 <= (x % bus) * inputs) by (nonlinear_arith) requires 0 <= x % bus, inputs > 0;
    assert(x == inputs * (x / inputs) + x % inputs) by (nonlinear_arith) requires inputs > 0;
    assert(0 <= x % inputs < inputs) by (nonlinear_arith) requires inputs > 0;
    assert(0 <= x / inputs) by (nonlinear_arith) requires inputs > 0, x >= 0;
    assert(x / inputs < bus) by (nonlinear_arith)
        requires
            x == inputs * (x / inputs) + x % inputs,
            0 <= x % inputs,
            x < bus * inputs,
            inputs > 0,
    ;
}

impl VariableBitMultiplexer {
    /// Adds a multiplexer of `number_inputs` inputs of `bus_size` bits to the circuit, wires it
    /// and primes it. Fails only when priming does not come to rest or two senders drive one input.
    #[verifier::spinoff_prover]
    #[verifier::rlimit(100)]
    pub fn new(circuit: &mut Circuit, bus_size: usize, number_inputs: usize) -> (res: Result<Self, GateLogicError>)
        requires
            old(circuit).wf(),
            bus_size >= 1,
            exists|e: nat| pow2(e) == number_inputs,
            old(circuit).len() + 2 * (bus_size * number_inputs) + 2 * bus_size + 2 * log2_of(number_inputs as nat) < usize::MAX,
        ensures
            final(circuit).wf(),
            final(circuit).clock_tick_number == old(circuit).clock_tick_number,
            final(circuit).shape() == old(circuit).shape() + Self::spec_shape(
                bus_size as nat,
                number_inputs as nat,
                log2_of(number_inputs as nat),
            ),
            final(circuit).types() == old(circuit).types() + Self::spec_types(
                bus_size as nat,
                number_inputs as nat,
                log2_of(number_inputs as nat),
            ),
            old(circuit).wiring_kept(*final(circuit)),
            forall|g: int, j: int, d: Option<(int, int)>| old(circuit).wire(g, j, d) ==> #[trigger] final(circuit).wire(g, j, d),
            match res {
                Ok(gate) => {
                    &&& gate.built(
                        *final(circuit),
                        old(circuit).len() as int,
                        bus_size as nat,
                        number_inputs as nat,
                        log2_of(number_inputs as nat),
                    )
                    &&& settled_from(*final(circuit), old(circuit).len() as int)
                },
                Err(e) => crate::run_circuit::failure_shown(*final(circuit), e),
            },
    {
        let ghost c0 = *circuit;
        let start = circuit.num_gates();
        let bus = bus_size;
        let inputs = number_inputs;
        let lines = control_lines_for(inputs);
        proof {
            let e = log2_of(inputs as nat);
            assert(pow2(e) == inputs);
            if e < lines {
                lemma_pow2_strictly_increases(e, lines as nat);
            }
            if lines < e {
                lemma_pow2_strictly_increases(lines as nat, e);
            }
            assert(lines == e);
            lemma_pow2_pos(lines as nat);
            assert(bus * inputs >= 1) by (nonlinear_arith) requires bus >= 1, inputs >= 1;
        }
        let a = bus * inputs;
        let (specs, in_tags, out_tags) = Self::gate_specs(bus, inputs, lines);
        circuit.add_gates(&specs);
        let ghost c1 = *circuit;
        let ghost shape = Self::spec_shape(bus as nat, inputs as nat, lines as nat);
        proof {
            assert(c0.shape().len() == c0.len());
            assert(c0.types().len() == c0.len());
            assert forall|k: int| 0 <= k < shape.len() implies #[trigger] c1.shape()[start + k] == shape[k] by {}
        }
        let mut input_gates: Vec<usize> = Vec::new();
        let mut x: usize = 0;
        while x < a
            invariant
                x <= a,
                start + 2 * a + 2 * bus + 2 * lines < usize::MAX,
                input_gates@ == Seq::new(x as nat, |m: int| (start + a + bus + m) as usize),
            decreases a - x,
        {
            input_gates.push(start + a + bus + x);
            proof {
                assert(input_gates@ =~= Seq::new(x as nat + 1, |m: int| (start + a + bus + m) as usize));
            }
            x = x + 1;
        }
        let ghost data_inputs = input_gates@;
        let mut control_lines: Vec<Not> = Vec::new();
        let mut k: usize = 0;
        while k < lines
            invariant
                k <= lines,
                *circuit == c1,
                c1.len() == start + 2 * a + 2 * bus + 2 * lines,
                start + 2 * a + 2 * bus + 2 * lines < usize::MAX,
                input_gates@ == data_inputs + Seq::new(k as nat, |m: int| (start + 2 * a + bus + 2 * m + 1) as usize),
                control_lines@.len() == k,
                forall|m: int| 0 <= m < k ==> (#[trigger] control_lines@[m]).gate == start + 2 * a + bus + 2 * m,
            decreases lines - k,
        {
            input_gates.push(start + 2 * a + bus + 2 * k + 1);
            let g = start + 2 * a + bus + 2 * k;
            control_lines.push(Not { gate: g, input_num: 1, output_num: a / 2, unique_id: circuit.gates[g].members.unique_id });
            proof {
                assert(input_gates@ =~= data_inputs + Seq::new(k as nat + 1, |m: int| (start + 2 * a + bus + 2 * m + 1) as usize));
            }
            k = k + 1;
        }
        let mut output_gates: Vec<usize> = Vec::new();
        let mut input_or_gates: Vec<Or> = Vec::new();
        let mut i: usize = 0;
        while i < bus
            invariant
                i <= bus,
                *circuit == c1,
                c1.len() == start + 2 * a + 2 * bus + 2 * lines,
                start + 2 * a + 2 * bus + 2 * lines < usize::MAX,
                output_gates@ == Seq::new(i as nat, |m: int| (start + 2 * a + bus + 2 * lines + m) as usize),
                input_or_gates@.len() == i,
                forall|m: int| 0 <= m < i ==> (#[trigger] input_or_gates@[m]).gate == start + a + m,
            decreases bus - i,
        {
            output_gates.push(start + 2 * a + bus + 2 * lines + i);
            let g = start + a + i;
            input_or_gates.push(Or { gate: g, input_num: inputs, output_num: 1, unique_id: circuit.gates[g].members.unique_id });
            proof {
                assert(output_gates@ =~= Seq::new(i as nat + 1, |m: int| (start + 2 * a + bus + 2 * lines + m) as usize));
            }
            i = i + 1;
        }
        let mut input_and_gates: Vec<And> = Vec::new();
        let mut x: usize = 0;
        while x < a
            invariant
                x <= a,
                *circuit == c1,
                c1.len() == start + 2 * a + 2 * bus + 2 * lines,
                start + 2 * a + 2 * bus + 2 * lines < usize::MAX,
                input_and_gates@.len() == x,
                forall|m: int| 0 <= m < x ==> (#[trigger] input_and_gates@[m]).gate == start + m,
            decreases a - x,
        {
            let g = start + x;
            input_and_gates.push(And { gate: g, input_num: lines + 1, output_num: 1, unique_id: circuit.gates[g].members.unique_id });
            x = x + 1;
        }
        let complex_gate = ComplexGateMembers::from_tags(
            circuit,
            GateType::VariableBitMultiplexerType,
            input_gates,
            output_gates,
            in_tags,
            out_tags,
        );
        Self::connect_gates(circuit, start, bus, inputs, lines);
        let ghost c2 = *circuit;
        let mut complex_gate = complex_gate;
        complex_gate.number_child_gates = 2 * a + 2 * bus + 2 * lines;
        let gate = VariableBitMultiplexer { complex_gate, input_and_gates, input_or_gates, control_lines };
        proof {
            let expected = Seq::new((bus * inputs) as nat, |x: int| mux_input_tag(x / bus as int, x % bus as int))
                + Seq::new(lines as nat, |k: int| numbered("C_"@, k)) + Seq::new(bus as nat, |i: int| numbered("o_"@, i));
            assert forall|t: int| 0 <= t < gate.complex_gate.tag_names().len() implies #[trigger] gate.complex_gate.tag_names()[t] == expected[t] by {
                if t < a {
                } else if t < a + lines {
                    assert(in_tags@[a + (t - a)]@ == numbered("C_"@, t - a));
                } else {
                    assert(out_tags@[t - a - lines]@ == numbered("o_"@, t - a - lines));
                }
            }
            assert(gate.complex_gate.tag_names() =~= Seq::new((bus * inputs) as nat, |x: int| mux_input_tag(x / bus as int, x % bus as int))
                + Seq::new(lines as nat, |k: int| numbered("C_"@, k)) + Seq::new(bus as nat, |i: int| numbered("o_"@, i)));
            assert forall|i: int| 0 <= i < gate.complex_gate.input_gates@.len() implies {
                let g = #[trigger] gate.complex_gate.input_gates@[i] as int;
                0 <= g < c2.shape().len() && c2.shape()[g].0 >= 1 && c2.types()[g] == GateType::SimpleInputType
            } by {
                if i < a {
                    assert(c1.shape()[start + (a + bus + i)] == shape[a + bus + i]);
                } else {
                    let k = i - a;
                    assert(c1.shape()[start + (2 * a + bus + 2 * k + 1)] == shape[2 * a + bus + 2 * k + 1]);
                    assert((2 * a + bus + 2 * k + 1 - 2 * a - bus) % 2 == 1) by (nonlinear_arith);
                }
            }
            assert forall|i: int| 0 <= i < gate.complex_gate.output_gates@.len() implies {
                let g = #[trigger] gate.complex_gate.output_gates@[i] as int;
                0 <= g < c2.shape().len() && c2.shape()[g].1 >= 1 && c2.types()[g] == GateType::SimpleOutputType
            } by {
                assert(c1.shape()[start + (2 * a + bus + 2 * lines + i)] == shape[2 * a + bus + 2 * lines + i]);
            }
            assert(gate.built(c2, start as int, bus as nat, inputs as nat, lines as nat));
            assert forall|g: int, j2: int| c0.has_output(g, j2) implies #[trigger] c2.link(g, j2) == c0.link(g, j2) by {
                assert(c1.has_output(g, j2));
            }
        }
        let primed = circuit.prime_from(start);
        proof {
            crate::circuit::lemma_wire_kept(c2, *circuit);
            assert(c2.shape().subrange(0, c0.shape().len() as int) =~= c0.shape());
            crate::circuit::lemma_wiring_kept_trans(c0, c2, *circuit);
            assert forall|g: int, j2: int, d: Option<(int, int)>| c0.wire(g, j2, d) implies #[trigger] circuit.wire(g, j2, d) by {
                assert(c1.wire(g, j2, d));
                assert(c2.wire(g, j2, d));
            }
            assert forall|k: int| 0 <= k < lines implies #[trigger] mux_control_wired(*circuit, start as int, bus as int, inputs as int, k) by {
                assert(mux_control_wired(c2, start as int, bus as int, inputs as int, k));
            }
            assert forall|x: int| 0 <= x < a implies #[trigger] mux_input_wired(*circuit, start as int, bus as int, inputs as int, x) by {
                assert(mux_input_wired(c2, start as int, bus as int, inputs as int, x));
            }
            assert forall|x: int| 0 <= x < a implies #[trigger] mux_and_wired(*circuit, start as int, bus as int, inputs as int, x) by {
                assert(mux_and_wired(c2, start as int, bus as int, inputs as int, x));
            }
            assert forall|i: int| 0 <= i < bus implies #[trigger] mux_or_wired(*circuit, start as int, bus as int, inputs as int, lines as int, i) by {
                assert(mux_or_wired(c2, start as int, bus as int, inputs as int, lines as int, i));
            }
            assert(gate.built(*circuit, start as int, bus as nat, inputs as nat, lines as nat));
        }
        match primed {
            Ok(()) => Ok(gate),
            Err(e) => Err(e),
        }
    }
}

impl VariableBitMultiplexer {
    /// Wires a multiplexer whose gates stand from `start` on, in this order: each
    /// control line to its NOT; then, input by input and bit by bit, the data input to its AND
    /// and every control line, straight or through its NOT as the bit of the input's number
    /// says (highest line first), taking each time the next free output; then the ANDs to the
    /// ORs and the ORs to the outputs.
    #[verifier::spinoff_prover]
    #[verifier::rlimit(100)]
    fn connect_gates(circuit: &mut Circuit, start: usize, bus: usize, inputs: usize, lines: usize)
        requires
            old(circuit).wf(),
            bus >= 1,
            inputs >= 1,
            pow2(lines as nat) == inputs,
            start + 2 * (bus * inputs) + 2 * bus + 2 * lines < usize::MAX,
            old(circuit).len() == start + 2 * (bus * inputs) + 2 * bus + 2 * lines,
            forall|k: int|
                0 <= k < 2 * (bus * inputs) + 2 * bus + 2 * lines ==> #[trigger] old(circuit).shape()[start + k] == Self::spec_shape(
                    bus as nat,
                    inputs as nat,
                    lines as nat,
                )[k],
        ensures
            final(circuit).wf(),
            final(circuit).shape() == old(circuit).shape(),
            final(circuit).types() == old(circuit).types(),
            final(circuit).clock_tick_number == old(circuit).clock_tick_number,
            forall|g: int, j: int| old(circuit).has_output(g, j) && g < start ==> #[trigger] final(circuit).link(g, j) == old(circuit).link(g, j),
            forall|k: int| 0 <= k < lines ==> #[trigger] mux_control_wired(*final(circuit), start as int, bus as int, inputs as int, k),
            forall|x: int| 0 <= x < bus * inputs ==> #[trigger] mux_input_wired(*final(circuit), start as int, bus as int, inputs as int, x),
            forall|x: int| 0 <= x < bus * inputs ==> #[trigger] mux_and_wired(*final(circuit), start as int, bus as int, inputs as int, x),
            forall|i: int| 0 <= i < bus ==> #[trigger] mux_or_wired(*final(circuit), start as int, bus as int, inputs as int, lines as int, i),
    {
        let ghost c1 = *circuit;
        let a = bus * inputs;
        let half = a / 2;
        let ghost shape = Self::spec_shape(bus as nat, inputs as nat, lines as nat);
        let mut k: usize = 0;
        while k < lines
            invariant
                k <= lines,
                a == bus * inputs,
                start + 2 * a + 2 * bus + 2 * lines < usize::MAX,
                shape == Self::spec_shape(bus as nat, inputs as nat, lines as nat),
                circuit.wf(),
                circuit.shape() == c1.shape(),
                circuit.types() == c1.types(),
                circuit.clock_tick_number == c1.clock_tick_number,
                c1.len() == start + 2 * a + 2 * bus + 2 * lines,
                forall|m: int| 0 <= m < 2 * a + 2 * bus + 2 * lines ==> #[trigger] c1.shape()[start + m] == shape[m],
                forall|g: int, j2: int| c1.has_output(g, j2) && g < start ==> #[trigger] circuit.link(g, j2) == c1.link(g, j2),
                forall|m: int| 0 <= m < k ==> #[trigger] mux_control_wired(*circuit, start as int, bus as int, inputs as int, m),
            decreases lines - k,
        {
            let ghost before = *circuit;
            proof {
                assert(c1.shape()[start + (2 * a + bus + 2 * k + 1)] == shape[2 * a + bus + 2 * k + 1]);
                assert(c1.shape()[start + (2 * a + bus + 2 * k)] == shape[2 * a + bus + 2 * k]);
                assert((2 * a + bus + 2 * k + 1 - 2 * a - bus) % 2 == 1) by (nonlinear_arith);
                assert((2 * a + bus + 2 * k - 2 * a - bus) % 2 == 0) by (nonlinear_arith);
            }
            circuit.connect(start + 2 * a + bus + 2 * k + 1, 0, start + 2 * a + bus + 2 * k, 0);
            proof {
                assert forall|m: int| 0 <= m < k + 1 implies #[trigger] mux_control_wired(*circuit, start as int, bus as int, inputs as int, m) by {
                    if m < k {
                        assert(mux_control_wired(before, start as int, bus as int, inputs as int, m));
                    }
                }
                assert forall|g: int, j2: int| c1.has_output(g, j2) && g < start implies #[trigger] circuit.link(g, j2) == c1.link(g, j2) by {
                    assert(before.link(g, j2) == c1.link(g, j2));
                }
            }
            k = k + 1;
        }
        let mut normal_index: Vec<usize> = Vec::new();
        let mut not_index: Vec<usize> = Vec::new();
        let mut k: usize = 0;
        while k < lines
            invariant
                k <= lines,
                normal_index@.len() == k,
                not_index@.len() == k,
                forall|m: int| 0 <= m < k ==> #[trigger] normal_index@[m] == 1,
                forall|m: int| 0 <= m < k ==> #[trigger] not_index@[m] == 0,
            decreases lines - k,
        {
            normal_index.push(1);
            not_index.push(0);
            k = k + 1;
        }
        let mut x: usize = 0;
        while x < a
            invariant
                x <= a,
                a == bus * inputs,
                bus >= 1,
                inputs >= 1,
                pow2(lines as nat) == inputs,
                half == a / 2,
                start + 2 * a + 2 * bus + 2 * lines < usize::MAX,
                shape == Self::spec_shape(bus as nat, inputs as nat, lines as nat),
                circuit.wf(),
                circuit.shape() == c1.shape(),
                circuit.types() == c1.types(),
                circuit.clock_tick_number == c1.clock_tick_number,
                c1.len() == start + 2 * a + 2 * bus + 2 * lines,
                forall|m: int| 0 <= m < 2 * a + 2 * bus + 2 * lines ==> #[trigger] c1.shape()[start + m] == shape[m],
                forall|g: int, j2: int| c1.has_output(g, j2) && g < start ==> #[trigger] circuit.link(g, j2) == c1.link(g, j2),
                forall|m: int| 0 <= m < lines ==> #[trigger] mux_control_wired(*circuit, start as int, bus as int, inputs as int, m),
                forall|m: int| 0 <= m < x ==> #[trigger] mux_input_wired(*circuit, start as int, bus as int, inputs as int, m),
                normal_index@.len() == lines,
                not_index@.len() == lines,
                forall|m: int| 0 <= m < lines ==> 1 <= #[trigger] normal_index@[m] <= half + 1,
                forall|m: int| 0 <= m < lines ==> #[trigger] not_index@[m] <= half,
            decreases a - x,
        {
            let ghost outer = *circuit;
            let i = x / bus;
            let j = x % bus;
            proof {
                lemma_mux_index(x as int, bus as int, inputs as int);
                assert(j * inputs + i < a);
                assert(c1.shape()[start + (a + bus + x)] == shape[a + bus + x]);
                assert(c1.shape()[start + (j * inputs + i)] == shape[j * inputs + i]);
            }
            let and_index = j * inputs + i;
            circuit.connect(start + a + bus + x, 0, start + and_index, 0);
            proof {
                assert forall|m: int| 0 <= m < lines implies #[trigger] mux_control_wired(*circuit, start as int, bus as int, inputs as int, m) by {
                    assert(mux_control_wired(outer, start as int, bus as int, inputs as int, m));
                }
                assert(and_index == (x % bus) * inputs + x / bus);
                assert(circuit.wire(start + a + bus + x, 0, Some((start + and_index, 0int))));
                assert(mux_input_wired(*circuit, start as int, bus as int, inputs as int, x as int));
                assert forall|m: int| 0 <= m < x + 1 implies #[trigger] mux_input_wired(*circuit, start as int, bus as int, inputs as int, m) by {
                    if m < x {
                        assert(mux_input_wired(outer, start as int, bus as int, inputs as int, m));
                    }
                }
                assert forall|g: int, j2: int| c1.has_output(g, j2) && g < start implies #[trigger] circuit.link(g, j2) == c1.link(g, j2) by {
                    assert(outer.link(g, j2) == c1.link(g, j2));
                }
            }
            let ghost after_input = *circuit;
            let mut p: usize = inputs / 2;
            proof {
                if lines > 0 {
                    lemma_pow2_unfold(lines as nat);
                }
            }
            let mut k: usize = 0;
            while k < lines
                invariant
                    k <= lines,
                    a == bus * inputs,
                    x < a,
                    and_index < a,
                    i < inputs,
                    k < lines ==> p == pow2((lines - 1 - k) as nat),
                    pow2(lines as nat) == inputs,
                    half == a / 2,
                    start + 2 * a + 2 * bus + 2 * lines < usize::MAX,
                    shape == Self::spec_shape(bus as nat, inputs as nat, lines as nat),
                    circuit.wf(),
                    circuit.shape() == c1.shape(),
                    circuit.types() == c1.types(),
                    circuit.clock_tick_number == c1.clock_tick_number,
                    c1.len() == start + 2 * a + 2 * bus + 2 * lines,
                    forall|m: int| 0 <= m < 2 * a + 2 * bus + 2 * lines ==> #[trigger] c1.shape()[start + m] == shape[m],
                    forall|g: int, j2: int| c1.has_output(g, j2) && g < start ==> #[trigger] circuit.link(g, j2) == c1.link(g, j2),
                    forall|m: int| 0 <= m < lines ==> #[trigger] mux_control_wired(*circuit, start as int, bus as int, inputs as int, m),
                    forall|m: int| 0 <= m < x + 1 ==> #[trigger] mux_input_wired(*circuit, start as int, bus as int, inputs as int, m),
                    normal_index@.len() == lines,
                    not_index@.len() == lines,
                    forall|m: int| 0 <= m < lines ==> 1 <= #[trigger] normal_index@[m] <= half + 1,
                    forall|m: int| 0 <= m < lines ==> #[trigger] not_index@[m] <= half,
                decreases lines - k,
            {
                let ghost before = *circuit;
                proof {
                    lemma_pow2_pos((lines - 1 - k) as nat);
                    assert(c1.shape()[start + and_index] == shape[and_index as int]);
                    assert(c1.shape()[start + (2 * a + bus + 2 * k)] == shape[2 * a + bus + 2 * k]);
                    assert(c1.shape()[start + (2 * a + bus + 2 * k + 1)] == shape[2 * a + bus + 2 * k + 1]);
                    assert((2 * a + bus + 2 * k + 1 - 2 * a - bus) % 2 == 1) by (nonlinear_arith);
                    assert((2 * a + bus + 2 * k - 2 * a - bus) % 2 == 0) by (nonlinear_arith);
                }
                let bit = (i / p) % 2;
                if bit == 0 {
                    let next_index = not_index[k];
                    if next_index < half {
                        circuit.connect(start + 2 * a + bus + 2 * k, next_index, start + and_index, k + 1);
                        not_index.set(k, next_index + 1);
                    }
                } else {
                    let next_index = normal_index[k];
                    if next_index < half + 1 {
                        circuit.connect(start + 2 * a + bus + 2 * k + 1, next_index, start + and_index, k + 1);
                        normal_index.set(k, next_index + 1);
                    }
                }
                proof {
                    assert forall|m: int| 0 <= m < lines implies #[trigger] mux_control_wired(*circuit, start as int, bus as int, inputs as int, m) by {
                        assert(mux_control_wired(before, start as int, bus as int, inputs as int, m));
                    }
                    assert forall|m: int| 0 <= m < x + 1 implies #[trigger] mux_input_wired(*circuit, start as int, bus as int, inputs as int, m) by {
                        assert(mux_input_wired(before, start as int, bus as int, inputs as int, m));
                    }
                    assert forall|g: int, j2: int| c1.has_output(g, j2) && g < start implies #[trigger] circuit.link(g, j2) == c1.link(g, j2) by {
                        assert(before.link(g, j2) == c1.link(g, j2));
                    }
                    if k + 1 < lines {
                        lemma_pow2_unfold((lines - 1 - k) as nat);
                    }
                }
                p = p / 2;
                k = k + 1;
            }
            x = x + 1;
        }
        let mut x: usize = 0;
        while x < a
            invariant
                x <= a,
                a == bus * inputs,
                bus >= 1,
                inputs >= 1,
                start + 2 * a + 2 * bus + 2 * lines < usize::MAX,
                shape == Self::spec_shape(bus as nat, inputs as nat, lines as nat),
                circuit.wf(),
                circuit.shape() == c1.shape(),
                circuit.types() == c1.types(),
                circuit.clock_tick_number == c1.clock_tick_number,
                c1.len() == start + 2 * a + 2 * bus + 2 * lines,
                forall|m: int| 0 <= m < 2 * a + 2 * bus + 2 * lines ==> #[trigger] c1.shape()[start + m] == shape[m],
                forall|g: int, j2: int| c1.has_output(g, j2) && g < start ==> #[trigger] circuit.link(g, j2) == c1.link(g, j2),
                forall|m: int| 0 <= m < lines ==> #[trigger] mux_control_wired(*circuit, start as int, bus as int, inputs as int, m),
                forall|m: int| 0 <= m < a ==> #[trigger] mux_input_wired(*circuit, start as int, bus as int, inputs as int, m),
                forall|m: int| 0 <= m < x ==> #[trigger] mux_and_wired(*circuit, start as int, bus as int, inputs as int, m),
            decreases a - x,
        {
            let ghost before = *circuit;
            proof {
                lemma_mux_index(x as int, bus as int, inputs as int);
                assert(c1.shape()[start + x] == shape[x as int]);
                assert(c1.shape()[start + (a + x / inputs)] == shape[a + x / inputs]);
            }
            circuit.connect(start + x, 0, start + a + x / inputs, x % inputs);
            proof {
                assert forall|m: int| 0 <= m < lines implies #[trigger] mux_control_wired(*circuit, start as int, bus as int, inputs as int, m) by {
                    assert(mux_control_wired(before, start as int, bus as int, inputs as int, m));
                }
                assert forall|m: int| 0 <= m < a implies #[trigger] mux_input_wired(*circuit, start as int, bus as int, inputs as int, m) by {
                    assert(mux_input_wired(before, start as int, bus as int, inputs as int, m));
                }
                assert forall|m: int| 0 <= m < x + 1 implies #[trigger] mux_and_wired(*circuit, start as int, bus as int, inputs as int, m) by {
                    if m < x {
                        assert(mux_and_wired(before, start as int, bus as int, inputs as int, m));
                    }
                }
                assert forall|g: int, j2: int| c1.has_output(g, j2) && g < start implies #[trigger] circuit.link(g, j2) == c1.link(g, j2) by {
                    assert(before.link(g, j2) == c1.link(g, j2));
                }
            }
            x = x + 1;
        }
        let mut i: usize = 0;
        while i < bus
            invariant
                i <= bus,
                a == bus * inputs,
                start + 2 * a + 2 * bus + 2 * lines < usize::MAX,
                shape == Self::spec_shape(bus as nat, inputs as nat, lines as nat),
                circuit.wf(),
                circuit.shape() == c1.shape(),
                circuit.types() == c1.types(),
                circuit.clock_tick_number == c1.clock_tick_number,
                c1.len() == start + 2 * a + 2 * bus + 2 * lines,
                forall|m: int| 0 <= m < 2 * a + 2 * bus + 2 * lines ==> #[trigger] c1.shape()[start + m] == shape[m],
                forall|g: int, j2: int| c1.has_output(g, j2) && g < start ==> #[trigger] circuit.link(g, j2) == c1.link(g, j2),
                forall|m: int| 0 <= m < lines ==> #[trigger] mux_control_wired(*circuit, start as int, bus as int, inputs as int, m),
                forall|m: int| 0 <= m < a ==> #[trigger] mux_input_wired(*circuit, start as int, bus as int, inputs as int, m),
                forall|m: int| 0 <= m < a ==> #[trigger] mux_and_wired(*circuit, start as int, bus as int, inputs as int, m),
                forall|m: int| 0 <= m < i ==> #[trigger] mux_or_wired(*circuit, start as int, bus as int, inputs as int, lines as int, m),
            decreases bus - i,
        {
            let ghost before = *circuit;
            proof {
                assert(c1.shape()[start + (a + i)] == shape[a + i]);
                assert(c1.shape()[start + (2 * a + bus + 2 * lines + i)] == shape[2 * a + bus + 2 * lines + i]);
            }
            circuit.connect(start + a + i, 0, start + 2 * a + bus + 2 * lines + i, 0);
            proof {
                assert forall|m: int| 0 <= m < lines implies #[trigger] mux_control_wired(*circuit, start as int, bus as int, inputs as int, m) by {
                    assert(mux_control_wired(before, start as int, bus as int, inputs as int, m));
                }
                assert forall|m: int| 0 <= m < a implies #[trigger] mux_input_wired(*circuit, start as int, bus as int, inputs as int, m) by {
                    assert(mux_input_wired(before, start as int, bus as int, inputs as int, m));
                }
                assert forall|m: int| 0 <= m < a implies #[trigger] mux_and_wired(*circuit, start as int, bus as int, inputs as int, m) by {
                    assert(mux_and_wired(before, start as int, bus as int, inputs as int, m));
                }
                assert forall|m: int| 0 <= m < i + 1 implies #[trigger] mux_or_wired(*circuit, start as int, bus as int, inputs as int, lines as int, m) by {
                    if m < i {
                        assert(mux_or_wired(before, start as int, bus as int, inputs as int, lines as int, m));
                    }
                }
                assert forall|g: int, j2: int| c1.has_output(g, j2) && g < start implies #[trigger] circuit.link(g, j2) == c1.link(g, j2) by {
                    assert(before.link(g, j2) == c1.link(g, j2));
                }
            }
            i = i + 1;
        }
    }
}

impl LogicGate for VariableBitMultiplexer {
    open spec fn spec_input_pin(&self, index: int) -> (int, int) {
        (self.complex_gate.input_gates@[index] as int, 0)
    }

    open spec fn spec_output_pin(&self, index: int) -> (int, int) {
        (self.complex_gate.output_gates@[index] as int, 0)
    }

    open spec fn spec_num_inputs(&self) -> nat {
        self.complex_gate.input_gates@.len()
    }

    open spec fn spec_num_outputs(&self) -> nat {
        self.complex_gate.output_gates@.len()
    }

    open spec fn spec_gate_type(&self) -> GateType {
        self.complex_gate.gate_type
    }

    open spec fn spec_unique_id(&self) -> UniqueID {
        self.complex_gate.unique_id
    }

    fn input_pin(&self, index: usize) -> (res: (usize, usize)) {
        (self.complex_gate.input_gates[index], 0)
    }

    fn output_pin(&self, index: usize) -> (res: (usize, usize)) {
        (self.complex_gate.output_gates[index], 0)
    }

    fn num_inputs(&self) -> (res: usize) {
        self.complex_gate.input_gates.len()
    }

    fn num_outputs(&self) -> (res: usize) {
        self.complex_gate.output_gates.len()
    }

    fn get_gate_type(&self) -> (res: GateType) {
        self.complex_gate.gate_type
    }

    fn get_unique_id(&self) -> (res: UniqueID) {
        self.complex_gate.unique_id
    }
}

impl VariableBitMultiplexer {
    /// The input or output index that `tag` names.
    pub fn get_index_from_tag(&self, tag: &str) -> (res: Option<usize>)
        ensures
            res == last_tag_index(self.complex_gate.gate_tags_to_index@, tag@),
    {
        self.complex_gate.get_index_from_tag(tag)
    }

    /// Brings the outputs up to date with what reaches them and returns their states.
    pub fn fetch_output_signals(&self, circuit: &mut Circuit) -> (res: Vec<GateOutputState>)
        requires
            old(circuit).wf(),
            complex_fits(&self.complex_gate, old(circuit).shape(), old(circuit).types()),
        ensures
            final(circuit).wf(),
            final(circuit).shape() == old(circuit).shape(),
            final(circuit).types() == old(circuit).types(),
            old(circuit).wiring_kept(*final(circuit)),
            res@.len() == self.complex_gate.output_gates@.len(),
            forall|i: int| 0 <= i < res@.len() ==> #[trigger] res@[i] == final(circuit).node(self.complex_gate.output_gates@[i] as int).outputs()[0],
    {
        proof {
            assert forall|i: int| 0 <= i < self.complex_gate.output_gates@.len() implies #[trigger] old(circuit).has_output(self.complex_gate.output_gates@[i] as int, 0) by {}
        }
        self.complex_gate.fetch_output_signals_calculate(circuit)
    }

    pub fn get_tag(&self) -> (res: String)
        ensures
            res@ == self.complex_gate.tag@,
    {
        self.complex_gate.tag.clone()
    }

    pub fn set_tag(&mut self, tag: &str)
        ensures
            final(self).complex_gate.tag@ == tag@,
            final(self).complex_gate.input_gates == old(self).complex_gate.input_gates,
            final(self).complex_gate.output_gates == old(self).complex_gate.output_gates,
            final(self).complex_gate.gate_tags_to_index == old(self).complex_gate.gate_tags_to_index,
    {
        self.complex_gate.tag = tag.to_owned();
    }

    pub fn toggle_output_printing(&mut self, print_output: bool)
        ensures
            final(self).complex_gate.should_print_output == print_output,
            final(self).complex_gate.input_gates == old(self).complex_gate.input_gates,
            final(self).complex_gate.output_gates == old(self).complex_gate.output_gates,
    {
        self.complex_gate.should_print_output = print_output;
    }

    /// The number of circuit gates that make up this gate.
    pub fn num_children_gates(&self) -> (res: usize)
        ensures
            res == self.complex_gate.number_child_gates,
    {
        self.complex_gate.number_child_gates
    }
}

} // verus!
