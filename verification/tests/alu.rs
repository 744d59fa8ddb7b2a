use logic_simulator::circuit::Circuit;
use rand::Rng;
use logic_simulator::logic::alu::{AluOperations, ArithmeticLogicUnit};
use logic_simulator::logic::foundations::{connect_gates, GateOutputState, LogicGate};
use logic_simulator::logic::input_gates::AutomaticInput;
use logic_simulator::logic::output_gates::SimpleOutput;
use logic_simulator::logic::signals::Signal;
use logic_simulator::logic::signals::Signal::{HIGH, LOW_, NONE};

fn signal_of(state: &GateOutputState) -> Signal {
    match state {
        GateOutputState::NotConnected(s) => *s,
        GateOutputState::Connected(c) => c.throughput.signal,
    }
}

/// Feeds `gate`, tick after tick, from automatic inputs: input `i_<k>` gets the `k`-th value
/// of each row of `input_values`, and each named input its own rows. After every tick the
/// signals of all its outputs are collected and compared with `expected_outputs`.
fn run_multi_input_output_logic_gate<G: LogicGate>(
    circuit: &mut Circuit,
    gate: &G,
    tag_index: &dyn Fn(&str) -> Option<usize>,
    input_values: Vec<Vec<Signal>>,
    expected_outputs: Vec<Vec<Signal>>,
    named_inputs: Vec<(&str, Vec<Vec<Signal>>)>,
) {
    let mut input_gates: Vec<usize> = Vec::new();
    if !input_values.is_empty() {
        for k in 0..input_values[0].len() {
            let values: Vec<Signal> = input_values.iter().map(|row| row[k]).collect();
            let tag = format!("i_{}", k);
            let source = AutomaticInput::new(circuit, values, 1, "Start");
            let idx = tag_index(&tag).unwrap();
            connect_gates(circuit, &source, 0, gate, idx);
            input_gates.push(source.gate);
        }
    }
    for (tag, rows) in named_inputs.iter() {
        let width = rows[0].len();
        for j in 0..width {
            let values: Vec<Signal> = rows.iter().map(|row| row[j]).collect();
            let source = AutomaticInput::new(circuit, values, 1, "Start");
            let full_tag = if width == 1 { tag.to_string() } else { format!("{}_{}", tag, j) };
            let idx = tag_index(&full_tag).unwrap();
            connect_gates(circuit, &source, 0, gate, idx);
            input_gates.push(source.gate);
        }
    }
    let mut output_gates: Vec<usize> = Vec::new();
    for j in 0..gate.num_outputs() {
        let out = SimpleOutput::new(circuit, "End");
        connect_gates(circuit, gate, j, &out, 0);
        output_gates.push(out.gate);
    }
    let collected = run_collect(circuit, &input_gates, &output_gates);
    assert_eq!(collected, expected_outputs);
}

/// Runs the circuit tick after tick until an automatic input runs out, collecting the
/// signal that each output gate shows after every tick.
fn run_collect(circuit: &mut Circuit, input_gates: &Vec<usize>, output_gates: &Vec<usize>) -> Vec<Vec<Signal>> {
    let mut collected = Vec::new();
    let mut propagate = true;
    loop {
        circuit.advance_clock_tick();
        let keep_going = circuit.run_circuit(input_gates, propagate).unwrap();
        if !keep_going {
            break;
        }
        propagate = false;
        let mut single = Vec::new();
        for g in output_gates {
            let out = circuit.fetch_output_signals_calculate(*g).unwrap();
            assert_eq!(out.len(), 1);
            single.push(signal_of(&out[0]));
        }
        collected.push(single);
    }
    collected
}


/// The select lines `A`, `B`, `C` of an ALU operation.
fn get_vectors(alu_operation: AluOperations) -> (Vec<Signal>, Vec<Signal>, Vec<Signal>) {
    let returns = AluOperations::get_vectors(alu_operation);
    (returns.a, returns.b, returns.c)
}

fn signal_of_bool(b: bool) -> Signal {
    if b { HIGH } else { LOW_ }
}

/// The `num_bits` lowest bits of `value`, lowest first.
fn bits_of(value: usize, num_bits: usize) -> Vec<Signal> {
    (0..num_bits).map(|k| signal_of_bool((value >> k) & 1 == 1)).collect()
}

struct GenerateRandomReturns {
    a_input: usize,
    b_input: usize,
    result_num: usize,
    a_input_signals: Vec<Signal>,
    b_input_signals: Vec<Signal>,
    output: Vec<Signal>,
    carry_out: Signal,
}

fn run_alu(num_bits: usize, opt: AluOperations, mut gen: GenerateRandomReturns) {
    gen.output.push(signal_of_bool(gen.a_input > gen.b_input));
    gen.output.push(signal_of_bool(gen.a_input == gen.b_input));
    gen.output.push(signal_of_bool(gen.result_num == 0));
    gen.output.push(gen.carry_out);
    let mut circuit = Circuit::new();
    let alu = ArithmeticLogicUnit::new(&mut circuit, num_bits).unwrap();
    let (a, b, c) = get_vectors(opt);
    run_multi_input_output_logic_gate(
        &mut circuit,
        &alu,
        &|t| alu.get_index_from_tag(t),
        vec![],
        vec![gen.output],
        vec![
            ("a", vec![gen.a_input_signals]),
            ("b", vec![gen.b_input_signals]),
            ("A", vec![a]),
            ("B", vec![b]),
            ("C", vec![c]),
            ("C_IN", vec![vec![LOW_]]),
        ],
    );
}

fn generate_random_xor_le_inputs_outputs(num_bits: usize) -> GenerateRandomReturns {
    let high_number_range = 1usize << num_bits;
    let a_input = rand::thread_rng().gen_range(0..high_number_range);
    let b_input = rand::thread_rng().gen_range(0..high_number_range);
    let result = a_input ^ b_input;
    GenerateRandomReturns {
        a_input,
        b_input,
        result_num: result,
        a_input_signals: bits_of(a_input, num_bits),
        b_input_signals: bits_of(b_input, num_bits),
        output: bits_of(result, num_bits),
        carry_out: NONE,
    }
}

fn generate_random_and_or_inputs_outputs(and_gate: bool, num_bits: usize) -> GenerateRandomReturns {
    let high_number_range = 1usize << num_bits;
    let a_input = rand::thread_rng().gen_range(0..high_number_range);
    let b_input = rand::thread_rng().gen_range(0..high_number_range);
    let result = if and_gate { a_input & b_input } else { a_input | b_input };
    GenerateRandomReturns {
        a_input,
        b_input,
        result_num: result,
        a_input_signals: bits_of(a_input, num_bits),
        b_input_signals: bits_of(b_input, num_bits),
        output: bits_of(result, num_bits),
        carry_out: NONE,
    }
}

fn generate_random_not_inputs_outputs(num_bits: usize) -> GenerateRandomReturns {
    let high_number_range = 1usize << num_bits;
    let num = rand::thread_rng().gen_range(0..high_number_range);
    let result = !num & (high_number_range - 1);
    GenerateRandomReturns {
        a_input: num,
        b_input: 0,
        result_num: result,
        a_input_signals: bits_of(num, num_bits),
        b_input_signals: vec![LOW_; num_bits],
        output: bits_of(result, num_bits),
        carry_out: NONE,
    }
}

fn generate_randoms_shl_shr_inputs_outputs(num_bits: usize, left_shift: bool) -> GenerateRandomReturns {
    let high_number_range = 1usize << num_bits;
    let first_num = rand::thread_rng().gen_range(0..high_number_range);
    let result = if left_shift { (first_num << 1) & (high_number_range - 1) } else { first_num >> 1 };
    let shift_out = if left_shift { (first_num >> (num_bits - 1)) & 1 == 1 } else { first_num & 1 == 1 };
    GenerateRandomReturns {
        a_input: first_num,
        b_input: 0,
        result_num: result,
        a_input_signals: bits_of(first_num, num_bits),
        b_input_signals: vec![LOW_; num_bits],
        output: bits_of(result, num_bits),
        carry_out: signal_of_bool(shift_out),
    }
}

fn generate_randoms_adder_inputs_outputs(num_bits: usize) -> GenerateRandomReturns {
    let high_number_range = 1usize << num_bits;
    let first_num = rand::thread_rng().gen_range(0..high_number_range);
    let second_num = rand::thread_rng().gen_range(0..high_number_range);
    let sum = first_num + second_num;
    GenerateRandomReturns {
        a_input: first_num,
        b_input: second_num,
        result_num: sum & (high_number_range - 1),
        a_input_signals: bits_of(first_num, num_bits),
        b_input_signals: bits_of(second_num, num_bits),
        output: bits_of(sum, num_bits),
        carry_out: signal_of_bool((sum >> num_bits) & 1 == 1),
    }
}

#[test]
fn arithmetic_logic_unit_off_test() {
    let num_bits = rand::thread_rng().gen_range(2..16);
    let a_input_signals = vec![HIGH; num_bits];
    let b_input_signals = vec![HIGH; num_bits];
    let mut output = vec![NONE; num_bits];
    output.push(LOW_);
    output.push(HIGH);
    output.push(HIGH);
    output.push(NONE);
    let mut circuit = Circuit::new();
    let alu = ArithmeticLogicUnit::new(&mut circuit, num_bits).unwrap();
    let (a, b, c) = get_vectors(AluOperations::Off);
    run_multi_input_output_logic_gate(
        &mut circuit,
        &alu,
        &|t| alu.get_index_from_tag(t),
        vec![],
        vec![output],
        vec![
            ("a", vec![a_input_signals]),
            ("b", vec![b_input_signals]),
            ("A", vec![a]),
            ("B", vec![b]),
            ("C", vec![c]),
            ("C_IN", vec![vec![HIGH]]),
        ],
    );
}

#[test]
fn arithmetic_logic_unit_zero_test() {
    let num_bits = rand::thread_rng().gen_range(2..16);
    let a_input_signals = vec![LOW_; num_bits];
    let b_input_signals = vec![LOW_; num_bits];
    let mut output = vec![LOW_; num_bits];
    output.push(LOW_);
    output.push(HIGH);
    output.push(HIGH);
    output.push(NONE);
    let mut circuit = Circuit::new();
    let alu = ArithmeticLogicUnit::new(&mut circuit, num_bits).unwrap();
    let (a, b, c) = get_vectors(AluOperations::Or);
    run_multi_input_output_logic_gate(
        &mut circuit,
        &alu,
        &|t| alu.get_index_from_tag(t),
        vec![],
        vec![output],
        vec![
            ("a", vec![a_input_signals]),
            ("b", vec![b_input_signals]),
            ("A", vec![a]),
            ("B", vec![b]),
            ("C", vec![c]),
            ("C_IN", vec![vec![LOW_]]),
        ],
    );
}

#[test]
fn arithmetic_logic_unit_xor_test() {
    for _ in 0..20 {
        let num_bits = rand::thread_rng().gen_range(2..16);
        let returns = generate_random_xor_le_inputs_outputs(num_bits);
        run_alu(num_bits, AluOperations::XOrLe, returns);
    }
}

#[test]
fn arithmetic_logic_unit_and_or_test() {
    for _ in 0..20 {
        let num_bits = rand::thread_rng().gen_range(2..16);
        let and_gate = rand::thread_rng().gen_bool(0.5);
        let returns = generate_random_and_or_inputs_outputs(and_gate, num_bits);
        let opt = if and_gate { AluOperations::And } else { AluOperations::Or };
        run_alu(num_bits, opt, returns);
    }
}

#[test]
fn arithmetic_logic_unit_not_test() {
    for _ in 0..20 {
        let num_bits = rand::thread_rng().gen_range(2..16);
        let returns = generate_random_not_inputs_outputs(num_bits);
        run_alu(num_bits, AluOperations::Not, returns);
    }
}

#[test]
fn arithmetic_logic_unit_shift_left_right_test() {
    for _ in 0..20 {
        let num_bits = rand::thread_rng().gen_range(2..16);
        let left_shift = rand::thread_rng().gen_bool(0.5);
        let returns = generate_randoms_shl_shr_inputs_outputs(num_bits, left_shift);
        let opt = if left_shift { AluOperations::Shl } else { AluOperations::Shr };
        run_alu(num_bits, opt, returns);
    }
}

#[test]
fn arithmetic_logic_unit_adder_test() {
    for _ in 0..20 {
        let num_bits = rand::thread_rng().gen_range(2..16);
        let returns = generate_randoms_adder_inputs_outputs(num_bits);
        run_alu(num_bits, AluOperations::Adder, returns);
    }
}

#[test]
fn arithmetic_logic_unit_layout() {
    let mut circuit = Circuit::new();
    let alu = ArithmeticLogicUnit::new(&mut circuit, 4).unwrap();
    assert_eq!(circuit.num_gates(), 155 * 4 + 121);
    assert_eq!(alu.num_inputs(), 2 * 4 + 4);
    assert_eq!(alu.num_outputs(), 4 + 4);
    assert_eq!(alu.get_index_from_tag("C_IN"), Some(11));
    assert_eq!(alu.get_index_from_tag("C_OUT"), Some(7));
}

#[test]
fn alu_select_lines_of_each_operation() {
    let expected = [
        (AluOperations::Off, HIGH, HIGH, HIGH),
        (AluOperations::XOrLe, HIGH, HIGH, LOW_),
        (AluOperations::Or, HIGH, LOW_, HIGH),
        (AluOperations::And, HIGH, LOW_, LOW_),
        (AluOperations::Not, LOW_, HIGH, HIGH),
        (AluOperations::Shl, LOW_, HIGH, LOW_),
        (AluOperations::Shr, LOW_, LOW_, HIGH),
        (AluOperations::Adder, LOW_, LOW_, LOW_),
    ];
    for (op, a, b, c) in expected {
        let returns = AluOperations::get_vectors(op);
        assert_eq!(returns.a, vec![a]);
        assert_eq!(returns.b, vec![b]);
        assert_eq!(returns.c, vec![c]);
    }
}
