use logic_simulator::circuit::Circuit;
use rand::Rng;
use logic_simulator::logic::arithmetic_gates::{FullAdder, HalfAdder, VariableBitAnd, VariableBitEnable, VariableBitNot, VariableBitOr, VariableBitZ, XOrLE};
use logic_simulator::logic::variable_arithmetic::{VariableBitAdder, VariableBitShiftLeft, VariableBitXOrLE};
use logic_simulator::logic::foundations::{connect_gates, GateOutputState, LogicGate};
use logic_simulator::logic::input_gates::AutomaticInput;
use logic_simulator::logic::output_gates::SimpleOutput;
use logic_simulator::logic::signals::Signal;
use logic_simulator::logic::signals::Signal::{HIGH, LOW_, NONE};

fn signal_of(state: &GateOutputState) -> Signal {
    match state {
        GateOutputState::NotConnected(s) => *s,
        GateOutputState::Connected(c) => c.throughput.signal,
    }
}

/// Feeds `gate`, tick after tick, from automatic inputs: input `i_<k>` gets the `k`-th value
/// of each row of `input_values`, and each named input its own rows. After every tick the
/// signals of all its outputs are collected and compared with `expected_outputs`.
fn run_multi_input_output_logic_gate<G: LogicGate>(
    circuit: &mut Circuit,
    gate: &G,
    tag_index: &dyn Fn(&str) -> Option<usize>,
    input_values: Vec<Vec<Signal>>,
    expected_outputs: Vec<Vec<Signal>>,
    named_inputs: Vec<(&str, Vec<Vec<Signal>>)>,
) {
    let mut input_gates: Vec<usize> = Vec::new();
    if !input_values.is_empty() {
        for k in 0..input_values[0].len() {
            let values: Vec<Signal> = input_values.iter().map(|row| row[k]).collect();
            let tag = format!("i_{}", k);
            let source = AutomaticInput::new(circuit, values, 1, "Start");
            let idx = tag_index(&tag).unwrap();
            connect_gates(circuit, &source, 0, gate, idx);
            input_gates.push(source.gate);
        }
    }
    for (tag, rows) in named_inputs.iter() {
        let width = rows[0].len();
        for j in 0..width {
            let values: Vec<Signal> = rows.iter().map(|row| row[j]).collect();
            let source = AutomaticInput::new(circuit, values, 1, "Start");
            let full_tag = if width == 1 { tag.to_string() } else { format!("{}_{}", tag, j) };
            let idx = tag_index(&full_tag).unwrap();
            connect_gates(circuit, &source, 0, gate, idx);
            input_gates.push(source.gate);
        }
    }
    let mut output_gates: Vec<usize> = Vec::new();
    for j in 0..gate.num_outputs() {
        let out = SimpleOutput::new(circuit, "End");
        connect_gates(circuit, gate, j, &out, 0);
        output_gates.push(out.gate);
    }
    let collected = run_collect(circuit, &input_gates, &output_gates);
    assert_eq!(collected, expected_outputs);
}

/// Runs the circuit tick after tick until an automatic input runs out, collecting the
/// signal that each output gate shows after every tick.
fn run_collect(circuit: &mut Circuit, input_gates: &Vec<usize>, output_gates: &Vec<usize>) -> Vec<Vec<Signal>> {
    let mut collected = Vec::new();
    let mut propagate = true;
    loop {
        circuit.advance_clock_tick();
        let keep_going = circuit.run_circuit(input_gates, propagate).unwrap();
        if !keep_going {
            break;
        }
        propagate = false;
        let mut single = Vec::new();
        for g in output_gates {
            let out = circuit.fetch_output_signals_calculate(*g).unwrap();
            assert_eq!(out.len(), 1);
            single.push(signal_of(&out[0]));
        }
        collected.push(single);
    }
    collected
}

fn test_half_adder(a: Signal, b: Signal, sum: Signal, carry: Signal) {
    let mut circuit = Circuit::new();
    let half_adder = HalfAdder::new(&mut circuit).unwrap();
    run_multi_input_output_logic_gate(
        &mut circuit,
        &half_adder,
        &|t| half_adder.get_index_from_tag(t),
        vec![],
        vec![vec![sum, carry]],
        vec![("A", vec![vec![a]]), ("B", vec![vec![b]])],
    );
}

fn test_full_adder(a: Signal, b: Signal, c_in: Signal, sum: Signal, carry: Signal) {
    let mut circuit = Circuit::new();
    let full_adder = FullAdder::new(&mut circuit).unwrap();
    run_multi_input_output_logic_gate(
        &mut circuit,
        &full_adder,
        &|t| full_adder.get_index_from_tag(t),
        vec![],
        vec![vec![sum, carry]],
        vec![("A", vec![vec![a]]), ("B", vec![vec![b]]), ("C_IN", vec![vec![c_in]])],
    );
}

#[test]
fn half_adder_low_low() {
    test_half_adder(LOW_, LOW_, LOW_, LOW_);
}

#[test]
fn half_adder_low_high() {
    test_half_adder(LOW_, HIGH, HIGH, LOW_);
}

#[test]
fn half_adder_high_low() {
    test_half_adder(HIGH, LOW_, HIGH, LOW_);
}

#[test]
fn half_adder_high_high() {
    test_half_adder(HIGH, HIGH, LOW_, HIGH);
}

#[test]
fn full_adder_low_low_low() {
    test_full_adder(LOW_, LOW_, LOW_, LOW_, LOW_);
}

#[test]
fn full_adder_low_low_high() {
    test_full_adder(LOW_, LOW_, HIGH, HIGH, LOW_);
}

#[test]
fn full_adder_low_high_low() {
    test_full_adder(LOW_, HIGH, LOW_, HIGH, LOW_);
}

#[test]
fn full_adder_low_high_high() {
    test_full_adder(LOW_, HIGH, HIGH, LOW_, HIGH);
}

#[test]
fn full_adder_high_low_low() {
    test_full_adder(HIGH, LOW_, LOW_, HIGH, LOW_);
}

#[test]
fn full_adder_high_low_high() {
    test_full_adder(HIGH, LOW_, HIGH, LOW_, HIGH);
}

#[test]
fn full_adder_high_high_low() {
    test_full_adder(HIGH, HIGH, LOW_, LOW_, HIGH);
}

#[test]
fn full_adder_high_high_high() {
    test_full_adder(HIGH, HIGH, HIGH, HIGH, HIGH);
}

fn signal_of_bool(b: bool) -> Signal {
    if b {
        HIGH
    } else {
        LOW_
    }
}

#[test]
fn xor_le_test() {
    for i in 0..16usize {
        let a = (i >> 3) & 1;
        let b = (i >> 2) & 1;
        let above_equal = (i >> 1) & 1 == 1;
        let above_larger = i & 1 == 1;
        let c_output = signal_of_bool(a ^ b == 1);
        let equal = signal_of_bool(above_equal && a == b);
        let larger = signal_of_bool(above_larger || (above_equal && a > b));
        let mut circuit = Circuit::new();
        let xor_le = XOrLE::new(&mut circuit).unwrap();
        run_multi_input_output_logic_gate(
            &mut circuit,
            &xor_le,
            &|t| xor_le.get_index_from_tag(t),
            vec![],
            vec![vec![c_output, equal, larger]],
            vec![
                ("A", vec![vec![signal_of_bool(a == 1)]]),
                ("B", vec![vec![signal_of_bool(b == 1)]]),
                ("ABOVE_E", vec![vec![signal_of_bool(above_equal)]]),
                ("ABOVE_L", vec![vec![signal_of_bool(above_larger)]]),
            ],
        );
    }
}

#[test]
fn variable_z_gate_tests() {
    let num_bits = 4;
    for i in 0..=num_bits {
        let mut input_vector = vec![LOW_; num_bits];
        let mut output_vector = vec![HIGH];
        if i != num_bits {
            input_vector[i] = HIGH;
            output_vector[0] = LOW_;
        }
        let mut circuit = Circuit::new();
        let variable_z = VariableBitZ::new(&mut circuit, num_bits).unwrap();
        run_multi_input_output_logic_gate(
            &mut circuit,
            &variable_z,
            &|t| variable_z.get_index_from_tag(t),
            vec![input_vector],
            vec![output_vector],
            vec![],
        );
    }
}

fn random_bits(num_bits: usize) -> Vec<bool> {
    (0..num_bits).map(|_| rand::thread_rng().gen_bool(0.5)).collect()
}

#[test]
fn variable_bit_not_tests() {
    for _ in 0..20 {
        let num_bits = rand::thread_rng().gen_range(1..16);
        let bits = random_bits(num_bits);
        let input: Vec<Signal> = bits.iter().map(|b| signal_of_bool(*b)).collect();
        let output: Vec<Signal> = bits.iter().map(|b| signal_of_bool(!*b)).collect();
        let mut circuit = Circuit::new();
        let variable_bit_not = VariableBitNot::new(&mut circuit, num_bits).unwrap();
        run_multi_input_output_logic_gate(
            &mut circuit,
            &variable_bit_not,
            &|t| variable_bit_not.get_index_from_tag(t),
            vec![input],
            vec![output],
            vec![],
        );
    }
}

#[test]
fn variable_bit_and_or_tests() {
    for _ in 0..20 {
        let num_bits = rand::thread_rng().gen_range(2..16);
        let and_gate = rand::thread_rng().gen_bool(0.5);
        let a = random_bits(num_bits);
        let b = random_bits(num_bits);
        let a_input: Vec<Signal> = a.iter().map(|x| signal_of_bool(*x)).collect();
        let b_input: Vec<Signal> = b.iter().map(|x| signal_of_bool(*x)).collect();
        let output: Vec<Signal> = (0..num_bits)
            .map(|k| signal_of_bool(if and_gate { a[k] && b[k] } else { a[k] || b[k] }))
            .collect();
        let mut circuit = Circuit::new();
        if and_gate {
            let gate = VariableBitAnd::new(&mut circuit, num_bits).unwrap();
            run_multi_input_output_logic_gate(
                &mut circuit,
                &gate,
                &|t| gate.get_index_from_tag(t),
                vec![],
                vec![output],
                vec![("a", vec![a_input]), ("b", vec![b_input])],
            );
        } else {
            let gate = VariableBitOr::new(&mut circuit, num_bits).unwrap();
            run_multi_input_output_logic_gate(
                &mut circuit,
                &gate,
                &|t| gate.get_index_from_tag(t),
                vec![],
                vec![output],
                vec![("a", vec![a_input]), ("b", vec![b_input])],
            );
        }
    }
}

#[test]
fn variable_bit_enable_tests() {
    for _ in 0..20 {
        let num_bits = rand::thread_rng().gen_range(2..16);
        let signals = [NONE, LOW_, HIGH];
        let input: Vec<Signal> = (0..num_bits).map(|_| signals[rand::thread_rng().gen_range(0..3)]).collect();
        let enable = signals[rand::thread_rng().gen_range(1..3)];
        let output = if enable == LOW_ { vec![NONE; num_bits] } else { input.clone() };
        let mut circuit = Circuit::new();
        let gate = VariableBitEnable::new(&mut circuit, num_bits).unwrap();
        run_multi_input_output_logic_gate(
            &mut circuit,
            &gate,
            &|t| gate.get_index_from_tag(t),
            vec![input],
            vec![output],
            vec![("E", vec![vec![enable]])],
        );
    }
}

/// The bits of `value`, lowest first.
fn bits_of(value: usize, num_bits: usize) -> Vec<Signal> {
    (0..num_bits).map(|k| signal_of_bool((value >> k) & 1 == 1)).collect()
}

#[test]
fn variable_bit_adder_tests() {
    for _ in 0..20 {
        let num_bits = rand::thread_rng().gen_range(2..16);
        let high_number_range = 1usize << num_bits;
        let first_num = rand::thread_rng().gen_range(0..high_number_range);
        let second_num = rand::thread_rng().gen_range(0..high_number_range);
        let sum = first_num + second_num;
        let mut output = bits_of(sum, num_bits);
        output.push(signal_of_bool((sum >> num_bits) & 1 == 1));
        let mut circuit = Circuit::new();
        let gate = VariableBitAdder::new(&mut circuit, num_bits).unwrap();
        run_multi_input_output_logic_gate(
            &mut circuit,
            &gate,
            &|t| gate.get_index_from_tag(t),
            vec![],
            vec![output],
            vec![
                ("a", vec![bits_of(first_num, num_bits)]),
                ("b", vec![bits_of(second_num, num_bits)]),
                ("C_IN", vec![vec![LOW_]]),
            ],
        );
    }
}

#[test]
fn variable_bit_adder_carry_in() {
    let mut circuit = Circuit::new();
    let gate = VariableBitAdder::new(&mut circuit, 4).unwrap();
    assert_eq!(gate.num_children_gates(), 21 * 4 + 2);
    run_multi_input_output_logic_gate(
        &mut circuit,
        &gate,
        &|t| gate.get_index_from_tag(t),
        vec![],
        vec![vec![LOW_, LOW_, LOW_, LOW_, HIGH]],
        vec![("a", vec![bits_of(15, 4)]), ("b", vec![bits_of(0, 4)]), ("C_IN", vec![vec![HIGH]])],
    );
}

#[test]
fn variable_bit_xor_le() {
    for _ in 0..20 {
        let num_bits = rand::thread_rng().gen_range(2..16);
        let high_number_range = 1usize << num_bits;
        let a_input = rand::thread_rng().gen_range(0..high_number_range);
        let b_input = rand::thread_rng().gen_range(0..high_number_range);
        let mut output = bits_of(a_input ^ b_input, num_bits);
        output.push(signal_of_bool(a_input > b_input));
        output.push(signal_of_bool(a_input == b_input));
        let mut circuit = Circuit::new();
        let gate = VariableBitXOrLE::new(&mut circuit, num_bits).unwrap();
        run_multi_input_output_logic_gate(
            &mut circuit,
            &gate,
            &|t| gate.get_index_from_tag(t),
            vec![],
            vec![output],
            vec![("a", vec![bits_of(a_input, num_bits)]), ("b", vec![bits_of(b_input, num_bits)])],
        );
    }
}

#[test]
fn variable_bit_xor_le_equal_numbers() {
    let mut circuit = Circuit::new();
    let gate = VariableBitXOrLE::new(&mut circuit, 3).unwrap();
    assert_eq!(gate.num_children_gates(), 15 * 3 + 2);
    run_multi_input_output_logic_gate(
        &mut circuit,
        &gate,
        &|t| gate.get_index_from_tag(t),
        vec![],
        vec![vec![LOW_, LOW_, LOW_, LOW_, HIGH]],
        vec![("a", vec![bits_of(5, 3)]), ("b", vec![bits_of(5, 3)])],
    );
}

#[test]
fn variable_bit_shift_tests() {
    for _ in 0..20 {
        let num_bits = rand::thread_rng().gen_range(1..16);
        let left_shift = rand::thread_rng().gen_bool(0.5);
        let high_number_range = 1usize << num_bits;
        let first_num = rand::thread_rng().gen_range(0..high_number_range);
        let result = if left_shift { (first_num << 1) & (high_number_range - 1) } else { first_num >> 1 };
        let shift_out = if left_shift { (first_num >> (num_bits - 1)) & 1 == 1 } else { first_num & 1 == 1 };
        let mut output = bits_of(result, num_bits);
        output.push(signal_of_bool(shift_out));
        let mut circuit = Circuit::new();
        if left_shift {
            let gate = VariableBitShiftLeft::<true>::new(&mut circuit, num_bits).unwrap();
            run_multi_input_output_logic_gate(
                &mut circuit,
                &gate,
                &|t| gate.get_index_from_tag(t),
                vec![bits_of(first_num, num_bits)],
                vec![output],
                vec![],
            );
        } else {
            let gate = VariableBitShiftLeft::<false>::new(&mut circuit, num_bits).unwrap();
            run_multi_input_output_logic_gate(
                &mut circuit,
                &gate,
                &|t| gate.get_index_from_tag(t),
                vec![bits_of(first_num, num_bits)],
                vec![output],
                vec![],
            );
        }
    }
}

#[test]
fn variable_bit_shift_in_high() {
    let mut circuit = Circuit::new();
    let gate = VariableBitShiftLeft::<true>::new(&mut circuit, 3).unwrap();
    assert_eq!(gate.num_children_gates(), 36 * 3 + 12);
    run_multi_input_output_logic_gate(
        &mut circuit,
        &gate,
        &|t| gate.get_index_from_tag(t),
        vec![bits_of(0b101, 3)],
        vec![vec![HIGH, HIGH, LOW_, HIGH]],
        vec![("S_IN", vec![vec![HIGH]])],
    );
}
