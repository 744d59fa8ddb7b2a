use logic_simulator::circuit::Circuit;
use logic_simulator::logic::foundations::{connect_gates, GateOutputState, LogicGate};
use logic_simulator::logic::input_gates::AutomaticInput;
use logic_simulator::logic::output_gates::SimpleOutput;
use logic_simulator::logic::processor_components::{SingleRAMCell, VariableBitBusOne, VariableBitRegister, VariableDecoder};
use logic_simulator::logic::signals::Signal;
use logic_simulator::logic::signals::Signal::{HIGH, LOW_, NONE};
use rand::Rng;

fn signal_of(state: &GateOutputState) -> Signal {
    match state {
        GateOutputState::NotConnected(s) => *s,
        GateOutputState::Connected(c) => c.throughput.signal,
    }
}

/// Feeds `gate`, tick after tick, from automatic inputs: input `i_<k>` gets the `k`-th value
/// of each row of `input_values`, and each named input its own rows. After every tick the
/// signals of all its outputs are collected and compared with `expected_outputs`.
fn run_multi_input_output_logic_gate<G: LogicGate>(
    circuit: &mut Circuit,
    gate: &G,
    tag_index: &dyn Fn(&str) -> Option<usize>,
    input_values: Vec<Vec<Signal>>,
    expected_outputs: Vec<Vec<Signal>>,
    named_inputs: Vec<(&str, Vec<Vec<Signal>>)>,
) {
    let mut input_gates: Vec<usize> = Vec::new();
    if !input_values.is_empty() {
        for k in 0..input_values[0].len() {
            let values: Vec<Signal> = input_values.iter().map(|row| row[k]).collect();
            let tag = format!("i_{}", k);
            let source = AutomaticInput::new(circuit, values, 1, "Start");
            let idx = tag_index(&tag).unwrap();
            connect_gates(circuit, &source, 0, gate, idx);
            input_gates.push(source.gate);
        }
    }
    for (tag, rows) in named_inputs.iter() {
        let width = rows[0].len();
        for j in 0..width {
            let values: Vec<Signal> = rows.iter().map(|row| row[j]).collect();
            let source = AutomaticInput::new(circuit, values, 1, "Start");
            let full_tag = if width == 1 { tag.to_string() } else { format!("{}_{}", tag, j) };
            let idx = tag_index(&full_tag).unwrap();
            connect_gates(circuit, &source, 0, gate, idx);
            input_gates.push(source.gate);
        }
    }
    let mut output_gates: Vec<usize> = Vec::new();
    for j in 0..gate.num_outputs() {
        let out = SimpleOutput::new(circuit, "End");
        connect_gates(circuit, gate, j, &out, 0);
        output_gates.push(out.gate);
    }
    let collected = run_collect(circuit, &input_gates, &output_gates);
    assert_eq!(collected, expected_outputs);
}

/// Runs the circuit tick after tick until an automatic input runs out, collecting the
/// signal that each output gate shows after every tick.
fn run_collect(circuit: &mut Circuit, input_gates: &Vec<usize>, output_gates: &Vec<usize>) -> Vec<Vec<Signal>> {
    let mut collected = Vec::new();
    let mut propagate = true;
    loop {
        circuit.advance_clock_tick();
        let keep_going = circuit.run_circuit(input_gates, propagate).unwrap();
        if !keep_going {
            break;
        }
        propagate = false;
        let mut single = Vec::new();
        for g in output_gates {
            let out = circuit.fetch_output_signals_calculate(*g).unwrap();
            assert_eq!(out.len(), 1);
            single.push(signal_of(&out[0]));
        }
        collected.push(single);
    }
    collected
}

#[test]
fn processor_register_initialization() {
    let num_bits = rand::thread_rng().gen_range(1..=16);
    let mut circuit = Circuit::new();
    let register = VariableBitRegister::new(&mut circuit, num_bits).unwrap();
    let output = register.fetch_output_signals(&mut circuit);
    assert_eq!(output.len(), 2 * num_bits);
    for (i, out) in output.into_iter().enumerate() {
        match out {
            GateOutputState::NotConnected(signal) => {
                if i < num_bits {
                    assert_eq!(signal, NONE);
                } else {
                    assert_eq!(signal, LOW_);
                }
            }
            GateOutputState::Connected(_) => panic!("Final output gate should never be connected."),
        }
    }
}

fn run_register(num_bits: usize, inputs: Vec<Vec<Signal>>, outputs: Vec<Vec<Signal>>, s: Vec<Vec<Signal>>, e: Vec<Vec<Signal>>) {
    let mut circuit = Circuit::new();
    let register = VariableBitRegister::new(&mut circuit, num_bits).unwrap();
    run_multi_input_output_logic_gate(
        &mut circuit,
        &register,
        &|t| register.get_index_from_tag(t),
        inputs,
        outputs,
        vec![("S", s), ("E", e)],
    );
}

#[test]
fn processor_register_simple_test() {
    run_register(
        3,
        vec![vec![HIGH, HIGH, LOW_]],
        vec![vec![HIGH, HIGH, LOW_, HIGH, HIGH, LOW_]],
        vec![vec![HIGH]],
        vec![vec![HIGH]],
    );
}

#[test]
fn processor_register_set_bit_low() {
    run_register(
        3,
        vec![vec![HIGH, LOW_, HIGH], vec![HIGH, HIGH, LOW_]],
        vec![vec![HIGH, LOW_, HIGH, HIGH, LOW_, HIGH], vec![HIGH, LOW_, HIGH, HIGH, LOW_, HIGH]],
        vec![vec![HIGH], vec![LOW_]],
        vec![vec![HIGH], vec![HIGH]],
    );
}

#[test]
fn processor_register_enable_bit_low() {
    run_register(
        4,
        vec![vec![HIGH, LOW_, HIGH, HIGH], vec![HIGH, LOW_, HIGH, HIGH], vec![HIGH, HIGH, LOW_, LOW_]],
        vec![
            vec![HIGH, LOW_, HIGH, HIGH, HIGH, LOW_, HIGH, HIGH],
            vec![NONE, NONE, NONE, NONE, HIGH, LOW_, HIGH, HIGH],
            vec![NONE, NONE, NONE, NONE, HIGH, LOW_, HIGH, HIGH],
        ],
        vec![vec![HIGH], vec![HIGH], vec![LOW_]],
        vec![vec![HIGH], vec![LOW_], vec![LOW_]],
    );
}

fn run_ram_cell(num_bits: usize, inputs: Vec<Vec<Signal>>, outputs: Vec<Vec<Signal>>, named: Vec<(&str, Vec<Vec<Signal>>)>) {
    let mut circuit = Circuit::new();
    let cell = SingleRAMCell::new(&mut circuit, num_bits).unwrap();
    run_multi_input_output_logic_gate(&mut circuit, &cell, &|t| cell.get_index_from_tag(t), inputs, outputs, named);
}

fn single_ram_cell_low_v_h(v_signal: Signal, h_signal: Signal) {
    run_ram_cell(
        1,
        vec![vec![HIGH]],
        vec![vec![NONE, LOW_]],
        vec![
            ("R", vec![vec![LOW_]]),
            ("H", vec![vec![h_signal]]),
            ("V", vec![vec![v_signal]]),
            ("S", vec![vec![HIGH]]),
            ("E", vec![vec![HIGH]]),
        ],
    );
}

#[test]
fn single_ram_cell_low_v() {
    single_ram_cell_low_v_h(LOW_, HIGH);
}

#[test]
fn single_ram_cell_low_h() {
    single_ram_cell_low_v_h(HIGH, LOW_);
}

fn vec_with_values<T: Clone>(val1: T, x: usize, val2: T, y: usize) -> Vec<T> {
    std::iter::repeat(val1).take(x).chain(std::iter::repeat(val2).take(y)).collect()
}

#[test]
fn single_ram_cell_reset() {
    let num_bits = 8;
    run_ram_cell(
        num_bits,
        vec![vec![HIGH; num_bits], vec![HIGH; num_bits], vec![LOW_; num_bits]],
        vec![
            vec_with_values(NONE, num_bits, HIGH, num_bits),
            vec_with_values(NONE, num_bits, HIGH, num_bits),
            vec_with_values(HIGH, num_bits, HIGH, num_bits),
        ],
        vec![
            ("R", vec![vec![HIGH], vec![LOW_], vec![LOW_]]),
            ("H", vec![vec![LOW_], vec![LOW_], vec![HIGH]]),
            ("V", vec![vec![LOW_], vec![LOW_], vec![HIGH]]),
            ("S", vec![vec![LOW_], vec![LOW_], vec![LOW_]]),
            ("E", vec![vec![LOW_], vec![LOW_], vec![HIGH]]),
        ],
    );
}

#[test]
fn single_ram_cell_set() {
    let num_bits = 6;
    run_ram_cell(
        num_bits,
        vec![vec![LOW_; num_bits], vec![HIGH; num_bits], vec![HIGH; num_bits], vec![LOW_; num_bits]],
        vec![
            vec_with_values(NONE, num_bits, LOW_, num_bits),
            vec_with_values(NONE, num_bits, HIGH, num_bits),
            vec_with_values(NONE, num_bits, HIGH, num_bits),
            vec_with_values(HIGH, num_bits, HIGH, num_bits),
        ],
        vec![
            ("R", vec![vec![LOW_], vec![LOW_], vec![LOW_], vec![LOW_]]),
            ("H", vec![vec![HIGH], vec![HIGH], vec![LOW_], vec![HIGH]]),
            ("V", vec![vec![HIGH], vec![HIGH], vec![LOW_], vec![HIGH]]),
            ("S", vec![vec![HIGH], vec![HIGH], vec![LOW_], vec![LOW_]]),
            ("E", vec![vec![LOW_], vec![LOW_], vec![LOW_], vec![HIGH]]),
        ],
    );
}

#[test]
fn variable_bit_bus_one_test() {
    let num_bits = 8;
    let mut one_signals = vec![LOW_; num_bits];
    one_signals[0] = HIGH;
    let mut circuit = Circuit::new();
    let gate = VariableBitBusOne::new(&mut circuit, num_bits).unwrap();
    run_multi_input_output_logic_gate(
        &mut circuit,
        &gate,
        &|t| gate.get_index_from_tag(t),
        vec![vec![HIGH; num_bits], vec![HIGH; num_bits]],
        vec![vec![HIGH; num_bits], one_signals],
        vec![("BUS_1", vec![vec![LOW_], vec![HIGH]])],
    );
}

#[test]
fn variable_bit_bus_one_single_bit() {
    let mut circuit = Circuit::new();
    let gate = VariableBitBusOne::new(&mut circuit, 1).unwrap();
    run_multi_input_output_logic_gate(
        &mut circuit,
        &gate,
        &|t| gate.get_index_from_tag(t),
        vec![vec![LOW_], vec![LOW_]],
        vec![vec![LOW_], vec![HIGH]],
        vec![("BUS_1", vec![vec![LOW_], vec![HIGH]])],
    );
}

#[test]
fn decoder_initialization() {
    let num_bits = rand::thread_rng().gen_range(1..=8);
    let mut circuit = Circuit::new();
    let decoder = VariableDecoder::new(&mut circuit, num_bits).unwrap();
    let output = decoder.fetch_output_signals(&mut circuit);
    assert_eq!(output.len(), 1usize << num_bits);
    for (i, out) in output.into_iter().enumerate() {
        match out {
            GateOutputState::NotConnected(signal) => {
                if i == 0 {
                    assert_eq!(signal, HIGH);
                } else {
                    assert_eq!(signal, LOW_);
                }
            }
            GateOutputState::Connected(_) => panic!("Final output gate should never be connected."),
        }
    }
}

#[test]
fn decoder_all_numbers() {
    let number_inputs = rand::thread_rng().gen_range(1..=5);
    let number_outputs = 1usize << number_inputs;
    let mut input_vector = Vec::new();
    let mut output_vector = Vec::new();
    for i in 0..number_outputs {
        let i_vector: Vec<Signal> = (0..number_inputs).map(|k| if (i >> k) & 1 == 1 { HIGH } else { LOW_ }).collect();
        input_vector.push(i_vector);
        let mut o_vector = vec![LOW_; number_outputs];
        o_vector[i] = HIGH;
        output_vector.push(o_vector);
    }
    let mut circuit = Circuit::new();
    let decoder = VariableDecoder::new(&mut circuit, number_inputs).unwrap();
    run_multi_input_output_logic_gate(&mut circuit, &decoder, &|t| decoder.get_index_from_tag(t), input_vector, output_vector, vec![]);
}
