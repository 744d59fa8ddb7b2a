use rand::Rng;
use logic_simulator::circuit::Circuit;
use logic_simulator::logic::foundations::{connect_gates, GateOutputState, LogicGate};
use logic_simulator::logic::input_gates::AutomaticInput;
use logic_simulator::logic::memory_gates::{ActiveLowSRLatch, OneBitMemoryCell, SRLatch, VariableBitMemoryCell};
use logic_simulator::logic::output_gates::SimpleOutput;
use logic_simulator::logic::signals::Signal;
use logic_simulator::logic::signals::Signal::{HIGH, LOW_};

fn signal_of(state: &GateOutputState) -> Signal {
    match state {
        GateOutputState::NotConnected(s) => *s,
        GateOutputState::Connected(c) => c.throughput.signal,
    }
}

/// Feeds `gate`, tick after tick, from automatic inputs: input `i_<k>` gets the `k`-th value
/// of each row of `input_values`, and each named input its own rows. After every tick the
/// signals of all its outputs are collected and compared with `expected_outputs`.
fn run_multi_input_output_logic_gate<G: LogicGate>(
    circuit: &mut Circuit,
    gate: &G,
    tag_index: &dyn Fn(&str) -> Option<usize>,
    input_values: Vec<Vec<Signal>>,
    expected_outputs: Vec<Vec<Signal>>,
    named_inputs: Vec<(&str, Vec<Vec<Signal>>)>,
) {
    let mut input_gates: Vec<usize> = Vec::new();
    if !input_values.is_empty() {
        for k in 0..input_values[0].len() {
            let values: Vec<Signal> = input_values.iter().map(|row| row[k]).collect();
            let tag = format!("i_{}", k);
            let source = AutomaticInput::new(circuit, values, 1, "Start");
            let idx = tag_index(&tag).unwrap();
            connect_gates(circuit, &source, 0, gate, idx);
            input_gates.push(source.gate);
        }
    }
    for (tag, rows) in named_inputs.iter() {
        let width = rows[0].len();
        for j in 0..width {
            let values: Vec<Signal> = rows.iter().map(|row| row[j]).collect();
            let source = AutomaticInput::new(circuit, values, 1, "Start");
            let full_tag = if width == 1 { tag.to_string() } else { format!("{}_{}", tag, j) };
            let idx = tag_index(&full_tag).unwrap();
            connect_gates(circuit, &source, 0, gate, idx);
            input_gates.push(source.gate);
        }
    }
    let mut output_gates: Vec<usize> = Vec::new();
    for j in 0..gate.num_outputs() {
        let out = SimpleOutput::new(circuit, "End");
        connect_gates(circuit, gate, j, &out, 0);
        output_gates.push(out.gate);
    }
    let collected = run_collect(circuit, &input_gates, &output_gates);
    assert_eq!(collected, expected_outputs);
}

/// Runs the circuit tick after tick until an automatic input runs out, collecting the
/// signal that each output gate shows after every tick.
fn run_collect(circuit: &mut Circuit, input_gates: &Vec<usize>, output_gates: &Vec<usize>) -> Vec<Vec<Signal>> {
    let mut collected = Vec::new();
    let mut propagate = true;
    loop {
        circuit.advance_clock_tick();
        let keep_going = circuit.run_circuit(input_gates, propagate).unwrap();
        if !keep_going {
            break;
        }
        propagate = false;
        let mut single = Vec::new();
        for g in output_gates {
            let out = circuit.fetch_output_signals_calculate(*g).unwrap();
            assert_eq!(out.len(), 1);
            single.push(signal_of(&out[0]));
        }
        collected.push(single);
    }
    collected
}

/// Drives `R` and `S` of a latch from automatic inputs and checks `Q` and `~Q` after
/// every tick.
fn run_sr_latch<G: LogicGate>(
    circuit: &mut Circuit,
    latch: &G,
    r_index: usize,
    s_index: usize,
    r_input_signal: Vec<Signal>,
    s_input_signal: Vec<Signal>,
    q_output_signal: Vec<Signal>,
    not_q_output_signal: Vec<Signal>,
) {
    let r_input_gate = AutomaticInput::new(circuit, r_input_signal, 1, "Start_R");
    let s_input_gate = AutomaticInput::new(circuit, s_input_signal, 1, "Start_S");
    let q_output_gate = SimpleOutput::new(circuit, "End_Q");
    let not_q_output_gate = SimpleOutput::new(circuit, "End_~Q");
    connect_gates(circuit, &r_input_gate, 0, latch, r_index);
    connect_gates(circuit, &s_input_gate, 0, latch, s_index);
    connect_gates(circuit, latch, 0, &q_output_gate, 0);
    connect_gates(circuit, latch, 1, &not_q_output_gate, 0);
    let collected = run_collect(
        circuit,
        &vec![r_input_gate.gate, s_input_gate.gate],
        &vec![q_output_gate.gate, not_q_output_gate.gate],
    );
    let q: Vec<Signal> = collected.iter().map(|row| row[0]).collect();
    let not_q: Vec<Signal> = collected.iter().map(|row| row[1]).collect();
    assert_eq!(q, q_output_signal);
    assert_eq!(not_q, not_q_output_signal);
}

fn run_sr(r: Vec<Signal>, s: Vec<Signal>, q: Vec<Signal>, not_q: Vec<Signal>) {
    let mut circuit = Circuit::new();
    let latch = SRLatch::new(&mut circuit).unwrap();
    let r_index = latch.get_index_from_tag("R").unwrap();
    let s_index = latch.get_index_from_tag("S").unwrap();
    run_sr_latch(&mut circuit, &latch, r_index, s_index, r, s, q, not_q);
}

fn run_active_low(r: Vec<Signal>, s: Vec<Signal>, q: Vec<Signal>, not_q: Vec<Signal>) {
    let mut circuit = Circuit::new();
    let latch = ActiveLowSRLatch::new(&mut circuit).unwrap();
    let r_index = latch.get_index_from_tag("R").unwrap();
    let s_index = latch.get_index_from_tag("S").unwrap();
    run_sr_latch(&mut circuit, &latch, r_index, s_index, r, s, q, not_q);
}

fn run_one_bit_memory_cell(e_input_signal: Vec<Signal>, s_input_signal: Vec<Signal>, q_output_signal: Vec<Signal>) {
    let mut circuit = Circuit::new();
    let e_input_gate = AutomaticInput::new(&mut circuit, e_input_signal, 1, "Start_E");
    let s_input_gate = AutomaticInput::new(&mut circuit, s_input_signal, 1, "Start_S");
    let q_output_gate = SimpleOutput::new(&mut circuit, "End_Q");
    let second_q_output_gate = SimpleOutput::new(&mut circuit, "End_Q_2");
    let cell = OneBitMemoryCell::new(&mut circuit, 2).unwrap();
    let e_index = cell.get_index_from_tag("E").unwrap();
    connect_gates(&mut circuit, &e_input_gate, 0, &cell, e_index);
    let s_index = cell.get_index_from_tag("S").unwrap();
    connect_gates(&mut circuit, &s_input_gate, 0, &cell, s_index);
    let q_index = cell.get_index_from_tag("Q").unwrap();
    connect_gates(&mut circuit, &cell, q_index, &q_output_gate, 0);
    let second_q_index = cell.get_index_from_tag("Q_1").unwrap();
    connect_gates(&mut circuit, &cell, second_q_index, &second_q_output_gate, 0);
    let collected = run_collect(
        &mut circuit,
        &vec![e_input_gate.gate, s_input_gate.gate],
        &vec![q_output_gate.gate, second_q_output_gate.gate],
    );
    let flat: Vec<Signal> = collected.into_iter().flatten().collect();
    let mut output_signals = Vec::new();
    for s in q_output_signal.into_iter() {
        output_signals.push(s);
        output_signals.push(s);
    }
    assert_eq!(flat, output_signals);
}

fn fetched_signals(states: Vec<GateOutputState>) -> Vec<Signal> {
    states.iter().map(|s| match s {
        GateOutputState::NotConnected(signal) => *signal,
        GateOutputState::Connected(_) => panic!("Output should never be connected"),
    }).collect()
}

#[test]
fn sr_gate_initialization() {
    let mut circuit = Circuit::new();
    let latch = SRLatch::new(&mut circuit).unwrap();
    let output = fetched_signals(latch.fetch_output_signals(&mut circuit));
    assert_eq!(output, vec![LOW_, HIGH]);
}

#[test]
fn sr_gate_low_low_after_low_high() {
    run_sr(vec![LOW_, LOW_], vec![HIGH, LOW_], vec![HIGH, HIGH], vec![LOW_, LOW_]);
}

#[test]
fn sr_gate_low_low_after_high_low() {
    run_sr(vec![HIGH, LOW_], vec![LOW_, LOW_], vec![LOW_, LOW_], vec![HIGH, HIGH]);
}

#[test]
fn sr_gate_low_high() {
    run_sr(vec![LOW_], vec![HIGH], vec![HIGH], vec![LOW_]);
}

#[test]
fn sr_gate_high_low() {
    run_sr(vec![HIGH], vec![LOW_], vec![LOW_], vec![HIGH]);
}

#[test]
fn sr_gate_high_high() {
    run_sr(vec![HIGH], vec![HIGH], vec![LOW_], vec![LOW_]);
}

#[test]
fn active_low_sr_gate_initialization() {
    let mut circuit = Circuit::new();
    let latch = ActiveLowSRLatch::new(&mut circuit).unwrap();
    let output = fetched_signals(latch.fetch_output_signals(&mut circuit));
    assert_eq!(output, vec![HIGH, LOW_]);
}

#[test]
fn active_low_sr_gate_high_high_after_low_high() {
    run_active_low(vec![LOW_, HIGH], vec![HIGH, HIGH], vec![LOW_, LOW_], vec![HIGH, HIGH]);
}

#[test]
fn active_low_sr_gate_high_high_after_high_low() {
    run_active_low(vec![HIGH, HIGH], vec![LOW_, HIGH], vec![HIGH, HIGH], vec![LOW_, LOW_]);
}

#[test]
fn active_low_sr_gate_low_high() {
    run_active_low(vec![LOW_], vec![HIGH], vec![LOW_], vec![HIGH]);
}

#[test]
fn active_low_sr_gate_high_low() {
    run_active_low(vec![HIGH], vec![LOW_], vec![HIGH], vec![LOW_]);
}

#[test]
fn active_low_sr_gate_low_low() {
    run_active_low(vec![LOW_], vec![LOW_], vec![HIGH], vec![HIGH]);
}

#[test]
fn one_bit_mem_initialization() {
    let mut circuit = Circuit::new();
    let cell = OneBitMemoryCell::new(&mut circuit, 1).unwrap();
    let output = fetched_signals(cell.fetch_output_signals(&mut circuit));
    assert_eq!(output, vec![LOW_]);
}

#[test]
fn one_bit_mem_low_high() {
    run_one_bit_memory_cell(vec![LOW_], vec![HIGH], vec![LOW_]);
}

#[test]
fn one_bit_mem_high_low() {
    run_one_bit_memory_cell(vec![HIGH], vec![LOW_], vec![LOW_]);
}

#[test]
fn one_bit_mem_high_high() {
    run_one_bit_memory_cell(vec![HIGH], vec![HIGH], vec![HIGH]);
}

#[test]
fn one_bit_mem_high_high_to_low_low() {
    run_one_bit_memory_cell(vec![HIGH, LOW_], vec![HIGH, LOW_], vec![HIGH, HIGH]);
}

#[test]
fn one_bit_mem_low_high_to_low_low() {
    run_one_bit_memory_cell(vec![LOW_, LOW_], vec![HIGH, LOW_], vec![LOW_, LOW_]);
}

#[test]
fn one_bit_mem_high_low_to_low_low() {
    run_one_bit_memory_cell(vec![HIGH, LOW_], vec![LOW_, LOW_], vec![LOW_, LOW_]);
}

#[test]
fn one_bit_mem_low_low_to_low_low() {
    run_one_bit_memory_cell(vec![LOW_, LOW_], vec![LOW_, LOW_], vec![LOW_, LOW_]);
}

#[test]
fn one_bit_mem_high_high_to_high_low() {
    run_one_bit_memory_cell(vec![HIGH, HIGH], vec![HIGH, LOW_], vec![HIGH, LOW_]);
}

#[test]
fn one_bit_mem_high_low_to_high_high() {
    run_one_bit_memory_cell(vec![HIGH, HIGH], vec![LOW_, HIGH], vec![LOW_, HIGH]);
}

#[test]
fn variable_bit_mem_initialization() {
    let num_bits = rand::thread_rng().gen_range(2..=16);
    let mut circuit = Circuit::new();
    let memory = VariableBitMemoryCell::new(&mut circuit, num_bits).unwrap();
    let output = fetched_signals(memory.fetch_output_signals(&mut circuit));
    assert_eq!(output.len(), 2 * num_bits);
    for signal in output {
        assert_eq!(signal, LOW_);
    }
}

fn run_memory(inputs: Vec<Vec<Signal>>, outputs: Vec<Vec<Signal>>, s: Vec<Vec<Signal>>, num_bits: usize) {
    let mut circuit = Circuit::new();
    let memory = VariableBitMemoryCell::new(&mut circuit, num_bits).unwrap();
    run_multi_input_output_logic_gate(
        &mut circuit,
        &memory,
        &|t| memory.get_index_from_tag(t),
        inputs,
        outputs,
        vec![("S", s)],
    );
}

#[test]
fn variable_bit_signal_high() {
    run_memory(
        vec![vec![HIGH, LOW_, HIGH]],
        vec![vec![HIGH, LOW_, HIGH, HIGH, LOW_, HIGH]],
        vec![vec![HIGH]],
        3,
    );
}

#[test]
fn variable_bit_signal_low() {
    run_memory(
        vec![vec![HIGH, LOW_]],
        vec![vec![LOW_, LOW_, LOW_, LOW_]],
        vec![vec![LOW_]],
        2,
    );
}

#[test]
fn variable_bit_saved_states() {
    run_memory(
        vec![
            vec![HIGH, HIGH, LOW_],
            vec![HIGH, HIGH, LOW_],
            vec![HIGH, HIGH, LOW_],
            vec![LOW_, LOW_, HIGH],
        ],
        vec![
            vec![LOW_, LOW_, LOW_, LOW_, LOW_, LOW_],
            vec![HIGH, HIGH, LOW_, HIGH, HIGH, LOW_],
            vec![HIGH, HIGH, LOW_, HIGH, HIGH, LOW_],
            vec![LOW_, LOW_, HIGH, LOW_, LOW_, HIGH],
        ],
        vec![vec![LOW_], vec![HIGH], vec![LOW_], vec![HIGH]],
        3,
    );
}
