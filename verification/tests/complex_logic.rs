use rand::Rng;
use logic_simulator::circuit::Circuit;
use logic_simulator::logic::complex_logic::{FourCycleClockHookup, MasterSlaveJKFlipFlop, SignalGatekeeper, VariableBitCPUEnable};
use logic_simulator::logic::foundations::{connect_gates, GateOutputState, LogicGate};
use logic_simulator::logic::multiplexing::VariableBitMultiplexer;
use logic_simulator::logic::counting::VariableBitCounter;
use logic_simulator::logic::stepper::VariableOutputStepper;
use logic_simulator::logic::input_gates::AutomaticInput;
use logic_simulator::logic::output_gates::SimpleOutput;
use logic_simulator::logic::signals::Signal;
use logic_simulator::logic::signals::Signal::{HIGH, LOW_};

fn signal_of(state: &GateOutputState) -> Signal {
    match state {
        GateOutputState::NotConnected(s) => *s,
        GateOutputState::Connected(c) => c.throughput.signal,
    }
}

/// Feeds `gate`, tick after tick, from automatic inputs: input `i_<k>` gets the `k`-th value
/// of each row of `input_values`, and each named input its own rows. After every tick the
/// signals of all its outputs are collected and compared with `expected_outputs`.
fn run_multi_input_output_logic_gate<G: LogicGate>(
    circuit: &mut Circuit,
    gate: &G,
    tag_index: &dyn Fn(&str) -> Option<usize>,
    input_values: Vec<Vec<Signal>>,
    expected_outputs: Vec<Vec<Signal>>,
    named_inputs: Vec<(&str, Vec<Vec<Signal>>)>,
) {
    let mut input_gates: Vec<usize> = Vec::new();
    if !input_values.is_empty() {
        for k in 0..input_values[0].len() {
            let values: Vec<Signal> = input_values.iter().map(|row| row[k]).collect();
            let tag = format!("i_{}", k);
            let source = AutomaticInput::new(circuit, values, 1, "Start");
            let idx = tag_index(&tag).unwrap();
            connect_gates(circuit, &source, 0, gate, idx);
            input_gates.push(source.gate);
        }
    }
    for (tag, rows) in named_inputs.iter() {
        let width = rows[0].len();
        for j in 0..width {
            let values: Vec<Signal> = rows.iter().map(|row| row[j]).collect();
            let source = AutomaticInput::new(circuit, values, 1, "Start");
            let full_tag = if width == 1 { tag.to_string() } else { format!("{}_{}", tag, j) };
            let idx = tag_index(&full_tag).unwrap();
            connect_gates(circuit, &source, 0, gate, idx);
            input_gates.push(source.gate);
        }
    }
    let mut output_gates: Vec<usize> = Vec::new();
    for j in 0..gate.num_outputs() {
        let out = SimpleOutput::new(circuit, "End");
        connect_gates(circuit, gate, j, &out, 0);
        output_gates.push(out.gate);
    }
    let collected = run_collect(circuit, &input_gates, &output_gates);
    assert_eq!(collected, expected_outputs);
}

/// Runs the circuit tick after tick until an automatic input runs out, collecting the
/// signal that each output gate shows after every tick.
fn run_collect(circuit: &mut Circuit, input_gates: &Vec<usize>, output_gates: &Vec<usize>) -> Vec<Vec<Signal>> {
    let mut collected = Vec::new();
    let mut propagate = true;
    loop {
        circuit.advance_clock_tick();
        let keep_going = circuit.run_circuit(input_gates, propagate).unwrap();
        if !keep_going {
            break;
        }
        propagate = false;
        let mut single = Vec::new();
        for g in output_gates {
            let out = circuit.fetch_output_signals_calculate(*g).unwrap();
            assert_eq!(out.len(), 1);
            single.push(signal_of(&out[0]));
        }
        collected.push(single);
    }
    collected
}

#[test]
fn cpu_enable_initialization() {
    let num_bits = rand::thread_rng().gen_range(1..=16);
    let mut circuit = Circuit::new();
    let cpu_enable = VariableBitCPUEnable::new(&mut circuit, num_bits).unwrap();
    let output = cpu_enable.fetch_output_signals(&mut circuit);
    assert_eq!(output.len(), num_bits);
    for out in output {
        match out {
            GateOutputState::NotConnected(signal) => assert_eq!(signal, LOW_),
            GateOutputState::Connected(_) => panic!("Final output gate should never be connected."),
        }
    }
}

#[test]
fn cpu_enable_inputs_change() {
    let mut circuit = Circuit::new();
    let gate = VariableBitCPUEnable::new(&mut circuit, 3).unwrap();
    run_multi_input_output_logic_gate(
        &mut circuit,
        &gate,
        &|t| gate.get_index_from_tag(t),
        vec![vec![HIGH, HIGH, LOW_], vec![HIGH, HIGH, LOW_], vec![LOW_, HIGH, LOW_]],
        vec![vec![HIGH, HIGH, LOW_], vec![LOW_, LOW_, LOW_], vec![LOW_, HIGH, LOW_]],
        vec![("E", vec![vec![HIGH], vec![LOW_], vec![HIGH]])],
    );
}

#[test]
fn signal_gatekeeper_tests() {
    let mut circuit = Circuit::new();
    let gate = SignalGatekeeper::new(&mut circuit, 3).unwrap();
    run_multi_input_output_logic_gate(
        &mut circuit,
        &gate,
        &|t| gate.get_index_from_tag(t),
        vec![vec![HIGH, HIGH, LOW_], vec![HIGH, HIGH, LOW_]],
        vec![vec![LOW_, LOW_, LOW_], vec![HIGH, HIGH, LOW_]],
        vec![("E", vec![vec![LOW_], vec![HIGH]])],
    );
}

fn unconnected_signals(states: Vec<GateOutputState>) -> Vec<Signal> {
    states.iter().map(|s| match s {
        GateOutputState::NotConnected(signal) => *signal,
        GateOutputState::Connected(_) => panic!("Clock should not be connected to anything"),
    }).collect()
}

#[test]
fn master_slave_jk_flip_flop_initialization() {
    let mut circuit = Circuit::new();
    let flip_flop = MasterSlaveJKFlipFlop::new(&mut circuit).unwrap();
    let output = unconnected_signals(flip_flop.fetch_output_signals(&mut circuit));
    assert_eq!(output, vec![HIGH, LOW_]);
}

#[test]
fn master_slave_jk_flip_flop_run() {
    let mut circuit = Circuit::new();
    let gate = MasterSlaveJKFlipFlop::new(&mut circuit).unwrap();
    run_multi_input_output_logic_gate(
        &mut circuit,
        &gate,
        &|t| gate.get_index_from_tag(t),
        vec![],
        vec![vec![HIGH, LOW_], vec![LOW_, HIGH], vec![LOW_, HIGH], vec![HIGH, LOW_], vec![HIGH, LOW_]],
        vec![
            ("CLK_IN", vec![vec![HIGH], vec![LOW_], vec![HIGH], vec![LOW_], vec![HIGH]]),
            ("J", vec![vec![HIGH], vec![HIGH], vec![HIGH], vec![HIGH], vec![HIGH]]),
            ("K", vec![vec![HIGH], vec![HIGH], vec![HIGH], vec![HIGH], vec![HIGH]]),
        ],
    );
}

#[test]
fn four_cycle_clock_hookup_initialization() {
    let mut circuit = Circuit::new();
    let clock = FourCycleClockHookup::new(&mut circuit).unwrap();
    let output = unconnected_signals(clock.fetch_output_signals(&mut circuit));
    assert_eq!(output, vec![LOW_, LOW_, HIGH]);
}

#[test]
fn four_cycle_clock_hookup_run() {
    let mut circuit = Circuit::new();
    let mut clock_hookup = FourCycleClockHookup::new(&mut circuit).unwrap();
    clock_hookup.toggle_output_printing(true);
    run_multi_input_output_logic_gate(
        &mut circuit,
        &clock_hookup,
        &|t| clock_hookup.get_index_from_tag(t),
        vec![],
        vec![
            vec![HIGH, HIGH, HIGH],
            vec![HIGH, LOW_, HIGH],
            vec![LOW_, LOW_, LOW_],
            vec![LOW_, LOW_, HIGH],
            vec![HIGH, HIGH, HIGH],
        ],
        vec![("CLK_IN", vec![vec![HIGH], vec![LOW_], vec![HIGH], vec![LOW_], vec![HIGH]])],
    );
}

#[test]
fn multiplexer_init() {
    let mut circuit = Circuit::new();
    let multiplexer = VariableBitMultiplexer::new(&mut circuit, 3, 2).unwrap();
    let output = multiplexer.fetch_output_signals(&mut circuit);
    let mut output_signals = Vec::new();
    for out in output {
        match out {
            GateOutputState::NotConnected(signal) => output_signals.push(signal),
            GateOutputState::Connected(_) => panic!("Clock should not be connected to anything"),
        }
    }
    assert_eq!(output_signals, vec![LOW_, LOW_, LOW_]);
}

#[test]
fn multiplexer_run() {
    let mut circuit = Circuit::new();
    let multiplexer = VariableBitMultiplexer::new(&mut circuit, 3, 2).unwrap();
    run_multi_input_output_logic_gate(
        &mut circuit,
        &multiplexer,
        &|t| multiplexer.get_index_from_tag(t),
        vec![],
        vec![
            vec![HIGH, HIGH, HIGH],
            vec![LOW_, HIGH, LOW_],
            vec![HIGH, HIGH, HIGH],
            vec![LOW_, HIGH, LOW_],
            vec![LOW_, HIGH, LOW_],
        ],
        vec![
            ("C_0", vec![vec![LOW_], vec![HIGH], vec![LOW_], vec![HIGH], vec![HIGH]]),
            ("I_0_bit", vec![vec![HIGH, HIGH, HIGH]; 5]),
            ("I_1_bit", vec![vec![LOW_, HIGH, LOW_]; 5]),
        ],
    );
}

#[test]
fn multiplexer_four_inputs() {
    let mut circuit = Circuit::new();
    let multiplexer = VariableBitMultiplexer::new(&mut circuit, 2, 4).unwrap();
    assert_eq!(multiplexer.num_children_gates(), 2 * 8 + 2 * 2 + 2 * 2);
    run_multi_input_output_logic_gate(
        &mut circuit,
        &multiplexer,
        &|t| multiplexer.get_index_from_tag(t),
        vec![],
        vec![vec![LOW_, LOW_], vec![HIGH, LOW_], vec![LOW_, HIGH], vec![HIGH, HIGH]],
        vec![
            ("C_0", vec![vec![LOW_], vec![LOW_], vec![HIGH], vec![HIGH]]),
            ("C_1", vec![vec![LOW_], vec![HIGH], vec![LOW_], vec![HIGH]]),
            ("I_0_bit", vec![vec![LOW_, LOW_]; 4]),
            ("I_1_bit", vec![vec![HIGH, LOW_]; 4]),
            ("I_2_bit", vec![vec![LOW_, HIGH]; 4]),
            ("I_3_bit", vec![vec![HIGH, HIGH]; 4]),
        ],
    );
}

#[test]
fn variable_bit_counter_initialization() {
    let mut circuit = Circuit::new();
    let counter = VariableBitCounter::new(&mut circuit, 4).unwrap();
    let output = unconnected_signals(counter.fetch_output_signals(&mut circuit));
    assert_eq!(output, vec![LOW_, LOW_, LOW_, LOW_]);
}

#[test]
fn variable_bit_counter_run() {
    let num_output_pins = rand::thread_rng().gen_range(1..8);
    let possible_numbers = 1usize << num_output_pins;
    let mut output_signals: Vec<Vec<Signal>> = Vec::new();
    let mut clk_input_signals: Vec<Vec<Signal>> = Vec::new();
    output_signals.push(vec![LOW_; num_output_pins]);
    clk_input_signals.push(vec![HIGH]);
    for i in 1..possible_numbers {
        let output: Vec<Signal> = (0..num_output_pins).map(|k| if (i >> k) & 1 == 1 { HIGH } else { LOW_ }).collect();
        output_signals.push(output.clone());
        output_signals.push(output);
        clk_input_signals.push(vec![LOW_]);
        clk_input_signals.push(vec![HIGH]);
    }
    output_signals.push(vec![LOW_; num_output_pins]);
    clk_input_signals.push(vec![LOW_]);
    let mut circuit = Circuit::new();
    let counter = VariableBitCounter::new(&mut circuit, num_output_pins).unwrap();
    run_multi_input_output_logic_gate(
        &mut circuit,
        &counter,
        &|t| counter.get_index_from_tag(t),
        vec![],
        output_signals,
        vec![("CLK_IN", clk_input_signals)],
    );
}

#[test]
fn variable_output_stepper_tests() {
    let mut circuit = Circuit::new();
    let stepper = VariableOutputStepper::new(&mut circuit, 6).unwrap();
    run_multi_input_output_logic_gate(
        &mut circuit,
        &stepper,
        &|t| stepper.get_index_from_tag(t),
        vec![],
        vec![
            vec![HIGH, LOW_, LOW_, LOW_, LOW_, LOW_], //0
            vec![HIGH, LOW_, LOW_, LOW_, LOW_, LOW_],
            vec![LOW_, HIGH, LOW_, LOW_, LOW_, LOW_], //1
            vec![LOW_, HIGH, LOW_, LOW_, LOW_, LOW_],
            vec![LOW_, LOW_, HIGH, LOW_, LOW_, LOW_], //2
            vec![LOW_, LOW_, HIGH, LOW_, LOW_, LOW_],
            vec![LOW_, LOW_, LOW_, HIGH, LOW_, LOW_], //3
            vec![LOW_, LOW_, LOW_, HIGH, LOW_, LOW_],
            vec![LOW_, LOW_, LOW_, LOW_, HIGH, LOW_], //4
            vec![LOW_, LOW_, LOW_, LOW_, HIGH, LOW_],
            vec![LOW_, LOW_, LOW_, LOW_, LOW_, HIGH], //5
            vec![LOW_, LOW_, LOW_, LOW_, LOW_, HIGH],
            vec![HIGH, LOW_, LOW_, LOW_, LOW_, LOW_], //0
        ],
        vec![(
            "CLK",
            vec![
                vec![LOW_],
                vec![HIGH],
                vec![LOW_],
                vec![HIGH],
                vec![LOW_],
                vec![HIGH],
                vec![LOW_],
                vec![HIGH],
                vec![LOW_],
                vec![HIGH],
                vec![LOW_],
                vec![HIGH],
                vec![LOW_],
            ],
        )],
    );
}

#[test]
fn variable_output_stepper_two_outputs() {
    let mut circuit = Circuit::new();
    let stepper = VariableOutputStepper::new(&mut circuit, 2).unwrap();
    assert_eq!(circuit.num_gates(), 19 * 2 + 7);
    run_multi_input_output_logic_gate(
        &mut circuit,
        &stepper,
        &|t| stepper.get_index_from_tag(t),
        vec![],
        vec![
            vec![HIGH, LOW_],
            vec![HIGH, LOW_],
            vec![LOW_, HIGH],
            vec![LOW_, HIGH],
            vec![HIGH, LOW_],
        ],
        vec![("CLK", vec![vec![LOW_], vec![HIGH], vec![LOW_], vec![HIGH], vec![LOW_]])],
    );
}
