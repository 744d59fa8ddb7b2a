use rand::Rng;
use logic_simulator::circuit::Circuit;
use logic_simulator::logic::basic_gates::{And, ControlledBuffer, Nand, Nor, Not, Or, Splitter, XOr};
use logic_simulator::logic::foundations::{connect_gates, GateOutputState, LogicGate};
use logic_simulator::logic::input_gates::AutomaticInput;
use logic_simulator::logic::output_gates::SimpleOutput;
use logic_simulator::logic::input_gates::SimpleInput;
use logic_simulator::logic::foundations::{ComplexGateMembers, GateType};
use logic_simulator::logic::signals::Signal::{HIGH, LOW_, NONE};
use logic_simulator::logic::signals::{GateInput, Signal, UniqueID};

fn signal_of(state: &GateOutputState) -> Signal {
    match state {
        GateOutputState::NotConnected(s) => *s,
        GateOutputState::Connected(c) => c.throughput.signal,
    }
}

/// Runs the circuit tick after tick until an automatic input runs out, collecting the
/// signal that each output gate shows after every tick.
fn run_collect(circuit: &mut Circuit, input_gates: &Vec<usize>, output_gates: &Vec<usize>) -> Vec<Vec<Signal>> {
    let mut collected = Vec::new();
    let mut propagate = true;
    loop {
        circuit.advance_clock_tick();
        let keep_going = circuit.run_circuit(input_gates, propagate).unwrap();
        if !keep_going {
            break;
        }
        propagate = false;
        let mut single = Vec::new();
        for g in output_gates {
            let out = circuit.fetch_output_signals_calculate(*g).unwrap();
            assert_eq!(out.len(), 1);
            single.push(signal_of(&out[0]));
        }
        collected.push(single);
    }
    collected
}

fn test_simple_gate<G: LogicGate>(
    circuit: &mut Circuit,
    gate: G,
    first_input: Signal,
    second_input: Option<Signal>,
    expected: Signal,
) {
    let first = AutomaticInput::new(circuit, vec![first_input], 1, "A");
    connect_gates(circuit, &first, 0, &gate, 0);
    let mut inputs = vec![first.gate];
    if let Some(s) = second_input {
        let second = AutomaticInput::new(circuit, vec![s], 1, "B");
        connect_gates(circuit, &second, 0, &gate, 1);
        inputs.push(second.gate);
    }
    let output = SimpleOutput::new(circuit, "OUT");
    connect_gates(circuit, &gate, 0, &output, 0);
    let collected = run_collect(circuit, &inputs, &vec![output.gate]);
    assert_eq!(collected, vec![vec![expected]]);
}

#[test]
fn test_or_gate_low_low() {
    let mut c = Circuit::new();
    let g = Or::new(&mut c, 2, 1);
    test_simple_gate(&mut c, g, LOW_, Some(LOW_), LOW_);
}

#[test]
fn test_or_gate_low_high() {
    let mut c = Circuit::new();
    let g = Or::new(&mut c, 2, 1);
    test_simple_gate(&mut c, g, LOW_, Some(HIGH), HIGH);
}

#[test]
fn test_or_gate_high_low() {
    let mut c = Circuit::new();
    let g = Or::new(&mut c, 2, 1);
    test_simple_gate(&mut c, g, HIGH, Some(LOW_), HIGH);
}

#[test]
fn test_or_gate_high_high() {
    let mut c = Circuit::new();
    let g = Or::new(&mut c, 2, 1);
    test_simple_gate(&mut c, g, HIGH, Some(HIGH), HIGH);
}

#[test]
fn test_and_gate_low_low() {
    let mut c = Circuit::new();
    let g = And::new(&mut c, 2, 1);
    test_simple_gate(&mut c, g, LOW_, Some(LOW_), LOW_);
}

#[test]
fn test_and_gate_low_high() {
    let mut c = Circuit::new();
    let g = And::new(&mut c, 2, 1);
    test_simple_gate(&mut c, g, LOW_, Some(HIGH), LOW_);
}

#[test]
fn test_and_gate_high_low() {
    let mut c = Circuit::new();
    let g = And::new(&mut c, 2, 1);
    test_simple_gate(&mut c, g, HIGH, Some(LOW_), LOW_);
}

#[test]
fn test_and_gate_high_high() {
    let mut c = Circuit::new();
    let g = And::new(&mut c, 2, 1);
    test_simple_gate(&mut c, g, HIGH, Some(HIGH), HIGH);
}

#[test]
fn test_not_gate_low() {
    let mut c = Circuit::new();
    let g = Not::new(&mut c, 1);
    test_simple_gate(&mut c, g, LOW_, None, HIGH);
}

#[test]
fn test_not_gate_high() {
    let mut c = Circuit::new();
    let g = Not::new(&mut c, 1);
    test_simple_gate(&mut c, g, HIGH, None, LOW_);
}

#[test]
fn test_nor_gate_low_low() {
    let mut c = Circuit::new();
    let g = Nor::new(&mut c, 2, 1);
    test_simple_gate(&mut c, g, LOW_, Some(LOW_), HIGH);
}

#[test]
fn test_nor_gate_low_high() {
    let mut c = Circuit::new();
    let g = Nor::new(&mut c, 2, 1);
    test_simple_gate(&mut c, g, LOW_, Some(HIGH), LOW_);
}

#[test]
fn test_nor_gate_high_low() {
    let mut c = Circuit::new();
    let g = Nor::new(&mut c, 2, 1);
    test_simple_gate(&mut c, g, HIGH, Some(LOW_), LOW_);
}

#[test]
fn test_nor_gate_high_high() {
    let mut c = Circuit::new();
    let g = Nor::new(&mut c, 2, 1);
    test_simple_gate(&mut c, g, HIGH, Some(HIGH), LOW_);
}

#[test]
fn test_nand_gate_low_low() {
    let mut c = Circuit::new();
    let g = Nand::new(&mut c, 2, 1);
    test_simple_gate(&mut c, g, LOW_, Some(LOW_), HIGH);
}

#[test]
fn test_nand_gate_low_high() {
    let mut c = Circuit::new();
    let g = Nand::new(&mut c, 2, 1);
    test_simple_gate(&mut c, g, HIGH, Some(LOW_), HIGH);
}

#[test]
fn test_nand_gate_high_low() {
    let mut c = Circuit::new();
    let g = Nand::new(&mut c, 2, 1);
    test_simple_gate(&mut c, g, LOW_, Some(HIGH), HIGH);
}

#[test]
fn test_nand_gate_high_high() {
    let mut c = Circuit::new();
    let g = Nand::new(&mut c, 2, 1);
    test_simple_gate(&mut c, g, HIGH, Some(HIGH), LOW_);
}

#[test]
fn test_xor_gate_low_low() {
    let mut c = Circuit::new();
    let g = XOr::new(&mut c, 2, 1);
    test_simple_gate(&mut c, g, LOW_, Some(LOW_), LOW_);
}

#[test]
fn test_xor_gate_low_high() {
    let mut c = Circuit::new();
    let g = XOr::new(&mut c, 2, 1);
    test_simple_gate(&mut c, g, LOW_, Some(HIGH), HIGH);
}

#[test]
fn test_xor_gate_high_low() {
    let mut c = Circuit::new();
    let g = XOr::new(&mut c, 2, 1);
    test_simple_gate(&mut c, g, HIGH, Some(LOW_), HIGH);
}

#[test]
fn test_xor_gate_high_high() {
    let mut c = Circuit::new();
    let g = XOr::new(&mut c, 2, 1);
    test_simple_gate(&mut c, g, HIGH, Some(HIGH), LOW_);
}

fn test_controlled_buffer(signal: Signal) {
    let mut c = Circuit::new();
    let output_gate = SimpleOutput::new(&mut c, "OUT");
    let controlled_buffer = ControlledBuffer::new(&mut c, 1);
    connect_gates(&mut c, &controlled_buffer, 0, &output_gate, 0);
    c.update_input_signal(controlled_buffer.gate, GateInput::new(0, signal, UniqueID::zero_id())).unwrap();
    let enable_index = controlled_buffer.get_index_from_tag("E").unwrap();
    c.update_input_signal(controlled_buffer.gate, GateInput::new(enable_index, HIGH, UniqueID::zero_id())).unwrap();
    let output = c.fetch_output_signals_calculate(controlled_buffer.gate).unwrap();
    for gate_output_state in output {
        match gate_output_state {
            GateOutputState::NotConnected(_) => panic!("Output should be connected when pin is low."),
            GateOutputState::Connected(connected_output) => {
                assert_eq!(connected_output.throughput.signal, signal);
                assert_eq!(connected_output.gate, output_gate.gate);
            }
        }
    }
}

#[test]
fn test_controlled_buffer_initialization() {
    let mut c = Circuit::new();
    let output_gate = SimpleOutput::new(&mut c, "OUT");
    let controlled_buffer = ControlledBuffer::new(&mut c, 1);
    connect_gates(&mut c, &controlled_buffer, 0, &output_gate, 0);
    c.update_input_signal(controlled_buffer.gate, GateInput::new(0, HIGH, UniqueID::zero_id())).unwrap();
    let output = c.fetch_output_signals_calculate(controlled_buffer.gate).unwrap();
    for gate_output_state in output {
        match gate_output_state {
            GateOutputState::NotConnected(_) => panic!("Output should be connected."),
            GateOutputState::Connected(output) => {
                assert_eq!(output.throughput.signal, NONE);
            }
        }
    }
}

#[test]
fn test_controlled_buffer_high() {
    test_controlled_buffer(HIGH);
}

#[test]
fn test_controlled_buffer_low() {
    test_controlled_buffer(LOW_);
}

fn none_signal_circuit(num_gates: usize, throughput_gate_index: usize) {
    let mut c = Circuit::new();
    let mut input_gates = Vec::new();
    let output_gate = SimpleOutput::new(&mut c, "OUT");
    let single_enable_input_gate = AutomaticInput::new(&mut c, vec![LOW_, LOW_, LOW_, LOW_, HIGH, HIGH, HIGH, HIGH], 1, "Single_Enable");
    let other_enable_input_gates = AutomaticInput::new(&mut c, vec![LOW_; 8], num_gates - 1, "Other_Enable");
    let output_signal = vec![vec![NONE], vec![NONE], vec![NONE], vec![NONE], vec![HIGH], vec![HIGH], vec![LOW_], vec![LOW_]];
    for i in 0..num_gates {
        let input_gate = if i == throughput_gate_index {
            AutomaticInput::new(&mut c, vec![HIGH, HIGH, LOW_, LOW_, HIGH, HIGH, LOW_, LOW_], 1, "Start_Throughput")
        } else {
            AutomaticInput::new(&mut c, vec![HIGH, LOW_, HIGH, LOW_, HIGH, LOW_, HIGH, LOW_], 1, "Start_Normal")
        };
        let controlled_buffer = ControlledBuffer::new(&mut c, 1);
        connect_gates(&mut c, &input_gate, 0, &controlled_buffer, 0);
        connect_gates(&mut c, &controlled_buffer, 0, &output_gate, 0);
        let enable_index = controlled_buffer.get_index_from_tag("E").unwrap();
        if i == throughput_gate_index {
            connect_gates(&mut c, &single_enable_input_gate, 0, &controlled_buffer, enable_index);
        } else {
            let next_index = if i > throughput_gate_index { i - 1 } else { i };
            connect_gates(&mut c, &other_enable_input_gates, next_index, &controlled_buffer, enable_index);
        }
        input_gates.push(input_gate.gate);
    }
    input_gates.push(single_enable_input_gate.gate);
    input_gates.push(other_enable_input_gates.gate);
    let collected = run_collect(&mut c, &input_gates, &vec![output_gate.gate]);
    assert_eq!(collected, output_signal);
}

#[test]
fn test_none_signal_working() {
    let num_gates = rand::thread_rng().gen_range(2..=16);
    let throughput_gate_index = rand::thread_rng().gen_range(0..num_gates);
    none_signal_circuit(num_gates, throughput_gate_index);
}

#[test]
fn none_signal_with_three_buffers() {
    none_signal_circuit(3, 1);
}

#[test]
fn splitter_properly_splits() {
    let input_num = rand::thread_rng().gen_range(1..=16);
    let outputs_per_input = rand::thread_rng().gen_range(2..=16);
    let mut c = Circuit::new();
    let splitter = Splitter::new(&mut c, input_num, outputs_per_input);
    let mut input_gates = Vec::new();
    let mut single_turn_output = Vec::new();
    for i in 0..input_num {
        let signal = match rand::thread_rng().gen_range(0..=2) {
            0 => LOW_,
            1 => HIGH,
            _ => NONE,
        };
        let input_gate = AutomaticInput::new(&mut c, vec![signal], 1, &format!("IN_{}", i));
        for _ in 0..outputs_per_input {
            single_turn_output.push(signal);
        }
        connect_gates(&mut c, &input_gate, 0, &splitter, i);
        input_gates.push(input_gate.gate);
    }
    let mut output_gates = Vec::new();
    for i in 0..input_num {
        for j in 0..outputs_per_input {
            let output_gate = SimpleOutput::new(&mut c, &format!("OUT_{}", i));
            let splitter_output = splitter.get_index_for_output(i, j);
            connect_gates(&mut c, &splitter, splitter_output, &output_gate, 0);
            output_gates.push(output_gate.gate);
        }
    }
    let collected = run_collect(&mut c, &input_gates, &output_gates);
    assert_eq!(collected, vec![single_turn_output]);
}

#[test]
fn splitter_output_index() {
    let mut c = Circuit::new();
    let splitter = Splitter::new(&mut c, 3, 4);
    assert_eq!(splitter.get_index_for_output(2, 1), 9);
    assert_eq!(splitter.num_outputs(), 12);
}

#[test]
fn splitter_pull_output_replaces_none() {
    let mut c = Circuit::new();
    let splitter = Splitter::new(&mut c, 1, 2);
    splitter.pull_output(&mut c, LOW_);
    let input = AutomaticInput::new(&mut c, vec![NONE, HIGH], 1, "IN");
    connect_gates(&mut c, &input, 0, &splitter, 0);
    let a = SimpleOutput::new(&mut c, "A");
    let b = SimpleOutput::new(&mut c, "B");
    connect_gates(&mut c, &splitter, 0, &a, 0);
    connect_gates(&mut c, &splitter, 1, &b, 0);
    let collected = run_collect(&mut c, &vec![input.gate], &vec![a.gate, b.gate]);
    assert_eq!(collected, vec![vec![LOW_, LOW_], vec![HIGH, HIGH]]);
}

#[test]
fn test_controlled_buffer_nested_in_complex_gate() {
    let mut c = Circuit::new();
    let input_gate = AutomaticInput::new(&mut c, vec![HIGH], 2, "Inputs");
    let output_gate = SimpleOutput::new(&mut c, "OUT");

    // A complex gate made of one controlled buffer between its input and its output, with the
    // enable forced LOW so that NONE always comes out.
    let wrapper_output = SimpleOutput::new(&mut c, "Output");
    let wrapper_input = SimpleInput::new(&mut c, 1, "Input");
    let controlled_buffer = ControlledBuffer::new(&mut c, 1);
    let wrapper = ComplexGateMembers::new(&c, GateType::UnknownType, vec![wrapper_input.gate], vec![wrapper_output.gate]);
    let input_index = wrapper.get_index_from_tag("Input").unwrap();
    connect_gates(&mut c, &wrapper_input, 0, &controlled_buffer, 0);
    connect_gates(&mut c, &controlled_buffer, 0, &wrapper_output, 0);
    let enable_index = controlled_buffer.get_index_from_tag("E").unwrap();
    c.update_input_signal(controlled_buffer.gate, GateInput::new(enable_index, LOW_, UniqueID::zero_id())).unwrap();
    c.prime_from(wrapper_output.gate).unwrap();

    c.connect(input_gate.gate, 0, wrapper.input_gates[input_index], 0);
    c.connect(wrapper.output_gates[0], 0, output_gate.gate, 0);

    let collected = run_collect(&mut c, &vec![input_gate.gate], &vec![output_gate.gate]);
    assert_eq!(collected, vec![vec![NONE]]);
}

#[test]
#[should_panic]
fn test_controlled_buffer_multiple_inputs() {
    let mut c = Circuit::new();
    let enable_input_gate = AutomaticInput::new(&mut c, vec![HIGH], 2, "Enable_Inputs");
    let input_gate = AutomaticInput::new(&mut c, vec![HIGH], 2, "Inputs");
    let output_gate = SimpleOutput::new(&mut c, "OUT");
    let controlled_buffers = [ControlledBuffer::new(&mut c, 1), ControlledBuffer::new(&mut c, 1)];
    let output_signal: Vec<Vec<Signal>> = Vec::new();
    for i in 0..2 {
        connect_gates(&mut c, &input_gate, i, &controlled_buffers[i], 0);
        let enable_index = controlled_buffers[i].get_index_from_tag("E").unwrap();
        connect_gates(&mut c, &enable_input_gate, i, &controlled_buffers[i], enable_index);
        connect_gates(&mut c, &controlled_buffers[i], 0, &output_gate, 0);
    }
    let input_gates = vec![enable_input_gate.gate, input_gate.gate];
    let collected_output = run_collect(&mut c, &input_gates, &vec![output_gate.gate]);
    assert_eq!(collected_output, output_signal);
}

#[test]
fn disabled_controlled_buffer_keeps_its_states() {
    let mut c = Circuit::new();
    let output_gate = SimpleOutput::new(&mut c, "OUT");
    let controlled_buffer = ControlledBuffer::new(&mut c, 1);
    connect_gates(&mut c, &controlled_buffer, 0, &output_gate, 0);
    let enable_index = controlled_buffer.get_index_from_tag("E").unwrap();
    c.update_input_signal(controlled_buffer.gate, GateInput::new(0, HIGH, UniqueID::zero_id())).unwrap();
    c.update_input_signal(controlled_buffer.gate, GateInput::new(enable_index, HIGH, UniqueID::zero_id())).unwrap();
    let enabled = c.fetch_output_signals_calculate(controlled_buffer.gate).unwrap();
    assert_eq!(signal_of(&enabled[0]), HIGH);
    c.update_input_signal(controlled_buffer.gate, GateInput::new(enable_index, LOW_, UniqueID::zero_id())).unwrap();
    let disabled = c.fetch_output_signals_calculate(controlled_buffer.gate).unwrap();
    assert_eq!(signal_of(&disabled[0]), NONE);
    assert_eq!(signal_of(&c.gates[controlled_buffer.gate].members.output_states[0]), HIGH);
    let reported = c.fetch_output_signals_no_calculate(controlled_buffer.gate);
    assert_eq!(signal_of(&reported[0]), NONE);
}
