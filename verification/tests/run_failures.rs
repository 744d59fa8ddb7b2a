use logic_simulator::circuit::Circuit;
use logic_simulator::globals::MAX_INPUT_CHANGES;
use logic_simulator::logic::basic_gates::{ControlledBuffer, Not};
use logic_simulator::logic::foundations::connect_gates;
use logic_simulator::logic::input_gates::AutomaticInput;
use logic_simulator::logic::output_gates::SimpleOutput;
use logic_simulator::logic::signals::Signal::{HIGH, LOW_};
use logic_simulator::logic::signals::{GateInput, GateLogicError, UniqueID};

#[test]
fn conflicting_drivers_are_reported() {
    let mut c = Circuit::new();
    let enable = AutomaticInput::new(&mut c, vec![HIGH], 2, "Enable_Inputs");
    let inputs = AutomaticInput::new(&mut c, vec![HIGH], 2, "Inputs");
    let output = SimpleOutput::new(&mut c, "OUT");
    let buffers = [ControlledBuffer::new(&mut c, 1), ControlledBuffer::new(&mut c, 1)];
    for i in 0..2 {
        connect_gates(&mut c, &inputs, i, &buffers[i], 0);
        let enable_index = buffers[i].get_index_from_tag("E").unwrap();
        connect_gates(&mut c, &enable, i, &buffers[i], enable_index);
        connect_gates(&mut c, &buffers[i], 0, &output, 0);
    }
    c.advance_clock_tick();
    let result = c.run_circuit(&vec![enable.gate, inputs.gate], true);
    assert_eq!(result, Err(GateLogicError::MultipleValidSignalsWhenCalculating));
}

#[test]
fn conflicting_drivers_fail_a_fetch_and_change_nothing() {
    let mut c = Circuit::new();
    let output = SimpleOutput::new(&mut c, "OUT");
    c.update_input_signal(output.gate, GateInput::new(0, HIGH, UniqueID { id: 7 })).unwrap();
    c.update_input_signal(output.gate, GateInput::new(0, LOW_, UniqueID { id: 8 })).unwrap();
    let before = c.fetch_output_signals_no_calculate(output.gate);
    let result = c.fetch_output_signals_calculate(output.gate);
    assert_eq!(result, Err(GateLogicError::MultipleValidSignalsWhenCalculating));
    assert_eq!(c.fetch_output_signals_no_calculate(output.gate), before);
}

#[test]
fn an_input_may_change_the_limit_number_of_times_in_one_tick() {
    let mut c = Circuit::new();
    let output = SimpleOutput::new(&mut c, "OUT");
    let sender = UniqueID { id: 9 };
    for k in 0..MAX_INPUT_CHANGES {
        let signal = if k % 2 == 0 { HIGH } else { LOW_ };
        assert!(c.update_input_signal(output.gate, GateInput::new(0, signal, sender)).is_ok());
    }
    let result = c.update_input_signal(output.gate, GateInput::new(0, HIGH, sender));
    assert_eq!(result.err(), Some(GateLogicError::OscillationDetected));
}

#[test]
fn a_gate_feeding_its_own_negation_oscillates() {
    let mut c = Circuit::new();
    let not = Not::new(&mut c, 1);
    connect_gates(&mut c, &not, 0, &not, 0);
    assert_eq!(c.prime(), Err(GateLogicError::OscillationDetected));
}
