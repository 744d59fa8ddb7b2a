pub mod signals;
pub mod foundations;
pub mod tags;
pub mod basic_gates;
pub mod input_gates;
pub mod output_gates;
pub mod arithmetic_gates;
pub mod memory_gates;
pub mod complex_logic;
pub mod variable_arithmetic;
pub mod pins;
pub mod processor_components;
pub mod multiplexing;
pub mod counting;
pub mod stepper;
pub mod alu;
