use intcode::Input;
use intcode::Int;
use intcode::Output;
use intcode::Program;
use intcode::VmError;
use std::sync::mpsc::channel;

#[test]
fn test_unknown_opcode() {
    let mut ic = Program::new("0,99");
    let r = ic.exe(0, false, &mut Input::Disabled, &mut Output::Disabled);
    assert_eq!(r, Err(VmError::UnknownOpcode { addr: 0, value: 0 }));
}

#[test]
fn test_unknown_opcode_past_end() {
    // running off the end of memory reads zero cells, which do not decode
    let mut ic = Program::new("1101,1,1,0");
    let r = ic.exe(0, false, &mut Input::Disabled, &mut Output::Disabled);
    assert_eq!(r, Err(VmError::UnknownOpcode { addr: 4, value: 0 }));
}

#[test]
fn test_unknown_mode() {
    let mut ic = Program::new("399,1,99");
    let r = ic.exe(0, false, &mut Input::Disabled, &mut Output::Disabled);
    assert_eq!(r, Err(VmError::UnknownMode { addr: 0, value: 399 }));
}

#[test]
fn test_negative_address() {
    let mut ic = Program::new("4,-1,99");
    let r = ic.exe(0, false, &mut Input::Disabled, &mut Output::Disabled);
    assert_eq!(r, Err(VmError::NegativeAddress { addr: -1 }));
}

#[test]
fn test_negative_start_address() {
    let mut ic = Program::new("99");
    let r = ic.exe(-5, false, &mut Input::Disabled, &mut Output::Disabled);
    assert_eq!(r, Err(VmError::NegativeAddress { addr: -5 }));
}

#[test]
fn test_write_to_value_mode() {
    let mut ic = Program::new("11101,1,1,0,99");
    let r = ic.exe(0, false, &mut Input::Disabled, &mut Output::Disabled);
    assert_eq!(r, Err(VmError::WriteToValueMode { addr: 0 }));
}

#[test]
fn test_no_input() {
    let mut ic = Program::new("3,0,99");
    let r = ic.exe(0, false, &mut Input::Disabled, &mut Output::Disabled);
    assert_eq!(r, Err(VmError::NoInput));
}

#[test]
fn test_input_parse_error() {
    let mut ic = Program::new("3,0,99");
    let mut input = Input::String("not a number");
    let r = ic.exe(0, false, &mut input, &mut Output::Disabled);
    assert_eq!(r, Err(VmError::InputParse));
}

#[test]
fn test_input_at_end_of_text() {
    // end of a line feed reads an empty line, which does not parse
    let mut ic = Program::new("3,0,3,0,99");
    let mut input = Input::Reader(intcode::LineFeed::new("1"));
    let r = ic.exe(0, false, &mut input, &mut Output::Disabled);
    assert_eq!(r, Err(VmError::InputParse));
    assert_eq!(ic.peek(0), 1);
}

#[test]
fn test_closed_input_channel() {
    let mut ic = Program::new("3,0,99");
    let (tx, rx) = channel::<Int>();
    drop(tx);
    let mut input = Input::Channel(rx);
    let r = ic.exe(0, false, &mut input, &mut Output::Disabled);
    assert_eq!(r, Err(VmError::ChannelClosed));
}

#[test]
fn test_closed_output_channel() {
    let mut ic = Program::new("4,0,99");
    let (tx, rx) = channel::<Int>();
    drop(rx);
    let mut output = Output::Channel(tx);
    let r = ic.exe(0, false, &mut Input::Disabled, &mut output);
    assert_eq!(r, Err(VmError::ChannelClosed));
}

#[test]
fn test_error_preserves_memory() {
    let mut ic = Program::new("1101,2,3,0,0,99");
    let r = ic.exe(0, false, &mut Input::Disabled, &mut Output::Disabled);
    // the first instruction wrote, the second failed to decode
    assert_eq!(ic.peek(0), 5);
    assert_eq!(r, Err(VmError::UnknownOpcode { addr: 4, value: 0 }));
}
