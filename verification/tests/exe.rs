use intcode::Input;
use intcode::Int;
use intcode::LineFeed;
use intcode::Output;
use intcode::Program;
use std::sync::mpsc::channel;

#[test]
fn test_add() {
    let mut ic = Program::new("1,4,5,4,11,88");
    ic.exe(0, false, &mut Input::Disabled, &mut Output::Disabled).expect("execution error");
    assert_eq!(ic.peek(4), 99);
}

#[test]
fn test_mul() {
    let mut ic = Program::new("2,4,5,4,3,33");
    ic.exe(0, false, &mut Input::Disabled, &mut Output::Disabled).expect("execution error");
    assert_eq!(ic.peek(4), 99);
}

#[test]
fn test_input() {
    let mut ic = Program::new("3,2,0");
    let mut input = Input::Reader(LineFeed::new("99"));
    ic.exe(0, false, &mut input, &mut Output::Disabled).expect("execution error");
    assert_eq!(ic.peek(2), 99);
}

#[test]
fn test_input2() {
    let mut ic = Program::new("3,0,3,4,0");
    let mut input = Input::Reader(LineFeed::new("-1\n99\n"));
    ic.exe(0, false, &mut input, &mut Output::Disabled).expect("execution error");
    assert_eq!(ic.peek(0), -1);
    assert_eq!(ic.peek(4), 99);
}

#[test]
fn test_input_chan() {
    let mut ic = Program::new("3,2,0");
    let (tx, rx) = channel::<Int>();
    tx.send(99).unwrap();
    let mut input = Input::Channel(rx);
    ic.exe(0, false, &mut input, &mut Output::Disabled).expect("execution error");
    assert_eq!(ic.peek(2), 99);
}

#[test]
fn test_output() {
    let mut ic = Program::new("4,2,99");
    let mut output = Output::Writer(Vec::new());
    ic.exe(0, false, &mut Input::Disabled, &mut output).expect("execution error");
    match output {
        Output::Writer(bytes) => assert_eq!(bytes.as_slice(), b"99\n"),
        _ => panic!(),
    }
}

#[test]
fn test_output_chan() {
    let mut ic = Program::new("4,2,99");
    let (tx, rx) = channel::<Int>();
    let mut output = Output::Channel(tx);
    ic.exe(0, false, &mut Input::Disabled, &mut output).expect("execution error");
    assert_eq!(rx.recv().unwrap(), 99);
}

#[test]
fn test_jnz() {
    let mut ic = Program::new("5,0,4,99,4,6,99");
    let mut output = Output::Writer(Vec::new());
    ic.exe(0, false, &mut Input::Disabled, &mut output).expect("execution error");
    match output {
        Output::Writer(bytes) => assert_eq!(bytes.as_slice(), b"99\n"),
        _ => panic!(),
    }
}

#[test]
fn test_jz() {
    let mut ic = Program::new("106,0,4,99,4,6,99");
    let mut output = Output::Writer(Vec::new());
    ic.exe(0, false, &mut Input::Disabled, &mut output).expect("execution error");
    match output {
        Output::Writer(bytes) => assert_eq!(bytes.as_slice(), b"99\n"),
        _ => panic!(),
    }
}

#[test]
fn test_rel_base() {
    let mut ic = Program::new("9,0,99");
    ic.exe(0, false, &mut Input::Disabled, &mut Output::Disabled).expect("execution error");
    assert_eq!(ic.rel_base(), 9);
}

#[test]
fn test_rel_base_immediate() {
    let mut ic = Program::new("109,19,99");
    ic.exe(0, false, &mut Input::Disabled, &mut Output::Disabled).expect("execution error");
    assert_eq!(ic.rel_base(), 19);
}

#[test]
fn test_io_echo() {
    let mut ic = Program::new("3,0,4,0,99");
    let mut input = Input::String("42");
    let mut output = Output::Writer(Vec::new());
    ic.exe(0, false, &mut input, &mut output).expect("execution error");
    match output {
        Output::Writer(bytes) => assert_eq!(bytes.as_slice(), b"42\n"),
        _ => panic!(),
    }
}

#[test]
fn test_output_negative() {
    let mut ic = Program::new("104,-17,99");
    let mut output = Output::Writer(Vec::new());
    ic.exe(0, false, &mut Input::Disabled, &mut output).expect("execution error");
    match output {
        Output::Writer(bytes) => assert_eq!(bytes.as_slice(), b"-17\n"),
        _ => panic!(),
    }
}

#[test]
fn test_input_string_reused() {
    // the literal-string capability feeds every input instruction alike
    let mut ic = Program::new("3,0,3,1,99");
    let mut input = Input::String(" 7 ");
    ic.exe(0, false, &mut input, &mut Output::Disabled).expect("execution error");
    assert_eq!(ic.peek(0), 7);
    assert_eq!(ic.peek(1), 7);
}

#[test]
fn test_input_prompt_byte() {
    // a line-oriented input prompts on the in-memory sink before reading
    let mut ic = Program::new("3,0,4,0,99");
    let mut input = Input::Reader(LineFeed::new("5\n"));
    let mut output = Output::Writer(Vec::new());
    ic.exe(0, false, &mut input, &mut output).expect("execution error");
    match output {
        Output::Writer(bytes) => assert_eq!(bytes.as_slice(), b"?5\n"),
        _ => panic!(),
    }
}

#[test]
fn test_less_than_and_equal() {
    // comparisons write one or zero
    let mut ic = Program::new("1107,3,5,0,1108,5,5,1,99");
    ic.exe(0, false, &mut Input::Disabled, &mut Output::Disabled).expect("execution error");
    assert_eq!(ic.peek(0), 1);
    assert_eq!(ic.peek(1), 1);
}

#[test]
fn test_growth_during_run() {
    // a write far past the image grows memory with zero fill
    let mut ic = Program::new("1101,2,3,50,4,50,99");
    let mut output = Output::Writer(Vec::new());
    ic.exe(0, false, &mut Input::Disabled, &mut output).expect("execution error");
    assert_eq!(ic.peek(50), 5);
    match output {
        Output::Writer(bytes) => assert_eq!(bytes.as_slice(), b"5\n"),
        _ => panic!(),
    }
}
