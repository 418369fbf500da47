use intcode::Debugger;
use intcode::Program;
use intcode::VmError;

#[test]
fn test_debugger_single_steps() {
    let mut d = Debugger::new(Program::new("1,4,5,4,11,88"));
    assert_eq!(d.cur_addr(), 0);
    assert_eq!(d.cur_val(), 1);
    assert_eq!(d.cur_len(), 4);
    d.step().unwrap();
    assert_eq!(d.cur_addr(), 4);
    assert_eq!(d.program().peek(4), 99);
}

#[test]
fn test_debugger_halt_keeps_cursor() {
    let mut d = Debugger::new(Program::new("99"));
    d.step().unwrap();
    assert_eq!(d.cur_addr(), 0);
}

#[test]
fn test_debugger_input_step() {
    let mut d = Debugger::new(Program::new("3,0,99"));
    assert_eq!(d.step(), Err(VmError::NoInput));
    d.step_input("7").unwrap();
    assert_eq!(d.program().peek(0), 7);
    assert_eq!(d.cur_addr(), 2);
}

#[test]
fn test_debugger_trace() {
    let mut d = Debugger::new(Program::new("1,4,5,4,11,88"));
    d.step().unwrap();
    let trace = d.program().stack();
    assert_eq!(trace.len(), 1);
    assert_eq!((trace[0].address, trace[0].value), (0, 1));
}
