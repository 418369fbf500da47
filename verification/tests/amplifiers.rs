use intcode::Input;
use intcode::Int;
use intcode::Output;
use intcode::Program;
use std::sync::mpsc::channel;

// Chain runs of one program through channels: each stage reads its phase
// and the previous stage's signal, and emits the next signal.
fn amp(program: &mut Program, phases: &[Int]) -> i64 {
    let mut sig: Int = 0;
    for p in phases.iter() {
        let (itx, irx) = channel::<Int>();
        let (otx, orx) = channel::<Int>();
        itx.send(*p).unwrap();
        itx.send(sig).unwrap();
        let mut input = Input::Channel(irx);
        let mut output = Output::Channel(otx);
        program.exe(0, false, &mut input, &mut output).expect("execution error");
        sig = orx.recv().unwrap();
    }
    sig
}

#[test]
fn test_amp_1() {
    let mut ic = Program::new("3,15,3,16,1002,16,10,16,1,16,15,15,4,15,99,0,0");
    assert_eq!(amp(&mut ic, &vec![4, 3, 2, 1, 0]), 43210);
}

#[test]
fn test_amp_2() {
    let mut ic = Program::new("3,23,3,24,1002,24,10,24,1002,23,-1,23,101,5,23,23,1,24,23,23,4,23,99,0,0");
    assert_eq!(amp(&mut ic, &vec![0, 1, 2, 3, 4]), 54321);
}

#[test]
fn test_amp_3() {
    let mut ic = Program::new(
        "3,31,3,32,1002,32,10,32,1001,31,-2,31,1007,31,0,33,1002,33,7,33,1,33,31,31,1,32,31,31,4,31,99,0,0,0",
    );
    assert_eq!(amp(&mut ic, &vec![1, 0, 4, 3, 2]), 65210);
}

#[test]
fn test_pipeline_matches_single_run() {
    // Chaining doubling stages through channels equals one combined run:
    // two stages of "read, double, write" quadruple the input.
    let stage = "3,9,1002,9,2,9,4,9,99,0";
    let (tx0, rx0) = channel::<Int>();
    tx0.send(21).unwrap();
    let (tx1, rx1) = channel::<Int>();
    let (tx2, rx2) = channel::<Int>();

    let mut first = Program::new(stage);
    let mut in0 = Input::Channel(rx0);
    let mut out0 = Output::Channel(tx1);
    first.exe(0, false, &mut in0, &mut out0).expect("execution error");

    let mut second = Program::new(stage);
    let mut in1 = Input::Channel(rx1);
    let mut out1 = Output::Channel(tx2);
    second.exe(0, false, &mut in1, &mut out1).expect("execution error");

    // one combined computation: read, multiply by four, write
    let combined = "3,9,1002,9,4,9,4,9,99,0";
    let (ctx, crx) = channel::<Int>();
    ctx.send(21).unwrap();
    let (dtx, drx) = channel::<Int>();
    let mut cic = Program::new(combined);
    let mut cin = Input::Channel(crx);
    let mut cout = Output::Channel(dtx);
    cic.exe(0, false, &mut cin, &mut cout).expect("execution error");

    assert_eq!(rx2.recv().unwrap(), drx.recv().unwrap());
}
