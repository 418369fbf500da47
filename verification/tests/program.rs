use intcode::Input;
use intcode::Mode;
use intcode::Output;
use intcode::Program;
use intcode::VmError;

#[test]
fn test_read_code() {
    let code = "1,0,0,3,1,1";
    let r = vec![1, 0, 0, 3, 1, 1];
    assert_eq!(Program::read_code(code).unwrap(), r)
}

#[test]
fn test_read_code_error() {
    let code = "1,0,a,3,1,1";
    assert_eq!(Program::read_code(code), Err(VmError::SourceParse))
}

#[test]
fn test_read_newline() {
    let code = "1,0,0,\n3,1,1";
    let r = vec![1, 0, 0, 3, 1, 1];
    assert_eq!(Program::read_code(code).unwrap(), r)
}

#[test]
fn test_read_signs_and_empty_fields() {
    assert_eq!(Program::read_code("+5,-0,,7,").unwrap(), vec![5, 0, 7]);
    assert_eq!(Program::read_code("").unwrap(), Vec::<i64>::new());
}

#[test]
fn test_read_range() {
    assert_eq!(Program::read_code("9223372036854775807").unwrap(), vec![i64::MAX]);
    assert_eq!(Program::read_code("-9223372036854775808").unwrap(), vec![i64::MIN]);
    assert_eq!(Program::read_code("9223372036854775808"), Err(VmError::SourceParse));
    assert_eq!(Program::read_code("-9223372036854775809"), Err(VmError::SourceParse));
}

#[test]
fn test_new() {
    let ic = Program::new("1,0,0,3,1,1");
    let cv = vec![1, 0, 0, 3, 1, 1];
    assert_eq!(ic.mem_len(), cv.len());
    for (i, v) in cv.iter().enumerate() {
        assert_eq!(ic.peek(i as i64), *v);
    }
    assert_eq!(ic.rel_base(), 0);
}

#[test]
fn test_peek() {
    let ic = Program::new("1,0,0,3,1,1");
    assert_eq!(ic.peek(3), 3);
}

#[test]
fn test_peek_growth() {
    let ic = Program::new("1,0,0,3,1,1");
    assert_eq!(ic.peek(6), 0);
    assert_eq!(ic.peek(100000), 0);
    // reading never materializes memory
    assert_eq!(ic.mem_len(), 6);
}

#[test]
fn test_poke() {
    let mut ic = Program::new("1,0,0,3,1,1");
    assert_eq!(ic.peek(3), 3);
    assert_eq!(ic.poke(3, 5).unwrap(), 3);
    assert_eq!(ic.peek(3), 5);
}

#[test]
fn test_poke_growth() {
    let mut ic = Program::new("1,0,0,3,1,1");
    assert_eq!(ic.poke(10, 7), None);
    assert_eq!(ic.peek(10), 7);
    assert_eq!(ic.peek(8), 0);
    assert_eq!(ic.poke(10, 8), Some(7));
    assert_eq!(ic.mem_len(), 11);
}

#[test]
fn test_reset() {
    let mut ic = Program::new("1,0,0,3,1,1");
    assert_eq!(ic.peek(3), 3);
    assert_eq!(ic.poke(3, 5).unwrap(), 3);
    assert_eq!(ic.peek(3), 5);
    ic.reset();
    assert_eq!(ic.peek(3), 3);
}

#[test]
fn test_reset_after_growth() {
    let mut ic = Program::new("1,0,0,3,1,1");
    assert_eq!(ic.poke(20, 9), None);
    ic.reset();
    assert_eq!(ic.mem_len(), 6);
    assert_eq!(ic.peek(20), 0);
}

// Raise the relative base to 1 through execution: overwrite the first
// instruction with a relative-base adjustment, step it, and restore the
// image (reset leaves the base alone, by design).
fn with_rel_base_one(ic: &mut Program) {
    ic.poke(0, 109).unwrap();
    ic.poke(1, 1).unwrap();
    let next = ic.step(0, false, &mut Input::Disabled, &mut Output::Disabled).unwrap();
    assert_eq!(next, 2);
    ic.reset();
    assert_eq!(ic.rel_base(), 1);
}

#[test]
fn test_pval() {
    let mut ic = Program::new("1,0,0,3,1,1");
    assert_eq!(ic.pval(&Mode::Pointer, 4), 1);
    assert_eq!(ic.pval(&Mode::Value, 4), 4);
    assert_eq!(ic.pval(&Mode::Relative, 3), 3);
    with_rel_base_one(&mut ic);
    assert_eq!(ic.pval(&Mode::Relative, 3), 1);
}

#[test]
fn test_paddr() {
    let mut ic = Program::new("1,0,0,3,1,1");
    assert_eq!(ic.paddr(&Mode::Pointer, 4), 4);
    assert_eq!(ic.paddr(&Mode::Relative, 3), 3);
    with_rel_base_one(&mut ic);
    assert_eq!(ic.paddr(&Mode::Relative, 3), 4);
}

#[test]
fn test_trace_records_steps() {
    let mut ic = Program::new("1,4,5,4,11,88");
    assert_eq!(ic.stack().len(), 0);
    let next = ic.step(0, false, &mut Input::Disabled, &mut Output::Disabled).unwrap();
    assert_eq!(next, 4);
    let entries = ic.stack();
    assert_eq!(entries.len(), 1);
    assert_eq!(entries[0].address, 0);
    assert_eq!(entries[0].value, 1);
}
