use intcode::Int;
use intcode::Mode;
use intcode::Operation;
use intcode::modes;
use intcode::op;

#[test]
fn test_op_end() {
    let cells: Vec<Int> = vec![99, 1099, 11199];
    for c in cells {
        assert_eq!(op(c).unwrap(), Operation::End, "cell value: {}", c);
    }
}

#[test]
fn test_op_add() {
    let cells: Vec<Int> = vec![1, 101, 11101];
    for c in cells {
        assert_eq!(op(c).unwrap(), Operation::Add, "cell value: {}", c);
    }
}

#[test]
#[should_panic]
fn test_op_other() {
    let c: Int = 10;
    op(c).unwrap();
}

#[test]
fn test_modes_000() {
    let c: Int = 99;
    assert_eq!(modes(c).unwrap(), vec![Mode::Pointer, Mode::Pointer, Mode::Pointer])
}

#[test]
fn test_modes_001() {
    let c: Int = 199;
    assert_eq!(modes(c).unwrap(), vec![Mode::Value, Mode::Pointer, Mode::Pointer])
}

#[test]
fn test_modes_100() {
    let c: Int = 10001;
    assert_eq!(modes(c).unwrap(), vec![Mode::Pointer, Mode::Pointer, Mode::Value])
}

#[test]
fn test_modes_102() {
    let c: Int = 10209;
    assert_eq!(modes(c).unwrap(), vec![Mode::Relative, Mode::Pointer, Mode::Value])
}

#[test]
#[should_panic]
fn test_modes_other() {
    let c: Int = 399;
    modes(c).unwrap();
}

#[test]
fn test_decode_mul_modes() {
    assert_eq!(op(1002).unwrap(), Operation::Mul);
    assert_eq!(modes(1002).unwrap(), vec![Mode::Pointer, Mode::Value, Mode::Pointer]);
}

#[test]
fn test_decode_rel_base_modes() {
    assert_eq!(op(109).unwrap(), Operation::RelBase);
    assert_eq!(modes(109).unwrap(), vec![Mode::Value, Mode::Pointer, Mode::Pointer]);
}

#[test]
fn test_decode_negative_cell() {
    // no negative cell has a known opcode
    assert_eq!(op(-1), None);
    assert_eq!(op(-100), None);
    // mode digits follow the host's truncating division: -50 / 100 is 0,
    // whose digits are all zero, while -250 / 100 is -2, an unknown digit
    assert_eq!(modes(-50).unwrap(), vec![Mode::Pointer, Mode::Pointer, Mode::Pointer]);
    assert_eq!(modes(-250), None);
    assert_eq!(modes(-100000).unwrap(), vec![Mode::Pointer, Mode::Pointer, Mode::Pointer]);
    assert_eq!(modes(-1000), None);
}

#[test]
fn test_op_len() {
    assert_eq!(Operation::End.len(), 1);
    assert_eq!(Operation::Add.len(), 4);
    assert_eq!(Operation::Input.len(), 2);
    assert_eq!(Operation::JumpZero.len(), 3);
}

#[test]
fn test_mnemonic() {
    assert_eq!(Operation::End.mnemonic(), "END");
    assert_eq!(Operation::RelBase.mnemonic(), "REL");
}
