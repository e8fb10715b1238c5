use regvm::binary::{Command, DataCommand};
use regvm::machine::{load_data, Action, FloatOp, Machine};
use regvm::memory::{init, set_registr, RegisterType, Registers, Value};

fn cmd(opcode: u16, result_reg: u16, arg_reg1: u16, arg_reg2: u16) -> Command {
    Command { opcode, result_reg, arg_reg1, arg_reg2 }
}

fn machine_with(values: &[(RegisterType, usize, Value)]) -> Machine {
    let mut r = init();
    set_registr(&mut r, RegisterType::Int, 7, Value::Int(0));
    for (t, i, v) in values {
        let v = match v {
            Value::Int(x) => Value::Int(*x),
            Value::Float(x) => Value::Float(*x),
            Value::Bool(x) => Value::Bool(*x),
            Value::String(x) => Value::String(x.clone()),
            Value::Char(x) => Value::Char(*x),
            Value::Null => Value::Null,
        };
        set_registr(&mut r, *t, *i, v);
    }
    Machine::new(r)
}

fn fault(a: Action) -> String {
    match a {
        Action::Fault(m) => m,
        _ => panic!("no fault"),
    }
}

fn ints(m: &Machine) -> &Vec<i64> {
    &m.registers.int_registr
}

#[test]
fn integer_arithmetic() {
    let code = vec![cmd(1, 2, 0, 1), cmd(2, 3, 0, 1), cmd(3, 4, 0, 1), cmd(4, 5, 0, 1)];
    let mut m = machine_with(&[(RegisterType::Int, 0, Value::Int(-7)), (RegisterType::Int, 1, Value::Int(2))]);
    for _ in 0..4 {
        assert!(matches!(m.step(&code), Action::Continue));
    }
    assert_eq!(&ints(&m)[2..6], &[-5, -9, -14, -3]);
    assert_eq!(m.ip, 4);
    assert!(matches!(m.step(&code), Action::Halt));
}

#[test]
fn arithmetic_faults() {
    let mut m = machine_with(&[(RegisterType::Int, 0, Value::Int(i64::MAX)), (RegisterType::Int, 1, Value::Int(1))]);
    assert_eq!(fault(m.step(&vec![cmd(1, 2, 0, 1)])), "attempt to add with overflow");
    assert_eq!(m.ip, 0);
    let mut m = machine_with(&[
        (RegisterType::Int, 0, Value::Int(i64::MIN)),
        (RegisterType::Int, 1, Value::Int(-1)),
        (RegisterType::Int, 3, Value::Int(1)),
    ]);
    assert_eq!(fault(m.step(&vec![cmd(2, 2, 0, 3)])), "attempt to subtract with overflow");
    assert_eq!(fault(m.step(&vec![cmd(3, 2, 0, 1)])), "attempt to multiply with overflow");
    assert_eq!(fault(m.step(&vec![cmd(4, 2, 0, 1)])), "attempt to divide with overflow");
    assert_eq!(fault(m.step(&vec![cmd(4, 2, 0, 5)])), "attempt to divide by zero");
}

#[test]
fn reads_past_the_file_fault() {
    let mut m = machine_with(&[]);
    assert_eq!(fault(m.step(&vec![cmd(1, 0, 8, 0)])), "Register index 8 out of bounds (max 8)");
    assert_eq!(fault(m.step(&vec![cmd(1, 0, 0, 300)])), "Register index 300 out of bounds (max 8)");
    assert_eq!(fault(m.step(&vec![cmd(0x52, 0, 9, 0)])), "Register index 9 out of bounds (max 8)");
}

#[test]
fn unknown_opcode() {
    let mut m = machine_with(&[]);
    assert_eq!(fault(m.step(&vec![cmd(0xab, 0, 0, 0)])), "Unknown opcode: 0x00AB");
}

#[test]
fn comparisons() {
    let nan = f64::NAN.to_bits();
    let mut m = machine_with(&[
        (RegisterType::Float, 0, Value::Float(0.0f64.to_bits())),
        (RegisterType::Float, 1, Value::Float((-0.0f64).to_bits())),
        (RegisterType::Float, 2, Value::Float(nan)),
        (RegisterType::String, 0, Value::String("s".to_string())),
        (RegisterType::String, 1, Value::String("s".to_string())),
        (RegisterType::Char, 0, Value::Char('a')),
    ]);
    let code = vec![
        cmd(0x11, 0, 0, 1),
        cmd(0x11, 1, 2, 2),
        cmd(0x13, 2, 0, 1),
        cmd(0x12, 3, 0, 1),
        cmd(0x10, 4, 0, 1),
    ];
    for _ in 0..5 {
        assert!(matches!(m.step(&code), Action::Continue));
    }
    assert_eq!(&m.registers.bool_registr[0..5], &[0.0f64 == -0.0f64, f64::NAN == f64::NAN, true, false, true]);
}

#[test]
fn conversions() {
    let mut m = machine_with(&[
        (RegisterType::String, 0, Value::String(" -12 ".to_string())),
        (RegisterType::String, 1, Value::String("oops".to_string())),
        (RegisterType::Bool, 0, Value::Bool(true)),
    ]);
    let code = vec![cmd(0x34, 1, 0, 0), cmd(0x35, 2, 1, 0), cmd(0x39, 3, 0, 0), cmd(0x34, 1, 1, 0)];
    for _ in 0..3 {
        assert!(matches!(m.step(&code), Action::Continue));
    }
    assert_eq!(ints(&m)[1], -12);
    assert_eq!(m.registers.string_registr[2], "-12");
    assert_eq!(m.registers.string_registr[3], "true");
    assert_eq!(fault(m.step(&code)), "Cannot parse 'oops' as integer at instruction 3");
}

#[test]
fn host_actions() {
    let mut m = machine_with(&[
        (RegisterType::String, 0, Value::String("out.txt".to_string())),
        (RegisterType::Float, 0, Value::Float(1.25f64.to_bits())),
        (RegisterType::Float, 1, Value::Float(2.0f64.to_bits())),
    ]);
    let code = vec![
        cmd(0x51, 0, 0, 0),
        cmd(0x52, 0, 0, 0),
        cmd(0x70, 3, 0, 0),
        cmd(0x07, 2, 0, 1),
        cmd(0x36, 4, 0, 0),
        cmd(0x37, 5, 1, 0),
        cmd(0x63, 0, 0, 0),
    ];
    assert!(matches!(m.step(&code), Action::OpenOutput { ref name, instruction: 0 } if name == "out.txt"));
    assert!(matches!(m.step(&code), Action::Print(ref s) if s == "out.txt"));
    assert!(matches!(m.step(&code), Action::ReadLine { reg: 3 }));
    m.store_result(3, Value::String("typed".to_string()));
    assert_eq!(m.registers.string_registr[3], "typed");
    match m.step(&code) {
        Action::FloatArith { op: FloatOp::Mul, lhs, rhs, reg: 2 } => {
            let r = f64::from_bits(lhs) * f64::from_bits(rhs);
            m.store_result(2, Value::Float(r.to_bits()));
        }
        _ => panic!(),
    }
    assert_eq!(f64::from_bits(m.registers.float_registr[2]), 2.5);
    assert!(matches!(m.step(&code), Action::ParseFloat { ref text, reg: 4, instruction: 4 } if text == "out.txt"));
    assert!(matches!(m.step(&code), Action::FormatFloat { reg: 5, .. }));
    assert!(matches!(m.step(&code), Action::Halt));
    assert_eq!(m.ip, 6);
    assert!(matches!(m.step(&code), Action::Halt));
}

#[test]
fn jumps() {
    let mut m = machine_with(&[(RegisterType::Bool, 0, Value::Bool(true))]);
    let code = vec![
        cmd(0x60, 0, 2, 0),
        cmd(0x63, 0, 0, 0),
        cmd(0x61, 0, 0, (-2i16) as u16),
        cmd(0x62, 0, 0, 5),
    ];
    assert!(matches!(m.step(&code), Action::Continue));
    assert_eq!(m.ip, 2);
    assert!(matches!(m.step(&code), Action::Continue));
    assert_eq!(m.ip, 0);
    m.ip = 3;
    assert!(matches!(m.step(&code), Action::Continue));
    assert_eq!(m.ip, 4);
    m.ip = 0;
    let back = vec![cmd(0x60, 0, (-1i16) as u16, 0)];
    assert!(matches!(m.step(&back), Action::Continue));
    assert_eq!(m.ip, usize::MAX);
    assert!(matches!(m.step(&back), Action::Halt));
}

fn data(registr: u16, data_type: i8, value: Value) -> DataCommand {
    DataCommand { registr, data_type, value }
}

#[test]
fn loading_data() {
    let r: Registers = load_data(&vec![
        data(2, 1, Value::Int(5)),
        data(0, 4, Value::String("s".to_string())),
        data(2, 1, Value::Int(6)),
    ])
    .unwrap();
    assert_eq!(r.int_registr, vec![0, 0, 6]);
    assert_eq!(r.string_registr, vec!["s".to_string(), String::new(), String::new()]);
    assert_eq!(r.char_registr.len(), 3);
    let empty = load_data(&vec![]).unwrap();
    assert!(empty.int_registr.is_empty());
    assert_eq!(
        load_data(&vec![data(0, 9, Value::Int(1))]).err().unwrap(),
        "Unknown data type: 9"
    );
    assert_eq!(
        load_data(&vec![data(0, 1, Value::Bool(true))]).err().unwrap(),
        "Type mismatch: expected Int, got different value"
    );
}
