use regvm::memory::{
    get_registr, init, parse_string_to_value, set_registr, strip_line_ending, value_to_string,
    RegisterType, Registers, Value,
};

fn int_of(v: Value) -> i64 {
    match v {
        Value::Int(i) => i,
        _ => panic!("not an int"),
    }
}

#[test]
fn init_is_empty() {
    let r = init();
    assert!(r.int_registr.is_empty());
    assert!(r.float_registr.is_empty());
    assert!(r.string_registr.is_empty());
    assert!(r.bool_registr.is_empty());
    assert!(r.char_registr.is_empty());
}

#[test]
fn set_grows_every_bank() {
    let mut r = init();
    set_registr(&mut r, RegisterType::Int, 3, Value::Int(9));
    assert_eq!(r.int_registr, vec![0, 0, 0, 9]);
    assert_eq!(r.float_registr, vec![0, 0, 0, 0]);
    assert_eq!(r.bool_registr, vec![false; 4]);
    assert_eq!(r.char_registr, vec!['\0'; 4]);
    assert_eq!(r.string_registr, vec![String::new(); 4]);
}

#[test]
fn read_after_write() {
    let mut r = init();
    set_registr(&mut r, RegisterType::String, 1, Value::String("abc".to_string()));
    set_registr(&mut r, RegisterType::Bool, 1, Value::Bool(true));
    set_registr(&mut r, RegisterType::Char, 0, Value::Char('q'));
    set_registr(&mut r, RegisterType::Float, 1, Value::Float(2.5f64.to_bits()));
    match get_registr(&r, RegisterType::String, 1) {
        Value::String(s) => assert_eq!(s, "abc"),
        _ => panic!(),
    }
    assert!(matches!(get_registr(&r, RegisterType::Bool, 1), Value::Bool(true)));
    assert!(matches!(get_registr(&r, RegisterType::Char, 0), Value::Char('q')));
    assert!(matches!(get_registr(&r, RegisterType::Bool, 0), Value::Bool(false)));
    match get_registr(&r, RegisterType::Float, 1) {
        Value::Float(b) => assert_eq!(f64::from_bits(b), 2.5),
        _ => panic!(),
    }
    assert_eq!(int_of(get_registr(&r, RegisterType::Int, 1)), 0);
}

#[test]
fn write_leaves_other_registers() {
    let mut r = Registers {
        int_registr: vec![1, 2, 3],
        float_registr: vec![0, 0, 0],
        string_registr: vec![String::new(), String::new(), String::new()],
        bool_registr: vec![false; 3],
        char_registr: vec!['a', 'b', 'c'],
    };
    set_registr(&mut r, RegisterType::Int, 1, Value::Int(20));
    assert_eq!(r.int_registr, vec![1, 20, 3]);
    assert_eq!(r.char_registr, vec!['a', 'b', 'c']);
}

#[test]
fn value_texts() {
    assert_eq!(value_to_string(&Value::Int(-120)), "-120");
    assert_eq!(value_to_string(&Value::Int(0)), "0");
    assert_eq!(value_to_string(&Value::Int(i64::MIN)), i64::MIN.to_string());
    assert_eq!(value_to_string(&Value::Int(i64::MAX)), i64::MAX.to_string());
    assert_eq!(value_to_string(&Value::Bool(true)), "true");
    assert_eq!(value_to_string(&Value::Bool(false)), "false");
    assert_eq!(value_to_string(&Value::Char('ж')), "ж");
    assert_eq!(value_to_string(&Value::String("x y".to_string())), "x y");
    assert_eq!(value_to_string(&Value::Null), "null");
}

#[test]
fn parse_integers() {
    let ok = |s: &str| int_of(parse_string_to_value(s, RegisterType::Int).unwrap());
    assert_eq!(ok("  42\n"), 42);
    assert_eq!(ok("+7"), 7);
    assert_eq!(ok("-0007"), -7);
    assert_eq!(ok("-9223372036854775808"), i64::MIN);
    assert_eq!(ok("\u{3000}9223372036854775807\u{a0}"), i64::MAX);
    for bad in ["", "-", "+", "12a", "9223372036854775808", "1 2", "--1", "+-1", "٣"] {
        let e = parse_string_to_value(bad, RegisterType::Int).err().unwrap();
        assert_eq!(e, format!("Cannot parse '{}' as integer", bad));
        assert!(bad.trim().parse::<i64>().is_err());
    }
}

#[test]
fn parse_booleans() {
    let b = |s: &str| match parse_string_to_value(s, RegisterType::Bool) {
        Ok(Value::Bool(b)) => Some(b),
        Ok(_) => panic!(),
        Err(e) => {
            assert_eq!(
                e,
                format!("Cannot parse '{}' as boolean (expected true/false/1/0)", s)
            );
            None
        }
    };
    assert_eq!(b("TRUE"), Some(true));
    assert_eq!(b(" 1 "), Some(true));
    assert_eq!(b("False"), Some(false));
    assert_eq!(b("0"), Some(false));
    assert_eq!(b("yes"), None);
    assert_eq!(b(""), None);
}

#[test]
fn parse_chars_and_strings() {
    assert!(matches!(
        parse_string_to_value("  xy ", RegisterType::Char),
        Ok(Value::Char('x'))
    ));
    assert_eq!(
        parse_string_to_value(" \t", RegisterType::Char).err().unwrap(),
        "Empty string cannot be parsed as char"
    );
    match parse_string_to_value(" as is ", RegisterType::String) {
        Ok(Value::String(s)) => assert_eq!(s, " as is "),
        _ => panic!(),
    }
}

#[test]
fn text_round_trips() {
    for i in [0i64, 5, -5, 1234567890, i64::MIN, i64::MAX] {
        let s = value_to_string(&Value::Int(i));
        assert_eq!(int_of(parse_string_to_value(&s, RegisterType::Int).unwrap()), i);
    }
    for b in [true, false] {
        let s = value_to_string(&Value::Bool(b));
        assert!(matches!(parse_string_to_value(&s, RegisterType::Bool), Ok(Value::Bool(x)) if x == b));
    }
    let s = value_to_string(&Value::Char('%'));
    assert!(matches!(parse_string_to_value(&s, RegisterType::Char), Ok(Value::Char('%'))));
    let s = value_to_string(&Value::Char(' '));
    assert!(parse_string_to_value(&s, RegisterType::Char).is_err());
}

#[test]
fn line_endings() {
    assert_eq!(strip_line_ending("abc\r\n".to_string()), "abc");
    assert_eq!(strip_line_ending("abc\n".to_string()), "abc");
    assert_eq!(strip_line_ending("abc\r".to_string()), "abc\r");
    assert_eq!(strip_line_ending("abc\n\n".to_string()), "abc\n");
    assert_eq!(strip_line_ending(String::new()), "");
}

fn snapshot(r: &Registers) -> (Vec<i64>, Vec<u64>, Vec<String>, Vec<bool>, Vec<char>) {
    (
        r.int_registr.clone(),
        r.float_registr.clone(),
        r.string_registr.clone(),
        r.bool_registr.clone(),
        r.char_registr.clone(),
    )
}

#[test]
fn writes_to_different_registers_commute() {
    let mut a = init();
    set_registr(&mut a, RegisterType::Int, 1, Value::Int(4));
    set_registr(&mut a, RegisterType::Char, 5, Value::Char('k'));
    let mut b = init();
    set_registr(&mut b, RegisterType::Char, 5, Value::Char('k'));
    set_registr(&mut b, RegisterType::Int, 1, Value::Int(4));
    assert_eq!(snapshot(&a), snapshot(&b));
}

#[test]
fn repeated_and_overwritten_writes() {
    let mut a = init();
    set_registr(&mut a, RegisterType::Bool, 2, Value::Bool(true));
    let once = snapshot(&a);
    set_registr(&mut a, RegisterType::Bool, 2, Value::Bool(true));
    assert_eq!(snapshot(&a), once);
    let mut b = init();
    set_registr(&mut b, RegisterType::String, 1, Value::String("x".to_string()));
    set_registr(&mut b, RegisterType::String, 1, Value::String("y".to_string()));
    let mut c = init();
    set_registr(&mut c, RegisterType::String, 1, Value::String("y".to_string()));
    assert_eq!(snapshot(&b), snapshot(&c));
    assert!(matches!(get_registr(&b, RegisterType::String, 0), Value::String(ref s) if s.is_empty()));
    assert!(matches!(get_registr(&b, RegisterType::Float, 0), Value::Float(0)));
}
