use clean_cli::{parse_arg, split_line, ArgType, ArgValue, Kind, Span};
use rand::RngExt;

fn whole(line: &str) -> Span {
    Span { begin: 0, end: line.chars().count() }
}

#[test]
fn parse_arg_bool() {
    let f = |arg: &str, state: bool, span: Span| {
        let v = parse_arg(ArgType::Bool, arg, span).unwrap();
        if let ArgValue::Bool(v) = v {
            assert_eq!(v, state);
        } else {
            panic!("bool value expected");
        }
    };

    for (arg, span) in split_line("true 1 yes on") {
        f(arg.as_str(), true, span);
    }

    for (arg, span) in split_line("false 0 no off") {
        f(arg.as_str(), false, span);
    }
}

#[test]
fn parse_arg_bool_error() {
    let line = "not_a_bool";
    assert!(parse_arg(ArgType::Bool, line, whole(line)).is_err());
}

#[test]
fn parse_arg_int() {
    let mut line = String::with_capacity(100 * 2);
    let mut numbers = Vec::with_capacity(100);

    line.push_str(i64::MIN.to_string().as_str());
    line.push(' ');
    numbers.push(i64::MIN);

    line.push_str(i64::MAX.to_string().as_str());
    numbers.push(i64::MAX);
    line.push(' ');

    for _ in 0..100 {
        let num: i64 = rand::random();
        line.push_str(num.to_string().as_str());
        line.push(' ');
        numbers.push(num);
    }

    for ((arg, span), state) in split_line(&line).into_iter().zip(numbers.into_iter()) {
        let arg_value = parse_arg(ArgType::Int, arg.as_str(), span).unwrap();
        if let ArgValue::Int(v) = arg_value {
            assert_eq!(v, state);
        } else {
            panic!("int value expected");
        }
    }
}

#[test]
fn parse_arg_int_error() {
    let line = "not_int";
    assert!(parse_arg(ArgType::Int, line, whole(line)).is_err());
}

#[test]
fn parse_arg_very_big_int_error() {
    let line = "999999999999999999999999999999999999999999999999999999999999999999999999999999999999999999999999999999";
    assert!(parse_arg(ArgType::Int, line, whole(line)).is_err());
}

#[test]
fn parse_arg_float() {
    let mut line = String::with_capacity(100 * 5);
    let mut numbers = Vec::with_capacity(100);

    line.push_str(f64::MIN.to_string().as_str());
    line.push(' ');
    numbers.push(f64::MIN);

    line.push_str(f64::MAX.to_string().as_str());
    numbers.push(f64::MAX);
    line.push(' ');

    let mut rnd = rand::rng();
    for _ in 0..100 {
        let num: f64 = rnd.random_range(f64::MIN / 2.0..f64::MAX / 2.0);
        line.push_str(num.to_string().as_str());
        line.push(' ');
        numbers.push(num);
    }

    for ((arg, span), state) in split_line(&line).into_iter().zip(numbers.into_iter()) {
        let v = parse_arg(ArgType::Float, arg.as_str(), span).unwrap();
        if let ArgValue::Float(bits) = v {
            assert_eq!(f64::from_bits(bits), state);
        } else {
            panic!("float value expected");
        }
    }
}

#[test]
fn parse_arg_float_error() {
    let line = "not_float";
    assert!(parse_arg(ArgType::Float, line, whole(line)).is_err());
}

#[test]
fn parse_arg_very_big_float() {
    let line = f64::MAX.to_string() + "999";
    let line = line.as_str();
    let f = parse_arg(ArgType::Float, line, whole(line)).unwrap();
    if let ArgValue::Float(bits) = f {
        assert_eq!(f64::from_bits(bits), f64::INFINITY);
    } else {
        panic!("float value expected");
    }
}

#[test]
fn parse_arg_negative_numbers() {
    let line = "-42";
    match parse_arg(ArgType::Int, line, whole(line)).unwrap() {
        ArgValue::Int(v) => assert_eq!(v, -42),
        _ => panic!("int value expected"),
    }
    let line = "-4.5";
    match parse_arg(ArgType::Float, line, whole(line)).unwrap() {
        ArgValue::Float(bits) => assert_eq!(f64::from_bits(bits), -4.5),
        _ => panic!("float value expected"),
    }
}

#[test]
fn parse_arg_int_bounds() {
    let line = "9223372036854775807";
    match parse_arg(ArgType::Int, line, whole(line)).unwrap() {
        ArgValue::Int(v) => assert_eq!(v, i64::MAX),
        _ => panic!("int value expected"),
    }
    let line = "-9223372036854775808";
    match parse_arg(ArgType::Int, line, whole(line)).unwrap() {
        ArgValue::Int(v) => assert_eq!(v, i64::MIN),
        _ => panic!("int value expected"),
    }
    let line = "9223372036854775808";
    let e = parse_arg(ArgType::Int, line, whole(line)).unwrap_err();
    assert_eq!(e.kind(), Kind::ParseInt);
    let line = "-9223372036854775809";
    assert!(parse_arg(ArgType::Int, line, whole(line)).is_err());
    let line = "00042";
    match parse_arg(ArgType::Int, line, whole(line)).unwrap() {
        ArgValue::Int(v) => assert_eq!(v, 42),
        _ => panic!("int value expected"),
    }
}

#[test]
fn parse_arg_flag_like_values() {
    let line = "-x";
    let e = parse_arg(ArgType::String, line, whole(line)).unwrap_err();
    assert_eq!(e.kind(), Kind::NotValue);
    let e = parse_arg(ArgType::Bool, line, whole(line)).unwrap_err();
    assert_eq!(e.kind(), Kind::NotValue);
}

#[test]
fn parse_arg_string_verbatim() {
    let line = "two; two and half";
    match parse_arg(ArgType::String, line, whole(line)).unwrap() {
        ArgValue::String(s) => assert_eq!(s, line),
        _ => panic!("string value expected"),
    }
}
