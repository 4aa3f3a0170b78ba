use clean_cli::{ArgValue, ArgType, Cli, CommandBuilder, Context, Handler, Kind, Parameter};
use std::cell::Cell;
use std::rc::Rc;

struct FnHandler<R>(Box<dyn FnMut(Context) -> R>);

impl<R> Handler for FnHandler<R> {
    type Output = R;
    fn invoke(&mut self, ctx: Context) -> R {
        (self.0)(ctx)
    }
}

fn handler<R>(f: impl FnMut(Context) -> R + 'static) -> FnHandler<R> {
    FnHandler(Box::new(f))
}

fn some_fn(ctx: Context) {
    if let Some(unit) = ctx.command_units().last() {
        assert_eq!(unit.name().as_str(), "cmd");
    } else {
        panic!("context units empty");
    }
}

#[test]
fn use_regular_function() {
    let _cli = Cli::builder()
        .command(
            CommandBuilder::with_name("cmd")
                .parameter(Parameter::with_name("param"))
                .handler(handler(some_fn)),
        )
        .build();
}

#[test]
fn command() {
    let is_triggered = Rc::new(Cell::new(false));
    let is_triggered_closure = is_triggered.clone();
    let mut cli = Cli::builder()
        .command(CommandBuilder::with_name("cmd").handler(handler(move |_| {
            is_triggered_closure.set(true);
        })))
        .build();

    match cli.exec_line("cmd") {
        Ok(_) => {}
        Err(e) => panic!("{:?}", e),
    }

    assert!(is_triggered.get());
}

#[test]
fn command_with_bool_param() {
    let mut cli = Cli::builder()
        .command(
            CommandBuilder::with_name("cmd")
                .parameter(
                    Parameter::with_name("flag")
                        .value_type(ArgType::Bool)
                        .alias("f")
                        .alias("fl"),
                )
                .handler(handler(|ctx: Context| {
                    if let Some((param, arg)) = ctx.command_units().last().unwrap().parameter("flag")
                    {
                        assert_eq!("flag", param.name.as_str());
                        if let ArgValue::Bool(v) = arg {
                            assert!(*v)
                        }
                    } else {
                        panic!("parameter not found")
                    };
                })),
        )
        .build();

    match cli.exec_line("cmd --flag") {
        Ok(_) => {}
        Err(err) => panic!("{:?}", err),
    }

    match cli.exec_line("cmd --fl") {
        Ok(_) => {}
        Err(err) => panic!("{:?}", err),
    }

    match cli.exec_line("cmd -f") {
        Ok(_) => {}
        Err(err) => panic!("{:?}", err),
    }

    match cli.exec_line("cmd -f") {
        Ok(_) => {}
        Err(err) => panic!("{:?}", err),
    }
}

#[test]
fn command_with_two_bool_param() {
    let flags = Rc::new(Cell::new((false, false)));
    let flags_move = flags.clone();

    let mut cli = Cli::builder()
        .command(
            CommandBuilder::with_name("cmd")
                .parameter(
                    Parameter::with_name("flag1")
                        .value_type(ArgType::Bool)
                        .alias("1"),
                )
                .parameter(
                    Parameter::with_name("flag2")
                        .value_type(ArgType::Bool)
                        .alias("2"),
                )
                .handler(handler(move |ctx: Context| {
                    if let Some((param, arg)) =
                        ctx.command_units().last().unwrap().parameter("flag1")
                    {
                        assert_eq!("flag1", param.name.as_str());
                        if let ArgValue::Bool(v) = arg {
                            assert!(*v);
                            let mut tmp = flags_move.get();
                            tmp.0 = true;
                            flags_move.set(tmp);
                        }
                    };

                    if let Some((param, arg)) =
                        ctx.command_units().last().unwrap().parameter("flag2")
                    {
                        assert_eq!("flag2", param.name.as_str());
                        if let ArgValue::Bool(v) = arg {
                            assert!(*v);
                            let mut tmp = flags_move.get();
                            tmp.1 = true;
                            flags_move.set(tmp);
                        }
                    }
                })),
        )
        .build();

    match cli.exec_line("cmd --flag1") {
        Ok(_) => {
            assert!(flags.get().0);
            assert!(!flags.get().1);
        }
        Err(err) => panic!("{:?}", err),
    }
    flags.set((false, false));

    match cli.exec_line("cmd -1") {
        Ok(_) => {
            assert!(flags.get().0);
            assert!(!flags.get().1);
        }
        Err(err) => panic!("{:?}", err),
    }
    flags.set((false, false));

    match cli.exec_line("cmd --flag2") {
        Ok(_) => {
            assert!(!flags.get().0);
            assert!(flags.get().1);
        }
        Err(err) => panic!("{:?}", err),
    }
    flags.set((false, false));

    match cli.exec_line("cmd -2") {
        Ok(_) => {
            assert!(!flags.get().0);
            assert!(flags.get().1);
        }
        Err(err) => panic!("{:?}", err),
    }
    flags.set((false, false));

    match cli.exec_line("cmd --flag1 --flag2") {
        Ok(_) => {
            assert!(flags.get().0);
            assert!(flags.get().1);
        }
        Err(err) => panic!("{:?}", err),
    }
    flags.set((false, false));

    match cli.exec_line("cmd -1 -2") {
        Ok(_) => {
            assert!(flags.get().0);
            assert!(flags.get().1);
        }
        Err(err) => panic!("{:?}", err),
    }
    flags.set((false, false));

    match cli.exec_line("cmd -12") {
        Ok(_) => {
            assert!(flags.get().0);
            assert!(flags.get().1);
        }
        Err(err) => panic!("{:?}", err),
    }
    flags.set((false, false));
}

#[test]
fn command_with_int_param_no_value() {
    let mut cli = Cli::builder()
        .command(
            CommandBuilder::with_name("cmd")
                .parameter(
                    Parameter::with_name("int")
                        .value_type(ArgType::Int)
                        .alias("i"),
                )
                .handler(handler(|_: Context| {
                    panic!("handler must no execute");
                })),
        )
        .build();

    match cli.exec_line("cmd --int") {
        Ok(_) => panic!("error expected"),
        Err(err) => match err.kind() {
            Kind::ParameterValueMissed => {}
            _ => panic!("Wrong error: {:?}", err),
        },
    }

    match cli.exec_line("cmd -i") {
        Ok(_) => panic!("error expected"),
        Err(err) => match err.kind() {
            Kind::ParameterValueMissed => {}
            _ => panic!("Wrong error: {:?}", err),
        },
    }
}

#[test]
fn command_with_int_param() {
    let mut cli = Cli::builder()
        .command(
            CommandBuilder::with_name("cmd")
                .parameter(
                    Parameter::with_name("int")
                        .value_type(ArgType::Int)
                        .alias("i")
                        .alias("ii"),
                )
                .handler(handler(|ctx: Context| {
                    if let Some((param, arg)) = ctx.command_units().last().unwrap().parameter("int")
                    {
                        assert_eq!("int", param.name.as_str());
                        if let ArgValue::Int(v) = arg {
                            assert_eq!(*v, 42_i64);
                        }
                    } else {
                        panic!("parameter not found")
                    };
                })),
        )
        .build();

    match cli.exec_line("cmd --int 42") {
        Ok(_) => {}
        Err(err) => panic!("{:?}", err),
    }

    match cli.exec_line("cmd --ii 42") {
        Ok(_) => {}
        Err(err) => panic!("{:?}", err),
    }

    match cli.exec_line("cmd -i 42") {
        Ok(_) => {}
        Err(err) => panic!("{:?}", err),
    }
}

#[test]
fn command_with_two_int_param() {
    let mut cli = Cli::builder()
        .command(
            CommandBuilder::with_name("cmd")
                .parameter(
                    Parameter::with_name("int1")
                        .value_type(ArgType::Int)
                        .alias("1"),
                )
                .parameter(
                    Parameter::with_name("int2")
                        .value_type(ArgType::Int)
                        .alias("2"),
                )
                .handler(handler(|ctx: Context| {
                    if let Some((param, arg)) =
                        ctx.command_units().last().unwrap().parameter("int1")
                    {
                        assert_eq!("int1", param.name.as_str());
                        if let ArgValue::Int(v) = arg {
                            assert_eq!(*v, 42_i64);
                        }
                    } else if let Some((param, arg)) =
                        ctx.command_units().last().unwrap().parameter("int2")
                    {
                        assert_eq!("int2", param.name.as_str());
                        if let ArgValue::Int(v) = arg {
                            assert_eq!(*v, 333_i64);
                        }
                    } else {
                        panic!("parameter not found")
                    };
                })),
        )
        .build();

    match cli.exec_line("cmd --int1 42 --int2 333") {
        Ok(_) => {}
        Err(err) => panic!("{:?}", err),
    }

    match cli.exec_line("cmd -1 42 -2 333") {
        Ok(_) => {}
        Err(err) => panic!("{:?}", err),
    }
}

#[test]
fn command_with_float_param_no_value() {
    let mut cli = Cli::builder()
        .command(
            CommandBuilder::with_name("cmd")
                .parameter(
                    Parameter::with_name("float")
                        .value_type(ArgType::Float)
                        .alias("f"),
                )
                .handler(handler(|_: Context| {
                    panic!("handler must no execute");
                })),
        )
        .build();

    match cli.exec_line("cmd --float") {
        Ok(_) => panic!("error expected"),
        Err(err) => match err.kind() {
            Kind::ParameterValueMissed => {}
            _ => panic!("Wrong error: {:?}", err),
        },
    }

    match cli.exec_line("cmd -f") {
        Ok(_) => panic!("error expected"),
        Err(err) => match err.kind() {
            Kind::ParameterValueMissed => {}
            _ => panic!("Wrong error: {:?}", err),
        },
    }
}

#[test]
fn command_with_float_param() {
    let mut cli = Cli::builder()
        .command(
            CommandBuilder::with_name("cmd")
                .parameter(
                    Parameter::with_name("float")
                        .value_type(ArgType::Float)
                        .alias("f")
                        .alias("ff"),
                )
                .handler(handler(|ctx: Context| {
                    if let Some((param, arg)) =
                        ctx.command_units().last().unwrap().parameter("float")
                    {
                        assert_eq!("float", param.name.as_str());
                        if let ArgValue::Float(v) = arg {
                            assert_eq!(f64::from_bits(*v), 4.2_f64);
                        }
                    } else {
                        panic!("parameter not found")
                    };
                })),
        )
        .build();

    match cli.exec_line("cmd --float 4.2") {
        Ok(_) => {}
        Err(err) => panic!("{:?}", err),
    }

    match cli.exec_line("cmd --ff 4.2") {
        Ok(_) => {}
        Err(err) => panic!("{:?}", err),
    }

    match cli.exec_line("cmd -f 4.2") {
        Ok(_) => {}
        Err(err) => panic!("{:?}", err),
    }
}

#[test]
fn command_with_two_float_param() {
    let mut cli = Cli::builder()
        .command(
            CommandBuilder::with_name("cmd")
                .parameter(
                    Parameter::with_name("float1")
                        .value_type(ArgType::Float)
                        .alias("1"),
                )
                .parameter(
                    Parameter::with_name("float2")
                        .value_type(ArgType::Float)
                        .alias("2"),
                )
                .handler(handler(|ctx: Context| {
                    if let Some((param, arg)) =
                        ctx.command_units().last().unwrap().parameter("float1")
                    {
                        assert_eq!("float1", param.name.as_str());
                        if let ArgValue::Float(v) = arg {
                            assert_eq!(f64::from_bits(*v), 4.2_f64);
                        }
                    } else if let Some((param, arg)) =
                        ctx.command_units().last().unwrap().parameter("float2")
                    {
                        assert_eq!("float2", param.name.as_str());
                        if let ArgValue::Float(v) = arg {
                            assert_eq!(f64::from_bits(*v), 3.33_f64);
                        }
                    } else {
                        panic!("parameter not found")
                    };
                })),
        )
        .build();

    match cli.exec_line("cmd --float1 4.2 --float2 3.33") {
        Ok(_) => {}
        Err(err) => panic!("{:?}", err),
    }

    match cli.exec_line("cmd -1 4.2 -2 3.33") {
        Ok(_) => {}
        Err(err) => panic!("{:?}", err),
    }
}

#[test]
fn command_with_string_param_no_value() {
    let mut cli = Cli::builder()
        .command(
            CommandBuilder::with_name("cmd")
                .parameter(
                    Parameter::with_name("string")
                        .value_type(ArgType::String)
                        .alias("s"),
                )
                .handler(handler(|_: Context| {
                    panic!("handler must no execute");
                })),
        )
        .build();

    match cli.exec_line("cmd --string") {
        Ok(_) => panic!("error expected"),
        Err(err) => match err.kind() {
            Kind::ParameterValueMissed => {}
            _ => panic!("Wrong error: {:?}", err),
        },
    }

    match cli.exec_line("cmd -s") {
        Ok(_) => panic!("error expected"),
        Err(err) => match err.kind() {
            Kind::ParameterValueMissed => {}
            _ => panic!("Wrong error: {:?}", err),
        },
    }
}

#[test]
fn command_with_sting_param() {
    let mut cli = Cli::builder()
        .command(
            CommandBuilder::with_name("cmd")
                .parameter(
                    Parameter::with_name("string")
                        .value_type(ArgType::String)
                        .alias("s")
                        .alias("ss"),
                )
                .handler(handler(|ctx: Context| {
                    if let Some((param, arg)) =
                        ctx.command_units().last().unwrap().parameter("string")
                    {
                        assert_eq!("string", param.name.as_str());
                        if let ArgValue::String(v) = arg {
                            return v.clone();
                        }
                    } else {
                        panic!("parameter not found")
                    };
                    String::new()
                })),
        )
        .build();

    match cli.exec_line("cmd --string abc") {
        Ok(s) => assert_eq!(s, "abc"),
        Err(err) => panic!("{:?}", err),
    }

    match cli.exec_line("cmd --ss abc") {
        Ok(s) => assert_eq!(s, "abc"),
        Err(err) => panic!("{:?}", err),
    }

    match cli.exec_line("cmd -s abc") {
        Ok(s) => assert_eq!(s, "abc"),
        Err(err) => panic!("{:?}", err),
    }

    match cli.exec_line("cmd --string \"abc 123\"") {
        Ok(s) => assert_eq!(s, "abc 123"),
        Err(err) => panic!("{:?}", err),
    }

    match cli.exec_line("cmd --ss \"abc 123\"") {
        Ok(s) => assert_eq!(s, "abc 123"),
        Err(err) => panic!("{:?}", err),
    }

    match cli.exec_line("cmd -s \"abc 123\"") {
        Ok(s) => assert_eq!(s, "abc 123"),
        Err(err) => panic!("{:?}", err),
    }
}

#[test]
fn command_with_two_string_param() {
    let mut cli = Cli::builder()
        .command(
            CommandBuilder::with_name("cmd")
                .parameter(
                    Parameter::with_name("string1")
                        .value_type(ArgType::String)
                        .alias("1"),
                )
                .parameter(
                    Parameter::with_name("string2")
                        .value_type(ArgType::String)
                        .alias("2"),
                )
                .handler(handler(|ctx: Context| {
                    let mut result = (None, None);
                    if let Some((param, arg)) =
                        ctx.command_units().last().unwrap().parameter("string1")
                    {
                        assert_eq!("string1", param.name.as_str());
                        if let ArgValue::String(v) = arg {
                            result.0 = Some(v.clone());
                        }
                    };

                    if let Some((param, arg)) =
                        ctx.command_units().last().unwrap().parameter("string2")
                    {
                        assert_eq!("string2", param.name.as_str());
                        if let ArgValue::String(v) = arg {
                            result.1 = Some(v.clone());
                        }
                    }

                    result
                })),
        )
        .build();

    match cli.exec_line("cmd --string1 4.2 --string2 3.33") {
        Ok(r) => {
            if let (Some(s1), Some(s2)) = r {
                assert_eq!(s1.as_str(), "4.2");
                assert_eq!(s2.as_str(), "3.33");
            } else {
                panic!("parameter not found {:?}", r)
            }
        }
        Err(err) => panic!("{:?}", err),
    }

    match cli.exec_line("cmd -1 4.2 -2 3.33") {
        Ok(r) => {
            if let (Some(s1), Some(s2)) = r {
                assert_eq!(s1.as_str(), "4.2");
                assert_eq!(s2.as_str(), "3.33");
            } else {
                panic!("parameter not found {:?}", r)
            }
        }
        Err(err) => panic!("{:?}", err),
    }

    match cli.exec_line("cmd --string1 '4.2 2.4' --string2 '3.33 mm'") {
        Ok(r) => {
            if let (Some(s1), Some(s2)) = r {
                assert_eq!(s1.as_str(), "4.2 2.4");
                assert_eq!(s2.as_str(), "3.33 mm");
            } else {
                panic!("parameter not found {:?}", r)
            }
        }
        Err(err) => panic!("{:?}", err),
    }

    match cli.exec_line("cmd -1 \"4.2 2.4\" -2 \"3.33 mm\"") {
        Ok(r) => {
            if let (Some(s1), Some(s2)) = r {
                assert_eq!(s1.as_str(), "4.2 2.4");
                assert_eq!(s2.as_str(), "3.33 mm");
            } else {
                panic!("parameter not found {:?}", r)
            }
        }
        Err(err) => panic!("{:?}", err),
    }
}
