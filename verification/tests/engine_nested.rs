use clean_cli::{ArgValue, ArgType, Cli, CommandBuilder, Context, Handler, Parameter};
use std::cell::Cell;
use std::collections::HashSet;
use std::rc::Rc;

struct FnHandler<R>(Box<dyn FnMut(Context) -> R>);

impl<R> Handler for FnHandler<R> {
    type Output = R;
    fn invoke(&mut self, ctx: Context) -> R {
        (self.0)(ctx)
    }
}

fn handler<R>(f: impl FnMut(Context) -> R + 'static) -> FnHandler<R> {
    FnHandler(Box::new(f))
}

fn mixed_parameters(cb: CommandBuilder<FnHandler<()>>) -> CommandBuilder<FnHandler<()>> {
    cb.parameter(
        Parameter::with_name("bool")
            .value_type(ArgType::Bool)
            .alias("b")
            .alias("bb"),
    )
    .parameter(
        Parameter::with_name("int")
            .value_type(ArgType::Int)
            .alias("i")
            .alias("ii"),
    )
    .parameter(
        Parameter::with_name("float")
            .value_type(ArgType::Float)
            .alias("f")
            .alias("ff"),
    )
    .parameter(
        Parameter::with_name("string")
            .value_type(ArgType::String)
            .alias("s")
            .alias("ss"),
    )
}

fn expect_mixed(unit: &clean_cli::ContextUnit, int_val: i64, float_val: f64, string_val: &str) {
    let mut expect_params = HashSet::new();
    expect_params.insert("bool");
    expect_params.insert("int");
    expect_params.insert("float");
    expect_params.insert("string");

    if let Some((param, arg)) = unit.parameter("bool") {
        assert_eq!("bool", param.name.as_str());
        if let ArgValue::Bool(v) = arg {
            assert!(*v);
            expect_params.remove("bool");
        }
    }

    if let Some((param, arg)) = unit.parameter("int") {
        assert_eq!("int", param.name.as_str());
        if let ArgValue::Int(v) = arg {
            assert_eq!(*v, int_val);
            expect_params.remove("int");
        }
    }

    if let Some((param, arg)) = unit.parameter("float") {
        assert_eq!("float", param.name.as_str());
        if let ArgValue::Float(v) = arg {
            assert_eq!(f64::from_bits(*v), float_val);
            expect_params.remove("float");
        }
    }

    if let Some((param, arg)) = unit.parameter("string") {
        assert_eq!("string", param.name.as_str());
        if let ArgValue::String(v) = arg {
            assert_eq!(v, string_val);
            expect_params.remove("string");
        }
    }

    if !expect_params.is_empty() {
        panic!("parameters not found: {:?}", expect_params)
    };
}

#[test]
fn command_with_mixed_params() {
    let mut cli = Cli::builder()
        .command(
            mixed_parameters(CommandBuilder::with_name("cmd")).handler(handler(|ctx: Context| {
                expect_mixed(ctx.command_units().last().unwrap(), 42, 4.2, "bla");
            })),
        )
        .build();

    match cli.exec_line("cmd --bool --int 42 --float 4.2 --string bla") {
        Ok(_) => {}
        Err(err) => panic!("{:?}", err),
    }

    match cli.exec_line("cmd --float 4.2 --int 42 --bool --string bla") {
        Ok(_) => {}
        Err(err) => panic!("{:?}", err),
    }

    match cli.exec_line("cmd --bb --ii 42 --ff 4.2 --ss bla") {
        Ok(_) => {}
        Err(err) => panic!("{:?}", err),
    }

    match cli.exec_line("cmd -b -i 42 -f 4.2 -s bla") {
        Ok(_) => {}
        Err(err) => panic!("{:?}", err),
    }

    match cli.exec_line("cmd -bifs 42 4.2 bla") {
        Ok(_) => {}
        Err(err) => panic!("{:?}", err),
    }
}

#[test]
fn command_with_subcommand() {
    let is_triggered = Rc::new(Cell::new(false));
    let is_triggered_closure = is_triggered.clone();

    let mut cli = Cli::builder()
        .command(CommandBuilder::with_name("cmd").subcommand(
            CommandBuilder::with_name("sub").handler(handler(move |_| {
                is_triggered_closure.set(true);
            })),
        ))
        .build();

    if cli.exec_line("cmd").is_ok() {
        panic!("error expected")
    }
    assert!(!is_triggered.get());

    if let Err(e) = cli.exec_line("cmd sub") {
        panic!("{:?}", e)
    }
    assert!(is_triggered.get());
}

#[test]
fn command_with_subcommand_with_mixed_params() {
    let mut cli = Cli::builder()
        .command(
            CommandBuilder::with_name("cmd").subcommand(
                mixed_parameters(CommandBuilder::with_name("sub")).handler(handler(
                    |ctx: Context| {
                        expect_mixed(ctx.command_units().last().unwrap(), 42, 4.2, "bla");
                    },
                )),
            ),
        )
        .build();

    match cli.exec_line("cmd sub --bool --int 42 --float 4.2 --string bla") {
        Ok(_) => {}
        Err(err) => panic!("{:?}", err),
    }

    match cli.exec_line("cmd sub --bb --ii 42 --ff 4.2 --ss bla") {
        Ok(_) => {}
        Err(err) => panic!("{:?}", err),
    }

    match cli.exec_line("cmd sub -b -i 42 -f 4.2 -s bla") {
        Ok(_) => {}
        Err(err) => panic!("{:?}", err),
    }

    match cli.exec_line("cmd sub -bifs 42 4.2 bla") {
        Ok(_) => {}
        Err(err) => panic!("{:?}", err),
    }
}

#[test]
fn command_with_mixed_params_with_subcommand() {
    let mut cli = Cli::builder()
        .command(
            mixed_parameters(CommandBuilder::with_name("cmd")).subcommand(
                CommandBuilder::with_name("sub").handler(handler(|ctx: Context| {
                    assert_eq!(ctx.command_units().len(), 2);
                    expect_mixed(&ctx.command_units()[0], 42, 4.2, "bla");
                })),
            ),
        )
        .build();

    match cli.exec_line("cmd --bool --int 42 --float 4.2 --string bla sub") {
        Ok(_) => {}
        Err(err) => panic!("{:?}", err),
    }

    match cli.exec_line("cmd --ii 42 --ff 4.2 --bb --ss bla sub") {
        Ok(_) => {}
        Err(err) => panic!("{:?}", err),
    }

    match cli.exec_line("cmd -b -i 42 -f 4.2 -s bla sub") {
        Ok(_) => {}
        Err(err) => panic!("{:?}", err),
    }

    match cli.exec_line("cmd -bifs 42 4.2 bla sub") {
        Ok(_) => {}
        Err(err) => panic!("{:?}", err),
    }
}

#[test]
fn command_with_mixed_params_with_subcommand_with_mixed_params() {
    let mut cli = Cli::builder()
        .command(
            mixed_parameters(CommandBuilder::with_name("cmd")).subcommand(
                mixed_parameters(CommandBuilder::with_name("sub")).handler(handler(
                    |ctx: Context| {
                        assert_eq!(ctx.command_units().len(), 2);
                        expect_mixed(&ctx.command_units()[0], 42, 4.2, "bla");
                        expect_mixed(&ctx.command_units()[1], 24, 2.4, "alb");
                    },
                )),
            ),
        )
        .build();

    match cli.exec_line(
        "cmd --bool --int 42 --float 4.2 --string bla sub --float 2.4 --int 24 --bool --string alb",
    ) {
        Ok(_) => {}
        Err(err) => panic!("{:?}", err),
    }

    match cli.exec_line("cmd --ii 42 --ff 4.2 --bb --ss bla sub --ff 2.4 --ii 24 --bb --ss alb") {
        Ok(_) => {}
        Err(err) => panic!("{:?}", err),
    }

    match cli.exec_line("cmd -b -i 42 -f 4.2 -s bla sub -f 2.4 -i 24 -b -s alb") {
        Ok(_) => {}
        Err(err) => panic!("{:?}", err),
    }

    match cli.exec_line("cmd -bifs 42 4.2 bla sub -fibs 2.4 24 alb") {
        Ok(_) => {}
        Err(err) => panic!("{:?}", err),
    }
}

#[test]
fn command_with_bool_value() {
    let mut cli = Cli::builder()
        .command(
            CommandBuilder::with_name("cmd")
                .use_value(ArgType::Bool)
                .handler(handler(|ctx: Context| {
                    if let Some(value) = ctx.command_units().last().unwrap().value() {
                        match value {
                            ArgValue::Bool(_) => {}
                            _ => panic!("bool value expected"),
                        }
                    } else {
                        panic!("value expected");
                    }
                })),
        )
        .build();

    match cli.exec_line("cmd true") {
        Ok(_) => {}
        Err(err) => panic!("{:?}", err),
    }
}

#[test]
fn command_with_int_value() {
    let mut cli = Cli::builder()
        .command(
            CommandBuilder::with_name("cmd")
                .use_value(ArgType::Int)
                .handler(handler(|ctx: Context| {
                    if let Some(value) = ctx.command_units().last().unwrap().value() {
                        match value {
                            ArgValue::Int(v) => assert_eq!(v, &42_i64),
                            _ => panic!("int value expected"),
                        }
                    } else {
                        panic!("value expected");
                    }
                })),
        )
        .build();

    match cli.exec_line("cmd 42") {
        Ok(_) => {}
        Err(err) => panic!("{:?}", err),
    }
}

#[test]
fn command_with_float_value() {
    let mut cli = Cli::builder()
        .command(
            CommandBuilder::with_name("cmd")
                .use_value(ArgType::Float)
                .handler(handler(|ctx: Context| {
                    if let Some(value) = ctx.command_units().last().unwrap().value() {
                        match value {
                            ArgValue::Float(v) => assert_eq!(f64::from_bits(*v), 4.2_f64),
                            _ => panic!("float value expected"),
                        }
                    } else {
                        panic!("value expected");
                    }
                })),
        )
        .build();

    match cli.exec_line("cmd 4.2") {
        Ok(_) => {}
        Err(err) => panic!("{:?}", err),
    }
}

#[test]
fn command_with_string_value() {
    let mut cli = Cli::builder()
        .command(
            CommandBuilder::with_name("cmd")
                .use_value(ArgType::String)
                .handler(handler(|ctx: Context| {
                    if let Some(value) = ctx.command_units().last().unwrap().value() {
                        match value {
                            ArgValue::String(v) => assert_eq!(v, "bla"),
                            _ => panic!("string value expected"),
                        }
                    } else {
                        panic!("value expected");
                    }
                })),
        )
        .build();

    match cli.exec_line("cmd bla") {
        Ok(_) => {}
        Err(err) => panic!("{:?}", err),
    }
}

#[test]
fn command_with_mixed_params_and_value() {
    let mut cli = Cli::builder()
        .command(
            mixed_parameters(CommandBuilder::with_name("cmd").use_value(ArgType::Bool)).handler(
                handler(|ctx: Context| {
                    let unit = ctx.command_units().last().unwrap();
                    if let Some(ArgValue::Bool(v)) = unit.value() {
                        assert!(!*v);
                    } else {
                        panic!("value expected");
                    }
                    expect_mixed(unit, 42, 4.2, "bla");
                }),
            ),
        )
        .build();

    match cli.exec_line("cmd false --bool --int 42 --float 4.2 --string bla") {
        Ok(_) => {}
        Err(err) => panic!("{:?}", err),
    }

    match cli.exec_line("cmd --float 4.2 --int 42 --bool --string bla off") {
        Ok(_) => {}
        Err(err) => panic!("{:?}", err),
    }

    match cli.exec_line("cmd 0 --bb --ii 42 --ff 4.2 --ss bla") {
        Ok(_) => {}
        Err(err) => panic!("{:?}", err),
    }

    match cli.exec_line("cmd -b -i 42 no -f 4.2 -s bla") {
        Ok(_) => {}
        Err(err) => panic!("{:?}", err),
    }

    match cli.exec_line("cmd -bifs 42 4.2 bla off") {
        Ok(_) => {}
        Err(err) => panic!("{:?}", err),
    }
}

#[test]
fn sub_command() {
    let mut cli = Cli::builder()
        .print_help(true)
        .command(
            CommandBuilder::with_name("cmd")
                .use_value(ArgType::Bool)
                .subcommand(
                    CommandBuilder::with_name("sub")
                        .use_value(ArgType::Int)
                        .handler(handler(|_| true)),
                ),
        )
        .command(CommandBuilder::with_name("another_cmd").use_value(ArgType::Bool))
        .build();

    let res = cli.exec_line("cmd sub 10");
    assert!(res.is_ok());
    assert!(res.unwrap());
}
