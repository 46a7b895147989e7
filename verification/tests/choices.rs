use chat_command::command::builder::{literal, CommandBuilder};
use chat_command::command::Command;
use chat_command::generic::Func;

struct Const42;

impl<G> Func<G> for Const42 {
    type Output = i32;

    fn call(&self, _args: G) -> i32 {
        42
    }
}

struct OneChoice;

impl Func<(String,)> for OneChoice {
    type Output = Const42;

    fn call(&self, args: (String,)) -> Const42 {
        println!("{}", args.0);
        Const42
    }
}

#[test]
fn choice_simple() {
    let choices: Vec<String> = vec!["e".into(), "f\\r".into(), "minecraft:chicken".into()];
    let command = literal("/test").space().choice(choices).on_call(OneChoice);

    let suc = command.call(("Hello", 10), "/test f\\r");
    assert!(suc.is_ok(), "{:?}", suc);

    let suc = command.call(("Hello", 10), "/test e");
    assert!(suc.is_ok(), "{:?}", suc);

    let suc = command.call(("Hello", 10), "/test minecraft:chicken");
    assert!(suc.is_ok(), "{:?}", suc);

    let err = command.call(("Hello", 10), "/test g");
    assert!(err.is_err(), "{:?}", err);

    let err = command.call(("Hello", 10), "/test f\\r\\r");
    assert!(err.is_err(), "{:?}", err);

    let err = command.call(("Hello", 10), "/test f\\r\\r\\r");
    assert!(err.is_err(), "{:?}", err);
}

struct TwoChoices;

impl Func<(String, String)> for TwoChoices {
    type Output = Const42;

    fn call(&self, args: (String, String)) -> Const42 {
        println!("x={}", args.0);
        println!("y={}", args.1);
        Const42
    }
}

#[test]
fn multiple() {
    let choices: Vec<String> = vec!["e".into(), "f\\r".into(), "minecraft:chicken.".into()];
    let command = literal("/test")
        .space()
        .choice(choices.clone())
        .space()
        .choice(choices)
        .on_call(TwoChoices);

    let suc = command.call(("Hello", 10), "/test f\\r e");
    assert!(suc.is_ok(), "{:?}", suc);

    let suc = command.call(("Hello", 10), "/test f\\r minecraft:chicken.");
    assert!(suc.is_ok(), "{:?}", suc);

    let suc = command.call(("Hello", 10), "/test f\\r f\\r");
    assert!(suc.is_ok(), "{:?}", suc);

    let err = command.call(("Hello", 10), "/test f\\r f\\r minecraft:chicken");
    assert!(err.is_err(), "{:?}", err);

    let err = command.call(("Hello", 10), "/test f\\r f\\r f\\r");
    assert!(err.is_err(), "{:?}", err);
}

struct OneOptChoice;

impl Func<(Option<(String,)>,)> for OneOptChoice {
    type Output = Const42;

    fn call(&self, args: (Option<(String,)>,)) -> Const42 {
        let x = &args.0;
        println!("{:?}", x);
        Const42
    }
}

#[test]
fn optional() {
    let choices: Vec<String> = vec!["e".into(), "f\\r".into(), "minecraft:chicken.".into()];
    let command = literal("/test").opt_space().opt_choice(choices).on_call(OneOptChoice);

    let suc = command.call(("Hello", 10), "/test f\\r");
    assert!(suc.is_ok(), "{:?}", suc);

    let suc = command.call(("Hello", 10), "/test");
    assert!(suc.is_ok(), "{:?}", suc);

    let suc = command.call(("Hello", 10), "/test e");
    assert!(suc.is_ok(), "{:?}", suc);

    let suc = command.call(("Hello", 10), "/test ");
    assert!(suc.is_ok(), "{:?}", suc);

    let err = command.call(("Hello", 10), "/test f\\r\\r");
    assert!(err.is_err(), "{:?}", err);
}

struct TwoOptChoices;

impl Func<(Option<(String,)>, Option<(String,)>)> for TwoOptChoices {
    type Output = Const42;

    fn call(&self, args: (Option<(String,)>, Option<(String,)>)) -> Const42 {
        println!("{:?}", args.0);
        println!("{:?}", args.1);
        Const42
    }
}

#[test]
fn multiple_optional() {
    let choices: Vec<String> = vec!["e".into(), "f\\r".into(), "minecraft:chicken.".into()];
    let command = literal("/test")
        .opt_space()
        .opt_choice(choices.clone())
        .opt_space()
        .opt_choice(choices)
        .on_call(TwoOptChoices);

    let suc = command.call(("Hello", 10), "/test f\\r e");
    assert!(suc.is_ok(), "{:?}", suc);

    let suc = command.call(("Hello", 10), "/test f\\r minecraft:chicken.");
    assert!(suc.is_ok(), "{:?}", suc);

    let suc = command.call(("Hello", 10), "/test f\\r");
    assert!(suc.is_ok(), "{:?}", suc);

    let suc = command.call(("Hello", 10), "/test f\\r ");
    assert!(suc.is_ok(), "{:?}", suc);

    let suc = command.call(("Hello", 10), "/test ");
    assert!(suc.is_ok(), "{:?}", suc);

    let suc = command.call(("Hello", 10), "/test");
    assert!(suc.is_ok(), "{:?}", suc);

    let err = command.call(("Hello", 10), "/test f\\r fä\\r");
    assert!(err.is_err(), "{:?}", err);

    let err = command.call(("Hello", 10), "/test f\\r f\\r f\\r");
    assert!(err.is_err(), "{:?}", err);

    let err = command.call(("Hello", 10), "/test fä\\r f\\r");
    assert!(err.is_err(), "{:?}", err);
}
