use chat_command::command::builder::{literal, CommandBuilder};
use chat_command::command::Command;
use chat_command::generic::Func;

struct SimpleStage2 {
    x: u32,
}

impl Func<(i32, &str)> for SimpleStage2 {
    type Output = i32;

    fn call(&self, args: (i32, &str)) -> i32 {
        let (game_state, _foo) = args;
        let x = self.x;
        println!("hi {} the gamestate was {}", x, game_state);
        42
    }
}

struct SimpleStage1;

impl Func<(u32,)> for SimpleStage1 {
    type Output = SimpleStage2;

    fn call(&self, args: (u32,)) -> SimpleStage2 {
        SimpleStage2 { x: args.0 }
    }
}

#[test]
fn lib_simple() {
    let command = literal("/").space().arg::<u32>();
    let x = command.on_call(SimpleStage1);

    let r = x.call((0, "test"), "/ 100 ").unwrap();
    assert!(r == 42);
}

struct Const42;

impl<G> Func<G> for Const42 {
    type Output = i32;

    fn call(&self, _args: G) -> i32 {
        42
    }
}

struct OneOpt;

impl Func<(Option<(u32,)>,)> for OneOpt {
    type Output = Const42;

    fn call(&self, _args: (Option<(u32,)>,)) -> Const42 {
        Const42
    }
}

#[test]
fn one_optional_argument() {
    let command = literal("/test").opt_space().opt_arg::<u32>();
    let x = command.on_call(OneOpt);

    let suc = x.call((0, "test"), "/test 3");
    assert!(suc.is_ok(), "{:?}", suc);

    let suc = x.call((0, "test"), "/test");
    assert!(suc.is_ok(), "{:?}", suc);

    let err = x.call((0, "test"), "/test abc");
    assert!(err.is_err());
}

struct TwoOpts;

impl Func<(Option<(u32,)>, Option<(String,)>)> for TwoOpts {
    type Output = Const42;

    fn call(&self, _args: (Option<(u32,)>, Option<(String,)>)) -> Const42 {
        Const42
    }
}

#[test]
fn multiple_optional_argument() {
    let command = literal("/test").opt_space().opt_arg::<u32>().opt_space().opt_arg::<String>();
    let x = command.on_call(TwoOpts);

    x.call((0, "test"), "/test 3").expect("This should only fill the first optional argument");
    x.call((0, "test"), "/test").expect("This should fill no optional arguments");
    x.call((0, "test"), "/test abc").expect("This should fill the second optional argument");
    assert!(x.call((0, "test"), "/test abc def").is_err());
}
