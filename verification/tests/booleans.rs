use chat_command::command::builder::{literal, CommandBuilder};
use chat_command::command::{Command, CommandSpec};
use chat_command::generic::Func;

struct BoolStage2;

impl Func<(&str, usize)> for BoolStage2 {
    type Output = ();

    fn call(&self, _args: (&str, usize)) -> () {
        ()
    }
}

struct BoolStage1;

impl Func<(bool,)> for BoolStage1 {
    type Output = BoolStage2;

    fn call(&self, args: (bool,)) -> BoolStage2 {
        let arg = args.0;
        println!("boolean argument {arg}");
        BoolStage2
    }
}

#[test]
fn test_boolean() {
    let command = literal("/lit").space().arg::<bool>().on_call(BoolStage1);

    let suc = command.call(("Hello", 10), "/lit false");
    assert!(suc.is_ok());
    let suc = command.call(("Hello", 10), "/lit true");
    assert!(suc.is_ok());
    let fail = command.call(("Hello", 10), "/lit 1234");
    assert!(fail.is_err());
    let fail = command.call(("Hello", 10), "/lit dings");
    assert!(fail.is_err());
    let fail = command.call(("Hello", 10), "/lit fals");
    assert!(fail.is_err());
    let fail = command.call(("Hello", 10), "/lit tru");
    assert!(fail.is_err());
}

struct MultiStage2 {
    b: bool,
}

impl Func<(&str, bool)> for MultiStage2 {
    type Output = bool;

    fn call(&self, args: (&str, bool)) -> bool {
        let (expected, should_match) = args;
        println!("Multiple arguments = {expected}/{should_match}");
        self.b
    }
}

struct MultiStage1;

impl Func<(u32, bool, String)> for MultiStage1 {
    type Output = MultiStage2;

    fn call(&self, args: (u32, bool, String)) -> MultiStage2 {
        MultiStage2 { b: args.1 }
    }
}

#[test]
fn bool_with_other_args() {
    let command: CommandSpec<(&str, bool), bool, _, _, _> = literal("/test")
        .space()
        .arg::<u32>()
        .space()
        .arg::<bool>()
        .space()
        .arg::<String>()
        .on_call(MultiStage1);

    let suc = command.call(("123 false test", true), "/test 123 false test");
    assert!(suc.is_ok() && suc.unwrap() == false);
    let suc = command.call(("1234 true test", true), "/test 1234 true test");
    assert!(suc.is_ok() && suc.unwrap() == true);
    let suc = command.call(("1234 true test", true), "/test 123 true test");
    assert!(suc.is_ok() && suc.unwrap() == true);
    let suc = command.call(("1234 false test", true), "/test 1234 false test");
    assert!(suc.is_ok() && suc.unwrap() == false);

    let fail = command.call(("1234 test true", false), "/test 1234 test true");
    assert!(fail.is_err());
    let fail = command.call(("test 1234 true", false), "/test test 1234 true");
    assert!(fail.is_err());
    let fail = command.call(("true 1234 test", false), "/test true 1234 test");
    assert!(fail.is_err());
    let fail = command.call(("true test 1234", false), "/test true test 1234");
    assert!(fail.is_err());
    let fail = command.call(("1234 test false", false), "/test 1234 test false");
    assert!(fail.is_err());
    let fail = command.call(("test 1234 false", false), "/test test 1234 false");
    assert!(fail.is_err());
    let fail = command.call(("false 1234 test", false), "/test false 1234 test");
    assert!(fail.is_err());
    let fail = command.call(("false test 1234", false), "/test false test 1234");
    assert!(fail.is_err());
}

struct SplitStage2;

impl Func<(&str, bool)> for SplitStage2 {
    type Output = ();

    fn call(&self, _args: (&str, bool)) -> () {
        ()
    }
}

struct SplitStage1;

impl Func<(bool,)> for SplitStage1 {
    type Output = SplitStage2;

    fn call(&self, args: (bool,)) -> SplitStage2 {
        let arg = args.0;
        println!("boolean argument {arg}");
        SplitStage2
    }
}

#[test]
fn bool_split() {
    let command = literal("/test").space().arg::<bool>().on_call(SplitStage1);

    let suc = command.call(("fa lse", false), "/lit fa lse");
    assert!(suc.is_err());
    let suc = command.call(("tr ue", false), "/lit tr ue");
    assert!(suc.is_err());
}
