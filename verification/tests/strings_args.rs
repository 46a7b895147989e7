use chat_command::command::builder::{literal, CommandBuilder};
use chat_command::command::Command;
use chat_command::generic::Func;

struct CheckOne {
    x: String,
}

impl Func<(&str, bool)> for CheckOne {
    type Output = i32;

    fn call(&self, args: (&str, bool)) -> i32 {
        let (expected, should_match) = args;
        println!("{:?}", self.x);
        if should_match {
            assert_eq!(self.x, expected);
        }
        42
    }
}

struct OneString;

impl Func<(String,)> for OneString {
    type Output = CheckOne;

    fn call(&self, args: (String,)) -> CheckOne {
        CheckOne { x: args.0 }
    }
}

#[test]
fn strings_one_argument() {
    let command = literal("/test").space().arg::<String>();
    let x = command.on_call(OneString);

    let suc = x.call(("100", true), "/test 100 ");
    assert!(suc.is_ok(), "{:?}", suc);

    let suc = x.call(("ewqbe", true), "/test ewqbe");
    assert!(suc.is_ok(), "{:?}", suc);

    let err = x.call(("test", false), "/test te st");
    assert!(err.is_err());
}

struct CheckTwo {
    x: String,
    y: String,
}

impl Func<(&str, &str)> for CheckTwo {
    type Output = i32;

    fn call(&self, args: (&str, &str)) -> i32 {
        let (expected1, expected2) = args;
        assert_eq!(self.x, expected1);
        assert_eq!(self.y, expected2);
        42
    }
}

struct TwoStrings;

impl Func<(String, String)> for TwoStrings {
    type Output = CheckTwo;

    fn call(&self, args: (String, String)) -> CheckTwo {
        CheckTwo { x: args.0, y: args.1 }
    }
}

#[test]
fn more_arguments() {
    let command = literal("/test").space().arg::<String>().space().arg::<String>();
    let x = command.on_call(TwoStrings);

    let suc = x.call(("100", "e"), "/test 100 e");
    assert!(suc.is_ok(), "{:?}", suc);

    let suc = x.call(("ewqbe", "lalalallal312ä"), "/test ewqbe lalalallal312ä");
    assert!(suc.is_ok(), "{:?}", suc);

    let err = x.call(("test", ""), "/test test ");
    assert!(err.is_err());
}
