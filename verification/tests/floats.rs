use chat_command::argument::FloatToken;
use chat_command::command::builder::{literal, CommandBuilder};
use chat_command::command::Command;
use chat_command::generic::Func;

struct PrintFloat;

impl Func<(f32, bool)> for PrintFloat {
    type Output = ();

    fn call(&self, _args: (f32, bool)) -> () {
        ()
    }
}

struct FloatStage1;

impl Func<(FloatToken,)> for FloatStage1 {
    type Output = PrintFloat;

    fn call(&self, args: (FloatToken,)) -> PrintFloat {
        let f = args.0;
        println!("Matching f32 {}", f.get());
        assert!(f.get().parse::<f32>().is_ok());
        PrintFloat
    }
}

#[test]
fn test_f32() {
    let command = literal("/test").space().arg::<FloatToken>().on_call(FloatStage1);

    let suc = command.call((123f32, true), "/test 123");
    assert!(suc.is_ok(), "{}", "Expected success");
    let suc = command.call((0.123f32, true), "/test .123");
    assert!(suc.is_ok(), "{}", "Expected success");
    let suc = command.call((0.123f32, true), "/test 0.123");
    assert!(suc.is_ok(), "{}", "Expected success");
    let fail = command.call((0.123f32, false), "/test a.123");
    assert!(fail.is_err());
    let fail = command.call((0.123f32, false), "/test .");
    assert!(fail.is_err());
    let fail = command.call((0.123f32, false), "/test 123.");
    assert!(fail.is_err());
    let fail = command.call((0.123f32, false), "/test 123.123.");
    assert!(fail.is_err());
    let fail = command.call((0.123f32, false), "/test 123.123.123");
    assert!(fail.is_err());
    let fail = command.call((0.123f32, false), "/test abc");
    assert!(fail.is_err());
    let fail = command.call((0.123f32, false), "/test .a");
    assert!(fail.is_err());
    let fail = command.call((0.123f32, false), "/test a.b");
    assert!(fail.is_err());
    let fail = command.call((0.123f32, false), "/test a..b");
    assert!(fail.is_err());
    let fail = command.call((0.123f32, false), "/test ..b");
    assert!(fail.is_err());
    let fail = command.call((0.123f32, false), "/test a..");
    assert!(fail.is_err());
    let fail = command.call((0.123f32, false), "/test ..");
    assert!(fail.is_err());
}
