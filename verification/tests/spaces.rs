use chat_command::command::builder::{literal, CommandBuilder};
use chat_command::command::Command;
use chat_command::generic::Func;
use chat_command::parser::{IterParser, MaybeSpaces};

struct PrintOne;

impl Func<(i32,)> for PrintOne {
    type Output = i32;

    fn call(&self, _args: (i32,)) -> i32 {
        println!("Called");
        0
    }
}

struct NoExtract;

impl Func<()> for NoExtract {
    type Output = PrintOne;

    fn call(&self, _args: ()) -> PrintOne {
        PrintOne
    }
}

#[test]
fn test_end_of_string() {
    let input = "";
    let (out, _) = MaybeSpaces::new().parse((), input);

    assert!(out.is_ok());

    let input = " e";
    let (out, _) = MaybeSpaces::new().parse((), input);

    assert!(out.is_ok());
    assert!(
        !out.as_ref().expect("Expecting 'e'").1.is_empty(),
        "Remainder shouldn't be None for '{}', but is '{}'",
        input,
        out.unwrap().1
    );

    let command = literal("/test").space().literal("a");
    let on_call = command.on_call(NoExtract);

    let suc = on_call.call((1,), "/test a");
    assert!(suc.is_ok(), "Expected success, but got '{:?}'", suc);

    let err = on_call.call((1,), "/test a b");
    assert!(err.is_err(), "Expected error, but got '{:?}'", err);
}
