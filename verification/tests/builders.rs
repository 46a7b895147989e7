use chat_command::command::builder::{literal, CommandBuilder};
use chat_command::command::{Command, CommandSpec};
use chat_command::generic::Func;
use chat_command::parser::IterParser;

#[test]
fn escape_literal() {
    let lit = literal("/echo").value;
    println!("lit:{:?}", lit);
}

struct PrintTwo;

impl Func<(&str, usize)> for PrintTwo {
    type Output = ();

    fn call(&self, args: (&str, usize)) -> () {
        let (s, u) = args;
        println!("{s}, {u}");
    }
}

struct ArgsStage1;

impl Func<(u32, u32)> for ArgsStage1 {
    type Output = PrintTwo;

    fn call(&self, args: (u32, u32)) -> PrintTwo {
        let (x, y) = args;
        println!("multiple args with {x} {y}");
        PrintTwo
    }
}

#[test]
fn multiple_args() {
    let command = literal("/args").space().arg::<u32>().space().arg::<u32>().on_call(ArgsStage1);
    let suc = command.call(("Hello", 10), "/args 42 42");
    assert!(suc.is_ok(), "{:?}", suc);
    let suc = command.call(("Hello", 10), "/args 24 42");
    assert!(suc.is_ok(), "{:?}", suc);
    let fail = command.call(("Hello", 10), "/args abc 42");
    assert!(fail.is_err());
    let fail = command.call(("Hello", 10), "/args abc abc");
    assert!(fail.is_err());
    let fail = command.call(("Hello", 10), "/args 42 abc");
    assert!(fail.is_err());
    let fail = command.call(("Hello", 10), "/args 42");
    assert!(fail.is_err());
}

struct NoArgs;

impl Func<()> for NoArgs {
    type Output = PrintTwo;

    fn call(&self, _args: ()) -> PrintTwo {
        PrintTwo
    }
}

#[test]
fn multiple_literals() {
    let command = literal("/lit").space().literal("literal").on_call(NoArgs);
    let suc = command.call(("Hello", 10), "/lit literal");
    let fail = command.call(("Hello", 10), "/lit fail");
    let much = command.call(("Hello", 10), "/lit literal another");
    assert!(suc.is_ok());
    assert!(fail.is_err());
    assert!(much.is_err());
}

#[test]
fn multiple_duplicate_literals() {
    let command = literal("/lit").space().literal("lit").on_call(NoArgs);
    let suc = command.call(("Hello", 10), "/lit lit");
    let fail = command.call(("Hello", 10), "/lit notlit");
    let much = command.call(("Hello", 10), "/lit lit lit");
    assert!(suc.is_ok());
    assert!(fail.is_err());
    assert!(much.is_err());
}

struct WithArg;

impl Func<(u32,)> for WithArg {
    type Output = PrintTwo;

    fn call(&self, args: (u32,)) -> PrintTwo {
        let arg = args.0;
        println!("Multiple literals with args {arg}");
        PrintTwo
    }
}

#[test]
fn multiple_literals_with_args() {
    let command = literal("/lit").space().arg::<u32>().space().literal("literal").on_call(WithArg);

    let suc = command.call(("Hello", 10), "/lit 42 literal");
    assert!(suc.is_ok());
    let fail = command.call(("Hello", 10), "/lit literal");
    assert!(fail.is_err());
    let fail = command.call(("Hello", 10), "/lit literal 42");
    assert!(fail.is_err());
    let fail = command.call(("Hello", 10), "/lit 42");
    assert!(fail.is_err());
    let fail = command.call(("Hello", 10), "/lit literal");
    assert!(fail.is_err());
    let fail = command.call(("Hello", 10), "/lit 42 lit");
    assert!(fail.is_err());
}

struct CaseStage2 {
    arg: u32,
}

impl Func<(&mut usize, &mut usize)> for CaseStage2 {
    type Output = usize;

    fn call(&self, _args: (&mut usize, &mut usize)) -> usize {
        self.arg as usize
    }
}

struct CaseStage1;

impl Func<(u32,)> for CaseStage1 {
    type Output = CaseStage2;

    fn call(&self, args: (u32,)) -> CaseStage2 {
        CaseStage2 { arg: args.0 }
    }
}

#[test]
fn case() {
    let cmd: CommandSpec<(&mut usize, &mut usize), usize, _, _, _> =
        literal("/echo").space().arg::<u32>().on_call(CaseStage1);

    let mut x: usize = 10;
    let mut y: usize = 100;
    assert!(cmd.call((&mut x, &mut y), "/echo 10").is_ok());
    println!("{:?}", cmd.call((&mut x, &mut y), "/echo 10 "));
}

#[test]
fn and_regex_concatenates() {
    let a = literal("/a");
    let b = literal("/a").space();
    let prefix = a.regex();
    let with_space = b.regex();
    assert_eq!(with_space, format!("{}{}", prefix, "\\s+"));
}
