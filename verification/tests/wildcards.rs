use chat_command::argument::StringWildcard;
use chat_command::command::builder::{literal, CommandBuilder};
use chat_command::command::Command;
use chat_command::generic::Func;

struct CheckWildcard {
    x: StringWildcard,
}

impl Func<(&str, i32)> for CheckWildcard {
    type Output = i32;

    fn call(&self, args: (&str, i32)) -> i32 {
        let (expected, _) = args;
        println!("{:?}", self.x);
        assert_eq!(expected, self.x.get());
        42
    }
}

struct OneWildcard;

impl Func<(StringWildcard,)> for OneWildcard {
    type Output = CheckWildcard;

    fn call(&self, args: (StringWildcard,)) -> CheckWildcard {
        CheckWildcard { x: args.0 }
    }
}

#[test]
fn string_wildcard_one_argument() {
    let command = literal("/test").space().arg::<StringWildcard>();
    let x = command.on_call(OneWildcard);

    let suc = x.call(("test", 1), "/test test");
    assert!(suc.is_ok(), "{:?}", suc);

    let suc = x.call(("täst test test", 1), "/test täst test test");
    assert!(suc.is_ok(), "{:?}", suc);

    let suc = x.call(("🍵 🫖", 1), "/test 🍵 🫖");
    assert!(suc.is_ok(), "{:?}", suc);

    let err = x.call(("", 1), "/test ");
    assert!(err.is_err(), "{:?}", err);

    let err = x.call(("", 1), "/test");
    assert!(err.is_err(), "{:?}", err);
}
