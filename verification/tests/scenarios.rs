use chat_command::command::builder::{literal, CommandBuilder};
use chat_command::command::Command;
use chat_command::error::ParseError;
use chat_command::generic::Func;
use chat_command::parser::IterParser;
use chat_command::regex::{regex_to_nfa, we_support_regex, EarlyTermination, StateId, DFA, NFA};

struct ConstOk;

impl<G> Func<G> for ConstOk {
    type Output = i32;

    fn call(&self, _args: G) -> i32 {
        42
    }
}

struct BoolIgnored;

impl Func<(bool,)> for BoolIgnored {
    type Output = ConstOk;

    fn call(&self, _args: (bool,)) -> ConstOk {
        ConstOk
    }
}

#[test]
fn bool_scenario_error_kinds() {
    let command = literal("/lit").space().arg::<bool>().on_call(BoolIgnored);

    assert!(command.call((), "/lit true").is_ok());
    assert!(command.call((), "/lit false").is_ok());

    let err = command.call((), "/lit tru").unwrap_err();
    assert!(matches!(err, ParseError::NoMatch(inner) if matches!(*inner, ParseError::BadToken)));

    let err = command.call((), "/lit 1234").unwrap_err();
    assert!(matches!(err, ParseError::NoMatch(inner) if matches!(*inner, ParseError::BadToken)));

    let err = command.call((), "/lit").unwrap_err();
    assert!(matches!(err, ParseError::NoMatch(inner) if matches!(*inner, ParseError::EmptyInput)));
}

struct ReturnTriple;

impl Func<(u32, bool, String)> for ReturnTriple {
    type Output = TripleResult;

    fn call(&self, args: (u32, bool, String)) -> TripleResult {
        TripleResult { v: args }
    }
}

struct TripleResult {
    v: (u32, bool, String),
}

impl Func<()> for TripleResult {
    type Output = (u32, bool, String);

    fn call(&self, _args: ()) -> (u32, bool, String) {
        self.v.clone()
    }
}

#[test]
fn triple_extraction_values() {
    let command = literal("/test")
        .space()
        .arg::<u32>()
        .space()
        .arg::<bool>()
        .space()
        .arg::<String>()
        .on_call(ReturnTriple);

    let got = command.call((), "/test 123 false test").unwrap();
    assert_eq!(got, (123, false, String::from("test")));

    assert!(command.call((), "/test 1234 test true").is_err());
}

#[test]
fn choice_scenario() {
    struct ChoiceIgnored;

    impl Func<(String,)> for ChoiceIgnored {
        type Output = ConstOk;

        fn call(&self, _args: (String,)) -> ConstOk {
            ConstOk
        }
    }

    let choices: Vec<String> = vec!["e".into(), "f\\r".into(), "minecraft:chicken".into()];
    let command = literal("/test").space().choice(choices).on_call(ChoiceIgnored);

    assert!(command.call((), "/test minecraft:chicken").is_ok());

    let err = command.call((), "/test g").unwrap_err();
    assert!(
        matches!(err, ParseError::NoMatch(inner) if matches!(*inner, ParseError::UnknownChoice))
    );

    assert!(command.call((), "/test f\\r\\r").is_err());
}

struct ReturnOpts;

impl Func<(Option<(u32,)>, Option<(String,)>)> for ReturnOpts {
    type Output = OptsResult;

    fn call(&self, args: (Option<(u32,)>, Option<(String,)>)) -> OptsResult {
        OptsResult { v: (args.0, args.1.clone()) }
    }
}

struct OptsResult {
    v: (Option<(u32,)>, Option<(String,)>),
}

impl Func<()> for OptsResult {
    type Output = (Option<(u32,)>, Option<(String,)>);

    fn call(&self, _args: ()) -> (Option<(u32,)>, Option<(String,)>) {
        self.v.clone()
    }
}

#[test]
fn optional_extraction_values() {
    let command = literal("/test")
        .opt_space()
        .opt_arg::<u32>()
        .opt_space()
        .opt_arg::<String>()
        .on_call(ReturnOpts);

    assert_eq!(command.call((), "/test").unwrap(), (None, None));
    assert_eq!(command.call((), "/test 3").unwrap(), (Some((3,)), None));
    assert_eq!(command.call((), "/test abc").unwrap(), (None, Some((String::from("abc"),))));
    assert!(command.call((), "/test abc def").is_err());
}

struct ReturnWildcard;

impl Func<(chat_command::argument::StringWildcard,)> for ReturnWildcard {
    type Output = WildcardResult;

    fn call(&self, args: (chat_command::argument::StringWildcard,)) -> WildcardResult {
        WildcardResult { v: String::from(args.0.get()) }
    }
}

struct WildcardResult {
    v: String,
}

impl Func<()> for WildcardResult {
    type Output = String;

    fn call(&self, _args: ()) -> String {
        self.v.clone()
    }
}

#[test]
fn wildcard_scenario() {
    let command = literal("/test")
        .space()
        .arg::<chat_command::argument::StringWildcard>()
        .on_call(ReturnWildcard);

    assert_eq!(command.call((), "/test täst test test").unwrap(), "täst test test");

    let err = command.call((), "/test ").unwrap_err();
    assert!(matches!(err, ParseError::NoMatch(inner) if matches!(*inner, ParseError::EmptyInput)));
}

#[test]
fn tagged_dispatch() {
    let mut na = regex_to_nfa::<usize>("/a").unwrap();
    let end = na.accept_state().unwrap();
    na.associate(end, 1);

    let mut nb = regex_to_nfa::<usize>("/b").unwrap();
    let end = nb.accept_state().unwrap();
    nb.associate(end, 2);

    let mut nc = regex_to_nfa::<usize>("/abc").unwrap();
    let end = nc.accept_state().unwrap();
    nc.associate(end, 3);

    let merged = na.or(nb).unwrap().or(nc).unwrap();
    let dfa: DFA<usize> = merged.to_dfa();

    let hit = dfa.find("/abc").unwrap();
    let assoc = dfa.associations(hit);
    assert!(assoc.contains(&3));
    assert!(!assoc.contains(&1));
    assert!(!assoc.contains(&2));
    assert!(dfa.state(hit).is_associated_with(&3));
    assert!(!dfa.state(hit).is_associated_with(&1));

    let miss = dfa.find("/ab");
    assert!(miss.is_err());
    assert!(dfa.find("/a").is_ok());
    let a_hit = dfa.find("/a").unwrap();
    assert!(dfa.associations(a_hit).contains(&1));
}

#[test]
fn shared_tag_is_carried_once() {
    // Two alternatives carrying the same tag collapse into one DFA state;
    // the union keeps a single copy of the tag.
    let mut na = regex_to_nfa::<usize>("/a").unwrap();
    let end = na.accept_state().unwrap();
    na.associate(end, 7);

    let mut nb = regex_to_nfa::<usize>("/a").unwrap();
    let end = nb.accept_state().unwrap();
    nb.associate(end, 7);

    let merged = na.or(nb).unwrap();
    let dfa: DFA<usize> = merged.to_dfa();
    let hit = dfa.find("/a").unwrap();
    assert_eq!(dfa.associations(hit), &vec![7]);
}

struct ReturnU32;

impl Func<(u32,)> for ReturnU32 {
    type Output = U32Result;

    fn call(&self, args: (u32,)) -> U32Result {
        U32Result { v: args.0 }
    }
}

struct U32Result {
    v: u32,
}

impl Func<()> for U32Result {
    type Output = u32;

    fn call(&self, _args: ()) -> u32 {
        self.v
    }
}

#[test]
fn u32_exact_values() {
    let command = literal("/num").space().arg::<u32>().on_call(ReturnU32);

    assert_eq!(command.call((), "/num 4294967295").unwrap(), 4294967295);
    assert_eq!(command.call((), "/num +12").unwrap(), 12);
    assert_eq!(command.call((), "/num 0").unwrap(), 0);
    assert!(command.call((), "/num 4294967296").is_err());
    assert!(command.call((), "/num -1").is_err());
}

#[test]
fn regexes_are_escaped() {
    assert_eq!(literal("a.b").regex(), "a\\.b");
    assert_eq!(literal("(x)*").regex(), "\\(x\\)\\*");
    let choice = chat_command::argument::ChoiceParser::new(vec![String::from("a.b"), String::from(
        "c",
    )]);
    assert_eq!(choice.regex(), "(a\\.b|c)");
}

#[test]
fn unsupported_regex_reports_its_kind() {
    let r = regex_to_nfa::<u32>("a{2}");
    assert!(matches!(r, Err(ParseError::RegexUnsupported)));
}

#[test]
fn supported_regex_subset() {
    assert!(we_support_regex("(true|false)"));
    assert!(we_support_regex("[\\+|-]?\\d+"));
    assert!(we_support_regex("[+-]?([0-9]*[.])?[0-9]+"));
    assert!(we_support_regex("\\s+"));
    assert!(we_support_regex(".*"));
    assert!(!we_support_regex("a{2}"));
    assert!(!we_support_regex("^a"));
    assert!(!we_support_regex("[^a]"));
    assert!(!we_support_regex("(a"));
}

#[test]
fn byte_class_pool_is_shared() {
    let nfa = NFA::<usize>::literal("aaaa");
    let dfa = nfa.to_dfa();
    assert_eq!(dfa.number_of_states(), 5);
    // Two distinct byte classes in the pool: "a moves, everything else
    // dies" (shared by four states) and "everything dies".
    assert_eq!(dfa.rough_size_bytes(), 512);

    let empty = NFA::<usize>::literal("");
    let one = empty.to_dfa();
    assert_eq!(one.number_of_states(), 1);
    assert_eq!(one.rough_size_bytes(), 256);
}

#[test]
fn early_termination_walk() {
    let nfa = regex_to_nfa::<usize>("/ab").unwrap();
    let dfa = nfa.to_dfa();
    let mut walk = EarlyTermination::new(&dfa);
    assert!(!walk.is_accepting());
    assert!(walk.can_continue());
    assert!(walk.step(b'/'));
    assert!(walk.step(b'a'));
    assert!(!walk.is_accepting());
    assert!(walk.can_continue());
    assert!(walk.step(b'b'));
    assert!(walk.is_accepting());
    assert!(!walk.can_continue());
    assert!(walk.associations().is_some());
    assert!(!walk.step(b'x'));
    assert!(!walk.is_accepting());
    assert!(walk.associations().is_none());
}

#[test]
fn dedup_and_push_end() {
    let mut dfa = DFA::<usize>::new();
    dfa.push_end(StateId::of(0));
    dfa.push_end(StateId::of(0));
    dfa.push_end(StateId::of(1));
    dfa.dedup_ends();
    // Still an empty DFA: no states were ever created.
    assert_eq!(dfa.number_of_states(), 0);
    assert!(dfa.find("").is_err());
}

#[test]
fn trailing_input_is_rejected() {
    struct U32Ignored;

    impl Func<(u32,)> for U32Ignored {
        type Output = ConstOk;

        fn call(&self, _args: (u32,)) -> ConstOk {
            ConstOk
        }
    }

    let command = literal("/echo").space().arg::<u32>().on_call(U32Ignored);
    assert!(command.call((), "/echo 10").is_ok());
    assert!(command.call((), "/echo 10 ").is_ok());
    let err = command.call((), "/echo 10 x").unwrap_err();
    assert!(
        matches!(err, ParseError::NoMatch(inner) if matches!(*inner, ParseError::TrailingInput))
    );

    struct FloatIgnored;

    impl Func<(chat_command::argument::FloatToken,)> for FloatIgnored {
        type Output = ConstOk;

        fn call(&self, _args: (chat_command::argument::FloatToken,)) -> ConstOk {
            ConstOk
        }
    }

    // The float leaf itself accepts "123.", but the grammar's regex does
    // not cover it, so the dispatcher reports trailing input.
    let fcmd = literal("/f").space().arg::<chat_command::argument::FloatToken>().on_call(
        FloatIgnored,
    );
    assert!(fcmd.call((), "/f 1.5").is_ok());
    let err = fcmd.call((), "/f 123.").unwrap_err();
    assert!(matches!(err, ParseError::TrailingInput));
}
