use chat_command::regex::{DFA, NFA};

#[test]
fn empty() {
    let empty = DFA::<usize>::new();
    let x = empty.find("");
    assert!(x.is_err());
    assert!(x.unwrap_err().is_none());
}

#[test]
fn literal() {
    let nfa = NFA::<usize>::literal("hello");
    let dfa: DFA<usize> = nfa.to_dfa();
    assert!(dfa.find("hello").is_ok());
    assert!(dfa.find("ello").is_err());
    assert!(dfa.find("hhello").is_err());
    assert!(dfa.find("helloo").is_err());
    assert!(dfa.find("helo").is_err());
    assert!(dfa.find("hxllo").is_err());
    assert!(dfa.find("hell").is_err());
    assert!(dfa.find("helln").is_err());
}

#[test]
fn empty_literal() {
    let nfa = NFA::<usize>::literal("");
    let dfa: DFA<usize> = nfa.to_dfa();
    assert!(dfa.find("").is_ok());
    assert!(dfa.find(" ").is_err());
}

#[test]
fn simple_or() {
    let nfa = NFA::<usize>::literal("a");
    let nfb = NFA::<usize>::literal("b");

    let dfa: DFA<usize> = nfa.or(nfb).unwrap().to_dfa();

    assert!(dfa.find("a").is_ok());
    assert!(dfa.find("b").is_ok());
    assert!(dfa.find("c").is_err());
    assert!(dfa.find("").is_err());
}

#[test]
fn simple_or_eq() {
    let nfa = NFA::<usize>::literal("a");
    let nfb = NFA::<usize>::literal("a");

    let dfa: DFA<usize> = nfa.or(nfb).unwrap().to_dfa();

    assert!(dfa.find("a").is_ok());
    assert!(dfa.find("b").is_err());
    assert!(dfa.find("").is_err());
}

#[test]
fn simple_or_empty() {
    let nfa = NFA::<usize>::literal("a");
    let nfb = NFA::<usize>::literal("");

    let dfa: DFA<usize> = nfa.or(nfb).unwrap().to_dfa();

    assert!(dfa.find("a").is_ok());
    assert!(dfa.find("b").is_err());
    assert!(dfa.find("").is_ok());
}

#[test]
fn empty_or_empty() {
    let nfa = NFA::<usize>::literal("");
    let nfb = NFA::<usize>::literal("");

    let dfa: DFA<usize> = nfa.or(nfb).unwrap().to_dfa();

    assert!(dfa.find("a").is_err());
    assert!(dfa.find("b").is_err());
    assert!(dfa.find("").is_ok());
}

#[test]
fn empty_or_simple() {
    let nfa = NFA::<usize>::literal("");
    let nfb = NFA::<usize>::literal("a");

    let dfa: DFA<usize> = nfa.or(nfb).unwrap().to_dfa();

    assert!(dfa.find("a").is_ok());
    assert!(dfa.find("b").is_err());
    assert!(dfa.find("").is_ok());
}
