//! The closed-set argument leaf: accepts the longest member of a fixed set
//! of strings that either is the whole input or is followed by a space.

use vstd::prelude::*;
use vstd::string::StrSliceExecFns;
use vstd::string::StringExecFns;

use crate::error::ParseError;
use crate::parser::IterParser;
use crate::parser::SpecParsed;
use crate::parser::escaped_regex;
use crate::parser::escape_regex;
use crate::scan;

verus! {

pub struct ChoiceParser {
    choices: Vec<String>,
}

impl View for ChoiceParser {
    type V = Seq<String>;

    closed spec fn view(&self) -> Seq<String> {
        self.choices@
    }
}

/// Whether the choice `c` matches at the head of `input`: it is all of
/// `input`, or is immediately followed by a space.
pub open spec fn choice_match(c: Seq<char>, input: Seq<char>) -> bool {
    ||| input == c
    ||| (input.len() > c.len() && input.subrange(0, c.len() as int) == c && input[c.len() as int]
        == ' ')
}

/// The best (longest; first among equals) matching choice among the first
/// `i` members, as an index.
pub open spec fn best_choice_upto(cs: Seq<Seq<char>>, input: Seq<char>, i: int) -> Option<int>
    decreases i,
{
    if i <= 0 {
        None
    } else {
        let b = best_choice_upto(cs, input, i - 1);
        if choice_match(cs[i - 1], input) && (match b {
            Some(k) => cs[i - 1].len() > cs[k].len(),
            None => true,
        }) {
            Some(i - 1)
        } else {
            b
        }
    }
}

/// The views of the members of a choice set.
pub open spec fn choice_views(cs: Seq<String>) -> Seq<Seq<char>> {
    cs.map(|i: int, c: String| c@)
}

/// The regular expression of a choice set: the escaped members joined by
/// `|`, in parentheses.
pub open spec fn choices_regex(cs: Seq<Seq<char>>) -> Seq<char>
    decreases cs.len(),
{
    if cs.len() == 0 {
        seq!['(', ')']
    } else if cs.len() == 1 {
        seq!['('] + escaped_regex(cs[0]) + seq![')']
    } else {
        let prior = choices_regex(cs.subrange(0, cs.len() - 1));
        prior.subrange(0, prior.len() - 1) + seq!['|'] + escaped_regex(cs[cs.len() - 1]) + seq![
            ')',
        ]
    }
}

/// The fold `best_choice_upto` picks a longest matching choice: whenever
/// any member of the set matches, the chosen one matches and is at least as
/// long.
pub proof fn lemma_best_choice_longest(cs: Seq<Seq<char>>, input: Seq<char>, i: int)
    requires
        0 <= i <= cs.len(),
    ensures
        match best_choice_upto(cs, input, i) {
            Some(k) => 0 <= k < i && choice_match(cs[k], input),
            None => true,
        },
        forall|j: int|
            0 <= j < i && choice_match(#[trigger] cs[j], input) ==> match best_choice_upto(
                cs,
                input,
                i,
            ) {
                Some(k) => 0 <= k < i && choice_match(cs[k], input) && cs[k].len() >= cs[j].len(),
                None => false,
            },
    decreases i,
{
    if i > 0 {
        lemma_best_choice_longest(cs, input, i - 1);
        assert forall|j: int|
            0 <= j < i && choice_match(#[trigger] cs[j], input) implies match best_choice_upto(
            cs,
            input,
            i,
        ) {
            Some(k) => 0 <= k < i && choice_match(cs[k], input) && cs[k].len() >= cs[j].len(),
            None => false,
        } by {
            let b = best_choice_upto(cs, input, i - 1);
            if choice_match(cs[i - 1], input) && (match b {
                Some(k) => cs[i - 1].len() > cs[k].len(),
                None => true,
            }) {
                assert(best_choice_upto(cs, input, i) == Some(i - 1));
                if j < i - 1 {
                    assert(match b {
                        Some(k) => 0 <= k < i - 1 && choice_match(cs[k], input) && cs[k].len()
                            >= cs[j].len(),
                        None => false,
                    });
                }
            } else {
                assert(best_choice_upto(cs, input, i) == b);
                if j == i - 1 {
                    assert(match b {
                        Some(k) => cs[i - 1].len() <= cs[k].len(),
                        None => false,
                    });
                } else {
                    assert(match b {
                        Some(k) => 0 <= k < i - 1 && choice_match(cs[k], input) && cs[k].len()
                            >= cs[j].len(),
                        None => false,
                    });
                }
            }
        }
    }
}

impl ChoiceParser {
    pub fn new(choices: Vec<String>) -> (r: ChoiceParser)
        ensures
            r@ == choices@,
    {
        ChoiceParser { choices }
    }
}

impl IterParser for ChoiceParser {
    type Extract = (String,);

    type ParserState = ();

    open spec fn spec_parse(&self, state: (), input: Seq<char>) -> SpecParsed<(Seq<char>,), ()> {
        let cs = choice_views(self@);
        match best_choice_upto(cs, input, cs.len() as int) {
            Some(j) => (
                Ok(((cs[j],), input.subrange(cs[j].len() as int, input.len() as int))),
                None,
            ),
            None => (Err(ParseError::UnknownChoice), None),
        }
    }

    open spec fn spec_initial(&self) -> () {
        ()
    }

    open spec fn spec_regex(&self) -> Seq<char> {
        choices_regex(choice_views(self@))
    }

    fn parse<'p>(&self, state: (), input: &'p str) -> (r: (Result<
        ((String,), &'p str),
        ParseError,
    >, Option<()>)) {
        let ghost cs = choice_views(self@);
        let ilen = input.unicode_len();
        let n = self.choices.len();
        let mut best: Option<usize> = None;
        let mut i: usize = 0;
        while i < n
            invariant
                0 <= i <= n,
                n == self@.len(),
                cs == choice_views(self@),
                ilen == input@.len(),
                match best {
                    Some(k) => 0 <= k < i && best_choice_upto(cs, input@, i as int) == Some(
                        k as int,
                    ) && choice_match(cs[k as int], input@),
                    None => best_choice_upto(cs, input@, i as int) is None,
                },
            decreases n - i,
        {
            let c = &self.choices[i];
            let clen = c.as_str().unicode_len();
            let matched: bool = if ilen == clen {
                scan::str_eq(input, c.as_str())
            } else if ilen > clen {
                scan::str_starts_with(input, c.as_str()) && input.get_char(clen) == ' '
            } else {
                false
            };
            assert(matched == choice_match(cs[i as int], input@));
            let better: bool = if matched {
                match best {
                    Some(k) => {
                        let blen = self.choices[k].as_str().unicode_len();
                        clen > blen
                    },
                    None => true,
                }
            } else {
                false
            };
            if better {
                best = Some(i);
            }
            i += 1;
        }
        match best {
            Some(k) => {
                let c = &self.choices[k];
                let clen = c.as_str().unicode_len();
                assert(cs[k as int] == c@);
                assert(clen <= ilen);
                let rest = input.substring_char(clen, ilen);
                (Ok(((c.clone(),), rest)), None)
            },
            None => (Err(ParseError::UnknownChoice), None),
        }
    }

    fn initial_state(&self) -> (s: ()) {
        ()
    }

    fn regex(&self) -> (r: String) {
        let n = self.choices.len();
        let mut s = String::from_str("(");
        proof {
            reveal_strlit("(");
        }
        let mut i: usize = 0;
        while i < n
            invariant
                0 <= i <= n,
                n == self@.len(),
                i == 0 ==> s@ == seq!['('],
                i > 0 ==> s@ + seq![')'] == choices_regex(
                    choice_views(self@).subrange(0, i as int),
                ),
            decreases n - i,
        {
            let ghost s0 = s@;
            if i > 0 {
                s.append("|");
                proof {
                    reveal_strlit("|");
                }
            }
            let esc = escape_regex(self.choices[i].as_str());
            s.append(esc.as_str());
            proof {
                let cs = choice_views(self@);
                assert(cs.subrange(0, i + 1).subrange(0, i as int) =~= cs.subrange(0, i as int));
                assert(cs.subrange(0, i + 1)[i as int] == self@[i as int]@);
                if i == 0 {
                    assert(s@ + seq![')'] =~= choices_regex(cs.subrange(0, 1)));
                } else {
                    let prior = choices_regex(cs.subrange(0, i as int));
                    assert(prior.subrange(0, prior.len() - 1) =~= s0);
                    assert(s@ + seq![')'] =~= choices_regex(cs.subrange(0, i + 1)));
                }
            }
            i += 1;
        }
        s.append(")");
        proof {
            reveal_strlit(")");
            let cs = choice_views(self@);
            if n == 0 {
                assert(s@ =~= choices_regex(cs));
            } else {
                assert(cs.subrange(0, n as int) =~= cs);
                assert(s@ =~= choices_regex(cs));
            }
        }
        s
    }
}

} // verus!
