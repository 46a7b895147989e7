//! The epsilon-closure NFA: a graph over byte labels and epsilon, with
//! association values on states.  `or` and `concat` consume their operands
//! and return a fresh automaton; state indices are dense.

use vstd::prelude::*;
use vstd::string::StrSliceExecFns;
use vstd::string::StringSliceAdditionalSpecFns;

use crate::error::ParseError;
use crate::regex::stateid::StateId;

verus! {

/// One NFA state: its epsilon successors, its byte-labelled edges, and the
/// values associated with it.
#[derive(Debug)]
pub struct NfaState<A> {
    pub(crate) epsilons: Vec<usize>,
    pub(crate) edges: Vec<(u8, usize)>,
    pub(crate) assoc: Vec<A>,
}

/// The mathematical content of one NFA state.
#[verifier::ext_equal]
pub ghost struct NfaStateView<A> {
    pub eps: Seq<usize>,
    pub edges: Seq<(u8, usize)>,
    pub assoc: Seq<A>,
}

/// The mathematical content of an NFA.
#[verifier::ext_equal]
pub ghost struct NfaView<A> {
    pub states: Seq<NfaStateView<A>>,
    pub start: usize,
    pub ends: Seq<usize>,
}

impl<A> View for NfaState<A> {
    type V = NfaStateView<A>;

    closed spec fn view(&self) -> NfaStateView<A> {
        NfaStateView { eps: self.epsilons@, edges: self.edges@, assoc: self.assoc@ }
    }
}

#[derive(Debug)]
pub struct NFA<A> {
    pub(crate) states: Vec<NfaState<A>>,
    pub(crate) start: usize,
    pub(crate) ends: Vec<usize>,
}

impl<A> View for NFA<A> {
    type V = NfaView<A>;

    closed spec fn view(&self) -> NfaView<A> {
        NfaView {
            states: self.states@.map(|i: int, st: NfaState<A>| st@),
            start: self.start,
            ends: self.ends@,
        }
    }
}

/// Every edge of `states` points below `n`.
pub open spec fn states_valid<A>(states: Seq<NfaStateView<A>>, n: int) -> bool {
    &&& forall|p: int, j: int|
        0 <= p < states.len() && 0 <= j < states[p].eps.len() ==> (#[trigger] states[p].eps[j]
            as int) < n
    &&& forall|p: int, j: int|
        0 <= p < states.len() && 0 <= j < states[p].edges.len() ==> ((#[trigger] states[p].edges[
            j
        ]).1 as int) < n
}

/// Every index of the automaton stays inside its state list.
pub open spec fn nfa_valid<A>(v: NfaView<A>) -> bool {
    &&& v.states.len() > 0
    &&& (v.start as int) < v.states.len()
    &&& forall|i: int| 0 <= i < v.ends.len() ==> (#[trigger] v.ends[i] as int) < v.states.len()
    &&& states_valid(v.states, v.states.len() as int)
}

impl<A> NFA<A> {
    /// Whether the automaton's indices are all in range.  Every constructor
    /// establishes this and every combinator preserves it.
    pub open spec fn wf(&self) -> bool {
        nfa_valid(self@)
    }
}

/// One step of epsilon saturation: `t` together with everything one epsilon
/// edge away from `t`.
pub open spec fn eps_pass<A>(v: NfaView<A>, t: Set<usize>) -> Set<usize> {
    Set::new(
        |q: usize|
            (q as int) < v.states.len() && (t.contains(q) || exists|p: usize, j: int|
                t.contains(p) && (p as int) < v.states.len() && 0 <= j < v.states[
                    p as int
                ].eps.len() && v.states[p as int].eps[j] == q),
    )
}

/// `k` rounds of epsilon saturation.
pub open spec fn eps_close_k<A>(v: NfaView<A>, t: Set<usize>, k: nat) -> Set<usize>
    decreases k,
{
    if k == 0 {
        t
    } else {
        eps_pass(v, eps_close_k(v, t, (k - 1) as nat))
    }
}

/// The epsilon closure of `t`: as many saturation rounds as the automaton
/// has states, which reaches every state an epsilon path reaches.
pub open spec fn eps_close<A>(v: NfaView<A>, t: Set<usize>) -> Set<usize> {
    eps_close_k(v, t, v.states.len() as nat)
}

/// The states one byte-labelled edge `b` away from `t`.
pub open spec fn byte_step<A>(v: NfaView<A>, t: Set<usize>, b: u8) -> Set<usize> {
    Set::new(
        |q: usize|
            (q as int) < v.states.len() && exists|p: usize, j: int|
                t.contains(p) && (p as int) < v.states.len() && 0 <= j < v.states[
                    p as int
                ].edges.len() && v.states[p as int].edges[j] == (b, q),
    )
}

/// The set of NFA states reachable from the start by consuming exactly the
/// bytes of `s` (with epsilon moves in between).
pub open spec fn nfa_reach<A>(v: NfaView<A>, s: Seq<u8>) -> Set<usize>
    decreases s.len(),
{
    if s.len() == 0 {
        eps_close(v, Set::empty().insert(v.start))
    } else {
        eps_close(v, byte_step(v, nfa_reach(v, s.drop_last()), s.last()))
    }
}

/// Whether the NFA accepts `s`: an accepting state is reachable on `s`.
pub open spec fn nfa_accepts<A>(v: NfaView<A>, s: Seq<u8>) -> bool {
    exists|q: usize| nfa_reach(v, s).contains(q) && v.ends.contains(q)
}

/// The states of `b`, with every index moved up by `off`.
pub open spec fn shift_states<A>(states: Seq<NfaStateView<A>>, off: usize) -> Seq<
    NfaStateView<A>,
> {
    states.map(
        |i: int, st: NfaStateView<A>|
            NfaStateView {
                eps: st.eps.map(|j: int, q: usize| (q + off) as usize),
                edges: st.edges.map(|j: int, e: (u8, usize)| (e.0, (e.1 + off) as usize)),
                assoc: st.assoc,
            },
    )
}

pub open spec fn shift_ends(ends: Seq<usize>, off: usize) -> Seq<usize> {
    ends.map(|i: int, q: usize| (q + off) as usize)
}

/// Adds an epsilon edge to `target` from each of the states listed in
/// `froms`, in order.
pub open spec fn add_eps_to<A>(
    states: Seq<NfaStateView<A>>,
    froms: Seq<usize>,
    target: usize,
) -> Seq<NfaStateView<A>>
    decreases froms.len(),
{
    if froms.len() == 0 {
        states
    } else {
        let e = froms[0] as int;
        let s1 = if 0 <= e < states.len() {
            states.update(
                e,
                NfaStateView {
                    eps: states[e].eps.push(target),
                    edges: states[e].edges,
                    assoc: states[e].assoc,
                },
            )
        } else {
            states
        };
        add_eps_to(s1, froms.subrange(1, froms.len() as int), target)
    }
}

/// The shape of `a.or(b)`: both automata side by side, a new start with
/// epsilon edges to both starts, and a new accepting state fed by both sets
/// of ends.
pub open spec fn or_view<A>(a: NfaView<A>, b: NfaView<A>) -> NfaView<A> {
    let off = a.states.len() as usize;
    let ns = (a.states.len() + b.states.len()) as usize;
    let ne = (a.states.len() + b.states.len() + 1) as usize;
    let base = a.states + shift_states(b.states, off) + seq![
        NfaStateView { eps: seq![a.start, (b.start + off) as usize], edges: Seq::empty(), assoc: Seq::empty() },
        NfaStateView { eps: Seq::empty(), edges: Seq::empty(), assoc: Seq::empty() },
    ];
    NfaView {
        states: add_eps_to(base, a.ends + shift_ends(b.ends, off), ne),
        start: ns,
        ends: seq![ne],
    }
}

/// The shape of `a.concat(b)`: both automata side by side, epsilon edges
/// from `a`'s ends to `b`'s start, accepting where `b` accepted.
pub open spec fn concat_view<A>(a: NfaView<A>, b: NfaView<A>) -> NfaView<A> {
    let off = a.states.len() as usize;
    NfaView {
        states: add_eps_to(a.states + shift_states(b.states, off), a.ends, (b.start + off) as usize),
        start: a.start,
        ends: shift_ends(b.ends, off),
    }
}

/// The shape of a repetition of `a`: a new start and a new accepting state
/// around `a`, a bypass edge if the repetition admits zero occurrences, and
/// a loop-back edge if it admits more than one.
pub open spec fn repeat_view<A>(a: NfaView<A>, zero_ok: bool, many_ok: bool) -> NfaView<A> {
    let ns = a.states.len() as usize;
    let ne = (a.states.len() + 1) as usize;
    let start_eps = if zero_ok {
        seq![a.start, ne]
    } else {
        seq![a.start]
    };
    let end_eps = if many_ok {
        seq![ns]
    } else {
        Seq::empty()
    };
    let base = a.states + seq![
        NfaStateView { eps: start_eps, edges: Seq::empty(), assoc: Seq::empty() },
        NfaStateView { eps: end_eps, edges: Seq::empty(), assoc: Seq::empty() },
    ];
    NfaView { states: add_eps_to(base, a.ends, ne), start: ns, ends: seq![ne] }
}

/// The shape of `NFA::literal(bytes)`: a line of byte edges ending in the
/// single accepting state.
pub open spec fn literal_view<A>(bytes: Seq<u8>) -> NfaView<A> {
    NfaView {
        states: Seq::new(
            bytes.len() + 1,
            |i: int|
                NfaStateView {
                    eps: Seq::empty(),
                    edges: if i < bytes.len() {
                        seq![(bytes[i], (i + 1) as usize)]
                    } else {
                        Seq::empty()
                    },
                    assoc: Seq::empty(),
                },
        ),
        start: 0,
        ends: seq![bytes.len() as usize],
    }
}

impl<A> NFA<A> {
    /// The automaton accepting exactly the empty string.
    pub fn empty() -> (r: NFA<A>)
        ensures
            r@ == literal_view::<A>(Seq::<u8>::empty()),
            r.wf(),
    {
        let mut states: Vec<NfaState<A>> = Vec::new();
        states.push(NfaState { epsilons: Vec::new(), edges: Vec::new(), assoc: Vec::new() });
        let mut ends: Vec<usize> = Vec::new();
        ends.push(0);
        let r = NFA { states, start: 0, ends };
        proof {
            assert(r@.states =~= literal_view::<A>(Seq::<u8>::empty()).states);
            assert(r@.ends =~= literal_view::<A>(Seq::<u8>::empty()).ends);
        }
        r
    }

    /// A line of byte edges accepting exactly the bytes of `value`.
    pub fn literal(value: &str) -> (r: NFA<A>)
        ensures
            r@ == literal_view::<A>(value.spec_bytes()),
            r.wf(),
    {
        let bytes = value.as_bytes();
        let n = bytes.len();
        let mut states: Vec<NfaState<A>> = Vec::new();
        let mut i: usize = 0;
        while i < n
            invariant
                0 <= i <= n,
                n == value.spec_bytes().len(),
                bytes@ == value.spec_bytes(),
                states@.len() == i,
                forall|k: int|
                    0 <= k < i ==> (#[trigger] states@[k])@ == (NfaStateView::<A> {
                        eps: Seq::empty(),
                        edges: seq![(value.spec_bytes()[k], (k + 1) as usize)],
                        assoc: Seq::empty(),
                    }),
            decreases n - i,
        {
            let mut edges: Vec<(u8, usize)> = Vec::new();
            edges.push((bytes[i], i + 1));
            states.push(NfaState { epsilons: Vec::new(), edges, assoc: Vec::new() });
            i += 1;
        }
        states.push(NfaState { epsilons: Vec::new(), edges: Vec::new(), assoc: Vec::new() });
        let mut ends: Vec<usize> = Vec::new();
        ends.push(n);
        let r = NFA { states, start: 0, ends };
        proof {
            assert(r@.states =~= literal_view::<A>(value.spec_bytes()).states);
            assert(r@.ends =~= literal_view::<A>(value.spec_bytes()).ends);
        }
        r
    }

    /// The state in which the automaton accepts, where it has exactly one.
    pub fn accept_state(&self) -> (r: Option<StateId>)
        ensures
            match r {
                Some(id) => self@.ends.len() == 1 && id.0 == self@.ends[0],
                None => self@.ends.len() != 1,
            },
    {
        if self.ends.len() == 1 {
            Some(StateId::of(self.ends[0]))
        } else {
            None
        }
    }

    /// Attaches `value` to the association set of `state`.
    pub fn associate(&mut self, state: StateId, value: A)
        requires
            state.0 < old(self)@.states.len(),
        ensures
            final(self)@.states == old(self)@.states.update(
                state.0 as int,
                NfaStateView {
                    eps: old(self)@.states[state.0 as int].eps,
                    edges: old(self)@.states[state.0 as int].edges,
                    assoc: old(self)@.states[state.0 as int].assoc.push(value),
                },
            ),
            final(self)@.start == old(self)@.start,
            final(self)@.ends == old(self)@.ends,
            old(self).wf() ==> final(self).wf(),
    {
        let st = &mut self.states[state.0];
        st.assoc.push(value);
        proof {
            assert(self@.states =~= old(self)@.states.update(
                state.0 as int,
                NfaStateView {
                    eps: old(self)@.states[state.0 as int].eps,
                    edges: old(self)@.states[state.0 as int].edges,
                    assoc: old(self)@.states[state.0 as int].assoc.push(value),
                },
            ));
            if old(self).wf() {
                assert forall|p: int, j: int|
                    0 <= p < self@.states.len() && 0 <= j < self@.states[p].eps.len() implies (
                #[trigger] self@.states[p].eps[j] as int) < self@.states.len() by {
                    assert(self@.states[p].eps == old(self)@.states[p].eps);
                }
                assert forall|p: int, j: int|
                    0 <= p < self@.states.len() && 0 <= j < self@.states[p].edges.len() implies ((
                #[trigger] self@.states[p].edges[j]).1 as int) < self@.states.len() by {
                    assert(self@.states[p].edges == old(self)@.states[p].edges);
                }
                assert(self@.states.len() == old(self)@.states.len());
                assert forall|i: int| 0 <= i < self@.ends.len() implies (#[trigger] self@.ends[i]
                    as int) < self@.states.len() by {
                    assert(self@.ends[i] == old(self)@.ends[i]);
                }
                assert(nfa_valid(self@));
            }
        }
    }
}

/// The views of a list of states.
pub open spec fn views_of<A>(states: Seq<NfaState<A>>) -> Seq<NfaStateView<A>> {
    states.map(|i: int, st: NfaState<A>| st@)
}

proof fn lemma_add_eps_len<A>(states: Seq<NfaStateView<A>>, froms: Seq<usize>, target: usize)
    ensures
        add_eps_to(states, froms, target).len() == states.len(),
    decreases froms.len(),
{
    if froms.len() > 0 {
        let e = froms[0] as int;
        let s1 = if 0 <= e < states.len() {
            states.update(
                e,
                NfaStateView {
                    eps: states[e].eps.push(target),
                    edges: states[e].edges,
                    assoc: states[e].assoc,
                },
            )
        } else {
            states
        };
        lemma_add_eps_len(s1, froms.subrange(1, froms.len() as int), target);
    }
}

proof fn lemma_add_eps_valid<A>(
    states: Seq<NfaStateView<A>>,
    froms: Seq<usize>,
    target: usize,
    n: int,
)
    requires
        states_valid(states, n),
        (target as int) < n,
    ensures
        states_valid(add_eps_to(states, froms, target), n),
    decreases froms.len(),
{
    if froms.len() > 0 {
        let e = froms[0] as int;
        let s1 = if 0 <= e < states.len() {
            states.update(
                e,
                NfaStateView {
                    eps: states[e].eps.push(target),
                    edges: states[e].edges,
                    assoc: states[e].assoc,
                },
            )
        } else {
            states
        };
        assert(states_valid(s1, n));
        lemma_add_eps_valid(s1, froms.subrange(1, froms.len() as int), target, n);
    }
}

proof fn lemma_states_valid_concat<A>(s1: Seq<NfaStateView<A>>, s2: Seq<NfaStateView<A>>, n: int)
    requires
        states_valid(s1, n),
        states_valid(s2, n),
    ensures
        states_valid(s1 + s2, n),
{
    let s = s1 + s2;
    assert forall|p: int, j: int|
        0 <= p < s.len() && 0 <= j < s[p].eps.len() implies (#[trigger] s[p].eps[j] as int)
        < n by {
        if p < s1.len() {
            assert(s[p] == s1[p]);
        } else {
            assert(s[p] == s2[p - s1.len()]);
        }
    }
    assert forall|p: int, j: int|
        0 <= p < s.len() && 0 <= j < s[p].edges.len() implies ((#[trigger] s[p].edges[j]).1 as int)
        < n by {
        if p < s1.len() {
            assert(s[p] == s1[p]);
        } else {
            assert(s[p] == s2[p - s1.len()]);
        }
    }
}

proof fn lemma_shift_valid<A>(states: Seq<NfaStateView<A>>, off: usize, n: int)
    requires
        states_valid(states, states.len() as int),
        off + states.len() <= n,
        off + states.len() <= usize::MAX,
    ensures
        states_valid(shift_states(states, off), n),
{
    let s = shift_states(states, off);
    assert forall|p: int, j: int|
        0 <= p < s.len() && 0 <= j < s[p].eps.len() implies (#[trigger] s[p].eps[j] as int)
        < n by {
        assert(s[p].eps[j] == ((states[p].eps[j] + off) as usize));
    }
    assert forall|p: int, j: int|
        0 <= p < s.len() && 0 <= j < s[p].edges.len() implies ((#[trigger] s[p].edges[j]).1 as int)
        < n by {
        assert(s[p].edges[j].1 == ((states[p].edges[j].1 + off) as usize));
    }
}

/// Shifts every index of `src` up by the current length of `dst` and
/// appends the shifted states to `dst`.
fn append_shifted<A>(dst: &mut Vec<NfaState<A>>, src: Vec<NfaState<A>>)
    requires
        old(dst)@.len() + src@.len() <= usize::MAX,
        states_valid(views_of(src@), src@.len() as int),
    ensures
        views_of(final(dst)@) == views_of(old(dst)@) + shift_states(
            views_of(src@),
            old(dst)@.len() as usize,
        ),
{
    let off = dst.len();
    let ghost src0 = views_of(src@);
    let mut rest = src;
    let ghost target = views_of(old(dst)@) + shift_states(src0, off as usize);
    let mut taken: usize = 0;
    while rest.len() > 0
        invariant
            taken + rest@.len() == src0.len(),
            off + src0.len() <= usize::MAX,
            off == views_of(old(dst)@).len(),
            forall|k: int| 0 <= k < rest@.len() ==> (#[trigger] rest@[k])@ == src0[taken + k],
            states_valid(src0, src0.len() as int),
            views_of(dst@) == target.subrange(0, off + taken),
            target == views_of(old(dst)@) + shift_states(src0, off as usize),
        decreases rest@.len(),
    {
        let st = rest.remove(0);
        let ghost stv = st@;
        let mut eps: Vec<usize> = Vec::new();
        let mut k: usize = 0;
        let elen = st.epsilons.len();
        while k < elen
            invariant
                0 <= k <= elen,
                elen == stv.eps.len(),
                st@ == stv,
                stv == src0[taken as int],
                taken < src0.len(),
                states_valid(src0, src0.len() as int),
                off + src0.len() <= usize::MAX,
                eps@ == stv.eps.subrange(0, k as int).map(|j: int, q: usize| (q + off) as usize),
                views_of(dst@) == target.subrange(0, off + taken),
                target == views_of(old(dst)@) + shift_states(src0, off as usize),
                off == views_of(old(dst)@).len(),
            decreases elen - k,
        {
            assert(stv.eps[k as int] < src0.len());
            eps.push(st.epsilons[k] + off);
            proof {
                assert(eps@ =~= stv.eps.subrange(0, k + 1).map(
                    |j: int, q: usize| (q + off) as usize,
                ));
            }
            k += 1;
        }
        proof {
            assert(stv.eps.subrange(0, stv.eps.len() as int) =~= stv.eps);
        }
        let mut edges: Vec<(u8, usize)> = Vec::new();
        let mut k2: usize = 0;
        let dlen = st.edges.len();
        while k2 < dlen
            invariant
                0 <= k2 <= dlen,
                dlen == stv.edges.len(),
                eps@ == stv.eps.map(|j: int, q: usize| (q + off) as usize),
                st@ == stv,
                stv == src0[taken as int],
                taken < src0.len(),
                states_valid(src0, src0.len() as int),
                off + src0.len() <= usize::MAX,
                edges@ == stv.edges.subrange(0, k2 as int).map(
                    |j: int, e: (u8, usize)| (e.0, (e.1 + off) as usize),
                ),
                views_of(dst@) == target.subrange(0, off + taken),
                target == views_of(old(dst)@) + shift_states(src0, off as usize),
                off == views_of(old(dst)@).len(),
            decreases dlen - k2,
        {
            assert(stv.edges[k2 as int].1 < src0.len());
            let e = st.edges[k2];
            edges.push((e.0, e.1 + off));
            proof {
                assert(edges@ =~= stv.edges.subrange(0, k2 + 1).map(
                    |j: int, e: (u8, usize)| (e.0, (e.1 + off) as usize),
                ));
            }
            k2 += 1;
        }
        proof {
            assert(stv.edges.subrange(0, stv.edges.len() as int) =~= stv.edges);
        }
        proof {
            assert(views_of(dst@).len() == dst@.len());
            assert(dst@.len() == off + taken);
        }
        dst.push(NfaState { epsilons: eps, edges, assoc: st.assoc });
        proof {
            assert(target[off + taken] == shift_states(src0, off as usize)[taken as int]);
            assert(target[off + taken] =~~= NfaStateView {
                eps: stv.eps.map(|j: int, q: usize| (q + off) as usize),
                edges: stv.edges.map(|j: int, e: (u8, usize)| (e.0, (e.1 + off) as usize)),
                assoc: stv.assoc,
            });
            assert(views_of(dst@) =~~= target.subrange(0, off + taken + 1));
        }
        taken += 1;
    }
    proof {
        assert(views_of(dst@) =~~= target);
    }
}

/// Adds an epsilon edge to `target` from each state listed in `froms`.
fn add_eps_exec<A>(states: &mut Vec<NfaState<A>>, froms: &Vec<usize>, target: usize)
    ensures
        views_of(final(states)@) == add_eps_to(views_of(old(states)@), froms@, target),
{
    let n = froms.len();
    proof {
        assert(froms@.subrange(0, n as int) =~= froms@);
    }
    let mut i: usize = 0;
    while i < n
        invariant
            0 <= i <= n,
            n == froms@.len(),
            add_eps_to(views_of(states@), froms@.subrange(i as int, n as int), target)
                == add_eps_to(views_of(old(states)@), froms@, target),
        decreases n - i,
    {
        let ghost before = views_of(states@);
        let ghost rest = froms@.subrange(i as int, n as int);
        let e = froms[i];
        if e < states.len() {
            let st = &mut states[e];
            st.epsilons.push(target);
            proof {
                assert(views_of(states@) =~~= before.update(
                    e as int,
                    NfaStateView {
                        eps: before[e as int].eps.push(target),
                        edges: before[e as int].edges,
                        assoc: before[e as int].assoc,
                    },
                ));
            }
        }
        proof {
            assert(rest[0] == froms@[i as int]);
            assert(rest.subrange(1, rest.len() as int) =~= froms@.subrange(i + 1, n as int));
        }
        i += 1;
    }
    proof {
        assert(froms@.subrange(n as int, n as int) =~= Seq::<usize>::empty());
    }
}

impl<A> NFA<A> {
    /// The union of two automata: accepts what either operand accepts, and
    /// keeps the association sets of both.
    pub fn or(self, other: NFA<A>) -> (r: Result<NFA<A>, ParseError>)
        requires
            self@.states.len() + other@.states.len() + 2 <= usize::MAX,
            self.wf(),
            other.wf(),
        ensures
            match r {
                Ok(n) => n@ == or_view(self@, other@) && n.wf(),
                Err(_) => false,
            },
    {
        let ghost a = self@;
        let ghost b = other@;
        let a_start = self.start;
        let b_start = other.start;
        let a_ends = self.ends;
        let b_ends = other.ends;
        let mut states = self.states;
        let off = states.len();
        append_shifted(&mut states, other.states);
        proof {
            assert(views_of(states@).len() == a.states.len() + b.states.len());
            assert(states@.len() == views_of(states@).len());
        }
        let ns = states.len();
        let ne = ns + 1;
        let mut start_eps: Vec<usize> = Vec::new();
        start_eps.push(a_start);
        start_eps.push(b_start + off);
        states.push(NfaState { epsilons: start_eps, edges: Vec::new(), assoc: Vec::new() });
        states.push(NfaState { epsilons: Vec::new(), edges: Vec::new(), assoc: Vec::new() });
        let ghost base = views_of(states@);
        proof {
            assert(base =~~= a.states + shift_states(b.states, off as usize) + seq![
                NfaStateView::<A> {
                    eps: seq![a.start, (b.start + off) as usize],
                    edges: Seq::empty(),
                    assoc: Seq::empty(),
                },
                NfaStateView::<A> { eps: Seq::empty(), edges: Seq::empty(), assoc: Seq::empty() },
            ]);
        }
        let mut froms = a_ends;
        let mut k: usize = 0;
        let blen = b_ends.len();
        let ghost froms0 = froms@;
        while k < blen
            invariant
                0 <= k <= blen,
                blen == b.ends.len(),
                b_ends@ == b.ends,
                forall|i: int| 0 <= i < blen ==> (#[trigger] b.ends[i] as int) < b.states.len(),
                off + b.states.len() + 2 <= usize::MAX,
                off == a.states.len(),
                froms@ == froms0 + shift_ends(b.ends.subrange(0, k as int), off as usize),
            decreases blen - k,
        {
            froms.push(b_ends[k] + off);
            proof {
                assert(froms@ =~= froms0 + shift_ends(
                    b.ends.subrange(0, k + 1),
                    off as usize,
                ));
            }
            k += 1;
        }
        proof {
            assert(b.ends.subrange(0, blen as int) =~= b.ends);
        }
        add_eps_exec(&mut states, &froms, ne);
        let mut ends: Vec<usize> = Vec::new();
        ends.push(ne);
        let r = NFA { states, start: ns, ends };
        proof {
            assert(r@.states =~~= or_view(a, b).states);
            assert(r@.ends =~= or_view(a, b).ends);
            assert(r@ =~~= or_view(a, b));
            let n2 = base.len() as int;
            lemma_shift_valid(b.states, off as usize, n2);
            lemma_states_valid_concat(a.states, shift_states(b.states, off as usize), n2);
            lemma_states_valid_concat(
                a.states + shift_states(b.states, off as usize),
                seq![
                    NfaStateView::<A> {
                        eps: seq![a.start, (b.start + off) as usize],
                        edges: Seq::empty(),
                        assoc: Seq::empty(),
                    },
                    NfaStateView::<A> {
                        eps: Seq::empty(),
                        edges: Seq::empty(),
                        assoc: Seq::empty(),
                    },
                ],
                n2,
            );
            lemma_add_eps_valid(base, froms@, ne, n2);
            lemma_add_eps_len(base, froms@, ne);
            assert(r.wf());
        }
        Ok(r)
    }

    /// Sequencing: accepts a word of `self` followed by a word of `other`.
    pub fn concat(self, other: NFA<A>) -> (r: NFA<A>)
        requires
            self@.states.len() + other@.states.len() <= usize::MAX,
            self.wf(),
            other.wf(),
        ensures
            r@ == concat_view(self@, other@),
            r.wf(),
    {
        let ghost a = self@;
        let ghost b = other@;
        let a_start = self.start;
        let b_start = other.start;
        let a_ends = self.ends;
        let b_ends = other.ends;
        let mut states = self.states;
        let off = states.len();
        append_shifted(&mut states, other.states);
        proof {
            assert(views_of(states@).len() == a.states.len() + b.states.len());
            assert(states@.len() == views_of(states@).len());
        }
        let ghost base = views_of(states@);
        add_eps_exec(&mut states, &a_ends, b_start + off);
        let mut ends: Vec<usize> = Vec::new();
        let mut k: usize = 0;
        let blen = b_ends.len();
        while k < blen
            invariant
                0 <= k <= blen,
                blen == b.ends.len(),
                b_ends@ == b.ends,
                forall|i: int| 0 <= i < blen ==> (#[trigger] b.ends[i] as int) < b.states.len(),
                off + b.states.len() <= usize::MAX,
                off == a.states.len(),
                ends@ == shift_ends(b.ends.subrange(0, k as int), off as usize),
            decreases blen - k,
        {
            ends.push(b_ends[k] + off);
            proof {
                assert(ends@ =~= shift_ends(b.ends.subrange(0, k + 1), off as usize));
            }
            k += 1;
        }
        proof {
            assert(b.ends.subrange(0, blen as int) =~= b.ends);
        }
        let r = NFA { states, start: a_start, ends };
        proof {
            assert(r@.states =~~= concat_view(a, b).states);
            assert(r@.ends =~= concat_view(a, b).ends);
            assert(r@ =~~= concat_view(a, b));
            let n2 = base.len() as int;
            lemma_shift_valid(b.states, off as usize, n2);
            lemma_states_valid_concat(a.states, shift_states(b.states, off as usize), n2);
            lemma_add_eps_valid(base, a.ends, (b_start + off) as usize, n2);
            lemma_add_eps_len(base, a.ends, (b_start + off) as usize);
            assert forall|i: int| 0 <= i < r@.ends.len() implies (#[trigger] r@.ends[i] as int)
                < r@.states.len() by {
                assert(r@.ends[i] == ((b.ends[i] + off) as usize));
            }
            assert(r.wf());
        }
        r
    }

    /// Repetition by epsilon wiring: supported are `(0, None)` (any number
    /// of occurrences), `(1, None)` (one or more) and `(0, Some(1))` (at
    /// most one); any other bound is outside the supported regex subset.
    pub fn repeat(self, min: usize, max: Option<usize>) -> (r: Result<NFA<A>, ParseError>)
        requires
            self@.states.len() + 2 <= usize::MAX,
            self.wf(),
        ensures
            match r {
                Ok(n) => (min == 0 || min == 1) && (match max {
                    None => true,
                    Some(m) => m == 1 && min == 0,
                }) && n@ == repeat_view(self@, min == 0, max is None) && n.wf(),
                Err(_) => !((min == 0 && max is None) || (min == 1 && max is None) || (min == 0
                    && max == Some(1usize))),
            },
    {
        let zero_ok: bool = min == 0;
        let many_ok: bool = max.is_none();
        if !(min == 0 || min == 1) {
            return Err(ParseError::RegexUnsupported);
        }
        match max {
            None => {},
            Some(m) => {
                if !(m == 1 && min == 0) {
                    return Err(ParseError::RegexUnsupported);
                }
            },
        }
        let ghost a = self@;
        let a_start = self.start;
        let a_ends = self.ends;
        let mut states = self.states;
        proof {
            assert(states@.len() == a.states.len());
        }
        let ns = states.len();
        let ne = ns + 1;
        let mut start_eps: Vec<usize> = Vec::new();
        start_eps.push(a_start);
        if zero_ok {
            start_eps.push(ne);
        }
        let mut end_eps: Vec<usize> = Vec::new();
        if many_ok {
            end_eps.push(ns);
        }
        states.push(NfaState { epsilons: start_eps, edges: Vec::new(), assoc: Vec::new() });
        states.push(NfaState { epsilons: end_eps, edges: Vec::new(), assoc: Vec::new() });
        let ghost base = views_of(states@);
        proof {
            let start_eps_v: Seq<usize> = if zero_ok {
                seq![a.start, ne as usize]
            } else {
                seq![a.start]
            };
            let end_eps_v: Seq<usize> = if many_ok {
                seq![ns as usize]
            } else {
                Seq::empty()
            };
            assert(start_eps@ =~= start_eps_v);
            assert(end_eps@ =~= end_eps_v);
            assert(base =~~= a.states + seq![
                NfaStateView::<A> { eps: start_eps_v, edges: Seq::empty(), assoc: Seq::empty() },
                NfaStateView::<A> { eps: end_eps_v, edges: Seq::empty(), assoc: Seq::empty() },
            ]);
        }
        add_eps_exec(&mut states, &a_ends, ne);
        let mut ends: Vec<usize> = Vec::new();
        ends.push(ne);
        let r = NFA { states, start: ns, ends };
        proof {
            let rv = repeat_view(a, zero_ok, many_ok);
            assert(r@.states =~~= rv.states);
            assert(r@.ends =~= rv.ends);
            assert(r@ =~~= rv);
            let n2 = base.len() as int;
            let start_eps_v: Seq<usize> = if zero_ok {
                seq![a.start, ne as usize]
            } else {
                seq![a.start]
            };
            let end_eps_v: Seq<usize> = if many_ok {
                seq![ns as usize]
            } else {
                Seq::empty()
            };
            lemma_states_valid_concat(
                a.states,
                seq![
                    NfaStateView::<A> {
                        eps: start_eps_v,
                        edges: Seq::empty(),
                        assoc: Seq::empty(),
                    },
                    NfaStateView::<A> { eps: end_eps_v, edges: Seq::empty(), assoc: Seq::empty() },
                ],
                n2,
            );
            lemma_add_eps_valid(base, a.ends, ne, n2);
            lemma_add_eps_len(base, a.ends, ne);
            assert(r.wf());
        }
        Ok(r)
    }
}

impl<A> NFA<A> {
    pub fn state_count(&self) -> (n: usize)
        ensures
            n == self@.states.len(),
    {
        self.states.len()
    }

    pub(crate) fn start_state(&self) -> (r: usize)
        ensures
            r == self@.start,
    {
        self.start
    }

    pub(crate) fn eps_count(&self, q: usize) -> (n: usize)
        requires
            q < self@.states.len(),
        ensures
            n == self@.states[q as int].eps.len(),
    {
        self.states[q].epsilons.len()
    }

    pub(crate) fn eps_target(&self, q: usize, e: usize) -> (r: usize)
        requires
            q < self@.states.len(),
            e < self@.states[q as int].eps.len(),
        ensures
            r == self@.states[q as int].eps[e as int],
    {
        self.states[q].epsilons[e]
    }

    pub(crate) fn edge_count(&self, q: usize) -> (n: usize)
        requires
            q < self@.states.len(),
        ensures
            n == self@.states[q as int].edges.len(),
    {
        self.states[q].edges.len()
    }

    pub(crate) fn edge_at(&self, q: usize, k: usize) -> (r: (u8, usize))
        requires
            q < self@.states.len(),
            k < self@.states[q as int].edges.len(),
        ensures
            r == self@.states[q as int].edges[k as int],
    {
        self.states[q].edges[k]
    }

    pub(crate) fn assoc_count(&self, q: usize) -> (n: usize)
        requires
            q < self@.states.len(),
        ensures
            n == self@.states[q as int].assoc.len(),
    {
        self.states[q].assoc.len()
    }

    pub(crate) fn ends_count(&self) -> (n: usize)
        ensures
            n == self@.ends.len(),
    {
        self.ends.len()
    }

    pub(crate) fn end_at(&self, k: usize) -> (r: usize)
        requires
            k < self@.ends.len(),
        ensures
            r == self@.ends[k as int],
    {
        self.ends[k]
    }
}

impl<A: Copy> NFA<A> {
    pub(crate) fn assoc_at(&self, q: usize, k: usize) -> (r: A)
        requires
            q < self@.states.len(),
            k < self@.states[q as int].assoc.len(),
        ensures
            r == self@.states[q as int].assoc[k as int],
    {
        self.states[q].assoc[k]
    }
}

/// The edges of a byte-class automaton: one edge to state 1 for every byte
/// among the first `k` whose flag is set.
pub open spec fn class_edges(allowed: Seq<bool>, k: int) -> Seq<(u8, usize)>
    decreases k,
{
    if k <= 0 {
        Seq::empty()
    } else {
        class_edges(allowed, k - 1) + (if allowed[k - 1] {
            seq![((k - 1) as u8, 1usize)]
        } else {
            Seq::empty()
        })
    }
}

/// The shape of `NFA::byte_class(allowed)`: a start state with one edge per
/// allowed byte into the single accepting state.
pub open spec fn class_view<A>(allowed: Seq<bool>) -> NfaView<A> {
    NfaView {
        states: seq![
            NfaStateView { eps: Seq::empty(), edges: class_edges(allowed, 256), assoc: Seq::empty() },
            NfaStateView { eps: Seq::empty(), edges: Seq::empty(), assoc: Seq::empty() },
        ],
        start: 0,
        ends: seq![1usize],
    }
}

impl<A> NFA<A> {
    /// A two-state automaton accepting exactly the single bytes whose flag
    /// in `allowed` is set.
    pub(crate) fn byte_class(allowed: &Vec<bool>) -> (r: NFA<A>)
        requires
            allowed@.len() == 256,
        ensures
            r.wf(),
            r@ == class_view::<A>(allowed@),
    {
        let mut edges: Vec<(u8, usize)> = Vec::new();
        let mut b: usize = 0;
        while b < 256
            invariant
                0 <= b <= 256,
                allowed@.len() == 256,
                edges@ == class_edges(allowed@, b as int),
            decreases 256 - b,
        {
            if allowed[b] {
                edges.push((b as u8, 1));
            }
            assert(edges@ =~= class_edges(allowed@, b + 1));
            b += 1;
        }
        let mut states: Vec<NfaState<A>> = Vec::new();
        states.push(NfaState { epsilons: Vec::new(), edges, assoc: Vec::new() });
        states.push(NfaState { epsilons: Vec::new(), edges: Vec::new(), assoc: Vec::new() });
        let mut ends: Vec<usize> = Vec::new();
        ends.push(1);
        let r = NFA { states, start: 0, ends };
        proof {
            assert(r@.ends =~= seq![1usize]);
            assert(r@.states =~~= class_view::<A>(allowed@).states);
            assert(r@ =~~= class_view::<A>(allowed@));
            assert forall|p: int, j: int|
                0 <= p < r@.states.len() && 0 <= j < r@.states[p].eps.len() implies (
            #[trigger] r@.states[p].eps[j] as int) < 2 by {}
            assert forall|p: int, j: int|
                0 <= p < r@.states.len() && 0 <= j < r@.states[p].edges.len() implies ((
            #[trigger] r@.states[p].edges[j]).1 as int) < 2 by {
                if p == 0 {
                    lemma_class_edges_target(allowed@, 256, j);
                }
            }
        }
        r
    }
}

proof fn lemma_class_edges_target(allowed: Seq<bool>, k: int, j: int)
    requires
        0 <= j < class_edges(allowed, k).len(),
    ensures
        class_edges(allowed, k)[j].1 == 1,
    decreases k,
{
    if k > 0 {
        let prior = class_edges(allowed, k - 1);
        if j < prior.len() {
            lemma_class_edges_target(allowed, k - 1, j);
        }
    }
}

/// Every member of `t` is an index below `n`.
pub open spec fn set_below(t: Set<usize>, n: int) -> bool {
    forall|q: usize| t.contains(q) ==> (q as int) < n
}

proof fn lemma_pass_mono<A>(v: NfaView<A>, s: Set<usize>, t: Set<usize>)
    requires
        s.subset_of(t),
    ensures
        eps_pass(v, s).subset_of(eps_pass(v, t)),
{
    assert forall|q: usize| eps_pass(v, s).contains(q) implies eps_pass(v, t).contains(q) by {
        if !s.contains(q) {
            let (p, j) = choose|p: usize, j: int|
                s.contains(p) && (p as int) < v.states.len() && 0 <= j < v.states[
                    p as int
                ].eps.len() && v.states[p as int].eps[j] == q;
            assert(t.contains(p));
        }
    }
}

proof fn lemma_pass_incr<A>(v: NfaView<A>, t: Set<usize>)
    requires
        set_below(t, v.states.len() as int),
    ensures
        t.subset_of(eps_pass(v, t)),
{
}

proof fn lemma_pass_below<A>(v: NfaView<A>, t: Set<usize>)
    ensures
        set_below(eps_pass(v, t), v.states.len() as int),
{
}

proof fn lemma_close_below<A>(v: NfaView<A>, t: Set<usize>, k: nat)
    requires
        set_below(t, v.states.len() as int),
    ensures
        set_below(eps_close_k(v, t, k), v.states.len() as int),
    decreases k,
{
    if k > 0 {
        lemma_pass_below(v, eps_close_k(v, t, (k - 1) as nat));
    }
}

proof fn lemma_close_mono_set<A>(v: NfaView<A>, s: Set<usize>, t: Set<usize>, k: nat)
    requires
        s.subset_of(t),
    ensures
        eps_close_k(v, s, k).subset_of(eps_close_k(v, t, k)),
    decreases k,
{
    if k > 0 {
        lemma_close_mono_set(v, s, t, (k - 1) as nat);
        lemma_pass_mono(v, eps_close_k(v, s, (k - 1) as nat), eps_close_k(v, t, (k - 1) as nat));
    }
}

proof fn lemma_close_mono_k<A>(v: NfaView<A>, t: Set<usize>, k1: nat, k2: nat)
    requires
        set_below(t, v.states.len() as int),
        k1 <= k2,
    ensures
        eps_close_k(v, t, k1).subset_of(eps_close_k(v, t, k2)),
    decreases k2,
{
    if k1 < k2 {
        lemma_close_mono_k(v, t, k1, (k2 - 1) as nat);
        lemma_close_below(v, t, (k2 - 1) as nat);
        lemma_pass_incr(v, eps_close_k(v, t, (k2 - 1) as nat));
    }
}

proof fn lemma_close_compose<A>(v: NfaView<A>, t: Set<usize>, k1: nat, k2: nat)
    ensures
        eps_close_k(v, eps_close_k(v, t, k1), k2) == eps_close_k(v, t, (k1 + k2) as nat),
    decreases k2,
{
    if k2 > 0 {
        lemma_close_compose(v, t, k1, (k2 - 1) as nat);
    }
}

proof fn lemma_add_eps_structure<A>(states: Seq<NfaStateView<A>>, froms: Seq<usize>, target: usize)
    ensures
        add_eps_to(states, froms, target).len() == states.len(),
        forall|p: int|
            #![trigger add_eps_to(states, froms, target)[p]]
            0 <= p < states.len() ==> ({
                let r = add_eps_to(states, froms, target)[p];
                &&& r.edges == states[p].edges
                &&& r.assoc == states[p].assoc
                &&& r.eps.len() >= states[p].eps.len()
                &&& (forall|j: int| 0 <= j < states[p].eps.len() ==> r.eps[j] == states[p].eps[j])
                &&& (forall|j: int|
                    states[p].eps.len() <= j < r.eps.len() ==> r.eps[j] == target)
            }),
    decreases froms.len(),
{
    lemma_add_eps_len(states, froms, target);
    if froms.len() > 0 {
        let e = froms[0] as int;
        let s1 = if 0 <= e < states.len() {
            states.update(
                e,
                NfaStateView {
                    eps: states[e].eps.push(target),
                    edges: states[e].edges,
                    assoc: states[e].assoc,
                },
            )
        } else {
            states
        };
        lemma_add_eps_structure(s1, froms.subrange(1, froms.len() as int), target);
        assert forall|p: int|
            0 <= p < states.len() implies ({
            let r = #[trigger] add_eps_to(states, froms, target)[p];
            &&& r.edges == states[p].edges
            &&& r.assoc == states[p].assoc
            &&& r.eps.len() >= states[p].eps.len()
            &&& (forall|j: int| 0 <= j < states[p].eps.len() ==> r.eps[j] == states[p].eps[j])
            &&& (forall|j: int| states[p].eps.len() <= j < r.eps.len() ==> r.eps[j] == target)
        }) by {
            assert(add_eps_to(states, froms, target)[p] == add_eps_to(
                s1,
                froms.subrange(1, froms.len() as int),
                target,
            )[p]);
            if p == e {
                assert(s1[p].eps == states[p].eps.push(target));
            } else {
                assert(s1[p] == states[p]);
            }
        }
    }
}

proof fn lemma_add_eps_hits<A>(
    states: Seq<NfaStateView<A>>,
    froms: Seq<usize>,
    target: usize,
    e: usize,
)
    requires
        froms.contains(e),
        (e as int) < states.len(),
    ensures
        add_eps_to(states, froms, target)[e as int].eps.contains(target),
    decreases froms.len(),
{
    let e0 = froms[0] as int;
    let s1 = if 0 <= e0 < states.len() {
        states.update(
            e0,
            NfaStateView {
                eps: states[e0].eps.push(target),
                edges: states[e0].edges,
                assoc: states[e0].assoc,
            },
        )
    } else {
        states
    };
    if froms[0] == e {
        lemma_add_eps_structure(s1, froms.subrange(1, froms.len() as int), target);
        let r = add_eps_to(states, froms, target)[e as int];
        assert(s1[e as int].eps[states[e as int].eps.len() as int] == target);
        assert(r.eps[states[e as int].eps.len() as int] == s1[e as int].eps[states[
            e as int
        ].eps.len() as int]);
        assert(r.eps.contains(target));
    } else {
        let w = choose|w: int| 0 <= w < froms.len() && froms[w] == e;
        assert(froms.subrange(1, froms.len() as int)[w - 1] == e);
        assert(froms.subrange(1, froms.len() as int).contains(e));
        lemma_add_eps_hits(s1, froms.subrange(1, froms.len() as int), target, e);
        assert(add_eps_to(states, froms, target) == add_eps_to(
            s1,
            froms.subrange(1, froms.len() as int),
            target,
        ));
    }
}

/// `t` with every index moved up by `off`.
pub open spec fn lift_set(t: Set<usize>, off: usize) -> Set<usize> {
    Set::new(|q: usize| exists|p: usize| t.contains(p) && q == ((p + off) as usize))
}

proof fn lemma_step_mono<A>(v: NfaView<A>, s: Set<usize>, t: Set<usize>, c: u8)
    requires
        s.subset_of(t),
    ensures
        byte_step(v, s, c).subset_of(byte_step(v, t, c)),
{
    assert forall|q: usize| byte_step(v, s, c).contains(q) implies byte_step(v, t, c).contains(
        q,
    ) by {
        let (p, j) = choose|p: usize, j: int|
            s.contains(p) && (p as int) < v.states.len() && 0 <= j < v.states[
                p as int
            ].edges.len() && v.states[p as int].edges[j] == (c, q);
        assert(t.contains(p));
    }
}

/// The facts the embedding arguments need about `or_view(a, b)`: the
/// operands' states keep their epsilon edges (as a prefix) and exactly
/// their byte edges, the new start reaches both operand starts, and every
/// operand end reaches the new accepting state.
proof fn lemma_or_view_shape<A>(a: NfaView<A>, b: NfaView<A>)
    requires
        nfa_valid(a),
        nfa_valid(b),
        a.states.len() + b.states.len() + 2 <= usize::MAX,
    ensures
        or_view(a, b).states.len() == a.states.len() + b.states.len() + 2,
        forall|p: int|
            #![trigger or_view(a, b).states[p]]
            0 <= p < a.states.len() ==> ({
                let r = or_view(a, b).states[p];
                &&& r.edges == a.states[p].edges
                &&& r.eps.len() >= a.states[p].eps.len()
                &&& forall|j: int| 0 <= j < a.states[p].eps.len() ==> r.eps[j] == a.states[p].eps[j]
            }),
        forall|p: int|
            #![trigger or_view(a, b).states[a.states.len() + p]]
            0 <= p < b.states.len() ==> ({
                let r = or_view(a, b).states[a.states.len() + p];
                let off = a.states.len() as usize;
                &&& r.edges.len() == b.states[p].edges.len()
                &&& (forall|j: int|
                    0 <= j < b.states[p].edges.len() ==> r.edges[j] == (
                    b.states[p].edges[j].0,
                    (b.states[p].edges[j].1 + off) as usize,
                ))
                &&& r.eps.len() >= b.states[p].eps.len()
                &&& (forall|j: int|
                    0 <= j < b.states[p].eps.len() ==> r.eps[j] == ((b.states[p].eps[j]
                        + off) as usize))
            }),
        or_view(a, b).states[a.states.len() + b.states.len() as int].eps.len() >= 2,
        or_view(a, b).states[a.states.len() + b.states.len() as int].eps[0] == a.start,
        or_view(a, b).states[a.states.len() + b.states.len() as int].eps[1] == ((b.start
            + a.states.len() as usize) as usize),
        forall|q: usize|
            a.ends.contains(q) && (q as int) < a.states.len() ==> (#[trigger] or_view(
                a,
                b,
            ).states[q as int].eps).contains((a.states.len() + b.states.len() + 1) as usize),
        forall|q: usize|
            b.ends.contains(q) && (q as int) < b.states.len() ==> (#[trigger] or_view(
                a,
                b,
            ).states[q as int + a.states.len()].eps).contains(
                (a.states.len() + b.states.len() + 1) as usize,
            ),
{
    let off = a.states.len() as usize;
    let ne = (a.states.len() + b.states.len() + 1) as usize;
    let base = a.states + shift_states(b.states, off) + seq![
        NfaStateView::<A> {
            eps: seq![a.start, (b.start + off) as usize],
            edges: Seq::empty(),
            assoc: Seq::empty(),
        },
        NfaStateView::<A> { eps: Seq::empty(), edges: Seq::empty(), assoc: Seq::empty() },
    ];
    let froms = a.ends + shift_ends(b.ends, off);
    assert(or_view(a, b).states == add_eps_to(base, froms, ne));
    lemma_add_eps_structure(base, froms, ne);
    assert forall|q: usize|
        a.ends.contains(q) && (q as int) < a.states.len() implies (#[trigger] or_view(
        a,
        b,
    ).states[q as int].eps).contains(ne) by {
        let i = choose|i: int| 0 <= i < a.ends.len() && a.ends[i] == q;
        assert(froms[i] == q);
        assert(froms.contains(q));
        lemma_add_eps_hits(base, froms, ne, q);
    }
    assert forall|q: usize|
        b.ends.contains(q) && (q as int) < b.states.len() implies (#[trigger] or_view(
        a,
        b,
    ).states[q as int + a.states.len()].eps).contains(ne) by {
        let i = choose|i: int| 0 <= i < b.ends.len() && b.ends[i] == q;
        assert(froms[a.ends.len() + i] == shift_ends(b.ends, off)[i]);
        assert(shift_ends(b.ends, off)[i] == ((q + off) as usize));
        assert(froms.contains(((q + off) as usize)));
        lemma_add_eps_hits(base, froms, ne, (q + off) as usize);
        assert(base.len() == a.states.len() + b.states.len() + 2);
    }
}

proof fn lemma_or_view_valid<A>(a: NfaView<A>, b: NfaView<A>)
    requires
        nfa_valid(a),
        nfa_valid(b),
        a.states.len() + b.states.len() + 2 <= usize::MAX,
    ensures
        nfa_valid(or_view(a, b)),
{
    let off = a.states.len() as usize;
    let ns = (a.states.len() + b.states.len()) as usize;
    let ne = (a.states.len() + b.states.len() + 1) as usize;
    let base = a.states + shift_states(b.states, off) + seq![
        NfaStateView::<A> {
            eps: seq![a.start, (b.start + off) as usize],
            edges: Seq::empty(),
            assoc: Seq::empty(),
        },
        NfaStateView::<A> { eps: Seq::empty(), edges: Seq::empty(), assoc: Seq::empty() },
    ];
    let froms = a.ends + shift_ends(b.ends, off);
    let n2 = base.len() as int;
    lemma_shift_valid(b.states, off, n2);
    lemma_states_valid_concat(a.states, shift_states(b.states, off), n2);
    lemma_states_valid_concat(
        a.states + shift_states(b.states, off),
        seq![
            NfaStateView::<A> {
                eps: seq![a.start, (b.start + off) as usize],
                edges: Seq::empty(),
                assoc: Seq::empty(),
            },
            NfaStateView::<A> { eps: Seq::empty(), edges: Seq::empty(), assoc: Seq::empty() },
        ],
        n2,
    );
    lemma_add_eps_valid(base, froms, ne, n2);
    lemma_add_eps_len(base, froms, ne);
}

proof fn lemma_or_pass_a<A>(a: NfaView<A>, b: NfaView<A>, t: Set<usize>)
    requires
        nfa_valid(a),
        nfa_valid(b),
        a.states.len() + b.states.len() + 2 <= usize::MAX,
        set_below(t, a.states.len() as int),
    ensures
        eps_pass(a, t).subset_of(eps_pass(or_view(a, b), t)),
{
    let v = or_view(a, b);
    lemma_or_view_shape(a, b);
    assert forall|q: usize| eps_pass(a, t).contains(q) implies eps_pass(v, t).contains(q) by {
        if !t.contains(q) {
            let (p, j) = choose|p: usize, j: int|
                t.contains(p) && (p as int) < a.states.len() && 0 <= j < a.states[
                    p as int
                ].eps.len() && a.states[p as int].eps[j] == q;
            assert(v.states[p as int].eps[j] == q);
        }
    }
}

proof fn lemma_or_pass_b<A>(a: NfaView<A>, b: NfaView<A>, t: Set<usize>)
    requires
        nfa_valid(a),
        nfa_valid(b),
        a.states.len() + b.states.len() + 2 <= usize::MAX,
        set_below(t, b.states.len() as int),
    ensures
        lift_set(eps_pass(b, t), a.states.len() as usize).subset_of(
            eps_pass(or_view(a, b), lift_set(t, a.states.len() as usize)),
        ),
{
    let v = or_view(a, b);
    let off = a.states.len() as usize;
    lemma_or_view_shape(a, b);
    assert forall|q2: usize|
        lift_set(eps_pass(b, t), off).contains(q2) implies eps_pass(
        v,
        lift_set(t, off),
    ).contains(q2) by {
        let q = choose|q: usize| eps_pass(b, t).contains(q) && q2 == ((q + off) as usize);
        if t.contains(q) {
            assert(lift_set(t, off).contains(q2));
        } else {
            let (p, j) = choose|p: usize, j: int|
                t.contains(p) && (p as int) < b.states.len() && 0 <= j < b.states[
                    p as int
                ].eps.len() && b.states[p as int].eps[j] == q;
            let p2 = (p + off) as usize;
            assert(lift_set(t, off).contains(p2));
            assert(v.states[a.states.len() + p as int].eps[j] == q2);
            assert(v.states[p2 as int].eps[j] == q2);
        }
    }
}

proof fn lemma_or_step_a<A>(a: NfaView<A>, b: NfaView<A>, t: Set<usize>, c: u8)
    requires
        nfa_valid(a),
        nfa_valid(b),
        a.states.len() + b.states.len() + 2 <= usize::MAX,
        set_below(t, a.states.len() as int),
    ensures
        byte_step(a, t, c).subset_of(byte_step(or_view(a, b), t, c)),
{
    let v = or_view(a, b);
    lemma_or_view_shape(a, b);
    assert forall|q: usize| byte_step(a, t, c).contains(q) implies byte_step(v, t, c).contains(
        q,
    ) by {
        let (p, j) = choose|p: usize, j: int|
            t.contains(p) && (p as int) < a.states.len() && 0 <= j < a.states[
                p as int
            ].edges.len() && a.states[p as int].edges[j] == (c, q);
        assert(v.states[p as int].edges[j] == (c, q));
    }
}

proof fn lemma_or_step_b<A>(a: NfaView<A>, b: NfaView<A>, t: Set<usize>, c: u8)
    requires
        nfa_valid(a),
        nfa_valid(b),
        a.states.len() + b.states.len() + 2 <= usize::MAX,
        set_below(t, b.states.len() as int),
    ensures
        lift_set(byte_step(b, t, c), a.states.len() as usize).subset_of(
            byte_step(or_view(a, b), lift_set(t, a.states.len() as usize), c),
        ),
{
    let v = or_view(a, b);
    let off = a.states.len() as usize;
    lemma_or_view_shape(a, b);
    assert forall|q2: usize|
        lift_set(byte_step(b, t, c), off).contains(q2) implies byte_step(
        v,
        lift_set(t, off),
        c,
    ).contains(q2) by {
        let q = choose|q: usize| byte_step(b, t, c).contains(q) && q2 == ((q + off) as usize);
        let (p, j) = choose|p: usize, j: int|
            t.contains(p) && (p as int) < b.states.len() && 0 <= j < b.states[
                p as int
            ].edges.len() && b.states[p as int].edges[j] == (c, q);
        let p2 = (p + off) as usize;
        assert(lift_set(t, off).contains(p2));
        assert(v.states[a.states.len() + p as int].edges[j] == (c, q2));
        assert(v.states[p2 as int].edges[j] == (c, q2));
    }
}

proof fn lemma_or_close_a<A>(a: NfaView<A>, b: NfaView<A>, t: Set<usize>, k: nat)
    requires
        nfa_valid(a),
        nfa_valid(b),
        a.states.len() + b.states.len() + 2 <= usize::MAX,
        set_below(t, a.states.len() as int),
    ensures
        eps_close_k(a, t, k).subset_of(eps_close_k(or_view(a, b), t, k)),
    decreases k,
{
    let v = or_view(a, b);
    if k > 0 {
        lemma_or_close_a(a, b, t, (k - 1) as nat);
        lemma_close_below(a, t, (k - 1) as nat);
        lemma_or_pass_a(a, b, eps_close_k(a, t, (k - 1) as nat));
        lemma_pass_mono(v, eps_close_k(a, t, (k - 1) as nat), eps_close_k(v, t, (k - 1) as nat));
    }
}

proof fn lemma_or_close_b<A>(a: NfaView<A>, b: NfaView<A>, t: Set<usize>, k: nat)
    requires
        nfa_valid(a),
        nfa_valid(b),
        a.states.len() + b.states.len() + 2 <= usize::MAX,
        set_below(t, b.states.len() as int),
    ensures
        lift_set(eps_close_k(b, t, k), a.states.len() as usize).subset_of(
            eps_close_k(or_view(a, b), lift_set(t, a.states.len() as usize), k),
        ),
    decreases k,
{
    let v = or_view(a, b);
    let off = a.states.len() as usize;
    if k > 0 {
        lemma_or_close_b(a, b, t, (k - 1) as nat);
        lemma_close_below(b, t, (k - 1) as nat);
        lemma_or_pass_b(a, b, eps_close_k(b, t, (k - 1) as nat));
        lemma_pass_mono(
            v,
            lift_set(eps_close_k(b, t, (k - 1) as nat), off),
            eps_close_k(v, lift_set(t, off), (k - 1) as nat),
        );
        assert forall|q2: usize|
            lift_set(eps_close_k(b, t, k), off).contains(q2) implies eps_close_k(
            v,
            lift_set(t, off),
            k,
        ).contains(q2) by {
            let q = choose|q: usize|
                eps_close_k(b, t, k).contains(q) && q2 == ((q + off) as usize);
            assert(lift_set(eps_pass(b, eps_close_k(b, t, (k - 1) as nat)), off).contains(q2));
        }
    }
}

/// The seed set whose epsilon closure `nfa_reach` takes: the start state,
/// or the byte step out of the previous reach set.
pub open spec fn reach_seed<A>(v: NfaView<A>, s: Seq<u8>) -> Set<usize> {
    if s.len() == 0 {
        Set::empty().insert(v.start)
    } else {
        byte_step(v, nfa_reach(v, s.drop_last()), s.last())
    }
}

proof fn lemma_seed_below<A>(v: NfaView<A>, s: Seq<u8>)
    requires
        nfa_valid(v),
    ensures
        set_below(reach_seed(v, s), v.states.len() as int),
        nfa_reach(v, s) == eps_close(v, reach_seed(v, s)),
{
}

proof fn lemma_or_reach_a<A>(a: NfaView<A>, b: NfaView<A>, s: Seq<u8>)
    requires
        nfa_valid(a),
        nfa_valid(b),
        a.states.len() + b.states.len() + 2 <= usize::MAX,
    ensures
        nfa_reach(a, s).subset_of(
            eps_close_k(or_view(a, b), reach_seed(or_view(a, b), s), (a.states.len() + 1) as nat),
        ),
    decreases s.len(),
{
    let v = or_view(a, b);
    let na = a.states.len() as nat;
    let nv = v.states.len() as nat;
    lemma_or_view_shape(a, b);
    lemma_or_view_valid(a, b);
    lemma_seed_below(a, s);
    lemma_seed_below(v, s);
    if s.len() == 0 {
        let seed = reach_seed(v, s);
        let astart = Set::<usize>::empty().insert(a.start);
        assert(seed.contains(v.start));
        assert(v.states[v.start as int].eps[0] == a.start);
        assert(eps_pass(v, seed).contains(a.start));
        assert(eps_close_k(v, seed, 0) == seed);
        assert(eps_close_k(v, seed, 1) == eps_pass(v, seed));
        assert(astart.subset_of(eps_close_k(v, seed, 1)));
        lemma_or_close_a(a, b, astart, na);
        lemma_close_mono_set(v, astart, eps_close_k(v, seed, 1), na);
        lemma_close_compose(v, seed, 1, na);
        assert(nfa_reach(a, s) == eps_close_k(a, astart, na));
    } else {
        let prev = s.drop_last();
        let c = s.last();
        lemma_or_reach_a(a, b, prev);
        lemma_seed_below(a, prev);
        lemma_seed_below(v, prev);
        lemma_close_below(a, reach_seed(a, prev), na);
        lemma_close_mono_k(v, reach_seed(v, prev), (a.states.len() + 1) as nat, nv);
        assert(nfa_reach(a, prev).subset_of(nfa_reach(v, prev)));
        let stepped = byte_step(a, nfa_reach(a, prev), c);
        lemma_or_step_a(a, b, nfa_reach(a, prev), c);
        lemma_step_mono(v, nfa_reach(a, prev), nfa_reach(v, prev), c);
        assert(stepped.subset_of(reach_seed(v, s)));
        lemma_or_close_a(a, b, stepped, na);
        lemma_close_mono_set(v, stepped, reach_seed(v, s), na);
        lemma_close_mono_k(v, reach_seed(v, s), na, (a.states.len() + 1) as nat);
        assert(nfa_reach(a, s) == eps_close_k(a, stepped, na));
    }
}

proof fn lemma_or_reach_b<A>(a: NfaView<A>, b: NfaView<A>, s: Seq<u8>)
    requires
        nfa_valid(a),
        nfa_valid(b),
        a.states.len() + b.states.len() + 2 <= usize::MAX,
    ensures
        lift_set(nfa_reach(b, s), a.states.len() as usize).subset_of(
            eps_close_k(or_view(a, b), reach_seed(or_view(a, b), s), (b.states.len() + 1) as nat),
        ),
    decreases s.len(),
{
    let v = or_view(a, b);
    let off = a.states.len() as usize;
    let nb = b.states.len() as nat;
    let nv = v.states.len() as nat;
    lemma_or_view_shape(a, b);
    lemma_or_view_valid(a, b);
    lemma_seed_below(b, s);
    lemma_seed_below(v, s);
    if s.len() == 0 {
        let seed = reach_seed(v, s);
        let bstart = Set::<usize>::empty().insert(b.start);
        assert(seed.contains(v.start));
        assert(v.states[v.start as int].eps[1] == ((b.start + off) as usize));
        assert(eps_pass(v, seed).contains(((b.start + off) as usize)));
        assert(eps_close_k(v, seed, 0) == seed);
        assert(eps_close_k(v, seed, 1) == eps_pass(v, seed));
        assert forall|q2: usize| lift_set(bstart, off).contains(q2) implies eps_close_k(
            v,
            seed,
            1,
        ).contains(q2) by {
            let q = choose|q: usize| bstart.contains(q) && q2 == ((q + off) as usize);
            assert(q == b.start);
        }
        lemma_or_close_b(a, b, bstart, nb);
        lemma_close_mono_set(v, lift_set(bstart, off), eps_close_k(v, seed, 1), nb);
        lemma_close_compose(v, seed, 1, nb);
        assert(nfa_reach(b, s) == eps_close_k(b, bstart, nb));
    } else {
        let prev = s.drop_last();
        let c = s.last();
        lemma_or_reach_b(a, b, prev);
        lemma_seed_below(b, prev);
        lemma_seed_below(v, prev);
        lemma_close_below(b, reach_seed(b, prev), nb);
        lemma_close_mono_k(v, reach_seed(v, prev), (b.states.len() + 1) as nat, nv);
        assert(lift_set(nfa_reach(b, prev), off).subset_of(nfa_reach(v, prev)));
        let stepped = byte_step(b, nfa_reach(b, prev), c);
        lemma_or_step_b(a, b, nfa_reach(b, prev), c);
        lemma_step_mono(v, lift_set(nfa_reach(b, prev), off), nfa_reach(v, prev), c);
        assert(lift_set(stepped, off).subset_of(reach_seed(v, s)));
        lemma_or_close_b(a, b, stepped, nb);
        lemma_close_mono_set(v, lift_set(stepped, off), reach_seed(v, s), nb);
        lemma_close_mono_k(v, reach_seed(v, s), nb, (b.states.len() + 1) as nat);
        assert(nfa_reach(b, s) == eps_close_k(b, stepped, nb));
        assert forall|q2: usize|
            lift_set(nfa_reach(b, s), off).contains(q2) implies eps_close_k(
            v,
            reach_seed(v, s),
            (b.states.len() + 1) as nat,
        ).contains(q2) by {
            let q = choose|q: usize| nfa_reach(b, s).contains(q) && q2 == ((q + off) as usize);
            assert(lift_set(eps_close_k(b, stepped, nb), off).contains(q2));
        }
    }
}

/// One direction of the union law: an input that either operand accepts,
/// the union automaton accepts.  (The converse is not stated here.)
pub proof fn lemma_or_accepts_either<A>(a: NfaView<A>, b: NfaView<A>, s: Seq<u8>)
    requires
        nfa_valid(a),
        nfa_valid(b),
        a.states.len() + b.states.len() + 2 <= usize::MAX,
        nfa_accepts(a, s) || nfa_accepts(b, s),
    ensures
        nfa_accepts(or_view(a, b), s),
{
    let v = or_view(a, b);
    let ne = (a.states.len() + b.states.len() + 1) as usize;
    let nv = v.states.len() as nat;
    lemma_or_view_shape(a, b);
    lemma_or_view_valid(a, b);
    lemma_seed_below(v, s);
    let seed = reach_seed(v, s);
    if nfa_accepts(a, s) {
        let q = choose|q: usize| nfa_reach(a, s).contains(q) && a.ends.contains(q);
        lemma_or_reach_a(a, b, s);
        lemma_seed_below(a, s);
        lemma_close_below(a, reach_seed(a, s), a.states.len() as nat);
        let ca = eps_close_k(v, seed, (a.states.len() + 1) as nat);
        assert(ca.contains(q));
        assert(v.states[q as int].eps.contains(ne));
        let j = choose|j: int| 0 <= j < v.states[q as int].eps.len() && v.states[q as int].eps[j]
            == ne;
        assert(eps_pass(v, ca).contains(ne));
        assert(eps_close_k(v, seed, (a.states.len() + 2) as nat).contains(ne));
        lemma_close_mono_k(v, seed, (a.states.len() + 2) as nat, nv);
        assert(nfa_reach(v, s).contains(ne));
    } else {
        let q = choose|q: usize| nfa_reach(b, s).contains(q) && b.ends.contains(q);
        lemma_or_reach_b(a, b, s);
        lemma_seed_below(b, s);
        lemma_close_below(b, reach_seed(b, s), b.states.len() as nat);
        let q2 = (q + a.states.len() as usize) as usize;
        let cb = eps_close_k(v, seed, (b.states.len() + 1) as nat);
        assert(lift_set(nfa_reach(b, s), a.states.len() as usize).contains(q2));
        assert(cb.contains(q2));
        assert(v.states[q as int + a.states.len()].eps.contains(ne));
        assert(v.states[q2 as int].eps.contains(ne));
        let j = choose|j: int| 0 <= j < v.states[q2 as int].eps.len() && v.states[q2 as int].eps[j]
            == ne;
        assert(eps_pass(v, cb).contains(ne));
        assert(eps_close_k(v, seed, (b.states.len() + 2) as nat).contains(ne));
        lemma_close_mono_k(v, seed, (b.states.len() + 2) as nat, nv);
        assert(nfa_reach(v, s).contains(ne));
    }
    assert(v.ends[0] == ne);
    assert(v.ends.contains(ne));
}

} // verus!
