//! Subset construction: turns an NFA into a DFA whose states stand for
//! epsilon-closed sets of NFA states, with byte-class compression of the
//! transition tables and associations carried over.

use vstd::prelude::*;
use vstd::std_specs::cmp::PartialEqSpec;

use crate::regex::dfa::assoc_covered;
use crate::regex::dfa::is_end;
use crate::regex::dfa::no_dup_eq;
use crate::regex::dfa::pool_deduped;
use crate::regex::dfa::pool_wf;
use crate::regex::dfa::spec_transition;
use crate::regex::dfa::DfaView;
use crate::regex::dfa::DFA;
use crate::regex::nfa::byte_step;
use crate::regex::nfa::eps_close;
use crate::regex::nfa::eps_close_k;
use crate::regex::nfa::eps_pass;
use crate::regex::nfa::nfa_reach;
use crate::regex::nfa::NfaView;
use crate::regex::nfa::NFA;
use crate::regex::stateid::StateId;

verus! {

/// The set of values a sequence lists.
pub open spec fn set_of(s: Seq<usize>) -> Set<usize> {
    Set::new(|q: usize| s.contains(q))
}

/// Strictly ascending: sorted with no duplicates.
pub open spec fn ascending(s: Seq<usize>) -> bool {
    forall|i: int, j: int| 0 <= i < j < s.len() ==> s[i] < s[j]
}

/// Every entry below `n`.
pub open spec fn all_below(s: Seq<usize>, n: int) -> bool {
    forall|j: int| 0 <= j < s.len() ==> (#[trigger] s[j] as int) < n
}

/// A DFA built by subset construction from `n`: every DFA state stands for
/// an epsilon-closed set of NFA states (state 0 for the closure of the
/// start), its transitions step those sets byte by byte, it accepts exactly
/// where its set meets the NFA's accepting states, and it carries the
/// union of its set's members' associations: every carried value comes
/// from a member, every member's value is covered by an equal carried one,
/// and no two carried values are equal (the latter two whenever the
/// element type's `==` obeys its specification).
pub open spec fn represents<A: PartialEq>(d: DfaView<A>, n: NfaView<A>) -> bool {
    &&& d.states.len() >= 1
    &&& d.sets.len() == d.states.len()
    &&& d.sets[0] == eps_close(n, Set::empty().insert(n.start))
    &&& forall|i: int, b: u8|
        0 <= i < d.states.len() ==> match #[trigger] spec_transition(d, i, b) {
            None => eps_close(n, byte_step(n, d.sets[i], b)).is_empty(),
            Some(sid) => (sid.0 as int) < d.states.len() && d.sets[sid.0 as int] == eps_close(
                n,
                byte_step(n, d.sets[i], b),
            ),
        }
    &&& forall|i: int|
        0 <= i < d.states.len() ==> (is_end(d, i) <==> exists|q: usize|
            (#[trigger] d.sets[i]).contains(q) && n.ends.contains(q))
    &&& forall|i: int, a: A|
        0 <= i < d.states.len() && (#[trigger] d.states[i].assoc.contains(a)) ==> exists|q: usize|
            d.sets[i].contains(q) && (q as int) < n.states.len() && n.states[
                q as int
            ].assoc.contains(a)
    &&& (A::obeys_eq_spec() ==> forall|i: int, q: usize, k: int|
        #![trigger d.sets[i].contains(q), n.states[q as int].assoc[k]]
        0 <= i < d.states.len() && d.sets[i].contains(q) && (q as int) < n.states.len() && 0 <= k
            < n.states[q as int].assoc.len() ==> assoc_covered(
            d.states[i].assoc,
            n.states[q as int].assoc[k],
        ))
    &&& (A::obeys_eq_spec() ==> forall|i: int|
        0 <= i < d.states.len() ==> no_dup_eq(#[trigger] d.states[i].assoc))
}

fn contains_state(v: &Vec<usize>, q: usize) -> (r: bool)
    ensures
        r == v@.contains(q),
{
    let n = v.len();
    let mut i: usize = 0;
    while i < n
        invariant
            0 <= i <= n,
            n == v@.len(),
            forall|j: int| 0 <= j < i ==> v@[j] != q,
        decreases n - i,
    {
        if v[i] == q {
            return true;
        }
        i += 1;
    }
    false
}

fn vec_eq(a: &Vec<usize>, b: &Vec<usize>) -> (r: bool)
    ensures
        r == (a@ == b@),
{
    let n = a.len();
    if n != b.len() {
        return false;
    }
    let mut i: usize = 0;
    while i < n
        invariant
            0 <= i <= n,
            n == a@.len(),
            n == b@.len(),
            forall|j: int| 0 <= j < i ==> a@[j] == b@[j],
        decreases n - i,
    {
        if a[i] != b[i] {
            return false;
        }
        i += 1;
    }
    proof {
        assert(a@ =~= b@);
    }
    true
}

/// Collects the marked indices, in ascending order.
fn collect_marked(marks: &Vec<bool>) -> (out: Vec<usize>)
    ensures
        ascending(out@),
        all_below(out@, marks@.len() as int),
        forall|q: usize| set_of(out@).contains(q) <==> ((q as int) < marks@.len() && marks@[q as int]),
{
    let n = marks.len();
    let mut out: Vec<usize> = Vec::new();
    let mut i: usize = 0;
    while i < n
        invariant
            0 <= i <= n,
            n == marks@.len(),
            ascending(out@),
            all_below(out@, i as int),
            forall|q: usize| out@.contains(q) <==> ((q as int) < i && marks@[q as int]),
        decreases n - i,
    {
        let ghost out0 = out@;
        if marks[i] {
            out.push(i);
            proof {
                assert forall|q: usize| out@.contains(q) implies ((q as int) < i + 1 && marks@[
                    q as int
                ]) by {
                    let j = choose|j: int| 0 <= j < out@.len() && out@[j] == q;
                    if j < out0.len() {
                        assert(out0[j] == q);
                        assert(out0.contains(q));
                    }
                }
                assert forall|q: usize| ((q as int) < i + 1 && marks@[q as int]) implies
                    out@.contains(q) by {
                    if (q as int) < i {
                        let j = choose|j: int| 0 <= j < out0.len() && out0[j] == q;
                        assert(out@[j] == q);
                    } else {
                        assert(out@[out@.len() - 1] == q);
                    }
                }
            }
        } else {
            proof {
                assert forall|q: usize| out@.contains(q) implies ((q as int) < i + 1 && marks@[
                    q as int
                ]) by {}
                assert forall|q: usize| ((q as int) < i + 1 && marks@[q as int]) implies
                    out@.contains(q) by {
                    assert((q as int) != i as int);
                }
            }
        }
        i += 1;
    }
    out
}

/// One round of epsilon saturation, executably: `t` plus everything one
/// epsilon edge away.
fn eps_pass_exec<A>(nfa: &NFA<A>, t: &Vec<usize>) -> (out: Vec<usize>)
    requires
        nfa.wf(),
        all_below(t@, nfa@.states.len() as int),
    ensures
        ascending(out@),
        all_below(out@, nfa@.states.len() as int),
        set_of(out@) == eps_pass(nfa@, set_of(t@)),
{
    let n = nfa.state_count();
    let mut marks: Vec<bool> = Vec::new();
    let mut i: usize = 0;
    while i < n
        invariant
            0 <= i <= n,
            marks@.len() == i,
            forall|q: int| 0 <= q < i ==> !marks@[q],
        decreases n - i,
    {
        marks.push(false);
        i += 1;
    }
    let tn = t.len();
    let mut j: usize = 0;
    while j < tn
        invariant
            0 <= j <= tn,
            tn == t@.len(),
            nfa.wf(),
            all_below(t@, nfa@.states.len() as int),
            n == nfa@.states.len(),
            marks@.len() == n,
            forall|q: int|
                0 <= q < n ==> (marks@[q] <==> exists|k: int|
                    0 <= k < j && t@[k] == (q as usize)),
        decreases tn - j,
    {
        let ghost m0 = marks@;
        let q = t[j];
        marks.set(q, true);
        proof {
            assert forall|qq: int| 0 <= qq < n implies (marks@[qq] <==> exists|k: int|
                0 <= k < j + 1 && t@[k] == (qq as usize)) by {
                if qq == q as int {
                    assert(t@[j as int] == (qq as usize));
                } else {
                    assert(marks@[qq] == m0[qq]);
                }
            }
        }
        j += 1;
    }
    let ghost tset = set_of(t@);
    proof {
        assert forall|q: int| 0 <= q < n implies (marks@[q] <==> tset.contains(q as usize)) by {}
    }
    let mut p: usize = 0;
    while p < tn
        invariant
            0 <= p <= tn,
            tn == t@.len(),
            nfa.wf(),
            all_below(t@, nfa@.states.len() as int),
            n == nfa@.states.len(),
            marks@.len() == n,
            tset == set_of(t@),
            forall|q: int|
                0 <= q < n ==> (marks@[q] <==> (tset.contains(q as usize) || exists|
                    k: int,
                    e: int,
                |
                    0 <= k < p && 0 <= e < nfa@.states[t@[k] as int].eps.len() && nfa@.states[
                        t@[k] as int
                    ].eps[e] == (q as usize))),
        decreases tn - p,
    {
        let src = t[p];
        let elen = nfa.eps_count(src);
        let mut e: usize = 0;
        while e < elen
            invariant
                0 <= e <= elen,
                0 <= p < tn,
                tn == t@.len(),
                src == t@[p as int],
                nfa.wf(),
                all_below(t@, nfa@.states.len() as int),
                n == nfa@.states.len(),
                elen == nfa@.states[src as int].eps.len(),
                marks@.len() == n,
                tset == set_of(t@),
                forall|q: int|
                    0 <= q < n ==> (marks@[q] <==> (tset.contains(q as usize) || (exists|
                        k: int,
                        ee: int,
                    |
                        0 <= k < p && 0 <= ee < nfa@.states[t@[k] as int].eps.len() && nfa@.states[
                            t@[k] as int
                        ].eps[ee] == (q as usize)) || (exists|ee: int|
                        0 <= ee < e && nfa@.states[src as int].eps[ee] == (q as usize)))),
            decreases elen - e,
        {
            let ghost m0 = marks@;
            let dst = nfa.eps_target(src, e);
            marks.set(dst, true);
            proof {
                assert forall|q: int| 0 <= q < n implies (marks@[q] <==> (tset.contains(q as usize)
                    || (exists|k: int, ee: int|
                    0 <= k < p && 0 <= ee < nfa@.states[t@[k] as int].eps.len() && nfa@.states[
                        t@[k] as int
                    ].eps[ee] == (q as usize)) || (exists|ee: int|
                    0 <= ee < e + 1 && nfa@.states[src as int].eps[ee] == (q as usize)))) by {
                    if q == dst as int {
                        assert(nfa@.states[src as int].eps[e as int] == (q as usize));
                    } else {
                        assert(marks@[q] == m0[q]);
                    }
                }
            }
            e += 1;
        }
        proof {
            assert forall|q: int| 0 <= q < n implies (marks@[q] <==> (tset.contains(q as usize)
                || exists|k: int, ee: int|
                0 <= k < p + 1 && 0 <= ee < nfa@.states[t@[k] as int].eps.len() && nfa@.states[
                    t@[k] as int
                ].eps[ee] == (q as usize))) by {}
        }
        p += 1;
    }
    let out = collect_marked(&marks);
    proof {
        assert forall|q: usize| set_of(out@).contains(q) <==> eps_pass(nfa@, tset).contains(
            q,
        ) by {
            if (q as int) < n {
                if marks@[q as int] {
                    if !tset.contains(q) {
                        let (k, ee) = choose|k: int, ee: int|
                            0 <= k < tn && 0 <= ee < nfa@.states[t@[k] as int].eps.len()
                                && nfa@.states[t@[k] as int].eps[ee] == q;
                        assert(t@.contains(t@[k]));
                        assert(tset.contains(t@[k]));
                        assert(eps_pass(nfa@, tset).contains(q));
                    }
                } else {
                    if eps_pass(nfa@, tset).contains(q) {
                        if !tset.contains(q) {
                            let (pp, ee) = choose|pp: usize, ee: int|
                                tset.contains(pp) && (pp as int) < nfa@.states.len() && 0 <= ee
                                    < nfa@.states[pp as int].eps.len() && nfa@.states[
                                    pp as int
                                ].eps[ee] == q;
                            let k = choose|k: int| 0 <= k < t@.len() && t@[k] == pp;
                            assert(marks@[q as int]);
                        }
                    }
                }
            }
        }
        assert(set_of(out@) =~= eps_pass(nfa@, tset));
    }
    out
}

/// The byte-`b` successors of `t`, executably.
fn byte_step_exec<A>(nfa: &NFA<A>, t: &Vec<usize>, b: u8) -> (out: Vec<usize>)
    requires
        nfa.wf(),
        all_below(t@, nfa@.states.len() as int),
    ensures
        ascending(out@),
        all_below(out@, nfa@.states.len() as int),
        set_of(out@) == byte_step(nfa@, set_of(t@), b),
{
    let n = nfa.state_count();
    let mut marks: Vec<bool> = Vec::new();
    let mut i: usize = 0;
    while i < n
        invariant
            0 <= i <= n,
            marks@.len() == i,
            forall|q: int| 0 <= q < i ==> !marks@[q],
        decreases n - i,
    {
        marks.push(false);
        i += 1;
    }
    let tn = t.len();
    let ghost tset = set_of(t@);
    let mut p: usize = 0;
    while p < tn
        invariant
            0 <= p <= tn,
            tn == t@.len(),
            nfa.wf(),
            all_below(t@, nfa@.states.len() as int),
            n == nfa@.states.len(),
            marks@.len() == n,
            tset == set_of(t@),
            forall|q: int|
                0 <= q < n ==> (marks@[q] <==> exists|k: int, e: int|
                    0 <= k < p && 0 <= e < nfa@.states[t@[k] as int].edges.len() && nfa@.states[
                        t@[k] as int
                    ].edges[e] == (b, q as usize)),
        decreases tn - p,
    {
        let src = t[p];
        let elen = nfa.edge_count(src);
        let mut e: usize = 0;
        while e < elen
            invariant
                0 <= e <= elen,
                0 <= p < tn,
                tn == t@.len(),
                src == t@[p as int],
                nfa.wf(),
                all_below(t@, nfa@.states.len() as int),
                n == nfa@.states.len(),
                elen == nfa@.states[src as int].edges.len(),
                marks@.len() == n,
                tset == set_of(t@),
                forall|q: int|
                    0 <= q < n ==> (marks@[q] <==> ((exists|k: int, ee: int|
                        0 <= k < p && 0 <= ee < nfa@.states[t@[k] as int].edges.len()
                            && nfa@.states[t@[k] as int].edges[ee] == (b, q as usize)) || (exists|
                        ee: int,
                    |
                        0 <= ee < e && nfa@.states[src as int].edges[ee] == (b, q as usize)))),
            decreases elen - e,
        {
            let ghost m0 = marks@;
            let edge = nfa.edge_at(src, e);
            if edge.0 == b {
                marks.set(edge.1, true);
            }
            proof {
                assert forall|q: int| 0 <= q < n implies (marks@[q] <==> ((exists|k: int, ee: int|
                    0 <= k < p && 0 <= ee < nfa@.states[t@[k] as int].edges.len() && nfa@.states[
                        t@[k] as int
                    ].edges[ee] == (b, q as usize)) || (exists|ee: int|
                    0 <= ee < e + 1 && nfa@.states[src as int].edges[ee] == (b, q as usize)))) by {
                    if edge.0 == b && q == edge.1 as int {
                        assert(nfa@.states[src as int].edges[e as int] == (b, q as usize));
                    } else {
                        assert(marks@[q] == m0[q]);
                        if nfa@.states[src as int].edges[e as int] == (b, q as usize) {
                            assert(q == edge.1 as int && edge.0 == b);
                        }
                    }
                }
            }
            e += 1;
        }
        proof {
            assert forall|q: int| 0 <= q < n implies (marks@[q] <==> exists|k: int, ee: int|
                0 <= k < p + 1 && 0 <= ee < nfa@.states[t@[k] as int].edges.len() && nfa@.states[
                    t@[k] as int
                ].edges[ee] == (b, q as usize)) by {}
        }
        p += 1;
    }
    let out = collect_marked(&marks);
    proof {
        assert forall|q: usize| set_of(out@).contains(q) <==> byte_step(nfa@, tset, b).contains(
            q,
        ) by {
            if (q as int) < n {
                if marks@[q as int] {
                    let (k, ee) = choose|k: int, ee: int|
                        0 <= k < tn && 0 <= ee < nfa@.states[t@[k] as int].edges.len()
                            && nfa@.states[t@[k] as int].edges[ee] == (b, q);
                    assert(t@.contains(t@[k]));
                    assert(tset.contains(t@[k]));
                    assert(byte_step(nfa@, tset, b).contains(q));
                } else {
                    if byte_step(nfa@, tset, b).contains(q) {
                        let (pp, ee) = choose|pp: usize, ee: int|
                            tset.contains(pp) && (pp as int) < nfa@.states.len() && 0 <= ee
                                < nfa@.states[pp as int].edges.len() && nfa@.states[
                                pp as int
                            ].edges[ee] == (b, q);
                        let k = choose|k: int| 0 <= k < t@.len() && t@[k] == pp;
                        assert(marks@[q as int]);
                    }
                }
            }
        }
        assert(set_of(out@) =~= byte_step(nfa@, tset, b));
    }
    out
}

proof fn lemma_close_fix<A>(v: NfaView<A>, s: Set<usize>, k: nat, j: nat)
    requires
        eps_pass(v, eps_close_k(v, s, k)) == eps_close_k(v, s, k),
        k <= j,
    ensures
        eps_close_k(v, s, j) == eps_close_k(v, s, k),
    decreases j,
{
    if j > k {
        lemma_close_fix(v, s, k, (j - 1) as nat);
    }
}

/// The epsilon closure of `t`, executably: saturation rounds up to the
/// number of states, stopping early at a fixed point.
fn eps_close_exec<A>(nfa: &NFA<A>, t: Vec<usize>) -> (out: Vec<usize>)
    requires
        nfa.wf(),
        all_below(t@, nfa@.states.len() as int),
    ensures
        ascending(out@),
        all_below(out@, nfa@.states.len() as int),
        set_of(out@) == eps_close(nfa@, set_of(t@)),
{
    let n = nfa.state_count();
    let ghost tset = set_of(t@);
    let mut cur = eps_pass_exec(nfa, &t);
    proof {
        assert(eps_close_k(nfa@, tset, 0) == tset);
    }
    if n == 0 {
        return cur;
    }
    let mut k: usize = 1;
    while k < n
        invariant
            1 <= k <= n,
            n == nfa@.states.len(),
            nfa.wf(),
            tset == set_of(t@),
            ascending(cur@),
            all_below(cur@, n as int),
            set_of(cur@) == eps_close_k(nfa@, tset, k as nat),
        decreases n - k,
    {
        let next = eps_pass_exec(nfa, &cur);
        if vec_eq(&next, &cur) {
            proof {
                assert(set_of(next@) == set_of(cur@));
                lemma_close_fix(nfa@, tset, k as nat, n as nat);
            }
            return cur;
        }
        cur = next;
        k += 1;
    }
    cur
}

/// The index of a set equal to `m` among those already created.
fn find_set(sets: &Vec<Vec<usize>>, m: &Vec<usize>) -> (r: Option<usize>)
    ensures
        match r {
            Some(j) => j < sets@.len() && sets@[j as int]@ == m@,
            None => forall|j: int| 0 <= j < sets@.len() ==> sets@[j]@ != m@,
        },
{
    let n = sets.len();
    let mut i: usize = 0;
    while i < n
        invariant
            0 <= i <= n,
            n == sets@.len(),
            forall|j: int| 0 <= j < i ==> sets@[j]@ != m@,
        decreases n - i,
    {
        if vec_eq(&sets[i], m) {
            return Some(i);
        }
        i += 1;
    }
    None
}

/// Installing the collected associations of an NFA-state set onto a fresh
/// DFA state yields exactly that union: every carried value comes from a
/// member, and every member's value is covered by an equal carried one.
proof fn lemma_assoc_install<A: PartialEq>(
    n: NfaView<A>,
    qset: Set<usize>,
    va: Seq<A>,
    fassoc: Seq<A>,
)
    requires
        forall|a: A|
            va.contains(a) <==> exists|q: usize|
                qset.contains(q) && (q as int) < n.states.len() && n.states[
                    q as int
                ].assoc.contains(a),
        forall|j: int| 0 <= j < fassoc.len() ==> va.contains(#[trigger] fassoc[j]),
        A::obeys_eq_spec() ==> forall|k: int|
            0 <= k < va.len() ==> assoc_covered(fassoc, #[trigger] va[k]),
    ensures
        forall|a: A|
            #[trigger] fassoc.contains(a) ==> exists|q: usize|
                qset.contains(q) && (q as int) < n.states.len() && n.states[
                    q as int
                ].assoc.contains(a),
        A::obeys_eq_spec() ==> forall|q: usize, k: int|
            #![trigger qset.contains(q), n.states[q as int].assoc[k]]
            qset.contains(q) && (q as int) < n.states.len() && 0 <= k < n.states[
                q as int
            ].assoc.len() ==> assoc_covered(fassoc, n.states[q as int].assoc[k]),
{
    assert forall|a: A| #[trigger] fassoc.contains(a) implies exists|q: usize|
        qset.contains(q) && (q as int) < n.states.len() && n.states[q as int].assoc.contains(
            a,
        ) by {
        let j = choose|j: int| 0 <= j < fassoc.len() && fassoc[j] == a;
        assert(va.contains(a));
    }
    if A::obeys_eq_spec() {
        assert forall|q: usize, k: int|
            qset.contains(q) && (q as int) < n.states.len() && 0 <= k < n.states[
                q as int
            ].assoc.len() implies assoc_covered(
            fassoc,
            #[trigger] n.states[q as int].assoc[k],
        ) by {
            let w = n.states[q as int].assoc[k];
            assert(n.states[q as int].assoc.contains(w));
            assert(va.contains(w));
            let kk = choose|kk: int| 0 <= kk < va.len() && va[kk] == w;
            assert(assoc_covered(fassoc, va[kk]));
        }
    }
}

/// The union of the association sets of the NFA states listed in `set`.
fn collect_assoc<A: Copy + PartialEq>(nfa: &NFA<A>, set: &Vec<usize>) -> (out: Vec<A>)
    requires
        nfa.wf(),
        all_below(set@, nfa@.states.len() as int),
    ensures
        forall|a: A|
            out@.contains(a) <==> exists|q: usize|
                set_of(set@).contains(q) && (q as int) < nfa@.states.len() && nfa@.states[
                    q as int
                ].assoc.contains(a),
{
    let n = set.len();
    let mut out: Vec<A> = Vec::new();
    let mut i: usize = 0;
    while i < n
        invariant
            0 <= i <= n,
            n == set@.len(),
            nfa.wf(),
            all_below(set@, nfa@.states.len() as int),
            forall|a: A|
                out@.contains(a) <==> exists|k: int, j: int|
                    0 <= k < i && 0 <= j < nfa@.states[set@[k] as int].assoc.len() && nfa@.states[
                        set@[k] as int
                    ].assoc[j] == a,
        decreases n - i,
    {
        let q = set[i];
        let alen = nfa.assoc_count(q);
        let mut j: usize = 0;
        while j < alen
            invariant
                0 <= j <= alen,
                0 <= i < n,
                n == set@.len(),
                q == set@[i as int],
                nfa.wf(),
                all_below(set@, nfa@.states.len() as int),
                alen == nfa@.states[q as int].assoc.len(),
                forall|a: A|
                    out@.contains(a) <==> ((exists|k: int, jj: int|
                        0 <= k < i && 0 <= jj < nfa@.states[set@[k] as int].assoc.len()
                            && nfa@.states[set@[k] as int].assoc[jj] == a) || (exists|jj: int|
                        0 <= jj < j && nfa@.states[q as int].assoc[jj] == a)),
            decreases alen - j,
        {
            let ghost out0 = out@;
            let a = nfa.assoc_at(q, j);
            out.push(a);
            proof {
                assert forall|aa: A| out@.contains(aa) <==> ((exists|k: int, jj: int|
                    0 <= k < i && 0 <= jj < nfa@.states[set@[k] as int].assoc.len() && nfa@.states[
                        set@[k] as int
                    ].assoc[jj] == aa) || (exists|jj: int|
                    0 <= jj < j + 1 && nfa@.states[q as int].assoc[jj] == aa)) by {
                    if out@.contains(aa) {
                        let w = choose|w: int| 0 <= w < out@.len() && out@[w] == aa;
                        if w < out0.len() {
                            assert(out0.contains(aa));
                        } else {
                            assert(nfa@.states[q as int].assoc[j as int] == aa);
                        }
                    } else {
                        if out0.contains(aa) {
                            let w = choose|w: int| 0 <= w < out0.len() && out0[w] == aa;
                            assert(out@[w] == aa);
                        }
                        assert(!out0.contains(aa));
                    }
                    if aa == a {
                        assert(out@[out@.len() - 1] == aa);
                    }
                }
            }
            j += 1;
        }
        proof {
            assert forall|a: A| out@.contains(a) <==> exists|k: int, jj: int|
                0 <= k < i + 1 && 0 <= jj < nfa@.states[set@[k] as int].assoc.len() && nfa@.states[
                    set@[k] as int
                ].assoc[jj] == a by {}
        }
        i += 1;
    }
    proof {
        assert forall|a: A| out@.contains(a) <==> exists|q: usize|
            set_of(set@).contains(q) && (q as int) < nfa@.states.len() && nfa@.states[
                q as int
            ].assoc.contains(a) by {
            if out@.contains(a) {
                let (k, j) = choose|k: int, j: int|
                    0 <= k < n && 0 <= j < nfa@.states[set@[k] as int].assoc.len() && nfa@.states[
                        set@[k] as int
                    ].assoc[j] == a;
                assert(set@.contains(set@[k]));
                assert(set_of(set@).contains(set@[k]));
                assert(nfa@.states[set@[k] as int].assoc.contains(a));
            } else {
                if exists|q: usize|
                    set_of(set@).contains(q) && (q as int) < nfa@.states.len() && nfa@.states[
                        q as int
                    ].assoc.contains(a) {
                    let q = choose|q: usize|
                        set_of(set@).contains(q) && (q as int) < nfa@.states.len() && nfa@.states[
                            q as int
                        ].assoc.contains(a);
                    let k = choose|k: int| 0 <= k < set@.len() && set@[k] == q;
                    let j = choose|j: int|
                        0 <= j < nfa@.states[q as int].assoc.len() && nfa@.states[
                            q as int
                        ].assoc[j] == a;
                    assert(0 <= k < n && 0 <= j < nfa@.states[set@[k] as int].assoc.len()
                        && nfa@.states[set@[k] as int].assoc[j] == a);
                    assert(out@.contains(a));
                }
            }
        }
    }
    out
}

/// Whether `set` holds an accepting state of the NFA.
fn intersects_ends<A>(nfa: &NFA<A>, set: &Vec<usize>) -> (r: bool)
    ensures
        r == exists|q: usize| set_of(set@).contains(q) && nfa@.ends.contains(q),
{
    let n = nfa.ends_count();
    let mut i: usize = 0;
    while i < n
        invariant
            0 <= i <= n,
            n == nfa@.ends.len(),
            forall|k: int| 0 <= k < i ==> !set@.contains(nfa@.ends[k]),
        decreases n - i,
    {
        let e = nfa.end_at(i);
        if contains_state(set, e) {
            proof {
                assert(set_of(set@).contains(e));
                assert(nfa@.ends.contains(e));
            }
            return true;
        }
        i += 1;
    }
    proof {
        assert forall|q: usize| set_of(set@).contains(q) implies !nfa@.ends.contains(q) by {
            if nfa@.ends.contains(q) {
                let k = choose|k: int| 0 <= k < nfa@.ends.len() && nfa@.ends[k] == q;
            }
        }
    }
    false
}

/// The views of the working sets of the construction.
pub open spec fn seqs_of(s: Seq<Vec<usize>>) -> Seq<Seq<usize>> {
    s.map(|i: int, v: Vec<usize>| v@)
}

/// What holds of the partially built DFA throughout the construction.
spec fn building_inv<A: PartialEq>(d: DfaView<A>, n: NfaView<A>, esets: Seq<Seq<usize>>) -> bool {
    &&& d.states.len() == esets.len()
    &&& d.sets.len() == d.states.len()
    &&& d.states.len() >= 1
    &&& forall|i: int| 0 <= i < esets.len() ==> d.sets[i] == set_of(#[trigger] esets[i])
    &&& forall|i: int|
        0 <= i < esets.len() ==> ascending(#[trigger] esets[i]) && all_below(
            esets[i],
            n.states.len() as int,
        )
    &&& d.sets[0] == eps_close(n, Set::empty().insert(n.start))
    &&& forall|j: int| 0 <= j < d.ends.len() ==> ((#[trigger] d.ends[j]).0 as int) < d.states.len()
    &&& forall|i: int|
        0 <= i < d.states.len() ==> (is_end(d, i) <==> exists|q: usize|
            (#[trigger] d.sets[i]).contains(q) && n.ends.contains(q))
    &&& forall|i: int, a: A|
        0 <= i < d.states.len() && (#[trigger] d.states[i].assoc.contains(a)) ==> exists|q: usize|
            d.sets[i].contains(q) && (q as int) < n.states.len() && n.states[
                q as int
            ].assoc.contains(a)
    &&& (A::obeys_eq_spec() ==> forall|i: int, q: usize, k: int|
        #![trigger d.sets[i].contains(q), n.states[q as int].assoc[k]]
        0 <= i < d.states.len() && d.sets[i].contains(q) && (q as int) < n.states.len() && 0 <= k
            < n.states[q as int].assoc.len() ==> assoc_covered(
            d.states[i].assoc,
            n.states[q as int].assoc[k],
        ))
    &&& (A::obeys_eq_spec() ==> forall|i: int|
        0 <= i < d.states.len() ==> no_dup_eq(#[trigger] d.states[i].assoc))
    &&& pool_deduped(d)
    &&& pool_wf(d)
}

/// The transition property of the first `p` DFA states: their compressed
/// tables step their sets byte by byte.
spec fn trans_done<A>(d: DfaView<A>, n: NfaView<A>, p: int) -> bool {
    &&& forall|i: int|
        0 <= i < p ==> 0 <= (#[trigger] d.states[i]).class < d.pool.len()
    &&& forall|i: int, b: u8|
        0 <= i < p ==> match #[trigger] spec_transition(d, i, b) {
            None => eps_close(n, byte_step(n, d.sets[i], b)).is_empty(),
            Some(sid) => (sid.0 as int) < d.states.len() && d.sets[sid.0 as int] == eps_close(
                n,
                byte_step(n, d.sets[i], b),
            ),
        }
}

impl<A: Copy + PartialEq> NFA<A> {
    /// Subset construction: the resulting DFA's states stand for the
    /// epsilon-closed sets of NFA states, with the NFA's accepting states
    /// and associations carried over, and the byte-class pool deduplicated.
    pub fn to_dfa(&self) -> (d: DFA<A>)
        requires
            self.wf(),
        ensures
            represents(d@, self@),
            pool_deduped(d@),
            pool_wf(d@),
    {
        let ghost n = self@;
        let mut seed: Vec<usize> = Vec::new();
        seed.push(self.start_state());
        proof {
            assert forall|q: usize|
                set_of(seed@).contains(q) <==> Set::empty().insert(n.start).contains(q) by {
                if q == n.start {
                    assert(seed@[0] == q);
                } else {
                    if seed@.contains(q) {
                        let j = choose|j: int| 0 <= j < seed@.len() && seed@[j] == q;
                        assert(j == 0);
                    }
                }
            }
            assert(set_of(seed@) =~= Set::empty().insert(n.start));
        }
        let s0 = eps_close_exec(self, seed);
        let mut dfa: DFA<A> = DFA::new();
        let id0 = dfa.push_state(Ghost(set_of(s0@)));
        let a0 = collect_assoc(self, &s0);
        dfa.associate(id0, a0);
        let acc0 = intersects_ends(self, &s0);
        if acc0 {
            dfa.push_end(id0);
        }
        let mut sets: Vec<Vec<usize>> = Vec::new();
        sets.push(s0);
        proof {
            assert(seqs_of(sets@).len() == 1);
            assert(seqs_of(sets@)[0] == sets@[0]@);
            assert(dfa@.sets[0] == set_of(sets@[0]@));
            assert(no_dup_eq(Seq::<A>::empty()));
            lemma_assoc_install(n, set_of(sets@[0]@), a0@, dfa@.states[0].assoc);
            assert forall|i: int, a: A|
                0 <= i < dfa@.states.len() && (#[trigger] dfa@.states[i].assoc.contains(
                    a,
                )) implies exists|q: usize|
                dfa@.sets[i].contains(q) && (q as int) < n.states.len() && n.states[
                    q as int
                ].assoc.contains(a) by {
                assert(i == 0);
            }
            if A::obeys_eq_spec() {
                assert forall|i: int, q: usize, k: int|
                    0 <= i < dfa@.states.len() && dfa@.sets[i].contains(q) && (q as int)
                        < n.states.len() && 0 <= k < n.states[q as int].assoc.len() implies
                    assoc_covered(dfa@.states[i].assoc, n.states[q as int].assoc[k]) by {
                    assert(i == 0);
                    assert(set_of(sets@[0]@).contains(q));
                }
                assert forall|i: int| 0 <= i < dfa@.states.len() implies no_dup_eq(
                    #[trigger] dfa@.states[i].assoc,
                ) by {
                    assert(i == 0);
                }
            }
            if acc0 {
                assert(dfa@.ends[0].0 == 0);
                assert(is_end(dfa@, 0));
            } else {
                assert(dfa@.ends.len() == 0);
                assert(!is_end(dfa@, 0));
            }
            assert forall|i: int|
                0 <= i < dfa@.states.len() implies (is_end(dfa@, i) <==> exists|q: usize|
                (#[trigger] dfa@.sets[i]).contains(q) && n.ends.contains(q)) by {
                assert(i == 0);
            }
            assert(building_inv(dfa@, n, seqs_of(sets@)));
        }
        let mut p: usize = 0;
        while p < sets.len()
            invariant
                self.wf(),
                n == self@,
                p <= sets@.len(),
                building_inv(dfa@, n, seqs_of(sets@)),
                trans_done(dfa@, n, p as int),
            decreases usize::MAX - p,
        {
            let mut dense: Vec<Option<StateId>> = Vec::new();
            let mut b: usize = 0;
            while b < 256
                invariant
                    self.wf(),
                    n == self@,
                    p < sets@.len(),
                    building_inv(dfa@, n, seqs_of(sets@)),
                    trans_done(dfa@, n, p as int),
                    0 <= b <= 256,
                    dense@.len() == b,
                    forall|c: int|
                        0 <= c < b ==> match #[trigger] dense@[c] {
                            None => eps_close(n, byte_step(n, dfa@.sets[p as int], c as u8)).is_empty(),
                            Some(sid) => (sid.0 as int) < dfa@.states.len() && dfa@.sets[
                                sid.0 as int
                            ] == eps_close(n, byte_step(n, dfa@.sets[p as int], c as u8)),
                        },
                decreases 256 - b,
            {
                proof {
                    assert(seqs_of(sets@)[p as int] == sets@[p as int]@);
                }
                let stepped = byte_step_exec(self, &sets[p], b as u8);
                let m = eps_close_exec(self, stepped);
                let ghost mset = eps_close(n, byte_step(n, dfa@.sets[p as int], b as u8));
                proof {
                    assert(dfa@.sets[p as int] == set_of(sets@[p as int]@));
                    assert(set_of(m@) == mset);
                }
                if m.len() == 0 {
                    proof {
                        assert forall|q: usize| !set_of(m@).contains(q) by {}
                        assert(mset =~= Set::<usize>::empty());
                    }
                    dense.push(None);
                } else {
                    match find_set(&sets, &m) {
                        Some(j) => {
                            proof {
                                assert(seqs_of(sets@)[j as int] == sets@[j as int]@);
                                assert(dfa@.sets[j as int] == set_of(m@));
                            }
                            dense.push(Some(StateId::of(j)));
                        },
                        None => {
                            let ghost d0 = dfa@;
                            let ghost sets0 = sets@;
                            let id = dfa.push_state(Ghost(set_of(m@)));
                            let a2 = collect_assoc(self, &m);
                            dfa.associate(id, a2);
                            let has_end = intersects_ends(self, &m);
                            if has_end {
                                dfa.push_end(id);
                            }
                            sets.push(m);
                            dense.push(Some(id));
                            proof {
                                let dv = dfa@;
                                let es = seqs_of(sets@);
                                assert(es =~= seqs_of(sets0).push(sets@[sets@.len() - 1]@));
                                assert(dv.pool == d0.pool);
                                assert(dv.states.len() == d0.states.len() + 1);
                                assert forall|i: int| 0 <= i < d0.states.len() implies dv.states[i]
                                    == d0.states[i] && dv.sets[i] == d0.sets[i] by {}
                                assert forall|i: int, bb: u8| 0 <= i < p implies spec_transition(
                                    dv,
                                    i,
                                    bb,
                                ) == spec_transition(d0, i, bb) by {
                                    assert(dv.states[i] == d0.states[i]);
                                }
                                assert forall|i: int| 0 <= i < es.len() implies dv.sets[i] == set_of(
                                    #[trigger] es[i],
                                ) && ascending(es[i]) && all_below(es[i], n.states.len() as int) by {
                                    if i < d0.states.len() {
                                        assert(es[i] == seqs_of(sets0)[i]);
                                        assert(seqs_of(sets0)[i] == sets0[i]@);
                                    } else {
                                        assert(es[i] == sets@[sets@.len() - 1]@);
                                    }
                                }
                                assert(no_dup_eq(Seq::<A>::empty()));
                                lemma_assoc_install(
                                    n,
                                    set_of(sets@[sets@.len() - 1]@),
                                    a2@,
                                    dv.states[id.0 as int].assoc,
                                );
                                assert forall|i: int|
                                    0 <= i < dv.states.len() implies (is_end(dv, i) <==> exists|
                                    q: usize,
                                |
                                    (#[trigger] dv.sets[i]).contains(q) && n.ends.contains(
                                        q,
                                    )) by {
                                    if i < d0.states.len() {
                                        assert(dv.sets[i] == d0.sets[i]);
                                        assert forall|j: int|
                                            0 <= j < dv.ends.len() && dv.ends[j].0 == i implies
                                            is_end(d0, i) by {
                                            if j < d0.ends.len() {
                                                assert(d0.ends[j].0 == i);
                                            }
                                        }
                                        if is_end(d0, i) {
                                            let j = choose|j: int|
                                                0 <= j < d0.ends.len() && d0.ends[j].0 == i;
                                            assert(dv.ends[j].0 == i);
                                        }
                                    } else {
                                        if has_end {
                                            assert(dv.ends[dv.ends.len() - 1].0 == i);
                                        } else {
                                            assert forall|j: int|
                                                0 <= j < dv.ends.len() implies dv.ends[j].0
                                                != i by {
                                                assert(dv.ends[j] == d0.ends[j]);
                                                assert((dv.ends[j].0 as int) < d0.states.len());
                                            }
                                        }
                                    }
                                }
                assert forall|i: int, a: A|
                                    0 <= i < dv.states.len() && (#[trigger] dv.states[
                                    i
                                ].assoc.contains(a)) implies exists|q: usize|
                                    dv.sets[i].contains(q) && (q as int) < n.states.len()
                                        && n.states[q as int].assoc.contains(a) by {
                                    if i < d0.states.len() {
                                        assert(dv.states[i] == d0.states[i]);
                                        assert(dv.sets[i] == d0.sets[i]);
                                    } else {
                                        assert(dv.sets[i] == set_of(sets@[sets@.len() - 1]@));
                                    }
                                }
                                if A::obeys_eq_spec() {
                                    assert forall|i: int, q: usize, k: int|
                                        0 <= i < dv.states.len() && dv.sets[i].contains(q) && (
                                        q as int) < n.states.len() && 0 <= k < n.states[
                                            q as int
                                        ].assoc.len() implies assoc_covered(
                                        dv.states[i].assoc,
                                        n.states[q as int].assoc[k],
                                    ) by {
                                        if i < d0.states.len() {
                                            assert(dv.states[i] == d0.states[i]);
                                            assert(dv.sets[i] == d0.sets[i]);
                                        } else {
                                            assert(dv.sets[i] == set_of(
                                                sets@[sets@.len() - 1]@,
                                            ));
                                        }
                                    }
                                    assert forall|i: int| 0 <= i < dv.states.len() implies
                                        no_dup_eq(#[trigger] dv.states[i].assoc) by {
                                        if i < d0.states.len() {
                                            assert(dv.states[i] == d0.states[i]);
                                        }
                                    }
                                }
                                assert(building_inv(dv, n, es));
                                assert(trans_done(dv, n, p as int));
                                assert forall|c: int| 0 <= c < b + 1 implies match #[trigger] dense@[c] {
                                    None => eps_close(
                                        n,
                                        byte_step(n, dv.sets[p as int], c as u8),
                                    ).is_empty(),
                                    Some(sid) => (sid.0 as int) < dv.states.len() && dv.sets[
                                        sid.0 as int
                                    ] == eps_close(n, byte_step(n, dv.sets[p as int], c as u8)),
                                } by {
                                    assert(dv.sets[p as int] == d0.sets[p as int]);
                                    if c < b {
                                        match dense@[c] {
                                            None => {},
                                            Some(sid) => {
                                                assert((sid.0 as int) < d0.states.len());
                                                assert(dv.sets[sid.0 as int] == d0.sets[
                                                    sid.0 as int
                                                ]);
                                            },
                                        }
                                    } else {
                                        assert(dense@[c] == Some(id));
                                        assert(dv.sets[id.0 as int] == set_of(
                                            sets@[sets@.len() - 1]@,
                                        ));
                                    }
                                }
                            }
                        },
                    }
                }
                b += 1;
            }
            let ghost dmid = dfa@;
            dfa.set_transitions(StateId::of(p), dense);
            proof {
                let dv = dfa@;
                assert forall|i: int, bb: u8| 0 <= i < p + 1 implies match #[trigger] spec_transition(
                    dv,
                    i,
                    bb,
                ) {
                    None => eps_close(n, byte_step(n, dv.sets[i], bb)).is_empty(),
                    Some(sid) => (sid.0 as int) < dv.states.len() && dv.sets[sid.0 as int]
                        == eps_close(n, byte_step(n, dv.sets[i], bb)),
                } by {
                    if i < p {
                        assert(spec_transition(dv, i, bb) == spec_transition(dmid, i, bb));
                    } else {
                        assert(spec_transition(dv, i, bb) == dense@[bb as int]);
                    }
                }
                assert(building_inv(dv, n, seqs_of(sets@)));
                assert(trans_done(dv, n, p + 1));
            }
            p += 1;
        }
        proof {
            assert(represents(dfa@, self@));
        }
        dfa
    }
}

/// The DFA's run over `s` from state 0: the state reached, or nothing once
/// a transition is missing.
pub open spec fn run_from<A>(d: DfaView<A>, cur: int, s: Seq<u8>) -> Option<int>
    decreases s.len(),
{
    if s.len() == 0 {
        Some(cur)
    } else {
        match run_from(d, cur, s.drop_last()) {
            Some(x) => match spec_transition(d, x, s.last()) {
                Some(nx) => Some(nx.0 as int),
                None => None,
            },
            None => None,
        }
    }
}

proof fn lemma_run_shift<A>(d: DfaView<A>, cur: int, s: Seq<u8>)
    requires
        s.len() > 0,
    ensures
        run_from(d, cur, s) == (match spec_transition(d, cur, s[0]) {
            Some(nx) => run_from(d, nx.0 as int, s.subrange(1, s.len() as int)),
            None => None::<int>,
        }),
    decreases s.len(),
{
    let rest = s.subrange(1, s.len() as int);
    if s.len() == 1 {
        assert(s.drop_last() =~= Seq::<u8>::empty());
        assert(rest =~= Seq::<u8>::empty());
    } else {
        lemma_run_shift(d, cur, s.drop_last());
        assert(s.drop_last()[0] == s[0]);
        assert(s.drop_last().subrange(1, s.drop_last().len() as int) =~= rest.drop_last());
        assert(rest.last() == s.last());
    }
}

/// A walk accepts exactly when the run ends in an accepting state.
proof fn lemma_walk_run<A>(d: DfaView<A>, cur: int, s: Seq<u8>)
    ensures
        crate::regex::dfa::spec_walk(d, cur, s) == (match run_from(d, cur, s) {
            Some(e) => if is_end(d, e) {
                Ok::<int, Option<int>>(e)
            } else {
                crate::regex::dfa::spec_walk(d, cur, s)
            },
            None => crate::regex::dfa::spec_walk(d, cur, s),
        }),
        (crate::regex::dfa::spec_walk(d, cur, s) is Ok) <==> (match run_from(d, cur, s) {
            Some(e) => is_end(d, e),
            None => false,
        }),
        forall|e: int|
            run_from(d, cur, s) == Some(e) && is_end(d, e) ==> crate::regex::dfa::spec_walk(
                d,
                cur,
                s,
            ) == Ok::<int, Option<int>>(e),
    decreases s.len(),
{
    if s.len() == 0 {
    } else {
        lemma_run_shift(d, cur, s);
        match spec_transition(d, cur, s[0]) {
            Some(nx) => {
                lemma_walk_run(d, nx.0 as int, s.subrange(1, s.len() as int));
            },
            None => {},
        }
    }
}

proof fn lemma_empty_stays_empty<A>(v: NfaView<A>, k: nat)
    ensures
        eps_close_k(v, Set::<usize>::empty(), k) =~= Set::<usize>::empty(),
    decreases k,
{
    if k > 0 {
        lemma_empty_stays_empty(v, (k - 1) as nat);
        assert(eps_pass(v, Set::<usize>::empty()) =~= Set::<usize>::empty());
        assert(eps_close_k(v, Set::empty(), k) == eps_pass(
            v,
            eps_close_k(v, Set::empty(), (k - 1) as nat),
        ));
    }
}

/// In a DFA built by subset construction, the run over `s` lands in the
/// state standing for exactly the NFA states reachable on `s` (and gets
/// stuck exactly when no NFA state is reachable).
proof fn lemma_run_sets<A: PartialEq>(d: DfaView<A>, n: NfaView<A>, s: Seq<u8>)
    requires
        represents(d, n),
    ensures
        match run_from(d, 0, s) {
            Some(e) => 0 <= e < d.states.len() && d.sets[e] == nfa_reach(n, s),
            None => nfa_reach(n, s).is_empty(),
        },
    decreases s.len(),
{
    if s.len() == 0 {
    } else {
        lemma_run_sets(d, n, s.drop_last());
        match run_from(d, 0, s.drop_last()) {
            Some(e) => {
                match spec_transition(d, e, s.last()) {
                    Some(nx) => {},
                    None => {},
                }
            },
            None => {
                assert(byte_step(n, nfa_reach(n, s.drop_last()), s.last()) =~= Set::<
                    usize,
                >::empty());
                lemma_empty_stays_empty(n, n.states.len() as nat);
                assert(nfa_reach(n, s) =~= Set::<usize>::empty());
            },
        }
    }
}

/// Associations are preserved by subset construction: the state the
/// matcher's walk over `s` lands in carries exactly the union of the
/// associations of the NFA states reachable on `s` — every carried value
/// comes from a reachable state, every reachable state's value is covered
/// by an equal carried one, and no two carried values are equal (the
/// latter two whenever the element type's `==` obeys its specification).
pub proof fn lemma_find_associations<A: PartialEq>(d: DfaView<A>, n: NfaView<A>, s: Seq<u8>, e: int)
    requires
        represents(d, n),
        crate::regex::dfa::spec_find(d, s) == Ok::<int, Option<int>>(e),
    ensures
        0 <= e < d.states.len(),
        forall|a: A|
            (#[trigger] d.states[e].assoc.contains(a)) ==> exists|q: usize|
                nfa_reach(n, s).contains(q) && (q as int) < n.states.len() && n.states[
                    q as int
                ].assoc.contains(a),
        A::obeys_eq_spec() ==> forall|q: usize, k: int|
            #![trigger nfa_reach(n, s).contains(q), n.states[q as int].assoc[k]]
            nfa_reach(n, s).contains(q) && (q as int) < n.states.len() && 0 <= k < n.states[
                q as int
            ].assoc.len() ==> crate::regex::dfa::assoc_covered(
                d.states[e].assoc,
                n.states[q as int].assoc[k],
            ),
        A::obeys_eq_spec() ==> no_dup_eq(d.states[e].assoc),
{
    lemma_walk_run(d, 0, s);
    lemma_run_sets(d, n, s);
    match run_from(d, 0, s) {
        Some(x) => {
            assert(crate::regex::dfa::spec_walk(d, 0, s) == Ok::<int, Option<int>>(x));
            assert(x == e);
            assert(d.sets[e] == nfa_reach(n, s));
        },
        None => {
            assert(false);
        },
    }
}

/// One direction of the union law, at the matcher level: an input that the
/// DFA of either operand accepts, the DFA of the operands' union accepts.
/// (The converse is not stated here.)
pub proof fn lemma_or_dfa_accepts_either<A: PartialEq>(
    da: DfaView<A>,
    db: DfaView<A>,
    dv: DfaView<A>,
    a: NfaView<A>,
    b: NfaView<A>,
    s: Seq<u8>,
)
    requires
        represents(da, a),
        represents(db, b),
        represents(dv, crate::regex::nfa::or_view(a, b)),
        crate::regex::nfa::nfa_valid(a),
        crate::regex::nfa::nfa_valid(b),
        a.states.len() + b.states.len() + 2 <= usize::MAX,
        (crate::regex::dfa::spec_find(da, s) is Ok) || (crate::regex::dfa::spec_find(db, s) is Ok),
    ensures
        crate::regex::dfa::spec_find(dv, s) is Ok,
{
    lemma_dfa_matches_nfa(da, a, s);
    lemma_dfa_matches_nfa(db, b, s);
    crate::regex::nfa::lemma_or_accepts_either(a, b, s);
    lemma_dfa_matches_nfa(dv, crate::regex::nfa::or_view(a, b), s);
}

/// The central fact of subset construction: the DFA built from an NFA
/// accepts an input exactly when the NFA reaches an accepting state on it.
pub proof fn lemma_dfa_matches_nfa<A: PartialEq>(d: DfaView<A>, n: NfaView<A>, s: Seq<u8>)
    requires
        represents(d, n),
    ensures
        (crate::regex::dfa::spec_find(d, s) is Ok) <==> crate::regex::nfa::nfa_accepts(n, s),
{
    lemma_walk_run(d, 0, s);
    lemma_run_sets(d, n, s);
    match run_from(d, 0, s) {
        Some(e) => {
            assert(d.sets[e] == nfa_reach(n, s));
            if is_end(d, e) {
                let q = choose|q: usize| d.sets[e].contains(q) && n.ends.contains(q);
                assert(nfa_reach(n, s).contains(q) && n.ends.contains(q));
                assert(crate::regex::nfa::nfa_accepts(n, s));
            } else {
                if crate::regex::nfa::nfa_accepts(n, s) {
                    let q = choose|q: usize| nfa_reach(n, s).contains(q) && n.ends.contains(q);
                    assert(d.sets[e].contains(q) && n.ends.contains(q));
                }
            }
        },
        None => {
            assert(nfa_reach(n, s).is_empty());
            if crate::regex::nfa::nfa_accepts(n, s) {
                let q = choose|q: usize| nfa_reach(n, s).contains(q) && n.ends.contains(q);
                assert(nfa_reach(n, s).contains(q));
            }
        },
    }
}

} // verus!
