//! The compact DFA: per-state column tables indexed through pooled byte
//! classes, association sets, and the matcher.

use vstd::prelude::*;
use vstd::std_specs::cmp::PartialEqSpec;
use vstd::string::StrSliceExecFns;
use vstd::string::StringSliceAdditionalSpecFns;

use indexmap::IndexSet;

use crate::regex::byteclass;
use crate::regex::byteclass::ByteClass;
use crate::regex::stateid::ByteClassId;
use crate::regex::stateid::StateId;

verus! {

/// One DFA state: a short column table (the distinct destinations), the
/// byte class translating input bytes to columns, and the values associated
/// with the state.
#[derive(Debug, Clone)]
pub struct DfaState<A> {
    table: Vec<Option<StateId>>,
    class: ByteClassId,
    associations: Vec<A>,
}

/// The mathematical content of one DFA state.
pub ghost struct DfaStateView<A> {
    pub table: Seq<Option<StateId>>,
    pub class: int,
    pub assoc: Seq<A>,
}

/// The mathematical content of a DFA: its states, its accepting states,
/// its byte-class pool, and (for a DFA built by subset construction) the
/// set of NFA states every DFA state stands for.
pub ghost struct DfaView<A> {
    pub states: Seq<DfaStateView<A>>,
    pub ends: Seq<StateId>,
    pub pool: Seq<Seq<u8>>,
    pub sets: Seq<Set<usize>>,
}

impl<A> View for DfaState<A> {
    type V = DfaStateView<A>;

    closed spec fn view(&self) -> DfaStateView<A> {
        DfaStateView { table: self.table@, class: self.class.0 as int, assoc: self.associations@ }
    }
}

pub struct DFA<A> {
    pub(crate) states: Vec<DfaState<A>>,
    ends: Vec<StateId>,
    pub(crate) transitions: IndexSet<ByteClass>,
    rep_sets: Ghost<Seq<Set<usize>>>,
}

impl<A> View for DFA<A> {
    type V = DfaView<A>;

    closed spec fn view(&self) -> DfaView<A> {
        DfaView {
            states: self.states@.map(|i: int, st: DfaState<A>| st@),
            ends: self.ends@,
            pool: byteclass::pool_elems(&self.transitions),
            sets: self.rep_sets@,
        }
    }
}

/// No two entries of the byte-class pool have the same 256-byte content.
pub open spec fn pool_deduped<A>(v: DfaView<A>) -> bool {
    forall|i: int, j: int| 0 <= i < j < v.pool.len() ==> v.pool[i] != v.pool[j]
}

/// Every entry of the byte-class pool is a full 256-entry table.
pub open spec fn pool_wf<A>(v: DfaView<A>) -> bool {
    forall|i: int| 0 <= i < v.pool.len() ==> (#[trigger] v.pool[i]).len() == 256
}

/// `s` with runs of equal consecutive entries collapsed to one.
pub open spec fn dedup_consecutive(s: Seq<StateId>) -> Seq<StateId>
    decreases s.len(),
{
    if s.len() == 0 {
        s
    } else {
        let p = dedup_consecutive(s.drop_last());
        if p.len() > 0 && p.last() == s.last() {
            p
        } else {
            p.push(s.last())
        }
    }
}

/// Whether state `d` is accepting.
pub open spec fn is_end<A>(v: DfaView<A>, d: int) -> bool {
    exists|j: int| 0 <= j < v.ends.len() && v.ends[j].0 == d
}

/// Whether some association in `s` equals `a`, by the element type's
/// equality specification.
pub open spec fn assoc_matches<A: PartialEq>(s: Seq<A>, a: A) -> bool {
    exists|j: int| 0 <= j < s.len() && s[j].eq_spec(&a)
}

/// Whether `a` is in `s`, either as the value itself or as an association
/// its equality calls equal.
pub open spec fn assoc_covered<A: PartialEq>(s: Seq<A>, a: A) -> bool {
    s.contains(a) || assoc_matches(s, a)
}

/// No two associations are equal, by the element type's equality
/// specification.
pub open spec fn no_dup_eq<A: PartialEq>(s: Seq<A>) -> bool {
    forall|i: int, j: int| 0 <= i < j < s.len() ==> !s[i].eq_spec(&s[j])
}

/// The transition function of the DFA: byte `b` is first translated to a
/// column by the state's byte class, and the column indexes the state's
/// table.  A malformed index yields no transition.
pub open spec fn spec_transition<A>(v: DfaView<A>, d: int, b: u8) -> Option<StateId> {
    if 0 <= d < v.states.len() {
        let st = v.states[d];
        if 0 <= st.class < v.pool.len() && v.pool[st.class].len() == 256 {
            let col = v.pool[st.class][b as int] as int;
            if col < st.table.len() {
                st.table[col]
            } else {
                None
            }
        } else {
            None
        }
    } else {
        None
    }
}

/// The matcher's walk from state `cur` over the bytes of `s`: the accepting
/// state it ends in, or the state where it got stuck or stopped without
/// accepting.
pub open spec fn spec_walk<A>(v: DfaView<A>, cur: int, s: Seq<u8>) -> Result<int, Option<int>>
    decreases s.len(),
{
    if s.len() == 0 {
        if is_end(v, cur) {
            Ok(cur)
        } else {
            Err(Some(cur))
        }
    } else {
        match spec_transition(v, cur, s[0]) {
            Some(n) => spec_walk(v, n.0 as int, s.subrange(1, s.len() as int)),
            None => Err(Some(cur)),
        }
    }
}

/// What `find` returns: `Err(None)` on the empty DFA, otherwise the walk
/// from state 0.
pub open spec fn spec_find<A>(v: DfaView<A>, s: Seq<u8>) -> Result<int, Option<int>> {
    if v.states.len() == 0 {
        Err(None)
    } else {
        spec_walk(v, 0, s)
    }
}

impl<A> DfaState<A> {
    /// A fresh state: one column, no transition, no associations.
    pub fn empty() -> (r: Self)
        ensures
            r@.table == seq![None::<StateId>],
            r@.class == 0,
            r@.assoc == Seq::<A>::empty(),
    {
        Self { table: vec![None], class: ByteClassId(0), associations: Vec::new() }
    }
}

impl<A: PartialEq> DfaState<A> {
    /// Whether `value` is among the state's associations (provided the
    /// element type's equality agrees with its mathematical equality).
    pub fn is_associated_with(&self, value: &A) -> (r: bool)
        ensures
            A::obeys_eq_spec() ==> (r <==> exists|j: int|
                0 <= j < self@.assoc.len() && (#[trigger] self@.assoc[j]).eq_spec(value)),
    {
        let n = self.associations.len();
        let mut i: usize = 0;
        while i < n
            invariant
                0 <= i <= n,
                n == self@.assoc.len(),
                A::obeys_eq_spec() ==> forall|j: int|
                    0 <= j < i ==> !(#[trigger] self@.assoc[j]).eq_spec(value),
            decreases n - i,
        {
            if self.associations[i].eq(value) {
                return true;
            }
            i += 1;
        }
        false
    }
}

impl<A> Default for DFA<A> {
    fn default() -> (r: Self)
        ensures
            r@.states == Seq::<DfaStateView<A>>::empty(),
            r@.ends == Seq::<StateId>::empty(),
            r@.pool == Seq::<Seq<u8>>::empty(),
    {
        Self::new()
    }
}

impl<A> DFA<A> {
    pub fn new() -> (r: Self)
        ensures
            r@.states == Seq::<DfaStateView<A>>::empty(),
            r@.ends == Seq::<StateId>::empty(),
            r@.pool == Seq::<Seq<u8>>::empty(),
            r@.sets == Seq::<Set<usize>>::empty(),
            pool_deduped(r@),
            pool_wf(r@),
    {
        Self {
            states: Vec::new(),
            ends: Vec::new(),
            transitions: byteclass::pool_new(),
            rep_sets: Ghost(Seq::empty()),
        }
    }

    /// An estimate of the DFA's memory: the pool dominates, at 256 bytes an
    /// entry.  Saturates instead of overflowing.
    pub fn rough_size_bytes(&self) -> (r: u64)
        ensures
            self@.pool.len() * 256 <= u64::MAX ==> r == self@.pool.len() * 256,
    {
        let n = byteclass::pool_len(&self.transitions) as u64;
        if n > u64::MAX / 256 {
            u64::MAX
        } else {
            n * 256
        }
    }

    pub fn number_of_states(&self) -> (r: usize)
        ensures
            r == self@.states.len(),
    {
        self.states.len()
    }

    /// Removes consecutive duplicates from the list of accepting states.
    pub fn dedup_ends(&mut self)
        ensures
            final(self)@.ends == dedup_consecutive(old(self)@.ends),
            final(self)@.states == old(self)@.states,
            final(self)@.pool == old(self)@.pool,
            final(self)@.sets == old(self)@.sets,
    {
        let mut out: Vec<StateId> = Vec::new();
        let mut i: usize = 0;
        while i < self.ends.len()
            invariant
                0 <= i <= self.ends@.len(),
                out@ == dedup_consecutive(self.ends@.subrange(0, i as int)),
            decreases self.ends@.len() - i,
        {
            let e = self.ends[i];
            if out.len() == 0 || out[out.len() - 1] != e {
                out.push(e);
            }
            proof {
                assert(self.ends@.subrange(0, i + 1).drop_last() =~= self.ends@.subrange(
                    0,
                    i as int,
                ));
                assert(self.ends@.subrange(0, i + 1).last() == self.ends@[i as int]);
            }
            i += 1;
        }
        proof {
            assert(self.ends@.subrange(0, self.ends@.len() as int) =~= self.ends@);
        }
        self.ends = out;
    }

    /// Marks a state as accepting.
    pub fn push_end(&mut self, end: StateId)
        ensures
            final(self)@.ends == old(self)@.ends.push(end),
            final(self)@.states == old(self)@.states,
            final(self)@.pool == old(self)@.pool,
            final(self)@.sets == old(self)@.sets,
    {
        self.ends.push(end);
    }

    /// Creates a new empty state (standing, under subset construction, for
    /// the given set of NFA states) and returns its id.
    pub(crate) fn push_state(&mut self, Ghost(rep): Ghost<Set<usize>>) -> (id: StateId)
        ensures
            id.0 == old(self)@.states.len(),
            final(self)@.states == old(self)@.states.push(
                DfaStateView { table: seq![None], class: 0, assoc: Seq::empty() },
            ),
            final(self)@.sets == old(self)@.sets.push(rep),
            final(self)@.ends == old(self)@.ends,
            final(self)@.pool == old(self)@.pool,
    {
        let id = StateId::of(self.states.len());
        self.states.push(DfaState::empty());
        self.rep_sets = Ghost(self.rep_sets@.push(rep));
        assert(self@.states =~= old(self)@.states.push(
            DfaStateView { table: seq![None], class: 0, assoc: Seq::empty() },
        ));
        id
    }

    /// Interns `class` in the pool, keeping the pool deduplicated, and
    /// returns its index.
    pub(crate) fn push_class(&mut self, class: ByteClass) -> (id: ByteClassId)
        requires
            class.wf(),
        ensures
            final(self)@.pool == (if old(self)@.pool.contains(class@) {
                old(self)@.pool
            } else {
                old(self)@.pool.push(class@)
            }),
            0 <= id.0 < final(self)@.pool.len(),
            final(self)@.pool[id.0 as int] == class@,
            pool_deduped(old(self)@) ==> pool_deduped(final(self)@),
            pool_wf(old(self)@) ==> pool_wf(final(self)@),
            final(self)@.states == old(self)@.states,
            final(self)@.ends == old(self)@.ends,
            final(self)@.sets == old(self)@.sets,
    {
        match byteclass::pool_get_index_of(&self.transitions, &class) {
            Some(i) => {
                assert(old(self)@.pool.contains(class@));
                ByteClassId(i)
            },
            None => {
                let id = ByteClassId(byteclass::pool_len(&self.transitions));
                assert(!old(self)@.pool.contains(class@));
                byteclass::pool_insert(&mut self.transitions, class);
                id
            },
        }
    }
}

/// The distinct entries among the first `k` of `dense`, in order of first
/// occurrence: the column table that compressing `dense` produces.
pub open spec fn distinct_firsts(dense: Seq<Option<StateId>>, k: int) -> Seq<Option<StateId>>
    decreases k,
{
    if k <= 0 {
        Seq::empty()
    } else {
        let prior = distinct_firsts(dense, k - 1);
        if prior.contains(dense[k - 1]) {
            prior
        } else {
            prior.push(dense[k - 1])
        }
    }
}

proof fn lemma_distinct_firsts_no_dup(dense: Seq<Option<StateId>>, k: int)
    ensures
        forall|i: int, j: int|
            0 <= i < j < distinct_firsts(dense, k).len() ==> distinct_firsts(dense, k)[i]
                != distinct_firsts(dense, k)[j],
    decreases k,
{
    if k > 0 {
        lemma_distinct_firsts_no_dup(dense, k - 1);
        let prior = distinct_firsts(dense, k - 1);
        let cur = distinct_firsts(dense, k);
        if !prior.contains(dense[k - 1]) {
            assert forall|i: int, j: int| 0 <= i < j < cur.len() implies cur[i] != cur[j] by {
                if j == prior.len() {
                    if cur[i] == dense[k - 1] {
                        assert(prior[i] == dense[k - 1]);
                        assert(prior.contains(dense[k - 1]));
                    }
                } else {
                    assert(cur[i] == prior[i] && cur[j] == prior[j]);
                }
            }
        }
    }
}

fn contains_eq<A: PartialEq>(s: &Vec<A>, v: &A) -> (r: bool)
    ensures
        A::obeys_eq_spec() ==> (r <==> exists|j: int|
            0 <= j < s@.len() && (#[trigger] s@[j]).eq_spec(v)),
{
    let n = s.len();
    let mut found = false;
    let mut k: usize = 0;
    while k < n
        invariant
            0 <= k <= n,
            n == s@.len(),
            A::obeys_eq_spec() ==> (found <==> exists|j: int|
                0 <= j < k && (#[trigger] s@[j]).eq_spec(v)),
        decreases n - k,
    {
        if s[k].eq(v) {
            found = true;
            assert(A::obeys_eq_spec() ==> s@[k as int].eq_spec(v));
        }
        k += 1;
    }
    found
}

fn opt_sid_eq(a: &Option<StateId>, b: &Option<StateId>) -> (r: bool)
    ensures
        r == (a == b),
{
    match (a, b) {
        (None, None) => true,
        (Some(x), Some(y)) => x.0 == y.0,
        _ => false,
    }
}

impl<A> DFA<A> {
    /// Compresses a dense 256-entry transition table into a byte class and
    /// a column table, and installs them on state `id`: the compressed
    /// lookup agrees with the dense table on every byte; the column table
    /// holds one entry per distinct value of the dense table, in order of
    /// first occurrence; every byte's column is inside the table; bytes
    /// with equal dense entries share their column; and the pool grows by
    /// at most the one interned byte class.
    pub(crate) fn set_transitions(&mut self, id: StateId, dense: Vec<Option<StateId>>)
        requires
            id.0 < old(self)@.states.len(),
            dense@.len() == 256,
        ensures
            forall|b: u8| spec_transition(final(self)@, id.0 as int, b) == dense@[b as int],
            0 <= final(self)@.states[id.0 as int].class < final(self)@.pool.len(),
            final(self)@.states[id.0 as int].table == distinct_firsts(dense@, 256),
            forall|b: u8|
                #![trigger dense@[b as int]]
                ({
                    let st = final(self)@.states[id.0 as int];
                    let col = final(self)@.pool[st.class][b as int] as int;
                    col < st.table.len() && st.table[col] == dense@[b as int]
                }),
            forall|i: int, j: int|
                #![trigger final(self)@.states[id.0 as int].table[i], final(self)@.states[id.0 as int].table[j]]
                ({
                    let tbl = final(self)@.states[id.0 as int].table;
                    0 <= i < j < tbl.len() ==> tbl[i] != tbl[j]
                }),
            forall|b1: u8, b2: u8|
                #![trigger dense@[b1 as int], dense@[b2 as int]]
                ({
                    let cls = final(self)@.pool[final(self)@.states[id.0 as int].class];
                    dense@[b1 as int] == dense@[b2 as int] ==> cls[b1 as int] == cls[b2 as int]
                }),
            final(self)@.pool.len() <= old(self)@.pool.len() + 1,
            final(self)@.states.len() == old(self)@.states.len(),
            forall|j: int|
                0 <= j < old(self)@.states.len() && j != id.0 ==> final(self)@.states[j] == old(
                    self,
                )@.states[j],
            final(self)@.states[id.0 as int].assoc == old(self)@.states[id.0 as int].assoc,
            old(self)@.pool.len() <= final(self)@.pool.len(),
            forall|k: int|
                0 <= k < old(self)@.pool.len() ==> final(self)@.pool[k] == old(self)@.pool[k],
            pool_deduped(old(self)@) ==> pool_deduped(final(self)@),
            pool_wf(old(self)@) ==> pool_wf(final(self)@),
            final(self)@.ends == old(self)@.ends,
            final(self)@.sets == old(self)@.sets,
            forall|j: int, b: u8|
                0 <= j < old(self)@.states.len() && j != id.0 && 0 <= old(self)@.states[j].class
                    < old(self)@.pool.len() ==> spec_transition(final(self)@, j, b)
                    == spec_transition(old(self)@, j, b),
    {
        let mut table: Vec<Option<StateId>> = Vec::new();
        let mut class = ByteClass::empty();
        let mut b: usize = 0;
        while b < 256
            invariant
                0 <= b <= 256,
                dense@.len() == 256,
                class.wf(),
                table@.len() <= b,
                table@ == distinct_firsts(dense@, b as int),
                forall|c: int|
                    0 <= c < b ==> (#[trigger] class@[c]) < table@.len() && table@[class@[c] as int]
                        == dense@[c],
            decreases 256 - b,
        {
            let d = dense[b];
            let mut pos: Option<u8> = None;
            let tlen = table.len();
            let mut j: usize = 0;
            while j < tlen
                invariant
                    0 <= j <= tlen,
                    tlen == table@.len(),
                    tlen < 256,
                    dense@.len() == 256,
                    b < 256,
                    d == dense@[b as int],
                    match pos {
                        Some(p) => (p as int) < table@.len() && table@[p as int] == d,
                        None => forall|j2: int| 0 <= j2 < j ==> table@[j2] != d,
                    },
                decreases tlen - j,
            {
                if pos.is_none() && opt_sid_eq(&table[j], &dense[b]) {
                    pos = Some(j as u8);
                }
                j += 1;
            }
            let ghost table0 = table@;
            let ghost class0 = class@;
            match pos {
                Some(p) => {
                    class.set(b as u8, p);
                    proof {
                        assert(table0.contains(d));
                        assert(table@ == distinct_firsts(dense@, b + 1));
                    }
                },
                None => {
                    let p = table.len() as u8;
                    table.push(d);
                    class.set(b as u8, p);
                    proof {
                        if table0.contains(d) {
                            let w = choose|w: int| 0 <= w < table0.len() && table0[w] == d;
                            assert(false);
                        }
                        assert(table@ == distinct_firsts(dense@, b + 1));
                    }
                },
            }
            proof {
                assert forall|c: int| 0 <= c < b + 1 implies (#[trigger] class@[c])
                    < table@.len() && table@[class@[c] as int] == dense@[c] by {
                    if c < b {
                        assert(class@[c] == class0[c]);
                        assert(table0[class0[c] as int] == dense@[c]);
                    }
                }
            }
            b += 1;
        }
        let class_id = self.push_class(class);
        let ghost mid = self@;
        let st = &mut self.states[id.0];
        st.table = table;
        st.class = class_id;
        proof {
            assert(self@.states =~= mid.states.update(
                id.0 as int,
                DfaStateView {
                    table: table@,
                    class: class_id.0 as int,
                    assoc: mid.states[id.0 as int].assoc,
                },
            ));
            assert forall|bb: u8| spec_transition(self@, id.0 as int, bb) == dense@[bb as int] by {
                assert(self@.pool[class_id.0 as int] == class@);
                assert((class@[bb as int] as int) < table@.len());
            }
            lemma_distinct_firsts_no_dup(dense@, 256);
            assert forall|bb: u8|
                #![trigger dense@[bb as int]]
                ({
                    let st = self@.states[id.0 as int];
                    let col = self@.pool[st.class][bb as int] as int;
                    col < st.table.len() && st.table[col] == dense@[bb as int]
                }) by {
                assert(self@.pool[class_id.0 as int] == class@);
                assert((class@[bb as int] as int) < table@.len());
                assert(table@[class@[bb as int] as int] == dense@[bb as int]);
            }
            assert forall|b1: u8, b2: u8|
                dense@[b1 as int] == dense@[b2 as int] implies self@.pool[self@.states[
                id.0 as int
            ].class][b1 as int] == self@.pool[self@.states[id.0 as int].class][b2 as int] by {
                assert(self@.pool[class_id.0 as int] == class@);
                let c1 = class@[b1 as int] as int;
                let c2 = class@[b2 as int] as int;
                assert(table@[c1] == dense@[b1 as int] && table@[c2] == dense@[b2 as int]);
                if c1 != c2 {
                    assert(table@[c1] != table@[c2]);
                }
            }
        }
    }

    /// The destination of the transition from `id` on byte `b`, through the
    /// compressed table.
    pub fn transition(&self, id: StateId, b: u8) -> (r: Option<StateId>)
        ensures
            r == spec_transition(self@, id.0 as int, b),
    {
        if id.0 >= self.states.len() {
            return None;
        }
        let st = &self.states[id.0];
        if st.class.0 >= byteclass::pool_len(&self.transitions) {
            return None;
        }
        let class = byteclass::pool_get(&self.transitions, st.class.0);
        let tlen = st.table.len();
        if class.len_is_256() {
            let col = class.get(b) as usize;
            if col < tlen {
                st.table[col]
            } else {
                None
            }
        } else {
            None
        }
    }

    /// Whether `id` is listed among the accepting states.
    pub fn is_end_state(&self, id: StateId) -> (r: bool)
        ensures
            r == is_end(self@, id.0 as int),
    {
        let n = self.ends.len();
        let mut j: usize = 0;
        while j < n
            invariant
                0 <= j <= n,
                n == self@.ends.len(),
                forall|k: int| 0 <= k < j ==> self@.ends[k].0 != id.0,
            decreases n - j,
        {
            if self.ends[j].0 == id.0 {
                assert(self@.ends[j as int].0 == id.0);
                return true;
            }
            j += 1;
        }
        false
    }

    /// The state with the given id.
    pub fn state(&self, id: StateId) -> (r: &DfaState<A>)
        requires
            id.0 < self@.states.len(),
        ensures
            r@ == self@.states[id.0 as int],
    {
        &self.states[id.0]
    }

    /// The values associated with a state, in unspecified order.
    pub fn associations(&self, id: StateId) -> (r: &Vec<A>)
        requires
            id.0 < self@.states.len(),
        ensures
            r@ == self@.states[id.0 as int].assoc,
    {
        &self.states[id.0].associations
    }

    /// Walks the DFA over the bytes of `input` from state 0: the accepting
    /// state reached, or the state where the walk got stuck or ended
    /// without accepting.
    pub fn find(&self, input: &str) -> (r: Result<StateId, Option<StateId>>)
        ensures
            result_view(r) == spec_find(self@, input.spec_bytes()),
    {
        if self.states.len() == 0 {
            return Err(None);
        }
        let bytes = input.as_bytes();
        let n = bytes.len();
        let mut current = StateId::of(0);
        proof {
            assert(input.spec_bytes().subrange(0, input.spec_bytes().len() as int)
                =~= input.spec_bytes());
        }
        let mut i: usize = 0;
        while i < n
            invariant
                0 <= i <= n,
                n == input.spec_bytes().len(),
                bytes@ == input.spec_bytes(),
                self@.states.len() > 0,
                spec_walk(self@, current.0 as int, input.spec_bytes().subrange(i as int, n as int))
                    == spec_find(self@, input.spec_bytes()),
            decreases n - i,
        {
            let ghost rest = input.spec_bytes().subrange(i as int, n as int);
            match self.transition(current, bytes[i]) {
                Some(next) => {
                    proof {
                        assert(rest[0] == input.spec_bytes()[i as int]);
                        assert(rest.subrange(1, rest.len() as int) =~= input.spec_bytes().subrange(
                            i + 1,
                            n as int,
                        ));
                    }
                    current = next;
                },
                None => {
                    proof {
                        assert(rest[0] == input.spec_bytes()[i as int]);
                    }
                    return Err(Some(current));
                },
            }
            i += 1;
        }
        proof {
            assert(input.spec_bytes().subrange(n as int, n as int) =~= Seq::<u8>::empty());
        }
        let mut j: usize = 0;
        let elen = self.ends.len();
        while j < elen
            invariant
                0 <= j <= elen,
                elen == self@.ends.len(),
                forall|k: int| 0 <= k < j ==> self@.ends[k].0 != current.0,
                spec_walk(self@, current.0 as int, Seq::<u8>::empty()) == spec_find(
                    self@,
                    input.spec_bytes(),
                ),
            decreases elen - j,
        {
            if self.ends[j].0 == current.0 {
                assert(self@.ends[j as int].0 == current.0);
                assert(is_end(self@, current.0 as int));
                return Ok(current);
            }
            j += 1;
        }
        assert(!is_end(self@, current.0 as int));
        Err(Some(current))
    }
}

impl<A: PartialEq> DFA<A> {
    /// Attaches values to a state's association set, skipping any value the
    /// set already holds an equal association for, so the set stays free of
    /// duplicates (judged by the element type's `==`, whenever that
    /// equality obeys its specification).
    pub fn associate(&mut self, id: StateId, associated_values: Vec<A>)
        requires
            id.0 < old(self)@.states.len(),
        ensures
            final(self)@.states[id.0 as int].assoc.len() >= old(self)@.states[
                id.0 as int
            ].assoc.len(),
            forall|j: int|
                0 <= j < old(self)@.states[id.0 as int].assoc.len() ==> final(self)@.states[
                    id.0 as int
                ].assoc[j] == old(self)@.states[id.0 as int].assoc[j],
            forall|j: int|
                old(self)@.states[id.0 as int].assoc.len() <= j < final(self)@.states[
                    id.0 as int
                ].assoc.len() ==> associated_values@.contains(
                    #[trigger] final(self)@.states[id.0 as int].assoc[j],
                ),
            A::obeys_eq_spec() ==> forall|k: int|
                0 <= k < associated_values@.len() ==> assoc_covered(
                    final(self)@.states[id.0 as int].assoc,
                    #[trigger] associated_values@[k],
                ),
            A::obeys_eq_spec() && no_dup_eq(old(self)@.states[id.0 as int].assoc) ==> no_dup_eq(
                final(self)@.states[id.0 as int].assoc,
            ),
            final(self)@.states.len() == old(self)@.states.len(),
            forall|j: int|
                0 <= j < old(self)@.states.len() && j != id.0 ==> final(self)@.states[j] == old(
                    self,
                )@.states[j],
            final(self)@.states[id.0 as int].table == old(self)@.states[id.0 as int].table,
            final(self)@.states[id.0 as int].class == old(self)@.states[id.0 as int].class,
            final(self)@.ends == old(self)@.ends,
            final(self)@.pool == old(self)@.pool,
            final(self)@.sets == old(self)@.sets,
    {
        let ghost before = self@;
        let ghost values0 = associated_values@;
        let ghost olen = before.states[id.0 as int].assoc.len() as int;
        let mut rest = associated_values;
        let ghost mut t: int = 0;
        while rest.len() > 0
            invariant
                id.0 < before.states.len(),
                olen == before.states[id.0 as int].assoc.len(),
                self@.states.len() == before.states.len(),
                forall|j: int|
                    0 <= j < before.states.len() && j != id.0 ==> self@.states[j]
                        == before.states[j],
                self@.states[id.0 as int].table == before.states[id.0 as int].table,
                self@.states[id.0 as int].class == before.states[id.0 as int].class,
                self@.ends == before.ends,
                self@.pool == before.pool,
                self@.sets == before.sets,
                0 <= t,
                t + rest@.len() == values0.len(),
                rest@ == values0.subrange(t, values0.len() as int),
                self@.states[id.0 as int].assoc.len() >= olen,
                forall|j: int|
                    0 <= j < olen ==> self@.states[id.0 as int].assoc[j] == before.states[
                        id.0 as int
                    ].assoc[j],
                forall|j: int|
                    olen <= j < self@.states[id.0 as int].assoc.len() ==> values0.contains(
                        #[trigger] self@.states[id.0 as int].assoc[j],
                    ),
                A::obeys_eq_spec() ==> forall|k: int|
                    0 <= k < t ==> assoc_covered(
                        self@.states[id.0 as int].assoc,
                        #[trigger] values0[k],
                    ),
                A::obeys_eq_spec() && no_dup_eq(before.states[id.0 as int].assoc) ==> no_dup_eq(
                    self@.states[id.0 as int].assoc,
                ),
            decreases rest@.len(),
        {
            let ghost rest0 = rest@;
            let v = rest.remove(0);
            proof {
                assert(v == values0[t]);
                assert(rest@ =~= values0.subrange(t + 1, values0.len() as int));
            }
            let ghost prev = self@.states[id.0 as int].assoc;
            let found = contains_eq(&self.states[id.0].associations, &v);
            if !found {
                let ghost snap = self@;
                let st = &mut self.states[id.0];
                st.associations.push(v);
                proof {
                    assert(self@.states =~= snap.states.update(
                        id.0 as int,
                        DfaStateView {
                            table: snap.states[id.0 as int].table,
                            class: snap.states[id.0 as int].class,
                            assoc: prev.push(values0[t]),
                        },
                    ));
                }
            }
            proof {
                let cura = self@.states[id.0 as int].assoc;
                if A::obeys_eq_spec() {
                    assert forall|k: int| 0 <= k < t + 1 implies assoc_covered(
                        cura,
                        #[trigger] values0[k],
                    ) by {
                        if k < t {
                            if prev.contains(values0[k]) {
                                let w = choose|w: int| 0 <= w < prev.len() && prev[w] == values0[k];
                                assert(cura[w] == values0[k]);
                                assert(cura.contains(values0[k]));
                            } else {
                                let w = choose|w: int|
                                    0 <= w < prev.len() && prev[w].eq_spec(&values0[k]);
                                assert(cura[w] == prev[w]);
                                assert(assoc_matches(cura, values0[k]));
                            }
                        } else {
                            if found {
                                let w = choose|w: int|
                                    0 <= w < prev.len() && prev[w].eq_spec(&v);
                                assert(cura[w] == prev[w]);
                                assert(assoc_matches(cura, values0[t]));
                            } else {
                                assert(cura[cura.len() - 1] == values0[t]);
                                assert(cura.contains(values0[t]));
                            }
                        }
                    }
                    if no_dup_eq(before.states[id.0 as int].assoc) {
                        if !found {
                            assert forall|i: int, j: int| 0 <= i < j < cura.len() implies !cura[
                                i
                            ].eq_spec(&cura[j]) by {
                                if j == cura.len() - 1 {
                                    assert(cura[i] == prev[i]);
                                    assert(cura[j] == v);
                                    assert(!prev[i].eq_spec(&v));
                                } else {
                                    assert(cura[i] == prev[i] && cura[j] == prev[j]);
                                }
                            }
                        }
                    }
                }
            }
            proof {
                t = t + 1;
            }
        }
    }
}

/// The indices named by a matcher result.
pub open spec fn result_view(r: Result<StateId, Option<StateId>>) -> Result<int, Option<int>> {
    match r {
        Ok(id) => Ok(id.0 as int),
        Err(Some(id)) => Err(Some(id.0 as int)),
        Err(None) => Err(None),
    }
}

} // verus!
