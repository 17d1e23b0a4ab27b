use vstd::prelude::*;

use crate::automatan::Trace;
use crate::utils::{lemma_push_to_set, vec_contains, vec_set_subset};
use crate::vm::Vm;
use vstd::std_specs::cmp::PartialEqSpec;

verus! {

/// A deterministic transition label: one input symbol.
#[derive(Hash, PartialEq, Eq, Structural, Debug, Copy, Clone)]
pub struct Transition(char);

impl Transition {
    /// The wrapped symbol.
    pub closed spec fn spec_sym(&self) -> char {
        self.0
    }

    pub fn new(c: char) -> (r: Self)
        ensures
            r.spec_sym() == c,
    {
        Transition(c)
    }

    pub fn inner_symbol(self) -> (r: char)
        ensures
            r == self.spec_sym(),
    {
        self.0
    }
}

/// The identity a deterministic automaton state is judged by: a finite set of
/// numbers.  A plain number stands for its own singleton; a set-of-states
/// wrapper stands for the set it carries.  Lookups in the transition table,
/// acceptance tests and re-indexing all compare states through this key
/// alone.
pub trait StateKey: Sized {
    spec fn key(&self) -> Set<u64>;

    /// Whether the two states have the same identity.
    fn same_key(&self, other: &Self) -> (r: bool)
        ensures
            r == (self.key() == other.key()),
    ;

    /// A copy with the same identity.
    fn dup(&self) -> (r: Self)
        ensures
            r.key() == self.key(),
    ;
}

impl StateKey for u64 {
    open spec fn key(&self) -> Set<u64> {
        set![*self]
    }

    fn same_key(&self, other: &Self) -> (r: bool) {
        proof {
            if *self == *other {
                assert(self.key() =~= other.key());
            } else {
                assert(self.key().contains(*self));
                assert(!other.key().contains(*self));
            }
        }
        *self == *other
    }

    fn dup(&self) -> (r: Self) {
        *self
    }
}

/// A strictly increasing list: sorted, and so free of duplicates.
pub open spec fn strictly_sorted(s: Seq<u64>) -> bool {
    forall|i: int, j: int| 0 <= i < j < s.len() ==> s[i] < s[j]
}

/// Two strictly increasing lists over the same set of elements are identical.
pub proof fn lemma_sorted_unique(a: Seq<u64>, b: Seq<u64>)
    requires
        strictly_sorted(a),
        strictly_sorted(b),
        a.to_set() == b.to_set(),
    ensures
        a == b,
    decreases a.len(),
{
    if a.len() == 0 {
        if b.len() > 0 {
            assert(b.to_set().contains(b[0]));
            let k = choose|k: int| 0 <= k < a.len() && a[k] == b[0];
        }
        assert(a =~= b);
    } else {
        assert(a.to_set().contains(a.last()));
        assert(b.to_set().contains(a.last()));
        if b.len() == 0 {
            let k = choose|k: int| 0 <= k < b.len() && b[k] == a.last();
        }
        assert(b.to_set().contains(b.last()));
        assert(a.to_set().contains(b.last()));
        // each last element is the maximum of its set, so they agree
        let ia = choose|k: int| 0 <= k < a.len() && a[k] == b.last();
        let ib = choose|k: int| 0 <= k < b.len() && b[k] == a.last();
        assert(a[ia] <= a.last());
        assert(b[ib] <= b.last());
        assert(a.last() == b.last());
        let a0 = a.drop_last();
        let b0 = b.drop_last();
        assert(a =~= a0.push(a.last()));
        assert(b =~= b0.push(b.last()));
        lemma_push_to_set(a0, a.last());
        lemma_push_to_set(b0, b.last());
        assert(!a0.contains(a.last()));
        assert(!a0.to_set().contains(a.last()));
        assert(!b0.to_set().contains(b.last()));
        assert(a0.to_set() =~= b0.to_set()) by {
            assert forall|x: u64| a0.to_set().contains(x) implies b0.to_set().contains(x) by {
                assert(a.to_set().contains(x));
                assert(b.to_set().contains(x));
                assert(x != b.last());
            }
            assert forall|x: u64| b0.to_set().contains(x) implies a0.to_set().contains(x) by {
                assert(b.to_set().contains(x));
                assert(a.to_set().contains(x));
                assert(x != a.last());
            }
        }
        lemma_sorted_unique(a0, b0);
        assert(a =~= b);
    }
}

/// Inserts `x` into a strictly increasing list, keeping it strictly
/// increasing; a duplicate is dropped.
fn insert_sorted(v: &mut Vec<u64>, x: u64)
    requires
        strictly_sorted(old(v)@),
    ensures
        strictly_sorted(final(v)@),
        final(v)@.to_set() == old(v)@.to_set().insert(x),
{
    let mut j: usize = 0;
    while j < v.len() && v[j] < x
        invariant
            j <= v.len(),
            strictly_sorted(v@),
            v == old(v),
            forall|k: int| 0 <= k < j ==> v@[k] < x,
        decreases v.len() - j,
    {
        j = j + 1;
    }
    if j < v.len() && v[j] == x {
        proof {
            assert(v@.to_set().contains(x));
            assert(v@.to_set().insert(x) =~= v@.to_set());
        }
        return ;
    }
    let ghost before: Seq<u64> = v@;
    v.insert(j, x);
    proof {
        assert(v@ =~= before.subrange(0, j as int) + seq![x] + before.subrange(
            j as int,
            before.len() as int,
        ));
        assert forall|p: int, q: int| 0 <= p < q < v@.len() implies v@[p] < v@[q] by {
            if p < j && q == j {
                assert(v@[p] == before[p]);
            } else if p == j && q > j {
                assert(v@[q] == before[q - 1]);
                assert(before[j as int] > x || j >= before.len());
            } else if p < j && q > j {
                assert(v@[p] == before[p]);
                assert(v@[q] == before[q - 1]);
            } else if p > j && q > j {
                assert(v@[p] == before[p - 1]);
                assert(v@[q] == before[q - 1]);
            }
        }
        assert forall|y: u64| v@.to_set().contains(y) implies before.to_set().insert(x).contains(
            y,
        ) by {
            let k = choose|k: int| 0 <= k < v@.len() && v@[k] == y;
            if k < j {
                assert(before[k] == y);
            } else if k > j {
                assert(before[k - 1] == y);
            }
        }
        assert forall|y: u64| before.to_set().insert(x).contains(y) implies v@.to_set().contains(
            y,
        ) by {
            if before.to_set().contains(y) {
                let k = choose|k: int| 0 <= k < before.len() && before[k] == y;
                if k < j {
                    assert(v@[k] == y);
                } else {
                    assert(v@[k + 1] == y);
                }
            } else {
                assert(v@[j as int] == x);
            }
        }
        assert(v@.to_set() =~= before.to_set().insert(x));
    }
}

/// The canonical identity of a set of automaton states, used as a single
/// deterministic state.  The elements are kept strictly sorted, so two
/// wrappers carry the same set exactly when they carry the same list — which
/// is why the derived `Hash`, a function of that list alone, gives equal
/// hashes to equal values.
#[derive(Hash, Debug, Clone)]
pub struct SetState {
    elems: Vec<u64>,
}

impl SetState {
    /// The set this state stands for.
    pub closed spec fn spec_set(&self) -> Set<u64> {
        self.elems@.to_set()
    }

    /// The canonical element list.
    pub closed spec fn spec_elems(&self) -> Seq<u64> {
        self.elems@
    }

    /// A well-formed wrapper keeps its elements strictly sorted.
    pub open spec fn wf(&self) -> bool {
        strictly_sorted(self.spec_elems())
    }

    /// Wraps a list of states, sorting it and dropping duplicates.
    pub fn new(set: Vec<u64>) -> (r: Self)
        ensures
            r.wf(),
            r.spec_set() == set@.to_set(),
    {
        let mut elems: Vec<u64> = Vec::new();
        let mut i: usize = 0;
        while i < set.len()
            invariant
                i <= set.len(),
                strictly_sorted(elems@),
                elems@.to_set() == set@.take(i as int).to_set(),
            decreases set.len() - i,
        {
            let ghost before: Seq<u64> = elems@;
            insert_sorted(&mut elems, set[i]);
            proof {
                assert(set@.take(i + 1) =~= set@.take(i as int).push(set@[i as int]));
                lemma_push_to_set(set@.take(i as int), set@[i as int]);
            }
            i = i + 1;
        }
        proof {
            assert(set@.take(set@.len() as int) =~= set@);
        }
        SetState { elems }
    }

    /// Two well-formed wrappers over the same set hold the same element list.
    pub proof fn lemma_canonical(a: &SetState, b: &SetState)
        requires
            a.wf(),
            b.wf(),
            a.spec_set() == b.spec_set(),
        ensures
            a.spec_elems() == b.spec_elems(),
    {
        lemma_sorted_unique(a.spec_elems(), b.spec_elems());
    }
}

impl PartialEq for SetState {
    /// Set equality: mutual containment, whatever order the elements sit in.
    fn eq(&self, other: &SetState) -> (r: bool) {
        let r = vec_set_subset(&self.elems, &other.elems) && vec_set_subset(
            &other.elems,
            &self.elems,
        );
        proof {
            if r {
                assert(self.spec_set() =~= other.spec_set());
            }
        }
        r
    }
}

impl vstd::std_specs::cmp::PartialEqSpecImpl for SetState {
    open spec fn obeys_eq_spec() -> bool {
        true
    }

    open spec fn eq_spec(&self, other: &SetState) -> bool {
        self.spec_set() == other.spec_set()
    }
}

impl StateKey for SetState {
    open spec fn key(&self) -> Set<u64> {
        self.spec_set()
    }

    fn same_key(&self, other: &Self) -> (r: bool) {
        let r = vec_set_subset(&self.elems, &other.elems) && vec_set_subset(
            &other.elems,
            &self.elems,
        );
        proof {
            if r {
                assert(self.spec_set() =~= other.spec_set());
            }
        }
        r
    }

    fn dup(&self) -> (r: Self) {
        let mut elems: Vec<u64> = Vec::new();
        let mut i: usize = 0;
        while i < self.elems.len()
            invariant
                i <= self.elems.len(),
                elems@ == self.elems@.take(i as int),
            decreases self.elems.len() - i,
        {
            elems.push(self.elems[i]);
            proof {
                assert(self.elems@.take(i + 1) =~= self.elems@.take(i as int).push(
                    self.elems@[i as int],
                ));
            }
            i = i + 1;
        }
        proof {
            assert(self.elems@.take(self.elems@.len() as int) =~= self.elems@);
        }
        SetState { elems }
    }
}

/// The lookup key of one table entry: the source state's identity and the
/// symbol on the edge.
pub open spec fn entry_key<S: StateKey>(e: ((S, Transition), S)) -> (Set<u64>, char) {
    (e.0.0.key(), e.0.1.spec_sym())
}

/// The transition table read as a mathematical map over state identities.
/// A later entry for the same key overrides an earlier one.
pub open spec fn dfa_assoc<S: StateKey>(s: Seq<((S, Transition), S)>) -> Map<
    (Set<u64>, char),
    Set<u64>,
>
    decreases s.len(),
{
    if s.len() == 0 {
        Map::empty()
    } else {
        dfa_assoc(s.drop_last()).insert(entry_key(s.last()), s.last().1.key())
    }
}

/// No two table entries share a lookup key: the table is a function.
pub open spec fn dfa_keys_unique<S: StateKey>(s: Seq<((S, Transition), S)>) -> bool {
    forall|i: int, j: int| 0 <= i < j < s.len() ==> entry_key(s[i]) != entry_key(s[j])
}

/// What the table map holds, entry by entry.
pub proof fn lemma_dfa_assoc<S: StateKey>(s: Seq<((S, Transition), S)>)
    ensures
        forall|k: (Set<u64>, char)|
            dfa_assoc(s).contains_key(k) <==> exists|i: int|
                0 <= i < s.len() && #[trigger] entry_key(s[i]) == k,
        dfa_keys_unique(s) ==> forall|i: int|
            0 <= i < s.len() ==> dfa_assoc(s)[#[trigger] entry_key(s[i])] == s[i].1.key(),
    decreases s.len(),
{
    if s.len() > 0 {
        let rest = s.drop_last();
        lemma_dfa_assoc(rest);
        assert forall|k: (Set<u64>, char)| dfa_assoc(s).contains_key(k) implies exists|i: int|
            0 <= i < s.len() && #[trigger] entry_key(s[i]) == k by {
            if k == entry_key(s.last()) {
                assert(entry_key(s[s.len() - 1]) == k);
            } else {
                assert(dfa_assoc(rest).contains_key(k));
                let i = choose|i: int| 0 <= i < rest.len() && #[trigger] entry_key(rest[i]) == k;
                assert(rest[i] == s[i]);
                assert(entry_key(s[i]) == k);
            }
        }
        assert forall|k: (Set<u64>, char)|
            (exists|i: int| 0 <= i < s.len() && #[trigger] entry_key(s[i]) == k) implies dfa_assoc(
            s,
        ).contains_key(k) by {
            let i = choose|i: int| 0 <= i < s.len() && #[trigger] entry_key(s[i]) == k;
            if i < s.len() - 1 {
                assert(rest[i] == s[i]);
                assert(entry_key(rest[i]) == k);
                assert(dfa_assoc(rest).contains_key(k));
            } else {
                assert(s[i] == s.last());
                assert(entry_key(s.last()) == k);
            }
        }
        if dfa_keys_unique(s) {
            assert(dfa_keys_unique(rest)) by {
                assert forall|i: int, j: int| 0 <= i < j < rest.len() implies entry_key(rest[i])
                    != entry_key(rest[j]) by {
                    assert(entry_key(s[i]) != entry_key(s[j]));
                }
            }
            assert forall|i: int| 0 <= i < s.len() implies dfa_assoc(s)[#[trigger] entry_key(s[i])]
                == s[i].1.key() by {
                if i < s.len() - 1 {
                    assert(entry_key(s[i]) != entry_key(s[s.len() - 1]));
                    assert(rest[i] == s[i]);
                    assert(entry_key(rest[i]) == entry_key(s[i]));
                    assert(dfa_assoc(rest)[entry_key(rest[i])] == rest[i].1.key());
                }
            }
        }
    }
}

/// The states a deterministic walk visits: the current state is recorded
/// before each symbol is consumed; the walk stops at the first missing
/// transition, and otherwise ends with the state after the last symbol.
pub open spec fn dfa_walk(
    delta: Map<(Set<u64>, char), Set<u64>>,
    k: Set<u64>,
    w: Seq<char>,
) -> Seq<Set<u64>>
    decreases w.len(),
{
    if w.len() == 0 {
        seq![k]
    } else if delta.contains_key((k, w[0])) {
        seq![k] + dfa_walk(delta, delta[(k, w[0])], w.drop_first())
    } else {
        seq![k]
    }
}

/// Finds the index of the table entry for the given state identity and
/// symbol, if there is one.
fn find_entry<S: StateKey>(table: &Vec<((S, Transition), S)>, key: &S, c: char) -> (r: Option<
    usize,
>)
    ensures
        match r {
            Some(j) => j < table@.len() && entry_key(table@[j as int]) == (key.key(), c),
            None => forall|p: int|
                0 <= p < table@.len() ==> entry_key(#[trigger] table@[p]) != (key.key(), c),
        },
{
    let mut j: usize = 0;
    while j < table.len()
        invariant
            j <= table.len(),
            forall|p: int| 0 <= p < j ==> entry_key(#[trigger] table@[p]) != (key.key(), c),
        decreases table.len() - j,
    {
        let e = &table[j];
        let hit = e.0.0.same_key(key) && e.0.1.inner_symbol() == c;
        proof {
            assert(*e == table@[j as int]);
        }
        if hit {
            proof {
                assert(entry_key(table@[j as int]) == (key.key(), c));
            }
            return Some(j);
        }
        proof {
            assert(entry_key(table@[j as int]) != (key.key(), c));
        }
        j = j + 1;
    }
    None
}

/// A deterministic automaton: a start state, a set of accepting states and a
/// transition function from (state, symbol) to at most one state.  An
/// unmapped pair means rejection, never an error.
#[derive(Clone, Debug, PartialEq)]
pub struct Dfa<S> {
    start: S,
    accept_states: Vec<S>,
    transitions: Vec<((S, Transition), S)>,
}

impl<S: StateKey> Dfa<S> {
    /// Identity of the start state.
    pub closed spec fn spec_start_key(&self) -> Set<u64> {
        self.start.key()
    }

    /// Identities of the accepting states.
    pub closed spec fn spec_accept_keys(&self) -> Set<Set<u64>> {
        self.accept_states@.map_values(|s: S| s.key()).to_set()
    }

    /// The transition function over state identities.
    pub closed spec fn spec_delta(&self) -> Map<(Set<u64>, char), Set<u64>> {
        dfa_assoc(self.transitions@)
    }

    /// The stored table as (source identity, symbol, target identity)
    /// entries, in stored order.
    pub closed spec fn spec_entry_keys(&self) -> Seq<((Set<u64>, char), Set<u64>)> {
        self.transitions@.map_values(|e: ((S, Transition), S)| (entry_key(e), e.1.key()))
    }

    /// The accepting states' identities, in stored order.
    pub closed spec fn spec_accept_key_list(&self) -> Seq<Set<u64>> {
        self.accept_states@.map_values(|s: S| s.key())
    }

    /// The stored table never holds two entries for one key.
    pub closed spec fn wf(&self) -> bool {
        dfa_keys_unique(self.transitions@)
    }

    pub fn new(start: S, accept_states: Vec<S>, transitions: Vec<((S, Transition), S)>) -> (r:
        Self)
        requires
            dfa_keys_unique(transitions@),
        ensures
            r.wf(),
            r.spec_start_key() == start.key(),
            r.spec_accept_keys() == accept_states@.map_values(|s: S| s.key()).to_set(),
            r.spec_delta() == dfa_assoc(transitions@),
    {
        Self { start, accept_states, transitions }
    }

    pub fn add_transition(&mut self, transition: ((S, Transition), S))
        requires
            old(self).wf(),
        ensures
            final(self).wf(),
            final(self).spec_start_key() == old(self).spec_start_key(),
            final(self).spec_accept_keys() == old(self).spec_accept_keys(),
            final(self).spec_delta() == old(self).spec_delta().insert(
                (transition.0.0.key(), transition.0.1.spec_sym()),
                transition.1.key(),
            ),
    {
        let ghost k: (Set<u64>, char) = (transition.0.0.key(), transition.0.1.spec_sym());
        let found = find_entry(&self.transitions, &transition.0.0, transition.0.1.inner_symbol());
        let ghost before: Seq<((S, Transition), S)> = self.transitions@;
        if let Some(j) = found {
            self.transitions.remove(j);
            proof {
                before.remove_ensures(j as int);
            }
            let ghost mid: Seq<((S, Transition), S)> = self.transitions@;
            self.transitions.push(transition);
            proof {
                assert(mid =~= before.remove(j as int));
                assert(self.transitions@ =~= mid.push(transition));
                // keys other than k survive the removal; k sat only at j
                assert(dfa_keys_unique(mid)) by {
                    assert forall|p: int, q: int| 0 <= p < q < mid.len() implies entry_key(mid[p])
                        != entry_key(mid[q]) by {
                        let p0: int = if p < j { p } else { p + 1 };
                        let q0: int = if q < j { q } else { q + 1 };
                        assert(mid[p] == before[p0]);
                        assert(mid[q] == before[q0]);
                    }
                }
                assert forall|p: int| 0 <= p < mid.len() implies entry_key(mid[p]) != k by {
                    let p0: int = if p < j { p } else { p + 1 };
                    assert(mid[p] == before[p0]);
                    if p0 != j {
                        assert(entry_key(before[p0]) != entry_key(before[j as int]));
                    }
                }
                assert(dfa_keys_unique(self.transitions@));
                lemma_dfa_assoc(before);
                lemma_dfa_assoc(mid);
                lemma_dfa_assoc(self.transitions@);
                assert(self.transitions@.drop_last() =~= mid);
                assert(dfa_assoc(self.transitions@) =~= dfa_assoc(before).insert(
                    k,
                    transition.1.key(),
                )) by {
                    let left = dfa_assoc(self.transitions@);
                    let right = dfa_assoc(before).insert(k, transition.1.key());
                    assert forall|q: (Set<u64>, char)| left.contains_key(q) implies
                        right.contains_key(q) && left[q] == right[q] by {
                        if q == k {
                            assert(left[q] == transition.1.key());
                        } else {
                            let i = choose|i: int|
                                0 <= i < mid.len() && #[trigger] entry_key(mid[i]) == q;
                            let i0: int = if i < j { i } else { i + 1 };
                            assert(before[i0] == mid[i]);
                            assert(entry_key(before[i0]) == q);
                            assert(dfa_assoc(before)[q] == before[i0].1.key());
                            assert(self.transitions@[i] == mid[i]);
                            assert(left[q] == mid[i].1.key());
                        }
                    }
                    assert forall|q: (Set<u64>, char)| right.contains_key(q) implies
                        left.contains_key(q) by {
                        if q == k {
                            assert(entry_key(self.transitions@[self.transitions@.len() - 1]) == q);
                        } else {
                            let i0 = choose|i0: int|
                                0 <= i0 < before.len() && #[trigger] entry_key(before[i0]) == q;
                            let i: int = if i0 < j { i0 } else { i0 - 1 };
                            assert(i0 != j);
                            assert(mid[i] == before[i0]);
                            assert(self.transitions@[i] == mid[i]);
                            assert(entry_key(self.transitions@[i]) == q);
                        }
                    }
                }
            }
        } else {
            self.transitions.push(transition);
            proof {
                assert(self.transitions@.drop_last() =~= before);
                assert(self.transitions@.last() == transition);
                assert forall|p: int, q: int| 0 <= p < q < self.transitions@.len() implies
                    entry_key(self.transitions@[p]) != entry_key(self.transitions@[q]) by {
                    if q < self.transitions@.len() - 1 {
                        assert(self.transitions@[p] == before[p]);
                        assert(self.transitions@[q] == before[q]);
                    } else {
                        assert(self.transitions@[p] == before[p]);
                        assert(entry_key(before[p]) != k);
                    }
                }
            }
        }
    }
}

impl<S: StateKey> Dfa<S> {
    /// The transition for the given state and symbol, if any.
    fn lookup(&self, state: &S, c: char) -> (r: Option<S>)
        requires
            self.wf(),
        ensures
            match r {
                Some(next) => self.spec_delta().contains_key((state.key(), c)) && next.key()
                    == self.spec_delta()[(state.key(), c)],
                None => !self.spec_delta().contains_key((state.key(), c)),
            },
    {
        proof {
            lemma_dfa_assoc(self.transitions@);
        }
        match find_entry(&self.transitions, state, c) {
            Some(j) => {
                let e = &self.transitions[j];
                proof {
                    assert(*e == self.transitions@[j as int]);
                    assert(entry_key(self.transitions@[j as int]) == (state.key(), c));
                }
                Some(e.1.dup())
            },
            None => None,
        }
    }

    /// Whether some accepting state has the given state's identity.
    fn accepts_state(&self, state: &S) -> (r: bool)
        ensures
            r == self.spec_accept_keys().contains(state.key()),
    {
        let ghost keys: Seq<Set<u64>> = self.accept_states@.map_values(|s: S| s.key());
        let mut j: usize = 0;
        while j < self.accept_states.len()
            invariant
                j <= self.accept_states.len(),
                keys == self.accept_states@.map_values(|s: S| s.key()),
                forall|p: int| 0 <= p < j ==> keys[p] != state.key(),
            decreases self.accept_states.len() - j,
        {
            let hit = self.accept_states[j].same_key(state);
            proof {
                assert(keys[j as int] == self.accept_states@[j as int].key());
            }
            if hit {
                proof {
                    assert(keys.to_set().contains(keys[j as int]));
                }
                return true;
            }
            j = j + 1;
        }
        proof {
            if keys.to_set().contains(state.key()) {
                let p = choose|p: int| 0 <= p < keys.len() && keys[p] == state.key();
            }
        }
        false
    }

    /// Walks the transition function from the start state, recording each
    /// visited state before its symbol is consumed.  A missing transition
    /// stops the walk at once: the trace then ends with the stuck state and
    /// the input is rejected.  A completed walk ends with the final state,
    /// accepted exactly when that state is an accepting one.
    pub fn run(&self, input: &[char]) -> (r: Trace<S>)
        requires
            self.wf(),
        ensures
            r.spec_trace().map_values(|s: S| s.key()) == dfa_walk(
                self.spec_delta(),
                self.spec_start_key(),
                input@,
            ),
            r.spec_accept() <==> (r.spec_trace().len() == input@.len() + 1
                && self.spec_accept_keys().contains(
                dfa_walk(self.spec_delta(), self.spec_start_key(), input@).last(),
            )),
    {
        let ghost delta = self.spec_delta();
        let ghost whole = dfa_walk(delta, self.spec_start_key(), input@);
        let mut state: S = self.start.dup();
        let mut tr: Vec<S> = Vec::new();
        let mut i: usize = 0;
        proof {
            assert(input@.skip(0) =~= input@);
            assert(tr@.map_values(|s: S| s.key()) =~= Seq::<Set<u64>>::empty());
            assert(Seq::<Set<u64>>::empty() + dfa_walk(delta, state.key(), input@) =~= dfa_walk(
                delta,
                state.key(),
                input@,
            ));
        }
        while i < input.len()
            invariant
                self.wf(),
                delta == self.spec_delta(),
                whole == dfa_walk(delta, self.spec_start_key(), input@),
                i <= input.len(),
                tr@.len() == i,
                whole == tr@.map_values(|s: S| s.key()) + dfa_walk(
                    delta,
                    state.key(),
                    input@.skip(i as int),
                ),
            decreases input.len() - i,
        {
            let ghost trk = tr@.map_values(|s: S| s.key());
            let ghost suffix = input@.skip(i as int);
            tr.push(state.dup());
            proof {
                assert(tr@.map_values(|s: S| s.key()) =~= trk.push(state.key()));
                assert(suffix[0] == input@[i as int]);
                assert(suffix.drop_first() =~= input@.skip(i + 1));
            }
            match self.lookup(&state, input[i]) {
                Some(next) => {
                    proof {
                        assert(dfa_walk(delta, state.key(), suffix) == seq![state.key()]
                            + dfa_walk(delta, delta[(state.key(), suffix[0])], suffix.drop_first()));
                        assert(whole == (trk + seq![state.key()]) + dfa_walk(
                            delta,
                            next.key(),
                            input@.skip(i + 1),
                        )) by {
                            assert(trk + (seq![state.key()] + dfa_walk(
                                delta,
                                next.key(),
                                input@.skip(i + 1),
                            )) =~= (trk + seq![state.key()]) + dfa_walk(
                                delta,
                                next.key(),
                                input@.skip(i + 1),
                            ));
                        }
                        assert(trk + seq![state.key()] =~= trk.push(state.key()));
                    }
                    state = next;
                },
                None => {
                    proof {
                        assert(dfa_walk(delta, state.key(), suffix) == seq![state.key()]);
                        assert(whole =~= trk.push(state.key()));
                        assert(whole.len() == i + 1);
                        assert(i + 1 < input@.len() + 1);
                    }
                    return Trace::new(false, tr);
                },
            }
            i = i + 1;
        }
        let accept = self.accepts_state(&state);
        let ghost trk = tr@.map_values(|s: S| s.key());
        let ghost sk = state.key();
        proof {
            assert(input@.skip(i as int) =~= Seq::<char>::empty());
            assert(dfa_walk(delta, sk, input@.skip(i as int)) == seq![sk]);
            assert(whole == trk + seq![sk]);
        }
        tr.push(state);
        proof {
            assert(tr@.map_values(|s: S| s.key()) =~= trk.push(sk));
            assert(trk + seq![sk] =~= trk.push(sk));
            assert(whole =~= trk.push(sk));
            assert(whole.len() == input@.len() + 1);
            assert(whole.last() == sk);
        }
        Trace::new(accept, tr)
    }
}

/// Equality of set states is reflexive.
pub proof fn lemma_set_state_eq_reflexive(a: &SetState)
    ensures
        a.eq_spec(a),
{
}

/// Equality of set states is symmetric.
pub proof fn lemma_set_state_eq_symmetric(a: &SetState, b: &SetState)
    requires
        a.eq_spec(b),
    ensures
        b.eq_spec(a),
{
}

/// Equality of set states is transitive.
pub proof fn lemma_set_state_eq_transitive(a: &SetState, b: &SetState, c: &SetState)
    requires
        a.eq_spec(b),
        b.eq_spec(c),
    ensures
        a.eq_spec(c),
{
}

/// Every state identity a deterministic automaton mentions: its start, its
/// accepting states, and both ends of every transition.
pub open spec fn dfa_all_keys(
    startk: Set<u64>,
    acceptks: Set<Set<u64>>,
    delta: Map<(Set<u64>, char), Set<u64>>,
) -> Set<Set<u64>> {
    Set::new(
        |k: Set<u64>|
            k == startk || acceptks.contains(k) || (exists|q: (Set<u64>, char)|
                #[trigger] delta.contains_key(q) && (q.0 == k || delta[q] == k)),
    )
}

/// Whether a recognizer's accepting identifier is the image of some
/// accepting state identity.
pub open spec fn accept_entry_ok(
    acceptks: Set<Set<u64>>,
    phi: Map<Set<u64>, usize>,
    i: usize,
) -> bool {
    exists|k: Set<u64>| #[trigger] acceptks.contains(k) && phi[k] == i
}

/// Whether a recognizer's table entry is the image of some transition.
pub open spec fn trans_entry_ok(
    delta: Map<(Set<u64>, char), Set<u64>>,
    phi: Map<Set<u64>, usize>,
    e: ((usize, char), usize),
) -> bool {
    exists|q: (Set<u64>, char)|
        #[trigger] delta.contains_key(q) && e == ((phi[q.0], q.1), phi[delta[q]])
}

/// How a dense recognizer re-indexes an automaton: an injective assignment
/// of integer identifiers to state identities that maps the start, every
/// accepting state and every transition across, with nothing else in the
/// recognizer.
pub open spec fn vm_reindexes(
    startk: Set<u64>,
    acceptks: Set<Set<u64>>,
    delta: Map<(Set<u64>, char), Set<u64>>,
    vm: Vm,
    phi: Map<Set<u64>, usize>,
) -> bool {
    &&& forall|k: Set<u64>| dfa_all_keys(startk, acceptks, delta).contains(k) ==> #[trigger] phi.contains_key(k)
    &&& forall|k1: Set<u64>, k2: Set<u64>|
        phi.contains_key(k1) && phi.contains_key(k2) && #[trigger] phi[k1] == #[trigger] phi[k2]
            ==> k1 == k2
    &&& vm.spec_start() == phi[startk]
    &&& forall|p: int|
        0 <= p < vm.spec_accept_list().len() ==> accept_entry_ok(
            acceptks,
            phi,
            #[trigger] vm.spec_accept_list()[p],
        )
    &&& forall|k: Set<u64>|
        #[trigger] acceptks.contains(k) ==> vm.spec_accept_list().to_set().contains(phi[k])
    &&& forall|p: int|
        0 <= p < vm.spec_trans_list().len() ==> trans_entry_ok(
            delta,
            phi,
            #[trigger] vm.spec_trans_list()[p],
        )
    &&& forall|q: (Set<u64>, char)|
        #[trigger] delta.contains_key(q) ==> vm.spec_trans_list().contains(
            ((phi[q.0], q.1), phi[delta[q]]),
        )
}


/// The state identities one table entry mentions: its source, then its
/// target.
pub open spec fn entry_mentions(ts: Seq<((Set<u64>, char), Set<u64>)>) -> Seq<Set<u64>>
    decreases ts.len(),
{
    if ts.len() == 0 {
        Seq::<Set<u64>>::empty()
    } else {
        entry_mentions(ts.drop_last()) + seq![ts.last().0.0, ts.last().1]
    }
}

/// Every state identity the re-indexer meets, in scan order: both ends of
/// each table entry in table order, then the start, then the accepting
/// states in stored order.
pub open spec fn scan_mentions(
    ts: Seq<((Set<u64>, char), Set<u64>)>,
    startk: Set<u64>,
    accs: Seq<Set<u64>>,
) -> Seq<Set<u64>> {
    entry_mentions(ts) + seq![startk] + accs
}

/// The distinct values of a list, each at its first occurrence, in order.
pub open spec fn first_seen(ms: Seq<Set<u64>>) -> Seq<Set<u64>>
    decreases ms.len(),
{
    if ms.len() == 0 {
        Seq::<Set<u64>>::empty()
    } else if first_seen(ms.drop_last()).contains(ms.last()) {
        first_seen(ms.drop_last())
    } else {
        first_seen(ms.drop_last()).push(ms.last())
    }
}

/// One more mention keeps the first-seen list, or appends the new value.
pub proof fn lemma_first_seen_step(ms: Seq<Set<u64>>, k: Set<u64>)
    ensures
        first_seen(ms.push(k)) == (if first_seen(ms).contains(k) {
            first_seen(ms)
        } else {
            first_seen(ms).push(k)
        }),
{
    assert(ms.push(k).drop_last() =~= ms);
    assert(ms.push(k).last() == k);
}

/// Interning one identity extends the table exactly as the first-seen list
/// of the mentions extends.
proof fn lemma_intern_order<S: StateKey>(t0: Seq<S>, t1: Seq<S>, ms: Seq<Set<u64>>, k: Set<u64>)
    requires
        t0.map_values(|s: S| s.key()) == first_seen(ms),
        forall|p: int| 0 <= p < t0.len() ==> t1[p] == t0[p],
        t1.len() == (if exists|p: int| 0 <= p < t0.len() && (#[trigger] t0[p]).key() == k {
            t0.len()
        } else {
            t0.len() + 1
        }),
        t1.len() == t0.len() + 1 ==> t1[t0.len() as int].key() == k,
    ensures
        t1.map_values(|s: S| s.key()) == first_seen(ms.push(k)),
{
    lemma_first_seen_step(ms, k);
    let fs = first_seen(ms);
    if exists|p: int| 0 <= p < t0.len() && (#[trigger] t0[p]).key() == k {
        let p = choose|p: int| 0 <= p < t0.len() && (#[trigger] t0[p]).key() == k;
        assert(fs[p] == k);
        assert(fs.contains(k));
        assert(t1 =~= t0);
    } else {
        assert(!fs.contains(k)) by {
            if fs.contains(k) {
                let i = choose|i: int| 0 <= i < fs.len() && fs[i] == k;
                assert(t0[i].key() == k);
            }
        }
        assert(t1.map_values(|s: S| s.key()) =~= fs.push(k));
    }
}

/// An identifier assignment is dense and in first-seen order: the i-th
/// distinct identity of the scan gets identifier i, and nothing else is
/// assigned.
pub open spec fn phi_dense_first_seen(order: Seq<Set<u64>>, phi: Map<Set<u64>, usize>) -> bool {
    &&& forall|i: int|
        0 <= i < order.len() ==> phi.contains_key(#[trigger] order[i]) && phi[order[i]] == i
    &&& forall|k: Set<u64>| #[trigger] phi.contains_key(k) ==> order.contains(k)
}

/// Finds or appends the state's identity in the interning list; its dense
/// identifier is its index.
fn intern<S: StateKey>(table: &mut Vec<S>, s: &S) -> (r: usize)
    ensures
        r < final(table)@.len(),
        final(table)@[r as int].key() == s.key(),
        forall|p: int| 0 <= p < old(table)@.len() ==> final(table)@[p] == old(table)@[p],
        final(table)@.len() == (if exists|p: int|
            0 <= p < old(table)@.len() && (#[trigger] old(table)@[p]).key() == s.key() {
            old(table)@.len()
        } else {
            old(table)@.len() + 1
        }),
        final(table)@.len() == old(table)@.len() ==> r < old(table)@.len(),
        final(table)@.len() == old(table)@.len() + 1 ==> r == old(table)@.len(),
{
    let mut p: usize = 0;
    while p < table.len()
        invariant
            p <= table@.len(),
            forall|q: int| 0 <= q < p ==> (#[trigger] table@[q]).key() != s.key(),
        decreases table@.len() - p,
    {
        let hit = table[p].same_key(s);
        if hit {
            return p;
        }
        p = p + 1;
    }
    table.push(s.dup());
    table.len() - 1
}

impl Vm {
    /// Re-indexes an automaton into a dense recognizer: state identities get
    /// integer identifiers in first-seen order while the transition table is
    /// scanned, then the start and the accepting states (which receive
    /// identifiers too even when no transition mentions them), and the table
    /// is mapped across entry by entry.
    #[verifier::loop_isolation(false)]
    #[verifier::rlimit(100)]
    pub fn from_dfa<S: StateKey>(dfa: Dfa<S>) -> (r: Vm)
        requires
            dfa.wf(),
        ensures
            exists|phi: Map<Set<u64>, usize>|
                #[trigger] vm_reindexes(
                    dfa.spec_start_key(),
                    dfa.spec_accept_keys(),
                    dfa.spec_delta(),
                    r,
                    phi,
                ) && phi_dense_first_seen(
                    first_seen(
                        scan_mentions(
                            dfa.spec_entry_keys(),
                            dfa.spec_start_key(),
                            dfa.spec_accept_key_list(),
                        ),
                    ),
                    phi,
                ),
    {
        let ghost startk = dfa.spec_start_key();
        let ghost eks: Seq<((Set<u64>, char), Set<u64>)> = dfa.spec_entry_keys();
        let ghost accl: Seq<Set<u64>> = dfa.spec_accept_key_list();
        let ghost acceptks = dfa.spec_accept_keys();
        let ghost delta = dfa.spec_delta();
        proof {
            lemma_dfa_assoc(dfa.transitions@);
        }
        let mut table: Vec<S> = Vec::new();
        let ghost mut phi: Map<Set<u64>, usize> = Map::empty();
        let mut vmtrans: Vec<((usize, char), usize)> = Vec::new();
        let mut j: usize = 0;
        proof {
            assert(eks.take(0) =~= Seq::<((Set<u64>, char), Set<u64>)>::empty());
            assert(table@.map_values(|s: S| s.key()) =~= first_seen(
                entry_mentions(eks.take(0)),
            ));
        }
        while j < dfa.transitions.len()
            invariant
                j <= dfa.transitions@.len(),
                forall|p: int|
                    0 <= p < table@.len() ==> phi.contains_key((#[trigger] table@[p]).key())
                        && phi[table@[p].key()] == p,
                forall|k: Set<u64>|
                    #[trigger] phi.contains_key(k) ==> exists|p: int|
                        0 <= p < table@.len() && (#[trigger] table@[p]).key() == k,
                forall|p: int, q: int|
                    0 <= p < q < table@.len() ==> (#[trigger] table@[p]).key() != (
                    #[trigger] table@[q]).key(),
                forall|p: int|
                    0 <= p < j ==> phi.contains_key(
                        entry_key(#[trigger] dfa.transitions@[p]).0,
                    ) && phi.contains_key(dfa.transitions@[p].1.key()),
                table@.map_values(|s: S| s.key()) == first_seen(
                    entry_mentions(eks.take(j as int)),
                ),
                vmtrans@.len() == j,
                forall|p: int|
                    0 <= p < j ==> #[trigger] vmtrans@[p] == (
                    (phi[entry_key(dfa.transitions@[p]).0], entry_key(dfa.transitions@[p]).1),
                    phi[dfa.transitions@[p].1.key()],
                    ),
            decreases dfa.transitions@.len() - j,
        {
            let e = &dfa.transitions[j];
            proof {
                assert(*e == dfa.transitions@[j as int]);
            }
            let ghost t0: Seq<S> = table@;
            let ghost phi0 = phi;
            let ghost ms0: Seq<Set<u64>> = entry_mentions(eks.take(j as int));
            let sid = intern(&mut table, &e.0.0);
            proof {
                if table@.len() > t0.len() {
                    phi = phi.insert(table@[table@.len() - 1].key(), (table@.len() - 1) as usize);
                }
                assert(phi.contains_key(e.0.0.key()) && phi[e.0.0.key()] == sid) by {
                    if table@.len() > t0.len() {
                        if table@[sid as int].key() != table@[table@.len() - 1].key() {
                            assert(exists|p: int|
                                0 <= p < t0.len() && (#[trigger] t0[p]).key() == e.0.0.key());
                        }
                    }
                }
                lemma_intern_order(t0, table@, ms0, e.0.0.key());
            }
            let ghost t1: Seq<S> = table@;
            let ghost phi1 = phi;
            let tid = intern(&mut table, &e.1);
            proof {
                if table@.len() > t1.len() {
                    phi = phi.insert(table@[table@.len() - 1].key(), (table@.len() - 1) as usize);
                }
                assert(phi.contains_key(e.1.key()) && phi[e.1.key()] == tid) by {
                    if table@.len() > t1.len() {
                        if table@[tid as int].key() != table@[table@.len() - 1].key() {
                            assert(exists|p: int|
                                0 <= p < t1.len() && (#[trigger] t1[p]).key() == e.1.key());
                        }
                    }
                }
                assert(phi.contains_key(e.0.0.key()) && phi[e.0.0.key()] == sid);
                lemma_intern_order(t1, table@, ms0.push(e.0.0.key()), e.1.key());
                assert(eks[j as int] == (entry_key(dfa.transitions@[j as int]),
                dfa.transitions@[j as int].1.key()));
                assert(eks.take(j + 1).drop_last() =~= eks.take(j as int));
                assert(eks.take(j + 1).last() == eks[j as int]);
                assert(entry_mentions(eks.take(j + 1)) =~= ms0.push(e.0.0.key()).push(
                    e.1.key(),
                ));
                assert(table@.map_values(|s: S| s.key()) == first_seen(
                    entry_mentions(eks.take(j + 1)),
                ));
            }
            vmtrans.push(((sid, e.0.1.inner_symbol()), tid));
            proof {
                assert(vmtrans@[j as int] == (
                    (phi[entry_key(dfa.transitions@[j as int]).0],
                    entry_key(dfa.transitions@[j as int]).1),
                    phi[dfa.transitions@[j as int].1.key()],
                ));
                assert forall|p: int| 0 <= p < j implies #[trigger] vmtrans@[p] == (
                (phi[entry_key(dfa.transitions@[p]).0], entry_key(dfa.transitions@[p]).1),
                phi[dfa.transitions@[p].1.key()],
                ) by {
                    assert(vmtrans@[p] == vmtrans@.drop_last()[p]);
                }
            }
            j = j + 1;
        }
        let ghost tA: Seq<S> = table@;
        let start = intern(&mut table, &dfa.start);
        proof {
            if table@.len() > tA.len() {
                phi = phi.insert(table@[table@.len() - 1].key(), (table@.len() - 1) as usize);
            }
            assert(phi.contains_key(startk) && phi[startk] == start) by {
                if table@.len() > tA.len() {
                    if table@[start as int].key() != table@[table@.len() - 1].key() {
                        assert(exists|p: int|
                            0 <= p < tA.len() && (#[trigger] tA[p]).key() == dfa.start.key());
                    }
                }
            }
            assert(eks.take(eks.len() as int) =~= eks);
            lemma_intern_order(tA, table@, entry_mentions(eks), startk);
            assert(table@.map_values(|s: S| s.key()) == first_seen(
                entry_mentions(eks).push(startk),
            ));
        }
        let mut accids: Vec<usize> = Vec::new();
        let mut a: usize = 0;
        proof {
            assert(accl.take(0) =~= Seq::<Set<u64>>::empty());
            assert(entry_mentions(eks).push(startk) + accl.take(0) =~= entry_mentions(
                eks,
            ).push(startk));
        }
        while a < dfa.accept_states.len()
            invariant
                a <= dfa.accept_states@.len(),
                phi.contains_key(startk) && phi[startk] == start,
                forall|p: int|
                    0 <= p < table@.len() ==> phi.contains_key((#[trigger] table@[p]).key())
                        && phi[table@[p].key()] == p,
                forall|k: Set<u64>|
                    #[trigger] phi.contains_key(k) ==> exists|p: int|
                        0 <= p < table@.len() && (#[trigger] table@[p]).key() == k,
                forall|p: int, q: int|
                    0 <= p < q < table@.len() ==> (#[trigger] table@[p]).key() != (
                    #[trigger] table@[q]).key(),
                forall|p: int|
                    0 <= p < dfa.transitions@.len() ==> phi.contains_key(
                        entry_key(#[trigger] dfa.transitions@[p]).0,
                    ) && phi.contains_key(dfa.transitions@[p].1.key()),
                forall|p: int|
                    0 <= p < dfa.transitions@.len() ==> #[trigger] vmtrans@[p] == (
                    (phi[entry_key(dfa.transitions@[p]).0], entry_key(dfa.transitions@[p]).1),
                    phi[dfa.transitions@[p].1.key()],
                    ),
                vmtrans@.len() == dfa.transitions@.len(),
                accids@.len() == a,
                forall|p: int|
                    0 <= p < a ==> phi.contains_key((#[trigger] dfa.accept_states@[p]).key())
                        && accids@[p] == phi[dfa.accept_states@[p].key()],
                table@.map_values(|s: S| s.key()) == first_seen(
                    entry_mentions(eks).push(startk) + accl.take(a as int),
                ),
            decreases dfa.accept_states@.len() - a,
        {
            let s = &dfa.accept_states[a];
            proof {
                assert(*s == dfa.accept_states@[a as int]);
            }
            let ghost tB: Seq<S> = table@;
            let ghost msa: Seq<Set<u64>> = entry_mentions(eks).push(startk) + accl.take(a as int);
            let id = intern(&mut table, s);
            proof {
                if table@.len() > tB.len() {
                    phi = phi.insert(table@[table@.len() - 1].key(), (table@.len() - 1) as usize);
                }
                assert(phi.contains_key(s.key()) && phi[s.key()] == id) by {
                    if table@.len() > tB.len() {
                        if table@[id as int].key() != table@[table@.len() - 1].key() {
                            assert(exists|p: int|
                                0 <= p < tB.len() && (#[trigger] tB[p]).key() == s.key());
                        }
                    }
                }
                lemma_intern_order(tB, table@, msa, s.key());
                assert(accl[a as int] == dfa.accept_states@[a as int].key());
                assert(msa.push(s.key()) =~= entry_mentions(eks).push(startk) + accl.take(
                    a + 1,
                ));
                assert(table@.map_values(|s2: S| s2.key()) == first_seen(
                    entry_mentions(eks).push(startk) + accl.take(a + 1),
                ));
            }
            accids.push(id);
            proof {
                assert forall|p: int| 0 <= p < a implies phi.contains_key(
                    (#[trigger] dfa.accept_states@[p]).key(),
                ) && accids@[p] == phi[dfa.accept_states@[p].key()] by {
                    assert(accids@[p] == accids@.drop_last()[p]);
                }
            }
            a = a + 1;
        }
        proof {
            // the image table is a function: distinct entry keys stay distinct
            assert forall|k1: Set<u64>, k2: Set<u64>|
                phi.contains_key(k1) && phi.contains_key(k2) && #[trigger] phi[k1]
                    == #[trigger] phi[k2] implies k1 == k2 by {
                let p1 = choose|p: int|
                    0 <= p < table@.len() && (#[trigger] table@[p]).key() == k1;
                let p2 = choose|p: int|
                    0 <= p < table@.len() && (#[trigger] table@[p]).key() == k2;
                assert(phi[k1] == p1 && phi[k2] == p2);
            }
            assert forall|p: int, q: int| 0 <= p < q < vmtrans@.len() implies (
            #[trigger] vmtrans@[p]).0 != (#[trigger] vmtrans@[q]).0 by {
                let kp = entry_key(dfa.transitions@[p]);
                let kq = entry_key(dfa.transitions@[q]);
                assert(kp != kq);
                assert(vmtrans@[p].0 == (phi[kp.0], kp.1));
                assert(vmtrans@[q].0 == (phi[kq.0], kq.1));
                if kp.1 == kq.1 {
                    assert(kp.0 != kq.0);
                    assert(phi[kp.0] != phi[kq.0]);
                }
            }
        }
        let r = Vm::new(start, accids, vmtrans);
        proof {
            assert(r.spec_start() == phi[startk]);
            assert(r.spec_accept_list().len() == dfa.accept_states@.len());
            assert(r.spec_trans_list().len() == dfa.transitions@.len());
            assert(forall|k: Set<u64>|
                dfa_all_keys(startk, acceptks, delta).contains(k)
                    ==> #[trigger] phi.contains_key(k)) by {
                assert forall|k: Set<u64>| dfa_all_keys(startk, acceptks, delta).contains(
                    k,
                ) implies #[trigger] phi.contains_key(k) by {
                    if k == startk {
                    } else if acceptks.contains(k) {
                        let al = dfa.accept_states@.map_values(|s: S| s.key());
                        let p = choose|p: int| 0 <= p < al.len() && al[p] == k;
                        assert(dfa.accept_states@[p].key() == k);
                    } else {
                        let q = choose|q: (Set<u64>, char)|
                            #[trigger] delta.contains_key(q) && (q.0 == k || delta[q] == k);
                        let p = choose|p: int|
                            0 <= p < dfa.transitions@.len() && #[trigger] entry_key(
                                dfa.transitions@[p],
                            ) == q;
                        assert(dfa.spec_delta()[entry_key(dfa.transitions@[p])]
                            == dfa.transitions@[p].1.key());
                    }
                }
            }
                assert forall|p: int| 0 <= p < r.spec_accept_list().len() implies accept_entry_ok(
                    acceptks,
                    phi,
                    #[trigger] r.spec_accept_list()[p],
                ) by {
                    let al = dfa.accept_states@.map_values(|s: S| s.key());
                    assert(al[p] == dfa.accept_states@[p].key());
                    assert(al.to_set().contains(al[p]));
                    assert(acceptks.contains(dfa.accept_states@[p].key()) && phi[
                    dfa.accept_states@[p].key()] == r.spec_accept_list()[p]);
                }
                assert forall|k: Set<u64>| #[trigger] acceptks.contains(
                    k,
                ) implies r.spec_accept_list().to_set().contains(phi[k]) by {
                    let al = dfa.accept_states@.map_values(|s: S| s.key());
                    let p = choose|p: int| 0 <= p < al.len() && al[p] == k;
                    assert(dfa.accept_states@[p].key() == k);
                    assert(r.spec_accept_list()[p] == phi[k]);
                    assert(r.spec_accept_list().contains(phi[k]));
                    assert(r.spec_accept_list().to_set().contains(phi[k]));
                }
                assert forall|p: int| 0 <= p < r.spec_trans_list().len() implies trans_entry_ok(
                    delta,
                    phi,
                    #[trigger] r.spec_trans_list()[p],
                ) by {
                    let q = entry_key(dfa.transitions@[p]);
                    assert(delta.contains_key(q));
                    assert(delta[q] == dfa.transitions@[p].1.key());
                    assert(r.spec_trans_list()[p] == ((phi[q.0], q.1), phi[delta[q]]));
                }
                assert forall|q: (Set<u64>, char)| #[trigger] delta.contains_key(
                    q,
                ) implies r.spec_trans_list().contains(((phi[q.0], q.1), phi[delta[q]])) by {
                    let p = choose|p: int|
                        0 <= p < dfa.transitions@.len() && #[trigger] entry_key(
                            dfa.transitions@[p],
                        ) == q;
                    assert(delta[q] == dfa.transitions@[p].1.key());
                    assert(r.spec_trans_list()[p] == ((phi[q.0], q.1), phi[delta[q]]));
                    assert(r.spec_trans_list().contains(((phi[q.0], q.1), phi[delta[q]])));
                }
            assert(vm_reindexes(startk, acceptks, delta, r, phi));
            assert(accl.take(accl.len() as int) =~= accl);
            assert(scan_mentions(eks, startk, accl) =~= entry_mentions(eks).push(startk) + accl);
            let order = first_seen(scan_mentions(eks, startk, accl));
            assert(order == table@.map_values(|s: S| s.key()));
            assert(phi_dense_first_seen(order, phi)) by {
                assert forall|i: int| 0 <= i < order.len() implies phi.contains_key(
                    #[trigger] order[i],
                ) && phi[order[i]] == i by {
                    assert(order[i] == table@[i].key());
                }
                assert forall|k: Set<u64>| #[trigger] phi.contains_key(k) implies order.contains(
                    k,
                ) by {
                    let p = choose|p: int|
                        0 <= p < table@.len() && (#[trigger] table@[p]).key() == k;
                    assert(order[p] == k);
                }
            }
        }
        r
    }
}

} // verus!
