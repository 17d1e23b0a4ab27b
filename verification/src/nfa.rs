use vstd::prelude::*;

use crate::automatan::Trace;
use crate::automatan::RegexError;
use crate::dfa;
use crate::dfa::{dfa_keys_unique, dfa_walk, entry_key, Dfa, SetState, StateKey};
use crate::utils::{
    char_vec_insert, lemma_push_to_set, lemma_to_set_one, lemma_to_set_two, power_set, push_all,
    vec_contains, vec_set_insert, vec_sets_intersect,
};

verus! {

/// A nondeterministic transition label: either one input symbol, or the
/// silent epsilon move that consumes nothing.
#[derive(Hash, PartialEq, Eq, Structural, Debug, Copy, Clone)]
pub enum Transition {
    Epsilon,
    Symbol(char),
}

impl Transition {
    pub fn inner_symbol(self) -> (r: Option<char>)
        ensures
            r == match self {
                Transition::Symbol(c) => Some(c),
                Transition::Epsilon => None::<char>,
            },
    {
        if let Transition::Symbol(c) = self {
            Some(c)
        } else {
            None
        }
    }
}

/// The stored transition list read as a mathematical map from (state, label)
/// to the set of possible successors.  A later entry for a key overrides an
/// earlier one; the stored list never repeats a key.
pub open spec fn nfa_assoc(s: Seq<((u64, Transition), Vec<u64>)>) -> Map<(u64, Transition), Set<u64>>
    decreases s.len(),
{
    if s.len() == 0 {
        Map::empty()
    } else {
        nfa_assoc(s.drop_last()).insert(s.last().0, s.last().1@.to_set())
    }
}

/// No two entries of the list share a key.
pub open spec fn nfa_keys_unique(s: Seq<((u64, Transition), Vec<u64>)>) -> bool {
    forall|i: int, j: int| 0 <= i < j < s.len() ==> (#[trigger] s[i]).0 != (#[trigger] s[j]).0
}

/// What the association map holds, entry by entry.
pub proof fn lemma_nfa_assoc(s: Seq<((u64, Transition), Vec<u64>)>)
    ensures
        forall|k: (u64, Transition)|
            #[trigger] nfa_assoc(s).contains_key(k) ==> exists|i: int|
                0 <= i < s.len() && (#[trigger] s[i]).0 == k,
        forall|i: int| 0 <= i < s.len() ==> nfa_assoc(s).contains_key((#[trigger] s[i]).0),
        nfa_keys_unique(s) ==> forall|i: int|
            0 <= i < s.len() ==> nfa_assoc(s)[(#[trigger] s[i]).0] == s[i].1@.to_set(),
    decreases s.len(),
{
    if s.len() > 0 {
        let rest = s.drop_last();
        lemma_nfa_assoc(rest);
        assert forall|k: (u64, Transition)| #[trigger] nfa_assoc(s).contains_key(k) implies exists|
            i: int,
        | 0 <= i < s.len() && (#[trigger] s[i]).0 == k by {
            if k == s.last().0 {
                assert((s[s.len() - 1]).0 == k);
            } else {
                assert(nfa_assoc(rest).contains_key(k));
                let i = choose|i: int| 0 <= i < rest.len() && (#[trigger] rest[i]).0 == k;
                assert(rest[i] == s[i]);
                assert((s[i]).0 == k);
            }
        }
        assert forall|i: int| 0 <= i < s.len() implies nfa_assoc(s).contains_key(
            (#[trigger] s[i]).0,
        ) by {
            if i < s.len() - 1 {
                assert(rest[i] == s[i]);
                assert(nfa_assoc(rest).contains_key((rest[i]).0));
            } else {
                assert(s[i] == s.last());
            }
        }
        if nfa_keys_unique(s) {
            assert(nfa_keys_unique(rest)) by {
                assert forall|i: int, j: int| 0 <= i < j < rest.len() implies (#[trigger] rest[i]).0
                    != (#[trigger] rest[j]).0 by {
                    assert(s[i] == rest[i] && s[j] == rest[j]);
                }
            }
            assert forall|i: int| 0 <= i < s.len() implies nfa_assoc(s)[(#[trigger] s[i]).0]
                == s[i].1@.to_set() by {
                if i < s.len() - 1 {
                    assert((s[i]).0 != (s[s.len() - 1]).0);
                    assert(rest[i] == s[i]);
                    assert(nfa_assoc(rest)[(rest[i]).0] == rest[i].1@.to_set());
                }
            }
        }
    }
}

/// A key that the association map holds comes from some entry of the list.
pub proof fn lemma_nfa_assoc_find(s: Seq<((u64, Transition), Vec<u64>)>, k: (u64, Transition))
    requires
        nfa_assoc(s).contains_key(k),
    ensures
        exists|i: int| 0 <= i < s.len() && (#[trigger] s[i]).0 == k,
    decreases s.len(),
{
    if s.len() > 0 {
        let rest = s.drop_last();
        if k == s.last().0 {
            assert((s[s.len() - 1]).0 == k);
        } else {
            assert(nfa_assoc(rest).contains_key(k));
            lemma_nfa_assoc_find(rest, k);
            let i = choose|i: int| 0 <= i < rest.len() && (#[trigger] rest[i]).0 == k;
            assert(rest[i] == s[i]);
            assert((s[i]).0 == k);
        }
    }
}

/// A nondeterministic automaton with epsilon moves: a start state, a set of
/// accepting states and a relation from (state, label) to a set of successor
/// states.  A missing key means no successors; the graph may be cyclic.
#[derive(Clone, Debug, PartialEq)]
pub struct Nfa {
    start: u64,
    accept_states: Vec<u64>,
    transitions: Vec<((u64, Transition), Vec<u64>)>,
}

impl Nfa {
    /// The start state.
    pub closed spec fn spec_start(&self) -> u64 {
        self.start
    }

    /// The accepting states, in stored order.
    pub closed spec fn spec_accept_list(&self) -> Seq<u64> {
        self.accept_states@
    }

    /// The set of accepting states.
    pub open spec fn spec_accepts(&self) -> Set<u64> {
        self.spec_accept_list().to_set()
    }

    /// The transition relation.
    pub closed spec fn spec_delta(&self) -> Map<(u64, Transition), Set<u64>> {
        nfa_assoc(self.transitions@)
    }

    /// The stored lists never repeat a key, an accepting state, or a
    /// successor within one entry.
    pub closed spec fn wf(&self) -> bool {
        &&& nfa_keys_unique(self.transitions@)
        &&& self.accept_states@.no_duplicates()
        &&& forall|i: int|
            0 <= i < self.transitions@.len() ==> (#[trigger] self.transitions@[i]).1@.no_duplicates()
    }

    pub fn new(
        start: u64,
        accept_states: Vec<u64>,
        transitions: Vec<((u64, Transition), Vec<u64>)>,
    ) -> (r: Self)
        requires
            nfa_keys_unique(transitions@),
            accept_states@.no_duplicates(),
            forall|i: int|
                0 <= i < transitions@.len() ==> (#[trigger] transitions@[i]).1@.no_duplicates(),
        ensures
            r.wf(),
            r.spec_start() == start,
            r.spec_accepts() == accept_states@.to_set(),
            r.spec_delta() == nfa_assoc(transitions@),
    {
        Self { start, accept_states, transitions }
    }

    /// Adds the given successors to one key of the relation: the key's set
    /// grows by the new states, every other key is untouched.
    pub fn add_transition(&mut self, transitions: ((u64, Transition), Vec<u64>))
        requires
            old(self).wf(),
        ensures
            final(self).wf(),
            final(self).spec_start() == old(self).spec_start(),
            final(self).spec_accept_list() == old(self).spec_accept_list(),
            final(self).spec_delta() == old(self).spec_delta().insert(
                transitions.0,
                (if old(self).spec_delta().contains_key(transitions.0) {
                    old(self).spec_delta()[transitions.0]
                } else {
                    Set::<u64>::empty()
                }).union(transitions.1@.to_set()),
            ),
    {
        let (key, add) = transitions;
        proof {
            lemma_nfa_assoc(self.transitions@);
        }
        let found = nfa_find_entry(&self.transitions, &key);
        let ghost before: Seq<((u64, Transition), Vec<u64>)> = self.transitions@;
        let ghost base: Set<u64> = if self.spec_delta().contains_key(key) {
            self.spec_delta()[key]
        } else {
            Set::<u64>::empty()
        };
        let mut entry: ((u64, Transition), Vec<u64>) = (key, Vec::new());
        if let Some(j) = found {
            entry = self.transitions.remove(j);
            proof {
                before.remove_ensures(j as int);
                assert(entry == before[j as int]);
                assert(entry.1@.to_set() == base);
                assert(entry.1@.no_duplicates());
            }
            let ghost mid: Seq<((u64, Transition), Vec<u64>)> = self.transitions@;
            proof {
                assert(mid == before.remove(j as int));
                assert(keys_unique_without(mid, key)) by {
                    assert forall|p: int, q: int| 0 <= p < q < mid.len() implies (
                    #[trigger] mid[p]).0 != (#[trigger] mid[q]).0 by {
                        let p0: int = if p < j { p } else { p + 1 };
                        let q0: int = if q < j { q } else { q + 1 };
                        assert(mid[p] == before[p0]);
                        assert(mid[q] == before[q0]);
                    }
                    assert forall|p: int| 0 <= p < mid.len() implies (#[trigger] mid[p]).0
                        != key by {
                        let p0: int = if p < j { p } else { p + 1 };
                        assert(mid[p] == before[p0]);
                        if p0 != j {
                            assert(before[p0].0 != before[j as int].0);
                        }
                    }
                }
            }
        } else {
            proof {
                assert(base =~= Set::<u64>::empty());
                assert(entry.1@.to_set() =~= Set::<u64>::empty());
            }
        }
        let ghost mid: Seq<((u64, Transition), Vec<u64>)> = self.transitions@;
        let ghost entry_set0: Set<u64> = entry.1@.to_set();
        // add the new successors to the entry's list, without duplicates
        let mut dest = entry.1;
        let mut i: usize = 0;
        proof {
            assert(add@.take(0) =~= Seq::<u64>::empty());
            assert(dest@.to_set() =~= entry_set0.union(add@.take(0).to_set()));
        }
        while i < add.len()
            invariant
                i <= add.len(),
                dest@.to_set() == entry_set0.union(add@.take(i as int).to_set()),
                dest@.no_duplicates(),
            decreases add.len() - i,
        {
            let ghost dbefore: Seq<u64> = dest@;
            vec_set_insert(&mut dest, add[i]);
            proof {
                assert(add@.take(i + 1) =~= add@.take(i as int).push(add@[i as int]));
                lemma_push_to_set(add@.take(i as int), add@[i as int]);
                assert(dest@.to_set() =~= entry_set0.union(add@.take(i + 1).to_set()));
            }
            i = i + 1;
        }
        proof {
            assert(add@.take(add@.len() as int) =~= add@);
        }
        self.transitions.push((key, dest));
        proof {
            let now = self.transitions@;
            assert(now.drop_last() =~= mid);
            assert(now.last() == (key, dest));
            lemma_nfa_assoc(mid);
            lemma_nfa_assoc(now);
            assert forall|p: int, q: int| 0 <= p < q < now.len() implies (#[trigger] now[p]).0 != (
            #[trigger] now[q]).0 by {
                if q < now.len() - 1 {
                    assert(now[p] == mid[p] && now[q] == mid[q]);
                } else {
                    assert(now[p] == mid[p]);
                    assert(mid[p].0 != key);
                }
            }
            assert forall|p: int| 0 <= p < now.len() implies (
            #[trigger] now[p]).1@.no_duplicates() by {
                if p < now.len() - 1 {
                    assert(now[p] == mid[p]);
                    assert(mid[p] == before[back_index(found, p)]);
                } else {
                    assert(now[p].1 == dest);
                }
            }
            assert(nfa_assoc(now) =~= nfa_assoc(before).insert(key, base.union(add@.to_set())))
                by {
                let left = nfa_assoc(now);
                let right = nfa_assoc(before).insert(key, base.union(add@.to_set()));
                lemma_nfa_assoc(before);
                assert forall|q: (u64, Transition)| left.contains_key(q) implies right.contains_key(
                    q,
                ) && left[q] == right[q] by {
                    if q == key {
                        assert(left[q] == dest@.to_set());
                    } else {
                        let i1 = choose|i1: int| 0 <= i1 < mid.len() && (#[trigger] mid[i1]).0 == q;
                        assert(now[i1] == mid[i1]);
                        assert(left[q] == mid[i1].1@.to_set());
                        let ghost i0: int = back_index(found, i1);
                        assert(before[i0] == mid[i1]);
                        assert(right[q] == before[i0].1@.to_set());
                    }
                }
                assert forall|q: (u64, Transition)| right.contains_key(q) implies left.contains_key(
                    q,
                ) by {
                    if q != key {
                        let i0 = choose|i0: int|
                            0 <= i0 < before.len() && (#[trigger] before[i0]).0 == q;
                        let ghost i1: int = fwd_index(found, i0);
                        assert(mid[i1] == before[i0]);
                        assert(now[i1] == mid[i1]);
                        assert((now[i1]).0 == q);
                    } else {
                        assert((now[now.len() - 1]).0 == key);
                    }
                }
            }
        }
    }

    /// The successor list stored for the given key, if any.
    pub fn get_transition<'a>(&'a self, input: &(u64, Transition)) -> (r: Option<&'a Vec<u64>>)
        requires
            self.wf(),
        ensures
            match r {
                Some(v) => self.spec_delta().contains_key(*input) && v@.to_set()
                    == self.spec_delta()[*input] && v@.no_duplicates(),
                None => !self.spec_delta().contains_key(*input),
            },
    {
        proof {
            lemma_nfa_assoc(self.transitions@);
        }
        match nfa_find_entry(&self.transitions, input) {
            Some(j) => {
                let e = &self.transitions[j];
                proof {
                    assert(*e == self.transitions@[j as int]);
                }
                Some(&e.1)
            },
            None => None,
        }
    }
}

/// The successors of one state under one label; empty when the key is
/// unmapped.
pub open spec fn succs(delta: Map<(u64, Transition), Set<u64>>, s: u64, l: Transition) -> Set<u64> {
    if delta.contains_key((s, l)) {
        delta[(s, l)]
    } else {
        Set::<u64>::empty()
    }
}

/// A chain of states linked by epsilon moves.
pub open spec fn eps_path(delta: Map<(u64, Transition), Set<u64>>, p: Seq<u64>) -> bool {
    &&& p.len() >= 1
    &&& forall|i: int|
        0 <= i < p.len() - 1 ==> (#[trigger] succs(delta, p[i], Transition::Epsilon)).contains(
            p[i + 1],
        )
}

/// Everything reachable from the given set by epsilon moves alone.
pub open spec fn eps_closure(delta: Map<(u64, Transition), Set<u64>>, from: Set<u64>) -> Set<u64> {
    Set::new(
        |t: u64|
            exists|p: Seq<u64>|
                eps_path(delta, p) && from.contains(p[0]) && p.last() == t,
    )
}

/// A set is contained in its own epsilon closure.
pub proof fn lemma_closure_contains(delta: Map<(u64, Transition), Set<u64>>, from: Set<u64>)
    ensures
        from <= eps_closure(delta, from),
{
    assert forall|s: u64| from.contains(s) implies eps_closure(delta, from).contains(s) by {
        let p = seq![s];
        assert(eps_path(delta, p) && from.contains(p[0]) && p.last() == s);
    }
}

/// One epsilon move out of the closure stays inside it.
pub proof fn lemma_closure_step(
    delta: Map<(u64, Transition), Set<u64>>,
    from: Set<u64>,
    s: u64,
    t: u64,
)
    requires
        eps_closure(delta, from).contains(s),
        succs(delta, s, Transition::Epsilon).contains(t),
    ensures
        eps_closure(delta, from).contains(t),
{
    let p = choose|p: Seq<u64>| eps_path(delta, p) && from.contains(p[0]) && p.last() == s;
    let q = p.push(t);
    assert(q.last() == t);
    assert(q[0] == p[0]);
    assert forall|i: int| 0 <= i < q.len() - 1 implies (#[trigger] succs(
        delta,
        q[i],
        Transition::Epsilon,
    )).contains(q[i + 1]) by {
        if i < p.len() - 1 {
            assert(q[i] == p[i] && q[i + 1] == p[i + 1]);
        } else {
            assert(q[i] == p.last() && q[i + 1] == t);
        }
    }
    assert(eps_path(delta, q) && from.contains(q[0]) && q.last() == t);
}

/// Every state on an epsilon path out of a step-closed set stays inside it.
proof fn lemma_path_stays(delta: Map<(u64, Transition), Set<u64>>, c: Set<u64>, p: Seq<u64>)
    requires
        eps_path(delta, p),
        c.contains(p[0]),
        forall|s: u64|
            c.contains(s) ==> (#[trigger] succs(delta, s, Transition::Epsilon)) <= c,
    ensures
        c.contains(p.last()),
    decreases p.len(),
{
    if p.len() > 1 {
        let q = p.drop_first();
        assert(succs(delta, p[0], Transition::Epsilon).contains(p[1]));
        assert(c.contains(p[1]));
        assert(q[0] == p[1]);
        assert forall|i: int| 0 <= i < q.len() - 1 implies (#[trigger] succs(
            delta,
            q[i],
            Transition::Epsilon,
        )).contains(q[i + 1]) by {
            assert(q[i] == p[i + 1] && q[i + 1] == p[i + 2]);
            assert(succs(delta, p[i + 1], Transition::Epsilon).contains(p[i + 2]));
        }
        lemma_path_stays(delta, c, q);
        assert(q.last() == p.last());
    }
}

/// A step-closed superset of a set contains the whole epsilon closure.
pub proof fn lemma_closure_minimal(
    delta: Map<(u64, Transition), Set<u64>>,
    from: Set<u64>,
    c: Set<u64>,
)
    requires
        from <= c,
        forall|s: u64|
            c.contains(s) ==> (#[trigger] succs(delta, s, Transition::Epsilon)) <= c,
    ensures
        eps_closure(delta, from) <= c,
{
    assert forall|t: u64| eps_closure(delta, from).contains(t) implies c.contains(t) by {
        let p = choose|p: Seq<u64>| eps_path(delta, p) && from.contains(p[0]) && p.last() == t;
        lemma_path_stays(delta, c, p);
    }
}

/// Every state that appears in some successor list.
pub open spec fn targets_of(s: Seq<((u64, Transition), Vec<u64>)>) -> Set<u64>
    decreases s.len(),
{
    if s.len() == 0 {
        Set::<u64>::empty()
    } else {
        targets_of(s.drop_last()).union(s.last().1@.to_set())
    }
}

/// The target set is finite and holds every listed successor.
pub proof fn lemma_targets_of(s: Seq<((u64, Transition), Vec<u64>)>)
    ensures
        targets_of(s).finite(),
        forall|i: int|
            0 <= i < s.len() ==> (#[trigger] s[i]).1@.to_set() <= targets_of(s),
    decreases s.len(),
{
    broadcast use vstd::seq_lib::seq_to_set_is_finite;

    if s.len() > 0 {
        let rest = s.drop_last();
        lemma_targets_of(rest);
        assert forall|i: int| 0 <= i < s.len() implies (#[trigger] s[i]).1@.to_set() <= targets_of(
            s,
        ) by {
            if i < s.len() - 1 {
                assert(rest[i] == s[i]);
                assert(rest[i].1@.to_set() <= targets_of(rest));
            } else {
                assert(s[i] == s.last());
            }
        }
    }
}

impl Nfa {
    /// The automaton as a mathematical value.
    pub open spec fn model(&self) -> NfaModel {
        NfaModel {
            start: self.spec_start(),
            accepts: self.spec_accepts(),
            delta: self.spec_delta(),
        }
    }

    /// Merges every entry of `table` into this automaton's relation.
    fn merge_table(&mut self, table: &Vec<((u64, Transition), Vec<u64>)>)
        requires
            old(self).wf(),
            nfa_keys_unique(table@),
        ensures
            final(self).wf(),
            final(self).spec_start() == old(self).spec_start(),
            final(self).spec_accept_list() == old(self).spec_accept_list(),
            final(self).spec_delta() == merged(old(self).spec_delta(), nfa_assoc(table@)),
    {
        let ghost base = self.spec_delta();
        let mut j: usize = 0;
        proof {
            assert(table@.take(0) =~= Seq::<((u64, Transition), Vec<u64>)>::empty());
            lemma_merge_empty(base);
        }
        while j < table.len()
            invariant
                self.wf(),
                nfa_keys_unique(table@),
                j <= table.len(),
                self.spec_start() == old(self).spec_start(),
                self.spec_accept_list() == old(self).spec_accept_list(),
                self.spec_delta() == merged(base, nfa_assoc(table@.take(j as int))),
            decreases table.len() - j,
        {
            let e = &table[j];
            proof {
                assert(*e == table@[j as int]);
            }
            let k = e.0;
            let mut dv: Vec<u64> = Vec::new();
            push_all(&mut dv, &e.1);
            let ghost pref = nfa_assoc(table@.take(j as int));
            proof {
                assert(!pref.contains_key(k)) by {
                    lemma_nfa_assoc(table@.take(j as int));
                    if pref.contains_key(k) {
                        let i = choose|i: int|
                            0 <= i < table@.take(j as int).len() && (#[trigger] table@.take(
                                j as int,
                            )[i]).0 == k;
                        assert(table@[i] == table@.take(j as int)[i]);
                        assert((table@[i]).0 == (table@[j as int]).0);
                    }
                }
                lemma_merge_step(base, pref, k, dv@.to_set());
                assert(table@.take(j + 1).drop_last() =~= table@.take(j as int));
                assert(table@.take(j + 1).last() == table@[j as int]);
                assert(nfa_assoc(table@.take(j + 1)) == pref.insert(
                    k,
                    table@[j as int].1@.to_set(),
                ));
            }
            self.add_transition((k, dv));
            j = j + 1;
        }
        proof {
            assert(table@.take(table@.len() as int) =~= table@);
        }
    }

    /// Joins two automata in sequence: every accept state of `self` gains an
    /// epsilon edge to `other`'s start, the relations are merged, the result
    /// starts at `self`'s start and accepts where `other` does.  The two
    /// operands are consumed; their state identifiers must not overlap for
    /// the result to recognize the concatenated language.
    pub fn concat(self, other: Self) -> (r: Self)
        requires
            self.wf(),
            other.wf(),
        ensures
            r.wf(),
            r.model() == concat_model(self.model(), other.model()),
    {
        let mut this = self;
        let ghost a = this.model();
        let ghost b = other.model();
        let bstart = other.start;
        this.add_eps_edges_to(bstart);
        this.merge_table(&other.transitions);
        this.accept_states = other.accept_states;
        proof {
            assert(nfa_assoc(other.transitions@) == b.delta);
            assert(this.spec_accepts() == b.accepts);
        }
        this
    }

    /// Gives every accept state an epsilon edge to `target`.
    fn add_eps_edges_to(&mut self, target: u64)
        requires
            old(self).wf(),
        ensures
            final(self).wf(),
            final(self).spec_start() == old(self).spec_start(),
            final(self).spec_accept_list() == old(self).spec_accept_list(),
            final(self).spec_delta() == eps_extended(
                old(self).spec_delta(),
                old(self).spec_accepts(),
                target,
            ),
    {
        let ghost base = self.spec_delta();
        let ghost alist = self.spec_accept_list();
        let mut p: usize = 0;
        proof {
            assert(alist.take(0).to_set() =~= Set::<u64>::empty());
            lemma_eps_extend_empty(base, target);
        }
        while p < self.accept_states.len()
            invariant
                self.wf(),
                p <= alist.len(),
                self.spec_start() == old(self).spec_start(),
                self.spec_accept_list() == alist,
                self.spec_delta() == eps_extended(base, alist.take(p as int).to_set(), target),
            decreases alist.len() - p,
        {
            let st = self.accept_states[p];
            let mut tv: Vec<u64> = Vec::new();
            tv.push(target);
            proof {
                assert(tv@ =~= seq![target]);
                lemma_to_set_one(target);
                assert(tv@.to_set() == set![target]);
                lemma_eps_extend_step(base, alist.take(p as int).to_set(), st, target);
                assert(alist.take(p + 1) =~= alist.take(p as int).push(st));
                lemma_push_to_set(alist.take(p as int), st);
            }
            self.add_transition(((st, Transition::Epsilon), tv));
            p = p + 1;
        }
        proof {
            assert(alist.take(alist.len() as int) =~= alist);
        }
    }

    /// Joins two automata as alternatives under a fresh shared start state,
    /// which must be a state of neither operand: the relations are merged,
    /// the fresh start gains epsilon edges to both old starts, and the result
    /// accepts where either operand does.
    pub fn union(self, other: Self, start: u64) -> (r: Self)
        requires
            self.wf(),
            other.wf(),
        ensures
            r.wf(),
            r.model() == union_model(self.model(), other.model(), start),
    {
        let mut this = self;
        let ghost a = this.model();
        let ghost b = other.model();
        this.merge_table(&other.transitions);
        proof {
            assert(nfa_assoc(other.transitions@) == b.delta);
        }
        let mut tv: Vec<u64> = Vec::new();
        tv.push(this.start);
        tv.push(other.start);
        proof {
            assert(tv@ =~= seq![a.start, b.start]);
            lemma_to_set_two(a.start, b.start);
            assert(tv@.to_set() == set![a.start, b.start]);
        }
        this.add_transition(((start, Transition::Epsilon), tv));
        let ghost blist = other.spec_accept_list();
        let mut q: usize = 0;
        proof {
            assert(blist.take(0).to_set() =~= Set::<u64>::empty());
            assert(this.spec_accepts() =~= a.accepts.union(blist.take(0).to_set()));
        }
        while q < other.accept_states.len()
            invariant
                this.wf(),
                q <= blist.len(),
                blist == other.spec_accept_list(),
                this.spec_start() == a.start,
                this.spec_delta() == union_model(a, b, start).delta,
                this.spec_accepts() == a.accepts.union(blist.take(q as int).to_set()),
            decreases other.accept_states.len() - q,
        {
            let st = other.accept_states[q];
            proof {
                assert(blist.take(q + 1) =~= blist.take(q as int).push(st));
                lemma_push_to_set(blist.take(q as int), st);
            }
            let ghost acc0: Seq<u64> = this.accept_states@;
            vec_set_insert(&mut this.accept_states, st);
            proof {
                assert(this.spec_accepts() =~= a.accepts.union(blist.take(q + 1).to_set()));
            }
            q = q + 1;
        }
        proof {
            assert(blist.take(blist.len() as int) =~= blist);
        }
        this.start = start;
        this
    }

    /// Closes an automaton under repetition: a fresh start state gains
    /// epsilon edges to a fresh accept state (the zero-iteration bypass) and
    /// to the old start; every old accept state gains an epsilon edge back to
    /// the fresh start, so further rounds and the final exit both route
    /// through it.  The two fresh states must not be states of the operand.
    pub fn star(self, start: u64, accept: u64) -> (r: Self)
        requires
            self.wf(),
        ensures
            r.wf(),
            r.model() == star_model(self.model(), start, accept),
    {
        let mut this = self;
        let ghost a = this.model();
        let mut tv: Vec<u64> = Vec::new();
        tv.push(accept);
        tv.push(this.start);
        proof {
            assert(tv@ =~= seq![accept, a.start]);
            lemma_to_set_two(accept, a.start);
            assert(tv@.to_set() == set![accept, a.start]);
        }
        this.add_transition(((start, Transition::Epsilon), tv));
        this.add_eps_edges_to(start);
        let mut av: Vec<u64> = Vec::new();
        av.push(accept);
        proof {
            assert(av@ =~= seq![accept]);
            lemma_to_set_one(accept);
            assert(av@.to_set() == set![accept]);
        }
        this.accept_states = av;
        this.start = start;
        this
    }

    /// Extends a set of states with everything reachable over epsilon edges,
    /// by an explicit worklist; the epsilon graph may be cyclic.
    pub fn extend_set(nfa: &Nfa, set: &Vec<u64>) -> (r: Vec<u64>)
        requires
            nfa.wf(),
            set@.no_duplicates(),
        ensures
            r@.no_duplicates(),
            r@.to_set() == eps_closure(nfa.spec_delta(), set@.to_set()),
    {
        let ghost delta = nfa.spec_delta();
        let ghost seeds: Set<u64> = set@.to_set();
        let ghost u: Set<u64> = seeds.union(targets_of(nfa.transitions@));
        proof {
            broadcast use vstd::seq_lib::seq_to_set_is_finite;

            lemma_targets_of(nfa.transitions@);
            assert(u.finite());
            lemma_closure_contains(delta, seeds);
            lemma_nfa_assoc(nfa.transitions@);
        }
        let mut extend: Vec<u64> = Vec::new();
        push_all(&mut extend, set);
        let mut queue: Vec<u64> = Vec::new();
        push_all(&mut queue, set);
        proof {
            assert(extend@ == set@);
            assert(extend@.to_set() <= u);
            extend@.unique_seq_to_set();
            vstd::set_lib::lemma_len_subset(extend@.to_set(), u);
        }
        while queue.len() > 0
            invariant
                nfa.wf(),
                delta == nfa.spec_delta(),
                seeds == set@.to_set(),
                u == seeds.union(targets_of(nfa.transitions@)),
                u.finite(),
                extend@.no_duplicates(),
                extend@.to_set() <= u,
                extend@.len() <= u.len(),
                seeds <= extend@.to_set(),
                extend@.to_set() <= eps_closure(delta, seeds),
                queue@.to_set() <= extend@.to_set(),
                forall|s: u64|
                    extend@.to_set().contains(s) && !queue@.to_set().contains(s) ==> (
                    #[trigger] succs(delta, s, Transition::Epsilon)) <= extend@.to_set(),
            decreases u.len() - extend@.len(), queue.len(),
        {
            let ghost q_old: Seq<u64> = queue@;
            let ghost e_old: Set<u64> = extend@.to_set();
            let state = match queue.pop() {
                Some(st) => st,
                None => {
                    proof {
                        assert(false);
                    }
                    0
                },
            };
            proof {
                lemma_push_to_set(queue@, state);
                assert(q_old =~= queue@.push(state));
                assert(q_old.to_set() == queue@.to_set().insert(state));
            }
            let ghost q1: Set<u64> = queue@.to_set();
            let ghost qlen1: int = queue@.len() as int;
            let ghost elen1: int = extend@.len() as int;
            match nfa.get_transition(&(state, Transition::Epsilon)) {
                Some(detected) => {
                    proof {
                        assert(detected@.to_set() == succs(delta, state, Transition::Epsilon));
                        assert(detected@.to_set() <= targets_of(nfa.transitions@)) by {
                            lemma_nfa_assoc(nfa.transitions@);
                            lemma_targets_of(nfa.transitions@);
                            let i = choose|i: int|
                                0 <= i < nfa.transitions@.len() && (#[trigger] nfa.transitions@[i]).0
                                    == (state, Transition::Epsilon);
                            assert(nfa.transitions@[i].1@.to_set() <= targets_of(nfa.transitions@));
                        }
                        assert(q_old.to_set().contains(state)) by {
                            assert(q_old[q_old.len() - 1] == state);
                        }
                        assert(extend@.to_set().contains(state));
                        assert(queue@.to_set() =~= q1.union(extend@.to_set().difference(e_old)));
                    }
                    let mut m: usize = 0;
                    while m < detected.len()
                        invariant
                            nfa.wf(),
                            delta == nfa.spec_delta(),
                            seeds == set@.to_set(),
                            u == seeds.union(targets_of(nfa.transitions@)),
                            u.finite(),
                            m <= detected.len(),
                            detected@.to_set() == succs(delta, state, Transition::Epsilon),
                            detected@.to_set() <= u,
                            eps_closure(delta, seeds).contains(state),
                            extend@.no_duplicates(),
                            extend@.to_set() <= u,
                            extend@.len() <= u.len(),
                            seeds <= extend@.to_set(),
                            extend@.to_set() <= eps_closure(delta, seeds),
                            e_old <= extend@.to_set(),
                            elen1 <= extend@.len(),
                            queue@.len() - qlen1 == extend@.len() - elen1,
                            queue@.to_set() == q1.union(extend@.to_set().difference(e_old)),
                            forall|k: int| 0 <= k < m ==> extend@.to_set().contains(#[trigger] detected@[k]),
                            forall|s: u64|
                                e_old.contains(s) && !q_old.to_set().contains(s) ==> (
                                #[trigger] succs(delta, s, Transition::Epsilon)) <= e_old,
                        decreases detected.len() - m,
                    {
                        let d = detected[m];
                        proof {
                            assert(detected@.to_set().contains(detected@[m as int]));
                            assert(u.contains(d));
                            lemma_closure_step(delta, seeds, state, d);
                        }
                        if !vec_contains(&extend, d) {
                            let ghost eprev: Seq<u64> = extend@;
                            let ghost qprev: Seq<u64> = queue@;
                            extend.push(d);
                            queue.push(d);
                            proof {
                                assert(extend@ == eprev.push(d));
                                assert(queue@ == qprev.push(d));
                                lemma_push_to_set(eprev, d);
                                lemma_push_to_set(qprev, d);
                                assert(!e_old.contains(d));
                                extend@.unique_seq_to_set();
                                vstd::set_lib::lemma_len_subset(extend@.to_set(), u);
                                assert(queue@.to_set() =~= q1.union(
                                    extend@.to_set().difference(e_old),
                                ));
                            }
                        } else {
                            proof {
                                assert(extend@.to_set().contains(d));
                            }
                        }
                        m = m + 1;
                    }
                    proof {
                        assert(detected@.to_set() <= extend@.to_set()) by {
                            assert forall|x: u64| detected@.to_set().contains(x) implies
                                extend@.to_set().contains(x) by {
                                let k = choose|k: int|
                                    0 <= k < detected@.len() && detected@[k] == x;
                                assert(extend@.to_set().contains(detected@[k]));
                            }
                        }
                        assert(q_old.to_set() =~= q1.insert(state));
                        lemma_extend_after_work(
                            delta,
                            e_old,
                            extend@.to_set(),
                            q_old.to_set(),
                            q1,
                            queue@.to_set(),
                            state,
                            detected@.to_set(),
                        );
                    }
                },
                None => {
                    proof {
                        assert(succs(delta, state, Transition::Epsilon) =~= Set::<u64>::empty());
                        assert forall|s: u64|
                            extend@.to_set().contains(s) && !queue@.to_set().contains(s) implies (
                        #[trigger] succs(delta, s, Transition::Epsilon)) <= extend@.to_set() by {
                            if s != state {
                                assert(!q_old.to_set().contains(s));
                            }
                        }
                    }
                },
            }
        }
        proof {
            assert(queue@.to_set() =~= Set::<u64>::empty()) by {
                assert forall|x: u64| !queue@.to_set().contains(x) by {
                    if queue@.to_set().contains(x) {
                        let k = choose|k: int| 0 <= k < queue@.len() && queue@[k] == x;
                    }
                }
            }
            lemma_closure_minimal(delta, seeds, extend@.to_set());
            assert(extend@.to_set() =~= eps_closure(delta, seeds));
        }
        extend
    }
}

/// A nondeterministic automaton as a mathematical value: what the contracts
/// of the combinators and of the compiler speak about.
pub struct NfaModel {
    pub start: u64,
    pub accepts: Set<u64>,
    pub delta: Map<(u64, Transition), Set<u64>>,
}

/// What a relation holds for one key, or the empty set.
pub open spec fn get_or_empty(d: Map<(u64, Transition), Set<u64>>, k: (u64, Transition)) -> Set<
    u64,
> {
    if d.contains_key(k) {
        d[k]
    } else {
        Set::<u64>::empty()
    }
}

/// A relation with one epsilon edge to `target` added from every state of
/// `acc`.
pub open spec fn eps_extended(
    d: Map<(u64, Transition), Set<u64>>,
    acc: Set<u64>,
    target: u64,
) -> Map<(u64, Transition), Set<u64>> {
    Map::new(
        |k: (u64, Transition)|
            d.contains_key(k) || (k.1 == Transition::Epsilon && acc.contains(k.0)),
        |k: (u64, Transition)|
            get_or_empty(d, k).union(
                if k.1 == Transition::Epsilon && acc.contains(k.0) {
                    set![target]
                } else {
                    Set::<u64>::empty()
                },
            ),
    )
}

/// Two relations merged: the union of their successor sets, key by key.
pub open spec fn merged(
    d1: Map<(u64, Transition), Set<u64>>,
    d2: Map<(u64, Transition), Set<u64>>,
) -> Map<(u64, Transition), Set<u64>> {
    Map::new(
        |k: (u64, Transition)| d1.contains_key(k) || d2.contains_key(k),
        |k: (u64, Transition)| get_or_empty(d1, k).union(get_or_empty(d2, k)),
    )
}

/// Concatenation: every accept state of the first automaton gets an epsilon
/// edge to the second automaton's start; the result starts where the first
/// did and accepts where the second does.
pub open spec fn concat_model(a: NfaModel, b: NfaModel) -> NfaModel {
    NfaModel {
        start: a.start,
        accepts: b.accepts,
        delta: merged(eps_extended(a.delta, a.accepts, b.start), b.delta),
    }
}

/// Alternation: a fresh start state with epsilon edges to both starts; the
/// result accepts where either operand does.
pub open spec fn union_model(a: NfaModel, b: NfaModel, s: u64) -> NfaModel {
    NfaModel {
        start: s,
        accepts: a.accepts.union(b.accepts),
        delta: merged(a.delta, b.delta).insert(
            (s, Transition::Epsilon),
            get_or_empty(merged(a.delta, b.delta), (s, Transition::Epsilon)).union(
                set![a.start, b.start],
            ),
        ),
    }
}

/// Kleene star: a fresh start with epsilon edges to a fresh accept (the
/// zero-iteration bypass) and to the operand's start; every old accept state
/// gets an epsilon edge back to the fresh start.
pub open spec fn star_model(a: NfaModel, s: u64, t: u64) -> NfaModel {
    NfaModel {
        start: s,
        accepts: set![t],
        delta: eps_extended(
            a.delta.insert(
                (s, Transition::Epsilon),
                get_or_empty(a.delta, (s, Transition::Epsilon)).union(set![t, a.start]),
            ),
            a.accepts,
            s,
        ),
    }
}

/// Extending the accept set by one state inserts exactly that state's
/// epsilon entry.
pub proof fn lemma_eps_extend_step(
    d: Map<(u64, Transition), Set<u64>>,
    acc: Set<u64>,
    st: u64,
    target: u64,
)
    ensures
        eps_extended(d, acc.insert(st), target) == eps_extended(d, acc, target).insert(
            (st, Transition::Epsilon),
            get_or_empty(eps_extended(d, acc, target), (st, Transition::Epsilon)).union(
                set![target],
            ),
        ),
{
    let left = eps_extended(d, acc.insert(st), target);
    let right = eps_extended(d, acc, target).insert(
        (st, Transition::Epsilon),
        get_or_empty(eps_extended(d, acc, target), (st, Transition::Epsilon)).union(set![target]),
    );
    assert forall|k: (u64, Transition)|
        left.contains_key(k) <==> right.contains_key(k) by {}
    assert forall|k: (u64, Transition)| left.contains_key(k) && right.contains_key(
        k,
    ) implies left[k] =~= right[k] by {
        if k == (st, Transition::Epsilon) {
            if acc.contains(st) {
                assert(left[k] =~= right[k]);
            } else {
                assert(left[k] =~= right[k]);
            }
        } else {
            assert(left[k] =~= right[k]);
        }
    }
    assert(left =~= right);
}

/// Merging one fresh entry inserts exactly that entry.
pub proof fn lemma_merge_step(
    d1: Map<(u64, Transition), Set<u64>>,
    d2: Map<(u64, Transition), Set<u64>>,
    k: (u64, Transition),
    vs: Set<u64>,
)
    requires
        !d2.contains_key(k),
    ensures
        merged(d1, d2.insert(k, vs)) == merged(d1, d2).insert(
            k,
            get_or_empty(merged(d1, d2), k).union(vs),
        ),
{
    let left = merged(d1, d2.insert(k, vs));
    let right = merged(d1, d2).insert(k, get_or_empty(merged(d1, d2), k).union(vs));
    assert forall|q: (u64, Transition)| left.contains_key(q) && right.contains_key(
        q,
    ) implies left[q] =~= right[q] by {}
    assert(left =~= right);
}

/// Merging an empty relation changes nothing but the value views.
pub proof fn lemma_merge_empty(d1: Map<(u64, Transition), Set<u64>>)
    ensures
        merged(d1, Map::<(u64, Transition), Set<u64>>::empty()) == d1,
{
    let left = merged(d1, Map::<(u64, Transition), Set<u64>>::empty());
    assert forall|q: (u64, Transition)| left.contains_key(q) && d1.contains_key(
        q,
    ) implies left[q] =~= d1[q] by {}
    assert(left =~= d1);
}

/// Adding epsilon edges from no state at all changes nothing.
pub proof fn lemma_eps_extend_empty(d: Map<(u64, Transition), Set<u64>>, target: u64)
    ensures
        eps_extended(d, Set::<u64>::empty(), target) == d,
{
    let left = eps_extended(d, Set::<u64>::empty(), target);
    assert forall|q: (u64, Transition)| left.contains_key(q) && d.contains_key(
        q,
    ) implies left[q] =~= d[q] by {}
    assert(left =~= d);
}

/// The largest state universe the determinizer will enumerate: beyond this
/// many states the exponential power-set construction is refused instead of
/// silently consuming unbounded time and space.
pub const MAX_DETERMINIZE_STATES: usize = 16;

/// All states that occur in the relation, as a source or as a successor.
pub open spec fn spec_universe(delta: Map<(u64, Transition), Set<u64>>) -> Set<u64> {
    Set::new(
        |s: u64|
            exists|k: (u64, Transition)|
                #[trigger] delta.contains_key(k) && (k.0 == s || delta[k].contains(s)),
    )
}

/// The input symbols on which some state of `c` has a transition.
/// Whether some state of `c` can consume the symbol `a`.
pub open spec fn has_sym_edge(delta: Map<(u64, Transition), Set<u64>>, c: Set<u64>, a: char) -> bool {
    exists|st: u64| #[trigger] c.contains(st) && delta.contains_key((st, Transition::Symbol(a)))
}

pub open spec fn sym_labels(delta: Map<(u64, Transition), Set<u64>>, c: Set<u64>) -> Set<char> {
    Set::new(|a: char| has_sym_edge(delta, c, a))
}

/// Inserting a fresh key grows the universe by the key's source state and
/// its successors.
pub proof fn lemma_universe_insert(
    m: Map<(u64, Transition), Set<u64>>,
    k: (u64, Transition),
    vs: Set<u64>,
)
    requires
        !m.contains_key(k),
    ensures
        spec_universe(m.insert(k, vs)) == spec_universe(m).union(set![k.0]).union(vs),
{
    let left = spec_universe(m.insert(k, vs));
    let right = spec_universe(m).union(set![k.0]).union(vs);
    assert forall|s: u64| left.contains(s) implies right.contains(s) by {
        let q = choose|q: (u64, Transition)|
            #[trigger] m.insert(k, vs).contains_key(q) && (q.0 == s || m.insert(k, vs)[q].contains(
                s,
            ));
        if q == k {
        } else {
            assert(m.contains_key(q) && (q.0 == s || m[q].contains(s)));
        }
    }
    assert forall|s: u64| right.contains(s) implies left.contains(s) by {
        if spec_universe(m).contains(s) {
            let q = choose|q: (u64, Transition)|
                #[trigger] m.contains_key(q) && (q.0 == s || m[q].contains(s));
            assert(q != k);
            assert(m.insert(k, vs).contains_key(q) && (q.0 == s || m.insert(k, vs)[q].contains(s)));
        } else {
            assert(m.insert(k, vs).contains_key(k) && (k.0 == s || m.insert(k, vs)[k].contains(s)));
        }
    }
    assert(left =~= right);
}

/// The empty relation mentions no state.
pub proof fn lemma_universe_empty()
    ensures
        spec_universe(Map::<(u64, Transition), Set<u64>>::empty()) == Set::<u64>::empty(),
{
    let left = spec_universe(Map::<(u64, Transition), Set<u64>>::empty());
    assert forall|s: u64| !left.contains(s) by {
        if left.contains(s) {
            let q = choose|q: (u64, Transition)|
                #[trigger] Map::<(u64, Transition), Set<u64>>::empty().contains_key(q) && (q.0 == s
                    || Map::<(u64, Transition), Set<u64>>::empty()[q].contains(s));
        }
    }
    assert(left =~= Set::<u64>::empty());
}

/// The direct successors of any state of `from` under one input symbol.
pub open spec fn sym_succs(
    delta: Map<(u64, Transition), Set<u64>>,
    from: Set<u64>,
    a: char,
) -> Set<u64> {
    Set::new(
        |t: u64|
            exists|s: u64|
                from.contains(s) && (#[trigger] succs(delta, s, Transition::Symbol(a))).contains(t),
    )
}

/// Adding one state to the source set adds exactly its successors.
pub proof fn lemma_sym_succs_insert(
    delta: Map<(u64, Transition), Set<u64>>,
    from: Set<u64>,
    s: u64,
    a: char,
)
    ensures
        sym_succs(delta, from.insert(s), a) == sym_succs(delta, from, a).union(
            succs(delta, s, Transition::Symbol(a)),
        ),
{
    let left = sym_succs(delta, from.insert(s), a);
    let right = sym_succs(delta, from, a).union(succs(delta, s, Transition::Symbol(a)));
    assert forall|t: u64| left.contains(t) implies right.contains(t) by {
        let w = choose|w: u64|
            from.insert(s).contains(w) && (#[trigger] succs(
                delta,
                w,
                Transition::Symbol(a),
            )).contains(t);
        if w != s {
            assert(from.contains(w));
        }
    }
    assert forall|t: u64| right.contains(t) implies left.contains(t) by {
        if sym_succs(delta, from, a).contains(t) {
            let w = choose|w: u64|
                from.contains(w) && (#[trigger] succs(delta, w, Transition::Symbol(a))).contains(t);
            assert(from.insert(s).contains(w));
        } else {
            assert(from.insert(s).contains(s));
            assert(succs(delta, s, Transition::Symbol(a)).contains(t));
        }
    }
    assert(left =~= right);
}

/// The state set the simulation reaches after consuming a word: the epsilon
/// closure of the start state, then for each symbol the epsilon closure of
/// the symbol successors of the previous set.
pub open spec fn nfa_sim(delta: Map<(u64, Transition), Set<u64>>, start: u64, w: Seq<char>) -> Set<
    u64,
>
    decreases w.len(),
{
    if w.len() == 0 {
        eps_closure(delta, set![start])
    } else {
        eps_closure(delta, sym_succs(delta, nfa_sim(delta, start, w.drop_last()), w.last()))
    }
}

impl Nfa {
    /// The union of the direct successors of every state of `set` under one
    /// input symbol.
    fn symbol_successors(&self, set: &Vec<u64>, c: char) -> (r: Vec<u64>)
        requires
            self.wf(),
        ensures
            r@.no_duplicates(),
            r@.to_set() == sym_succs(self.spec_delta(), set@.to_set(), c),
    {
        let ghost delta = self.spec_delta();
        let mut nxt: Vec<u64> = Vec::new();
        let mut p: usize = 0;
        proof {
            assert(set@.take(0).to_set() =~= Set::<u64>::empty());
            assert(sym_succs(delta, set@.take(0).to_set(), c) =~= Set::<u64>::empty()) by {
                assert forall|t: u64| !sym_succs(delta, set@.take(0).to_set(), c).contains(t) by {
                    if sym_succs(delta, set@.take(0).to_set(), c).contains(t) {
                        let s = choose|s: u64|
                            set@.take(0).to_set().contains(s) && (#[trigger] succs(
                                delta,
                                s,
                                Transition::Symbol(c),
                            )).contains(t);
                    }
                }
            }
            assert(nxt@.to_set() =~= sym_succs(delta, set@.take(0).to_set(), c));
        }
        while p < set.len()
            invariant
                self.wf(),
                delta == self.spec_delta(),
                p <= set.len(),
                nxt@.no_duplicates(),
                nxt@.to_set() == sym_succs(delta, set@.take(p as int).to_set(), c),
            decreases set.len() - p,
        {
            let st = set[p];
            let ghost part: Set<u64> = set@.take(p as int).to_set();
            proof {
                assert(set@.take(p + 1) =~= set@.take(p as int).push(st));
                lemma_push_to_set(set@.take(p as int), st);
                lemma_sym_succs_insert(delta, part, st, c);
            }
            match self.get_transition(&(st, Transition::Symbol(c))) {
                Some(dests) => {
                    proof {
                        assert(dests@.to_set() == succs(delta, st, Transition::Symbol(c)));
                    }
                    let mut q: usize = 0;
                    while q < dests.len()
                        invariant
                            q <= dests.len(),
                            nxt@.no_duplicates(),
                            nxt@.to_set() == sym_succs(delta, part, c).union(
                                dests@.take(q as int).to_set(),
                            ),
                        decreases dests.len() - q,
                    {
                        vec_set_insert(&mut nxt, dests[q]);
                        proof {
                            assert(dests@.take(q + 1) =~= dests@.take(q as int).push(
                                dests@[q as int],
                            ));
                            lemma_push_to_set(dests@.take(q as int), dests@[q as int]);
                            assert(nxt@.to_set() =~= sym_succs(delta, part, c).union(
                                dests@.take(q + 1).to_set(),
                            ));
                        }
                        q = q + 1;
                    }
                    proof {
                        assert(dests@.take(dests@.len() as int) =~= dests@);
                        assert(nxt@.to_set() =~= sym_succs(delta, set@.take(p + 1).to_set(), c));
                    }
                },
                None => {
                    proof {
                        assert(succs(delta, st, Transition::Symbol(c)) =~= Set::<u64>::empty());
                        assert(nxt@.to_set() =~= sym_succs(delta, set@.take(p + 1).to_set(), c));
                    }
                },
            }
            p = p + 1;
        }
        proof {
            assert(set@.take(set@.len() as int) =~= set@);
        }
        nxt
    }

    /// Every state that occurs in the transition relation, as a source or as
    /// a successor, without duplicates.
    #[verifier::loop_isolation(false)]
    fn universe(&self) -> (r: Vec<u64>)
        requires
            self.wf(),
        ensures
            r@.no_duplicates(),
            r@.to_set() == spec_universe(self.spec_delta()),
    {
        let mut uni: Vec<u64> = Vec::new();
        let mut j: usize = 0;
        proof {
            lemma_universe_empty();
            assert(self.transitions@.take(0) =~= Seq::<((u64, Transition), Vec<u64>)>::empty());
            assert(uni@.to_set() =~= spec_universe(nfa_assoc(self.transitions@.take(0))));
        }
        while j < self.transitions.len()
            invariant
                j <= self.transitions@.len(),
                uni@.no_duplicates(),
                uni@.to_set() == spec_universe(nfa_assoc(self.transitions@.take(j as int))),
            decreases self.transitions@.len() - j,
        {
            let e = &self.transitions[j];
            proof {
                assert(*e == self.transitions@[j as int]);
            }
            let ghost pref = nfa_assoc(self.transitions@.take(j as int));
            let ghost k: (u64, Transition) = e.0;
            proof {
                assert(!pref.contains_key(k)) by {
                    lemma_nfa_assoc(self.transitions@.take(j as int));
                    if pref.contains_key(k) {
                        let i = choose|i: int|
                            0 <= i < self.transitions@.take(j as int).len() && (
                            #[trigger] self.transitions@.take(j as int)[i]).0 == k;
                        assert(self.transitions@[i] == self.transitions@.take(j as int)[i]);
                        assert((self.transitions@[i]).0 == (self.transitions@[j as int]).0);
                    }
                }
                lemma_universe_insert(pref, k, self.transitions@[j as int].1@.to_set());
                assert(self.transitions@.take(j + 1).drop_last() =~= self.transitions@.take(
                    j as int,
                ));
                assert(self.transitions@.take(j + 1).last() == self.transitions@[j as int]);
            }
            vec_set_insert(&mut uni, e.0.0);
            let dests = &e.1;
            let mut d: usize = 0;
            proof {
                assert(dests@.take(0).to_set() =~= Set::<u64>::empty());
                assert(uni@.to_set() =~= spec_universe(pref).union(set![k.0]).union(
                    dests@.take(0).to_set(),
                ));
            }
            while d < dests.len()
                invariant
                    d <= dests@.len(),
                    uni@.no_duplicates(),
                    uni@.to_set() == spec_universe(pref).union(set![k.0]).union(
                        dests@.take(d as int).to_set(),
                    ),
                decreases dests@.len() - d,
            {
                vec_set_insert(&mut uni, dests[d]);
                proof {
                    assert(dests@.take(d + 1) =~= dests@.take(d as int).push(dests@[d as int]));
                    lemma_push_to_set(dests@.take(d as int), dests@[d as int]);
                    assert(uni@.to_set() =~= spec_universe(pref).union(set![k.0]).union(
                        dests@.take(d + 1).to_set(),
                    ));
                }
                d = d + 1;
            }
            proof {
                assert(dests@.take(dests@.len() as int) =~= dests@);
                assert(uni@.to_set() == spec_universe(
                    nfa_assoc(self.transitions@.take(j + 1)),
                ));
            }
            j = j + 1;
        }
        proof {
            assert(self.transitions@.take(self.transitions@.len() as int) =~= self.transitions@);
            assert(uni@.to_set() =~= spec_universe(self.spec_delta()));
        }
        uni
    }

    /// The symbols on which some state of `cset` has a transition, without
    /// duplicates.
    #[verifier::loop_isolation(false)]
    fn labels_from(&self, cset: &Vec<u64>) -> (r: Vec<char>)
        requires
            self.wf(),
        ensures
            r@.no_duplicates(),
            r@.to_set() == sym_labels(self.spec_delta(), cset@.to_set()),
    {
        let ghost c: Set<u64> = cset@.to_set();
        let mut labels: Vec<char> = Vec::new();
        let mut q: usize = 0;
        proof {
            assert(labels@.to_set() =~= labels_prefix(self.transitions@, c, 0)) by {
                assert forall|a: char| !labels_prefix(self.transitions@, c, 0).contains(a) by {
                    if labels_prefix(self.transitions@, c, 0).contains(a) {
                        let p = choose|p: int|
                            0 <= p < 0 && (#[trigger] self.transitions@[p]).0.1
                                == Transition::Symbol(a) && c.contains(self.transitions@[p].0.0);
                    }
                }
                assert forall|a: char| !labels@.to_set().contains(a) by {
                    if labels@.to_set().contains(a) {
                        let p = choose|p: int| 0 <= p < labels@.len() && labels@[p] == a;
                    }
                }
            }
        }
        while q < self.transitions.len()
            invariant
                q <= self.transitions@.len(),
                labels@.no_duplicates(),
                labels@.to_set() == labels_prefix(self.transitions@, c, q as int),
            decreases self.transitions@.len() - q,
        {
            let e = &self.transitions[q];
            proof {
                assert(*e == self.transitions@[q as int]);
                lemma_labels_prefix_step(self.transitions@, c, q as int);
            }
            match e.0.1 {
                Transition::Symbol(a) => {
                    if vec_contains(cset, e.0.0) {
                        char_vec_insert(&mut labels, a);
                    } else {
                        proof {
                            assert(labels@.to_set() =~= labels_prefix(
                                self.transitions@,
                                c,
                                q + 1,
                            ));
                        }
                    }
                },
                Transition::Epsilon => {
                },
            }
            q = q + 1;
        }
        proof {
            lemma_labels_prefix_full(self.transitions@, c);
        }
        labels
    }

    /// Simulates the automaton: records the current state set before each
    /// symbol is consumed and once more at the end; accepts exactly when the
    /// final set meets the accepting set.
    pub fn run(&self, input: &[char]) -> (r: Trace<Vec<u64>>)
        requires
            self.wf(),
        ensures
            r.spec_trace().len() == input@.len() + 1,
            forall|i: int|
                0 <= i <= input@.len() ==> (#[trigger] r.spec_trace()[i])@.to_set() == nfa_sim(
                    self.spec_delta(),
                    self.spec_start(),
                    input@.take(i),
                ),
            r.spec_accept() == !nfa_sim(self.spec_delta(), self.spec_start(), input@).disjoint(
                self.spec_accepts(),
            ),
    {
        let ghost delta = self.spec_delta();
        let mut seed: Vec<u64> = Vec::new();
        seed.push(self.start);
        proof {
            assert(seed@ =~= seq![self.start]);
            assert(seed@.to_set() =~= set![self.spec_start()]) by {
                assert(seed@[0] == self.spec_start());
                assert(seed@.to_set().contains(self.spec_start()));
                assert forall|x: u64| seed@.to_set().contains(x) implies x == self.spec_start() by {
                    let k = choose|k: int| 0 <= k < seed@.len() && seed@[k] == x;
                }
            }
        }
        let mut set: Vec<u64> = Nfa::extend_set(self, &seed);
        let mut trvec: Vec<Vec<u64>> = Vec::new();
        let mut i: usize = 0;
        proof {
            assert(input@.take(0) =~= Seq::<char>::empty());
        }
        while i < input.len()
            invariant
                self.wf(),
                delta == self.spec_delta(),
                i <= input.len(),
                trvec@.len() == i,
                set@.no_duplicates(),
                set@.to_set() == nfa_sim(delta, self.spec_start(), input@.take(i as int)),
                forall|j: int|
                    0 <= j < i ==> (#[trigger] trvec@[j])@.to_set() == nfa_sim(
                        delta,
                        self.spec_start(),
                        input@.take(j),
                    ),
            decreases input.len() - i,
        {
            let c = input[i];
            let mut snap: Vec<u64> = Vec::new();
            push_all(&mut snap, &set);
            trvec.push(snap);
            // the union of the symbol successors of every current state
            let nxt = self.symbol_successors(&set, c);
            set = Nfa::extend_set(self, &nxt);
            proof {
                assert(input@.take(i + 1).drop_last() =~= input@.take(i as int));
                assert(input@.take(i + 1).last() == c);
                assert(set@.to_set() == nfa_sim(delta, self.spec_start(), input@.take(i + 1)));
            }
            i = i + 1;
        }
        proof {
            assert(input@.take(input@.len() as int) =~= input@);
        }
        // does the final set meet the accepting set?
        let ghost simset: Set<u64> = set@.to_set();
        let mut accept: bool = false;
        let mut p: usize = 0;
        while p < set.len()
            invariant
                self.wf(),
                p <= set.len(),
                simset == set@.to_set(),
                accept == exists|k: int|
                    0 <= k < p && self.spec_accepts().contains(#[trigger] set@[k]),
            decreases set.len() - p,
        {
            if vec_contains(&self.accept_states, set[p]) {
                accept = true;
                proof {
                    assert(self.spec_accepts().contains(set@[p as int]));
                }
            } else {
                proof {
                    assert(accept == exists|k: int|
                        0 <= k <= p && self.spec_accepts().contains(#[trigger] set@[k])) by {
                        if accept {
                            let k = choose|k: int|
                                0 <= k < p && self.spec_accepts().contains(#[trigger] set@[k]);
                            assert(0 <= k <= p && self.spec_accepts().contains(set@[k]));
                        }
                    }
                }
            }
            p = p + 1;
        }
        proof {
            if accept {
                let k = choose|k: int|
                    0 <= k < set@.len() && self.spec_accepts().contains(#[trigger] set@[k]);
                assert(simset.contains(set@[k]));
                assert(!simset.disjoint(self.spec_accepts()));
            } else {
                assert forall|t: u64| simset.contains(t) implies !self.spec_accepts().contains(
                    t,
                ) by {
                    let k = choose|k: int| 0 <= k < set@.len() && set@[k] == t;
                }
                assert(simset.disjoint(self.spec_accepts()));
            }
        }
        trvec.push(set);
        proof {
            assert forall|j: int| 0 <= j <= input@.len() implies (
            #[trigger] trvec@[j])@.to_set() == nfa_sim(
                self.spec_delta(),
                self.spec_start(),
                input@.take(j),
            ) by {
                if j == input@.len() {
                    assert(trvec@[j] == trvec@.last());
                }
            }
        }
        Trace::new(accept, trvec)
    }
}

/// The transition function of the determinized automaton: a subset of the
/// state universe steps on a symbol exactly when some state of its epsilon
/// closure can consume that symbol, and reaches the epsilon closure of the
/// symbol successors of that closure.
pub open spec fn subset_delta(m: NfaModel) -> Map<(Set<u64>, char), Set<u64>> {
    Map::new(
        |k: (Set<u64>, char)|
            k.0 <= spec_universe(m.delta) && sym_labels(m.delta, eps_closure(m.delta, k.0)).contains(
                k.1,
            ),
        |k: (Set<u64>, char)|
            eps_closure(m.delta, sym_succs(m.delta, eps_closure(m.delta, k.0), k.1)),
    )
}

/// The accepting states of the determinized automaton: the subsets of the
/// universe that meet the accepting set as they stand, before any closure.
pub open spec fn subset_accepts(m: NfaModel) -> Set<Set<u64>> {
    Set::new(|s: Set<u64>| s <= spec_universe(m.delta) && !s.disjoint(m.accepts))
}

/// The symbols found on the first `q` entries whose source lies in `c`.
pub open spec fn labels_prefix(
    s: Seq<((u64, Transition), Vec<u64>)>,
    c: Set<u64>,
    q: int,
) -> Set<char> {
    Set::new(
        |a: char|
            exists|p: int|
                0 <= p < q && (#[trigger] s[p]).0.1 == Transition::Symbol(a) && c.contains(
                    s[p].0.0,
                ),
    )
}

/// Scanning one more entry adds its symbol when its source lies in `c`.
pub proof fn lemma_labels_prefix_step(s: Seq<((u64, Transition), Vec<u64>)>, c: Set<u64>, q: int)
    requires
        0 <= q < s.len(),
    ensures
        labels_prefix(s, c, q + 1) == (match s[q].0.1 {
            Transition::Symbol(a0) => if c.contains(s[q].0.0) {
                labels_prefix(s, c, q).insert(a0)
            } else {
                labels_prefix(s, c, q)
            },
            Transition::Epsilon => labels_prefix(s, c, q),
        }),
{
    let left = labels_prefix(s, c, q + 1);
    let right = match s[q].0.1 {
        Transition::Symbol(a0) => if c.contains(s[q].0.0) {
            labels_prefix(s, c, q).insert(a0)
        } else {
            labels_prefix(s, c, q)
        },
        Transition::Epsilon => labels_prefix(s, c, q),
    };
    assert forall|a: char| left.contains(a) implies right.contains(a) by {
        let p = choose|p: int|
            0 <= p < q + 1 && (#[trigger] s[p]).0.1 == Transition::Symbol(a) && c.contains(
                s[p].0.0,
            );
        if p < q {
            assert(labels_prefix(s, c, q).contains(a));
        }
    }
    assert forall|a: char| right.contains(a) implies left.contains(a) by {
        if labels_prefix(s, c, q).contains(a) {
            let p = choose|p: int|
                0 <= p < q && (#[trigger] s[p]).0.1 == Transition::Symbol(a) && c.contains(
                    s[p].0.0,
                );
            assert(0 <= p < q + 1 && s[p].0.1 == Transition::Symbol(a) && c.contains(s[p].0.0));
        } else {
            assert(0 <= q < q + 1 && s[q].0.1 == Transition::Symbol(a) && c.contains(s[q].0.0));
        }
    }
    assert(left =~= right);
}

/// The full scan finds exactly the symbols the relation offers from `c`.
pub proof fn lemma_labels_prefix_full(s: Seq<((u64, Transition), Vec<u64>)>, c: Set<u64>)
    requires
        nfa_keys_unique(s),
    ensures
        labels_prefix(s, c, s.len() as int) == sym_labels(nfa_assoc(s), c),
{
    lemma_nfa_assoc(s);
    let left = labels_prefix(s, c, s.len() as int);
    let right = sym_labels(nfa_assoc(s), c);
    assert forall|a: char| left.contains(a) implies right.contains(a) by {
        let p = choose|p: int|
            0 <= p < s.len() && (#[trigger] s[p]).0.1 == Transition::Symbol(a) && c.contains(
                s[p].0.0,
            );
        assert((s[p]).0 == (s[p].0.0, Transition::Symbol(a)));
        assert(nfa_assoc(s).contains_key((s[p].0.0, Transition::Symbol(a))));
        assert(c.contains(s[p].0.0) && nfa_assoc(s).contains_key(
            (s[p].0.0, Transition::Symbol(a)),
        ));
    }
    assert forall|a: char| right.contains(a) implies left.contains(a) by {
        assert(sym_labels(nfa_assoc(s), c).contains(a));
        assert(has_sym_edge(nfa_assoc(s), c, a));
        let st = choose|st: u64|
            #[trigger] c.contains(st) && nfa_assoc(s).contains_key((st, Transition::Symbol(a)));
        assert(c.contains(st) && nfa_assoc(s).contains_key((st, Transition::Symbol(a))));
        lemma_nfa_assoc_find(s, (st, Transition::Symbol(a)));
        let p = choose|p: int|
            0 <= p < s.len() && (#[trigger] s[p]).0 == (st, Transition::Symbol(a));
        assert(s[p].0.1 == Transition::Symbol(a) && c.contains(s[p].0.0));
    }
    assert(left =~= right);
}

/// After one worklist round the processed states are still step-closed: the
/// popped state's successors were all added, the other processed states kept
/// theirs, and every freshly added state waits in the queue.
proof fn lemma_extend_after_work(
    delta: Map<(u64, Transition), Set<u64>>,
    e_old: Set<u64>,
    e_new: Set<u64>,
    q_old: Set<u64>,
    q1: Set<u64>,
    q_new: Set<u64>,
    state: u64,
    detected: Set<u64>,
)
    requires
        e_old <= e_new,
        q_old == q1.insert(state),
        q_new == q1.union(e_new.difference(e_old)),
        detected == succs(delta, state, Transition::Epsilon),
        detected <= e_new,
        forall|s: u64|
            e_old.contains(s) && !q_old.contains(s) ==> (#[trigger] succs(
                delta,
                s,
                Transition::Epsilon,
            )) <= e_old,
    ensures
        forall|s: u64|
            e_new.contains(s) && !q_new.contains(s) ==> (#[trigger] succs(
                delta,
                s,
                Transition::Epsilon,
            )) <= e_new,
{
    assert forall|s: u64| e_new.contains(s) && !q_new.contains(s) implies (#[trigger] succs(
        delta,
        s,
        Transition::Epsilon,
    )) <= e_new by {
        if s == state {
            assert(succs(delta, s, Transition::Epsilon) == detected);
        } else {
            assert(!e_new.difference(e_old).contains(s));
            assert(e_old.contains(s));
            assert(!q1.contains(s));
            assert(!q_old.contains(s));
            assert(succs(delta, s, Transition::Epsilon) <= e_old);
        }
    }
}

/// Where an entry of the shorter list sat in the longer one, before the
/// removal at the found index.
spec fn back_index(found: Option<usize>, i1: int) -> int {
    match found {
        Some(j) => if i1 < j {
            i1
        } else {
            i1 + 1
        },
        None => i1,
    }
}

/// Where an entry of the longer list sits after the removal at the found
/// index.
spec fn fwd_index(found: Option<usize>, i0: int) -> int {
    match found {
        Some(j) => if i0 < j {
            i0
        } else {
            i0 - 1
        },
        None => i0,
    }
}

/// Keys stay pairwise distinct and the given key occurs nowhere.
spec fn keys_unique_without(mid: Seq<((u64, Transition), Vec<u64>)>, key: (u64, Transition)) -> bool {
    &&& nfa_keys_unique(mid)
    &&& forall|p: int| 0 <= p < mid.len() ==> (#[trigger] mid[p]).0 != key
}

/// Finds the index of the entry with the given key, if there is one.
fn nfa_find_entry(table: &Vec<((u64, Transition), Vec<u64>)>, key: &(u64, Transition)) -> (r:
    Option<usize>)
    ensures
        match r {
            Some(j) => j < table@.len() && (table@[j as int]).0 == *key,
            None => forall|p: int| 0 <= p < table@.len() ==> (#[trigger] table@[p]).0 != *key,
        },
{
    let mut j: usize = 0;
    while j < table.len()
        invariant
            j <= table.len(),
            forall|p: int| 0 <= p < j ==> (#[trigger] table@[p]).0 != *key,
        decreases table.len() - j,
    {
        let e = &table[j];
        proof {
            assert(*e == table@[j as int]);
        }
        if e.0.0 == key.0 && e.0.1 == key.1 {
            proof {
                assert((table@[j as int]).0 == *key);
            }
            return Some(j);
        }
        j = j + 1;
    }
    None
}

impl Dfa<SetState> {
    /// Determinizes an automaton by subset construction over the full power
    /// set of its state universe: every subset becomes one deterministic
    /// state under its canonical set identity, a subset accepts exactly when
    /// it meets the accepting set, and it steps on a symbol to the epsilon
    /// closure of the symbol successors of its own epsilon closure.  A
    /// universe of more than `MAX_DETERMINIZE_STATES` states is refused as a
    /// state-space explosion instead of being enumerated.
    #[verifier::loop_isolation(false)]
    #[verifier::rlimit(60)]
    pub fn from_nfa(nfa: &Nfa) -> (r: Result<Dfa<SetState>, RegexError>)
        requires
            nfa.wf(),
        ensures
            ({
                let m = nfa.model();
                match r {
                    Ok(d) => {
                        &&& d.wf()
                        &&& spec_universe(m.delta).len() <= MAX_DETERMINIZE_STATES
                        &&& d.spec_start_key() == eps_closure(m.delta, set![m.start])
                        &&& d.spec_accept_keys() == subset_accepts(m)
                        &&& d.spec_delta() == subset_delta(m)
                    },
                    Err(e) => e == RegexError::StateSpaceExplosion && spec_universe(m.delta).len()
                        > MAX_DETERMINIZE_STATES,
                }
            }),
    {
        let ghost m = nfa.model();
        let uni = nfa.universe();
        proof {
            uni@.unique_seq_to_set();
        }
        if uni.len() > MAX_DETERMINIZE_STATES {
            return Err(RegexError::StateSpaceExplosion);
        }
        let ghost univ: Set<u64> = uni@.to_set();
        let subs = power_set(uni);
        let ghost subsets: Seq<Vec<u64>> = subs@;

        // which subsets accept: those that meet the accepting set
        let mut accepts: Vec<SetState> = Vec::new();
        let mut ai: usize = 0;
        while ai < subs.len()
            invariant
                ai <= subsets.len(),
                forall|p: int|
                    0 <= p < accepts@.len() ==> subset_accepts(m).contains(
                        (#[trigger] accepts@[p]).key(),
                    ),
                forall|q: int|
                    0 <= q < ai && !(#[trigger] subsets[q])@.to_set().disjoint(m.accepts)
                        ==> exists|p: int|
                        0 <= p < accepts@.len() && (#[trigger] accepts@[p]).key()
                            == subsets[q]@.to_set(),
            decreases subsets.len() - ai,
        {
            if vec_sets_intersect(&subs[ai], &nfa.accept_states) {
                let mut cp: Vec<u64> = Vec::new();
                push_all(&mut cp, &subs[ai]);
                let ghost n0: int = accepts@.len() as int;
                let ghost a0: Seq<SetState> = accepts@;
                accepts.push(SetState::new(cp));
                proof {
                    assert(accepts@[n0].key() == subsets[ai as int]@.to_set());
                    assert(subset_accepts(m).contains(accepts@[n0].key()));
                    assert forall|q: int|
                        0 <= q < ai + 1 && !(#[trigger] subsets[q])@.to_set().disjoint(
                            m.accepts,
                        ) implies exists|p: int|
                        0 <= p < accepts@.len() && (#[trigger] accepts@[p]).key() == subsets[
                        q
                    ]@.to_set() by {
                        if q < ai {
                            let p = choose|p: int|
                                0 <= p < a0.len() && (#[trigger] a0[p]).key() == subsets[
                                q
                            ]@.to_set();
                            assert(accepts@[p] == a0[p]);
                            assert(accepts@[p].key() == subsets[q]@.to_set());
                        } else {
                            assert(accepts@[n0].key() == subsets[q]@.to_set());
                        }
                    }
                }
            }
            ai = ai + 1;
        }

        // the transition table, one entry per live (subset, symbol) pair
        let mut table: Vec<((SetState, dfa::Transition), SetState)> = Vec::new();
        let mut si: usize = 0;
        while si < subs.len()
            invariant
                si <= subsets.len(),
                dfa_keys_unique(table@),
                forall|p: int|
                    0 <= p < table@.len() ==> subset_delta(m).contains_key(
                        entry_key(#[trigger] table@[p]),
                    ) && table@[p].1.key() == subset_delta(m)[entry_key(table@[p])],
                forall|p: int|
                    0 <= p < table@.len() ==> exists|q: int|
                        0 <= q < si && entry_key(#[trigger] table@[p]).0 == subsets[q]@.to_set(),
                forall|q: int, a: char|
                    #![trigger sym_labels(m.delta, eps_closure(m.delta, subsets[q]@.to_set())).contains(a)]
                    0 <= q < si && sym_labels(
                        m.delta,
                        eps_closure(m.delta, subsets[q]@.to_set()),
                    ).contains(a) ==> exists|p: int|
                        0 <= p < table@.len() && entry_key(#[trigger] table@[p]) == (
                        subsets[q]@.to_set(),
                        a,
                        ),
            decreases subsets.len() - si,
        {
            let ghost cur: Set<u64> = subsets[si as int]@.to_set();
            let closure = Nfa::extend_set(nfa, &subs[si]);
            let labels = nfa.labels_from(&closure);
            let ghost lbls: Seq<char> = labels@;
            let mut li: usize = 0;
            while li < labels.len()
                invariant
                    li <= lbls.len(),
                    dfa_keys_unique(table@),
                    forall|p: int|
                        0 <= p < table@.len() ==> subset_delta(m).contains_key(
                            entry_key(#[trigger] table@[p]),
                        ) && table@[p].1.key() == subset_delta(m)[entry_key(table@[p])],
                    forall|p: int|
                        0 <= p < table@.len() ==> (exists|q: int|
                            0 <= q < si && entry_key(#[trigger] table@[p]).0 == subsets[q]@.to_set())
                            || (entry_key(table@[p]).0 == cur && lbls.take(li as int).to_set().contains(
                            entry_key(table@[p]).1,
                        )),
                    forall|q: int, a: char|
                        #![trigger sym_labels(m.delta, eps_closure(m.delta, subsets[q]@.to_set())).contains(a)]
                        0 <= q < si && sym_labels(
                            m.delta,
                            eps_closure(m.delta, subsets[q]@.to_set()),
                        ).contains(a) ==> exists|p: int|
                            0 <= p < table@.len() && entry_key(#[trigger] table@[p]) == (
                            subsets[q]@.to_set(),
                            a,
                            ),
                    forall|a: char|
                        lbls.take(li as int).to_set().contains(a) ==> exists|p: int|
                            0 <= p < table@.len() && entry_key(#[trigger] table@[p]) == (cur, a),
                decreases lbls.len() - li,
            {
                let c = labels[li];
                let nxt = nfa.symbol_successors(&closure, c);
                let tgt = Nfa::extend_set(nfa, &nxt);
                let mut cp: Vec<u64> = Vec::new();
                push_all(&mut cp, &subs[si]);
                let ghost n0: int = table@.len() as int;
                let ghost t0: Seq<((SetState, dfa::Transition), SetState)> = table@;
                proof {
                    // the key about to be added is live in the subset automaton
                    assert(sym_labels(m.delta, eps_closure(m.delta, cur)).contains(c));
                    assert(subset_delta(m).contains_key((cur, c)));
                    assert(subset_delta(m)[(cur, c)] == eps_closure(
                        m.delta,
                        sym_succs(m.delta, eps_closure(m.delta, cur), c),
                    ));
                }
                table.push(((SetState::new(cp), dfa::Transition::new(c)), SetState::new(tgt)));
                proof {
                    assert(entry_key(table@[n0]) == (cur, c));
                    assert(table@[n0].1.key() == subset_delta(m)[(cur, c)]);
                    assert(lbls.take(li + 1) =~= lbls.take(li as int).push(c));
                    lemma_push_to_set(lbls.take(li as int), c);
                    // the new key differs from every earlier key
                    assert(!lbls.take(li as int).to_set().contains(c)) by {
                        if lbls.take(li as int).to_set().contains(c) {
                            let w = choose|w: int| 0 <= w < li && lbls.take(li as int)[w] == c;
                            assert(lbls[w] == lbls[li as int]);
                        }
                    }
                    assert forall|p: int| 0 <= p < n0 implies entry_key(#[trigger] table@[p])
                        != (cur, c) by {
                        assert(table@[p] == t0[p]);
                        if entry_key(t0[p]).0 == cur {
                            assert(lbls.take(li as int).to_set().contains(entry_key(t0[p]).1));
                        }
                    }
                    assert forall|p: int| 0 <= p < table@.len() implies ((exists|q: int|
                        0 <= q < si && entry_key(#[trigger] table@[p]).0 == subsets[q]@.to_set())
                        || (entry_key(table@[p]).0 == cur && lbls.take(li + 1).to_set().contains(
                        entry_key(table@[p]).1,
                    ))) by {
                        if p < n0 {
                            assert(table@[p] == t0[p]);
                            if !(exists|q: int|
                                0 <= q < si && entry_key(#[trigger] t0[p]).0 == subsets[
                                q
                            ]@.to_set()) {
                                assert(lbls.take(li as int).to_set().contains(entry_key(t0[p]).1));
                                assert(lbls.take(li + 1).to_set().contains(entry_key(t0[p]).1));
                            } else {
                                let q = choose|q: int|
                                    0 <= q < si && entry_key(#[trigger] t0[p]).0 == subsets[
                                    q
                                ]@.to_set();
                                assert(entry_key(table@[p]).0 == subsets[q]@.to_set());
                            }
                        } else {
                            assert(entry_key(table@[p]) == (cur, c));
                            assert(lbls.take(li + 1).to_set().contains(c));
                        }
                    }
                    assert forall|a: char| #[trigger] lbls.take(li + 1).to_set().contains(
                        a,
                    ) implies exists|p: int|
                        0 <= p < table@.len() && entry_key(#[trigger] table@[p]) == (cur, a) by {
                        if a == c {
                            assert(entry_key(table@[n0]) == (cur, a));
                        } else {
                            assert(lbls.take(li as int).to_set().contains(a));
                            let p = choose|p: int|
                                0 <= p < t0.len() && entry_key(#[trigger] t0[p]) == (cur, a);
                            assert(table@[p] == t0[p]);
                            assert(entry_key(table@[p]) == (cur, a));
                        }
                    }
                    assert forall|q: int, a: char|
                        0 <= q < si && #[trigger] sym_labels(
                            m.delta,
                            eps_closure(m.delta, subsets[q]@.to_set()),
                        ).contains(a) implies exists|p: int|
                        0 <= p < table@.len() && entry_key(#[trigger] table@[p]) == (
                        subsets[q]@.to_set(),
                        a,
                        ) by {
                        let p = choose|p: int|
                            0 <= p < t0.len() && entry_key(#[trigger] t0[p]) == (
                            subsets[q]@.to_set(),
                            a,
                            );
                        assert(table@[p] == t0[p]);
                        assert(entry_key(table@[p]) == (subsets[q]@.to_set(), a));
                    }
                }
                li = li + 1;
            }
            proof {
                assert(lbls.take(lbls.len() as int) =~= lbls);
                // completeness now also covers this subset
                assert forall|q: int, a: char|
                    0 <= q < si + 1 && #[trigger] sym_labels(
                        m.delta,
                        eps_closure(m.delta, subsets[q]@.to_set()),
                    ).contains(a) implies exists|p: int|
                    0 <= p < table@.len() && entry_key(#[trigger] table@[p]) == (
                    subsets[q]@.to_set(),
                    a,
                    ) by {
                    if q == si {
                        assert(lbls.to_set().contains(a));
                    }
                }
                // origin of each entry now includes this subset
                assert forall|p: int| 0 <= p < table@.len() implies exists|q: int|
                    0 <= q < si + 1 && entry_key(#[trigger] table@[p]).0 == subsets[q]@.to_set() by {
                    if entry_key(table@[p]).0 == cur {
                        assert(0 <= si < si + 1 && entry_key(table@[p]).0 == subsets[
                            si as int
                        ]@.to_set());
                    } else {
                        let q = choose|q: int|
                            0 <= q < si && entry_key(#[trigger] table@[p]).0 == subsets[
                            q
                        ]@.to_set();
                        assert(0 <= q < si + 1 && entry_key(table@[p]).0 == subsets[q]@.to_set());
                    }
                }
            }
            si = si + 1;
        }

        // the start state: the closure of the start seed
        let mut seed: Vec<u64> = Vec::new();
        seed.push(nfa.start);
        proof {
            assert(seed@ =~= seq![nfa.spec_start()]);
            lemma_to_set_one(nfa.spec_start());
            assert(seed@.to_set() == set![m.start]);
        }
        let startc = Nfa::extend_set(nfa, &seed);
        let start_state = SetState::new(startc);
        let d = Dfa::new(start_state, accepts, table);
        proof {
            assert(d.spec_accept_keys() =~= subset_accepts(m)) by {
                assert forall|k: Set<u64>| d.spec_accept_keys().contains(k) implies
                    subset_accepts(m).contains(k) by {
                    let pk = accepts@.map_values(|s: SetState| s.key());
                    let p = choose|p: int| 0 <= p < pk.len() && pk[p] == k;
                    assert(accepts@[p].key() == k);
                }
                assert forall|k: Set<u64>| subset_accepts(m).contains(k) implies
                    d.spec_accept_keys().contains(k) by {
                    assert(k <= univ);
                    let q = choose|q: int|
                        0 <= q < subsets.len() && (#[trigger] subsets[q])@.to_set() == k;
                    assert(!subsets[q]@.to_set().disjoint(m.accepts));
                    let p = choose|p: int|
                        0 <= p < accepts@.len() && (#[trigger] accepts@[p]).key() == subsets[
                        q
                    ]@.to_set();
                    let pk = accepts@.map_values(|s: SetState| s.key());
                    assert(pk[p] == k);
                    assert(pk.to_set().contains(k));
                }
            }
            crate::dfa::lemma_dfa_assoc(table@);
            assert(d.spec_delta() =~= subset_delta(m)) by {
                assert forall|k: (Set<u64>, char)| d.spec_delta().contains_key(k) implies
                    subset_delta(m).contains_key(k) && d.spec_delta()[k] == subset_delta(m)[k] by {
                    let p = choose|p: int|
                        0 <= p < table@.len() && #[trigger] entry_key(table@[p]) == k;
                    assert(subset_delta(m).contains_key(k));
                    assert(d.spec_delta()[k] == table@[p].1.key());
                }
                assert forall|k: (Set<u64>, char)| subset_delta(m).contains_key(k) implies
                    d.spec_delta().contains_key(k) by {
                    assert(k.0 <= univ);
                    let q = choose|q: int|
                        0 <= q < subsets.len() && (#[trigger] subsets[q])@.to_set() == k.0;
                    assert(sym_labels(m.delta, eps_closure(m.delta, subsets[q]@.to_set())).contains(
                        k.1,
                    ));
                    let p = choose|p: int|
                        0 <= p < table@.len() && entry_key(#[trigger] table@[p]) == (
                        subsets[q]@.to_set(),
                        k.1,
                        );
                    assert(entry_key(table@[p]) == k);
                }
            }
        }
        Ok(d)
    }
}


/// The epsilon closure of a closed set is itself.
pub proof fn lemma_closure_idempotent(delta: Map<(u64, Transition), Set<u64>>, a: Set<u64>)
    ensures
        eps_closure(delta, eps_closure(delta, a)) == eps_closure(delta, a),
{
    let c = eps_closure(delta, a);
    lemma_closure_contains(delta, c);
    assert forall|s: u64| c.contains(s) implies (#[trigger] succs(
        delta,
        s,
        Transition::Epsilon,
    )) <= c by {
        assert forall|t: u64| succs(delta, s, Transition::Epsilon).contains(t) implies c.contains(
            t,
        ) by {
            lemma_closure_step(delta, a, s, t);
        }
    }
    lemma_closure_minimal(delta, c, c);
    assert(eps_closure(delta, c) =~= c);
}

/// The epsilon closure of the empty set is empty.
pub proof fn lemma_closure_empty(delta: Map<(u64, Transition), Set<u64>>)
    ensures
        eps_closure(delta, Set::<u64>::empty()) == Set::<u64>::empty(),
{
    assert forall|t: u64| !eps_closure(delta, Set::<u64>::empty()).contains(t) by {
        if eps_closure(delta, Set::<u64>::empty()).contains(t) {
            let p = choose|p: Seq<u64>|
                eps_path(delta, p) && Set::<u64>::empty().contains(p[0]) && p.last() == t;
        }
    }
    assert(eps_closure(delta, Set::<u64>::empty()) =~= Set::<u64>::empty());
}

/// Closures and symbol successors stay inside the state universe.
pub proof fn lemma_closure_in_universe(delta: Map<(u64, Transition), Set<u64>>, a: Set<u64>)
    requires
        a <= spec_universe(delta),
    ensures
        eps_closure(delta, a) <= spec_universe(delta),
{
    let u = spec_universe(delta);
    assert forall|s: u64| u.contains(s) implies (#[trigger] succs(delta, s, Transition::Epsilon))
        <= u by {
        assert forall|t: u64| succs(delta, s, Transition::Epsilon).contains(t) implies u.contains(
            t,
        ) by {
            assert(delta.contains_key((s, Transition::Epsilon)));
            assert(delta.contains_key((s, Transition::Epsilon)) && ((
            s,
            Transition::Epsilon,
            ).0 == t || delta[(s, Transition::Epsilon)].contains(t)));
        }
    }
    lemma_closure_minimal(delta, a, u);
}

/// Symbol successors of any set stay inside the state universe.
pub proof fn lemma_sym_succs_in_universe(
    delta: Map<(u64, Transition), Set<u64>>,
    a: Set<u64>,
    c: char,
)
    ensures
        sym_succs(delta, a, c) <= spec_universe(delta),
{
    assert forall|t: u64| sym_succs(delta, a, c).contains(t) implies spec_universe(
        delta,
    ).contains(t) by {
        let s = choose|s: u64|
            a.contains(s) && (#[trigger] succs(delta, s, Transition::Symbol(c))).contains(t);
        assert(delta.contains_key((s, Transition::Symbol(c))));
        assert(delta.contains_key((s, Transition::Symbol(c))) && ((
        s,
        Transition::Symbol(c),
        ).0 == t || delta[(s, Transition::Symbol(c))].contains(t)));
    }
}

/// The simulation seeded at an arbitrary set instead of one start state.
pub open spec fn sim_from(delta: Map<(u64, Transition), Set<u64>>, c: Set<u64>, w: Seq<char>) -> Set<
    u64,
>
    decreases w.len(),
{
    if w.len() == 0 {
        c
    } else {
        eps_closure(delta, sym_succs(delta, sim_from(delta, c, w.drop_last()), w.last()))
    }
}

/// The one-start simulation is the seeded simulation from the closed start
/// seed.
pub proof fn lemma_sim_is_sim_from(delta: Map<(u64, Transition), Set<u64>>, start: u64, w: Seq<char>)
    ensures
        nfa_sim(delta, start, w) == sim_from(delta, eps_closure(delta, set![start]), w),
    decreases w.len(),
{
    let c0 = eps_closure(delta, set![start]);
    if w.len() == 0 {
        assert(nfa_sim(delta, start, w) == c0);
        assert(sim_from(delta, c0, w) == c0);
    } else {
        lemma_sim_is_sim_from(delta, start, w.drop_last());
        assert(nfa_sim(delta, start, w) == eps_closure(
            delta,
            sym_succs(delta, nfa_sim(delta, start, w.drop_last()), w.last()),
        ));
        assert(sim_from(delta, c0, w) == eps_closure(
            delta,
            sym_succs(delta, sim_from(delta, c0, w.drop_last()), w.last()),
        ));
    }
}

/// Consuming the first symbol re-seeds the simulation.
pub proof fn lemma_sim_from_step(delta: Map<(u64, Transition), Set<u64>>, c: Set<u64>, w: Seq<char>)
    requires
        w.len() >= 1,
    ensures
        sim_from(delta, c, w) == sim_from(
            delta,
            eps_closure(delta, sym_succs(delta, c, w[0])),
            w.drop_first(),
        ),
    decreases w.len(),
{
    let c2 = eps_closure(delta, sym_succs(delta, c, w[0]));
    if w.len() == 1 {
        assert(w.drop_last() =~= Seq::<char>::empty());
        assert(w.drop_first() =~= Seq::<char>::empty());
        assert(w.last() == w[0]);
        assert(sim_from(delta, c, w.drop_last()) == c);
        assert(sim_from(delta, c, w) == c2);
        assert(sim_from(delta, c2, w.drop_first()) == c2);
    } else {
        lemma_sim_from_step(delta, c, w.drop_last());
        assert(w.drop_last()[0] == w[0]);
        assert(w.drop_last().drop_first() =~= w.drop_first().drop_last());
        assert(w.drop_first().last() == w.last());
        assert(sim_from(delta, c, w.drop_last()) == sim_from(
            delta,
            c2,
            w.drop_first().drop_last(),
        ));
        assert(sim_from(delta, c, w) == eps_closure(
            delta,
            sym_succs(delta, sim_from(delta, c, w.drop_last()), w.last()),
        ));
        assert(sim_from(delta, c2, w.drop_first()) == eps_closure(
            delta,
            sym_succs(delta, sim_from(delta, c2, w.drop_first().drop_last()), w.drop_first().last()),
        ));
    }
}

/// An empty simulation stays empty.
pub proof fn lemma_sim_from_empty(delta: Map<(u64, Transition), Set<u64>>, w: Seq<char>)
    ensures
        sim_from(delta, Set::<u64>::empty(), w) == Set::<u64>::empty(),
    decreases w.len(),
{
    if w.len() > 0 {
        lemma_sim_from_empty(delta, w.drop_last());
        assert(sym_succs(delta, Set::<u64>::empty(), w.last()) =~= Set::<u64>::empty()) by {
            assert forall|t: u64| !sym_succs(delta, Set::<u64>::empty(), w.last()).contains(
                t,
            ) by {
                if sym_succs(delta, Set::<u64>::empty(), w.last()).contains(t) {
                    let s = choose|s: u64|
                        Set::<u64>::empty().contains(s) && (#[trigger] succs(
                            delta,
                            s,
                            Transition::Symbol(w.last()),
                        )).contains(t);
                }
            }
        }
        lemma_closure_empty(delta);
    }
}


/// What the determinized automaton answers from one of its (closed) states,
/// seen against what the nondeterministic simulation answers from the same
/// set: the two agree on every input.
#[verifier::rlimit(40)]
proof fn lemma_subset_walk_agrees(m: NfaModel, c: Set<u64>, w: Seq<char>)
    requires
        c <= spec_universe(m.delta),
        eps_closure(m.delta, c) == c,
    ensures
        ({
            let walk = dfa_walk(subset_delta(m), c, w);
            (walk.len() == w.len() + 1 && subset_accepts(m).contains(walk.last())) == !sim_from(
                m.delta,
                c,
                w,
            ).disjoint(m.accepts)
        }),
    decreases w.len(),
{
    let d = subset_delta(m);
    let walk = dfa_walk(d, c, w);
    if w.len() == 0 {
        assert(walk == seq![c]);
        assert(walk.last() == c);
        assert(subset_accepts(m).contains(c) == !c.disjoint(m.accepts));
    } else {
        let a = w[0];
        let rest = w.drop_first();
        lemma_sim_from_step(m.delta, c, w);
        if d.contains_key((c, a)) {
            let c2 = d[(c, a)];
            assert(c2 == eps_closure(m.delta, sym_succs(m.delta, eps_closure(m.delta, c), a)));
            assert(eps_closure(m.delta, c) == c);
            assert(c2 == eps_closure(m.delta, sym_succs(m.delta, c, a)));
            lemma_sym_succs_in_universe(m.delta, c, a);
            lemma_closure_in_universe(m.delta, sym_succs(m.delta, c, a));
            lemma_closure_idempotent(m.delta, sym_succs(m.delta, c, a));
            lemma_subset_walk_agrees(m, c2, rest);
            assert(walk == seq![c] + dfa_walk(d, c2, rest));
            let walk2 = dfa_walk(d, c2, rest);
            assert(walk.len() == walk2.len() + 1);
            assert(walk.last() == walk2.last());
            assert(sim_from(m.delta, c, w) == sim_from(m.delta, c2, rest));
        } else {
            assert(walk == seq![c]);
            assert(walk.len() < w.len() + 1);
            // the missing key means no state of `c` consumes the symbol
            assert(!sym_labels(m.delta, eps_closure(m.delta, c)).contains(a));
            assert(sym_succs(m.delta, c, a) =~= Set::<u64>::empty()) by {
                assert forall|t: u64| !sym_succs(m.delta, c, a).contains(t) by {
                    if sym_succs(m.delta, c, a).contains(t) {
                        let s = choose|s: u64|
                            c.contains(s) && (#[trigger] succs(
                                m.delta,
                                s,
                                Transition::Symbol(a),
                            )).contains(t);
                        assert(m.delta.contains_key((s, Transition::Symbol(a))));
                        assert(has_sym_edge(m.delta, eps_closure(m.delta, c), a)) by {
                            assert(eps_closure(m.delta, c).contains(s) && m.delta.contains_key(
                                (s, Transition::Symbol(a)),
                            ));
                        }
                        assert(sym_labels(m.delta, eps_closure(m.delta, c)).contains(a));
                    }
                }
            }
            lemma_closure_empty(m.delta);
            lemma_sim_from_empty(m.delta, rest);
            assert(sim_from(m.delta, c, w) == Set::<u64>::empty());
            assert(Set::<u64>::empty().disjoint(m.accepts));
        }
    }
}


/// A state at either end of a present key lies in the universe.
proof fn lemma_in_universe(delta: Map<(u64, Transition), Set<u64>>, k: (u64, Transition), s: u64)
    requires
        delta.contains_key(k),
        k.0 == s || delta[k].contains(s),
    ensures
        spec_universe(delta).contains(s),
{
    assert(delta.contains_key(k) && (k.0 == s || delta[k].contains(s)));
}

/// A start state the relation never mentions has no moves at all: from it
/// both sides reject everything but possibly the empty input.
proof fn lemma_unmentioned_start(m: NfaModel, w: Seq<char>)
    requires
        !spec_universe(m.delta).contains(m.start),
        !(w.len() == 0 && m.accepts.contains(m.start)),
    ensures
        ({
            let walk = dfa_walk(subset_delta(m), eps_closure(m.delta, set![m.start]), w);
            (walk.len() == w.len() + 1 && subset_accepts(m).contains(walk.last())) == !nfa_sim(
                m.delta,
                m.start,
                w,
            ).disjoint(m.accepts)
        }),
{
    let u = spec_universe(m.delta);
    let seed: Set<u64> = set![m.start];
    lemma_sim_is_sim_from(m.delta, m.start, w);
    // no key of the relation can start at the unmentioned state
    assert forall|l: Transition| !m.delta.contains_key((m.start, l)) by {
        if m.delta.contains_key((m.start, l)) {
            assert(exists|k: (u64, Transition)|
                #[trigger] m.delta.contains_key(k) && (k.0 == m.start || m.delta[k].contains(
                    m.start,
                ))) by {
                assert(m.delta.contains_key((m.start, l)) && ((m.start, l).0 == m.start
                    || m.delta[(m.start, l)].contains(m.start)));
            }
            assert(u.contains(m.start));
        }
    }
    let c0 = eps_closure(m.delta, seed);
    assert(c0 =~= seed) by {
        lemma_closure_contains(m.delta, seed);
        assert forall|s: u64| seed.contains(s) implies (#[trigger] succs(
            m.delta,
            s,
            Transition::Epsilon,
        )) <= seed by {
            assert(s == m.start);
            assert(!m.delta.contains_key((m.start, Transition::Epsilon)));
            assert(succs(m.delta, s, Transition::Epsilon) =~= Set::<u64>::empty());
        }
        lemma_closure_minimal(m.delta, seed, seed);
    }
    let walk = dfa_walk(subset_delta(m), c0, w);
    if w.len() == 0 {
        assert(walk == seq![c0]);
        assert(!(c0 <= u)) by {
            assert(c0.contains(m.start));
        }
        assert(!subset_accepts(m).contains(c0));
        assert(sim_from(m.delta, c0, w) == c0);
        assert(c0.disjoint(m.accepts)) by {
            assert forall|t: u64| c0.contains(t) implies !m.accepts.contains(t) by {
                assert(t == m.start);
            }
        }
    } else {
        assert(!subset_delta(m).contains_key((c0, w[0]))) by {
            if subset_delta(m).contains_key((c0, w[0])) {
                assert(c0 <= u);
                assert(c0.contains(m.start));
            }
        }
        assert(walk == seq![c0]);
        assert(walk.len() < w.len() + 1);
        lemma_sim_from_step(m.delta, c0, w);
        assert(sym_succs(m.delta, c0, w[0]) =~= Set::<u64>::empty()) by {
            assert(c0 =~= Set::<u64>::empty().insert(m.start));
            lemma_sym_succs_insert(m.delta, Set::<u64>::empty(), m.start, w[0]);
            assert(sym_succs(m.delta, Set::<u64>::empty(), w[0]) =~= Set::<u64>::empty()) by {
                assert forall|t: u64| !sym_succs(m.delta, Set::<u64>::empty(), w[0]).contains(
                    t,
                ) by {
                    if sym_succs(m.delta, Set::<u64>::empty(), w[0]).contains(t) {
                        let s = choose|s: u64|
                            Set::<u64>::empty().contains(s) && (#[trigger] succs(
                                m.delta,
                                s,
                                Transition::Symbol(w[0]),
                            )).contains(t);
                    }
                }
            }
            assert(!m.delta.contains_key((m.start, Transition::Symbol(w[0])))) by {
                if m.delta.contains_key((m.start, Transition::Symbol(w[0]))) {
                    lemma_in_universe(m.delta, (m.start, Transition::Symbol(w[0])), m.start);
                }
            }
            assert(succs(m.delta, m.start, Transition::Symbol(w[0])) =~= Set::<u64>::empty());
        }
        lemma_closure_empty(m.delta);
        lemma_sim_from_empty(m.delta, w.drop_first());
        assert(sim_from(m.delta, c0, w) == Set::<u64>::empty());
        assert(Set::<u64>::empty().disjoint(m.accepts));
    }
}

/// Determinization preserves the accepted language: the automaton that the
/// subset construction describes accepts an input exactly when the
/// nondeterministic simulation does.  The one family of inputs left out is a
/// start state that the transition relation never mentions but that accepts
/// the empty input: the full power set of the universe does not contain such
/// a start state, so there the two sides differ on the empty input alone.
pub proof fn lemma_determinize_correct(m: NfaModel, w: Seq<char>)
    requires
        spec_universe(m.delta).contains(m.start) || !(w.len() == 0 && m.accepts.contains(m.start)),
    ensures
        ({
            let walk = dfa_walk(subset_delta(m), eps_closure(m.delta, set![m.start]), w);
            (walk.len() == w.len() + 1 && subset_accepts(m).contains(walk.last())) == !nfa_sim(
                m.delta,
                m.start,
                w,
            ).disjoint(m.accepts)
        }),
{
    let u = spec_universe(m.delta);
    lemma_sim_is_sim_from(m.delta, m.start, w);
    if u.contains(m.start) {
        assert(set![m.start] <= u) by {
            assert forall|t: u64| set![m.start].contains(t) implies u.contains(t) by {
                assert(t == m.start);
            }
        }
        lemma_closure_in_universe(m.delta, set![m.start]);
        lemma_closure_idempotent(m.delta, set![m.start]);
        lemma_subset_walk_agrees(m, eps_closure(m.delta, set![m.start]), w);
    } else {
        lemma_unmentioned_start(m, w);
    }
}

/// The zero-iteration side of the star semantics: the closed automaton
/// accepts the empty input, through the epsilon bypass from the fresh start
/// to the fresh accept state.
pub proof fn lemma_star_accepts_empty(a: NfaModel, s: u64, t: u64)
    ensures
        !nfa_sim(star_model(a, s, t).delta, s, Seq::<char>::empty()).disjoint(
            star_model(a, s, t).accepts,
        ),
{
    let m = star_model(a, s, t);
    let c0 = eps_closure(m.delta, set![s]);
    lemma_closure_contains(m.delta, set![s]);
    assert(set![s].contains(s));
    assert(c0.contains(s));
    assert(m.delta.contains_key((s, Transition::Epsilon)));
    assert(succs(m.delta, s, Transition::Epsilon).contains(t)) by {
        assert(get_or_empty(
            a.delta.insert(
                (s, Transition::Epsilon),
                get_or_empty(a.delta, (s, Transition::Epsilon)).union(set![t, a.start]),
            ),
            (s, Transition::Epsilon),
        ).contains(t));
    }
    lemma_closure_step(m.delta, set![s], s, t);
    assert(c0.contains(t));
    assert(m.accepts.contains(t));
    assert(!c0.disjoint(m.accepts));
    assert(nfa_sim(m.delta, s, Seq::<char>::empty()) == c0);
}

/// Determinization correctness for the built artifacts: a deterministic
/// automaton with the views `Dfa::from_nfa` establishes answers exactly as
/// the source automaton's simulation on every input — accepted by the walk
/// precisely when the simulated state set meets the accepting set.  The one
/// exception is a start state the transition relation never mentions but
/// that accepts the empty input.
pub proof fn lemma_from_nfa_run_agrees(n: &Nfa, d: &Dfa<SetState>, w: Seq<char>)
    requires
        d.spec_start_key() == eps_closure(n.model().delta, set![n.model().start]),
        d.spec_accept_keys() == subset_accepts(n.model()),
        d.spec_delta() == subset_delta(n.model()),
        spec_universe(n.spec_delta()).contains(n.spec_start()) || !(w.len() == 0
            && n.spec_accepts().contains(n.spec_start())),
    ensures
        ({
            let walk = dfa_walk(d.spec_delta(), d.spec_start_key(), w);
            (walk.len() == w.len() + 1 && d.spec_accept_keys().contains(walk.last())) == !nfa_sim(
                n.spec_delta(),
                n.spec_start(),
                w,
            ).disjoint(n.spec_accepts())
        }),
{
    lemma_determinize_correct(n.model(), w);
}

/// One relation lies within another: every key is present with at least the
/// same successors.
pub open spec fn delta_leq(
    d1: Map<(u64, Transition), Set<u64>>,
    d2: Map<(u64, Transition), Set<u64>>,
) -> bool {
    forall|k: (u64, Transition)|
        #[trigger] d1.contains_key(k) ==> d2.contains_key(k) && d1[k] <= d2[k]
}

/// A larger relation has at least the same successors everywhere.
pub proof fn lemma_succs_mono(
    d1: Map<(u64, Transition), Set<u64>>,
    d2: Map<(u64, Transition), Set<u64>>,
    s: u64,
    l: Transition,
)
    requires
        delta_leq(d1, d2),
    ensures
        succs(d1, s, l) <= succs(d2, s, l),
{
}

/// Epsilon closures grow with the relation and with the seed.
pub proof fn lemma_closure_mono(
    d1: Map<(u64, Transition), Set<u64>>,
    d2: Map<(u64, Transition), Set<u64>>,
    a1: Set<u64>,
    a2: Set<u64>,
)
    requires
        delta_leq(d1, d2),
        a1 <= a2,
    ensures
        eps_closure(d1, a1) <= eps_closure(d2, a2),
{
    let c2 = eps_closure(d2, a2);
    lemma_closure_contains(d2, a2);
    assert forall|s: u64| c2.contains(s) implies (#[trigger] succs(d1, s, Transition::Epsilon))
        <= c2 by {
        lemma_succs_mono(d1, d2, s, Transition::Epsilon);
        assert forall|t: u64| succs(d1, s, Transition::Epsilon).contains(t) implies c2.contains(
            t,
        ) by {
            lemma_closure_step(d2, a2, s, t);
        }
    }
    lemma_closure_minimal(d1, a1, c2);
}

/// Symbol successors grow with the relation and with the source set.
pub proof fn lemma_sym_succs_mono(
    d1: Map<(u64, Transition), Set<u64>>,
    d2: Map<(u64, Transition), Set<u64>>,
    a1: Set<u64>,
    a2: Set<u64>,
    c: char,
)
    requires
        delta_leq(d1, d2),
        a1 <= a2,
    ensures
        sym_succs(d1, a1, c) <= sym_succs(d2, a2, c),
{
    assert forall|t: u64| sym_succs(d1, a1, c).contains(t) implies sym_succs(d2, a2, c).contains(
        t,
    ) by {
        let s = choose|s: u64|
            a1.contains(s) && (#[trigger] succs(d1, s, Transition::Symbol(c))).contains(t);
        lemma_succs_mono(d1, d2, s, Transition::Symbol(c));
        assert(a2.contains(s) && succs(d2, s, Transition::Symbol(c)).contains(t));
    }
}

/// The simulation grows with the relation and with the seed.
pub proof fn lemma_sim_from_mono(
    d1: Map<(u64, Transition), Set<u64>>,
    d2: Map<(u64, Transition), Set<u64>>,
    c1: Set<u64>,
    c2: Set<u64>,
    w: Seq<char>,
)
    requires
        delta_leq(d1, d2),
        c1 <= c2,
    ensures
        sim_from(d1, c1, w) <= sim_from(d2, c2, w),
    decreases w.len(),
{
    if w.len() > 0 {
        lemma_sim_from_mono(d1, d2, c1, c2, w.drop_last());
        lemma_sym_succs_mono(
            d1,
            d2,
            sim_from(d1, c1, w.drop_last()),
            sim_from(d2, c2, w.drop_last()),
            w.last(),
        );
        lemma_closure_mono(
            d1,
            d2,
            sym_succs(d1, sim_from(d1, c1, w.drop_last()), w.last()),
            sym_succs(d2, sim_from(d2, c2, w.drop_last()), w.last()),
        );
    }
}

/// Simulating a concatenated input is simulating the second part from where
/// the first part ended.
pub proof fn lemma_sim_from_append(
    d: Map<(u64, Transition), Set<u64>>,
    c: Set<u64>,
    u: Seq<char>,
    v: Seq<char>,
)
    ensures
        sim_from(d, c, u + v) == sim_from(d, sim_from(d, c, u), v),
    decreases v.len(),
{
    if v.len() == 0 {
        assert(u + v =~= u);
    } else {
        lemma_sim_from_append(d, c, u, v.drop_last());
        assert((u + v).drop_last() =~= u + v.drop_last());
        assert((u + v).last() == v.last());
    }
}

/// The simulation's result is always closed under epsilon moves once it
/// starts from a closed seed.
pub proof fn lemma_sim_from_closed(
    d: Map<(u64, Transition), Set<u64>>,
    c: Set<u64>,
    w: Seq<char>,
)
    requires
        eps_closure(d, c) == c,
    ensures
        eps_closure(d, sim_from(d, c, w)) == sim_from(d, c, w),
{
    if w.len() == 0 {
    } else {
        lemma_closure_idempotent(
            d,
            sym_succs(d, sim_from(d, c, w.drop_last()), w.last()),
        );
    }
}

/// The constructive half of the concatenation semantics: when the first
/// automaton accepts `u` and the second accepts `v`, their concatenation
/// accepts `u + v` — the first run ends in an accept state, crosses the new
/// epsilon edge to the second start, and the second run finishes in one of
/// the result's accepting states.
pub proof fn lemma_concat_accepts_split(a: NfaModel, b: NfaModel, u: Seq<char>, v: Seq<char>)
    requires
        !nfa_sim(a.delta, a.start, u).disjoint(a.accepts),
        !nfa_sim(b.delta, b.start, v).disjoint(b.accepts),
    ensures
        !nfa_sim(concat_model(a, b).delta, a.start, u + v).disjoint(concat_model(a, b).accepts),
{
    let m = concat_model(a, b);
    let dc = m.delta;
    assert(delta_leq(a.delta, dc)) by {
        assert forall|k: (u64, Transition)| #[trigger] a.delta.contains_key(k) implies
            dc.contains_key(k) && a.delta[k] <= dc[k] by {
            assert(get_or_empty(eps_extended(a.delta, a.accepts, b.start), k) <= dc[k]);
        }
    }
    assert(delta_leq(b.delta, dc)) by {
        assert forall|k: (u64, Transition)| #[trigger] b.delta.contains_key(k) implies
            dc.contains_key(k) && b.delta[k] <= dc[k] by {
            assert(get_or_empty(b.delta, k) <= dc[k]);
        }
    }
    lemma_sim_is_sim_from(a.delta, a.start, u);
    lemma_sim_is_sim_from(b.delta, b.start, v);
    lemma_sim_is_sim_from(dc, a.start, u + v);
    let seed_a = eps_closure(a.delta, set![a.start]);
    let seed_c = eps_closure(dc, set![a.start]);
    lemma_closure_mono(a.delta, dc, set![a.start], set![a.start]);
    lemma_sim_from_mono(a.delta, dc, seed_a, seed_c, u);
    let xu = sim_from(dc, seed_c, u);
    // some accept state of the first automaton survived the first run
    let x = choose|x: u64|
        #[trigger] nfa_sim(a.delta, a.start, u).contains(x) && a.accepts.contains(x);
    assert(xu.contains(x));
    // the combined run's set is closed, so it crosses the joining edge
    lemma_closure_idempotent(dc, set![a.start]);
    lemma_sim_from_closed(dc, seed_c, u);
    assert(succs(dc, x, Transition::Epsilon).contains(b.start)) by {
        assert(eps_extended(a.delta, a.accepts, b.start).contains_key((x, Transition::Epsilon)));
        assert(dc.contains_key((x, Transition::Epsilon)));
        assert(get_or_empty(
            eps_extended(a.delta, a.accepts, b.start),
            (x, Transition::Epsilon),
        ).contains(b.start));
    }
    assert(xu.contains(b.start)) by {
        assert(xu == eps_closure(dc, xu));
        lemma_closure_step(dc, xu, x, b.start);
        lemma_closure_contains(dc, xu);
        assert(eps_closure(dc, xu).contains(b.start));
    }
    // the second start's own closure sits inside the combined run's set
    let seed_b = eps_closure(b.delta, set![b.start]);
    assert(seed_b <= xu) by {
        assert forall|s: u64| xu.contains(s) implies (#[trigger] succs(
            b.delta,
            s,
            Transition::Epsilon,
        )) <= xu by {
            lemma_succs_mono(b.delta, dc, s, Transition::Epsilon);
            assert forall|t2: u64| succs(dc, s, Transition::Epsilon).contains(t2) implies
                xu.contains(t2) by {
                assert(xu == eps_closure(dc, xu));
                lemma_closure_step(dc, xu, s, t2);
            }
        }
        assert(set![b.start] <= xu) by {
            assert forall|y: u64| set![b.start].contains(y) implies xu.contains(y) by {
                assert(y == b.start);
            }
        }
        lemma_closure_minimal(b.delta, set![b.start], xu);
    }
    lemma_sim_from_mono(b.delta, dc, seed_b, xu, v);
    lemma_sim_from_append(dc, seed_c, u, v);
    let y = choose|y: u64|
        #[trigger] nfa_sim(b.delta, b.start, v).contains(y) && b.accepts.contains(y);
    assert(nfa_sim(dc, a.start, u + v).contains(y));
    assert(m.accepts.contains(y));
}

/// The words of a list joined in order.
pub open spec fn cat_all(ws: Seq<Seq<char>>) -> Seq<char>
    decreases ws.len(),
{
    if ws.len() == 0 {
        Seq::<char>::empty()
    } else {
        cat_all(ws.drop_last()) + ws.last()
    }
}

/// The closed automaton's relation contains the operand's, and the old
/// start's closure sits inside the new start's.
proof fn lemma_star_seed(a: NfaModel, s: u64, t: u64)
    ensures
        delta_leq(a.delta, star_model(a, s, t).delta),
        eps_closure(a.delta, set![a.start]) <= eps_closure(star_model(a, s, t).delta, set![s]),
{
    let ds = star_model(a, s, t).delta;
    let inner = a.delta.insert(
        (s, Transition::Epsilon),
        get_or_empty(a.delta, (s, Transition::Epsilon)).union(set![t, a.start]),
    );
    assert(delta_leq(a.delta, ds)) by {
        assert forall|k: (u64, Transition)| #[trigger] a.delta.contains_key(k) implies
            ds.contains_key(k) && a.delta[k] <= ds[k] by {
            assert(inner.contains_key(k));
            assert(a.delta[k] <= get_or_empty(inner, k));
            assert(get_or_empty(inner, k) <= ds[k]);
        }
    }
    let seed_s = eps_closure(ds, set![s]);
    assert(succs(ds, s, Transition::Epsilon).contains(a.start)) by {
        assert(inner.contains_key((s, Transition::Epsilon)));
        assert(ds.contains_key((s, Transition::Epsilon)));
        assert(inner[(s, Transition::Epsilon)].contains(a.start));
        assert(get_or_empty(inner, (s, Transition::Epsilon)) <= ds[(s, Transition::Epsilon)]);
    }
    lemma_closure_contains(ds, set![s]);
    assert(seed_s.contains(s));
    lemma_closure_step(ds, set![s], s, a.start);
    assert(seed_s.contains(a.start));
    assert forall|x: u64| seed_s.contains(x) implies (#[trigger] succs(
        a.delta,
        x,
        Transition::Epsilon,
    )) <= seed_s by {
        lemma_succs_mono(a.delta, ds, x, Transition::Epsilon);
        assert forall|y: u64| succs(ds, x, Transition::Epsilon).contains(y) implies
            seed_s.contains(y) by {
            lemma_closure_step(ds, set![s], x, y);
        }
    }
    assert(set![a.start] <= seed_s) by {
        assert forall|y: u64| set![a.start].contains(y) implies seed_s.contains(y) by {
            assert(y == a.start);
        }
    }
    lemma_closure_minimal(a.delta, set![a.start], seed_s);
}

/// One round of the closed automaton over a word the operand accepts: from
/// any closed set holding the new start's closure, the run again holds that
/// closure — routed back through the fresh start — and holds the fresh
/// accept state.
proof fn lemma_star_round(a: NfaModel, s: u64, t: u64, x0: Set<u64>, w: Seq<char>)
    requires
        !nfa_sim(a.delta, a.start, w).disjoint(a.accepts),
        eps_closure(star_model(a, s, t).delta, x0) == x0,
        eps_closure(star_model(a, s, t).delta, set![s]) <= x0,
    ensures
        ({
            let x1 = sim_from(star_model(a, s, t).delta, x0, w);
            &&& eps_closure(star_model(a, s, t).delta, x1) == x1
            &&& eps_closure(star_model(a, s, t).delta, set![s]) <= x1
            &&& x1.contains(t)
        }),
{
    let ds = star_model(a, s, t).delta;
    let inner = a.delta.insert(
        (s, Transition::Epsilon),
        get_or_empty(a.delta, (s, Transition::Epsilon)).union(set![t, a.start]),
    );
    lemma_star_seed(a, s, t);
    lemma_sim_is_sim_from(a.delta, a.start, w);
    let seed_a = eps_closure(a.delta, set![a.start]);
    let seed_s = eps_closure(ds, set![s]);
    lemma_sim_from_mono(a.delta, ds, seed_a, x0, w);
    let x1 = sim_from(ds, x0, w);
    let x = choose|x: u64|
        #[trigger] nfa_sim(a.delta, a.start, w).contains(x) && a.accepts.contains(x);
    assert(x1.contains(x));
    lemma_sim_from_closed(ds, x0, w);
    assert(x1 == eps_closure(ds, x1));
    assert(succs(ds, x, Transition::Epsilon).contains(s)) by {
        assert(ds.contains_key((x, Transition::Epsilon)));
    }
    lemma_closure_step(ds, x1, x, s);
    lemma_closure_contains(ds, x1);
    assert(x1.contains(s));
    assert(succs(ds, s, Transition::Epsilon).contains(t)) by {
        assert(inner[(s, Transition::Epsilon)].contains(t));
        assert(get_or_empty(inner, (s, Transition::Epsilon)) <= ds[(s, Transition::Epsilon)]);
    }
    lemma_closure_step(ds, x1, s, t);
    assert(x1.contains(t));
    assert(seed_s <= x1) by {
        assert(set![s] <= x1) by {
            assert forall|y: u64| set![s].contains(y) implies x1.contains(y) by {
                assert(y == s);
            }
        }
        assert forall|z: u64| x1.contains(z) implies (#[trigger] succs(
            ds,
            z,
            Transition::Epsilon,
        )) <= x1 by {
            assert forall|y: u64| succs(ds, z, Transition::Epsilon).contains(y) implies
                x1.contains(y) by {
                lemma_closure_step(ds, x1, z, y);
            }
        }
        lemma_closure_minimal(ds, set![s], x1);
    }
}

/// The repetition half of the star semantics: when the operand accepts each
/// of one or more words, the closed automaton accepts their concatenation.
/// Together with the empty-input case this is the "if" direction of the star
/// language property.
pub proof fn lemma_star_accepts_repeat(a: NfaModel, s: u64, t: u64, ws: Seq<Seq<char>>)
    requires
        ws.len() >= 1,
        forall|i: int|
            0 <= i < ws.len() ==> !nfa_sim(a.delta, a.start, #[trigger] ws[i]).disjoint(a.accepts),
    ensures
        !nfa_sim(star_model(a, s, t).delta, s, cat_all(ws)).disjoint(star_model(a, s, t).accepts),
    decreases ws.len(),
{
    let m = star_model(a, s, t);
    let ds = m.delta;
    let seed_s = eps_closure(ds, set![s]);
    lemma_sim_is_sim_from(ds, s, cat_all(ws));
    lemma_closure_idempotent(ds, set![s]);
    if ws.len() == 1 {
        assert(ws.drop_last().len() == 0);
        assert(cat_all(ws.drop_last()) == Seq::<char>::empty());
        assert(cat_all(ws) == cat_all(ws.drop_last()) + ws.last());
        assert(cat_all(ws) =~= ws.last());
        lemma_star_round(a, s, t, seed_s, ws.last());
        assert(sim_from(ds, seed_s, cat_all(ws)).contains(t));
        assert(m.accepts.contains(t));
    } else {
        lemma_star_accepts_repeat(a, s, t, ws.drop_last());
        lemma_sim_is_sim_from(ds, s, cat_all(ws.drop_last()));
        let x0 = sim_from(ds, seed_s, cat_all(ws.drop_last()));
        lemma_sim_from_closed(ds, seed_s, cat_all(ws.drop_last()));
        lemma_rounds_reach(a, s, t, ws.drop_last());
        lemma_sim_from_append(ds, seed_s, cat_all(ws.drop_last()), ws.last());
        lemma_star_round(a, s, t, x0, ws.last());
        assert(sim_from(ds, seed_s, cat_all(ws)).contains(t));
        assert(m.accepts.contains(t));
    }
}

/// After any rounds over accepted words, the run still holds the new
/// start's closure.
proof fn lemma_rounds_reach(a: NfaModel, s: u64, t: u64, ws: Seq<Seq<char>>)
    requires
        forall|i: int|
            0 <= i < ws.len() ==> !nfa_sim(a.delta, a.start, #[trigger] ws[i]).disjoint(a.accepts),
    ensures
        ({
            let ds = star_model(a, s, t).delta;
            let x = sim_from(ds, eps_closure(ds, set![s]), cat_all(ws));
            eps_closure(ds, x) == x && eps_closure(ds, set![s]) <= x
        }),
    decreases ws.len(),
{
    let ds = star_model(a, s, t).delta;
    let seed_s = eps_closure(ds, set![s]);
    lemma_closure_idempotent(ds, set![s]);
    if ws.len() == 0 {
        assert(cat_all(ws) =~= Seq::<char>::empty());
        assert(sim_from(ds, seed_s, cat_all(ws)) == seed_s);
    } else {
        lemma_rounds_reach(a, s, t, ws.drop_last());
        let x0 = sim_from(ds, seed_s, cat_all(ws.drop_last()));
        lemma_sim_from_append(ds, seed_s, cat_all(ws.drop_last()), ws.last());
        lemma_star_round(a, s, t, x0, ws.last());
    }
}

} // verus!
