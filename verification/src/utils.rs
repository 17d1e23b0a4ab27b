use vstd::prelude::*;
use vstd::arithmetic::power2::pow2;

verus! {

/// Appends a copy of every element of `src` to `dst`.
pub(crate) fn push_all(dst: &mut Vec<u64>, src: &Vec<u64>)
    ensures
        final(dst)@ == old(dst)@ + src@,
{
    let mut i: usize = 0;
    while i < src.len()
        invariant
            i <= src.len(),
            dst@ == old(dst)@ + src@.take(i as int),
        decreases src.len() - i,
    {
        dst.push(src[i]);
        proof {
            assert(src@.take(i + 1) =~= src@.take(i as int).push(src@[i as int]));
        }
        i = i + 1;
    }
    proof {
        assert(src@.take(src@.len() as int) =~= src@);
    }
}

/// Whether `x` occurs in `v`, by linear scan.
pub(crate) fn vec_contains(v: &Vec<u64>, x: u64) -> (r: bool)
    ensures
        r == v@.to_set().contains(x),
{
    let mut i: usize = 0;
    while i < v.len()
        invariant
            i <= v.len(),
            forall|k: int| 0 <= k < i ==> v@[k] != x,
        decreases v.len() - i,
    {
        if v[i] == x {
            return true;
        }
        i = i + 1;
    }
    proof {
        if v@.to_set().contains(x) {
            let k = choose|k: int| 0 <= k < v@.len() && v@[k] == x;
        }
    }
    false
}

/// Whether the elements of `a` all occur in `b`.
pub(crate) fn vec_set_subset(a: &Vec<u64>, b: &Vec<u64>) -> (r: bool)
    ensures
        r == (a@.to_set() <= b@.to_set()),
{
    let mut i: usize = 0;
    while i < a.len()
        invariant
            i <= a.len(),
            forall|k: int| 0 <= k < i ==> b@.to_set().contains(#[trigger] a@[k]),
        decreases a.len() - i,
    {
        if !vec_contains(b, a[i]) {
            proof {
                assert(a@.to_set().contains(a@[i as int]));
            }
            return false;
        }
        i = i + 1;
    }
    proof {
        assert forall|x: u64| a@.to_set().contains(x) implies b@.to_set().contains(x) by {
            let k = choose|k: int| 0 <= k < a@.len() && a@[k] == x;
            assert(b@.to_set().contains(a@[k]));
        }
    }
    true
}

/// Appends `x` to `v` unless it is already there.
pub(crate) fn vec_set_insert(v: &mut Vec<u64>, x: u64)
    ensures
        final(v)@.to_set() == old(v)@.to_set().insert(x),
        old(v)@.no_duplicates() ==> final(v)@.no_duplicates(),
        old(v)@.is_prefix_of(final(v)@),
        final(v)@.len() <= old(v)@.len() + 1,
        final(v)@.to_set().contains(x),
{
    if !vec_contains(v, x) {
        let ghost before: Seq<u64> = v@;
        v.push(x);
        proof {
            lemma_push_to_set(before, x);
        }
    } else {
        proof {
            assert(v@.to_set().insert(x) =~= v@.to_set());
            assert(v@.is_prefix_of(v@));
        }
    }
}

/// Whether `x` occurs in `v`, by linear scan.
pub(crate) fn char_vec_contains(v: &Vec<char>, x: char) -> (r: bool)
    ensures
        r == v@.to_set().contains(x),
{
    let mut i: usize = 0;
    while i < v.len()
        invariant
            i <= v.len(),
            forall|k: int| 0 <= k < i ==> v@[k] != x,
        decreases v.len() - i,
    {
        if v[i] == x {
            return true;
        }
        i = i + 1;
    }
    proof {
        if v@.to_set().contains(x) {
            let k = choose|k: int| 0 <= k < v@.len() && v@[k] == x;
        }
    }
    false
}

/// Appends `x` to `v` unless it is already there.
pub(crate) fn char_vec_insert(v: &mut Vec<char>, x: char)
    ensures
        final(v)@.to_set() == old(v)@.to_set().insert(x),
        old(v)@.no_duplicates() ==> final(v)@.no_duplicates(),
        final(v)@.to_set().contains(x),
{
    if !char_vec_contains(v, x) {
        let ghost before: Seq<char> = v@;
        v.push(x);
        proof {
            lemma_push_to_set(before, x);
        }
    } else {
        proof {
            assert(v@.to_set().insert(x) =~= v@.to_set());
        }
    }
}

/// Whether the two lists share an element.
pub(crate) fn vec_sets_intersect(a: &Vec<u64>, b: &Vec<u64>) -> (r: bool)
    ensures
        r == !a@.to_set().disjoint(b@.to_set()),
{
    let mut i: usize = 0;
    while i < a.len()
        invariant
            i <= a.len(),
            forall|k: int| 0 <= k < i ==> !b@.to_set().contains(#[trigger] a@[k]),
        decreases a.len() - i,
    {
        if vec_contains(b, a[i]) {
            proof {
                assert(a@.to_set().contains(a@[i as int]));
            }
            return true;
        }
        i = i + 1;
    }
    proof {
        assert forall|x: u64| a@.to_set().contains(x) implies !b@.to_set().contains(x) by {
            let k = choose|k: int| 0 <= k < a@.len() && a@[k] == x;
        }
    }
    false
}

/// The set of elements of a one-element list.
pub proof fn lemma_to_set_one<A>(x: A)
    ensures
        seq![x].to_set() == set![x],
{
    assert(seq![x][0] == x);
    assert(seq![x].to_set().contains(x));
    assert forall|y: A| seq![x].to_set().contains(y) implies set![x].contains(y) by {
        let k = choose|k: int| 0 <= k < seq![x].len() && seq![x][k] == y;
    }
    assert(seq![x].to_set() =~= set![x]);
}

/// The set of elements of a two-element list.
pub proof fn lemma_to_set_two<A>(x: A, y: A)
    ensures
        seq![x, y].to_set() == set![x, y],
{
    assert(seq![x, y][0] == x);
    assert(seq![x, y][1] == y);
    assert(seq![x, y].to_set().contains(x));
    assert(seq![x, y].to_set().contains(y));
    assert forall|z: A| seq![x, y].to_set().contains(z) implies set![x, y].contains(z) by {
        let k = choose|k: int| 0 <= k < seq![x, y].len() && seq![x, y][k] == z;
    }
    assert(seq![x, y].to_set() =~= set![x, y]);
}

/// Appending an element to a list inserts it into the set of its elements.
pub proof fn lemma_push_to_set<A>(s: Seq<A>, e: A)
    ensures
        s.push(e).to_set() == s.to_set().insert(e),
{
    let l = s.push(e);
    assert forall|x: A| l.to_set().contains(x) implies s.to_set().insert(e).contains(x) by {
        let i = choose|i: int| 0 <= i < l.len() && l[i] == x;
        if i < s.len() {
            assert(s[i] == x);
        }
    }
    assert forall|x: A| s.to_set().insert(e).contains(x) implies l.to_set().contains(x) by {
        if s.to_set().contains(x) {
            let i = choose|i: int| 0 <= i < s.len() && s[i] == x;
            assert(l[i] == x);
        } else {
            assert(l[s.len() as int] == e);
        }
    }
    assert(l.to_set() =~= s.to_set().insert(e));
}

/// Every subset of the given set, as a list of element lists: exactly
/// `2^n` entries for an `n`-element input, pairwise distinct as sets,
/// each a duplicate-free subset, and no subset missing.
pub fn power_set(set: Vec<u64>) -> (r: Vec<Vec<u64>>)
    requires
        set@.no_duplicates(),
    ensures
        r@.len() == pow2(set@.len() as nat),
        forall|i: int| 0 <= i < r@.len() ==> (#[trigger] r@[i])@.no_duplicates(),
        forall|i: int| 0 <= i < r@.len() ==> (#[trigger] r@[i])@.to_set() <= set@.to_set(),
        forall|i: int, j: int|
            0 <= i < r@.len() && 0 <= j < r@.len() && i != j ==> r@[i]@.to_set() != r@[j]@.to_set(),
        forall|s: Set<u64>|
            s <= set@.to_set() ==> exists|i: int| 0 <= i < r@.len() && (#[trigger] r@[i])@.to_set() == s,
    decreases set@.len(),
{
    let mut set = set;
    if set.len() == 0 {
        let mut r: Vec<Vec<u64>> = Vec::new();
        r.push(Vec::new());
        proof {
            assert(set@.to_set() =~= Set::<u64>::empty());
            assert(r@[0]@.to_set() =~= Set::<u64>::empty());
            assert(pow2(0) == 1) by {
                vstd::arithmetic::power2::lemma2_to64();
            }
            assert forall|s: Set<u64>| s <= set@.to_set() implies exists|i: int|
                0 <= i < r@.len() && (#[trigger] r@[i])@.to_set() == s by {
                assert(s =~= Set::<u64>::empty());
                assert(r@[0]@.to_set() == s);
            }
        }
        r
    } else {
        let ghost whole: Seq<u64> = set@;
        let element = match set.pop() {
            Some(e) => e,
            None => {
                proof {
                    assert(false);
                }
                0
            },
        };
        proof {
            assert(whole =~= set@.push(element));
            assert(whole.to_set() =~= set@.to_set().insert(element));
            // `element` was not among the remaining elements
            assert(!set@.contains(element)) by {
                if set@.contains(element) {
                    let k = choose|k: int| 0 <= k < set@.len() && set@[k] == element;
                    assert(whole[k] == whole[whole.len() - 1]);
                }
            }
            assert(!set@.to_set().contains(element));
        }
        let mut rest = power_set(set);
        let ghost half: int = rest@.len() as int;

        let mut out: Vec<Vec<u64>> = Vec::new();
        let mut k: usize = 0;
        while k < rest.len()
            invariant
                k <= rest.len(),
                out@.len() == k,
                forall|i: int| 0 <= i < k ==> out@[i]@ == (#[trigger] rest@[i])@.push(element),
            decreases rest.len() - k,
        {
            let mut with_e: Vec<u64> = Vec::new();
            push_all(&mut with_e, &rest[k]);
            with_e.push(element);
            proof {
                assert(with_e@ =~= rest@[k as int]@.push(element));
            }
            out.push(with_e);
            k = k + 1;
        }
        let ghost rest0: Seq<Vec<u64>> = rest@;
        rest.append(&mut out);
        let r = rest;
        proof {
            vstd::arithmetic::power2::lemma_pow2_pos(set@.len() as nat);
            vstd::arithmetic::power2::lemma_pow2_unfold(whole.len() as nat);
            assert forall|s: Set<u64>| s <= set@.to_set() implies exists|i: int|
                0 <= i < half && (#[trigger] r@[i])@.to_set() == s by {
                let i = choose|i: int| 0 <= i < rest0.len() && (#[trigger] rest0[i])@.to_set() == s;
                assert(r@[i] == rest0[i]);
                assert(r@[i]@.to_set() == s);
            }
            lemma_power_set_combined(r@, half, element, set@.to_set(), whole.to_set());
        }
        r
    }
}

/// The properties of the combined list: the first half enumerates the subsets
/// without `element`, the second half the same subsets with `element` added.
proof fn lemma_power_set_combined(
    r: Seq<Vec<u64>>,
    half: int,
    element: u64,
    small: Set<u64>,
    big: Set<u64>,
)
    requires
        0 < half,
        r.len() == 2 * half,
        big == small.insert(element),
        !small.contains(element),
        forall|i: int| 0 <= i < half ==> (#[trigger] r[i])@.no_duplicates(),
        forall|i: int| 0 <= i < half ==> (#[trigger] r[i])@.to_set() <= small,
        forall|i: int, j: int|
            0 <= i < half && 0 <= j < half && i != j ==> r[i]@.to_set() != r[j]@.to_set(),
        forall|s: Set<u64>|
            s <= small ==> exists|i: int| 0 <= i < half && (#[trigger] r[i])@.to_set() == s,
        forall|i: int| half <= i < r.len() ==> (#[trigger] r[i])@ == r[i - half]@.push(element),
    ensures
        forall|i: int| 0 <= i < r.len() ==> (#[trigger] r[i])@.no_duplicates(),
        forall|i: int| 0 <= i < r.len() ==> (#[trigger] r[i])@.to_set() <= big,
        forall|i: int, j: int|
            0 <= i < r.len() && 0 <= j < r.len() && i != j ==> r[i]@.to_set() != r[j]@.to_set(),
        forall|s: Set<u64>|
            s <= big ==> exists|i: int| 0 <= i < r.len() && (#[trigger] r[i])@.to_set() == s,
{
    assert forall|i: int| half <= i < r.len() implies (#[trigger] r[i])@.to_set() == r[i
        - half]@.to_set().insert(element) by {
        assert(r[i]@ == r[i - half]@.push(element));
        lemma_push_to_set(r[i - half]@, element);
    }
    assert forall|i: int| 0 <= i < r.len() implies (#[trigger] r[i])@.no_duplicates() by {
        if i >= half {
            let base = r[i - half]@;
            assert(!base.to_set().contains(element));
            assert(!base.contains(element));
            assert(r[i]@ == base.push(element));
        }
    }
    assert forall|i: int| 0 <= i < r.len() implies (#[trigger] r[i])@.to_set() <= big by {
        if i >= half {
            assert(r[i]@.to_set() == r[i - half]@.to_set().insert(element));
        }
    }
    assert forall|i: int, j: int|
        0 <= i < r.len() && 0 <= j < r.len() && i != j implies r[i]@.to_set() != r[j]@.to_set() by {
        let si = r[i]@.to_set();
        let sj = r[j]@.to_set();
        if i < half && j >= half {
            assert(sj.contains(element));
            assert(!si.contains(element));
        } else if i >= half && j < half {
            assert(si.contains(element));
            assert(!sj.contains(element));
        } else if i >= half && j >= half {
            let bi = r[i - half]@.to_set();
            let bj = r[j - half]@.to_set();
            assert(bi != bj);
            if si == sj {
                assert(bi =~= bj) by {
                    assert forall|x: u64| bi.contains(x) implies bj.contains(x) by {
                        assert(si.contains(x));
                        assert(x != element);
                        assert(sj.contains(x));
                    }
                    assert forall|x: u64| bj.contains(x) implies bi.contains(x) by {
                        assert(sj.contains(x));
                        assert(x != element);
                        assert(si.contains(x));
                    }
                }
            }
        }
    }
    assert forall|s: Set<u64>| s <= big implies exists|i: int|
        0 <= i < r.len() && (#[trigger] r[i])@.to_set() == s by {
        if s.contains(element) {
            let s0 = s.remove(element);
            assert(s0 <= small);
            let i = choose|i: int| 0 <= i < half && (#[trigger] r[i])@.to_set() == s0;
            assert(r[i + half]@.to_set() == s0.insert(element));
            assert(s0.insert(element) =~= s);
        } else {
            assert(s <= small);
            let i = choose|i: int| 0 <= i < half && (#[trigger] r[i])@.to_set() == s;
            assert(r[i]@.to_set() == s);
        }
    }
}

} // verus!
