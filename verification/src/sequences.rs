//! Sequences in order: what it is for a sequence to ascend under a relation,
//! what putting a value at its place keeps of that, and why the ascending
//! form of a set is one sequence.

use vstd::prelude::*;
use vstd::relations::{sorted_by, strict_total_ordering};
use vstd::seq_lib::to_multiset_insert;

verus! {

/// Whether each value of `s` stands in the relation `r` to each one after it.
pub open spec fn ascending<A>(s: Seq<A>, r: spec_fn(A, A) -> bool) -> bool {
    forall|i: int, j: int| 0 <= i < j < s.len() ==> r(#[trigger] s[i], #[trigger] s[j])
}

/// The first index from `from` on whose value does not come before `x`.
pub open spec fn place<A>(s: Seq<A>, x: A, less: spec_fn(A, A) -> bool, from: int) -> int
    decreases s.len() - from,
{
    if 0 <= from < s.len() && less(s[from], x) {
        place(s, x, less, from + 1)
    } else {
        from
    }
}

/// `ascending` says what vstd's `sorted_by` says.
pub proof fn lemma_ascending_sorted_by<A>(s: Seq<A>, r: spec_fn(A, A) -> bool)
    ensures
        ascending(s, r) <==> sorted_by(s, r),
{
    if ascending(s, r) {
        assert forall|i: int, j: int| 0 <= i < j < s.len() implies #[trigger] r(s[i], s[j]) by {
            assert(r(s[i], s[j]));
        }
    }
    if sorted_by(s, r) {
        assert forall|i: int, j: int| 0 <= i < j < s.len() implies r(
            #[trigger] s[i],
            #[trigger] s[j],
        ) by {
            assert(r(s[i], s[j]));
        }
    }
}

/// A value put between the values that come before it and those that it
/// comes before leaves the sequence ascending, and adds nothing but itself.
pub proof fn lemma_insert_ascending<A>(s: Seq<A>, at: int, x: A, r: spec_fn(A, A) -> bool)
    requires
        ascending(s, r),
        0 <= at <= s.len(),
        forall|j: int| 0 <= j < at ==> r(#[trigger] s[j], x),
        forall|j: int| at <= j < s.len() ==> r(x, #[trigger] s[j]),
    ensures
        ascending(s.insert(at, x), r),
        s.insert(at, x).to_set() == s.to_set().insert(x),
        s.insert(at, x).to_multiset() == s.to_multiset().insert(x),
{
    let after = s.insert(at, x);
    s.insert_ensures(at, x);
    to_multiset_insert(s, at, x);
    assert forall|a: int, b: int| 0 <= a < b < after.len() implies r(
        #[trigger] after[a],
        #[trigger] after[b],
    ) by {
        if a < at {
            assert(after[a] == s[a]);
        } else if a > at {
            assert(after[a] == s[a - 1]);
        }
        if b < at {
            assert(after[b] == s[b]);
        } else if b > at {
            assert(after[b] == s[b - 1]);
        }
    }
    assert forall|y: A| after.contains(y) <==> s.contains(y) || y == x by {
        if after.contains(y) {
            let k = choose|k: int| 0 <= k < after.len() && after[k] == y;
            if k < at {
                assert(s[k] == y);
            } else if k > at {
                assert(s[k - 1] == y);
            }
        }
        if s.contains(y) {
            let k = choose|k: int| 0 <= k < s.len() && s[k] == y;
            if k < at {
                assert(after[k] == y);
            } else {
                assert(after[k + 1] == y);
            }
        }
        assert(after[at] == x);
    }
    assert(after.to_set() =~= s.to_set().insert(x));
}

/// Where `x` stands in a sequence that ascends under a strict order: the
/// values before its place come before it; the value at its place is `x`
/// itself, if the sequence holds `x` at all; every other value from there on
/// comes after `x`.
pub proof fn lemma_place<A>(s: Seq<A>, x: A, less: spec_fn(A, A) -> bool, at: int)
    requires
        ascending(s, less),
        strict_total_ordering(less),
        0 <= at <= s.len(),
        forall|j: int| 0 <= j < at ==> less(#[trigger] s[j], x),
        at < s.len() ==> !less(s[at], x),
    ensures
        s.contains(x) <==> at < s.len() && s[at] == x,
        s.contains(x) ==> s.to_set().insert(x) == s.to_set(),
        !s.contains(x) ==> forall|j: int| at <= j < s.len() ==> less(x, #[trigger] s[j]),
{
    if s.contains(x) {
        let k = choose|k: int| 0 <= k < s.len() && s[k] == x;
        if k < at {
            assert(less(s[k], x));
        }
        if k > at {
            assert(less(s[at], s[k]));
        }
        assert(s.to_set().insert(x) =~= s.to_set());
    } else {
        assert forall|j: int| at <= j < s.len() implies less(x, #[trigger] s[j]) by {
            assert(s.contains(s[j]));
            assert(s.contains(s[at]));
            assert(less(x, s[at]) || less(s[at], x));
            if j > at {
                assert(less(s[at], s[j]));
            }
        }
    }
}

/// `place` finds the place of `x`.
pub proof fn lemma_place_found<A>(s: Seq<A>, x: A, less: spec_fn(A, A) -> bool, from: int)
    requires
        0 <= from <= s.len(),
        forall|j: int| 0 <= j < from ==> less(#[trigger] s[j], x),
    ensures
        from <= place(s, x, less, from) <= s.len(),
        forall|j: int| 0 <= j < place(s, x, less, from) ==> less(#[trigger] s[j], x),
        place(s, x, less, from) < s.len() ==> !less(s[place(s, x, less, from)], x),
    decreases s.len() - from,
{
    if from < s.len() && less(s[from], x) {
        lemma_place_found(s, x, less, from + 1);
    }
}

/// Two sequences that ascend under a strict order and hold the same values
/// are one sequence.
pub proof fn lemma_ascending_unique<A>(a: Seq<A>, b: Seq<A>, less: spec_fn(A, A) -> bool)
    requires
        ascending(a, less),
        ascending(b, less),
        strict_total_ordering(less),
        a.to_set() == b.to_set(),
    ensures
        a == b,
    decreases a.len(),
{
    if a.len() == 0 {
        if b.len() > 0 {
            assert(b.to_set().contains(b[0]));
            assert(a.contains(b[0]));
        }
        assert(a =~= b);
    } else {
        let top = a.last();
        assert(a.to_set().contains(top));
        assert(b.contains(top));
        let at = choose|i: int| 0 <= i < b.len() && b[i] == top;
        assert(b.to_set().contains(b.last()));
        assert(a.contains(b.last()));
        let back = choose|i: int| 0 <= i < a.len() && a[i] == b.last();
        assert(b.last() == top) by {
            if at < b.len() - 1 {
                assert(less(b[at], b.last()));
            }
            if back < a.len() - 1 {
                assert(less(a[back], a.last()));
            }
        }
        let a0 = a.drop_last();
        let b0 = b.drop_last();
        assert forall|x: A| a0.to_set().contains(x) <==> b0.to_set().contains(x) by {
            if a0.contains(x) {
                let i = choose|i: int| 0 <= i < a0.len() && a0[i] == x;
                assert(a[i] == x);
                assert(less(a[i], a.last()));
                assert(a.to_set().contains(x));
                assert(b.contains(x));
                let j = choose|j: int| 0 <= j < b.len() && b[j] == x;
                assert(j < b.len() - 1);
                assert(b0[j] == x);
            }
            if b0.contains(x) {
                let i = choose|i: int| 0 <= i < b0.len() && b0[i] == x;
                assert(b[i] == x);
                assert(less(b[i], b.last()));
                assert(b.to_set().contains(x));
                assert(a.contains(x));
                let j = choose|j: int| 0 <= j < a.len() && a[j] == x;
                assert(j < a.len() - 1);
                assert(a0[j] == x);
            }
        }
        assert(a0.to_set() =~= b0.to_set());
        assert(ascending(a0, less)) by {
            assert forall|i: int, j: int| 0 <= i < j < a0.len() implies less(
                #[trigger] a0[i],
                #[trigger] a0[j],
            ) by {
                assert(less(a[i], a[j]));
            }
        }
        assert(ascending(b0, less)) by {
            assert forall|i: int, j: int| 0 <= i < j < b0.len() implies less(
                #[trigger] b0[i],
                #[trigger] b0[j],
            ) by {
                assert(less(b[i], b[j]));
            }
        }
        lemma_ascending_unique(a0, b0, less);
        assert(a =~= a0.push(top));
        assert(b =~= b0.push(top));
    }
}

/// Whatever the values of a sequence, and however often it names each: some
/// sequence holds just these values and ascends under the strict order.
pub proof fn lemma_ascending_form<A>(s: Seq<A>, less: spec_fn(A, A) -> bool) -> (form: Seq<A>)
    requires
        strict_total_ordering(less),
    ensures
        ascending(form, less),
        form.to_set() == s.to_set(),
    decreases s.len(),
{
    if s.len() == 0 {
        let none = Seq::<A>::empty();
        assert(none.to_set() =~= s.to_set());
        none
    } else {
        let rest = lemma_ascending_form(s.drop_last(), less);
        let x = s.last();
        let at = place(rest, x, less, 0);
        lemma_place_found(rest, x, less, 0);
        lemma_place(rest, x, less, at);
        s.drop_last().lemma_push_to_set_commute(x);
        assert(s.drop_last().push(x) =~= s);
        if rest.contains(x) {
            rest
        } else {
            lemma_insert_ascending(rest, at, x, less);
            rest.insert(at, x)
        }
    }
}

/// A copy of `items`.
pub fn copy_of<T: Copy>(items: &Vec<T>) -> (copy: Vec<T>)
    ensures
        copy@ == items@,
{
    let mut copy: Vec<T> = Vec::new();
    let mut i: usize = 0;
    while i < items.len()
        invariant
            i <= items.len(),
            copy@ == items@.take(i as int),
        decreases items.len() - i,
    {
        copy.push(items[i]);
        i += 1;
    }
    copy
}

} // verus!
