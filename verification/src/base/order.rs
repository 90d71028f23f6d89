//! Byte order of keys and a stable sort by rank.

use vstd::prelude::*;
use vstd::string::*;
use vstd::utf8::*;

use crate::base::keys;

verus! {

/// Lexicographic order of byte strings.
pub open spec fn bytes_le(a: Seq<u8>, b: Seq<u8>) -> bool
    decreases a.len(),
{
    if a.len() == 0 {
        true
    } else if b.len() == 0 {
        false
    } else if a[0] != b[0] {
        a[0] < b[0]
    } else {
        bytes_le(a.skip(1), b.skip(1))
    }
}

/// Strings are ordered as their UTF-8 bytes are.
pub open spec fn text_le(a: Seq<char>, b: Seq<char>) -> bool {
    bytes_le(encode_utf8(a), encode_utf8(b))
}

/// The byte order is total.
pub proof fn bytes_le_total(a: Seq<u8>, b: Seq<u8>)
    ensures
        bytes_le(a, b) || bytes_le(b, a),
        bytes_le(a, a),
    decreases a.len(),
{
    if a.len() > 0 {
        bytes_le_total(a.skip(1), a.skip(1));
        if b.len() > 0 {
            bytes_le_total(a.skip(1), b.skip(1));
        }
    }
}

/// The byte order is transitive.
pub proof fn bytes_le_transitive(a: Seq<u8>, b: Seq<u8>, c: Seq<u8>)
    requires
        bytes_le(a, b),
        bytes_le(b, c),
    ensures
        bytes_le(a, c),
    decreases a.len(),
{
    if a.len() > 0 && b.len() > 0 && c.len() > 0 && a[0] == b[0] && b[0] == c[0] {
        bytes_le_transitive(a.skip(1), b.skip(1), c.skip(1));
    }
}

/// Byte strings that come before each other are the same.
pub proof fn bytes_le_antisymmetric(a: Seq<u8>, b: Seq<u8>)
    requires
        bytes_le(a, b),
        bytes_le(b, a),
    ensures
        a == b,
    decreases a.len(),
{
    if a.len() > 0 && b.len() > 0 {
        bytes_le_antisymmetric(a.skip(1), b.skip(1));
        assert forall|i: int| 0 <= i < a.len() implies a[i] == b[i] by {
            if i > 0 {
                assert(a.skip(1)[i - 1] == b.skip(1)[i - 1]);
            }
        }
        assert(a.len() == b.len()) by {
            assert(a.skip(1).len() == b.skip(1).len());
        }
    }
    assert(a =~= b);
}

/// Tells whether one byte string comes before another or is the same.
pub fn bytes_leq(a: &[u8], b: &[u8]) -> (le: bool)
    ensures
        le == bytes_le(a@, b@),
{
    let mut i: usize = 0;
    assert(a@.skip(0) =~= a@);
    assert(b@.skip(0) =~= b@);
    while i < a.len() && i < b.len()
        invariant
            i <= a@.len(),
            i <= b@.len(),
            bytes_le(a@, b@) == bytes_le(a@.skip(i as int), b@.skip(i as int)),
        decreases a@.len() - i,
    {
        if a[i] != b[i] {
            return a[i] < b[i];
        }
        assert(a@.skip(i as int).skip(1) =~= a@.skip(i + 1));
        assert(b@.skip(i as int).skip(1) =~= b@.skip(i + 1));
        i += 1;
    }
    i >= a.len()
}

/// Tells whether one string comes before another or is the same.
pub fn text_leq(a: &str, b: &str) -> (le: bool)
    ensures
        le == text_le(a@, b@),
{
    bytes_leq(a.as_bytes(), b.as_bytes())
}

/// Values with a rank.
pub trait Ranked: View + Sized {
    /// The first value comes no later than the second.
    spec fn ranks(a: Self::V, b: Self::V) -> bool;

    /// Tells whether this value comes no later than the other.
    fn leq(&self, other: &Self) -> (le: bool)
        ensures
            le == Self::ranks(self@, other@),
    ;
}

/// A sequence with one more value, put behind all that come no later.
pub open spec fn placed<T: Ranked>(s: Seq<T::V>, x: T::V) -> Seq<T::V>
    decreases s.len(),
{
    if s.len() == 0 || T::ranks(s.last(), x) {
        s.push(x)
    } else {
        placed::<T>(s.drop_last(), x).push(s.last())
    }
}

/// The sequence sorted by rank; equals keep their order.
pub open spec fn ranked<T: Ranked>(s: Seq<T::V>) -> Seq<T::V>
    decreases s.len(),
{
    if s.len() == 0 {
        s
    } else {
        placed::<T>(ranked::<T>(s.drop_last()), s.last())
    }
}

proof fn lemma_placed<T: Ranked>(s: Seq<T::V>, x: T::V)
    ensures
        placed::<T>(s, x).to_multiset() == s.to_multiset().insert(x),
        placed::<T>(s, x).len() == s.len() + 1,
    decreases s.len(),
{
    broadcast use vstd::seq_lib::group_to_multiset_ensures;

    if s.len() > 0 && !T::ranks(s.last(), x) {
        lemma_placed::<T>(s.drop_last(), x);
        assert(s =~= s.drop_last().push(s.last()));
        assert(placed::<T>(s, x).to_multiset() =~= s.to_multiset().insert(x));
    }
}

/// Sorting keeps the values.
pub proof fn ranked_keeps_values<T: Ranked>(s: Seq<T::V>)
    ensures
        ranked::<T>(s).to_multiset() == s.to_multiset(),
        ranked::<T>(s).len() == s.len(),
    decreases s.len(),
{
    broadcast use vstd::seq_lib::group_to_multiset_ensures;

    if s.len() > 0 {
        ranked_keeps_values::<T>(s.drop_last());
        lemma_placed::<T>(ranked::<T>(s.drop_last()), s.last());
        assert(s =~= s.drop_last().push(s.last()));
    }
}

proof fn lemma_placed_sorted<T: Ranked>(s: Seq<T::V>, x: T::V)
    requires
        forall|a: T::V, b: T::V| #[trigger] T::ranks(a, b) || T::ranks(b, a),
        forall|a: T::V, b: T::V, c: T::V| #[trigger]
            T::ranks(a, b) && #[trigger] T::ranks(b, c) ==> T::ranks(a, c),
        forall|i: int, j: int| 0 <= i < j < s.len() ==> T::ranks(s[i], s[j]),
    ensures
        forall|i: int, j: int|
            0 <= i < j < placed::<T>(s, x).len() ==> T::ranks(
                placed::<T>(s, x)[i],
                placed::<T>(s, x)[j],
            ),
        forall|i: int|
            0 <= i < placed::<T>(s, x).len() ==> (#[trigger] placed::<T>(s, x)[i] == x
                || s.contains(placed::<T>(s, x)[i])),
    decreases s.len(),
{
    let p = placed::<T>(s, x);
    if s.len() == 0 || T::ranks(s.last(), x) {
        assert forall|i: int, j: int| 0 <= i < j < p.len() implies T::ranks(p[i], p[j]) by {
            if j == s.len() {
                if i < s.len() - 1 {
                    assert(T::ranks(s[i], s[s.len() - 1]));
                }
            }
        }
        assert forall|i: int| 0 <= i < p.len() implies (#[trigger] p[i] == x || s.contains(
            p[i],
        )) by {
            if i < s.len() {
                assert(s[i] == p[i]);
            }
        }
    } else {
        let init = s.drop_last();
        assert forall|i: int, j: int| 0 <= i < j < init.len() implies T::ranks(
            init[i],
            init[j],
        ) by {
            assert(T::ranks(s[i], s[j]));
        }
        lemma_placed_sorted::<T>(init, x);
        let q = placed::<T>(init, x);
        assert forall|i: int| 0 <= i < q.len() implies T::ranks(#[trigger] q[i], s.last()) by {
            if q[i] == x {
                assert(T::ranks(x, s.last()));
            } else {
                assert(init.contains(q[i]));
                let k = choose|k: int| 0 <= k < init.len() && init[k] == q[i];
                assert(T::ranks(s[k], s[s.len() - 1]));
            }
        }
        assert forall|i: int| 0 <= i < p.len() implies (#[trigger] p[i] == x || s.contains(
            p[i],
        )) by {
            if i < q.len() {
                assert(q[i] == p[i]);
                if q[i] != x {
                    let k = choose|k: int| 0 <= k < init.len() && init[k] == q[i];
                    assert(s[k] == q[i]);
                }
            } else {
                assert(p[i] == s[s.len() - 1]);
            }
        }
    }
}

/// Sorting orders the values, given a total and transitive rank.
pub proof fn ranked_is_sorted<T: Ranked>(s: Seq<T::V>)
    requires
        forall|a: T::V, b: T::V| #[trigger] T::ranks(a, b) || T::ranks(b, a),
        forall|a: T::V, b: T::V, c: T::V| #[trigger]
            T::ranks(a, b) && #[trigger] T::ranks(b, c) ==> T::ranks(a, c),
    ensures
        forall|i: int, j: int|
            0 <= i < j < ranked::<T>(s).len() ==> T::ranks(ranked::<T>(s)[i], ranked::<T>(s)[j]),
    decreases s.len(),
{
    if s.len() > 0 {
        ranked_is_sorted::<T>(s.drop_last());
        lemma_placed_sorted::<T>(ranked::<T>(s.drop_last()), s.last());
    }
}

proof fn lemma_placed_insert<T: Ranked>(s: Seq<T::V>, x: T::V, at: int)
    requires
        0 <= at <= s.len(),
        at == 0 || T::ranks(s[at - 1], x),
        forall|j: int| at <= j < s.len() ==> !T::ranks(#[trigger] s[j], x),
    ensures
        placed::<T>(s, x) == s.insert(at, x),
    decreases s.len(),
{
    if at == s.len() {
        assert(s.insert(at, x) =~= s.push(x));
    } else {
        let init = s.drop_last();
        assert(!T::ranks(s[s.len() - 1], x));
        assert forall|j: int| at <= j < init.len() implies !T::ranks(#[trigger] init[j], x) by {
            assert(!T::ranks(s[j], x));
        }
        lemma_placed_insert::<T>(init, x, at);
        assert(s.insert(at, x) =~= init.insert(at, x).push(s.last()));
    }
}

/// Sorts by rank; equals keep their order.
pub fn sort_ranked<T: Ranked>(items: Vec<T>) -> (out: Vec<T>)
    ensures
        keys::views(out@) == ranked::<T>(keys::views(items@)),
{
    let ghost all = keys::views(items@);
    let mut rest = items;
    let mut out: Vec<T> = Vec::with_capacity(rest.len());
    // Taken from the back, so that each can be moved out.
    let mut backwards: Vec<T> = Vec::with_capacity(rest.len());
    let ghost n = all.len();
    while rest.len() > 0
        invariant
            rest@.len() + backwards@.len() == n == all.len(),
            keys::views(rest@) == all.take(rest@.len() as int),
            forall|i: int|
                0 <= i < backwards@.len() ==> (#[trigger] backwards@[i])@ == all[n - 1 - i],
        decreases rest@.len(),
    {
        let ghost before = keys::views(rest@);
        match rest.pop() {
            Some(x) => {
                assert(x@ == before.last());
                assert(before.last() == all[rest@.len() as int]);
                backwards.push(x);
                assert(keys::views(rest@) =~= before.drop_last());
                assert(before.drop_last() =~= all.take(rest@.len() as int));
            },
            None => {},
        }
    }
    assert(keys::views(out@) =~= ranked::<T>(all.take(0)));
    while backwards.len() > 0
        invariant
            backwards@.len() + out@.len() == n == all.len(),
            forall|i: int|
                0 <= i < backwards@.len() ==> (#[trigger] backwards@[i])@ == all[n - 1 - i],
            keys::views(out@) == ranked::<T>(all.take(out@.len() as int)),
        decreases backwards@.len(),
    {
        let ghost sorted = keys::views(out@);
        let ghost k = out@.len() as int;
        match backwards.pop() {
            Some(x) => {
                assert(x@ == all[k]);
                let mut at: usize = out.len();
                while at > 0 && !out[at - 1].leq(&x)
                    invariant
                        at <= out@.len(),
                        keys::views(out@) == sorted,
                        forall|j: int| at <= j < sorted.len() ==> !T::ranks(#[trigger] sorted[j], x@),
                    decreases at,
                {
                    at -= 1;
                }
                proof {
                    if at > 0 {
                        assert(sorted[at - 1] == out@[at - 1]@);
                    }
                    lemma_placed_insert::<T>(sorted, x@, at as int);
                    assert(all.take(k + 1).drop_last() =~= all.take(k));
                    assert(all.take(k + 1).last() == x@);
                }
                let ghost xv = x@;
                out.insert(at, x);
                assert(keys::views(out@) =~= sorted.insert(at as int, xv));
            },
            None => {},
        }
    }
    assert(all.take(out@.len() as int) =~= all);
    out
}

} // verus!
