//! The members of a set in the one order that their rank gives.

use vstd::prelude::*;
use vstd::utf8::*;

use crate::base::keys;
use crate::base::keys::Key;
use crate::base::order;
use crate::base::order::{bytes_leq, sort_ranked, text_leq, Ranked};
use crate::base::set::KeySet;
use crate::base::table::Table;

verus! {

/// Keys whose rank is a total order.
pub trait Ordered: Key + Ranked {
    /// The rank is total.
    proof fn rank_total(a: Self::V, b: Self::V)
        ensures
            Self::ranks(a, b) || Self::ranks(b, a),
    ;

    /// The rank is transitive.
    proof fn rank_transitive(a: Self::V, b: Self::V, c: Self::V)
        requires
            Self::ranks(a, b),
            Self::ranks(b, c),
        ensures
            Self::ranks(a, c),
    ;

    /// Keys of one rank are the same.
    proof fn rank_antisymmetric(a: Self::V, b: Self::V)
        requires
            Self::ranks(a, b),
            Self::ranks(b, a),
        ensures
            a == b,
    ;
}

/// Equal texts come before each other, and no others do.
pub proof fn text_le_antisymmetric(a: Seq<char>, b: Seq<char>)
    requires
        order::text_le(a, b),
        order::text_le(b, a),
    ensures
        a == b,
{
    order::bytes_le_antisymmetric(encode_utf8(a), encode_utf8(b));
    encode_utf8_decode_utf8(a);
    encode_utf8_decode_utf8(b);
}

impl Ranked for String {
    open spec fn ranks(a: Seq<char>, b: Seq<char>) -> bool {
        order::text_le(a, b)
    }

    fn leq(&self, other: &Self) -> (le: bool) {
        text_leq(self.as_str(), other.as_str())
    }
}

impl Ordered for String {
    proof fn rank_total(a: Seq<char>, b: Seq<char>) {
        order::bytes_le_total(encode_utf8(a), encode_utf8(b));
    }

    proof fn rank_transitive(a: Seq<char>, b: Seq<char>, c: Seq<char>) {
        order::bytes_le_transitive(encode_utf8(a), encode_utf8(b), encode_utf8(c));
    }

    proof fn rank_antisymmetric(a: Seq<char>, b: Seq<char>) {
        text_le_antisymmetric(a, b);
    }
}

impl Ranked for Vec<u8> {
    open spec fn ranks(a: Seq<u8>, b: Seq<u8>) -> bool {
        order::bytes_le(a, b)
    }

    fn leq(&self, other: &Self) -> (le: bool) {
        bytes_leq(self.as_slice(), other.as_slice())
    }
}

impl Ordered for Vec<u8> {
    proof fn rank_total(a: Seq<u8>, b: Seq<u8>) {
        order::bytes_le_total(a, b);
    }

    proof fn rank_transitive(a: Seq<u8>, b: Seq<u8>, c: Seq<u8>) {
        order::bytes_le_transitive(a, b, c);
    }

    proof fn rank_antisymmetric(a: Seq<u8>, b: Seq<u8>) {
        order::bytes_le_antisymmetric(a, b);
    }
}

impl Ranked for u64 {
    open spec fn ranks(a: u64, b: u64) -> bool {
        a <= b
    }

    fn leq(&self, other: &Self) -> (le: bool) {
        *self <= *other
    }
}

impl Ordered for u64 {
    proof fn rank_total(a: u64, b: u64) {
    }

    proof fn rank_transitive(a: u64, b: u64, c: u64) {
    }

    proof fn rank_antisymmetric(a: u64, b: u64) {
    }
}

/// Every member once, in order.
pub open spec fn lists<K: Ordered>(s: Seq<K::V>, d: Set<K::V>) -> bool {
    &&& s.no_duplicates()
    &&& s.to_set() == d
    &&& forall|i: int, j: int| 0 <= i < j < s.len() ==> K::ranks(s[i], s[j])
}

/// The members in order.
pub open spec fn listing<K: Ordered>(d: Set<K::V>) -> Seq<K::V> {
    choose|s: Seq<K::V>| lists::<K>(s, d)
}

proof fn lemma_lists_unique<K: Ordered>(a: Seq<K::V>, b: Seq<K::V>, d: Set<K::V>)
    requires
        lists::<K>(a, d),
        lists::<K>(b, d),
    ensures
        a == b,
    decreases a.len(),
{
    a.unique_seq_to_set();
    b.unique_seq_to_set();
    if a.len() > 0 {
        let x = a.last();
        let y = b.last();
        assert(a.to_set().contains(x));
        assert(b.to_set().contains(y));
        assert(K::ranks(x, y)) by {
            let i = choose|i: int| 0 <= i < b.len() && b[i] == x;
            if i < b.len() - 1 {
                assert(K::ranks(b[i], b[b.len() - 1]));
            } else {
                K::rank_total(x, x);
            }
        }
        assert(K::ranks(y, x)) by {
            let i = choose|i: int| 0 <= i < a.len() && a[i] == y;
            if i < a.len() - 1 {
                assert(K::ranks(a[i], a[a.len() - 1]));
            } else {
                K::rank_total(x, x);
            }
        }
        K::rank_antisymmetric(x, y);
        lemma_drop_last::<K>(a, d);
        lemma_drop_last::<K>(b, d);
        lemma_lists_unique::<K>(a.drop_last(), b.drop_last(), d.remove(x));
        assert(a =~= a.drop_last().push(x));
        assert(b =~= b.drop_last().push(y));
    } else {
        assert(b =~= a);
    }
}

proof fn lemma_drop_last<K: Ordered>(s: Seq<K::V>, d: Set<K::V>)
    requires
        lists::<K>(s, d),
        s.len() > 0,
    ensures
        lists::<K>(s.drop_last(), d.remove(s.last())),
{
    let init = s.drop_last();
    assert forall|v: K::V| init.to_set().contains(v) == d.remove(s.last()).contains(v) by {
        if init.to_set().contains(v) {
            let i = choose|i: int| 0 <= i < init.len() && init[i] == v;
            assert(s[i] == v);
            assert(s.to_set().contains(v));
        }
        if d.remove(s.last()).contains(v) {
            assert(s.to_set().contains(v));
            let i = choose|i: int| 0 <= i < s.len() && s[i] == v;
            assert(init[i] == v);
        }
    }
    assert(init.to_set() =~= d.remove(s.last()));
    assert forall|i: int, j: int| 0 <= i < j < init.len() implies K::ranks(init[i], init[j]) by {
        assert(K::ranks(s[i], s[j]));
    }
}

/// What lists a set is its listing.
pub proof fn listing_is<K: Ordered>(s: Seq<K::V>, d: Set<K::V>)
    requires
        lists::<K>(s, d),
    ensures
        listing::<K>(d) == s,
{
    lemma_lists_unique::<K>(listing::<K>(d), s, d);
}

proof fn lemma_ranked_lists<K: Ordered>(s: Seq<K::V>)
    requires
        s.no_duplicates(),
    ensures
        lists::<K>(order::ranked::<K>(s), s.to_set()),
{
    broadcast use vstd::seq_lib::group_to_multiset_ensures;

    let r = order::ranked::<K>(s);
    order::ranked_keeps_values::<K>(s);
    assert forall|a: K::V, b: K::V| #[trigger] K::ranks(a, b) || K::ranks(b, a) by {
        K::rank_total(a, b);
    }
    assert forall|a: K::V, b: K::V, c: K::V| #[trigger]
        K::ranks(a, b) && #[trigger] K::ranks(b, c) implies K::ranks(a, c) by {
        K::rank_transitive(a, b, c);
    }
    order::ranked_is_sorted::<K>(s);
    s.lemma_multiset_has_no_duplicates();
    r.lemma_multiset_has_no_duplicates_conv();
    assert forall|x: K::V| r.to_set().contains(x) == s.to_set().contains(x) by {
        assert(r.to_multiset().count(x) == s.to_multiset().count(x));
        assert(r.contains(x) == s.contains(x));
    }
    assert(r.to_set() =~= s.to_set());
}

proof fn lemma_enumerate<A>(d: Set<A>) -> (s: Seq<A>)
    requires
        d.finite(),
    ensures
        s.no_duplicates(),
        s.to_set() == d,
    decreases d.len(),
{
    if d.len() == 0 {
        assert(Seq::<A>::empty().to_set() =~= d);
        Seq::empty()
    } else {
        let x = d.choose();
        let rest = lemma_enumerate(d.remove(x));
        let s = rest.push(x);
        assert(!rest.to_set().contains(x));
        assert forall|i: int| 0 <= i < rest.len() implies #[trigger] rest[i] != x by {
            assert(rest.to_set().contains(rest[i]));
        }
        assert forall|v: A| s.to_set().contains(v) == d.contains(v) by {
            if d.contains(v) {
                if v == x {
                    assert(s[rest.len() as int] == x);
                } else {
                    assert(rest.to_set().contains(v));
                    let i = choose|i: int| 0 <= i < rest.len() && rest[i] == v;
                    assert(s[i] == v);
                }
            }
            if s.to_set().contains(v) {
                let i = choose|i: int| 0 <= i < s.len() && s[i] == v;
                if i < rest.len() {
                    assert(rest.to_set().contains(rest[i]));
                }
            }
        }
        assert(s.to_set() =~= d);
        s
    }
}

/// Listing a finite set lists it.
pub proof fn listing_lists<K: Ordered>(d: Set<K::V>)
    requires
        d.finite(),
    ensures
        lists::<K>(listing::<K>(d), d),
{
    let s = lemma_enumerate(d);
    lemma_ranked_lists::<K>(s);
}

/// Sorts keys that occur once each.
pub fn sort_keys<K: Ordered>(keys: Vec<K>) -> (out: Vec<K>)
    requires
        keys::views(keys@).no_duplicates(),
    ensures
        keys::views(out@) == listing::<K>(keys::views(keys@).to_set()),
        lists::<K>(keys::views(out@), keys::views(keys@).to_set()),
{
    let ghost s = keys::views(keys@);
    let out = sort_ranked(keys);
    proof {
        lemma_ranked_lists::<K>(s);
        listing_is::<K>(keys::views(out@), s.to_set());
    }
    out
}

/// The keys of a table in order.
pub fn sorted_keys<K: Ordered, V: View>(table: &Table<K, V>) -> (out: Vec<K>)
    ensures
        keys::views(out@) == listing::<K>(table@.dom()),
        lists::<K>(keys::views(out@), table@.dom()),
{
    sort_keys(table.keys())
}

/// The members of a set in order.
pub fn sorted_members<K: Ordered>(set: &KeySet<K>) -> (out: Vec<K>)
    ensures
        keys::views(out@) == listing::<K>(set@),
        lists::<K>(keys::views(out@), set@),
{
    sort_keys(set.members())
}

} // verus!
