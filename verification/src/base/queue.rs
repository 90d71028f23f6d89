//! Double-ended queues of keys: search and removal by content.

use std::collections::VecDeque;

use vstd::prelude::*;

use crate::base::keys;
use crate::base::keys::Key;

verus! {

/// The queue without the occurrences of a key; the others keep their order.
pub open spec fn without<T>(s: Seq<T>, x: T) -> Seq<T> {
    s.filter(|y: T| y != x)
}

/// A queue without duplicates loses exactly the key at `i`.
pub proof fn lemma_without_unique<T>(s: Seq<T>, i: int)
    requires
        s.no_duplicates(),
        0 <= i < s.len(),
    ensures
        without(s, s[i]) == s.remove(i),
    decreases s.len(),
{
    reveal(Seq::filter);
    let x = s[i];
    let f = |y: T| y != x;
    let init = s.drop_last();
    if i == s.len() - 1 {
        lemma_without_absent(init, x);
        assert(s.remove(i) =~= init);
    } else {
        assert(init[i] == x);
        lemma_without_unique(init, i);
        assert(s.last() != x);
        assert(s.remove(i) =~= init.remove(i).push(s.last()));
    }
}

/// A queue that lacks the key is left as it is.
pub proof fn lemma_without_absent<T>(s: Seq<T>, x: T)
    requires
        !s.contains(x),
    ensures
        without(s, x) == s,
    decreases s.len(),
{
    reveal(Seq::filter);
    if s.len() > 0 {
        let init = s.drop_last();
        assert(!init.contains(x)) by {
            if init.contains(x) {
                let i = choose|i: int| 0 <= i < init.len() && init[i] == x;
                assert(s[i] == x);
            }
        }
        lemma_without_absent(init, x);
        assert(s.last() != x) by {
            assert(s.last() == s[s.len() - 1]);
        }
        assert(s =~= init.push(s.last()));
    }
}

/// Without duplicates, what is left has none, and holds every other key.
pub proof fn lemma_without<T>(s: Seq<T>, x: T)
    requires
        s.no_duplicates(),
    ensures
        without(s, x).no_duplicates(),
        !without(s, x).contains(x),
        without(s, x).to_set() == s.to_set().remove(x),
{
    if s.contains(x) {
        let i = choose|i: int| 0 <= i < s.len() && s[i] == x;
        lemma_without_unique(s, i);
        let r = s.remove(i);
        assert forall|y: T| r.contains(y) == (s.contains(y) && y != x) by {
            if r.contains(y) {
                let j = choose|j: int| 0 <= j < r.len() && r[j] == y;
                let k = if j < i { j } else { j + 1 };
                assert(s[k] == y);
            }
            if s.contains(y) && y != x {
                let j = choose|j: int| 0 <= j < s.len() && s[j] == y;
                let k = if j < i { j } else { j - 1 };
                assert(r[k] == y);
            }
        }
        assert(r.to_set() =~= s.to_set().remove(x));
    } else {
        lemma_without_absent(s, x);
        assert(s.to_set() =~= s.to_set().remove(x));
    }
}

/// A filter keeps exactly the elements that pass, and invents no duplicate.
pub proof fn lemma_filter<T>(s: Seq<T>, p: spec_fn(T) -> bool)
    ensures
        s.filter(p).len() <= s.len(),
        forall|x: T| #[trigger] s.filter(p).contains(x) <==> s.contains(x) && p(x),
        s.no_duplicates() ==> s.filter(p).no_duplicates(),
    decreases s.len(),
{
    reveal(Seq::filter);
    if s.len() > 0 {
        let init = s.drop_last();
        let last = s.last();
        lemma_filter(init, p);
        assert(s =~= init.push(last));
        assert forall|x: T| #[trigger] s.contains(x) <==> init.contains(x) || x == last by {
            if init.contains(x) {
                let i = choose|i: int| 0 <= i < init.len() && init[i] == x;
                assert(s[i] == x);
            }
            assert(s[s.len() - 1] == last);
            if s.contains(x) && x != last {
                let i = choose|i: int| 0 <= i < s.len() && s[i] == x;
                assert(init[i] == x);
            }
        }
        let f = init.filter(p);
        let g = s.filter(p);
        if p(last) {
            assert(g == f.push(last));
            assert forall|x: T| #[trigger] g.contains(x) <==> f.contains(x) || x == last by {
                if f.contains(x) {
                    let i = choose|i: int| 0 <= i < f.len() && f[i] == x;
                    assert(g[i] == x);
                }
                assert(g[f.len() as int] == last);
                if g.contains(x) && x != last {
                    let i = choose|i: int| 0 <= i < g.len() && g[i] == x;
                    assert(f[i] == x);
                }
            }
            if s.no_duplicates() {
                assert(init.no_duplicates());
                assert(!init.contains(last)) by {
                    if init.contains(last) {
                        let i = choose|i: int| 0 <= i < init.len() && init[i] == last;
                        assert(s[i] == s[s.len() - 1]);
                    }
                }
                assert(!f.contains(last));
                assert forall|i: int, j: int|
                    0 <= i < g.len() && 0 <= j < g.len() && i != j implies g[i] != g[j] by {
                    if i == f.len() {
                        assert(f.contains(f[j]));
                    } else if j == f.len() {
                        assert(f.contains(f[i]));
                    }
                }
            }
        } else {
            if s.no_duplicates() {
                assert(init.no_duplicates());
            }
        }
    }
}

/// Filters that agree on the elements give the same queue.
pub proof fn lemma_filter_agree<T>(s: Seq<T>, p: spec_fn(T) -> bool, q: spec_fn(T) -> bool)
    requires
        forall|i: int| 0 <= i < s.len() ==> p(#[trigger] s[i]) == q(s[i]),
    ensures
        s.filter(p) == s.filter(q),
    decreases s.len(),
{
    reveal(Seq::filter);
    if s.len() > 0 {
        let init = s.drop_last();
        assert forall|i: int| 0 <= i < init.len() implies p(#[trigger] init[i]) == q(init[i]) by {
            assert(s[i] == init[i]);
        }
        lemma_filter_agree(init, p, q);
        assert(p(s[s.len() - 1]) == q(s[s.len() - 1]));
    }
}

/// A filter that everything passes changes nothing.
pub proof fn lemma_filter_all<T>(s: Seq<T>, p: spec_fn(T) -> bool)
    requires
        forall|i: int| 0 <= i < s.len() ==> p(#[trigger] s[i]),
    ensures
        s.filter(p) == s,
    decreases s.len(),
{
    reveal(Seq::filter);
    if s.len() > 0 {
        let init = s.drop_last();
        assert forall|i: int| 0 <= i < init.len() implies p(#[trigger] init[i]) by {
            assert(s[i] == init[i]);
        }
        lemma_filter_all(init, p);
        assert(p(s[s.len() - 1]));
        assert(s =~= init.push(s.last()));
    }
}

/// Two filters in a row are their conjunction.
pub proof fn lemma_filter_twice<T>(s: Seq<T>, p: spec_fn(T) -> bool, q: spec_fn(T) -> bool)
    ensures
        s.filter(p).filter(q) == s.filter(|x: T| p(x) && q(x)),
    decreases s.len(),
{
    reveal(Seq::filter);
    if s.len() > 0 {
        let init = s.drop_last();
        lemma_filter_twice(init, p, q);
        if p(s.last()) {
            assert(s.filter(p).drop_last() =~= init.filter(p));
        }
    }
}

/// The queue without the elements of another; the others keep their order.
pub open spec fn except<T>(s: Seq<T>, gone: Seq<T>) -> Seq<T> {
    s.filter(|x: T| !gone.contains(x))
}

/// Removing one element more is removing it from what is left.
pub proof fn lemma_except_push<T>(s: Seq<T>, gone: Seq<T>, x: T)
    ensures
        except(s, gone.push(x)) == without(except(s, gone), x),
{
    let p = |y: T| !gone.contains(y);
    let q = |y: T| y != x;
    let r = |y: T| !gone.push(x).contains(y);
    lemma_filter_twice(s, p, q);
    assert forall|i: int| 0 <= i < s.len() implies r(#[trigger] s[i]) == (p(s[i]) && q(s[i])) by {
        let y = s[i];
        let g = gone.push(x);
        if gone.contains(y) {
            let j = choose|j: int| 0 <= j < gone.len() && gone[j] == y;
            assert(g[j] == y);
        }
        assert(g[gone.len() as int] == x);
        if g.contains(y) && y != x {
            let j = choose|j: int| 0 <= j < g.len() && g[j] == y;
            assert(gone[j] == y);
        }
    }
    lemma_filter_agree(s, r, |y: T| p(y) && q(y));
}

/// Removing nothing changes nothing.
pub proof fn lemma_except_none<T>(s: Seq<T>)
    ensures
        except(s, Seq::empty()) == s,
{
    lemma_filter_all(s, |x: T| !Seq::<T>::empty().contains(x));
}

/// What is left has no duplicate if there was none, and holds exactly the others.
pub proof fn lemma_except<T>(s: Seq<T>, gone: Seq<T>)
    ensures
        s.no_duplicates() ==> except(s, gone).no_duplicates(),
        forall|x: T| #[trigger] except(s, gone).contains(x) <==> s.contains(x) && !gone.contains(x),
        except(s, gone).to_set() == s.to_set().difference(gone.to_set()),
        except(s, gone).len() <= s.len(),
{
    lemma_filter(s, |x: T| !gone.contains(x));
    assert(except(s, gone).to_set() =~= s.to_set().difference(gone.to_set()));
}

/// The first position of the key, if it occurs.
pub fn position<K: Key>(queue: &VecDeque<K>, key: &K) -> (at: Option<usize>)
    ensures
        match at {
            Some(i) => i < queue@.len() && keys::views(queue@)[i as int] == key@ && forall|j: int|
                0 <= j < i ==> keys::views(queue@)[j] != key@,
            None => !keys::views(queue@).contains(key@),
        },
{
    let mut i: usize = 0;
    while i < queue.len()
        invariant
            i <= queue@.len(),
            forall|j: int| 0 <= j < i ==> keys::views(queue@)[j] != key@,
        decreases queue@.len() - i,
    {
        if queue[i].same(key) {
            return Some(i);
        }
        assert(keys::views(queue@)[i as int] != key@);
        i += 1;
    }
    None
}

/// Removes every occurrence of the key.
pub fn drop_key<K: Key>(queue: &mut VecDeque<K>, key: &K)
    ensures
        keys::views(final(queue)@) == without(keys::views(old(queue)@), key@),
{
    let ghost before = keys::views(queue@);
    let mut i: usize = 0;
    let ghost mut seen: int = 0;
    assert(without(before.take(0), key@) =~= Seq::empty()) by {
        reveal(Seq::filter);
    }
    assert(keys::views(queue@) =~= without(before.take(0), key@) + before.skip(0));
    while i < queue.len()
        invariant
            0 <= seen <= before.len(),
            i <= queue@.len(),
            queue@.len() - i == before.len() - seen,
            keys::views(queue@) == without(before.take(seen), key@) + before.skip(seen),
            without(before.take(seen), key@).len() == i,
        decreases queue@.len() - i,
    {
        let ghost prefix = without(before.take(seen), key@);
        let ghost now = keys::views(queue@);
        assert(now[i as int] == before[seen]);
        assert(queue@[i as int]@ == before[seen]);
        proof {
            reveal(Seq::filter);
            assert(before.take(seen + 1).drop_last() =~= before.take(seen));
        }
        if queue[i].same(key) {
            queue.remove(i);
            assert(keys::views(queue@) =~= now.remove(i as int));
            assert(without(before.take(seen + 1), key@) == prefix);
            assert(now.remove(i as int) =~= prefix + before.skip(seen + 1));
        } else {
            assert(without(before.take(seen + 1), key@) == prefix.push(before[seen]));
            assert(now =~= prefix.push(before[seen]) + before.skip(seen + 1));
            i += 1;
        }
        proof {
            seen = seen + 1;
        }
    }
    assert(before.take(seen) =~= before);
    assert(keys::views(queue@) =~= without(before, key@));
}

} // verus!
