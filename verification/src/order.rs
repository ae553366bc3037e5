//! Putting things in order.

use vstd::prelude::*;
use vstd::seq_lib::group_to_multiset_ensures;

verus! {

/// Things that can be put in order.
pub trait Ranked: View + Sized {
    /// The first comes before the second.
    spec fn ahead(a: Self::V, b: Self::V) -> bool;

    /// This comes before the other.
    fn is_ahead(&self, other: &Self) -> (r: bool)
        ensures
            r == Self::ahead(self@, other@),
    ;
}

/// The views of a list of things.
pub open spec fn views<T: View>(v: Seq<T>) -> Seq<T::V> {
    Seq::new(v.len(), |i: int| v[i]@)
}

/// A list in order with one more thing in its place: behind all that it does not
/// come before.
pub open spec fn placed<V>(s: Seq<V>, x: V, ahead: spec_fn(V, V) -> bool) -> Seq<V>
    decreases s.len(),
{
    if s.len() > 0 && ahead(x, s.last()) {
        placed(s.drop_last(), x, ahead).push(s.last())
    } else {
        s.push(x)
    }
}

/// The same things in order; of two that do not come before each other, the one
/// that came first stays first.
pub open spec fn in_order<V>(s: Seq<V>, ahead: spec_fn(V, V) -> bool) -> Seq<V>
    decreases s.len(),
{
    if s.len() == 0 {
        Seq::empty()
    } else {
        placed(in_order(s.drop_last(), ahead), s.last(), ahead)
    }
}

/// Puts a thing into its place in a list.
fn place<T: Ranked>(v: &mut Vec<T>, x: T)
    ensures
        views(final(v)@) == placed(views(old(v)@), x@, |a: T::V, b: T::V| T::ahead(a, b)),
{
    let ghost ahead = |a: T::V, b: T::V| T::ahead(a, b);
    let ghost all = views(v@);
    let mut i: usize = v.len();
    proof {
        assert(all.take(all.len() as int) =~= all);
        assert(all.skip(all.len() as int) =~= Seq::empty());
        assert(placed(all, x@, ahead) =~= placed(all, x@, ahead) + Seq::empty());
    }
    while i > 0 && x.is_ahead(&v[i - 1])
        invariant
            i <= v.len(),
            all == views(v@),
            ahead == (|a: T::V, b: T::V| T::ahead(a, b)),
            placed(all, x@, ahead) == placed(all.take(i as int), x@, ahead) + all.skip(i as int),
        decreases i,
    {
        proof {
            let head = all.take(i as int);
            assert(head.last() == v@[i - 1]@);
            assert(head.drop_last() =~= all.take(i - 1));
            assert(placed(head.drop_last(), x@, ahead).push(head.last()) + all.skip(i as int) =~= placed(
                all.take(i - 1),
                x@,
                ahead,
            ) + all.skip(i - 1));
        }
        i = i - 1;
    }
    proof {
        let head = all.take(i as int);
        assert(i > 0 ==> head.last() == v@[i - 1]@);
        assert(placed(head, x@, ahead) == head.push(x@));
        assert(views(v@.insert(i as int, x)) =~= head.push(x@) + all.skip(i as int));
    }
    v.insert(i, x);
}

/// Puts things in order.
pub fn put_in_order<T: Ranked>(v: Vec<T>) -> (r: Vec<T>)
    ensures
        views(r@) == in_order(views(v@), |a: T::V, b: T::V| T::ahead(a, b)),
{
    let ghost ahead = |a: T::V, b: T::V| T::ahead(a, b);
    let ghost all = views(v@);
    let mut rest = v;
    let mut r: Vec<T> = Vec::new();
    let ghost mut done: int = 0;
    proof {
        assert(all.take(0) =~= Seq::empty());
        assert(all.skip(0) =~= all);
        assert(views(r@) =~= Seq::empty());
    }
    while rest.len() > 0
        invariant
            0 <= done <= all.len(),
            ahead == (|a: T::V, b: T::V| T::ahead(a, b)),
            views(rest@) == all.skip(done),
            views(r@) == in_order(all.take(done), ahead),
        decreases rest.len(),
    {
        let ghost before = rest@;
        let x = rest.remove(0);
        proof {
            assert(views(before).len() == before.len());
            assert(views(before)[0] == x@);
            assert(views(rest@) =~= all.skip(done + 1)) by {
                assert forall|i: int| 0 <= i < rest@.len() implies views(rest@)[i] == all.skip(done + 1)[i] by {
                    assert(views(before)[i + 1] == before[i + 1]@);
                }
            }
            assert(all.take(done + 1).last() == x@);
            assert(all.take(done + 1).drop_last() =~= all.take(done));
        }
        place(&mut r, x);
        proof {
            done = done + 1;
        }
    }
    proof {
        assert(views(rest@).len() == 0);
        assert(all.take(done) =~= all);
    }
    r
}

proof fn lemma_placed_keeps<V>(s: Seq<V>, x: V, ahead: spec_fn(V, V) -> bool)
    ensures
        placed(s, x, ahead).len() == s.len() + 1,
        placed(s, x, ahead).to_multiset() =~= s.to_multiset().insert(x),
    decreases s.len(),
{
    broadcast use group_to_multiset_ensures;

    if s.len() > 0 && ahead(x, s.last()) {
        lemma_placed_keeps(s.drop_last(), x, ahead);
        assert(s.drop_last().push(s.last()) =~= s);
    }
}

/// Putting things in order loses none and adds none.
pub proof fn law_order_keeps_all<V>(s: Seq<V>, ahead: spec_fn(V, V) -> bool)
    ensures
        in_order(s, ahead).len() == s.len(),
        in_order(s, ahead).to_multiset() =~= s.to_multiset(),
    decreases s.len(),
{
    broadcast use group_to_multiset_ensures;

    if s.len() > 0 {
        law_order_keeps_all(s.drop_last(), ahead);
        lemma_placed_keeps(in_order(s.drop_last(), ahead), s.last(), ahead);
        assert(s.drop_last().push(s.last()) =~= s);
    } else {
        assert(s =~= Seq::empty());
    }
}

proof fn lemma_placed_in_order<V>(s: Seq<V>, x: V, ahead: spec_fn(V, V) -> bool)
    requires
        forall|a: V, b: V, c: V|
            #![trigger ahead(a, b), ahead(b, c)]
            !ahead(a, b) && !ahead(b, c) ==> !ahead(a, c),
        forall|a: V, b: V| #[trigger] ahead(a, b) ==> !ahead(b, a),
        forall|i: int, j: int| 0 <= i < j < s.len() ==> !ahead(#[trigger] s[j], #[trigger] s[i]),
    ensures
        forall|i: int, j: int|
            0 <= i < j < placed(s, x, ahead).len() ==> !ahead(
                #[trigger] placed(s, x, ahead)[j],
                #[trigger] placed(s, x, ahead)[i],
            ),
        forall|i: int|
            0 <= i < placed(s, x, ahead).len() ==> (#[trigger] placed(s, x, ahead)[i]) == x || s.contains(
                placed(s, x, ahead)[i],
            ),
    decreases s.len(),
{
    let r = placed(s, x, ahead);
    if s.len() > 0 && ahead(x, s.last()) {
        let front = s.drop_last();
        lemma_placed_in_order(front, x, ahead);
        let p = placed(front, x, ahead);
        assert(r == p.push(s.last()));
        assert forall|i: int| 0 <= i < r.len() implies (#[trigger] r[i]) == x || s.contains(r[i]) by {
            if i < p.len() {
                if p[i] != x {
                    let k = choose|k: int| 0 <= k < front.len() && front[k] == p[i];
                    assert(s[k] == r[i]);
                }
            } else {
                assert(s[s.len() - 1] == r[i]);
            }
        }
        assert forall|i: int, j: int| 0 <= i < j < r.len() implies !ahead(#[trigger] r[j], #[trigger] r[i]) by {
            if j < p.len() {
                assert(r[i] == p[i] && r[j] == p[j]);
            } else {
                assert(r[i] == p[i]);
                if p[i] != x {
                    let k = choose|k: int| 0 <= k < front.len() && front[k] == p[i];
                    assert(s[k] == r[i]);
                }
            }
        }
    } else {
        assert(r == s.push(x));
        assert forall|i: int| 0 <= i < r.len() implies (#[trigger] r[i]) == x || s.contains(r[i]) by {
            if i < s.len() {
                assert(s[i] == r[i]);
            }
        }
        assert forall|i: int, j: int| 0 <= i < j < r.len() implies !ahead(#[trigger] r[j], #[trigger] r[i]) by {
            assert(r[i] == s[i]);
            if j < s.len() {
                assert(r[j] == s[j]);
            } else {
                let last = s[s.len() - 1];
                assert(!ahead(x, last));
                if i < s.len() - 1 {
                    assert(!ahead(last, s[i]));
                }
            }
        }
    }
}

/// Things that were put in order are in order, where "before" is an order: two
/// never come before each other, and what does not come before a thing that does
/// not come before a third does not come before the third.
pub proof fn law_order_is_kept<V>(s: Seq<V>, ahead: spec_fn(V, V) -> bool)
    requires
        forall|a: V, b: V, c: V|
            #![trigger ahead(a, b), ahead(b, c)]
            !ahead(a, b) && !ahead(b, c) ==> !ahead(a, c),
        forall|a: V, b: V| #[trigger] ahead(a, b) ==> !ahead(b, a),
    ensures
        forall|i: int, j: int|
            0 <= i < j < in_order(s, ahead).len() ==> !ahead(
                #[trigger] in_order(s, ahead)[j],
                #[trigger] in_order(s, ahead)[i],
            ),
    decreases s.len(),
{
    if s.len() > 0 {
        law_order_is_kept(s.drop_last(), ahead);
        lemma_placed_in_order(in_order(s.drop_last(), ahead), s.last(), ahead);
    }
}

} // verus!
