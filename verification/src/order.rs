//! Sorted lists without repetitions.
//!
//! Combos, modifier lists and names are kept in one canonical form: ascending,
//! each member once. [`arrange`] says what that form is and [`arranged`]
//! computes it, for every type with a strict total order.

use crate::keyed::Label;
use vstd::prelude::*;

verus! {

/// A type whose views are strictly and totally ordered.
pub trait Ordered: Label {
    spec fn before(a: Self::V, b: Self::V) -> bool;

    proof fn before_irreflexive(a: Self::V)
        ensures
            !Self::before(a, a),
    ;

    proof fn before_transitive(a: Self::V, b: Self::V, c: Self::V)
        requires
            Self::before(a, b),
            Self::before(b, c),
        ensures
            Self::before(a, c),
    ;

    proof fn before_total(a: Self::V, b: Self::V)
        ensures
            a == b || Self::before(a, b) || Self::before(b, a),
    ;

    fn is_before(&self, other: &Self) -> (r: bool)
        ensures
            r == Self::before(self@, other@),
    ;
}

/// The views of the members of a list.
pub open spec fn views<T: View>(s: Seq<T>) -> Seq<T::V> {
    Seq::new(s.len(), |i: int| s[i]@)
}

/// Whether a list ascends strictly.
pub open spec fn ascending<T: Ordered>(s: Seq<T::V>) -> bool {
    forall|i: int, j: int| #![trigger s[i], s[j]] 0 <= i < j < s.len() ==> T::before(s[i], s[j])
}

/// A strictly ascending list with `e` put in its place, unless it is there.
pub open spec fn place<T: Ordered>(s: Seq<T::V>, e: T::V) -> Seq<T::V>
    decreases s.len(),
{
    if s.len() == 0 {
        seq![e]
    } else if s.last() == e {
        s
    } else if T::before(s.last(), e) {
        s.push(e)
    } else {
        place::<T>(s.drop_last(), e).push(s.last())
    }
}

/// The members of `s` in ascending order, each once.
pub open spec fn arrange<T: Ordered>(s: Seq<T::V>) -> Seq<T::V>
    decreases s.len(),
{
    if s.len() == 0 {
        Seq::empty()
    } else {
        place::<T>(arrange::<T>(s.drop_last()), s.last())
    }
}

proof fn lemma_place<T: Ordered>(s: Seq<T::V>, e: T::V)
    requires
        ascending::<T>(s),
    ensures
        ascending::<T>(place::<T>(s, e)),
        forall|x: T::V| #[trigger]
            place::<T>(s, e).contains(x) <==> (s.contains(x) || x == e),
    decreases s.len(),
{
    let p = place::<T>(s, e);
    if s.len() == 0 {
        assert(p[0] == e);
    } else if s.last() == e {
        assert(s.contains(e));
    } else if T::before(s.last(), e) {
        assert forall|i: int, j: int| #![trigger p[i], p[j]] 0 <= i < j < p.len() implies T::before(
            p[i],
            p[j],
        ) by {
            if j == s.len() && i < s.len() - 1 {
                T::before_transitive(s[i], s.last(), e);
            }
        }
        assert forall|x: T::V| #[trigger] p.contains(x) <==> (s.contains(x) || x == e) by {
            if s.contains(x) {
                let i = choose|i: int| 0 <= i < s.len() && s[i] == x;
                assert(p[i] == x);
            }
            assert(p[s.len() as int] == e);
        }
    } else {
        let init = s.drop_last();
        T::before_total(s.last(), e);
        assert(ascending::<T>(init));
        lemma_place::<T>(init, e);
        let q = place::<T>(init, e);
        assert forall|i: int, j: int| #![trigger p[i], p[j]] 0 <= i < j < p.len() implies T::before(
            p[i],
            p[j],
        ) by {
            if j == q.len() {
                assert(q.contains(q[i]));
                if q[i] != e {
                    let k = choose|k: int| 0 <= k < init.len() && init[k] == q[i];
                    assert(T::before(s[k], s[s.len() - 1]));
                }
            }
        }
        assert forall|x: T::V| #[trigger] p.contains(x) <==> (s.contains(x) || x == e) by {
            if s.contains(x) {
                let i = choose|i: int| 0 <= i < s.len() && s[i] == x;
                if i < s.len() - 1 {
                    assert(init[i] == x);
                    assert(q.contains(x));
                    let k = choose|k: int| 0 <= k < q.len() && q[k] == x;
                    assert(p[k] == x);
                } else {
                    assert(p[q.len() as int] == x);
                }
            }
            if x == e {
                assert(q.contains(x));
                let k = choose|k: int| 0 <= k < q.len() && q[k] == x;
                assert(p[k] == x);
            }
            if p.contains(x) {
                let k = choose|k: int| 0 <= k < p.len() && p[k] == x;
                if k < q.len() {
                    assert(q[k] == x);
                    assert(q.contains(x));
                    if x != e {
                        assert(init.contains(x));
                        let i = choose|i: int| 0 <= i < init.len() && init[i] == x;
                        assert(s[i] == x);
                    }
                } else {
                    assert(s[s.len() - 1] == x);
                }
            }
        }
    }
}

/// Arranging a list keeps its members and no others, in strictly ascending
/// order.
pub proof fn lemma_arrange<T: Ordered>(s: Seq<T::V>)
    ensures
        ascending::<T>(arrange::<T>(s)),
        forall|x: T::V| #[trigger] arrange::<T>(s).contains(x) <==> s.contains(x),
    decreases s.len(),
{
    if s.len() > 0 {
        let init = s.drop_last();
        lemma_arrange::<T>(init);
        lemma_place::<T>(arrange::<T>(init), s.last());
        assert forall|x: T::V| #[trigger] arrange::<T>(s).contains(x) <==> s.contains(x) by {
            if s.contains(x) {
                let i = choose|i: int| 0 <= i < s.len() && s[i] == x;
                if i < s.len() - 1 {
                    assert(init[i] == x);
                }
            }
            if init.contains(x) {
                let i = choose|i: int| 0 <= i < init.len() && init[i] == x;
                assert(s[i] == x);
            }
            assert(s[s.len() - 1] == s.last());
        }
    }
}

/// A strictly ascending list is determined by its members.
pub proof fn lemma_ascending_unique<T: Ordered>(a: Seq<T::V>, b: Seq<T::V>)
    requires
        ascending::<T>(a),
        ascending::<T>(b),
        forall|x: T::V| #[trigger] a.contains(x) <==> b.contains(x),
    ensures
        a == b,
    decreases a.len(),
{
    if a.len() == 0 {
        if b.len() > 0 {
            assert(b.contains(b[0]));
            assert(a.contains(b[0]));
        }
        assert(a =~= b);
    } else {
        assert(a.contains(a.last()));
        assert(b.contains(a.last()));
        assert(b.contains(b.last()));
        assert(a.contains(b.last()));
        let i = choose|i: int| 0 <= i < b.len() && b[i] == a.last();
        let j = choose|j: int| 0 <= j < a.len() && a[j] == b.last();
        if i < b.len() - 1 {
            assert(T::before(b[i], b[b.len() - 1]));
            if j < a.len() - 1 {
                assert(T::before(a[j], a[a.len() - 1]));
                T::before_transitive(a.last(), b.last(), a.last());
            }
            T::before_irreflexive(a.last());
        }
        assert(a.last() == b.last());
        let a0 = a.drop_last();
        let b0 = b.drop_last();
        assert(ascending::<T>(a0));
        assert(ascending::<T>(b0));
        assert forall|x: T::V| #[trigger] a0.contains(x) <==> b0.contains(x) by {
            if a0.contains(x) {
                let k = choose|k: int| 0 <= k < a0.len() && a0[k] == x;
                assert(a[k] == x);
                assert(T::before(a[k], a[a.len() - 1]));
                T::before_irreflexive(x);
                assert(a.contains(x));
                assert(b.contains(x));
                let m = choose|m: int| 0 <= m < b.len() && b[m] == x;
                assert(b0[m] == x);
            }
            if b0.contains(x) {
                let k = choose|k: int| 0 <= k < b0.len() && b0[k] == x;
                assert(b[k] == x);
                assert(T::before(b[k], b[b.len() - 1]));
                T::before_irreflexive(x);
                assert(b.contains(x));
                assert(a.contains(x));
                let m = choose|m: int| 0 <= m < a.len() && a[m] == x;
                assert(a0[m] == x);
            }
        }
        lemma_ascending_unique::<T>(a0, b0);
        assert(a =~= a0.push(a.last()));
        assert(b =~= b0.push(b.last()));
    }
}

/// The canonical form does not depend on the order or the multiplicity of the
/// members, and arranging an arranged list changes nothing.
pub proof fn lemma_arrange_same_members<T: Ordered>(a: Seq<T::V>, b: Seq<T::V>)
    requires
        forall|x: T::V| #[trigger] a.contains(x) <==> b.contains(x),
    ensures
        arrange::<T>(a) == arrange::<T>(b),
        arrange::<T>(arrange::<T>(a)) == arrange::<T>(a),
{
    lemma_arrange::<T>(a);
    lemma_arrange::<T>(b);
    lemma_arrange::<T>(arrange::<T>(a));
    assert forall|x: T::V| #[trigger] arrange::<T>(a).contains(x) <==> arrange::<T>(b).contains(
        x,
    ) by {
        assert(a.contains(x) <==> b.contains(x));
    }
    lemma_ascending_unique::<T>(arrange::<T>(a), arrange::<T>(b));
    lemma_ascending_unique::<T>(arrange::<T>(arrange::<T>(a)), arrange::<T>(a));
}

proof fn lemma_place_at<T: Ordered>(s: Seq<T::V>, e: T::V, i: int)
    requires
        0 <= i <= s.len(),
        i > 0 ==> T::before(s[i - 1], e),
        forall|j: int| i <= j < s.len() ==> !T::before(#[trigger] s[j], e) && s[j] != e,
    ensures
        place::<T>(s, e) == s.insert(i, e),
    decreases s.len(),
{
    if s.len() == 0 {
        assert(s.insert(i, e) =~= seq![e]);
    } else if i == s.len() {
        if s.last() == e {
            T::before_irreflexive(e);
        }
        assert(s.insert(i, e) =~= s.push(e));
    } else {
        assert(!T::before(s[s.len() - 1], e) && s[s.len() - 1] != e);
        let init = s.drop_last();
        lemma_place_at::<T>(init, e, i);
        assert(s.insert(i, e) =~= init.insert(i, e).push(s.last()));
    }
}

proof fn lemma_place_present<T: Ordered>(s: Seq<T::V>, e: T::V, i: int)
    requires
        0 <= i < s.len(),
        s[i] == e,
        forall|j: int| i < j < s.len() ==> !T::before(#[trigger] s[j], e) && s[j] != e,
    ensures
        place::<T>(s, e) == s,
    decreases s.len(),
{
    if i < s.len() - 1 {
        assert(!T::before(s[s.len() - 1], e) && s[s.len() - 1] != e);
        let init = s.drop_last();
        assert(init[i] == e);
        lemma_place_present::<T>(init, e, i);
        assert(init.push(s.last()) =~= s);
    }
}

/// Put `e` in its place in an ascending list.
pub fn put_in_place<T: Ordered>(v: &mut Vec<T>, e: T)
    ensures
        views(final(v)@) == place::<T>(views(old(v)@), e@),
{
    let ghost s = views(v@);
    let mut i: usize = v.len();
    while i > 0
        invariant
            i <= v@.len(),
            s == views(v@),
            v@ == old(v)@,
            forall|j: int| i <= j < s.len() ==> !T::before(#[trigger] s[j], e@) && s[j] != e@,
        decreases i,
    {
        if v[i - 1].same(&e) {
            proof {
                assert(s[i - 1] == e@);
                lemma_place_present::<T>(s, e@, i - 1);
            }
            return;
        }
        if v[i - 1].is_before(&e) {
            proof {
                assert(T::before(s[i - 1], e@));
                lemma_place_at::<T>(s, e@, i as int);
            }
            v.insert(i, e);
            assert(views(v@) =~= s.insert(i as int, e@));
            return;
        }
        assert(s[i - 1] == v@[i - 1]@);
        i = i - 1;
    }
    proof {
        lemma_place_at::<T>(s, e@, 0);
    }
    v.insert(0, e);
    assert(views(v@) =~= s.insert(0, e@));
}

/// The members of `v` in ascending order, each once.
pub fn arranged<T: Ordered>(v: &Vec<T>) -> (r: Vec<T>)
    ensures
        views(r@) == arrange::<T>(views(v@)),
{
    let mut r: Vec<T> = Vec::new();
    let mut i: usize = 0;
    assert(views(r@) =~= arrange::<T>(views(v@).take(0)));
    while i < v.len()
        invariant
            i <= v@.len(),
            views(r@) == arrange::<T>(views(v@).take(i as int)),
        decreases v@.len() - i,
    {
        put_in_place(&mut r, v[i].replicate_label());
        i = i + 1;
        proof {
            let t = views(v@).take(i as int);
            assert(t.drop_last() =~= views(v@).take(i - 1));
            assert(t.last() == v@[i - 1]@);
        }
    }
    assert(views(v@).take(i as int) =~= views(v@));
    r
}

// ── Lists with repetitions ───────────────────────────────────────────────────

/// Whether a list ascends, repetitions allowed.
pub open spec fn in_order<T: Ordered>(s: Seq<T::V>) -> bool {
    forall|i: int, j: int| #![trigger s[i], s[j]] 0 <= i < j < s.len() ==> !T::before(s[j], s[i])
}

/// Whether `r` is `s` in ascending order, each member as often as in `s`.
pub open spec fn sorts<T: Ordered>(r: Seq<T::V>, s: Seq<T::V>) -> bool {
    in_order::<T>(r) && r.to_multiset() == s.to_multiset()
}

/// A sorted list has the members of the list that it came from.
pub proof fn lemma_sorts_members<T: Ordered>(r: Seq<T::V>, s: Seq<T::V>)
    requires
        sorts::<T>(r, s),
    ensures
        forall|x: T::V| #[trigger] r.contains(x) <==> s.contains(x),
{
    broadcast use vstd::seq_lib::group_to_multiset_ensures;

    assert forall|x: T::V| #[trigger] r.contains(x) <==> s.contains(x) by {
        assert(r.contains(x) <==> r.to_multiset().count(x) > 0);
        assert(s.contains(x) <==> s.to_multiset().count(x) > 0);
    }
}

/// The members of `v` in ascending order, each as often as it is there.
pub fn sorted<T: Ordered>(v: &Vec<T>) -> (r: Vec<T>)
    ensures
        sorts::<T>(views(r@), views(v@)),
{
    let mut r: Vec<T> = Vec::new();
    let mut n: usize = 0;
    assert(views(r@) =~= views(v@).take(0));
    while n < v.len()
        invariant
            n <= v@.len(),
            sorts::<T>(views(r@), views(v@).take(n as int)),
        decreases v@.len() - n,
    {
        let e: T = v[n].replicate_label();
        let ghost s = views(r@);
        let mut i: usize = r.len();
        while i > 0 && e.is_before(&r[i - 1])
            invariant
                i <= r@.len(),
                s == views(r@),
                forall|j: int| i <= j < s.len() ==> T::before(e@, #[trigger] s[j]),
            decreases i,
        {
            i = i - 1;
            assert(s[i as int] == r@[i as int]@);
        }
        proof {
            if i > 0 {
                assert(s[i - 1] == r@[i - 1]@);
            }
        }
        r.insert(i, e);
        proof {
            let t = views(r@);
            assert(t =~= s.insert(i as int, e@));
            assert forall|a: int, b: int|
                #![trigger t[a], t[b]]
                0 <= a < b < t.len() implies !T::before(t[b], t[a]) by {
                if a < i && b == i {
                    // Whatever stands before the place is not after `e`.
                    if T::before(e@, s[a]) {
                        if a < i - 1 {
                            T::before_total(s[a], s[i - 1]);
                            if T::before(s[a], s[i - 1]) {
                                T::before_transitive(e@, s[a], s[i - 1]);
                            }
                            assert(!T::before(s[i - 1], s[a]));
                        }
                    }
                } else if a == i && b > i {
                    assert(t[b] == s[b - 1]);
                    assert(T::before(e@, s[b - 1]));
                    if T::before(s[b - 1], e@) {
                        T::before_transitive(e@, s[b - 1], e@);
                        T::before_irreflexive(e@);
                    }
                } else if a < i && b > i {
                    assert(t[b] == s[b - 1]);
                } else if a > i {
                    assert(t[a] == s[a - 1]);
                    assert(t[b] == s[b - 1]);
                }
            }
            broadcast use vstd::seq_lib::group_to_multiset_ensures;

            assert(t.to_multiset() =~= s.to_multiset().insert(e@));
            let w = views(v@);
            assert(w.take(n + 1) =~= w.take(n as int).push(e@));
            assert(w.take(n + 1).to_multiset() =~= w.take(n as int).to_multiset().insert(e@));
        }
        n = n + 1;
    }
    assert(views(v@).take(n as int) =~= views(v@));
    r
}

// ── Lists of lists ───────────────────────────────────────────────────────────

/// Lexicographic order of lists.
pub open spec fn list_before<T: Ordered>(a: Seq<T::V>, b: Seq<T::V>) -> bool
    decreases a.len(),
{
    if b.len() == 0 {
        false
    } else if a.len() == 0 {
        true
    } else if a[0] == b[0] {
        list_before::<T>(a.drop_first(), b.drop_first())
    } else {
        T::before(a[0], b[0])
    }
}

pub proof fn lemma_list_before_transitive<T: Ordered>(
    a: Seq<T::V>,
    b: Seq<T::V>,
    c: Seq<T::V>,
)
    requires
        list_before::<T>(a, b),
        list_before::<T>(b, c),
    ensures
        list_before::<T>(a, c),
    decreases a.len(),
{
    if a.len() > 0 {
        if a[0] == b[0] && b[0] == c[0] {
            lemma_list_before_transitive::<T>(a.drop_first(), b.drop_first(), c.drop_first());
        } else if a[0] != b[0] && b[0] != c[0] {
            T::before_transitive(a[0], b[0], c[0]);
            if a[0] == c[0] {
                T::before_irreflexive(a[0]);
            }
        }
    }
}

pub proof fn lemma_list_before_irreflexive<T: Ordered>(a: Seq<T::V>)
    ensures
        !list_before::<T>(a, a),
    decreases a.len(),
{
    if a.len() > 0 {
        lemma_list_before_irreflexive::<T>(a.drop_first());
    }
}

pub proof fn lemma_list_before_total<T: Ordered>(a: Seq<T::V>, b: Seq<T::V>)
    ensures
        a == b || list_before::<T>(a, b) || list_before::<T>(b, a),
    decreases a.len(),
{
    if a.len() > 0 && b.len() > 0 {
        if a[0] == b[0] {
            lemma_list_before_total::<T>(a.drop_first(), b.drop_first());
            if a.drop_first() == b.drop_first() {
                assert(a =~= seq![a[0]] + a.drop_first());
                assert(b =~= seq![b[0]] + b.drop_first());
            }
        } else {
            T::before_total(a[0], b[0]);
        }
    } else if a.len() == 0 && b.len() == 0 {
        assert(a =~= b);
    }
}

/// Whether the list `a` comes before the list `b`.
pub fn list_is_before<T: Ordered>(a: &Vec<T>, b: &Vec<T>) -> (r: bool)
    ensures
        r == list_before::<T>(views(a@), views(b@)),
{
    let ghost x = views(a@);
    let ghost y = views(b@);
    let mut i: usize = 0;
    assert(x.skip(0) =~= x);
    assert(y.skip(0) =~= y);
    while i < a.len() && i < b.len()
        invariant
            x == views(a@),
            y == views(b@),
            i <= a@.len(),
            i <= b@.len(),
            list_before::<T>(x, y) == list_before::<T>(x.skip(i as int), y.skip(i as int)),
        decreases a@.len() - i,
    {
        assert(x.skip(i as int)[0] == a@[i as int]@);
        assert(y.skip(i as int)[0] == b@[i as int]@);
        if !a[i].same(&b[i]) {
            return a[i].is_before(&b[i]);
        }
        proof {
            assert(x.skip(i as int).drop_first() =~= x.skip(i + 1));
            assert(y.skip(i as int).drop_first() =~= y.skip(i + 1));
        }
        i = i + 1;
    }
    i < b.len()
}

} // verus!
