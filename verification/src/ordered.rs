//! Total orders on mathematical views, a merge sort, and sorted collections
//! whose content is a mathematical set or map.
use vstd::multiset::Multiset;
use vstd::prelude::*;

verus! {

/// A type whose views are totally ordered.
pub trait Ordered: View + Sized {
    /// The order, as a relation on views.
    spec fn leq(a: Self::V, b: Self::V) -> bool;

    /// The relation is reflexive, total, antisymmetric and transitive.
    proof fn leq_total_order(a: Self::V, b: Self::V, c: Self::V)
        ensures
            Self::leq(a, a),
            Self::leq(a, b) || Self::leq(b, a),
            Self::leq(a, b) && Self::leq(b, a) ==> a == b,
            Self::leq(a, b) && Self::leq(b, c) ==> Self::leq(a, c),
    ;

    /// Decides the order.
    fn is_leq(&self, other: &Self) -> (r: bool)
        ensures
            r == Self::leq(self@, other@),
    ;
}

/// The sequence of the views of the elements of `s`.
pub open spec fn views<T: View>(s: Seq<T>) -> Seq<T::V> {
    Seq::new(s.len(), |i: int| s[i]@)
}

/// `s` never descends.
pub open spec fn sorted<T: Ordered>(s: Seq<T::V>) -> bool {
    forall|i: int, j: int| 0 <= i < j < s.len() ==> T::leq(#[trigger] s[i], #[trigger] s[j])
}

/// `s` ascends at every step.
pub open spec fn ascending<T: Ordered>(s: Seq<T::V>) -> bool {
    forall|i: int, j: int|
        0 <= i < j < s.len() ==> T::leq(#[trigger] s[i], #[trigger] s[j]) && s[i] != s[j]
}

/// `s` never ascends.
spec fn descending<T: Ordered>(s: Seq<T::V>) -> bool {
    forall|i: int, j: int| 0 <= i < j < s.len() ==> T::leq(#[trigger] s[j], #[trigger] s[i])
}

/// Every element of `s` is at most every element of `t`.
spec fn all_leq<T: Ordered>(s: Seq<T::V>, t: Seq<T::V>) -> bool {
    forall|i: int, j: int|
        0 <= i < s.len() && 0 <= j < t.len() ==> T::leq(#[trigger] s[i], #[trigger] t[j])
}

impl Ordered for char {
    open spec fn leq(a: char, b: char) -> bool {
        a <= b
    }

    proof fn leq_total_order(a: char, b: char, c: char) {
    }

    fn is_leq(&self, other: &Self) -> (r: bool) {
        *self <= *other
    }
}

impl Ordered for u8 {
    open spec fn leq(a: u8, b: u8) -> bool {
        a <= b
    }

    proof fn leq_total_order(a: u8, b: u8, c: u8) {
    }

    fn is_leq(&self, other: &Self) -> (r: bool) {
        *self <= *other
    }
}

impl Ordered for u16 {
    open spec fn leq(a: u16, b: u16) -> bool {
        a <= b
    }

    proof fn leq_total_order(a: u16, b: u16, c: u16) {
    }

    fn is_leq(&self, other: &Self) -> (r: bool) {
        *self <= *other
    }
}

impl Ordered for u32 {
    open spec fn leq(a: u32, b: u32) -> bool {
        a <= b
    }

    proof fn leq_total_order(a: u32, b: u32, c: u32) {
    }

    fn is_leq(&self, other: &Self) -> (r: bool) {
        *self <= *other
    }
}

impl Ordered for u64 {
    open spec fn leq(a: u64, b: u64) -> bool {
        a <= b
    }

    proof fn leq_total_order(a: u64, b: u64, c: u64) {
    }

    fn is_leq(&self, other: &Self) -> (r: bool) {
        *self <= *other
    }
}

/// Lexicographic order of sequences: a proper prefix comes first.
pub open spec fn lex_leq<T: Ordered>(a: Seq<T::V>, b: Seq<T::V>) -> bool
    decreases a.len(),
{
    if a.len() == 0 {
        true
    } else if b.len() == 0 {
        false
    } else if a[0] == b[0] {
        lex_leq::<T>(a.skip(1), b.skip(1))
    } else {
        T::leq(a[0], b[0])
    }
}

/// The lexicographic order is a total order.
pub proof fn lemma_lex_total_order<T: Ordered>(a: Seq<T::V>, b: Seq<T::V>, c: Seq<T::V>)
    ensures
        lex_leq::<T>(a, a),
        lex_leq::<T>(a, b) || lex_leq::<T>(b, a),
        lex_leq::<T>(a, b) && lex_leq::<T>(b, a) ==> a == b,
        lex_leq::<T>(a, b) && lex_leq::<T>(b, c) ==> lex_leq::<T>(a, c),
    decreases a.len(),
{
    if a.len() > 0 {
        lemma_lex_total_order::<T>(a.skip(1), a.skip(1), a.skip(1));
        if b.len() > 0 {
            T::leq_total_order(a[0], b[0], a[0]);
            if c.len() > 0 {
                T::leq_total_order(a[0], b[0], c[0]);
                T::leq_total_order(b[0], c[0], a[0]);
            }
            let c1 = if c.len() > 0 { c.skip(1) } else { c };
            lemma_lex_total_order::<T>(a.skip(1), b.skip(1), c1);
            if a[0] == b[0] && a.skip(1) == b.skip(1) {
                assert(a =~= seq![a[0]] + a.skip(1));
                assert(b =~= seq![b[0]] + b.skip(1));
            }
        }
    } else if b.len() == 0 {
        assert(a =~= b);
    }
}

/// Where `a` and `b` first differ decides.
pub proof fn lemma_lex_by_position<T: Ordered>(a: Seq<T::V>, b: Seq<T::V>, i: int)
    requires
        0 <= i < a.len(),
        i < b.len(),
        forall|k: int| 0 <= k < i ==> a[k] == b[k],
        a[i] != b[i],
    ensures
        lex_leq::<T>(a, b) == T::leq(a[i], b[i]),
    decreases i,
{
    if i > 0 {
        assert(a.skip(1)[i - 1] == a[i]);
        assert(b.skip(1)[i - 1] == b[i]);
        assert forall|k: int| 0 <= k < i - 1 implies a.skip(1)[k] == b.skip(1)[k] by {
            assert(a[k + 1] == b[k + 1]);
        }
        lemma_lex_by_position::<T>(a.skip(1), b.skip(1), i - 1);
        assert(a[0] == b[0]);
    }
}

/// Where one of `a` and `b` is a prefix of the other, their lengths decide.
pub proof fn lemma_lex_by_length<T: Ordered>(a: Seq<T::V>, b: Seq<T::V>)
    requires
        forall|k: int| 0 <= k < a.len() && k < b.len() ==> a[k] == b[k],
    ensures
        lex_leq::<T>(a, b) == (a.len() <= b.len()),
    decreases a.len(),
{
    if a.len() > 0 && b.len() > 0 {
        assert(a[0] == b[0]);
        assert forall|k: int| 0 <= k < a.skip(1).len() && k < b.skip(1).len() implies a.skip(1)[k]
            == b.skip(1)[k] by {
            assert(a[k + 1] == b[k + 1]);
        }
        lemma_lex_by_length::<T>(a.skip(1), b.skip(1));
    }
}

/// A type that is its own view.
pub trait Scalar: Ordered + View<V = Self> {
    proof fn view_is_self(self)
        ensures
            self@ == self,
    ;
}

impl Scalar for char {
    proof fn view_is_self(self) {
    }
}

impl Scalar for u8 {
    proof fn view_is_self(self) {
    }
}

impl Scalar for u32 {
    proof fn view_is_self(self) {
    }
}

impl<T: Scalar> Ordered for Vec<T> {
    open spec fn leq(a: Seq<T>, b: Seq<T>) -> bool {
        lex_leq::<T>(a, b)
    }

    proof fn leq_total_order(a: Seq<T>, b: Seq<T>, c: Seq<T>) {
        lemma_lex_total_order::<T>(a, b, c);
    }

    fn is_leq(&self, other: &Self) -> (r: bool) {
        slice_is_leq(self.as_slice(), other.as_slice())
    }
}

/// Decides the lexicographic order of two slices.
pub fn slice_is_leq<T: Scalar>(a: &[T], b: &[T]) -> (r: bool)
    ensures
        r == lex_leq::<T>(a@, b@),
{
    let mut i: usize = 0;
    while i < a.len() && i < b.len()
        invariant
            i <= a.len(),
            i <= b.len(),
            forall|k: int| 0 <= k < i ==> a@[k] == b@[k],
        decreases a.len() - i,
    {
        let below = a[i].is_leq(&b[i]);
        let above = b[i].is_leq(&a[i]);
        proof {
            a@[i as int].view_is_self();
            b@[i as int].view_is_self();
            T::leq_total_order(a@[i as int]@, b@[i as int]@, a@[i as int]@);
        }
        if !(below && above) {
            proof {
                lemma_lex_by_position::<T>(a@, b@, i as int);
            }
            return below;
        }
        i += 1;
    }
    proof {
        lemma_lex_by_length::<T>(a@, b@);
    }
    a.len() <= b.len()
}

/// Pairs in the order of their first components, then of their second.
pub open spec fn pair_leq<A: Ordered, B: Ordered>(a: (A::V, B::V), b: (A::V, B::V)) -> bool {
    if a.0 == b.0 {
        B::leq(a.1, b.1)
    } else {
        A::leq(a.0, b.0)
    }
}

impl<A: Ordered, B: Ordered> Ordered for (A, B) {
    open spec fn leq(a: (A::V, B::V), b: (A::V, B::V)) -> bool {
        pair_leq::<A, B>(a, b)
    }

    proof fn leq_total_order(a: (A::V, B::V), b: (A::V, B::V), c: (A::V, B::V)) {
        A::leq_total_order(a.0, b.0, c.0);
        A::leq_total_order(b.0, c.0, a.0);
        A::leq_total_order(c.0, a.0, b.0);
        B::leq_total_order(a.1, b.1, c.1);
    }

    fn is_leq(&self, other: &Self) -> (r: bool) {
        let below = self.0.is_leq(&other.0);
        let above = other.0.is_leq(&self.0);
        proof {
            A::leq_total_order(self.0@, other.0@, self.0@);
        }
        if below && above {
            self.1.is_leq(&other.1)
        } else {
            below
        }
    }
}

proof fn lemma_views_push<T: View>(s: Seq<T>, x: T)
    ensures
        views(s.push(x)) == views(s).push(x@),
        views(s.push(x)).to_multiset() == views(s).to_multiset().insert(x@),
        forall|i: int|
            0 <= i < s.len() ==> #[trigger] views(s.push(x))[i] == views(s)[i],
        views(s.push(x))[s.len() as int] == x@,
        views(s.push(x)).to_set() == views(s).to_set().insert(x@),
{
    broadcast use vstd::seq_lib::group_to_multiset_ensures;

    assert(views(s.push(x)) =~= views(s).push(x@));
    assert forall|y: T::V| views(s).contains(y) || y == x@ implies views(s.push(x)).contains(y) by {
        if y == x@ {
            assert(views(s.push(x))[s.len() as int] == y);
        } else {
            let k = choose|k: int| 0 <= k < views(s).len() && views(s)[k] == y;
            assert(views(s.push(x))[k] == y);
        }
    }
    assert forall|y: T::V| views(s.push(x)).contains(y) implies views(s).contains(y) || y == x@ by {
        let k = choose|k: int| 0 <= k < views(s.push(x)).len() && views(s.push(x))[k] == y;
        if k < s.len() {
            assert(views(s)[k] == y);
        }
    }
    assert forall|y: T::V| #[trigger] views(s.push(x)).to_set().contains(y) == views(
        s,
    ).to_set().insert(x@).contains(y) by {
        assert(views(s.push(x)).to_set().contains(y) == views(s.push(x)).contains(y));
        assert(views(s).to_set().contains(y) == views(s).contains(y));
    }
    assert(views(s.push(x)).to_set() =~= views(s).to_set().insert(x@));
}

proof fn lemma_views_last<T: View>(s: Seq<T>)
    requires
        s.len() > 0,
    ensures
        views(s) == views(s.drop_last()).push(s.last()@),
        views(s).to_set() == views(s.drop_last()).to_set().insert(s.last()@),
        views(s).to_multiset() == views(s.drop_last()).to_multiset().insert(s.last()@),
        forall|i: int|
            0 <= i < s.len() - 1 ==> #[trigger] views(s.drop_last())[i] == views(s)[i],
{
    lemma_views_push(s.drop_last(), s.last());
    assert(s.drop_last().push(s.last()) =~= s);
}

/// Reverses a vector.
pub fn reverse<T: View>(v: Vec<T>) -> (r: Vec<T>)
    ensures
        r@ == v@.reverse(),
        views(r@).to_multiset() == views(v@).to_multiset(),
{
    let ghost whole = v@;
    let mut v = v;
    let mut r: Vec<T> = Vec::new();
    proof {
        assert(views(r@) =~= Seq::<T::V>::empty());
        assert(views(r@).to_multiset() =~= Multiset::empty()) by {
            broadcast use vstd::seq_lib::group_to_multiset_ensures;
        };
        assert(views(v@).to_multiset().add(views(r@).to_multiset()) =~= views(whole).to_multiset());
    }
    while v.len() > 0
        invariant
            v@ == whole.take(v@.len() as int),
            v@.len() + r@.len() == whole.len(),
            forall|i: int| 0 <= i < r@.len() ==> r@[i] == whole[whole.len() - 1 - i],
            views(v@).to_multiset().add(views(r@).to_multiset()) == views(whole).to_multiset(),
        decreases v.len(),
    {
        proof {
            lemma_views_last(v@);
            lemma_views_push(r@, v@.last());
        }
        let ghost before = v@;
        let ghost out = r@;
        let x = v.pop().unwrap();
        r.push(x);
        proof {
            assert(v@ =~= before.drop_last());
            assert(v@ =~= whole.take(v@.len() as int));
            assert(views(v@).to_multiset().add(views(r@).to_multiset()) =~= views(
                before,
            ).to_multiset().add(views(out).to_multiset()));
        }
    }
    proof {
        assert(views(v@) =~= Seq::<T::V>::empty());
        assert(views(v@).to_multiset() =~= Multiset::empty()) by {
            broadcast use vstd::seq_lib::group_to_multiset_ensures;
        };
        assert(views(r@).to_multiset() =~= views(whole).to_multiset());
        assert(r@ =~= whole.reverse());
    }
    r
}

/// Merges two sorted vectors into one.
fn merge<T: Ordered>(a: Vec<T>, b: Vec<T>) -> (r: Vec<T>)
    requires
        sorted::<T>(views(a@)),
        sorted::<T>(views(b@)),
    ensures
        sorted::<T>(views(r@)),
        views(r@).to_multiset() == views(a@).to_multiset().add(views(b@).to_multiset()),
{
    let ghost whole = views(a@).to_multiset().add(views(b@).to_multiset());
    let mut a = a;
    let mut b = b;
    let mut out: Vec<T> = Vec::new();
    proof {
        assert(views(out@) =~= Seq::<T::V>::empty());
        assert(views(out@).to_multiset() =~= Multiset::empty()) by {
            broadcast use vstd::seq_lib::group_to_multiset_ensures;
        };
        assert(views(a@).to_multiset().add(views(b@).to_multiset()).add(views(out@).to_multiset())
            =~= whole);
    }
    while a.len() > 0 || b.len() > 0
        invariant
            sorted::<T>(views(a@)),
            sorted::<T>(views(b@)),
            descending::<T>(views(out@)),
            all_leq::<T>(views(a@), views(out@)),
            all_leq::<T>(views(b@), views(out@)),
            views(a@).to_multiset().add(views(b@).to_multiset()).add(views(out@).to_multiset())
                == whole,
        decreases a.len() + b.len(),
    {
        let ghost a0 = a@;
        let ghost b0 = b@;
        let ghost out0 = out@;
        let from_b = if a.len() == 0 {
            true
        } else if b.len() == 0 {
            false
        } else {
            a[a.len() - 1].is_leq(&b[b.len() - 1])
        };
        if from_b {
            proof {
                lemma_views_last(b@);
                lemma_views_push(out@, b@.last());
                let y = b@.last()@;
                assert(views(b@)[b@.len() - 1] == y);
                assert forall|i: int| 0 <= i < views(a@).len() implies T::leq(
                    #[trigger] views(a@)[i],
                    y,
                ) by {
                    let last = views(a@)[a@.len() - 1];
                    T::leq_total_order(views(a@)[i], last, y);
                }
                assert forall|i: int| 0 <= i < views(b@).len() implies T::leq(
                    #[trigger] views(b@)[i],
                    y,
                ) by {
                    T::leq_total_order(y, y, y);
                }
            }
            let x = b.pop().unwrap();
            out.push(x);
            proof {
                assert(b@ =~= b0.drop_last());
                assert(views(b0)[b0.len() - 1] == x@);
                assert forall|i: int| 0 <= i < out0.len() implies T::leq(x@, #[trigger] views(out0)[i]) by {
                    assert(T::leq(views(b0)[b0.len() - 1], views(out0)[i]));
                }
                assert(views(a@).to_multiset().add(views(b@).to_multiset()).add(
                    views(out@).to_multiset(),
                ) =~= views(a0).to_multiset().add(views(b0).to_multiset()).add(
                    views(out0).to_multiset(),
                ));
            }
        } else {
            proof {
                lemma_views_last(a@);
                lemma_views_push(out@, a@.last());
                let y = a@.last()@;
                assert(views(a@)[a@.len() - 1] == y);
                if b@.len() > 0 {
                    T::leq_total_order(views(b@).last(), y, y);
                }
                assert forall|i: int| 0 <= i < views(b@).len() implies T::leq(
                    #[trigger] views(b@)[i],
                    y,
                ) by {
                    let last = views(b@)[b@.len() - 1];
                    T::leq_total_order(views(b@)[i], last, y);
                }
                assert forall|i: int| 0 <= i < views(a@).len() implies T::leq(
                    #[trigger] views(a@)[i],
                    y,
                ) by {
                    T::leq_total_order(y, y, y);
                }
            }
            let x = a.pop().unwrap();
            out.push(x);
            proof {
                assert(a@ =~= a0.drop_last());
                assert(views(a0)[a0.len() - 1] == x@);
                assert forall|i: int| 0 <= i < out0.len() implies T::leq(x@, #[trigger] views(out0)[i]) by {
                    assert(T::leq(views(a0)[a0.len() - 1], views(out0)[i]));
                }
                assert(views(a@).to_multiset().add(views(b@).to_multiset()).add(
                    views(out@).to_multiset(),
                ) =~= views(a0).to_multiset().add(views(b0).to_multiset()).add(
                    views(out0).to_multiset(),
                ));
            }
        }
    }
    proof {
        assert(views(a@) =~= Seq::<T::V>::empty());
        assert(views(b@) =~= Seq::<T::V>::empty());
        assert(Seq::<T::V>::empty().to_multiset() =~= Multiset::empty()) by {
            broadcast use vstd::seq_lib::group_to_multiset_ensures;
        };
        assert(views(out@).to_multiset() =~= whole);
    }
    let ghost down = out@;
    let r = reverse(out);
    proof {
        assert forall|i: int, j: int| 0 <= i < j < views(r@).len() implies T::leq(
            #[trigger] views(r@)[i],
            #[trigger] views(r@)[j],
        ) by {
            assert(views(r@)[i] == views(down)[down.len() - 1 - i]);
            assert(views(r@)[j] == views(down)[down.len() - 1 - j]);
        }
    }
    r
}

/// Sorts a vector.
pub fn sort<T: Ordered>(v: Vec<T>) -> (r: Vec<T>)
    ensures
        sorted::<T>(views(r@)),
        views(r@).to_multiset() == views(v@).to_multiset(),
    decreases v.len(),
{
    if v.len() <= 1 {
        return v;
    }
    let ghost whole = v@;
    let mut low = v;
    let half: usize = low.len() / 2;
    let high = low.split_off(half);
    proof {
        assert(whole =~= low@ + high@);
        assert(views(whole) =~= views(low@) + views(high@));
        vstd::seq_lib::lemma_multiset_commutative(views(low@), views(high@));
    }
    let low = sort(low);
    let high = sort(high);
    merge(low, high)
}

/// Two sorted sequences with the same elements, each as often, are one.
pub proof fn lemma_sorted_unique<T: Ordered>(a: Seq<T::V>, b: Seq<T::V>)
    requires
        sorted::<T>(a),
        sorted::<T>(b),
        a.to_multiset() == b.to_multiset(),
    ensures
        a == b,
    decreases a.len(),
{
    broadcast use vstd::seq_lib::group_to_multiset_ensures;

    assert(a.len() == a.to_multiset().len());
    assert(b.len() == b.to_multiset().len());
    if a.len() == 0 {
        assert(a =~= b);
    } else {
        assert(b.to_multiset().contains(a.last())) by {
            assert(a.to_multiset().count(a.last()) > 0) by {
                assert(a.contains(a.last()));
            }
        }
        assert(a.to_multiset().contains(b.last())) by {
            assert(b.to_multiset().count(b.last()) > 0) by {
                assert(b.contains(b.last()));
            }
        }
        let i = choose|i: int| 0 <= i < b.len() && b[i] == a.last();
        let j = choose|j: int| 0 <= j < a.len() && a[j] == b.last();
        T::leq_total_order(a.last(), b.last(), a.last());
        assert(T::leq(a.last(), b.last()));
        assert(T::leq(b.last(), a.last()));
        assert(a.drop_last().push(a.last()) =~= a);
        assert(b.drop_last().push(b.last()) =~= b);
        assert(a.drop_last().to_multiset() =~= a.to_multiset().remove(a.last()));
        assert(b.drop_last().to_multiset() =~= b.to_multiset().remove(b.last()));
        lemma_sorted_unique::<T>(a.drop_last(), b.drop_last());
    }
}

/// Removes the repetitions from a sorted vector.
pub fn dedup<T: Ordered>(v: Vec<T>) -> (r: Vec<T>)
    requires
        sorted::<T>(views(v@)),
    ensures
        ascending::<T>(views(r@)),
        views(r@).to_set() == views(v@).to_set(),
{
    let ghost whole = v@;
    let mut v = v;
    let mut out: Vec<T> = Vec::new();
    proof {
        assert(views(out@) =~= Seq::<T::V>::empty());
        assert(views(v@).to_set().union(views(out@).to_set()) =~= views(whole).to_set());
    }
    while v.len() > 0
        invariant
            v@ == whole.take(v@.len() as int),
            v@.len() <= whole.len(),
            sorted::<T>(views(whole)),
            descending::<T>(views(out@)),
            forall|i: int, j: int|
                0 <= i < j < out@.len() ==> #[trigger] views(out@)[i] != #[trigger] views(out@)[j],
            all_leq::<T>(views(v@), views(out@)),
            views(v@).to_set().union(views(out@).to_set()) == views(whole).to_set(),
        decreases v.len(),
    {
        let ghost v0 = v@;
        let ghost out0 = out@;
        proof {
            lemma_views_last(v@);
            lemma_views_push(out@, v@.last());
        }
        let x = v.pop().unwrap();
        let fresh = out.len() == 0 || !out[out.len() - 1].is_leq(&x);
        proof {
            assert(v@ =~= v0.drop_last());
            assert(v@ =~= whole.take(v@.len() as int));
            assert(views(v0)[v0.len() - 1] == x@);
            assert forall|i: int| 0 <= i < v@.len() implies T::leq(#[trigger] views(v@)[i], x@) by {
                assert(views(v@)[i] == views(whole)[i]);
                assert(views(whole)[v0.len() - 1] == x@);
            }
            assert forall|i: int| 0 <= i < out0.len() implies T::leq(x@, #[trigger] views(out0)[i]) by {
                assert(T::leq(views(v0)[v0.len() - 1], views(out0)[i]));
            }
            if out0.len() > 0 {
                T::leq_total_order(views(out0).last(), x@, x@);
                assert(T::leq(x@, views(out0)[out0.len() - 1]));
            }
        }
        if fresh {
            out.push(x);
            proof {
                assert forall|i: int| 0 <= i < out0.len() implies #[trigger] views(out0)[i]
                    != x@ by {
                    T::leq_total_order(views(out0)[i], views(out0).last(), x@);
                    T::leq_total_order(x@, x@, x@);
                    if views(out0)[i] == x@ {
                        assert(T::leq(views(out0).last(), views(out0)[i]));
                    }
                }
            }
        } else {
            proof {
                assert(x@ == views(out0).last());
                assert(views(out0).contains(x@)) by {
                    assert(views(out0)[out0.len() - 1] == x@);
                }
            }
        }
        proof {
            assert(views(v@).to_set().union(views(out@).to_set()) =~= views(v0).to_set().union(
                views(out0).to_set(),
            ));
        }
    }
    proof {
        assert(views(v@) =~= Seq::<T::V>::empty());
        assert(views(out@).to_set() =~= views(whole).to_set());
    }
    let ghost down = out@;
    let r = reverse(out);
    proof {
        assert forall|i: int, j: int| 0 <= i < j < views(r@).len() implies T::leq(
            #[trigger] views(r@)[i],
            #[trigger] views(r@)[j],
        ) && views(r@)[i] != views(r@)[j] by {
            assert(views(r@)[i] == views(down)[down.len() - 1 - i]);
            assert(views(r@)[j] == views(down)[down.len() - 1 - j]);
        }
        assert(views(r@).to_set() =~= views(down).to_set()) by {
            assert forall|y: T::V| views(r@).contains(y) implies views(down).contains(y) by {
                let k = choose|k: int| 0 <= k < views(r@).len() && views(r@)[k] == y;
                assert(views(down)[down.len() - 1 - k] == y);
            }
            assert forall|y: T::V| views(down).contains(y) implies views(r@).contains(y) by {
                let k = choose|k: int| 0 <= k < views(down).len() && views(down)[k] == y;
                assert(views(r@)[down.len() - 1 - k] == y);
            }
        }
    }
    r
}

/// Sorts a vector and removes its repetitions.
pub fn sort_dedup<T: Ordered>(v: Vec<T>) -> (r: Vec<T>)
    ensures
        ascending::<T>(views(r@)),
        views(r@).to_set() == views(v@).to_set(),
{
    let ghost whole = views(v@);
    let sorted_v = sort(v);
    proof {
        lemma_same_multiset_same_set(views(sorted_v@), whole);
    }
    dedup(sorted_v)
}

/// Sequences with the same elements, each as often, have the same elements.
pub proof fn lemma_same_multiset_same_set<A>(a: Seq<A>, b: Seq<A>)
    requires
        a.to_multiset() == b.to_multiset(),
    ensures
        a.to_set() == b.to_set(),
        forall|y: A| #![trigger a.contains(y)] #![trigger b.contains(y)] a.contains(y) == b.contains(y),
{
    broadcast use vstd::seq_lib::group_to_multiset_ensures;

    assert forall|y: A| a.contains(y) == b.contains(y) by {
        assert(a.contains(y) == (a.to_multiset().count(y) > 0));
        assert(b.contains(y) == (b.to_multiset().count(y) > 0));
    }
    assert(a.to_set() =~= b.to_set());
}

} // verus!
