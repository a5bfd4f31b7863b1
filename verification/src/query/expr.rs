//! Expressions of the query language, and the order that normal forms use.
use crate::ordered::{views, Ordered};
use vstd::prelude::*;

verus! {

/// An expression, used directly as a state of the search by derivatives.
#[derive(Debug, PartialEq, Eq, PartialOrd, Ord, Hash)]
pub enum Expr {
    /// Matches nothing.
    Empty,
    /// Matches the empty string.
    Epsilon,
    /// One character of the class with this number.
    Class(u32),
    /// One character of a class, equal to every other one of its group.
    Capture { class: u32, group: u32 },
    Concat(Vec<Expr>),
    Alt(Vec<Expr>),
    Intersect(Vec<Expr>),
    Star(Box<Expr>),
    /// The parts in any order, each used exactly once.
    Anagram(Vec<Expr>),
}

/// The mathematical content of an [`Expr`].
pub enum Re {
    Empty,
    Epsilon,
    Class(u32),
    Capture { class: u32, group: u32 },
    Concat(Seq<Re>),
    Alt(Seq<Re>),
    Intersect(Seq<Re>),
    Star(Box<Re>),
    Anagram(Seq<Re>),
}

/// The content of a list of expressions, each within the list.
pub open spec fn re_of(e: Expr) -> Re
    decreases e,
{
    match e {
        Expr::Empty => Re::Empty,
        Expr::Epsilon => Re::Epsilon,
        Expr::Class(id) => Re::Class(id),
        Expr::Capture { class, group } => Re::Capture { class, group },
        Expr::Concat(v) => Re::Concat(
            Seq::new(
                v@.len(),
                |i: int|
                    if 0 <= i < v@.len() {
                        re_of(v@[i])
                    } else {
                        Re::Empty
                    },
            ),
        ),
        Expr::Alt(v) => Re::Alt(
            Seq::new(
                v@.len(),
                |i: int|
                    if 0 <= i < v@.len() {
                        re_of(v@[i])
                    } else {
                        Re::Empty
                    },
            ),
        ),
        Expr::Intersect(v) => Re::Intersect(
            Seq::new(
                v@.len(),
                |i: int|
                    if 0 <= i < v@.len() {
                        re_of(v@[i])
                    } else {
                        Re::Empty
                    },
            ),
        ),
        Expr::Star(inner) => Re::Star(Box::new(re_of(*inner))),
        Expr::Anagram(v) => Re::Anagram(
            Seq::new(
                v@.len(),
                |i: int|
                    if 0 <= i < v@.len() {
                        re_of(v@[i])
                    } else {
                        Re::Empty
                    },
            ),
        ),
    }
}

impl View for Expr {
    type V = Re;

    open spec fn view(&self) -> Re {
        re_of(*self)
    }
}

pub broadcast proof fn lemma_view_concat(v: Vec<Expr>)
    ensures
        #[trigger] re_of(Expr::Concat(v)) == Re::Concat(views(v@)),
{
    assert(re_of(Expr::Concat(v))->Concat_0 =~= views(v@));
}

pub broadcast proof fn lemma_view_alt(v: Vec<Expr>)
    ensures
        #[trigger] re_of(Expr::Alt(v)) == Re::Alt(views(v@)),
{
    assert(re_of(Expr::Alt(v))->Alt_0 =~= views(v@));
}

pub broadcast proof fn lemma_view_intersect(v: Vec<Expr>)
    ensures
        #[trigger] re_of(Expr::Intersect(v)) == Re::Intersect(views(v@)),
{
    assert(re_of(Expr::Intersect(v))->Intersect_0 =~= views(v@));
}

pub broadcast proof fn lemma_view_anagram(v: Vec<Expr>)
    ensures
        #[trigger] re_of(Expr::Anagram(v)) == Re::Anagram(views(v@)),
{
    assert(re_of(Expr::Anagram(v))->Anagram_0 =~= views(v@));
}

/// The content of an expression with a list of parts is the list of their
/// contents.
pub broadcast group lemma_view_parts {
    lemma_view_concat,
    lemma_view_alt,
    lemma_view_intersect,
    lemma_view_anagram,
}

/// The place of an expression's kind in the order.
pub open spec fn kind(a: Re) -> int {
    match a {
        Re::Empty => 0,
        Re::Epsilon => 1,
        Re::Class(_) => 2,
        Re::Capture { .. } => 3,
        Re::Concat(_) => 4,
        Re::Alt(_) => 5,
        Re::Intersect(_) => 6,
        Re::Star(_) => 7,
        Re::Anagram(_) => 8,
    }
}

/// The parts of an expression, none where it is made of none.
pub open spec fn parts_of(a: Re) -> Seq<Re> {
    match a {
        Re::Concat(s) | Re::Alt(s) | Re::Intersect(s) | Re::Anagram(s) => s,
        Re::Star(inner) => seq![*inner],
        _ => Seq::empty(),
    }
}

/// The numbers of an expression that holds some.
pub open spec fn numbers_of(a: Re) -> (int, int) {
    match a {
        Re::Class(id) => (id as int, 0),
        Re::Capture { class, group } => (class as int, group as int),
        _ => (0, 0),
    }
}

/// Expressions by kind, then by their numbers, then by the first part in which
/// they differ, the shorter list first.
pub open spec fn re_leq(a: Re, b: Re) -> bool
    decreases a,
{
    if kind(a) != kind(b) {
        kind(a) < kind(b)
    } else if numbers_of(a) != numbers_of(b) {
        numbers_of(a).0 < numbers_of(b).0 || (numbers_of(a).0 == numbers_of(b).0 && numbers_of(a).1
            < numbers_of(b).1)
    } else {
        let s = parts_of(a);
        let t = parts_of(b);
        ||| s.len() <= t.len() && s == t.take(s.len() as int)
        ||| exists|i: int|
            0 <= i < s.len() && i < t.len() && #[trigger] s.take(i) == t.take(i) && s[i] != t[i]
                && re_leq(s[i], t[i])
    }
}

/// An expression is its kind, numbers and parts.
proof fn lemma_re_ext(a: Re, b: Re)
    requires
        kind(a) == kind(b),
        numbers_of(a) == numbers_of(b),
        parts_of(a) == parts_of(b),
    ensures
        a == b,
{
    match a {
        Re::Star(x) => {
            assert(seq![*x][0] == *x);
            match b {
                Re::Star(y) => {
                    assert(seq![*y][0] == *y);
                },
                _ => {},
            }
        },
        _ => {},
    }
}

proof fn lemma_part_smaller(a: Re, i: int)
    requires
        0 <= i < parts_of(a).len(),
    ensures
        decreases_to!(a => parts_of(a)[i]),
{
}

/// Where two lists first differ.
pub open spec fn first_diff(s: Seq<Re>, t: Seq<Re>) -> int
    decreases s.len(),
{
    if s.len() == 0 || t.len() == 0 || s[0] != t[0] {
        0
    } else {
        1 + first_diff(s.skip(1), t.skip(1))
    }
}

proof fn lemma_first_diff(s: Seq<Re>, t: Seq<Re>)
    ensures
        0 <= first_diff(s, t) <= s.len(),
        first_diff(s, t) <= t.len(),
        s.take(first_diff(s, t)) == t.take(first_diff(s, t)),
        first_diff(s, t) < s.len() && first_diff(s, t) < t.len() ==> s[first_diff(s, t)]
            != t[first_diff(s, t)],
    decreases s.len(),
{
    if s.len() == 0 || t.len() == 0 || s[0] != t[0] {
        assert(s.take(0) =~= t.take(0));
    } else {
        lemma_first_diff(s.skip(1), t.skip(1));
        let d = first_diff(s.skip(1), t.skip(1));
        assert forall|i: int| 0 <= i < d + 1 implies s[i] == t[i] by {
            if i > 0 {
                assert(s.skip(1).take(d)[i - 1] == s[i]);
                assert(t.skip(1).take(d)[i - 1] == t[i]);
            }
        }
        assert(s.take(d + 1) =~= t.take(d + 1));
    }
}

/// Two lists that agree before `i` and differ there first differ there.
proof fn lemma_first_diff_at(s: Seq<Re>, t: Seq<Re>, i: int)
    requires
        0 <= i <= s.len(),
        i <= t.len(),
        s.take(i) == t.take(i),
        i == s.len() || i == t.len() || s[i] != t[i],
    ensures
        first_diff(s, t) == i,
{
    lemma_first_diff(s, t);
    let d = first_diff(s, t);
    if d < i {
        assert(s.take(i)[d] == s[d]);
        assert(t.take(i)[d] == t[d]);
    } else if i < d {
        assert(s.take(d)[i] == s[i]);
        assert(t.take(d)[i] == t[i]);
    }
}

/// The order of expressions of one kind and numbers, by the first difference.
proof fn lemma_re_leq_parts(a: Re, b: Re)
    requires
        kind(a) == kind(b),
        numbers_of(a) == numbers_of(b),
    ensures
        ({
            let s = parts_of(a);
            let t = parts_of(b);
            let d = first_diff(s, t);
            re_leq(a, b) == (d == s.len() || (d < t.len() && re_leq(s[d], t[d])))
        }),
{
    let s = parts_of(a);
    let t = parts_of(b);
    let d = first_diff(s, t);
    lemma_first_diff(s, t);
    if s.len() <= t.len() && s == t.take(s.len() as int) {
        assert(s.take(s.len() as int) =~= s);
        lemma_first_diff_at(s, t, s.len() as int);
    }
    if d == s.len() {
        assert(s.take(d) =~= s);
    }
    if re_leq(a, b) && !(s.len() <= t.len() && s == t.take(s.len() as int)) {
        let i = choose|i: int|
            0 <= i < s.len() && i < t.len() && #[trigger] s.take(i) == t.take(i) && s[i] != t[i]
                && re_leq(s[i], t[i]);
        lemma_first_diff_at(s, t, i);
    }
}

/// The order of expressions is total.
pub proof fn lemma_re_total_order(a: Re, b: Re, c: Re)
    ensures
        re_leq(a, a),
        re_leq(a, b) || re_leq(b, a),
        re_leq(a, b) && re_leq(b, a) ==> a == b,
        re_leq(a, b) && re_leq(b, c) ==> re_leq(a, c),
    decreases a,
{
    let s = parts_of(a);
    let t = parts_of(b);
    let u = parts_of(c);
    let st = first_diff(s, t);
    let ts = first_diff(t, s);
    let tu = first_diff(t, u);
    let su = first_diff(s, u);
    assert(s.take(s.len() as int) =~= s);
    lemma_first_diff(s, t);
    lemma_first_diff(t, s);
    lemma_first_diff(t, u);
    lemma_first_diff(s, u);
    lemma_first_diff_at(t, s, st);
    if kind(a) == kind(b) && numbers_of(a) == numbers_of(b) {
        lemma_re_leq_parts(a, b);
        lemma_re_leq_parts(b, a);
        if st < s.len() && st < t.len() {
            lemma_part_smaller(a, st);
            lemma_re_total_order(s[st], t[st], t[st]);
        } else if st == s.len() && st == t.len() {
            assert(s.take(st) =~= s);
            assert(t.take(st) =~= t);
            lemma_re_ext(a, b);
        }
        if kind(b) == kind(c) && numbers_of(b) == numbers_of(c) && re_leq(a, b) && re_leq(b, c) {
            lemma_re_leq_parts(b, c);
            lemma_re_leq_parts(a, c);
            let low = if st < tu { st } else { tu };
            assert(s.take(low) =~= s.take(st).take(low));
            assert(t.take(low) =~= t.take(st).take(low));
            assert(t.take(low) =~= t.take(tu).take(low));
            assert(u.take(low) =~= u.take(tu).take(low));
            if st == s.len() {
                // s is a prefix of t
                if tu >= st {
                    lemma_first_diff_at(s, u, st);
                } else {
                    assert(tu < s.len() && tu < t.len());
                    assert(t.take(st)[tu] == t[tu]);
                    assert(s.take(st)[tu] == s[tu]);
                    lemma_first_diff_at(s, u, tu);
                }
            } else {
                assert(st < t.len());
                if tu < st {
                    assert(t.take(st)[tu] == t[tu]);
                    assert(s.take(st)[tu] == s[tu]);
                    lemma_first_diff_at(s, u, tu);
                } else if tu > st {
                    assert(t.take(tu)[st] == t[st]);
                    assert(u.take(tu)[st] == u[st]);
                    lemma_first_diff_at(s, u, st);
                } else {
                    assert(st < u.len());
                    lemma_part_smaller(a, st);
                    lemma_re_total_order(s[st], t[st], u[st]);
                    if s[st] == u[st] {
                        lemma_re_total_order(s[st], t[st], s[st]);
                    }
                    lemma_first_diff_at(s, u, st);
                }
            }
        }
    }
}

impl Ordered for Expr {
    open spec fn leq(a: Re, b: Re) -> bool {
        re_leq(a, b)
    }

    proof fn leq_total_order(a: Re, b: Re, c: Re) {
        lemma_re_total_order(a, b, c);
    }

    fn is_leq(&self, other: &Self) -> (r: bool) {
        proof {
            lemma_re_total_order(self@, other@, self@);
        }
        match place(self, other) {
            Place::After => false,
            _ => true,
        }
    }
}

/// Where one expression stands to another.
#[derive(Clone, Copy, Debug, PartialEq, Eq, Structural)]
pub enum Place {
    Before,
    Same,
    After,
}

/// Where `a` stands to `b` in the order.
pub open spec fn placed(a: Re, b: Re) -> Place {
    if a == b {
        Place::Same
    } else if re_leq(a, b) {
        Place::Before
    } else {
        Place::After
    }
}

/// The place of two numbers.
fn place_number(a: u32, b: u32) -> (r: Place)
    ensures
        r == (if a == b {
            Place::Same
        } else if a < b {
            Place::Before
        } else {
            Place::After
        }),
{
    if a == b {
        Place::Same
    } else if a < b {
        Place::Before
    } else {
        Place::After
    }
}

fn kind_number(a: &Expr) -> (r: u32)
    ensures
        r == kind(a@),
{
    match a {
        Expr::Empty => 0,
        Expr::Epsilon => 1,
        Expr::Class(_) => 2,
        Expr::Capture { .. } => 3,
        Expr::Concat(_) => 4,
        Expr::Alt(_) => 5,
        Expr::Intersect(_) => 6,
        Expr::Star(_) => 7,
        Expr::Anagram(_) => 8,
    }
}

/// Compares two expressions.
pub fn place(a: &Expr, b: &Expr) -> (r: Place)
    ensures
        r == placed(a@, b@),
    decreases a,
{
    broadcast use lemma_view_parts;

    let ka: u32 = kind_number(a);
    let kb: u32 = kind_number(b);
    if ka != kb {
        return place_number(ka, kb);
    }
    match (a, b) {
        (Expr::Class(m), Expr::Class(n)) => {
            proof {
                if *m == *n {
                    assert(a@ == b@);
                }
            }
            place_number(*m, *n)
        },
        (Expr::Capture { class: c, group: g }, Expr::Capture { class: d, group: h }) => {
            if *c == *d {
                place_number(*g, *h)
            } else {
                place_number(*c, *d)
            }
        },
        (Expr::Concat(v), Expr::Concat(w)) => place_lists(a, b, v, w),
        (Expr::Alt(v), Expr::Alt(w)) => place_lists(a, b, v, w),
        (Expr::Intersect(v), Expr::Intersect(w)) => place_lists(a, b, v, w),
        (Expr::Star(x), Expr::Star(y)) => {
            let r = place(x, y);
            proof {
                lemma_re_leq_parts(a@, b@);
                let s = seq![x@];
                let t = seq![y@];
                assert(parts_of(a@) == s);
                assert(parts_of(b@) == t);
                assert(s[0] == x@ && t[0] == y@);
                assert(s.take(0) =~= t.take(0));
                if x@ != y@ {
                    lemma_first_diff_at(s, t, 0);
                    assert(a@ != b@) by {
                        if a@ == b@ {
                            assert(s == t);
                        }
                    }
                } else {
                    lemma_re_ext(a@, b@);
                }
            }
            r
        },
        (Expr::Anagram(v), Expr::Anagram(w)) => place_lists(a, b, v, w),
        _ => Place::Same,
    }
}

/// Compares two expressions of one kind by their lists of parts.
fn place_lists(a: &Expr, b: &Expr, v: &Vec<Expr>, w: &Vec<Expr>) -> (r: Place)
    requires
        kind(a@) == kind(b@),
        numbers_of(a@) == numbers_of(b@),
        parts_of(a@) == views(v@),
        parts_of(b@) == views(w@),
        forall|i: int| 0 <= i < v@.len() ==> decreases_to!(a => #[trigger] v@[i]),
    ensures
        r == placed(a@, b@),
    decreases a, 0nat,
{
    let ghost s = views(v@);
    let ghost t = views(w@);
    let mut i: usize = 0;
    while i < v.len() && i < w.len()
        invariant
            i <= v.len(),
            i <= w.len(),
            s == views(v@),
            t == views(w@),
            forall|k: int| 0 <= k < i ==> s[k] == t[k],
            kind(a@) == kind(b@),
            numbers_of(a@) == numbers_of(b@),
            parts_of(a@) == s,
            parts_of(b@) == t,
            forall|i: int| 0 <= i < v@.len() ==> decreases_to!(a => #[trigger] v@[i]),
        decreases v.len() - i,
    {
        let step = place(&v[i], &w[i]);
        if step != Place::Same {
            proof {
                lemma_re_leq_parts(a@, b@);
                assert(s.take(i as int) =~= t.take(i as int));
                assert(s[i as int] != t[i as int]);
                lemma_first_diff_at(s, t, i as int);
                assert(a@ != b@) by {
                    if a@ == b@ {
                        assert(s == t);
                    }
                }
            }
            return step;
        }
        assert(s[i as int] == t[i as int]);
        i += 1;
    }
    proof {
        lemma_re_leq_parts(a@, b@);
        assert(s.take(i as int) =~= t.take(i as int));
        lemma_first_diff_at(s, t, i as int);
        if v@.len() == w@.len() {
            assert(s =~= t);
            lemma_re_ext(a@, b@);
        } else {
            assert(s.len() != t.len());
            assert(a@ != b@);
        }
    }
    if v.len() == w.len() {
        Place::Same
    } else if v.len() < w.len() {
        Place::Before
    } else {
        Place::After
    }
}

impl Clone for Expr {
    fn clone(&self) -> (r: Self)
        ensures
            r@ == self@,
    {
        self.duplicate()
    }
}

impl Expr {
    /// A copy of the expression.
    pub fn duplicate(&self) -> (r: Self)
        ensures
            r@ == self@,
        decreases self,
    {
        broadcast use lemma_view_parts;

        match self {
            Expr::Empty => Expr::Empty,
            Expr::Epsilon => Expr::Epsilon,
            Expr::Class(id) => Expr::Class(*id),
            Expr::Capture { class, group } => Expr::Capture { class: *class, group: *group },
            Expr::Concat(v) => {
                let copy = duplicate_all(v, 0);
                assert(views(copy@) =~= views(v@));
                Expr::Concat(copy)
            },
            Expr::Alt(v) => {
                let copy = duplicate_all(v, 0);
                assert(views(copy@) =~= views(v@));
                Expr::Alt(copy)
            },
            Expr::Intersect(v) => {
                let copy = duplicate_all(v, 0);
                assert(views(copy@) =~= views(v@));
                Expr::Intersect(copy)
            },
            Expr::Star(inner) => Expr::Star(Box::new(inner.duplicate())),
            Expr::Anagram(v) => {
                let copy = duplicate_all(v, 0);
                assert(views(copy@) =~= views(v@));
                Expr::Anagram(copy)
            },
        }
    }

    /// Whether two expressions are written the same.
    pub fn same(&self, other: &Self) -> (r: bool)
        ensures
            r == (self@ == other@),
    {
        match place(self, other) {
            Place::Same => true,
            _ => false,
        }
    }
}

/// A copy of the expressions of a list, from position `start` on.
pub fn duplicate_all(v: &Vec<Expr>, start: usize) -> (r: Vec<Expr>)
    requires
        start <= v@.len(),
    ensures
        views(r@) == views(v@).skip(start as int),
    decreases v, 0nat,
{
    let mut copy: Vec<Expr> = Vec::new();
    let mut i: usize = start;
    while i < v.len()
        invariant
            start <= i <= v.len(),
            views(copy@) == views(v@).subrange(start as int, i as int),
        decreases v.len() - i,
    {
        let one = v[i].duplicate();
        let ghost before = copy@;
        copy.push(one);
        proof {
            assert(views(copy@) =~= views(before).push(one@));
            assert(views(v@).subrange(start as int, i + 1) =~= views(v@).subrange(
                start as int,
                i as int,
            ).push(v@[i as int]@));
        }
        i += 1;
    }
    proof {
        assert(views(v@).subrange(start as int, i as int) =~= views(v@).skip(start as int));
    }
    copy
}

} // verus!
