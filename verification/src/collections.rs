//! Sets kept as sorted vectors, and maps from keys to sets of characters.
use crate::ordered::{ascending, sort_dedup, views, Ordered};
use vstd::prelude::*;

verus! {

/// A set, kept as an ascending vector.
pub struct OrderedSet<T: Ordered> {
    items: Vec<T>,
}

impl<T: Ordered> View for OrderedSet<T> {
    type V = Set<T::V>;

    closed spec fn view(&self) -> Set<T::V> {
        views(self.items@).to_set()
    }
}

/// Where a value stands, or would stand, in an ascending slice.
pub fn locate<T: Ordered>(items: &Vec<T>, wanted: &T) -> (r: (usize, bool))
    requires
        ascending::<T>(views(items@)),
    ensures
        r.0 <= items@.len(),
        r.1 ==> r.0 < items@.len() && items@[r.0 as int]@ == wanted@,
        !r.1 ==> {
            &&& forall|i: int|
                0 <= i < r.0 ==> T::leq(#[trigger] views(items@)[i], wanted@) && views(items@)[i]
                    != wanted@
            &&& forall|i: int|
                r.0 <= i < items@.len() ==> T::leq(wanted@, #[trigger] views(items@)[i]) && views(
                    items@,
                )[i] != wanted@
        },
        r.1 == views(items@).contains(wanted@),
{
    let ghost s = views(items@);
    let ghost w = wanted@;
    let mut low: usize = 0;
    let mut high: usize = items.len();
    while low < high
        invariant
            low <= high <= items@.len(),
            s == views(items@),
            w == wanted@,
            ascending::<T>(s),
            forall|i: int| 0 <= i < low ==> T::leq(#[trigger] s[i], w) && s[i] != w,
            forall|i: int| high <= i < s.len() ==> T::leq(w, #[trigger] s[i]) && s[i] != w,
        decreases high - low,
    {
        let mid: usize = low + (high - low) / 2;
        let below = items[mid].is_leq(wanted);
        let above = wanted.is_leq(&items[mid]);
        let ghost at = s[mid as int];
        assert(at == items@[mid as int]@);
        proof {
            T::leq_total_order(at, w, at);
        }
        if below && above {
            assert(s[mid as int] == w);
            return (mid, true);
        }
        if below {
            proof {
                assert forall|i: int| 0 <= i < mid + 1 implies T::leq(#[trigger] s[i], w) && s[i]
                    != w by {
                    if i < mid {
                        assert(T::leq(s[i], s[mid as int]));
                        T::leq_total_order(s[i], at, w);
                        T::leq_total_order(at, s[i], at);
                    } else {
                        T::leq_total_order(w, w, w);
                    }
                }
            }
            low = mid + 1;
        } else {
            proof {
                assert forall|i: int| mid <= i < s.len() implies T::leq(w, #[trigger] s[i]) && s[i]
                    != w by {
                    if i > mid {
                        assert(T::leq(s[mid as int], s[i]));
                        T::leq_total_order(w, at, s[i]);
                        T::leq_total_order(at, s[i], at);
                    } else {
                        T::leq_total_order(w, w, w);
                    }
                }
            }
            high = mid;
        }
    }
    proof {
        if s.contains(w) {
            let k = choose|k: int| 0 <= k < s.len() && s[k] == w;
            if k < low {
                assert(s[k] != w);
            }
        }
    }
    (low, false)
}

/// Inserting a value at its place keeps a sequence ascending.
pub proof fn lemma_insert_ascending<T: Ordered>(s: Seq<T::V>, at: int, x: T::V)
    requires
        ascending::<T>(s),
        0 <= at <= s.len(),
        forall|i: int| 0 <= i < at ==> T::leq(#[trigger] s[i], x) && s[i] != x,
        forall|i: int| at <= i < s.len() ==> T::leq(x, #[trigger] s[i]) && s[i] != x,
    ensures
        ascending::<T>(s.insert(at, x)),
        s.insert(at, x).to_set() == s.to_set().insert(x),
{
    let t = s.insert(at, x);
    assert forall|i: int, j: int| 0 <= i < j < t.len() implies T::leq(
        #[trigger] t[i],
        #[trigger] t[j],
    ) && t[i] != t[j] by {
        let a = if i < at { i } else { i - 1 };
        let b = if j < at { j } else { j - 1 };
        if i != at {
            assert(t[i] == s[a]);
        }
        if j != at {
            assert(t[j] == s[b]);
        }
    }
    assert forall|y: T::V| #[trigger] t.to_set().contains(y) == s.to_set().insert(x).contains(y) by {
        assert(t.to_set().contains(y) == t.contains(y));
        assert(s.to_set().contains(y) == s.contains(y));
        if t.contains(y) {
            let k = choose|k: int| 0 <= k < t.len() && t[k] == y;
            if k < at {
                assert(s[k] == y);
            } else if k > at {
                assert(s[k - 1] == y);
            }
        }
        if s.contains(y) {
            let k = choose|k: int| 0 <= k < s.len() && s[k] == y;
            let m = if k < at { k } else { k + 1 };
            assert(t[m] == y);
        }
        if y == x {
            assert(t[at] == y);
        }
    }
    assert(t.to_set() =~= s.to_set().insert(x));
}

impl<T: Ordered> OrderedSet<T> {
    /// The items ascend.
    pub closed spec fn wf(&self) -> bool {
        ascending::<T>(views(self.items@))
    }

    /// The items, in order.
    pub closed spec fn listed(&self) -> Seq<T> {
        self.items@
    }

    /// The list of the items ascends and is the set.
    pub proof fn lemma_listed(&self)
        requires
            self.wf(),
        ensures
            ascending::<T>(views(self.listed())),
            self@ == views(self.listed()).to_set(),
            self@.len() == self.listed().len(),
            self@.finite(),
            forall|x: T::V| #[trigger] self@.contains(x) == views(self.listed()).contains(x),
    {
        let s = views(self.items@);
        assert(s.no_duplicates());
        s.unique_seq_to_set();
        vstd::seq_lib::seq_to_set_is_finite(s);
        assert forall|x: T::V| #[trigger] self@.contains(x) == s.contains(x) by {
            assert(s.to_set().contains(x) == s.contains(x));
        }
    }

    /// The empty set.
    pub fn new() -> (r: Self)
        ensures
            r.wf(),
            r@ == Set::<T::V>::empty(),
    {
        let items: Vec<T> = Vec::new();
        proof {
            assert(views(items@).to_set() =~= Set::<T::V>::empty());
        }
        OrderedSet { items }
    }

    /// The set of the values of a vector.
    pub fn from_vec(v: Vec<T>) -> (r: Self)
        ensures
            r.wf(),
            r@ == views(v@).to_set(),
    {
        OrderedSet { items: sort_dedup(v) }
    }

    /// The number of values.
    pub fn len(&self) -> (r: usize)
        requires
            self.wf(),
        ensures
            r == self@.len(),
            r == self.listed().len(),
    {
        proof {
            self.lemma_listed();
        }
        self.items.len()
    }

    /// Whether the set holds no value.
    pub fn is_empty(&self) -> (r: bool)
        requires
            self.wf(),
        ensures
            r == (self@ == Set::<T::V>::empty()),
    {
        proof {
            self.lemma_listed();
            if self.items@.len() == 0 {
                assert(self@ =~= Set::<T::V>::empty());
            } else {
                assert(self@.contains(views(self.items@)[0]));
            }
        }
        self.items.len() == 0
    }

    /// Whether the set holds a value.
    pub fn contains(&self, wanted: &T) -> (r: bool)
        requires
            self.wf(),
        ensures
            r == self@.contains(wanted@),
    {
        proof {
            self.lemma_listed();
        }
        locate(&self.items, wanted).1
    }

    /// Adds a value.
    pub fn insert(&mut self, value: T)
        requires
            old(self).wf(),
        ensures
            final(self).wf(),
            final(self)@ == old(self)@.insert(value@),
    {
        proof {
            self.lemma_listed();
        }
        let (at, found) = locate(&self.items, &value);
        if !found {
            let ghost before = views(self.items@);
            let ghost x = value@;
            self.items.insert(at, value);
            proof {
                assert(views(self.items@) =~= before.insert(at as int, x));
                lemma_insert_ascending::<T>(before, at as int, x);
            }
        } else {
            proof {
                assert(self@.insert(value@) =~= self@);
            }
        }
    }

    /// Removes a value.
    pub fn remove(&mut self, value: &T)
        requires
            old(self).wf(),
        ensures
            final(self).wf(),
            final(self)@ == old(self)@.remove(value@),
    {
        proof {
            self.lemma_listed();
        }
        let (at, found) = locate(&self.items, value);
        if found {
            let ghost before = views(self.items@);
            let ghost x = value@;
            let dropped = self.items.remove(at);
            proof {
                let now = views(self.items@);
                assert(now =~= before.remove(at as int));
                assert forall|i: int, j: int| 0 <= i < j < now.len() implies T::leq(
                    #[trigger] now[i],
                    #[trigger] now[j],
                ) && now[i] != now[j] by {
                    let a = if i < at { i } else { i + 1 };
                    let b = if j < at { j } else { j + 1 };
                    assert(now[i] == before[a] && now[j] == before[b]);
                }
                assert forall|y: T::V| #[trigger]
                    now.to_set().contains(y) == before.to_set().remove(x).contains(y) by {
                    assert(now.to_set().contains(y) == now.contains(y));
                    assert(before.to_set().contains(y) == before.contains(y));
                    if now.contains(y) {
                        let k = choose|k: int| 0 <= k < now.len() && now[k] == y;
                        let m = if k < at { k } else { k + 1 };
                        assert(before[m] == y);
                        assert(before[m] != before[at as int]);
                    }
                    if before.contains(y) && y != x {
                        let k = choose|k: int| 0 <= k < before.len() && before[k] == y;
                        let m = if k < at { k } else { k - 1 };
                        assert(now[m] == y);
                    }
                }
                assert(now.to_set() =~= before.to_set().remove(x));
            }
        } else {
            proof {
                assert(self@.remove(value@) =~= self@);
            }
        }
    }

    /// The values, in order.
    pub fn as_slice(&self) -> (r: &[T])
        ensures
            r@ == self.listed(),
    {
        self.items.as_slice()
    }
}

impl OrderedSet<char> {
    /// A copy of the set.
    pub fn duplicate(&self) -> (r: Self)
        requires
            self.wf(),
        ensures
            r.wf(),
            r@ == self@,
            r.listed() == self.listed(),
    {
        let mut items: Vec<char> = Vec::new();
        items.extend_from_slice(self.items.as_slice());
        proof {
            assert(items@ =~= self.items@);
        }
        OrderedSet { items }
    }

    /// Adds the values of another set.
    pub fn add_all(&mut self, other: &Self)
        requires
            old(self).wf(),
            other.wf(),
        ensures
            final(self).wf(),
            final(self)@ == old(self)@.union(other@),
    {
        proof {
            other.lemma_listed();
        }
        let ghost before = self@;
        let ghost more = views(other.items@);
        let mut i: usize = 0;
        assert(before.union(more.take(0).to_set()) =~= before);
        while i < other.items.len()
            invariant
                i <= other.items@.len(),
                self.wf(),
                more == views(other.items@),
                self@ == before.union(more.take(i as int).to_set()),
            decreases other.items.len() - i,
        {
            let c = other.items[i];
            let ghost so_far = self@;
            self.insert(c);
            proof {
                assert(more.take(i + 1) =~= more.take(i as int).push(c));
                more.take(i as int).lemma_push_to_set_commute(c);
                assert(self@ =~= before.union(more.take(i + 1).to_set()));
            }
            i += 1;
        }
        proof {
            assert(more.take(i as int) =~= more);
        }
    }

    /// The values that another set holds too.
    pub fn keep_common(&self, other: &Self) -> (r: Self)
        requires
            self.wf(),
            other.wf(),
        ensures
            r.wf(),
            r@ == self@.intersect(other@),
    {
        proof {
            self.lemma_listed();
        }
        let ghost mine = views(self.items@);
        let mut kept: OrderedSet<char> = OrderedSet::new();
        let mut i: usize = 0;
        assert(mine.take(0).to_set().intersect(other@) =~= Set::<char>::empty());
        while i < self.items.len()
            invariant
                i <= self.items@.len(),
                kept.wf(),
                other.wf(),
                mine == views(self.items@),
                kept@ == mine.take(i as int).to_set().intersect(other@),
            decreases self.items.len() - i,
        {
            let c = self.items[i];
            if other.contains(&c) {
                kept.insert(c);
            }
            proof {
                assert(mine.take(i + 1) =~= mine.take(i as int).push(c));
                mine.take(i as int).lemma_push_to_set_commute(c);
                assert(kept@ =~= mine.take(i + 1).to_set().intersect(other@));
            }
            i += 1;
        }
        proof {
            assert(mine.take(i as int) =~= mine);
        }
        kept
    }
}

/// A map from keys to sets of characters, by ascending keys.
pub struct ClassMap<K: Ordered> {
    keys: Vec<K>,
    classes: Vec<OrderedSet<char>>,
}

impl<K: Ordered> View for ClassMap<K> {
    type V = Map<K::V, Set<char>>;

    closed spec fn view(&self) -> Map<K::V, Set<char>> {
        Map::new(
            |k: K::V| views(self.keys@).contains(k),
            |k: K::V| self.classes@[views(self.keys@).index_of(k)]@,
        )
    }
}

proof fn lemma_index_of<A>(s: Seq<A>, i: int)
    requires
        0 <= i < s.len(),
        s.no_duplicates(),
    ensures
        s.contains(s[i]),
        s.index_of(s[i]) == i,
{
    assert(s.contains(s[i]));
    let k = s.index_of(s[i]);
    assert(0 <= k < s.len() && s[k] == s[i]);
}

impl<K: Ordered> ClassMap<K> {
    /// The keys ascend, each with a sound set.
    pub closed spec fn wf(&self) -> bool {
        &&& ascending::<K>(views(self.keys@))
        &&& self.keys@.len() == self.classes@.len()
        &&& forall|i: int| 0 <= i < self.classes@.len() ==> (#[trigger] self.classes@[i]).wf()
    }

    /// The keys, in order.
    pub closed spec fn listed(&self) -> Seq<K> {
        self.keys@
    }

    /// The list of the keys is the domain of the map.
    pub proof fn lemma_listed(&self)
        requires
            self.wf(),
        ensures
            views(self.listed()).no_duplicates(),
            self@.dom().finite(),
            self@.dom().len() == self.listed().len(),
            forall|k: K::V| #[trigger]
                self@.dom().contains(k) == views(self.listed()).contains(k),
    {
        let s = views(self.keys@);
        assert(s.no_duplicates());
        s.unique_seq_to_set();
        vstd::seq_lib::seq_to_set_is_finite(s);
        assert(self@.dom() =~= s.to_set());
    }

    /// The empty map.
    pub fn new() -> (r: Self)
        ensures
            r.wf(),
            r@ == Map::<K::V, Set<char>>::empty(),
    {
        let keys: Vec<K> = Vec::new();
        let classes: Vec<OrderedSet<char>> = Vec::new();
        let r = ClassMap { keys, classes };
        proof {
            assert(r@ =~= Map::<K::V, Set<char>>::empty());
        }
        r
    }

    /// The number of keys.
    pub fn len(&self) -> (r: usize)
        requires
            self.wf(),
        ensures
            r == self@.dom().len(),
            r == self.listed().len(),
    {
        proof {
            self.lemma_listed();
        }
        self.keys.len()
    }

    /// The set of a key.
    pub fn get(&self, key: &K) -> (r: Option<&OrderedSet<char>>)
        requires
            self.wf(),
        ensures
            match r {
                Some(s) => s.wf() && self@.dom().contains(key@) && s@ == self@[key@],
                None => !self@.dom().contains(key@),
            },
    {
        let (at, found) = locate(&self.keys, key);
        if found {
            proof {
                let s = views(self.keys@);
                assert(s.no_duplicates());
                assert(s[at as int] == key@);
                lemma_index_of(s, at as int);
            }
            Some(&self.classes[at])
        } else {
            None
        }
    }

    /// The key at a place of the list.
    pub fn key_at(&self, i: usize) -> (r: &K)
        requires
            i < self.listed().len(),
        ensures
            *r == self.listed()[i as int],
    {
        &self.keys[i]
    }

    /// The set of the key at a place of the list.
    pub fn class_at(&self, i: usize) -> (r: &OrderedSet<char>)
        requires
            self.wf(),
            i < self.listed().len(),
        ensures
            r.wf(),
            self@.dom().contains(self.listed()[i as int]@),
            r@ == self@[self.listed()[i as int]@],
    {
        proof {
            let s = views(self.keys@);
            assert(s.no_duplicates());
            lemma_index_of(s, i as int);
            assert(s[i as int] == self.keys@[i as int]@);
        }
        &self.classes[i]
    }

    /// Adds a character to the set of a key.
    pub fn add(&mut self, key: K, character: char)
        requires
            old(self).wf(),
        ensures
            final(self).wf(),
            final(self)@ == added(old(self)@, key@, character),
    {
        let (at, found) = locate(&self.keys, &key);
        let ghost before = views(self.keys@);
        let ghost sets = self.classes@;
        let ghost map = self@;
        let ghost k = key@;
        assert(before.no_duplicates());
        if !found {
            self.keys.insert(at, key);
            let mut fresh: OrderedSet<char> = OrderedSet::new();
            fresh.insert(character);
            let ghost one = fresh;
            self.classes.insert(at, fresh);
            proof {
                let now = views(self.keys@);
                assert(now =~= before.insert(at as int, k));
                lemma_insert_ascending::<K>(before, at as int, k);
                assert(now.no_duplicates());
                assert(self.classes@ =~= sets.insert(at as int, one));
                assert forall|i: int| 0 <= i < self.classes@.len() implies (
                #[trigger] self.classes@[i]).wf() by {
                    if i < at {
                        assert(self.classes@[i] == sets[i]);
                    } else if i > at {
                        assert(self.classes@[i] == sets[i - 1]);
                    }
                }
                assert forall|x: K::V| now.contains(x) == (before.contains(x) || x == k) by {
                    if now.contains(x) {
                        let i = choose|i: int| 0 <= i < now.len() && now[i] == x;
                        if i < at {
                            assert(before[i] == x);
                        } else if i > at {
                            assert(before[i - 1] == x);
                        }
                    }
                    if before.contains(x) {
                        let i = choose|i: int| 0 <= i < before.len() && before[i] == x;
                        let m = if i < at { i } else { i + 1 };
                        assert(now[m] == x);
                    }
                    if x == k {
                        assert(now[at as int] == x);
                    }
                }
                assert forall|x: K::V| now.contains(x) implies self.classes@[now.index_of(x)]@
                    == added(map, k, character)[x] by {
                    let i = now.index_of(x);
                    assert(now[i] == x);
                    if i == at {
                        assert(!before.contains(k));
                    } else {
                        let b = if i < at { i } else { i - 1 };
                        assert(before[b] == x);
                        lemma_index_of(before, b);
                        assert(self.classes@[i] == sets[b]);
                        assert(x != k);
                    }
                }
                assert(self@ =~= added(map, k, character));
            }
        } else {
            self.classes[at].insert(character);
            proof {
                let now = views(self.keys@);
                assert(now == before);
                assert(before[at as int] == k);
                lemma_index_of(before, at as int);
                assert forall|i: int| 0 <= i < self.classes@.len() implies (
                #[trigger] self.classes@[i]).wf() by {
                    if i != at {
                        assert(self.classes@[i] == sets[i]);
                    }
                }
                assert forall|x: K::V| now.contains(x) implies self.classes@[now.index_of(x)]@
                    == added(map, k, character)[x] by {
                    let i = now.index_of(x);
                    assert(now[i] == x);
                    if i != at {
                        assert(x != k);
                        assert(self.classes@[i] == sets[i]);
                    }
                }
                assert(self@ =~= added(map, k, character));
            }
        }
    }
}

/// The map with a character added to the set of a key.
pub open spec fn added<K>(map: Map<K, Set<char>>, key: K, character: char) -> Map<K, Set<char>> {
    map.insert(
        key,
        if map.dom().contains(key) {
            map[key].insert(character)
        } else {
            set![character]
        },
    )
}

} // verus!
