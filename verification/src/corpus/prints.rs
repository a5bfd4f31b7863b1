//! Fingerprints of poems.
use crate::chinese::han::is_han;
use crate::corpus::preparer::{bump, bumped, kept};
use crate::ordered::views;
use std::collections::HashMap;
use vstd::prelude::*;
use vstd::wrapping::u64_specs::{wrapping_add, wrapping_mul};

verus! {

/// The fingerprint of the Han characters of a text.
#[derive(Clone, Copy, Debug, PartialEq, Eq, Structural)]
pub struct BodyPrint {
    pub hash_a: u64,
    pub hash_b: u64,
    pub han_chars: u64,
}

/// The fingerprints of a title and of the poem it belongs to.
#[derive(Clone, Copy, Debug, PartialEq, Eq, Structural)]
pub struct TitlePrint {
    pub title: BodyPrint,
    pub poem: BodyPrint,
}

/// What a set keeps apart by a number.
pub trait Print: Copy {
    /// The number by which it is found.
    spec fn bucket(self) -> u64;

    fn bucket_of(self) -> (r: u64)
        ensures
            r == self.bucket(),
    ;

    fn same(self, other: Self) -> (r: bool)
        ensures
            r == (self == other),
    ;
}

impl Print for BodyPrint {
    open spec fn bucket(self) -> u64 {
        self.hash_a
    }

    fn bucket_of(self) -> (r: u64) {
        self.hash_a
    }

    fn same(self, other: Self) -> (r: bool) {
        self == other
    }
}

impl Print for TitlePrint {
    open spec fn bucket(self) -> u64 {
        self.poem.hash_a
    }

    fn bucket_of(self) -> (r: u64) {
        self.poem.hash_a
    }

    fn same(self, other: Self) -> (r: bool) {
        self == other
    }
}

/// A set of fingerprints.
pub struct PrintSet<T: Print> {
    buckets: HashMap<u64, Vec<T>>,
}

impl<T: Print> View for PrintSet<T> {
    type V = Set<T>;

    closed spec fn view(&self) -> Set<T> {
        Set::new(
            |x: T|
                self.buckets@.contains_key(x.bucket()) && self.buckets@[x.bucket()]@.contains(x),
        )
    }
}

impl<T: Print> PrintSet<T> {
    /// Each fingerprint stands where it is looked for.
    pub closed spec fn wf(&self) -> bool {
        forall|k: u64, i: int|
            #![trigger self.buckets@[k]@[i]]
            self.buckets@.contains_key(k) && 0 <= i < self.buckets@[k]@.len()
                ==> self.buckets@[k]@[i].bucket() == k
    }

    pub fn new() -> (r: Self)
        ensures
            r.wf(),
            r@ == Set::<T>::empty(),
    {
        broadcast use vstd::std_specs::hash::group_hash_axioms;

        let r = PrintSet { buckets: HashMap::new() };
        proof {
            assert(r@ =~= Set::empty());
        }
        r
    }

    /// Adds a fingerprint, and tells whether it is new.
    pub fn insert(&mut self, x: T) -> (r: bool)
        requires
            old(self).wf(),
        ensures
            final(self).wf(),
            r == !old(self)@.contains(x),
            final(self)@ == old(self)@.insert(x),
    {
        broadcast use vstd::std_specs::hash::group_hash_axioms;

        let key: u64 = x.bucket_of();
        let ghost before = self.buckets@;
        let mut bucket: Vec<T> = match self.buckets.remove(&key) {
            Some(bucket) => bucket,
            None => Vec::new(),
        };
        let ghost held = bucket@;
        let mut found = false;
        let mut i: usize = 0;
        while i < bucket.len() && !found
            invariant
                i <= bucket@.len(),
                bucket@ == held,
                found ==> held.contains(x),
                !found ==> forall|k: int| 0 <= k < i ==> held[k] != x,
            decreases bucket.len() - i,
        {
            if bucket[i].same(x) {
                found = true;
                assert(held[i as int] == x);
            }
            i += 1;
        }
        if !found {
            bucket.push(x);
        }
        let ghost now = bucket@;
        self.buckets.insert(key, bucket);
        proof {
            assert(found == held.contains(x));
            assert(old(self)@.contains(x) == held.contains(x));
            assert forall|y: T| #[trigger] now.contains(y) == (held.contains(y) || y == x) by {
                if !found {
                    if held.contains(y) {
                        let k = choose|k: int| 0 <= k < held.len() && held[k] == y;
                        assert(now[k] == y);
                    }
                    assert(now[held.len() as int] == x);
                }
            }
            assert(self@ =~= old(self)@.insert(x)) by {
                assert forall|y: T| #[trigger] self@.contains(y) == old(self)@.insert(x).contains(
                    y,
                ) by {
                    if y.bucket() == key {
                        assert(now.contains(y) == (held.contains(y) || y == x));
                    }
                }
            }
            assert forall|k: u64, i: int|
                #![trigger self.buckets@[k]@[i]]
                self.buckets@.contains_key(k) && 0 <= i < self.buckets@[k]@.len() implies
                self.buckets@[k]@[i].bucket() == k by {
                if k != key {
                    assert(self.buckets@[k] == before[k]);
                    assert(before[k]@[i].bucket() == k);
                } else if i < held.len() {
                    assert(before.contains_key(key));
                    assert(before[key]@[i].bucket() == k);
                }
            }
        }
        !found
    }
}

/// The fingerprint of no character.
pub open spec fn empty_print() -> BodyPrint {
    BodyPrint { hash_a: 0xcbf2_9ce4_8422_2325, hash_b: 0x9e37_79b9_7f4a_7c15, han_chars: 0 }
}

/// The bits of a number turned to the left by 27 places.
pub open spec fn turned(x: u64) -> u64 {
    (x << 27u64) | (x >> 37u64)
}

/// A fingerprint with a further character.
pub open spec fn print_with(p: BodyPrint, c: char) -> BodyPrint {
    let x = c as u64;
    BodyPrint {
        hash_a: wrapping_mul(p.hash_a ^ x, 0x0000_0100_0000_01b3),
        hash_b: wrapping_mul(
            turned(p.hash_b ^ wrapping_add(x, 0x517c_c1b7_2722_0a95)),
            0x94d0_49bb_1331_11eb,
        ),
        han_chars: bumped(p.han_chars, 1),
    }
}

/// A fingerprint with the Han characters of a further text.
pub open spec fn print_behind(p: BodyPrint, s: Seq<char>) -> BodyPrint
    decreases s.len(),
{
    if s.len() == 0 {
        p
    } else {
        let before = print_behind(p, s.drop_last());
        if kept(s.last()) {
            print_with(before, s.last())
        } else {
            before
        }
    }
}

/// The fingerprint of the Han characters of several texts, one behind the other.
pub open spec fn print_all(texts: Seq<Seq<char>>) -> BodyPrint
    decreases texts.len(),
{
    if texts.len() == 0 {
        empty_print()
    } else {
        print_behind(print_all(texts.drop_last()), texts.last())
    }
}

/// The fingerprint of several texts, none where no Han character is in them.
pub open spec fn print_of(texts: Seq<Seq<char>>) -> Option<BodyPrint> {
    if print_all(texts).han_chars == 0 {
        None
    } else {
        Some(print_all(texts))
    }
}

/// Adds a text to a fingerprint.
fn extend_print(p: BodyPrint, s: &Vec<char>) -> (r: BodyPrint)
    ensures
        r == print_behind(p, s@),
{
    let mut r = p;
    let mut i: usize = 0;
    assert(s@.take(0) =~= Seq::empty());
    while i < s.len()
        invariant
            i <= s@.len(),
            r == print_behind(p, s@.take(i as int)),
        decreases s.len() - i,
    {
        proof {
            assert(s@.take(i + 1).drop_last() =~= s@.take(i as int));
        }
        let c = s[i];
        if is_han(c) || c == '〇' {
            let x: u64 = c as u64;
            let mixed: u64 = r.hash_b ^ x.wrapping_add(0x517c_c1b7_2722_0a95);
            let rolled: u64 = (mixed << 27u64) | (mixed >> 37u64);
            r = BodyPrint {
                hash_a: (r.hash_a ^ x).wrapping_mul(0x0000_0100_0000_01b3),
                hash_b: rolled.wrapping_mul(0x94d0_49bb_1331_11eb),
                han_chars: bump(r.han_chars, 1),
            };
        }
        i += 1;
    }
    assert(s@.take(i as int) =~= s@);
    r
}

/// The fingerprint of several texts.
pub(crate) fn poetry_fingerprint(texts: &Vec<Vec<char>>) -> (r: Option<BodyPrint>)
    ensures
        r == print_of(views(texts@)),
{
    let ghost all = views(texts@);
    let mut r = BodyPrint {
        hash_a: 0xcbf2_9ce4_8422_2325,
        hash_b: 0x9e37_79b9_7f4a_7c15,
        han_chars: 0,
    };
    let mut i: usize = 0;
    assert(all.take(0) =~= Seq::empty());
    while i < texts.len()
        invariant
            i <= texts@.len(),
            all == views(texts@),
            r == print_all(all.take(i as int)),
        decreases texts.len() - i,
    {
        proof {
            assert(all.take(i + 1).drop_last() =~= all.take(i as int));
            assert(all.take(i + 1).last() == texts@[i as int]@);
        }
        r = extend_print(r, &texts[i]);
        i += 1;
    }
    assert(all.take(i as int) =~= all);
    if r.han_chars == 0 {
        None
    } else {
        Some(r)
    }
}

} // verus!
