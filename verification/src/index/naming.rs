//! The names of shards.
use crate::index::error::{ErrorView, IndexError};
use crate::ordered::{pair_leq, sort, views, Ordered};
use crate::text::{
    chars_of, decimal, decimal_of, digit, digits_value, is_digit, is_letter, join2, join3,
    lemma_decimal_read_back, letter, parse_unsigned, spells, unsigned_value,
};
use vstd::prelude::*;
use vstd::string::*;

verus! {

/// The fault of a prefix for shards, if any.
pub open spec fn prefix_fault(prefix: Seq<char>) -> Option<ErrorView> {
    if prefix.len() > 0 && forall|i: int|
        0 <= i < prefix.len() ==> letter(#[trigger] prefix[i]) || digit(prefix[i]) || prefix[i]
            == '-' || prefix[i] == '_' {
        None
    } else {
        Some(
            ErrorView::InvalidArgument(
                "shard_prefix must contain only ASCII letters, digits, '-' or '_'"@,
            ),
        )
    }
}

/// Refuses a prefix that is empty or holds other characters.
pub(crate) fn validate_shard_prefix(prefix: &str) -> (r: Result<(), IndexError>)
    ensures
        match r {
            Ok(()) => prefix_fault(prefix@) is None,
            Err(e) => prefix_fault(prefix@) == Some(e@),
        },
{
    let chars = chars_of(prefix);
    let mut sound = chars.len() > 0;
    let mut i: usize = 0;
    while i < chars.len() && sound
        invariant
            i <= chars@.len(),
            chars@ == prefix@,
            sound ==> chars@.len() > 0 && forall|k: int|
                0 <= k < i ==> letter(#[trigger] chars@[k]) || digit(chars@[k]) || chars@[k]
                    == '-' || chars@[k] == '_',
            !sound ==> chars@.len() == 0 || exists|k: int|
                0 <= k < chars@.len() && !(letter(#[trigger] chars@[k]) || digit(chars@[k])
                    || chars@[k] == '-' || chars@[k] == '_'),
        decreases chars.len() - i,
    {
        let c = chars[i];
        if !(is_letter(c) || is_digit(c) || c == '-' || c == '_') {
            assert(!(letter(chars@[i as int]) || digit(chars@[i as int])));
            sound = false;
        }
        i += 1;
    }
    if sound {
        Ok(())
    } else {
        Err(
            IndexError::argument(
                "shard_prefix must contain only ASCII letters, digits, '-' or '_'",
            ),
        )
    }
}

/// A text with zeros before it, up to a length.
pub open spec fn padded(s: Seq<char>, len: nat) -> Seq<char> {
    if s.len() < len {
        Seq::new((len - s.len()) as nat, |i: int| '0') + s
    } else {
        s
    }
}

/// The name of a shard in its directory.
pub open spec fn shard_name(prefix: Seq<char>, ordinal: nat) -> Seq<char> {
    prefix + seq!['.'] + padded(decimal(ordinal), 6) + ".shard.txt"@
}

/// A name in a directory.
pub open spec fn path_in(directory: Seq<char>, name: Seq<char>) -> Seq<char> {
    if name.len() > 0 && name[0] == '/' {
        name
    } else if directory.len() == 0 || directory.last() == '/' {
        directory + name
    } else {
        directory + seq!['/'] + name
    }
}

/// The path of a shard.
pub open spec fn shard_path_of(directory: Seq<char>, prefix: Seq<char>, ordinal: nat) -> Seq<char> {
    path_in(directory, shard_name(prefix, ordinal))
}

/// The name of a shard in its directory.
fn shard_file_name(prefix: &str, ordinal: u64) -> (r: String)
    ensures
        r@ == shard_name(prefix@, ordinal as nat),
{
    let number = decimal_of(ordinal);
    let digits = chars_of(number.as_str());
    let mut name = prefix.to_owned();
    name.push('.');
    let ghost start = name@;
    let mut width: usize = digits.len();
    assert(name@ =~= start + Seq::new(0, |i: int| '0'));
    while width < 6
        invariant
            digits@.len() <= width,
            width == digits@.len() || width <= 6,
            name@ == start + Seq::new((width - digits@.len()) as nat, |i: int| '0'),
        decreases 6 - width,
    {
        name.push('0');
        width += 1;
        assert(name@ =~= start + Seq::new((width - digits@.len()) as nat, |i: int| '0'));
    }
    name.append(number.as_str());
    name.append(".shard.txt");
    proof {
        assert(name@ =~= shard_name(prefix@, ordinal as nat));
    }
    name
}

/// The path of a shard.
pub fn shard_path(directory: &str, prefix: &str, ordinal: u64) -> (r: String)
    ensures
        r@ == shard_path_of(directory@, prefix@, ordinal as nat),
{
    let name = shard_file_name(prefix, ordinal);
    let first = chars_of(name.as_str());
    if first.len() > 0 && first[0] == '/' {
        return name;
    }
    let dir = chars_of(directory);
    proof {
        reveal_strlit("/");
        assert("/"@ =~= seq!['/']);
    }
    if dir.len() == 0 || dir[dir.len() - 1] == '/' {
        join2(directory, name.as_str())
    } else {
        join3(directory, "/", name.as_str())
    }
}

/// The number of the shard with exactly this name; none where no shard has it.
pub open spec fn ordinal_of(prefix: Seq<char>, name: Seq<char>) -> Option<u64> {
    if exists|n: u64| name == #[trigger] shard_name(prefix, n as nat) {
        Some(choose|n: u64| name == #[trigger] shard_name(prefix, n as nat))
    } else {
        None
    }
}

/// The number that stands in a name between a prefix and the ending of shards.
spec fn number_in(prefix: Seq<char>, name: Seq<char>) -> Option<u64> {
    let tail = ".shard.txt"@;
    let n = prefix.len() as int;
    if name.len() < n + 1 + tail.len() || name.take(n + 1) != prefix.push('.') || name.skip(
        name.len() - tail.len(),
    ) != tail {
        None
    } else {
        match unsigned_value(name.subrange(n + 1, name.len() - tail.len()), 10) {
            Some(v) => if v <= u64::MAX {
                Some(v as u64)
            } else {
                None
            },
            None => None,
        }
    }
}

/// The number that stands in a name.
fn find_number(prefix: &str, name: &str) -> (r: Option<u64>)
    ensures
        r == number_in(prefix@, name@),
{
    let start = join2(prefix, ".");
    let head = chars_of(start.as_str());
    let all = chars_of(name);
    proof {
        reveal_strlit(".");
        reveal_strlit(".shard.txt");
        assert(head@ =~= prefix@.push('.'));
    }
    if all.len() < 10 || all.len() - 10 < head.len() {
        return None;
    }
    let n: usize = head.len();
    let end: usize = all.len() - 10;
    proof {
        assert(all@.subrange(0, n as int) =~= all@.take(n as int));
        assert(all@.subrange(end as int, all@.len() as int) =~= all@.skip(end as int));
    }
    if !spells(&all[0..n], start.as_str()) || !spells(&all[end..all.len()], ".shard.txt") {
        return None;
    }
    parse_unsigned(&all[n..end], 10, u64::MAX)
}

/// The number of the shard with exactly this name.
pub fn shard_ordinal(prefix: &str, name: &str) -> (r: Option<u64>)
    ensures
        r == ordinal_of(prefix@, name@),
{
    proof {
        if let Some(n) = ordinal_of(prefix@, name@) {
            lemma_number_of_name(prefix@, n);
        }
    }
    match find_number(prefix, name) {
        Some(n) => {
            let expected = shard_file_name(prefix, n);
            let all = chars_of(name);
            if spells(all.as_slice(), expected.as_str()) {
                Some(n)
            } else {
                None
            }
        },
        None => None,
    }
}

/// The names of shards among others, each with its number, in order.
pub open spec fn lists_shards(
    prefix: Seq<char>,
    names: Seq<String>,
    places: Seq<(u64, usize)>,
) -> bool {
    &&& forall|i: int, j: int|
        0 <= i < j < places.len() ==> (#[trigger] places[i]).0 < (#[trigger] places[j]).0 || (
        places[i].0 == places[j].0 && places[i].1 < places[j].1)
    &&& forall|i: int|
        0 <= i < places.len() ==> (#[trigger] places[i]).1 < names.len() && ordinal_of(
            prefix,
            names[places[i].1 as int]@,
        ) == Some(places[i].0)
    &&& forall|k: int|
        #![trigger names[k]]
        0 <= k < names.len() && ordinal_of(prefix, names[k]@) is Some ==> places.contains(
            (ordinal_of(prefix, names[k]@)->0, k as usize),
        )
}

/// The shards among the names of a directory, by their numbers: only names that
/// the builder itself gives.
pub fn list_text_shards(names: &Vec<String>, prefix: &str) -> (r: Result<Vec<String>, IndexError>)
    ensures
        match r {
            Ok(found) => {
                &&& prefix_fault(prefix@) is None
                &&& exists|places: Seq<(u64, usize)>| #[trigger]
                    lists_shards(prefix@, names@, places) && found@.len() == places.len()
                        && forall|i: int|
                        0 <= i < places.len() ==> (#[trigger] found@[i])@
                            == names@[places[i].1 as int]@ && found@[i]@ == shard_name(
                            prefix@,
                            places[i].0 as nat,
                        )
            },
            Err(e) => prefix_fault(prefix@) == Some(e@),
        },
{
    if let Err(e) = validate_shard_prefix(prefix) {
        return Err(e);
    }
    let mut found: Vec<(u64, u64)> = Vec::new();
    let mut i: usize = 0;
    while i < names.len()
        invariant
            i <= names@.len(),
            forall|k: int|
                0 <= k < found@.len() ==> (#[trigger] found@[k]).1 < i && ordinal_of(
                    prefix@,
                    names@[found@[k].1 as int]@,
                ) == Some(found@[k].0),
            forall|a: int, b: int|
                0 <= a < b < found@.len() ==> (#[trigger] found@[a]).1 < (#[trigger] found@[b]).1,
            forall|k: int|
                #![trigger names@[k]]
                0 <= k < i && ordinal_of(prefix@, names@[k]@) is Some ==> found@.contains(
                    (ordinal_of(prefix@, names@[k]@)->0, k as u64),
                ),
        decreases names.len() - i,
    {
        let ghost before = found@;
        let ghost n = before.len() as int;
        if let Some(ordinal) = shard_ordinal(prefix, names[i].as_str()) {
            found.push((ordinal, i as u64));
            proof {
                assert(found@[n] == (ordinal, i as u64));
            }
        }
        proof {
            assert forall|k: int|
                #![trigger names@[k]]
                0 <= k < i + 1 && ordinal_of(prefix@, names@[k]@) is Some implies found@.contains(
                (ordinal_of(prefix@, names@[k]@)->0, k as u64),
            ) by {
                if k < i {
                    let x = (ordinal_of(prefix@, names@[k]@)->0, k as u64);
                    assert(before.contains(x));
                    let j = choose|j: int| 0 <= j < before.len() && before[j] == x;
                    assert(found@[j] == x);
                }
            }
        }
        i += 1;
    }
    let ghost unordered = found@;
    let found = sort(found);
    let ghost places: Seq<(u64, usize)> = Seq::new(
        found@.len(),
        |i: int| (found@[i].0, found@[i].1 as usize),
    );
    proof {
        lemma_places(prefix@, names@, unordered, found@, places);
    }
    let count: usize = names.len();
    let mut paths: Vec<String> = Vec::new();
    let mut i: usize = 0;
    while i < found.len()
        invariant
            i <= found@.len(),
            count == names@.len(),
            places.len() == found@.len(),
            forall|k: int| 0 <= k < found@.len() ==> (#[trigger] found@[k]).1 < names@.len(),
            forall|k: int|
                0 <= k < found@.len() ==> (#[trigger] places[k]) == (
                    found@[k].0,
                    found@[k].1 as usize,
                ),
            paths@.len() == i,
            forall|k: int|
                0 <= k < i ==> (#[trigger] paths@[k])@ == names@[places[k].1 as int]@,
        decreases found.len() - i,
    {
        assert(found@[i as int].1 < names@.len());
        assert(places[i as int].1 == found@[i as int].1 as usize);
        let at: usize = found[i].1 as usize;
        paths.push(names[at].as_str().to_owned());
        i += 1;
    }
    proof {
        assert forall|k: int| 0 <= k < places.len() implies (#[trigger] paths@[k])@ == shard_name(
            prefix@,
            places[k].0 as nat,
        ) by {
            assert(paths@[k]@ == names@[places[k].1 as int]@);
            law_shard_name_tells_its_number(prefix@, paths@[k]@, places[k].0);
        }
    }
    Ok(paths)
}

proof fn lemma_places(
    prefix: Seq<char>,
    names: Seq<String>,
    unordered: Seq<(u64, u64)>,
    found: Seq<(u64, u64)>,
    places: Seq<(u64, usize)>,
)
    requires
        names.len() <= usize::MAX,
        crate::ordered::sorted::<(u64, u64)>(views(found)),
        views(found).to_multiset() == views(unordered).to_multiset(),
        forall|k: int|
            0 <= k < unordered.len() ==> (#[trigger] unordered[k]).1 < names.len() && ordinal_of(
                prefix,
                names[unordered[k].1 as int]@,
            ) == Some(unordered[k].0),
        forall|a: int, b: int|
            0 <= a < b < unordered.len() ==> (#[trigger] unordered[a]).1 < (
            #[trigger] unordered[b]).1,
        forall|k: int|
            #![trigger names[k]]
            0 <= k < names.len() && ordinal_of(prefix, names[k]@) is Some ==> unordered.contains(
                (ordinal_of(prefix, names[k]@)->0, k as u64),
            ),
        places == Seq::new(found.len(), |i: int| (found[i].0, found[i].1 as usize)),
    ensures
        lists_shards(prefix, names, places),
        forall|k: int| 0 <= k < found.len() ==> (#[trigger] found[k]).1 < names.len(),
{
    broadcast use vstd::seq_lib::group_to_multiset_ensures;

    assert(views(found) =~= found);
    assert(views(unordered) =~= unordered);
    assert forall|k: int| 0 <= k < found.len() implies unordered.contains(#[trigger] found[k]) by {
        assert(found.contains(found[k]));
        assert(found.to_multiset().count(found[k]) > 0);
    }
    assert forall|k: int| 0 <= k < found.len() implies (#[trigger] found[k]).1 < names.len()
        && ordinal_of(prefix, names[found[k].1 as int]@) == Some(found[k].0) by {
        assert(unordered.contains(found[k]));
        let j = choose|j: int| 0 <= j < unordered.len() && unordered[j] == found[k];
        assert(unordered[j].1 < names.len());
    }
    assert(unordered.no_duplicates()) by {
        assert forall|a: int, b: int|
            0 <= a < unordered.len() && 0 <= b < unordered.len() && a != b implies unordered[a]
            != unordered[b] by {
            if a < b {
                assert(unordered[a].1 < unordered[b].1);
            } else {
                assert(unordered[b].1 < unordered[a].1);
            }
        }
    }
    unordered.lemma_multiset_has_no_duplicates();
    found.lemma_multiset_has_no_duplicates_conv();
    assert forall|i: int, j: int| 0 <= i < j < places.len() implies (#[trigger] places[i]).0 < (
    #[trigger] places[j]).0 || (places[i].0 == places[j].0 && places[i].1 < places[j].1) by {
        assert(<(u64, u64) as Ordered>::leq(views(found)[i], views(found)[j]));
        assert(pair_leq::<u64, u64>(found[i], found[j]));
        assert(found[i] != found[j]);
    }
    assert forall|k: int|
        #![trigger names[k]]
        0 <= k < names.len() && ordinal_of(prefix, names[k]@) is Some implies places.contains(
        (ordinal_of(prefix, names[k]@)->0, k as usize),
    ) by {
        let x = (ordinal_of(prefix, names[k]@)->0, k as u64);
        assert(unordered.contains(x));
        assert(unordered.to_multiset().count(x) > 0);
        assert(found.contains(x));
        let j = choose|j: int| 0 <= j < found.len() && found[j] == x;
        assert(places[j] == (x.0, k as usize));
    }
}

/// Zeros before a number do not change it.
proof fn lemma_padded_value(s: Seq<char>, n: nat)
    requires
        forall|i: int| 0 <= i < s.len() ==> digit(#[trigger] s[i]),
    ensures
        digits_value(Seq::new(n, |i: int| '0') + s, 10) == digits_value(s, 10),
    decreases s.len() + n,
{
    let zeros = Seq::new(n, |i: int| '0');
    let all = zeros + s;
    if s.len() > 0 {
        assert(all.drop_last() =~= zeros + s.drop_last());
        assert forall|i: int| 0 <= i < s.drop_last().len() implies digit(
            #[trigger] s.drop_last()[i],
        ) by {
            assert(s.drop_last()[i] == s[i]);
        }
        lemma_padded_value(s.drop_last(), n);
    } else if n > 0 {
        let fewer = Seq::new((n - 1) as nat, |i: int| '0');
        assert(all.drop_last() =~= fewer + s);
        lemma_padded_value(s, (n - 1) as nat);
    } else {
        assert(all =~= s);
    }
}

/// The number of a shard stands in its name.
proof fn lemma_number_of_name(prefix: Seq<char>, ordinal: u64)
    ensures
        number_in(prefix, shard_name(prefix, ordinal as nat)) == Some(ordinal),
{
    let name = shard_name(prefix, ordinal as nat);
    let number = padded(decimal(ordinal as nat), 6);
    let tail = ".shard.txt"@;
    let n = prefix.len() as int;
    lemma_decimal_read_back(ordinal as nat);
    let d = decimal(ordinal as nat);
    if d.len() < 6 {
        lemma_padded_value(d, (6 - d.len()) as nat);
        assert(number[0] == '0');
    } else {
        assert(digit(d[0]));
    }
    assert(name.take(n + 1) =~= prefix.push('.'));
    assert(name.skip(name.len() - tail.len()) =~= tail);
    assert(name.subrange(n + 1, name.len() - tail.len()) =~= number);
}

/// A name has a number exactly where it is the name that the shard with this
/// number is given.
pub proof fn law_shard_name_tells_its_number(prefix: Seq<char>, name: Seq<char>, ordinal: u64)
    ensures
        ordinal_of(prefix, name) == Some(ordinal) <==> name == shard_name(prefix, ordinal as nat),
{
    lemma_number_of_name(prefix, ordinal);
    if let Some(n) = ordinal_of(prefix, name) {
        lemma_number_of_name(prefix, n);
    }
}

} // verus!
