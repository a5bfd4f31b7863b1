//! How characters are made of others.
use crate::chinese::error::{ChineseDataError, DataFault};
use crate::chinese::template::{read_template, template_text};
use crate::collections::{lemma_insert_ascending, locate};
use crate::ordered::{ascending, views};
use crate::text::{copy_chars, same_chars, split_chars, split_on, trim, trimmed};
use vstd::prelude::*;
use vstd::string::*;

verus! {

/// The ways in which each character is made of others.
pub type Factors = Map<char, Seq<Seq<char>>>;

/// The name of the source.
pub open spec fn factor_source_name() -> Seq<char> {
    "factorHan.js"@
}

/// The pieces that are not empty.
pub open spec fn non_empty(pieces: Seq<Seq<char>>) -> Seq<Seq<char>>
    decreases pieces.len(),
{
    if pieces.len() == 0 {
        Seq::empty()
    } else {
        let before = non_empty(pieces.drop_last());
        if pieces.last().len() == 0 {
            before
        } else {
            before.push(pieces.last())
        }
    }
}

/// What a line says: nothing, or a character with the ways in which it is made.
pub open spec fn factor_line(line: Seq<char>) -> Result<Option<(char, Seq<Seq<char>>)>, Seq<char>> {
    let text = trimmed(line);
    if text.len() == 0 {
        Ok(None)
    } else {
        let fields = split_on(text, '|');
        let head = fields[0];
        let ways = non_empty(fields.skip(1));
        if head.len() == 0 {
            Err("缺少字头"@)
        } else if head.len() > 1 {
            Err("字头必须恰好是一个 Unicode 标量"@)
        } else if fields.len() > 1 && ways.len() == 0 {
            Err("拆分方案不能为空"@)
        } else {
            Ok(Some((head[0], ways)))
        }
    }
}

/// The ways known with further ones, each once.
pub open spec fn merged(known: Seq<Seq<char>>, more: Seq<Seq<char>>) -> Seq<Seq<char>>
    decreases more.len(),
{
    if more.len() == 0 {
        known
    } else {
        let before = merged(known, more.drop_last());
        if before.contains(more.last()) {
            before
        } else {
            before.push(more.last())
        }
    }
}

/// The ways known of a character.
pub open spec fn ways_of(factors: Factors, c: char) -> Seq<Seq<char>> {
    if factors.dom().contains(c) {
        factors[c]
    } else {
        Seq::empty()
    }
}

/// What the first `n` lines say, or the first fault in them.
pub open spec fn factors_of_lines(lines: Seq<Seq<char>>, n: nat) -> Result<Factors, DataFault>
    decreases n,
{
    if n == 0 {
        Ok(Map::empty())
    } else {
        match factors_of_lines(lines, (n - 1) as nat) {
            Err(e) => Err(e),
            Ok(known) => match factor_line(lines[n - 1]) {
                Err(message) => Err(
                    DataFault { source_name: factor_source_name(), line: n, message },
                ),
                Ok(None) => Ok(known),
                Ok(Some((head, ways))) => Ok(
                    known.insert(head, merged(ways_of(known, head), ways)),
                ),
            },
        }
    }
}

/// What a source says of how characters are made.
pub open spec fn factors_of(source: Seq<char>) -> Result<Factors, DataFault> {
    match template_text(factor_source_name(), source) {
        Err(e) => Err(e),
        Ok(text) => {
            let lines = split_on(text, '\n');
            match factors_of_lines(lines, lines.len()) {
                Err(e) => Err(e),
                Ok(factors) => if factors.dom() == Set::<char>::empty() {
                    Err(
                        DataFault {
                            source_name: factor_source_name(),
                            line: 1,
                            message: "模板字符串中没有拆字数据"@,
                        },
                    )
                } else {
                    Ok(factors)
                },
            }
        },
    }
}

/// A table of how characters are made, by ascending characters.
pub struct FactorTable {
    heads: Vec<char>,
    entries: Vec<Vec<Vec<char>>>,
}

impl View for FactorTable {
    type V = Factors;

    closed spec fn view(&self) -> Factors {
        Map::new(
            |c: char| views(self.heads@).contains(c),
            |c: char| views(self.entries@[views(self.heads@).index_of(c)]@),
        )
    }
}

/// Whether a list of pieces holds a piece.
fn holds_piece(pieces: &Vec<Vec<char>>, piece: &Vec<char>) -> (r: bool)
    ensures
        r == views(pieces@).contains(piece@),
{
    let mut i: usize = 0;
    while i < pieces.len()
        invariant
            i <= pieces@.len(),
            forall|k: int| 0 <= k < i ==> #[trigger] views(pieces@)[k] != piece@,
        decreases pieces.len() - i,
    {
        if same_chars(pieces[i].as_slice(), piece.as_slice()) {
            assert(views(pieces@)[i as int] == piece@);
            return true;
        }
        i += 1;
    }
    false
}

/// The ways known with further ones, each once.
fn merge_ways(known: Vec<Vec<char>>, more: Vec<Vec<char>>) -> (r: Vec<Vec<char>>)
    ensures
        views(r@) == merged(views(known@), views(more@)),
{
    let ghost base = views(known@);
    let ghost extra = views(more@);
    let mut known = known;
    let mut i: usize = 0;
    assert(extra.take(0) =~= Seq::empty());
    while i < more.len()
        invariant
            i <= more@.len(),
            extra == views(more@),
            views(known@) == merged(base, extra.take(i as int)),
        decreases more.len() - i,
    {
        proof {
            assert(extra.take(i + 1).drop_last() =~= extra.take(i as int));
            assert(extra.take(i + 1).last() == more@[i as int]@);
        }
        if !holds_piece(&known, &more[i]) {
            let ghost before = views(known@);
            let copy = copy_chars(more[i].as_slice());
            known.push(copy);
            proof {
                assert(views(known@) =~= before.push(copy@));
            }
        }
        i += 1;
    }
    proof {
        assert(extra.take(i as int) =~= extra);
    }
    known
}

/// What a line says.
fn read_line(line: &[char]) -> (r: Result<Option<(char, Vec<Vec<char>>)>, String>)
    ensures
        match (factor_line(line@), r) {
            (Ok(None), Ok(None)) => true,
            (Ok(Some((head, ways))), Ok(Some((h, w)))) => head == h && ways == views(w@),
            (Err(e), Err(f)) => f@ == e,
            _ => false,
        },
{
    let text = trim(line);
    if text.len() == 0 {
        return Ok(None);
    }
    let fields = split_chars(text, '|');
    let ghost all = views(fields@);
    assert(all[0] == fields@[0]@);
    if fields[0].len() == 0 {
        return Err("缺少字头".to_owned());
    }
    if fields[0].len() > 1 {
        return Err("字头必须恰好是一个 Unicode 标量".to_owned());
    }
    let head = fields[0][0];
    let mut ways: Vec<Vec<char>> = Vec::new();
    let mut i: usize = 1;
    let ghost rest = all.skip(1);
    assert(rest.take(0) =~= Seq::empty());
    assert(views(ways@) =~= non_empty(rest.take(0)));
    while i < fields.len()
        invariant
            1 <= i <= fields@.len(),
            all == views(fields@),
            rest == all.skip(1),
            views(ways@) == non_empty(rest.take(i - 1)),
        decreases fields.len() - i,
    {
        proof {
            assert(rest.take(i as int).drop_last() =~= rest.take(i - 1));
            assert(rest.take(i as int).last() == fields@[i as int]@);
        }
        if fields[i].len() > 0 {
            let ghost before = views(ways@);
            let copy = copy_chars(fields[i].as_slice());
            ways.push(copy);
            proof {
                assert(views(ways@) =~= before.push(copy@));
            }
        }
        i += 1;
    }
    proof {
        assert(rest.take(i - 1) =~= rest);
    }
    if fields.len() > 1 && ways.len() == 0 {
        return Err("拆分方案不能为空".to_owned());
    }
    Ok(Some((head, ways)))
}

proof fn lemma_place<A>(s: Seq<A>, i: int)
    requires
        0 <= i < s.len(),
        s.no_duplicates(),
    ensures
        s.contains(s[i]),
        s.index_of(s[i]) == i,
{
    assert(s.contains(s[i]));
    let k = s.index_of(s[i]);
    assert(0 <= k < s.len() && s[k] == s[i]);
}

impl FactorTable {
    /// The characters ascend, each with its ways.
    pub closed spec fn wf(&self) -> bool {
        &&& ascending::<char>(views(self.heads@))
        &&& self.heads@.len() == self.entries@.len()
    }

    /// The characters, in order.
    pub closed spec fn heads(&self) -> Seq<char> {
        self.heads@
    }

    pub proof fn lemma_heads(&self)
        requires
            self.wf(),
        ensures
            forall|c: char| #[trigger] self@.dom().contains(c) == self.heads().contains(c),
            self.heads().no_duplicates(),
            forall|i: int, j: int|
                0 <= i < j < self.heads().len() ==> #[trigger] self.heads()[i]
                    <= #[trigger] self.heads()[j],
    {
        assert(views(self.heads@) =~= self.heads@);
    }

    fn new() -> (r: Self)
        ensures
            r.wf(),
            r@ == Factors::empty(),
    {
        let heads: Vec<char> = Vec::new();
        let entries: Vec<Vec<Vec<char>>> = Vec::new();
        let r = FactorTable { heads, entries };
        proof {
            assert(r@ =~= Factors::empty());
        }
        r
    }

    /// The number of characters.
    pub fn len(&self) -> (r: usize)
        ensures
            r == self.heads().len(),
    {
        self.heads.len()
    }

    /// The character at a place of the list.
    pub fn head_at(&self, i: usize) -> (r: char)
        requires
            i < self.heads().len(),
        ensures
            r == self.heads()[i as int],
    {
        self.heads[i]
    }

    /// The ways known of a character.
    pub fn ways(&self, c: char) -> (r: Option<&Vec<Vec<char>>>)
        requires
            self.wf(),
        ensures
            match r {
                Some(w) => self@.dom().contains(c) && views(w@) == self@[c],
                None => !self@.dom().contains(c),
            },
    {
        let (at, found) = locate(&self.heads, &c);
        if found {
            proof {
                let s = views(self.heads@);
                assert(s.no_duplicates());
                assert(s[at as int] == c);
                lemma_place(s, at as int);
            }
            Some(&self.entries[at])
        } else {
            None
        }
    }

    /// Adds ways to those known of a character.
    fn extend(&mut self, head: char, ways: Vec<Vec<char>>)
        requires
            old(self).wf(),
        ensures
            final(self).wf(),
            final(self)@ == old(self)@.insert(
                head,
                merged(ways_of(old(self)@, head), views(ways@)),
            ),
    {
        let (at, found) = locate(&self.heads, &head);
        let ghost before = views(self.heads@);
        let ghost sets = self.entries@;
        let ghost map = self@;
        let ghost extra = views(ways@);
        assert(before.no_duplicates());
        if found {
            proof {
                assert(before[at as int] == head);
                lemma_place(before, at as int);
            }
            let mut known: Vec<Vec<char>> = Vec::new();
            std::mem::swap(&mut known, &mut self.entries[at]);
            let all = merge_ways(known, ways);
            let ghost result = views(all@);
            self.entries.set(at, all);
            proof {
                let now = views(self.heads@);
                assert forall|x: char| now.contains(x) implies views(
                    self.entries@[now.index_of(x)]@,
                ) == map.insert(head, merged(ways_of(map, head), extra))[x] by {
                    let i = now.index_of(x);
                    assert(now[i] == x);
                    if i != at {
                        assert(self.entries@[i] == sets[i]);
                    }
                }
                assert(self@ =~= map.insert(head, merged(ways_of(map, head), extra)));
            }
        } else {
            let empty: Vec<Vec<char>> = Vec::new();
            proof {
                assert(views(empty@) =~= Seq::empty());
            }
            let all = merge_ways(empty, ways);
            let ghost one = all;
            self.heads.insert(at, head);
            self.entries.insert(at, all);
            proof {
                let now = views(self.heads@);
                assert(now =~= before.insert(at as int, head));
                lemma_insert_ascending::<char>(before, at as int, head);
                assert(now.no_duplicates());
                assert(self.entries@ =~= sets.insert(at as int, one));
                assert forall|x: char| now.contains(x) == (before.contains(x) || x == head) by {
                    if now.contains(x) {
                        let i = choose|i: int| 0 <= i < now.len() && now[i] == x;
                        if i < at {
                            assert(before[i] == x);
                        } else if i > at {
                            assert(before[i - 1] == x);
                        }
                    }
                    if before.contains(x) {
                        let i = choose|i: int| 0 <= i < before.len() && before[i] == x;
                        let m = if i < at { i } else { i + 1 };
                        assert(now[m] == x);
                    }
                    if x == head {
                        assert(now[at as int] == x);
                    }
                }
                assert forall|x: char| now.contains(x) implies views(
                    self.entries@[now.index_of(x)]@,
                ) == map.insert(head, merged(ways_of(map, head), extra))[x] by {
                    let i = now.index_of(x);
                    assert(now[i] == x);
                    if i == at {
                        assert(!before.contains(head));
                    } else {
                        let b = if i < at { i } else { i - 1 };
                        assert(before[b] == x);
                        lemma_place(before, b);
                        assert(self.entries@[i] == sets[b]);
                        assert(x != head);
                    }
                }
                assert(self@ =~= map.insert(head, merged(ways_of(map, head), extra)));
            }
        }
    }
}

/// Reads how characters are made.
pub fn parse_factor_han(source: &[char]) -> (r: Result<FactorTable, ChineseDataError>)
    ensures
        match (factors_of(source@), r) {
            (Ok(f), Ok(table)) => table.wf() && table@ == f,
            (Err(e), Err(f)) => f@ == e,
            _ => false,
        },
{
    let text = match read_template("factorHan.js", source) {
        Ok(text) => text,
        Err(e) => {
            return Err(e);
        },
    };
    let lines = split_chars(text, '\n');
    let ghost all = views(lines@);
    let mut table = FactorTable::new();
    let mut i: usize = 0;
    while i < lines.len()
        invariant
            i <= lines@.len(),
            all == views(lines@),
            table.wf(),
            template_text(factor_source_name(), source@) == Ok::<Seq<char>, DataFault>(text@),
            all == split_on(text@, '\n'),
            factors_of_lines(all, i as nat) == Ok::<Factors, DataFault>(table@),
        decreases lines.len() - i,
    {
        assert(all[i as int] == lines@[i as int]@);
        match read_line(lines[i].as_slice()) {
            Ok(None) => {},
            Ok(Some((head, ways))) => {
                table.extend(head, ways);
            },
            Err(message) => {
                proof {
                    lemma_fault_stays(all, (i + 1) as nat, all.len());
                }
                return Err(
                    ChineseDataError::parse("factorHan.js", i + 1, message.as_str()),
                );
            },
        }
        i += 1;
    }
    proof {
        table.lemma_heads();
        if table.heads@.len() == 0 {
            assert(table@.dom() =~= Set::<char>::empty());
        } else {
            assert(table.heads().contains(table.heads()[0]));
            assert(table@.dom().contains(table.heads()[0]));
        }
    }
    if table.heads.len() == 0 {
        return Err(ChineseDataError::parse("factorHan.js", 1, "模板字符串中没有拆字数据"));
    }
    Ok(table)
}

proof fn lemma_fault_stays(lines: Seq<Seq<char>>, m: nat, n: nat)
    requires
        m <= n,
        factors_of_lines(lines, m) is Err,
    ensures
        factors_of_lines(lines, n) == factors_of_lines(lines, m),
    decreases n,
{
    if m < n {
        lemma_fault_stays(lines, m, (n - 1) as nat);
    }
}

} // verus!
