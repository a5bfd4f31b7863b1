//! What rows of comma-separated fields give.
use crate::corpus::csv::{csv_from, csv_start, field_ended, row_filled, CsvState, Row};
use vstd::prelude::*;

verus! {

/// A field, and whether it is written in quotes.
pub struct Cell {
    pub text: Seq<char>,
    pub quoted: bool,
}

/// A text with every quote doubled.
pub open spec fn doubled(s: Seq<char>) -> Seq<char>
    decreases s.len(),
{
    if s.len() == 0 {
        Seq::empty()
    } else if s.last() == '"' {
        doubled(s.drop_last()).push('"').push('"')
    } else {
        doubled(s.drop_last()).push(s.last())
    }
}

/// How a field is written.
pub open spec fn cell_written(cell: Cell) -> Seq<char> {
    if cell.quoted {
        seq!['"'] + doubled(cell.text) + seq!['"']
    } else {
        cell.text
    }
}

/// A field can be written so: in quotes it may hold anything but carriage returns,
/// without them no sign of the notation.
pub open spec fn cell_fine(cell: Cell) -> bool {
    forall|i: int|
        0 <= i < cell.text.len() ==> (#[trigger] cell.text[i]) != '\r' && (!cell.quoted
            ==> cell.text[i] != '"' && cell.text[i] != ',' && cell.text[i] != '\n')
}

/// How fields are written: with a comma between each two.
pub open spec fn cells_written(cells: Seq<Cell>) -> Seq<char>
    decreases cells.len(),
{
    if cells.len() == 0 {
        Seq::empty()
    } else if cells.len() == 1 {
        cell_written(cells[0])
    } else {
        cells_written(cells.drop_last()) + seq![','] + cell_written(cells.last())
    }
}

/// The texts of fields.
pub open spec fn cell_texts(cells: Seq<Cell>) -> Row {
    Seq::new(cells.len(), |i: int| cells[i].text)
}

/// At the start of a field, with these fields before it.
spec fn at_start(row: Row) -> CsvState {
    CsvState { row, ..csv_start() }
}

/// Behind a field that has been written, before what ends it.
spec fn behind(row: Row, cell: Cell) -> CsvState {
    CsvState {
        row,
        field: cell.text,
        quote_closed: cell.quoted,
        at_field_start: !cell.quoted && cell.text.len() == 0,
        ..csv_start()
    }
}

proof fn lemma_doubled_from(row: Row, s: Seq<char>, at: int, text: Seq<char>, n: nat, rows: Seq<Row>)
    requires
        0 <= at,
        n <= text.len(),
        forall|i: int| 0 <= i < text.len() ==> (#[trigger] text[i]) != '\r',
        at + doubled(text).len() < s.len(),
        s.subrange(at, at + doubled(text).len()) == doubled(text),
        s[at + doubled(text).len()] == '"',
        at + doubled(text).len() + 1 < s.len() ==> s[at + doubled(text).len() + 1] != '"',
    ensures
        csv_from(
            CsvState { row, in_quotes: true, at_field_start: false, ..csv_start() },
            s,
            at,
            rows,
        ) == csv_from(
            CsvState {
                row,
                field: text.take(n as int),
                in_quotes: true,
                at_field_start: false,
                ..csv_start()
            },
            s,
            at + doubled(text.take(n as int)).len(),
            rows,
        ),
    decreases n,
{
    if n == 0 {
        assert(text.take(0) =~= Seq::empty());
    } else {
        lemma_doubled_from(row, s, at, text, (n - 1) as nat, rows);
        let before = text.take(n - 1);
        let here = text.take(n as int);
        assert(here.drop_last() =~= before);
        assert(here.last() == text[n - 1]);
        lemma_doubled_prefix(text, n as int);
        let c = text[n - 1];
        let i = at + doubled(before).len();
        let all = doubled(text);
        assert(s.subrange(at, at + all.len())[doubled(before).len() as int] == s[i]);
        assert(doubled(here)[doubled(before).len() as int] == c);
        assert(s[i] == c);
        if c == '"' {
            assert(s.subrange(at, at + all.len())[doubled(before).len() as int + 1] == s[i + 1]);
            assert(doubled(here)[doubled(before).len() as int + 1] == '"');
            assert(s[i + 1] == '"');
        }
        assert(before.push(c) =~= here);
    }
}

proof fn lemma_doubled_prefix(text: Seq<char>, n: int)
    requires
        0 <= n <= text.len(),
    ensures
        doubled(text.take(n)).len() <= doubled(text).len(),
        forall|j: int|
            0 <= j < doubled(text.take(n)).len() ==> #[trigger] doubled(text.take(n))[j] == doubled(
                text,
            )[j],
    decreases text.len(),
{
    if n < text.len() {
        assert(text.drop_last().take(n) =~= text.take(n));
        lemma_doubled_prefix(text.drop_last(), n);
    } else {
        assert(text.take(n) =~= text);
    }
}

proof fn lemma_plain_from(row: Row, s: Seq<char>, at: int, text: Seq<char>, n: nat, rows: Seq<Row>)
    requires
        0 <= at,
        n <= text.len(),
        cell_fine(Cell { text, quoted: false }),
        at + text.len() <= s.len(),
        s.subrange(at, at + text.len()) == text,
    ensures
        csv_from(at_start(row), s, at, rows) == csv_from(
            behind(row, Cell { text: text.take(n as int), quoted: false }),
            s,
            at + n,
            rows,
        ),
    decreases n,
{
    if n == 0 {
        assert(text.take(0) =~= Seq::empty());
    } else {
        lemma_plain_from(row, s, at, text, (n - 1) as nat, rows);
        let cell = Cell { text, quoted: false };
        assert(cell.text[n - 1] != '\r');
        assert(s.subrange(at, at + text.len())[n - 1] == s[at + n - 1]);
        assert(text.take(n - 1).push(text[n - 1]) =~= text.take(n as int));
    }
}

/// One field is read.
proof fn lemma_cell_from(row: Row, s: Seq<char>, at: int, cell: Cell, rows: Seq<Row>)
    requires
        0 <= at,
        cell_fine(cell),
        at + cell_written(cell).len() < s.len(),
        s.subrange(at, at + cell_written(cell).len()) == cell_written(cell),
        s[at + cell_written(cell).len()] != '"',
    ensures
        csv_from(at_start(row), s, at, rows) == csv_from(
            behind(row, cell),
            s,
            at + cell_written(cell).len(),
            rows,
        ),
{
    let text = cell.text;
    let written = cell_written(cell);
    if cell.quoted {
        let inner = doubled(text);
        assert forall|i: int| 0 <= i < written.len() implies s[at + i] == #[trigger] written[i] by {
            assert(s.subrange(at, at + written.len())[i] == s[at + i]);
        }
        assert(written[0] == '"' && written[written.len() - 1] == '"');
        assert(s[at + 0] == '"');
        assert(s[at + (written.len() - 1)] == '"');
        assert(s.subrange(at + 1, at + 1 + inner.len()) =~= inner) by {
            assert forall|i: int| 0 <= i < inner.len() implies s.subrange(
                at + 1,
                at + 1 + inner.len(),
            )[i] == inner[i] by {
                assert(s[at + (i + 1)] == written[i + 1]);
            }
        }
        assert forall|i: int| 0 <= i < text.len() implies (#[trigger] text[i]) != '\r' by {
            assert(cell.text[i] != '\r');
        }
        lemma_doubled_from(row, s, at + 1, text, text.len(), rows);
        assert(text.take(text.len() as int) =~= text);
        let open = CsvState {
            row,
            field: text,
            in_quotes: true,
            at_field_start: false,
            ..csv_start()
        };
        assert(csv_from(open, s, at + 1 + inner.len(), rows) == csv_from(
            behind(row, cell),
            s,
            at + written.len(),
            rows,
        ));
    } else {
        lemma_plain_from(row, s, at, text, text.len(), rows);
        assert(text.take(text.len() as int) =~= text);
        assert(cell == Cell { text, quoted: false });
    }
}

proof fn lemma_cells_prefix(cells: Seq<Cell>, k: int)
    requires
        0 < k <= cells.len(),
    ensures
        cells_written(cells.take(k)).len() <= cells_written(cells).len(),
        forall|j: int|
            0 <= j < cells_written(cells.take(k)).len() ==> #[trigger] cells_written(
                cells.take(k),
            )[j] == cells_written(cells)[j],
        k < cells.len() ==> cells_written(cells.take(k)).len() < cells_written(cells).len()
            && cells_written(cells)[cells_written(cells.take(k)).len() as int] == ',',
    decreases cells.len(),
{
    if k < cells.len() {
        let fewer = cells.drop_last();
        assert(fewer.take(k) =~= cells.take(k));
        lemma_cells_prefix(fewer, k);
        if k == fewer.len() {
            assert(fewer.take(k) =~= fewer);
        }
    } else {
        assert(cells.take(k) =~= cells);
    }
}

/// The first fields of a row are read.
#[verifier::spinoff_prover]
#[verifier::rlimit(40)]
proof fn lemma_cells_from(s: Seq<char>, at: int, cells: Seq<Cell>, k: nat, rows: Seq<Row>)
    requires
        0 <= at,
        0 < k <= cells.len(),
        forall|i: int| 0 <= i < cells.len() ==> cell_fine(#[trigger] cells[i]),
        at + cells_written(cells).len() < s.len(),
        s.subrange(at, at + cells_written(cells).len()) == cells_written(cells),
        s[at + cells_written(cells).len()] == '\n',
    ensures
        csv_from(csv_start(), s, at, rows) == csv_from(
            behind(cell_texts(cells.take(k - 1)), cells[k - 1]),
            s,
            at + cells_written(cells.take(k as int)).len(),
            rows,
        ),
    decreases k,
{
    let text = cells_written(cells);
    let here = cells_written(cells.take(k as int));
    let cell = cells[k - 1];
    let last = cell_written(cell);
    let row = cell_texts(cells.take(k - 1));
    lemma_cells_prefix(cells, k as int);
    assert forall|j: int| 0 <= j < text.len() implies s[at + j] == #[trigger] text[j] by {
        assert(s.subrange(at, at + text.len())[j] == s[at + j]);
    }
    assert(cells.take(k as int).last() == cell);
    assert(cells.take(k as int).drop_last() =~= cells.take(k - 1));
    let from = at + here.len() - last.len();
    let before = here.len() - last.len();
    if k == 1 {
        assert(cells.take(1)[0] == cell);
        assert(here == last);
        assert(row =~= Seq::empty());
    } else {
        assert(here == cells_written(cells.take(k - 1)) + seq![','] + last);
    }
    assert(s.subrange(from, from + last.len()) =~= last) by {
        assert forall|j: int| 0 <= j < last.len() implies s.subrange(from, from + last.len())[j]
            == last[j] by {
            assert(here[before + j] == last[j]);
            assert(text[before + j] == here[before + j]);
            assert(s[at + (before + j)] == text[before + j]);
        }
    }
    assert(s[at + here.len()] == ',' || s[at + here.len()] == '\n') by {
        if k < cells.len() {
            assert(s[at + here.len()] == text[here.len() as int]);
        } else {
            assert(cells.take(k as int) =~= cells);
        }
    }
    assert(cell_fine(cell));
    lemma_cell_from(row, s, from, cell, rows);
    if k > 1 {
        lemma_cells_from(s, at, cells, (k - 1) as nat, rows);
        let previous = cells_written(cells.take(k - 1));
        let state = behind(cell_texts(cells.take(k - 2)), cells[k - 2]);
        assert(here[previous.len() as int] == ',');
        assert(text[previous.len() as int] == here[previous.len() as int]);
        assert(s[at + previous.len()] == ',');
        assert(cell_texts(cells.take(k - 2)).push(cells[k - 2].text) =~= row);
        assert(field_ended(state) == at_start(row));
        assert(csv_from(state, s, at + previous.len(), rows) == csv_from(
            at_start(row),
            s,
            at + previous.len() + 1,
            rows,
        ));
    } else {
        assert(at_start(row) == csv_start());
    }
}

/// A row that is written, with each field in quotes or without, gives these fields,
/// whatever they hold, and what follows it is read on its own. A row whose fields are
/// all empty is left out.
#[verifier::rlimit(40)]
pub proof fn law_written_row_reads_back(
    s: Seq<char>,
    at: int,
    cells: Seq<Cell>,
    rows: Seq<Row>,
)
    requires
        0 <= at,
        cells.len() > 0,
        forall|i: int| 0 <= i < cells.len() ==> cell_fine(#[trigger] cells[i]),
        at + cells_written(cells).len() < s.len(),
        s.subrange(at, at + cells_written(cells).len()) == cells_written(cells),
        s[at + cells_written(cells).len()] == '\n',
    ensures
        csv_from(csv_start(), s, at, rows) == csv_from(
            csv_start(),
            s,
            at + cells_written(cells).len() + 1,
            if exists|i: int| 0 <= i < cells.len() && (#[trigger] cells[i]).text.len() > 0 {
                rows.push(cell_texts(cells))
            } else {
                rows
            },
        ),
{
    let n = cells.len();
    lemma_cells_from(s, at, cells, n, rows);
    assert(cells.take(n as int) =~= cells);
    let row = cell_texts(cells.take(n - 1));
    let all = cell_texts(cells);
    assert(row.push(cells[n - 1].text) =~= all);
    assert(row_filled(all) <==> exists|i: int|
        0 <= i < cells.len() && (#[trigger] cells[i]).text.len() > 0) by {
        if row_filled(all) {
            let i = choose|i: int| 0 <= i < all.len() && (#[trigger] all[i]).len() > 0;
            assert(cells[i].text.len() > 0);
        }
        if exists|i: int| 0 <= i < cells.len() && (#[trigger] cells[i]).text.len() > 0 {
            let i = choose|i: int| 0 <= i < cells.len() && (#[trigger] cells[i]).text.len() > 0;
            assert(all[i].len() > 0);
        }
    }
    let state = behind(row, cells[n - 1]);
    assert(CsvState { row: Seq::empty(), ..field_ended(state) } == csv_start());
}

} // verus!
