//! Rows of comma-separated fields.
use crate::corpus::preparer::{bump, bumped};
use crate::ordered::views;
use crate::text::{is_white, white};
use vstd::prelude::*;

verus! {

/// A row of fields.
pub type Row = Seq<Seq<char>>;

/// What has been read of the row under way.
pub struct CsvState {
    pub row: Row,
    pub field: Seq<char>,
    pub in_quotes: bool,
    pub quote_closed: bool,
    pub at_field_start: bool,
    pub malformed: u64,
}

/// Nothing has been read.
pub open spec fn csv_start() -> CsvState {
    CsvState {
        row: Seq::empty(),
        field: Seq::empty(),
        in_quotes: false,
        quote_closed: false,
        at_field_start: true,
        malformed: 0,
    }
}

/// A field ends.
pub open spec fn field_ended(c: CsvState) -> CsvState {
    CsvState {
        row: c.row.push(c.field),
        field: Seq::empty(),
        quote_closed: false,
        at_field_start: true,
        ..c
    }
}

/// A row has a field that is not empty.
pub open spec fn row_filled(row: Row) -> bool {
    exists|i: int| 0 <= i < row.len() && (#[trigger] row[i]).len() > 0
}

/// A row ends: it is one more row, unless all its fields are empty.
pub open spec fn row_ended(c: CsvState, rows: Seq<Row>) -> (CsvState, Seq<Row>) {
    let ended = field_ended(c);
    (
        CsvState { row: Seq::empty(), ..ended },
        if row_filled(ended.row) {
            rows.push(ended.row)
        } else {
            rows
        },
    )
}

/// The rows that end from a place of the input on, and what is left.
pub open spec fn csv_from(c: CsvState, s: Seq<char>, at: int, rows: Seq<Row>) -> (
    CsvState,
    Seq<Row>,
)
    decreases s.len() - at,
{
    if at < 0 || at >= s.len() {
        (c, rows)
    } else {
        let ch = s[at];
        if c.in_quotes {
            if ch == '"' {
                if at + 1 < s.len() && s[at + 1] == '"' {
                    csv_from(CsvState { field: c.field.push('"'), ..c }, s, at + 2, rows)
                } else {
                    csv_from(
                        CsvState { in_quotes: false, quote_closed: true, ..c },
                        s,
                        at + 1,
                        rows,
                    )
                }
            } else if ch == '\r' && at + 1 < s.len() && s[at + 1] == '\n' {
                csv_from(c, s, at + 1, rows)
            } else {
                csv_from(CsvState { field: c.field.push(ch), ..c }, s, at + 1, rows)
            }
        } else if ch == '"' && c.at_field_start {
            csv_from(CsvState { in_quotes: true, at_field_start: false, ..c }, s, at + 1, rows)
        } else if ch == ',' {
            csv_from(field_ended(c), s, at + 1, rows)
        } else if ch == '\r' && at + 1 < s.len() && s[at + 1] == '\n' {
            csv_from(c, s, at + 1, rows)
        } else if ch == '\n' || ch == '\r' {
            let (next, more) = row_ended(c, rows);
            csv_from(next, s, at + 1, more)
        } else if c.quote_closed && white(ch) {
            csv_from(c, s, at + 1, rows)
        } else {
            csv_from(
                CsvState {
                    field: c.field.push(ch),
                    at_field_start: false,
                    malformed: bumped(
                        c.malformed,
                        if c.quote_closed || ch == '"' {
                            1
                        } else {
                            0
                        },
                    ),
                    ..c
                },
                s,
                at + 1,
                rows,
            )
        }
    }
}

/// The input ends: what has been read of a row is a row.
pub open spec fn csv_end(c: CsvState) -> (CsvState, Seq<Row>) {
    let d = CsvState {
        in_quotes: false,
        malformed: bumped(
            c.malformed,
            if c.in_quotes {
                1
            } else {
                0
            },
        ),
        ..c
    };
    if d.field.len() > 0 || d.row.len() > 0 {
        row_ended(d, Seq::empty())
    } else {
        (d, Seq::empty())
    }
}

/// The row under way is given up.
pub open spec fn csv_reset(c: CsvState) -> CsvState {
    CsvState { malformed: bumped(c.malformed, 1), ..csv_start() }
}

/// The rows, as sequences.
pub open spec fn rows_of(rows: Seq<Vec<Vec<char>>>) -> Seq<Row> {
    Seq::new(rows.len(), |i: int| views(rows[i]@))
}

pub struct CsvParser {
    row: Vec<Vec<char>>,
    field: Vec<char>,
    in_quotes: bool,
    quote_closed: bool,
    at_field_start: bool,
    malformed: u64,
}

impl View for CsvParser {
    type V = CsvState;

    closed spec fn view(&self) -> CsvState {
        CsvState {
            row: views(self.row@),
            field: self.field@,
            in_quotes: self.in_quotes,
            quote_closed: self.quote_closed,
            at_field_start: self.at_field_start,
            malformed: self.malformed,
        }
    }
}

impl CsvParser {
    pub fn new() -> (r: Self)
        ensures
            r@ == csv_start(),
    {
        let r = CsvParser {
            row: Vec::new(),
            field: Vec::new(),
            in_quotes: false,
            quote_closed: false,
            at_field_start: true,
            malformed: 0,
        };
        proof {
            assert(r@.row =~= Seq::empty());
            assert(r@.field =~= Seq::empty());
        }
        r
    }

    fn finish_field(&mut self)
        ensures
            final(self)@ == field_ended(old(self)@),
    {
        let ghost before = views(self.row@);
        let ghost part = self.field@;
        let mut field: Vec<char> = Vec::new();
        std::mem::swap(&mut field, &mut self.field);
        self.row.push(field);
        self.quote_closed = false;
        self.at_field_start = true;
        proof {
            assert(views(self.row@) =~= before.push(part));
            assert(self.field@ =~= Seq::empty());
        }
    }

    fn finish_row(&mut self, rows: &mut Vec<Vec<Vec<char>>>)
        ensures
            (final(self)@, rows_of(final(rows)@)) == row_ended(old(self)@, rows_of(old(rows)@)),
    {
        let ghost before = rows_of(rows@);
        self.finish_field();
        let ghost ended = views(self.row@);
        let mut row: Vec<Vec<char>> = Vec::new();
        std::mem::swap(&mut row, &mut self.row);
        proof {
            assert(views(self.row@) =~= Seq::empty());
        }
        let mut filled = false;
        let mut i: usize = 0;
        while i < row.len() && !filled
            invariant
                i <= row@.len(),
                ended == views(row@),
                filled ==> row_filled(ended),
                !filled ==> forall|k: int| 0 <= k < i ==> (#[trigger] ended[k]).len() == 0,
            decreases row.len() - i,
        {
            if row[i].len() > 0 {
                filled = true;
                assert(ended[i as int].len() > 0);
            }
            i += 1;
        }
        if filled {
            rows.push(row);
            proof {
                assert(rows_of(rows@) =~= before.push(ended));
            }
        }
    }

    /// Reads further input, and adds the rows that end in it.
    pub fn feed(&mut self, input: &[char], rows: &mut Vec<Vec<Vec<char>>>)
        ensures
            (final(self)@, rows_of(final(rows)@)) == csv_from(
                old(self)@,
                input@,
                0,
                rows_of(old(rows)@),
            ),
    {
        let ghost s = input@;
        let ghost all = csv_from(self@, s, 0, rows_of(rows@));
        let length: usize = input.len();
        let mut at: usize = 0;
        while at < input.len()
            invariant
                at <= length,
                length == s.len(),
                s == input@,
                all == csv_from(self@, s, at as int, rows_of(rows@)),
            decreases s.len() - at,
        {
            let c = input[at];
            let follows = if at + 1 < length {
                Some(input[at + 1])
            } else {
                None
            };
            if self.in_quotes {
                if c == '"' {
                    if follows == Some('"') {
                        self.field.push('"');
                        at = at + 2;
                    } else {
                        self.in_quotes = false;
                        self.quote_closed = true;
                        at = at + 1;
                    }
                } else if c == '\r' && follows == Some('\n') {
                    at = at + 1;
                } else {
                    self.field.push(c);
                    at = at + 1;
                }
            } else if c == '"' && self.at_field_start {
                self.in_quotes = true;
                self.at_field_start = false;
                at = at + 1;
            } else if c == ',' {
                self.finish_field();
                at = at + 1;
            } else if c == '\r' && follows == Some('\n') {
                at = at + 1;
            } else if c == '\n' || c == '\r' {
                self.finish_row(rows);
                at = at + 1;
            } else if self.quote_closed && is_white(c) {
                at = at + 1;
            } else {
                if self.quote_closed || c == '"' {
                    self.malformed = bump(self.malformed, 1);
                }
                self.field.push(c);
                self.at_field_start = false;
                at = at + 1;
            }
        }
    }

    /// Ends the input: gives the row that was under way, if any, and tells
    /// whether quotes were out of place.
    pub fn finish(&mut self) -> (r: (Vec<Vec<Vec<char>>>, bool))
        ensures
            (final(self)@, rows_of(r.0@)) == csv_end(old(self)@),
            r.1 == (final(self)@.malformed != 0),
    {
        let mut rows: Vec<Vec<Vec<char>>> = Vec::new();
        proof {
            assert(rows_of(rows@) =~= Seq::empty());
        }
        if self.in_quotes {
            self.in_quotes = false;
            self.malformed = bump(self.malformed, 1);
        }
        if self.field.len() > 0 || self.row.len() > 0 {
            self.finish_row(&mut rows);
        }
        (rows, self.malformed != 0)
    }

    /// Gives up the row under way.
    pub fn reset_record(&mut self)
        ensures
            final(self)@ == csv_reset(old(self)@),
    {
        self.row = Vec::new();
        self.field = Vec::new();
        self.in_quotes = false;
        self.quote_closed = false;
        self.at_field_start = true;
        self.malformed = bump(self.malformed, 1);
        proof {
            assert(self@.row =~= Seq::empty());
            assert(self@.field =~= Seq::empty());
        }
    }
}

} // verus!
