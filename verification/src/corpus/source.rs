//! Reading a source line by line, or as a whole.
use crate::corpus::csv::{
    csv_end, csv_from, csv_reset, csv_start, rows_of, CsvParser, CsvState, Row,
};
use crate::corpus::fields::{
    count_record, emit_article, emit_dialogue, emit_page, emit_thread, skip_record, with_article,
    with_dialogue, with_logical, with_page, with_skipped, with_thread, Outcome,
};
use crate::corpus::json::{json_error_text, json_get_either, json_text, parse_json, Json};
use crate::corpus::poetry::{emit_poetry_value, with_poems};
use crate::corpus::preparer::{
    bump, bumped, with_error, with_field, with_invalid_line, Prepared, Preparer,
};
use crate::corpus::types::{lower_chars, lowered, PrepareStats, SourceKind};
use crate::corpus::xml::{xml_end, xml_feed, xml_start, MoegirlXml, XmlState};
use crate::index::shard::{raw_lines, split_raw_lines};
use crate::ordered::views;
use crate::text::{
    chars_of, copy_chars, find_char, first_place, spells, trim, trimmed, utf8_size, utf8_text,
};
use vstd::prelude::*;
use vstd::string::*;
use vstd::utf8::{decode_utf8, valid_utf8};

verus! {

/// How large a file of threads may be.
pub const TIEBA_INPUT_LIMIT: usize = 67108864;

/// Bytes without the line ends behind them.
pub open spec fn without_line_end(bytes: Seq<u8>) -> Seq<u8>
    decreases bytes.len(),
{
    if bytes.len() > 0 && (bytes.last() == 10 || bytes.last() == 13) {
        without_line_end(bytes.drop_last())
    } else {
        bytes
    }
}

/// Bytes without the line ends behind them.
fn strip_line_end(raw: &[u8]) -> (r: &[u8])
    ensures
        r@ == without_line_end(raw@),
{
    let mut n: usize = raw.len();
    assert(raw@.take(n as int) =~= raw@);
    while n > 0 && (raw[n - 1] == 10 || raw[n - 1] == 13)
        invariant
            n <= raw@.len(),
            without_line_end(raw@) == without_line_end(raw@.take(n as int)),
        decreases n,
    {
        assert(raw@.take(n as int).drop_last() =~= raw@.take(n - 1));
        n -= 1;
    }
    proof {
        assert(raw@.subrange(0, n as int) =~= raw@.take(n as int));
    }
    &raw[0..n]
}

/// How far a source has been read.
pub struct SourceView {
    pub line: u64,
    pub opened: bool,
    pub closed: bool,
    pub xml: XmlState,
    pub csv: CsvState,
    pub column: Option<int>,
    pub any_row: bool,
}

/// Nothing has been read of a source.
pub open spec fn source_start() -> SourceView {
    SourceView {
        line: 0,
        opened: false,
        closed: false,
        xml: xml_start(),
        csv: csv_start(),
        column: None,
        any_row: false,
    }
}

/// The words of a line of the word list, once the list has been opened.
pub open spec fn with_word_line(
    x: SourceView,
    p: Prepared,
    source: Seq<char>,
    number: u64,
    content: Seq<char>,
) -> (SourceView, Prepared) {
    let end = first_place(content, '`');
    let words = match end {
        Some(i) => content.take(i),
        None => content,
    };
    let q = match end {
        Some(i) => {
            let trailing = trimmed(content.skip(i + 1));
            if trailing.len() > 0 && trailing != ";"@ {
                with_error(p, source, number, "词表结束反引号后含未知内容"@, trailing)
            } else {
                p
            }
        },
        None => p,
    };
    (
        SourceView { opened: true, closed: x.closed || end is Some, ..x },
        if trimmed(words).len() > 0 {
            with_field(with_logical(q), trimmed(words), 20, false)
        } else {
            q
        },
    )
}

/// A line of the word list.
pub open spec fn with_list_line(
    x: SourceView,
    p: Prepared,
    source: Seq<char>,
    number: u64,
    text: Seq<char>,
) -> (SourceView, Prepared) {
    if x.opened {
        with_word_line(x, p, source, number, text)
    } else {
        match first_place(text, '`') {
            Some(i) => with_word_line(x, p, source, number, text.skip(i + 1)),
            None => (
                x,
                if trimmed(text).len() > 0 {
                    with_error(p, source, number, "词表模板字符串前出现未知内容"@, text)
                } else {
                    p
                },
            ),
        }
    }
}

/// What a value of this source gives.
pub open spec fn with_value(kind: SourceKind, p: Prepared, v: Json) -> Outcome {
    match kind {
        SourceKind::BaiduBaike => with_article(p, v),
        SourceKind::Wikipedia => with_page(p, v),
        _ => with_dialogue(p, v),
    }
}

/// A line that writes a value.
pub open spec fn with_json_line(
    kind: SourceKind,
    p: Prepared,
    source: Seq<char>,
    number: u64,
    text: Seq<char>,
) -> Prepared {
    if trimmed(text).len() == 0 {
        p
    } else {
        match json_text(text) {
            Err((at, message)) => with_error(
                with_skipped(p),
                source,
                number,
                json_error_text(utf8_size(text.take(at)), message),
                text,
            ),
            Ok(v) => {
                let a = with_value(kind, p, v);
                match a.1 {
                    None => with_logical(a.0),
                    Some(message) => with_error(with_skipped(a.0), source, number, message, text),
                }
            },
        }
    }
}

/// A text without the byte order marks at its start.
pub open spec fn without_marks(s: Seq<char>) -> Seq<char>
    decreases s.len(),
{
    if s.len() > 0 && s[0] == '\u{FEFF}' {
        without_marks(s.skip(1))
    } else {
        s
    }
}

/// The field is the head of the column with the messages.
pub open spec fn message_head(field: Seq<char>) -> bool {
    lowered(trimmed(without_marks(field))) == "message"@
}

/// The first column with the messages.
pub open spec fn message_column(row: Row) -> Option<int>
    decreases row.len(),
{
    if row.len() == 0 {
        None
    } else if message_head(row[0]) {
        Some(0)
    } else {
        match message_column(row.skip(1)) {
            Some(i) => Some(i + 1),
            None => None,
        }
    }
}

/// The fields of a row with commas between them.
pub open spec fn joined_row(row: Row) -> Seq<char>
    decreases row.len(),
{
    if row.len() == 0 {
        Seq::empty()
    } else if row.len() == 1 {
        row[0]
    } else {
        joined_row(row.drop_last()).push(',') + row.last()
    }
}

/// A row of comments. The first row tells the column.
pub open spec fn with_row(
    x: SourceView,
    p: Prepared,
    source: Seq<char>,
    number: u64,
    row: Row,
) -> (SourceView, Prepared) {
    match x.column {
        None => {
            let found = message_column(row);
            (
                SourceView { column: found, any_row: true, ..x },
                if found is None {
                    with_error(
                        p,
                        source,
                        number,
                        "Bilibili CSV 表头缺少 message 列"@,
                        joined_row(row),
                    )
                } else {
                    p
                },
            )
        },
        Some(c) => (
            SourceView { any_row: true, ..x },
            if 0 <= c < row.len() {
                with_field(with_logical(p), row[c], 1, true)
            } else {
                with_error(
                    with_skipped(p),
                    source,
                    number,
                    "Bilibili CSV 记录列数少于表头"@,
                    joined_row(row),
                )
            },
        ),
    }
}

/// The first `n` rows.
pub open spec fn with_rows(
    x: SourceView,
    p: Prepared,
    source: Seq<char>,
    number: u64,
    rows: Seq<Row>,
    n: nat,
) -> (SourceView, Prepared)
    decreases n,
{
    if n == 0 || n > rows.len() {
        (x, p)
    } else {
        let (y, q) = with_rows(x, p, source, number, rows, (n - 1) as nat);
        with_row(y, q, source, number, rows[n - 1])
    }
}

/// A line of comments.
pub open spec fn with_comment_line(
    x: SourceView,
    p: Prepared,
    source: Seq<char>,
    number: u64,
    text: Seq<char>,
) -> (SourceView, Prepared) {
    let (csv, rows) = csv_from(x.csv, text.push('\n'), 0, Seq::empty());
    with_rows(SourceView { csv, ..x }, p, source, number, rows, rows.len())
}

/// A line that is a text.
pub open spec fn with_text_line(
    kind: SourceKind,
    x: SourceView,
    p: Prepared,
    source: Seq<char>,
    number: u64,
    text: Seq<char>,
) -> (SourceView, Prepared) {
    match kind {
        SourceKind::Wordlist => with_list_line(x, p, source, number, text),
        SourceKind::BaiduBaike | SourceKind::Wikipedia | SourceKind::Train => (
            x,
            with_json_line(kind, p, source, number, text),
        ),
        SourceKind::Moegirl => {
            let (xml, q) = xml_feed(x.xml, p, source, number, text.push('\n'));
            (SourceView { xml, ..x }, q)
        },
        SourceKind::Bilibili => with_comment_line(x, p, source, number, text),
        SourceKind::Tieba | SourceKind::Poetry => (x, p),
    }
}

/// A line that is no text.
pub open spec fn with_bad_line(
    kind: SourceKind,
    x: SourceView,
    p: Prepared,
    source: Seq<char>,
    number: u64,
    bytes: Seq<u8>,
) -> (SourceView, Prepared) {
    let q = with_invalid_line(p, source, number, bytes);
    match kind {
        SourceKind::Moegirl => (
            SourceView {
                xml: XmlState { pending: Seq::empty(), active: None, ..x.xml },
                ..x
            },
            q,
        ),
        SourceKind::Bilibili => (SourceView { csv: csv_reset(x.csv), ..x }, q),
        _ => (x, q),
    }
}

/// The source is read line by line.
pub open spec fn by_lines(kind: SourceKind) -> bool {
    !(kind is Tieba) && !(kind is Poetry)
}

/// A line is counted.
pub open spec fn with_line_counted(p: Prepared, size: nat) -> Prepared {
    Prepared {
        stats: PrepareStats {
            physical_lines: bumped(p.stats.physical_lines, 1),
            bytes_read: bumped(p.stats.bytes_read, size),
            ..p.stats
        },
        ..p
    }
}

/// A line, with its end. Behind the end of the word list no line is read.
pub open spec fn with_line(
    kind: SourceKind,
    x: SourceView,
    p: Prepared,
    source: Seq<char>,
    raw: Seq<u8>,
) -> (SourceView, Prepared) {
    if x.closed {
        (x, p)
    } else {
        let number = bumped(x.line, 1);
        let y = SourceView { line: number, ..x };
        let q = with_line_counted(p, raw.len());
        let bytes = without_line_end(raw);
        if valid_utf8(bytes) {
            with_text_line(kind, y, q, source, number, decode_utf8(bytes))
        } else {
            with_bad_line(kind, y, q, source, number, bytes)
        }
    }
}

/// The first `n` lines.
pub open spec fn with_lines(
    kind: SourceKind,
    x: SourceView,
    p: Prepared,
    source: Seq<char>,
    lines: Seq<Seq<u8>>,
    n: nat,
) -> (SourceView, Prepared)
    decreases n,
{
    if n == 0 || n > lines.len() {
        (x, p)
    } else {
        let (y, q) = with_lines(kind, x, p, source, lines, (n - 1) as nat);
        with_line(kind, y, q, source, lines[n - 1])
    }
}

/// The rest of a row of comments at the end of the source.
pub open spec fn with_last_row(x: SourceView, p: Prepared, row: Row) -> Prepared {
    match x.column {
        Some(c) => if 0 <= c < row.len() {
            with_field(with_logical(p), row[c], 1, true)
        } else {
            p
        },
        None => p,
    }
}

/// The end of the comments.
pub open spec fn with_comments_end(x: SourceView, p: Prepared, source: Seq<char>) -> Prepared {
    let (csv, rows) = csv_end(x.csv);
    let q = if rows.len() > 0 {
        with_last_row(x, p, rows[0])
    } else {
        p
    };
    let r = if csv.malformed != 0 {
        with_error(
            q,
            source,
            q.stats.physical_lines,
            "Bilibili CSV 存在未闭合或位置错误的引号"@,
            Seq::empty(),
        )
    } else {
        q
    };
    if !x.any_row && rows.len() == 0 {
        with_error(r, source, 0, "Bilibili CSV 为空"@, Seq::empty())
    } else {
        r
    }
}

/// The end of a source that is read line by line.
pub open spec fn with_end(kind: SourceKind, x: SourceView, p: Prepared, source: Seq<char>) -> Prepared {
    match kind {
        SourceKind::Wordlist => if !x.opened {
            with_error(p, source, 0, "找不到 out.js 模板字符串起始反引号"@, Seq::empty())
        } else if !x.closed {
            with_error(p, source, 0, "找不到 out.js 模板字符串结束反引号"@, Seq::empty())
        } else {
            p
        },
        SourceKind::Moegirl => xml_end(x.xml, p, source, x.line),
        SourceKind::Bilibili => with_comments_end(x, p, source),
        _ => p,
    }
}

/// The first `n` threads.
pub open spec fn with_threads(p: Prepared, source: Seq<char>, items: Seq<Json>, n: nat) -> Prepared
    decreases n,
{
    if n == 0 || n > items.len() {
        p
    } else {
        let before = with_threads(p, source, items, (n - 1) as nat);
        let a = with_thread(before, items[n - 1]);
        match a.1 {
            None => with_logical(a.0),
            Some(message) => with_error(with_skipped(a.0), source, 0, message, Seq::empty()),
        }
    }
}

/// The threads of a value.
pub open spec fn threads_of(v: Json) -> Option<Seq<Json>> {
    match v {
        Json::List(items) => Some(items),
        _ => match json_get_either(v, "data"@, "threads"@) {
            Some(Json::List(items)) => Some(items),
            _ => None,
        },
    }
}

/// The text of a file of threads.
pub open spec fn with_forum_text(p: Prepared, source: Seq<char>, text: Seq<char>) -> Prepared {
    match json_text(text) {
        Err((at, message)) => with_skipped(
            with_error(
                p,
                source,
                0,
                json_error_text(utf8_size(text.take(at)), message),
                text,
            ),
        ),
        Ok(v) => match threads_of(v) {
            Some(items) => with_threads(p, source, items, items.len()),
            None => with_skipped(
                with_error(p, source, 0, "Tieba 顶层必须是数组或含 data/threads 数组"@, text),
            ),
        },
    }
}

/// Bytes are counted.
pub open spec fn with_bytes_counted(p: Prepared, size: nat) -> Prepared {
    Prepared {
        stats: PrepareStats { bytes_read: bumped(p.stats.bytes_read, size), ..p.stats },
        ..p
    }
}

/// A file of threads.
pub open spec fn with_forum(p: Prepared, source: Seq<char>, bytes: Seq<u8>) -> Prepared {
    let q = with_bytes_counted(p, bytes.len());
    if bytes.len() > TIEBA_INPUT_LIMIT {
        with_skipped(with_error(q, source, 0, "Tieba JSON 超过 64 MiB 上限"@, Seq::empty()))
    } else if !valid_utf8(bytes) {
        with_skipped(with_invalid_line(q, source, 0, bytes))
    } else {
        with_forum_text(q, source, decode_utf8(bytes))
    }
}

/// A file of poems.
pub open spec fn with_collection(p: Prepared, source: Seq<char>, bytes: Seq<u8>) -> Prepared {
    let q = with_bytes_counted(p, bytes.len());
    if !valid_utf8(bytes) {
        with_skipped(with_invalid_line(q, source, 0, bytes))
    } else {
        let text = decode_utf8(bytes);
        let r = Prepared {
            stats: PrepareStats {
                physical_lines: bumped(q.stats.physical_lines, raw_lines(text).len()),
                ..q.stats
            },
            ..q
        };
        match json_text(text) {
            Err((at, message)) => with_skipped(
                with_error(
                    r,
                    source,
                    0,
                    json_error_text(utf8_size(text.take(at)), message),
                    text,
                ),
            ),
            Ok(v) => with_poems(r, v),
        }
    }
}

/// A file that is read as a whole.
pub open spec fn with_whole(kind: SourceKind, p: Prepared, source: Seq<char>, bytes: Seq<u8>) -> Prepared {
    match kind {
        SourceKind::Tieba => with_forum(p, source, bytes),
        _ => with_collection(p, source, bytes),
    }
}

/// The lines of bytes, each with its end.
pub open spec fn byte_lines(s: Seq<u8>) -> Seq<Seq<u8>>
    decreases s.len(),
{
    if s.len() == 0 {
        Seq::empty()
    } else {
        let before = byte_lines(s.drop_last());
        if s.len() > 1 && s[s.len() - 2] != 10 {
            before.drop_last().push(before.last().push(s.last()))
        } else {
            before.push(seq![s.last()])
        }
    }
}

/// A file.
pub open spec fn with_file(kind: SourceKind, p: Prepared, source: Seq<char>, bytes: Seq<u8>) -> Prepared {
    if by_lines(kind) {
        let lines = byte_lines(bytes);
        let (x, q) = with_lines(kind, source_start(), p, source, lines, lines.len());
        with_end(kind, x, q, source)
    } else {
        with_whole(kind, p, source, bytes)
    }
}

/// No characters.
fn no_chars() -> (r: Vec<char>)
    ensures
        r@ == Seq::<char>::empty(),
{
    let r: Vec<char> = Vec::new();
    assert(r@ =~= Seq::empty());
    r
}

/// Reads a source that is read line by line.
pub struct SourceReader {
    kind: SourceKind,
    source: String,
    line: u64,
    opened: bool,
    closed: bool,
    xml: MoegirlXml,
    csv: CsvParser,
    column: Option<usize>,
    any_row: bool,
}

impl View for SourceReader {
    type V = SourceView;

    closed spec fn view(&self) -> SourceView {
        SourceView {
            line: self.line,
            opened: self.opened,
            closed: self.closed,
            xml: self.xml@,
            csv: self.csv@,
            column: match self.column {
                Some(c) => Some(c as int),
                None => None,
            },
            any_row: self.any_row,
        }
    }
}

impl SourceReader {
    pub closed spec fn kind(&self) -> SourceKind {
        self.kind
    }

    pub closed spec fn source(&self) -> Seq<char> {
        self.source@
    }

    /// The reader reads the same source.
    pub open spec fn same_source(&self, other: &Self) -> bool {
        self.kind() == other.kind() && self.source() == other.source()
    }

    pub fn new(kind: SourceKind, source: &str) -> (r: Self)
        ensures
            r.kind() == kind,
            r.source() == source@,
            r@ == source_start(),
    {
        SourceReader {
            kind,
            source: source.to_owned(),
            line: 0,
            opened: false,
            closed: false,
            xml: MoegirlXml::new(),
            csv: CsvParser::new(),
            column: None,
            any_row: false,
        }
    }

    /// Whether no further line is read.
    pub fn is_done(&self) -> (r: bool)
        ensures
            r == self@.closed,
    {
        self.closed
    }

    fn read_words(&mut self, text: &[char], preparer: &mut Preparer)
        ensures
            final(preparer).wf() == old(preparer).wf(),
            final(preparer).kind() == old(preparer).kind(),
            final(self).same_source(old(self)),
            (final(self)@, final(preparer)@) == with_list_line(
                old(self)@,
                old(preparer)@,
                old(self).source(),
                old(self)@.line,
                text@,
            ),
    {
        let n: usize = text.len();
        let mut from: usize = 0;
        if !self.opened {
            match find_char(text, '`') {
                None => {
                    if trim(text).len() > 0 {
                        preparer.error(
                            self.source.as_str(),
                            self.line,
                            "词表模板字符串前出现未知内容",
                            text,
                        );
                    }
                    return ;
                },
                Some(i) => {
                    self.opened = true;
                    from = i + 1;
                    proof {
                        assert(text@.subrange(from as int, n as int) =~= text@.skip(i + 1));
                    }
                },
            }
        } else {
            proof {
                assert(text@.subrange(0, n as int) =~= text@);
            }
        }
        let content = &text[from..n];
        let m: usize = content.len();
        let mut to: usize = m;
        proof {
            assert(content@.subrange(0, m as int) =~= content@);
        }
        if let Some(i) = find_char(content, '`') {
            let trailing = trim(&content[i + 1..m]);
            proof {
                assert(content@.subrange(i + 1, m as int) =~= content@.skip(i + 1));
                assert(content@.subrange(0, i as int) =~= content@.take(i as int));
            }
            if trailing.len() > 0 && !spells(trailing, ";") {
                preparer.error(
                    self.source.as_str(),
                    self.line,
                    "词表结束反引号后含未知内容",
                    trailing,
                );
            }
            to = i;
            self.closed = true;
        }
        let words = trim(&content[0..to]);
        if words.len() > 0 {
            count_record(preparer);
            preparer.selected_text(words, 20);
        }
    }

    fn read_value(&self, text: &str, preparer: &mut Preparer)
        requires
            by_lines(self.kind()),
            !(self.kind() is Wordlist),
            !(self.kind() is Moegirl),
            !(self.kind() is Bilibili),
        ensures
            final(preparer).wf() == old(preparer).wf(),
            final(preparer).kind() == old(preparer).kind(),
            final(preparer)@ == with_json_line(
                self.kind(),
                old(preparer)@,
                self.source(),
                self@.line,
                text@,
            ),
    {
        let chars = chars_of(text);
        if trim(chars.as_slice()).len() == 0 {
            return ;
        }
        match parse_json(text) {
            Err(e) => {
                skip_record(preparer);
                let message = e.to_text();
                preparer.error(
                    self.source.as_str(),
                    self.line,
                    message.as_str(),
                    chars.as_slice(),
                );
            },
            Ok(value) => {
                let done = match self.kind {
                    SourceKind::BaiduBaike => emit_article(&value, preparer),
                    SourceKind::Wikipedia => emit_page(&value, preparer),
                    _ => emit_dialogue(&value, preparer),
                };
                match done {
                    Ok(()) => {
                        count_record(preparer);
                    },
                    Err(message) => {
                        skip_record(preparer);
                        preparer.error(
                            self.source.as_str(),
                            self.line,
                            message,
                            chars.as_slice(),
                        );
                    },
                }
            },
        }
    }

    fn read_row(&mut self, row: &Vec<Vec<char>>, preparer: &mut Preparer)
        ensures
            final(preparer).wf() == old(preparer).wf(),
            final(preparer).kind() == old(preparer).kind(),
            final(self).same_source(old(self)),
            (final(self)@, final(preparer)@) == with_row(
                old(self)@,
                old(preparer)@,
                old(self).source(),
                old(self)@.line,
                views(row@),
            ),
    {
        self.any_row = true;
        match self.column {
            None => {
                self.column = find_message_column(row);
                if self.column.is_none() {
                    let joined = join_row(row);
                    preparer.error(
                        self.source.as_str(),
                        self.line,
                        "Bilibili CSV 表头缺少 message 列",
                        joined.as_slice(),
                    );
                }
            },
            Some(column) => {
                if column < row.len() {
                    count_record(preparer);
                    preparer.selected_social_text(row[column].as_slice(), 1);
                } else {
                    skip_record(preparer);
                    let joined = join_row(row);
                    preparer.error(
                        self.source.as_str(),
                        self.line,
                        "Bilibili CSV 记录列数少于表头",
                        joined.as_slice(),
                    );
                }
            },
        }
    }

    fn read_comments(&mut self, text: &Vec<char>, preparer: &mut Preparer)
        ensures
            final(preparer).wf() == old(preparer).wf(),
            final(preparer).kind() == old(preparer).kind(),
            final(self).same_source(old(self)),
            (final(self)@, final(preparer)@) == with_comment_line(
                old(self)@,
                old(preparer)@,
                old(self).source(),
                old(self)@.line,
                text@,
            ),
    {
        let mut input = copy_chars(text.as_slice());
        input.push('\n');
        let mut rows: Vec<Vec<Vec<char>>> = Vec::new();
        proof {
            assert(rows_of(rows@) =~= Seq::empty());
        }
        self.csv.feed(input.as_slice(), &mut rows);
        let ghost start = *self;
        let ghost first = preparer@;
        let ghost all = rows_of(rows@);
        let mut i: usize = 0;
        while i < rows.len()
            invariant
                i <= rows@.len(),
                all == rows_of(rows@),
                start.same_source(old(self)),
                start@.line == old(self)@.line,
                self.same_source(old(self)),
                self@.line == start@.line,
                preparer.wf() == old(preparer).wf(),
                preparer.kind() == old(preparer).kind(),
                (self@, preparer@) == with_rows(
                    start@,
                    first,
                    start.source(),
                    start@.line,
                    all,
                    i as nat,
                ),
            decreases rows.len() - i,
        {
            assert(all[i as int] == views(rows@[i as int]@));
            self.read_row(&rows[i], preparer);
            i += 1;
        }
    }

    /// Reads a line with its end.
    pub fn read_line(&mut self, raw: &[u8], preparer: &mut Preparer)
        requires
            by_lines(old(self).kind()),
        ensures
            final(preparer).wf() == old(preparer).wf(),
            final(preparer).kind() == old(preparer).kind(),
            final(self).same_source(old(self)),
            (final(self)@, final(preparer)@) == with_line(
                old(self).kind(),
                old(self)@,
                old(preparer)@,
                old(self).source(),
                raw@,
            ),
    {
        if self.closed {
            return ;
        }
        self.line = bump(self.line, 1);
        let mut stats = preparer.stats();
        stats.physical_lines = bump(stats.physical_lines, 1);
        stats.bytes_read = bump(stats.bytes_read, raw.len() as u64);
        preparer.set_stats(stats);
        let bytes = strip_line_end(raw);
        match utf8_text(bytes) {
            None => {
                preparer.invalid_utf8(self.source.as_str(), self.line, bytes);
                match self.kind {
                    SourceKind::Moegirl => {
                        self.xml.give_up();
                    },
                    SourceKind::Bilibili => {
                        self.csv.reset_record();
                    },
                    _ => {},
                }
            },
            Some(text) => {
                match self.kind {
                    SourceKind::Wordlist => {
                        let chars = chars_of(text.as_str());
                        self.read_words(chars.as_slice(), preparer);
                    },
                    SourceKind::Moegirl => {
                        let mut chars = chars_of(text.as_str());
                        chars.push('\n');
                        self.xml.feed(
                            self.source.as_str(),
                            self.line,
                            chars.as_slice(),
                            preparer,
                        );
                    },
                    SourceKind::Bilibili => {
                        let chars = chars_of(text.as_str());
                        self.read_comments(&chars, preparer);
                    },
                    _ => {
                        self.read_value(text.as_str(), preparer);
                    },
                }
            },
        }
    }

    fn finish_comments(&mut self, preparer: &mut Preparer)
        ensures
            final(preparer).wf() == old(preparer).wf(),
            final(preparer).kind() == old(preparer).kind(),
            final(preparer)@ == with_comments_end(
                old(self)@,
                old(preparer)@,
                old(self).source(),
            ),
    {
        let (rows, malformed) = self.csv.finish();
        let ghost all = rows_of(rows@);
        if rows.len() > 0 {
            assert(all[0] == views(rows@[0]@));
            if let Some(column) = self.column {
                if column < rows[0].len() {
                    count_record(preparer);
                    preparer.selected_social_text(rows[0][column].as_slice(), 1);
                }
            }
        }
        let none = no_chars();
        if malformed {
            let line: u64 = preparer.stats().physical_lines;
            preparer.error(
                self.source.as_str(),
                line,
                "Bilibili CSV 存在未闭合或位置错误的引号",
                none.as_slice(),
            );
        }
        if !self.any_row && rows.len() == 0 {
            preparer.error(self.source.as_str(), 0, "Bilibili CSV 为空", none.as_slice());
        }
    }

    /// Ends the source.
    pub fn finish(self, preparer: &mut Preparer)
        requires
            by_lines(self.kind()),
        ensures
            final(preparer).wf() == old(preparer).wf(),
            final(preparer).kind() == old(preparer).kind(),
            final(preparer)@ == with_end(self.kind(), self@, old(preparer)@, self.source()),
    {
        let mut this = self;
        match this.kind {
            SourceKind::Wordlist => {
                let none = no_chars();
                if !this.opened {
                    preparer.error(
                        this.source.as_str(),
                        0,
                        "找不到 out.js 模板字符串起始反引号",
                        none.as_slice(),
                    );
                } else if !this.closed {
                    preparer.error(
                        this.source.as_str(),
                        0,
                        "找不到 out.js 模板字符串结束反引号",
                        none.as_slice(),
                    );
                }
            },
            SourceKind::Moegirl => {
                this.xml.finish(this.source.as_str(), this.line, preparer);
            },
            SourceKind::Bilibili => {
                this.finish_comments(preparer);
            },
            _ => {},
        }
    }
}

/// The first column with the messages.
fn find_message_column(row: &Vec<Vec<char>>) -> (r: Option<usize>)
    ensures
        message_column(views(row@)) == match r {
            Some(i) => Some(i as int),
            None => None::<int>,
        },
{
    let ghost all = views(row@);
    let mut i: usize = 0;
    assert(all.skip(0) =~= all);
    while i < row.len()
        invariant
            i <= row@.len(),
            all == views(row@),
            message_column(all) == match message_column(all.skip(i as int)) {
                Some(k) => Some(k + i),
                None => None,
            },
        decreases row.len() - i,
    {
        proof {
            assert(all.skip(i as int)[0] == row@[i as int]@);
            assert(all.skip(i as int).skip(1) =~= all.skip(i + 1));
        }
        if is_message_head(row[i].as_slice()) {
            return Some(i);
        }
        i += 1;
    }
    None
}

fn is_message_head(field: &[char]) -> (r: bool)
    ensures
        r == message_head(field@),
{
    let n: usize = field.len();
    let mut from: usize = 0;
    assert(field@.skip(0) =~= field@);
    while from < n && field[from] == '\u{FEFF}'
        invariant
            from <= n,
            n == field@.len(),
            without_marks(field@) == without_marks(field@.skip(from as int)),
        decreases n - from,
    {
        assert(field@.skip(from as int)[0] == field@[from as int]);
        assert(field@.skip(from as int).skip(1) =~= field@.skip(from + 1));
        from += 1;
    }
    proof {
        if from < n {
            assert(field@.skip(from as int)[0] == field@[from as int]);
        }
        assert(field@.subrange(from as int, n as int) =~= field@.skip(from as int));
    }
    let name = lower_chars(trim(&field[from..n]));
    spells(name.as_slice(), "message")
}

/// The fields of a row with commas between them.
fn join_row(row: &Vec<Vec<char>>) -> (r: Vec<char>)
    ensures
        r@ == joined_row(views(row@)),
{
    let ghost all = views(row@);
    let mut out: Vec<char> = Vec::new();
    let mut i: usize = 0;
    assert(all.take(0) =~= Seq::empty());
    assert(out@ =~= joined_row(all.take(0)));
    while i < row.len()
        invariant
            i <= row@.len(),
            all == views(row@),
            out@ == joined_row(all.take(i as int)),
        decreases row.len() - i,
    {
        let ghost before = out@;
        proof {
            assert(all.take(i + 1).drop_last() =~= all.take(i as int));
            assert(all.take(i + 1).last() == row@[i as int]@);
        }
        if i > 0 {
            out.push(',');
        }
        let ghost mid = out@;
        out.extend_from_slice(row[i].as_slice());
        proof {
            assert(out@ =~= mid + row@[i as int]@);
            assert(out@ =~= joined_row(all.take(i + 1)));
        }
        i += 1;
    }
    assert(all.take(i as int) =~= all);
    out
}

/// Reads a file of threads.
fn process_tieba(source: &str, bytes: &[u8], preparer: &mut Preparer)
    ensures
        final(preparer).wf() == old(preparer).wf(),
        final(preparer).kind() == old(preparer).kind(),
        final(preparer)@ == with_forum(old(preparer)@, source@, bytes@),
{
    let mut stats = preparer.stats();
    stats.bytes_read = bump(stats.bytes_read, bytes.len() as u64);
    preparer.set_stats(stats);
    let none = no_chars();
    if bytes.len() > TIEBA_INPUT_LIMIT {
        preparer.error(source, 0, "Tieba JSON 超过 64 MiB 上限", none.as_slice());
        skip_record(preparer);
        return ;
    }
    let text = match utf8_text(bytes) {
        Some(text) => text,
        None => {
            preparer.invalid_utf8(source, 0, bytes);
            skip_record(preparer);
            return ;
        },
    };
    let chars = chars_of(text.as_str());
    let root = match parse_json(text.as_str()) {
        Ok(value) => value,
        Err(e) => {
            let message = e.to_text();
            preparer.error(source, 0, message.as_str(), chars.as_slice());
            skip_record(preparer);
            return ;
        },
    };
    let threads = match root.as_array() {
        Some(values) => Some(values),
        None => match root.get_either("data", "threads") {
            Some(found) => found.as_array(),
            None => None,
        },
    };
    match threads {
        None => {
            preparer.error(
                source,
                0,
                "Tieba 顶层必须是数组或含 data/threads 数组",
                chars.as_slice(),
            );
            skip_record(preparer);
        },
        Some(values) => {
            let ghost all = views(values@);
            let ghost start = preparer@;
            let mut i: usize = 0;
            while i < values.len()
                invariant
                    i <= values@.len(),
                    all == views(values@),
                    none@ == Seq::<char>::empty(),
                    preparer.wf() == old(preparer).wf(),
                    preparer.kind() == old(preparer).kind(),
                    preparer@ == with_threads(start, source@, all, i as nat),
                decreases values.len() - i,
            {
                assert(all[i as int] == values@[i as int]@);
                match emit_thread(&values[i], preparer) {
                    Ok(()) => {
                        count_record(preparer);
                    },
                    Err(message) => {
                        skip_record(preparer);
                        preparer.error(source, 0, message, none.as_slice());
                    },
                }
                i += 1;
            }
        },
    }
}

/// Reads a file of poems.
fn process_poetry(source: &str, bytes: &[u8], preparer: &mut Preparer)
    requires
        old(preparer).wf(),
    ensures
        final(preparer).wf(),
        final(preparer).kind() == old(preparer).kind(),
        final(preparer)@ == with_collection(old(preparer)@, source@, bytes@),
{
    let mut stats = preparer.stats();
    stats.bytes_read = bump(stats.bytes_read, bytes.len() as u64);
    preparer.set_stats(stats);
    let text = match utf8_text(bytes) {
        Some(text) => text,
        None => {
            preparer.invalid_utf8(source, 0, bytes);
            skip_record(preparer);
            return ;
        },
    };
    let chars = chars_of(text.as_str());
    let lines = split_raw_lines(chars.as_slice());
    proof {
        assert(views(lines@).len() == lines@.len());
    }
    let mut stats = preparer.stats();
    stats.physical_lines = bump(stats.physical_lines, lines.len() as u64);
    preparer.set_stats(stats);
    match parse_json(text.as_str()) {
        Ok(root) => {
            emit_poetry_value(&root, preparer);
        },
        Err(e) => {
            let message = e.to_text();
            preparer.error(source, 0, message.as_str(), chars.as_slice());
            skip_record(preparer);
        },
    }
}

/// Reads a file that is read as a whole.
pub fn process_whole(kind: SourceKind, source: &str, bytes: &[u8], preparer: &mut Preparer)
    requires
        old(preparer).wf(),
    ensures
        final(preparer).wf(),
        final(preparer).kind() == old(preparer).kind(),
        final(preparer)@ == with_whole(kind, old(preparer)@, source@, bytes@),
{
    match kind {
        SourceKind::Tieba => {
            process_tieba(source, bytes, preparer);
        },
        _ => {
            process_poetry(source, bytes, preparer);
        },
    }
}

/// The lines of bytes, each with its end.
fn split_byte_lines(s: &[u8]) -> (r: Vec<Vec<u8>>)
    ensures
        views(r@) == byte_lines(s@),
{
    let mut lines: Vec<Vec<u8>> = Vec::new();
    let mut current: Vec<u8> = Vec::new();
    let mut i: usize = 0;
    assert(s@.take(0) =~= Seq::empty());
    assert(views(lines@) =~= byte_lines(s@.take(0)));
    while i < s.len()
        invariant
            i <= s@.len(),
            if i == 0 || s@[i - 1] == 10 {
                current@.len() == 0 && views(lines@) == byte_lines(s@.take(i as int))
            } else {
                current@.len() > 0 && views(lines@).push(current@) == byte_lines(
                    s@.take(i as int),
                )
            },
        decreases s.len() - i,
    {
        let ghost before = views(lines@);
        let ghost part = current@;
        proof {
            let t = s@.take(i + 1);
            assert(t.drop_last() =~= s@.take(i as int));
            assert(t.last() == s@[i as int]);
            if i > 0 {
                assert(t[t.len() - 2] == s@[i - 1]);
            }
            assert(before.push(part).drop_last() =~= before);
        }
        current.push(s[i]);
        let ghost whole = current@;
        proof {
            if i == 0 || s@[i - 1] == 10 {
                assert(whole =~= seq![s@[i as int]]);
            }
        }
        if s[i] == 10 {
            lines.push(current);
            current = Vec::new();
            proof {
                assert(views(lines@) =~= before.push(whole));
            }
        }
        i += 1;
    }
    assert(s@.take(i as int) =~= s@);
    if current.len() > 0 {
        let ghost before = views(lines@);
        let ghost part = current@;
        lines.push(current);
        proof {
            assert(views(lines@) =~= before.push(part));
        }
    }
    lines
}

/// Reads a file.
pub fn process_file(kind: SourceKind, source: &str, bytes: &[u8], preparer: &mut Preparer)
    requires
        old(preparer).wf(),
    ensures
        final(preparer).wf(),
        final(preparer).kind() == old(preparer).kind(),
        final(preparer)@ == with_file(kind, old(preparer)@, source@, bytes@),
{
    if kind == SourceKind::Tieba || kind == SourceKind::Poetry {
        process_whole(kind, source, bytes, preparer);
        return ;
    }
    let lines = split_byte_lines(bytes);
    let ghost all = views(lines@);
    let ghost start = preparer@;
    let mut reader = SourceReader::new(kind, source);
    let mut i: usize = 0;
    while i < lines.len()
        invariant
            i <= lines@.len(),
            all == views(lines@),
            by_lines(kind),
            reader.kind() == kind,
            reader.source() == source@,
            preparer.wf(),
            preparer.kind() == old(preparer).kind(),
            (reader@, preparer@) == with_lines(
                kind,
                source_start(),
                start,
                source@,
                all,
                i as nat,
            ),
        decreases lines.len() - i,
    {
        assert(all[i as int] == lines@[i as int]@);
        reader.read_line(lines[i].as_slice(), preparer);
        i += 1;
    }
    reader.finish(preparer);
}

} // verus!
