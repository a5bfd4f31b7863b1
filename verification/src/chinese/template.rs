//! The text between the first and the last backquote of a source.
use crate::chinese::error::{ChineseDataError, DataFault};
use crate::text::{find_char, find_last_char, first_place, last_place};
use vstd::prelude::*;

verus! {

/// The text between the first and the last backquote.
pub open spec fn template_text(source_name: Seq<char>, source: Seq<char>) -> Result<
    Seq<char>,
    DataFault,
> {
    match first_place(source, '`') {
        None => Err(
            DataFault {
                source_name,
                line: 1,
                message: "找不到模板字符串起始反引号"@,
            },
        ),
        Some(start) => {
            let end = last_place(source, '`')->0;
            if end > start {
                Ok(source.subrange(start + 1, end))
            } else {
                Err(
                    DataFault {
                        source_name,
                        line: 1,
                        message: "找不到模板字符串结束反引号"@,
                    },
                )
            }
        },
    }
}

proof fn lemma_last_exists(s: Seq<char>, c: char, i: int)
    requires
        0 <= i < s.len(),
        s[i] == c,
    ensures
        last_place(s, c) matches Some(k) && i <= k < s.len(),
    decreases s.len(),
{
    if s.last() != c {
        lemma_last_exists(s.drop_last(), c, i);
    }
}

/// The text between the first and the last backquote.
pub(crate) fn read_template<'a>(source_name: &'static str, source: &'a [char]) -> (r: Result<
    &'a [char],
    ChineseDataError,
>)
    ensures
        match (template_text(source_name@, source@), r) {
            (Ok(t), Ok(s)) => s@ == t,
            (Err(e), Err(f)) => f@ == e,
            _ => false,
        },
{
    let start: usize = match find_char(source, '`') {
        Some(i) => i,
        None => {
            return Err(
                ChineseDataError::parse(source_name, 1, "找不到模板字符串起始反引号"),
            );
        },
    };
    proof {
        lemma_last_exists(source@, '`', start as int);
    }
    let end: usize = match find_last_char(source, '`') {
        Some(i) => i,
        None => start,
    };
    if end <= start {
        return Err(ChineseDataError::parse(source_name, 1, "找不到模板字符串结束反引号"));
    }
    Ok(&source[start + 1..end])
}

} // verus!
