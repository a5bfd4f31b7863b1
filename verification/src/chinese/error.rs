//! What can go wrong with the data on Chinese characters and with patterns.
use crate::text::{decimal, decimal_of, join3};
use vstd::prelude::*;
use vstd::string::*;

verus! {

/// A fault in the data on Chinese characters.
#[derive(Debug)]
pub enum ChineseDataError {
    Parse { source_name: &'static str, line: usize, message: String },
}

/// The mathematical content of a [`ChineseDataError`].
pub struct DataFault {
    pub source_name: Seq<char>,
    pub line: nat,
    pub message: Seq<char>,
}

impl View for ChineseDataError {
    type V = DataFault;

    open spec fn view(&self) -> DataFault {
        match *self {
            ChineseDataError::Parse { source_name, line, message } => DataFault {
                source_name: source_name@,
                line: line as nat,
                message: message@,
            },
        }
    }
}

/// The text of a fault: with the line, where there is one.
pub open spec fn data_fault_text(e: DataFault) -> Seq<char> {
    if e.line > 0 {
        e.source_name + ":"@ + decimal(e.line) + "："@ + e.message
    } else {
        e.source_name + "："@ + e.message
    }
}

impl ChineseDataError {
    pub(crate) fn parse(source_name: &'static str, line: usize, message: &str) -> (r: Self)
        ensures
            r@ == (DataFault { source_name: source_name@, line: line as nat, message: message@ }),
    {
        ChineseDataError::Parse { source_name, line, message: message.to_owned() }
    }

    /// The error in words.
    pub fn to_text(&self) -> (r: String)
        ensures
            r@ == data_fault_text(self@),
    {
        match self {
            ChineseDataError::Parse { source_name, line, message } => {
                if *line > 0 {
                    let mut r = join3(source_name, ":", decimal_of(*line as u64).as_str());
                    r.append("：");
                    r.append(message.as_str());
                    r
                } else {
                    join3(source_name, "：", message.as_str())
                }
            },
        }
    }
}

/// A fault in a pinyin pattern, at a character.
#[derive(Clone, Debug, PartialEq, Eq)]
pub struct PinyinPatternError {
    pub offset: usize,
    pub message: String,
}

/// The mathematical content of a [`PinyinPatternError`].
pub struct PatternFault {
    pub offset: nat,
    pub message: Seq<char>,
}

impl View for PinyinPatternError {
    type V = PatternFault;

    open spec fn view(&self) -> PatternFault {
        PatternFault { offset: self.offset as nat, message: self.message@ }
    }
}

/// The text of a fault in a pattern.
pub open spec fn pattern_fault_text(e: PatternFault) -> Seq<char> {
    "拼音模式第 "@ + decimal(e.offset) + " 个字符附近："@ + e.message
}

impl PinyinPatternError {
    pub(crate) fn new(offset: usize, message: &str) -> (r: Self)
        ensures
            r@ == (PatternFault { offset: offset as nat, message: message@ }),
    {
        PinyinPatternError { offset, message: message.to_owned() }
    }

    /// The error in words.
    pub fn to_text(&self) -> (r: String)
        ensures
            r@ == pattern_fault_text(self@),
    {
        let mut r = join3(
            "拼音模式第 ",
            decimal_of(self.offset as u64).as_str(),
            " 个字符附近：",
        );
        r.append(self.message.as_str());
        r
    }
}

/// A fault in a word template.
#[derive(Clone, Debug, PartialEq, Eq)]
pub struct WordTemplateError {
    pub message: String,
}

impl WordTemplateError {
    pub(crate) fn new(message: &str) -> (r: Self)
        ensures
            r.message@ == message@,
    {
        WordTemplateError { message: message.to_owned() }
    }

    /// The error in words.
    pub fn to_text(&self) -> (r: String)
        ensures
            r@ == self.message@,
    {
        self.message.clone()
    }
}

} // verus!
