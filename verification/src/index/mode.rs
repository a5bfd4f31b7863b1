//! The two kinds of index.
use crate::index::error::{ErrorView, IndexError};
use crate::text::{chars_of, decimal, decimal_of, join2, parse_unsigned, spells, unsigned_value};
use vstd::prelude::*;
use vstd::string::*;

verus! {

/// What the keys of an index stand for.
#[derive(Clone, Copy, Debug, PartialEq, Eq, Structural)]
pub enum IndexMode {
    /// Each input record is one complete key. Only terminal nodes are results.
    Records,
    /// One maximal window per scalar position: every prefix is an indexed
    /// n-gram whose frequency is its subtree count.
    Ngrams { window_codepoints: usize },
}

/// The error for a mode that cannot be used, none for one that can.
pub open spec fn mode_fault(mode: IndexMode) -> Option<ErrorView> {
    match mode {
        IndexMode::Records => None,
        IndexMode::Ngrams { window_codepoints } => if window_codepoints == 0 {
            Some(ErrorView::InvalidArgument("the n-gram window must be greater than zero"@))
        } else if window_codepoints > u32::MAX {
            Some(ErrorView::InvalidArgument("the n-gram window does not fit in the index header"@))
        } else {
            None
        },
    }
}

/// How a shard names the mode.
pub open spec fn mode_tag(mode: IndexMode) -> Seq<char> {
    match mode {
        IndexMode::Records => "records"@,
        IndexMode::Ngrams { window_codepoints } => "ngrams:"@ + decimal(window_codepoints as nat),
    }
}

/// The mode that a shard names.
pub open spec fn mode_of_tag(tag: Seq<char>) -> Option<IndexMode> {
    if tag == "records"@ {
        Some(IndexMode::Records)
    } else if tag.len() >= "ngrams:"@.len() && tag.take("ngrams:"@.len() as int) == "ngrams:"@ {
        match unsigned_value(tag.skip("ngrams:"@.len() as int), 10) {
            Some(v) => if 0 < v <= u32::MAX {
                Some(IndexMode::Ngrams { window_codepoints: v as usize })
            } else {
                None
            },
            None => None,
        }
    } else {
        None
    }
}

impl IndexMode {
    /// Refuses a window that is empty or does not fit in the header.
    pub(crate) fn validate(self) -> (r: Result<(), IndexError>)
        ensures
            match r {
                Ok(()) => mode_fault(self) is None,
                Err(e) => mode_fault(self) == Some(e@),
            },
    {
        match self {
            IndexMode::Records => Ok(()),
            IndexMode::Ngrams { window_codepoints } => {
                if window_codepoints == 0 {
                    Err(IndexError::argument("the n-gram window must be greater than zero"))
                } else if window_codepoints as u64 > u32::MAX as u64 {
                    Err(IndexError::argument("the n-gram window does not fit in the index header"))
                } else {
                    Ok(())
                }
            },
        }
    }

    /// Whether every prefix of a key is a result.
    pub fn implicit_prefixes(self) -> (r: bool)
        ensures
            r == (self is Ngrams),
    {
        match self {
            IndexMode::Records => false,
            IndexMode::Ngrams { .. } => true,
        }
    }

    /// The length of the window, where there is one.
    pub fn window_codepoints(self) -> (r: Option<usize>)
        ensures
            r == (match self {
                IndexMode::Records => None,
                IndexMode::Ngrams { window_codepoints } => Some(window_codepoints),
            }),
    {
        match self {
            IndexMode::Records => None,
            IndexMode::Ngrams { window_codepoints } => Some(window_codepoints),
        }
    }

    /// How a shard names the mode.
    pub(crate) fn shard_tag(self) -> (r: String)
        ensures
            r@ == mode_tag(self),
    {
        match self {
            IndexMode::Records => "records".to_owned(),
            IndexMode::Ngrams { window_codepoints } => join2(
                "ngrams:",
                decimal_of(window_codepoints as u64).as_str(),
            ),
        }
    }

    /// The mode that a shard names.
    pub(crate) fn parse_shard_tag(tag: &[char]) -> (r: Option<Self>)
        ensures
            r == mode_of_tag(tag@),
    {
        if spells(tag, "records") {
            return Some(IndexMode::Records);
        }
        let head = chars_of("ngrams:");
        let n: usize = head.len();
        if tag.len() < n || !spells(&tag[0..n], "ngrams:") {
            proof {
                assert(tag@.len() >= n ==> tag@.subrange(0, n as int) =~= tag@.take(n as int));
            }
            return None;
        }
        proof {
            assert(tag@.subrange(0, n as int) =~= tag@.take(n as int));
            assert(tag@.subrange(n as int, tag@.len() as int) =~= tag@.skip(n as int));
        }
        let window = &tag[n..tag.len()];
        assert(window@ == tag@.skip(n as int));
        match parse_unsigned(window, 10, u32::MAX as u64) {
            Some(v) => {
                if v == 0 {
                    None
                } else {
                    Some(IndexMode::Ngrams { window_codepoints: v as usize })
                }
            },
            None => None,
        }
    }
}

} // verus!
