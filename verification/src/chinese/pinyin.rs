//! Patterns for pinyin: letters, one star at most, a tone at the end.
use crate::chinese::error::{PatternFault, PinyinPatternError};
use crate::text::{
    char_debug, copy_chars, debug_char, digit, digit_value, find_char, first_place, is_digit,
    is_letter, join2, letter, same_chars, value_of_digit,
};
use vstd::prelude::*;

verus! {

/// A pattern: what stands before and behind the star, or all of it where there
/// is none.
pub struct PinyinGlob {
    pub prefix: Vec<char>,
    pub suffix: Vec<char>,
    pub tone: Option<u8>,
    pub wildcard: bool,
}

/// The mathematical content of a [`PinyinGlob`].
pub struct GlobView {
    pub prefix: Seq<char>,
    pub suffix: Seq<char>,
    pub tone: Option<u8>,
    pub wildcard: bool,
}

impl View for PinyinGlob {
    type V = GlobView;

    open spec fn view(&self) -> GlobView {
        GlobView {
            prefix: self.prefix@,
            suffix: self.suffix@,
            tone: self.tone,
            wildcard: self.wildcard,
        }
    }
}

/// The letter in lower case.
pub open spec fn lower(c: char) -> char {
    if 'A' <= c <= 'Z' {
        ((c as u32) + 32) as char
    } else {
        c
    }
}

/// The first `n` characters of a pattern in their normal form, or the first
/// fault in them.
pub open spec fn normal_glob(body: Seq<char>, n: nat) -> Result<Seq<char>, PatternFault>
    decreases n,
{
    if n == 0 {
        Ok(Seq::empty())
    } else {
        match normal_glob(body, (n - 1) as nat) {
            Err(e) => Err(e),
            Ok(known) => {
                let c = body[n - 1];
                let offset = (n - 1) as nat;
                if c == '*' {
                    if known.contains('*') {
                        Err(PatternFault { offset, message: "最多只能使用一个 *"@ })
                    } else {
                        Ok(known.push('*'))
                    }
                } else if c == 'ü' || c == 'Ü' || c == 'v' || c == 'V' {
                    Ok(known.push('ü'))
                } else if letter(c) {
                    Ok(known.push(lower(c)))
                } else if digit(c) {
                    Err(PatternFault { offset, message: "声调数字只能放在末尾"@ })
                } else {
                    Err(
                        PatternFault {
                            offset,
                            message: "只允许字母、ü/v、* 和末尾声调；不支持 "@ + debug_char(
                                c,
                            ),
                        },
                    )
                }
            },
        }
    }
}

/// The tone at the end of a pattern.
pub open spec fn tone_of(input: Seq<char>) -> Option<nat> {
    if input.len() > 0 && digit(input.last()) {
        digit_value(input.last(), 10)
    } else {
        None
    }
}

/// A pattern without its tone.
pub open spec fn body_of(input: Seq<char>) -> Seq<char> {
    if input.len() > 0 && digit(input.last()) {
        input.drop_last()
    } else {
        input
    }
}

/// The pattern that a string writes.
pub open spec fn glob_of(input: Seq<char>) -> Result<GlobView, PatternFault> {
    let body = body_of(input);
    if input.len() == 0 {
        Err(PatternFault { offset: 0, message: "拼音不能为空"@ })
    } else if tone_of(input) is Some && tone_of(input)->0 > 4 {
        Err(PatternFault { offset: (input.len() - 1) as nat, message: "声调必须是 0 到 4"@ })
    } else if body.len() == 0 {
        Err(PatternFault { offset: 0, message: "缺少拼音音节"@ })
    } else {
        match normal_glob(body, body.len()) {
            Err(e) => Err(e),
            Ok(text) => {
                let tone = match tone_of(input) {
                    Some(t) => Some(t as u8),
                    None => None,
                };
                match first_place(text, '*') {
                    Some(i) => Ok(
                        GlobView {
                            prefix: text.take(i),
                            suffix: text.skip(i + 1),
                            tone,
                            wildcard: true,
                        },
                    ),
                    None => Ok(
                        GlobView { prefix: text, suffix: Seq::empty(), tone, wildcard: false },
                    ),
                }
            },
        }
    }
}

/// A key, which is pinyin with a tone, fits a pattern.
pub open spec fn glob_matches(glob: GlobView, key: Seq<char>) -> bool {
    if key.len() == 0 {
        false
    } else {
        let base = key.drop_last();
        match digit_value(key.last(), 10) {
            None => false,
            Some(tone) => if glob.tone is Some && glob.tone->0 != tone {
                false
            } else if !glob.wildcard {
                base == glob.prefix
            } else {
                &&& base.len() >= glob.prefix.len() + glob.suffix.len()
                &&& base.take(glob.prefix.len() as int) == glob.prefix
                &&& base.skip(base.len() - glob.suffix.len()) == glob.suffix
            },
        }
    }
}

proof fn lemma_glob_fault(body: Seq<char>, m: nat, n: nat)
    requires
        m <= n,
        normal_glob(body, m) is Err,
    ensures
        normal_glob(body, n) == normal_glob(body, m),
    decreases n,
{
    if m < n {
        lemma_glob_fault(body, m, (n - 1) as nat);
    }
}

/// The letter in lower case.
fn to_lower(c: char) -> (r: char)
    requires
        letter(c),
    ensures
        r == lower(c),
{
    if 'A' <= c && c <= 'Z' {
        match char::from_u32(c as u32 + 32) {
            Some(r) => {
                proof {
                    crate::text::lemma_same_code_point(r, lower(c));
                }
                r
            },
            None => c,
        }
    } else {
        c
    }
}

impl PinyinGlob {
    /// Reads a pattern.
    pub fn parse(input: &[char]) -> (r: Result<Self, PinyinPatternError>)
        ensures
            match (glob_of(input@), r) {
                (Ok(g), Ok(glob)) => glob@ == g,
                (Err(e), Err(f)) => f@ == e,
                _ => false,
            },
    {
        if input.len() == 0 {
            return Err(PinyinPatternError::new(0, "拼音不能为空"));
        }
        let last = input[input.len() - 1];
        let mut end: usize = input.len();
        let mut tone: Option<u8> = None;
        if is_digit(last) {
            match value_of_digit(last, 10) {
                Some(value) => {
                    if value > 4 {
                        return Err(
                            PinyinPatternError::new(input.len() - 1, "声调必须是 0 到 4"),
                        );
                    }
                    tone = Some(value as u8);
                },
                None => {},
            }
            end = input.len() - 1;
        }
        let body = &input[0..end];
        proof {
            assert(body@ =~= body_of(input@));
        }
        if body.len() == 0 {
            return Err(PinyinPatternError::new(0, "缺少拼音音节"));
        }
        let mut text: Vec<char> = Vec::new();
        let mut starred = false;
        let mut i: usize = 0;
        assert(text@ =~= Seq::empty());
        while i < body.len()
            invariant
                i <= body@.len(),
                body@ == body_of(input@),
                body@.len() > 0,
                input@.len() > 0,
                tone_of(input@) is Some ==> tone_of(input@)->0 <= 4,
                normal_glob(body@, i as nat) == Ok::<Seq<char>, PatternFault>(text@),
                starred == text@.contains('*'),
            decreases body.len() - i,
        {
            let c = body[i];
            let ghost before = text@;
            if c == '*' {
                if starred {
                    proof {
                        lemma_glob_fault(body@, (i + 1) as nat, body@.len());
                    }
                    return Err(PinyinPatternError::new(i, "最多只能使用一个 *"));
                }
                starred = true;
                text.push('*');
                assert(text@[before.len() as int] == '*');
            } else if c == 'ü' || c == 'Ü' || c == 'v' || c == 'V' {
                text.push('ü');
                proof {
                    lemma_push_no_star(before, 'ü');
                }
            } else if is_letter(c) {
                let l = to_lower(c);
                text.push(l);
                proof {
                    lemma_push_no_star(before, l);
                }
            } else if is_digit(c) {
                proof {
                    lemma_glob_fault(body@, (i + 1) as nat, body@.len());
                }
                return Err(PinyinPatternError::new(i, "声调数字只能放在末尾"));
            } else {
                proof {
                    lemma_glob_fault(body@, (i + 1) as nat, body@.len());
                }
                let shown = char_debug(c);
                let message = join2(
                    "只允许字母、ü/v、* 和末尾声调；不支持 ",
                    shown.as_str(),
                );
                return Err(PinyinPatternError { offset: i, message });
            }
            i += 1;
        }
        match find_char(text.as_slice(), '*') {
            Some(at) => {
                let n: usize = text.len();
                assert(at < n);
                let prefix = copy_chars(&text.as_slice()[0..at]);
                let suffix = copy_chars(&text.as_slice()[at + 1..n]);
                proof {
                    assert(prefix@ =~= text@.take(at as int));
                    assert(suffix@ =~= text@.skip(at + 1));
                }
                Ok(PinyinGlob { prefix, suffix, tone, wildcard: true })
            },
            None => {
                let none: Vec<char> = Vec::new();
                assert(none@ =~= Seq::empty());
                Ok(PinyinGlob { prefix: text, suffix: none, tone, wildcard: false })
            },
        }
    }

    /// Whether a key fits the pattern.
    pub fn matches_key(&self, key: &[char]) -> (r: bool)
        ensures
            r == glob_matches(self@, key@),
    {
        let n: usize = key.len();
        if n == 0 {
            return false;
        }
        let base = &key[0..n - 1];
        assert(base@ =~= key@.drop_last());
        let tone: u32 = match value_of_digit(key[n - 1], 10) {
            Some(tone) => tone,
            None => {
                return false;
            },
        };
        if let Some(expected) = self.tone {
            if expected as u32 != tone {
                return false;
            }
        }
        if !self.wildcard {
            return same_chars(base, self.prefix.as_slice());
        }
        let p: usize = self.prefix.len();
        let s: usize = self.suffix.len();
        let len: usize = base.len();
        if len < p || len - p < s {
            return false;
        }
        proof {
            assert(base@.subrange(0, p as int) =~= base@.take(p as int));
            assert(base@.subrange(len - s, len as int) =~= base@.skip(len - s));
        }
        same_chars(&base[0..p], self.prefix.as_slice()) && same_chars(
            &base[len - s..len],
            self.suffix.as_slice(),
        )
    }
}

proof fn lemma_push_no_star(s: Seq<char>, c: char)
    requires
        c != '*',
    ensures
        s.push(c).contains('*') == s.contains('*'),
{
    if s.contains('*') {
        let k = choose|k: int| 0 <= k < s.len() && s[k] == '*';
        assert(s.push(c)[k] == '*');
    }
    if s.push(c).contains('*') {
        let k = choose|k: int| 0 <= k < s.push(c).len() && s.push(c)[k] == '*';
        assert(s[k] == '*');
    }
}

} // verus!
