//! Reading JSON.
use crate::ordered::views;
use crate::text::{
    chars_of, decimal, decimal_of, digit, digits_value, is_digit, lemma_same_code_point,
    lemma_utf8_size, lemma_utf8_size_prefix, lemma_utf8_size_push, same_chars, utf8_size,
    value_of_digit, width_of,
};
use vstd::prelude::*;
use vstd::string::*;

verus! {

/// A value. Only texts, lists and fields are kept.
#[derive(Debug)]
pub enum JsonValue {
    Null,
    Bool,
    Number,
    Text(String),
    Array(Vec<JsonValue>),
    Object(Vec<(String, JsonValue)>),
}

/// The mathematical content of a [`JsonValue`].
pub enum Json {
    Null,
    Bool,
    Number,
    Text(Seq<char>),
    List(Seq<Json>),
    Fields(Seq<(Seq<char>, Json)>),
}

/// The content of a value.
pub open spec fn json_of(v: JsonValue) -> Json
    decreases v,
{
    match v {
        JsonValue::Null => Json::Null,
        JsonValue::Bool => Json::Bool,
        JsonValue::Number => Json::Number,
        JsonValue::Text(s) => Json::Text(s@),
        JsonValue::Array(values) => Json::List(
            Seq::new(
                values@.len(),
                |i: int|
                    if 0 <= i < values@.len() {
                        json_of(values@[i])
                    } else {
                        Json::Null
                    },
            ),
        ),
        JsonValue::Object(fields) => Json::Fields(
            Seq::new(
                fields@.len(),
                |i: int|
                    if 0 <= i < fields@.len() {
                        (fields@[i].0@, json_of(fields@[i].1))
                    } else {
                        (Seq::empty(), Json::Null)
                    },
            ),
        ),
    }
}

impl View for JsonValue {
    type V = Json;

    open spec fn view(&self) -> Json {
        json_of(*self)
    }
}

/// The content of a list is the list of the contents.
pub broadcast proof fn lemma_view_list(values: Vec<JsonValue>)
    ensures
        #[trigger] json_of(JsonValue::Array(values)) == Json::List(views(values@)),
{
    assert(json_of(JsonValue::Array(values))->List_0 =~= views(values@));
}

/// The content of fields is the list of their names and contents.
pub broadcast proof fn lemma_view_fields(fields: Vec<(String, JsonValue)>)
    ensures
        #[trigger] json_of(JsonValue::Object(fields)) == Json::Fields(views(fields@)),
{
    assert(json_of(JsonValue::Object(fields))->Fields_0 =~= views(fields@));
}

/// The place of the first field with a name.
pub open spec fn field_place(fields: Seq<(Seq<char>, Json)>, key: Seq<char>) -> Option<int>
    decreases fields.len(),
{
    if fields.len() == 0 {
        None
    } else if fields[0].0 == key {
        Some(0)
    } else {
        match field_place(fields.skip(1), key) {
            Some(i) => Some(i + 1),
            None => None,
        }
    }
}

/// What tells the place of a field.
pub proof fn lemma_field_place(fields: Seq<(Seq<char>, Json)>, key: Seq<char>)
    ensures
        field_place(fields, key) matches Some(i) ==> 0 <= i < fields.len() && fields[i].0 == key,
    decreases fields.len(),
{
    if fields.len() > 0 && fields[0].0 != key {
        lemma_field_place(fields.skip(1), key);
    }
}

/// The first field of a value with a name.
pub open spec fn json_get(v: Json, key: Seq<char>) -> Option<Json> {
    match v {
        Json::Fields(fields) => match field_place(fields, key) {
            Some(i) => if 0 <= i < fields.len() {
                Some(fields[i].1)
            } else {
                None
            },
            None => None,
        },
        _ => None,
    }
}

/// The first field that has one of two names, the first name before the second.
pub open spec fn json_get_either(v: Json, a: Seq<char>, b: Seq<char>) -> Option<Json> {
    match json_get(v, a) {
        Some(found) => Some(found),
        None => json_get(v, b),
    }
}

/// A value is that of a field of another.
pub open spec fn within(v: JsonValue, part: JsonValue) -> bool {
    v matches JsonValue::Object(fields) && exists|i: int|
        0 <= i < fields@.len() && (#[trigger] fields@[i]).1 == part
}

impl JsonValue {
    pub fn as_str(&self) -> (r: Option<&str>)
        ensures
            match r {
                Some(s) => self@ == Json::Text(s@),
                None => !(self@ is Text),
            },
    {
        match self {
            JsonValue::Text(value) => Some(value.as_str()),
            _ => None,
        }
    }

    pub fn as_array(&self) -> (r: Option<&Vec<JsonValue>>)
        ensures
            match r {
                Some(values) => self@ == Json::List(views(values@)),
                None => !(self@ is List),
            },
    {
        broadcast use lemma_view_list;

        match self {
            JsonValue::Array(values) => Some(values),
            _ => None,
        }
    }

    pub fn as_object(&self) -> (r: Option<&Vec<(String, JsonValue)>>)
        ensures
            match r {
                Some(fields) => self@ == Json::Fields(views(fields@)),
                None => !(self@ is Fields),
            },
    {
        broadcast use lemma_view_fields;

        match self {
            JsonValue::Object(fields) => Some(fields),
            _ => None,
        }
    }

    /// The first field with a name.
    pub fn get(&self, key: &str) -> (r: Option<&JsonValue>)
        ensures
            match r {
                Some(v) => json_get(self@, key@) == Some(v@) && within(*self, *v),
                None => json_get(self@, key@) is None,
            },
    {
        broadcast use lemma_view_fields;

        let fields = match self {
            JsonValue::Object(fields) => fields,
            _ => {
                return None;
            },
        };
        let ghost all = views(fields@);
        let wanted = chars_of(key);
        let mut i: usize = 0;
        assert(all.skip(0) =~= all);
        while i < fields.len()
            invariant
                i <= fields@.len(),
                all == views(fields@),
                wanted@ == key@,
                *self == JsonValue::Object(*fields),
                self@ == Json::Fields(all),
                field_place(all, key@) == match field_place(all.skip(i as int), key@) {
                    Some(k) => Some(k + i),
                    None => None,
                },
            decreases fields.len() - i,
        {
            let name = chars_of(fields[i].0.as_str());
            proof {
                assert(all.skip(i as int)[0] == all[i as int]);
                assert(all.skip(i as int).skip(1) =~= all.skip(i + 1));
            }
            if same_chars(name.as_slice(), wanted.as_slice()) {
                proof {
                    assert(fields@[i as int].1 == fields@[i as int].1);
                }
                return Some(&fields[i].1);
            }
            i += 1;
        }
        None
    }

    /// The first field that has one of two names.
    pub fn get_either(&self, a: &str, b: &str) -> (r: Option<&JsonValue>)
        ensures
            match r {
                Some(v) => json_get_either(self@, a@, b@) == Some(v@) && within(*self, *v),
                None => json_get_either(self@, a@, b@) is None,
            },
    {
        match self.get(a) {
            Some(found) => Some(found),
            None => self.get(b),
        }
    }
}

/// What stands at a place and where it ends; or where a fault is, and which.
pub type JsonRead = Result<(Json, int), (int, Seq<char>)>;

/// A blank between the parts of a value.
pub open spec fn json_blank(c: char) -> bool {
    c == ' ' || c == '\t' || c == '\n' || c == '\x0c' || c == '\r'
}

/// How many blanks stand at a place.
pub open spec fn blanks(s: Seq<char>, at: int) -> nat
    decreases s.len() - at,
{
    if 0 <= at < s.len() && json_blank(s[at]) {
        1 + blanks(s, at + 1)
    } else {
        0
    }
}

/// The place behind the blanks.
pub open spec fn past_blanks(s: Seq<char>, at: int) -> int {
    at + blanks(s, at)
}

/// How many digits stand at a place.
pub open spec fn digit_run(s: Seq<char>, at: int) -> nat
    decreases s.len() - at,
{
    if 0 <= at < s.len() && digit(s[at]) {
        1 + digit_run(s, at + 1)
    } else {
        0
    }
}

/// This character stands at a place.
pub open spec fn stands(s: Seq<char>, at: int, c: char) -> bool {
    0 <= at < s.len() && s[at] == c
}

/// This text stands at a place.
pub open spec fn stands_text(s: Seq<char>, at: int, t: Seq<char>) -> bool {
    0 <= at && at + t.len() <= s.len() && s.subrange(at, at + t.len()) == t
}

/// The number of four hexadecimal digits.
pub open spec fn four_digits(s: Seq<char>, at: int) -> Result<nat, Seq<char>> {
    if at > s.len() || utf8_size(s.skip(at)) < 4 {
        Err("Unicode 转义不完整"@)
    } else if at + 4 <= s.len() && digits_value(s.subrange(at, at + 4), 16) is Some {
        Ok(digits_value(s.subrange(at, at + 4), 16)->0)
    } else {
        Err("Unicode 转义含非十六进制字符"@)
    }
}

/// The character that an escape with the `u` at `at` stands for, and where it
/// ends. Two escapes may stand for one character beyond the first plane.
pub open spec fn json_escape(s: Seq<char>, at: int) -> Result<(char, int), (int, Seq<char>)> {
    match four_digits(s, at + 1) {
        Err(message) => Err((at, message)),
        Ok(first) => {
            let p = at + 4;
            if 0xD800 <= first <= 0xDBFF {
                if !stands(s, p + 1, '\\') || !stands(s, p + 2, 'u') {
                    Err((p, "高代理项后缺少低代理项"@))
                } else {
                    match four_digits(s, p + 3) {
                        Err(message) => Err((p, message)),
                        Ok(low) => if 0xDC00 <= low <= 0xDFFF {
                            let x = 0x1_0000 + (first - 0xD800) * 0x400 + (low - 0xDC00);
                            Ok(((x as u32) as char, p + 7))
                        } else {
                            Err((p, "Unicode 低代理项无效"@))
                        },
                    }
                }
            } else if 0xDC00 <= first <= 0xDFFF {
                Err((p, "出现孤立低代理项"@))
            } else {
                Ok(((first as u32) as char, p + 1))
            }
        },
    }
}

/// The character that a short escape stands for.
pub open spec fn short_escape(c: char) -> Option<char> {
    if c == '"' || c == '\\' || c == '/' {
        Some(c)
    } else if c == 'b' {
        Some('\x08')
    } else if c == 'f' {
        Some('\x0c')
    } else if c == 'n' {
        Some('\n')
    } else if c == 'r' {
        Some('\r')
    } else if c == 't' {
        Some('\t')
    } else {
        None
    }
}

/// The text whose rest stands at a place, behind what has been read of it.
pub open spec fn json_string(s: Seq<char>, at: int, known: Seq<char>) -> Result<
    (Seq<char>, int),
    (int, Seq<char>),
>
    decreases s.len() - at,
{
    if at < 0 || at >= s.len() {
        Err((at, "字符串没有闭合"@))
    } else if s[at] == '"' {
        Ok((known, at + 1))
    } else if s[at] == '\\' {
        if at + 1 >= s.len() {
            Err((at + 1, "字符串转义不完整"@))
        } else if s[at + 1] == 'u' {
            match json_escape(s, at + 1) {
                Err(e) => Err(e),
                Ok((c, next)) => if at < next <= s.len() {
                    json_string(s, next, known.push(c))
                } else {
                    Err((at, "字符串没有闭合"@))
                },
            }
        } else {
            match short_escape(s[at + 1]) {
                Some(c) => json_string(s, at + 2, known.push(c)),
                None => Err((at + 1, "未知字符串转义"@)),
            }
        }
    } else if (s[at] as u32) < 0x20 {
        Err((at, "字符串含未转义控制字符"@))
    } else {
        json_string(s, at + 1, known.push(s[at]))
    }
}

/// Where the exponent at a place ends, if one stands there.
pub open spec fn json_exponent(s: Seq<char>, at: int) -> Result<int, (int, Seq<char>)> {
    if stands(s, at, 'e') || stands(s, at, 'E') {
        let p = if stands(s, at + 1, '+') || stands(s, at + 1, '-') {
            at + 2
        } else {
            at + 1
        };
        if digit_run(s, p) == 0 {
            Err((p, "指数部分缺少数字"@))
        } else {
            Ok(p + digit_run(s, p))
        }
    } else {
        Ok(at)
    }
}

/// Where the fraction and the exponent at a place end.
pub open spec fn json_fraction(s: Seq<char>, at: int) -> Result<int, (int, Seq<char>)> {
    if stands(s, at, '.') {
        if digit_run(s, at + 1) == 0 {
            Err((at + 1, "小数点后缺少数字"@))
        } else {
            json_exponent(s, at + 1 + digit_run(s, at + 1))
        }
    } else {
        json_exponent(s, at)
    }
}

/// Where the number at a place ends.
pub open spec fn json_number(s: Seq<char>, at: int) -> Result<int, (int, Seq<char>)> {
    let p = if stands(s, at, '-') {
        at + 1
    } else {
        at
    };
    if stands(s, at, '-') && p == s.len() {
        Err((p, "负号后缺少数字"@))
    } else if stands(s, p, '0') {
        if p + 1 < s.len() && digit(s[p + 1]) {
            Err((p + 1, "数字不能含前导零"@))
        } else {
            json_fraction(s, p + 1)
        }
    } else if digit_run(s, p) == 0 {
        Err((p, "数字缺少整数部分"@))
    } else {
        json_fraction(s, p + digit_run(s, p))
    }
}

/// A word of the language.
pub open spec fn json_word(s: Seq<char>, at: int, word: Seq<char>, v: Json) -> JsonRead {
    if stands_text(s, at, word) {
        Ok((v, at + word.len()))
    } else {
        Err((at, "JSON 字面量拼写错误"@))
    }
}

/// The value at a place.
pub open spec fn json_value(s: Seq<char>, at: int, depth: nat) -> JsonRead
    decreases s.len() - at, 0int,
{
    let p = past_blanks(s, at);
    if depth > 128 {
        Err((at, "嵌套层级超过 128"@))
    } else if p < 0 || p >= s.len() {
        Err((p, "意外到达文件末尾"@))
    } else if s[p] == 'n' {
        json_word(s, p, "null"@, Json::Null)
    } else if s[p] == 't' {
        json_word(s, p, "true"@, Json::Bool)
    } else if s[p] == 'f' {
        json_word(s, p, "false"@, Json::Bool)
    } else if s[p] == '"' {
        match json_string(s, p + 1, Seq::empty()) {
            Ok((t, next)) => Ok((Json::Text(t), next)),
            Err(e) => Err(e),
        }
    } else if s[p] == '[' {
        let q = past_blanks(s, p + 1);
        if stands(s, q, ']') {
            Ok((Json::List(Seq::empty()), q + 1))
        } else if q > s.len() {
            Err((q, "意外到达文件末尾"@))
        } else {
            json_items(s, q, depth + 1, Seq::empty())
        }
    } else if s[p] == '{' {
        let q = past_blanks(s, p + 1);
        if stands(s, q, '}') {
            Ok((Json::Fields(Seq::empty()), q + 1))
        } else if q > s.len() {
            Err((q, "意外到达文件末尾"@))
        } else {
            json_fields(s, q, depth + 1, Seq::empty())
        }
    } else if s[p] == '-' || digit(s[p]) {
        match json_number(s, p) {
            Ok(next) => Ok((Json::Number, next)),
            Err(e) => Err(e),
        }
    } else {
        Err((p, "无法识别的 JSON 值"@))
    }
}

/// The list whose rest stands at a place.
pub open spec fn json_items(s: Seq<char>, at: int, depth: nat, known: Seq<Json>) -> JsonRead
    decreases s.len() - at, 1int,
{
    match json_value(s, at, depth) {
        Err(e) => Err(e),
        Ok((v, next)) => {
            let q = past_blanks(s, next);
            if stands(s, q, ']') {
                Ok((Json::List(known.push(v)), q + 1))
            } else if !(at < next <= s.len()) || !stands(s, q, ',') {
                Err((q, "数组元素之间缺少逗号或结束方括号"@))
            } else {
                json_items(s, q + 1, depth, known.push(v))
            }
        },
    }
}

/// The fields whose rest stands at a place.
pub open spec fn json_fields(
    s: Seq<char>,
    at: int,
    depth: nat,
    known: Seq<(Seq<char>, Json)>,
) -> JsonRead
    decreases s.len() - at, 1int,
{
    let p = past_blanks(s, at);
    if !stands(s, p, '"') {
        Err((p, "对象键必须是字符串"@))
    } else {
        match json_string(s, p + 1, Seq::empty()) {
            Err(e) => Err(e),
            Ok((key, behind)) => {
                let c = past_blanks(s, behind);
                if !(p < behind <= s.len()) || !stands(s, c, ':') {
                    Err((c, "对象键后缺少冒号"@))
                } else {
                    match json_value(s, c + 1, depth) {
                        Err(e) => Err(e),
                        Ok((v, next)) => {
                            let q = past_blanks(s, next);
                            if stands(s, q, '}') {
                                Ok((Json::Fields(known.push((key, v))), q + 1))
                            } else if !(at < next <= s.len()) || !stands(s, q, ',') {
                                Err((q, "对象字段之间缺少逗号或结束花括号"@))
                            } else {
                                json_fields(s, q + 1, depth, known.push((key, v)))
                            }
                        },
                    }
                }
            },
        }
    }
}

/// The value that a text writes; or the place of a fault, and which.
pub open spec fn json_text(s: Seq<char>) -> Result<Json, (int, Seq<char>)> {
    match json_value(s, past_blanks(s, 0), 0) {
        Err(e) => Err(e),
        Ok((v, next)) => if past_blanks(s, next) == s.len() {
            Ok(v)
        } else {
            Err((past_blanks(s, next), "顶层 JSON 值后还有多余内容"@))
        },
    }
}

/// A fault in a text, with the number of bytes before it.
#[derive(Clone, Debug, PartialEq, Eq)]
pub struct JsonError {
    pub offset: usize,
    pub message: String,
}

/// How a fault reads.
pub open spec fn json_error_text(offset: nat, message: Seq<char>) -> Seq<char> {
    "JSON 字节 "@ + decimal(offset) + "："@ + message
}

impl JsonError {
    pub fn to_text(&self) -> (r: String)
        ensures
            r@ == json_error_text(self.offset as nat, self.message@),
    {
        let mut r = "JSON 字节 ".to_owned();
        r.append(decimal_of(self.offset as u64).as_str());
        r.append("：");
        r.append(self.message.as_str());
        r
    }
}

/// A fault at a place.
struct Trouble {
    at: usize,
    message: &'static str,
}

impl View for Trouble {
    type V = (int, Seq<char>);

    closed spec fn view(&self) -> (int, Seq<char>) {
        (self.at as int, self.message@)
    }
}

struct JsonParser<'a> {
    chars: &'a [char],
    at: usize,
}

/// The outcome of reading is as expected, and the place is behind it.
spec fn read_as(expected: JsonRead, after: JsonParser<'_>, r: Result<JsonValue, Trouble>) -> bool {
    match r {
        Ok(v) => expected == Ok::<(Json, int), (int, Seq<char>)>((v@, after.at as int)),
        Err(e) => expected == Err::<(Json, int), (int, Seq<char>)>(e@) && e.at
            <= after.chars@.len(),
    }
}

impl<'a> JsonParser<'a> {
    fn trouble(&self, message: &'static str) -> (r: Trouble)
        ensures
            r@ == (self.at as int, message@),
            r.at == self.at,
    {
        Trouble { at: self.at, message }
    }

    fn skip_whitespace(&mut self)
        requires
            old(self).at <= old(self).chars@.len(),
        ensures
            final(self).chars == old(self).chars,
            final(self).at == past_blanks(old(self).chars@, old(self).at as int),
            final(self).at <= final(self).chars@.len(),
    {
        let ghost s = self.chars@;
        let ghost start = self.at as int;
        while self.at < self.chars.len() && (self.chars[self.at] == ' ' || self.chars[self.at]
            == '\t' || self.chars[self.at] == '\n' || self.chars[self.at] == '\x0c'
            || self.chars[self.at] == '\r')
            invariant
                self.chars == old(self).chars,
                s == self.chars@,
                self.at <= s.len(),
                past_blanks(s, start) == past_blanks(s, self.at as int),
            decreases s.len() - self.at,
        {
            self.at = self.at + 1;
        }
    }

    fn stands_here(&self, c: char) -> (r: bool)
        ensures
            r == stands(self.chars@, self.at as int, c),
    {
        self.at < self.chars.len() && self.chars[self.at] == c
    }

    fn consume(&mut self, c: char) -> (r: bool)
        ensures
            r == stands(old(self).chars@, old(self).at as int, c),
            final(self).chars == old(self).chars,
            final(self).at == old(self).at + if r {
                1int
            } else {
                0int
            },
    {
        if self.at < self.chars.len() && self.chars[self.at] == c {
            self.at = self.at + 1;
            true
        } else {
            false
        }
    }

    fn literal(&mut self, word: &str) -> (r: Result<(), Trouble>)
        requires
            old(self).at <= old(self).chars@.len(),
        ensures
            final(self).chars == old(self).chars,
            match r {
                Ok(()) => stands_text(old(self).chars@, old(self).at as int, word@) && final(self).at
                    == old(self).at + word@.len() && final(self).at <= final(self).chars@.len(),
                Err(e) => !stands_text(old(self).chars@, old(self).at as int, word@) && e@ == (
                    old(self).at as int,
                    "JSON 字面量拼写错误"@,
                ) && e.at <= final(self).chars@.len(),
            },
    {
        let wanted = chars_of(word);
        let n: usize = wanted.len();
        if self.chars.len() - self.at >= n && same_chars(
            &self.chars[self.at..self.at + n],
            wanted.as_slice(),
        ) {
            self.at = self.at + n;
            Ok(())
        } else {
            Err(self.trouble("JSON 字面量拼写错误"))
        }
    }

    fn consume_digits(&mut self, message: &'static str) -> (r: Result<(), Trouble>)
        requires
            old(self).at <= old(self).chars@.len(),
        ensures
            final(self).chars == old(self).chars,
            match r {
                Ok(()) => digit_run(old(self).chars@, old(self).at as int) > 0 && final(self).at
                    == old(self).at + digit_run(old(self).chars@, old(self).at as int) && final(
                    self).at <= final(self).chars@.len(),
                Err(e) => digit_run(old(self).chars@, old(self).at as int) == 0 && e@ == (
                    old(self).at as int,
                    message@,
                ) && e.at <= final(self).chars@.len(),
            },
    {
        let ghost s = self.chars@;
        let start: usize = self.at;
        while self.at < self.chars.len() && is_digit(self.chars[self.at])
            invariant
                self.chars == old(self).chars,
                s == self.chars@,
                start <= self.at <= s.len(),
                start + digit_run(s, start as int) == self.at + digit_run(s, self.at as int),
            decreases s.len() - self.at,
        {
            self.at = self.at + 1;
        }
        if self.at == start {
            Err(self.trouble(message))
        } else {
            Ok(())
        }
    }

    fn parse_exponent(&mut self) -> (r: Result<(), Trouble>)
        requires
            old(self).at <= old(self).chars@.len(),
        ensures
            final(self).chars == old(self).chars,
            match r {
                Ok(()) => json_exponent(old(self).chars@, old(self).at as int) == Ok::<
                    int,
                    (int, Seq<char>),
                >(final(self).at as int) && old(self).at <= final(self).at <= final(
                    self).chars@.len(),
                Err(e) => json_exponent(old(self).chars@, old(self).at as int) == Err::<
                    int,
                    (int, Seq<char>),
                >(e@) && e.at <= final(self).chars@.len(),
            },
    {
        let length: usize = self.chars.len();
        if self.stands_here('e') || self.stands_here('E') {
            self.at = self.at + 1;
            if self.stands_here('+') || self.stands_here('-') {
                self.at = self.at + 1;
            }
            return self.consume_digits("指数部分缺少数字");
        }
        Ok(())
    }

    fn parse_fraction(&mut self) -> (r: Result<(), Trouble>)
        requires
            old(self).at <= old(self).chars@.len(),
        ensures
            final(self).chars == old(self).chars,
            match r {
                Ok(()) => json_fraction(old(self).chars@, old(self).at as int) == Ok::<
                    int,
                    (int, Seq<char>),
                >(final(self).at as int) && old(self).at <= final(self).at <= final(
                    self).chars@.len(),
                Err(e) => json_fraction(old(self).chars@, old(self).at as int) == Err::<
                    int,
                    (int, Seq<char>),
                >(e@) && e.at <= final(self).chars@.len(),
            },
    {
        if self.consume('.') {
            if let Err(e) = self.consume_digits("小数点后缺少数字") {
                return Err(e);
            }
        }
        self.parse_exponent()
    }

    fn parse_number(&mut self) -> (r: Result<(), Trouble>)
        requires
            old(self).at < old(self).chars@.len(),
        ensures
            final(self).chars == old(self).chars,
            match r {
                Ok(()) => json_number(old(self).chars@, old(self).at as int) == Ok::<
                    int,
                    (int, Seq<char>),
                >(final(self).at as int) && old(self).at < final(self).at <= final(
                    self).chars@.len(),
                Err(e) => json_number(old(self).chars@, old(self).at as int) == Err::<
                    int,
                    (int, Seq<char>),
                >(e@) && e.at <= final(self).chars@.len(),
            },
    {
        if self.consume('-') && self.at == self.chars.len() {
            return Err(self.trouble("负号后缺少数字"));
        }
        if self.consume('0') {
            if self.at < self.chars.len() && is_digit(self.chars[self.at]) {
                return Err(self.trouble("数字不能含前导零"));
            }
        } else if let Err(e) = self.consume_digits("数字缺少整数部分") {
            return Err(e);
        }
        self.parse_fraction()
    }

    /// The number of four hexadecimal digits; a fault is told at the place
    /// where the parser stands.
    fn parse_hex_escape(&self, start: usize) -> (r: Result<u32, Trouble>)
        requires
            start <= self.chars@.len(),
        ensures
            match (r, four_digits(self.chars@, start as int)) {
                (Ok(v), Ok(n)) => v == n && n <= 0xFFFF && start + 4 <= self.chars@.len(),
                (Err(e), Err(message)) => e@ == (self.at as int, message) && e.at == self.at,
                _ => false,
            },
    {
        let ghost s = self.chars@;
        let ghost rest = s.skip(start as int);
        let mut size: usize = 0;
        let mut n: usize = 0;
        let mut value: Option<u32> = Some(0);
        proof {
            assert(rest.take(0) =~= Seq::empty());
            assert(s.subrange(start as int, start as int) =~= Seq::empty());
        }
        while n < 4 && n < self.chars.len() - start
            invariant
                start + n <= self.chars@.len(),
                n <= 4,
                s == self.chars@,
                rest == s.skip(start as int),
                size == utf8_size(rest.take(n as int)),
                n <= size <= 4 * n,
                value == match digits_value(s.subrange(start as int, start + n), 16) {
                    Some(v) => Some(v as u32),
                    None => None,
                },
                digits_value(s.subrange(start as int, start + n), 16) matches Some(v) ==> v <= 0xFFFF
                    && (n == 0 ==> v == 0) && (n == 1 ==> v <= 0xF) && (n == 2 ==> v <= 0xFF) && (n
                    == 3 ==> v <= 0xFFF),
            decreases 4 - n,
        {
            let c = self.chars[start + n];
            proof {
                assert(rest.take(n + 1) =~= rest.take(n as int).push(c));
                lemma_utf8_size_push(rest.take(n as int), c);
                assert(s.subrange(start as int, start + n + 1).drop_last() =~= s.subrange(
                    start as int,
                    start + n,
                ));
            }
            size = size + width_of(c);
            value =
            match (value, value_of_digit(c, 16)) {
                (Some(high), Some(low)) => Some(high * 16 + low),
                _ => None,
            };
            n = n + 1;
        }
        proof {
            if n < 4 {
                assert(rest.take(n as int) =~= rest);
            } else {
                lemma_utf8_size_prefix(rest, 4);
            }
        }
        if size < 4 {
            return Err(self.trouble("Unicode 转义不完整"));
        }
        match value {
            Some(v) => {
                if n == 4 {
                    Ok(v)
                } else {
                    Err(self.trouble("Unicode 转义含非十六进制字符"))
                }
            },
            None => {
                proof {
                    if start + 4 <= s.len() {
                        assert(n == 4);
                    }
                }
                Err(self.trouble("Unicode 转义含非十六进制字符"))
            },
        }
    }

    fn parse_string(&mut self) -> (r: Result<String, Trouble>)
        requires
            stands(old(self).chars@, old(self).at as int, '"'),
        ensures
            final(self).chars == old(self).chars,
            match r {
                Ok(text) => json_string(old(self).chars@, old(self).at + 1, Seq::empty()) == Ok::<
                    (Seq<char>, int),
                    (int, Seq<char>),
                >((text@, final(self).at as int)) && old(self).at < final(self).at <= final(
                    self).chars@.len(),
                Err(e) => json_string(old(self).chars@, old(self).at + 1, Seq::empty()) == Err::<
                    (Seq<char>, int),
                    (int, Seq<char>),
                >(e@) && e.at <= final(self).chars@.len(),
            },
    {
        let ghost s = self.chars@;
        let ghost start = self.at as int;
        let length: usize = self.chars.len();
        self.at = self.at + 1;
        let mut output = String::new();
        proof {
            assert(output@ =~= Seq::empty());
        }
        while self.at < self.chars.len()
            invariant
                self.chars == old(self).chars,
                s == self.chars@,
                s.len() == length,
                start == old(self).at,
                start < self.at <= s.len(),
                json_string(s, start + 1, Seq::empty()) == json_string(
                    s,
                    self.at as int,
                    output@,
                ),
            decreases s.len() - self.at,
        {
            let c = self.chars[self.at];
            if c == '"' {
                self.at = self.at + 1;
                return Ok(output);
            }
            if c == '\\' {
                self.at = self.at + 1;
                if self.at >= self.chars.len() {
                    return Err(self.trouble("字符串转义不完整"));
                }
                let escape = self.chars[self.at];
                if escape == 'u' {
                    let ghost here = self.at as int;
                    let first: u32 = match self.parse_hex_escape(self.at + 1) {
                        Ok(first) => first,
                        Err(e) => {
                            return Err(e);
                        },
                    };
                    self.at = self.at + 4;
                    if 0xD800 <= first && first <= 0xDBFF {
                        if !(length - self.at > 2 && self.chars[self.at + 1] == '\\'
                            && self.chars[self.at + 2] == 'u') {
                            return Err(self.trouble("高代理项后缺少低代理项"));
                        }
                        let low: u32 = match self.parse_hex_escape(self.at + 3) {
                            Ok(low) => low,
                            Err(e) => {
                                return Err(e);
                            },
                        };
                        if !(0xDC00 <= low && low <= 0xDFFF) {
                            return Err(self.trouble("Unicode 低代理项无效"));
                        }
                        let x: u32 = 0x1_0000 + (first - 0xD800) * 0x400 + (low - 0xDC00);
                        match char::from_u32(x) {
                            Some(d) => {
                                proof {
                                    lemma_same_code_point(d, x as char);
                                }
                                output.push(d);
                            },
                            None => {
                                return Err(self.trouble("代理项不是 Unicode 标量"));
                            },
                        }
                        self.at = self.at + 7;
                        proof {
                            assert(json_escape(s, here) == Ok::<(char, int), (int, Seq<char>)>(
                                (x as char, self.at as int),
                            ));
                        }
                    } else if 0xDC00 <= first && first <= 0xDFFF {
                        return Err(self.trouble("出现孤立低代理项"));
                    } else {
                        match char::from_u32(first) {
                            Some(d) => {
                                proof {
                                    lemma_same_code_point(d, first as char);
                                }
                                output.push(d);
                            },
                            None => {
                                return Err(self.trouble("转义不是 Unicode 标量"));
                            },
                        }
                        self.at = self.at + 1;
                        proof {
                            assert(json_escape(s, here) == Ok::<(char, int), (int, Seq<char>)>(
                                (first as char, self.at as int),
                            ));
                        }
                    }
                } else {
                    let plain = if escape == '"' || escape == '\\' || escape == '/' {
                        escape
                    } else if escape == 'b' {
                        '\x08'
                    } else if escape == 'f' {
                        '\x0c'
                    } else if escape == 'n' {
                        '\n'
                    } else if escape == 'r' {
                        '\r'
                    } else if escape == 't' {
                        '\t'
                    } else {
                        return Err(self.trouble("未知字符串转义"));
                    };
                    output.push(plain);
                    self.at = self.at + 1;
                }
            } else if (c as u32) < 0x20 {
                return Err(self.trouble("字符串含未转义控制字符"));
            } else {
                output.push(c);
                self.at = self.at + 1;
            }
        }
        Err(self.trouble("字符串没有闭合"))
    }

    /// A value, behind its blanks.
    fn parse_value(&mut self, depth: usize) -> (r: Result<JsonValue, Trouble>)
        requires
            old(self).at <= old(self).chars@.len(),
            depth <= 129,
        ensures
            final(self).chars == old(self).chars,
            read_as(
                json_value(old(self).chars@, old(self).at as int, depth as nat),
                *final(self),
                r,
            ),
            r is Ok ==> old(self).at < final(self).at <= final(self).chars@.len(),
        decreases old(self).chars@.len() - old(self).at, 1int,
    {
        let ghost s = self.chars@;
        if depth > 128 {
            return Err(self.trouble("嵌套层级超过 128"));
        }
        self.skip_whitespace();
        if self.at >= self.chars.len() {
            return Err(self.trouble("意外到达文件末尾"));
        }
        proof {
            reveal_strlit("null");
            reveal_strlit("true");
            reveal_strlit("false");
        }
        let c = self.chars[self.at];
        if c == 'n' {
            match self.literal("null") {
                Ok(()) => Ok(JsonValue::Null),
                Err(e) => Err(e),
            }
        } else if c == 't' {
            match self.literal("true") {
                Ok(()) => Ok(JsonValue::Bool),
                Err(e) => Err(e),
            }
        } else if c == 'f' {
            match self.literal("false") {
                Ok(()) => Ok(JsonValue::Bool),
                Err(e) => Err(e),
            }
        } else if c == '"' {
            match self.parse_string() {
                Ok(text) => Ok(JsonValue::Text(text)),
                Err(e) => Err(e),
            }
        } else if c == '[' {
            self.parse_array(depth + 1)
        } else if c == '{' {
            self.parse_object(depth + 1)
        } else if c == '-' || is_digit(c) {
            match self.parse_number() {
                Ok(()) => Ok(JsonValue::Number),
                Err(e) => Err(e),
            }
        } else {
            Err(self.trouble("无法识别的 JSON 值"))
        }
    }

    /// A list, from its bracket on.
    #[verifier::rlimit(50)]
    fn parse_array(&mut self, depth: usize) -> (r: Result<JsonValue, Trouble>)
        requires
            stands(old(self).chars@, old(self).at as int, '['),
            depth <= 129,
        ensures
            final(self).chars == old(self).chars,
            ({
                let s = old(self).chars@;
                let q = past_blanks(s, old(self).at + 1);
                read_as(
                    if stands(s, q, ']') {
                        Ok((Json::List(Seq::empty()), q + 1))
                    } else {
                        json_items(s, q, depth as nat, Seq::empty())
                    },
                    *final(self),
                    r,
                )
            }),
            r is Ok ==> old(self).at < final(self).at <= final(self).chars@.len(),
            past_blanks(old(self).chars@, old(self).at + 1) <= old(self).chars@.len(),
        decreases old(self).chars@.len() - old(self).at, 0int,
    {
        broadcast use lemma_view_list;

        let ghost s = self.chars@;
        let ghost start = self.at;
        let length: usize = self.chars.len();
        self.at = self.at + 1;
        self.skip_whitespace();
        let mut values: Vec<JsonValue> = Vec::new();
        proof {
            assert(views(values@) =~= Seq::empty());
        }
        if self.consume(']') {
            return Ok(JsonValue::Array(values));
        }
        let ghost first = self.at as int;
        loop
            invariant_except_break
                json_items(s, first, depth as nat, Seq::empty()) == json_items(
                    s,
                    self.at as int,
                    depth as nat,
                    views(values@),
                ),
            invariant
                self.chars == old(self).chars,
                s == self.chars@,
                length == s.len(),
                depth <= 129,
                start == old(self).at,
                start < self.at <= s.len(),
                first == past_blanks(s, start + 1),
                first <= s.len(),
                !stands(s, first, ']'),
            ensures
                json_items(s, first, depth as nat, Seq::empty()) == Ok::<
                    (Json, int),
                    (int, Seq<char>),
                >((Json::List(views(values@)), self.at as int)),
            decreases s.len() - self.at,
        {
            let ghost known = views(values@);
            match self.parse_value(depth) {
                Ok(v) => {
                    let ghost seen = v@;
                    values.push(v);
                    proof {
                        assert(views(values@) =~= known.push(seen));
                    }
                },
                Err(e) => {
                    return Err(e);
                },
            }
            self.skip_whitespace();
            if self.consume(']') {
                break;
            }
            if !self.consume(',') {
                return Err(self.trouble("数组元素之间缺少逗号或结束方括号"));
            }
        }
        Ok(JsonValue::Array(values))
    }

    /// The fields of an object, from its brace on.
    #[verifier::rlimit(50)]
    fn parse_object(&mut self, depth: usize) -> (r: Result<JsonValue, Trouble>)
        requires
            stands(old(self).chars@, old(self).at as int, '{'),
            depth <= 129,
        ensures
            final(self).chars == old(self).chars,
            ({
                let s = old(self).chars@;
                let q = past_blanks(s, old(self).at + 1);
                read_as(
                    if stands(s, q, '}') {
                        Ok((Json::Fields(Seq::empty()), q + 1))
                    } else {
                        json_fields(s, q, depth as nat, Seq::empty())
                    },
                    *final(self),
                    r,
                )
            }),
            r is Ok ==> old(self).at < final(self).at <= final(self).chars@.len(),
            past_blanks(old(self).chars@, old(self).at + 1) <= old(self).chars@.len(),
        decreases old(self).chars@.len() - old(self).at, 0int,
    {
        broadcast use lemma_view_fields;

        let ghost s = self.chars@;
        let ghost start = self.at;
        let length: usize = self.chars.len();
        self.at = self.at + 1;
        self.skip_whitespace();
        let mut fields: Vec<(String, JsonValue)> = Vec::new();
        proof {
            assert(views(fields@) =~= Seq::empty());
        }
        if self.consume('}') {
            return Ok(JsonValue::Object(fields));
        }
        let ghost first = self.at as int;
        loop
            invariant_except_break
                json_fields(s, first, depth as nat, Seq::empty()) == json_fields(
                    s,
                    self.at as int,
                    depth as nat,
                    views(fields@),
                ),
            invariant
                self.chars == old(self).chars,
                s == self.chars@,
                length == s.len(),
                depth <= 129,
                start == old(self).at,
                start < self.at <= s.len(),
                first == past_blanks(s, start + 1),
                first <= s.len(),
                !stands(s, first, '}'),
            ensures
                json_fields(s, first, depth as nat, Seq::empty()) == Ok::<
                    (Json, int),
                    (int, Seq<char>),
                >((Json::Fields(views(fields@)), self.at as int)),
            decreases s.len() - self.at,
        {
            let ghost known = views(fields@);
            self.skip_whitespace();
            if !self.stands_here('"') {
                return Err(self.trouble("对象键必须是字符串"));
            }
            let key = match self.parse_string() {
                Ok(key) => key,
                Err(e) => {
                    return Err(e);
                },
            };
            self.skip_whitespace();
            if !self.consume(':') {
                return Err(self.trouble("对象键后缺少冒号"));
            }
            match self.parse_value(depth) {
                Ok(v) => {
                    let ghost seen = (key@, v@);
                    fields.push((key, v));
                    proof {
                        assert(views(fields@) =~= known.push(seen));
                    }
                },
                Err(e) => {
                    return Err(e);
                },
            }
            self.skip_whitespace();
            if self.consume('}') {
                break;
            }
            if !self.consume(',') {
                return Err(self.trouble("对象字段之间缺少逗号或结束花括号"));
            }
        }
        Ok(JsonValue::Object(fields))
    }
}

/// Reads the value that a text writes.
pub fn parse_json(input: &str) -> (r: Result<JsonValue, JsonError>)
    ensures
        match (r, json_text(input@)) {
            (Ok(v), Ok(expected)) => v@ == expected,
            (Err(e), Err((at, message))) => 0 <= at <= input@.len() && e.offset == utf8_size(
                input@.take(at),
            ) && e.message@ == message,
            _ => false,
        },
{
    let chars = chars_of(input);
    let ghost s = chars@;
    let mut parser = JsonParser { chars: chars.as_slice(), at: 0 };
    parser.skip_whitespace();
    let read = parser.parse_value(0);
    let trouble = match read {
        Ok(value) => {
            parser.skip_whitespace();
            if parser.at == chars.len() {
                return Ok(value);
            }
            parser.trouble("顶层 JSON 值后还有多余内容")
        },
        Err(trouble) => trouble,
    };
    let offset: usize = offset_of(input, &chars, trouble.at);
    Err(JsonError { offset, message: trouble.message.to_owned() })
}

/// The number of bytes before a place.
fn offset_of(input: &str, chars: &Vec<char>, at: usize) -> (r: usize)
    requires
        chars@ == input@,
        at <= chars@.len(),
    ensures
        r == utf8_size(input@.take(at as int)),
{
    let all: usize = input.as_bytes().len();
    proof {
        lemma_utf8_size(input@);
    }
    let mut size: usize = 0;
    let mut i: usize = 0;
    assert(input@.take(0) =~= Seq::empty());
    while i < at
        invariant
            i <= at <= chars@.len(),
            chars@ == input@,
            all == utf8_size(input@),
            size == utf8_size(input@.take(i as int)),
        decreases at - i,
    {
        proof {
            assert(input@.take(i + 1) =~= input@.take(i as int).push(chars@[i as int]));
            lemma_utf8_size_push(input@.take(i as int), chars@[i as int]);
            lemma_utf8_size_prefix(input@, i + 1);
        }
        size = size + width_of(chars[i]);
        i += 1;
    }
    size
}

} // verus!
