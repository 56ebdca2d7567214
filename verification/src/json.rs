use vstd::prelude::*;

use crate::text::chars_of;

verus! {

/// A JSON document as the library reads it: strings, arrays, objects and `null`.
#[derive(Debug)]
pub enum JsonValue {
    Str(String),
    Array(Vec<JsonValue>),
    Object(Vec<(String, JsonValue)>),
    Null,
}

/// Mathematical model of a [`JsonValue`].
pub enum Json {
    Str(Seq<char>),
    Array(Seq<Json>),
    Object(Seq<(Seq<char>, Json)>),
    Null,
}

impl JsonValue {
    /// The value as a mathematical JSON tree.
    pub open spec fn model(&self) -> Json
        decreases self, 0nat,
    {
        match self {
            JsonValue::Str(s) => Json::Str(s@),
            JsonValue::Array(items) => Json::Array(JsonValue::model_items(items@, items@.len())),
            JsonValue::Object(pairs) => Json::Object(JsonValue::model_pairs(pairs@, pairs@.len())),
            JsonValue::Null => Json::Null,
        }
    }

    /// Models of the first `n` items.
    pub open spec fn model_items(items: Seq<JsonValue>, n: nat) -> Seq<Json>
        decreases items, n,
    {
        if n == 0 || n > items.len() {
            Seq::empty()
        } else {
            JsonValue::model_items(items, (n - 1) as nat).push(items[n - 1].model())
        }
    }

    /// Models of the first `n` key/value pairs.
    pub open spec fn model_pairs(pairs: Seq<(String, JsonValue)>, n: nat) -> Seq<(Seq<char>, Json)>
        decreases pairs, n,
    {
        if n == 0 || n > pairs.len() {
            Seq::empty()
        } else {
            JsonValue::model_pairs(pairs, (n - 1) as nat).push(
                (pairs[n - 1].0@, pairs[n - 1].1.model()),
            )
        }
    }
}

// ---------------------------------------------------------------------------
// The grammar, as functions from a character sequence and a position to a
// result and the position where the reader stops.
// ---------------------------------------------------------------------------

/// ASCII whitespace as `char::is_ascii_whitespace` defines it.
pub open spec fn is_json_ws(c: char) -> bool {
    c == ' ' || c == '\t' || c == '\n' || c == '\x0C' || c == '\r'
}

/// The character at `p`, if any.
pub open spec fn char_at(s: Seq<char>, p: int) -> Option<char> {
    if 0 <= p < s.len() {
        Some(s[p])
    } else {
        None
    }
}

/// The first position at or after `p` that does not hold whitespace.
pub open spec fn skip_ws_from(s: Seq<char>, p: int) -> int
    decreases s.len() - p,
{
    if 0 <= p < s.len() && is_json_ws(s[p]) {
        skip_ws_from(s, p + 1)
    } else {
        p
    }
}

/// The message for a character other than the one expected.
pub open spec fn msg_expected(ch: char, got: Option<char>) -> Seq<char> {
    match got {
        Some(c) => "expected '"@ + seq![ch] + "' got '"@ + seq![c] + "'"@,
        None => "expected '"@ + seq![ch] + "' got EOF"@,
    }
}

/// The message for a character that starts no value.
pub open spec fn msg_unexpected_char(c: char) -> Seq<char> {
    "unexpected char '"@ + seq![c] + "'"@
}

/// Skips whitespace, then reads one character that must be `ch`.
pub open spec fn expect_at(s: Seq<char>, p: int, ch: char) -> (Result<(), Seq<char>>, int) {
    let q = skip_ws_from(s, p);
    match char_at(s, q) {
        Some(c) => if c == ch {
            (Ok(()), q + 1)
        } else {
            (Err(msg_expected(ch, Some(c))), q + 1)
        },
        None => (Err(msg_expected(ch, None)), q + 1),
    }
}

/// What an escape sequence `\d` stands for inside a string.
pub open spec fn unescape(d: char) -> Seq<char> {
    if d == 'n' {
        seq!['\n']
    } else if d == 't' {
        seq!['\t']
    } else if d == 'r' {
        seq!['\r']
    } else if d == '"' || d == '\\' || d == '/' {
        seq![d]
    } else {
        seq!['\\', d]
    }
}

/// Reads the body of a string from `p` (just after the opening quote), with
/// `acc` already read.
pub open spec fn string_body(s: Seq<char>, p: int, acc: Seq<char>) -> (
    Result<Seq<char>, Seq<char>>,
    int,
)
    decreases s.len() - p,
{
    match char_at(s, p) {
        None => (Err("unterminated string"@), p + 1),
        Some(c) => if c == '"' {
            (Ok(acc), p + 1)
        } else if c == '\\' {
            match char_at(s, p + 1) {
                None => (Err("unexpected EOF in escape"@), p + 2),
                Some(d) => string_body(s, p + 2, acc + unescape(d)),
            }
        } else {
            string_body(s, p + 1, acc.push(c))
        },
    }
}

/// Reads a quoted string at `p`, whitespace before it allowed.
pub open spec fn string_at(s: Seq<char>, p: int) -> (Result<Seq<char>, Seq<char>>, int) {
    let (r, q) = expect_at(s, skip_ws_from(s, p), '"');
    match r {
        Err(e) => (Err(e), q),
        Ok(_) => string_body(s, q, seq![]),
    }
}

/// Reads the letters of `null` at `p`, each after optional whitespace.
pub open spec fn null_at(s: Seq<char>, p: int) -> (Result<Json, Seq<char>>, int) {
    let (r1, p1) = expect_at(s, p, 'n');
    if r1 is Err {
        (Err(r1->Err_0), p1)
    } else {
        let (r2, p2) = expect_at(s, p1, 'u');
        if r2 is Err {
            (Err(r2->Err_0), p2)
        } else {
            let (r3, p3) = expect_at(s, p2, 'l');
            if r3 is Err {
                (Err(r3->Err_0), p3)
            } else {
                let (r4, p4) = expect_at(s, p3, 'l');
                if r4 is Err {
                    (Err(r4->Err_0), p4)
                } else {
                    (Ok(Json::Null), p4)
                }
            }
        }
    }
}


/// Skipping whitespace moves forward, stays within the input, and stops at
/// a character that is not whitespace.
pub proof fn lemma_skip_ws(s: Seq<char>, p: int)
    ensures
        p <= skip_ws_from(s, p),
        p <= s.len() ==> skip_ws_from(s, p) <= s.len(),
        0 <= skip_ws_from(s, p) < s.len() ==> !is_json_ws(s[skip_ws_from(s, p)]),
        forall|i: int| p <= i < skip_ws_from(s, p) ==> 0 <= i < s.len() && is_json_ws(#[trigger] s[i]),
        skip_ws_from(s, skip_ws_from(s, p)) == skip_ws_from(s, p),
    decreases s.len() - p,
{
    if 0 <= p < s.len() && is_json_ws(s[p]) {
        lemma_skip_ws(s, p + 1);
    }
}

pub proof fn lemma_expect_pos(s: Seq<char>, p: int, ch: char)
    ensures
        expect_at(s, p, ch).0 is Ok ==> p < expect_at(s, p, ch).1 <= s.len() && 0 < expect_at(s, p, ch).1,
        p <= s.len() ==> expect_at(s, p, ch).1 <= s.len() + 1,
        p < expect_at(s, p, ch).1,
{
    lemma_skip_ws(s, p);
}

pub proof fn lemma_string_body_pos(s: Seq<char>, p: int, acc: Seq<char>)
    requires
        0 <= p,
    ensures
        string_body(s, p, acc).0 is Ok ==> p < string_body(s, p, acc).1 <= s.len(),
        p <= s.len() ==> string_body(s, p, acc).1 <= s.len() + 1,
        p < string_body(s, p, acc).1,
    decreases s.len() - p,
{
    match char_at(s, p) {
        None => {},
        Some(c) => if c == '"' {
        } else if c == '\\' {
            match char_at(s, p + 1) {
                None => {},
                Some(d) => lemma_string_body_pos(s, p + 2, acc + unescape(d)),
            }
        } else {
            lemma_string_body_pos(s, p + 1, acc.push(c));
        },
    }
}

pub proof fn lemma_string_pos(s: Seq<char>, p: int)
    ensures
        string_at(s, p).0 is Ok ==> p < string_at(s, p).1 <= s.len(),
        p <= s.len() ==> string_at(s, p).1 <= s.len() + 1,
        p < string_at(s, p).1,
{
    lemma_skip_ws(s, p);
    let q = skip_ws_from(s, p);
    lemma_expect_pos(s, q, '"');
    let (r, q1) = expect_at(s, q, '"');
    if r is Ok {
        lemma_string_body_pos(s, q1, seq![]);
    }
}

// ---------------------------------------------------------------------------
// Values, arrays and objects: one recursive group.
// ---------------------------------------------------------------------------

/// Reads one value at `p`, whitespace before it allowed.
pub open spec fn value_at(s: Seq<char>, p: int) -> (Result<Json, Seq<char>>, int)
    decreases s.len() - p, 3nat,
{
    let q = skip_ws_from(s, p);
    proof {
        lemma_skip_ws(s, p);
    }
    match char_at(s, q) {
        None => (Err("unexpected EOF"@), q),
        Some(c) => if c == '"' {
            let (r, e) = string_at(s, q);
            (
                match r {
                    Ok(t) => Ok(Json::Str(t)),
                    Err(m) => Err(m),
                },
                e,
            )
        } else if c == '[' {
            array_at(s, q)
        } else if c == '{' {
            object_at(s, q)
        } else if c == 'n' {
            null_at(s, q)
        } else {
            (Err(msg_unexpected_char(c)), q)
        },
    }
}

/// Reads an array at `p`.
pub open spec fn array_at(s: Seq<char>, p: int) -> (Result<Json, Seq<char>>, int)
    decreases s.len() - p, 2nat,
{
    let (r, p1) = expect_at(s, p, '[');
    if r is Err {
        (Err(r->Err_0), p1)
    } else {
        let p2 = skip_ws_from(s, p1);
        proof {
            lemma_expect_pos(s, p, '[');
            lemma_skip_ws(s, p1);
        }
        if char_at(s, p2) == Some(']') {
            (Ok(Json::Array(seq![])), p2 + 1)
        } else {
            items_at(s, p2, seq![])
        }
    }
}

/// Reads array items from `p` (the next item starts there), with `acc` read.
pub open spec fn items_at(s: Seq<char>, p: int, acc: Seq<Json>) -> (Result<Json, Seq<char>>, int)
    decreases s.len() - p, 4nat,
{
    let (v, q) = value_at(s, p);
    match v {
        Err(e) => (Err(e), q),
        Ok(x) => {
            let r = skip_ws_from(s, q);
            match char_at(s, r) {
                Some(c) => if c == ',' {
                    if r >= p {
                        items_at(s, r + 1, acc.push(x))
                    } else {
                        (Err(seq![]), r)
                    }
                } else if c == ']' {
                    (Ok(Json::Array(acc.push(x))), r + 1)
                } else {
                    (Err("expected ',' or ']' in array"@), r)
                },
                None => (Err("expected ',' or ']' in array"@), r),
            }
        },
    }
}

/// Reads an object at `p`.
pub open spec fn object_at(s: Seq<char>, p: int) -> (Result<Json, Seq<char>>, int)
    decreases s.len() - p, 2nat,
{
    let (r, p1) = expect_at(s, p, '{');
    if r is Err {
        (Err(r->Err_0), p1)
    } else {
        let p2 = skip_ws_from(s, p1);
        proof {
            lemma_expect_pos(s, p, '{');
            lemma_skip_ws(s, p1);
        }
        if char_at(s, p2) == Some('}') {
            (Ok(Json::Object(seq![])), p2 + 1)
        } else {
            members_at(s, p2, seq![])
        }
    }
}

/// Reads object members from `p` (the next key starts there), with `acc` read.
pub open spec fn members_at(s: Seq<char>, p: int, acc: Seq<(Seq<char>, Json)>) -> (
    Result<Json, Seq<char>>,
    int,
)
    decreases s.len() - p, 4nat,
{
    let (k, q1) = string_at(s, p);
    if k is Err {
        (Err(k->Err_0), q1)
    } else {
        let q2 = skip_ws_from(s, q1);
        let (e, q3) = expect_at(s, q2, ':');
        if e is Err {
            (Err(e->Err_0), q3)
        } else {
            proof {
                lemma_string_pos(s, p);
                lemma_skip_ws(s, q1);
                lemma_expect_pos(s, q2, ':');
            }
            let (v, q4) = value_at(s, q3);
            match v {
                Err(m) => (Err(m), q4),
                Ok(x) => {
                    let r = skip_ws_from(s, q4);
                    match char_at(s, r) {
                        Some(c) => if c == ',' {
                            if r >= p {
                                members_at(s, r + 1, acc.push((k->Ok_0, x)))
                            } else {
                                (Err(seq![]), r)
                            }
                        } else if c == '}' {
                            (Ok(Json::Object(acc.push((k->Ok_0, x)))), r + 1)
                        } else {
                            (Err("expected ',' or '}' in object"@), r)
                        },
                        None => (Err("expected ',' or '}' in object"@), r),
                    }
                },
            }
        }
    }
}


pub proof fn lemma_null_pos(s: Seq<char>, p: int)
    ensures
        null_at(s, p).0 is Ok ==> p < null_at(s, p).1 <= s.len(),
{
    lemma_expect_pos(s, p, 'n');
    let p1 = expect_at(s, p, 'n').1;
    lemma_expect_pos(s, p1, 'u');
    let p2 = expect_at(s, p1, 'u').1;
    lemma_expect_pos(s, p2, 'l');
    let p3 = expect_at(s, p2, 'l').1;
    lemma_expect_pos(s, p3, 'l');
}

/// A value that reads successfully ends after its start and within the input.
pub proof fn lemma_value_pos(s: Seq<char>, p: int)
    ensures
        value_at(s, p).0 is Ok ==> p < value_at(s, p).1 <= s.len(),
    decreases s.len() - p, 3nat,
{
    lemma_skip_ws(s, p);
    let q = skip_ws_from(s, p);
    match char_at(s, q) {
        None => {},
        Some(c) => if c == '"' {
            lemma_string_pos(s, q);
        } else if c == '[' {
            lemma_array_pos(s, q);
        } else if c == '{' {
            lemma_object_pos(s, q);
        } else if c == 'n' {
            lemma_null_pos(s, q);
        },
    }
}

pub proof fn lemma_array_pos(s: Seq<char>, p: int)
    ensures
        array_at(s, p).0 is Ok ==> p < array_at(s, p).1 <= s.len(),
    decreases s.len() - p, 2nat,
{
    let (r, p1) = expect_at(s, p, '[');
    lemma_expect_pos(s, p, '[');
    if r is Ok {
        lemma_skip_ws(s, p1);
        let p2 = skip_ws_from(s, p1);
        if char_at(s, p2) != Some(']') {
            lemma_items_pos(s, p2, seq![]);
        }
    }
}

pub proof fn lemma_items_pos(s: Seq<char>, p: int, acc: Seq<Json>)
    ensures
        items_at(s, p, acc).0 is Ok ==> p < items_at(s, p, acc).1 <= s.len(),
    decreases s.len() - p, 4nat,
{
    lemma_value_pos(s, p);
    let (v, q) = value_at(s, p);
    if v is Ok {
        lemma_skip_ws(s, q);
        let r = skip_ws_from(s, q);
        if char_at(s, r) == Some(',') && r >= p {
            lemma_items_pos(s, r + 1, acc.push(v->Ok_0));
        }
    }
}

pub proof fn lemma_object_pos(s: Seq<char>, p: int)
    ensures
        object_at(s, p).0 is Ok ==> p < object_at(s, p).1 <= s.len(),
    decreases s.len() - p, 2nat,
{
    let (r, p1) = expect_at(s, p, '{');
    lemma_expect_pos(s, p, '{');
    if r is Ok {
        lemma_skip_ws(s, p1);
        let p2 = skip_ws_from(s, p1);
        if char_at(s, p2) != Some('}') {
            lemma_members_pos(s, p2, seq![]);
        }
    }
}

pub proof fn lemma_members_pos(s: Seq<char>, p: int, acc: Seq<(Seq<char>, Json)>)
    ensures
        members_at(s, p, acc).0 is Ok ==> p < members_at(s, p, acc).1 <= s.len(),
    decreases s.len() - p, 4nat,
{
    let (k, q1) = string_at(s, p);
    lemma_string_pos(s, p);
    if k is Ok {
        lemma_skip_ws(s, q1);
        let q2 = skip_ws_from(s, q1);
        let (e, q3) = expect_at(s, q2, ':');
        lemma_expect_pos(s, q2, ':');
        if e is Ok {
            lemma_value_pos(s, q3);
            let (v, q4) = value_at(s, q3);
            if v is Ok {
                lemma_skip_ws(s, q4);
                let r = skip_ws_from(s, q4);
                if char_at(s, r) == Some(',') && r >= p {
                    lemma_members_pos(s, r + 1, acc.push((k->Ok_0, v->Ok_0)));
                }
            }
        }
    }
}


// ---------------------------------------------------------------------------
// Models of results and of item lists.
// ---------------------------------------------------------------------------

/// A result with its message as text.
pub open spec fn unit_model(r: Result<(), String>) -> Result<(), Seq<char>> {
    match r {
        Ok(_) => Ok(()),
        Err(e) => Err(e@),
    }
}

/// A result with its string and message as text.
pub open spec fn text_model(r: Result<String, String>) -> Result<Seq<char>, Seq<char>> {
    match r {
        Ok(t) => Ok(t@),
        Err(e) => Err(e@),
    }
}

/// A result with its value as a JSON tree and its message as text.
pub open spec fn json_model(r: Result<JsonValue, String>) -> Result<Json, Seq<char>> {
    match r {
        Ok(v) => Ok(v.model()),
        Err(e) => Err(e@),
    }
}

/// Models of all items of a list.
pub open spec fn models(items: Seq<JsonValue>) -> Seq<Json> {
    JsonValue::model_items(items, items.len())
}

/// Models of all pairs of a list.
pub open spec fn pair_models(pairs: Seq<(String, JsonValue)>) -> Seq<(Seq<char>, Json)> {
    JsonValue::model_pairs(pairs, pairs.len())
}

pub proof fn lemma_model_items_prefix(items: Seq<JsonValue>, x: JsonValue, n: nat)
    requires
        n <= items.len(),
    ensures
        JsonValue::model_items(items.push(x), n) == JsonValue::model_items(items, n),
    decreases n,
{
    if n > 0 {
        lemma_model_items_prefix(items, x, (n - 1) as nat);
    }
}

pub proof fn lemma_models_push(items: Seq<JsonValue>, x: JsonValue)
    ensures
        models(items.push(x)) == models(items).push(x.model()),
{
    lemma_model_items_prefix(items, x, items.len());
}

pub proof fn lemma_model_items_len(items: Seq<JsonValue>, n: nat)
    requires
        n <= items.len(),
    ensures
        JsonValue::model_items(items, n).len() == n,
        forall|i: int| 0 <= i < n ==> #[trigger] JsonValue::model_items(items, n)[i] == items[i].model(),
    decreases n,
{
    if n > 0 {
        lemma_model_items_len(items, (n - 1) as nat);
    }
}

pub proof fn lemma_model_pairs_prefix(pairs: Seq<(String, JsonValue)>, x: (String, JsonValue), n: nat)
    requires
        n <= pairs.len(),
    ensures
        JsonValue::model_pairs(pairs.push(x), n) == JsonValue::model_pairs(pairs, n),
    decreases n,
{
    if n > 0 {
        lemma_model_pairs_prefix(pairs, x, (n - 1) as nat);
    }
}

pub proof fn lemma_pair_models_push(pairs: Seq<(String, JsonValue)>, x: (String, JsonValue))
    ensures
        pair_models(pairs.push(x)) == pair_models(pairs).push((x.0@, x.1.model())),
{
    lemma_model_pairs_prefix(pairs, x, pairs.len());
}

pub proof fn lemma_model_pairs_len(pairs: Seq<(String, JsonValue)>, n: nat)
    requires
        n <= pairs.len(),
    ensures
        JsonValue::model_pairs(pairs, n).len() == n,
        forall|i: int|
            0 <= i < n ==> #[trigger] JsonValue::model_pairs(pairs, n)[i] == (
                pairs[i].0@,
                pairs[i].1.model(),
            ),
    decreases n,
{
    if n > 0 {
        lemma_model_pairs_len(pairs, (n - 1) as nat);
    }
}

// ---------------------------------------------------------------------------
// Error messages.
// ---------------------------------------------------------------------------

fn expected_message(ch: char, got: Option<char>) -> (m: String)
    ensures
        m@ == msg_expected(ch, got),
{
    let mut m = String::from_str("expected '");
    m.push(ch);
    match got {
        Some(c) => {
            m.append("' got '");
            m.push(c);
            m.append("'");
        },
        None => {
            m.append("' got EOF");
        },
    }
    proof {
        match got {
            Some(c) => {
                assert(m@ =~= msg_expected(ch, got));
            },
            None => {
                assert(m@ =~= msg_expected(ch, got));
            },
        }
    }
    m
}

fn unexpected_char_message(c: char) -> (m: String)
    ensures
        m@ == msg_unexpected_char(c),
{
    let mut m = String::from_str("unexpected char '");
    m.push(c);
    m.append("'");
    assert(m@ =~= msg_unexpected_char(c));
    m
}

fn is_ws_char(c: char) -> (b: bool)
    ensures
        b == is_json_ws(c),
{
    c == ' ' || c == '\t' || c == '\n' || c == '\x0C' || c == '\r'
}

// ---------------------------------------------------------------------------
// The reader.
// ---------------------------------------------------------------------------

/// A reader over the characters of a JSON text.
pub struct Parser {
    pub input: Vec<char>,
    pub pos: usize,
}

impl Parser {
    /// Room for the reader to step one past the end of its input.
    pub open spec fn has_room(&self) -> bool {
        self.pos < usize::MAX && self.input@.len() < usize::MAX
    }

    /// A reader at the start of `s`.
    pub fn new(s: &str) -> (p: Parser)
        ensures
            p.input@ == s@,
            p.pos == 0,
    {
        Parser { input: chars_of(s), pos: 0 }
    }

    /// The character under the reader, if any.
    pub fn peek(&self) -> (c: Option<char>)
        ensures
            c == char_at(self.input@, self.pos as int),
    {
        if self.pos < self.input.len() {
            Some(self.input[self.pos])
        } else {
            None
        }
    }

    /// The character under the reader, if any; the reader moves one step on
    /// either way.
    pub fn next(&mut self) -> (c: Option<char>)
        requires
            old(self).pos < usize::MAX,
        ensures
            c == char_at(old(self).input@, old(self).pos as int),
            final(self).input@ == old(self).input@,
            final(self).pos == old(self).pos + 1,
    {
        let c = self.peek();
        self.pos = self.pos + 1;
        c
    }

    /// Moves the reader past whitespace.
    pub fn skip_ws(&mut self)
        ensures
            final(self).input@ == old(self).input@,
            final(self).pos as int == skip_ws_from(old(self).input@, old(self).pos as int),
    {
        let ghost s = self.input@;
        let ghost p0 = self.pos as int;
        proof {
            lemma_skip_ws(s, p0);
        }
        while self.pos < self.input.len() && is_ws_char(self.input[self.pos])
            invariant
                self.input@ == s,
                p0 <= self.pos,
                skip_ws_from(s, self.pos as int) == skip_ws_from(s, p0),
            decreases self.input@.len() - self.pos,
        {
            self.pos = self.pos + 1;
        }
    }

    /// Skips whitespace and reads one character, which must be `ch`.
    pub fn expect(&mut self, ch: char) -> (r: Result<(), String>)
        requires
            old(self).has_room(),
        ensures
            final(self).input@ == old(self).input@,
            (unit_model(r), final(self).pos as int) == expect_at(
                old(self).input@,
                old(self).pos as int,
                ch,
            ),
    {
        proof {
            lemma_skip_ws(self.input@, self.pos as int);
        }
        self.skip_ws();
        match self.next() {
            Some(c) => if c == ch {
                Ok(())
            } else {
                Err(expected_message(ch, Some(c)))
            },
            None => Err(expected_message(ch, None)),
        }
    }

    /// Reads a quoted string, with its escape sequences resolved.
    pub fn parse_string(&mut self) -> (r: Result<String, String>)
        requires
            old(self).has_room(),
        ensures
            final(self).input@ == old(self).input@,
            (text_model(r), final(self).pos as int) == string_at(
                old(self).input@,
                old(self).pos as int,
            ),
    {
        let ghost s = self.input@;
        proof {
            lemma_skip_ws(s, self.pos as int);
        }
        self.skip_ws();
        proof {
            lemma_expect_pos(s, self.pos as int, '"');
        }
        match self.expect('"') {
            Ok(_) => {},
            Err(e) => return Err(e),
        }
        let ghost q = self.pos as int;
        let mut out = String::new();
        loop
            invariant
                self.input@ == s,
                old(self).input@ == s,
                string_at(s, old(self).pos as int) == string_body(s, q, seq![]),
                s.len() < usize::MAX,
                0 < q <= self.pos <= s.len(),
                string_body(s, self.pos as int, out@) == string_body(s, q, seq![]),
            decreases s.len() - self.pos,
        {
            match self.next() {
                None => return Err(String::from_str("unterminated string")),
                Some(c) => {
                    if c == '"' {
                        return Ok(out);
                    } else if c == '\\' {
                        match self.next() {
                            None => return Err(String::from_str("unexpected EOF in escape")),
                            Some(d) => {
                                let ghost before = out@;
                                if d == 'n' {
                                    out.push('\n');
                                } else if d == 't' {
                                    out.push('\t');
                                } else if d == 'r' {
                                    out.push('\r');
                                } else if d == '"' {
                                    out.push('"');
                                } else if d == '\\' {
                                    out.push('\\');
                                } else if d == '/' {
                                    out.push('/');
                                } else {
                                    out.push('\\');
                                    out.push(d);
                                }
                                assert(out@ =~= before + unescape(d));
                            },
                        }
                    } else {
                        out.push(c);
                    }
                },
            }
        }
    }

    /// Reads one value: a string, an array, an object or `null`.
    pub fn parse_value(&mut self) -> (r: Result<JsonValue, String>)
        requires
            old(self).has_room(),
        ensures
            final(self).input@ == old(self).input@,
            (json_model(r), final(self).pos as int) == value_at(
                old(self).input@,
                old(self).pos as int,
            ),
        decreases old(self).input@.len() - old(self).pos, 3nat,
    {
        let ghost s = self.input@;
        proof {
            lemma_skip_ws(s, self.pos as int);
        }
        self.skip_ws();
        match self.peek() {
            Some(c) => {
                if c == '"' {
                    match self.parse_string() {
                        Ok(t) => Ok(JsonValue::Str(t)),
                        Err(e) => Err(e),
                    }
                } else if c == '[' {
                    self.parse_array()
                } else if c == '{' {
                    self.parse_object()
                } else if c == 'n' {
                    let ghost q = self.pos as int;
                    proof {
                        lemma_expect_pos(s, q, 'n');
                    }
                    match self.expect('n') {
                        Ok(_) => {},
                        Err(e) => return Err(e),
                    }
                    proof {
                        lemma_expect_pos(s, self.pos as int, 'u');
                    }
                    match self.expect('u') {
                        Ok(_) => {},
                        Err(e) => return Err(e),
                    }
                    proof {
                        lemma_expect_pos(s, self.pos as int, 'l');
                    }
                    match self.expect('l') {
                        Ok(_) => {},
                        Err(e) => return Err(e),
                    }
                    proof {
                        lemma_expect_pos(s, self.pos as int, 'l');
                    }
                    match self.expect('l') {
                        Ok(_) => {},
                        Err(e) => return Err(e),
                    }
                    Ok(JsonValue::Null)
                } else {
                    Err(unexpected_char_message(c))
                }
            },
            None => Err(String::from_str("unexpected EOF")),
        }
    }

    /// Reads an array of values.
    pub fn parse_array(&mut self) -> (r: Result<JsonValue, String>)
        requires
            old(self).has_room(),
        ensures
            final(self).input@ == old(self).input@,
            (json_model(r), final(self).pos as int) == array_at(
                old(self).input@,
                old(self).pos as int,
            ),
        decreases old(self).input@.len() - old(self).pos, 2nat,
    {
        let ghost s = self.input@;
        let ghost p0 = self.pos as int;
        proof {
            lemma_expect_pos(s, p0, '[');
        }
        match self.expect('[') {
            Ok(_) => {},
            Err(e) => return Err(e),
        }
        let mut items: Vec<JsonValue> = Vec::new();
        proof {
            lemma_skip_ws(s, self.pos as int);
        }
        self.skip_ws();
        let ghost p2 = self.pos as int;
        match self.peek() {
            Some(c) => if c == ']' {
                self.next();
                return Ok(JsonValue::Array(items));
            },
            None => {},
        }
        assert(models(items@) =~= seq![]);
        loop
            invariant
                self.input@ == s,
                old(self).input@ == s,
                s.len() < usize::MAX,
                p0 == old(self).pos,
                p0 < p2 <= self.pos <= s.len(),
                array_at(s, p0) == items_at(s, p2, seq![]),
                items_at(s, self.pos as int, models(items@)) == items_at(s, p2, seq![]),
            decreases s.len() - self.pos,
        {
            let ghost pstart = self.pos as int;
            proof {
                lemma_value_pos(s, pstart);
            }
            let v = match self.parse_value() {
                Ok(v) => v,
                Err(e) => return Err(e),
            };
            proof {
                lemma_models_push(items@, v);
                lemma_skip_ws(s, self.pos as int);
            }
            items.push(v);
            self.skip_ws();
            match self.peek() {
                Some(c) => {
                    if c == ',' {
                        self.next();
                    } else if c == ']' {
                        self.next();
                        return Ok(JsonValue::Array(items));
                    } else {
                        return Err(String::from_str("expected ',' or ']' in array"));
                    }
                },
                None => return Err(String::from_str("expected ',' or ']' in array")),
            }
        }
    }

    /// Reads an object of key/value pairs.
    pub fn parse_object(&mut self) -> (r: Result<JsonValue, String>)
        requires
            old(self).has_room(),
        ensures
            final(self).input@ == old(self).input@,
            (json_model(r), final(self).pos as int) == object_at(
                old(self).input@,
                old(self).pos as int,
            ),
        decreases old(self).input@.len() - old(self).pos, 2nat,
    {
        let ghost s = self.input@;
        let ghost p0 = self.pos as int;
        proof {
            lemma_expect_pos(s, p0, '{');
        }
        match self.expect('{') {
            Ok(_) => {},
            Err(e) => return Err(e),
        }
        let mut pairs: Vec<(String, JsonValue)> = Vec::new();
        proof {
            lemma_skip_ws(s, self.pos as int);
        }
        self.skip_ws();
        let ghost p2 = self.pos as int;
        match self.peek() {
            Some(c) => if c == '}' {
                self.next();
                return Ok(JsonValue::Object(pairs));
            },
            None => {},
        }
        assert(pair_models(pairs@) =~= seq![]);
        loop
            invariant
                self.input@ == s,
                old(self).input@ == s,
                s.len() < usize::MAX,
                p0 == old(self).pos,
                p0 < p2 <= self.pos <= s.len(),
                object_at(s, p0) == members_at(s, p2, seq![]),
                members_at(s, self.pos as int, pair_models(pairs@)) == members_at(s, p2, seq![]),
            decreases s.len() - self.pos,
        {
            let ghost pstart = self.pos as int;
            proof {
                lemma_string_pos(s, pstart);
            }
            let key = match self.parse_string() {
                Ok(k) => k,
                Err(e) => return Err(e),
            };
            proof {
                lemma_skip_ws(s, self.pos as int);
            }
            self.skip_ws();
            proof {
                lemma_expect_pos(s, self.pos as int, ':');
            }
            match self.expect(':') {
                Ok(_) => {},
                Err(e) => return Err(e),
            }
            let ghost q3 = self.pos as int;
            proof {
                lemma_value_pos(s, q3);
            }
            let v = match self.parse_value() {
                Ok(v) => v,
                Err(e) => return Err(e),
            };
            proof {
                lemma_pair_models_push(pairs@, (key, v));
                lemma_skip_ws(s, self.pos as int);
            }
            pairs.push((key, v));
            self.skip_ws();
            match self.peek() {
                Some(c) => {
                    if c == ',' {
                        self.next();
                    } else if c == '}' {
                        self.next();
                        return Ok(JsonValue::Object(pairs));
                    } else {
                        return Err(String::from_str("expected ',' or '}' in object"));
                    }
                },
                None => return Err(String::from_str("expected ',' or '}' in object")),
            }
        }
    }
}

/// Reads the JSON value at the start of `s`; what follows it is not looked at.
pub fn parse_json(s: &str) -> (r: Result<JsonValue, String>)
    requires
        s@.len() < usize::MAX,
    ensures
        json_model(r) == value_at(s@, 0).0,
{
    let mut p = Parser::new(s);
    let v = match p.parse_value() {
        Ok(v) => v,
        Err(e) => return Err(e),
    };
    Ok(v)
}

} // verus!
