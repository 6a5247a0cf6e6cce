//! JSON documents.
use crate::error;
use crate::error::LauncherError;
use crate::percent;
use crate::text;
use vstd::prelude::*;
use vstd::utf8::*;

verus! {

// ---------------------------------------------------------------------------
// Values
// ---------------------------------------------------------------------------

/// The model of a JSON value.
pub enum Json {
    Null,
    Bool(bool),
    Number(Seq<char>),
    Text(Seq<char>),
    Array(Seq<Json>),
    Object(Map<Seq<char>, Json>),
}

/// A JSON value. A number is kept as it was written.
#[derive(Debug, PartialEq)]
pub enum JsonValue {
    Null,
    Bool(bool),
    Number(String),
    String(String),
    Array(Vec<JsonValue>),
    Object(JsonObject),
}

/// The members of a JSON object: no name occurs twice, and they stand in the order of their names.
#[derive(Debug, PartialEq)]
pub struct JsonObject {
    entries: Vec<(String, JsonValue)>,
}

/// Whether `a` comes before `b` in the order of the code points.
pub open spec fn precedes(a: Seq<char>, b: Seq<char>) -> bool
    decreases a.len(),
{
    if b.len() == 0 {
        false
    } else if a.len() == 0 {
        true
    } else {
        a[0] < b[0] || (a[0] == b[0] && precedes(a.drop_first(), b.drop_first()))
    }
}

/// Whether the names of `entries` stand in strictly increasing order.
spec fn ordered(entries: Seq<(String, JsonValue)>) -> bool {
    forall|i: int, j: int|
        0 <= i < j < entries.len() ==> precedes(#[trigger] entries[i].0@, #[trigger] entries[j].0@)
}

/// The map from the names of `entries` to the models of their values.
spec fn map_of(entries: Seq<(String, JsonValue)>, n: nat) -> Map<Seq<char>, Json>
    decreases entries, n,
{
    if n == 0 || n > entries.len() {
        Map::empty()
    } else {
        map_of(entries, (n - 1) as nat).insert(entries[n - 1].0@, entries[n - 1].1@)
    }
}

impl View for JsonValue {
    type V = Json;

    open spec fn view(&self) -> Json
        decreases self, 0nat,
    {
        match self {
            JsonValue::Null => Json::Null,
            JsonValue::Bool(b) => Json::Bool(*b),
            JsonValue::Number(text) => Json::Number(text@),
            JsonValue::String(text) => Json::Text(text@),
            JsonValue::Array(items) => Json::Array(
                Seq::new(
                    items@.len(),
                    |i: int|
                        if 0 <= i < items@.len() {
                            items@[i]@
                        } else {
                            Json::Null
                        },
                ),
            ),
            JsonValue::Object(object) => Json::Object(object@),
        }
    }
}

impl View for JsonObject {
    type V = Map<Seq<char>, Json>;

    closed spec fn view(&self) -> Map<Seq<char>, Json>
        decreases self, 0nat,
    {
        map_of(self.entries@, self.entries@.len())
    }
}

impl JsonObject {
    #[verifier::type_invariant]
    spec fn well_formed(self) -> bool {
        ordered(self.entries@)
    }
}

proof fn lemma_precedes_irreflexive(a: Seq<char>)
    ensures
        !precedes(a, a),
    decreases a.len(),
{
    if a.len() > 0 {
        lemma_precedes_irreflexive(a.drop_first());
    }
}

proof fn lemma_precedes_transitive(a: Seq<char>, b: Seq<char>, c: Seq<char>)
    requires
        precedes(a, b),
        precedes(b, c),
    ensures
        precedes(a, c),
    decreases a.len(),
{
    if a.len() > 0 && a[0] == b[0] && b[0] == c[0] {
        lemma_precedes_transitive(a.drop_first(), b.drop_first(), c.drop_first());
    }
}

proof fn lemma_precedes_total(a: Seq<char>, b: Seq<char>)
    ensures
        a == b || precedes(a, b) || precedes(b, a),
    decreases a.len(),
{
    if a.len() == 0 || b.len() == 0 {
        assert(a.len() == 0 && b.len() == 0 ==> a == b);
    } else if a[0] == b[0] {
        lemma_precedes_total(a.drop_first(), b.drop_first());
        if a.drop_first() == b.drop_first() {
            assert(a == seq![a[0]] + a.drop_first());
            assert(b == seq![b[0]] + b.drop_first());
        }
    }
}

/// The map of `entries` holds each name of `entries` with its value, and no other name.
proof fn lemma_map_of(entries: Seq<(String, JsonValue)>, n: nat)
    requires
        n <= entries.len(),
        ordered(entries),
    ensures
        forall|i: int|
            0 <= i < n ==> map_of(entries, n).contains_key(#[trigger] entries[i].0@) && map_of(
                entries,
                n,
            )[entries[i].0@] == entries[i].1@,
        forall|k: Seq<char>| #[trigger]
            map_of(entries, n).contains_key(k) ==> exists|i: int|
                0 <= i < n && #[trigger] entries[i].0@ == k,
    decreases n,
{
    if n > 0 {
        let m = (n - 1) as nat;
        let last = entries[m as int];
        lemma_map_of(entries, m);
        assert(map_of(entries, n) == map_of(entries, m).insert(last.0@, last.1@));
        assert forall|i: int| 0 <= i < n implies map_of(entries, n).contains_key(
            #[trigger] entries[i].0@,
        ) && map_of(entries, n)[entries[i].0@] == entries[i].1@ by {
            if i < m {
                lemma_precedes_irreflexive(entries[i].0@);
                assert(precedes(entries[i].0@, entries[m as int].0@));
            }
        }
        assert forall|k: Seq<char>| #[trigger] map_of(entries, n).contains_key(k) implies exists|i: int|
            0 <= i < n && #[trigger] entries[i].0@ == k by {
            if k != entries[m as int].0@ {
                assert(map_of(entries, m).contains_key(k));
            }
        }
    }
}

/// Whether `a` comes before `b` in the order of the code points.
fn text_precedes(a: &str, b: &str) -> (r: bool)
    ensures
        r == precedes(a@, b@),
{
    let x = text::chars_of(a);
    let y = text::chars_of(b);
    let mut i: usize = 0;
    assert(a@.skip(0) == a@ && b@.skip(0) == b@);
    while i < x.len() && i < y.len() && x[i] == y[i]
        invariant
            i <= x@.len(),
            i <= y@.len(),
            x@ == a@,
            y@ == b@,
            precedes(a@, b@) == precedes(a@.skip(i as int), b@.skip(i as int)),
        decreases x@.len() - i,
    {
        assert(a@.skip(i as int).drop_first() == a@.skip(i + 1));
        assert(b@.skip(i as int).drop_first() == b@.skip(i + 1));
        i = i + 1;
    }
    if i >= y.len() {
        false
    } else if i >= x.len() {
        true
    } else {
        x[i] < y[i]
    }
}

impl JsonObject {
    /// The object without members.
    pub fn new() -> (r: Self)
        ensures
            r@ == Map::<Seq<char>, Json>::empty(),
    {
        JsonObject { entries: Vec::new() }
    }

    /// The object with the member `key` set to `value`: added, or put in place of the one of that name.
    pub fn insert(self, key: String, value: JsonValue) -> (r: Self)
        ensures
            r@ == self@.insert(key@, value@),
    {
        proof {
            use_type_invariant(&self);
        }
        let ghost before = self.entries@;
        let mut entries = self.entries;
        let mut i: usize = 0;
        while i < entries.len() && text_precedes(entries[i].0.as_str(), key.as_str())
            invariant
                i <= entries@.len(),
                entries@ == before,
                forall|j: int| 0 <= j < i ==> precedes(#[trigger] before[j].0@, key@),
            decreases entries@.len() - i,
        {
            i = i + 1;
        }
        let ghost entry = (key, value);
        proof {
            assert forall|j: int| i < j < before.len() implies precedes(key@, #[trigger] before[j].0@) by {
                lemma_precedes_total(key@, before[i as int].0@);
                assert(precedes(before[i as int].0@, before[j].0@));
                if key@ != before[i as int].0@ {
                    lemma_precedes_transitive(key@, before[i as int].0@, before[j].0@);
                }
            }
            if i < before.len() {
                lemma_precedes_total(key@, before[i as int].0@);
            }
        }
        if i < entries.len() && text::same_text(entries[i].0.as_str(), key.as_str()) {
            entries[i] = (key, value);
            assert(entries@ == before.update(i as int, entry));
            proof {
                lemma_map_of(before, before.len());
                assert(ordered(entries@));
                lemma_map_of(entries@, entries@.len());
                let m = map_of(entries@, entries@.len());
                let old_m = map_of(before, before.len());
                assert forall|k: Seq<char>| m.contains_key(k) == old_m.insert(key@, value@).contains_key(k) by {
                    if m.contains_key(k) {
                        let j = choose|j: int| 0 <= j < entries@.len() && #[trigger] entries@[j].0@ == k;
                        assert(j != i ==> before[j].0@ == k);
                    }
                    if old_m.contains_key(k) {
                        let j = choose|j: int| 0 <= j < before.len() && #[trigger] before[j].0@ == k;
                        assert(entries@[j].0@ == k);
                    }
                    assert(entries@[i as int].0@ == key@);
                }
                assert forall|k: Seq<char>| #[trigger] m.contains_key(k) implies m[k] == old_m.insert(
                    key@,
                    value@,
                )[k] by {
                    let j = choose|j: int| 0 <= j < entries@.len() && #[trigger] entries@[j].0@ == k;
                    assert(j != i ==> before[j].0@ == k);
                    if j != i {
                        lemma_precedes_irreflexive(key@);
                        assert(precedes(entries@[i as int].0@, entries@[j].0@) || precedes(entries@[j].0@, entries@[i as int].0@));
                    }
                }
                assert(m =~= old_m.insert(key@, value@));
            }
        } else {
            entries.insert(i, (key, value));
            assert(entries@ == before.insert(i as int, entry));
            proof {
                lemma_map_of(before, before.len());
                assert(ordered(entries@)) by {
                    assert forall|a: int, b: int| 0 <= a < b < entries@.len() implies precedes(
                        #[trigger] entries@[a].0@,
                        #[trigger] entries@[b].0@,
                    ) by {
                        let a0 = if a < i { a } else { a - 1 };
                        let b0 = if b < i { b } else { b - 1 };
                        if a != i {
                            assert(entries@[a] == before[a0]);
                        }
                        if b != i {
                            assert(entries@[b] == before[b0]);
                        }
                        if a == i && b == i + 1 {
                            assert(precedes(key@, before[i as int].0@));
                        }
                    }
                }
                lemma_map_of(entries@, entries@.len());
                let m = map_of(entries@, entries@.len());
                let old_m = map_of(before, before.len());
                assert(entries@[i as int].0@ == key@);
                assert forall|j: int| 0 <= j < before.len() implies entries@[if j < i { j } else { j + 1 }] == #[trigger] before[j] by {}
                assert forall|k: Seq<char>| m.contains_key(k) == old_m.insert(key@, value@).contains_key(k) by {
                    if m.contains_key(k) {
                        let j = choose|j: int| 0 <= j < entries@.len() && #[trigger] entries@[j].0@ == k;
                        if j < i {
                            assert(before[j].0@ == k);
                        } else if j > i {
                            assert(before[j - 1].0@ == k);
                        }
                    }
                    if old_m.contains_key(k) {
                        let j = choose|j: int| 0 <= j < before.len() && #[trigger] before[j].0@ == k;
                        assert(entries@[if j < i { j } else { j + 1 }].0@ == k);
                    }
                }
                assert forall|k: Seq<char>| #[trigger] m.contains_key(k) implies m[k] == old_m.insert(
                    key@,
                    value@,
                )[k] by {
                    let j = choose|j: int| 0 <= j < entries@.len() && #[trigger] entries@[j].0@ == k;
                    if j < i {
                        assert(before[j].0@ == k);
                        lemma_precedes_irreflexive(key@);
                    } else if j > i {
                        assert(before[j - 1].0@ == k);
                        lemma_precedes_irreflexive(key@);
                        assert(precedes(entries@[i as int].0@, entries@[j].0@));
                    }
                }
                assert(m =~= old_m.insert(key@, value@));
            }
        }
        JsonObject { entries }
    }

    /// The value of the member `key`.
    pub fn get(&self, key: &str) -> (r: Option<&JsonValue>)
        ensures
            match r {
                Some(value) => self@.contains_key(key@) && value@ == self@[key@],
                None => !self@.contains_key(key@),
            },
    {
        proof {
            use_type_invariant(self);
            lemma_map_of(self.entries@, self.entries@.len());
        }
        let mut i: usize = 0;
        while i < self.entries.len()
            invariant
                i <= self.entries@.len(),
                ordered(self.entries@),
                forall|j: int| 0 <= j < i ==> #[trigger] self.entries@[j].0@ != key@,
            decreases self.entries@.len() - i,
        {
            proof {
                lemma_map_of(self.entries@, self.entries@.len());
                assert(self@.contains_key(self.entries@[i as int].0@));
            }
            if text::same_text(self.entries[i].0.as_str(), key) {
                return Some(&self.entries[i].1);
            }
            i = i + 1;
        }
        None
    }
}

// ---------------------------------------------------------------------------
// The grammar
// ---------------------------------------------------------------------------

/// Where and why a text is no JSON document.
pub struct Fault {
    /// The message for the user.
    pub message: Seq<char>,
    /// The position of the byte at which reading stopped.
    pub at: int,
}

/// What reading gives: a value and the position behind it, or a fault.
pub type Parsed<T> = Result<(T, int), Fault>;

/// The fault with `message` at position `at`, which the message names.
pub open spec fn fault(message: Seq<char>, at: int) -> Fault {
    Fault { message: message + " at byte "@ + text::decimal(at as nat), at }
}

/// How many bytes are left at position `i`.
pub open spec fn left(b: Seq<u8>, i: int) -> nat {
    if i < b.len() {
        (b.len() - i) as nat
    } else {
        0
    }
}

/// Whether the byte `x` stands at position `i`.
pub open spec fn has(b: Seq<u8>, i: int, x: u8) -> bool {
    0 <= i < b.len() && b[i] == x
}

/// Whether `x` is JSON white space.
pub open spec fn is_ws(x: u8) -> bool {
    x == ' ' as u8 || x == '\n' as u8 || x == '\r' as u8 || x == '\t' as u8
}

/// Whether `x` is a decimal digit.
pub open spec fn is_digit_byte(x: u8) -> bool {
    '0' as u8 <= x <= '9' as u8
}

/// The position behind the white space at `i`.
pub open spec fn ws_end(b: Seq<u8>, i: int) -> int
    decreases left(b, i),
{
    if i < b.len() && is_ws(b[i]) {
        ws_end(b, i + 1)
    } else {
        i
    }
}

/// The position behind the digits at `i`.
pub open spec fn digits_end(b: Seq<u8>, i: int) -> int
    decreases left(b, i),
{
    if i < b.len() && is_digit_byte(b[i]) {
        digits_end(b, i + 1)
    } else {
        i
    }
}

/// The position behind the byte `x`, where it stands at `i`.
pub open spec fn expected(b: Seq<u8>, i: int, x: u8) -> Parsed<()> {
    if has(b, i, x) {
        Ok(((), i + 1))
    } else {
        Err(fault("expected '"@ + seq![x as char] + "'"@, i))
    }
}

/// `value`, where the text `literal` stands at `i`.
pub open spec fn literal_at(b: Seq<u8>, i: int, literal: Seq<char>, value: Json) -> Parsed<Json> {
    if encode_utf8(literal).is_prefix_of(b.skip(i)) {
        Ok((value, i + encode_utf8(literal).len()))
    } else {
        Err(fault("invalid JSON literal"@, i))
    }
}

/// The position behind the whole part of the number at `i`.
pub open spec fn whole_end(b: Seq<u8>, i: int) -> int {
    digits_end(
        b,
        if has(b, i, '-' as u8) {
            i + 1
        } else {
            i
        },
    )
}

/// The position behind the fraction at `i`, which may be absent.
pub open spec fn fraction_end(b: Seq<u8>, i: int) -> int {
    if has(b, i, '.' as u8) {
        digits_end(b, i + 1)
    } else {
        i
    }
}

/// The position behind the exponent at `i`, which may be absent.
pub open spec fn exponent_end(b: Seq<u8>, i: int) -> int {
    if has(b, i, 'e' as u8) || has(b, i, 'E' as u8) {
        let j = i + 1;
        digits_end(
            b,
            if has(b, j, '+' as u8) || has(b, j, '-' as u8) {
                j + 1
            } else {
                j
            },
        )
    } else {
        i
    }
}

/// The number at `i`: the longest run of sign, digits, fraction and exponent.
pub open spec fn number_at(b: Seq<u8>, i: int) -> Parsed<Json> {
    let end = exponent_end(b, fraction_end(b, whole_end(b, i)));
    if end == i {
        Err(fault("invalid JSON number"@, i))
    } else {
        Ok((Json::Number(Seq::new((end - i) as nat, |k: int| b[i + k] as char)), end))
    }
}

/// The number of `n` hexadecimal digits at `i`; the fault is at the first byte that is none.
pub open spec fn hex_digits_at(b: Seq<u8>, i: int, n: nat) -> Parsed<nat>
    decreases n,
{
    if n == 0 {
        Ok((0, i))
    } else {
        match hex_digits_at(b, i, (n - 1) as nat) {
            Ok((value, j)) => if percent::is_hex(b[j]) {
                Ok((value * 16 + percent::hex_of(b[j]), j + 1))
            } else {
                Err(Fault { message: percent::bad_hex(b[j]), at: j })
            },
            Err(f) => Err(f),
        }
    }
}

/// The number that the four hexadecimal digits at `i` write.
pub open spec fn hex4_at(b: Seq<u8>, i: int) -> Parsed<nat> {
    if i + 4 > b.len() {
        Err(fault("short unicode escape"@, i))
    } else {
        hex_digits_at(b, i, 4)
    }
}

/// Whether `v` is the first half of a surrogate pair.
pub open spec fn is_high_surrogate(v: nat) -> bool {
    0xD800 <= v <= 0xDBFF
}

/// Whether `v` is the second half of a surrogate pair.
pub open spec fn is_low_surrogate(v: nat) -> bool {
    0xDC00 <= v <= 0xDFFF
}

/// The character whose code the digits at `i` give. Two escapes that form a surrogate pair give
/// one character; a first half that stands alone gives the replacement character.
pub open spec fn unicode_at(b: Seq<u8>, i: int) -> Parsed<char> {
    match hex4_at(b, i) {
        Err(f) => Err(f),
        Ok((first, j)) => if is_high_surrogate(first) {
            if has(b, j, '\\' as u8) && has(b, j + 1, 'u' as u8) {
                match hex4_at(b, j + 2) {
                    Err(f) => Err(f),
                    Ok((second, k)) => if is_low_surrogate(second) {
                        Ok(((0x10000 + (first - 0xD800) * 0x400 + (second - 0xDC00)) as char, k))
                    } else {
                        Ok(('\u{FFFD}', j))
                    },
                }
            } else {
                Ok(('\u{FFFD}', j))
            }
        } else if is_low_surrogate(first) {
            Err(fault("invalid unicode codepoint"@, j))
        } else {
            Ok((first as char, j))
        },
    }
}

/// The character that an escape with the letter `x` stands for.
pub open spec fn simple_escape(x: u8) -> Option<char> {
    if x == '"' as u8 {
        Some('"')
    } else if x == '\\' as u8 {
        Some('\\')
    } else if x == '/' as u8 {
        Some('/')
    } else if x == 'b' as u8 {
        Some('\u{8}')
    } else if x == 'f' as u8 {
        Some('\u{c}')
    } else if x == 'n' as u8 {
        Some('\n')
    } else if x == 'r' as u8 {
        Some('\r')
    } else if x == 't' as u8 {
        Some('\t')
    } else {
        None
    }
}

/// The character of the escape whose backslash stands before `i`.
pub open spec fn escape_at(b: Seq<u8>, i: int) -> Parsed<char> {
    if i >= b.len() {
        Err(fault("unterminated JSON escape"@, i))
    } else if b[i] == 'u' as u8 {
        unicode_at(b, i + 1)
    } else {
        match simple_escape(b[i]) {
            Some(c) => Ok((c, i + 1)),
            None => Err(fault("invalid JSON escape"@, i + 1)),
        }
    }
}

/// The rest of a string, from `i` up to its closing quote, behind the characters `done`.
pub open spec fn string_rest(b: Seq<u8>, i: int, done: Seq<char>) -> Parsed<Seq<char>>
    decreases left(b, i),
{
    if i >= b.len() {
        Err(fault("unterminated JSON string"@, i))
    } else if b[i] == '"' as u8 {
        Ok((done, i + 1))
    } else if b[i] == '\\' as u8 {
        match escape_at(b, i + 1) {
            Ok((c, k)) => if k > i {
                string_rest(b, k, done.push(c))
            } else {
                arbitrary()
            },
            Err(f) => Err(f),
        }
    } else if b[i] < 0x20 {
        Err(fault("control character in JSON string"@, i))
    } else {
        let rest = b.skip(i);
        string_rest(
            b,
            i + length_of_first_scalar(rest),
            done.push(decode_first_scalar(rest) as char),
        )
    }
}

/// The string whose opening quote stands at `i`.
pub open spec fn string_at(b: Seq<u8>, i: int) -> Parsed<Seq<char>> {
    match expected(b, i, '"' as u8) {
        Ok((_, j)) => string_rest(b, j, seq![]),
        Err(f) => Err(f),
    }
}

/// The value at `i`, which white space may precede.
pub open spec fn value_at(b: Seq<u8>, i: int) -> Parsed<Json>
    decreases left(b, i), 2nat,
{
    proof {
        lemma_ws_end(b, i);
    }
    let i = ws_end(b, i);
    if i >= b.len() {
        Err(fault("unexpected end of JSON"@, i))
    } else if b[i] == 'n' as u8 {
        literal_at(b, i, "null"@, Json::Null)
    } else if b[i] == 't' as u8 {
        literal_at(b, i, "true"@, Json::Bool(true))
    } else if b[i] == 'f' as u8 {
        literal_at(b, i, "false"@, Json::Bool(false))
    } else if b[i] == '"' as u8 {
        match string_at(b, i) {
            Ok((s, j)) => Ok((Json::Text(s), j)),
            Err(f) => Err(f),
        }
    } else if b[i] == '{' as u8 {
        object_at(b, i)
    } else if b[i] == '[' as u8 {
        array_at(b, i)
    } else if b[i] == '-' as u8 || is_digit_byte(b[i]) {
        number_at(b, i)
    } else {
        Err(fault("unexpected JSON value"@, i))
    }
}

/// The object whose opening brace stands at `i`.
pub open spec fn object_at(b: Seq<u8>, i: int) -> Parsed<Json>
    decreases left(b, i), 1nat,
{
    proof {
        lemma_ws_end(b, i + 1);
    }
    match expected(b, i, '{' as u8) {
        Ok((_, j)) => if has(b, ws_end(b, j), '}' as u8) {
            Ok((Json::Object(Map::empty()), ws_end(b, j) + 1))
        } else {
            members_at(b, ws_end(b, j), Map::empty())
        },
        Err(f) => Err(f),
    }
}

/// The members of an object from `i` up to its closing brace, added to the members `done`. Of
/// members with the same name the last one counts.
pub open spec fn members_at(b: Seq<u8>, i: int, done: Map<Seq<char>, Json>) -> Parsed<Json>
    decreases left(b, i), 0nat,
{
    match name_at(b, i) {
        Ok((name, j)) => {
            proof {
                lemma_name_at(b, i);
            }
            match value_at(b, j) {
                Ok((value, k)) => {
                    proof {
                        lemma_ws_end(b, k);
                    }
                    let end = ws_end(b, k);
                    if has(b, end, ',' as u8) && k > j {
                        members_at(b, end + 1, done.insert(name, value))
                    } else if has(b, end, '}' as u8) {
                        Ok((Json::Object(done.insert(name, value)), end + 1))
                    } else {
                        Err(fault("expected ',' or '}' in object"@, end))
                    }
                },
                Err(f) => Err(f),
            }
        },
        Err(f) => Err(f),
    }
}

/// The name of a member at `i`, with the colon behind it.
pub open spec fn name_at(b: Seq<u8>, i: int) -> Parsed<Seq<char>> {
    match string_at(b, ws_end(b, i)) {
        Ok((name, j)) => match expected(b, ws_end(b, j), ':' as u8) {
            Ok((_, k)) => Ok((name, k)),
            Err(f) => Err(f),
        },
        Err(f) => Err(f),
    }
}

/// The array whose opening bracket stands at `i`.
pub open spec fn array_at(b: Seq<u8>, i: int) -> Parsed<Json>
    decreases left(b, i), 1nat,
{
    proof {
        lemma_ws_end(b, i + 1);
    }
    match expected(b, i, '[' as u8) {
        Ok((_, j)) => if has(b, ws_end(b, j), ']' as u8) {
            Ok((Json::Array(seq![]), ws_end(b, j) + 1))
        } else {
            elements_at(b, ws_end(b, j), seq![])
        },
        Err(f) => Err(f),
    }
}

/// The elements of an array from `i` up to its closing bracket, behind the elements `done`.
pub open spec fn elements_at(b: Seq<u8>, i: int, done: Seq<Json>) -> Parsed<Json>
    decreases left(b, i), 3nat,
{
    match value_at(b, i) {
        Ok((value, k)) => {
            proof {
                lemma_ws_end(b, k);
            }
            let end = ws_end(b, k);
            if has(b, end, ',' as u8) && k > i {
                elements_at(b, end + 1, done.push(value))
            } else if has(b, end, ']' as u8) {
                Ok((Json::Array(done.push(value)), end + 1))
            } else {
                Err(fault("expected ',' or ']' in array"@, end))
            }
        },
        Err(f) => Err(f),
    }
}

/// The document that `b` holds from `i` on: one value, with nothing behind it but white space.
pub open spec fn document_at(b: Seq<u8>, i: int) -> Result<Json, Seq<char>> {
    match value_at(b, i) {
        Ok((value, j)) => if ws_end(b, j) == b.len() {
            Ok(value)
        } else {
            Err(fault("unexpected trailing JSON data"@, ws_end(b, j)).message)
        },
        Err(f) => Err(f.message),
    }
}

/// The value of the JSON document `s`.
pub open spec fn json_of(s: Seq<char>) -> Result<Json, Seq<char>> {
    document_at(encode_utf8(s), 0)
}

/// White space ends at or behind its start, and within the text.
pub proof fn lemma_ws_end(b: Seq<u8>, i: int)
    ensures
        i <= ws_end(b, i),
        i <= b.len() ==> ws_end(b, i) <= b.len(),
    decreases left(b, i),
{
    if i < b.len() && is_ws(b[i]) {
        lemma_ws_end(b, i + 1);
    }
}

proof fn lemma_digits_end(b: Seq<u8>, i: int)
    ensures
        i <= digits_end(b, i),
        i <= b.len() ==> digits_end(b, i) <= b.len(),
    decreases left(b, i),
{
    if i < b.len() && is_digit_byte(b[i]) {
        lemma_digits_end(b, i + 1);
    }
}

proof fn lemma_hex_digits_at(b: Seq<u8>, i: int, n: nat)
    ensures
        hex_digits_at(b, i, n) matches Ok((value, j)) ==> j == i + n,
    decreases n,
{
    if n > 0 {
        lemma_hex_digits_at(b, i, (n - 1) as nat);
    }
}

proof fn lemma_escape_at(b: Seq<u8>, i: int)
    ensures
        escape_at(b, i) matches Ok((c, k)) ==> k > i,
{
    lemma_hex_digits_at(b, i + 1, 4);
    lemma_hex_digits_at(b, i + 7, 4);
}

proof fn lemma_string_rest(b: Seq<u8>, i: int, done: Seq<char>)
    ensures
        string_rest(b, i, done) matches Ok((s, k)) ==> i < k,
    decreases left(b, i),
{
    if i < b.len() && b[i] != '"' as u8 {
        if b[i] == '\\' as u8 {
            lemma_escape_at(b, i + 1);
            if let Ok((c, k)) = escape_at(b, i + 1) {
                lemma_string_rest(b, k, done.push(c));
            }
        } else if b[i] >= 0x20 {
            let rest = b.skip(i);
            lemma_string_rest(
                b,
                i + length_of_first_scalar(rest),
                done.push(decode_first_scalar(rest) as char),
            );
        }
    }
}

/// The name of a member takes up at least one byte.
pub proof fn lemma_name_at(b: Seq<u8>, i: int)
    ensures
        name_at(b, i) matches Ok((name, k)) ==> i < k && (i < b.len() ==> left(b, k) < left(b, i)),
{
    lemma_ws_end(b, i);
    let start = ws_end(b, i);
    lemma_string_rest(b, start + 1, seq![]);
    if let Ok((name, j)) = string_at(b, start) {
        lemma_ws_end(b, j);
    }
}

/// Each kind of value takes up at least one byte.
pub proof fn lemma_value_advances(b: Seq<u8>, i: int)
    ensures
        value_at(b, i) matches Ok((v, k)) ==> i < k,
    decreases left(b, i), 2nat,
{
    lemma_ws_end(b, i);
    let j = ws_end(b, i);
    lemma_literal_lengths();
    lemma_string_rest(b, j + 1, seq![]);
    if j < b.len() {
        lemma_object_advances(b, j);
        lemma_array_advances(b, j);
    }
    lemma_number_advances(b, j);
}

proof fn lemma_literal_lengths()
    ensures
        encode_utf8("null"@).len() == 4,
        encode_utf8("true"@).len() == 4,
        encode_utf8("false"@).len() == 5,
{
    reveal_strlit("null");
    reveal_strlit("true");
    reveal_strlit("false");
    is_ascii_chars_encode_utf8("null"@);
    is_ascii_chars_encode_utf8("true"@);
    is_ascii_chars_encode_utf8("false"@);
}

proof fn lemma_number_advances(b: Seq<u8>, i: int)
    ensures
        number_at(b, i) matches Ok((v, k)) ==> i < k,
{
    lemma_digits_end(b, i);
    lemma_digits_end(b, i + 1);
    let whole = whole_end(b, i);
    lemma_digits_end(b, whole + 1);
    let fraction = fraction_end(b, whole);
    lemma_digits_end(b, fraction + 1);
    lemma_digits_end(b, fraction + 2);
}

proof fn lemma_object_advances(b: Seq<u8>, i: int)
    ensures
        object_at(b, i) matches Ok((v, k)) ==> i < k,
    decreases left(b, i), 1nat,
{
    lemma_ws_end(b, i + 1);
    if has(b, i, '{' as u8) {
        lemma_members_advance(b, ws_end(b, i + 1), Map::empty());
    }
}

proof fn lemma_members_advance(b: Seq<u8>, i: int, done: Map<Seq<char>, Json>)
    ensures
        members_at(b, i, done) matches Ok((v, k)) ==> i < k,
    decreases left(b, i), 0nat,
{
    lemma_ws_end(b, i);
    lemma_name_at(b, i);
    if let Ok((name, j)) = name_at(b, i) {
        lemma_value_advances(b, j);
        if let Ok((value, k)) = value_at(b, j) {
            lemma_ws_end(b, k);
            if has(b, ws_end(b, k), ',' as u8) {
                lemma_members_advance(b, ws_end(b, k) + 1, done.insert(name, value));
            }
        }
    }
}

proof fn lemma_array_advances(b: Seq<u8>, i: int)
    ensures
        array_at(b, i) matches Ok((v, k)) ==> i < k,
    decreases left(b, i), 1nat,
{
    lemma_ws_end(b, i + 1);
    if has(b, i, '[' as u8) {
        lemma_elements_advance(b, ws_end(b, i + 1), seq![]);
    }
}

proof fn lemma_elements_advance(b: Seq<u8>, i: int, done: Seq<Json>)
    ensures
        elements_at(b, i, done) matches Ok((v, k)) ==> i < k,
    decreases left(b, i), 3nat,
{
    lemma_value_advances(b, i);
    if let Ok((value, k)) = value_at(b, i) {
        lemma_ws_end(b, k);
        if has(b, ws_end(b, k), ',' as u8) {
            lemma_elements_advance(b, ws_end(b, k) + 1, done.push(value));
        }
    }
}

// ---------------------------------------------------------------------------
// The parser
// ---------------------------------------------------------------------------

/// At a character boundary a character starts, and behind it is the next boundary.
proof fn lemma_boundary_step(b: Seq<u8>, i: int)
    requires
        valid_utf8(b),
        is_char_boundary(b, i),
        0 <= i < b.len(),
    ensures
        valid_first_scalar(b.skip(i)),
        i + length_of_first_scalar(b.skip(i)) <= b.len(),
        is_char_boundary(b, i + length_of_first_scalar(b.skip(i))),
        b[i] < 0x80 ==> length_of_first_scalar(b.skip(i)) == 1,
    decreases b.len(),
{
    if i == 0 {
        assert(b.skip(0) == b);
        assert(is_char_boundary(pop_first_scalar(b), 0));
    } else {
        let n = length_of_first_scalar(b);
        let tail = pop_first_scalar(b);
        reveal_with_fuel(is_char_boundary, 2);
        assert(is_char_boundary(tail, i - n));
        assert(i >= n);
        lemma_boundary_step(tail, i - n);
        assert(tail.skip(i - n) == b.skip(i));
    }
}

/// Behind an encoded text that stands at a boundary is a boundary.
proof fn lemma_boundary_behind(b: Seq<u8>, i: int, s: Seq<char>)
    requires
        valid_utf8(b),
        is_char_boundary(b, i),
        0 <= i <= b.len(),
        encode_utf8(s).is_prefix_of(b.skip(i)),
    ensures
        i + encode_utf8(s).len() <= b.len(),
        is_char_boundary(b, i + encode_utf8(s).len()),
    decreases s.len(),
{
    if s.len() > 0 {
        let rest = b.skip(i);
        let first = encode_scalar(s[0] as u32);
        let tail = encode_utf8(s.drop_first());
        encode_utf8_first_scalar(s);
        lemma_boundary_step(b, i);
        assert(rest[0] == encode_utf8(s)[0]);
        assert(tail.is_prefix_of(b.skip(i + first.len()))) by {
            assert forall|j: int| 0 <= j < tail.len() implies tail[j] == b.skip(i + first.len())[j] by {
                assert(encode_utf8(s)[first.len() + j] == rest[first.len() + j]);
            }
            assert(tail =~= b.skip(i + first.len()).subrange(0, tail.len() as int));
        }
        lemma_boundary_behind(b, i + first.len(), s.drop_first());
    }
}

/// The first character of the UTF-8 text in `b` from `i` on, and its length in bytes.
fn decode_char(b: &[u8], i: usize) -> (r: (char, usize))
    requires
        i < b@.len(),
        valid_first_scalar(b@.skip(i as int)),
    ensures
        r.0 == decode_first_scalar(b@.skip(i as int)) as char,
        r.1 == length_of_first_scalar(b@.skip(i as int)),
        i + r.1 <= b@.len(),
{
    let ghost rest = b@.skip(i as int);
    let b1: u8 = b[i];
    assert(b1 == rest[0]);
    let code: u32;
    let n: usize;
    if b1 <= 0x7f {
        code = (b1 & 0x7f) as u32;
        n = 1;
        assert(b1 & 0x7f <= 0x7f) by (bit_vector);
    } else if b1 <= 0xdf {
        let b2: u8 = b[i + 1];
        assert(b2 == rest[1]);
        code = (((b1 & 0x1f) as u32) << 6) | ((b2 & 0x3f) as u32);
        n = 2;
        assert((((b1 & 0x1f) as u32) << 6) | ((b2 & 0x3f) as u32) <= 0x7ff) by (bit_vector);
    } else if b1 <= 0xef {
        let b2: u8 = b[i + 1];
        let b3: u8 = b[i + 2];
        assert(b2 == rest[1] && b3 == rest[2]);
        code = (((b1 & 0x0f) as u32) << 12) | (((b2 & 0x3f) as u32) << 6) | ((b3 & 0x3f) as u32);
        n = 3;
        assert((((b1 & 0x0f) as u32) << 12) | (((b2 & 0x3f) as u32) << 6) | ((b3 & 0x3f) as u32)
            <= 0xffff) by (bit_vector);
    } else {
        let b2: u8 = b[i + 1];
        let b3: u8 = b[i + 2];
        let b4: u8 = b[i + 3];
        assert(b2 == rest[1] && b3 == rest[2] && b4 == rest[3]);
        code = (((b1 & 0x07) as u32) << 18) | (((b2 & 0x3f) as u32) << 12) | (((b3 & 0x3f) as u32)
            << 6) | ((b4 & 0x3f) as u32);
        n = 4;
    }
    assert(code == decode_first_scalar(rest));
    match char::from_u32(code) {
        Some(c) => {
            proof {
                char_u32_cast(c, code);
            }
            (c, n)
        },
        None => {
            assert(false);
            ('\u{FFFD}', n)
        },
    }
}

/// A parser of JSON documents: a text and a position in it.
pub struct JsonParser<'a> {
    bytes: &'a [u8],
    index: usize,
}

/// The model of what a reading step did: its value and the position behind it, or its fault.
pub open spec fn step<T: View>(r: Result<T, LauncherError>, at: int) -> Parsed<T::V> {
    match r {
        Ok(value) => Ok((value@, at)),
        Err(err) => Err(Fault { message: err@, at }),
    }
}

impl<'a> JsonParser<'a> {
    /// The bytes of the text.
    pub closed spec fn source(&self) -> Seq<u8> {
        self.bytes@
    }

    /// The position of the next byte to read.
    pub closed spec fn at(&self) -> int {
        self.index as int
    }

    /// Whether the text is well encoded and a character starts, or the text ends, at the position.
    pub closed spec fn well_formed(&self) -> bool {
        &&& valid_utf8(self.bytes@)
        &&& self.index <= self.bytes@.len()
        &&& is_char_boundary(self.bytes@, self.index as int)
    }

    /// The parser at the start of `input`.
    pub fn new(input: &'a str) -> (r: Self)
        ensures
            r.well_formed(),
            r.source() == encode_utf8(input@),
            r.at() == 0,
    {
        proof {
            encode_utf8_valid_utf8(input@);
            is_char_boundary_start_end_of_seq(encode_utf8(input@));
        }
        JsonParser { bytes: input.as_bytes(), index: 0 }
    }

    /// The next byte.
    pub fn peek(&self) -> (r: Option<u8>)
        ensures
            r == (if self.at() < self.source().len() {
                Some(self.source()[self.at()])
            } else {
                None
            }),
    {
        if self.index < self.bytes.len() {
            Some(self.bytes[self.index])
        } else {
            None
        }
    }

    /// The error with `message` at the position.
    pub fn error(&self, message: &str) -> (r: LauncherError)
        ensures
            r@ == fault(message@, self.at()).message,
    {
        let mut out = text::concat(message, " at byte ");
        let number = text::to_decimal(self.index as u64);
        text::append(&mut out, number.as_str());
        LauncherError::Message(out)
    }

    /// Goes behind white space.
    pub fn skip_ws(&mut self)
        requires
            old(self).well_formed(),
        ensures
            final(self).well_formed(),
            final(self).source() == old(self).source(),
            final(self).at() == ws_end(old(self).source(), old(self).at()),
    {
        let ghost start = self.index as int;
        while self.index < self.bytes.len() && (self.bytes[self.index] == ' ' as u8
            || self.bytes[self.index] == '\n' as u8 || self.bytes[self.index] == '\r' as u8
            || self.bytes[self.index] == '\t' as u8)
            invariant
                self.well_formed(),
                self.bytes@ == old(self).bytes@,
                ws_end(self.bytes@, start) == ws_end(self.bytes@, self.index as int),
            decreases self.bytes@.len() - self.index,
        {
            proof {
                lemma_boundary_step(self.bytes@, self.index as int);
            }
            self.index = self.index + 1;
        }
    }

    /// Goes behind decimal digits.
    pub fn consume_digits(&mut self)
        requires
            old(self).well_formed(),
        ensures
            final(self).well_formed(),
            final(self).source() == old(self).source(),
            final(self).at() == digits_end(old(self).source(), old(self).at()),
    {
        let ghost start = self.index as int;
        while self.index < self.bytes.len() && '0' as u8 <= self.bytes[self.index]
            && self.bytes[self.index] <= '9' as u8
            invariant
                self.well_formed(),
                self.bytes@ == old(self).bytes@,
                digits_end(self.bytes@, start) == digits_end(self.bytes@, self.index as int),
            decreases self.bytes@.len() - self.index,
        {
            proof {
                lemma_boundary_step(self.bytes@, self.index as int);
            }
            self.index = self.index + 1;
        }
    }

    /// Whether `x` is the next byte.
    fn sees(&self, x: u8) -> (r: bool)
        ensures
            r == has(self.source(), self.at(), x),
    {
        self.index < self.bytes.len() && self.bytes[self.index] == x
    }

    /// Goes behind the next byte, an ASCII character.
    fn advance(&mut self)
        requires
            old(self).well_formed(),
            old(self).at() < old(self).source().len(),
            old(self).source()[old(self).at()] < 0x80,
        ensures
            final(self).well_formed(),
            final(self).source() == old(self).source(),
            final(self).at() == old(self).at() + 1,
    {
        proof {
            lemma_boundary_step(self.bytes@, self.index as int);
            assert(self.index < self.bytes.len());
        }
        self.index = self.index + 1;
    }

    /// Goes behind the byte `expected`, where it is the next one.
    pub fn expect(&mut self, expected: u8) -> (r: Result<(), LauncherError>)
        requires
            old(self).well_formed(),
        ensures
            final(self).source() == old(self).source(),
            expected < 0x80 ==> final(self).well_formed(),
            step(r, final(self).at()) == self::expected(old(self).source(), old(self).at(), expected),
    {
        if self.sees(expected) {
            proof {
                lemma_boundary_step(self.bytes@, self.index as int);
                assert(self.index < self.bytes.len());
            }
            self.index = self.index + 1;
            Ok(())
        } else {
            let mut message = "expected '".to_string();
            message.push(expected as char);
            message.push('\'');
            proof {
                reveal_strlit("'");
                assert(message@ == "expected '"@ + seq![expected as char] + "'"@);
            }
            Err(self.error(message.as_str()))
        }
    }

    /// Reads the text `literal`, which stands for `value`.
    pub fn parse_literal(&mut self, literal: &str, value: JsonValue) -> (r: Result<JsonValue, LauncherError>)
        requires
            old(self).well_formed(),
        ensures
            final(self).source() == old(self).source(),
            final(self).well_formed(),
            step(r, final(self).at()) == literal_at(old(self).source(), old(self).at(), literal@, value@),
    {
        let wanted = literal.as_bytes();
        let n: usize = wanted.len();
        let ghost rest = self.bytes@.skip(self.index as int);
        if n > self.bytes.len() - self.index {
            return Err(self.error("invalid JSON literal"));
        }
        let mut i: usize = 0;
        while i < n
            invariant
                i <= n == wanted@.len(),
                wanted@ == encode_utf8(literal@),
                *self == *old(self),
                self.well_formed(),
                n <= self.bytes@.len() - self.index,
                rest == self.bytes@.skip(self.index as int),
                forall|j: int| 0 <= j < i ==> wanted@[j] == rest[j],
            decreases n - i,
        {
            assert(self.index + i < self.bytes.len());
            if self.bytes[self.index + i] != wanted[i] {
                assert(rest.subrange(0, n as int)[i as int] != wanted@[i as int]);
                return Err(self.error("invalid JSON literal"));
            }
            i = i + 1;
        }
        proof {
            assert(wanted@ =~= rest.subrange(0, n as int));
            lemma_boundary_behind(self.bytes@, self.index as int, literal@);
            assert(self.index + n <= self.bytes.len());
        }
        self.index = self.index + n;
        Ok(value)
    }

    /// Reads a number.
    pub fn parse_number(&mut self) -> (r: Result<JsonValue, LauncherError>)
        requires
            old(self).well_formed(),
        ensures
            final(self).source() == old(self).source(),
            final(self).well_formed(),
            step(r, final(self).at()) == number_at(old(self).source(), old(self).at()),
    {
        let start: usize = self.index;
        let ghost b = self.bytes@;
        if self.sees('-' as u8) {
            self.advance();
        }
        proof {
            lemma_digits_end(b, self.index as int);
        }
        self.consume_digits();
        let ghost whole = self.index as int;
        if self.sees('.' as u8) {
            self.advance();
            proof {
                lemma_digits_end(b, self.index as int);
            }
            self.consume_digits();
        }
        let ghost fraction = self.index as int;
        if self.sees('e' as u8) || self.sees('E' as u8) {
            self.advance();
            if self.sees('+' as u8) || self.sees('-' as u8) {
                self.advance();
            }
            proof {
                lemma_digits_end(b, self.index as int);
            }
            self.consume_digits();
        }
        if self.index == start {
            return Err(self.error("invalid JSON number"));
        }
        let mut out = String::new();
        let mut i: usize = start;
        while i < self.index
            invariant
                start <= i <= self.index <= self.bytes@.len(),
                out@ == Seq::new((i - start) as nat, |k: int| self.bytes@[start + k] as char),
            decreases self.index - i,
        {
            let ghost before = out@;
            out.push(self.bytes[i] as char);
            i = i + 1;
            assert(out@ =~= Seq::new((i - start) as nat, |k: int| self.bytes@[start + k] as char));
        }
        Ok(JsonValue::Number(out))
    }

    /// Reads four hexadecimal digits.
    pub fn parse_u16_hex(&mut self) -> (r: Result<u16, LauncherError>)
        requires
            old(self).well_formed(),
        ensures
            final(self).source() == old(self).source(),
            r is Ok ==> final(self).well_formed(),
            match r {
                Ok(v) => hex4_at(old(self).source(), old(self).at()) == Ok::<(nat, int), Fault>(
                    (v as nat, final(self).at()),
                ),
                Err(e) => hex4_at(old(self).source(), old(self).at()) == Err::<(nat, int), Fault>(
                    Fault { message: e@, at: final(self).at() },
                ),
            },
    {
        let ghost start = self.index as int;
        let ghost b = self.bytes@;
        if self.bytes.len() - self.index < 4 {
            return Err(self.error("short unicode escape"));
        }
        let mut value: u16 = 0;
        let mut count: u16 = 0;
        while count < 4
            invariant
                count <= 4,
                self.well_formed(),
                self.bytes@ == b,
                b == old(self).bytes@,
                start == old(self).index,
                start + 4 <= b.len(),
                self.index == start + count,
                hex_digits_at(b, start, count as nat) == Ok::<(nat, int), Fault>(
                    (value as nat, self.index as int),
                ),
                count == 0 ==> value == 0,
                count == 1 ==> value < 0x10,
                count == 2 ==> value < 0x100,
                count == 3 ==> value < 0x1000,
            decreases 4 - count,
        {
            proof {
                reveal_with_fuel(hex_digits_at, 5);
            }
            match percent::hex_value(self.bytes[self.index]) {
                Ok(d) => {
                    self.advance();
                    value = value * 16 + d as u16;
                    count = count + 1;
                },
                Err(e) => {
                    return Err(e);
                },
            }
        }
        Ok(value)
    }

    /// Reads the character code of an escape.
    pub fn parse_unicode_escape(&mut self) -> (r: Result<char, LauncherError>)
        requires
            old(self).well_formed(),
        ensures
            final(self).source() == old(self).source(),
            r is Ok ==> final(self).well_formed(),
            step(r, final(self).at()) == unicode_at(old(self).source(), old(self).at()),
    {
        let first: u16 = match self.parse_u16_hex() {
            Ok(v) => v,
            Err(e) => {
                return Err(e);
            },
        };
        if 0xD800 <= first && first <= 0xDBFF {
            let save: usize = self.index;
            if self.sees('\\' as u8) {
                self.advance();
                if self.sees('u' as u8) {
                    self.advance();
                    let second: u16 = match self.parse_u16_hex() {
                        Ok(v) => v,
                        Err(e) => {
                            return Err(e);
                        },
                    };
                    if 0xDC00 <= second && second <= 0xDFFF {
                        let high: u32 = first as u32 - 0xD800;
                        let low: u32 = second as u32 - 0xDC00;
                        let code: u32 = 0x10000 + high * 0x400 + low;
                        match char::from_u32(code) {
                            Some(c) => {
                                proof {
                                    char_u32_cast(c, code);
                                }
                                return Ok(c);
                            },
                            None => {
                                return Err(self.error("invalid unicode codepoint"));
                            },
                        }
                    }
                }
            }
            self.index = save;
            return Ok('\u{FFFD}');
        }
        match char::from_u32(first as u32) {
            Some(c) => {
                proof {
                    char_u32_cast(c, first as u32);
                }
                Ok(c)
            },
            None => Err(self.error("invalid unicode codepoint")),
        }
    }

    /// Reads an escape behind its backslash.
    pub fn parse_escape(&mut self) -> (r: Result<char, LauncherError>)
        requires
            old(self).well_formed(),
        ensures
            final(self).source() == old(self).source(),
            r is Ok ==> final(self).well_formed(),
            step(r, final(self).at()) == escape_at(old(self).source(), old(self).at()),
    {
        let byte: u8 = match self.peek() {
            Some(byte) => byte,
            None => {
                return Err(self.error("unterminated JSON escape"));
            },
        };
        proof {
            lemma_boundary_step(self.bytes@, self.index as int);
            assert(self.index < self.bytes.len());
        }
        self.index = self.index + 1;
        if byte == '"' as u8 {
            Ok('"')
        } else if byte == '\\' as u8 {
            Ok('\\')
        } else if byte == '/' as u8 {
            Ok('/')
        } else if byte == 'b' as u8 {
            Ok('\u{8}')
        } else if byte == 'f' as u8 {
            Ok('\u{c}')
        } else if byte == 'n' as u8 {
            Ok('\n')
        } else if byte == 'r' as u8 {
            Ok('\r')
        } else if byte == 't' as u8 {
            Ok('\t')
        } else if byte == 'u' as u8 {
            self.parse_unicode_escape()
        } else {
            Err(self.error("invalid JSON escape"))
        }
    }

    /// Reads a string.
    pub fn parse_string(&mut self) -> (r: Result<String, LauncherError>)
        requires
            old(self).well_formed(),
        ensures
            final(self).source() == old(self).source(),
            r is Ok ==> final(self).well_formed(),
            step(r, final(self).at()) == string_at(old(self).source(), old(self).at()),
    {
        match self.expect('"' as u8) {
            Ok(()) => {},
            Err(e) => {
                return Err(e);
            },
        }
        let ghost b = self.bytes@;
        let ghost start = self.index as int;
        let mut output = String::new();
        while self.index < self.bytes.len()
            invariant
                self.well_formed(),
                self.bytes@ == b,
                string_rest(b, start, seq![]) == string_rest(b, self.index as int, output@),
                old(self).source() == b,
                string_at(b, old(self).at()) == string_rest(b, start, seq![]),
            decreases self.bytes@.len() - self.index,
        {
            let byte: u8 = self.bytes[self.index];
            if byte == '"' as u8 {
                self.advance();
                return Ok(output);
            } else if byte == '\\' as u8 {
                self.advance();
                proof {
                    lemma_escape_at(b, self.index as int);
                }
                match self.parse_escape() {
                    Ok(c) => {
                        output.push(c);
                    },
                    Err(e) => {
                        return Err(e);
                    },
                }
            } else if byte < 0x20 {
                return Err(self.error("control character in JSON string"));
            } else {
                proof {
                    lemma_boundary_step(b, self.index as int);
                }
                let (c, n) = decode_char(self.bytes, self.index);
                assert(self.index + n <= self.bytes.len());
                self.index = self.index + n;
                output.push(c);
            }
        }
        Err(self.error("unterminated JSON string"))
    }

    /// Reads a value.
    pub fn parse_value(&mut self) -> (r: Result<JsonValue, LauncherError>)
        requires
            old(self).well_formed(),
        ensures
            final(self).source() == old(self).source(),
            r is Ok ==> final(self).well_formed(),
            step(r, final(self).at()) == value_at(old(self).source(), old(self).at()),
        decreases old(self).source().len() - old(self).at(), 2nat,
    {
        proof {
            lemma_ws_end(self.bytes@, self.index as int);
        }
        self.skip_ws();
        match self.peek() {
            Some(byte) => {
                if byte == 'n' as u8 {
                    self.parse_literal("null", JsonValue::Null)
                } else if byte == 't' as u8 {
                    self.parse_literal("true", JsonValue::Bool(true))
                } else if byte == 'f' as u8 {
                    self.parse_literal("false", JsonValue::Bool(false))
                } else if byte == '"' as u8 {
                    match self.parse_string() {
                        Ok(s) => Ok(JsonValue::String(s)),
                        Err(e) => Err(e),
                    }
                } else if byte == '{' as u8 {
                    self.parse_object()
                } else if byte == '[' as u8 {
                    self.parse_array()
                } else if byte == '-' as u8 || ('0' as u8 <= byte && byte <= '9' as u8) {
                    self.parse_number()
                } else {
                    Err(self.error("unexpected JSON value"))
                }
            },
            None => Err(self.error("unexpected end of JSON")),
        }
    }

    /// Reads an object.
    pub fn parse_object(&mut self) -> (r: Result<JsonValue, LauncherError>)
        requires
            old(self).well_formed(),
        ensures
            final(self).source() == old(self).source(),
            r is Ok ==> final(self).well_formed(),
            step(r, final(self).at()) == object_at(old(self).source(), old(self).at()),
        decreases old(self).source().len() - old(self).at(), 1nat,
    {
        let ghost b = self.bytes@;
        let ghost start = self.index as int;
        match self.expect('{' as u8) {
            Ok(()) => {},
            Err(e) => {
                return Err(e);
            },
        }
        proof {
            lemma_ws_end(b, self.index as int);
        }
        self.skip_ws();
        let mut object = JsonObject::new();
        if self.sees('}' as u8) {
            self.advance();
            return Ok(JsonValue::Object(object));
        }
        loop
            invariant
                self.well_formed(),
                self.bytes@ == b,
                b == old(self).source(),
                start == old(self).at(),
                start < self.index,
                object_at(b, start) == members_at(b, self.index as int, object@),
            decreases b.len() - self.index,
        {
            let ghost here = self.index as int;
            let ghost done = object@;
            proof {
                lemma_name_at(b, here);
                lemma_ws_end(b, here);
            }
            self.skip_ws();
            let key = match self.parse_string() {
                Ok(key) => key,
                Err(e) => {
                    return Err(e);
                },
            };
            self.skip_ws();
            match self.expect(':' as u8) {
                Ok(()) => {},
                Err(e) => {
                    return Err(e);
                },
            }
            proof {
                lemma_value_advances(b, self.index as int);
            }
            let value = match self.parse_value() {
                Ok(value) => value,
                Err(e) => {
                    return Err(e);
                },
            };
            object = object.insert(key, value);
            proof {
                lemma_ws_end(b, self.index as int);
            }
            self.skip_ws();
            if self.sees(',' as u8) {
                self.advance();
            } else if self.sees('}' as u8) {
                self.advance();
                return Ok(JsonValue::Object(object));
            } else {
                return Err(self.error("expected ',' or '}' in object"));
            }
        }
    }

    /// Reads an array.
    pub fn parse_array(&mut self) -> (r: Result<JsonValue, LauncherError>)
        requires
            old(self).well_formed(),
        ensures
            final(self).source() == old(self).source(),
            r is Ok ==> final(self).well_formed(),
            step(r, final(self).at()) == array_at(old(self).source(), old(self).at()),
        decreases old(self).source().len() - old(self).at(), 1nat,
    {
        let ghost b = self.bytes@;
        let ghost start = self.index as int;
        match self.expect('[' as u8) {
            Ok(()) => {},
            Err(e) => {
                return Err(e);
            },
        }
        proof {
            lemma_ws_end(b, self.index as int);
        }
        self.skip_ws();
        let mut array: Vec<JsonValue> = Vec::new();
        if self.sees(']' as u8) {
            self.advance();
            let r = JsonValue::Array(array);
            assert(r@->Array_0 =~= Seq::<Json>::empty());
            return Ok(r);
        }
        assert(models(array@) =~= Seq::<Json>::empty());
        loop
            invariant
                self.well_formed(),
                self.bytes@ == b,
                b == old(self).source(),
                start == old(self).at(),
                start < self.index,
                array_at(b, start) == elements_at(b, self.index as int, models(array@)),
            decreases b.len() - self.index,
        {
            proof {
                lemma_value_advances(b, self.index as int);
            }
            let value = match self.parse_value() {
                Ok(value) => value,
                Err(e) => {
                    return Err(e);
                },
            };
            let ghost done = models(array@);
            let ghost model = value@;
            array.push(value);
            proof {
                assert(models(array@) =~= done.push(model));
                lemma_ws_end(b, self.index as int);
            }
            self.skip_ws();
            if self.sees(',' as u8) {
                self.advance();
            } else if self.sees(']' as u8) {
                self.advance();
                let r = JsonValue::Array(array);
                assert(r@->Array_0 =~= models(array@));
                return Ok(r);
            } else {
                return Err(self.error("expected ',' or ']' in array"));
            }
        }
    }

    /// Reads the document: one value, with nothing behind it but white space.
    pub fn parse(self) -> (r: Result<JsonValue, LauncherError>)
        requires
            self.well_formed(),
        ensures
            error::outcome(r) == document_at(self.source(), self.at()),
    {
        let mut parser = self;
        let value = match parser.parse_value() {
            Ok(value) => value,
            Err(e) => {
                return Err(e);
            },
        };
        parser.skip_ws();
        if parser.index != parser.bytes.len() {
            return Err(parser.error("unexpected trailing JSON data"));
        }
        Ok(value)
    }
}

/// The models of a sequence of values.
spec fn models(items: Seq<JsonValue>) -> Seq<Json> {
    Seq::new(items.len(), |i: int| items[i]@)
}

} // verus!
