//! Writing JSON documents, as a measure of reading them.
use crate::json;
use crate::json::Json;
use crate::percent;
use crate::text;
use vstd::prelude::*;
use vstd::utf8::*;

verus! {

// ---------------------------------------------------------------------------
// Documents
// ---------------------------------------------------------------------------

/// A JSON document, in one of the ways in which its value can be written: white space may stand
/// around each part, the members of an object stand in an order, and a name may occur twice.
pub enum Doc {
    Null,
    Bool(bool),
    Number(Numeral),
    Text(Seq<Piece>),
    /// An array; `white` is what stands in it where it has no elements.
    Array { white: Seq<char>, items: Seq<Item> },
    /// An object; `white` is what stands in it where it has no members.
    Object { white: Seq<char>, members: Seq<Member> },
}

/// A value with white space around it.
pub struct Item {
    pub before: Seq<char>,
    pub doc: Doc,
    pub after: Seq<char>,
}

/// A member of an object, with white space around its name and around its value.
pub struct Member {
    pub before: Seq<char>,
    pub name: Seq<Piece>,
    pub after: Seq<char>,
    pub value: Item,
}

/// A number: its sign, its digits, and what follows them.
pub struct Numeral {
    pub minus: bool,
    pub whole: Seq<char>,
    pub fraction: Option<Seq<char>>,
    pub exponent: Option<Exponent>,
}

/// An exponent: its letter, its sign and its digits.
pub struct Exponent {
    pub letter: char,
    pub sign: Option<char>,
    pub digits: Seq<char>,
}

/// One character of a string, in one of the ways in which it can be written.
pub enum Piece {
    /// The character itself.
    Raw(char),
    /// A backslash and a letter.
    Short(char),
    /// The code of the character in four hexadecimal digits.
    Code(Seq<char>),
    /// The two halves of a surrogate pair, in four hexadecimal digits each.
    Pair(Seq<char>, Seq<char>),
    /// The first half of a surrogate pair without the second one, in four hexadecimal digits.
    Lone(Seq<char>),
}

/// Whether `c` is white space between the parts of a document.
pub open spec fn is_white_char(c: char) -> bool {
    c == ' ' || c == '\n' || c == '\r' || c == '\t'
}

/// Whether `s` is white space between the parts of a document.
pub open spec fn is_white(s: Seq<char>) -> bool {
    forall|i: int| 0 <= i < s.len() ==> is_white_char(#[trigger] s[i])
}

/// Whether `h` are four hexadecimal digits.
pub open spec fn is_code(h: Seq<char>) -> bool {
    &&& h.len() == 4
    &&& percent::is_hex_char(h[0]) && percent::is_hex_char(h[1])
    &&& percent::is_hex_char(h[2]) && percent::is_hex_char(h[3])
}

/// The value of the hexadecimal digit `c`.
pub open spec fn hex_value(c: char) -> nat {
    percent::hex_of(c as u8)
}

/// The number that the four hexadecimal digits of `h` write.
pub open spec fn code_value(h: Seq<char>) -> nat {
    ((hex_value(h[0]) * 16 + hex_value(h[1])) * 16 + hex_value(h[2])) * 16 + hex_value(h[3])
}

// ---------------------------------------------------------------------------
// Meaning
// ---------------------------------------------------------------------------

/// The character that a piece of a string stands for: half a surrogate pair stands for the
/// replacement character.
pub open spec fn piece_char(piece: Piece) -> char {
    match piece {
        Piece::Raw(c) => c,
        Piece::Short(letter) => json::simple_escape(letter as u8)->Some_0,
        Piece::Code(h) => code_value(h) as char,
        Piece::Pair(h, l) => (0x10000 + (code_value(h) - 0xD800) * 0x400 + (code_value(l)
            - 0xDC00)) as char,
        Piece::Lone(h) => '\u{FFFD}',
    }
}

/// The text that a string stands for.
pub open spec fn text_of(pieces: Seq<Piece>) -> Seq<char> {
    pieces.map_values(|piece: Piece| piece_char(piece))
}

/// The value that a document stands for. Of members with the same name the last one counts.
pub open spec fn meaning(doc: Doc) -> Json
    decreases doc, 0nat,
{
    match doc {
        Doc::Null => Json::Null,
        Doc::Bool(b) => Json::Bool(b),
        Doc::Number(numeral) => Json::Number(written_number(numeral)),
        Doc::Text(pieces) => Json::Text(text_of(pieces)),
        Doc::Array { white, items } => Json::Array(meanings(items)),
        Doc::Object { white, members } => Json::Object(with_members(Map::empty(), members)),
    }
}

/// The values that the elements of an array stand for.
pub open spec fn meanings(items: Seq<Item>) -> Seq<Json>
    decreases items, 0nat,
{
    if items.len() == 0 {
        seq![]
    } else {
        seq![meaning(items[0].doc)] + meanings(items.subrange(1, items.len() as int))
    }
}

/// The members `done` with further ones.
pub open spec fn with_members(done: Map<Seq<char>, Json>, members: Seq<Member>) -> Map<
    Seq<char>,
    Json,
>
    decreases members, 0nat,
{
    if members.len() == 0 {
        done
    } else {
        with_members(
            done.insert(text_of(members[0].name), meaning(members[0].value.doc)),
            members.subrange(1, members.len() as int),
        )
    }
}

// ---------------------------------------------------------------------------
// Form
// ---------------------------------------------------------------------------

/// Whether `piece` can stand in a string.
pub open spec fn is_piece(piece: Piece) -> bool {
    match piece {
        Piece::Raw(c) => c > '\u{1f}' && c != '"' && c != '\\',
        Piece::Short(letter) => letter <= '\u{7f}' && json::simple_escape(letter as u8) is Some,
        Piece::Code(h) => is_code(h) && !json::is_high_surrogate(code_value(h))
            && !json::is_low_surrogate(code_value(h)),
        Piece::Pair(h, l) => is_code(h) && is_code(l) && json::is_high_surrogate(code_value(h))
            && json::is_low_surrogate(code_value(l)),
        Piece::Lone(h) => is_code(h) && json::is_high_surrogate(code_value(h)),
    }
}

/// Whether `pieces` can stand in a string.
pub open spec fn are_pieces(pieces: Seq<Piece>) -> bool {
    forall|i: int| 0 <= i < pieces.len() ==> is_piece(#[trigger] pieces[i])
}

/// Whether `numeral` has digits, and nothing but digits where digits stand.
pub open spec fn is_numeral(numeral: Numeral) -> bool {
    &&& numeral.minus || numeral.whole.len() > 0
    &&& text::all_digits(numeral.whole)
    &&& numeral.fraction matches Some(digits) ==> text::all_digits(digits)
    &&& numeral.exponent matches Some(e) ==> {
        &&& e.letter == 'e' || e.letter == 'E'
        &&& e.sign matches Some(sign) ==> sign == '+' || sign == '-'
        &&& text::all_digits(e.digits)
    }
}

/// Whether the parts of `doc` have the form of what they are.
pub open spec fn is_sound(doc: Doc) -> bool
    decreases doc, 0nat,
{
    match doc {
        Doc::Number(numeral) => is_numeral(numeral),
        Doc::Text(pieces) => are_pieces(pieces),
        Doc::Array { white, items } => is_white(white) && are_sound(items),
        Doc::Object { white, members } => is_white(white) && members_are_sound(members),
        _ => true,
    }
}

/// Whether the elements of an array have the form of elements.
pub open spec fn are_sound(items: Seq<Item>) -> bool
    decreases items, 0nat,
{
    items.len() > 0 ==> {
        &&& is_white(items[0].before) && is_white(items[0].after)
        &&& is_sound(items[0].doc)
        &&& are_sound(items.subrange(1, items.len() as int))
    }
}

/// Whether the members of an object have the form of members.
pub open spec fn members_are_sound(members: Seq<Member>) -> bool
    decreases members, 0nat,
{
    members.len() > 0 ==> {
        &&& is_white(members[0].before) && is_white(members[0].after)
        &&& are_pieces(members[0].name)
        &&& is_white(members[0].value.before) && is_white(members[0].value.after)
        &&& is_sound(members[0].value.doc)
        &&& members_are_sound(members.subrange(1, members.len() as int))
    }
}

// ---------------------------------------------------------------------------
// Writing
// ---------------------------------------------------------------------------

/// The piece `piece` of a string.
pub open spec fn written_piece(piece: Piece) -> Seq<char> {
    match piece {
        Piece::Raw(c) => seq![c],
        Piece::Short(letter) => seq!['\\', letter],
        Piece::Code(h) | Piece::Lone(h) => seq!['\\', 'u'] + h,
        Piece::Pair(h, l) => seq!['\\', 'u'] + h + (seq!['\\', 'u'] + l),
    }
}

/// The pieces of a string, one behind the other.
pub open spec fn written_pieces(pieces: Seq<Piece>) -> Seq<char>
    decreases pieces.len(),
{
    if pieces.len() == 0 {
        seq![]
    } else {
        written_piece(pieces[0]) + written_pieces(pieces.skip(1))
    }
}

/// The string of `pieces`.
pub open spec fn written_text(pieces: Seq<Piece>) -> Seq<char> {
    seq!['"'] + (written_pieces(pieces) + seq!['"'])
}

/// The sign and the digits of a number.
pub open spec fn written_whole(numeral: Numeral) -> Seq<char> {
    if numeral.minus {
        seq!['-'] + numeral.whole
    } else {
        numeral.whole
    }
}

/// The fraction of a number.
pub open spec fn written_fraction(numeral: Numeral) -> Seq<char> {
    match numeral.fraction {
        Some(digits) => seq!['.'] + digits,
        None => seq![],
    }
}

/// The exponent of a number.
pub open spec fn written_exponent(numeral: Numeral) -> Seq<char> {
    match numeral.exponent {
        Some(e) => match e.sign {
            Some(sign) => seq![e.letter, sign] + e.digits,
            None => seq![e.letter] + e.digits,
        },
        None => seq![],
    }
}

/// The number `numeral`.
pub open spec fn written_number(numeral: Numeral) -> Seq<char> {
    written_whole(numeral) + written_fraction(numeral) + written_exponent(numeral)
}

/// The document `doc`.
pub open spec fn written(doc: Doc) -> Seq<char>
    decreases doc, 0nat,
{
    match doc {
        Doc::Null => "null"@,
        Doc::Bool(b) => if b {
            "true"@
        } else {
            "false"@
        },
        Doc::Number(numeral) => written_number(numeral),
        Doc::Text(pieces) => written_text(pieces),
        Doc::Array { white, items } => seq!['['] + (if items.len() == 0 {
            white
        } else {
            written_items(items)
        }) + seq![']'],
        Doc::Object { white, members } => seq!['{'] + (if members.len() == 0 {
            white
        } else {
            written_members(members)
        }) + seq!['}'],
    }
}

/// The value `item`, with the white space around it.
pub open spec fn written_item(item: Item) -> Seq<char>
    decreases item, 1nat,
{
    item.before + (written(item.doc) + item.after)
}

/// The elements of an array, with commas between them.
pub open spec fn written_items(items: Seq<Item>) -> Seq<char>
    decreases items, 0nat,
{
    if items.len() == 0 {
        seq![]
    } else if items.len() == 1 {
        written_item(items[0])
    } else {
        written_item(items[0]) + seq![','] + written_items(items.subrange(1, items.len() as int))
    }
}

/// The name of a member, with the white space around it and the colon behind it.
pub open spec fn written_name(member: Member) -> Seq<char> {
    member.before + (written_text(member.name) + (member.after + seq![':']))
}

/// The members of an object, with commas between them.
pub open spec fn written_members(members: Seq<Member>) -> Seq<char>
    decreases members, 0nat,
{
    if members.len() == 0 {
        seq![]
    } else {
        let first = written_name(members[0]) + written_item(members[0].value);
        if members.len() == 1 {
            first
        } else {
            first + seq![','] + written_members(members.subrange(1, members.len() as int))
        }
    }
}

// ---------------------------------------------------------------------------
// Positions
// ---------------------------------------------------------------------------

/// The position in the encoding of `t` at which character `n` starts.
pub(crate) open spec fn pos(t: Seq<char>, n: int) -> int {
    encode_utf8(t.take(n)).len() as int
}

/// Whether `s` stands in `t` at character `n`.
pub(crate) open spec fn stands(t: Seq<char>, n: int, s: Seq<char>) -> bool {
    0 <= n && n + s.len() <= t.len() && t.subrange(n, n + s.len()) == s
}

/// What stands at character `n` of `t` as a concatenation stands there part by part.
proof fn lemma_stands_concat(t: Seq<char>, n: int, a: Seq<char>, b: Seq<char>)
    requires
        stands(t, n, a + b),
    ensures
        stands(t, n, a),
        stands(t, n + a.len(), b),
{
    let whole = t.subrange(n, n + (a + b).len());
    assert(t.subrange(n, n + a.len()) =~= whole.subrange(0, a.len() as int));
    assert((a + b).subrange(0, a.len() as int) =~= a);
    assert(t.subrange(n + a.len(), n + a.len() + b.len()) =~= whole.subrange(
        a.len() as int,
        (a + b).len() as int,
    ));
    assert((a + b).subrange(a.len() as int, (a + b).len() as int) =~= b);
}

/// The byte at the position of an ASCII character, and the position behind it.
pub(crate) proof fn lemma_pos_ascii(t: Seq<char>, n: int)
    requires
        0 <= n < t.len(),
        t[n] <= '\u{7f}',
    ensures
        0 <= pos(t, n) < encode_utf8(t).len(),
        encode_utf8(t)[pos(t, n)] == t[n] as u8,
        pos(t, n + 1) == pos(t, n) + 1,
{
    lemma_pos_char(t, n);
    text::lemma_encode_char(t[n]);
    assert(encode_utf8(t).skip(pos(t, n))[0] == encode_scalar(t[n] as u32)[0]);
}

/// The character at a position, and the position behind it.
pub(crate) proof fn lemma_pos_char(t: Seq<char>, n: int)
    requires
        0 <= n < t.len(),
    ensures
        0 <= pos(t, n) < encode_utf8(t).len(),
        encode_utf8(t).skip(pos(t, n)) == encode_scalar(t[n] as u32) + encode_utf8(t.skip(n + 1)),
        pos(t, n + 1) == pos(t, n) + encode_scalar(t[n] as u32).len(),
        length_of_first_scalar(encode_utf8(t).skip(pos(t, n))) == encode_scalar(t[n] as u32).len(),
        decode_first_scalar(encode_utf8(t).skip(pos(t, n))) == t[n] as u32,
{
    let head = t.take(n);
    let tail = t.skip(n);
    assert(t == head + tail);
    text::lemma_encode_concat(head, tail);
    assert(encode_utf8(t).skip(pos(t, n)) =~= encode_utf8(tail));
    encode_utf8_first_scalar(tail);
    assert(tail.drop_first() =~= t.skip(n + 1));
    assert(t.take(n + 1) =~= head.push(t[n]));
    text::lemma_encode_push(head, t[n]);
}

/// The end of the text.
pub(crate) proof fn lemma_pos_end(t: Seq<char>)
    ensures
        pos(t, t.len() as int) == encode_utf8(t).len(),
        pos(t, 0) == 0,
{
    assert(t.take(t.len() as int) =~= t);
    assert(t.take(0) =~= Seq::<char>::empty());
}

/// Whether what stands before character `n` of `t` ends there: at the end of the text, or before
/// one of the characters that follow a value.
spec fn ends_at(t: Seq<char>, n: int) -> bool {
    n == t.len() || (0 <= n < t.len() && (t[n] == ',' || t[n] == ']' || t[n] == '}'
        || is_white_char(t[n])))
}

/// No white space is skipped before a character that is none, nor at the end of the text.
pub(crate) proof fn lemma_no_white_space(t: Seq<char>, n: int)
    requires
        0 <= n <= t.len(),
        n < t.len() ==> !is_white_char(t[n]),
    ensures
        json::ws_end(encode_utf8(t), pos(t, n)) == pos(t, n),
{
    lemma_pos_end(t);
    if n < t.len() {
        lemma_pos_char(t, n);
        text::lemma_encode_char(t[n]);
        text::lemma_char_bound(t[n]);
        char_is_scalar(t[n]);
        let e = encode_scalar(t[n] as u32);
        assert(encode_utf8(t).skip(pos(t, n))[0] == e[0]);
    }
}

/// White space is skipped.
pub(crate) proof fn lemma_white_skipped(t: Seq<char>, n: int, white: Seq<char>)
    requires
        stands(t, n, white),
        is_white(white),
    ensures
        json::ws_end(encode_utf8(t), pos(t, n)) == json::ws_end(
            encode_utf8(t),
            pos(t, n + white.len()),
        ),
    decreases white.len(),
{
    if white.len() > 0 {
        assert(t.subrange(n, n + white.len())[0] == t[n]);
        assert(is_white_char(white[0]));
        lemma_pos_ascii(t, n);
        let rest = white.skip(1);
        assert(white =~= seq![white[0]] + rest);
        lemma_stands_concat(t, n, seq![white[0]], rest);
        assert forall|i: int| 0 <= i < rest.len() implies is_white_char(#[trigger] rest[i]) by {
            assert(rest[i] == white[i + 1]);
        }
        lemma_white_skipped(t, n + 1, rest);
    }
}

/// The value at a position is the value behind the white space there.
pub(crate) proof fn lemma_value_behind_white(b: Seq<u8>, i: int, j: int)
    requires
        json::ws_end(b, i) == json::ws_end(b, j),
    ensures
        json::value_at(b, i) == json::value_at(b, j),
{
}

// ---------------------------------------------------------------------------
// Reading strings back
// ---------------------------------------------------------------------------

/// Four hexadecimal digits are read back.
proof fn lemma_code_read(t: Seq<char>, n: int, h: Seq<char>)
    requires
        stands(t, n, h),
        is_code(h),
    ensures
        json::hex4_at(encode_utf8(t), pos(t, n)) == Ok::<(nat, int), json::Fault>(
            (code_value(h), pos(t, n + 4)),
        ),
        pos(t, n + 4) == pos(t, n) + 4,
        pos(t, n + 4) <= encode_utf8(t).len(),
{
    let b = encode_utf8(t);
    let i = pos(t, n);
    assert forall|k: int| 0 <= k < 4 implies #[trigger] t[n + k] == h[k] by {
        assert(t.subrange(n, n + 4)[k] == t[n + k]);
    }
    assert(t[n + 0] == h[0] && t[n + 1] == h[1] && t[n + 2] == h[2] && t[n + 3] == h[3]);
    lemma_pos_ascii(t, n);
    lemma_pos_ascii(t, n + 1);
    lemma_pos_ascii(t, n + 2);
    lemma_pos_ascii(t, n + 3);
    assert(b[i] == h[0] as u8 && b[i + 1] == h[1] as u8);
    assert(b[i + 2] == h[2] as u8 && b[i + 3] == h[3] as u8);
    reveal_with_fuel(json::hex_digits_at, 5);
    let a = hex_value(h[0]);
    let c = a * 16 + hex_value(h[1]);
    let d = c * 16 + hex_value(h[2]);
    assert(json::hex_digits_at(b, i, 0) == Ok::<(nat, int), json::Fault>((0nat, i)));
    assert(json::hex_digits_at(b, i, 1) == Ok::<(nat, int), json::Fault>((a, i + 1)));
    assert(json::hex_digits_at(b, i, 2) == Ok::<(nat, int), json::Fault>((c, i + 2)));
    assert(json::hex_digits_at(b, i, 3) == Ok::<(nat, int), json::Fault>((d, i + 3)));
}

/// A backslash and the letter behind it stand in the text as two bytes.
proof fn lemma_escape_start(t: Seq<char>, n: int, letter: char)
    requires
        stands(t, n, seq!['\\', letter]),
        letter <= '\u{7f}',
    ensures
        pos(t, n + 2) == pos(t, n) + 2,
        pos(t, n + 2) <= encode_utf8(t).len(),
        encode_utf8(t)[pos(t, n)] == '\\' as u8,
        encode_utf8(t)[pos(t, n) + 1] == letter as u8,
{
    assert(t.subrange(n, n + 2)[0] == t[n]);
    assert(t.subrange(n, n + 2)[1] == t[n + 1]);
    lemma_pos_ascii(t, n);
    lemma_pos_ascii(t, n + 1);
}

/// An escape is read back.
proof fn lemma_escape_read(t: Seq<char>, n: int, piece: Piece)
    requires
        stands(t, n, written_piece(piece)),
        is_piece(piece),
        !(piece is Raw) && !(piece is Lone),
    ensures
        json::escape_at(encode_utf8(t), pos(t, n) + 1) == Ok::<(char, int), json::Fault>(
            (piece_char(piece), pos(t, n + written_piece(piece).len())),
        ),
        encode_utf8(t)[pos(t, n)] == '\\' as u8,
        pos(t, n) < encode_utf8(t).len(),
        pos(t, n + written_piece(piece).len()) > pos(t, n),
{
    let b = encode_utf8(t);
    let u = seq!['\\', 'u'];
    match piece {
        Piece::Raw(_) | Piece::Lone(_) => {},
        Piece::Short(letter) => {
            lemma_escape_start(t, n, letter);
            text::lemma_char_bound(letter);
        },
        Piece::Code(h) => {
            lemma_stands_concat(t, n, u, h);
            lemma_escape_start(t, n, 'u');
            lemma_code_read(t, n + 2, h);
        },
        Piece::Pair(h, l) => {
            lemma_stands_concat(t, n, u + h, u + l);
            lemma_stands_concat(t, n, u, h);
            lemma_stands_concat(t, n + 6, u, l);
            lemma_escape_start(t, n, 'u');
            lemma_code_read(t, n + 2, h);
            lemma_escape_start(t, n + 6, 'u');
            lemma_code_read(t, n + 8, l);
        },
    }
}

/// A character that stands for itself is read back.
proof fn lemma_raw_read(t: Seq<char>, n: int, c: char, done: Seq<char>)
    requires
        stands(t, n, seq![c]),
        is_piece(Piece::Raw(c)),
    ensures
        json::string_rest(encode_utf8(t), pos(t, n), done) == json::string_rest(
            encode_utf8(t),
            pos(t, n + 1),
            done.push(c),
        ),
        !json::has(encode_utf8(t), pos(t, n), '\\' as u8),
{
    let b = encode_utf8(t);
    assert(t.subrange(n, n + 1)[0] == t[n]);
    lemma_pos_char(t, n);
    text::lemma_encode_char(c);
    char_u32_cast(c, c as u32);
    let first = encode_scalar(c as u32)[0];
    assert(b.skip(pos(t, n))[0] == first);
    assert(b[pos(t, n)] == first);
    assert(first >= 0x20 && first != '"' as u8 && first != '\\' as u8) by {
        text::lemma_char_bound(c);
        char_is_scalar(c);
    }
}

/// Half a surrogate pair is read as the replacement character, whatever pieces follow.
proof fn lemma_lone_read(t: Seq<char>, n: int, h: Seq<char>, rest: Seq<Piece>)
    requires
        stands(t, n, seq!['\\', 'u'] + h),
        stands(t, n + 6, written_pieces(rest) + seq!['"']),
        is_piece(Piece::Lone(h)),
        are_pieces(rest),
    ensures
        json::escape_at(encode_utf8(t), pos(t, n) + 1) == Ok::<(char, int), json::Fault>(
            ('\u{FFFD}', pos(t, n + 6)),
        ),
        encode_utf8(t)[pos(t, n)] == '\\' as u8,
        pos(t, n) < encode_utf8(t).len(),
        pos(t, n + 6) > pos(t, n),
{
    let u = seq!['\\', 'u'];
    let m = n + 6;
    lemma_stands_concat(t, n, u, h);
    lemma_escape_start(t, n, 'u');
    lemma_code_read(t, n + 2, h);
    lemma_stands_concat(t, m, written_pieces(rest), seq!['"']);
    if rest.len() == 0 {
        assert(t.subrange(m, m + 1)[0] == t[m]);
        lemma_pos_ascii(t, m);
    } else {
        let w = written_piece(rest[0]);
        assert(is_piece(rest[0]));
        lemma_stands_concat(t, m, w, written_pieces(rest.skip(1)));
        match rest[0] {
            Piece::Raw(c) => {
                lemma_raw_read(t, m, c, seq![]);
            },
            Piece::Short(letter) => {
                lemma_escape_start(t, m, letter);
                text::lemma_char_bound(letter);
            },
            Piece::Code(g) | Piece::Lone(g) => {
                lemma_stands_concat(t, m, u, g);
                lemma_escape_start(t, m, 'u');
                lemma_code_read(t, m + 2, g);
            },
            Piece::Pair(g, l) => {
                lemma_stands_concat(t, m, u + g, u + l);
                lemma_stands_concat(t, m, u, g);
                lemma_escape_start(t, m, 'u');
                lemma_code_read(t, m + 2, g);
            },
        }
    }
}

/// The pieces of a string, and the quote behind them, are read back.
proof fn lemma_pieces_read(t: Seq<char>, n: int, pieces: Seq<Piece>, done: Seq<char>)
    requires
        stands(t, n, written_pieces(pieces) + seq!['"']),
        are_pieces(pieces),
    ensures
        json::string_rest(encode_utf8(t), pos(t, n), done) == Ok::<(Seq<char>, int), json::Fault>(
            (done + text_of(pieces), pos(t, n + written_pieces(pieces).len() + 1)),
        ),
    decreases pieces.len(),
{
    lemma_stands_concat(t, n, written_pieces(pieces), seq!['"']);
    if pieces.len() == 0 {
        assert(t.subrange(n, n + 1)[0] == t[n]);
        assert(t[n] == '"');
        lemma_pos_ascii(t, n);
        assert(done + text_of(pieces) =~= done);
    } else {
        let piece = pieces[0];
        let c = piece_char(piece);
        let w = written_piece(piece);
        let rest = pieces.skip(1);
        assert(is_piece(piece));
        assert(written_pieces(pieces) + seq!['"'] =~= w + (written_pieces(rest) + seq!['"']));
        lemma_stands_concat(t, n, w, written_pieces(rest) + seq!['"']);
        assert(are_pieces(rest)) by {
            assert forall|i: int| 0 <= i < rest.len() implies is_piece(#[trigger] rest[i]) by {
                assert(rest[i] == pieces[i + 1]);
            }
        }
        lemma_pieces_read(t, n + w.len(), rest, done.push(c));
        assert(text_of(pieces) =~= seq![c] + text_of(rest));
        assert(done.push(c) + text_of(rest) =~= done + text_of(pieces));
        match piece {
            Piece::Raw(c) => {
                lemma_raw_read(t, n, c, done);
            },
            Piece::Lone(h) => {
                lemma_lone_read(t, n, h, rest);
            },
            _ => {
                lemma_escape_read(t, n, piece);
            },
        }
    }
}

/// A string is read back.
proof fn lemma_text_read(t: Seq<char>, n: int, pieces: Seq<Piece>)
    requires
        stands(t, n, written_text(pieces)),
        are_pieces(pieces),
    ensures
        json::string_at(encode_utf8(t), pos(t, n)) == Ok::<(Seq<char>, int), json::Fault>(
            (text_of(pieces), pos(t, n + written_text(pieces).len())),
        ),
        t[n] == '"',
        n < t.len(),
{
    lemma_stands_concat(t, n, seq!['"'], written_pieces(pieces) + seq!['"']);
    assert(t.subrange(n, n + 1)[0] == t[n]);
    lemma_pos_ascii(t, n);
    lemma_pieces_read(t, n + 1, pieces, seq![]);
    assert(Seq::<char>::empty() + text_of(pieces) =~= text_of(pieces));
}

// ---------------------------------------------------------------------------
// Reading numbers and literals back
// ---------------------------------------------------------------------------

/// Whether `s` is read as a number to its end.
spec fn is_number(s: Seq<char>) -> bool {
    let b = encode_utf8(s);
    &&& is_ascii_chars(s)
    &&& s.len() > 0
    &&& json::exponent_end(b, json::fraction_end(b, json::whole_end(b, 0))) == b.len()
}

/// Digits end where they end.
proof fn lemma_digits_run(b: Seq<u8>, i: int, k: int)
    requires
        0 <= i,
        0 <= k,
        i + k <= b.len(),
        forall|j: int| i <= j < i + k ==> json::is_digit_byte(#[trigger] b[j]),
        i + k < b.len() ==> !json::is_digit_byte(b[i + k]),
    ensures
        json::digits_end(b, i) == i + k,
    decreases k,
{
    if k > 0 {
        assert(json::is_digit_byte(b[i]));
        lemma_digits_run(b, i + 1, k - 1);
    }
}

/// The characters of a number are ASCII characters.
proof fn lemma_numeral_is_ascii(numeral: Numeral)
    requires
        is_numeral(numeral),
    ensures
        is_ascii_chars(written_number(numeral)),
{
    let w = written_whole(numeral);
    let f = written_fraction(numeral);
    let e = written_exponent(numeral);
    let s = written_number(numeral);
    assert forall|k: int| 0 <= k < w.len() implies '\0' <= #[trigger] w[k] <= '\u{7f}' by {
        if !numeral.minus {
            assert(text::is_digit(numeral.whole[k]));
        } else if k > 0 {
            assert(text::is_digit(numeral.whole[k - 1]));
        }
    }
    assert forall|k: int| 0 <= k < f.len() implies '\0' <= #[trigger] f[k] <= '\u{7f}' by {
        if k > 0 {
            assert(text::is_digit(numeral.fraction->Some_0[k - 1]));
        }
    }
    assert forall|k: int| 0 <= k < e.len() implies '\0' <= #[trigger] e[k] <= '\u{7f}' by {
        let x = numeral.exponent->Some_0;
        let n: int = if x.sign is Some {
            2
        } else {
            1
        };
        if k >= n {
            assert(text::is_digit(x.digits[k - n]));
        }
    }
    assert forall|k: int| 0 <= k < s.len() implies '\0' <= #[trigger] s[k] <= '\u{7f}' by {
        if k < w.len() {
            assert(s[k] == w[k]);
        } else if k < w.len() + f.len() {
            assert(s[k] == f[k - w.len()]);
        } else {
            assert(s[k] == e[k - w.len() - f.len()]);
        }
    }
}

/// The exponent of a number is read to its end.
proof fn lemma_exponent(numeral: Numeral, b: Seq<u8>, i: int)
    requires
        is_numeral(numeral),
        0 <= i,
        b.len() == i + written_exponent(numeral).len(),
        forall|k: int|
            0 <= k < written_exponent(numeral).len() ==> #[trigger] b[i + k] == written_exponent(
                numeral,
            )[k] as u8,
    ensures
        json::exponent_end(b, i) == b.len(),
{
    let w = written_exponent(numeral);
    match numeral.exponent {
        Some(e) => {
            let n: int = if e.sign is Some {
                2
            } else {
                1
            };
            assert(b[i + 0] == w[0] as u8);
            assert forall|j: int| i + n <= j < b.len() implies json::is_digit_byte(
                #[trigger] b[j],
            ) by {
                assert(b[i + (j - i)] == w[j - i] as u8);
                assert(w[j - i] == e.digits[j - i - n]);
                assert(text::is_digit(e.digits[j - i - n]));
            }
            if e.sign is Some {
                assert(b[i + 1] == w[1] as u8);
            }
            lemma_digits_run(b, i + n, b.len() - i - n);
        },
        None => {},
    }
}

/// A number is read to its end.
proof fn lemma_numeral(numeral: Numeral)
    requires
        is_numeral(numeral),
    ensures
        is_number(written_number(numeral)),
{
    let w = written_whole(numeral);
    let f = written_fraction(numeral);
    let e = written_exponent(numeral);
    let s = written_number(numeral);
    let b = encode_utf8(s);
    lemma_numeral_is_ascii(numeral);
    is_ascii_chars_encode_utf8(s);
    let n = w.len() as int;
    let m = n + f.len();
    assert forall|k: int| 0 <= k < w.len() implies #[trigger] b[k] == w[k] as u8 by {
        assert(s[k] == w[k]);
    }
    assert forall|k: int| 0 <= k < f.len() implies #[trigger] b[n + k] == f[k] as u8 by {
        assert(s[n + k] == f[k]);
    }
    assert forall|k: int| 0 <= k < e.len() implies #[trigger] b[m + k] == e[k] as u8 by {
        assert(s[m + k] == e[k]);
    }
    if f.len() > 0 {
        assert(b[n + 0] == f[0] as u8);
    }
    if e.len() > 0 {
        assert(b[m + 0] == e[0] as u8);
    }
    let z: int = if numeral.minus {
        1
    } else {
        0
    };
    assert(b[0] == w[0] as u8);
    assert forall|j: int| z <= j < n implies json::is_digit_byte(#[trigger] b[j]) by {
        assert(b[j] == w[j] as u8);
        assert(w[j] == numeral.whole[j - z]);
        assert(text::is_digit(numeral.whole[j - z]));
    }
    if !numeral.minus {
        assert(json::is_digit_byte(b[0]));
    }
    lemma_digits_run(b, z, n - z);
    assert(json::whole_end(b, 0) == n);
    match numeral.fraction {
        Some(digits) => {
            assert forall|j: int| n + 1 <= j < m implies json::is_digit_byte(#[trigger] b[j]) by {
                assert(b[n + (j - n)] == f[j - n] as u8);
                assert(f[j - n] == digits[j - n - 1]);
                assert(text::is_digit(digits[j - n - 1]));
            }
            lemma_digits_run(b, n + 1, m - n - 1);
        },
        None => {},
    }
    assert(json::fraction_end(b, n) == m);
    lemma_exponent(numeral, b, m);
}

/// Whether `x` is the byte of a character that may follow a value.
spec fn may_follow(x: u8) -> bool {
    x == ',' as u8 || x == ']' as u8 || x == '}' as u8 || json::is_ws(x)
}

/// Whether `b` continues at `i` with `n`, and with nothing behind it that a number may hold.
spec fn holds_number(b: Seq<u8>, i: int, n: Seq<u8>) -> bool {
    let j = i + n.len();
    &&& 0 <= i && j <= b.len()
    &&& forall|k: int| 0 <= k < n.len() ==> #[trigger] b[i + k] == n[k]
    &&& j < b.len() ==> may_follow(b[j])
}

proof fn lemma_digits_lift(b: Seq<u8>, i: int, n: Seq<u8>, k: int)
    requires
        holds_number(b, i, n),
        0 <= k <= n.len(),
    ensures
        json::digits_end(b, i + k) == i + json::digits_end(n, k),
        k <= json::digits_end(n, k) <= n.len(),
    decreases n.len() - k,
{
    if k < n.len() {
        assert(b[i + k] == n[k]);
        if json::is_digit_byte(n[k]) {
            lemma_digits_lift(b, i, n, k + 1);
        }
    }
}

proof fn lemma_has_lift(b: Seq<u8>, i: int, n: Seq<u8>, k: int, x: u8)
    requires
        holds_number(b, i, n),
        0 <= k <= n.len(),
        !may_follow(x),
    ensures
        json::has(b, i + k, x) == json::has(n, k, x),
{
    if k < n.len() {
        assert(b[i + k] == n[k]);
    }
}

/// A number is read back.
proof fn lemma_number_read(t: Seq<char>, n: int, s: Seq<char>)
    requires
        stands(t, n, s),
        is_number(s),
        ends_at(t, n + s.len()),
    ensures
        json::number_at(encode_utf8(t), pos(t, n)) == Ok::<(Json, int), json::Fault>(
            (Json::Number(s), pos(t, n + s.len())),
        ),
{
    let b = encode_utf8(t);
    let m = encode_utf8(s);
    let i = pos(t, n);
    is_ascii_chars_encode_utf8(s);
    let head = t.take(n);
    let tail = t.skip(n + s.len());
    assert(t =~= head + (s + tail));
    text::lemma_encode_concat(head, s + tail);
    text::lemma_encode_concat(s, tail);
    assert(t.take(n + s.len()) =~= head + s);
    text::lemma_encode_concat(head, s);
    lemma_pos_end(t);
    if n + s.len() < t.len() {
        lemma_pos_ascii(t, n + s.len());
    }
    assert(holds_number(b, i, m)) by {
        assert forall|k: int| 0 <= k < m.len() implies #[trigger] b[i + k] == m[k] by {}
    }
    lemma_has_lift(b, i, m, 0, '-' as u8);
    let w0: int = if json::has(m, 0, '-' as u8) {
        1
    } else {
        0
    };
    lemma_digits_lift(b, i, m, w0);
    let w = json::whole_end(m, 0);
    lemma_has_lift(b, i, m, w, '.' as u8);
    if json::has(m, w, '.' as u8) {
        lemma_digits_lift(b, i, m, w + 1);
    }
    let f = json::fraction_end(m, w);
    lemma_has_lift(b, i, m, f, 'e' as u8);
    lemma_has_lift(b, i, m, f, 'E' as u8);
    if json::has(m, f, 'e' as u8) || json::has(m, f, 'E' as u8) {
        lemma_has_lift(b, i, m, f + 1, '+' as u8);
        lemma_has_lift(b, i, m, f + 1, '-' as u8);
        let g = if json::has(m, f + 1, '+' as u8) || json::has(m, f + 1, '-' as u8) {
            f + 2
        } else {
            f + 1
        };
        lemma_digits_lift(b, i, m, g);
    }
    let end = i + m.len();
    let read = Seq::new((end - i) as nat, |k: int| b[i + k] as char);
    assert forall|k: int| 0 <= k < s.len() implies read[k] == s[k] by {
        assert(b[i + k] == m[k]);
        assert(m[k] == s[k] as u8);
        assert('\0' <= s[k] <= '\u{7f}');
    }
    assert(read =~= s);
}

/// A literal is read back.
proof fn lemma_literal_read(t: Seq<char>, n: int, literal: Seq<char>, value: Json)
    requires
        stands(t, n, literal),
    ensures
        json::literal_at(encode_utf8(t), pos(t, n), literal, value) == Ok::<
            (Json, int),
            json::Fault,
        >((value, pos(t, n + literal.len()))),
{
    let b = encode_utf8(t);
    let head = t.take(n);
    let tail = t.skip(n + literal.len());
    let e = encode_utf8(literal);
    assert(t =~= head + (literal + tail));
    text::lemma_encode_concat(head, literal + tail);
    text::lemma_encode_concat(literal, tail);
    assert(t.take(n + literal.len()) =~= head + literal);
    text::lemma_encode_concat(head, literal);
    assert(b.skip(pos(t, n)).subrange(0, e.len() as int) =~= e);
}

// ---------------------------------------------------------------------------
// Reading documents back
// ---------------------------------------------------------------------------

/// A written document starts with a character that is no white space.
proof fn lemma_written_start(doc: Doc)
    requires
        is_sound(doc),
    ensures
        written(doc).len() > 0,
        '!' <= written(doc)[0] <= '\u{7f}',
        written(doc)[0] != ']' && written(doc)[0] != '}',
        doc is Number ==> written(doc)[0] == '-' || text::is_digit(written(doc)[0]),
{
    reveal_strlit("null");
    reveal_strlit("true");
    reveal_strlit("false");
    match doc {
        Doc::Number(numeral) => {
            let w = written_whole(numeral);
            assert(written(doc)[0] == w[0]);
            if !numeral.minus {
                assert(text::is_digit(numeral.whole[0]));
            }
        },
        _ => {},
    }
}

/// The first character of a document that stands in a text decides how it is read.
proof fn lemma_first_character(t: Seq<char>, n: int, c: char)
    requires
        0 <= n < t.len(),
        t[n] == c,
        '!' <= c <= '\u{7f}',
    ensures
        ({
            let b = encode_utf8(t);
            let i = pos(t, n);
            &&& c == 'n' ==> json::value_at(b, i) == json::literal_at(b, i, "null"@, Json::Null)
            &&& c == 't' ==> json::value_at(b, i) == json::literal_at(
                b,
                i,
                "true"@,
                Json::Bool(true),
            )
            &&& c == 'f' ==> json::value_at(b, i) == json::literal_at(
                b,
                i,
                "false"@,
                Json::Bool(false),
            )
            &&& c == '"' ==> json::value_at(b, i) == (match json::string_at(b, i) {
                Ok((s, j)) => Ok((Json::Text(s), j)),
                Err(f) => Err(f),
            })
            &&& c == '{' ==> json::value_at(b, i) == json::object_at(b, i)
            &&& c == '[' ==> json::value_at(b, i) == json::array_at(b, i)
            &&& c == '-' || text::is_digit(c) ==> json::value_at(b, i) == json::number_at(b, i)
        }),
{
    lemma_no_white_space(t, n);
    lemma_pos_ascii(t, n);
}

/// A document without parts that stands in a text is read back.
proof fn lemma_scalar_read(t: Seq<char>, n: int, doc: Doc)
    requires
        !(doc is Array) && !(doc is Object),
        is_sound(doc),
        stands(t, n, written(doc)),
        doc is Number ==> ends_at(t, n + written(doc).len()),
    ensures
        json::value_at(encode_utf8(t), pos(t, n)) == Ok::<(Json, int), json::Fault>(
            (meaning(doc), pos(t, n + written(doc).len())),
        ),
{
    let w = written(doc);
    reveal_strlit("null");
    reveal_strlit("true");
    reveal_strlit("false");
    lemma_written_start(doc);
    assert(t.subrange(n, n + w.len())[0] == t[n]);
    lemma_first_character(t, n, w[0]);
    match doc {
        Doc::Null => {
            lemma_literal_read(t, n, w, Json::Null);
        },
        Doc::Bool(v) => {
            lemma_literal_read(t, n, w, Json::Bool(v));
        },
        Doc::Number(numeral) => {
            lemma_numeral(numeral);
            lemma_number_read(t, n, w);
        },
        Doc::Text(pieces) => {
            lemma_text_read(t, n, pieces);
        },
        _ => {},
    }
}

/// A document that stands in a text is read back.
proof fn lemma_value_read(t: Seq<char>, n: int, doc: Doc)
    requires
        is_sound(doc),
        stands(t, n, written(doc)),
        doc is Number ==> ends_at(t, n + written(doc).len()),
    ensures
        json::value_at(encode_utf8(t), pos(t, n)) == Ok::<(Json, int), json::Fault>(
            (meaning(doc), pos(t, n + written(doc).len())),
        ),
    decreases doc, 0nat,
{
    let w = written(doc);
    match doc {
        Doc::Array { white, items } => {
            if items.len() == 0 {
                lemma_empty_read(t, n, white, '[', ']');
                assert(meanings(items) =~= seq![]);
            } else {
                lemma_array_read(t, n, items);
            }
            assert(t.subrange(n, n + w.len())[0] == t[n]);
            lemma_first_character(t, n, '[');
        },
        Doc::Object { white, members } => {
            if members.len() == 0 {
                lemma_empty_read(t, n, white, '{', '}');
            } else {
                lemma_object_read(t, n, members);
            }
            assert(t.subrange(n, n + w.len())[0] == t[n]);
            lemma_first_character(t, n, '{');
        },
        _ => {
            lemma_scalar_read(t, n, doc);
        },
    }
}

/// White space between two brackets is skipped.
proof fn lemma_empty_read(t: Seq<char>, n: int, white: Seq<char>, open: char, close: char)
    requires
        is_white(white),
        stands(t, n, seq![open] + white + seq![close]),
        (open == '[' && close == ']') || (open == '{' && close == '}'),
    ensures
        ({
            let b = encode_utf8(t);
            let i = pos(t, n);
            let end = pos(t, n + white.len() + 2);
            &&& json::has(b, i, open as u8)
            &&& json::has(b, json::ws_end(b, i + 1), close as u8)
            &&& json::ws_end(b, i + 1) + 1 == end
        }),
{
    let at = n + 1 + white.len();
    assert(seq![open] + white + seq![close] =~= seq![open] + (white + seq![close]));
    lemma_stands_concat(t, n, seq![open], white + seq![close]);
    lemma_stands_concat(t, n + 1, white, seq![close]);
    assert(t.subrange(n, n + 1)[0] == t[n]);
    assert(t.subrange(at, at + 1)[0] == t[at]);
    lemma_pos_ascii(t, n);
    lemma_pos_ascii(t, at);
    lemma_white_skipped(t, n + 1, white);
    lemma_no_white_space(t, at);
}

/// A value with white space around it is read back, and the white space is skipped.
proof fn lemma_item_read(t: Seq<char>, n: int, item: Item)
    requires
        is_white(item.before) && is_white(item.after),
        is_sound(item.doc),
        stands(t, n, written_item(item)),
        ends_at(t, n + written_item(item).len()),
    ensures
        ({
            let b = encode_utf8(t);
            let k = pos(t, n + item.before.len() + written(item.doc).len());
            &&& json::value_at(b, pos(t, n)) == Ok::<(Json, int), json::Fault>(
                (meaning(item.doc), k),
            )
            &&& json::ws_end(b, k) == json::ws_end(b, pos(t, n + written_item(item).len()))
            &&& json::ws_end(b, pos(t, n)) == pos(t, n + item.before.len())
            &&& json::ws_end(b, pos(t, n)) < k
            &&& !json::has(b, json::ws_end(b, pos(t, n)), ']' as u8)
        }),
    decreases item, 1nat,
{
    let b = encode_utf8(t);
    let w = written(item.doc);
    let start = n + item.before.len();
    let end = start + w.len();
    lemma_stands_concat(t, n, item.before, w + item.after);
    lemma_stands_concat(t, start, w, item.after);
    lemma_written_start(item.doc);
    assert(t.subrange(start, end)[0] == t[start]);
    lemma_white_skipped(t, n, item.before);
    lemma_no_white_space(t, start);
    lemma_pos_ascii(t, start);
    if item.after.len() > 0 {
        assert(t.subrange(end, end + item.after.len())[0] == t[end]);
        assert(is_white_char(item.after[0]));
    }
    lemma_value_read(t, start, item.doc);
    lemma_value_behind_white(b, pos(t, n), pos(t, start));
    lemma_white_skipped(t, end, item.after);
    lemma_pos_grows(t, start, end);
}

/// An array with elements is read back.
proof fn lemma_array_read(t: Seq<char>, n: int, items: Seq<Item>)
    requires
        items.len() > 0,
        are_sound(items),
        stands(t, n, seq!['['] + written_items(items) + seq![']']),
    ensures
        json::array_at(encode_utf8(t), pos(t, n)) == Ok::<(Json, int), json::Fault>(
            (Json::Array(meanings(items)), pos(t, n + written_items(items).len() + 2)),
        ),
    decreases items, 2nat,
{
    let b = encode_utf8(t);
    let inner = written_items(items);
    assert(seq!['['] + inner + seq![']'] =~= seq!['['] + (inner + seq![']']));
    lemma_stands_concat(t, n, seq!['['], inner + seq![']']);
    assert(t.subrange(n, n + 1)[0] == t[n]);
    lemma_pos_ascii(t, n);
    let i = json::ws_end(b, pos(t, n + 1));
    lemma_white_skipped_twice(b, pos(t, n + 1));
    lemma_items_read(t, n + 1, i, items, seq![]);
    assert(Seq::<Json>::empty() + meanings(items) =~= meanings(items));
}

/// Behind white space there is none.
pub(crate) proof fn lemma_white_skipped_twice(b: Seq<u8>, i: int)
    ensures
        json::ws_end(b, json::ws_end(b, i)) == json::ws_end(b, i),
    decreases json::left(b, i),
{
    if i < b.len() && json::is_ws(b[i]) {
        lemma_white_skipped_twice(b, i + 1);
    }
}

/// An object with members is read back.
proof fn lemma_object_read(t: Seq<char>, n: int, members: Seq<Member>)
    requires
        members.len() > 0,
        members_are_sound(members),
        stands(t, n, seq!['{'] + written_members(members) + seq!['}']),
    ensures
        json::object_at(encode_utf8(t), pos(t, n)) == Ok::<(Json, int), json::Fault>(
            (
                Json::Object(with_members(Map::empty(), members)),
                pos(t, n + written_members(members).len() + 2),
            ),
        ),
    decreases members, 2nat,
{
    let b = encode_utf8(t);
    let inner = written_members(members);
    assert(seq!['{'] + inner + seq!['}'] =~= seq!['{'] + (inner + seq!['}']));
    lemma_stands_concat(t, n, seq!['{'], inner + seq!['}']);
    assert(t.subrange(n, n + 1)[0] == t[n]);
    lemma_pos_ascii(t, n);
    let i = json::ws_end(b, pos(t, n + 1));
    lemma_white_skipped_twice(b, pos(t, n + 1));
    lemma_members_read(t, n + 1, i, members, Map::empty());
}

/// The elements of an array, and the bracket behind them, are read back.
proof fn lemma_items_read(t: Seq<char>, n: int, i: int, items: Seq<Item>, done: Seq<Json>)
    requires
        items.len() > 0,
        are_sound(items),
        stands(t, n, written_items(items) + seq![']']),
        json::ws_end(encode_utf8(t), i) == json::ws_end(encode_utf8(t), pos(t, n)),
    ensures
        json::elements_at(encode_utf8(t), i, done) == Ok::<(Json, int), json::Fault>(
            (Json::Array(done + meanings(items)), pos(t, n + written_items(items).len() + 1)),
        ),
        !json::has(encode_utf8(t), json::ws_end(encode_utf8(t), i), ']' as u8),
    decreases items, 0nat,
{
    let b = encode_utf8(t);
    let first = items[0];
    let w = written_item(first);
    let rest = items.subrange(1, items.len() as int);
    let mid = n + w.len();
    let tail = if items.len() == 1 {
        seq![']']
    } else {
        seq![','] + (written_items(rest) + seq![']'])
    };
    assert(written_items(items) + seq![']'] =~= w + tail);
    lemma_stands_concat(t, n, w, tail);
    assert(t.subrange(mid, mid + tail.len())[0] == t[mid]);
    lemma_item_read(t, n, first);
    lemma_value_behind_white(b, i, pos(t, n));
    json::lemma_ws_end(b, i);
    lemma_pos_ascii(t, mid);
    lemma_no_white_space(t, mid);
    if items.len() == 1 {
        assert(meanings(rest) =~= seq![]);
        assert(done.push(meaning(first.doc)) =~= done + meanings(items));
    } else {
        lemma_stands_concat(t, mid, seq![','], written_items(rest) + seq![']']);
        lemma_items_read(t, mid + 1, pos(t, mid + 1), rest, done.push(meaning(first.doc)));
        assert(done.push(meaning(first.doc)) + meanings(rest) =~= done + meanings(items));
    }
}

/// The name of a member, and the colon behind it, are read back.
proof fn lemma_name_read(t: Seq<char>, n: int, i: int, member: Member)
    requires
        is_white(member.before) && is_white(member.after),
        are_pieces(member.name),
        stands(t, n, written_name(member)),
        json::ws_end(encode_utf8(t), i) == json::ws_end(encode_utf8(t), pos(t, n)),
    ensures
        json::name_at(encode_utf8(t), i) == Ok::<(Seq<char>, int), json::Fault>(
            (text_of(member.name), pos(t, n + written_name(member).len())),
        ),
        !json::has(encode_utf8(t), json::ws_end(encode_utf8(t), i), '}' as u8),
{
    let label = written_text(member.name);
    let start = n + member.before.len();
    let end = start + label.len();
    let colon = end + member.after.len();
    lemma_stands_concat(t, n, member.before, label + (member.after + seq![':']));
    lemma_stands_concat(t, start, label, member.after + seq![':']);
    lemma_stands_concat(t, end, member.after, seq![':']);
    assert(t.subrange(colon, colon + 1)[0] == t[colon]);
    lemma_white_skipped(t, n, member.before);
    lemma_text_read(t, start, member.name);
    lemma_no_white_space(t, start);
    lemma_pos_ascii(t, start);
    lemma_white_skipped(t, end, member.after);
    lemma_no_white_space(t, colon);
    lemma_pos_ascii(t, colon);
}

/// The members of an object, and the brace behind them, are read back.
proof fn lemma_members_read(
    t: Seq<char>,
    n: int,
    i: int,
    members: Seq<Member>,
    done: Map<Seq<char>, Json>,
)
    requires
        members.len() > 0,
        members_are_sound(members),
        stands(t, n, written_members(members) + seq!['}']),
        json::ws_end(encode_utf8(t), i) == json::ws_end(encode_utf8(t), pos(t, n)),
    ensures
        json::members_at(encode_utf8(t), i, done) == Ok::<(Json, int), json::Fault>(
            (
                Json::Object(with_members(done, members)),
                pos(t, n + written_members(members).len() + 1),
            ),
        ),
        !json::has(encode_utf8(t), json::ws_end(encode_utf8(t), i), '}' as u8),
    decreases members, 0nat,
{
    let b = encode_utf8(t);
    let first = members[0];
    let label = written_name(first);
    let w = written_item(first.value);
    let rest = members.subrange(1, members.len() as int);
    let start = n + label.len();
    let mid = start + w.len();
    let tail = if members.len() == 1 {
        seq!['}']
    } else {
        seq![','] + (written_members(rest) + seq!['}'])
    };
    assert(written_members(members) + seq!['}'] =~= label + (w + tail));
    lemma_stands_concat(t, n, label, w + tail);
    lemma_stands_concat(t, start, w, tail);
    assert(t.subrange(mid, mid + tail.len())[0] == t[mid]);
    lemma_name_read(t, n, i, first);
    assert(decreases_to!(members => members[0]));
    lemma_item_read(t, start, first.value);
    json::lemma_ws_end(b, pos(t, start));
    lemma_pos_ascii(t, mid);
    lemma_no_white_space(t, mid);
    let more = done.insert(text_of(first.name), meaning(first.value.doc));
    if members.len() == 1 {
        assert(with_members(more, rest) == more);
    } else {
        lemma_stands_concat(t, mid, seq![','], written_members(rest) + seq!['}']);
        lemma_members_read(t, mid + 1, pos(t, mid + 1), rest, more);
    }
}

/// Later characters stand at later positions.
pub(crate) proof fn lemma_pos_grows(t: Seq<char>, m: int, n: int)
    requires
        0 <= m < n <= t.len(),
    ensures
        pos(t, m) < pos(t, n),
    decreases n - m,
{
    lemma_pos_char(t, m);
    if m + 1 < n {
        lemma_pos_grows(t, m + 1, n);
    }
}

// ---------------------------------------------------------------------------
// Laws
// ---------------------------------------------------------------------------

/// A JSON document is read back, in each of the ways in which its value can be written, and with
/// white space around it.
pub proof fn law_written_document_reads_back(before: Seq<char>, doc: Doc, after: Seq<char>)
    requires
        is_sound(doc),
        is_white(before),
        is_white(after),
    ensures
        json::json_of(before + written(doc) + after) == Ok::<Json, Seq<char>>(meaning(doc)),
{
    let item = Item { before, doc, after };
    let t = before + written(doc) + after;
    assert(t =~= written_item(item));
    assert(t.subrange(0, t.len() as int) =~= t);
    lemma_pos_end(t);
    lemma_item_read(t, 0, item);
    lemma_no_white_space(t, t.len() as int);
}

/// One way in which the character `c` can be written in a string.
pub open spec fn piece_of(c: char) -> Piece {
    if c == '"' || c == '\\' {
        Piece::Short(c)
    } else if c <= '\u{1f}' {
        Piece::Code(
            seq![
                '0',
                '0',
                percent::hex_digit(c as nat / 16) as char,
                percent::hex_digit(c as nat % 16) as char,
            ],
        )
    } else {
        Piece::Raw(c)
    }
}

/// The piece of a character stands for the character.
proof fn lemma_piece_of(c: char)
    ensures
        is_piece(piece_of(c)),
        piece_char(piece_of(c)) == c,
{
    text::lemma_char_bound(c);
    if c <= '\u{1f}' {
        let hi = c as nat / 16;
        let lo = c as nat % 16;
        assert(hi < 2 && lo < 16);
        let h = percent::hex_digit(hi) as char;
        let l = percent::hex_digit(lo) as char;
        assert(percent::is_hex_char(h) && hex_value(h) == hi);
        assert(percent::is_hex_char(l) && hex_value(l) == lo);
        assert(percent::is_hex_char('0') && hex_value('0') == 0);
        assert(hi * 16 + lo == c as nat);
    }
}

/// Each text can be written as a string.
pub proof fn law_each_text_can_be_written(s: Seq<char>)
    ensures
        are_pieces(s.map_values(|c: char| piece_of(c))),
        text_of(s.map_values(|c: char| piece_of(c))) == s,
{
    let pieces = s.map_values(|c: char| piece_of(c));
    assert forall|i: int| 0 <= i < pieces.len() implies is_piece(#[trigger] pieces[i]) by {
        lemma_piece_of(s[i]);
    }
    assert forall|i: int| 0 <= i < s.len() implies text_of(pieces)[i] == s[i] by {
        lemma_piece_of(s[i]);
    }
    assert(text_of(pieces) =~= s);
}

/// How many white space characters `t` starts with.
pub open spec fn white_len(t: Seq<char>) -> nat
    decreases t.len(),
{
    if t.len() > 0 && is_white_char(t[0]) {
        1 + white_len(t.skip(1))
    } else {
        0
    }
}

/// What white space a text starts with.
proof fn lemma_white_len(t: Seq<char>)
    ensures
        white_len(t) <= t.len(),
        is_white(t.take(white_len(t) as int)),
        white_len(t) < t.len() ==> !is_white_char(t[white_len(t) as int]),
        white_len(t) == t.len() ==> is_white(t),
    decreases t.len(),
{
    if t.len() > 0 && is_white_char(t[0]) {
        let rest = t.skip(1);
        let n = white_len(t) as int;
        lemma_white_len(rest);
        assert forall|i: int| 0 <= i < n implies is_white_char(#[trigger] t.take(n)[i]) by {
            if i > 0 {
                assert(rest.take(n - 1)[i - 1] == t[i]);
            }
        }
        if n == t.len() {
            assert(t.take(n) =~= t);
        }
    }
}

/// A document is refused that is followed by anything but white space. (What follows a number may
/// be more of the number.)
pub proof fn law_trailing_data_refused(before: Seq<char>, doc: Doc, t: Seq<char>)
    requires
        is_sound(doc),
        !(doc is Number),
        is_white(before),
        !is_white(t),
    ensures
        json::json_of(before + written(doc) + t) == Err::<Json, Seq<char>>(
            json::fault(
                "unexpected trailing JSON data"@,
                encode_utf8(before + written(doc) + t.take(white_len(t) as int)).len() as int,
            ).message,
        ),
{
    let w = written(doc);
    let all = before + w + t;
    let b = encode_utf8(all);
    let after = t.take(white_len(t) as int);
    let start = before.len() as int;
    let end = start + w.len();
    let stop = end + after.len();
    lemma_white_len(t);
    assert(all.subrange(0, start) =~= before);
    assert(all.subrange(start, end) =~= w);
    assert(all.subrange(end, stop) =~= after);
    assert(all.take(stop) =~= before + w + after);
    assert(all[stop] == t[after.len() as int]);
    lemma_pos_end(all);
    lemma_written_start(doc);
    assert(all[start] == w[0]);
    lemma_white_skipped(all, 0, before);
    lemma_no_white_space(all, start);
    lemma_value_read(all, start, doc);
    lemma_value_behind_white(b, pos(all, 0), pos(all, start));
    lemma_white_skipped(all, end, after);
    lemma_no_white_space(all, stop);
    lemma_pos_char(all, stop);
}

} // verus!
