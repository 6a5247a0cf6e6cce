//! That nothing but JSON documents is read as one.
use crate::documents;
use crate::documents::{Doc, Exponent, Item, Member, Numeral, Piece};
use crate::json;
use crate::json::Json;
use crate::percent;
use crate::text;
use vstd::prelude::*;
use vstd::utf8::*;

verus! {

// ---------------------------------------------------------------------------
// Characters and bytes
// ---------------------------------------------------------------------------

/// The byte at the position of a character tells which ASCII character it is, if any.
proof fn lemma_here(t: Seq<char>, n: int)
    requires
        0 <= n <= t.len(),
    ensures
        (n < t.len()) == (documents::pos(t, n) < encode_utf8(t).len()),
        0 <= documents::pos(t, n) <= encode_utf8(t).len(),
        n < t.len() && t[n] <= '\u{7f}' ==> encode_utf8(t)[documents::pos(t, n)] == t[n] as u8
            && documents::pos(t, n + 1) == documents::pos(t, n) + 1,
        n < t.len() && t[n] > '\u{7f}' ==> encode_utf8(t)[documents::pos(t, n)] >= 0x80,
        n < t.len() ==> '\0' <= t[n],
{
    documents::lemma_pos_end(t);
    if n < t.len() {
        let c = t[n];
        documents::lemma_pos_char(t, n);
        text::lemma_encode_char(c);
        text::lemma_char_bound(c);
        char_is_scalar(c);
        let e = encode_scalar(c as u32);
        assert(encode_utf8(t).skip(documents::pos(t, n))[0] == e[0]);
        if c <= '\u{7f}' {
            documents::lemma_pos_ascii(t, n);
        }
    }
}

/// A piece of a text with one more character.
proof fn lemma_one_more(t: Seq<char>, n: int, m: int)
    requires
        0 <= n <= m < t.len(),
    ensures
        t.subrange(n, m + 1) == t.subrange(n, m).push(t[m]),
        t.subrange(m, m + 1) == seq![t[m]],
        t.subrange(m, m) == Seq::<char>::empty(),
{
    assert(t.subrange(n, m + 1) =~= t.subrange(n, m).push(t[m]));
    assert(t.subrange(m, m + 1) =~= seq![t[m]]);
    assert(t.subrange(m, m) =~= Seq::<char>::empty());
}

/// Pieces of a text that follow each other.
proof fn lemma_pieces(t: Seq<char>, a: int, b: int, c: int)
    requires
        0 <= a <= b <= c <= t.len(),
    ensures
        t.subrange(a, c) == t.subrange(a, b) + t.subrange(b, c),
{
    assert(t.subrange(a, c) =~= t.subrange(a, b) + t.subrange(b, c));
}

/// Where white space ends.
proof fn white_back(t: Seq<char>, n: int) -> (m: int)
    requires
        0 <= n <= t.len(),
    ensures
        n <= m <= t.len(),
        documents::pos(t, m) == json::ws_end(encode_utf8(t), documents::pos(t, n)),
        documents::is_white(t.subrange(n, m)),
    decreases t.len() - n,
{
    let b = encode_utf8(t);
    lemma_here(t, n);
    if n < t.len() && json::is_ws(b[documents::pos(t, n)]) {
        let m = white_back(t, n + 1);
        let s = t.subrange(n, m);
        assert forall|i: int| 0 <= i < s.len() implies documents::is_white_char(#[trigger] s[i]) by {
            if i > 0 {
                assert(t.subrange(n + 1, m)[i - 1] == s[i]);
            }
        }
        m
    } else {
        n
    }
}

/// Where digits end.
proof fn digits_back(t: Seq<char>, n: int) -> (m: int)
    requires
        0 <= n <= t.len(),
    ensures
        n <= m <= t.len(),
        documents::pos(t, m) == json::digits_end(encode_utf8(t), documents::pos(t, n)),
        text::all_digits(t.subrange(n, m)),
        m - n == documents::pos(t, m) - documents::pos(t, n),
    decreases t.len() - n,
{
    let b = encode_utf8(t);
    lemma_here(t, n);
    if n < t.len() && json::is_digit_byte(b[documents::pos(t, n)]) {
        let m = digits_back(t, n + 1);
        let s = t.subrange(n, m);
        assert forall|i: int| 0 <= i < s.len() implies text::is_digit(#[trigger] s[i]) by {
            if i > 0 {
                assert(t.subrange(n + 1, m)[i - 1] == s[i]);
            }
        }
        m
    } else {
        n
    }
}

// ---------------------------------------------------------------------------
// Literals and numbers
// ---------------------------------------------------------------------------

/// Where the bytes of an ASCII text stand, the text stands.
proof fn lemma_literal_back(t: Seq<char>, n: int, literal: Seq<char>, k: int)
    requires
        0 <= n <= t.len(),
        is_ascii_chars(literal),
        encode_utf8(literal).is_prefix_of(encode_utf8(t).skip(documents::pos(t, n))),
        0 <= k <= literal.len(),
    ensures
        n + k <= t.len(),
        documents::pos(t, n + k) == documents::pos(t, n) + k,
        t.subrange(n, n + k) == literal.take(k),
    decreases k,
{
    let b = encode_utf8(t);
    let e = encode_utf8(literal);
    let i = documents::pos(t, n);
    is_ascii_chars_encode_utf8(literal);
    lemma_here(t, n);
    if k > 0 {
        lemma_literal_back(t, n, literal, k - 1);
        let at = n + k - 1;
        lemma_here(t, at);
        assert(b.skip(i).subrange(0, e.len() as int)[k - 1] == e[k - 1]);
        assert(b[i + k - 1] == e[k - 1]);
        assert(e[k - 1] == literal[k - 1] as u8);
        assert('\0' <= literal[k - 1] <= '\u{7f}');
        assert(t[at] == literal[k - 1]);
        lemma_one_more(t, n, at);
        assert(literal.take(k) =~= literal.take(k - 1).push(literal[k - 1]));
    } else {
        assert(t.subrange(n, n) =~= literal.take(0));
    }
}

/// What is read as a number is one.
proof fn number_back(t: Seq<char>, n: int, k: int) -> (r: (Numeral, int))
    requires
        0 <= n < t.len(),
        t[n] == '-' || text::is_digit(t[n]),
        json::number_at(encode_utf8(t), documents::pos(t, n)) matches Ok((_, j)) && j == k,
    ensures
        documents::is_numeral(r.0),
        n < r.1 <= t.len(),
        documents::pos(t, r.1) == k,
        t.subrange(n, r.1) == documents::written_number(r.0),
{
    let b = encode_utf8(t);
    lemma_here(t, n);
    let minus = t[n] == '-';
    let w = if minus {
        n + 1
    } else {
        n
    };
    lemma_here(t, w);
    let f = digits_back(t, w);
    let whole = t.subrange(w, f);
    lemma_here(t, f);
    let dot = f < t.len() && t[f] == '.';
    let g = if dot {
        lemma_here(t, f + 1);
        digits_back(t, f + 1)
    } else {
        f
    };
    let fraction = if dot {
        Some(t.subrange(f + 1, g))
    } else {
        None
    };
    lemma_here(t, g);
    let power = g < t.len() && (t[g] == 'e' || t[g] == 'E');
    let signed = power && g + 1 < t.len() && (t[g + 1] == '+' || t[g + 1] == '-');
    if power {
        lemma_here(t, g + 1);
    }
    let d = if signed {
        g + 2
    } else {
        g + 1
    };
    let end = if power {
        lemma_here(t, d);
        digits_back(t, d)
    } else {
        g
    };
    let exponent = if power {
        Some(
            Exponent {
                letter: t[g],
                sign: if signed {
                    Some(t[g + 1])
                } else {
                    None
                },
                digits: t.subrange(d, end),
            },
        )
    } else {
        None
    };
    let numeral = Numeral { minus, whole, fraction, exponent };
    if !minus {
        assert(whole.len() > 0) by {
            assert(json::is_digit_byte(b[documents::pos(t, n)]));
            if f == n {
                assert(json::digits_end(b, documents::pos(t, n)) != documents::pos(t, n)) by {
                    lemma_digits_go_on(b, documents::pos(t, n));
                }
            }
        }
    }
    lemma_pieces(t, n, f, g);
    lemma_pieces(t, n, g, end);
    assert(t.subrange(n, f) =~= documents::written_whole(numeral)) by {
        if minus {
            lemma_pieces(t, n, n + 1, f);
            lemma_one_more(t, n, n);
        }
    }
    assert(t.subrange(f, g) =~= documents::written_fraction(numeral)) by {
        if dot {
            lemma_pieces(t, f, f + 1, g);
            lemma_one_more(t, f, f);
        }
    }
    assert(t.subrange(g, end) =~= documents::written_exponent(numeral)) by {
        if power {
            lemma_pieces(t, g, d, end);
            if signed {
                assert(t.subrange(g, g + 2) =~= seq![t[g], t[g + 1]]);
            } else {
                lemma_one_more(t, g, g);
            }
        }
    }
    (numeral, end)
}

/// Behind a digit the digits go on.
proof fn lemma_digits_go_on(b: Seq<u8>, i: int)
    requires
        0 <= i < b.len(),
        json::is_digit_byte(b[i]),
    ensures
        json::digits_end(b, i) > i,
{
    lemma_digits_grow(b, i + 1);
}

proof fn lemma_digits_grow(b: Seq<u8>, i: int)
    ensures
        json::digits_end(b, i) >= i,
    decreases json::left(b, i),
{
    if i < b.len() && json::is_digit_byte(b[i]) {
        lemma_digits_grow(b, i + 1);
    }
}

// ---------------------------------------------------------------------------
// Strings
// ---------------------------------------------------------------------------

/// What is read as four hexadecimal digits is four of them.
proof fn lemma_code_back(t: Seq<char>, n: int)
    requires
        0 <= n <= t.len(),
        json::hex4_at(encode_utf8(t), documents::pos(t, n)) is Ok,
    ensures
        n + 4 <= t.len(),
        documents::is_code(t.subrange(n, n + 4)),
        documents::pos(t, n + 4) == documents::pos(t, n) + 4,
        json::hex4_at(encode_utf8(t), documents::pos(t, n)) == Ok::<(nat, int), json::Fault>(
            (documents::code_value(t.subrange(n, n + 4)), documents::pos(t, n + 4)),
        ),
{
    let b = encode_utf8(t);
    let i = documents::pos(t, n);
    lemma_here(t, n);
    reveal_with_fuel(json::hex_digits_at, 5);
    assert(json::hex_digits_at(b, i, 0) == Ok::<(nat, int), json::Fault>((0nat, i)));
    assert(json::hex_digits_at(b, i, 1) is Ok);
    assert(json::hex_digits_at(b, i, 2) is Ok);
    assert(json::hex_digits_at(b, i, 3) is Ok);
    assert(percent::is_hex(b[i]) && percent::is_hex(b[i + 1]) && percent::is_hex(b[i + 2])
        && percent::is_hex(b[i + 3]));
    lemma_here(t, n + 1);
    lemma_here(t, n + 2);
    lemma_here(t, n + 3);
    lemma_here(t, n + 4);
    let h = t.subrange(n, n + 4);
    assert(h[0] == t[n] && h[1] == t[n + 1] && h[2] == t[n + 2] && h[3] == t[n + 3]);
}

/// What is read as an escape is one piece of a string.
proof fn escape_back(t: Seq<char>, n: int, k: int) -> (r: (Piece, int))
    requires
        0 <= n < t.len(),
        t[n] == '\\',
        json::escape_at(encode_utf8(t), documents::pos(t, n) + 1) matches Ok((_, j)) && j == k,
    ensures
        documents::is_piece(r.0),
        n < r.1 <= t.len(),
        documents::pos(t, r.1) == k,
        t.subrange(n, r.1) == documents::written_piece(r.0),
{
    let b = encode_utf8(t);
    lemma_here(t, n);
    lemma_here(t, n + 1);
    let i = documents::pos(t, n) + 1;
    assert(t.subrange(n, n + 2) =~= seq!['\\', t[n + 1]]);
    if b[i] == 'u' as u8 {
        lemma_code_back(t, n + 2);
        let h = t.subrange(n + 2, n + 6);
        lemma_pieces(t, n, n + 2, n + 6);
        lemma_here(t, n + 6);
        if json::is_high_surrogate(documents::code_value(h)) {
            let j = documents::pos(t, n + 6);
            if json::has(b, j, '\\' as u8) && json::has(b, j + 1, 'u' as u8) {
                lemma_here(t, n + 7);
                lemma_code_back(t, n + 8);
                let l = t.subrange(n + 8, n + 12);
                if json::is_low_surrogate(documents::code_value(l)) {
                    lemma_pieces(t, n, n + 6, n + 12);
                    lemma_pieces(t, n + 6, n + 8, n + 12);
                    assert(t.subrange(n + 6, n + 8) =~= seq!['\\', 'u']);
                    (Piece::Pair(h, l), n + 12)
                } else {
                    (Piece::Lone(h), n + 6)
                }
            } else {
                (Piece::Lone(h), n + 6)
            }
        } else {
            (Piece::Code(h), n + 6)
        }
    } else {
        assert(b[i] < 0x80) by {
            assert(json::simple_escape(b[i]) is Some);
        }
        (Piece::Short(t[n + 1]), n + 2)
    }
}

/// A piece before other pieces.
proof fn lemma_add_piece(piece: Piece, rest: Seq<Piece>)
    requires
        documents::is_piece(piece),
        documents::are_pieces(rest),
    ensures
        documents::are_pieces(seq![piece] + rest),
        documents::written_pieces(seq![piece] + rest) == documents::written_piece(piece)
            + documents::written_pieces(rest),
{
    let all = seq![piece] + rest;
    assert forall|j: int| 0 <= j < all.len() implies documents::is_piece(#[trigger] all[j]) by {
        if j > 0 {
            assert(all[j] == rest[j - 1]);
        }
    }
    assert(all.skip(1) =~= rest);
    assert(all[0] == piece);
}

/// What is read up to a closing quote are pieces of a string.
proof fn string_back(t: Seq<char>, n: int, done: Seq<char>, k: int) -> (r: (Seq<Piece>, int))
    requires
        0 <= n <= t.len(),
        json::string_rest(encode_utf8(t), documents::pos(t, n), done) matches Ok((_, j)) && j == k,
    ensures
        documents::are_pieces(r.0),
        n < r.1 <= t.len(),
        documents::pos(t, r.1) == k,
        t.subrange(n, r.1) == documents::written_pieces(r.0) + seq!['"'],
    decreases t.len() - n,
{
    let b = encode_utf8(t);
    let i = documents::pos(t, n);
    lemma_here(t, n);
    if t[n] == '"' {
        lemma_one_more(t, n, n);
        let none = Seq::<Piece>::empty();
        assert(documents::written_pieces(none) + seq!['"'] =~= seq!['"']);
        (none, n + 1)
    } else {
        let (piece, m, next) = if t[n] == '\\' {
            let (c, j) = json::escape_at(b, i + 1)->Ok_0;
            let (piece, m) = escape_back(t, n, j);
            documents::lemma_pos_grows(t, n, m);
            (piece, m, done.push(c))
        } else {
            documents::lemma_pos_char(t, n);
            lemma_one_more(t, n, n);
            assert(t[n] > '\u{1f}') by {
                if t[n] <= '\u{1f}' {
                    assert(b[i] < 0x20);
                }
            }
            (Piece::Raw(t[n]), n + 1, done.push(decode_first_scalar(b.skip(i)) as char))
        };
        let (rest, end) = string_back(t, m, next, k);
        lemma_add_piece(piece, rest);
        lemma_pieces(t, n, m, end);
        let w = documents::written_piece(piece);
        let tail = documents::written_pieces(rest);
        assert((w + tail) + seq!['"'] =~= w + (tail + seq!['"']));
        (seq![piece] + rest, end)
    }
}

/// What is read as a string is one.
proof fn text_back(t: Seq<char>, n: int, k: int) -> (r: (Seq<Piece>, int))
    requires
        0 <= n <= t.len(),
        json::string_at(encode_utf8(t), documents::pos(t, n)) matches Ok((_, j)) && j == k,
    ensures
        documents::are_pieces(r.0),
        n < r.1 <= t.len(),
        documents::pos(t, r.1) == k,
        t.subrange(n, r.1) == documents::written_text(r.0),
        n < t.len() && t[n] == '"',
{
    lemma_here(t, n);
    lemma_here(t, n + 1);
    let (pieces, end) = string_back(t, n + 1, seq![], k);
    lemma_pieces(t, n, n + 1, end);
    lemma_one_more(t, n, n);
    (pieces, end)
}

// ---------------------------------------------------------------------------
// Values
// ---------------------------------------------------------------------------

/// What is read as a value is the writing of a document, with white space before it.
proof fn value_back(t: Seq<char>, n: int, k: int) -> (r: (int, Doc, int))
    requires
        0 <= n <= t.len(),
        json::value_at(encode_utf8(t), documents::pos(t, n)) matches Ok((_, j)) && j == k,
    ensures
        n <= r.0 < r.2 <= t.len(),
        documents::is_white(t.subrange(n, r.0)),
        documents::is_sound(r.1),
        t.subrange(r.0, r.2) == documents::written(r.1),
        documents::pos(t, r.2) == k,
    decreases t.len() - n, 2nat,
{
    let b = encode_utf8(t);
    let s = white_back(t, n);
    let i = documents::pos(t, s);
    lemma_here(t, s);
    reveal_strlit("null");
    reveal_strlit("true");
    reveal_strlit("false");
    if b[i] == 'n' as u8 {
        let w = "null"@;
        lemma_literal_back(t, s, w, 4);
        assert(w.take(4) =~= w);
        is_ascii_chars_encode_utf8(w);
        (s, Doc::Null, s + 4)
    } else if b[i] == 't' as u8 {
        let w = "true"@;
        lemma_literal_back(t, s, w, 4);
        assert(w.take(4) =~= w);
        is_ascii_chars_encode_utf8(w);
        (s, Doc::Bool(true), s + 4)
    } else if b[i] == 'f' as u8 {
        let w = "false"@;
        lemma_literal_back(t, s, w, 5);
        assert(w.take(5) =~= w);
        is_ascii_chars_encode_utf8(w);
        (s, Doc::Bool(false), s + 5)
    } else if b[i] == '"' as u8 {
        let (pieces, m) = text_back(t, s, k);
        (s, Doc::Text(pieces), m)
    } else if b[i] == '{' as u8 {
        let (doc, m) = object_back(t, s, k);
        (s, doc, m)
    } else if b[i] == '[' as u8 {
        let (doc, m) = array_back(t, s, k);
        (s, doc, m)
    } else {
        let (numeral, m) = number_back(t, s, k);
        (s, Doc::Number(numeral), m)
    }
}

/// Reading elements does not depend on the white space before them.
proof fn lemma_elements_behind_white(b: Seq<u8>, i: int, done: Seq<Json>)
    ensures
        json::elements_at(b, json::ws_end(b, i), done) == json::elements_at(b, i, done),
{
    let j = json::ws_end(b, i);
    documents::lemma_white_skipped_twice(b, i);
    documents::lemma_value_behind_white(b, i, j);
    json::lemma_value_advances(b, i);
    json::lemma_value_advances(b, j);
}

/// What is read as an array is one.
proof fn array_back(t: Seq<char>, n: int, k: int) -> (r: (Doc, int))
    requires
        0 <= n < t.len(),
        t[n] == '[',
        json::array_at(encode_utf8(t), documents::pos(t, n)) matches Ok((_, j)) && j == k,
    ensures
        documents::is_sound(r.0),
        n < r.1 <= t.len(),
        t.subrange(n, r.1) == documents::written(r.0),
        documents::pos(t, r.1) == k,
    decreases t.len() - n, 1nat,
{
    let b = encode_utf8(t);
    lemma_here(t, n);
    lemma_here(t, n + 1);
    let none = Seq::<char>::empty();
    let w = white_back(t, n + 1);
    lemma_here(t, w);
    lemma_one_more(t, n, n);
    if json::has(b, documents::pos(t, w), ']' as u8) {
        let white = t.subrange(n + 1, w);
        let items = Seq::<Item>::empty();
        let doc = Doc::Array { white, items };
        lemma_pieces(t, n, n + 1, w);
        lemma_one_more(t, n, w);
        assert(t.subrange(n, w + 1) =~= seq!['['] + white + seq![']']);
        assert(documents::are_sound(items));
        (doc, w + 1)
    } else {
        lemma_elements_behind_white(b, documents::pos(t, n + 1), seq![]);
        let (items, m) = items_back(t, n + 1, seq![], k);
        let doc = Doc::Array { white: none, items };
        lemma_pieces(t, n, n + 1, m);
        let inner = documents::written_items(items);
        assert(seq!['['] + (inner + seq![']']) =~= seq!['['] + inner + seq![']']);
        assert(documents::is_white(none));
        (doc, m)
    }
}

/// One element before others.
proof fn lemma_add_item(item: Item, rest: Seq<Item>)
    requires
        documents::is_white(item.before) && documents::is_white(item.after),
        documents::is_sound(item.doc),
        documents::are_sound(rest),
    ensures
        documents::are_sound(seq![item] + rest),
        documents::written_items(seq![item] + rest) == (if rest.len() == 0 {
            documents::written_item(item)
        } else {
            documents::written_item(item) + seq![','] + documents::written_items(rest)
        }),
{
    let all = seq![item] + rest;
    assert(all[0] == item);
    assert(all.subrange(1, all.len() as int) =~= rest);
}

/// What is read as the elements of an array are elements.
proof fn items_back(t: Seq<char>, n: int, done: Seq<Json>, k: int) -> (r: (Seq<Item>, int))
    requires
        0 <= n <= t.len(),
        json::elements_at(encode_utf8(t), documents::pos(t, n), done) matches Ok((_, j)) && j == k,
    ensures
        r.0.len() > 0,
        documents::are_sound(r.0),
        n < r.1 <= t.len(),
        t.subrange(n, r.1) == documents::written_items(r.0) + seq![']'],
        documents::pos(t, r.1) == k,
    decreases t.len() - n, 3nat,
{
    let b = encode_utf8(t);
    let i = documents::pos(t, n);
    let (v, e) = json::value_at(b, i)->Ok_0;
    let (start, doc, end) = value_back(t, n, e);
    let w = white_back(t, end);
    lemma_here(t, w);
    let item = Item { before: t.subrange(n, start), doc, after: t.subrange(end, w) };
    lemma_pieces(t, n, start, w);
    lemma_pieces(t, start, end, w);
    assert(t.subrange(n, w) == documents::written_item(item));
    lemma_one_more(t, n, w);
    if json::has(b, documents::pos(t, w), ',' as u8) && e > i {
        let (rest, m) = items_back(t, w + 1, done.push(v), k);
        lemma_add_item(item, rest);
        lemma_pieces(t, n, w + 1, m);
        let head = documents::written_item(item);
        let tail = documents::written_items(rest);
        assert(head.push(',') + (tail + seq![']']) =~= (head + seq![','] + tail) + seq![']']);
        (seq![item] + rest, m)
    } else {
        let rest = Seq::<Item>::empty();
        assert(documents::are_sound(rest));
        lemma_add_item(item, rest);
        let head = documents::written_item(item);
        assert(head.push(']') =~= head + seq![']']);
        (seq![item] + rest, w + 1)
    }
}

/// What is read as an object is one.
proof fn object_back(t: Seq<char>, n: int, k: int) -> (r: (Doc, int))
    requires
        0 <= n < t.len(),
        t[n] == '{',
        json::object_at(encode_utf8(t), documents::pos(t, n)) matches Ok((_, j)) && j == k,
    ensures
        documents::is_sound(r.0),
        n < r.1 <= t.len(),
        t.subrange(n, r.1) == documents::written(r.0),
        documents::pos(t, r.1) == k,
    decreases t.len() - n, 1nat,
{
    let b = encode_utf8(t);
    lemma_here(t, n);
    lemma_here(t, n + 1);
    let none = Seq::<char>::empty();
    let w = white_back(t, n + 1);
    lemma_here(t, w);
    lemma_one_more(t, n, n);
    if json::has(b, documents::pos(t, w), '}' as u8) {
        let white = t.subrange(n + 1, w);
        let members = Seq::<Member>::empty();
        let doc = Doc::Object { white, members };
        lemma_pieces(t, n, n + 1, w);
        lemma_one_more(t, n, w);
        assert(t.subrange(n, w + 1) =~= seq!['{'] + white + seq!['}']);
        assert(documents::members_are_sound(members));
        (doc, w + 1)
    } else {
        documents::lemma_white_skipped_twice(b, documents::pos(t, n + 1));
        let (members, m) = members_back(t, n + 1, Map::empty(), k);
        let doc = Doc::Object { white: none, members };
        lemma_pieces(t, n, n + 1, m);
        let inner = documents::written_members(members);
        assert(seq!['{'] + (inner + seq!['}']) =~= seq!['{'] + inner + seq!['}']);
        assert(documents::is_white(none));
        (doc, m)
    }
}

/// One member before others.
proof fn lemma_add_member(member: Member, rest: Seq<Member>)
    requires
        documents::is_white(member.before) && documents::is_white(member.after),
        documents::are_pieces(member.name),
        documents::is_white(member.value.before) && documents::is_white(member.value.after),
        documents::is_sound(member.value.doc),
        documents::members_are_sound(rest),
    ensures
        documents::members_are_sound(seq![member] + rest),
        documents::written_members(seq![member] + rest) == (if rest.len() == 0 {
            documents::written_name(member) + documents::written_item(member.value)
        } else {
            documents::written_name(member) + documents::written_item(member.value) + seq![',']
                + documents::written_members(rest)
        }),
{
    let all = seq![member] + rest;
    assert(all[0] == member);
    assert(all.subrange(1, all.len() as int) =~= rest);
}

/// What is read as the members of an object are members.
proof fn members_back(t: Seq<char>, n: int, done: Map<Seq<char>, Json>, k: int) -> (r: (
    Seq<Member>,
    int,
))
    requires
        0 <= n <= t.len(),
        json::members_at(encode_utf8(t), documents::pos(t, n), done) matches Ok((_, j)) && j == k,
    ensures
        r.0.len() > 0,
        documents::members_are_sound(r.0),
        n < r.1 <= t.len(),
        t.subrange(n, r.1) == documents::written_members(r.0) + seq!['}'],
        documents::pos(t, r.1) == k,
    decreases t.len() - n, 3nat,
{
    let b = encode_utf8(t);
    let i = documents::pos(t, n);
    let (name, j) = json::name_at(b, i)->Ok_0;
    let (label, before, after, c) = name_back(t, n, j);
    let (v, e) = json::value_at(b, j)->Ok_0;
    let (start, doc, end) = value_back(t, c, e);
    let w = white_back(t, end);
    lemma_here(t, w);
    let value = Item { before: t.subrange(c, start), doc, after: t.subrange(end, w) };
    let member = Member { before, name: label, after, value };
    lemma_pieces(t, c, start, w);
    lemma_pieces(t, start, end, w);
    lemma_pieces(t, n, c, w);
    lemma_one_more(t, n, w);
    assert(t.subrange(n, c) == documents::written_name(member));
    assert(t.subrange(c, w) == documents::written_item(value));
    let head = documents::written_name(member) + documents::written_item(value);
    if json::has(b, documents::pos(t, w), ',' as u8) && e > j {
        let (rest, m) = members_back(t, w + 1, done.insert(name, v), k);
        lemma_add_member(member, rest);
        lemma_pieces(t, n, w + 1, m);
        let tail = documents::written_members(rest);
        assert(head.push(',') + (tail + seq!['}']) =~= (head + seq![','] + tail) + seq!['}']);
        (seq![member] + rest, m)
    } else {
        let rest = Seq::<Member>::empty();
        assert(documents::members_are_sound(rest));
        lemma_add_member(member, rest);
        assert(head.push('}') =~= head + seq!['}']);
        (seq![member] + rest, w + 1)
    }
}

/// What is read as the name of a member is one, with white space around it and a colon behind it.
proof fn name_back(t: Seq<char>, n: int, k: int) -> (r: (Seq<Piece>, Seq<char>, Seq<char>, int))
    requires
        0 <= n <= t.len(),
        json::name_at(encode_utf8(t), documents::pos(t, n)) matches Ok((_, j)) && j == k,
    ensures
        documents::are_pieces(r.0),
        documents::is_white(r.1) && documents::is_white(r.2),
        n < r.3 <= t.len(),
        t.subrange(n, r.3) == r.1 + (documents::written_text(r.0) + (r.2 + seq![':'])),
        documents::pos(t, r.3) == k,
{
    let b = encode_utf8(t);
    let s = white_back(t, n);
    let (_, j) = json::string_at(b, documents::pos(t, s))->Ok_0;
    let (pieces, e) = text_back(t, s, j);
    let w = white_back(t, e);
    lemma_here(t, w);
    lemma_pieces(t, n, s, w + 1);
    lemma_pieces(t, s, e, w + 1);
    lemma_pieces(t, e, w, w + 1);
    lemma_one_more(t, e, w);
    (pieces, t.subrange(n, s), t.subrange(e, w), w + 1)
}

// ---------------------------------------------------------------------------
// Laws
// ---------------------------------------------------------------------------

/// Whether `t` is the writing of `doc`, with white space around it.
pub open spec fn is_writing(t: Seq<char>, before: Seq<char>, doc: Doc, after: Seq<char>) -> bool {
    &&& documents::is_sound(doc)
    &&& documents::is_white(before)
    &&& documents::is_white(after)
    &&& t == before + documents::written(doc) + after
}

/// A text is read as a JSON document exactly where it is the writing of one, with white space
/// around it, and what is read is what the document means.
pub proof fn law_only_documents_are_read(t: Seq<char>)
    ensures
        json::json_of(t) is Ok <==> exists|before: Seq<char>, doc: Doc, after: Seq<char>| #[trigger]
            is_writing(t, before, doc, after),
        forall|before: Seq<char>, doc: Doc, after: Seq<char>| #[trigger]
            is_writing(t, before, doc, after) ==> json::json_of(t) == Ok::<Json, Seq<char>>(
                documents::meaning(doc),
            ),
{
    let b = encode_utf8(t);
    assert forall|before: Seq<char>, doc: Doc, after: Seq<char>| #[trigger]
        is_writing(t, before, doc, after) implies json::json_of(t) == Ok::<Json, Seq<char>>(
        documents::meaning(doc),
    ) by {
        documents::law_written_document_reads_back(before, doc, after);
    }
    if json::json_of(t) is Ok {
        documents::lemma_pos_end(t);
        let (v, k) = json::value_at(b, 0)->Ok_0;
        let (s, doc, e) = value_back(t, 0, k);
        let w = white_back(t, e);
        lemma_here(t, w);
        assert(w == t.len());
        lemma_pieces(t, 0, s, w);
        lemma_pieces(t, s, e, w);
        let before = t.subrange(0, s);
        let after = t.subrange(e, w);
        assert(t.subrange(0, w) =~= t);
        assert(before + (documents::written(doc) + after) =~= before + documents::written(doc)
            + after);
        assert(is_writing(t, before, doc, after));
    }
}

/// A fault is told with the place of the byte at which reading stopped.
pub proof fn law_faults_name_their_place(message: Seq<char>, at: nat)
    ensures
        json::fault(message, at as int).message == message + " at byte "@ + text::decimal(at),
{
}

/// A text of white space alone ends too early.
pub proof fn law_blank_text_is_no_document(t: Seq<char>)
    requires
        documents::is_white(t),
    ensures
        json::json_of(t) == Err::<Json, Seq<char>>(
            "unexpected end of JSON"@ + " at byte "@ + text::decimal(t.len()),
        ),
{
    let n = t.len() as int;
    assert forall|i: int| 0 <= i < t.len() implies '\0' <= #[trigger] t[i] <= '\u{7f}' by {
        assert(documents::is_white_char(t[i]));
    }
    is_ascii_chars_encode_utf8(t);
    documents::lemma_pos_end(t);
    assert(t.subrange(0, n) =~= t);
    documents::lemma_white_skipped(t, 0, t);
    documents::lemma_no_white_space(t, n);
}

/// Whether a value may start with `c`.
pub open spec fn may_start_value(c: char) -> bool {
    ||| c == 'n' || c == 't' || c == 'f' || c == '"' || c == '{' || c == '[' || c == '-'
    ||| '0' <= c <= '9'
}

/// A text that starts with anything but a value, white space aside, is refused there.
pub proof fn law_no_value_no_document(before: Seq<char>, c: char, rest: Seq<char>)
    requires
        documents::is_white(before),
        !documents::is_white_char(c),
        !may_start_value(c),
    ensures
        json::json_of(before + seq![c] + rest) == Err::<Json, Seq<char>>(
            "unexpected JSON value"@ + " at byte "@ + text::decimal(before.len()),
        ),
{
    let t = before + seq![c] + rest;
    let n = before.len() as int;
    assert forall|i: int| 0 <= i < n implies '\0' <= #[trigger] before[i] <= '\u{7f}' by {
        assert(documents::is_white_char(before[i]));
    }
    is_ascii_chars_encode_utf8(before);
    documents::lemma_pos_end(t);
    assert(t.subrange(0, n) =~= before);
    assert(t.take(n) =~= before);
    assert(t[n] == c);
    documents::lemma_white_skipped(t, 0, before);
    documents::lemma_no_white_space(t, n);
    lemma_here(t, n);
}

} // verus!
