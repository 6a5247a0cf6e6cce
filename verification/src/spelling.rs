//! Links that are spelled differently and ask for the same.
use crate::base64;
use crate::link;
use crate::percent;
use crate::text;
use crate::utf;
use vstd::prelude::*;
use vstd::utf8::*;

verus! {

/// Whether a plus sign stands in place of a digit in a percent escape of `p`, up to the first
/// escape that is none.
pub open spec fn plus_in_escape(p: Seq<char>) -> bool
    decreases p.len(),
{
    if p.len() == 0 {
        false
    } else if p[0] != '%' {
        plus_in_escape(p.skip(1))
    } else if p.len() < 3 {
        p.len() == 2 && p[1] == '+'
    } else if !percent::is_hex_char(p[1]) {
        p[1] == '+'
    } else if !percent::is_hex_char(p[2]) {
        p[2] == '+'
    } else {
        plus_in_escape(p.skip(3))
    }
}

/// Whether `t` is `p` with some of its plus signs written as percent escapes or, where `spaces` is
/// set, as spaces.
pub open spec fn is_respelling(t: Seq<char>, p: Seq<char>, spaces: bool) -> bool
    decreases p.len(),
{
    if p.len() == 0 {
        t.len() == 0
    } else if p[0] == '+' {
        ||| t.len() > 0 && (t[0] == '+' || (spaces && t[0] == ' ')) && is_respelling(
            t.skip(1),
            p.skip(1),
            spaces,
        )
        ||| t.len() >= 3 && t[0] == '%' && t[1] == '2' && (t[2] == 'B' || t[2] == 'b')
            && is_respelling(t.skip(3), p.skip(1), spaces)
    } else {
        t.len() > 0 && t[0] == p[0] && is_respelling(t.skip(1), p.skip(1), spaces)
    }
}

/// Whether `x` is the byte of a plus sign or of a space.
pub open spec fn is_plus_or_space(x: u8) -> bool {
    x == '+' as u8 || x == ' ' as u8
}

/// Whether `a` and `b` differ at most in that one has a plus sign where the other has a space.
pub open spec fn are_alike(a: Seq<u8>, b: Seq<u8>) -> bool {
    a.len() == b.len() && forall|i: int|
        0 <= i < a.len() ==> (#[trigger] a[i] == b[i] || (is_plus_or_space(a[i])
            && is_plus_or_space(b[i])))
}

/// Whether `a` and `b` are the same message, or bytes that are alike.
spec fn are_alike_results(a: Result<Seq<u8>, Seq<char>>, b: Result<Seq<u8>, Seq<char>>) -> bool {
    match (a, b) {
        (Ok(x), Ok(y)) => are_alike(x, y),
        (Err(x), Err(y)) => x == y,
        _ => false,
    }
}

/// The encoding of a character outside ASCII is longer than one byte.
proof fn lemma_wide_char(c: char)
    ensures
        c > '\u{7f}' ==> encode_scalar(c as u32).len() > 1,
{
    char_is_scalar(c);
}

/// The encoding of a text is that of its first character, and that of the rest.
proof fn lemma_encode_head(s: Seq<char>)
    requires
        s.len() > 0,
    ensures
        encode_utf8(s) == encode_scalar(s[0] as u32) + encode_utf8(s.skip(1)),
        encode_scalar(s[0] as u32).len() > 0,
        s[0] <= '\u{7f}' ==> encode_scalar(s[0] as u32) == seq![s[0] as u8],
        s[0] > '\u{7f}' ==> encode_scalar(s[0] as u32).len() > 1,
        s[0] > '\u{7f}' ==> forall|i: int|
            0 <= i < encode_scalar(s[0] as u32).len() ==> #[trigger] encode_scalar(s[0] as u32)[i]
                >= 0x80,
{
    assert(s.skip(1) == s.drop_first());
    char_is_scalar(s[0]);
    text::lemma_encode_char(s[0]);
    text::lemma_char_bound(s[0]);
    lemma_wide_char(s[0]);
}

/// Bytes without a percent sign stand for themselves, whatever follows.
proof fn lemma_unescaped_after(a: Seq<u8>, rest: Seq<u8>)
    requires
        forall|i: int| 0 <= i < a.len() ==> #[trigger] a[i] != '%' as u8,
    ensures
        percent::unescaped(a + rest) == (match percent::unescaped(rest) {
            Ok(bytes) => Ok::<Seq<u8>, Seq<char>>(a + bytes),
            Err(message) => Err(message),
        }),
    decreases a.len(),
{
    if a.len() == 0 {
        assert(a + rest == rest);
        match percent::unescaped(rest) {
            Ok(bytes) => {
                assert(a + bytes == bytes);
            },
            Err(message) => {},
        }
    } else {
        assert((a + rest)[0] == a[0]);
        assert((a + rest).skip(1) == a.skip(1) + rest);
        lemma_unescaped_after(a.skip(1), rest);
        match percent::unescaped(rest) {
            Ok(bytes) => {
                assert(seq![a[0]] + (a.skip(1) + bytes) == a + bytes);
            },
            Err(message) => {},
        }
    }
}

/// A character other than the percent sign stands for itself, whatever follows.
proof fn lemma_unescaped_char(s: Seq<char>)
    requires
        s.len() > 0,
        s[0] != '%',
    ensures
        percent::unescaped(encode_utf8(s)) == (match percent::unescaped(encode_utf8(s.skip(1))) {
            Ok(bytes) => Ok::<Seq<u8>, Seq<char>>(encode_scalar(s[0] as u32) + bytes),
            Err(message) => Err(message),
        }),
{
    lemma_encode_head(s);
    text::lemma_char_bound(s[0]);
    lemma_unescaped_after(encode_scalar(s[0] as u32), encode_utf8(s.skip(1)));
}

/// A percent escape stands for its byte, whatever follows.
proof fn lemma_unescaped_escape(s: Seq<char>)
    requires
        s.len() >= 3,
        s[0] == '%',
        percent::is_hex_char(s[1]),
        percent::is_hex_char(s[2]),
    ensures
        percent::unescaped(encode_utf8(s)) == percent::prepend(
            (percent::hex_of(s[1] as u8) * 16 + percent::hex_of(s[2] as u8)) as u8,
            percent::unescaped(encode_utf8(s.skip(3))),
        ),
{
    lemma_encode_head(s);
    lemma_encode_head(s.skip(1));
    lemma_encode_head(s.skip(2));
    assert(s.skip(1).skip(1) == s.skip(2));
    assert(s.skip(2).skip(1) == s.skip(3));
    text::lemma_char_bound(s[1]);
    text::lemma_char_bound(s[2]);
    let b = encode_utf8(s);
    assert(b.skip(3) == encode_utf8(s.skip(3)));
    assert(b[0] == '%' as u8 && b[1] == s[1] as u8 && b[2] == s[2] as u8);
}

/// Where `s` starts with a percent sign that no two digits follow, the message depends on the
/// characters that were looked at alone.
proof fn lemma_unescaped_fault(s: Seq<char>)
    requires
        s.len() > 0,
        s[0] == '%',
        s.len() < 3 || !percent::is_hex_char(s[1]) || !percent::is_hex_char(s[2]),
    ensures
        s.len() == 1 ==> percent::unescaped(encode_utf8(s)) == Err::<Seq<u8>, Seq<char>>(
            "bad percent escape at end of input"@,
        ),
        s.len() > 2 && !percent::is_hex_char(s[1]) ==> percent::unescaped(encode_utf8(s)) == Err::<
            Seq<u8>,
            Seq<char>,
        >(percent::bad_hex(encode_scalar(s[1] as u32)[0])),
        s.len() > 2 && percent::is_hex_char(s[1]) && !percent::is_hex_char(s[2])
            ==> percent::unescaped(encode_utf8(s)) == Err::<Seq<u8>, Seq<char>>(
            percent::bad_hex(encode_scalar(s[2] as u32)[0]),
        ),
{
    lemma_encode_head(s);
    let b = encode_utf8(s);
    assert(b[0] == '%' as u8);
    if s.len() == 1 {
        assert(s.skip(1) == Seq::<char>::empty());
        assert(encode_utf8(s.skip(1)).len() == 0);
        assert(b.len() == 1);
    } else if s.len() > 2 {
        lemma_encode_head(s.skip(1));
        lemma_encode_head(s.skip(2));
        assert(s.skip(1).skip(1) == s.skip(2));
        text::lemma_char_bound(s[1]);
        text::lemma_char_bound(s[2]);
        let c = encode_scalar(s[1] as u32);
        let d = encode_scalar(s[2] as u32);
        assert(b[1] == c[0]);
        if percent::is_hex_char(s[1]) {
            assert(b[2] == d[0]);
        }
    }
}

/// A respelling of a text whose first character is kept has the rest of it respelled.
proof fn lemma_kept(t: Seq<char>, p: Seq<char>, spaces: bool)
    requires
        is_respelling(t, p, spaces),
        p.len() > 0,
        p[0] != '+',
    ensures
        t.len() > 0,
        t[0] == p[0],
        is_respelling(t.skip(1), p.skip(1), spaces),
{
}

/// The bytes that a respelling stands for are those that the text stands for, but for spaces in
/// place of plus signs.
proof fn lemma_respelled_bytes(t: Seq<char>, p: Seq<char>, spaces: bool)
    requires
        is_respelling(t, p, spaces),
        !plus_in_escape(p),
    ensures
        are_alike_results(percent::unescaped(encode_utf8(t)), percent::unescaped(encode_utf8(p))),
        !spaces ==> percent::unescaped(encode_utf8(t)) == percent::unescaped(encode_utf8(p)),
    decreases p.len(),
{
    if p.len() == 0 {
        assert(t == p);
    } else if p[0] == '+' {
        lemma_respelled_plus(t, p, spaces);
    } else if p[0] == '%' {
        lemma_respelled_escape(t, p, spaces);
    } else {
        lemma_kept(t, p, spaces);
        lemma_respelled_bytes(t.skip(1), p.skip(1), spaces);
        lemma_unescaped_char(t);
        lemma_unescaped_char(p);
        lemma_alike_after(
            encode_scalar(p[0] as u32),
            encode_scalar(p[0] as u32),
            percent::unescaped(encode_utf8(t.skip(1))),
            percent::unescaped(encode_utf8(p.skip(1))),
        );
    }
}

/// Bytes that are alike stay so with bytes before them that are alike.
proof fn lemma_alike_after(
    a: Seq<u8>,
    b: Seq<u8>,
    x: Result<Seq<u8>, Seq<char>>,
    y: Result<Seq<u8>, Seq<char>>,
)
    requires
        are_alike(a, b),
        are_alike_results(x, y),
    ensures
        match (x, y) {
            (Ok(u), Ok(v)) => are_alike(a + u, b + v),
            _ => true,
        },
{
    match (x, y) {
        (Ok(u), Ok(v)) => {
            let l = a + u;
            let r = b + v;
            assert forall|i: int| 0 <= i < l.len() implies (#[trigger] l[i] == r[i] || (
            is_plus_or_space(l[i]) && is_plus_or_space(r[i]))) by {
                if i < a.len() {
                    assert(l[i] == a[i] && r[i] == b[i]);
                } else {
                    assert(l[i] == u[i - a.len()] && r[i] == v[i - a.len()]);
                }
            }
        },
        _ => {},
    }
}

/// A plus sign, a space and the escape of a plus sign stand for bytes that are alike.
proof fn lemma_respelled_plus(t: Seq<char>, p: Seq<char>, spaces: bool)
    requires
        is_respelling(t, p, spaces),
        !plus_in_escape(p),
        p.len() > 0,
        p[0] == '+',
    ensures
        are_alike_results(percent::unescaped(encode_utf8(t)), percent::unescaped(encode_utf8(p))),
        !spaces ==> percent::unescaped(encode_utf8(t)) == percent::unescaped(encode_utf8(p)),
    decreases p.len(), 0int,
{
    lemma_encode_head(p);
    lemma_unescaped_char(p);
    let plus = seq!['+' as u8];
    if t[0] == '%' {
        lemma_respelled_bytes(t.skip(3), p.skip(1), spaces);
        assert(percent::is_hex_char(t[1]) && percent::is_hex_char(t[2]));
        lemma_unescaped_escape(t);
        assert((percent::hex_of('2' as u8) * 16 + percent::hex_of(t[2] as u8)) as u8 == '+' as u8);
        lemma_alike_after(
            plus,
            plus,
            percent::unescaped(encode_utf8(t.skip(3))),
            percent::unescaped(encode_utf8(p.skip(1))),
        );
    } else {
        lemma_respelled_bytes(t.skip(1), p.skip(1), spaces);
        lemma_encode_head(t);
        lemma_unescaped_char(t);
        lemma_alike_after(
            seq![t[0] as u8],
            plus,
            percent::unescaped(encode_utf8(t.skip(1))),
            percent::unescaped(encode_utf8(p.skip(1))),
        );
    }
}

/// Percent escapes are kept, and so is the message about one that is none.
proof fn lemma_respelled_escape(t: Seq<char>, p: Seq<char>, spaces: bool)
    requires
        is_respelling(t, p, spaces),
        !plus_in_escape(p),
        p.len() > 0,
        p[0] == '%',
    ensures
        are_alike_results(percent::unescaped(encode_utf8(t)), percent::unescaped(encode_utf8(p))),
        !spaces ==> percent::unescaped(encode_utf8(t)) == percent::unescaped(encode_utf8(p)),
    decreases p.len(), 0int,
{
    lemma_kept(t, p, spaces);
    let t1 = t.skip(1);
    let p1 = p.skip(1);
    let t2 = t.skip(2);
    let p2 = p.skip(2);
    if p.len() == 1 {
        assert(t == p);
    } else {
        assert(p1.skip(1) == p2);
        assert(p1[0] == p[1]);
        assert(p[1] != '+');
        lemma_kept(t1, p1, spaces);
        assert(t1[0] == t[1]);
        assert(t1.skip(1) == t2);
        if p.len() == 2 {
            assert(t == p);
        } else if !percent::is_hex_char(p[1]) {
            assert(t2.len() > 0);
            lemma_unescaped_fault(t);
            lemma_unescaped_fault(p);
        } else {
            assert(p2[0] == p[2]);
            assert(p[2] != '+');
            lemma_kept(t2, p2, spaces);
            assert(t2[0] == t[2]);
            if !percent::is_hex_char(p[2]) {
                lemma_unescaped_fault(t);
                lemma_unescaped_fault(p);
            } else {
                assert(t2.skip(1) == t.skip(3));
                assert(p2.skip(1) == p.skip(3));
                lemma_respelled_bytes(t.skip(3), p.skip(3), spaces);
                lemma_unescaped_escape(t);
                lemma_unescaped_escape(p);
                let x = (percent::hex_of(p[1] as u8) * 16 + percent::hex_of(p[2] as u8)) as u8;
                lemma_alike_after(
                    seq![x],
                    seq![x],
                    percent::unescaped(encode_utf8(t.skip(3))),
                    percent::unescaped(encode_utf8(p.skip(3))),
                );
            }
        }
    }
}

/// Bytes that are alike are UTF-8 both or not at all, and the texts that they encode are the same
/// where spaces are taken for plus signs.
proof fn lemma_alike_texts(a: Seq<u8>, b: Seq<u8>)
    requires
        are_alike(a, b),
    ensures
        valid_utf8(a) == valid_utf8(b),
        valid_utf8(a) ==> text::replaced(decode_utf8(a), " "@, "+"@) == text::replaced(
            decode_utf8(b),
            " "@,
            "+"@,
        ),
    decreases a.len(),
{
    if a.len() > 0 {
        assert(a[0] == b[0] || (is_plus_or_space(a[0]) && is_plus_or_space(b[0])));
        if a[0] <= 0x7f {
            let x = a[0];
            let y = b[0];
            assert((x & 0x7f) == x) by (bit_vector)
                requires
                    x <= 0x7f,
            ;
            assert((y & 0x7f) == y) by (bit_vector)
                requires
                    y <= 0x7f,
            ;
            assert(valid_first_scalar(a) && valid_first_scalar(b));
        } else {
            assert(a.len() >= 2 ==> a[1] == b[1] || (is_plus_or_space(a[1]) && is_plus_or_space(
                b[1],
            )));
            assert(a.len() >= 3 ==> a[2] == b[2] || (is_plus_or_space(a[2]) && is_plus_or_space(
                b[2],
            )));
            assert(a.len() >= 4 ==> a[3] == b[3] || (is_plus_or_space(a[3]) && is_plus_or_space(
                b[3],
            )));
            assert(valid_first_scalar(a) == valid_first_scalar(b));
        }
        if valid_first_scalar(a) {
            let n = length_of_first_scalar(a);
            assert(n == length_of_first_scalar(b));
            let u = pop_first_scalar(a);
            let v = pop_first_scalar(b);
            assert forall|i: int| 0 <= i < u.len() implies (#[trigger] u[i] == v[i] || (
            is_plus_or_space(u[i]) && is_plus_or_space(v[i]))) by {
                assert(u[i] == a[i + n] && v[i] == b[i + n]);
            }
            lemma_alike_texts(u, v);
            if valid_utf8(a) {
                lemma_replaced_head(decode_first_scalar(a) as char, decode_utf8(u));
                lemma_replaced_head(decode_first_scalar(b) as char, decode_utf8(v));
            }
        }
    } else {
        assert(a == b);
    }
}

/// Taking spaces for plus signs goes by one character at a time.
proof fn lemma_replaced_head(c: char, rest: Seq<char>)
    ensures
        text::replaced(seq![c] + rest, " "@, "+"@) == seq![
            if c == ' ' {
                '+'
            } else {
                c
            },
        ] + text::replaced(rest, " "@, "+"@),
{
    reveal_strlit(" ");
    reveal_strlit("+");
    let s = seq![c] + rest;
    assert(" "@.is_prefix_of(s) == (c == ' ')) by {
        assert(s.subrange(0, 1) =~= seq![c]);
        assert(" "@ =~= seq![' ']);
        assert(seq![c][0] == c);
    }
    assert(s.skip(1) == rest);
    assert(s.drop_first() == rest);
    assert("+"@ =~= seq!['+']);
}

/// The characters at the start of a respelling that are no part of the spelling of a plus sign
/// stand at the start of the text.
proof fn lemma_respelled_start(t: Seq<char>, p: Seq<char>, spaces: bool, start: Seq<char>)
    requires
        is_respelling(t, p, spaces),
        start.is_prefix_of(t),
        forall|i: int|
            0 <= i < start.len() ==> #[trigger] start[i] != '+' && start[i] != ' ' && start[i] != '%',
    ensures
        start.is_prefix_of(p),
    decreases p.len(),
{
    if start.len() == 0 {
        assert(start == p.subrange(0, 0));
    } else {
        assert(t[0] == start[0]) by {
            assert(t.subrange(0, start.len() as int)[0] == t[0]);
        }
        assert(start[0] != '+' && start[0] != ' ' && start[0] != '%');
        lemma_kept(t, p, spaces);
        let rest = start.skip(1);
        let n = start.len() as int;
        assert(rest == t.skip(1).subrange(0, n - 1)) by {
            assert(start == t.subrange(0, n));
        }
        assert forall|i: int| 0 <= i < rest.len() implies #[trigger] rest[i] != '+' && rest[i] != ' '
            && rest[i] != '%' by {
            assert(rest[i] == start[i + 1]);
        }
        lemma_respelled_start(t.skip(1), p.skip(1), spaces, rest);
        assert(start == p.subrange(0, n)) by {
            assert(rest == p.skip(1).subrange(0, n - 1));
            assert forall|i: int| 0 <= i < n implies start[i] == #[trigger] p.subrange(0, n)[i] by {
                if i > 0 {
                    assert(rest[i - 1] == p.skip(1).subrange(0, n - 1)[i - 1]);
                }
            }
        }
    }
}

// ---------------------------------------------------------------------------
// Laws
// ---------------------------------------------------------------------------

/// Whether `s` starts with the name of the protocol.
pub open spec fn names_protocol(s: Seq<char>) -> bool {
    "jms://"@.is_prefix_of(s) || "JMS://"@.is_prefix_of(s)
}

/// Whether the bytes that the payload `p` stands for are UTF-8, where it stands for any.
pub open spec fn reads_as_text(p: Seq<char>) -> bool {
    percent::unescaped(encode_utf8(p)) matches Ok(bytes) ==> valid_utf8(bytes)
}

/// Whether `message` is the complaint about a payload that is not UTF-8.
pub open spec fn is_no_text(message: Seq<char>) -> bool {
    "percent-decoded input is not UTF-8: "@.is_prefix_of(message)
}

/// Whether `link` is the payload `t` behind the name of the protocol in small or in large letters,
/// or alone, with white space and quotes around it.
pub open spec fn is_link(
    link: Seq<char>,
    t: Seq<char>,
    white: (Seq<char>, Seq<char>),
    double: (Seq<char>, Seq<char>),
    single: (Seq<char>, Seq<char>),
) -> bool {
    &&& link::is_wrapping(white, double, single)
    &&& {
        ||| link == link::wrapped("jms://"@ + t, white, double, single)
        ||| link == link::wrapped("JMS://"@ + t, white, double, single)
        ||| link == link::wrapped(t, white, double, single) && (t.len() > 0 ==> link::is_kept(t[0]))
    }
}

/// What a link says is its payload.
proof fn lemma_payload_of_link(
    link: Seq<char>,
    t: Seq<char>,
    white: (Seq<char>, Seq<char>),
    double: (Seq<char>, Seq<char>),
    single: (Seq<char>, Seq<char>),
)
    requires
        is_link(link, t, white, double, single),
        t.len() > 0 ==> link::is_kept(t.last()),
        !names_protocol(t),
    ensures
        link::link_payload(link) == t,
{
    reveal_strlit("jms://");
    reveal_strlit("JMS://");
    let small = "jms://"@ + t;
    let large = "JMS://"@ + t;
    assert(small.subrange(0, 6) == "jms://"@);
    assert(small.skip(6) == t);
    assert(large.subrange(0, 6) == "JMS://"@);
    assert(large.subrange(0, 6)[0] != "jms://"@[0]);
    assert(large.skip(6) == t);
    if link == link::wrapped(small, white, double, single) {
        link::lemma_unwrapped(small, white, double, single);
    } else if link == link::wrapped(large, white, double, single) {
        link::lemma_unwrapped(large, white, double, single);
    } else {
        link::lemma_unwrapped(t, white, double, single);
    }
}

/// The spelling of a link has no influence on the document in it: neither the name of the protocol
/// before the payload `p` nor white space and quotes around it, nor spaces or percent escapes in
/// place of its plus signs. A payload that is not UTF-8 is refused in each spelling.
pub proof fn law_spellings_hold_same_document(
    p: Seq<char>,
    t: Seq<char>,
    spaces: bool,
    link: Seq<char>,
    white: (Seq<char>, Seq<char>),
    double: (Seq<char>, Seq<char>),
    single: (Seq<char>, Seq<char>),
)
    requires
        p.len() > 0 ==> link::is_kept(p[0]) && link::is_kept(p.last()),
        !names_protocol(p),
        !plus_in_escape(p),
        is_respelling(t, p, spaces),
        t.len() > 0 ==> link::is_kept(t.last()),
        is_link(link, t, white, double, single),
    ensures
        !spaces || reads_as_text(p) ==> link::link_text(link) == link::link_text(p),
        !reads_as_text(p) ==> (link::link_text(link) matches Err(message) && is_no_text(message)),
        !reads_as_text(p) ==> (link::link_text(p) matches Err(message) && is_no_text(message)),
{
    if "jms://"@.is_prefix_of(t) {
        reveal_strlit("jms://");
        lemma_respelled_start(t, p, spaces, "jms://"@);
    }
    if "JMS://"@.is_prefix_of(t) {
        reveal_strlit("JMS://");
        lemma_respelled_start(t, p, spaces, "JMS://"@);
    }
    lemma_payload_of_link(link, t, white, double, single);
    let none = (Seq::<char>::empty(), Seq::<char>::empty());
    assert(link::wrapped(p, none, none, none) == p);
    lemma_payload_of_link(p, p, none, none, none);
    lemma_respelled_bytes(t, p, spaces);
    match (percent::unescaped(encode_utf8(t)), percent::unescaped(encode_utf8(p))) {
        (Ok(a), Ok(b)) => {
            lemma_alike_texts(a, b);
            let what = "percent-decoded input is not UTF-8: "@;
            let x = what + utf::utf8_error_text(a);
            let y = what + utf::utf8_error_text(b);
            assert(x.subrange(0, what.len() as int) == what);
            assert(y.subrange(0, what.len() as int) == what);
        },
        _ => {},
    }
}

/// The spelling of a link has no influence on the connection that it asks for.
pub proof fn law_spellings_ask_for_same_connection(
    p: Seq<char>,
    t: Seq<char>,
    spaces: bool,
    link: Seq<char>,
    white: (Seq<char>, Seq<char>),
    double: (Seq<char>, Seq<char>),
    single: (Seq<char>, Seq<char>),
    profile: Seq<char>,
    template: Option<Seq<char>>,
)
    requires
        p.len() > 0 ==> link::is_kept(p[0]) && link::is_kept(p.last()),
        !names_protocol(p),
        !plus_in_escape(p),
        is_respelling(t, p, spaces),
        t.len() > 0 ==> link::is_kept(t.last()),
        is_link(link, t, white, double, single),
    ensures
        !spaces || reads_as_text(p) ==> link::link_launch(link, profile, template)
            == link::link_launch(p, profile, template),
        !reads_as_text(p) ==> (link::link_launch(link, profile, template) matches Err(message)
            && is_no_text(message)),
        !reads_as_text(p) ==> (link::link_launch(p, profile, template) matches Err(message)
            && is_no_text(message)),
{
    law_spellings_hold_same_document(p, t, spaces, link, white, double, single);
}

/// A link gives back the document that was put into it, in each of its spellings.
pub proof fn law_respelled_link_reads_back(
    document: Seq<char>,
    t: Seq<char>,
    link: Seq<char>,
    white: (Seq<char>, Seq<char>),
    double: (Seq<char>, Seq<char>),
    single: (Seq<char>, Seq<char>),
)
    requires
        is_respelling(t, link::payload_of(document), true),
        t.len() > 0 ==> link::is_kept(t.last()),
        is_link(link, t, white, double, single),
    ensures
        link::link_text(link) == Ok::<Seq<char>, Seq<char>>(document),
{
    let p = link::payload_of(document);
    base64::lemma_encoded_symbols(encode_utf8(document));
    link::lemma_symbols_are_plain(p);
    link::law_link_reads_back(document);
    reveal_strlit("jms://");
    reveal_strlit("JMS://");
    if names_protocol(p) {
        assert(p.subrange(0, 6)[3] == ':');
        assert(p[3] == ':');
    }
    if p.len() > 0 {
        assert(link::is_plain(p[0]) && link::is_plain(p.last()));
    }
    lemma_no_escape(p);
    law_spellings_hold_same_document(p, t, true, link, white, double, single);
}

/// Symbols hold no escape.
proof fn lemma_no_escape(p: Seq<char>)
    requires
        forall|i: int| 0 <= i < p.len() ==> base64::is_symbol(#[trigger] p[i]),
    ensures
        !plus_in_escape(p),
    decreases p.len(),
{
    if p.len() > 0 {
        assert(base64::is_symbol(p[0]));
        assert forall|i: int| 0 <= i < p.skip(1).len() implies base64::is_symbol(
            #[trigger] p.skip(1)[i],
        ) by {
            assert(p.skip(1)[i] == p[i + 1]);
        }
        lemma_no_escape(p.skip(1));
    }
}

} // verus!
