//! What the operations on texts do.
use crate::text;
use vstd::prelude::*;

verus! {

/// Lower case is a matter of the letters `A` to `Z`: each moves by 32, and nothing else changes.
pub proof fn law_lower_case_moves_capitals(s: Seq<char>, i: int)
    requires
        0 <= i < s.len(),
    ensures
        text::lowered(s).len() == s.len(),
        65 <= s[i] as int <= 90 ==> text::lowered(s)[i] as int == s[i] as int + 32,
        !(65 <= s[i] as int <= 90) ==> text::lowered(s)[i] == s[i],
{
}

/// Texts are the same ignoring case where they have the same length, and where they differ, a
/// capital letter of one stands for the small letter of the other.
pub proof fn law_case_ignored(a: Seq<char>, b: Seq<char>)
    ensures
        text::same_ignoring_case(a, b) <==> a.len() == b.len() && forall|i: int|
            0 <= i < a.len() ==> (#[trigger] a[i] == b[i] || (65 <= a[i] as int <= 90
                && b[i] as int == a[i] as int + 32) || (65 <= b[i] as int <= 90 && a[i] as int
                == b[i] as int + 32)),
{
    let x = text::lowered(a);
    let y = text::lowered(b);
    if text::same_ignoring_case(a, b) {
        assert(x.len() == a.len() && y.len() == b.len());
        assert forall|i: int| 0 <= i < a.len() implies (#[trigger] a[i] == b[i] || (65 <= a[i] as int
            <= 90 && b[i] as int == a[i] as int + 32) || (65 <= b[i] as int <= 90 && a[i] as int
            == b[i] as int + 32)) by {
            assert(x[i] == text::lower(a[i]) && y[i] == text::lower(b[i]));
            assert(x[i] == y[i]);
        }
    } else if a.len() == b.len() && (forall|i: int|
        0 <= i < a.len() ==> (#[trigger] a[i] == b[i] || (65 <= a[i] as int <= 90 && b[i] as int
            == a[i] as int + 32) || (65 <= b[i] as int <= 90 && a[i] as int == b[i] as int + 32))) {
        assert forall|i: int| 0 <= i < x.len() implies x[i] == y[i] by {
            assert(a[i] == b[i] || (65 <= a[i] as int <= 90 && b[i] as int == a[i] as int + 32) || (
            65 <= b[i] as int <= 90 && a[i] as int == b[i] as int + 32));
        }
        assert(x =~= y);
    }
}

/// Whether the code point `v` is white space: tabulator to carriage return, the space, the next
/// line, and the wide, narrow and fixed spaces of Unicode.
pub open spec fn is_blank(v: int) -> bool {
    ||| 9 <= v <= 13 || v == 32 || v == 0x85 || v == 0xa0
    ||| v == 0x1680 || 0x2000 <= v <= 0x200a || v == 0x2028 || v == 0x2029
    ||| v == 0x202f || v == 0x205f || v == 0x3000
}

/// Trimming takes off the white space at the two ends, and nothing else.
pub proof fn law_trimming(a: Seq<char>, m: Seq<char>, b: Seq<char>)
    requires
        forall|i: int| 0 <= i < a.len() ==> is_blank(#[trigger] a[i] as int),
        forall|i: int| 0 <= i < b.len() ==> is_blank(#[trigger] b[i] as int),
        m.len() > 0 ==> !is_blank(m[0] as int) && !is_blank(m.last() as int),
    ensures
        text::trimmed(a + m + b) == m,
{
    text::lemma_trimmed_around(a, m, b, |c: char| text::is_white_space(c));
}

/// Trimming by a character takes it off at the two ends, and nothing else.
pub proof fn law_trimming_by_char(a: Seq<char>, m: Seq<char>, b: Seq<char>, c: char)
    requires
        forall|i: int| 0 <= i < a.len() ==> #[trigger] a[i] == c,
        forall|i: int| 0 <= i < b.len() ==> #[trigger] b[i] == c,
        m.len() > 0 ==> m[0] != c && m.last() != c,
    ensures
        text::trimmed_of(a + m + b, c) == m,
{
    text::lemma_trimmed_around(a, m, b, text::only(c));
}

/// A text is split at the first, or at the last, of a character; where the character is absent,
/// it is not split, and all of it stands before the character.
pub proof fn law_splitting(a: Seq<char>, c: char, b: Seq<char>)
    ensures
        !a.contains(c) ==> text::split_first(a + seq![c] + b, c) == Some((a, b)),
        !a.contains(c) ==> text::before(a + seq![c] + b, c) == a,
        !a.contains(c) ==> text::split_first(a, c) is None && text::before(a, c) == a,
        !b.contains(c) ==> text::split_last(a + seq![c] + b, c) == Some((a, b)),
        !b.contains(c) ==> text::split_last(b, c) is None,
{
    let s = a + seq![c] + b;
    let k = a.len() as int;
    assert(s[k] == c);
    assert(s.take(k) =~= a);
    assert(s.skip(k + 1) =~= b);
    if !a.contains(c) {
        assert forall|j: int| 0 <= j < k implies s[j] != c by {
            assert(s[j] == a[j]);
        }
        text::lemma_first_of(s, c, k);
        assert forall|j: int| 0 <= j < k implies a[j] != c by {}
        text::lemma_first_of(a, c, k);
        assert(a.take(k) =~= a);
    }
    if !b.contains(c) {
        assert forall|j: int| k < j < s.len() implies s[j] != c by {
            assert(s[j] == b[j - k - 1]);
        }
        text::lemma_last_of(s, c, k);
        assert forall|j: int| -1 < j < b.len() implies b[j] != c by {}
        text::lemma_last_of(b, c, -1);
    }
}

/// A text occurs in another one exactly where that one is something, the text, and something.
pub proof fn law_occurring(needle: Seq<char>, s: Seq<char>)
    ensures
        text::occurs(needle, s) <==> exists|a: Seq<char>, b: Seq<char>| s == #[trigger] (a + needle + b),
{
    if text::occurs(needle, s) {
        let at = choose|at: int| #[trigger] text::stands_at(s, at, needle);
        let a = s.take(at);
        let b = s.skip(at + needle.len());
        assert(s =~= a + s.subrange(at, at + needle.len()) + b);
        assert(s == a + needle + b);
    }
    if exists|a: Seq<char>, b: Seq<char>| s == #[trigger] (a + needle + b) {
        let (a, b) = choose|a: Seq<char>, b: Seq<char>| s == #[trigger] (a + needle + b);
        assert(s.subrange(a.len() as int, (a.len() + needle.len()) as int) =~= needle);
        assert(text::stands_at(s, a.len() as int, needle));
    }
}

/// A line ends at a line feed, and a carriage return just before it is no part of the line. What
/// follows the last line feed is a line where it is not empty.
pub proof fn law_lines(a: Seq<char>, b: Seq<char>)
    requires
        !a.contains('\n'),
    ensures
        a.len() == 0 || a.last() != '\r' ==> text::lines_of(a + seq!['\n'] + b) == seq![a]
            + text::lines_of(b),
        text::lines_of(a + seq!['\r', '\n'] + b) == seq![a] + text::lines_of(b),
        text::lines_of(a) == (if a.len() == 0 {
            Seq::<Seq<char>>::empty()
        } else {
            seq![a]
        }),
{
    let s = a + seq!['\n'] + b;
    let k = a.len() as int;
    assert forall|j: int| 0 <= j < k implies s[j] != '\n' && a[j] != '\n' by {
        assert(s[j] == a[j]);
    }
    assert(s[k] == '\n');
    text::lemma_first_of(s, '\n', k);
    assert(s.take(k) =~= a);
    assert(s.skip(k + 1) =~= b);
    let r = a + seq!['\r', '\n'] + b;
    assert forall|j: int| 0 <= j < k + 1 implies r[j] != '\n' by {
        if j < k {
            assert(r[j] == a[j]);
        }
    }
    assert(r[k + 1] == '\n');
    text::lemma_first_of(r, '\n', k + 1);
    assert(r.take(k + 1) =~= a.push('\r'));
    assert(a.push('\r').drop_last() =~= a);
    assert(r.skip(k + 2) =~= b);
    text::lemma_first_of(a, '\n', k);
}

/// Joining puts the separator between the texts, and nowhere else.
pub proof fn law_joining(a: Seq<Seq<char>>, b: Seq<Seq<char>>, p: Seq<char>, sep: Seq<char>)
    ensures
        text::joined(Seq::empty(), sep) == Seq::<char>::empty(),
        text::joined(seq![p], sep) == p,
        a.len() > 0 && b.len() > 0 ==> text::joined(a + b, sep) == text::joined(a, sep) + sep
            + text::joined(b, sep),
    decreases a.len(),
{
    if a.len() > 0 && b.len() > 0 {
        text::lemma_joined_first(a + b, sep);
        assert((a + b)[0] == a[0]);
        let rest = a.drop_first();
        assert((a + b).drop_first() =~= rest + b);
        if rest.len() > 0 {
            text::lemma_joined_first(a, sep);
            law_joining(rest, b, p, sep);
            let x = text::joined(rest, sep);
            let y = text::joined(b, sep);
            assert(a[0] + sep + (x + sep + y) =~= (a[0] + sep + x) + sep + y);
        } else {
            assert(rest + b =~= b);
            assert(a =~= seq![a[0]]);
        }
    }
}

/// What is sought is replaced where it stands for the first time, and in what follows it; a text
/// in which it does not stand is kept.
pub proof fn law_replacing(s: Seq<char>, from: Seq<char>, to: Seq<char>, k: int)
    requires
        from.len() > 0,
        0 <= k,
        forall|j: int| 0 <= j < k ==> !#[trigger] text::stands_at(s, j, from),
    ensures
        text::stands_at(s, k, from) ==> text::replaced(s, from, to) == s.take(k) + to
            + text::replaced(s.skip(k + from.len()), from, to),
        k >= s.len() ==> text::replaced(s, from, to) == s,
    decreases s.len(),
{
    if s.len() > 0 {
        assert(from.is_prefix_of(s) == text::stands_at(s, 0, from));
        if k > 0 {
            let rest = s.drop_first();
            assert(!text::stands_at(s, 0, from));
            assert forall|j: int| 0 <= j < k - 1 implies !#[trigger] text::stands_at(
                rest,
                j,
                from,
            ) by {
                assert(!text::stands_at(s, j + 1, from));
                if j + from.len() <= rest.len() {
                    assert(rest.subrange(j, j + from.len()) =~= s.subrange(
                        j + 1,
                        j + 1 + from.len(),
                    ));
                }
            }
            law_replacing(rest, from, to, k - 1);
            if text::stands_at(s, k, from) {
                assert(rest.subrange(k - 1, k - 1 + from.len()) =~= s.subrange(k, k + from.len()));
                assert(rest.skip(k - 1 + from.len()) =~= s.skip(k + from.len()));
                let tail = text::replaced(s.skip(k + from.len()), from, to);
                assert(seq![s[0]] + (rest.take(k - 1) + to + tail) =~= s.take(k) + to + tail);
            }
            if k >= s.len() {
                assert(seq![s[0]] + rest =~= s);
            }
        } else if text::stands_at(s, 0, from) {
            let tail = text::replaced(s.skip(from.len() as int), from, to);
            assert(s.take(0) + to + tail =~= to + tail);
        }
    }
}

/// A number below ten is written as its digit, and a larger one as its tens with its digit behind
/// them.
pub proof fn law_decimal_digits(tens: nat, d: nat)
    requires
        d < 10,
    ensures
        text::decimal(d).len() == 1 && text::decimal(d)[0] as int == '0' as int + d,
        tens > 0 ==> text::decimal(tens * 10 + d) == text::decimal(tens) + text::decimal(d),
{
    if tens > 0 {
        let n = tens * 10 + d;
        assert(n / 10 == tens && n % 10 == d);
        assert(text::decimal(tens).push(text::digit(d)) =~= text::decimal(tens) + seq![
            text::digit(d),
        ]);
    }
}

/// Digits write a number, which each further digit makes ten times as large; one plus sign may
/// stand before them; a number over the bound, and a text with anything but digits, is refused.
pub proof fn law_reading_numbers(s: Seq<char>, c: char, max: nat)
    ensures
        !('0' <= c <= '9') && s.len() > 0 ==> text::number_of(s.push(c), max) is None,
        '0' <= c <= '9' ==> text::number_of(seq![c], max) == (if c as int - 48 <= max {
            Some((c as int - 48) as nat)
        } else {
            None
        }),
        '0' <= c <= '9' && s.len() > 0 && s[0] != '+' ==> text::number_of(s.push(c), max) == (
        match text::number_of(s, max) {
            Some(n) => if n * 10 + (c as int - 48) <= max {
                Some((n * 10 + (c as int - 48)) as nat)
            } else {
                None
            },
            None => None,
        }),
        s.len() > 0 && s[0] != '+' ==> text::number_of(seq!['+'] + s, max) == text::number_of(s, max),
        text::number_of(seq!['+'], max) is None,
        text::number_of(Seq::empty(), max) is None,
{
    let t = s.push(c);
    let one = seq![c];
    assert(one.drop_last() =~= Seq::<char>::empty());
    assert(text::digits_value(Seq::<char>::empty()) == 0);
    assert(one.last() == c);
    assert(t.drop_last() =~= s);
    assert(t.last() == c);
    if '0' <= c <= '9' {
        assert(text::digits_value(one) == (c as int - 48) as nat);
        assert(text::digits_value(t) == text::digits_value(s) * 10 + (c as int - 48));
        assert(text::all_digits(one));
        assert(text::all_digits(t) == text::all_digits(s)) by {
            if text::all_digits(t) {
                assert forall|i: int| 0 <= i < s.len() implies text::is_digit(#[trigger] s[i]) by {
                    assert(text::is_digit(t[i]));
                }
            }
        }
        if s.len() > 0 {
            assert(t[0] == s[0]);
        }
    } else if s.len() > 0 {
        assert(t[0] == s[0]);
        if s[0] == '+' {
            let u = t.drop_first();
            assert(u[u.len() - 1] == c);
            assert(!text::all_digits(u)) by {
                if text::all_digits(u) {
                    assert(text::is_digit(u[u.len() - 1]));
                }
            }
        } else {
            assert(!text::all_digits(t)) by {
                if text::all_digits(t) {
                    assert(text::is_digit(t[t.len() - 1]));
                }
            }
        }
    }
    if s.len() > 0 && s[0] != '+' {
        assert((seq!['+'] + s).drop_first() =~= s);
        assert((seq!['+'] + s)[0] == '+');
    }
    assert(seq!['+'].drop_first() =~= Seq::<char>::empty());
}

} // verus!
