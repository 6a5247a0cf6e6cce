//! Base64 texts that are spelled differently and stand for the same.
use crate::base64;
use crate::text;
use vstd::prelude::*;
use vstd::utf8::*;

verus! {

/// The symbol of the URL alphabet for the number `v` of six bits.
pub open spec fn url_symbol(v: nat) -> char {
    if v == 62 {
        '-'
    } else if v == 63 {
        '_'
    } else {
        base64::symbol(v)
    }
}

/// Whether `s` writes the numbers `v` of six bits: their symbols in either alphabet, with any
/// number of padding characters behind them, or none, and with white space anywhere.
pub open spec fn is_spelling(s: Seq<char>, v: Seq<nat>) -> bool
    decreases s.len(),
{
    if s.len() == 0 {
        v.len() == 0
    } else if base64::is_ascii_space(s[0]) {
        is_spelling(s.drop_first(), v)
    } else if v.len() == 0 {
        s[0] == '=' && is_spelling(s.drop_first(), v)
    } else {
        v[0] < 64 && (s[0] == base64::symbol(v[0]) || s[0] == url_symbol(v[0])) && is_spelling(
            s.drop_first(),
            v.skip(1),
        )
    }
}

/// What a spelling with something behind it is read as.
proof fn lemma_spelling_then(s: Seq<char>, v: Seq<nat>, rest: Seq<char>)
    requires
        is_spelling(s, v),
    ensures
        ({
            let c = base64::compact(encode_utf8(rest));
            let read = base64::sextets(base64::compact(encode_utf8(s + rest)));
            &&& base64::all_pad(c) ==> read == Ok::<Seq<nat>, Seq<char>>(v)
            &&& s.contains('=') && !base64::all_pad(c) ==> read == Err::<Seq<nat>, Seq<char>>(
                "base64 data after padding"@,
            )
            &&& v.len() == 0 && base64::all_pad(c) ==> base64::all_pad(base64::compact(encode_utf8(s + rest)))
            &&& v.len() == 0 && s.contains('=') ==> base64::compact(encode_utf8(s + rest)).len() > 0
                && base64::is_pad(base64::compact(encode_utf8(s + rest))[0])
            &&& v.len() == 0 && !base64::all_pad(c) ==> !base64::all_pad(base64::compact(encode_utf8(s + rest)))
        }),
    decreases s.len(),
{
    let c = base64::compact(encode_utf8(rest));
    let all = s + rest;
    if s.len() == 0 {
        assert(all =~= rest);
        assert(v =~= Seq::<nat>::empty());
        if base64::all_pad(c) && c.len() > 0 {
            assert(base64::is_pad(c[0]));
        }
    } else {
        let tail = s.drop_first();
        let b = encode_utf8(all);
        let d = base64::compact(b);
        assert(all[0] == s[0]);
        assert(all.drop_first() =~= tail + rest);
        assert(s.contains('=') ==> s[0] == '=' || tail.contains('=')) by {
            if s.contains('=') && s[0] != '=' {
                let k = choose|k: int| 0 <= k < s.len() && s[k] == '=';
                assert(tail[k - 1] == '=');
            }
        }
        if base64::is_ascii_space(s[0]) {
            base64::lemma_encode_ascii_first(all);
            lemma_spelling_then(tail, v, rest);
        } else if v.len() == 0 {
            base64::lemma_encode_ascii_first(all);
            lemma_spelling_then(tail, v, rest);
            let e = base64::compact(encode_utf8(tail + rest));
            assert(v =~= Seq::<nat>::empty());
            assert(d =~= seq!['=' as u8] + e);
            base64::lemma_all_pad_cons('=' as u8, e);
            assert(d[0] == '=' as u8);
            if !base64::all_pad(c) {
                lemma_spelling_keeps_data(tail, rest);
            }
            assert(base64::all_pad(d) == base64::all_pad(c));
        } else {
            let x = s[0] as u8;
            base64::lemma_encode_ascii_first(all);
            lemma_spelling_then(tail, v.skip(1), rest);
            assert(base64::sextet(x) == Some(v[0]));
            assert(!base64::is_ascii_ws(x) && !base64::is_pad(x));
            assert(d[0] == x);
            assert(d.skip(1) =~= base64::compact(encode_utf8(tail + rest)));
            assert(seq![v[0]] + v.skip(1) =~= v);
        }
    }
}

/// Data is not lost behind padding and white space.
proof fn lemma_spelling_keeps_data(s: Seq<char>, rest: Seq<char>)
    requires
        is_spelling(s, seq![]),
        !base64::all_pad(base64::compact(encode_utf8(rest))),
    ensures
        !base64::all_pad(base64::compact(encode_utf8(s + rest))),
    decreases s.len(),
{
    if s.len() == 0 {
        assert(s + rest =~= rest);
    } else {
        let tail = s.drop_first();
        let all = s + rest;
        assert(all[0] == s[0]);
        assert(all.drop_first() =~= tail + rest);
        base64::lemma_encode_ascii_first(all);
        lemma_spelling_keeps_data(tail, rest);
        base64::lemma_all_pad_cons('=' as u8, base64::compact(encode_utf8(tail + rest)));
    }
}

/// Each spelling of numbers of six bits stands for the whole bytes in their bit string.
pub proof fn law_base64_spellings(s: Seq<char>, v: Seq<nat>)
    requires
        is_spelling(s, v),
    ensures
        base64::base64_decoded(s) == Ok::<Seq<u8>, Seq<char>>(base64::octets(v)),
        base64::lossy_decoded(s) == Ok::<Seq<u8>, Seq<char>>(base64::octets(v)),
{
    let none = Seq::<char>::empty();
    assert(s + none =~= s);
    assert(encode_utf8(none) == Seq::<u8>::empty());
    lemma_spelling_then(s, v, none);
}

/// Bytes come back from their Base64 text in each of its spellings: in the standard or the URL
/// alphabet, with padding or without, and with white space anywhere.
pub proof fn law_base64_spellings_read_back(data: Seq<u8>, s: Seq<char>)
    requires
        is_spelling(s, base64::all_six_bits(data)),
    ensures
        base64::base64_decoded(s) == Ok::<Seq<u8>, Seq<char>>(data),
        base64::lossy_decoded(s) == Ok::<Seq<u8>, Seq<char>>(data),
{
    law_base64_spellings(s, base64::all_six_bits(data));
    base64::lemma_octets_of_six_bits(data);
}

/// Where the padding of a spelling with something behind it ends.
proof fn lemma_spelling_padding(s: Seq<char>, v: Seq<nat>, tail: Seq<char>)
    requires
        is_spelling(s, v),
        s.contains('='),
    ensures
        base64::through_padding(s + tail) == s + tail.take(base64::padding_run(tail) as int),
{
    let all = s + tail;
    let k = text::first_of(all, '=') as int;
    let j = choose|j: int| 0 <= j < s.len() && s[j] == '=';
    text::lemma_first_of_props(all, '=');
    assert(all[j] == '=');
    assert(k <= j);
    assert(all[k] == s[k]);
    lemma_padding_behind(s, v, k);
    base64::lemma_padding_run(tail);
    lemma_run_through(s.skip(k), tail);
    assert(all.skip(k) =~= s.skip(k) + tail);
    assert(all.take(k + (s.len() - k) + base64::padding_run(tail)) =~= s + tail.take(
        base64::padding_run(tail) as int,
    ));
}

/// Behind a padding character of a spelling there is nothing but padding and white space.
proof fn lemma_padding_behind(s: Seq<char>, v: Seq<nat>, k: int)
    requires
        is_spelling(s, v),
        0 <= k < s.len(),
        s[k] == '=',
    ensures
        forall|i: int| k <= i < s.len() ==> (#[trigger] s[i] == '=' || base64::is_ascii_space(s[i])),
    decreases s.len(),
{
    let rest = s.drop_first();
    if k > 0 {
        assert(rest[k - 1] == '=');
        let w = if base64::is_ascii_space(s[0]) || v.len() == 0 {
            v
        } else {
            v.skip(1)
        };
        lemma_padding_behind(rest, w, k - 1);
        assert forall|i: int| k <= i < s.len() implies (#[trigger] s[i] == '=' || base64::is_ascii_space(
            s[i],
        )) by {
            assert(s[i] == rest[i - 1]);
        }
    } else {
        assert(v =~= Seq::<nat>::empty()) by {
            if v.len() > 0 {
                assert(v[0] < 64);
            }
        }
        lemma_only_padding(rest);
        assert forall|i: int| 0 <= i < s.len() implies (#[trigger] s[i] == '=' || base64::is_ascii_space(
            s[i],
        )) by {
            if i > 0 {
                assert(s[i] == rest[i - 1]);
            }
        }
    }
}

/// The spelling of no numbers is padding and white space.
proof fn lemma_only_padding(s: Seq<char>)
    requires
        is_spelling(s, seq![]),
    ensures
        forall|i: int| 0 <= i < s.len() ==> (#[trigger] s[i] == '=' || base64::is_ascii_space(s[i])),
    decreases s.len(),
{
    if s.len() > 0 {
        let rest = s.drop_first();
        lemma_only_padding(rest);
        assert forall|i: int| 0 <= i < s.len() implies (#[trigger] s[i] == '=' || base64::is_ascii_space(
            s[i],
        )) by {
            if i > 0 {
                assert(s[i] == rest[i - 1]);
            }
        }
    }
}

/// A run of padding and white space goes on in what follows.
proof fn lemma_run_through(s: Seq<char>, tail: Seq<char>)
    requires
        forall|i: int| 0 <= i < s.len() ==> (#[trigger] s[i] == '=' || base64::is_ascii_space(s[i])),
    ensures
        base64::padding_run(s + tail) == s.len() + base64::padding_run(tail),
    decreases s.len(),
{
    if s.len() == 0 {
        assert(s + tail =~= tail);
    } else {
        let rest = s.skip(1);
        assert(s[0] == '=' || base64::is_ascii_space(s[0]));
        assert((s + tail).skip(1) =~= rest + tail);
        assert forall|i: int| 0 <= i < rest.len() implies (#[trigger] rest[i] == '='
            || base64::is_ascii_space(rest[i])) by {
            assert(rest[i] == s[i + 1]);
        }
        lemma_run_through(rest, tail);
    }
}

/// More padding and white space leaves a spelling a spelling.
proof fn lemma_spelling_padded(s: Seq<char>, v: Seq<nat>, more: Seq<char>)
    requires
        is_spelling(s, v),
        forall|i: int| 0 <= i < more.len() ==> (#[trigger] more[i] == '=' || base64::is_ascii_space(more[i])),
    ensures
        is_spelling(s + more, v),
    decreases s.len() + more.len(),
{
    let all = s + more;
    if s.len() > 0 {
        assert(all[0] == s[0]);
        assert(all.drop_first() =~= s.drop_first() + more);
        if base64::is_ascii_space(s[0]) || v.len() == 0 {
            lemma_spelling_padded(s.drop_first(), v, more);
        } else {
            lemma_spelling_padded(s.drop_first(), v.skip(1), more);
        }
    } else if more.len() > 0 {
        let rest = more.drop_first();
        assert(more[0] == '=' || base64::is_ascii_space(more[0]));
        assert forall|i: int| 0 <= i < rest.len() implies (#[trigger] rest[i] == '='
            || base64::is_ascii_space(rest[i])) by {
            assert(rest[i] == more[i + 1]);
        }
        assert(all =~= more);
        assert(s + rest =~= rest);
        lemma_spelling_padded(s, v, rest);
    } else {
        assert(all =~= s);
    }
}

/// What follows the padding of any spelling does not change what it stands for.
pub proof fn law_base64_spelling_tail_ignored(s: Seq<char>, v: Seq<nat>, tail: Seq<char>)
    requires
        is_spelling(s, v),
        s.contains('='),
    ensures
        base64::lossy_decoded(s + tail) == Ok::<Seq<u8>, Seq<char>>(base64::octets(v)),
{
    lemma_spelling_then(s, v, tail);
    if !base64::all_pad(base64::compact(encode_utf8(tail))) {
        let kept = tail.take(base64::padding_run(tail) as int);
        base64::lemma_padding_run(tail);
        lemma_spelling_padding(s, v, tail);
        lemma_spelling_padded(s, v, kept);
        law_base64_spellings(s + kept, v);
    }
}

} // verus!
