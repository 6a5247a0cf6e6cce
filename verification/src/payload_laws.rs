//! What is taken out of the payload of a link.
use crate::base64;
use crate::json;
use crate::json::Json;
use crate::link;
use crate::link::Launch;
use crate::percent;
use crate::settings;
use crate::settings_laws;
use crate::template;
use crate::text;
use crate::utf;
use vstd::prelude::*;
use vstd::utf8::*;

verus! {

// ---------------------------------------------------------------------------
// Members
// ---------------------------------------------------------------------------

/// Whether the member `key` of `object` is the text `s`.
pub open spec fn has_text(object: Map<Seq<char>, Json>, key: Seq<char>, s: Seq<char>) -> bool {
    object.contains_key(key) && object[key] == Json::Text(s)
}

/// Whether the member `key` of `object` is absent, or is no text.
pub open spec fn lacks_text(object: Map<Seq<char>, Json>, key: Seq<char>) -> bool {
    !object.contains_key(key) || !(object[key] is Text)
}

/// Whether the member `key` of `object` is the object `inner`.
pub open spec fn has_object(
    object: Map<Seq<char>, Json>,
    key: Seq<char>,
    inner: Map<Seq<char>, Json>,
) -> bool {
    object.contains_key(key) && object[key] == Json::Object(inner)
}

/// Whether the member `key` of `object` is absent, or is no object.
pub open spec fn lacks_object(object: Map<Seq<char>, Json>, key: Seq<char>) -> bool {
    !object.contains_key(key) || !(object[key] is Object)
}

/// Whether the member `token` of `object` gives no secret: it is neither a text that is not empty,
/// nor an object with such a text in its member `value`.
pub open spec fn token_is_silent(object: Map<Seq<char>, Json>) -> bool {
    &&& forall|s: Seq<char>| #[trigger] has_text(object, "token"@, s) ==> s.len() == 0
    &&& forall|inner: Map<Seq<char>, Json>, s: Seq<char>|
        has_object(object, "token"@, inner) && #[trigger] has_text(inner, "value"@, s) ==> s.len()
            == 0
}

/// The secret is, character for character, the text `token.value`, or else the text `token`, or
/// else the text `value`; an empty text is no secret, and without any of them there is none.
pub proof fn law_secret_is_the_value_of_the_token(
    object: Map<Seq<char>, Json>,
    token: Map<Seq<char>, Json>,
    s: Seq<char>,
)
    ensures
        has_object(object, "token"@, token) && has_text(token, "value"@, s) && s.len() > 0
            ==> link::token_secret(object) == Some(s),
        has_text(object, "token"@, s) && s.len() > 0 ==> link::token_secret(object) == Some(s),
        token_is_silent(object) && has_text(object, "value"@, s) && s.len() > 0
            ==> link::token_secret(object) == Some(s),
        token_is_silent(object) && (lacks_text(object, "value"@) || has_text(
            object,
            "value"@,
            Seq::empty(),
        )) ==> link::token_secret(object) is None,
{
    let key = "token"@;
    if token_is_silent(object) && object.contains_key(key) {
        match object[key] {
            Json::Text(x) => {
                assert(has_text(object, key, x));
            },
            Json::Object(inner) => {
                if inner.contains_key("value"@) {
                    match inner["value"@] {
                        Json::Text(x) => {
                            assert(has_object(object, key, inner) && has_text(inner, "value"@, x));
                        },
                        _ => {},
                    }
                }
            },
            _ => {},
        }
    }
}

// ---------------------------------------------------------------------------
// The connection
// ---------------------------------------------------------------------------

/// Whether the name of the connection in `object` is `name`: the text `file.name`, or else
/// `filename`, or else `name`, or else a fixed one.
pub open spec fn is_name(object: Map<Seq<char>, Json>, name: Seq<char>) -> bool {
    ||| exists|file: Map<Seq<char>, Json>|
        #[trigger] has_object(object, "file"@, file) && has_text(file, "name"@, name)
    ||| file_lacks(object, "name"@) && has_text(object, "filename"@, name)
    ||| file_lacks(object, "name"@) && lacks_text(object, "filename"@) && has_text(
        object,
        "name"@,
        name,
    )
    ||| file_lacks(object, "name"@) && lacks_text(object, "filename"@) && lacks_text(
        object,
        "name"@,
    ) && name == "jumpserver-rdp"@
}

/// Whether the member `file` of `object`, where it is an object, has no text `key`.
pub open spec fn file_lacks(object: Map<Seq<char>, Json>, key: Seq<char>) -> bool {
    forall|file: Map<Seq<char>, Json>| #[trigger]
        has_object(object, "file"@, file) ==> lacks_text(file, key)
}

/// Whether the configuration in `object` is `raw`: the text `file.content`, or else `content`, or
/// else `config`.
pub open spec fn is_configuration(object: Map<Seq<char>, Json>, raw: Seq<char>) -> bool {
    ||| exists|file: Map<Seq<char>, Json>|
        #[trigger] has_object(object, "file"@, file) && has_text(file, "content"@, raw)
    ||| file_lacks(object, "content"@) && has_text(object, "content"@, raw)
    ||| file_lacks(object, "content"@) && lacks_text(object, "content"@) && has_text(
        object,
        "config"@,
        raw,
    )
}

/// A text in the member `file`, where there is one.
proof fn lemma_file(object: Map<Seq<char>, Json>, key: Seq<char>)
    ensures
        file_lacks(object, key) ==> link::nested_text(object, "file"@, key) is None,
        forall|file: Map<Seq<char>, Json>, s: Seq<char>|
            #[trigger] has_object(object, "file"@, file) && #[trigger] has_text(file, key, s)
                ==> link::nested_text(object, "file"@, key) == Some(s),
{
    if file_lacks(object, key) && object.contains_key("file"@) {
        match object["file"@] {
            Json::Object(file) => {
                assert(has_object(object, "file"@, file));
            },
            _ => {},
        }
    }
}

/// The connection of a document has the name, the protocol and the secret that the document gives,
/// and the configuration that its text becomes for the profile.
pub proof fn law_connection_of_document(
    object: Map<Seq<char>, Json>,
    name: Seq<char>,
    raw: Seq<char>,
    config: Seq<char>,
    inner: bool,
    profile: Seq<char>,
    saved: Option<Seq<char>>,
)
    requires
        is_name(object, name),
        is_configuration(object, raw),
        link::embedded_config(raw) == Ok::<(Seq<char>, bool), Seq<char>>((config, inner)),
    ensures
        ({
            let made = template::normalized(config, profile, saved);
            link::launch_of(Json::Object(object), profile, saved) matches Ok(launch) && {
                &&& launch.name == name
                &&& launch.content == made.content
                &&& launch.config_strategy == made.strategy
                &&& launch.compat_patches == made.patches
                &&& launch.inner_config_base64 == inner
                &&& launch.password == link::token_secret(object)
                &&& forall|p: Seq<char>| #[trigger]
                    has_text(object, "protocol"@, p) ==> launch.protocol == text::lowered(
                        text::trimmed(p),
                    )
                &&& lacks_text(object, "protocol"@) ==> launch.protocol.len() == 0
            }
        }),
{
    reveal_strlit("");
    lemma_file(object, "name"@);
    lemma_file(object, "content"@);
    lemma_empty();
}

/// Nothing is left of nothing.
proof fn lemma_empty()
    ensures
        text::lowered(text::trimmed(""@)).len() == 0,
{
    reveal_strlit("");
    text::lemma_trimmed_keeps(""@, |c: char| text::is_white_space(c));
}

/// A document that is no object, one without a configuration, and one whose configuration cannot
/// be read, ask for no connection.
pub proof fn law_no_connection_without_configuration(
    value: Json,
    object: Map<Seq<char>, Json>,
    raw: Seq<char>,
    message: Seq<char>,
    profile: Seq<char>,
    saved: Option<Seq<char>>,
)
    ensures
        !(value is Object) ==> link::launch_of(value, profile, saved) == Err::<Launch, Seq<char>>(
            "decoded payload is not a JSON object"@,
        ),
        file_lacks(object, "content"@) && lacks_text(object, "content"@) && lacks_text(
            object,
            "config"@,
        ) ==> link::launch_of(Json::Object(object), profile, saved) == Err::<Launch, Seq<char>>(
            "payload has no file.content/content/config RDP data"@,
        ),
        is_configuration(object, raw) && link::embedded_config(raw) == Err::<
            (Seq<char>, bool),
            Seq<char>,
        >(message) ==> link::launch_of(Json::Object(object), profile, saved) == Err::<
            Launch,
            Seq<char>,
        >(message),
{
    lemma_file(object, "content"@);
}

/// Whether one of the first twelve lines of `s` starts with `full address:s:` or `username:s:`.
pub open spec fn is_config_text(s: Seq<char>) -> bool {
    exists|i: int|
        0 <= i < text::lines_of(s).len() && i < 12 && ("full address:s:"@.is_prefix_of(
            #[trigger] text::lines_of(s)[i],
        ) || "username:s:"@.is_prefix_of(text::lines_of(s)[i]))
}

/// Whether `s`, white space around it aside, has at least sixteen characters, all of which may
/// stand in a Base64 text.
pub open spec fn may_be_base64(s: Seq<char>) -> bool {
    text::trimmed(s).len() >= 16 && forall|i: int|
        0 <= i < text::trimmed(s).len() ==> settings_laws::is_base64_char(
            #[trigger] text::trimmed(s)[i],
        )
}

/// The configuration in a payload: a text that is one, with its escaped line breaks replaced; the
/// text that a Base64 text stands for, where that is one; and otherwise the text as it is.
pub proof fn law_embedded_configuration(raw: Seq<char>, inside: Seq<char>)
    ensures
        is_config_text(settings::unescaped_breaks(raw)) ==> link::embedded_config(raw) == Ok::<
            (Seq<char>, bool),
            Seq<char>,
        >((settings::unescaped_breaks(raw), false)),
        !is_config_text(settings::unescaped_breaks(raw)) && !may_be_base64(raw)
            ==> link::embedded_config(raw) == Ok::<(Seq<char>, bool), Seq<char>>((raw, false)),
        !is_config_text(settings::unescaped_breaks(raw)) && may_be_base64(raw)
            && base64::lossy_decoded(text::trimmed(raw)) == Ok::<Seq<u8>, Seq<char>>(
            encode_utf8(inside),
        ) ==> link::embedded_config(raw) == (if is_config_text(
            settings::unescaped_breaks(inside),
        ) {
            Ok::<(Seq<char>, bool), Seq<char>>((settings::unescaped_breaks(inside), true))
        } else {
            Ok((raw, false))
        }),
{
    settings_laws::law_configuration_is_recognised(settings::unescaped_breaks(raw));
    settings_laws::law_configuration_is_recognised(settings::unescaped_breaks(inside));
    settings_laws::law_base64_is_recognised(raw);
    settings_laws::law_base64_is_recognised(text::trimmed(raw));
    text::lemma_trimmed_props(raw, |c: char| text::is_white_space(c));
    text::lemma_trimmed_keeps(text::trimmed(raw), |c: char| text::is_white_space(c));
    encode_utf8_valid_utf8(inside);
    encode_utf8_decode_utf8(inside);
}

/// A payload that looks like Base64 and is none, or that stands for no text, is refused.
pub proof fn law_unreadable_configuration_is_refused(raw: Seq<char>, why: Seq<char>, bytes: Seq<u8>)
    requires
        !is_config_text(settings::unescaped_breaks(raw)),
        may_be_base64(raw),
    ensures
        base64::lossy_decoded(text::trimmed(raw)) == Err::<Seq<u8>, Seq<char>>(why)
            ==> link::embedded_config(raw) == Err::<(Seq<char>, bool), Seq<char>>(why),
        base64::lossy_decoded(text::trimmed(raw)) == Ok::<Seq<u8>, Seq<char>>(bytes)
            && !valid_utf8(bytes) ==> link::embedded_config(raw) == Err::<
            (Seq<char>, bool),
            Seq<char>,
        >("embedded RDP config is not UTF-8: "@ + utf::utf8_error_text(bytes)),
{
    settings_laws::law_configuration_is_recognised(settings::unescaped_breaks(raw));
    settings_laws::law_base64_is_recognised(raw);
    settings_laws::law_base64_is_recognised(text::trimmed(raw));
    text::lemma_trimmed_props(raw, |c: char| text::is_white_space(c));
    text::lemma_trimmed_keeps(text::trimmed(raw), |c: char| text::is_white_space(c));
}

// ---------------------------------------------------------------------------
// The encodings
// ---------------------------------------------------------------------------

/// The symbols of Base64: capital letters, small letters, digits, and two symbols that each
/// alphabet writes in its own way.
pub proof fn law_base64_symbols(x: u8)
    ensures
        65 <= x <= 90 ==> base64::sextet(x) == Some((x - 65) as nat),
        97 <= x <= 122 ==> base64::sextet(x) == Some((x - 97 + 26) as nat),
        48 <= x <= 57 ==> base64::sextet(x) == Some((x - 48 + 52) as nat),
        x == 43 || x == 45 ==> base64::sextet(x) == Some(62nat),
        x == 47 || x == 95 ==> base64::sextet(x) == Some(63nat),
        !(65 <= x <= 90 || 97 <= x <= 122 || 48 <= x <= 57 || x == 43 || x == 45 || x == 47 || x
            == 95) ==> base64::sextet(x) is None,
        base64::is_pad(x) <==> x == 61,
        base64::is_ascii_ws(x) <==> x == 32 || x == 9 || x == 10 || x == 12 || x == 13,
{
}

/// Four numbers of six bits form the three bytes with the same twenty-four bits; at the end, two
/// and three of them form one byte and two, and the bits that are left over are dropped.
pub proof fn law_base64_bits(a: nat, b: nat, c: nat, d: nat, rest: Seq<nat>)
    requires
        a < 64 && b < 64 && c < 64 && d < 64,
    ensures
        ({
            let all = base64::octets(seq![a, b, c, d] + rest);
            &&& all.len() == 3 + base64::octets(rest).len()
            &&& all[0] * 65536 + all[1] * 256 + all[2] == a * 262144 + b * 4096 + c * 64 + d
            &&& all.skip(3) == base64::octets(rest)
        }),
        ({
            let two = base64::octets(seq![a, b, c]);
            two.len() == 2 && two[0] * 256 + two[1] == (a * 4096 + b * 64 + c) / 4
        }),
        ({
            let one = base64::octets(seq![a, b]);
            one.len() == 1 && one[0] == (a * 64 + b) / 16
        }),
        base64::octets(seq![a]).len() == 0,
        base64::octets(Seq::empty()).len() == 0,
{
    let v = seq![a, b, c, d] + rest;
    let all = base64::octets(v);
    let tail = base64::octets(rest);
    assert(v[0] == a && v[1] == b && v[2] == c && v[3] == d);
    assert(all[0] == base64::octet(v, 0) && all[1] == base64::octet(v, 1) && all[2]
        == base64::octet(v, 2));
    assert(all.len() == 3 + tail.len());
    assert forall|j: int| 0 <= j < tail.len() implies all.skip(3)[j] == tail[j] by {
        let q = j / 3 * 4;
        assert((j + 3) / 3 == j / 3 + 1 && (j + 3) % 3 == j % 3);
        assert(v[q + 4] == rest[q] && v[q + 5] == rest[q + 1]);
        if j % 3 >= 1 {
            assert(v[q + 6] == rest[q + 2]);
        }
        if j % 3 == 2 {
            assert(v[q + 7] == rest[q + 3]);
        }
        assert(all[j + 3] == base64::octet(v, j + 3));
        assert(tail[j] == base64::octet(rest, j));
    }
    assert(all.skip(3) =~= tail);
    let t = seq![a, b, c];
    assert(base64::octets(t)[0] == base64::octet(t, 0) && base64::octets(t)[1] == base64::octet(
        t,
        1,
    ));
    let u = seq![a, b];
    assert(base64::octets(u)[0] == base64::octet(u, 0));
}

/// The symbols of a Base64 text are read one by one; behind padding, anything but padding is a
/// fault, and so is each byte that is no symbol.
pub proof fn law_base64_is_read_symbol_by_symbol(x: u8, rest: Seq<u8>)
    ensures
        base64::sextet(x) matches Some(v) ==> base64::sextets(seq![x] + rest) == (
        match base64::sextets(rest) {
            Ok(w) => Ok::<Seq<nat>, Seq<char>>(seq![v] + w),
            Err(message) => Err(message),
        }),
        x == 61 ==> base64::sextets(seq![x] + rest) == (if forall|i: int|
            0 <= i < rest.len() ==> #[trigger] rest[i] == 61 {
            Ok::<Seq<nat>, Seq<char>>(seq![])
        } else {
            Err("base64 data after padding"@)
        }),
        x != 61 && base64::sextet(x) is None ==> base64::sextets(seq![x] + rest) == Err::<
            Seq<nat>,
            Seq<char>,
        >("invalid base64 byte: "@ + seq![x as char]),
        base64::sextets(Seq::empty()) == Ok::<Seq<nat>, Seq<char>>(seq![]),
{
    let d = seq![x] + rest;
    assert(d[0] == x);
    assert(d.skip(1) =~= rest);
    if x == 61 {
        let plain = forall|i: int| 0 <= i < rest.len() ==> #[trigger] rest[i] == 61;
        if plain {
            assert forall|i: int| 0 <= i < d.len() implies base64::is_pad(#[trigger] d[i]) by {
                if i > 0 {
                    assert(d[i] == rest[i - 1]);
                }
            }
        } else {
            let i = choose|i: int| 0 <= i < rest.len() && #[trigger] rest[i] != 61;
            assert(d[i + 1] == rest[i]);
            assert(!base64::is_pad(d[i + 1]));
        }
    }
}

/// White space in a Base64 text is passed over.
pub proof fn law_white_space_in_base64(x: u8, rest: Seq<u8>)
    ensures
        x == 32 || x == 9 || x == 10 || x == 12 || x == 13 ==> base64::compact(seq![x] + rest)
            == base64::compact(rest),
        !(x == 32 || x == 9 || x == 10 || x == 12 || x == 13) ==> base64::compact(seq![x] + rest)
            == seq![x] + base64::compact(rest),
        base64::compact(Seq::empty()) == Seq::<u8>::empty(),
{
    let b = seq![x] + rest;
    assert(b[0] == x);
    assert(b.skip(1) =~= rest);
}

/// A Base64 text stands for the bytes of its symbols.
pub proof fn law_base64_text(s: Seq<char>, v: Seq<nat>, why: Seq<char>)
    ensures
        base64::sextets(base64::compact(encode_utf8(s))) == Ok::<Seq<nat>, Seq<char>>(v)
            ==> base64::base64_decoded(s) == Ok::<Seq<u8>, Seq<char>>(base64::octets(v))
            && base64::lossy_decoded(s) == Ok::<Seq<u8>, Seq<char>>(base64::octets(v)),
        base64::sextets(base64::compact(encode_utf8(s))) == Err::<Seq<nat>, Seq<char>>(why)
            ==> base64::base64_decoded(s) == Err::<Seq<u8>, Seq<char>>(why),
        base64::sextets(base64::compact(encode_utf8(s))) == Err::<Seq<nat>, Seq<char>>(why) && why
            != "base64 data after padding"@ ==> base64::lossy_decoded(s) == Err::<
            Seq<u8>,
            Seq<char>,
        >(why),
{
}

/// Hexadecimal digits have their values in either case, and nothing else is one.
pub proof fn law_hexadecimal_digits(x: u8)
    ensures
        48 <= x <= 57 ==> percent::is_hex(x) && percent::hex_of(x) == x - 48,
        65 <= x <= 70 ==> percent::is_hex(x) && percent::hex_of(x) == x - 65 + 10,
        97 <= x <= 102 ==> percent::is_hex(x) && percent::hex_of(x) == x - 97 + 10,
        percent::is_hex(x) ==> 48 <= x <= 57 || 65 <= x <= 70 || 97 <= x <= 102,
{
}

/// A percent sign and two hexadecimal digits stand for the byte that they write, and each other
/// byte for itself; a percent sign with anything else behind it is a fault.
pub proof fn law_percent_escapes(x: u8, h: u8, l: u8, rest: Seq<u8>)
    ensures
        x != 37 ==> percent::unescaped(seq![x] + rest) == (match percent::unescaped(rest) {
            Ok(bytes) => Ok::<Seq<u8>, Seq<char>>(seq![x] + bytes),
            Err(message) => Err(message),
        }),
        percent::is_hex(h) && percent::is_hex(l) ==> percent::unescaped(seq![37u8, h, l] + rest) == (
        match percent::unescaped(rest) {
            Ok(bytes) => Ok::<Seq<u8>, Seq<char>>(
                seq![(16 * percent::hex_of(h) + percent::hex_of(l)) as u8] + bytes,
            ),
            Err(message) => Err(message),
        }),
        !percent::is_hex(h) ==> percent::unescaped(seq![37u8, h, l] + rest) == Err::<
            Seq<u8>,
            Seq<char>,
        >("bad percent escape: "@ + seq![h as char]),
        percent::is_hex(h) && !percent::is_hex(l) ==> percent::unescaped(seq![37u8, h, l] + rest)
            == Err::<Seq<u8>, Seq<char>>("bad percent escape: "@ + seq![l as char]),
        percent::unescaped(seq![37u8, h]) == Err::<Seq<u8>, Seq<char>>(
            "bad percent escape at end of input"@,
        ),
        percent::unescaped(seq![37u8]) == Err::<Seq<u8>, Seq<char>>(
            "bad percent escape at end of input"@,
        ),
        percent::unescaped(Seq::empty()) == Ok::<Seq<u8>, Seq<char>>(seq![]),
{
    let one = seq![x] + rest;
    assert(one[0] == x);
    assert(one.skip(1) =~= rest);
    let three = seq![37u8, h, l] + rest;
    assert(three[0] == 37 && three[1] == h && three[2] == l);
    assert(three.skip(3) =~= rest);
    assert(seq![37u8, h][0] == 37);
    assert(seq![37u8][0] == 37);
}

/// A payload with percent escapes stands for the text that its bytes encode.
pub proof fn law_percent_text(s: Seq<char>, t: Seq<char>, bytes: Seq<u8>, why: Seq<char>)
    ensures
        percent::unescaped(encode_utf8(s)) == Ok::<Seq<u8>, Seq<char>>(encode_utf8(t))
            ==> percent::percent_decoded(s) == Ok::<Seq<char>, Seq<char>>(t),
        percent::unescaped(encode_utf8(s)) == Err::<Seq<u8>, Seq<char>>(why)
            ==> percent::percent_decoded(s) == Err::<Seq<char>, Seq<char>>(why),
        percent::unescaped(encode_utf8(s)) == Ok::<Seq<u8>, Seq<char>>(bytes) && !valid_utf8(bytes)
            ==> percent::percent_decoded(s) == Err::<Seq<char>, Seq<char>>(
            "percent-decoded input is not UTF-8: "@ + utf::utf8_error_text(bytes),
        ),
{
    encode_utf8_valid_utf8(t);
    encode_utf8_decode_utf8(t);
}

/// The letters behind a backslash in a JSON string, and what they stand for.
pub proof fn law_json_escapes(x: u8)
    ensures
        x == 34 || x == 92 || x == 47 ==> json::simple_escape(x) == Some(x as char),
        x == 98 ==> json::simple_escape(x) == Some('\u{8}'),
        x == 102 ==> json::simple_escape(x) == Some('\u{c}'),
        x == 110 ==> json::simple_escape(x) == Some('\n'),
        x == 114 ==> json::simple_escape(x) == Some('\r'),
        x == 116 ==> json::simple_escape(x) == Some('\t'),
        x != 34 && x != 92 && x != 47 && x != 98 && x != 102 && x != 110 && x != 114 && x != 116
            ==> json::simple_escape(x) is None,
{
}

/// The halves of surrogate pairs.
pub proof fn law_surrogates(v: nat)
    ensures
        json::is_high_surrogate(v) <==> 0xd800 <= v < 0xdc00,
        json::is_low_surrogate(v) <==> 0xdc00 <= v < 0xe000,
{
}

// ---------------------------------------------------------------------------
// The link
// ---------------------------------------------------------------------------

/// A link is read in steps, and the first one that fails says why.
pub proof fn law_faults_of_a_link(input: Seq<char>, t: Seq<char>, bytes: Seq<u8>, why: Seq<char>)
    ensures
        percent::percent_decoded(link::link_payload(input)) == Err::<Seq<char>, Seq<char>>(why)
            ==> link::link_text(input) == Err::<Seq<char>, Seq<char>>(why),
        percent::percent_decoded(link::link_payload(input)) == Ok::<Seq<char>, Seq<char>>(t)
            && base64::lossy_decoded(text::replaced(t, seq![' '], seq!['+'])) == Err::<
            Seq<u8>,
            Seq<char>,
        >(why) ==> link::link_text(input) == Err::<Seq<char>, Seq<char>>(why),
        percent::percent_decoded(link::link_payload(input)) == Ok::<Seq<char>, Seq<char>>(t)
            && base64::lossy_decoded(text::replaced(t, seq![' '], seq!['+'])) == Ok::<
            Seq<u8>,
            Seq<char>,
        >(bytes) && !valid_utf8(bytes) ==> link::link_text(input) == Err::<Seq<char>, Seq<char>>(
            "decoded payload is not UTF-8: "@ + utf::utf8_error_text(bytes),
        ),
        percent::percent_decoded(link::link_payload(input)) == Ok::<Seq<char>, Seq<char>>(t)
            && base64::lossy_decoded(text::replaced(t, seq![' '], seq!['+'])) == Ok::<
            Seq<u8>,
            Seq<char>,
        >(bytes) && valid_utf8(bytes) ==> link::link_text(input) == Ok::<Seq<char>, Seq<char>>(
            decode_utf8(bytes),
        ),
{
    reveal_strlit(" ");
    reveal_strlit("+");
    assert(" "@ =~= seq![' ']);
    assert("+"@ =~= seq!['+']);
}

/// A link asks for the connection of its document, and a document that is none is refused with
/// the reader's reason.
pub proof fn law_link_is_read_as_its_document(
    input: Seq<char>,
    document: Seq<char>,
    value: Json,
    why: Seq<char>,
    profile: Seq<char>,
    saved: Option<Seq<char>>,
)
    ensures
        link::link_text(input) == Err::<Seq<char>, Seq<char>>(why) ==> link::link_launch(
            input,
            profile,
            saved,
        ) == Err::<Launch, Seq<char>>(why),
        link::link_text(input) == Ok::<Seq<char>, Seq<char>>(document) && json::json_of(document)
            == Err::<Json, Seq<char>>(why) ==> link::link_launch(input, profile, saved) == Err::<
            Launch,
            Seq<char>,
        >(why),
        link::link_text(input) == Ok::<Seq<char>, Seq<char>>(document) && json::json_of(document)
            == Ok::<Json, Seq<char>>(value) ==> link::link_launch(input, profile, saved)
            == link::launch_of(value, profile, saved),
{
}

} // verus!
