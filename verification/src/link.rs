//! `jms://` links and the connections that they ask for.
use crate::base64;
use crate::documents;
use crate::documents::Doc;
use crate::error;
use crate::error::LauncherError;
use crate::json;
use crate::json::{Json, JsonObject, JsonParser, JsonValue};
use crate::percent;
use crate::profiles;
use crate::settings;
use crate::template;
use crate::text;
use crate::utf;
use vstd::prelude::*;
use vstd::utf8::*;

verus! {

/// A connection that a link asks for.
#[derive(Debug)]
pub struct RdpLaunch {
    pub protocol: String,
    pub name: String,
    pub content: String,
    /// The secret of the connection token. The gateway takes it as the password of the user
    /// `user|token_id`; it is never written into the `.rdp` file.
    pub password: Option<String>,
    pub inner_config_base64: bool,
    pub config_strategy: &'static str,
    pub compat_patches: Vec<String>,
}

/// The model of a connection.
pub struct Launch {
    pub protocol: Seq<char>,
    pub name: Seq<char>,
    pub content: Seq<char>,
    pub password: Option<Seq<char>>,
    pub inner_config_base64: bool,
    pub config_strategy: Seq<char>,
    pub compat_patches: Seq<Seq<char>>,
}

impl View for RdpLaunch {
    type V = Launch;

    open spec fn view(&self) -> Launch {
        Launch {
            protocol: self.protocol@,
            name: self.name@,
            content: self.content@,
            password: profiles::string_view(self.password),
            inner_config_base64: self.inner_config_base64,
            config_strategy: self.config_strategy@,
            compat_patches: text::string_views(self.compat_patches@),
        }
    }
}

// ---------------------------------------------------------------------------
// Members of the payload
// ---------------------------------------------------------------------------

/// The value of the member `key`, where it is a string.
pub open spec fn text_member(object: Map<Seq<char>, Json>, key: Seq<char>) -> Option<Seq<char>> {
    if object.contains_key(key) {
        match object[key] {
            Json::Text(s) => Some(s),
            _ => None,
        }
    } else {
        None
    }
}

/// The value of the member `key`, where it is an object.
pub open spec fn object_member(object: Map<Seq<char>, Json>, key: Seq<char>) -> Option<
    Map<Seq<char>, Json>,
> {
    if object.contains_key(key) {
        match object[key] {
            Json::Object(o) => Some(o),
            _ => None,
        }
    } else {
        None
    }
}

/// `a`, or `b` where there is no `a`.
pub open spec fn either(a: Option<Seq<char>>, b: Option<Seq<char>>) -> Option<Seq<char>> {
    if a is Some {
        a
    } else {
        b
    }
}

/// `a`, where it is not empty.
pub open spec fn not_empty(a: Option<Seq<char>>) -> Option<Seq<char>> {
    match a {
        Some(s) => if s.len() > 0 {
            Some(s)
        } else {
            None
        },
        None => None,
    }
}

/// The member `key` of the member object `outer`, where both are there.
pub open spec fn nested_text(
    object: Map<Seq<char>, Json>,
    outer: Seq<char>,
    key: Seq<char>,
) -> Option<Seq<char>> {
    match object_member(object, outer) {
        Some(o) => text_member(o, key),
        None => None,
    }
}

/// The secret of the connection token: the value of the token, the token itself, or the value of
/// the payload; the first of them that is a text and not empty.
pub open spec fn token_secret(object: Map<Seq<char>, Json>) -> Option<Seq<char>> {
    either(
        not_empty(nested_text(object, "token"@, "value"@)),
        either(
            not_empty(text_member(object, "token"@)),
            not_empty(text_member(object, "value"@)),
        ),
    )
}

/// The value of the member `key`, where it is a string.
pub fn get_string<'a>(object: &'a JsonObject, key: &str) -> (r: Option<&'a str>)
    ensures
        settings::text_view(r) == text_member(object@, key@),
{
    match object.get(key) {
        Some(JsonValue::String(value)) => Some(value.as_str()),
        _ => None,
    }
}

/// The secret of the connection token.
///
/// A payload holds it as `"token": {"id": "...", "value": "<secret>"}`, with the same `"value"`
/// beside it, or as `"token": "<secret>"`. The id of the token travels in the user name and is
/// only a lookup key: it is never taken for the secret.
pub fn extract_token_secret(object: &JsonObject) -> (r: Option<String>)
    ensures
        profiles::string_view(r) == token_secret(object@),
{
    if let Some(JsonValue::Object(token)) = object.get("token") {
        if let Some(value) = get_string(token, "value") {
            if !value.is_empty() {
                return Some(value.to_string());
            }
        }
    }
    if let Some(token) = get_string(object, "token") {
        if !token.is_empty() {
            return Some(token.to_string());
        }
    }
    if let Some(value) = get_string(object, "value") {
        if !value.is_empty() {
            return Some(value.to_string());
        }
    }
    None
}

// ---------------------------------------------------------------------------
// The configuration in the payload
// ---------------------------------------------------------------------------

/// The configuration that `content` holds, as it is or as Base64 text, and whether it was the
/// latter. What is neither is kept as it is.
pub open spec fn embedded_config(content: Seq<char>) -> Result<(Seq<char>, bool), Seq<char>> {
    if settings::is_rdp(settings::unescaped_breaks(content)) {
        Ok((settings::unescaped_breaks(content), false))
    } else if !settings::is_base64(text::trimmed(content)) {
        Ok((content, false))
    } else {
        match base64::lossy_decoded(text::trimmed(content)) {
            Ok(bytes) => match utf::decoded_text(bytes, "embedded RDP config is not UTF-8: "@) {
                Ok(decoded) => if settings::is_rdp(settings::unescaped_breaks(decoded)) {
                    Ok((settings::unescaped_breaks(decoded), true))
                } else {
                    Ok((content, false))
                },
                Err(message) => Err(message),
            },
            Err(message) => Err(message),
        }
    }
}

/// The configuration that `content` holds, as it is or as Base64 text, and whether it was the
/// latter.
pub fn decode_embedded_rdp_config(content: &str) -> (r: Result<(String, bool), LauncherError>)
    ensures
        match r {
            Ok((config, inner)) => embedded_config(content@) == Ok::<(Seq<char>, bool), Seq<char>>(
                (config@, inner),
            ),
            Err(e) => embedded_config(content@) == Err::<(Seq<char>, bool), Seq<char>>(e@),
        },
{
    let normalized_content = settings::unescape_rdp_line_breaks(content);
    if settings::looks_like_rdp(normalized_content.as_str()) {
        return Ok((normalized_content, false));
    }
    let compact = text::trim(content);
    if !settings::looks_like_base64(compact) {
        return Ok((content.to_string(), false));
    }
    let decoded = match base64::base64_decode_lossy_tail(compact) {
        Ok(decoded) => decoded,
        Err(e) => {
            return Err(e);
        },
    };
    let decoded = match utf::decode_text(decoded, "embedded RDP config is not UTF-8: ") {
        Ok(decoded) => decoded,
        Err(e) => {
            return Err(e);
        },
    };
    let decoded = settings::unescape_rdp_line_breaks(decoded.as_str());
    if settings::looks_like_rdp(decoded.as_str()) {
        Ok((decoded, true))
    } else {
        Ok((content.to_string(), false))
    }
}

// ---------------------------------------------------------------------------
// The payload
// ---------------------------------------------------------------------------

/// The name of the connection.
pub open spec fn launch_name(object: Map<Seq<char>, Json>) -> Option<Seq<char>> {
    either(
        nested_text(object, "file"@, "name"@),
        either(text_member(object, "filename"@), text_member(object, "name"@)),
    )
}

/// The configuration of the connection, as the payload holds it.
pub open spec fn launch_content(object: Map<Seq<char>, Json>) -> Option<Seq<char>> {
    either(
        nested_text(object, "file"@, "content"@),
        either(text_member(object, "content"@), text_member(object, "config"@)),
    )
}

/// `a`, or `default` where there is none.
pub open spec fn or_default(a: Option<Seq<char>>, default: Seq<char>) -> Seq<char> {
    match a {
        Some(s) => s,
        None => default,
    }
}

/// The connection that the payload `value` asks for.
pub open spec fn launch_of(
    value: Json,
    profile: Seq<char>,
    template: Option<Seq<char>>,
) -> Result<Launch, Seq<char>> {
    match value {
        Json::Object(object) => match launch_content(object) {
            None => Err("payload has no file.content/content/config RDP data"@),
            Some(raw) => match embedded_config(raw) {
                Err(message) => Err(message),
                Ok((config, inner)) => {
                    let choice = template::normalized(config, profile, template);
                    Ok(
                        Launch {
                            protocol: text::lowered(
                                text::trimmed(or_default(text_member(object, "protocol"@), ""@)),
                            ),
                            name: or_default(launch_name(object), "jumpserver-rdp"@),
                            content: choice.content,
                            password: token_secret(object),
                            inner_config_base64: inner,
                            config_strategy: choice.strategy,
                            compat_patches: choice.patches,
                        },
                    )
                },
            },
        },
        _ => Err("decoded payload is not a JSON object"@),
    }
}

/// The member `key` of the object `file`, where both are there.
fn file_string<'a>(file: Option<&'a JsonObject>, key: &str) -> (r: Option<&'a str>)
    ensures
        settings::text_view(r) == (match file {
            Some(o) => text_member(o@, key@),
            None => None,
        }),
{
    match file {
        Some(o) => get_string(o, key),
        None => None,
    }
}

/// `a`, or `b` where there is no `a`.
fn or_else<'a>(a: Option<&'a str>, b: Option<&'a str>) -> (r: Option<&'a str>)
    ensures
        settings::text_view(r) == either(settings::text_view(a), settings::text_view(b)),
{
    match a {
        Some(s) => Some(s),
        None => b,
    }
}

/// The connection that the payload `json` asks for. `template` is the saved template, where there
/// is one.
pub fn extract_rdp_launch(
    json: &JsonValue,
    profile: &str,
    template: Option<&str>,
) -> (r: Result<RdpLaunch, LauncherError>)
    ensures
        error::outcome(r) == launch_of(json@, profile@, settings::text_view(template)),
{
    let object = match json {
        JsonValue::Object(object) => object,
        _ => {
            return Err(LauncherError::new("decoded payload is not a JSON object"));
        },
    };
    let protocol = match get_string(object, "protocol") {
        Some(s) => s,
        None => "",
    };
    let protocol = text::to_lower(text::trim(protocol));
    let file = match object.get("file") {
        Some(JsonValue::Object(file)) => Some(file),
        _ => None,
    };
    let name = or_else(
        file_string(file, "name"),
        or_else(get_string(object, "filename"), get_string(object, "name")),
    );
    let name = match name {
        Some(s) => s,
        None => "jumpserver-rdp",
    };
    let raw_content = or_else(
        file_string(file, "content"),
        or_else(get_string(object, "content"), get_string(object, "config")),
    );
    let raw_content = match raw_content {
        Some(s) => s,
        None => {
            return Err(LauncherError::new("payload has no file.content/content/config RDP data"));
        },
    };
    let (content, inner_config_base64) = match decode_embedded_rdp_config(raw_content) {
        Ok(pair) => pair,
        Err(e) => {
            return Err(e);
        },
    };
    let (content, config_strategy, compat_patches) = template::normalize_jumpserver_rdp_config(
        content,
        profile,
        template,
    );
    let password = extract_token_secret(object);
    Ok(
        RdpLaunch {
            protocol,
            name: name.to_string(),
            content,
            password,
            inner_config_base64,
            config_strategy,
            compat_patches,
        },
    )
}

// ---------------------------------------------------------------------------
// The link
// ---------------------------------------------------------------------------

/// `s` without `prefix` at its start.
pub open spec fn without_prefix(s: Seq<char>, prefix: Seq<char>) -> Seq<char> {
    if prefix.is_prefix_of(s) {
        s.skip(prefix.len() as int)
    } else {
        s
    }
}

/// The payload of the link `input`: without white space and quotes around it, and without the
/// name of the protocol.
pub open spec fn link_payload(input: Seq<char>) -> Seq<char> {
    let link = text::trimmed_of(text::trimmed_of(text::trimmed(input), '"'), '\'');
    if "jms://"@.is_prefix_of(link) {
        without_prefix(link, "jms://"@)
    } else {
        without_prefix(link, "JMS://"@)
    }
}

/// The text of the JSON document in the link `input`.
pub open spec fn link_text(input: Seq<char>) -> Result<Seq<char>, Seq<char>> {
    match percent::percent_decoded(link_payload(input)) {
        Ok(payload) => match base64::lossy_decoded(text::replaced(payload, " "@, "+"@)) {
            Ok(bytes) => utf::decoded_text(bytes, "decoded payload is not UTF-8: "@),
            Err(message) => Err(message),
        },
        Err(message) => Err(message),
    }
}

/// The connection that the JSON document `document` asks for.
pub open spec fn document_launch(
    document: Seq<char>,
    profile: Seq<char>,
    template: Option<Seq<char>>,
) -> Result<Launch, Seq<char>> {
    match json::json_of(document) {
        Ok(value) => launch_of(value, profile, template),
        Err(message) => Err(message),
    }
}

/// The connection that the link `input` asks for.
pub open spec fn link_launch(
    input: Seq<char>,
    profile: Seq<char>,
    template: Option<Seq<char>>,
) -> Result<Launch, Seq<char>> {
    match link_text(input) {
        Ok(document) => document_launch(document, profile, template),
        Err(message) => Err(message),
    }
}

/// `s` without `prefix` at its start, where it stands there.
fn strip_prefix<'a>(s: &'a str, prefix: &str) -> (r: Option<&'a str>)
    ensures
        match r {
            Some(rest) => prefix@.is_prefix_of(s@) && rest@ == s@.skip(prefix@.len() as int),
            None => !prefix@.is_prefix_of(s@),
        },
{
    if text::starts_with(s, prefix) {
        let n: usize = text::chars_of(prefix).len();
        Some(text::split_at_char(s, n).1)
    } else {
        None
    }
}

/// The connection that the link `input` asks for. `template` is the saved template, where there
/// is one.
pub fn parse_jms_link(input: &str, profile: &str, template: Option<&str>) -> (r: Result<
    RdpLaunch,
    LauncherError,
>)
    ensures
        error::outcome(r) == link_launch(input@, profile@, settings::text_view(template)),
{
    let trimmed = text::trim_char(text::trim_char(text::trim(input), '"'), '\'');
    let payload = match strip_prefix(trimmed, "jms://") {
        Some(rest) => rest,
        None => match strip_prefix(trimmed, "JMS://") {
            Some(rest) => rest,
            None => trimmed,
        },
    };
    let payload = match percent::percent_decode(payload) {
        Ok(payload) => payload,
        Err(e) => {
            return Err(e);
        },
    };
    proof {
        reveal_strlit(" ");
    }
    let payload = text::replace(payload.as_str(), " ", "+");
    let decoded = match base64::base64_decode_lossy_tail(payload.as_str()) {
        Ok(decoded) => decoded,
        Err(e) => {
            return Err(e);
        },
    };
    let json_text = match utf::decode_text(decoded, "decoded payload is not UTF-8: ") {
        Ok(json_text) => json_text,
        Err(e) => {
            return Err(e);
        },
    };
    let json = match JsonParser::new(json_text.as_str()).parse() {
        Ok(json) => json,
        Err(e) => {
            return Err(e);
        },
    };
    extract_rdp_launch(&json, profile, template)
}

// ---------------------------------------------------------------------------
// Laws
// ---------------------------------------------------------------------------

/// The payload of the link for the JSON document `document`: its Base64 text.
pub open spec fn payload_of(document: Seq<char>) -> Seq<char> {
    base64::encoded(encode_utf8(document))
}

/// The link for the JSON document `document`.
pub open spec fn link_of(document: Seq<char>) -> Seq<char> {
    "jms://"@ + payload_of(document)
}

/// Whether `c` is a printable ASCII character other than a quote and the space.
pub(crate) open spec fn is_plain(c: char) -> bool {
    '!' <= c <= '~' && c != '"' && c != '\''
}

/// A text of plain characters is its own payload, and the payload of a link.
proof fn lemma_payload(t: Seq<char>)
    requires
        forall|i: int| 0 <= i < t.len() ==> is_plain(#[trigger] t[i]) && t[i] != ':',
    ensures
        link_payload("jms://"@ + t) == t,
        link_payload("JMS://"@ + t) == t,
        link_payload(t) == t,
{
    reveal_strlit("jms://");
    reveal_strlit("JMS://");
    let small = "jms://"@ + t;
    let large = "JMS://"@ + t;
    lemma_no_trimming(small);
    lemma_no_trimming(large);
    lemma_no_trimming(t);
    assert(small.subrange(0, 6) == "jms://"@);
    assert(small.skip(6) == t);
    assert(large.subrange(0, 6) == "JMS://"@);
    assert(large.subrange(0, 6)[0] != "jms://"@[0]);
    assert(large.skip(6) == t);
    if "jms://"@.is_prefix_of(t) {
        assert(t.subrange(0, 6)[3] == ':');
        assert(is_plain(t[3]) && t[3] != ':');
    }
    if "JMS://"@.is_prefix_of(t) {
        assert(t.subrange(0, 6)[3] == ':');
        assert(is_plain(t[3]) && t[3] != ':');
    }
}

/// A text with plain characters at its ends is not trimmed.
proof fn lemma_no_trimming(s: Seq<char>)
    requires
        s.len() > 0 ==> is_plain(s[0]) && is_plain(s.last()),
    ensures
        text::trimmed_of(text::trimmed_of(text::trimmed(s), '"'), '\'') == s,
{
    text::lemma_trimmed_keeps(s, |c: char| text::is_white_space(c));
    text::lemma_trimmed_keeps(s, text::only('"'));
    text::lemma_trimmed_keeps(s, text::only('\''));
}

/// A payload that percent-decodes to `p`, which stands for the bytes of `document`, gives the
/// document.
proof fn lemma_link_text(input: Seq<char>, p: Seq<char>, document: Seq<char>)
    requires
        percent::percent_decoded(link_payload(input)) == Ok::<Seq<char>, Seq<char>>(p),
        base64::lossy_decoded(text::replaced(p, " "@, "+"@)) == Ok::<Seq<u8>, Seq<char>>(
            encode_utf8(document),
        ),
    ensures
        link_text(input) == Ok::<Seq<char>, Seq<char>>(document),
{
    encode_utf8_valid_utf8(document);
    encode_utf8_decode_utf8(document);
}

/// Symbols are plain characters, and neither percent signs nor spaces.
pub(crate) proof fn lemma_symbols_are_plain(t: Seq<char>)
    requires
        forall|i: int| 0 <= i < t.len() ==> base64::is_symbol(#[trigger] t[i]),
    ensures
        forall|i: int| 0 <= i < t.len() ==> is_plain(#[trigger] t[i]) && t[i] != ':',
        percent::percent_decoded(t) == Ok::<Seq<char>, Seq<char>>(t),
        text::replaced(t, " "@, "+"@) == t,
{
    reveal_strlit(" ");
    assert forall|i: int| 0 <= i < t.len() implies is_plain(#[trigger] t[i]) && t[i] != ':' by {
        assert(base64::is_symbol(t[i]));
    }
    if t.contains('%') {
        let i = choose|i: int| 0 <= i < t.len() && t[i] == '%';
        assert(base64::is_symbol(t[i]));
    }
    if t.contains(' ') {
        let i = choose|i: int| 0 <= i < t.len() && t[i] == ' ';
        assert(base64::is_symbol(t[i]));
    }
    percent::law_percent_keeps_plain_text(t);
    text::lemma_replaced_absent(t, " "@, "+"@);
}

/// A link gives back the document that was put into it, with the name of the protocol in small or
/// in large letters, or without it, and with a slash at its end.
pub proof fn law_link_reads_back(document: Seq<char>)
    ensures
        link_text(link_of(document)) == Ok::<Seq<char>, Seq<char>>(document),
        link_text("JMS://"@ + payload_of(document)) == Ok::<Seq<char>, Seq<char>>(document),
        link_text(payload_of(document)) == Ok::<Seq<char>, Seq<char>>(document),
        link_text(link_of(document) + seq!['/']) == Ok::<Seq<char>, Seq<char>>(document),
{
    let data = encode_utf8(document);
    let p = payload_of(document);
    let q = p + seq!['/'];
    base64::lemma_encoded_symbols(data);
    assert forall|i: int| 0 <= i < q.len() implies base64::is_symbol(#[trigger] q[i]) by {
        if i < p.len() {
            assert(q[i] == p[i]);
        }
    }
    lemma_symbols_are_plain(p);
    lemma_symbols_are_plain(q);
    lemma_payload(p);
    lemma_payload(q);
    base64::law_base64_round_trip(data);
    base64::law_base64_slash_ignored(data);
    lemma_link_text(link_of(document), p, document);
    lemma_link_text("JMS://"@ + p, p, document);
    lemma_link_text(p, p, document);
    assert(link_of(document) + seq!['/'] == "jms://"@ + q);
    lemma_link_text("jms://"@ + q, q, document);
}

/// A link asks for the connection of the document that was put into it.
pub proof fn law_link_launches_document(
    document: Seq<char>,
    profile: Seq<char>,
    template: Option<Seq<char>>,
)
    ensures
        link_launch(link_of(document), profile, template) == document_launch(
            document,
            profile,
            template,
        ),
{
    law_link_reads_back(document);
}

/// A link whose document was written from `doc`, with white space around it, asks for the
/// connection of the value that `doc` stands for.
pub proof fn law_link_launches_written_document(
    before: Seq<char>,
    doc: Doc,
    after: Seq<char>,
    profile: Seq<char>,
    template: Option<Seq<char>>,
)
    requires
        documents::is_sound(doc),
        documents::is_white(before),
        documents::is_white(after),
    ensures
        link_launch(link_of(before + documents::written(doc) + after), profile, template)
            == launch_of(documents::meaning(doc), profile, template),
{
    law_link_launches_document(before + documents::written(doc) + after, profile, template);
    documents::law_written_document_reads_back(before, doc, after);
}

/// `s` with white space, double quotes and single quotes around it, from the outside in.
pub open spec fn wrapped(
    s: Seq<char>,
    white: (Seq<char>, Seq<char>),
    double: (Seq<char>, Seq<char>),
    single: (Seq<char>, Seq<char>),
) -> Seq<char> {
    white.0 + (double.0 + (single.0 + s + single.1) + double.1) + white.1
}

/// Whether `c` is neither white space nor a quote.
pub open spec fn is_kept(c: char) -> bool {
    !text::is_white_space(c) && c != '"' && c != '\''
}

/// Whether `white`, `double` and `single` are white space, double quotes and single quotes.
pub open spec fn is_wrapping(
    white: (Seq<char>, Seq<char>),
    double: (Seq<char>, Seq<char>),
    single: (Seq<char>, Seq<char>),
) -> bool {
    &&& forall|i: int| 0 <= i < white.0.len() ==> text::is_white_space(#[trigger] white.0[i])
    &&& forall|i: int| 0 <= i < white.1.len() ==> text::is_white_space(#[trigger] white.1[i])
    &&& forall|i: int| 0 <= i < double.0.len() ==> #[trigger] double.0[i] == '"'
    &&& forall|i: int| 0 <= i < double.1.len() ==> #[trigger] double.1[i] == '"'
    &&& forall|i: int| 0 <= i < single.0.len() ==> #[trigger] single.0[i] == '\''
    &&& forall|i: int| 0 <= i < single.1.len() ==> #[trigger] single.1[i] == '\''
}

/// What stands around a link is taken off, layer by layer.
pub(crate) proof fn lemma_unwrapped(
    link: Seq<char>,
    white: (Seq<char>, Seq<char>),
    double: (Seq<char>, Seq<char>),
    single: (Seq<char>, Seq<char>),
)
    requires
        link.len() > 0 ==> is_kept(link[0]) && is_kept(link.last()),
        is_wrapping(white, double, single),
    ensures
        text::trimmed_of(
            text::trimmed_of(text::trimmed(wrapped(link, white, double, single)), '"'),
            '\'',
        ) == link,
        text::trimmed_of(text::trimmed_of(text::trimmed(link), '"'), '\'') == link,
{
    let inner = single.0 + link + single.1;
    let outer = double.0 + inner + double.1;
    let ws = |c: char| text::is_white_space(c);
    text::lemma_trimmed_keeps(link, ws);
    text::lemma_trimmed_keeps(link, text::only('"'));
    text::lemma_trimmed_keeps(link, text::only('\''));
    if inner.len() > 0 {
        lemma_ends(single.0, link, single.1);
    }
    if outer.len() > 0 {
        lemma_ends(double.0, inner, double.1);
    }
    text::lemma_trimmed_around(white.0, outer, white.1, ws);
    text::lemma_trimmed_around(double.0, inner, double.1, text::only('"'));
    text::lemma_trimmed_around(single.0, link, single.1, text::only('\''));
}

/// The ends of a text with something around it.
proof fn lemma_ends(a: Seq<char>, m: Seq<char>, b: Seq<char>)
    requires
        (a + m + b).len() > 0,
    ensures
        (a + m + b)[0] == (if a.len() > 0 {
            a[0]
        } else if m.len() > 0 {
            m[0]
        } else {
            b[0]
        }),
        (a + m + b).last() == (if b.len() > 0 {
            b.last()
        } else if m.len() > 0 {
            m.last()
        } else {
            a.last()
        }),
{
}

/// White space around a link, and quotes around it, do not change what it asks for.
pub proof fn law_quotes_around_link_ignored(
    link: Seq<char>,
    white: (Seq<char>, Seq<char>),
    double: (Seq<char>, Seq<char>),
    single: (Seq<char>, Seq<char>),
    profile: Seq<char>,
    template: Option<Seq<char>>,
)
    requires
        link.len() > 0 ==> is_kept(link[0]) && is_kept(link.last()),
        is_wrapping(white, double, single),
    ensures
        link_launch(wrapped(link, white, double, single), profile, template) == link_launch(
            link,
            profile,
            template,
        ),
{
    lemma_unwrapped(link, white, double, single);
    assert(link_payload(wrapped(link, white, double, single)) == link_payload(link));
}

/// Whether `x` is the byte of a plain character other than a colon.
spec fn is_plain_byte(x: u8) -> bool {
    '!' as u8 <= x <= '~' as u8 && x != '"' as u8 && x != '\'' as u8 && x != ':' as u8
}

/// Escaping leaves plain bytes plain.
proof fn lemma_escaped_plain(b: Seq<u8>, chosen: spec_fn(u8) -> bool)
    requires
        forall|i: int| 0 <= i < b.len() ==> is_plain_byte(#[trigger] b[i]),
    ensures
        forall|i: int|
            0 <= i < percent::escaped(b, chosen).len() ==> is_plain_byte(
                #[trigger] percent::escaped(b, chosen)[i],
            ),
    decreases b.len(),
{
    if b.len() > 0 {
        let rest = b.skip(1);
        let e = percent::escaped(b, chosen);
        assert(is_plain_byte(b[0]));
        assert forall|i: int| 0 <= i < rest.len() implies is_plain_byte(#[trigger] rest[i]) by {
            assert(rest[i] == b[i + 1]);
        }
        lemma_escaped_plain(rest, chosen);
        let n = e.len() - percent::escaped(rest, chosen).len();
        assert forall|i: int| 0 <= i < e.len() implies is_plain_byte(#[trigger] e[i]) by {
            if i >= n {
                assert(e[i] == percent::escaped(rest, chosen)[i - n]);
            }
        }
    }
}

/// A link whose payload holds percent escapes gives back the document that was put into it, with
/// the name of the protocol in small or in large letters, or without it.
pub proof fn law_escaped_link_reads_back(
    document: Seq<char>,
    payload: Seq<char>,
    chosen: spec_fn(u8) -> bool,
)
    requires
        encode_utf8(payload) == percent::escaped(encode_utf8(payload_of(document)), chosen),
    ensures
        link_text("jms://"@ + payload) == Ok::<Seq<char>, Seq<char>>(document),
        link_text("JMS://"@ + payload) == Ok::<Seq<char>, Seq<char>>(document),
        link_text(payload) == Ok::<Seq<char>, Seq<char>>(document),
{
    let data = encode_utf8(document);
    let p = payload_of(document);
    base64::lemma_encoded_symbols(data);
    lemma_symbols_are_plain(p);
    assert forall|i: int| 0 <= i < p.len() implies '\0' <= #[trigger] p[i] <= '\u{7f}' by {
        assert(is_plain(p[i]));
    }
    is_ascii_chars_encode_utf8(p);
    let b = encode_utf8(p);
    assert forall|i: int| 0 <= i < b.len() implies is_plain_byte(#[trigger] b[i]) by {
        assert(is_plain(p[i]) && p[i] != ':');
        assert(b[i] == p[i] as u8);
    }
    lemma_escaped_plain(b, chosen);
    let e = encode_utf8(payload);
    assert forall|i: int| 0 <= i < payload.len() implies is_plain(#[trigger] payload[i])
        && payload[i] != ':' by {
        let c = payload[i];
        char_is_scalar(c);
        text::lemma_encode_char(c);
        text::lemma_char_bound(c);
        text::lemma_encode_holds(payload, i, 0);
        let x = encode_scalar(c as u32)[0];
        let k = choose|k: int| 0 <= k < e.len() && e[k] == x;
        assert(is_plain_byte(e[k]));
    }
    lemma_payload(payload);
    percent::law_percent_round_trip(p, payload, chosen);
    base64::law_base64_round_trip(data);
    lemma_link_text("jms://"@ + payload, p, document);
    lemma_link_text("JMS://"@ + payload, p, document);
    lemma_link_text(payload, p, document);
}

/// A configuration that stands in the payload as Base64 text is found there.
pub proof fn law_embedded_base64_reads_back(config: Seq<char>)
    requires
        settings::is_rdp(settings::unescaped_breaks(config)),
    ensures
        embedded_config(base64::encoded(encode_utf8(config))) == Ok::<(Seq<char>, bool), Seq<char>>(
            (settings::unescaped_breaks(config), true),
        ),
{
    let data = encode_utf8(config);
    let e = base64::encoded(data);
    base64::lemma_encoded_symbols(data);
    lemma_symbols_are_plain(e);
    settings::lemma_rdp_length(config);
    text::lemma_encode_longer(config);
    assert(!e.contains('\\') && !e.contains('\n')) by {
        assert forall|i: int| 0 <= i < e.len() implies e[i] != '\\' && e[i] != '\n' by {
            assert(base64::is_symbol(e[i]));
        }
    }
    settings::law_text_without_escapes_kept(e);
    text::lemma_first_of_props(e, '\n');
    assert(text::lines_of(e) == seq![e]);
    assert(!settings::is_rdp_mark(e)) by {
        reveal_strlit("full address:s:");
        reveal_strlit("username:s:");
        if settings::is_rdp_mark(e) {
            let k = if "full address:s:"@.is_prefix_of(e) {
                12int
            } else {
                8int
            };
            assert(e[k] == ':') by {
                if "full address:s:"@.is_prefix_of(e) {
                    assert(e.subrange(0, 15)[12] == ':');
                } else {
                    assert(e.subrange(0, 11)[8] == ':');
                }
            }
            assert(base64::is_symbol(e[k]));
        }
    }
    assert(is_plain(e[0]) && is_plain(e.last()));
    text::lemma_trimmed_keeps(e, |c: char| text::is_white_space(c));
    assert(text::trimmed(e) == e);
    assert(settings::is_base64(e)) by {
        assert forall|i: int| 0 <= i < e.len() implies '\0' <= #[trigger] e[i] <= '\u{7f}' by {
            assert(is_plain(e[i]));
        }
        is_ascii_chars_encode_utf8(e);
        let b = encode_utf8(e);
        assert forall|i: int| 0 <= i < b.len() implies settings::is_base64_byte(#[trigger] b[i]) by {
            assert(base64::is_symbol(e[i]));
            assert(b[i] == e[i] as u8);
        }
    }
    base64::law_base64_round_trip(data);
    encode_utf8_valid_utf8(config);
    encode_utf8_decode_utf8(config);
}

/// The secret of a connection token is never empty.
pub proof fn law_token_secret_not_empty(object: Map<Seq<char>, Json>)
    ensures
        token_secret(object) matches Some(secret) ==> secret.len() > 0,
{
}

/// The id of a connection token has no influence on its secret.
pub proof fn law_token_id_is_no_secret(
    object: Map<Seq<char>, Json>,
    token: Map<Seq<char>, Json>,
    id: Json,
)
    requires
        object_member(object, "token"@) == Some(token),
    ensures
        token_secret(object.insert("token"@, Json::Object(token.insert("id"@, id))))
            == token_secret(object),
{
    reveal_strlit("token");
    reveal_strlit("value");
    reveal_strlit("id");
    assert("token"@[0] != "value"@[0]);
    assert("id"@.len() != "value"@.len());
}

/// The secret of the connection token has no influence on the configuration that is written to
/// the file, nor on anything else but the password.
pub proof fn law_secret_stays_out_of_configuration(
    object: Map<Seq<char>, Json>,
    token: Json,
    value: Json,
    profile: Seq<char>,
    template: Option<Seq<char>>,
)
    ensures
        ({
            let changed = object.insert("token"@, token).insert("value"@, value);
            launch_of(Json::Object(changed), profile, template) == (match launch_of(
                Json::Object(object),
                profile,
                template,
            ) {
                Ok(launch) => Ok(Launch { password: token_secret(changed), ..launch }),
                Err(message) => Err(message),
            })
        }),
{
    let changed = object.insert("token"@, token).insert("value"@, value);
    reveal_strlit("token");
    reveal_strlit("value");
    reveal_strlit("file");
    reveal_strlit("content");
    reveal_strlit("config");
    reveal_strlit("filename");
    reveal_strlit("name");
    reveal_strlit("protocol");
    assert("token"@.len() == 5 && "value"@.len() == 5);
    assert("file"@.len() == 4 && "content"@.len() == 7 && "config"@.len() == 6);
    assert("filename"@.len() == 8 && "name"@.len() == 4 && "protocol"@.len() == 8);
    assert(launch_content(changed) == launch_content(object));
    assert(launch_name(changed) == launch_name(object));
    assert(text_member(changed, "protocol"@) == text_member(object, "protocol"@));
}

} // verus!
