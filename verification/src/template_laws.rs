//! What becomes of a saved template.
use crate::profile_laws;
use crate::settings_laws;
use crate::template;
use crate::text;
use vstd::prelude::*;

verus! {

/// Whether the trimmed line `line` sets `name`, whatever the case of its letters.
pub open spec fn is_line_of(line: Seq<char>, name: Seq<char>) -> bool {
    text::same_ignoring_case(text::before(line, ':'), name)
}

/// Whether the trimmed line `line` holds stored credentials: it starts, in whatever case, with
/// `password`, `gatewayaccesstoken`, `gatewaycredentialssource` or `gatewayusername`.
pub open spec fn stores_credentials(line: Seq<char>) -> bool {
    ||| settings_laws::starts_like(line, "password"@)
    ||| settings_laws::starts_like(line, "gatewayaccesstoken"@)
    ||| settings_laws::starts_like(line, "gatewaycredentialssource"@)
    ||| settings_laws::starts_like(line, "gatewayusername"@)
}

/// Whether the trimmed line `line` of a template is taken over.
pub open spec fn is_taken_over(line: Seq<char>) -> bool {
    &&& line.len() > 0
    &&& !is_line_of(line, "full address"@)
    &&& !is_line_of(line, "username"@)
    &&& !stores_credentials(line)
}

/// The lines of `lines` that are taken over, trimmed and in their order.
pub open spec fn taken_over(lines: Seq<Seq<char>>) -> Seq<Seq<char>>
    decreases lines.len(),
{
    if lines.len() == 0 {
        seq![]
    } else {
        let line = text::trimmed(lines[0]);
        let rest = taken_over(lines.drop_first());
        if is_taken_over(line) {
            seq![line] + rest
        } else {
            rest
        }
    }
}

/// The lines that hold credentials are those that start with one of the four words.
proof fn lemma_credentials(line: Seq<char>)
    ensures
        template::is_credential_line(line) == stores_credentials(line),
{
    reveal_strlit("password");
    reveal_strlit("gatewayaccesstoken");
    reveal_strlit("gatewaycredentialssource");
    reveal_strlit("gatewayusername");
    assert(text::lowered("password"@) =~= "password"@);
    assert(text::lowered("gatewayaccesstoken"@) =~= "gatewayaccesstoken"@);
    assert(text::lowered("gatewaycredentialssource"@) =~= "gatewaycredentialssource"@);
    assert(text::lowered("gatewayusername"@) =~= "gatewayusername"@);
    settings_laws::lemma_starts_like(line, "password"@);
    settings_laws::lemma_starts_like(line, "gatewayaccesstoken"@);
    settings_laws::lemma_starts_like(line, "gatewaycredentialssource"@);
    settings_laws::lemma_starts_like(line, "gatewayusername"@);
}

proof fn lemma_taken_over(lines: Seq<Seq<char>>)
    ensures
        taken_over(lines) == template::staying(lines),
    decreases lines.len(),
{
    if lines.len() > 0 {
        lemma_credentials(text::trimmed(lines[0]));
        lemma_taken_over(lines.drop_first());
    }
}

/// A line of a template is among the lines that are taken over.
proof fn lemma_is_taken_over(lines: Seq<Seq<char>>, j: int)
    requires
        0 <= j < lines.len(),
        is_taken_over(text::trimmed(lines[j])),
    ensures
        taken_over(lines).contains(text::trimmed(lines[j])),
    decreases lines.len(),
{
    let line = text::trimmed(lines[0]);
    let rest = lines.drop_first();
    let all = taken_over(lines);
    if j == 0 {
        assert(all[0] == line);
    } else {
        assert(rest[j - 1] == lines[j]);
        lemma_is_taken_over(rest, j - 1);
        let tail = taken_over(rest);
        let k = choose|k: int| 0 <= k < tail.len() && tail[k] == text::trimmed(lines[j]);
        if is_taken_over(line) {
            assert(all[k + 1] == tail[k]);
        } else {
            assert(all[k] == tail[k]);
        }
    }
}

/// What is left beside the account is a part of the lines.
proof fn lemma_beside_contains(lines: Seq<Seq<char>>, line: Seq<char>)
    requires
        template::beside_account(lines).contains(line),
    ensures
        lines.contains(line),
    decreases lines.len(),
{
    if lines.len() > 0 {
        let all = template::beside_account(lines);
        let rest = lines.drop_first();
        let tail = template::beside_account(rest);
        let k = choose|k: int| 0 <= k < all.len() && all[k] == line;
        if template::sets_account(lines[0]) || k > 0 {
            let m = if template::sets_account(lines[0]) {
                k
            } else {
                k - 1
            };
            assert(tail[m] == line);
            lemma_beside_contains(rest, line);
            let p = choose|p: int| 0 <= p < rest.len() && rest[p] == line;
            assert(lines[p + 1] == line);
        } else {
            assert(lines[0] == line);
        }
    }
}

/// A line of a template that neither sets the account nor starts with one of the words for stored
/// credentials is taken over.
pub proof fn law_template_line_is_taken_over(
    saved: Seq<char>,
    address: Seq<char>,
    username: Seq<char>,
    j: int,
)
    requires
        0 <= j < text::lines_of(saved).len(),
        text::trimmed(text::lines_of(saved)[j]).len() > 0,
        !is_line_of(text::trimmed(text::lines_of(saved)[j]), "full address"@),
        !is_line_of(text::trimmed(text::lines_of(saved)[j]), "username"@),
        !settings_laws::starts_like(text::trimmed(text::lines_of(saved)[j]), "password"@),
        !settings_laws::starts_like(text::trimmed(text::lines_of(saved)[j]), "gatewayaccesstoken"@),
        !settings_laws::starts_like(
            text::trimmed(text::lines_of(saved)[j]),
            "gatewaycredentialssource"@,
        ),
        !settings_laws::starts_like(text::trimmed(text::lines_of(saved)[j]), "gatewayusername"@),
    ensures
        template::template_lines(saved, address, username).contains(
            text::trimmed(text::lines_of(saved)[j]),
        ),
{
    let lines = text::lines_of(saved);
    let line = text::trimmed(lines[j]);
    lemma_is_taken_over(lines, j);
    lemma_taken_over(lines);
    template::law_template_keeps_other_lines(saved, address, username);
    lemma_beside_contains(template::template_lines(saved, address, username), line);
}

/// The lines that set neither the address nor the user name, in their order.
pub open spec fn beside_account(lines: Seq<Seq<char>>) -> Seq<Seq<char>>
    decreases lines.len(),
{
    if lines.len() == 0 {
        seq![]
    } else {
        let rest = beside_account(lines.drop_first());
        if is_line_of(lines[0], "full address"@) || is_line_of(lines[0], "username"@) {
            rest
        } else {
            seq![lines[0]] + rest
        }
    }
}

proof fn lemma_beside_account(lines: Seq<Seq<char>>)
    requires
        forall|p: int| 0 <= p < lines.len() ==> (#[trigger] lines[p]).len() > 0,
    ensures
        beside_account(lines) == template::beside_account(lines),
    decreases lines.len(),
{
    if lines.len() > 0 {
        let rest = lines.drop_first();
        assert(lines[0].len() > 0);
        assert forall|p: int| 0 <= p < rest.len() implies (#[trigger] rest[p]).len() > 0 by {
            assert(rest[p] == lines[p + 1]);
        }
        lemma_beside_account(rest);
    }
}

/// A filled template has the lines of the given account, the lines of the template that are taken
/// over, in their order, and nothing else. Where the template does not set the address, the
/// address comes first; where it does not set the user name, the user name comes second.
pub proof fn law_filled_template(saved: Seq<char>, address: Seq<char>, username: Seq<char>)
    ensures
        ({
            let old = text::lines_of(saved);
            let lines = template::template_lines(saved, address, username);
            let a = "full address:s:"@ + address;
            let u = "username:s:"@ + username;
            &&& lines.contains(a) && lines.contains(u)
            &&& beside_account(lines) == taken_over(old)
            &&& forall|p: int|
                0 <= p < lines.len() ==> #[trigger] lines[p] == a || lines[p] == u || is_taken_over(
                    lines[p],
                )
            &&& (forall|i: int|
                0 <= i < old.len() ==> text::trimmed(#[trigger] old[i]).len() == 0 || !is_line_of(
                    text::trimmed(old[i]),
                    "full address"@,
                )) ==> lines[0] == a
            &&& (forall|i: int|
                0 <= i < old.len() ==> text::trimmed(#[trigger] old[i]).len() == 0 || !is_line_of(
                    text::trimmed(old[i]),
                    "username"@,
                )) ==> lines[1] == u
        }),
{
    let old = text::lines_of(saved);
    let lines = template::template_lines(saved, address, username);
    template::law_template_lines(saved, address, username);
    template::law_template_keeps_other_lines(saved, address, username);
    lemma_taken_over(old);
    reveal_strlit("full address:s:");
    reveal_strlit("username:s:");
    assert forall|p: int| 0 <= p < lines.len() implies (#[trigger] lines[p]).len() > 0 && (lines[p]
        == "full address:s:"@ + address || lines[p] == "username:s:"@ + username || is_taken_over(
        lines[p],
    )) by {
        lemma_credentials(lines[p]);
    }
    lemma_beside_account(lines);
    template::lemma_added_lines(saved, address, username);
}

/// The configuration that a template gives consists of its lines.
pub proof fn law_filled_template_has_its_lines(
    saved: Seq<char>,
    address: Seq<char>,
    username: Seq<char>,
)
    requires
        profile_laws::is_value(address),
        profile_laws::is_value(username),
    ensures
        text::lines_of(template::from_template(saved, address, username))
            == template::template_lines(saved, address, username),
{
    template::lemma_template_lines_read_back(saved, address, username);
}

/// Credentials are taken for stored exactly where the line starts with one of the four words.
pub proof fn law_stored_credentials(line: Seq<char>)
    ensures
        template::is_credential_line(line) <==> settings_laws::starts_like(line, "password"@)
            || settings_laws::starts_like(line, "gatewayaccesstoken"@)
            || settings_laws::starts_like(line, "gatewaycredentialssource"@)
            || settings_laws::starts_like(line, "gatewayusername"@),
{
    lemma_credentials(line);
}

/// The lines of a template with the lines `a` and `u` in place of those that set the address and
/// the user name, and without blank lines and stored credentials.
pub open spec fn with_account(lines: Seq<Seq<char>>, a: Seq<char>, u: Seq<char>) -> Seq<Seq<char>>
    decreases lines.len(),
{
    if lines.len() == 0 {
        seq![]
    } else {
        let before = with_account(lines.drop_last(), a, u);
        let line = text::trimmed(lines.last());
        if line.len() == 0 {
            before
        } else if is_line_of(line, "full address"@) {
            before.push(a)
        } else if is_line_of(line, "username"@) {
            before.push(u)
        } else if stores_credentials(line) {
            before
        } else {
            before.push(line)
        }
    }
}

/// Filling in goes part by part.
proof fn lemma_filled_concat(
    x: Seq<Seq<char>>,
    y: Seq<Seq<char>>,
    address: Seq<char>,
    username: Seq<char>,
)
    ensures
        template::filled(x + y, address, username) == template::filled(x, address, username)
            + template::filled(y, address, username),
    decreases x.len(),
{
    if x.len() == 0 {
        assert(x + y =~= y);
        assert(template::filled(x, address, username) + template::filled(y, address, username)
            =~= template::filled(y, address, username));
    } else {
        assert((x + y)[0] == x[0]);
        assert((x + y).drop_first() =~= x.drop_first() + y);
        lemma_filled_concat(x.drop_first(), y, address, username);
        let h = template::filled_line(text::trimmed(x[0]), address, username);
        let m = template::filled(x.drop_first(), address, username);
        let t = template::filled(y, address, username);
        assert(h + (m + t) =~= (h + m) + t);
    }
}

proof fn lemma_with_account(lines: Seq<Seq<char>>, address: Seq<char>, username: Seq<char>)
    ensures
        template::filled(lines, address, username) == with_account(
            lines,
            "full address:s:"@ + address,
            "username:s:"@ + username,
        ),
    decreases lines.len(),
{
    if lines.len() > 0 {
        let before = lines.drop_last();
        let one = seq![lines.last()];
        assert(lines =~= before + one);
        lemma_filled_concat(before, one, address, username);
        lemma_with_account(before, address, username);
        assert(one.drop_first() =~= Seq::<Seq<char>>::empty());
        assert(one[0] == lines.last());
        let line = text::trimmed(lines.last());
        let h = template::filled_line(line, address, username);
        assert(template::filled(one.drop_first(), address, username) =~= Seq::<
            Seq<char>,
        >::empty());
        assert(template::filled(one, address, username) =~= h);
        lemma_credentials(line);
        let b = template::filled(before, address, username);
        if h.len() == 0 {
            assert(b + h =~= b);
        } else {
            assert(b + h =~= b.push(h[0]));
        }
    }
}

/// A template that sets the address and the user name keeps their places; what it does not set is
/// put before the rest, the address first and the user name second.
pub proof fn law_places_in_filled_template(saved: Seq<char>, address: Seq<char>, username: Seq<char>)
    ensures
        ({
            let old = text::lines_of(saved);
            let lines = template::template_lines(saved, address, username);
            let a = "full address:s:"@ + address;
            let u = "username:s:"@ + username;
            let filled = with_account(old, a, u);
            let has_a = exists|i: int|
                0 <= i < old.len() && text::trimmed(#[trigger] old[i]).len() > 0 && is_line_of(
                    text::trimmed(old[i]),
                    "full address"@,
                );
            let has_u = exists|i: int|
                0 <= i < old.len() && text::trimmed(#[trigger] old[i]).len() > 0 && is_line_of(
                    text::trimmed(old[i]),
                    "username"@,
                );
            &&& has_a && has_u ==> lines == filled
            &&& !has_a && has_u ==> lines == seq![a] + filled
            &&& has_a && !has_u ==> lines == filled.insert(1, u)
            &&& !has_a && !has_u ==> lines == seq![a, u] + filled
        }),
{
    let old = text::lines_of(saved);
    let a = "full address:s:"@ + address;
    let u = "username:s:"@ + username;
    let filled = template::filled(old, address, username);
    lemma_with_account(old, address, username);
    assert((seq![a] + filled).insert(1, u) =~= seq![a, u] + filled);
}

/// The host of a gateway is taken over from a template, though the user and the secrets of the
/// gateway are not.
pub proof fn law_gateway_host_is_taken_over(
    saved: Seq<char>,
    address: Seq<char>,
    username: Seq<char>,
    host: Seq<char>,
    j: int,
)
    requires
        0 <= j < text::lines_of(saved).len(),
        text::trimmed(text::lines_of(saved)[j]) == "gatewayhostname:s:"@ + host,
    ensures
        template::template_lines(saved, address, username).contains("gatewayhostname:s:"@ + host),
{
    reveal_strlit("gatewayhostname:s:");
    reveal_strlit("full address");
    reveal_strlit("username");
    reveal_strlit("password");
    reveal_strlit("gatewayaccesstoken");
    reveal_strlit("gatewaycredentialssource");
    reveal_strlit("gatewayusername");
    let line = "gatewayhostname:s:"@ + host;
    assert(line[0] == 'g' && line[7] == 'h' && line[15] == ':');
    assert forall|i: int| 0 <= i < 15 implies line[i] != ':' by {
        assert(line[i] == "gatewayhostname:s:"@[i]);
    }
    text::lemma_first_of(line, ':', 15);
    assert(text::lowered(text::before(line, ':')).len() == 15);
    assert(text::lowered("full address"@).len() == 12);
    assert(text::lowered("username"@).len() == 8);
    lemma_differs(line, "password"@, 0);
    lemma_differs(line, "gatewayaccesstoken"@, 7);
    lemma_differs(line, "gatewaycredentialssource"@, 7);
    lemma_differs(line, "gatewayusername"@, 7);
    law_template_line_is_taken_over(saved, address, username, j);
}

/// A text with another letter does not start like another one.
proof fn lemma_differs(line: Seq<char>, start: Seq<char>, i: int)
    requires
        0 <= i < start.len(),
        i < line.len(),
        text::lower(line[i]) != text::lower(start[i]),
    ensures
        !settings_laws::starts_like(line, start),
{
    if settings_laws::starts_like(line, start) {
        let head = line.take(start.len() as int);
        assert(text::lowered(head)[i] == text::lower(line[i]));
        assert(text::lowered(start)[i] == text::lower(start[i]));
    }
}

} // verus!
