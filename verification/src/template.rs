//! A saved configuration that serves as a template, and the choice of the configuration.
use crate::profile_laws;
use crate::profiles;
use crate::settings;
use crate::text;
use vstd::prelude::*;

verus! {

/// The name of the file that holds the template.
pub const TEMPLATE_RDP_FILE_NAME: &'static str = "mstsc-success-template.rdp";

// ---------------------------------------------------------------------------
// Templates
// ---------------------------------------------------------------------------

/// Whether `line` holds credentials, which are not taken over from a template.
pub open spec fn is_credential_line(line: Seq<char>) -> bool {
    let lower = text::lowered(line);
    ||| "password"@.is_prefix_of(lower)
    ||| "gatewayaccesstoken"@.is_prefix_of(lower)
    ||| "gatewaycredentialssource"@.is_prefix_of(lower)
    ||| "gatewayusername"@.is_prefix_of(lower)
}

/// Whether one of `lines` sets `name`.
pub open spec fn some_line_sets(lines: Seq<Seq<char>>, name: Seq<char>) -> bool {
    exists|i: int| 0 <= i < lines.len() && settings::line_sets(text::trimmed(#[trigger] lines[i]), name)
}

/// What becomes of the lines of a template: the address and the user name are replaced, empty
/// lines and credentials are left out.
pub open spec fn filled(
    lines: Seq<Seq<char>>,
    address: Seq<char>,
    username: Seq<char>,
) -> Seq<Seq<char>>
    decreases lines.len(),
{
    if lines.len() == 0 {
        seq![]
    } else {
        filled_line(text::trimmed(lines[0]), address, username) + filled(
            lines.drop_first(),
            address,
            username,
        )
    }
}

/// What becomes of one trimmed line of a template.
pub open spec fn filled_line(
    line: Seq<char>,
    address: Seq<char>,
    username: Seq<char>,
) -> Seq<Seq<char>> {
    if line.len() == 0 {
        seq![]
    } else if settings::line_sets(line, "full address"@) {
        seq![profiles::address_line(address)]
    } else if settings::line_sets(line, "username"@) {
        seq![profiles::username_line(username)]
    } else if is_credential_line(line) {
        seq![]
    } else {
        seq![line]
    }
}

/// The lines of the configuration that a template gives: an address or a user name that the
/// template does not set is added as the first or the second line.
pub open spec fn template_lines(
    template: Seq<char>,
    address: Seq<char>,
    username: Seq<char>,
) -> Seq<Seq<char>> {
    let lines = text::lines_of(template);
    let body = filled(lines, address, username);
    let with_address = if some_line_sets(lines, "full address"@) {
        body
    } else {
        seq![profiles::address_line(address)] + body
    };
    if some_line_sets(lines, "username"@) {
        with_address
    } else {
        with_address.insert(1, profiles::username_line(username))
    }
}

/// The configuration that a template gives.
pub open spec fn from_template(
    template: Seq<char>,
    address: Seq<char>,
    username: Seq<char>,
) -> Seq<char> {
    text::joined(template_lines(template, address, username), "\n"@)
}

/// The configuration that `template` gives for the account of `content`.
pub open spec fn template_config(content: Seq<char>, template: Option<Seq<char>>) -> Option<
    Seq<char>,
> {
    match (profiles::account_of(content, true), template) {
        (Some((address, username)), Some(t)) => Some(from_template(t, address, username)),
        _ => None,
    }
}

/// Whether `line` holds credentials.
pub fn should_drop_template_rdp_line(line: &str) -> (r: bool)
    ensures
        r == is_credential_line(line@),
{
    let lower = text::to_lower(line);
    text::starts_with(lower.as_str(), "password") || text::starts_with(
        lower.as_str(),
        "gatewayaccesstoken",
    ) || text::starts_with(lower.as_str(), "gatewaycredentialssource") || text::starts_with(
        lower.as_str(),
        "gatewayusername",
    )
}

/// A line that sets the address stays one.
proof fn lemma_filled_not_empty(
    lines: Seq<Seq<char>>,
    address: Seq<char>,
    username: Seq<char>,
)
    requires
        some_line_sets(lines, "full address"@),
    ensures
        filled(lines, address, username).len() > 0,
    decreases lines.len(),
{
    let i = choose|i: int|
        0 <= i < lines.len() && settings::line_sets(text::trimmed(#[trigger] lines[i]), "full address"@);
    if i > 0 {
        let rest = lines.drop_first();
        assert(rest[i - 1] == lines[i]);
        lemma_filled_not_empty(rest, address, username);
    }
}

/// The configuration that `template` gives.
pub fn apply_rdp_template(template: &str, full_address: &str, username: &str) -> (r: String)
    ensures
        r@ == from_template(template@, full_address@, username@),
{
    let lines = text::lines(template);
    let ghost all = text::lines_of(template@);
    let ghost body = filled(all, full_address@, username@);
    let mut output: Vec<String> = Vec::new();
    let mut saw_full_address = false;
    let mut saw_username = false;
    let mut i: usize = 0;
    assert(all.skip(0) == all);
    assert(text::string_views(output@) + body =~= body);
    while i < lines.len()
        invariant
            i <= lines@.len(),
            text::views(lines@) == all,
            body == text::string_views(output@) + filled(
                all.skip(i as int),
                full_address@,
                username@,
            ),
            saw_full_address == (exists|j: int|
                0 <= j < i && settings::line_sets(text::trimmed(#[trigger] all[j]), "full address"@)),
            saw_username == (exists|j: int|
                0 <= j < i && settings::line_sets(text::trimmed(#[trigger] all[j]), "username"@)),
        decreases lines@.len() - i,
    {
        let ghost done = text::string_views(output@);
        let trimmed = text::trim(lines[i]);
        let ghost more = filled_line(trimmed@, full_address@, username@);
        let ghost here = i as int;
        assert(all[here] == lines@[here]@);
        assert(all.skip(here)[0] == all[here]);
        assert(all.skip(here).drop_first() == all.skip(here + 1));
        proof {
            lemma_names_differ(trimmed@);
        }
        if !trimmed.is_empty() {
            let key = text::before_char(trimmed, ':');
            if text::eq_ignoring_case(key, "full address") {
                output.push(text::concat("full address:s:", full_address));
                saw_full_address = true;
                assert(text::string_views(output@) =~= done + more);
            } else if text::eq_ignoring_case(key, "username") {
                output.push(text::concat("username:s:", username));
                saw_username = true;
                assert(text::string_views(output@) =~= done + more);
            } else if !should_drop_template_rdp_line(trimmed) {
                output.push(trimmed.to_string());
                assert(text::string_views(output@) =~= done + more);
            }
        }
        i = i + 1;
        proof {
            assert(text::string_views(output@) =~= done + more);
            assert(done + (more + filled(all.skip(i as int), full_address@, username@)) =~= (done
                + more) + filled(all.skip(i as int), full_address@, username@));
        }
    }
    assert(all.len() == lines@.len());
    assert(text::string_views(output@) =~= body);
    if !saw_full_address {
        output.insert(0, text::concat("full address:s:", full_address));
        assert(text::string_views(output@) =~= seq![profiles::address_line(full_address@)] + body);
    } else {
        proof {
            lemma_filled_not_empty(all, full_address@, username@);
        }
    }
    let ghost with_address = text::string_views(output@);
    if !saw_username {
        assert(with_address.len() == output@.len());
        output.insert(1, text::concat("username:s:", username));
        assert(text::string_views(output@) =~= with_address.insert(
            1,
            profiles::username_line(username@),
        ));
    }
    assert(text::string_views(output@) == template_lines(template@, full_address@, username@));
    text::join(&output, "\n")
}

/// A line that sets the address does not set the user name.
proof fn lemma_names_differ(line: Seq<char>)
    ensures
        !(settings::line_sets(line, "full address"@) && settings::line_sets(line, "username"@)),
{
    reveal_strlit("full address");
    reveal_strlit("username");
    let name = text::before(line, ':');
    assert(text::lowered("full address"@).len() == 12);
    assert(text::lowered("username"@).len() == 8);
}

/// The configuration that `template`, where there is one, gives for the account of `content`.
pub fn build_template_based_mstsc_rdp_config(content: &str, template: Option<&str>) -> (r: Option<
    String,
>)
    ensures
        profiles::string_view(r) == template_config(content@, settings::text_view(template)),
{
    match profiles::account(content, true) {
        Some((address, username)) => match template {
            Some(t) => Some(apply_rdp_template(t, address, username)),
            None => None,
        },
        None => None,
    }
}

// ---------------------------------------------------------------------------
// The choice of the configuration
// ---------------------------------------------------------------------------

/// A configuration, the name of the way in which it came about, and remarks on it.
pub struct Choice {
    pub content: Seq<char>,
    pub strategy: Seq<char>,
    pub patches: Seq<Seq<char>>,
}

/// The configuration `made`, where there is one; otherwise `content` as it is.
pub open spec fn choice(
    made: Option<Seq<char>>,
    strategy: Seq<char>,
    patches: Seq<Seq<char>>,
    content: Seq<char>,
) -> Choice {
    match made {
        Some(c) => Choice { content: c, strategy, patches },
        None => Choice { content, strategy: "raw"@, patches: seq![] },
    }
}

/// The configuration for `profile`. Where the user name carries no connection token, or the
/// profile cannot be applied, it is `content` as it is.
pub open spec fn normalized(
    content: Seq<char>,
    profile: Seq<char>,
    template: Option<Seq<char>>,
) -> Choice {
    let mac = "mac_microsoft_remote_desktop_compatible"@;
    if !settings::has_token_username(content) {
        choice(None, seq![], seq![], content)
    } else if profile == "raw"@ {
        choice(Some(content), "raw_jumpserver"@, seq![], content)
    } else if profile == "template"@ {
        if template_config(content, template) is Some {
            choice(template_config(content, template), "mstsc_saved_template"@, seq![], content)
        } else {
            choice(
                profiles::mac_config(content),
                mac,
                seq!["template_not_installed"@],
                content,
            )
        }
    } else if profile == "mac"@ {
        choice(profiles::mac_config(content), mac, seq![], content)
    } else if profile == "gnome"@ {
        choice(profiles::gnome_config(content), "mstsc_gnome_compatible"@, seq![], content)
    } else if profile == "swift"@ {
        choice(profiles::swift_config(content), "swift_compatible_mstsc"@, seq![], content)
    } else if profile == "legacy"@ {
        choice(profiles::legacy_config(content), "mstsc_legacy_graphics"@, seq![], content)
    } else {
        choice(None, seq![], seq![], content)
    }
}

/// Whether the saved template matters for `profile`.
pub fn needs_template(profile: &str) -> (r: bool)
    ensures
        r == (profile@ == "template"@),
{
    text::same_text(profile, "template")
}

/// The model of what `normalize_jumpserver_rdp_config` returns.
pub open spec fn choice_view(r: (String, &'static str, Vec<String>)) -> Choice {
    Choice { content: r.0@, strategy: r.1@, patches: text::string_views(r.2@) }
}

/// The configuration for `profile`, the name of the way in which it came about, and remarks on
/// it. `template` is the saved template, where there is one.
pub fn normalize_jumpserver_rdp_config(
    content: String,
    profile: &str,
    template: Option<&str>,
) -> (r: (String, &'static str, Vec<String>))
    ensures
        choice_view(r) == normalized(content@, profile@, settings::text_view(template)),
{
    let none: Vec<String> = Vec::new();
    assert(text::string_views(none@) =~= Seq::<Seq<char>>::empty());
    if settings::has_jumpserver_token_username(content.as_str()) {
        if text::same_text(profile, "raw") {
            return (content, "raw_jumpserver", none);
        } else if text::same_text(profile, "template") {
            if let Some(regenerated) = build_template_based_mstsc_rdp_config(
                content.as_str(),
                template,
            ) {
                return (regenerated, "mstsc_saved_template", none);
            }
            if let Some(regenerated) = profiles::build_mac_microsoft_remote_desktop_rdp_config(
                content.as_str(),
            ) {
                let mut patches: Vec<String> = Vec::new();
                patches.push("template_not_installed".to_string());
                assert(text::string_views(patches@) =~= seq!["template_not_installed"@]);
                return (regenerated, "mac_microsoft_remote_desktop_compatible", patches);
            }
        } else if text::same_text(profile, "mac") {
            if let Some(regenerated) = profiles::build_mac_microsoft_remote_desktop_rdp_config(
                content.as_str(),
            ) {
                return (regenerated, "mac_microsoft_remote_desktop_compatible", none);
            }
        } else if text::same_text(profile, "gnome") {
            if let Some(regenerated) = profiles::build_gnome_mstsc_rdp_config(content.as_str()) {
                return (regenerated, "mstsc_gnome_compatible", none);
            }
        } else if text::same_text(profile, "swift") {
            if let Some(regenerated) = profiles::build_swift_compatible_mstsc_rdp_config(
                content.as_str(),
            ) {
                return (regenerated, "swift_compatible_mstsc", none);
            }
        } else if text::same_text(profile, "legacy") {
            if let Some(regenerated) = profiles::build_mstsc_legacy_graphics_rdp_config(
                content.as_str(),
            ) {
                return (regenerated, "mstsc_legacy_graphics", none);
            }
        }
    }
    (content, "raw", none)
}

// ---------------------------------------------------------------------------
// Laws
// ---------------------------------------------------------------------------

/// The line of an address and that of a user name hold no credentials.
proof fn lemma_account_lines_hold_no_credentials(address: Seq<char>, username: Seq<char>)
    ensures
        !is_credential_line(profiles::address_line(address)),
        !is_credential_line(profiles::username_line(username)),
{
    reveal_strlit("password");
    reveal_strlit("gatewayaccesstoken");
    reveal_strlit("gatewaycredentialssource");
    reveal_strlit("gatewayusername");
    reveal_strlit("full address:s:");
    reveal_strlit("username:s:");
    let a = text::lowered(profiles::address_line(address));
    let u = text::lowered(profiles::username_line(username));
    assert(a[0] == 'f');
    assert(u[0] == 'u');
    assert("password"@.is_prefix_of(a) ==> a.subrange(0, 8)[0] == 'p');
    assert("password"@.is_prefix_of(u) ==> u.subrange(0, 8)[0] == 'p');
    assert("gatewayaccesstoken"@.is_prefix_of(a) ==> a.subrange(0, 18)[0] == 'g');
    assert("gatewayaccesstoken"@.is_prefix_of(u) ==> u.subrange(0, 18)[0] == 'g');
    assert("gatewaycredentialssource"@.is_prefix_of(a) ==> a.subrange(0, 24)[0] == 'g');
    assert("gatewaycredentialssource"@.is_prefix_of(u) ==> u.subrange(0, 24)[0] == 'g');
    assert("gatewayusername"@.is_prefix_of(a) ==> a.subrange(0, 15)[0] == 'g');
    assert("gatewayusername"@.is_prefix_of(u) ==> u.subrange(0, 15)[0] == 'g');
}

/// Whether `line` is a line of a template that stays as it is: trimmed and not empty, with neither
/// the address, nor the user name, nor credentials on it.
pub open spec fn is_kept(line: Seq<char>, lines: Seq<Seq<char>>) -> bool {
    &&& exists|j: int| 0 <= j < lines.len() && line == text::trimmed(#[trigger] lines[j])
    &&& line.len() > 0
    &&& !settings::line_sets(line, "full address"@)
    &&& !settings::line_sets(line, "username"@)
    &&& !is_credential_line(line)
}

/// What becomes of the lines of a template: lines with the given account, and lines that stay.
proof fn lemma_filled_lines(
    lines: Seq<Seq<char>>,
    address: Seq<char>,
    username: Seq<char>,
    p: int,
)
    requires
        0 <= p < filled(lines, address, username).len(),
    ensures
        ({
            let line = filled(lines, address, username)[p];
            ||| line == profiles::address_line(address)
            ||| line == profiles::username_line(username)
            ||| is_kept(line, lines)
        }),
    decreases lines.len(),
{
    let first = filled_line(text::trimmed(lines[0]), address, username);
    let rest = lines.drop_first();
    let tail = filled(rest, address, username);
    let line = filled(lines, address, username)[p];
    if p < first.len() {
        assert(line == first[p]);
        if line != profiles::address_line(address) && line != profiles::username_line(username) {
            assert(line == text::trimmed(lines[0]));
        }
    } else {
        let q = p - first.len();
        assert(line == tail[q]);
        lemma_filled_lines(rest, address, username, q);
        if is_kept(line, rest) {
            let j = choose|j: int| 0 <= j < rest.len() && line == text::trimmed(#[trigger] rest[j]);
            assert(lines[j + 1] == rest[j]);
        }
    }
}

/// A line that sets the address or the user name is replaced.
proof fn lemma_filled_holds(
    lines: Seq<Seq<char>>,
    address: Seq<char>,
    username: Seq<char>,
)
    ensures
        some_line_sets(lines, "full address"@) ==> filled(lines, address, username).contains(
            profiles::address_line(address),
        ),
        some_line_sets(lines, "username"@) ==> filled(lines, address, username).contains(
            profiles::username_line(username),
        ),
    decreases lines.len(),
{
    if lines.len() > 0 {
        let line = text::trimmed(lines[0]);
        let first = filled_line(line, address, username);
        let rest = lines.drop_first();
        let tail = filled(rest, address, username);
        let all = filled(lines, address, username);
        lemma_filled_holds(rest, address, username);
        lemma_names_differ(line);
        if some_line_sets(lines, "full address"@) {
            if settings::line_sets(line, "full address"@) {
                assert(all[0] == profiles::address_line(address));
            } else {
                let j = choose|j: int|
                    0 <= j < lines.len() && settings::line_sets(
                        text::trimmed(#[trigger] lines[j]),
                        "full address"@,
                    );
                assert(rest[j - 1] == lines[j]);
                let k = choose|k: int|
                    0 <= k < tail.len() && tail[k] == profiles::address_line(address);
                assert(all[first.len() + k] == tail[k]);
            }
        }
        if some_line_sets(lines, "username"@) {
            if settings::line_sets(line, "username"@) {
                assert(all[0] == profiles::username_line(username));
            } else {
                let j = choose|j: int|
                    0 <= j < lines.len() && settings::line_sets(
                        text::trimmed(#[trigger] lines[j]),
                        "username"@,
                    );
                assert(rest[j - 1] == lines[j]);
                let k = choose|k: int|
                    0 <= k < tail.len() && tail[k] == profiles::username_line(username);
                assert(all[first.len() + k] == tail[k]);
            }
        }
    }
}

/// The lines that a template gives: the given account is set, nothing else is set in its place,
/// no credentials are taken over, and all other lines stay as they are.
pub proof fn law_template_lines(template: Seq<char>, address: Seq<char>, username: Seq<char>)
    ensures
        template_lines(template, address, username).contains(profiles::address_line(address)),
        template_lines(template, address, username).contains(profiles::username_line(username)),
        forall|p: int|
            0 <= p < template_lines(template, address, username).len() ==> {
                let line = #[trigger] template_lines(template, address, username)[p];
                &&& !is_credential_line(line)
                &&& line == profiles::address_line(address) || line == profiles::username_line(
                    username,
                ) || is_kept(line, text::lines_of(template))
            },
{
    let lines = text::lines_of(template);
    let body = filled(lines, address, username);
    let a = profiles::address_line(address);
    let u = profiles::username_line(username);
    let out = template_lines(template, address, username);
    lemma_account_lines_hold_no_credentials(address, username);
    lemma_filled_holds(lines, address, username);
    let with_address = if some_line_sets(lines, "full address"@) {
        body
    } else {
        seq![a] + body
    };
    let d: int = if some_line_sets(lines, "full address"@) {
        0
    } else {
        1
    };
    assert forall|q: int| 0 <= q < with_address.len() implies {
        let line = #[trigger] with_address[q];
        &&& !is_credential_line(line)
        &&& line == a || line == u || is_kept(line, lines)
    } by {
        if q >= d {
            assert(with_address[q] == body[q - d]);
            lemma_filled_lines(lines, address, username, q - d);
        }
    }
    assert(with_address.contains(a)) by {
        if d == 1 {
            assert(with_address[0] == a);
        }
    }
    if some_line_sets(lines, "username"@) {
        let k = choose|k: int| 0 <= k < body.len() && body[k] == u;
        assert(with_address[k + d] == u);
    } else {
        let k = choose|k: int| 0 <= k < with_address.len() && with_address[k] == a;
        assert(out[1] == u);
        assert(out[if k >= 1 {
            k + 1
        } else {
            k
        }] == a);
        assert forall|p: int| 0 <= p < out.len() implies {
            let line = #[trigger] out[p];
            &&& !is_credential_line(line)
            &&& line == a || line == u || is_kept(line, lines)
        } by {
            if p == 0 {
                assert(out[0] == with_address[0]);
            } else if p > 1 {
                assert(out[p] == with_address[p - 1]);
            }
        }
    }
}

/// The configuration that a template gives sets the given account, where each line of the
/// template is one of a setting.
pub proof fn law_template_sets_account(template: Seq<char>, address: Seq<char>, username: Seq<char>)
    requires
        profile_laws::is_value(address),
        profile_laws::is_value(username),
        lines_are_settings(template),
    ensures
        text::lines_of(from_template(template, address, username)) == template_lines(
            template,
            address,
            username,
        ),
        profiles::account_of(from_template(template, address, username), true) == Some(
            (address, username),
        ),
{
    let old = text::lines_of(template);
    let out = template_lines(template, address, username);
    let a = profiles::address_line(address);
    let u = profiles::username_line(username);
    law_template_lines(template, address, username);
    profile_laws::lemma_account_lines(address, username);
    text::lemma_lines_hold_no_feed(template);
    text::lemma_first_of_props(a, ':');
    text::lemma_first_of_props(u, ':');
    assert forall|p: int| 0 <= p < out.len() implies text::is_line(#[trigger] out[p])
        && out[p].len() > 0 && text::trimmed(out[p]) == out[p] && out[p].contains(':') by {
        if out[p] != a && out[p] != u {
            let j = choose|j: int| 0 <= j < old.len() && out[p] == text::trimmed(#[trigger] old[j]);
            profile_laws::lemma_trimmed_is_value(old[j]);
            text::lemma_trimmed_keeps(out[p], |c: char| text::is_white_space(c));
        }
    }
    let i = choose|i: int| 0 <= i < out.len() && out[i] == a;
    let j = choose|j: int| 0 <= j < out.len() && out[j] == u;
    text::law_joined_lines_read_back(out);
    lemma_names_differ(a);
    lemma_names_differ(u);
    assert(text::before(a, ':') == "full address"@);
    assert(text::before(u, ':') == "username"@);
    settings::lemma_setting_read(out, "full address"@, address, i);
    settings::lemma_setting_read(out, "username"@, username, j);
    text::lemma_trimmed_keeps(address, |c: char| text::is_white_space(c));
    text::lemma_trimmed_keeps(username, |c: char| text::is_white_space(c));
}

/// A configuration whose user name carries no connection token stays as it is, and so does any
/// configuration for the profile `raw`.
pub proof fn law_configuration_kept(
    content: Seq<char>,
    profile: Seq<char>,
    template: Option<Seq<char>>,
)
    requires
        !settings::has_token_username(content) || profile == "raw"@,
    ensures
        normalized(content, profile, template).content == content,
{
}

/// Whatever the profile, the configuration connects to the same host as the same user; a template
/// aside.
pub proof fn law_profile_keeps_host_and_user(
    content: Seq<char>,
    profile: Seq<char>,
    template: Option<Seq<char>>,
)
    requires
        profile == "template"@ ==> template is None,
    ensures
        profiles::account_of(normalized(content, profile, template).content, false)
            == profiles::account_of(content, false),
{
    profile_laws::law_profiles_keep_account(content);
    profile_laws::law_gnome_config_keeps_account(content);
    lemma_host_of_account(content, normalized(content, profile, template).content);
}

/// Configurations with the same account have the same host and user.
proof fn lemma_host_of_account(a: Seq<char>, b: Seq<char>)
    ensures
        profiles::account_of(a, true) is Some && profiles::account_of(a, true)
            == profiles::account_of(b, true) ==> profiles::account_of(a, false)
            == profiles::account_of(b, false),
{
}

/// The saved template matters for the profile `template` alone.
pub proof fn law_template_matters_for_its_profile(
    content: Seq<char>,
    profile: Seq<char>,
    one: Option<Seq<char>>,
    other: Option<Seq<char>>,
)
    requires
        profile != "template"@,
    ensures
        normalized(content, profile, one) == normalized(content, profile, other),
{
}

/// Whether the trimmed line `line` of a template stays as it is: it is not empty, and neither the
/// address, nor the user name, nor credentials stand on it.
pub open spec fn stays(line: Seq<char>) -> bool {
    &&& line.len() > 0
    &&& !sets_account(line)
    &&& !is_credential_line(line)
}

/// Whether `line` sets the address or the user name.
pub open spec fn sets_account(line: Seq<char>) -> bool {
    settings::line_sets(line, "full address"@) || settings::line_sets(line, "username"@)
}

/// The lines of `lines` that stay, trimmed and in their order.
pub open spec fn staying(lines: Seq<Seq<char>>) -> Seq<Seq<char>>
    decreases lines.len(),
{
    if lines.len() == 0 {
        seq![]
    } else {
        let line = text::trimmed(lines[0]);
        let rest = staying(lines.drop_first());
        if stays(line) {
            seq![line] + rest
        } else {
            rest
        }
    }
}

/// The lines of `lines` that set neither the address nor the user name, in their order.
pub open spec fn beside_account(lines: Seq<Seq<char>>) -> Seq<Seq<char>>
    decreases lines.len(),
{
    if lines.len() == 0 {
        seq![]
    } else {
        let rest = beside_account(lines.drop_first());
        if sets_account(lines[0]) {
            rest
        } else {
            seq![lines[0]] + rest
        }
    }
}

/// The lines of an account set it.
proof fn lemma_account_lines_set(address: Seq<char>, username: Seq<char>)
    ensures
        settings::line_sets(profiles::address_line(address), "full address"@),
        settings::line_sets(profiles::username_line(username), "username"@),
{
    reveal_strlit("full address:s:");
    reveal_strlit("full address");
    reveal_strlit("username:s:");
    reveal_strlit("username");
    let a = profiles::address_line(address);
    let u = profiles::username_line(username);
    assert forall|j: int| 0 <= j < 12 implies a[j] != ':' by {
        assert(a[j] == "full address:s:"@[j]);
    }
    text::lemma_first_of(a, ':', 12);
    assert(a.take(12) =~= "full address"@);
    assert forall|j: int| 0 <= j < 8 implies u[j] != ':' by {
        assert(u[j] == "username:s:"@[j]);
    }
    text::lemma_first_of(u, ':', 8);
    assert(u.take(8) =~= "username"@);
}

/// Leaving out the lines of an account goes part by part.
proof fn lemma_beside_account(a: Seq<Seq<char>>, b: Seq<Seq<char>>)
    ensures
        beside_account(a + b) == beside_account(a) + beside_account(b),
    decreases a.len(),
{
    if a.len() == 0 {
        assert(a + b =~= b);
        assert(beside_account(a) + beside_account(b) =~= beside_account(b));
    } else {
        assert((a + b)[0] == a[0]);
        assert((a + b).drop_first() =~= a.drop_first() + b);
        lemma_beside_account(a.drop_first(), b);
        let x = beside_account(a.drop_first());
        let y = beside_account(b);
        assert(seq![a[0]] + (x + y) =~= (seq![a[0]] + x) + y);
    }
}

/// One line of an account is left out.
proof fn lemma_beside_one(line: Seq<char>)
    ensures
        beside_account(seq![line]) == (if sets_account(line) {
            Seq::<Seq<char>>::empty()
        } else {
            seq![line]
        }),
{
    let one = seq![line];
    assert(one.drop_first() =~= Seq::<Seq<char>>::empty());
    assert(beside_account(one.drop_first()) =~= Seq::<Seq<char>>::empty());
    assert(one[0] == line);
}

/// Beside the account, filling in leaves the lines that stay.
proof fn lemma_filled_keeps(lines: Seq<Seq<char>>, address: Seq<char>, username: Seq<char>)
    ensures
        beside_account(filled(lines, address, username)) == staying(lines),
    decreases lines.len(),
{
    if lines.len() > 0 {
        let line = text::trimmed(lines[0]);
        let first = filled_line(line, address, username);
        let rest = filled(lines.drop_first(), address, username);
        lemma_filled_keeps(lines.drop_first(), address, username);
        lemma_beside_account(first, rest);
        lemma_account_lines_set(address, username);
        lemma_beside_one(profiles::address_line(address));
        lemma_beside_one(profiles::username_line(username));
        lemma_beside_one(line);
        assert(beside_account(first) =~= (if stays(line) {
            seq![line]
        } else {
            Seq::<Seq<char>>::empty()
        }));
        assert(Seq::<Seq<char>>::empty() + beside_account(rest) =~= beside_account(rest));
    }
}

/// Beside the lines of the account, the lines that a template gives are exactly those that stay,
/// in their order.
pub proof fn law_template_keeps_other_lines(
    template: Seq<char>,
    address: Seq<char>,
    username: Seq<char>,
)
    ensures
        beside_account(template_lines(template, address, username)) == staying(
            text::lines_of(template),
        ),
{
    let lines = text::lines_of(template);
    let body = filled(lines, address, username);
    let a = profiles::address_line(address);
    let u = profiles::username_line(username);
    lemma_filled_keeps(lines, address, username);
    lemma_account_lines_set(address, username);
    lemma_beside_one(a);
    lemma_beside_one(u);
    let none = Seq::<Seq<char>>::empty();
    let with_address = if some_line_sets(lines, "full address"@) {
        body
    } else {
        seq![a] + body
    };
    if !some_line_sets(lines, "full address"@) {
        lemma_beside_account(seq![a], body);
        assert(none + beside_account(body) =~= beside_account(body));
    }
    if !some_line_sets(lines, "username"@) {
        if some_line_sets(lines, "full address"@) {
            lemma_filled_not_empty(lines, address, username);
        }
        let x = with_address.take(1);
        let y = with_address.skip(1);
        assert(with_address =~= x + y);
        assert(with_address.insert(1, u) =~= x + (seq![u] + y));
        lemma_beside_account(x, y);
        lemma_beside_account(x, seq![u] + y);
        lemma_beside_account(seq![u], y);
        assert(none + beside_account(y) =~= beside_account(y));
    }
}

/// Lines that filling in keeps one by one are kept.
proof fn lemma_filled_stable(lines: Seq<Seq<char>>, address: Seq<char>, username: Seq<char>)
    requires
        forall|p: int|
            0 <= p < lines.len() ==> filled_line(
                text::trimmed(#[trigger] lines[p]),
                address,
                username,
            ) == seq![lines[p]],
    ensures
        filled(lines, address, username) == lines,
    decreases lines.len(),
{
    if lines.len() > 0 {
        let rest = lines.drop_first();
        assert forall|p: int| 0 <= p < rest.len() implies filled_line(
            text::trimmed(#[trigger] rest[p]),
            address,
            username,
        ) == seq![rest[p]] by {
            assert(rest[p] == lines[p + 1]);
        }
        lemma_filled_stable(rest, address, username);
        assert(filled_line(text::trimmed(lines[0]), address, username) == seq![lines[0]]);
        assert(seq![lines[0]] + rest =~= lines);
    } else {
        assert(lines =~= Seq::<Seq<char>>::empty());
    }
}

/// A configuration that a template gave for an account gives itself for that account.
pub proof fn law_template_config_is_stable(
    template: Seq<char>,
    address: Seq<char>,
    username: Seq<char>,
)
    requires
        profile_laws::is_value(address),
        profile_laws::is_value(username),
    ensures
        from_template(from_template(template, address, username), address, username)
            == from_template(template, address, username),
{
    let old = text::lines_of(template);
    let out = template_lines(template, address, username);
    let a = profiles::address_line(address);
    let u = profiles::username_line(username);
    law_template_lines(template, address, username);
    profile_laws::lemma_account_lines(address, username);
    lemma_account_lines_set(address, username);
    lemma_names_differ(a);
    lemma_names_differ(u);
    text::lemma_lines_hold_no_feed(template);
    assert forall|p: int| 0 <= p < out.len() implies text::is_line(#[trigger] out[p])
        && out[p].len() > 0 && text::trimmed(out[p]) == out[p] && filled_line(
        text::trimmed(out[p]),
        address,
        username,
    ) == seq![out[p]] by {
        if out[p] != a && out[p] != u {
            let j = choose|j: int| 0 <= j < old.len() && out[p] == text::trimmed(#[trigger] old[j]);
            text::lemma_trimmed_is_line(old[j]);
        }
    }
    text::law_joined_lines_read_back(out);
    lemma_filled_stable(out, address, username);
    let i = choose|i: int| 0 <= i < out.len() && out[i] == a;
    let j = choose|j: int| 0 <= j < out.len() && out[j] == u;
    assert(settings::line_sets(text::trimmed(out[i]), "full address"@));
    assert(settings::line_sets(text::trimmed(out[j]), "username"@));
}

/// Whether each line of `template` is empty or one of a setting.
pub open spec fn lines_are_settings(template: Seq<char>) -> bool {
    forall|i: int|
        0 <= i < text::lines_of(template).len() ==> text::trimmed(
            #[trigger] text::lines_of(template)[i],
        ).len() == 0 || text::trimmed(text::lines_of(template)[i]).contains(':')
}

/// Choosing the configuration for a profile again, from the one that was chosen, changes nothing;
/// for the profile `template`, where each line of the template is one of a setting.
pub proof fn law_normalizing_again_changes_nothing(
    content: Seq<char>,
    profile: Seq<char>,
    template: Option<Seq<char>>,
)
    requires
        profile == "template"@ ==> (template matches Some(t) ==> lines_are_settings(t)),
    ensures
        normalized(normalized(content, profile, template).content, profile, template).content
            == normalized(content, profile, template).content,
{
    profile_laws::law_profiles_are_stable(content);
    profile_laws::law_gnome_config_is_stable(content);
    if let (Some((address, username)), Some(t)) = (profiles::account_of(content, true), template) {
        profile_laws::lemma_account(content, true);
        if profile == "template"@ {
            law_template_sets_account(t, address, username);
        }
    }
}

/// Where the lines of an account stand that the template does not set.
pub(crate) proof fn lemma_added_lines(
    template: Seq<char>,
    address: Seq<char>,
    username: Seq<char>,
)
    ensures
        !some_line_sets(text::lines_of(template), "full address"@) ==> template_lines(
            template,
            address,
            username,
        )[0] == profiles::address_line(address),
        !some_line_sets(text::lines_of(template), "username"@) ==> template_lines(
            template,
            address,
            username,
        )[1] == profiles::username_line(username),
{
    let lines = text::lines_of(template);
    if some_line_sets(lines, "full address"@) {
        lemma_filled_not_empty(lines, address, username);
    }
}

/// The configuration that a template gives is read back line by line.
pub(crate) proof fn lemma_template_lines_read_back(
    template: Seq<char>,
    address: Seq<char>,
    username: Seq<char>,
)
    requires
        profile_laws::is_value(address),
        profile_laws::is_value(username),
    ensures
        text::lines_of(from_template(template, address, username)) == template_lines(
            template,
            address,
            username,
        ),
{
    let old = text::lines_of(template);
    let out = template_lines(template, address, username);
    let a = profiles::address_line(address);
    let u = profiles::username_line(username);
    law_template_lines(template, address, username);
    profile_laws::lemma_account_lines(address, username);
    lemma_account_lines_set(address, username);
    text::lemma_lines_hold_no_feed(template);
    assert forall|p: int| 0 <= p < out.len() implies text::is_line(#[trigger] out[p])
        && out[p].len() > 0 by {
        if out[p] != a && out[p] != u {
            let j = choose|j: int| 0 <= j < old.len() && out[p] == text::trimmed(#[trigger] old[j]);
            text::lemma_trimmed_is_line(old[j]);
        }
    }
    text::law_joined_lines_read_back(out);
}

} // verus!
