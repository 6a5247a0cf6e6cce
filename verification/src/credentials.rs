//! Credentials that the remote desktop client finds when it connects.
use crate::redact;
use crate::settings;
use crate::text;
use crate::utf;
use vstd::prelude::*;

verus! {

// ---------------------------------------------------------------------------
// Targets
// ---------------------------------------------------------------------------

/// `address` without the port behind its last colon, where there is one.
pub open spec fn without_port(address: Seq<char>) -> Seq<char> {
    match text::split_last(address, ':') {
        Some((host, port)) => if text::number_of(port, u16::MAX as nat) is Some {
            host
        } else {
            address
        },
        None => address,
    }
}

/// The name under which the client looks for the credential of `server`.
pub open spec fn target_of(server: Seq<char>) -> Seq<char> {
    "TERMSRV/"@ + server
}

/// The names under which the client looks for the credential of `address`: without the port and,
/// where that differs, with it.
pub open spec fn credential_targets(address: Seq<char>) -> Seq<Seq<char>> {
    let whole = text::trimmed(address);
    let host = without_port(whole);
    if target_of(host) == target_of(whole) {
        seq![target_of(host)]
    } else {
        seq![target_of(host), target_of(whole)]
    }
}

/// The names under which the client looks for the credential of `address`.
pub fn rdp_credential_targets(address: &str) -> (r: Vec<String>)
    ensures
        text::string_views(r@) == credential_targets(address@),
{
    let trimmed = text::trim(address);
    let host = match text::rsplit_once(trimmed, ':') {
        Some((host, port)) => match text::parse_number(port, 65535) {
            Some(_) => host,
            None => trimmed,
        },
        None => trimmed,
    };
    let mut targets: Vec<String> = Vec::new();
    let first = text::concat("TERMSRV/", host);
    let with_port = text::concat("TERMSRV/", trimmed);
    let same = text::same_text(first.as_str(), with_port.as_str());
    targets.push(first);
    if !same {
        targets.push(with_port);
    }
    assert(text::string_views(targets@) =~= credential_targets(address@));
    targets
}

// ---------------------------------------------------------------------------
// Which credentials are written
// ---------------------------------------------------------------------------

/// Which credentials are written before a launch.
#[derive(Debug)]
pub enum CredentialPlan {
    /// None, and nothing is said about it.
    Nothing,
    /// None, for the given reason.
    Skip(&'static str),
    /// One for each target.
    Install { targets: Vec<String>, username: String, password: String },
}

/// The model of a plan.
#[verifier::ext_equal]
pub enum Plan {
    Nothing,
    Skip(Seq<char>),
    Install { targets: Seq<Seq<char>>, username: Seq<char>, password: Seq<char> },
}

impl View for CredentialPlan {
    type V = Plan;

    open spec fn view(&self) -> Plan {
        match self {
            CredentialPlan::Nothing => Plan::Nothing,
            CredentialPlan::Skip(reason) => Plan::Skip(reason@),
            CredentialPlan::Install { targets, username, password } => Plan::Install {
                targets: text::string_views(targets@),
                username: username@,
                password: password@,
            },
        }
    }
}

/// The credentials for a configuration whose user name carries a connection token: the gateway
/// takes the secret of the token as the password, so that without a secret none are written.
pub open spec fn planned_credentials(
    content: Option<Seq<char>>,
    token_password: Option<Seq<char>>,
) -> Plan {
    if content is None || !settings::has_token_username(content->0) {
        Plan::Nothing
    } else {
        match (
            settings::setting_value(content->0, "full address"@),
            settings::setting_value(content->0, "username"@),
        ) {
            (None, _) => Plan::Skip("cmdkey install skipped: full address missing"@),
            (_, None) => Plan::Skip("cmdkey install skipped: username missing"@),
            (Some(address), Some(username)) => if token_password is Some && token_password->0.len()
                > 0 {
                Plan::Install {
                    targets: credential_targets(address),
                    username: text::trimmed(username),
                    password: token_password->0,
                }
            } else {
                Plan::Skip(
                    "cmdkey install skipped: jms payload carries no token.value secret; JumpServer requires password=token.value and will reject a blank login"@,
                )
            },
        }
    }
}

/// Why no credentials are written where they are switched off.
pub open spec fn disabled_credentials(content: Option<Seq<char>>) -> Plan {
    if content is Some && settings::has_token_username(content->0) {
        Plan::Skip("cmdkey install skipped: disabled by --no-cmdkey"@)
    } else {
        Plan::Nothing
    }
}

/// The credentials that are written for the configuration `content`, where it could be read, and
/// the secret of the connection token.
pub fn prepare_windows_mstsc_credentials(
    content: Option<&str>,
    token_password: Option<&str>,
) -> (r: CredentialPlan)
    ensures
        r@ == planned_credentials(
            settings::text_view(content),
            settings::text_view(token_password),
        ),
{
    let content = match content {
        Some(content) => content,
        None => {
            return CredentialPlan::Nothing;
        },
    };
    if !settings::has_jumpserver_token_username(content) {
        return CredentialPlan::Nothing;
    }
    let address = match settings::rdp_setting_value(content, "full address") {
        Some(address) => address,
        None => {
            return CredentialPlan::Skip("cmdkey install skipped: full address missing");
        },
    };
    let username = match settings::rdp_setting_value(content, "username") {
        Some(username) => username,
        None => {
            return CredentialPlan::Skip("cmdkey install skipped: username missing");
        },
    };
    let password = match token_password {
        Some(password) => password,
        None => "",
    };
    proof {
        reveal_strlit("");
    }
    if password.is_empty() {
        return CredentialPlan::Skip(
            "cmdkey install skipped: jms payload carries no token.value secret; JumpServer requires password=token.value and will reject a blank login",
        );
    }
    CredentialPlan::Install {
        targets: rdp_credential_targets(address),
        username: text::trim(username).to_string(),
        password: password.to_string(),
    }
}

/// Why no credentials are written for the configuration `content` where they are switched off.
pub fn log_cmdkey_disabled(content: Option<&str>) -> (r: CredentialPlan)
    ensures
        r@ == disabled_credentials(settings::text_view(content)),
{
    match content {
        Some(content) => if settings::has_jumpserver_token_username(content) {
            CredentialPlan::Skip("cmdkey install skipped: disabled by --no-cmdkey")
        } else {
            CredentialPlan::Nothing
        },
        None => CredentialPlan::Nothing,
    }
}

// ---------------------------------------------------------------------------
// Commands and what they report
// ---------------------------------------------------------------------------

/// How a command ended.
#[derive(Debug)]
pub enum CommandOutcome {
    /// It could not be run.
    NotRun(String),
    /// It ran, with the given exit status, and wrote the given bytes.
    Ran { success: bool, status: String, stdout: Vec<u8>, stderr: Vec<u8> },
}

/// The arguments that write the credential of `target`.
pub open spec fn install_arguments(
    target: Seq<char>,
    username: Seq<char>,
    password: Seq<char>,
) -> Seq<Seq<char>> {
    seq!["/generic:"@ + target, "/user:"@ + username, "/pass:"@ + password]
}

/// What is logged of a command that should write the credential of `target`, and that wrote the
/// texts `stdout` and `stderr`.
pub open spec fn install_line_of(
    target: Seq<char>,
    username: Seq<char>,
    status: Seq<char>,
    stdout: Seq<char>,
    stderr: Seq<char>,
) -> Seq<char> {
    "cmdkey install target="@ + target + ", user="@ + redact::hidden_token(username)
        + ", password_mode=token.value, status="@ + status + ", stdout="@ + text::trimmed(stdout)
        + ", stderr="@ + text::trimmed(stderr)
}

/// What is logged of an attempt to write the credential of `target`.
pub open spec fn install_report(
    target: Seq<char>,
    username: Seq<char>,
    outcome: CommandOutcome,
) -> Seq<char> {
    match outcome {
        CommandOutcome::Ran { success, status, stdout, stderr } => install_line_of(
            target,
            username,
            status@,
            utf::lossy_text(stdout@),
            utf::lossy_text(stderr@),
        ),
        CommandOutcome::NotRun(why) => "cmdkey install target="@ + target + " failed: "@ + why@,
    }
}

/// Whether a command ran with success.
pub open spec fn succeeded(outcome: CommandOutcome) -> bool {
    outcome matches CommandOutcome::Ran { success, .. } && success
}

/// What is logged of a command that should delete the credential of `target`, and that wrote the
/// texts `stdout` and `stderr`.
pub open spec fn delete_line_of(
    target: Seq<char>,
    status: Seq<char>,
    stdout: Seq<char>,
    stderr: Seq<char>,
) -> Seq<char> {
    "cmdkey cleanup target="@ + target + ", status="@ + status + ", stdout="@ + text::trimmed(
        stdout,
    ) + ", stderr="@ + text::trimmed(stderr)
}

/// What is logged of an attempt to delete the credential of `target`.
pub open spec fn delete_report(target: Seq<char>, outcome: CommandOutcome) -> Seq<char> {
    match outcome {
        CommandOutcome::Ran { success, status, stdout, stderr } => delete_line_of(
            target,
            status@,
            utf::lossy_text(stdout@),
            utf::lossy_text(stderr@),
        ),
        CommandOutcome::NotRun(why) => "cmdkey cleanup target="@ + target + " failed: "@ + why@,
    }
}

/// The arguments that write the credential of `target`.
pub fn cmdkey_install_arguments(target: &str, username: &str, password: &str) -> (r: Vec<String>)
    ensures
        text::string_views(r@) == install_arguments(target@, username@, password@),
{
    let mut args: Vec<String> = Vec::new();
    args.push(text::concat("/generic:", target));
    args.push(text::concat("/user:", username));
    args.push(text::concat("/pass:", password));
    assert(text::string_views(args@) =~= install_arguments(target@, username@, password@));
    args
}

/// What is logged of a command that should write the credential of `target`, and that wrote the
/// texts `stdout` and `stderr`.
pub fn install_line(target: &str, username: &str, status: &str, stdout: &str, stderr: &str) -> (r:
    String)
    ensures
        r@ == install_line_of(target@, username@, status@, stdout@, stderr@),
{
    let mut line = text::concat("cmdkey install target=", target);
    text::append(&mut line, ", user=");
    text::append(&mut line, redact::redact_username_value(username).as_str());
    text::append(&mut line, ", password_mode=token.value, status=");
    text::append(&mut line, status);
    text::append(&mut line, ", stdout=");
    text::append(&mut line, text::trim(stdout));
    text::append(&mut line, ", stderr=");
    text::append(&mut line, text::trim(stderr));
    line
}

/// Adds `target` to the targets whose credentials were written, where that was done, and gives
/// what is logged of the attempt.
pub fn record_install(
    installed: &mut Vec<String>,
    target: &str,
    username: &str,
    outcome: &CommandOutcome,
) -> (r: String)
    ensures
        r@ == install_report(target@, username@, *outcome),
        text::string_views(final(installed)@) == (if succeeded(*outcome) {
            text::string_views(old(installed)@).push(target@)
        } else {
            text::string_views(old(installed)@)
        }),
{
    match outcome {
        CommandOutcome::Ran { success, status, stdout, stderr } => {
            if *success {
                let ghost before = text::string_views(installed@);
                installed.push(target.to_string());
                assert(text::string_views(installed@) =~= before.push(target@));
            }
            let out = utf::string_from_utf8_lossy(stdout);
            let err = utf::string_from_utf8_lossy(stderr);
            install_line(target, username, status.as_str(), out.as_str(), err.as_str())
        },
        CommandOutcome::NotRun(why) => {
            let mut line = text::concat("cmdkey install target=", target);
            text::append(&mut line, " failed: ");
            text::append(&mut line, why.as_str());
            line
        },
    }
}

/// The argument that deletes the credential of `target`.
pub fn cmdkey_delete_argument(target: &str) -> (r: String)
    ensures
        r@ == "/delete:"@ + target@,
{
    text::concat("/delete:", target)
}

/// What is logged of a command that should delete the credential of `target`, and that wrote the
/// texts `stdout` and `stderr`.
pub fn delete_line(target: &str, status: &str, stdout: &str, stderr: &str) -> (r: String)
    ensures
        r@ == delete_line_of(target@, status@, stdout@, stderr@),
{
    let mut line = text::concat("cmdkey cleanup target=", target);
    text::append(&mut line, ", status=");
    text::append(&mut line, status);
    text::append(&mut line, ", stdout=");
    text::append(&mut line, text::trim(stdout));
    text::append(&mut line, ", stderr=");
    text::append(&mut line, text::trim(stderr));
    line
}

/// What is logged of an attempt to delete the credential of `target`.
pub fn record_delete(target: &str, outcome: &CommandOutcome) -> (r: String)
    ensures
        r@ == delete_report(target@, *outcome),
{
    match outcome {
        CommandOutcome::Ran { success, status, stdout, stderr } => {
            let out = utf::string_from_utf8_lossy(stdout);
            let err = utf::string_from_utf8_lossy(stderr);
            delete_line(target, status.as_str(), out.as_str(), err.as_str())
        },
        CommandOutcome::NotRun(why) => {
            let mut line = text::concat("cmdkey cleanup target=", target);
            text::append(&mut line, " failed: ");
            text::append(&mut line, why.as_str());
            line
        },
    }
}

// ---------------------------------------------------------------------------
// Laws
// ---------------------------------------------------------------------------

/// There are one or two targets, which differ; the last one is that of the whole address.
pub proof fn law_targets_differ(address: Seq<char>)
    ensures
        1 <= credential_targets(address).len() <= 2,
        credential_targets(address).no_duplicates(),
        credential_targets(address).last() == target_of(text::trimmed(address)),
{
}

/// An address with a port has two targets: that of the host, and that of the address.
pub proof fn law_targets_of_host_and_port(host: Seq<char>, port: nat)
    requires
        host.len() > 0,
        !text::is_white_space(host[0]),
        port <= u16::MAX,
    ensures
        credential_targets(host + seq![':'] + text::decimal(port)) == seq![
            target_of(host),
            target_of(host + seq![':'] + text::decimal(port)),
        ],
{
    let digits = text::decimal(port);
    let address = host + seq![':'] + digits;
    let k = host.len() as int;
    text::law_decimal_reads_back(port, u16::MAX as nat);
    text::lemma_decimal_digits(port);
    assert forall|j: int| k < j < address.len() implies address[j] != ':' by {
        assert(address[j] == digits[j - k - 1]);
        assert(text::is_digit(digits[j - k - 1]));
    }
    text::lemma_last_of(address, ':', k);
    assert(address.take(k) == host);
    assert(address.skip(k + 1) == digits);
    assert(address.last() == digits.last());
    assert(text::is_digit(digits[digits.len() - 1]));
    text::lemma_trimmed_keeps(address, |c: char| text::is_white_space(c));
    assert(target_of(host).len() < target_of(address).len());
}

/// No credential is written with an empty password, and none without a target.
pub proof fn law_no_blank_credentials(
    content: Option<Seq<char>>,
    token_password: Option<Seq<char>>,
)
    ensures
        planned_credentials(content, token_password) matches Plan::Install {
            targets,
            username,
            password,
        } ==> targets.len() > 0 && password.len() > 0 && token_password == Some(password),
{
}

/// What is logged of an attempt to write a credential does not depend on the token in the user
/// name.
pub proof fn law_install_report_hides_token(
    target: Seq<char>,
    name: Seq<char>,
    one: Seq<char>,
    other: Seq<char>,
    outcome: CommandOutcome,
)
    requires
        !name.contains('|'),
    ensures
        install_report(target, name + seq!['|'] + one, outcome) == install_report(
            target,
            name + seq!['|'] + other,
            outcome,
        ),
{
    redact::law_token_hidden(name, one);
    redact::law_token_hidden(name, other);
}

} // verus!
