//! What the program does for a command line, and for a link.
use crate::cli::{Cli, Options};
use crate::error;
use crate::error::LauncherError;
use crate::files;
use crate::link::{Launch, RdpLaunch};
use crate::profile_laws;
use crate::profiles;
use crate::redact;
use crate::steps;
use crate::steps::{Act, Step};
use crate::text;
use vstd::prelude::*;
use vstd::utf8::*;

verus! {

// ---------------------------------------------------------------------------
// The command line
// ---------------------------------------------------------------------------

/// What a command line asks for.
#[derive(Debug)]
pub enum Action {
    Register,
    Unregister,
    /// Takes the file at the given path over as the template.
    SetTemplate(String),
    ClearTemplate,
    /// Launches the file at the given path.
    OpenFile(String),
    /// Launches the connection of the given link.
    OpenLink(String),
}

/// The model of an action.
pub enum Task {
    Register,
    Unregister,
    SetTemplate(Seq<char>),
    ClearTemplate,
    OpenFile(Seq<char>),
    OpenLink(Seq<char>),
}

impl View for Action {
    type V = Task;

    open spec fn view(&self) -> Task {
        match self {
            Action::Register => Task::Register,
            Action::Unregister => Task::Unregister,
            Action::SetTemplate(path) => Task::SetTemplate(path@),
            Action::ClearTemplate => Task::ClearTemplate,
            Action::OpenFile(path) => Task::OpenFile(path@),
            Action::OpenLink(input) => Task::OpenLink(input@),
        }
    }
}

/// What the options ask for: the first of the actions for which one of them stands.
pub open spec fn selected(options: Options) -> Result<Task, Seq<char>> {
    if options.register {
        Ok(Task::Register)
    } else if options.unregister {
        Ok(Task::Unregister)
    } else if options.set_template is Some {
        Ok(Task::SetTemplate(options.set_template->0))
    } else if options.clear_template {
        Ok(Task::ClearTemplate)
    } else if options.rdp_file is Some {
        Ok(Task::OpenFile(options.rdp_file->0))
    } else if options.input is Some {
        Ok(Task::OpenLink(options.input->0))
    } else {
        Err("missing jms:// input"@)
    }
}

/// What the command line asks for.
pub fn select_action(cli: &Cli) -> (r: Result<Action, LauncherError>)
    ensures
        error::outcome(r) == selected(cli@),
{
    if cli.register {
        return Ok(Action::Register);
    }
    if cli.unregister {
        return Ok(Action::Unregister);
    }
    if let Some(path) = &cli.set_template {
        return Ok(Action::SetTemplate(path.clone()));
    }
    if cli.clear_template {
        return Ok(Action::ClearTemplate);
    }
    if let Some(path) = &cli.rdp_file {
        return Ok(Action::OpenFile(path.clone()));
    }
    match &cli.input {
        Some(input) => Ok(Action::OpenLink(input.clone())),
        None => Err(LauncherError::new("missing jms:// input")),
    }
}

/// The profile that is asked for, or the default one.
pub fn profile_or_default<'a>(profile: Option<&'a str>) -> (r: &'a str)
    ensures
        r@ == (match profile {
            Some(p) => p@,
            None => profiles::DEFAULT_RDP_PROFILE@,
        }),
{
    match profile {
        Some(profile) => profile,
        None => profiles::DEFAULT_RDP_PROFILE,
    }
}

/// What is logged of the link `input` before it is read: a long one is cut off, which must not
/// happen inside a character.
pub fn raw_argument_line(input: &str) -> (r: String)
    requires
        encode_utf8(input@).len() > 300 ==> is_char_boundary(encode_utf8(input@), 300),
    ensures
        r@ == "raw argument: "@ + redact::shortened(input@, 300),
{
    text::concat("raw argument: ", redact::redact_long(input, 300).as_str())
}

// ---------------------------------------------------------------------------
// The link
// ---------------------------------------------------------------------------

/// `true` or `false`.
pub open spec fn flag(b: bool) -> Seq<char> {
    if b {
        "true"@
    } else {
        "false"@
    }
}

/// The remarks on a configuration.
pub open spec fn patch_list(patches: Seq<Seq<char>>) -> Seq<char> {
    if patches.len() == 0 {
        "none"@
    } else {
        text::joined(patches, ", "@)
    }
}

/// The number of bytes in `content`.
pub open spec fn size_of_text(content: Seq<char>) -> Seq<char> {
    text::decimal(encode_utf8(content).len())
}

/// What is logged of a connection: never its password, and its configuration without secrets.
pub open spec fn launch_log(launch: Launch) -> Seq<Act> {
    seq![
        Act::Log(
            "decoded payload: protocol="@ + launch.protocol + ", name="@ + launch.name
                + ", rdp_bytes="@ + size_of_text(launch.content),
        ),
        Act::Log(
            "rdp content: inner_config_base64="@ + flag(launch.inner_config_base64)
                + ", config_strategy="@ + launch.config_strategy + ", compat_patches="@
                + patch_list(launch.compat_patches) + ", preview="@ + redact::preview(
                launch.content,
            ),
        ),
        Act::LogBlock("rdp file content redacted"@, redact::redacted_content(launch.content)),
        Act::Log(
            "token secret: "@ + (if launch.password is Some {
                "present (payload token.value) -> used as RDP password"@
            } else {
                "absent (payload has no token.value); JumpServer gateway will reject the login"@
            }),
        ),
    ]
}

/// The lines that show a connection, with the first twenty lines of its configuration.
pub open spec fn inspection(launch: Launch) -> Seq<Seq<char>> {
    seq![
        "protocol: "@ + launch.protocol,
        "name: "@ + launch.name,
        "inner_config_base64: "@ + flag(launch.inner_config_base64),
        "config_strategy: "@ + launch.config_strategy,
        "compat_patches: "@ + patch_list(launch.compat_patches),
        "rdp bytes: "@ + size_of_text(launch.content),
        "rdp preview:"@,
    ] + redact::first_lines(text::lines_of(launch.content), 20)
}

/// The steps that print `lines`.
pub open spec fn printed(lines: Seq<Seq<char>>) -> Seq<Act> {
    Seq::new(lines.len(), |i: int| Act::Print(lines[i]))
}

/// The steps for a connection: it is logged; then one of another protocol is refused, and one of
/// the right protocol is shown or its file is written.
pub open spec fn launch_steps(launch: Launch, inspect: bool) -> Seq<Act> {
    launch_log(launch) + (if launch.protocol != "rdp"@ {
        seq![
            Act::Fail(
                "unsupported protocol '"@ + launch.protocol + "'; this launcher only handles rdp"@,
            ),
        ]
    } else if inspect {
        printed(inspection(launch))
    } else {
        seq![
            Act::Write(
                files::file_name(launch.name),
                files::normalized_breaks(launch.content),
            ),
        ]
    })
}

/// The steps after the file was written at `path`.
pub open spec fn written_steps(path: Seq<char>, write_only: bool) -> Seq<Act> {
    let said = seq![Act::Log("wrote rdp file: "@ + path), Act::Print("RDP file: "@ + path)];
    if write_only {
        said
    } else {
        said.push(Act::Launch)
    }
}

/// `true` or `false`.
fn flag_text(b: bool) -> (r: &'static str)
    ensures
        r@ == flag(b),
{
    if b {
        "true"
    } else {
        "false"
    }
}

/// The remarks on a configuration.
fn patch_text(patches: &Vec<String>) -> (r: String)
    ensures
        r@ == patch_list(text::string_views(patches@)),
{
    if patches.len() == 0 {
        "none".to_string()
    } else {
        text::join(patches, ", ")
    }
}

/// The number of bytes in `content`.
fn size_text(content: &str) -> (r: String)
    ensures
        r@ == size_of_text(content@),
{
    text::to_decimal(content.as_bytes().len() as u64)
}

/// What is logged of a connection.
fn log_launch(launch: &RdpLaunch) -> (r: Vec<Step>)
    ensures
        steps::acts(r@) == launch_log(launch@),
{
    let content = launch.content.as_str();
    let mut payload = text::concat("decoded payload: protocol=", launch.protocol.as_str());
    text::append(&mut payload, ", name=");
    text::append(&mut payload, launch.name.as_str());
    text::append(&mut payload, ", rdp_bytes=");
    text::append(&mut payload, size_text(content).as_str());
    let mut config = text::concat(
        "rdp content: inner_config_base64=",
        flag_text(launch.inner_config_base64),
    );
    text::append(&mut config, ", config_strategy=");
    text::append(&mut config, launch.config_strategy);
    text::append(&mut config, ", compat_patches=");
    text::append(&mut config, patch_text(&launch.compat_patches).as_str());
    text::append(&mut config, ", preview=");
    text::append(&mut config, redact::rdp_preview(content).as_str());
    let secret = text::concat(
        "token secret: ",
        if launch.password.is_some() {
            "present (payload token.value) -> used as RDP password"
        } else {
            "absent (payload has no token.value); JumpServer gateway will reject the login"
        },
    );
    let mut out: Vec<Step> = Vec::new();
    out.push(Step::Log(payload));
    out.push(Step::Log(config));
    out.push(
        Step::LogBlock("rdp file content redacted".to_string(), redact::redact_rdp_content(content)),
    );
    out.push(Step::Log(secret));
    assert(steps::acts(out@) =~= launch_log(launch@));
    out
}

/// The steps that show a connection.
fn show_launch(launch: &RdpLaunch) -> (r: Vec<Step>)
    ensures
        steps::acts(r@) == printed(inspection(launch@)),
{
    let ghost wanted = printed(inspection(launch@));
    let content = launch.content.as_str();
    let mut out: Vec<Step> = Vec::new();
    out.push(Step::Print(text::concat("protocol: ", launch.protocol.as_str())));
    out.push(Step::Print(text::concat("name: ", launch.name.as_str())));
    out.push(
        Step::Print(text::concat("inner_config_base64: ", flag_text(launch.inner_config_base64))),
    );
    out.push(Step::Print(text::concat("config_strategy: ", launch.config_strategy)));
    out.push(
        Step::Print(text::concat("compat_patches: ", patch_text(&launch.compat_patches).as_str())),
    );
    out.push(Step::Print(text::concat("rdp bytes: ", size_text(content).as_str())));
    out.push(Step::Print("rdp preview:".to_string()));
    assert(steps::acts(out@) =~= wanted.take(7));
    let lines = text::lines(content);
    let ghost all = text::lines_of(content@);
    let mut i: usize = 0;
    while i < lines.len() && i < 20
        invariant
            i <= lines@.len(),
            i <= 20,
            text::views(lines@) == all,
            all == text::lines_of(launch@.content),
            wanted == printed(inspection(launch@)),
            steps::acts(out@) == wanted.take(i + 7),
        decreases lines@.len() - i,
    {
        let ghost done = steps::acts(out@);
        assert(all[i as int] == lines@[i as int]@);
        out.push(Step::Print(lines[i].to_string()));
        assert(steps::acts(out@) =~= done.push(wanted[i + 7]));
        assert(wanted.take(i + 8) =~= wanted.take(i + 7).push(wanted[i + 7]));
        i = i + 1;
    }
    assert(all.len() == lines@.len());
    assert(wanted.take(wanted.len() as int) =~= wanted);
    out
}

/// The steps for a connection. With `inspect` it is only shown.
pub fn handle_launch(launch: &RdpLaunch, inspect: bool) -> (r: Vec<Step>)
    ensures
        steps::acts(r@) == launch_steps(launch@, inspect),
{
    let mut out = log_launch(launch);
    let ghost done = steps::acts(out@);
    if !text::same_text(launch.protocol.as_str(), "rdp") {
        let mut message = text::concat("unsupported protocol '", launch.protocol.as_str());
        text::append(&mut message, "'; this launcher only handles rdp");
        let ghost said = message@;
        out.push(Step::Fail(message));
        assert(steps::acts(out@) =~= done + seq![Act::Fail(said)]);
    } else if inspect {
        steps::extend(&mut out, show_launch(launch));
    } else {
        let (name, content) = files::rdp_file(launch.name.as_str(), launch.content.as_str());
        let ghost act = Act::Write(name@, content@);
        out.push(Step::Write(name, content));
        assert(steps::acts(out@) =~= done + seq![act]);
    }
    out
}

/// The steps after the file was written at `path`. With `write_only` the client is not started.
pub fn after_write(path: &str, write_only: bool) -> (r: Vec<Step>)
    ensures
        steps::acts(r@) == written_steps(path@, write_only),
{
    let mut out: Vec<Step> = Vec::new();
    out.push(Step::Log(text::concat("wrote rdp file: ", path)));
    out.push(Step::Print(text::concat("RDP file: ", path)));
    if !write_only {
        out.push(Step::Launch);
    }
    assert(steps::acts(out@) =~= written_steps(path@, write_only));
    out
}

// ---------------------------------------------------------------------------
// The template
// ---------------------------------------------------------------------------

/// The steps after the template was taken over from `source` to `destination`.
pub fn after_template_installed(source: &str, destination: &str) -> (r: Vec<Step>)
    ensures
        steps::acts(r@) == seq![
            Act::Log("installed MSTSC template from "@ + source@ + " to "@ + destination@),
            Act::Print("Installed MSTSC template: "@ + destination@),
        ],
{
    let mut line = text::concat("installed MSTSC template from ", source);
    text::append(&mut line, " to ");
    text::append(&mut line, destination);
    let ghost said = line@;
    let mut out: Vec<Step> = Vec::new();
    out.push(Step::Log(line));
    out.push(Step::Print(text::concat("Installed MSTSC template: ", destination)));
    assert(steps::acts(out@) =~= seq![
        Act::Log(said),
        Act::Print("Installed MSTSC template: "@ + destination@),
    ]);
    out
}

/// The steps after the template at `path` was removed, or was found absent.
pub fn after_template_cleared(path: &str, removed: bool) -> (r: Vec<Step>)
    ensures
        steps::acts(r@) == (if removed {
            seq![
                Act::Log("removed MSTSC template: "@ + path@),
                Act::Print("Removed MSTSC template: "@ + path@),
            ]
        } else {
            seq![
                Act::Log("MSTSC template already absent"@),
                Act::Print("MSTSC template is already absent"@),
            ]
        }),
{
    let mut out: Vec<Step> = Vec::new();
    if removed {
        out.push(Step::Log(text::concat("removed MSTSC template: ", path)));
        out.push(Step::Print(text::concat("Removed MSTSC template: ", path)));
        assert(steps::acts(out@) =~= seq![
            Act::Log("removed MSTSC template: "@ + path@),
            Act::Print("Removed MSTSC template: "@ + path@),
        ]);
    } else {
        out.push(Step::Log("MSTSC template already absent".to_string()));
        out.push(Step::Print("MSTSC template is already absent".to_string()));
        assert(steps::acts(out@) =~= seq![
            Act::Log("MSTSC template already absent"@),
            Act::Print("MSTSC template is already absent"@),
        ]);
    }
    out
}

// ---------------------------------------------------------------------------
// Laws
// ---------------------------------------------------------------------------

/// What is logged of a connection does not depend on its password, but for whether there is one.
pub proof fn law_log_hides_password(launch: Launch, one: Seq<char>, other: Seq<char>)
    ensures
        launch_log(Launch { password: Some(one), ..launch }) == launch_log(
            Launch { password: Some(other), ..launch },
        ),
{
    assert(launch_log(Launch { password: Some(one), ..launch }) =~= launch_log(
        Launch { password: Some(other), ..launch },
    ));
}

/// The lines of a configuration that is written anew show nothing of the token in the user name.
proof fn lemma_config_hides_token(
    address: Seq<char>,
    name: Seq<char>,
    token: Seq<char>,
    further: Seq<Seq<char>>,
)
    requires
        profile_laws::is_value(address),
        profile_laws::is_value(name + seq!['|'] + token),
        profile_laws::are_lines(further),
        !name.contains('|'),
    ensures
        redact::redacted_lines(
            text::lines_of(profiles::config_of(address, name + seq!['|'] + token, further)),
        ) == redact::redacted_lines(seq![profiles::address_line(address)]) + seq![
            "username:s:"@ + name + "|<redacted>"@,
        ] + redact::redacted_lines(further),
{
    reveal_strlit("username:s:");
    let username = name + seq!['|'] + token;
    let setting = "username:s:"@ + name;
    let lines = seq![profiles::address_line(address), profiles::username_line(username)] + further;
    profile_laws::law_written_config_reads_back(address, username, further);
    assert(text::lowered(setting).subrange(0, 11) =~= "username:s:"@);
    assert(!setting.contains('|')) by {
        assert forall|i: int| 0 <= i < setting.len() implies setting[i] != '|' by {
            if i >= 11 {
                assert(setting[i] == name[i - 11]);
            }
        }
    }
    redact::law_username_line_hides_token(setting, token);
    assert(profiles::username_line(username) == setting + seq!['|'] + token);
    assert(redact::redacted_lines(lines) =~= redact::redacted_lines(
        seq![profiles::address_line(address)],
    ) + seq!["username:s:"@ + name + "|<redacted>"@] + redact::redacted_lines(further));
}

/// What is logged of a connection whose configuration was written anew does not depend on the
/// token in the user name, but for its length.
pub proof fn law_log_hides_token(
    launch: Launch,
    address: Seq<char>,
    name: Seq<char>,
    one: Seq<char>,
    other: Seq<char>,
    further: Seq<Seq<char>>,
)
    requires
        profile_laws::is_value(address),
        profile_laws::is_value(name + seq!['|'] + one),
        profile_laws::is_value(name + seq!['|'] + other),
        profile_laws::are_lines(further),
        !name.contains('|'),
        encode_utf8(profiles::config_of(address, name + seq!['|'] + one, further)).len()
            == encode_utf8(profiles::config_of(address, name + seq!['|'] + other, further)).len(),
    ensures
        launch_log(
            Launch {
                content: profiles::config_of(address, name + seq!['|'] + one, further),
                ..launch
            },
        ) == launch_log(
            Launch {
                content: profiles::config_of(address, name + seq!['|'] + other, further),
                ..launch
            },
        ),
{
    let a = profiles::config_of(address, name + seq!['|'] + one, further);
    let b = profiles::config_of(address, name + seq!['|'] + other, further);
    lemma_config_hides_token(address, name, one, further);
    lemma_config_hides_token(address, name, other, further);
    profile_laws::law_written_config_reads_back(address, name + seq!['|'] + one, further);
    profile_laws::law_written_config_reads_back(address, name + seq!['|'] + other, further);
    assert(redact::redacted_lines(redact::first_lines(text::lines_of(a), 8))
        =~= redact::first_lines(redact::redacted_lines(text::lines_of(a)), 8));
    assert(redact::redacted_lines(redact::first_lines(text::lines_of(b), 8))
        =~= redact::first_lines(redact::redacted_lines(text::lines_of(b)), 8));
    assert(launch_log(Launch { content: a, ..launch }) =~= launch_log(
        Launch { content: b, ..launch },
    ));
}

/// A connection of another protocol is refused: nothing is written, printed or launched.
pub proof fn law_other_protocol_refused(launch: Launch, inspect: bool)
    requires
        launch.protocol != "rdp"@,
    ensures
        launch_steps(launch, inspect).last() == Act::Fail(
            "unsupported protocol '"@ + launch.protocol + "'; this launcher only handles rdp"@,
        ),
        forall|i: int|
            0 <= i < launch_steps(launch, inspect).len() - 1 ==> (#[trigger] launch_steps(
                launch,
                inspect,
            )[i] is Log || launch_steps(launch, inspect)[i] is LogBlock),
{
}

/// A connection that is only inspected is neither written to a file nor launched.
pub proof fn law_inspection_changes_nothing(launch: Launch)
    ensures
        forall|i: int|
            0 <= i < launch_steps(launch, true).len() ==> !(#[trigger] launch_steps(
                launch,
                true,
            )[i] is Write) && !(launch_steps(launch, true)[i] is Launch),
{
}

/// A connection whose file is only written is not launched.
pub proof fn law_written_only_is_not_launched(path: Seq<char>)
    ensures
        !written_steps(path, true).contains(Act::Launch),
        written_steps(path, false).last() == Act::Launch,
{
}

} // verus!
