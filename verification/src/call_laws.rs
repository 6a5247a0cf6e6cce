//! What the calls of the program give back.
use crate::choice_laws;
use crate::cli;
use crate::cli::Cli;
use crate::credentials;
use crate::credentials::{CommandOutcome, CredentialPlan, Plan};
use crate::error;
use crate::error::LauncherError;
use crate::events;
use crate::files;
use crate::json::JsonObject;
use crate::launch;
use crate::launch::{
    LaunchCommand,
    LaunchEvent,
    LaunchPlan,
    LaunchRequest,
    Platform,
    Start,
    WindowsEnvironment,
};
use crate::link;
use crate::link::RdpLaunch;
use crate::option_laws;
use crate::paths;
use crate::paths::Location;
use crate::payload_laws;
use crate::profiles;
use crate::redact;
use crate::registration;
use crate::run;
use crate::run::{Action, Task};
use crate::run_laws;
use crate::settings;
use crate::settings_laws;
use crate::steps;
use crate::steps::{Act, Step};
use crate::template;
use crate::template_laws;
use crate::text;
use vstd::prelude::*;

verus! {

// ---------------------------------------------------------------------------
// Links and configurations
// ---------------------------------------------------------------------------

/// A configuration in which no line holds a bar comes back as it is, for each profile.
pub proof fn law_configuration_without_bar_comes_back(
    content: String,
    profile: &str,
    saved: Option<&str>,
    r: (String, &'static str, Vec<String>),
)
    requires
        forall|i: int|
            0 <= i < text::lines_of(content@).len() ==> !(#[trigger] text::lines_of(
                content@,
            )[i]).contains('|'),
    ensures
        call_ensures(template::normalize_jumpserver_rdp_config, (content, profile, saved), r) ==> r.0@
            == content@ && r.1@ == "raw"@ && r.2@.len() == 0,
{
    choice_laws::law_configuration_without_bar_is_left_alone(
        content@,
        profile@,
        settings::text_view(saved),
        None,
    );
    if call_ensures(template::normalize_jumpserver_rdp_config, (content, profile, saved), r) {
        assert(text::string_views(r.2@).len() == r.2@.len());
    }
}

/// The configuration for a profile is the one that the profile makes.
pub proof fn law_configuration_for_profile(
    content: String,
    profile: &str,
    saved: Option<&str>,
    r: (String, &'static str, Vec<String>),
)
    ensures
        call_ensures(template::normalize_jumpserver_rdp_config, (content, profile, saved), r) ==> {
            let made = template::normalized(content@, profile@, settings::text_view(saved));
            &&& r.0@ == made.content
            &&& r.1@ == made.strategy
            &&& text::string_views(r.2@) == made.patches
        },
{
}

/// Whether a user name carries a token, a line starts with `username:s:`, in whatever case, and
/// holds a bar.
pub proof fn law_token_is_recognised(content: &str, r: bool)
    ensures
        call_ensures(settings::has_jumpserver_token_username, (content,), r) ==> r
            == choice_laws::carries_token(content@),
{
    settings_laws::law_token_user_name(content@);
}

/// A line of a template is left out where it starts with one of the four words for stored
/// credentials, in whatever case, and nowhere else.
pub proof fn law_stored_credentials_are_left_out(line: &str, r: bool)
    ensures
        call_ensures(template::should_drop_template_rdp_line, (line,), r) ==> r == (
        settings_laws::starts_like(line@, "password"@) || settings_laws::starts_like(
            line@,
            "gatewayaccesstoken"@,
        ) || settings_laws::starts_like(line@, "gatewaycredentialssource"@)
            || settings_laws::starts_like(line@, "gatewayusername"@)),
{
    template_laws::law_stored_credentials(line@);
}

/// A filled template is the text of its lines.
pub proof fn law_template_is_filled(saved: &str, address: &str, username: &str, r: String)
    ensures
        call_ensures(template::apply_rdp_template, (saved, address, username), r) ==> r@
            == text::joined(
            template::template_lines(saved@, address@, username@),
            seq!['\n'],
        ),
{
    reveal_strlit("\n");
    assert("\n"@ =~= seq!['\n']);
}

/// The template matters for the profile of that name alone.
pub proof fn law_template_is_needed(profile: &str, r: bool)
    ensures
        call_ensures(template::needs_template, (profile,), r) ==> r == (profile@ == "template"@),
{
}

/// The secret of a payload comes back as it is.
pub proof fn law_secret_comes_back(
    object: &JsonObject,
    token: Map<Seq<char>, crate::json::Json>,
    s: Seq<char>,
    r: Option<String>,
)
    requires
        s.len() > 0,
        (payload_laws::has_object(object@, "token"@, token) && payload_laws::has_text(
            token,
            "value"@,
            s,
        )) || payload_laws::has_text(object@, "token"@, s) || (payload_laws::token_is_silent(
            object@,
        ) && payload_laws::has_text(object@, "value"@, s)),
    ensures
        call_ensures(link::extract_token_secret, (object,), r) ==> r is Some && r->Some_0@ == s,
{
    payload_laws::law_secret_is_the_value_of_the_token(object@, token, s);
}

/// A link gives the connection of its document, or says why there is none.
pub proof fn law_link_gives_connection(
    input: &str,
    profile: &str,
    saved: Option<&str>,
    r: Result<RdpLaunch, LauncherError>,
)
    ensures
        call_ensures(link::parse_jms_link, (input, profile, saved), r) ==> match link::link_launch(
            input@,
            profile@,
            settings::text_view(saved),
        ) {
            Ok(launch) => r is Ok && {
                let made = r->Ok_0;
                &&& made.protocol@ == launch.protocol
                &&& made.name@ == launch.name
                &&& made.content@ == launch.content
                &&& launch.password is Some ==> made.password is Some && made.password->Some_0@
                    == launch.password->Some_0
                &&& launch.password is None ==> made.password is None
                &&& made.inner_config_base64 == launch.inner_config_base64
                &&& made.config_strategy@ == launch.config_strategy
                &&& text::string_views(made.compat_patches@) == launch.compat_patches
            },
            Err(message) => r is Err && r->Err_0@ == message,
        },
{
}

// ---------------------------------------------------------------------------
// The command line
// ---------------------------------------------------------------------------

/// The command line gives the options that it asks for, or says why it asks for none.
pub proof fn law_command_line_gives_options(args: Vec<String>, r: Result<Cli, LauncherError>)
    ensures
        call_ensures(cli::parse_cli, (args,), r) ==> match cli::parsed_options(
            text::string_views(args@),
        ) {
            Ok(o) => r is Ok && {
                let made = r->Ok_0;
                &&& profiles::string_view(made.input) == o.input
                &&& profiles::string_view(made.mstsc) == o.mstsc
                &&& profiles::string_view(made.profile) == o.profile
                &&& profiles::string_view(made.log) == o.log
                &&& profiles::string_view(made.rdp_file) == o.rdp_file
                &&& profiles::string_view(made.set_template) == o.set_template
                &&& made.inspect == o.inspect && made.write_only == o.write_only
                &&& made.register == o.register && made.unregister == o.unregister
                &&& made.clear_template == o.clear_template && made.no_wait == o.no_wait
                &&& made.direct_mstsc == o.direct_mstsc && made.use_cmdkey == o.use_cmdkey
                &&& made.monitor_seconds == o.monitor_seconds
                &&& made.help == o.help
            },
            Err(message) => r is Err && r->Err_0@ == message,
        },
{
}

/// The number of seconds on the command line is the one that is used.
pub proof fn law_seconds_come_back(
    args: Vec<String>,
    before: Seq<Seq<char>>,
    n: u64,
    r: Result<Cli, LauncherError>,
)
    requires
        cli::parsed_options(before) is Ok,
        text::string_views(args@) == before.push("--monitor-seconds"@).push(
            text::decimal(n as nat),
        ),
    ensures
        call_ensures(cli::parse_cli, (args,), r) ==> r is Ok && r->Ok_0.monitor_seconds == n,
{
    option_laws::law_seconds_are_those_given(
        before,
        cli::parsed_options(before)->Ok_0,
        n as nat,
        text::decimal(n as nat),
    );
}

/// The task is the first one that the options ask for.
pub proof fn law_task_of_options(options: &Cli, r: Result<Action, LauncherError>)
    ensures
        call_ensures(run::select_action, (options,), r) ==> match run::selected(options@) {
            Ok(task) => r is Ok && match r->Ok_0 {
                Action::Register => task == Task::Register,
                Action::Unregister => task == Task::Unregister,
                Action::SetTemplate(path) => task == Task::SetTemplate(path@),
                Action::ClearTemplate => task == Task::ClearTemplate,
                Action::OpenFile(path) => task == Task::OpenFile(path@),
                Action::OpenLink(input) => task == Task::OpenLink(input@),
            },
            Err(message) => r is Err && r->Err_0@ == message,
        },
{
}

/// Without a profile the profile `mac` is used.
pub proof fn law_profile_that_is_used(name: &str, r: &str)
    ensures
        call_ensures(run::profile_or_default, (None,), r) ==> r@ == "mac"@,
        call_ensures(run::profile_or_default, (Some(name),), r) ==> r@ == name@,
{
}

// ---------------------------------------------------------------------------
// Steps
// ---------------------------------------------------------------------------

/// A connection of the protocol `rdp` that is not inspected is written to its file, whatever its
/// password.
pub proof fn law_connection_gets_its_file(launch: &RdpLaunch, r: Vec<Step>)
    requires
        launch.protocol@ == "rdp"@,
    ensures
        call_ensures(run::handle_launch, (launch, false), r) ==> r@.len() == 5 && (
        r@.last() matches Step::Write(name, content) && name@ == files::file_stem(launch.name@)
            + ".rdp"@ && content@ == files::normalized_breaks(launch.content@)),
{
    run_laws::law_connection_is_written(launch@);
    if call_ensures(run::handle_launch, (launch, false), r) {
        assert(steps::acts(r@).len() == r@.len());
        assert(steps::acts(r@).last() == r@.last()@);
    }
}

/// The steps of a connection, and those that follow them.
pub proof fn law_steps_of_connection(
    launch: &RdpLaunch,
    inspect: bool,
    path: &str,
    write_only: bool,
    r: Vec<Step>,
)
    ensures
        call_ensures(run::handle_launch, (launch, inspect), r) ==> steps::acts(r@)
            == run::launch_steps(launch@, inspect),
        call_ensures(run::after_write, (path, write_only), r) ==> steps::acts(r@)
            == run::written_steps(path@, write_only),
{
}

/// What is said of the argument, and of templates.
pub proof fn law_what_is_said_of_templates(
    input: &str,
    source: &str,
    path: &str,
    line: String,
    r: Vec<Step>,
)
    ensures
        call_ensures(run::raw_argument_line, (input,), line) ==> line@ == "raw argument: "@
            + redact::shortened(input@, 300),
        call_ensures(run::after_template_installed, (source, path), r) ==> steps::acts(r@) == seq![
            Act::Log("installed MSTSC template from "@ + source@ + " to "@ + path@),
            Act::Print("Installed MSTSC template: "@ + path@),
        ],
        call_ensures(run::after_template_cleared, (path, true), r) ==> steps::acts(r@) == seq![
            Act::Log("removed MSTSC template: "@ + path@),
            Act::Print("Removed MSTSC template: "@ + path@),
        ],
        call_ensures(run::after_template_cleared, (path, false), r) ==> steps::acts(r@) == seq![
            Act::Log("MSTSC template already absent"@),
            Act::Print("MSTSC template is already absent"@),
        ],
{
}

/// The plan of a launch, what is said before it, and what follows it.
pub proof fn law_calls_around_launch(
    request: &LaunchRequest,
    exists_path: bool,
    platform: Platform,
    native: &str,
    plan: Result<LaunchPlan, LauncherError>,
    command: &LaunchCommand,
    path: &str,
    environment: &Option<WindowsEnvironment>,
    event: &LaunchEvent,
    installed: &Vec<String>,
    wait: bool,
    seconds: u64,
    windows: bool,
    r: Vec<Step>,
)
    ensures
        call_ensures(launch::plan_launch, (request, exists_path, platform, native), plan) ==> (
        match launch::planned_launch(*request, exists_path, platform, native@) {
            Ok((credentials, start, wait)) => plan is Ok && plan->Ok_0.credentials@ == credentials
                && plan->Ok_0.command@ == start && plan->Ok_0.wait == wait,
            Err(message) => plan is Err && plan->Err_0@ == message,
        }),
        call_ensures(launch::announce, (command, path, environment), r) ==> steps::acts(r@)
            == launch::announcement(command@, path@, *environment),
        call_ensures(launch::after_launch, (event, installed, wait, seconds, windows), r)
            ==> steps::acts(r@) == launch::aftermath(
            *event,
            text::string_views(installed@),
            wait,
            seconds as nat,
            windows,
        ),
        call_ensures(launch::cleanup_windows_mstsc_credentials, (installed,), r) ==> r@.len()
            == installed@.len() && forall|i: int|
            0 <= i < installed@.len() ==> (#[trigger] r@[i])@ == Act::DeleteCredential(
                installed@[i]@,
            ),
{
    if call_ensures(launch::cleanup_windows_mstsc_credentials, (installed,), r) {
        let targets = text::string_views(installed@);
        assert(steps::acts(r@).len() == r@.len());
        assert forall|i: int| 0 <= i < installed@.len() implies (#[trigger] r@[i])@
            == Act::DeleteCredential(installed@[i]@) by {
            assert(steps::acts(r@)[i] == r@[i]@);
            assert(targets[i] == installed@[i]@);
        }
    }
}

/// The shell has opened a file where its code is above 32, and its code is logged; the registry was
/// changed where its command has ended with success.
pub proof fn law_codes_and_statuses(
    code: i64,
    success: bool,
    status: &str,
    line: String,
    r: Result<(), LauncherError>,
)
    ensures
        call_ensures(launch::shell_result_line, (code,), line) ==> line@
            == "ShellExecuteW result code: "@ + launch::signed_decimal(code as int),
        call_ensures(launch::check_shell_result, (code,), r) ==> (r is Ok <==> code > 32),
        call_ensures(launch::check_shell_result, (code,), r) && r is Err ==> r->Err_0@
            == "ShellExecuteW failed with code "@ + launch::signed_decimal(code as int),
        call_ensures(registration::run_reg, (success, status), r) ==> (r is Ok <==> success),
        call_ensures(registration::run_reg, (success, status), r) && r is Err ==> r->Err_0@
            == "reg.exe failed with "@ + status@,
{
}

/// Where the program of Windows is looked for, and which one is taken.
pub proof fn law_calls_for_program_of_windows(present: &[bool], places: Vec<&'static str>, r: &'static str)
    ensures
        call_ensures(launch::mstsc_candidates, (), places) ==> text::views(places@)
            == launch::mstsc_places(),
        call_ensures(launch::native_windows_mstsc_path, (present,), r) ==> r@
            == launch::first_present(launch::mstsc_places(), present@),
{
}

/// The registration, and taking it back.
pub proof fn law_calls_for_registration(
    exe: &str,
    profile: Option<&str>,
    direct: bool,
    use_cmdkey: bool,
    windows: bool,
    line: String,
    r: Vec<Step>,
)
    ensures
        call_ensures(registration::handler_command_line, (exe, profile, direct, use_cmdkey), line)
            ==> line@ == registration::handler_command(
            exe@,
            settings::text_view(profile),
            direct,
            use_cmdkey,
        ),
        call_ensures(registration::register_protocol, (exe, profile, direct, use_cmdkey, windows), r)
            ==> steps::acts(r@) == registration::registration(
            exe@,
            registration::handler_command(
                exe@,
                settings::text_view(profile),
                direct,
                use_cmdkey,
            ),
            windows,
        ),
        call_ensures(registration::unregister_protocol, (windows,), r) ==> steps::acts(r@)
            == registration::deregistration(windows),
{
}

/// Credentials: which are written, with which commands, and what is said of them.
pub proof fn law_calls_for_credentials(
    content: Option<&str>,
    secret: Option<&str>,
    address: &str,
    target: &str,
    username: &str,
    password: &str,
    outcome: &CommandOutcome,
    plan: CredentialPlan,
    r: Vec<String>,
    line: String,
)
    ensures
        call_ensures(credentials::prepare_windows_mstsc_credentials, (content, secret), plan) ==> plan@
            == credentials::planned_credentials(
            settings::text_view(content),
            settings::text_view(secret),
        ),
        call_ensures(credentials::log_cmdkey_disabled, (content,), plan) ==> plan@
            == credentials::disabled_credentials(settings::text_view(content)),
        call_ensures(credentials::rdp_credential_targets, (address,), r) ==> text::string_views(r@)
            == credentials::credential_targets(address@),
        call_ensures(credentials::cmdkey_install_arguments, (target, username, password), r)
            ==> text::string_views(r@) == credentials::install_arguments(
            target@,
            username@,
            password@,
        ),
        call_ensures(credentials::cmdkey_delete_argument, (target,), line) ==> line@ == "/delete:"@
            + target@,
        call_ensures(credentials::record_delete, (target, outcome), line) ==> line@
            == credentials::delete_report(target@, *outcome),
{
}

/// Event logs: which are looked into, with which commands, and what is noted of them.
pub proof fn law_calls_for_event_logs(
    label: &str,
    seconds: u64,
    channel: &str,
    outcome: &CommandOutcome,
    acts: Vec<Step>,
    arguments: Vec<String>,
    r: Step,
)
    ensures
        call_ensures(events::capture_rdp_event_logs, (label,), acts) ==> steps::acts(acts@)
            == events::capture(label@),
        call_ensures(events::monitor_rdp_events_after_mstsc_returns, (seconds,), acts)
            ==> steps::acts(acts@) == events::monitoring(seconds as nat),
        call_ensures(events::event_query_arguments, (channel,), arguments) ==> text::string_views(
            arguments@,
        ) == events::query_arguments(channel@),
        call_ensures(events::record_events, (channel, outcome), r) ==> r@ == events::answer_note(
            channel@,
            *outcome,
        ),
{
}

/// Files: their texts, their names, and where they are kept.
pub proof fn law_calls_for_files(
    bytes: Vec<u8>,
    path: &str,
    name: &str,
    content: &str,
    extension: &str,
    windows: bool,
    first: bool,
    second: bool,
    text_read: Result<String, LauncherError>,
    file: (String, String),
    yes: bool,
    place: Location,
)
    ensures
        call_ensures(files::read_text_file_lossy, (bytes, path), text_read) ==> error::outcome(
            text_read,
        ) == files::file_text(bytes@, path@),
        call_ensures(files::install_template_rdp, (content, path), text_read) ==> error::outcome(
            text_read,
        ) == files::template_text(content@, path@),
        call_ensures(files::rdp_file, (name, content), file) ==> file.0@ == files::file_stem(name@)
            + ".rdp"@ && file.1@ == files::normalized_breaks(content@),
        call_ensures(files::is_rdp_extension, (Some(extension),), yes) ==> yes
            == text::same_ignoring_case(extension@, "rdp"@),
        call_ensures(files::is_rdp_extension, (None,), yes) ==> !yes,
        call_ensures(paths::app_config_dir, (windows, first, second), place) ==> (
            place.base,
            text::views(place.names@),
        ) == paths::config_location(windows, first, second),
        call_ensures(paths::template_rdp_path, (windows, first, second), place) ==> (
            place.base,
            text::views(place.names@),
        ) == paths::config_file(windows, first, second, "mstsc-success-template.rdp"@),
        call_ensures(paths::default_log_path, (windows, first, second), place) ==> (
            place.base,
            text::views(place.names@),
        ) == paths::config_file(windows, first, second, "launcher.log"@),
{
}

/// Entries of the log.
pub proof fn law_calls_for_log(
    seconds: Option<u64>,
    time: &str,
    message: &str,
    body: &str,
    line: String,
    lines: Vec<String>,
)
    ensures
        call_ensures(steps::timestamp, (seconds,), line) ==> line@ == "unix:"@ + text::decimal(
            match seconds {
                Some(n) => n as nat,
                None => 0nat,
            },
        ),
        call_ensures(steps::log_line, (time, message), line) ==> line@ == "["@ + time@ + "] "@
            + message@,
        call_ensures(steps::log_block, (time, message, body), lines) ==> text::string_views(lines@)
            == steps::log_block_of(time@, message@, body@),
{
}

/// A model of something stands for that very thing: texts for their characters, starts, plans and
/// steps for what they name.
pub proof fn law_models(
    s: String,
    t: &str,
    all: Vec<String>,
    i: int,
    targets: Vec<String>,
    username: String,
    password: String,
    reason: &'static str,
)
    ensures
        profiles::string_view(Some(s)) == Some(s@) && profiles::string_view(None) is None,
        settings::text_view(Some(t)) == Some(t@) && settings::text_view(None) is None,
        text::string_views(all@).len() == all@.len(),
        0 <= i < all@.len() ==> text::string_views(all@)[i] == all@[i]@,
        LaunchCommand::ShellOpen@ == Start::ShellOpen,
        LaunchCommand::Run(s)@ == Start::Run(s@),
        LaunchCommand::Spawn(s)@ == Start::Spawn(s@),
        CredentialPlan::Nothing@ == Plan::Nothing,
        CredentialPlan::Skip(reason)@ == Plan::Skip(reason@),
        (CredentialPlan::Install { targets, username, password })@ == (Plan::Install {
            targets: text::string_views(targets@),
            username: username@,
            password: password@,
        }),
        LauncherError::Message(s)@ == s@,
{
}

/// A model of a step stands for that very step.
pub proof fn law_models_of_steps(
    a: String,
    b: String,
    args: Vec<String>,
    seconds: u64,
    all: Vec<Step>,
    i: int,
)
    ensures
        Step::Log(a)@ == Act::Log(a@) && Step::Note(a)@ == Act::Note(a@),
        Step::LogBlock(a, b)@ == Act::LogBlock(a@, b@),
        Step::NoteBlock(a, b)@ == Act::NoteBlock(a@, b@),
        Step::Print(a)@ == Act::Print(a@) && Step::Fail(a)@ == Act::Fail(a@),
        Step::Registry(args)@ == Act::Registry(text::string_views(args@)),
        Step::Query(a)@ == Act::Query(a@) && Step::Sleep(seconds)@ == Act::Sleep(seconds as nat),
        Step::DeleteCredential(a)@ == Act::DeleteCredential(a@),
        Step::Write(a, b)@ == Act::Write(a@, b@),
        Step::Launch@ == Act::Launch,
        steps::acts(all@).len() == all@.len(),
        0 <= i < all@.len() ==> steps::acts(all@)[i] == all@[i]@,
{
}

} // verus!
