//! Starting the remote desktop client, and what follows.
use crate::credentials;
use crate::credentials::{CredentialPlan, Plan};
use crate::error;
use crate::error::LauncherError;
use crate::events;
use crate::profile_laws;
use crate::profiles;
use crate::settings;
use crate::steps;
use crate::steps::{Act, Step};
use crate::template;
use crate::text;
use vstd::prelude::*;

verus! {

/// Where the program runs.
#[derive(Debug, Clone, Copy)]
pub enum Platform {
    Windows,
    MacOs,
    OtherUnix,
}

// ---------------------------------------------------------------------------
// The plan
// ---------------------------------------------------------------------------

/// How the client is started.
#[derive(Debug)]
pub enum LaunchCommand {
    /// By opening the file, as the shell of Windows would.
    ShellOpen,
    /// By running a program with the file as its argument, and waiting until it ends.
    Run(String),
    /// By running a program with the file as its argument, without waiting for it.
    Spawn(String),
}

/// The model of a way to start the client.
#[verifier::ext_equal]
pub enum Start {
    ShellOpen,
    Run(Seq<char>),
    Spawn(Seq<char>),
}

impl View for LaunchCommand {
    type V = Start;

    open spec fn view(&self) -> Start {
        match self {
            LaunchCommand::ShellOpen => Start::ShellOpen,
            LaunchCommand::Run(program) => Start::Run(program@),
            LaunchCommand::Spawn(program) => Start::Spawn(program@),
        }
    }
}

/// What a launch does: which credentials are written first, how the client is started, and
/// whether its end is waited for.
#[derive(Debug)]
pub struct LaunchPlan {
    pub credentials: CredentialPlan,
    pub command: LaunchCommand,
    pub wait: bool,
}

impl View for LaunchPlan {
    type V = (Plan, Start, bool);

    open spec fn view(&self) -> (Plan, Start, bool) {
        (self.credentials@, self.command@, self.wait)
    }
}

/// What is asked of a launch.
#[derive(Debug)]
pub struct LaunchRequest {
    /// The path of the file.
    pub path: String,
    /// Its content, where it could be read.
    pub content: Option<String>,
    /// The secret of the connection token.
    pub token_password: Option<String>,
    /// The program to be run.
    pub mstsc: Option<String>,
    /// Whether the end of the client is not waited for.
    pub no_wait: bool,
    pub direct_mstsc: bool,
    pub use_cmdkey: bool,
}

/// The credentials that are written: only Windows keeps any.
pub open spec fn request_credentials(request: LaunchRequest, platform: Platform) -> Plan {
    if !request.use_cmdkey {
        credentials::disabled_credentials(profiles::string_view(request.content))
    } else if platform is Windows {
        credentials::planned_credentials(
            profiles::string_view(request.content),
            profiles::string_view(request.token_password),
        )
    } else {
        Plan::Nothing
    }
}

/// The start of `program`, whose end is waited for unless `no_wait` is set.
pub open spec fn program_start(program: Seq<char>, no_wait: bool) -> Start {
    if no_wait {
        Start::Spawn(program)
    } else {
        Start::Run(program)
    }
}

/// How the client is started: `native` is the client that belongs to Windows.
pub open spec fn request_start(
    request: LaunchRequest,
    platform: Platform,
    native: Seq<char>,
) -> Start {
    match request.mstsc {
        Some(program) => program_start(program@, request.no_wait),
        None => match platform {
            Platform::Windows => if request.direct_mstsc {
                program_start(native, request.no_wait)
            } else {
                Start::ShellOpen
            },
            Platform::MacOs => program_start("open"@, request.no_wait),
            Platform::OtherUnix => program_start("xdg-open"@, request.no_wait),
        },
    }
}

/// The plan of a launch, which needs the file to be there.
pub open spec fn planned_launch(
    request: LaunchRequest,
    exists_path: bool,
    platform: Platform,
    native: Seq<char>,
) -> Result<(Plan, Start, bool), Seq<char>> {
    if exists_path {
        Ok(
            (
                request_credentials(request, platform),
                request_start(request, platform, native),
                !request.no_wait,
            ),
        )
    } else {
        Err("RDP file does not exist: "@ + request.path@)
    }
}

/// The start of `program`, whose end is waited for unless `no_wait` is set.
fn start_program(program: &str, no_wait: bool) -> (r: LaunchCommand)
    ensures
        r@ == program_start(program@, no_wait),
{
    if no_wait {
        LaunchCommand::Spawn(program.to_string())
    } else {
        LaunchCommand::Run(program.to_string())
    }
}

/// The text of an optional owned text.
fn as_text<'a>(s: &'a Option<String>) -> (r: Option<&'a str>)
    ensures
        settings::text_view(r) == profiles::string_view(*s),
{
    match s {
        Some(t) => Some(t.as_str()),
        None => None,
    }
}

/// The plan of a launch. `exists_path` says whether the file is there, `native` is the client
/// that belongs to Windows.
pub fn plan_launch(
    request: &LaunchRequest,
    exists_path: bool,
    platform: Platform,
    native: &str,
) -> (r: Result<LaunchPlan, LauncherError>)
    ensures
        error::outcome(r) == planned_launch(*request, exists_path, platform, native@),
{
    if !exists_path {
        return Err(LauncherError::about("RDP file does not exist: ", request.path.as_str()));
    }
    let windows = match platform {
        Platform::Windows => true,
        _ => false,
    };
    let plan = if !request.use_cmdkey {
        credentials::log_cmdkey_disabled(as_text(&request.content))
    } else if windows {
        credentials::prepare_windows_mstsc_credentials(
            as_text(&request.content),
            as_text(&request.token_password),
        )
    } else {
        CredentialPlan::Nothing
    };
    let command = match &request.mstsc {
        Some(program) => start_program(program.as_str(), request.no_wait),
        None => match platform {
            Platform::Windows => if request.direct_mstsc {
                start_program(native, request.no_wait)
            } else {
                LaunchCommand::ShellOpen
            },
            Platform::MacOs => start_program("open", request.no_wait),
            Platform::OtherUnix => start_program("xdg-open", request.no_wait),
        },
    };
    Ok(LaunchPlan { credentials: plan, command, wait: !request.no_wait })
}

/// The places where the client that belongs to Windows may lie.
pub open spec fn mstsc_places() -> Seq<Seq<char>> {
    seq![
        "C:\\Windows\\Sysnative\\mstsc.exe"@,
        "C:\\Windows\\System32\\mstsc.exe"@,
        "C:\\Windows\\SysWOW64\\mstsc.exe"@,
    ]
}

/// The first of `places` that is there, or the bare name of the client.
pub open spec fn first_present(places: Seq<Seq<char>>, present: Seq<bool>) -> Seq<char>
    decreases places.len(),
{
    if places.len() == 0 || present.len() == 0 {
        "mstsc.exe"@
    } else if present[0] {
        places[0]
    } else {
        first_present(places.drop_first(), present.drop_first())
    }
}

/// The places where the client that belongs to Windows may lie.
pub fn mstsc_candidates() -> (r: Vec<&'static str>)
    ensures
        text::views(r@) == mstsc_places(),
{
    let r: Vec<&'static str> = vec![
        "C:\\Windows\\Sysnative\\mstsc.exe",
        "C:\\Windows\\System32\\mstsc.exe",
        "C:\\Windows\\SysWOW64\\mstsc.exe",
    ];
    assert(text::views(r@) =~= mstsc_places());
    r
}

/// The client that belongs to Windows. `present` says which of the candidates are there.
pub fn native_windows_mstsc_path(present: &[bool]) -> (r: &'static str)
    ensures
        r@ == first_present(mstsc_places(), present@),
{
    let places = mstsc_candidates();
    let ghost all = mstsc_places();
    let mut i: usize = 0;
    assert(all.skip(0) =~= all && present@.skip(0) =~= present@);
    while i < places.len() && i < present.len()
        invariant
            i <= places@.len(),
            i <= present@.len(),
            text::views(places@) == all,
            first_present(mstsc_places(), present@) == first_present(
                all.skip(i as int),
                present@.skip(i as int),
            ),
        decreases places@.len() - i,
    {
        assert(all[i as int] == places@[i as int]@);
        if present[i] {
            return places[i];
        }
        assert(all.skip(i as int).drop_first() =~= all.skip(i + 1));
        assert(present@.skip(i as int).drop_first() =~= present@.skip(i + 1));
        i = i + 1;
    }
    assert(all.len() == places@.len());
    "mstsc.exe"
}

// ---------------------------------------------------------------------------
// Before the client is started
// ---------------------------------------------------------------------------

/// The variables of the environment that tell the architecture of Windows.
#[derive(Debug)]
pub struct WindowsEnvironment {
    pub architecture: Option<String>,
    pub wow64_architecture: Option<String>,
    pub program_files: Option<String>,
}

/// `value`, or a mark where there is none.
pub open spec fn or_unset(value: Option<String>) -> Seq<char> {
    match value {
        Some(s) => s@,
        None => "<unset>"@,
    }
}

/// What is noted of the environment.
pub open spec fn environment_note(environment: WindowsEnvironment, selected: Seq<char>) -> Seq<
    char,
> {
    "windows env: PROCESSOR_ARCHITECTURE="@ + or_unset(environment.architecture)
        + ", PROCESSOR_ARCHITEW6432="@ + or_unset(environment.wow64_architecture)
        + ", ProgramW6432="@ + or_unset(environment.program_files) + ", selected_mstsc="@ + selected
}

/// What is logged before the client is started.
pub open spec fn announcement(
    start: Start,
    path: Seq<char>,
    environment: Option<WindowsEnvironment>,
) -> Seq<Act> {
    let command = match start {
        Start::ShellOpen => "launch command: ShellExecuteW open "@ + path,
        Start::Run(program) | Start::Spawn(program) => "launch command: "@ + program + " "@ + path,
    };
    let selected = match start {
        Start::ShellOpen => "<shell .rdp association>"@,
        Start::Run(program) | Start::Spawn(program) => program,
    };
    seq![Act::Log(command)] + (match environment {
        Some(e) => seq![Act::Note(environment_note(e, selected))],
        None => seq![],
    })
}

/// `value`, or a mark where there is none.
fn text_or_unset<'a>(value: &'a Option<String>) -> (r: &'a str)
    ensures
        r@ == or_unset(*value),
{
    match value {
        Some(s) => s.as_str(),
        None => "<unset>",
    }
}

/// What is noted of the environment before the client `selected` is started.
pub fn log_windows_mstsc_environment(environment: &WindowsEnvironment, selected: &str) -> (r: String)
    ensures
        r@ == environment_note(*environment, selected@),
{
    let mut line = text::concat(
        "windows env: PROCESSOR_ARCHITECTURE=",
        text_or_unset(&environment.architecture),
    );
    text::append(&mut line, ", PROCESSOR_ARCHITEW6432=");
    text::append(&mut line, text_or_unset(&environment.wow64_architecture));
    text::append(&mut line, ", ProgramW6432=");
    text::append(&mut line, text_or_unset(&environment.program_files));
    text::append(&mut line, ", selected_mstsc=");
    text::append(&mut line, selected);
    line
}

/// What is logged before the client is started. There is an `environment` where the program runs
/// on Windows.
pub fn announce(
    command: &LaunchCommand,
    path: &str,
    environment: &Option<WindowsEnvironment>,
) -> (r: Vec<Step>)
    ensures
        steps::acts(r@) == announcement(command@, path@, *environment),
{
    let mut out: Vec<Step> = Vec::new();
    let selected: &str = match command {
        LaunchCommand::ShellOpen => {
            out.push(Step::Log(text::concat("launch command: ShellExecuteW open ", path)));
            "<shell .rdp association>"
        },
        LaunchCommand::Run(program) | LaunchCommand::Spawn(program) => {
            let mut line = text::concat("launch command: ", program.as_str());
            text::append(&mut line, " ");
            text::append(&mut line, path);
            out.push(Step::Log(line));
            program.as_str()
        },
    };
    if let Some(e) = environment {
        out.push(Step::Note(log_windows_mstsc_environment(e, selected)));
    }
    assert(steps::acts(out@) =~= announcement(command@, path@, *environment));
    out
}

// ---------------------------------------------------------------------------
// After the client was started
// ---------------------------------------------------------------------------

/// `n` in decimal, with a minus sign before it where it is negative.
pub open spec fn signed_decimal(n: int) -> Seq<char> {
    if n < 0 {
        "-"@ + text::decimal((-n) as nat)
    } else {
        text::decimal(n as nat)
    }
}

/// `n` in decimal, with a minus sign before it where it is negative.
fn to_signed_decimal(n: i64) -> (r: String)
    ensures
        r@ == signed_decimal(n as int),
{
    if n < 0 {
        let size: u64 = (-(n + 1)) as u64 + 1;
        text::concat("-", text::to_decimal(size).as_str())
    } else {
        text::to_decimal(n as u64)
    }
}

/// What is logged of the code that the shell returns.
pub fn shell_result_line(code: i64) -> (r: String)
    ensures
        r@ == "ShellExecuteW result code: "@ + signed_decimal(code as int),
{
    text::concat("ShellExecuteW result code: ", to_signed_decimal(code).as_str())
}

/// Whether the code that the shell returns means success: a code above 32 does.
pub fn check_shell_result(code: i64) -> (r: Result<(), LauncherError>)
    ensures
        match r {
            Ok(()) => code > 32,
            Err(e) => code <= 32 && e@ == "ShellExecuteW failed with code "@ + signed_decimal(
                code as int,
            ),
        },
{
    if code <= 32 {
        Err(
            LauncherError::about(
                "ShellExecuteW failed with code ",
                to_signed_decimal(code).as_str(),
            ),
        )
    } else {
        Ok(())
    }
}

/// What became of the start of the client.
#[derive(Debug)]
pub enum LaunchEvent {
    /// The shell could not open the file, for the given reason.
    ShellFailed(String),
    /// The shell has opened the file.
    ShellOpened,
    /// The client runs, under the given process id.
    Spawned(u32),
    /// The client has ended.
    Exited { success: bool, status: String },
}

/// The steps that delete the credentials of `targets`.
pub open spec fn deletions(targets: Seq<Seq<char>>) -> Seq<Act> {
    Seq::new(targets.len(), |i: int| Act::DeleteCredential(targets[i]))
}

/// The line `line`, where credentials were written.
pub open spec fn logged_with_credentials(installed: Seq<Seq<char>>, line: Seq<char>) -> Seq<Act> {
    if installed.len() > 0 {
        seq![Act::Log(line)]
    } else {
        seq![]
    }
}

/// The steps after the client has returned: the event logs are looked into, and then the
/// credentials are deleted. Only Windows has event logs.
pub open spec fn wrap_up(installed: Seq<Seq<char>>, monitor_seconds: nat, windows: bool) -> Seq<
    Act,
> {
    logged_with_credentials(installed, "cmdkey cleanup delayed until after RDP event monitoring"@)
        + (if windows {
        events::monitoring(monitor_seconds)
    } else {
        seq![]
    }) + deletions(installed)
}

/// The steps after the client was started, where credentials for the targets `installed` were
/// written. Where the launch does not wait, the credentials stay.
pub open spec fn aftermath(
    event: LaunchEvent,
    installed: Seq<Seq<char>>,
    wait: bool,
    monitor_seconds: nat,
    windows: bool,
) -> Seq<Act> {
    let deferred = logged_with_credentials(
        installed,
        "cmdkey cleanup deferred because --no-wait is active"@,
    );
    match event {
        LaunchEvent::ShellFailed(why) => deletions(installed) + seq![Act::Fail(why@)],
        LaunchEvent::ShellOpened => if wait {
            seq![Act::Log("ShellExecuteW returned success"@)] + wrap_up(
                installed,
                monitor_seconds,
                windows,
            )
        } else {
            seq![Act::Log("ShellExecuteW returned; --no-wait is active"@)] + deferred
        },
        LaunchEvent::Spawned(pid) => seq![
            Act::Log("spawned process id "@ + text::decimal(pid as nat)),
        ] + deferred,
        LaunchEvent::Exited { success, status } => seq![
            Act::Log("process exit status: "@ + status@),
        ] + wrap_up(installed, monitor_seconds, windows) + (if success {
            seq![]
        } else {
            seq![Act::Fail("RDP client exited with "@ + status@)]
        }),
    }
}

/// The steps that delete the credentials of `targets`.
pub fn cleanup_windows_mstsc_credentials(targets: &Vec<String>) -> (r: Vec<Step>)
    ensures
        steps::acts(r@) == deletions(text::string_views(targets@)),
{
    let ghost wanted = deletions(text::string_views(targets@));
    let mut out: Vec<Step> = Vec::new();
    assert(steps::acts(out@) =~= wanted.take(0));
    for i in 0..targets.len()
        invariant
            wanted == deletions(text::string_views(targets@)),
            steps::acts(out@) == wanted.take(i as int),
    {
        let ghost done = steps::acts(out@);
        out.push(Step::DeleteCredential(targets[i].clone()));
        assert(steps::acts(out@) =~= done.push(wanted[i as int]));
        assert(wanted.take(i + 1) =~= wanted.take(i as int).push(wanted[i as int]));
    }
    assert(wanted.take(wanted.len() as int) =~= wanted);
    out
}

/// Adds the line `line` to `out`, where credentials were written.
fn log_with_credentials(out: &mut Vec<Step>, installed: &Vec<String>, line: &str)
    ensures
        steps::acts(final(out)@) == steps::acts(old(out)@) + logged_with_credentials(
            text::string_views(installed@),
            line@,
        ),
{
    let ghost done = steps::acts(out@);
    if installed.len() > 0 {
        out.push(Step::Log(line.to_string()));
        assert(steps::acts(out@) =~= done + seq![Act::Log(line@)]);
    } else {
        assert(done + Seq::<Act>::empty() =~= done);
    }
}

/// Adds the steps after the client has returned to `out`.
fn add_wrap_up(out: &mut Vec<Step>, installed: &Vec<String>, monitor_seconds: u64, windows: bool)
    ensures
        steps::acts(final(out)@) == steps::acts(old(out)@) + wrap_up(
            text::string_views(installed@),
            monitor_seconds as nat,
            windows,
        ),
{
    let ghost done = steps::acts(out@);
    log_with_credentials(
        out,
        installed,
        "cmdkey cleanup delayed until after RDP event monitoring",
    );
    if windows {
        steps::extend(out, events::monitor_rdp_events_after_mstsc_returns(monitor_seconds));
    }
    steps::extend(out, cleanup_windows_mstsc_credentials(installed));
    assert(steps::acts(out@) =~= done + wrap_up(
        text::string_views(installed@),
        monitor_seconds as nat,
        windows,
    ));
}

/// The steps after the client was started, where credentials for the targets `installed` were
/// written.
pub fn after_launch(
    event: &LaunchEvent,
    installed: &Vec<String>,
    wait: bool,
    monitor_seconds: u64,
    windows: bool,
) -> (r: Vec<Step>)
    ensures
        steps::acts(r@) == aftermath(
            *event,
            text::string_views(installed@),
            wait,
            monitor_seconds as nat,
            windows,
        ),
{
    let ghost targets = text::string_views(installed@);
    let mut out: Vec<Step> = Vec::new();
    match event {
        LaunchEvent::ShellFailed(why) => {
            steps::extend(&mut out, cleanup_windows_mstsc_credentials(installed));
            out.push(Step::Fail(why.clone()));
            assert(steps::acts(out@) =~= deletions(targets) + seq![Act::Fail(why@)]);
        },
        LaunchEvent::ShellOpened => {
            if !wait {
                out.push(Step::Log("ShellExecuteW returned; --no-wait is active".to_string()));
                assert(steps::acts(out@) =~= seq![
                    Act::Log("ShellExecuteW returned; --no-wait is active"@),
                ]);
                log_with_credentials(
                    &mut out,
                    installed,
                    "cmdkey cleanup deferred because --no-wait is active",
                );
            } else {
                out.push(Step::Log("ShellExecuteW returned success".to_string()));
                assert(steps::acts(out@) =~= seq![Act::Log("ShellExecuteW returned success"@)]);
                add_wrap_up(&mut out, installed, monitor_seconds, windows);
            }
        },
        LaunchEvent::Spawned(pid) => {
            let line = text::concat("spawned process id ", text::to_decimal(*pid as u64).as_str());
            let ghost said = line@;
            out.push(Step::Log(line));
            assert(steps::acts(out@) =~= seq![Act::Log(said)]);
            log_with_credentials(
                &mut out,
                installed,
                "cmdkey cleanup deferred because --no-wait is active",
            );
        },
        LaunchEvent::Exited { success, status } => {
            let line = text::concat("process exit status: ", status.as_str());
            let ghost said = line@;
            out.push(Step::Log(line));
            assert(steps::acts(out@) =~= seq![Act::Log(said)]);
            add_wrap_up(&mut out, installed, monitor_seconds, windows);
            let ghost done = steps::acts(out@);
            if !*success {
                let message = text::concat("RDP client exited with ", status.as_str());
                let ghost failure = message@;
                out.push(Step::Fail(message));
                assert(steps::acts(out@) =~= done + seq![Act::Fail(failure)]);
            } else {
                assert(done =~= done + Seq::<Act>::empty());
            }
        },
    }
    out
}

// ---------------------------------------------------------------------------
// Laws
// ---------------------------------------------------------------------------

/// Whether the launch is over when the steps after it are taken: the shell has failed, or the
/// client has returned and was waited for.
pub open spec fn is_over(event: LaunchEvent, wait: bool) -> bool {
    match event {
        LaunchEvent::ShellFailed(_) => true,
        LaunchEvent::ShellOpened => wait,
        LaunchEvent::Spawned(_) => false,
        LaunchEvent::Exited { .. } => true,
    }
}

/// Whether the step `act` deletes a credential.
pub open spec fn is_deletion(act: Act) -> bool {
    act is DeleteCredential
}

/// Looking into event logs deletes no credentials.
proof fn lemma_capture_deletes_nothing(channels: Seq<Seq<char>>, label: Seq<char>)
    ensures
        forall|i: int|
            0 <= i < events::capture_acts(channels, label).len() ==> !is_deletion(
                #[trigger] events::capture_acts(channels, label)[i],
            ),
    decreases channels.len(),
{
    if channels.len() > 0 {
        let all = events::capture_acts(channels, label);
        let head = events::capture_acts(channels.drop_last(), label);
        lemma_capture_deletes_nothing(channels.drop_last(), label);
        assert forall|i: int| 0 <= i < all.len() implies !is_deletion(#[trigger] all[i]) by {
            if i < head.len() {
                assert(all[i] == head[i]);
            }
        }
    }
}

/// When a launch is over, the credentials that were written are deleted, each once, behind all
/// other steps but a last one that fails; before that, none are.
pub proof fn law_credentials_deleted(
    event: LaunchEvent,
    installed: Seq<Seq<char>>,
    wait: bool,
    monitor_seconds: nat,
    windows: bool,
)
    ensures
        is_over(event, wait) ==> exists|before: Seq<Act>, after: Seq<Act>|
            {
                &&& aftermath(event, installed, wait, monitor_seconds, windows)
                    == #[trigger] (before + deletions(installed) + after)
                &&& forall|i: int| 0 <= i < before.len() ==> !is_deletion(#[trigger] before[i])
                &&& after.len() == 0 || (after.len() == 1 && after[0] is Fail)
            },
        !is_over(event, wait) ==> forall|i: int|
            0 <= i < aftermath(event, installed, wait, monitor_seconds, windows).len()
                ==> !is_deletion(
                #[trigger] aftermath(event, installed, wait, monitor_seconds, windows)[i],
            ),
{
    let all = aftermath(event, installed, wait, monitor_seconds, windows);
    let none = Seq::<Act>::empty();
    let said = logged_with_credentials(
        installed,
        "cmdkey cleanup delayed until after RDP event monitoring"@,
    );
    let watched = if windows {
        events::monitoring(monitor_seconds)
    } else {
        none
    };
    lemma_capture_deletes_nothing(
        events::channel_names(),
        "immediate after mstsc returned"@,
    );
    lemma_capture_deletes_nothing(events::channel_names(), "after monitor delay"@);
    match event {
        LaunchEvent::ShellFailed(why) => {
            assert(all =~= none + deletions(installed) + seq![Act::Fail(why@)]);
        },
        LaunchEvent::ShellOpened => {
            if wait {
                let before = seq![Act::Log("ShellExecuteW returned success"@)] + said + watched;
                assert(all =~= before + deletions(installed) + none);
            }
        },
        LaunchEvent::Spawned(_) => {},
        LaunchEvent::Exited { success, status } => {
            let before = seq![Act::Log("process exit status: "@ + status@)] + said + watched;
            let after = if success {
                none
            } else {
                seq![Act::Fail("RDP client exited with "@ + status@)]
            };
            assert(all =~= before + deletions(installed) + after);
        },
    }
}

/// Away from Windows, or where they are switched off, no credentials are written.
pub proof fn law_credentials_only_where_asked(request: LaunchRequest, platform: Platform)
    requires
        !(platform is Windows) || !request.use_cmdkey,
    ensures
        !(request_credentials(request, platform) is Install),
{
}

/// A launch that does not wait for the client neither waits nor looks into event logs.
pub proof fn law_no_wait_returns_at_once(
    event: LaunchEvent,
    installed: Seq<Seq<char>>,
    monitor_seconds: nat,
    windows: bool,
)
    requires
        event is ShellOpened || event is Spawned,
    ensures
        forall|i: int|
            0 <= i < aftermath(event, installed, false, monitor_seconds, windows).len() ==> (
            #[trigger] aftermath(event, installed, false, monitor_seconds, windows)[i]) is Log,
{
}

/// On Windows, the time that was asked for is waited after the client has returned.
pub proof fn law_monitoring_waits(
    event: LaunchEvent,
    installed: Seq<Seq<char>>,
    monitor_seconds: nat,
)
    requires
        event is ShellOpened || event is Exited,
        monitor_seconds > 0,
    ensures
        aftermath(event, installed, true, monitor_seconds, true).contains(
            Act::Sleep(monitor_seconds),
        ),
{
    let all = aftermath(event, installed, true, monitor_seconds, true);
    let now = events::capture("immediate after mstsc returned"@);
    let said = logged_with_credentials(
        installed,
        "cmdkey cleanup delayed until after RDP event monitoring"@,
    );
    let watched = events::monitoring(monitor_seconds);
    assert(watched[now.len() as int + 1] == Act::Sleep(monitor_seconds));
    let k = 1 + said.len() + now.len() + 1;
    assert(all[k as int] == Act::Sleep(monitor_seconds));
}

/// Whatever the profile, a template aside: where the user name carries a connection token, the
/// credentials that are written hold that user name, and the secret of the token as the password.
pub proof fn law_login_uses_token_secret(
    content: Seq<char>,
    profile: Seq<char>,
    template: Option<Seq<char>>,
    secret: Seq<char>,
)
    requires
        settings::has_token_username(content),
        profiles::account_of(content, false) matches Some((_, username)) && username.contains('|'),
        profile == "template"@ ==> template is None,
        secret.len() > 0,
    ensures
        ({
            let config = template::normalized(content, profile, template).content;
            credentials::planned_credentials(Some(config), Some(secret)) matches Plan::Install {
                targets,
                username,
                password,
            } && Some(username) == account_name(content) && password == secret && targets
                == credentials::credential_targets(
                settings::setting_value(config, "full address"@)->0,
            )
        }),
{
    let config = template::normalized(content, profile, template).content;
    profile_laws::law_profiles_keep_token(content);
    template::law_profile_keeps_host_and_user(content, profile, template);
    assert(settings::has_token_username(config));
    assert(account_name(config) == account_name(content));
}

/// The user name of the account that `content` sets.
pub open spec fn account_name(content: Seq<char>) -> Option<Seq<char>> {
    match profiles::account_of(content, false) {
        Some((_, username)) => Some(username),
        None => None,
    }
}

/// Whether the end of the client is waited for is what was asked, on every platform.
pub proof fn law_plan_waits_as_asked(
    request: LaunchRequest,
    platform: Platform,
    native: Seq<char>,
)
    ensures
        planned_launch(request, true, platform, native) matches Ok((_, start, wait)) && wait
            == !request.no_wait && (start is Spawn ==> request.no_wait) && (start is Run
            ==> !request.no_wait),
{
}

} // verus!
