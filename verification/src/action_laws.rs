//! What is done around the start of the client.
use crate::choice_laws;
use crate::credentials;
use crate::credentials::{CommandOutcome, Plan};
use crate::events;
use crate::launch;
use crate::launch::{LaunchEvent, LaunchRequest, Platform, Start, WindowsEnvironment};
use crate::profiles;
use crate::redact;
use crate::registration;
use crate::settings;
use crate::settings_laws;
use crate::steps::Act;
use crate::text;
use crate::utf;
use vstd::prelude::*;

verus! {

// ---------------------------------------------------------------------------
// Credentials
// ---------------------------------------------------------------------------

/// Credentials are written for the server, and for the server with its port, where the address has
/// a port; an address whose last part is no port is a server.
pub proof fn law_credentials_are_for_server_and_port(
    address: Seq<char>,
    host: Seq<char>,
    port: Seq<char>,
)
    ensures
        text::trimmed(address) == host + seq![':'] + port && !port.contains(':') && text::number_of(
            port,
            65535,
        ) is Some ==> credentials::credential_targets(address) == seq![
            "TERMSRV/"@ + host,
            "TERMSRV/"@ + text::trimmed(address),
        ],
        text::trimmed(address) == host + seq![':'] + port && !port.contains(':') && text::number_of(
            port,
            65535,
        ) is None ==> credentials::credential_targets(address) == seq![
            "TERMSRV/"@ + text::trimmed(address),
        ],
        !text::trimmed(address).contains(':') ==> credentials::credential_targets(address) == seq![
            "TERMSRV/"@ + text::trimmed(address),
        ],
{
    let whole = text::trimmed(address);
    if whole == host + seq![':'] + port && !port.contains(':') {
        let k = host.len() as int;
        assert(whole[k] == ':');
        assert forall|j: int| k < j < whole.len() implies whole[j] != ':' by {
            assert(whole[j] == port[j - k - 1]);
        }
        text::lemma_last_of(whole, ':', k);
        assert(whole.take(k) =~= host);
        assert(whole.skip(k + 1) =~= port);
        assert(("TERMSRV/"@ + host).len() != ("TERMSRV/"@ + whole).len());
    }
    if !whole.contains(':') {
        assert forall|j: int| -1 < j < whole.len() implies whole[j] != ':' by {}
        text::lemma_last_of(whole, ':', -1);
    }
}

/// Where the user name carries a token, the secret of the token is written, as it is, for the user
/// and the address of the configuration; without a secret, an address or a user name, nothing is.
pub proof fn law_credentials_of_configuration(
    content: Seq<char>,
    address: Seq<char>,
    username: Seq<char>,
    secret: Seq<char>,
)
    requires
        choice_laws::carries_token(content),
    ensures
        settings::setting_value(content, "full address"@) == Some(address)
            && settings::setting_value(content, "username"@) == Some(username) && secret.len() > 0
            ==> credentials::planned_credentials(Some(content), Some(secret)) == (Plan::Install {
            targets: credentials::credential_targets(address),
            username: text::trimmed(username),
            password: secret,
        }),
        settings::setting_value(content, "full address"@) is None
            ==> credentials::planned_credentials(Some(content), Some(secret)) == Plan::Skip(
            "cmdkey install skipped: full address missing"@,
        ) && credentials::planned_credentials(Some(content), None) == Plan::Skip(
            "cmdkey install skipped: full address missing"@,
        ),
        settings::setting_value(content, "full address"@) is Some && settings::setting_value(
            content,
            "username"@,
        ) is None ==> credentials::planned_credentials(Some(content), Some(secret)) == Plan::Skip(
            "cmdkey install skipped: username missing"@,
        ) && credentials::planned_credentials(Some(content), None) == Plan::Skip(
            "cmdkey install skipped: username missing"@,
        ),
        settings::setting_value(content, "full address"@) is Some && settings::setting_value(
            content,
            "username"@,
        ) is Some ==> credentials::planned_credentials(Some(content), None) == Plan::Skip(
            "cmdkey install skipped: jms payload carries no token.value secret; JumpServer requires password=token.value and will reject a blank login"@,
        ) && credentials::planned_credentials(Some(content), Some(Seq::empty())) == Plan::Skip(
            "cmdkey install skipped: jms payload carries no token.value secret; JumpServer requires password=token.value and will reject a blank login"@,
        ),
        credentials::disabled_credentials(Some(content)) == Plan::Skip(
            "cmdkey install skipped: disabled by --no-cmdkey"@,
        ),
        credentials::planned_credentials(None, Some(secret)) is Nothing,
        credentials::planned_credentials(None, None) is Nothing,
        credentials::disabled_credentials(None) is Nothing,
{
    settings_laws::law_token_user_name(content);
}

/// The command that writes credentials names the target, the user and the password, in this order
/// and each as it is.
pub proof fn law_command_that_writes_credentials(
    target: Seq<char>,
    username: Seq<char>,
    password: Seq<char>,
)
    ensures
        credentials::install_arguments(target, username, password) == seq![
            "/generic:"@ + target,
            "/user:"@ + username,
            "/pass:"@ + password,
        ],
{
}

/// What the log says of commands for credentials: the target, the user without the token, the
/// status, and what the command wrote; or why it did not run.
pub proof fn law_reports_on_credentials(
    target: Seq<char>,
    username: Seq<char>,
    outcome: CommandOutcome,
)
    ensures
        match outcome {
            CommandOutcome::NotRun(why) => {
                &&& credentials::install_report(target, username, outcome)
                    == "cmdkey install target="@ + target + " failed: "@ + why@
                &&& credentials::delete_report(target, outcome) == "cmdkey cleanup target="@ + target
                    + " failed: "@ + why@
                &&& !credentials::succeeded(outcome)
            },
            CommandOutcome::Ran { success, status, stdout, stderr } => {
                &&& credentials::install_report(target, username, outcome)
                    == "cmdkey install target="@ + target + ", user="@ + redact::hidden_token(
                    username,
                ) + ", password_mode=token.value, status="@ + status@ + ", stdout="@
                    + text::trimmed(utf::lossy_text(stdout@)) + ", stderr="@ + text::trimmed(
                    utf::lossy_text(stderr@),
                )
                &&& credentials::delete_report(target, outcome) == "cmdkey cleanup target="@ + target
                    + ", status="@ + status@ + ", stdout="@ + text::trimmed(
                    utf::lossy_text(stdout@),
                ) + ", stderr="@ + text::trimmed(utf::lossy_text(stderr@))
                &&& credentials::succeeded(outcome) == success
            },
        },
{
}

// ---------------------------------------------------------------------------
// Event logs
// ---------------------------------------------------------------------------

/// Five event logs are looked into, each once and in this order, and each is announced.
pub proof fn law_event_logs_that_are_looked_into(label: Seq<char>, i: int)
    requires
        0 <= i < 5,
    ensures
        ({
            let channels = seq![
                "Microsoft-Windows-TerminalServices-RDPClient/Operational"@,
                "Microsoft-Windows-RemoteDesktopServices-RdpCoreTS/Operational"@,
                "Microsoft-Windows-TerminalServices-ClientUSBDevices/Operational"@,
                "Application"@,
                "System"@,
            ];
            let acts = events::capture(label);
            &&& acts.len() == 10
            &&& acts[2 * i] == Act::Note(
                "querying Windows event log ("@ + label + ", recent 180s): "@ + channels[i],
            )
            &&& acts[2 * i + 1] == Act::Query(channels[i])
        }),
{
    reveal_with_fuel(events::capture_acts, 6);
    let names = events::channel_names();
    let four = names.drop_last();
    let three = four.drop_last();
    let two = three.drop_last();
    let one = two.drop_last();
    assert(names.len() == 5);
    assert(one.drop_last().len() == 0);
    assert(four.last() == names[3] && three.last() == names[2] && two.last() == names[1]
        && one.last() == names[0]);
    assert(events::capture_acts(one, label).len() == 2);
    assert(events::capture_acts(two, label).len() == 4);
    assert(events::capture_acts(three, label).len() == 6);
    assert(events::capture_acts(four, label).len() == 8);
    assert(i == 0 || i == 1 || i == 2 || i == 3 || i == 4);
}

/// The client is watched at once, and once more after the seconds that were asked for, where that
/// is more than none.
pub proof fn law_watching_the_client(seconds: nat)
    ensures
        events::monitoring(0) == events::capture("immediate after mstsc returned"@),
        seconds > 0 ==> events::monitoring(seconds) == events::capture(
            "immediate after mstsc returned"@,
        ) + seq![
            Act::Note(
                "waiting "@ + text::decimal(seconds) + "s for delayed RDP disconnect events"@,
            ),
            Act::Sleep(seconds),
        ] + events::capture("after monitor delay"@),
{
}

/// The query is for the newest thirty events of the last three minutes, as XML.
pub proof fn law_query_for_events(channel: Seq<char>)
    ensures
        events::query_arguments(channel) == seq![
            "qe"@,
            channel,
            "/q:*[System[TimeCreated[timediff(@SystemTime) <= 180000]]]"@,
            "/rd:true"@,
            "/c:30"@,
            "/f:xml"@,
        ],
{
}

/// What is noted of an answer: that it failed, and why; that there is nothing; or the events, with
/// their tokens hidden.
pub proof fn law_answers_of_event_logs(
    channel: Seq<char>,
    status: Seq<char>,
    stdout: Seq<char>,
    stderr: Seq<char>,
    outcome: CommandOutcome,
)
    ensures
        events::answer_of(channel, false, status, stdout, stderr) == Act::Note(
            "event log query failed for "@ + channel + ": status="@ + status + ", stderr="@
                + redact::redacted_events(text::trimmed(stderr)),
        ),
        text::trimmed(stdout).len() == 0 ==> events::answer_of(channel, true, status, stdout, stderr)
            == Act::Note("event log "@ + channel + ": <empty>"@),
        text::trimmed(stdout).len() > 0 ==> events::answer_of(channel, true, status, stdout, stderr)
            == Act::NoteBlock(
            "event log "@ + channel,
            redact::redacted_events(text::trimmed(stdout)),
        ),
        match outcome {
            CommandOutcome::NotRun(why) => events::answer_note(channel, outcome) == Act::Note(
                "event log query failed for "@ + channel + ": "@ + why@,
            ),
            CommandOutcome::Ran { success, status, stdout, stderr } => events::answer_note(
                channel,
                outcome,
            ) == events::answer_of(
                channel,
                success,
                status@,
                utf::lossy_text(stdout@),
                utf::lossy_text(stderr@),
            ),
        },
{
}

// ---------------------------------------------------------------------------
// The start of the client
// ---------------------------------------------------------------------------

/// The program that was named is started, on each platform; otherwise, on Windows, the program of
/// Windows where that was asked, and else the one that belongs to the file; elsewhere the program
/// that opens files. It is waited for unless that was not wanted.
pub proof fn law_program_that_is_started(
    request: LaunchRequest,
    platform: Platform,
    native: Seq<char>,
    program: Seq<char>,
)
    requires
        request.mstsc matches Some(p) ==> p@ == program,
        request.mstsc is None && platform is Windows && request.direct_mstsc ==> program == native,
        request.mstsc is None && platform is MacOs ==> program == "open"@,
        request.mstsc is None && platform is OtherUnix ==> program == "xdg-open"@,
    ensures
        ({
            let shell = request.mstsc is None && platform is Windows && !request.direct_mstsc;
            launch::planned_launch(request, true, platform, native) matches Ok((_, start, wait)) && {
                &&& wait == !request.no_wait
                &&& shell ==> start == Start::ShellOpen
                &&& !shell && request.no_wait ==> start == Start::Spawn(program)
                &&& !shell && !request.no_wait ==> start == Start::Run(program)
            }
        }),
{
}

/// Credentials are planned from what the request carries, where they are wanted, and on Windows
/// alone; where they are not wanted, that is said on each platform.
pub proof fn law_credentials_of_request(
    request: LaunchRequest,
    platform: Platform,
    native: Seq<char>,
)
    ensures
        launch::planned_launch(request, true, platform, native) matches Ok((plan, _, _)) && {
            &&& !request.use_cmdkey ==> plan == credentials::disabled_credentials(
                profiles::string_view(request.content),
            )
            &&& request.use_cmdkey && platform is Windows ==> plan
                == credentials::planned_credentials(
                profiles::string_view(request.content),
                profiles::string_view(request.token_password),
            )
            &&& request.use_cmdkey && !(platform is Windows) ==> plan is Nothing
        },
{
}

/// A file that is not there is not opened.
pub proof fn law_missing_file_is_not_opened(
    request: LaunchRequest,
    platform: Platform,
    native: Seq<char>,
)
    ensures
        launch::planned_launch(request, false, platform, native) == Err::<
            (Plan, Start, bool),
            Seq<char>,
        >("RDP file does not exist: "@ + request.path@),
{
}

/// The program of Windows is looked for in three places, in this order; where it is in none, the
/// system is left to find it.
pub proof fn law_program_of_windows(present: Seq<bool>)
    requires
        present.len() == 3,
    ensures
        ({
            let found = launch::first_present(launch::mstsc_places(), present);
            &&& launch::mstsc_places().len() == 3
            &&& present[0] ==> found == "C:\\Windows\\Sysnative\\mstsc.exe"@
            &&& !present[0] && present[1] ==> found == "C:\\Windows\\System32\\mstsc.exe"@
            &&& !present[0] && !present[1] && present[2] ==> found
                == "C:\\Windows\\SysWOW64\\mstsc.exe"@
            &&& !present[0] && !present[1] && !present[2] ==> found == "mstsc.exe"@
            &&& launch::mstsc_places()[0] == "C:\\Windows\\Sysnative\\mstsc.exe"@
            &&& launch::mstsc_places()[1] == "C:\\Windows\\System32\\mstsc.exe"@
            &&& launch::mstsc_places()[2] == "C:\\Windows\\SysWOW64\\mstsc.exe"@
        }),
{
    reveal_with_fuel(launch::first_present, 4);
}

/// What is said before the start: the command, and on Windows what is known of the system.
pub proof fn law_announcement(
    program: Seq<char>,
    path: Seq<char>,
    environment: WindowsEnvironment,
    a: Seq<char>,
    b: Seq<char>,
    c: Seq<char>,
)
    requires
        a == (match environment.architecture {
            Some(s) => s@,
            None => "<unset>"@,
        }),
        b == (match environment.wow64_architecture {
            Some(s) => s@,
            None => "<unset>"@,
        }),
        c == (match environment.program_files {
            Some(s) => s@,
            None => "<unset>"@,
        }),
    ensures
        ({
            let known = "windows env: PROCESSOR_ARCHITECTURE="@ + a + ", PROCESSOR_ARCHITEW6432="@
                + b + ", ProgramW6432="@ + c + ", selected_mstsc="@;
            let command = Act::Log("launch command: "@ + program + " "@ + path);
            &&& launch::announcement(Start::Run(program), path, None) == seq![command]
            &&& launch::announcement(Start::Spawn(program), path, None) == seq![command]
            &&& launch::announcement(Start::ShellOpen, path, None) == seq![
                Act::Log("launch command: ShellExecuteW open "@ + path),
            ]
            &&& launch::announcement(Start::Run(program), path, Some(environment)) == seq![
                command,
                Act::Note(known + program),
            ]
            &&& launch::announcement(Start::Spawn(program), path, Some(environment)) == seq![
                command,
                Act::Note(known + program),
            ]
            &&& launch::announcement(Start::ShellOpen, path, Some(environment)) == seq![
                Act::Log("launch command: ShellExecuteW open "@ + path),
                Act::Note(known + "<shell .rdp association>"@),
            ]
            &&& launch::environment_note(environment, program) == known + program
        }),
{
    let none = Seq::<Act>::empty();
    let command = Act::Log("launch command: "@ + program + " "@ + path);
    let shell = Act::Log("launch command: ShellExecuteW open "@ + path);
    assert(seq![command] + none =~= seq![command]);
    assert(seq![shell] + none =~= seq![shell]);
}

/// A number below zero is written with its sign.
pub proof fn law_signed_numbers(n: nat)
    ensures
        launch::signed_decimal(n as int) == text::decimal(n),
        n > 0 ==> launch::signed_decimal(-(n as int)) == "-"@ + text::decimal(n),
{
}

/// Whether `acts` delete the credentials of `targets`, each once and in their order.
pub open spec fn are_deletions(acts: Seq<Act>, targets: Seq<Seq<char>>) -> bool {
    acts.len() == targets.len() && forall|i: int|
        0 <= i < targets.len() ==> #[trigger] acts[i] == Act::DeleteCredential(targets[i])
}

/// What follows the start of the client. Where it could not be started, the credentials are deleted
/// and the start fails. Where it has ended, it is watched on Windows, and then the credentials are
/// deleted; an end without success fails. Where it is not waited for, the credentials stay.
pub proof fn law_what_follows_the_start(
    event: LaunchEvent,
    installed: Seq<Seq<char>>,
    acts: Seq<Act>,
    wait: bool,
    seconds: nat,
    windows: bool,
)
    requires
        are_deletions(acts, installed),
    ensures
        ({
            let none = Seq::<Act>::empty();
            let watched = (if installed.len() > 0 {
                seq![Act::Log("cmdkey cleanup delayed until after RDP event monitoring"@)]
            } else {
                none
            }) + (if windows {
                events::monitoring(seconds)
            } else {
                none
            }) + acts;
            let deferred = if installed.len() > 0 {
                seq![Act::Log("cmdkey cleanup deferred because --no-wait is active"@)]
            } else {
                none
            };
            launch::aftermath(event, installed, wait, seconds, windows) == (match event {
                LaunchEvent::ShellFailed(why) => acts + seq![Act::Fail(why@)],
                LaunchEvent::ShellOpened => if wait {
                    seq![Act::Log("ShellExecuteW returned success"@)] + watched
                } else {
                    seq![Act::Log("ShellExecuteW returned; --no-wait is active"@)] + deferred
                },
                LaunchEvent::Spawned(pid) => seq![
                    Act::Log("spawned process id "@ + text::decimal(pid as nat)),
                ] + deferred,
                LaunchEvent::Exited { success, status } => seq![
                    Act::Log("process exit status: "@ + status@),
                ] + watched + (if success {
                    none
                } else {
                    seq![Act::Fail("RDP client exited with "@ + status@)]
                }),
            })
        }),
{
    assert(launch::deletions(installed) =~= acts);
}

// ---------------------------------------------------------------------------
// The registration
// ---------------------------------------------------------------------------

/// The command that is registered names the program in quotes, then the profile where it is not
/// the default one, then how to start the client and whether to write credentials, and last the
/// place of the link, in quotes.
pub proof fn law_registered_command(exe: Seq<char>, profile: Option<Seq<char>>)
    ensures
        ({
            let head = "\""@ + exe + "\""@;
            let named = profile matches Some(p) && p != "mac"@;
            let extra = if named {
                seq!["--profile"@, profile->0]
            } else {
                Seq::<Seq<char>>::empty()
            };
            &&& registration::handler_command(exe, profile, false, true) == text::joined(
                seq![head] + extra + seq!["--use-cmdkey"@, "\"%1\""@],
                " "@,
            )
            &&& registration::handler_command(exe, profile, false, false) == text::joined(
                seq![head] + extra + seq!["--no-cmdkey"@, "\"%1\""@],
                " "@,
            )
            &&& registration::handler_command(exe, profile, true, true) == text::joined(
                seq![head] + extra + seq!["--direct-mstsc"@, "--use-cmdkey"@, "\"%1\""@],
                " "@,
            )
            &&& registration::handler_command(exe, profile, true, false) == text::joined(
                seq![head] + extra + seq!["--direct-mstsc"@, "--no-cmdkey"@, "\"%1\""@],
                " "@,
            )
        }),
{
    let head = "\""@ + exe + "\""@;
    let none = Seq::<Seq<char>>::empty();
    let named = profile matches Some(p) && p != "mac"@;
    let extra = if named {
        seq!["--profile"@, profile->0]
    } else {
        none
    };
    let direct = seq!["--direct-mstsc"@];
    let last = seq!["\"%1\""@];
    assert(seq![head] + (extra + none + seq!["--use-cmdkey"@]) + last =~= seq![head] + extra + seq![
        "--use-cmdkey"@,
        "\"%1\""@,
    ]);
    assert(seq![head] + (extra + none + seq!["--no-cmdkey"@]) + last =~= seq![head] + extra + seq![
        "--no-cmdkey"@,
        "\"%1\""@,
    ]);
    assert(seq![head] + (extra + direct + seq!["--use-cmdkey"@]) + last =~= seq![head] + extra
        + seq!["--direct-mstsc"@, "--use-cmdkey"@, "\"%1\""@]);
    assert(seq![head] + (extra + direct + seq!["--no-cmdkey"@]) + last =~= seq![head] + extra
        + seq!["--direct-mstsc"@, "--no-cmdkey"@, "\"%1\""@]);
}

/// Registering marks the key of the protocol as one of links, and puts the command below it, as it
/// is; away from Windows the same is printed for the user to do.
pub proof fn law_registration_writes_the_command(exe: Seq<char>, command: Seq<char>)
    ensures
        registration::registration(exe, command, true) == seq![
            Act::Log("registering jms protocol to "@ + command),
            Act::Registry(
                seq![
                    "add"@,
                    "HKCU\\Software\\Classes\\jms"@,
                    "/ve"@,
                    "/d"@,
                    "URL:JumpServer JMS Protocol"@,
                    "/f"@,
                ],
            ),
            Act::Registry(
                seq![
                    "add"@,
                    "HKCU\\Software\\Classes\\jms"@,
                    "/v"@,
                    "URL Protocol"@,
                    "/t"@,
                    "REG_SZ"@,
                    "/d"@,
                    ""@,
                    "/f"@,
                ],
            ),
            Act::Registry(
                seq![
                    "add"@,
                    "HKCU\\Software\\Classes\\jms\\shell\\open\\command"@,
                    "/ve"@,
                    "/d"@,
                    command,
                    "/f"@,
                ],
            ),
            Act::Print("Registered jms:// to "@ + exe),
        ],
        registration::registration(exe, command, false) == seq![
            Act::Log("registering jms protocol to "@ + command),
            Act::Print("Run this in Windows to register the protocol:"@),
            Act::Print(
                "reg add HKCU\\Software\\Classes\\jms /ve /d \"URL:JumpServer JMS Protocol\" /f"@,
            ),
            Act::Print(
                "reg add HKCU\\Software\\Classes\\jms /v \"URL Protocol\" /t REG_SZ /d \"\" /f"@,
            ),
            Act::Print(
                "reg add HKCU\\Software\\Classes\\jms\\shell\\open\\command /ve /d \""@ + command
                    + "\" /f"@,
            ),
        ],
        registration::deregistration(true) == seq![
            Act::Log("unregistering jms protocol"@),
            Act::Registry(seq!["delete"@, "HKCU\\Software\\Classes\\jms"@, "/f"@]),
            Act::Print("Unregistered current-user jms:// handler"@),
        ],
        registration::deregistration(false) == seq![
            Act::Log("unregistering jms protocol"@),
            Act::Print("Run this in Windows: reg delete HKCU\\Software\\Classes\\jms /f"@),
        ],
{
}

} // verus!
