use jms_rdp_launcher::credentials::{
    cmdkey_delete_argument, cmdkey_install_arguments, delete_line, install_line,
    log_cmdkey_disabled, prepare_windows_mstsc_credentials, rdp_credential_targets, record_delete,
    record_install, CommandOutcome, CredentialPlan,
};
use jms_rdp_launcher::events::{
    capture_rdp_event_logs, event_query_arguments, monitor_rdp_events_after_mstsc_returns,
    note_answer, record_events,
};
use jms_rdp_launcher::launch::{
    after_launch, announce, check_shell_result, mstsc_candidates, native_windows_mstsc_path,
    plan_launch, shell_result_line, LaunchCommand, LaunchEvent, LaunchRequest, Platform,
    WindowsEnvironment,
};
use jms_rdp_launcher::link::RdpLaunch;
use jms_rdp_launcher::run::{
    after_template_cleared, after_template_installed, after_write, handle_launch,
};
use jms_rdp_launcher::steps::{log_block, log_line, timestamp, Step};
use jms_rdp_launcher::template::normalize_jumpserver_rdp_config;

const CONTENT: &str = "full address:s:h:3389\nusername:s: u|t ";

fn shown(steps: &[Step]) -> Vec<String> {
    steps
        .iter()
        .map(|s| match s {
            Step::Log(line) => format!("log {line}"),
            Step::Note(line) => format!("note {line}"),
            Step::LogBlock(title, body) => format!("log {title}: {body}"),
            Step::NoteBlock(title, body) => format!("note {title}: {body}"),
            Step::Print(line) => format!("print {line}"),
            Step::Registry(args) => format!("registry {}", args.join(" ")),
            Step::Query(channel) => format!("query {channel}"),
            Step::Sleep(seconds) => format!("sleep {seconds}"),
            Step::DeleteCredential(target) => format!("delete {target}"),
            Step::Write(name, content) => format!("write {name}: {content}"),
            Step::Launch => "launch".to_string(),
            Step::Fail(message) => format!("fail {message}"),
        })
        .collect()
}

fn ran(success: bool, stdout: &str, stderr: &str) -> CommandOutcome {
    CommandOutcome::Ran {
        success,
        status: "exit code: 0".to_string(),
        stdout: stdout.as_bytes().to_vec(),
        stderr: stderr.as_bytes().to_vec(),
    }
}

fn ran_with_bytes(success: bool, stdout: &[u8], stderr: &[u8]) -> CommandOutcome {
    CommandOutcome::Ran {
        success,
        status: "exit code: 0".to_string(),
        stdout: stdout.to_vec(),
        stderr: stderr.to_vec(),
    }
}

fn not_run() -> CommandOutcome {
    CommandOutcome::NotRun("not found".to_string())
}

#[test]
fn targets_are_those_of_the_host_and_the_address() {
    assert_eq!(rdp_credential_targets(" h:65535 "), ["TERMSRV/h", "TERMSRV/h:65535"]);
    assert_eq!(rdp_credential_targets("h:65536"), ["TERMSRV/h:65536"]);
    assert_eq!(rdp_credential_targets("h:x"), ["TERMSRV/h:x"]);
    assert_eq!(rdp_credential_targets("::1"), ["TERMSRV/:", "TERMSRV/::1"]);
    assert_eq!(rdp_credential_targets(""), ["TERMSRV/"]);
}

#[test]
fn credentials_need_a_secret() {
    match prepare_windows_mstsc_credentials(Some(CONTENT), Some("s")) {
        CredentialPlan::Install { targets, username, password } => {
            assert_eq!(targets, ["TERMSRV/h", "TERMSRV/h:3389"]);
            assert_eq!((username.as_str(), password.as_str()), ("u|t", "s"));
        }
        other => panic!("{other:?}"),
    }
    let blank = "cmdkey install skipped: jms payload carries no token.value secret; JumpServer requires password=token.value and will reject a blank login";
    for password in [None, Some("")] {
        assert!(matches!(
            prepare_windows_mstsc_credentials(Some(CONTENT), password),
            CredentialPlan::Skip(reason) if reason == blank
        ));
    }
    assert!(matches!(
        prepare_windows_mstsc_credentials(Some("username:s:u|t"), Some("s")),
        CredentialPlan::Skip("cmdkey install skipped: full address missing")
    ));
    assert!(matches!(
        prepare_windows_mstsc_credentials(Some("full address:s:h\nx\nusername:s:u|t"), Some("s")),
        CredentialPlan::Skip("cmdkey install skipped: username missing")
    ));
    assert!(matches!(
        prepare_windows_mstsc_credentials(Some("full address:s:h"), Some("s")),
        CredentialPlan::Nothing
    ));
    assert!(matches!(
        prepare_windows_mstsc_credentials(None, Some("s")),
        CredentialPlan::Nothing
    ));
}

#[test]
fn the_secret_of_the_token_is_the_password_for_every_profile() {
    for profile in ["mac", "gnome", "swift", "legacy", "template", "raw"] {
        let (config, _, _) = normalize_jumpserver_rdp_config(CONTENT.to_string(), profile, None);
        match prepare_windows_mstsc_credentials(Some(&config), Some("secret")) {
            CredentialPlan::Install { targets, username, password } => {
                assert_eq!(targets[0], "TERMSRV/h", "{profile}");
                assert_eq!((username.as_str(), password.as_str()), ("u|t", "secret"));
            }
            other => panic!("{profile}: {other:?}"),
        }
    }
}

#[test]
fn credentials_can_be_switched_off() {
    assert!(matches!(
        log_cmdkey_disabled(Some(CONTENT)),
        CredentialPlan::Skip("cmdkey install skipped: disabled by --no-cmdkey")
    ));
    assert!(matches!(log_cmdkey_disabled(Some("x")), CredentialPlan::Nothing));
    assert!(matches!(log_cmdkey_disabled(None), CredentialPlan::Nothing));
}

#[test]
fn commands_for_credentials_are_reported() {
    assert_eq!(
        cmdkey_install_arguments("TERMSRV/h", "u|t", "s"),
        ["/generic:TERMSRV/h", "/user:u|t", "/pass:s"]
    );
    assert_eq!(cmdkey_delete_argument("TERMSRV/h"), "/delete:TERMSRV/h");
    let expected = "cmdkey install target=T, user=u|<redacted>, password_mode=token.value, status=exit code: 0, stdout=o, stderr=e";
    let mut installed = vec!["S".to_string()];
    assert_eq!(
        record_install(&mut installed, "T", "u|t", &ran(true, " o\n", " e ")),
        expected
    );
    assert_eq!(installed, ["S", "T"]);
    assert_eq!(
        record_install(&mut installed, "T", "u|other", &ran(false, "o", "e")),
        expected
    );
    assert_eq!(
        record_install(&mut installed, "T", "u|t", &not_run()),
        "cmdkey install target=T failed: not found"
    );
    assert_eq!(installed, ["S", "T"]);
    assert_eq!(
        record_delete("T", &ran(true, "o\n", "")),
        "cmdkey cleanup target=T, status=exit code: 0, stdout=o, stderr="
    );
    assert_eq!(record_delete("T", &not_run()), "cmdkey cleanup target=T failed: not found");
}

#[test]
fn output_that_is_no_text_is_read_with_replacements() {
    let mut installed = Vec::new();
    assert_eq!(
        record_install(&mut installed, "T", "u", &ran_with_bytes(false, b" \xb3\xc9\xb9\xa6 ", b"e\xff")),
        "cmdkey install target=T, user=u, password_mode=token.value, status=exit code: 0, stdout=\u{fffd}\u{279}\u{fffd}, stderr=e\u{fffd}"
    );
    assert_eq!(
        record_delete("T", &ran_with_bytes(true, b"a\xc3(", "\u{e9}\u{4e2d}\n".as_bytes())),
        "cmdkey cleanup target=T, status=exit code: 0, stdout=a\u{fffd}(, stderr=\u{e9}\u{4e2d}"
    );
    assert_eq!(
        shown(&[record_events("System", &ran_with_bytes(true, b"\n\xf0\x90 u|t\n", b""))]),
        ["note event log System: \u{fffd} u|<redacted>"]
    );
    assert_eq!(
        shown(&[record_events("System", &ran_with_bytes(false, b"", b"\x80"))]),
        ["note event log query failed for System: status=exit code: 0, stderr=\u{fffd}"]
    );
}

#[test]
fn texts_of_commands_stand_in_the_log() {
    assert_eq!(
        install_line("T", "u|t", "3", " o ", "\ne"),
        "cmdkey install target=T, user=u|<redacted>, password_mode=token.value, status=3, stdout=o, stderr=e"
    );
    assert_eq!(
        delete_line("T", "3", " o ", "\ne"),
        "cmdkey cleanup target=T, status=3, stdout=o, stderr=e"
    );
    assert_eq!(
        shown(&[
            note_answer("System", false, "3", "o", " e "),
            note_answer("System", true, "0", " ", "e"),
            note_answer("System", true, "0", " o ", "e"),
        ]),
        [
            "note event log query failed for System: status=3, stderr=e",
            "note event log System: <empty>",
            "note event log System: o",
        ]
    );
}

#[test]
fn event_logs_are_looked_into() {
    let steps = shown(&capture_rdp_event_logs("now"));
    assert_eq!(steps.len(), 10);
    assert_eq!(
        steps[0],
        "note querying Windows event log (now, recent 180s): Microsoft-Windows-TerminalServices-RDPClient/Operational"
    );
    assert_eq!(
        steps[1],
        "query Microsoft-Windows-TerminalServices-RDPClient/Operational"
    );
    assert_eq!(steps[3], "query Microsoft-Windows-RemoteDesktopServices-RdpCoreTS/Operational");
    assert_eq!(steps[5], "query Microsoft-Windows-TerminalServices-ClientUSBDevices/Operational");
    assert_eq!(steps[7], "query Application");
    assert_eq!(steps[9], "query System");
    assert_eq!(
        event_query_arguments("System"),
        [
            "qe", "System", "/q:*[System[TimeCreated[timediff(@SystemTime) <= 180000]]]",
            "/rd:true", "/c:30", "/f:xml",
        ]
    );
    assert_eq!(
        shown(&monitor_rdp_events_after_mstsc_returns(0)),
        shown(&capture_rdp_event_logs("immediate after mstsc returned"))
    );
    let twice = shown(&monitor_rdp_events_after_mstsc_returns(7));
    assert_eq!(twice.len(), 22);
    assert_eq!(twice[10], "note waiting 7s for delayed RDP disconnect events");
    assert_eq!(twice[11], "sleep 7");
    assert_eq!(twice[12..], shown(&capture_rdp_event_logs("after monitor delay")));
}

#[test]
fn answers_of_event_logs_are_redacted() {
    let shown_one = |outcome: &CommandOutcome| shown(&[record_events("System", outcome)]).remove(0);
    assert_eq!(
        shown_one(&not_run()),
        "note event log query failed for System: not found"
    );
    assert_eq!(
        shown_one(&ran(false, "x", " u|t \n")),
        "note event log query failed for System: status=exit code: 0, stderr=u|<redacted>"
    );
    assert_eq!(shown_one(&ran(true, " \n", "")), "note event log System: <empty>");
    assert_eq!(
        shown_one(&ran(true, "a\nu|t end\n", "")),
        "note event log System: a\nu|<redacted> end"
    );
}

fn request() -> LaunchRequest {
    LaunchRequest {
        path: "f.rdp".to_string(),
        content: Some(CONTENT.to_string()),
        token_password: Some("s".to_string()),
        mstsc: None,
        no_wait: false,
        direct_mstsc: false,
        use_cmdkey: true,
    }
}

fn command(request: &LaunchRequest, platform: Platform) -> String {
    match plan_launch(request, true, platform, "native.exe").unwrap().command {
        LaunchCommand::ShellOpen => "shell".to_string(),
        LaunchCommand::Run(program) => program,
        LaunchCommand::Spawn(program) => format!("{program} &"),
    }
}

#[test]
fn the_client_is_chosen_by_the_platform() {
    let mut r = request();
    assert_eq!(command(&r, Platform::Windows), "shell");
    assert_eq!(command(&r, Platform::MacOs), "open");
    assert_eq!(command(&r, Platform::OtherUnix), "xdg-open");
    r.direct_mstsc = true;
    assert_eq!(command(&r, Platform::Windows), "native.exe");
    assert_eq!(command(&r, Platform::OtherUnix), "xdg-open");
    r.mstsc = Some("my.exe".to_string());
    for platform in [Platform::Windows, Platform::MacOs, Platform::OtherUnix] {
        assert_eq!(command(&r, platform), "my.exe");
    }
    assert_eq!(
        plan_launch(&r, false, Platform::Windows, "").unwrap_err().message(),
        "RDP file does not exist: f.rdp"
    );
}

#[test]
fn the_end_of_the_client_is_waited_for_unless_asked_otherwise() {
    let mut r = request();
    let wait = |r: &LaunchRequest, p: Platform| plan_launch(r, true, p, "").unwrap().wait;
    for platform in [Platform::Windows, Platform::MacOs, Platform::OtherUnix] {
        r.no_wait = false;
        assert!(wait(&r, platform));
        r.no_wait = true;
        assert!(!wait(&r, platform));
    }
    assert_eq!(command(&r, Platform::Windows), "shell");
    assert_eq!(command(&r, Platform::MacOs), "open &");
    assert_eq!(command(&r, Platform::OtherUnix), "xdg-open &");
    r.direct_mstsc = true;
    assert_eq!(command(&r, Platform::Windows), "native.exe &");
    r.mstsc = Some("my.exe".to_string());
    for platform in [Platform::Windows, Platform::MacOs, Platform::OtherUnix] {
        assert_eq!(command(&r, platform), "my.exe &");
    }
    assert_eq!(
        shown(&announce(&LaunchCommand::Spawn("m".to_string()), "f.rdp", &None)),
        ["log launch command: m f.rdp"]
    );
}

#[test]
fn credentials_are_planned_on_windows_alone() {
    let mut r = request();
    let plan = |r: &LaunchRequest, p: Platform| plan_launch(r, true, p, "").unwrap().credentials;
    assert!(matches!(plan(&r, Platform::Windows), CredentialPlan::Install { .. }));
    assert!(matches!(plan(&r, Platform::MacOs), CredentialPlan::Nothing));
    assert!(matches!(plan(&r, Platform::OtherUnix), CredentialPlan::Nothing));
    r.use_cmdkey = false;
    for platform in [Platform::Windows, Platform::MacOs, Platform::OtherUnix] {
        assert!(matches!(plan(&r, platform), CredentialPlan::Skip(_)));
    }
}

#[test]
fn the_native_client_is_the_first_one_that_is_there() {
    assert_eq!(mstsc_candidates().len(), 3);
    assert_eq!(
        native_windows_mstsc_path(&[true, true, true]),
        r"C:\Windows\Sysnative\mstsc.exe"
    );
    assert_eq!(
        native_windows_mstsc_path(&[false, true, false]),
        r"C:\Windows\System32\mstsc.exe"
    );
    assert_eq!(
        native_windows_mstsc_path(&[false, false, true]),
        r"C:\Windows\SysWOW64\mstsc.exe"
    );
    assert_eq!(native_windows_mstsc_path(&[false, false, false]), "mstsc.exe");
}

#[test]
fn a_launch_is_announced() {
    let environment = Some(WindowsEnvironment {
        architecture: Some("AMD64".to_string()),
        wow64_architecture: None,
        program_files: Some("C:\\P".to_string()),
    });
    assert_eq!(
        shown(&announce(&LaunchCommand::ShellOpen, "f.rdp", &environment)),
        [
            "log launch command: ShellExecuteW open f.rdp",
            "note windows env: PROCESSOR_ARCHITECTURE=AMD64, PROCESSOR_ARCHITEW6432=<unset>, ProgramW6432=C:\\P, selected_mstsc=<shell .rdp association>",
        ]
    );
    assert_eq!(
        shown(&announce(&LaunchCommand::Run("m".to_string()), "f.rdp", &environment))[1],
        "note windows env: PROCESSOR_ARCHITECTURE=AMD64, PROCESSOR_ARCHITEW6432=<unset>, ProgramW6432=C:\\P, selected_mstsc=m"
    );
    assert_eq!(
        shown(&announce(&LaunchCommand::Run("m".to_string()), "f.rdp", &None)),
        ["log launch command: m f.rdp"]
    );
}

#[test]
fn the_code_of_the_shell_is_checked() {
    assert_eq!(shell_result_line(42), "ShellExecuteW result code: 42");
    assert_eq!(
        shell_result_line(i64::MIN),
        format!("ShellExecuteW result code: {}", i64::MIN)
    );
    assert!(check_shell_result(33).is_ok());
    assert_eq!(
        check_shell_result(32).unwrap_err().message(),
        "ShellExecuteW failed with code 32"
    );
    assert_eq!(
        check_shell_result(-1).unwrap_err().message(),
        "ShellExecuteW failed with code -1"
    );
}

#[test]
fn credentials_are_deleted_when_a_launch_is_over() {
    let installed = vec!["T/a".to_string(), "T/b".to_string()];
    let none: Vec<String> = Vec::new();
    let after = |event: LaunchEvent, installed: &Vec<String>, wait: bool, windows: bool| {
        shown(&after_launch(&event, installed, wait, 0, windows))
    };
    let delayed = "log cmdkey cleanup delayed until after RDP event monitoring";
    let deferred = "log cmdkey cleanup deferred because --no-wait is active";
    assert_eq!(
        after(LaunchEvent::ShellFailed("no".to_string()), &installed, false, true),
        ["delete T/a", "delete T/b", "fail no"]
    );
    let steps = after(LaunchEvent::ShellOpened, &installed, true, true);
    assert_eq!(steps[..2], ["log ShellExecuteW returned success", delayed]);
    assert_eq!(steps.len(), 14);
    assert_eq!(steps[12..], ["delete T/a", "delete T/b"]);
    assert_eq!(
        after(LaunchEvent::ShellOpened, &installed, false, true),
        ["log ShellExecuteW returned; --no-wait is active", deferred]
    );
    assert_eq!(
        after(LaunchEvent::Spawned(7), &installed, false, true),
        ["log spawned process id 7", deferred]
    );
    assert_eq!(after(LaunchEvent::Spawned(7), &none, false, false), ["log spawned process id 7"]);
    let exited = |success: bool| LaunchEvent::Exited { success, status: "exit status: 3".to_string() };
    assert_eq!(
        after(exited(false), &installed, true, false),
        [
            "log process exit status: exit status: 3",
            delayed,
            "delete T/a",
            "delete T/b",
            "fail RDP client exited with exit status: 3",
        ]
    );
    assert_eq!(
        after(exited(true), &none, true, false),
        ["log process exit status: exit status: 3"]
    );
    assert_eq!(after(exited(true), &none, true, true).len(), 11);
}

fn launch() -> RdpLaunch {
    RdpLaunch {
        protocol: "rdp".to_string(),
        name: "a/b".to_string(),
        content: "full address:s:h\nusername:s:u|t".to_string(),
        password: Some("secret".to_string()),
        inner_config_base64: false,
        config_strategy: "raw",
        compat_patches: Vec::new(),
    }
}

#[test]
fn a_connection_is_logged_without_its_secrets() {
    let steps = shown(&handle_launch(&launch(), false));
    assert_eq!(
        steps,
        [
            "log decoded payload: protocol=rdp, name=a/b, rdp_bytes=31",
            "log rdp content: inner_config_base64=false, config_strategy=raw, compat_patches=none, preview=full address:s:h | username:s:u|<redacted>",
            "log rdp file content redacted: full address:s:h\nusername:s:u|<redacted>",
            "log token secret: present (payload token.value) -> used as RDP password",
            "write a_b.rdp: full address:s:h\r\nusername:s:u|t",
        ]
    );
    let mut other = launch();
    other.password = Some("another".to_string());
    other.content = "full address:s:h\nusername:s:u|x".to_string();
    assert_eq!(shown(&handle_launch(&other, false))[..4], steps[..4]);
    other.password = None;
    assert_eq!(
        shown(&handle_launch(&other, false))[3],
        "log token secret: absent (payload has no token.value); JumpServer gateway will reject the login"
    );
}

#[test]
fn a_connection_can_be_inspected() {
    let mut l = launch();
    l.content = "x\n".repeat(25);
    l.compat_patches = vec!["p".to_string(), "q".to_string()];
    l.inner_config_base64 = true;
    let steps = shown(&handle_launch(&l, true));
    assert_eq!(
        steps[4..12],
        [
            "print protocol: rdp",
            "print name: a/b",
            "print inner_config_base64: true",
            "print config_strategy: raw",
            "print compat_patches: p, q",
            "print rdp bytes: 50",
            "print rdp preview:",
            "print x",
        ]
    );
    assert_eq!(steps.len(), 31);
}

#[test]
fn other_protocols_are_refused() {
    let mut l = launch();
    l.protocol = "ssh".to_string();
    for inspect in [false, true] {
        let steps = shown(&handle_launch(&l, inspect));
        assert_eq!(steps.len(), 5);
        assert_eq!(steps[4], "fail unsupported protocol 'ssh'; this launcher only handles rdp");
    }
}

#[test]
fn a_written_file_is_launched() {
    assert_eq!(
        shown(&after_write("f.rdp", false)),
        ["log wrote rdp file: f.rdp", "print RDP file: f.rdp", "launch"]
    );
    assert_eq!(
        shown(&after_write("f.rdp", true)),
        ["log wrote rdp file: f.rdp", "print RDP file: f.rdp"]
    );
}

#[test]
fn changes_of_the_template_are_reported() {
    assert_eq!(
        shown(&after_template_installed("a.rdp", "t.rdp")),
        [
            "log installed MSTSC template from a.rdp to t.rdp",
            "print Installed MSTSC template: t.rdp",
        ]
    );
    assert_eq!(
        shown(&after_template_cleared("t.rdp", true)),
        ["log removed MSTSC template: t.rdp", "print Removed MSTSC template: t.rdp"]
    );
    assert_eq!(
        shown(&after_template_cleared("t.rdp", false)),
        ["log MSTSC template already absent", "print MSTSC template is already absent"]
    );
}

#[test]
fn lines_of_the_log_carry_the_time() {
    assert_eq!(timestamp(Some(1700000000)), "unix:1700000000");
    assert_eq!(timestamp(None), "unix:0");
    assert_eq!(log_line("unix:1", "hello"), "[unix:1] hello");
    assert_eq!(
        log_block("unix:1", "title", "a\n\nb"),
        ["[unix:1] title:", "[unix:1]   a", "[unix:1]   ", "[unix:1]   b"]
    );
}
