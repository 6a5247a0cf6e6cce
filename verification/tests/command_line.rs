use jms_rdp_launcher::cli::{parse_cli, Cli};
use jms_rdp_launcher::paths::{app_config_dir, default_log_path, template_rdp_path, Base};
use jms_rdp_launcher::registration::{
    handler_command_line, register_protocol, run_reg, unregister_protocol,
};
use jms_rdp_launcher::run::{profile_or_default, raw_argument_line, select_action, Action};
use jms_rdp_launcher::steps::Step;

fn args(list: &[&str]) -> Vec<String> {
    list.iter().map(|s| s.to_string()).collect()
}

fn accepted(list: &[&str]) -> Cli {
    parse_cli(args(list)).unwrap()
}

fn failure(list: &[&str]) -> String {
    parse_cli(args(list)).unwrap_err().message()
}

#[test]
fn an_empty_command_line_gives_the_defaults() {
    let cli = accepted(&[]);
    assert!(cli.use_cmdkey);
    assert_eq!(cli.monitor_seconds, 30);
    assert_eq!(cli.input, None);
    assert!(!cli.help && !cli.inspect && !cli.write_only && !cli.register && !cli.unregister);
    assert!(!cli.no_wait && !cli.direct_mstsc && !cli.clear_template);
    assert!(cli.mstsc.is_none() && cli.profile.is_none() && cli.log.is_none());
    let bare = Cli::default();
    assert!(!bare.use_cmdkey);
    assert_eq!(bare.monitor_seconds, 0);
}

#[test]
fn each_option_is_read() {
    let cli = accepted(&[
        "--inspect", "--write-only", "--register", "--unregister", "--no-wait", "--direct-mstsc",
        "--clear-template", "--monitor-seconds", "+5", "--mstsc", "C:\\m.exe", "--set-template",
        "t.rdp", "--profile", "GnoMe", "--log", "l.txt", "--rdp-file", "f.rdp", "jms://x", "-h",
    ]);
    assert!(cli.inspect && cli.write_only && cli.register && cli.unregister && cli.no_wait);
    assert!(cli.direct_mstsc && cli.clear_template && cli.help);
    assert_eq!(cli.monitor_seconds, 5);
    assert_eq!(cli.mstsc.as_deref(), Some("C:\\m.exe"));
    assert_eq!(cli.set_template.as_deref(), Some("t.rdp"));
    assert_eq!(cli.profile.as_deref(), Some("gnome"));
    assert_eq!(cli.log.as_deref(), Some("l.txt"));
    assert_eq!(cli.rdp_file.as_deref(), Some("f.rdp"));
    assert_eq!(cli.input.as_deref(), Some("jms://x"));
}

#[test]
fn the_last_option_counts() {
    assert!(!accepted(&["--use-cmdkey", "--no-cmdkey"]).use_cmdkey);
    assert!(accepted(&["--no-cmdkey", "--use-cmdkey"]).use_cmdkey);
    let cli = accepted(&["--profile", "raw", "--profile", "swift", "--log", "--log"]);
    assert_eq!(cli.profile.as_deref(), Some("swift"));
    assert_eq!(cli.log.as_deref(), Some("--log"));
}

#[test]
fn bad_command_lines_are_refused() {
    assert_eq!(failure(&["--monitor-seconds"]), "--monitor-seconds requires a number");
    assert_eq!(failure(&["--mstsc"]), "--mstsc requires a path");
    assert_eq!(failure(&["--set-template"]), "--set-template requires a .rdp path");
    assert_eq!(
        failure(&["--profile"]),
        "--profile requires mac, gnome, template, swift, legacy, or raw"
    );
    assert_eq!(failure(&["--log"]), "--log requires a path");
    assert_eq!(failure(&["--rdp-file"]), "--rdp-file requires a path");
    assert_eq!(
        failure(&["--monitor-seconds", "-1"]),
        "invalid --monitor-seconds value: -1"
    );
    assert_eq!(
        failure(&["--profile", "Windows"]),
        "invalid --profile value: Windows; expected mac, gnome, template, swift, legacy, or raw"
    );
    assert_eq!(failure(&["--nothing"]), "unknown option: --nothing");
    assert_eq!(failure(&["-"]), "unknown option: -");
    assert_eq!(failure(&["a", "b"]), "unexpected extra argument: b");
}

fn chosen(list: &[&str]) -> String {
    match select_action(&accepted(list)) {
        Ok(Action::Register) => "register".to_string(),
        Ok(Action::Unregister) => "unregister".to_string(),
        Ok(Action::SetTemplate(path)) => format!("set {path}"),
        Ok(Action::ClearTemplate) => "clear".to_string(),
        Ok(Action::OpenFile(path)) => format!("file {path}"),
        Ok(Action::OpenLink(input)) => format!("link {input}"),
        Err(e) => e.message(),
    }
}

#[test]
fn the_first_action_is_taken() {
    let all = [
        "x", "--rdp-file", "f", "--clear-template", "--set-template", "t", "--unregister",
        "--register",
    ];
    assert_eq!(chosen(&all), "register");
    assert_eq!(chosen(&all[..7]), "unregister");
    assert_eq!(chosen(&all[..6]), "set t");
    assert_eq!(chosen(&all[..4]), "clear");
    assert_eq!(chosen(&all[..3]), "file f");
    assert_eq!(chosen(&all[..1]), "link x");
    assert_eq!(chosen(&[]), "missing jms:// input");
    assert_eq!(profile_or_default(None), "mac");
    assert_eq!(profile_or_default(Some("raw")), "raw");
}

#[test]
fn long_arguments_are_cut_off_in_the_log() {
    assert_eq!(raw_argument_line("jms://x"), "raw argument: jms://x");
    let exact = "a".repeat(300);
    assert_eq!(raw_argument_line(&exact), format!("raw argument: {exact}"));
    let long = "a".repeat(301);
    assert_eq!(
        raw_argument_line(&long),
        format!("raw argument: {exact}...<301 chars total>")
    );
}

#[test]
fn the_registered_command_line_is_read_back() {
    assert_eq!(
        handler_command_line("C:\\j.exe", None, false, true),
        "\"C:\\j.exe\" --use-cmdkey \"%1\""
    );
    assert_eq!(
        handler_command_line("C:\\j.exe", Some("mac"), false, false),
        "\"C:\\j.exe\" --no-cmdkey \"%1\""
    );
    let line = handler_command_line("j", Some("gnome"), true, false);
    assert_eq!(line, "\"j\" --profile gnome --direct-mstsc --no-cmdkey \"%1\"");
    let words: Vec<&str> = line.split(' ').collect();
    let mut list = words[1..words.len() - 1].to_vec();
    list.push("jms://x");
    let cli = accepted(&list);
    assert_eq!(cli.profile.as_deref(), Some("gnome"));
    assert!(cli.direct_mstsc && !cli.use_cmdkey);
    assert_eq!(cli.input.as_deref(), Some("jms://x"));
}

#[test]
fn registration_runs_the_registry_tool_on_windows() {
    let steps = register_protocol("j.exe", None, false, true, true);
    let command = "\"j.exe\" --use-cmdkey \"%1\"";
    assert_eq!(steps.len(), 5);
    assert!(matches!(&steps[0], Step::Log(s) if *s == format!("registering jms protocol to {command}")));
    let registry = |step: &Step| match step {
        Step::Registry(a) => a.join(" "),
        _ => panic!("expected a registry step"),
    };
    assert_eq!(
        registry(&steps[1]),
        "add HKCU\\Software\\Classes\\jms /ve /d URL:JumpServer JMS Protocol /f"
    );
    assert_eq!(
        registry(&steps[2]),
        "add HKCU\\Software\\Classes\\jms /v URL Protocol /t REG_SZ /d  /f"
    );
    assert_eq!(
        registry(&steps[3]),
        format!("add HKCU\\Software\\Classes\\jms\\shell\\open\\command /ve /d {command} /f")
    );
    assert!(matches!(&steps[4], Step::Print(s) if s == "Registered jms:// to j.exe"));
    let back = unregister_protocol(true);
    assert!(matches!(&back[0], Step::Log(s) if s == "unregistering jms protocol"));
    assert_eq!(registry(&back[1]), "delete HKCU\\Software\\Classes\\jms /f");
    assert!(matches!(&back[2], Step::Print(s) if s == "Unregistered current-user jms:// handler"));
    assert!(run_reg(true, "exit code: 0").is_ok());
    assert_eq!(
        run_reg(false, "exit code: 1").unwrap_err().message(),
        "reg.exe failed with exit code: 1"
    );
}

#[test]
fn registration_is_explained_elsewhere() {
    let printed = |steps: Vec<Step>| -> Vec<String> {
        steps
            .into_iter()
            .filter_map(|s| match s {
                Step::Print(line) => Some(line),
                _ => None,
            })
            .collect()
    };
    assert_eq!(
        printed(register_protocol("j", Some("raw"), false, true, false)),
        vec![
            "Run this in Windows to register the protocol:".to_string(),
            r#"reg add HKCU\Software\Classes\jms /ve /d "URL:JumpServer JMS Protocol" /f"#.to_string(),
            r#"reg add HKCU\Software\Classes\jms /v "URL Protocol" /t REG_SZ /d "" /f"#.to_string(),
            r#"reg add HKCU\Software\Classes\jms\shell\open\command /ve /d ""j" --profile raw --use-cmdkey "%1"" /f"#.to_string(),
        ]
    );
    assert_eq!(
        printed(unregister_protocol(false)),
        vec![r#"Run this in Windows: reg delete HKCU\Software\Classes\jms /f"#.to_string()]
    );
}

#[test]
fn files_are_kept_below_the_first_directory_that_is_set() {
    let place = app_config_dir(true, true, true);
    assert_eq!((place.base, place.names), (Base::First, vec!["jms-rdp-launcher"]));
    let place = app_config_dir(true, false, true);
    assert_eq!(
        (place.base, place.names),
        (Base::Second, vec!["AppData", "Roaming", "jms-rdp-launcher"])
    );
    let place = default_log_path(false, false, true);
    assert_eq!(
        (place.base, place.names),
        (Base::Second, vec![".config", "jms-rdp-launcher", "launcher.log"])
    );
    let place = template_rdp_path(false, false, false);
    assert_eq!(
        (place.base, place.names),
        (Base::Current, vec!["jms-rdp-launcher", "mstsc-success-template.rdp"])
    );
}
