//! Registering the program as the handler of `jms://` links.
use crate::cli;
use crate::cli::Options;
use crate::error::LauncherError;
use crate::profiles;
use crate::settings;
use crate::steps;
use crate::steps::{Act, Step};
use crate::text;
use vstd::prelude::*;

verus! {

/// The options with which the program is called for a link.
pub open spec fn handler_options(
    profile: Option<Seq<char>>,
    direct_mstsc: bool,
    use_cmdkey: bool,
) -> Seq<Seq<char>> {
    let profile_options = if profile is Some && profile->0 != profiles::DEFAULT_RDP_PROFILE@ {
        seq!["--profile"@, profile->0]
    } else {
        seq![]
    };
    let direct_options = if direct_mstsc {
        seq!["--direct-mstsc"@]
    } else {
        seq![]
    };
    profile_options + direct_options + seq![
        if use_cmdkey {
            "--use-cmdkey"@
        } else {
            "--no-cmdkey"@
        },
    ]
}

/// The command line with which the program is called for a link: its path in quotes, the options,
/// and the place of the link.
pub open spec fn handler_command(
    exe: Seq<char>,
    profile: Option<Seq<char>>,
    direct_mstsc: bool,
    use_cmdkey: bool,
) -> Seq<char> {
    text::joined(
        seq!["\""@ + exe + "\""@] + handler_options(profile, direct_mstsc, use_cmdkey) + seq![
            "\"%1\""@,
        ],
        " "@,
    )
}

/// The steps that register the command line `command` of the program `exe`. Away from Windows
/// they only print what has to be done there.
pub open spec fn registration(exe: Seq<char>, command: Seq<char>, windows: bool) -> Seq<Act> {
    seq![Act::Log("registering jms protocol to "@ + command)] + (if windows {
        seq![
            Act::Registry(
                seq![
                    "add"@,
                    "HKCU\\Software\\Classes\\jms"@,
                    "/ve"@,
                    "/d"@,
                    "URL:JumpServer JMS Protocol"@,
                    "/f"@,
                ],
            ),
            Act::Registry(
                seq![
                    "add"@,
                    "HKCU\\Software\\Classes\\jms"@,
                    "/v"@,
                    "URL Protocol"@,
                    "/t"@,
                    "REG_SZ"@,
                    "/d"@,
                    ""@,
                    "/f"@,
                ],
            ),
            Act::Registry(
                seq![
                    "add"@,
                    "HKCU\\Software\\Classes\\jms\\shell\\open\\command"@,
                    "/ve"@,
                    "/d"@,
                    command,
                    "/f"@,
                ],
            ),
            Act::Print("Registered jms:// to "@ + exe),
        ]
    } else {
        seq![
            Act::Print("Run this in Windows to register the protocol:"@),
            Act::Print(
                "reg add HKCU\\Software\\Classes\\jms /ve /d \"URL:JumpServer JMS Protocol\" /f"@,
            ),
            Act::Print(
                "reg add HKCU\\Software\\Classes\\jms /v \"URL Protocol\" /t REG_SZ /d \"\" /f"@,
            ),
            Act::Print(
                "reg add HKCU\\Software\\Classes\\jms\\shell\\open\\command /ve /d \""@ + command
                    + "\" /f"@,
            ),
        ]
    })
}

/// The steps that take the registration back.
pub open spec fn deregistration(windows: bool) -> Seq<Act> {
    seq![Act::Log("unregistering jms protocol"@)] + (if windows {
        seq![
            Act::Registry(seq!["delete"@, "HKCU\\Software\\Classes\\jms"@, "/f"@]),
            Act::Print("Unregistered current-user jms:// handler"@),
        ]
    } else {
        seq![Act::Print("Run this in Windows: reg delete HKCU\\Software\\Classes\\jms /f"@)]
    })
}

/// The texts of `parts`, owned.
fn owned(parts: &[&'static str]) -> (r: Vec<String>)
    ensures
        text::string_views(r@) == text::views(parts@),
{
    let ghost all = text::views(parts@);
    let mut out: Vec<String> = Vec::new();
    assert(text::string_views(out@) =~= all.take(0));
    for i in 0..parts.len()
        invariant
            all == text::views(parts@),
            text::string_views(out@) == all.take(i as int),
    {
        let ghost done = text::string_views(out@);
        out.push(parts[i].to_string());
        assert(text::string_views(out@) =~= done.push(all[i as int]));
        assert(all.take(i + 1) =~= all.take(i as int).push(all[i as int]));
    }
    assert(all.take(parts@.len() as int) =~= all);
    out
}

/// The command line with which the program `exe` is called for a link.
pub fn handler_command_line(
    exe: &str,
    profile: Option<&str>,
    direct_mstsc: bool,
    use_cmdkey: bool,
) -> (r: String)
    ensures
        r@ == handler_command(exe@, settings::text_view(profile), direct_mstsc, use_cmdkey),
{
    let ghost options = handler_options(settings::text_view(profile), direct_mstsc, use_cmdkey);
    let mut parts: Vec<String> = Vec::new();
    let mut quoted = text::concat("\"", exe);
    text::append(&mut quoted, "\"");
    let ghost head = quoted@;
    parts.push(quoted);
    if let Some(profile) = profile {
        if !text::same_text(profile, profiles::DEFAULT_RDP_PROFILE) {
            parts.push("--profile".to_string());
            parts.push(profile.to_string());
        }
    }
    if direct_mstsc {
        parts.push("--direct-mstsc".to_string());
    }
    if use_cmdkey {
        parts.push("--use-cmdkey".to_string());
    } else {
        parts.push("--no-cmdkey".to_string());
    }
    parts.push("\"%1\"".to_string());
    assert(text::string_views(parts@) =~= seq![head] + options + seq!["\"%1\""@]);
    text::join(&parts, " ")
}

/// The steps that register the program `exe` as the handler of links.
pub fn register_protocol(
    exe: &str,
    profile: Option<&str>,
    direct_mstsc: bool,
    use_cmdkey: bool,
    windows: bool,
) -> (r: Vec<Step>)
    ensures
        steps::acts(r@) == registration(
            exe@,
            handler_command(exe@, settings::text_view(profile), direct_mstsc, use_cmdkey),
            windows,
        ),
{
    let command = handler_command_line(exe, profile, direct_mstsc, use_cmdkey);
    let mut out: Vec<Step> = Vec::new();
    out.push(Step::Log(text::concat("registering jms protocol to ", command.as_str())));
    if windows {
        let names = owned(
            &[
                "add",
                "HKCU\\Software\\Classes\\jms",
                "/ve",
                "/d",
                "URL:JumpServer JMS Protocol",
                "/f",
            ],
        );
        assert(text::string_views(names@) =~= registration(exe@, command@, true)[1]->Registry_0);
        out.push(Step::Registry(names));
        let mark = owned(
            &[
                "add",
                "HKCU\\Software\\Classes\\jms",
                "/v",
                "URL Protocol",
                "/t",
                "REG_SZ",
                "/d",
                "",
                "/f",
            ],
        );
        assert(text::string_views(mark@) =~= registration(exe@, command@, true)[2]->Registry_0);
        out.push(Step::Registry(mark));
        let mut open = owned(
            &["add", "HKCU\\Software\\Classes\\jms\\shell\\open\\command", "/ve", "/d"],
        );
        let ghost before = text::string_views(open@);
        let ghost said = command@;
        open.push(command);
        open.push("/f".to_string());
        assert(text::string_views(open@) =~= before.push(said).push("/f"@));
        assert(text::string_views(open@) =~= registration(exe@, said, true)[3]->Registry_0);
        out.push(Step::Registry(open));
        out.push(Step::Print(text::concat("Registered jms:// to ", exe)));
        assert(steps::acts(out@) =~= registration(exe@, said, true));
    } else {
        out.push(Step::Print("Run this in Windows to register the protocol:".to_string()));
        out.push(
            Step::Print(
                "reg add HKCU\\Software\\Classes\\jms /ve /d \"URL:JumpServer JMS Protocol\" /f".to_string(),
            ),
        );
        out.push(
            Step::Print(
                "reg add HKCU\\Software\\Classes\\jms /v \"URL Protocol\" /t REG_SZ /d \"\" /f".to_string(),
            ),
        );
        let mut line = text::concat(
            "reg add HKCU\\Software\\Classes\\jms\\shell\\open\\command /ve /d \"",
            command.as_str(),
        );
        text::append(&mut line, "\" /f");
        out.push(Step::Print(line));
        assert(steps::acts(out@) =~= registration(exe@, command@, false));
    }
    out
}

/// What an end of the registry tool with the given status means.
pub fn run_reg(success: bool, status: &str) -> (r: Result<(), LauncherError>)
    ensures
        match r {
            Ok(()) => success,
            Err(e) => !success && e@ == "reg.exe failed with "@ + status@,
        },
{
    if success {
        Ok(())
    } else {
        Err(LauncherError::about("reg.exe failed with ", status))
    }
}

/// The steps that take the registration back.
pub fn unregister_protocol(windows: bool) -> (r: Vec<Step>)
    ensures
        steps::acts(r@) == deregistration(windows),
{
    let mut out: Vec<Step> = Vec::new();
    out.push(Step::Log("unregistering jms protocol".to_string()));
    if windows {
        let args = owned(&["delete", "HKCU\\Software\\Classes\\jms", "/f"]);
        assert(text::string_views(args@) =~= deregistration(true)[1]->Registry_0);
        out.push(Step::Registry(args));
        out.push(Step::Print("Unregistered current-user jms:// handler".to_string()));
    } else {
        out.push(
            Step::Print(
                "Run this in Windows: reg delete HKCU\\Software\\Classes\\jms /f".to_string(),
            ),
        );
    }
    assert(steps::acts(out@) =~= deregistration(windows));
    out
}

// ---------------------------------------------------------------------------
// Laws
// ---------------------------------------------------------------------------

/// The command line under which the program was registered, called with a link, asks for what the
/// registration asked for.
pub proof fn law_registered_options_read_back(
    profile: Option<Seq<char>>,
    direct_mstsc: bool,
    use_cmdkey: bool,
    link: Seq<char>,
)
    requires
        profile matches Some(name) ==> cli::is_profile(name),
        link.len() > 0 ==> link[0] != '-',
    ensures
        cli::parsed_options(handler_options(profile, direct_mstsc, use_cmdkey).push(link)) == Ok::<
            Options,
            Seq<char>,
        >(
            Options {
                profile: if profile == Some(profiles::DEFAULT_RDP_PROFILE@) {
                    None
                } else {
                    profile
                },
                direct_mstsc,
                use_cmdkey,
                input: Some(link),
                ..cli::default_options()
            },
        ),
{
    let none = Seq::<Seq<char>>::empty();
    let start = cli::default_options();
    let with_profile = profile is Some && profile->0 != profiles::DEFAULT_RDP_PROFILE@;
    let first = if with_profile {
        seq!["--profile"@, profile->0]
    } else {
        none
    };
    let a = Options {
        profile: if with_profile {
            profile
        } else {
            None
        },
        ..start
    };
    assert(cli::parsed_options(none) == Ok::<Options, Seq<char>>(start));
    if with_profile {
        lemma_known_profiles_are_lower_case(profile->0);
        cli::law_last_value_counts(none, "--profile"@, profile->0);
        assert(none.push("--profile"@).push(profile->0) == first);
        lemma_profile_option(start, profile->0);
    }
    assert(cli::parsed_options(first) == Ok::<Options, Seq<char>>(a));
    let second = if direct_mstsc {
        first.push("--direct-mstsc"@)
    } else {
        first
    };
    let b = Options { direct_mstsc, ..a };
    lemma_registered_flags(a);
    lemma_registered_flags(b);
    if direct_mstsc {
        cli::law_last_flag_counts(first, "--direct-mstsc"@);
    }
    assert(cli::parsed_options(second) == Ok::<Options, Seq<char>>(b));
    let flag = if use_cmdkey {
        "--use-cmdkey"@
    } else {
        "--no-cmdkey"@
    };
    let third = second.push(flag);
    let c = Options { use_cmdkey, ..b };
    cli::law_last_flag_counts(second, flag);
    assert(cli::parsed_options(third) == Ok::<Options, Seq<char>>(c));
    assert(third =~= handler_options(profile, direct_mstsc, use_cmdkey));
    cli::law_link_behind_options(third, link);
}

/// The flags of a registered command line, and what they set.
proof fn lemma_registered_flags(options: Options)
    ensures
        cli::with_flag(options, "--direct-mstsc"@) == Some(
            Options { direct_mstsc: true, ..options },
        ),
        cli::with_flag(options, "--use-cmdkey"@) == Some(Options { use_cmdkey: true, ..options }),
        cli::with_flag(options, "--no-cmdkey"@) == Some(Options { use_cmdkey: false, ..options }),
{
    reveal_strlit("-h");
    reveal_strlit("--help");
    reveal_strlit("--inspect");
    reveal_strlit("--write-only");
    reveal_strlit("--register");
    reveal_strlit("--unregister");
    reveal_strlit("--no-wait");
    reveal_strlit("--direct-mstsc");
    reveal_strlit("--use-cmdkey");
    reveal_strlit("--no-cmdkey");
    assert("-h"@.len() == 2);
    assert("--help"@.len() == 6);
    assert("--inspect"@.len() == 9);
    assert("--write-only"@.len() == 12);
    assert("--register"@.len() == 10);
    assert("--unregister"@.len() == 12);
    assert("--no-wait"@.len() == 9);
    assert("--direct-mstsc"@.len() == 14);
    assert("--use-cmdkey"@.len() == 12);
    assert("--no-cmdkey"@.len() == 11);
    assert("--unregister"@[3] == 'n');
    assert("--use-cmdkey"@[2] == 'u');
    assert("--use-cmdkey"@[3] == 's');
    assert("--write-only"@[2] == 'w');
}

/// The option that names a profile, and what it sets.
proof fn lemma_profile_option(options: Options, name: Seq<char>)
    requires
        cli::is_profile(name),
        text::lowered(name) == name,
    ensures
        cli::missing_value("--profile"@) is Some,
        cli::with_value(options, "--profile"@, name) == Ok::<Options, Seq<char>>(
            Options { profile: Some(name), ..options },
        ),
{
    reveal_strlit("--monitor-seconds");
    reveal_strlit("--mstsc");
    reveal_strlit("--set-template");
    reveal_strlit("--profile");
    assert("--profile"@.len() == 9);
}

/// The names of the profiles are in lower case.
proof fn lemma_known_profiles_are_lower_case(name: Seq<char>)
    requires
        cli::is_profile(name),
    ensures
        text::lowered(name) == name,
{
    reveal_strlit("mac");
    reveal_strlit("gnome");
    reveal_strlit("template");
    reveal_strlit("legacy");
    reveal_strlit("swift");
    reveal_strlit("raw");
    assert(text::lowered(name) =~= name);
}

/// Taking the registration back deletes a key of the registry, and a registration writes to that
/// key and below it alone.
pub proof fn law_deregistration_undoes_registration(exe: Seq<char>, command: Seq<char>)
    ensures
        deregistration(true)[1] == Act::Registry(
            seq!["delete"@, "HKCU\\Software\\Classes\\jms"@, "/f"@],
        ),
        forall|i: int|
            0 <= i < registration(exe, command, true).len() ==> (#[trigger] registration(
                exe,
                command,
                true,
            )[i] matches Act::Registry(args) ==> args[0] == "add"@
                && "HKCU\\Software\\Classes\\jms"@.is_prefix_of(args[1])),
{
    reveal_strlit("HKCU\\Software\\Classes\\jms");
    reveal_strlit("HKCU\\Software\\Classes\\jms\\shell\\open\\command");
    let key = "HKCU\\Software\\Classes\\jms"@;
    let below = "HKCU\\Software\\Classes\\jms\\shell\\open\\command"@;
    assert(key.subrange(0, key.len() as int) =~= key);
    assert(below.subrange(0, key.len() as int) =~= key);
}

} // verus!
