//! What the command line asks for.
use crate::cli;
use crate::cli::Options;
use crate::profiles;
use crate::text;
use vstd::prelude::*;

verus! {

/// The names of the options differ.
proof fn lemma_option_names()
    ensures
        "-h"@.len() == 2,
        "--help"@.len() == 6,
        "--inspect"@.len() == 9,
        "--write-only"@.len() == 12,
        "--register"@.len() == 10,
        "--unregister"@.len() == 12,
        "--no-wait"@.len() == 9,
        "--direct-mstsc"@.len() == 14,
        "--use-cmdkey"@.len() == 12,
        "--no-cmdkey"@.len() == 11,
        "--clear-template"@.len() == 16,
        "--monitor-seconds"@.len() == 17,
        "--mstsc"@.len() == 7,
        "--set-template"@.len() == 14,
        "--profile"@.len() == 9,
        "--log"@.len() == 5,
        "--rdp-file"@.len() == 10,
        "--inspect"@[2] == 'i',
        "--no-wait"@[2] == 'n',
        "--profile"@[2] == 'p',
        "--register"@[3] == 'e',
        "--rdp-file"@[3] == 'd',
        "--write-only"@[2] == 'w',
        "--unregister"@[2] == 'u',
        "--use-cmdkey"@[2] == 'u',
        "--unregister"@[3] == 'n',
        "--use-cmdkey"@[3] == 's',
        "--direct-mstsc"@[2] == 'd',
        "--set-template"@[2] == 's',
{
    reveal_strlit("-h");
    reveal_strlit("--help");
    reveal_strlit("--inspect");
    reveal_strlit("--write-only");
    reveal_strlit("--register");
    reveal_strlit("--unregister");
    reveal_strlit("--no-wait");
    reveal_strlit("--direct-mstsc");
    reveal_strlit("--use-cmdkey");
    reveal_strlit("--no-cmdkey");
    reveal_strlit("--clear-template");
    reveal_strlit("--monitor-seconds");
    reveal_strlit("--mstsc");
    reveal_strlit("--set-template");
    reveal_strlit("--profile");
    reveal_strlit("--log");
    reveal_strlit("--rdp-file");
}

/// Without arguments nothing is asked for, but credentials are written, and the client is watched
/// for half a minute.
pub proof fn law_defaults()
    ensures
        cli::parsed_options(Seq::empty()) matches Ok(o) && {
            &&& o.input is None && o.mstsc is None && o.profile is None && o.log is None
            &&& o.rdp_file is None && o.set_template is None
            &&& !o.inspect && !o.write_only && !o.register && !o.unregister && !o.help
            &&& !o.clear_template && !o.no_wait && !o.direct_mstsc
            &&& o.use_cmdkey
            &&& o.monitor_seconds == 30
        },
{
}

/// Each flag behind a command line that is accepted sets its own option, and no other one.
pub proof fn law_flags_set_their_options(args: Seq<Seq<char>>, o: Options)
    requires
        cli::parsed_options(args) == Ok::<Options, Seq<char>>(o),
    ensures
        cli::parsed_options(args.push("-h"@)) == Ok::<Options, Seq<char>>(
            Options { help: true, ..o },
        ),
        cli::parsed_options(args.push("--help"@)) == Ok::<Options, Seq<char>>(
            Options { help: true, ..o },
        ),
        cli::parsed_options(args.push("--inspect"@)) == Ok::<Options, Seq<char>>(
            Options { inspect: true, ..o },
        ),
        cli::parsed_options(args.push("--write-only"@)) == Ok::<Options, Seq<char>>(
            Options { write_only: true, ..o },
        ),
        cli::parsed_options(args.push("--register"@)) == Ok::<Options, Seq<char>>(
            Options { register: true, ..o },
        ),
        cli::parsed_options(args.push("--unregister"@)) == Ok::<Options, Seq<char>>(
            Options { unregister: true, ..o },
        ),
        cli::parsed_options(args.push("--no-wait"@)) == Ok::<Options, Seq<char>>(
            Options { no_wait: true, ..o },
        ),
        cli::parsed_options(args.push("--direct-mstsc"@)) == Ok::<Options, Seq<char>>(
            Options { direct_mstsc: true, ..o },
        ),
        cli::parsed_options(args.push("--use-cmdkey"@)) == Ok::<Options, Seq<char>>(
            Options { use_cmdkey: true, ..o },
        ),
        cli::parsed_options(args.push("--no-cmdkey"@)) == Ok::<Options, Seq<char>>(
            Options { use_cmdkey: false, ..o },
        ),
        cli::parsed_options(args.push("--clear-template"@)) == Ok::<Options, Seq<char>>(
            Options { clear_template: true, ..o },
        ),
{
    lemma_option_names();
    cli::law_last_flag_counts(args, "-h"@);
    cli::law_last_flag_counts(args, "--help"@);
    cli::law_last_flag_counts(args, "--inspect"@);
    cli::law_last_flag_counts(args, "--write-only"@);
    cli::law_last_flag_counts(args, "--register"@);
    cli::law_last_flag_counts(args, "--unregister"@);
    cli::law_last_flag_counts(args, "--no-wait"@);
    cli::law_last_flag_counts(args, "--direct-mstsc"@);
    cli::law_last_flag_counts(args, "--use-cmdkey"@);
    cli::law_last_flag_counts(args, "--no-cmdkey"@);
    cli::law_last_flag_counts(args, "--clear-template"@);
}

/// Each option with a path behind a command line that is accepted takes the path as it is, and sets
/// nothing else.
pub proof fn law_paths_are_taken_as_they_are(args: Seq<Seq<char>>, o: Options, path: Seq<char>)
    requires
        cli::parsed_options(args) == Ok::<Options, Seq<char>>(o),
    ensures
        cli::parsed_options(args.push("--mstsc"@).push(path)) == Ok::<Options, Seq<char>>(
            Options { mstsc: Some(path), ..o },
        ),
        cli::parsed_options(args.push("--set-template"@).push(path)) == Ok::<Options, Seq<char>>(
            Options { set_template: Some(path), ..o },
        ),
        cli::parsed_options(args.push("--log"@).push(path)) == Ok::<Options, Seq<char>>(
            Options { log: Some(path), ..o },
        ),
        cli::parsed_options(args.push("--rdp-file"@).push(path)) == Ok::<Options, Seq<char>>(
            Options { rdp_file: Some(path), ..o },
        ),
{
    lemma_option_names();
    cli::law_last_value_counts(args, "--mstsc"@, path);
    cli::law_last_value_counts(args, "--set-template"@, path);
    cli::law_last_value_counts(args, "--log"@, path);
    cli::law_last_value_counts(args, "--rdp-file"@, path);
}

/// The number of seconds is the one that is given, whatever was asked before; anything that is no
/// number of 64 bits is refused.
pub proof fn law_seconds_are_those_given(
    args: Seq<Seq<char>>,
    o: Options,
    n: nat,
    value: Seq<char>,
)
    requires
        cli::parsed_options(args) == Ok::<Options, Seq<char>>(o),
    ensures
        n <= u64::MAX ==> cli::parsed_options(
            args.push("--monitor-seconds"@).push(text::decimal(n)),
        ) == Ok::<Options, Seq<char>>(Options { monitor_seconds: n, ..o }),
        text::number_of(value, u64::MAX as nat) matches Some(m) ==> cli::parsed_options(
            args.push("--monitor-seconds"@).push(value),
        ) == Ok::<Options, Seq<char>>(Options { monitor_seconds: m, ..o }),
        text::number_of(value, u64::MAX as nat) is None ==> cli::parsed_options(
            args.push("--monitor-seconds"@).push(value),
        ) == Err::<Options, Seq<char>>("invalid --monitor-seconds value: "@ + value),
{
    lemma_option_names();
    cli::law_last_value_counts(args, "--monitor-seconds"@, value);
    cli::law_last_value_counts(args, "--monitor-seconds"@, text::decimal(n));
    if n <= u64::MAX {
        text::law_decimal_reads_back(n, u64::MAX as nat);
    }
}

/// Whether `name` is the name of a profile, whatever the case of its letters.
pub open spec fn is_profile_name(name: Seq<char>) -> bool {
    ||| text::same_ignoring_case(name, "mac"@)
    ||| text::same_ignoring_case(name, "gnome"@)
    ||| text::same_ignoring_case(name, "template"@)
    ||| text::same_ignoring_case(name, "legacy"@)
    ||| text::same_ignoring_case(name, "swift"@)
    ||| text::same_ignoring_case(name, "raw"@)
}

/// The profile is the one that is named, in small letters; a name that is none is refused.
pub proof fn law_profile_is_the_one_named(args: Seq<Seq<char>>, o: Options, name: Seq<char>)
    requires
        cli::parsed_options(args) == Ok::<Options, Seq<char>>(o),
    ensures
        is_profile_name(name) ==> cli::parsed_options(args.push("--profile"@).push(name)) == Ok::<
            Options,
            Seq<char>,
        >(Options { profile: Some(text::lowered(name)), ..o }),
        !is_profile_name(name) ==> cli::parsed_options(args.push("--profile"@).push(name)) == Err::<
            Options,
            Seq<char>,
        >(
            "invalid --profile value: "@ + name
                + "; expected mac, gnome, template, swift, legacy, or raw"@,
        ),
{
    lemma_option_names();
    cli::law_last_value_counts(args, "--profile"@, name);
    reveal_strlit("mac");
    reveal_strlit("gnome");
    reveal_strlit("template");
    reveal_strlit("legacy");
    reveal_strlit("swift");
    reveal_strlit("raw");
    assert(text::lowered("mac"@) =~= "mac"@);
    assert(text::lowered("gnome"@) =~= "gnome"@);
    assert(text::lowered("template"@) =~= "template"@);
    assert(text::lowered("legacy"@) =~= "legacy"@);
    assert(text::lowered("swift"@) =~= "swift"@);
    assert(text::lowered("raw"@) =~= "raw"@);
}

/// The profile that is used without one being named.
pub proof fn law_default_profile()
    ensures
        profiles::DEFAULT_RDP_PROFILE@ == "mac"@,
{
}

/// An option at the end that lacks its value is refused, and the message says what it needs.
pub proof fn law_missing_values_are_refused(args: Seq<Seq<char>>, o: Options)
    requires
        cli::parsed_options(args) == Ok::<Options, Seq<char>>(o),
    ensures
        cli::parsed_options(args.push("--mstsc"@)) == Err::<Options, Seq<char>>(
            "--mstsc requires a path"@,
        ),
        cli::parsed_options(args.push("--set-template"@)) == Err::<Options, Seq<char>>(
            "--set-template requires a .rdp path"@,
        ),
        cli::parsed_options(args.push("--log"@)) == Err::<Options, Seq<char>>(
            "--log requires a path"@,
        ),
        cli::parsed_options(args.push("--rdp-file"@)) == Err::<Options, Seq<char>>(
            "--rdp-file requires a path"@,
        ),
        cli::parsed_options(args.push("--monitor-seconds"@)) == Err::<Options, Seq<char>>(
            "--monitor-seconds requires a number"@,
        ),
        cli::parsed_options(args.push("--profile"@)) == Err::<Options, Seq<char>>(
            "--profile requires mac, gnome, template, swift, legacy, or raw"@,
        ),
{
    lemma_option_names();
    cli::lemma_missing_value(args, "--mstsc"@);
    cli::lemma_missing_value(args, "--set-template"@);
    cli::lemma_missing_value(args, "--log"@);
    cli::lemma_missing_value(args, "--rdp-file"@);
    cli::lemma_missing_value(args, "--monitor-seconds"@);
    cli::lemma_missing_value(args, "--profile"@);
}

/// Whether `arg` is one of the options.
pub open spec fn is_option(arg: Seq<char>) -> bool {
    ||| arg == "-h"@
    ||| arg == "--help"@
    ||| arg == "--inspect"@
    ||| arg == "--write-only"@
    ||| arg == "--register"@
    ||| arg == "--unregister"@
    ||| arg == "--no-wait"@
    ||| arg == "--direct-mstsc"@
    ||| arg == "--use-cmdkey"@
    ||| arg == "--no-cmdkey"@
    ||| arg == "--clear-template"@
    ||| arg == "--monitor-seconds"@
    ||| arg == "--mstsc"@
    ||| arg == "--set-template"@
    ||| arg == "--profile"@
    ||| arg == "--log"@
    ||| arg == "--rdp-file"@
}

/// An argument that is no option and does not start with a dash is the link; a second one is
/// refused, and so is one that starts with a dash, whatever follows.
pub proof fn law_other_arguments(
    args: Seq<Seq<char>>,
    o: Options,
    arg: Seq<char>,
    more: Seq<Seq<char>>,
)
    requires
        cli::parsed_options(args) == Ok::<Options, Seq<char>>(o),
        !is_option(arg),
    ensures
        arg.len() > 0 && arg[0] == '-' ==> cli::parsed_options(args.push(arg) + more) == Err::<
            Options,
            Seq<char>,
        >("unknown option: "@ + arg),
        !(arg.len() > 0 && arg[0] == '-') && o.input is Some ==> cli::parsed_options(
            args.push(arg) + more,
        ) == Err::<Options, Seq<char>>("unexpected extra argument: "@ + arg),
        !(arg.len() > 0 && arg[0] == '-') && o.input is None ==> cli::parsed_options(args.push(arg))
            == Ok::<Options, Seq<char>>(Options { input: Some(arg), ..o }),
{
    reveal_strlit("-");
    if arg.len() > 0 && arg[0] == '-' {
        assert(arg.subrange(0, 1) =~= "-"@);
    } else if "-"@.is_prefix_of(arg) {
        assert(arg.subrange(0, 1)[0] == '-');
    }
    cli::lemma_other_argument(args, arg, more);
    if !(arg.len() > 0 && arg[0] == '-') && o.input is None {
        cli::law_link_behind_options(args, arg);
    }
}

/// A value that cannot be used is refused, whatever follows.
pub proof fn law_bad_values_are_refused(
    args: Seq<Seq<char>>,
    o: Options,
    value: Seq<char>,
    more: Seq<Seq<char>>,
)
    requires
        cli::parsed_options(args) == Ok::<Options, Seq<char>>(o),
    ensures
        text::number_of(value, u64::MAX as nat) is None ==> cli::parsed_options(
            args.push("--monitor-seconds"@).push(value) + more,
        ) == Err::<Options, Seq<char>>("invalid --monitor-seconds value: "@ + value),
        !is_profile_name(value) ==> cli::parsed_options(args.push("--profile"@).push(value) + more)
            == Err::<Options, Seq<char>>(
            "invalid --profile value: "@ + value
                + "; expected mac, gnome, template, swift, legacy, or raw"@,
        ),
{
    lemma_option_names();
    cli::lemma_bad_value(args, "--monitor-seconds"@, value, more);
    cli::lemma_bad_value(args, "--profile"@, value, more);
    law_profile_is_the_one_named(args, o, value);
    cli::law_last_value_counts(args, "--profile"@, value);
}

} // verus!
