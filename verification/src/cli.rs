//! The command line, and what it asks for.
use crate::error;
use crate::error::LauncherError;
use crate::profiles;
use crate::text;
use vstd::prelude::*;

verus! {

/// The options of the command line.
#[derive(Debug)]
pub struct Cli {
    pub input: Option<String>,
    pub inspect: bool,
    pub write_only: bool,
    pub register: bool,
    pub unregister: bool,
    pub mstsc: Option<String>,
    pub profile: Option<String>,
    pub log: Option<String>,
    pub rdp_file: Option<String>,
    pub set_template: Option<String>,
    pub clear_template: bool,
    pub no_wait: bool,
    pub direct_mstsc: bool,
    pub use_cmdkey: bool,
    pub monitor_seconds: u64,
    pub help: bool,
}

/// The model of the options.
#[verifier::ext_equal]
pub struct Options {
    pub input: Option<Seq<char>>,
    pub inspect: bool,
    pub write_only: bool,
    pub register: bool,
    pub unregister: bool,
    pub mstsc: Option<Seq<char>>,
    pub profile: Option<Seq<char>>,
    pub log: Option<Seq<char>>,
    pub rdp_file: Option<Seq<char>>,
    pub set_template: Option<Seq<char>>,
    pub clear_template: bool,
    pub no_wait: bool,
    pub direct_mstsc: bool,
    pub use_cmdkey: bool,
    pub monitor_seconds: nat,
    pub help: bool,
}

impl View for Cli {
    type V = Options;

    open spec fn view(&self) -> Options {
        Options {
            input: profiles::string_view(self.input),
            inspect: self.inspect,
            write_only: self.write_only,
            register: self.register,
            unregister: self.unregister,
            mstsc: profiles::string_view(self.mstsc),
            profile: profiles::string_view(self.profile),
            log: profiles::string_view(self.log),
            rdp_file: profiles::string_view(self.rdp_file),
            set_template: profiles::string_view(self.set_template),
            clear_template: self.clear_template,
            no_wait: self.no_wait,
            direct_mstsc: self.direct_mstsc,
            use_cmdkey: self.use_cmdkey,
            monitor_seconds: self.monitor_seconds as nat,
            help: self.help,
        }
    }
}

/// No option is set and no time is given.
pub open spec fn no_options() -> Options {
    Options {
        input: None,
        inspect: false,
        write_only: false,
        register: false,
        unregister: false,
        mstsc: None,
        profile: None,
        log: None,
        rdp_file: None,
        set_template: None,
        clear_template: false,
        no_wait: false,
        direct_mstsc: false,
        use_cmdkey: false,
        monitor_seconds: 0,
        help: false,
    }
}

/// The options of an empty command line: credentials are written, and events are watched for
/// half a minute.
pub open spec fn default_options() -> Options {
    Options { monitor_seconds: 30, use_cmdkey: true, ..no_options() }
}

impl Default for Cli {
    fn default() -> (r: Self)
        ensures
            r@ == no_options(),
    {
        Cli {
            input: None,
            inspect: false,
            write_only: false,
            register: false,
            unregister: false,
            mstsc: None,
            profile: None,
            log: None,
            rdp_file: None,
            set_template: None,
            clear_template: false,
            no_wait: false,
            direct_mstsc: false,
            use_cmdkey: false,
            monitor_seconds: 0,
            help: false,
        }
    }
}

// ---------------------------------------------------------------------------
// Reading the command line
// ---------------------------------------------------------------------------

/// Whether `name` is the name of a profile.
pub open spec fn is_profile(name: Seq<char>) -> bool {
    ||| name == "mac"@
    ||| name == "gnome"@
    ||| name == "template"@
    ||| name == "legacy"@
    ||| name == "swift"@
    ||| name == "raw"@
}

/// The options with the flag `arg` set, where it is one.
pub open spec fn with_flag(options: Options, arg: Seq<char>) -> Option<Options> {
    if arg == "-h"@ || arg == "--help"@ {
        Some(Options { help: true, ..options })
    } else if arg == "--inspect"@ {
        Some(Options { inspect: true, ..options })
    } else if arg == "--write-only"@ {
        Some(Options { write_only: true, ..options })
    } else if arg == "--register"@ {
        Some(Options { register: true, ..options })
    } else if arg == "--unregister"@ {
        Some(Options { unregister: true, ..options })
    } else if arg == "--no-wait"@ {
        Some(Options { no_wait: true, ..options })
    } else if arg == "--direct-mstsc"@ {
        Some(Options { direct_mstsc: true, ..options })
    } else if arg == "--use-cmdkey"@ {
        Some(Options { use_cmdkey: true, ..options })
    } else if arg == "--no-cmdkey"@ {
        Some(Options { use_cmdkey: false, ..options })
    } else if arg == "--clear-template"@ {
        Some(Options { clear_template: true, ..options })
    } else {
        None
    }
}

/// The message for an option that stands without the value that it needs.
pub open spec fn missing_value(arg: Seq<char>) -> Option<Seq<char>> {
    if arg == "--monitor-seconds"@ {
        Some("--monitor-seconds requires a number"@)
    } else if arg == "--mstsc"@ {
        Some("--mstsc requires a path"@)
    } else if arg == "--set-template"@ {
        Some("--set-template requires a .rdp path"@)
    } else if arg == "--profile"@ {
        Some("--profile requires mac, gnome, template, swift, legacy, or raw"@)
    } else if arg == "--log"@ {
        Some("--log requires a path"@)
    } else if arg == "--rdp-file"@ {
        Some("--rdp-file requires a path"@)
    } else {
        None
    }
}

/// The options with the option `arg`, which needs a value, set to `value`.
pub open spec fn with_value(options: Options, arg: Seq<char>, value: Seq<char>) -> Result<
    Options,
    Seq<char>,
> {
    if arg == "--monitor-seconds"@ {
        match text::number_of(value, u64::MAX as nat) {
            Some(n) => Ok(Options { monitor_seconds: n, ..options }),
            None => Err("invalid --monitor-seconds value: "@ + value),
        }
    } else if arg == "--mstsc"@ {
        Ok(Options { mstsc: Some(value), ..options })
    } else if arg == "--set-template"@ {
        Ok(Options { set_template: Some(value), ..options })
    } else if arg == "--profile"@ {
        if is_profile(text::lowered(value)) {
            Ok(Options { profile: Some(text::lowered(value)), ..options })
        } else {
            Err(
                "invalid --profile value: "@ + value
                    + "; expected mac, gnome, template, swift, legacy, or raw"@,
            )
        }
    } else if arg == "--log"@ {
        Ok(Options { log: Some(value), ..options })
    } else {
        Ok(Options { rdp_file: Some(value), ..options })
    }
}

/// The options with the argument `arg`, which is the link.
pub open spec fn with_input(options: Options, arg: Seq<char>) -> Result<Options, Seq<char>> {
    if "-"@.is_prefix_of(arg) {
        Err("unknown option: "@ + arg)
    } else if options.input is Some {
        Err("unexpected extra argument: "@ + arg)
    } else {
        Ok(Options { input: Some(arg), ..options })
    }
}

/// The options with the arguments from position `i` on, read from left to right.
pub open spec fn options_from(args: Seq<Seq<char>>, i: int, options: Options) -> Result<
    Options,
    Seq<char>,
>
    decreases args.len() - i,
{
    if i >= args.len() {
        Ok(options)
    } else if with_flag(options, args[i]) is Some {
        options_from(args, i + 1, with_flag(options, args[i])->0)
    } else if missing_value(args[i]) is Some {
        if i + 1 >= args.len() {
            Err(missing_value(args[i])->0)
        } else {
            match with_value(options, args[i], args[i + 1]) {
                Ok(next) => options_from(args, i + 2, next),
                Err(message) => Err(message),
            }
        }
    } else {
        match with_input(options, args[i]) {
            Ok(next) => options_from(args, i + 1, next),
            Err(message) => Err(message),
        }
    }
}

/// The options that the arguments `args` give.
pub open spec fn parsed_options(args: Seq<Seq<char>>) -> Result<Options, Seq<char>> {
    options_from(args, 0, default_options())
}

/// Sets the flag `arg`, where it is one, and says whether it is.
fn set_flag(cli: &mut Cli, arg: &str) -> (r: bool)
    ensures
        match with_flag(old(cli)@, arg@) {
            Some(options) => r && final(cli)@ == options,
            None => !r && *final(cli) == *old(cli),
        },
{
    if text::same_text(arg, "-h") || text::same_text(arg, "--help") {
        cli.help = true;
    } else if text::same_text(arg, "--inspect") {
        cli.inspect = true;
    } else if text::same_text(arg, "--write-only") {
        cli.write_only = true;
    } else if text::same_text(arg, "--register") {
        cli.register = true;
    } else if text::same_text(arg, "--unregister") {
        cli.unregister = true;
    } else if text::same_text(arg, "--no-wait") {
        cli.no_wait = true;
    } else if text::same_text(arg, "--direct-mstsc") {
        cli.direct_mstsc = true;
    } else if text::same_text(arg, "--use-cmdkey") {
        cli.use_cmdkey = true;
    } else if text::same_text(arg, "--no-cmdkey") {
        cli.use_cmdkey = false;
    } else if text::same_text(arg, "--clear-template") {
        cli.clear_template = true;
    } else {
        return false;
    }
    true
}

/// The message for an option that stands without the value that it needs.
fn missing_value_message(arg: &str) -> (r: Option<&'static str>)
    ensures
        match r {
            Some(message) => missing_value(arg@) == Some(message@),
            None => missing_value(arg@) is None,
        },
{
    if text::same_text(arg, "--monitor-seconds") {
        Some("--monitor-seconds requires a number")
    } else if text::same_text(arg, "--mstsc") {
        Some("--mstsc requires a path")
    } else if text::same_text(arg, "--set-template") {
        Some("--set-template requires a .rdp path")
    } else if text::same_text(arg, "--profile") {
        Some("--profile requires mac, gnome, template, swift, legacy, or raw")
    } else if text::same_text(arg, "--log") {
        Some("--log requires a path")
    } else if text::same_text(arg, "--rdp-file") {
        Some("--rdp-file requires a path")
    } else {
        None
    }
}

/// Sets the option `arg`, which needs a value, to `value`.
fn set_value(cli: &mut Cli, arg: &str, value: &String) -> (r: Result<(), LauncherError>)
    ensures
        match r {
            Ok(()) => with_value(old(cli)@, arg@, value@) == Ok::<Options, Seq<char>>(final(cli)@),
            Err(e) => with_value(old(cli)@, arg@, value@) == Err::<Options, Seq<char>>(e@),
        },
{
    if text::same_text(arg, "--monitor-seconds") {
        match text::parse_number(value.as_str(), u64::MAX) {
            Some(n) => {
                cli.monitor_seconds = n;
            },
            None => {
                return Err(LauncherError::about("invalid --monitor-seconds value: ", value.as_str()));
            },
        }
    } else if text::same_text(arg, "--mstsc") {
        cli.mstsc = Some(value.clone());
    } else if text::same_text(arg, "--set-template") {
        cli.set_template = Some(value.clone());
    } else if text::same_text(arg, "--profile") {
        let normalized = text::to_lower(value.as_str());
        let known = text::same_text(normalized.as_str(), "mac") || text::same_text(
            normalized.as_str(),
            "gnome",
        ) || text::same_text(normalized.as_str(), "template") || text::same_text(
            normalized.as_str(),
            "legacy",
        ) || text::same_text(normalized.as_str(), "swift") || text::same_text(
            normalized.as_str(),
            "raw",
        );
        if !known {
            let message = text::concat("invalid --profile value: ", value.as_str());
            return Err(
                LauncherError::about(
                    message.as_str(),
                    "; expected mac, gnome, template, swift, legacy, or raw",
                ),
            );
        }
        cli.profile = Some(normalized);
    } else if text::same_text(arg, "--log") {
        cli.log = Some(value.clone());
    } else {
        cli.rdp_file = Some(value.clone());
    }
    Ok(())
}

/// The options that the arguments `args` give.
pub fn parse_cli(args: Vec<String>) -> (r: Result<Cli, LauncherError>)
    ensures
        error::outcome(r) == parsed_options(text::string_views(args@)),
{
    let ghost all = text::string_views(args@);
    let mut cli = Cli::default();
    cli.monitor_seconds = 30;
    cli.use_cmdkey = true;
    assert(cli@ =~= default_options());
    let mut index: usize = 0;
    while index < args.len()
        invariant
            index <= args@.len(),
            all == text::string_views(args@),
            parsed_options(all) == options_from(all, index as int, cli@),
        decreases args@.len() - index,
    {
        let arg = &args[index];
        assert(all[index as int] == arg@);
        if set_flag(&mut cli, arg.as_str()) {
            index = index + 1;
        } else if let Some(message) = missing_value_message(arg.as_str()) {
            if args.len() - index < 2 {
                return Err(LauncherError::new(message));
            }
            let value = &args[index + 1];
            assert(all[index + 1] == value@);
            match set_value(&mut cli, arg.as_str(), value) {
                Ok(()) => {},
                Err(e) => {
                    return Err(e);
                },
            }
            index = index + 2;
        } else if text::starts_with(arg.as_str(), "-") {
            return Err(LauncherError::about("unknown option: ", arg.as_str()));
        } else {
            if cli.input.is_some() {
                return Err(LauncherError::about("unexpected extra argument: ", arg.as_str()));
            }
            cli.input = Some(arg.clone());
            index = index + 1;
        }
    }
    Ok(cli)
}

// ---------------------------------------------------------------------------
// Laws
// ---------------------------------------------------------------------------

/// The profile among the options is none, or one of the known ones.
spec fn has_known_profile(options: Options) -> bool {
    options.profile matches Some(name) ==> is_profile(name)
}

/// Reading further arguments keeps the profile a known one.
proof fn lemma_profile_known(args: Seq<Seq<char>>, i: int, options: Options)
    requires
        has_known_profile(options),
    ensures
        options_from(args, i, options) matches Ok(result) ==> has_known_profile(result),
    decreases args.len() - i,
{
    if i < args.len() {
        if with_flag(options, args[i]) is Some {
            lemma_profile_known(args, i + 1, with_flag(options, args[i])->0);
        } else if missing_value(args[i]) is Some {
            if i + 1 < args.len() {
                if let Ok(next) = with_value(options, args[i], args[i + 1]) {
                    lemma_profile_known(args, i + 2, next);
                }
            }
        } else {
            if let Ok(next) = with_input(options, args[i]) {
                lemma_profile_known(args, i + 1, next);
            }
        }
    }
}

/// A command line that is accepted names a known profile, or none.
pub proof fn law_accepted_profile_is_known(args: Seq<Seq<char>>)
    ensures
        parsed_options(args) matches Ok(options) ==> (options.profile matches Some(name)
            ==> is_profile(name)),
{
    lemma_profile_known(args, 0, default_options());
}

/// Reading the arguments of a longer command line goes on where the shorter one ends.
proof fn lemma_reading_goes_on(
    args: Seq<Seq<char>>,
    more: Seq<Seq<char>>,
    i: int,
    options: Options,
)
    requires
        0 <= i <= args.len(),
        options_from(args, i, options) is Ok,
    ensures
        options_from(args + more, i, options) == options_from(
            args + more,
            args.len() as int,
            options_from(args, i, options)->Ok_0,
        ),
    decreases args.len() - i,
{
    if i < args.len() {
        assert((args + more)[i] == args[i]);
        if with_flag(options, args[i]) is Some {
            lemma_reading_goes_on(args, more, i + 1, with_flag(options, args[i])->0);
        } else if missing_value(args[i]) is Some {
            assert((args + more)[i + 1] == args[i + 1]);
            if let Ok(next) = with_value(options, args[i], args[i + 1]) {
                lemma_reading_goes_on(args, more, i + 2, next);
            }
        } else {
            if let Ok(next) = with_input(options, args[i]) {
                lemma_reading_goes_on(args, more, i + 1, next);
            }
        }
    }
}

/// A flag behind a command line that is accepted is set, whatever stands before it: of two flags
/// that exclude each other, the last one counts.
pub proof fn law_last_flag_counts(args: Seq<Seq<char>>, flag: Seq<char>)
    requires
        parsed_options(args) is Ok,
        with_flag(parsed_options(args)->Ok_0, flag) is Some,
    ensures
        parsed_options(args.push(flag)) == Ok::<Options, Seq<char>>(
            with_flag(parsed_options(args)->Ok_0, flag)->0,
        ),
{
    let all = args + seq![flag];
    let options = parsed_options(args)->Ok_0;
    assert(args.push(flag) == all);
    lemma_reading_goes_on(args, seq![flag], 0, default_options());
    assert(all[args.len() as int] == flag);
    assert(options_from(all, (args.len() + 1) as int, with_flag(options, flag)->0) == Ok::<
        Options,
        Seq<char>,
    >(with_flag(options, flag)->0));
}

/// An option with a value behind a command line that is accepted is read, whatever stands before
/// it: of two values, the last one counts.
pub proof fn law_last_value_counts(args: Seq<Seq<char>>, option: Seq<char>, value: Seq<char>)
    requires
        parsed_options(args) is Ok,
        missing_value(option) is Some,
    ensures
        parsed_options(args.push(option).push(value)) == with_value(
            parsed_options(args)->Ok_0,
            option,
            value,
        ),
{
    let more = seq![option, value];
    let all = args + more;
    let n = args.len() as int;
    let options = parsed_options(args)->Ok_0;
    assert(args.push(option).push(value) == all);
    lemma_reading_goes_on(args, more, 0, default_options());
    assert(all[n] == option && all[n + 1] == value);
    lemma_options_are_no_flags(options, option);
    if let Ok(next) = with_value(options, option, value) {
        assert(options_from(all, n + 2, next) == Ok::<Options, Seq<char>>(next));
    }
}

/// An option that needs a value is no flag.
proof fn lemma_options_are_no_flags(options: Options, arg: Seq<char>)
    requires
        missing_value(arg) is Some,
    ensures
        with_flag(options, arg) is None,
{
    reveal_strlit("-h");
    reveal_strlit("--help");
    reveal_strlit("--inspect");
    reveal_strlit("--write-only");
    reveal_strlit("--register");
    reveal_strlit("--unregister");
    reveal_strlit("--no-wait");
    reveal_strlit("--direct-mstsc");
    reveal_strlit("--use-cmdkey");
    reveal_strlit("--no-cmdkey");
    reveal_strlit("--clear-template");
    reveal_strlit("--monitor-seconds");
    reveal_strlit("--mstsc");
    reveal_strlit("--set-template");
    reveal_strlit("--profile");
    reveal_strlit("--log");
    reveal_strlit("--rdp-file");
    assert("-h"@.len() == 2);
    assert("--help"@.len() == 6);
    assert("--inspect"@.len() == 9);
    assert("--write-only"@.len() == 12);
    assert("--register"@.len() == 10);
    assert("--unregister"@.len() == 12);
    assert("--no-wait"@.len() == 9);
    assert("--direct-mstsc"@.len() == 14);
    assert("--use-cmdkey"@.len() == 12);
    assert("--no-cmdkey"@.len() == 11);
    assert("--clear-template"@.len() == 16);
    assert("--monitor-seconds"@.len() == 17);
    assert("--mstsc"@.len() == 7);
    assert("--set-template"@.len() == 14);
    assert("--profile"@.len() == 9);
    assert("--log"@.len() == 5);
    assert("--rdp-file"@.len() == 10);
    assert("--direct-mstsc"@[2] == 'd');
    assert("--inspect"@[2] == 'i');
    assert("--no-wait"@[2] == 'n');
    assert("--profile"@[2] == 'p');
    assert("--rdp-file"@[3] == 'd');
    assert("--register"@[3] == 'e');
    assert("--set-template"@[2] == 's');
}

/// A link behind a command line that is accepted, and that holds none yet, is the input.
pub proof fn law_link_behind_options(args: Seq<Seq<char>>, link: Seq<char>)
    requires
        parsed_options(args) is Ok,
        parsed_options(args)->Ok_0.input is None,
        link.len() > 0 ==> link[0] != '-',
    ensures
        parsed_options(args.push(link)) == Ok::<Options, Seq<char>>(
            Options { input: Some(link), ..parsed_options(args)->Ok_0 },
        ),
{
    let all = args + seq![link];
    let n = args.len() as int;
    let options = parsed_options(args)->Ok_0;
    assert(args.push(link) == all);
    lemma_reading_goes_on(args, seq![link], 0, default_options());
    assert(all[n] == link);
    lemma_options_start_with_dash(options, link);
    let next = Options { input: Some(link), ..options };
    assert(options_from(all, n + 1, next) == Ok::<Options, Seq<char>>(next));
}

/// What does not start with a dash is no option.
proof fn lemma_options_start_with_dash(options: Options, arg: Seq<char>)
    requires
        arg.len() > 0 ==> arg[0] != '-',
    ensures
        with_flag(options, arg) is None,
        missing_value(arg) is None,
        !"-"@.is_prefix_of(arg),
{
    reveal_strlit("-");
    reveal_strlit("-h");
    reveal_strlit("--help");
    reveal_strlit("--inspect");
    reveal_strlit("--write-only");
    reveal_strlit("--register");
    reveal_strlit("--unregister");
    reveal_strlit("--no-wait");
    reveal_strlit("--direct-mstsc");
    reveal_strlit("--use-cmdkey");
    reveal_strlit("--no-cmdkey");
    reveal_strlit("--clear-template");
    reveal_strlit("--monitor-seconds");
    reveal_strlit("--mstsc");
    reveal_strlit("--set-template");
    reveal_strlit("--profile");
    reveal_strlit("--log");
    reveal_strlit("--rdp-file");
    if "-"@.is_prefix_of(arg) {
        assert(arg.subrange(0, 1)[0] == '-');
    }
}

/// An option that lacks its value is refused.
pub(crate) proof fn lemma_missing_value(args: Seq<Seq<char>>, option: Seq<char>)
    requires
        parsed_options(args) is Ok,
        missing_value(option) is Some,
    ensures
        parsed_options(args.push(option)) == Err::<Options, Seq<char>>(missing_value(option)->0),
{
    let all = args + seq![option];
    assert(args.push(option) == all);
    lemma_reading_goes_on(args, seq![option], 0, default_options());
    assert(all[args.len() as int] == option);
    lemma_options_are_no_flags(parsed_options(args)->Ok_0, option);
}

/// What an argument that is no option does, whatever follows.
pub(crate) proof fn lemma_other_argument(
    args: Seq<Seq<char>>,
    arg: Seq<char>,
    more: Seq<Seq<char>>,
)
    requires
        parsed_options(args) is Ok,
        with_flag(parsed_options(args)->Ok_0, arg) is None,
        missing_value(arg) is None,
    ensures
        with_input(parsed_options(args)->Ok_0, arg) matches Err(message) ==> parsed_options(
            args.push(arg) + more,
        ) == Err::<Options, Seq<char>>(message),
{
    let all = args + (seq![arg] + more);
    assert(args.push(arg) + more == all);
    lemma_reading_goes_on(args, seq![arg] + more, 0, default_options());
    assert(all[args.len() as int] == arg);
}

/// A value that is refused is refused whatever follows.
pub(crate) proof fn lemma_bad_value(
    args: Seq<Seq<char>>,
    option: Seq<char>,
    value: Seq<char>,
    more: Seq<Seq<char>>,
)
    requires
        parsed_options(args) is Ok,
        missing_value(option) is Some,
    ensures
        with_value(parsed_options(args)->Ok_0, option, value) matches Err(message)
            ==> parsed_options(args.push(option).push(value) + more) == Err::<Options, Seq<char>>(
            message,
        ),
{
    let tail = seq![option, value] + more;
    let all = args + tail;
    let n = args.len() as int;
    assert(args.push(option).push(value) + more == all);
    lemma_reading_goes_on(args, tail, 0, default_options());
    assert(all[n] == option && all[n + 1] == value);
    lemma_options_are_no_flags(parsed_options(args)->Ok_0, option);
}

} // verus!
