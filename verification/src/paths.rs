//! Where the program keeps its files.
use crate::template;
use crate::text;
use vstd::prelude::*;

verus! {

/// The directory at which a path starts.
#[derive(Debug, Clone, Copy, PartialEq, Eq, Structural)]
pub enum Base {
    /// That of the first variable: `APPDATA` on Windows, `XDG_CONFIG_HOME` elsewhere.
    First,
    /// That of the second variable: `USERPROFILE` on Windows, `HOME` elsewhere.
    Second,
    /// The current one.
    Current,
}

/// A path: the directory at which it starts, and the names that lead on from there.
#[derive(Debug)]
pub struct Location {
    pub base: Base,
    pub names: Vec<&'static str>,
}

impl View for Location {
    type V = (Base, Seq<Seq<char>>);

    open spec fn view(&self) -> (Base, Seq<Seq<char>>) {
        (self.base, text::views(self.names@))
    }
}

/// The directory for the files of the program: below the directory of the first variable that is
/// set, or below the current one.
pub open spec fn config_location(windows: bool, first_set: bool, second_set: bool) -> (
    Base,
    Seq<Seq<char>>,
) {
    if first_set {
        (Base::First, seq!["jms-rdp-launcher"@])
    } else if second_set {
        (
            Base::Second,
            if windows {
                seq!["AppData"@, "Roaming"@, "jms-rdp-launcher"@]
            } else {
                seq![".config"@, "jms-rdp-launcher"@]
            },
        )
    } else {
        (Base::Current, seq!["jms-rdp-launcher"@])
    }
}

/// The place of the file `name` in the directory for the files of the program.
pub open spec fn config_file(windows: bool, first_set: bool, second_set: bool, name: Seq<char>) -> (
    Base,
    Seq<Seq<char>>,
) {
    let dir = config_location(windows, first_set, second_set);
    (dir.0, dir.1.push(name))
}

/// The directory for the files of the program. `first_set` and `second_set` say which of the two
/// variables are set.
pub fn app_config_dir(windows: bool, first_set: bool, second_set: bool) -> (r: Location)
    ensures
        r@ == config_location(windows, first_set, second_set),
{
    let mut names: Vec<&'static str> = Vec::new();
    let base = if first_set {
        Base::First
    } else if second_set {
        if windows {
            names.push("AppData");
            names.push("Roaming");
        } else {
            names.push(".config");
        }
        Base::Second
    } else {
        Base::Current
    };
    names.push("jms-rdp-launcher");
    assert(text::views(names@) =~= config_location(windows, first_set, second_set).1);
    Location { base, names }
}

/// The place of the template.
pub fn template_rdp_path(windows: bool, first_set: bool, second_set: bool) -> (r: Location)
    ensures
        r@ == config_file(windows, first_set, second_set, template::TEMPLATE_RDP_FILE_NAME@),
{
    let mut place = app_config_dir(windows, first_set, second_set);
    let ghost before = text::views(place.names@);
    place.names.push(template::TEMPLATE_RDP_FILE_NAME);
    assert(text::views(place.names@) =~= before.push(template::TEMPLATE_RDP_FILE_NAME@));
    place
}

/// The place of the log, where no other is asked for.
pub fn default_log_path(windows: bool, first_set: bool, second_set: bool) -> (r: Location)
    ensures
        r@ == config_file(windows, first_set, second_set, "launcher.log"@),
{
    let mut place = app_config_dir(windows, first_set, second_set);
    let ghost before = text::views(place.names@);
    place.names.push("launcher.log");
    assert(text::views(place.names@) =~= before.push("launcher.log"@));
    place
}

} // verus!
