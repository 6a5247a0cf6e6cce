//! Looking into the event logs after the remote desktop client has returned.
use crate::credentials::CommandOutcome;
use crate::redact;
use crate::steps;
use crate::steps::{Act, Step};
use crate::text;
use crate::utf;
use vstd::prelude::*;

verus! {

/// The channels that are looked into.
pub open spec fn channel_names() -> Seq<Seq<char>> {
    seq![
        "Microsoft-Windows-TerminalServices-RDPClient/Operational"@,
        "Microsoft-Windows-RemoteDesktopServices-RdpCoreTS/Operational"@,
        "Microsoft-Windows-TerminalServices-ClientUSBDevices/Operational"@,
        "Application"@,
        "System"@,
    ]
}

/// What is noted before `channel` is looked into.
pub open spec fn query_note(label: Seq<char>, channel: Seq<char>) -> Seq<char> {
    "querying Windows event log ("@ + label + ", recent 180s): "@ + channel
}

/// The steps that look into `channels`.
pub open spec fn capture_acts(channels: Seq<Seq<char>>, label: Seq<char>) -> Seq<Act>
    decreases channels.len(),
{
    if channels.len() == 0 {
        seq![]
    } else {
        capture_acts(channels.drop_last(), label) + seq![
            Act::Note(query_note(label, channels.last())),
            Act::Query(channels.last()),
        ]
    }
}

/// The steps that look into all channels.
pub open spec fn capture(label: Seq<char>) -> Seq<Act> {
    capture_acts(channel_names(), label)
}

/// The steps that look into all channels at once and, where a time is given, again after it.
pub open spec fn monitoring(seconds: nat) -> Seq<Act> {
    let now = capture("immediate after mstsc returned"@);
    if seconds == 0 {
        now
    } else {
        now + seq![
            Act::Note(
                "waiting "@ + text::decimal(seconds) + "s for delayed RDP disconnect events"@,
            ),
            Act::Sleep(seconds),
        ] + capture("after monitor delay"@)
    }
}

/// The arguments of the query for the events of the last three minutes in `channel`.
pub open spec fn query_arguments(channel: Seq<char>) -> Seq<Seq<char>> {
    seq![
        "qe"@,
        channel,
        "/q:*[System[TimeCreated[timediff(@SystemTime) <= 180000]]]"@,
        "/rd:true"@,
        "/c:30"@,
        "/f:xml"@,
    ]
}

/// What is noted of a query for the events in `channel` that ended with the given status, and that
/// wrote the texts `stdout` and `stderr`.
pub open spec fn answer_of(
    channel: Seq<char>,
    success: bool,
    status: Seq<char>,
    stdout: Seq<char>,
    stderr: Seq<char>,
) -> Act {
    if !success {
        Act::Note(
            "event log query failed for "@ + channel + ": status="@ + status + ", stderr="@
                + redact::redacted_events(text::trimmed(stderr)),
        )
    } else if text::trimmed(stdout).len() == 0 {
        Act::Note("event log "@ + channel + ": <empty>"@)
    } else {
        Act::NoteBlock("event log "@ + channel, redact::redacted_events(text::trimmed(stdout)))
    }
}

/// What is noted of an attempt to query the events in `channel`.
pub open spec fn answer_note(channel: Seq<char>, outcome: CommandOutcome) -> Act {
    match outcome {
        CommandOutcome::NotRun(why) => Act::Note(
            "event log query failed for "@ + channel + ": "@ + why@,
        ),
        CommandOutcome::Ran { success, status, stdout, stderr } => answer_of(
            channel,
            success,
            status@,
            utf::lossy_text(stdout@),
            utf::lossy_text(stderr@),
        ),
    }
}

/// The channels that are looked into.
fn channels() -> (r: Vec<&'static str>)
    ensures
        text::views(r@) == channel_names(),
{
    let r: Vec<&'static str> = vec![
        "Microsoft-Windows-TerminalServices-RDPClient/Operational",
        "Microsoft-Windows-RemoteDesktopServices-RdpCoreTS/Operational",
        "Microsoft-Windows-TerminalServices-ClientUSBDevices/Operational",
        "Application",
        "System",
    ];
    assert(text::views(r@) =~= channel_names());
    r
}

/// The steps that look into all channels.
pub fn capture_rdp_event_logs(label: &str) -> (r: Vec<Step>)
    ensures
        steps::acts(r@) == capture(label@),
{
    let channels = channels();
    let ghost all = channel_names();
    let mut out: Vec<Step> = Vec::new();
    assert(all.take(0) =~= seq![]);
    assert(steps::acts(out@) =~= capture_acts(all.take(0), label@));
    for i in 0..channels.len()
        invariant
            text::views(channels@) == all,
            steps::acts(out@) == capture_acts(all.take(i as int), label@),
    {
        let ghost done = steps::acts(out@);
        let channel = channels[i];
        let mut note = text::concat("querying Windows event log (", label);
        text::append(&mut note, ", recent 180s): ");
        text::append(&mut note, channel);
        out.push(Step::Note(note));
        out.push(Step::Query(channel.to_string()));
        proof {
            assert(all[i as int] == channel@);
            assert(all.take(i + 1).drop_last() =~= all.take(i as int));
            assert(steps::acts(out@) =~= done + seq![
                Act::Note(query_note(label@, channel@)),
                Act::Query(channel@),
            ]);
        }
    }
    assert(all.take(channels@.len() as int) =~= all);
    out
}

/// The steps that look into all channels at once and, where a time is given, again after it.
pub fn monitor_rdp_events_after_mstsc_returns(monitor_seconds: u64) -> (r: Vec<Step>)
    ensures
        steps::acts(r@) == monitoring(monitor_seconds as nat),
{
    let mut out = capture_rdp_event_logs("immediate after mstsc returned");
    if monitor_seconds > 0 {
        let ghost done = steps::acts(out@);
        let mut note = text::concat("waiting ", text::to_decimal(monitor_seconds).as_str());
        text::append(&mut note, "s for delayed RDP disconnect events");
        let ghost said = note@;
        out.push(Step::Note(note));
        out.push(Step::Sleep(monitor_seconds));
        assert(steps::acts(out@) =~= done + seq![
            Act::Note(said),
            Act::Sleep(monitor_seconds as nat),
        ]);
        steps::extend(&mut out, capture_rdp_event_logs("after monitor delay"));
    }
    out
}

/// The arguments of the query for the recent events in `channel`.
pub fn event_query_arguments(channel: &str) -> (r: Vec<String>)
    ensures
        text::string_views(r@) == query_arguments(channel@),
{
    let mut args: Vec<String> = Vec::new();
    args.push("qe".to_string());
    args.push(channel.to_string());
    args.push("/q:*[System[TimeCreated[timediff(@SystemTime) <= 180000]]]".to_string());
    args.push("/rd:true".to_string());
    args.push("/c:30".to_string());
    args.push("/f:xml".to_string());
    assert(text::string_views(args@) =~= query_arguments(channel@));
    args
}

/// What is noted of a query for the events in `channel` that ended with the given status, and that
/// wrote the texts `stdout` and `stderr`.
pub fn note_answer(channel: &str, success: bool, status: &str, stdout: &str, stderr: &str) -> (r:
    Step)
    ensures
        r@ == answer_of(channel@, success, status@, stdout@, stderr@),
{
    if !success {
        let mut line = text::concat("event log query failed for ", channel);
        text::append(&mut line, ": status=");
        text::append(&mut line, status);
        text::append(&mut line, ", stderr=");
        text::append(&mut line, redact::redact_event_log(text::trim(stderr)).as_str());
        return Step::Note(line);
    }
    let trimmed = text::trim(stdout);
    let mut title = text::concat("event log ", channel);
    if trimmed.is_empty() {
        text::append(&mut title, ": <empty>");
        Step::Note(title)
    } else {
        Step::NoteBlock(title, redact::redact_event_log(trimmed))
    }
}

/// What is noted of an attempt to query the events in `channel`.
pub fn record_events(channel: &str, outcome: &CommandOutcome) -> (r: Step)
    ensures
        r@ == answer_note(channel@, *outcome),
{
    match outcome {
        CommandOutcome::NotRun(why) => {
            let mut line = text::concat("event log query failed for ", channel);
            text::append(&mut line, ": ");
            text::append(&mut line, why.as_str());
            Step::Note(line)
        },
        CommandOutcome::Ran { success, status, stdout, stderr } => {
            let out = utf::string_from_utf8_lossy(stdout);
            let err = utf::string_from_utf8_lossy(stderr);
            note_answer(channel, *success, status.as_str(), out.as_str(), err.as_str())
        },
    }
}

} // verus!
