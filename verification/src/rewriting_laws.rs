//! Where the lines of a rewritten configuration come to stand.
use crate::rewriting;
use crate::settings;
use crate::text;
use vstd::prelude::*;

verus! {

/// Whether the trimmed line `line` is left out: it is empty, or its setting has one of the names in
/// `dropped`, whatever the case.
pub open spec fn is_left_out(line: Seq<char>, dropped: Seq<Seq<char>>) -> bool {
    line.len() == 0 || exists|i: int|
        0 <= i < dropped.len() && text::same_ignoring_case(
            settings::line_key(line),
            #[trigger] dropped[i],
        )
}

/// Whether override `m` is the first one with the name of the setting on the trimmed line `line`,
/// whatever the case.
pub open spec fn is_overridden(
    line: Seq<char>,
    overrides: Seq<(Seq<char>, Seq<char>)>,
    m: int,
) -> bool {
    &&& 0 <= m < overrides.len()
    &&& text::same_ignoring_case(settings::line_key(line), overrides[m].0)
    &&& forall|i: int|
        0 <= i < m ==> !text::same_ignoring_case(
            settings::line_key(line),
            (#[trigger] overrides[i]).0,
        )
}

/// Whether one of `lines` that is not left out calls for override `m`.
pub open spec fn calls_for(
    lines: Seq<Seq<char>>,
    overrides: Seq<(Seq<char>, Seq<char>)>,
    m: int,
    dropped: Seq<Seq<char>>,
) -> bool {
    exists|j: int|
        0 <= j < lines.len() && !is_left_out(text::trimmed(#[trigger] lines[j]), dropped)
            && is_overridden(text::trimmed(lines[j]), overrides, m)
}

/// `lines` with what is left out taken away, and with each override in the place of the first line
/// that calls for it and in place of no other one.
pub open spec fn in_place(
    lines: Seq<Seq<char>>,
    overrides: Seq<(Seq<char>, Seq<char>)>,
    dropped: Seq<Seq<char>>,
) -> Seq<Seq<char>>
    decreases lines.len(),
{
    if lines.len() == 0 {
        seq![]
    } else {
        let before = lines.drop_last();
        let line = text::trimmed(lines.last());
        let made = in_place(before, overrides, dropped);
        if is_left_out(line, dropped) {
            made
        } else if exists|m: int| #[trigger] is_overridden(line, overrides, m) {
            let m = choose|m: int| #[trigger] is_overridden(line, overrides, m);
            if calls_for(before, overrides, m, dropped) {
                made
            } else {
                made.push(overrides[m].1)
            }
        } else {
            made.push(line)
        }
    }
}

/// The lines of the overrides from `i` on for which no line calls.
pub open spec fn not_called_for(
    lines: Seq<Seq<char>>,
    overrides: Seq<(Seq<char>, Seq<char>)>,
    dropped: Seq<Seq<char>>,
    i: int,
) -> Seq<Seq<char>>
    decreases overrides.len() - i,
{
    if i >= overrides.len() {
        seq![]
    } else if calls_for(lines, overrides, i, dropped) {
        not_called_for(lines, overrides, dropped, i + 1)
    } else {
        seq![overrides[i].1] + not_called_for(lines, overrides, dropped, i + 1)
    }
}

/// The flags behind `line`.
spec fn flags_after(
    line: Seq<char>,
    overrides: Seq<(Seq<char>, Seq<char>)>,
    dropped: Seq<Seq<char>>,
    applied: Seq<bool>,
) -> Seq<bool> {
    let m = rewriting::override_for(overrides, settings::line_key(line)) as int;
    if line.len() == 0 || rewriting::is_among(settings::line_key(line), dropped) || m
        >= overrides.len() || applied[m] {
        applied
    } else {
        applied.update(m, true)
    }
}

/// What becomes of `line`.
spec fn made_of(
    line: Seq<char>,
    overrides: Seq<(Seq<char>, Seq<char>)>,
    dropped: Seq<Seq<char>>,
    applied: Seq<bool>,
) -> Seq<Seq<char>> {
    let m = rewriting::override_for(overrides, settings::line_key(line)) as int;
    if line.len() == 0 || rewriting::is_among(settings::line_key(line), dropped) {
        seq![]
    } else if m >= overrides.len() {
        seq![line]
    } else if applied[m] {
        seq![]
    } else {
        seq![overrides[m].1]
    }
}

/// The flags behind `lines`.
spec fn flags(
    lines: Seq<Seq<char>>,
    overrides: Seq<(Seq<char>, Seq<char>)>,
    dropped: Seq<Seq<char>>,
    applied: Seq<bool>,
) -> Seq<bool>
    decreases lines.len(),
{
    if lines.len() == 0 {
        applied
    } else {
        flags(
            lines.drop_first(),
            overrides,
            dropped,
            flags_after(text::trimmed(lines[0]), overrides, dropped, applied),
        )
    }
}

/// What becomes of `lines`.
spec fn made(
    lines: Seq<Seq<char>>,
    overrides: Seq<(Seq<char>, Seq<char>)>,
    dropped: Seq<Seq<char>>,
    applied: Seq<bool>,
) -> Seq<Seq<char>>
    decreases lines.len(),
{
    if lines.len() == 0 {
        seq![]
    } else {
        let line = text::trimmed(lines[0]);
        made_of(line, overrides, dropped, applied) + made(
            lines.drop_first(),
            overrides,
            dropped,
            flags_after(line, overrides, dropped, applied),
        )
    }
}

/// Rewriting gives what becomes of the lines, and then the overrides that were not applied.
proof fn lemma_rewritten_parts(
    lines: Seq<Seq<char>>,
    overrides: Seq<(Seq<char>, Seq<char>)>,
    dropped: Seq<Seq<char>>,
    applied: Seq<bool>,
)
    requires
        applied.len() == overrides.len(),
    ensures
        rewriting::rewritten(lines, overrides, dropped, applied) == made(
            lines,
            overrides,
            dropped,
            applied,
        ) + rewriting::unapplied(overrides, flags(lines, overrides, dropped, applied), 0),
    decreases lines.len(),
{
    let none = Seq::<Seq<char>>::empty();
    if lines.len() == 0 {
        let tail = rewriting::unapplied(overrides, applied, 0);
        assert(none + tail =~= tail);
    } else {
        let line = text::trimmed(lines[0]);
        let rest = lines.drop_first();
        let next = flags_after(line, overrides, dropped, applied);
        lemma_rewritten_parts(rest, overrides, dropped, next);
        let head = made_of(line, overrides, dropped, applied);
        let middle = made(rest, overrides, dropped, next);
        let tail = rewriting::unapplied(overrides, flags(rest, overrides, dropped, next), 0);
        assert(head + (middle + tail) =~= (head + middle) + tail);
        assert(none + (middle + tail) =~= middle + tail);
    }
}

/// The last line comes last.
proof fn lemma_last_line(
    lines: Seq<Seq<char>>,
    overrides: Seq<(Seq<char>, Seq<char>)>,
    dropped: Seq<Seq<char>>,
    applied: Seq<bool>,
)
    requires
        lines.len() > 0,
    ensures
        ({
            let before = lines.drop_last();
            let line = text::trimmed(lines.last());
            let f = flags(before, overrides, dropped, applied);
            &&& flags(lines, overrides, dropped, applied) == flags_after(
                line,
                overrides,
                dropped,
                f,
            )
            &&& made(lines, overrides, dropped, applied) == made(
                before,
                overrides,
                dropped,
                applied,
            ) + made_of(line, overrides, dropped, f)
        }),
    decreases lines.len(),
{
    let before = lines.drop_last();
    let first = text::trimmed(lines[0]);
    let next = flags_after(first, overrides, dropped, applied);
    let rest = lines.drop_first();
    let none = Seq::<Seq<char>>::empty();
    if lines.len() == 1 {
        assert(rest.len() == 0 && before.len() == 0);
        assert(lines.last() == lines[0]);
        let head = made_of(first, overrides, dropped, applied);
        assert(made(rest, overrides, dropped, next) == none);
        assert(made(before, overrides, dropped, applied) == none);
        assert(flags(rest, overrides, dropped, next) == next);
        assert(flags(before, overrides, dropped, applied) == applied);
        assert(head + none =~= none + head);
    } else {
        lemma_last_line(rest, overrides, dropped, next);
        assert(rest.drop_last() =~= before.drop_first());
        assert(rest.last() == lines.last());
        assert(before[0] == lines[0]);
        let head = made_of(first, overrides, dropped, applied);
        let middle = made(before.drop_first(), overrides, dropped, next);
        let f = flags(before, overrides, dropped, applied);
        assert(f == flags(before.drop_first(), overrides, dropped, next));
        assert(made(before, overrides, dropped, applied) == head + middle);
        let tail = made_of(text::trimmed(lines.last()), overrides, dropped, f);
        assert(head + (middle + tail) =~= (head + middle) + tail);
    }
}

/// The override of a line is the first one with its name.
proof fn lemma_owner(line: Seq<char>, overrides: Seq<(Seq<char>, Seq<char>)>)
    ensures
        forall|m: int| #[trigger]
            is_overridden(line, overrides, m) ==> m == rewriting::override_for(
                overrides,
                settings::line_key(line),
            ),
        rewriting::override_for(overrides, settings::line_key(line)) < overrides.len()
            ==> is_overridden(
            line,
            overrides,
            rewriting::override_for(overrides, settings::line_key(line)) as int,
        ),
{
    let key = settings::line_key(line);
    let k = rewriting::override_for(overrides, key) as int;
    rewriting::lemma_override_for(overrides, key);
    assert forall|m: int| #[trigger] is_overridden(line, overrides, m) implies m == k by {
        if k > m {
            assert(!text::same_ignoring_case(key, overrides[m].0));
        } else if k < m {
            assert(!text::same_ignoring_case(key, overrides[k].0));
        }
    }
}

/// What becomes of lines, and which overrides they call for.
proof fn lemma_in_place(
    lines: Seq<Seq<char>>,
    overrides: Seq<(Seq<char>, Seq<char>)>,
    dropped: Seq<Seq<char>>,
)
    ensures
        ({
            let none = rewriting::none_applied(overrides.len());
            let f = flags(lines, overrides, dropped, none);
            &&& made(lines, overrides, dropped, none) == in_place(lines, overrides, dropped)
            &&& f.len() == overrides.len()
            &&& forall|m: int|
                0 <= m < overrides.len() ==> (#[trigger] f[m] <==> calls_for(
                    lines,
                    overrides,
                    m,
                    dropped,
                ))
        }),
    decreases lines.len(),
{
    let none = rewriting::none_applied(overrides.len());
    let f = flags(lines, overrides, dropped, none);
    if lines.len() > 0 {
        let before = lines.drop_last();
        let line = text::trimmed(lines.last());
        let g = flags(before, overrides, dropped, none);
        let key = settings::line_key(line);
        let k = rewriting::override_for(overrides, key) as int;
        lemma_in_place(before, overrides, dropped);
        lemma_last_line(lines, overrides, dropped, none);
        lemma_owner(line, overrides);
        assert(is_left_out(line, dropped) == (line.len() == 0 || rewriting::is_among(key, dropped)));
        let done = in_place(before, overrides, dropped);
        assert(done + Seq::<Seq<char>>::empty() =~= done);
        assert(done + seq![line] =~= done.push(line));
        if k < overrides.len() {
            assert(is_overridden(line, overrides, k));
            assert(done + seq![overrides[k].1] =~= done.push(overrides[k].1));
            assert(g[k] <==> calls_for(before, overrides, k, dropped));
        } else {
            assert(!(exists|m: int| #[trigger] is_overridden(line, overrides, m)));
        }
        assert forall|m: int| 0 <= m < overrides.len() implies (#[trigger] f[m] <==> calls_for(
            lines,
            overrides,
            m,
            dropped,
        )) by {
            assert(g[m] <==> calls_for(before, overrides, m, dropped));
            if calls_for(before, overrides, m, dropped) {
                let j = choose|j: int|
                    0 <= j < before.len() && !is_left_out(
                        text::trimmed(#[trigger] before[j]),
                        dropped,
                    ) && is_overridden(text::trimmed(before[j]), overrides, m);
                assert(lines[j] == before[j]);
            }
            if !is_left_out(line, dropped) && is_overridden(line, overrides, m) {
                assert(is_overridden(line, overrides, m));
                assert(lines[lines.len() - 1] == lines.last());
            }
            if calls_for(lines, overrides, m, dropped) && !calls_for(
                before,
                overrides,
                m,
                dropped,
            ) {
                let j = choose|j: int|
                    0 <= j < lines.len() && !is_left_out(text::trimmed(#[trigger] lines[j]), dropped)
                        && is_overridden(text::trimmed(lines[j]), overrides, m);
                if j < before.len() {
                    assert(before[j] == lines[j]);
                }
                assert(is_overridden(line, overrides, m));
            }
        }
    } else {
        assert forall|m: int| 0 <= m < overrides.len() implies !#[trigger] f[m] by {}
    }
}

/// The overrides that were not applied are those for which no line calls.
proof fn lemma_not_called_for(
    lines: Seq<Seq<char>>,
    overrides: Seq<(Seq<char>, Seq<char>)>,
    dropped: Seq<Seq<char>>,
    f: Seq<bool>,
    i: int,
)
    requires
        0 <= i,
        forall|m: int|
            0 <= m < overrides.len() ==> (#[trigger] f[m] <==> calls_for(
                lines,
                overrides,
                m,
                dropped,
            )),
    ensures
        rewriting::unapplied(overrides, f, i) == not_called_for(lines, overrides, dropped, i),
    decreases overrides.len() - i,
{
    if i < overrides.len() {
        assert(f[i] <==> calls_for(lines, overrides, i, dropped));
        lemma_not_called_for(lines, overrides, dropped, f, i + 1);
    }
}

/// Each override takes the place of the first line that calls for it; those for which no line calls
/// follow at the end, in their order. Each other line that is not left out keeps its place.
pub proof fn law_overrides_take_the_first_place(
    content: Seq<char>,
    overrides: Seq<(Seq<char>, Seq<char>)>,
    dropped: Seq<Seq<char>>,
)
    ensures
        rewriting::rewritten_text(content, overrides, dropped) == text::joined(
            in_place(text::lines_of(content), overrides, dropped) + not_called_for(
                text::lines_of(content),
                overrides,
                dropped,
                0,
            ),
            seq!['\n'],
        ),
{
    reveal_strlit("\n");
    assert("\n"@ =~= seq!['\n']);
    let lines = text::lines_of(content);
    let none = rewriting::none_applied(overrides.len());
    lemma_rewritten_parts(lines, overrides, dropped, none);
    lemma_in_place(lines, overrides, dropped);
    lemma_not_called_for(lines, overrides, dropped, flags(lines, overrides, dropped, none), 0);
}

} // verus!
