//! Rewriting a configuration line by line.
use crate::settings;
use crate::text;
use vstd::prelude::*;

verus! {

/// Whether `key` is one of `names`, whatever the case of its letters.
pub open spec fn is_among(key: Seq<char>, names: Seq<Seq<char>>) -> bool {
    exists|i: int| 0 <= i < names.len() && text::same_ignoring_case(key, #[trigger] names[i])
}

/// The position of the first override for the setting `key`, or the number of overrides where
/// there is none. An override is a name and the line that sets it.
pub open spec fn override_for(overrides: Seq<(Seq<char>, Seq<char>)>, key: Seq<char>) -> nat
    decreases overrides.len(),
{
    if overrides.len() == 0 || text::same_ignoring_case(key, overrides[0].0) {
        0
    } else {
        1 + override_for(overrides.drop_first(), key)
    }
}

/// The lines of the overrides from position `i` on that are not applied yet.
pub open spec fn unapplied(
    overrides: Seq<(Seq<char>, Seq<char>)>,
    applied: Seq<bool>,
    i: int,
) -> Seq<Seq<char>>
    decreases overrides.len() - i,
{
    if i >= overrides.len() {
        seq![]
    } else if applied[i] {
        unapplied(overrides, applied, i + 1)
    } else {
        seq![overrides[i].1] + unapplied(overrides, applied, i + 1)
    }
}

/// `lines` without empty lines and settings named in `dropped`, with the first line of each
/// overridden setting replaced by its override and further ones left out. The overrides that no
/// line has called for follow at the end.
pub open spec fn rewritten(
    lines: Seq<Seq<char>>,
    overrides: Seq<(Seq<char>, Seq<char>)>,
    dropped: Seq<Seq<char>>,
    applied: Seq<bool>,
) -> Seq<Seq<char>>
    decreases lines.len(),
{
    if lines.len() == 0 {
        unapplied(overrides, applied, 0)
    } else {
        let line = text::trimmed(lines[0]);
        let rest = lines.drop_first();
        let key = settings::line_key(line);
        let m = override_for(overrides, key) as int;
        if line.len() == 0 || is_among(key, dropped) {
            rewritten(rest, overrides, dropped, applied)
        } else if m >= overrides.len() {
            seq![line] + rewritten(rest, overrides, dropped, applied)
        } else if applied[m] {
            rewritten(rest, overrides, dropped, applied)
        } else {
            seq![overrides[m].1] + rewritten(rest, overrides, dropped, applied.update(m, true))
        }
    }
}

/// No override is applied.
pub open spec fn none_applied(n: nat) -> Seq<bool> {
    Seq::new(n, |i: int| false)
}

/// The lines of `content` rewritten, with line feeds between them.
pub open spec fn rewritten_text(
    content: Seq<char>,
    overrides: Seq<(Seq<char>, Seq<char>)>,
    dropped: Seq<Seq<char>>,
) -> Seq<char> {
    text::joined(
        rewritten(text::lines_of(content), overrides, dropped, none_applied(overrides.len())),
        "\n"@,
    )
}

/// The models of the overrides.
pub open spec fn override_views(overrides: Seq<(&str, String)>) -> Seq<(Seq<char>, Seq<char>)> {
    overrides.map_values(|o: (&str, String)| (o.0@, o.1@))
}

/// Whether `key` is one of `names`, whatever the case of its letters.
fn among(key: &str, names: &[&str]) -> (r: bool)
    ensures
        r == is_among(key@, text::views(names@)),
{
    let ghost all = text::views(names@);
    let mut i: usize = 0;
    while i < names.len()
        invariant
            i <= names@.len(),
            all == text::views(names@),
            forall|j: int| 0 <= j < i ==> !text::same_ignoring_case(key@, #[trigger] all[j]),
        decreases names@.len() - i,
    {
        assert(all[i as int] == names@[i as int]@);
        if text::eq_ignoring_case(key, names[i]) {
            return true;
        }
        i = i + 1;
    }
    assert(all.len() == names@.len());
    false
}

/// The position of the first override for the setting `key`, or the number of overrides.
fn find_override(overrides: &[(&str, String)], key: &str) -> (r: usize)
    ensures
        r == override_for(override_views(overrides@), key@),
        r <= overrides@.len(),
{
    let ghost all = override_views(overrides@);
    let mut i: usize = 0;
    assert(all.skip(0) == all);
    while i < overrides.len()
        invariant
            i <= overrides@.len(),
            all == override_views(overrides@),
            override_for(all, key@) == i + override_for(all.skip(i as int), key@),
        decreases overrides@.len() - i,
    {
        assert(all.skip(i as int)[0] == all[i as int]);
        assert(all[i as int].0 == overrides@[i as int].0@);
        assert(all.skip(i as int).drop_first() == all.skip(i + 1));
        if text::eq_ignoring_case(key, overrides[i].0) {
            return i;
        }
        i = i + 1;
    }
    assert(all.skip(i as int).len() == 0);
    i
}

/// The lines of `content` rewritten, with line feeds between them: see `rewritten`.
pub fn rewrite_rdp_config(
    content: &str,
    overrides: &[(&str, String)],
    drop_keys: &[&str],
) -> (r: String)
    ensures
        r@ == rewritten_text(content@, override_views(overrides@), text::views(drop_keys@)),
{
    let lines = text::lines(content);
    let ghost all = text::lines_of(content@);
    let ghost ov = override_views(overrides@);
    let ghost dropped = text::views(drop_keys@);
    let ghost total = rewritten(all, ov, dropped, none_applied(overrides@.len()));
    let mut output: Vec<String> = Vec::new();
    let mut applied: Vec<bool> = Vec::new();
    for i in 0..overrides.len()
        invariant
            applied@ == none_applied(i as nat),
    {
        applied.push(false);
        assert(applied@ =~= none_applied((i + 1) as nat));
    }
    let mut i: usize = 0;
    assert(all.skip(0) == all);
    assert(text::string_views(output@) =~= Seq::<Seq<char>>::empty());
    assert(Seq::<Seq<char>>::empty() + total == total);
    while i < lines.len()
        invariant
            i <= lines@.len(),
            text::views(lines@) == all,
            ov == override_views(overrides@),
            dropped == text::views(drop_keys@),
            applied@.len() == overrides@.len(),
            total == text::string_views(output@) + rewritten(
                all.skip(i as int),
                ov,
                dropped,
                applied@,
            ),
        decreases lines@.len() - i,
    {
        let ghost done = text::string_views(output@);
        let ghost flags = applied@;
        let trimmed = text::trim(lines[i]);
        assert(all.skip(i as int)[0] == lines@[i as int]@);
        assert(all.skip(i as int).drop_first() == all.skip(i + 1));
        i = i + 1;
        if !trimmed.is_empty() {
            let key = settings::rdp_line_key(trimmed);
            if !among(key, drop_keys) {
                let index: usize = find_override(overrides, key);
                if index < overrides.len() {
                    if !applied[index] {
                        let line = overrides[index].1.clone();
                        output.push(line);
                        applied[index] = true;
                        proof {
                            assert(applied@ == flags.update(index as int, true));
                            assert(text::string_views(output@) =~= done.push(ov[index as int].1));
                            assert(text::string_views(output@) + rewritten(
                                all.skip(i as int),
                                ov,
                                dropped,
                                applied@,
                            ) =~= done + (seq![ov[index as int].1] + rewritten(
                                all.skip(i as int),
                                ov,
                                dropped,
                                applied@,
                            )));
                        }
                    }
                } else {
                    output.push(trimmed.to_string());
                    proof {
                        assert(text::string_views(output@) =~= done.push(trimmed@));
                        assert(text::string_views(output@) + rewritten(
                            all.skip(i as int),
                            ov,
                            dropped,
                            applied@,
                        ) =~= done + (seq![trimmed@] + rewritten(
                            all.skip(i as int),
                            ov,
                            dropped,
                            applied@,
                        )));
                    }
                }
            }
        }
    }
    assert(all.len() == lines@.len());
    let mut k: usize = 0;
    while k < overrides.len()
        invariant
            k <= overrides@.len(),
            ov == override_views(overrides@),
            applied@.len() == overrides@.len(),
            total == text::string_views(output@) + unapplied(ov, applied@, k as int),
        decreases overrides@.len() - k,
    {
        let ghost done = text::string_views(output@);
        if !applied[k] {
            let line = overrides[k].1.clone();
            output.push(line);
            proof {
                assert(ov[k as int].1 == overrides@[k as int].1@);
                assert(text::string_views(output@) =~= done.push(ov[k as int].1));
                assert(text::string_views(output@) + unapplied(ov, applied@, k + 1) =~= done + (
                seq![ov[k as int].1] + unapplied(ov, applied@, k + 1)));
            }
        }
        k = k + 1;
    }
    assert(text::string_views(output@) + Seq::<Seq<char>>::empty() == text::string_views(output@));
    text::join(&output, "\n")
}

// ---------------------------------------------------------------------------
// Laws
// ---------------------------------------------------------------------------

/// What `override_for` finds.
pub proof fn lemma_override_for(overrides: Seq<(Seq<char>, Seq<char>)>, key: Seq<char>)
    ensures
        override_for(overrides, key) <= overrides.len(),
        forall|j: int|
            0 <= j < override_for(overrides, key) ==> !text::same_ignoring_case(
                key,
                #[trigger] overrides[j].0,
            ),
        override_for(overrides, key) < overrides.len() ==> text::same_ignoring_case(
            key,
            overrides[override_for(overrides, key) as int].0,
        ),
    decreases overrides.len(),
{
    if overrides.len() > 0 && !text::same_ignoring_case(key, overrides[0].0) {
        let rest = overrides.drop_first();
        lemma_override_for(rest, key);
        assert forall|j: int| 0 <= j < override_for(overrides, key) implies !text::same_ignoring_case(
            key,
            #[trigger] overrides[j].0,
        ) by {
            if j > 0 {
                assert(overrides[j] == rest[j - 1]);
            }
        }
    }
}

/// The lines of the overrides that are not applied yet hold the one at position `i`.
proof fn lemma_unapplied_holds(
    overrides: Seq<(Seq<char>, Seq<char>)>,
    applied: Seq<bool>,
    from: int,
    i: int,
)
    requires
        0 <= from <= i < overrides.len(),
        !applied[i],
    ensures
        unapplied(overrides, applied, from).contains(overrides[i].1),
    decreases i - from,
{
    let out = unapplied(overrides, applied, from);
    if from == i {
        assert(out[0] == overrides[i].1);
    } else {
        lemma_unapplied_holds(overrides, applied, from + 1, i);
        let rest = unapplied(overrides, applied, from + 1);
        let k = choose|k: int| 0 <= k < rest.len() && rest[k] == overrides[i].1;
        if !applied[from] {
            assert(out[k + 1] == rest[k]);
        }
    }
}

/// Each override that is not applied yet stands in the rewritten lines.
pub proof fn law_rewriting_applies_overrides(
    lines: Seq<Seq<char>>,
    overrides: Seq<(Seq<char>, Seq<char>)>,
    dropped: Seq<Seq<char>>,
    applied: Seq<bool>,
    i: int,
)
    requires
        applied.len() == overrides.len(),
        0 <= i < overrides.len(),
        !applied[i],
    ensures
        rewritten(lines, overrides, dropped, applied).contains(overrides[i].1),
    decreases lines.len(),
{
    let out = rewritten(lines, overrides, dropped, applied);
    if lines.len() == 0 {
        lemma_unapplied_holds(overrides, applied, 0, i);
    } else {
        let line = text::trimmed(lines[0]);
        let rest = lines.drop_first();
        let key = settings::line_key(line);
        let m = override_for(overrides, key) as int;
        if line.len() == 0 || is_among(key, dropped) || (m < overrides.len() && applied[m]) {
            law_rewriting_applies_overrides(rest, overrides, dropped, applied, i);
        } else if m >= overrides.len() {
            law_rewriting_applies_overrides(rest, overrides, dropped, applied, i);
            let tail = rewritten(rest, overrides, dropped, applied);
            let k = choose|k: int| 0 <= k < tail.len() && tail[k] == overrides[i].1;
            assert(out[k + 1] == tail[k]);
        } else if m == i {
            assert(out[0] == overrides[i].1);
        } else {
            let next = applied.update(m, true);
            law_rewriting_applies_overrides(rest, overrides, dropped, next, i);
            let tail = rewritten(rest, overrides, dropped, next);
            let k = choose|k: int| 0 <= k < tail.len() && tail[k] == overrides[i].1;
            assert(out[k + 1] == tail[k]);
        }
    }
}

/// Whether `line` is the line of an override.
pub open spec fn is_override_line(
    line: Seq<char>,
    overrides: Seq<(Seq<char>, Seq<char>)>,
) -> bool {
    exists|i: int| 0 <= i < overrides.len() && line == (#[trigger] overrides[i]).1
}

/// Whether `line` is a line that stays as it is: one of `lines`, trimmed and not empty, whose
/// setting is neither left out nor overridden.
pub open spec fn is_kept_line(
    line: Seq<char>,
    lines: Seq<Seq<char>>,
    overrides: Seq<(Seq<char>, Seq<char>)>,
    dropped: Seq<Seq<char>>,
) -> bool {
    &&& exists|j: int| 0 <= j < lines.len() && line == text::trimmed(#[trigger] lines[j])
    &&& line.len() > 0
    &&& !is_among(settings::line_key(line), dropped)
    &&& override_for(overrides, settings::line_key(line)) >= overrides.len()
}

proof fn lemma_unapplied_lines(
    overrides: Seq<(Seq<char>, Seq<char>)>,
    applied: Seq<bool>,
    from: int,
    p: int,
)
    requires
        0 <= from,
        0 <= p < unapplied(overrides, applied, from).len(),
    ensures
        is_override_line(unapplied(overrides, applied, from)[p], overrides),
    decreases overrides.len() - from,
{
    let out = unapplied(overrides, applied, from);
    if from < overrides.len() {
        if applied[from] {
            lemma_unapplied_lines(overrides, applied, from + 1, p);
        } else if p > 0 {
            lemma_unapplied_lines(overrides, applied, from + 1, p - 1);
            assert(out[p] == unapplied(overrides, applied, from + 1)[p - 1]);
        } else {
            assert(out[0] == overrides[from].1);
        }
    }
}

/// Each of the rewritten lines is the line of an override, or a line that stays as it is: no
/// setting that is left out remains, and none that is overridden keeps its old line.
pub proof fn law_rewriting_keeps_nothing_else(
    lines: Seq<Seq<char>>,
    overrides: Seq<(Seq<char>, Seq<char>)>,
    dropped: Seq<Seq<char>>,
    applied: Seq<bool>,
    p: int,
)
    requires
        0 <= p < rewritten(lines, overrides, dropped, applied).len(),
    ensures
        is_override_line(rewritten(lines, overrides, dropped, applied)[p], overrides)
            || is_kept_line(
            rewritten(lines, overrides, dropped, applied)[p],
            lines,
            overrides,
            dropped,
        ),
    decreases lines.len(),
{
    let out = rewritten(lines, overrides, dropped, applied);
    if lines.len() == 0 {
        lemma_unapplied_lines(overrides, applied, 0, p);
    } else {
        let line = text::trimmed(lines[0]);
        let rest = lines.drop_first();
        let key = settings::line_key(line);
        let m = override_for(overrides, key) as int;
        let skipped = line.len() == 0 || is_among(key, dropped) || (m < overrides.len()
            && applied[m]);
        let next = if skipped || m >= overrides.len() {
            applied
        } else {
            applied.update(m, true)
        };
        let tail = rewritten(rest, overrides, dropped, next);
        if !skipped && p == 0 {
            if m < overrides.len() {
                assert(out[0] == overrides[m].1);
            } else {
                assert(out[0] == text::trimmed(lines[0]));
            }
        } else {
            let q = if skipped {
                p
            } else {
                p - 1
            };
            assert(out[p] == tail[q]);
            law_rewriting_keeps_nothing_else(rest, overrides, dropped, next, q);
            if is_kept_line(tail[q], rest, overrides, dropped) {
                let j = choose|j: int|
                    0 <= j < rest.len() && tail[q] == text::trimmed(#[trigger] rest[j]);
                assert(lines[j + 1] == rest[j]);
            }
        }
    }
}

/// Whether the line of each override is taken for a line of that override: the names differ, and
/// each line sets its name.
pub open spec fn are_overrides(overrides: Seq<(Seq<char>, Seq<char>)>) -> bool {
    forall|i: int|
        0 <= i < overrides.len() ==> override_for(
            overrides,
            settings::line_key((#[trigger] overrides[i]).1),
        ) == i
}

/// Overrides with different names, each of which sets its name, are taken for themselves.
pub proof fn lemma_are_overrides(overrides: Seq<(Seq<char>, Seq<char>)>)
    requires
        forall|i: int|
            0 <= i < overrides.len() ==> settings::line_key((#[trigger] overrides[i]).1)
                == overrides[i].0,
        forall|i: int, j: int|
            0 <= i < j < overrides.len() ==> !text::same_ignoring_case(
                (#[trigger] overrides[i]).0,
                (#[trigger] overrides[j]).0,
            ),
    ensures
        are_overrides(overrides),
{
    assert forall|i: int| 0 <= i < overrides.len() implies override_for(
        overrides,
        settings::line_key((#[trigger] overrides[i]).1),
    ) == i by {
        let k = override_for(overrides, overrides[i].0) as int;
        lemma_override_for(overrides, overrides[i].0);
        if k < i {
            assert(text::same_ignoring_case(overrides[k].0, overrides[i].0));
        } else if k > i {
            assert(!text::same_ignoring_case(overrides[i].0, overrides[i].0));
        }
    }
}

/// The override that a line belongs to.
pub(crate) open spec fn owner(overrides: Seq<(Seq<char>, Seq<char>)>, line: Seq<char>) -> nat {
    override_for(overrides, settings::line_key(line))
}

/// The lines of the overrides that are not applied yet belong to such overrides, in rising order.
proof fn lemma_unapplied_owners(
    overrides: Seq<(Seq<char>, Seq<char>)>,
    applied: Seq<bool>,
    from: int,
)
    requires
        are_overrides(overrides),
        0 <= from,
    ensures
        forall|p: int|
            0 <= p < unapplied(overrides, applied, from).len() ==> {
                let k = #[trigger] owner(overrides, unapplied(overrides, applied, from)[p]);
                from <= k < overrides.len() && !applied[k as int]
            },
        forall|p: int, q: int|
            0 <= p < q < unapplied(overrides, applied, from).len() ==> #[trigger] owner(
                overrides,
                unapplied(overrides, applied, from)[p],
            ) < #[trigger] owner(overrides, unapplied(overrides, applied, from)[q]),
    decreases overrides.len() - from,
{
    let out = unapplied(overrides, applied, from);
    if from < overrides.len() {
        let rest = unapplied(overrides, applied, from + 1);
        lemma_unapplied_owners(overrides, applied, from + 1);
        if !applied[from] {
            assert(out[0] == overrides[from].1);
            assert forall|p: int| 0 <= p < out.len() implies {
                let k = #[trigger] owner(overrides, out[p]);
                from <= k < overrides.len() && !applied[k as int]
            } by {
                if p > 0 {
                    assert(out[p] == rest[p - 1]);
                }
            }
            assert forall|p: int, q: int| 0 <= p < q < out.len() implies #[trigger] owner(
                overrides,
                out[p],
            ) < #[trigger] owner(overrides, out[q]) by {
                assert(out[q] == rest[q - 1]);
                if p > 0 {
                    assert(out[p] == rest[p - 1]);
                }
            }
        }
    }
}

/// The rewritten lines hold no line of an override that is applied already.
proof fn lemma_applied_gone(
    lines: Seq<Seq<char>>,
    overrides: Seq<(Seq<char>, Seq<char>)>,
    dropped: Seq<Seq<char>>,
    applied: Seq<bool>,
    p: int,
)
    requires
        are_overrides(overrides),
        applied.len() == overrides.len(),
        0 <= p < rewritten(lines, overrides, dropped, applied).len(),
    ensures
        ({
            let k = owner(overrides, rewritten(lines, overrides, dropped, applied)[p]);
            k < overrides.len() ==> !applied[k as int]
        }),
    decreases lines.len(),
{
    let out = rewritten(lines, overrides, dropped, applied);
    if lines.len() == 0 {
        lemma_unapplied_owners(overrides, applied, 0);
        assert(owner(overrides, out[p]) >= 0);
    } else {
        let line = text::trimmed(lines[0]);
        let rest = lines.drop_first();
        let key = settings::line_key(line);
        let m = override_for(overrides, key) as int;
        let skipped = line.len() == 0 || is_among(key, dropped) || (m < overrides.len()
            && applied[m]);
        let next = if skipped || m >= overrides.len() {
            applied
        } else {
            applied.update(m, true)
        };
        let tail = rewritten(rest, overrides, dropped, next);
        if !skipped && p == 0 {
            if m < overrides.len() {
                assert(out[0] == overrides[m].1);
            } else {
                assert(out[0] == line);
            }
        } else {
            let q = if skipped {
                p
            } else {
                p - 1
            };
            assert(out[p] == tail[q]);
            lemma_applied_gone(rest, overrides, dropped, next, q);
        }
    }
}

/// No overridden setting is set twice by the rewritten lines.
pub proof fn law_rewriting_sets_once(
    lines: Seq<Seq<char>>,
    overrides: Seq<(Seq<char>, Seq<char>)>,
    dropped: Seq<Seq<char>>,
    applied: Seq<bool>,
    p: int,
    q: int,
)
    requires
        are_overrides(overrides),
        applied.len() == overrides.len(),
        0 <= p < q < rewritten(lines, overrides, dropped, applied).len(),
    ensures
        ({
            let out = rewritten(lines, overrides, dropped, applied);
            let k = override_for(overrides, settings::line_key(out[p]));
            k < overrides.len() ==> override_for(overrides, settings::line_key(out[q])) != k
        }),
    decreases lines.len(),
{
    let out = rewritten(lines, overrides, dropped, applied);
    if lines.len() == 0 {
        lemma_unapplied_owners(overrides, applied, 0);
        assert(owner(overrides, out[p]) < owner(overrides, out[q]));
    } else {
        let line = text::trimmed(lines[0]);
        let rest = lines.drop_first();
        let key = settings::line_key(line);
        let m = override_for(overrides, key) as int;
        let skipped = line.len() == 0 || is_among(key, dropped) || (m < overrides.len()
            && applied[m]);
        let next = if skipped || m >= overrides.len() {
            applied
        } else {
            applied.update(m, true)
        };
        let tail = rewritten(rest, overrides, dropped, next);
        if !skipped && p == 0 {
            assert(out[q] == tail[q - 1]);
            if m < overrides.len() {
                assert(out[0] == overrides[m].1);
                lemma_applied_gone(rest, overrides, dropped, next, q - 1);
                assert(owner(overrides, out[q]) != m);
            } else {
                assert(out[0] == line);
            }
        } else {
            let d: int = if skipped {
                0
            } else {
                1
            };
            assert(out[p] == tail[p - d]);
            assert(out[q] == tail[q - d]);
            law_rewriting_sets_once(rest, overrides, dropped, next, p - d, q - d);
        }
    }
}

/// Whether the override `o` is a line that sets its name as a reader of settings takes it.
pub open spec fn sets_its_name(o: (Seq<char>, Seq<char>)) -> bool {
    &&& o.1.len() > 0
    &&& text::trimmed(o.1) == o.1
    &&& text::split_first(o.1, ':') matches Some((name, _)) && text::same_ignoring_case(name, o.0)
}

/// The value on the line `line`.
pub open spec fn value_on(line: Seq<char>) -> Seq<char> {
    match text::split_first(line, ':') {
        Some((_, rest)) => settings::value_part(rest),
        None => line,
    }
}

/// White space is kept by changing the case of letters.
proof fn lemma_lower_keeps_space(c: char)
    ensures
        text::is_white_space(text::lower(c)) == text::is_white_space(c),
{
    text::lemma_char_bound(c);
}

/// A name that is `key`, whatever the case of its letters, has no white space around it where
/// `key` has none.
proof fn lemma_name_not_trimmed(name: Seq<char>, key: Seq<char>)
    requires
        text::same_ignoring_case(name, key),
        key.len() > 0,
        !text::is_white_space(key[0]),
        !text::is_white_space(key.last()),
    ensures
        text::trimmed(name) == name,
{
    assert(text::lowered(name).len() == name.len());
    assert(text::lowered(key).len() == key.len());
    let n = key.len() - 1;
    assert(text::lowered(name)[0] == text::lower(name[0]));
    assert(text::lowered(key)[0] == text::lower(key[0]));
    assert(text::lowered(name)[n] == text::lower(name[n]));
    assert(text::lowered(key)[n] == text::lower(key[n]));
    lemma_lower_keeps_space(name[0]);
    lemma_lower_keeps_space(key[0]);
    lemma_lower_keeps_space(name[n]);
    lemma_lower_keeps_space(key[n]);
    text::lemma_trimmed_keeps(name, |c: char| text::is_white_space(c));
}

/// A setting that is overridden, and that could be read before, reads as the override says.
pub proof fn law_rewritten_setting_reads_back(
    lines: Seq<Seq<char>>,
    overrides: Seq<(Seq<char>, Seq<char>)>,
    dropped: Seq<Seq<char>>,
    applied: Seq<bool>,
    m: int,
)
    requires
        applied.len() == overrides.len(),
        0 <= m < overrides.len(),
        !applied[m],
        overrides[m].0.len() > 0,
        !text::is_white_space(overrides[m].0[0]),
        !text::is_white_space(overrides[m].0.last()),
        !is_among(overrides[m].0, dropped),
        forall|i: int| 0 <= i < overrides.len() ==> sets_its_name(#[trigger] overrides[i]),
        forall|i: int|
            0 <= i < overrides.len() && i != m ==> !text::same_ignoring_case(
                (#[trigger] overrides[i]).0,
                overrides[m].0,
            ),
        settings::setting_in(lines, overrides[m].0) is Some,
    ensures
        settings::setting_in(rewritten(lines, overrides, dropped, applied), overrides[m].0) == Some(
            value_on(overrides[m].1),
        ),
    decreases lines.len(),
{
    let key = overrides[m].0;
    let out = rewritten(lines, overrides, dropped, applied);
    let line = text::trimmed(lines[0]);
    let rest = lines.drop_first();
    let lkey = settings::line_key(line);
    let k = override_for(overrides, lkey) as int;
    let kept = rewritten(rest, overrides, dropped, applied);
    if line.len() == 0 {
        law_rewritten_setting_reads_back(rest, overrides, dropped, applied, m);
    } else {
        assert(text::split_first(line, ':') is Some);
        let (name, tail) = text::split_first(line, ':')->0;
        assert(name == text::before(line, ':'));
        lemma_override_for(overrides, lkey);
        let found = text::same_ignoring_case(name, key);
        if found {
            lemma_name_not_trimmed(name, key);
            assert(lkey == name);
            assert(k <= m) by {
                if k > m {
                    assert(!text::same_ignoring_case(lkey, overrides[m].0));
                }
            }
            assert(k == m) by {
                assert(text::same_ignoring_case(lkey, overrides[k].0));
            }
            if is_among(lkey, dropped) {
                let i = choose|i: int|
                    0 <= i < dropped.len() && text::same_ignoring_case(lkey, #[trigger] dropped[i]);
                assert(text::same_ignoring_case(key, dropped[i]));
            }
        }
        if is_among(lkey, dropped) {
            law_rewritten_setting_reads_back(rest, overrides, dropped, applied, m);
        } else if k >= overrides.len() {
            law_rewritten_setting_reads_back(rest, overrides, dropped, applied, m);
            text::lemma_trimmed_props(lines[0], |c: char| text::is_white_space(c));
            text::lemma_trimmed_keeps(line, |c: char| text::is_white_space(c));
            assert(out[0] == line);
            assert(out.drop_first() == kept);
        } else if applied[k] {
            law_rewritten_setting_reads_back(rest, overrides, dropped, applied, m);
        } else {
            let next = applied.update(k, true);
            assert(sets_its_name(overrides[k]));
            assert(out[0] == overrides[k].1);
            assert(out.drop_first() == rewritten(rest, overrides, dropped, next));
            if k != m {
                law_rewritten_setting_reads_back(rest, overrides, dropped, next, m);
            }
        }
    }
}

/// Whether the trimmed line `line` stays as it is: it is not empty, and its setting is neither left
/// out nor overridden.
pub open spec fn stays(
    line: Seq<char>,
    overrides: Seq<(Seq<char>, Seq<char>)>,
    dropped: Seq<Seq<char>>,
) -> bool {
    &&& line.len() > 0
    &&& !is_among(settings::line_key(line), dropped)
    &&& override_for(overrides, settings::line_key(line)) >= overrides.len()
}

/// The lines of `lines` that stay, trimmed and in their order.
pub open spec fn staying(
    lines: Seq<Seq<char>>,
    overrides: Seq<(Seq<char>, Seq<char>)>,
    dropped: Seq<Seq<char>>,
) -> Seq<Seq<char>>
    decreases lines.len(),
{
    if lines.len() == 0 {
        seq![]
    } else {
        let line = text::trimmed(lines[0]);
        let rest = staying(lines.drop_first(), overrides, dropped);
        if stays(line, overrides, dropped) {
            seq![line] + rest
        } else {
            rest
        }
    }
}

/// The lines of `lines` whose settings are not overridden, in their order.
pub open spec fn not_overridden(
    lines: Seq<Seq<char>>,
    overrides: Seq<(Seq<char>, Seq<char>)>,
) -> Seq<Seq<char>>
    decreases lines.len(),
{
    if lines.len() == 0 {
        seq![]
    } else {
        let rest = not_overridden(lines.drop_first(), overrides);
        if override_for(overrides, settings::line_key(lines[0])) >= overrides.len() {
            seq![lines[0]] + rest
        } else {
            rest
        }
    }
}

/// Lines of overrides alone leave no other line.
proof fn lemma_only_overrides(
    lines: Seq<Seq<char>>,
    overrides: Seq<(Seq<char>, Seq<char>)>,
)
    requires
        forall|p: int|
            0 <= p < lines.len() ==> #[trigger] owner(overrides, lines[p]) < overrides.len(),
    ensures
        not_overridden(lines, overrides) == Seq::<Seq<char>>::empty(),
    decreases lines.len(),
{
    if lines.len() > 0 {
        let rest = lines.drop_first();
        assert(owner(overrides, lines[0]) < overrides.len());
        assert forall|p: int| 0 <= p < rest.len() implies #[trigger] owner(overrides, rest[p])
            < overrides.len() by {
            assert(rest[p] == lines[p + 1]);
            assert(owner(overrides, lines[p + 1]) < overrides.len());
        }
        lemma_only_overrides(rest, overrides);
    }
}

/// Beside the lines of the overrides, the rewritten lines are exactly those that stay, in their
/// order.
pub proof fn law_rewriting_keeps_other_lines(
    lines: Seq<Seq<char>>,
    overrides: Seq<(Seq<char>, Seq<char>)>,
    dropped: Seq<Seq<char>>,
    applied: Seq<bool>,
)
    requires
        are_overrides(overrides),
        applied.len() == overrides.len(),
    ensures
        not_overridden(rewritten(lines, overrides, dropped, applied), overrides) == staying(
            lines,
            overrides,
            dropped,
        ),
    decreases lines.len(),
{
    let out = rewritten(lines, overrides, dropped, applied);
    if lines.len() == 0 {
        lemma_unapplied_owners(overrides, applied, 0);
        lemma_only_overrides(out, overrides);
    } else {
        let line = text::trimmed(lines[0]);
        let rest = lines.drop_first();
        let key = settings::line_key(line);
        let m = override_for(overrides, key) as int;
        if line.len() == 0 || is_among(key, dropped) || (m < overrides.len() && applied[m]) {
            law_rewriting_keeps_other_lines(rest, overrides, dropped, applied);
        } else if m >= overrides.len() {
            law_rewriting_keeps_other_lines(rest, overrides, dropped, applied);
            assert(out[0] == line);
            assert(out.drop_first() == rewritten(rest, overrides, dropped, applied));
        } else {
            let next = applied.update(m, true);
            law_rewriting_keeps_other_lines(rest, overrides, dropped, next);
            assert(out[0] == overrides[m].1);
            assert(out.drop_first() == rewritten(rest, overrides, dropped, next));
        }
    }
}

/// Where all overrides are applied, none is left.
proof fn lemma_all_applied(
    overrides: Seq<(Seq<char>, Seq<char>)>,
    applied: Seq<bool>,
    from: int,
)
    requires
        0 <= from,
        forall|i: int| 0 <= i < overrides.len() ==> #[trigger] applied[i],
    ensures
        unapplied(overrides, applied, from) == Seq::<Seq<char>>::empty(),
    decreases overrides.len() - from,
{
    if from < overrides.len() {
        assert(applied[from]);
        lemma_all_applied(overrides, applied, from + 1);
    }
}

/// Whether nothing is left to do on `line`: it is trimmed, it is not empty, its setting is not left
/// out, and where its setting is overridden, it is the line of the override.
pub(crate) open spec fn is_settled(
    line: Seq<char>,
    overrides: Seq<(Seq<char>, Seq<char>)>,
    dropped: Seq<Seq<char>>,
) -> bool {
    &&& line.len() > 0
    &&& text::trimmed(line) == line
    &&& !is_among(settings::line_key(line), dropped)
    &&& owner(overrides, line) < overrides.len() ==> line == overrides[owner(
        overrides,
        line,
    ) as int].1
}

/// Lines on which nothing is left to do, and which hold the overrides once each, stay as they are.
proof fn lemma_settled(
    lines: Seq<Seq<char>>,
    overrides: Seq<(Seq<char>, Seq<char>)>,
    dropped: Seq<Seq<char>>,
    applied: Seq<bool>,
)
    requires
        are_overrides(overrides),
        applied.len() == overrides.len(),
        forall|p: int|
            0 <= p < lines.len() ==> is_settled(#[trigger] lines[p], overrides, dropped),
        forall|p: int|
            0 <= p < lines.len() && #[trigger] owner(overrides, lines[p]) < overrides.len()
                ==> !applied[owner(overrides, lines[p]) as int],
        forall|p: int, q: int|
            0 <= p < q < lines.len() && #[trigger] owner(overrides, lines[p]) < overrides.len()
                ==> #[trigger] owner(overrides, lines[q]) != owner(overrides, lines[p]),
        forall|i: int|
            0 <= i < overrides.len() && !applied[i] ==> lines.contains((#[trigger] overrides[i]).1),
    ensures
        rewritten(lines, overrides, dropped, applied) == lines,
    decreases lines.len(),
{
    if lines.len() == 0 {
        assert forall|i: int| 0 <= i < overrides.len() implies #[trigger] applied[i] by {
            if !applied[i] {
                assert(lines.contains(overrides[i].1));
            }
        }
        lemma_all_applied(overrides, applied, 0);
        assert(lines == Seq::<Seq<char>>::empty());
    } else {
        let first = lines[0];
        let rest = lines.drop_first();
        let m = owner(overrides, first) as int;
        let next = if m < overrides.len() {
            applied.update(m, true)
        } else {
            applied
        };
        assert(is_settled(first, overrides, dropped));
        assert(m < overrides.len() ==> !applied[m]);
        assert forall|p: int| 0 <= p < rest.len() implies is_settled(
            #[trigger] rest[p],
            overrides,
            dropped,
        ) by {
            assert(rest[p] == lines[p + 1]);
        }
        assert forall|p: int|
            0 <= p < rest.len() && #[trigger] owner(overrides, rest[p])
                < overrides.len() implies !next[owner(overrides, rest[p]) as int] by {
            assert(rest[p] == lines[p + 1]);
            assert(!applied[owner(overrides, lines[p + 1]) as int]);
            assert(m < overrides.len() ==> owner(overrides, lines[p + 1]) != owner(
                overrides,
                lines[0],
            ));
        }
        assert forall|p: int, q: int|
            0 <= p < q < rest.len() && #[trigger] owner(overrides, rest[p])
                < overrides.len() implies #[trigger] owner(overrides, rest[q]) != owner(
            overrides,
            rest[p],
        ) by {
            assert(rest[p] == lines[p + 1] && rest[q] == lines[q + 1]);
            assert(owner(overrides, lines[q + 1]) != owner(overrides, lines[p + 1]));
        }
        assert forall|i: int| 0 <= i < overrides.len() && !next[i] implies rest.contains(
            (#[trigger] overrides[i]).1,
        ) by {
            assert(lines.contains(overrides[i].1));
            let p = choose|p: int| 0 <= p < lines.len() && lines[p] == overrides[i].1;
            assert(owner(overrides, overrides[i].1) == i);
            assert(p > 0);
            assert(rest[p - 1] == overrides[i].1);
        }
        lemma_settled(rest, overrides, dropped, next);
        assert(seq![first] + rest == lines);
    }
}

/// Whether the overrides are lines that rewriting neither changes nor leaves out: each is a trimmed
/// line that sets its name, the names differ, and none is left out.
pub open spec fn are_lasting(
    overrides: Seq<(Seq<char>, Seq<char>)>,
    dropped: Seq<Seq<char>>,
) -> bool {
    &&& are_overrides(overrides)
    &&& forall|i: int|
        0 <= i < overrides.len() ==> is_lasting((#[trigger] overrides[i]).1, dropped)
}

/// Whether `line` is a trimmed line whose setting is not left out.
pub open spec fn is_lasting(line: Seq<char>, dropped: Seq<Seq<char>>) -> bool {
    &&& line.len() > 0
    &&& text::is_line(line)
    &&& text::trimmed(line) == line
    &&& !is_among(settings::line_key(line), dropped)
}

/// The lines of the rewritten text: nothing is left to do on them, and they are read as lines.
pub(crate) proof fn lemma_rewritten_lines(
    content: Seq<char>,
    overrides: Seq<(Seq<char>, Seq<char>)>,
    dropped: Seq<Seq<char>>,
)
    requires
        are_lasting(overrides, dropped),
    ensures
        ({
            let out = rewritten(
                text::lines_of(content),
                overrides,
                dropped,
                none_applied(overrides.len()),
            );
            &&& text::lines_of(rewritten_text(content, overrides, dropped)) == out
            &&& forall|p: int|
                0 <= p < out.len() ==> is_settled(#[trigger] out[p], overrides, dropped)
        }),
{
    let old = text::lines_of(content);
    let start = none_applied(overrides.len());
    let out = rewritten(old, overrides, dropped, start);
    text::lemma_lines_hold_no_feed(content);
    assert forall|p: int| 0 <= p < out.len() implies is_settled(
        #[trigger] out[p],
        overrides,
        dropped,
    ) && text::is_line(out[p]) by {
        law_rewriting_keeps_nothing_else(old, overrides, dropped, start, p);
        if is_override_line(out[p], overrides) {
            let i = choose|i: int| 0 <= i < overrides.len() && out[p] == (#[trigger] overrides[i]).1;
            assert(is_lasting(overrides[i].1, dropped));
            assert(owner(overrides, overrides[i].1) == i);
        } else {
            let j = choose|j: int| 0 <= j < old.len() && out[p] == text::trimmed(#[trigger] old[j]);
            text::lemma_trimmed_is_line(old[j]);
        }
    }
    text::law_joined_lines_read_back(out);
}

/// The rewritten text has the line of each override, and no other line for that setting; no line
/// sets a setting that is left out; the other lines are exactly those that stay, in their order.
pub proof fn law_rewritten_text_lines(
    content: Seq<char>,
    overrides: Seq<(Seq<char>, Seq<char>)>,
    dropped: Seq<Seq<char>>,
)
    requires
        are_lasting(overrides, dropped),
    ensures
        ({
            let out = text::lines_of(rewritten_text(content, overrides, dropped));
            &&& forall|i: int|
                0 <= i < overrides.len() ==> out.contains((#[trigger] overrides[i]).1)
            &&& forall|p: int, i: int|
                0 <= p < out.len() && 0 <= i < overrides.len() && override_for(
                    overrides,
                    settings::line_key(#[trigger] out[p]),
                ) == i ==> out[p] == (#[trigger] overrides[i]).1
            &&& forall|p: int, q: int|
                0 <= p < q < out.len() && override_for(
                    overrides,
                    settings::line_key(#[trigger] out[p]),
                ) < overrides.len() ==> override_for(overrides, settings::line_key(out[p]))
                    != override_for(overrides, settings::line_key(#[trigger] out[q]))
            &&& forall|p: int|
                0 <= p < out.len() ==> !is_among(settings::line_key(#[trigger] out[p]), dropped)
            &&& not_overridden(out, overrides) == staying(
                text::lines_of(content),
                overrides,
                dropped,
            )
        }),
{
    let old = text::lines_of(content);
    let start = none_applied(overrides.len());
    let out = text::lines_of(rewritten_text(content, overrides, dropped));
    lemma_rewritten_lines(content, overrides, dropped);
    law_rewriting_keeps_other_lines(old, overrides, dropped, start);
    assert forall|i: int| 0 <= i < overrides.len() implies out.contains(
        (#[trigger] overrides[i]).1,
    ) by {
        law_rewriting_applies_overrides(old, overrides, dropped, start, i);
    }
    assert forall|p: int, i: int|
        0 <= p < out.len() && 0 <= i < overrides.len() && override_for(
            overrides,
            settings::line_key(#[trigger] out[p]),
        ) == i implies out[p] == (#[trigger] overrides[i]).1 by {
        assert(is_settled(out[p], overrides, dropped));
        assert(owner(overrides, out[p]) == i);
    }
    assert forall|p: int, q: int|
        0 <= p < q < out.len() && override_for(overrides, settings::line_key(#[trigger] out[p]))
            < overrides.len() implies override_for(overrides, settings::line_key(out[p]))
        != override_for(overrides, settings::line_key(#[trigger] out[q])) by {
        law_rewriting_sets_once(old, overrides, dropped, start, p, q);
    }
    assert forall|p: int| 0 <= p < out.len() implies !is_among(
        settings::line_key(#[trigger] out[p]),
        dropped,
    ) by {
        assert(is_settled(out[p], overrides, dropped));
    }
}

/// Rewriting a text that was rewritten changes nothing.
pub proof fn law_rewriting_again_changes_nothing(
    content: Seq<char>,
    overrides: Seq<(Seq<char>, Seq<char>)>,
    dropped: Seq<Seq<char>>,
)
    requires
        are_lasting(overrides, dropped),
    ensures
        rewritten_text(rewritten_text(content, overrides, dropped), overrides, dropped)
            == rewritten_text(content, overrides, dropped),
{
    let old = text::lines_of(content);
    let start = none_applied(overrides.len());
    let out = rewritten(old, overrides, dropped, start);
    lemma_rewritten_lines(content, overrides, dropped);
    assert forall|p: int, q: int|
        0 <= p < q < out.len() && #[trigger] owner(overrides, out[p])
            < overrides.len() implies #[trigger] owner(overrides, out[q]) != owner(
        overrides,
        out[p],
    ) by {
        law_rewriting_sets_once(old, overrides, dropped, start, p, q);
    }
    assert forall|i: int| 0 <= i < overrides.len() && !start[i] implies out.contains(
        (#[trigger] overrides[i]).1,
    ) by {
        law_rewriting_applies_overrides(old, overrides, dropped, start, i);
    }
    lemma_settled(out, overrides, dropped, start);
}

} // verus!
