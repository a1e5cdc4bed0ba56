//! What is promised of what the user is shown.

use vstd::prelude::*;

use crate::amend::AmendedView;
use crate::commands;
use crate::config;
use crate::config::ConfigView;
use crate::execution::OutcomeView;
use crate::forge::{PrState, PrView};
use crate::land::RepairView;
use crate::laws::listing;
use crate::paint;
use crate::patch::PatchOutcomeView;
use crate::session;
use crate::stack::{Dep, StackView};
use crate::status;
use crate::status::{ColumnsView, Drawing, StatusView, Widths};
use crate::tape;
use crate::tape::{RequestView, TapeView};
use crate::text;

verus! {

/// All warnings are shown, in their order and on standard error, each in a line of its
/// own behind the word `warning:`.
pub proof fn law_all_warnings_are_shown(t: TapeView, warnings: Seq<Seq<char>>, k: int)
    requires
        0 <= k <= warnings.len(),
    ensures
        session::warned_from(t, warnings, k, false).1 is Ok ==> session::warned_from(
            t,
            warnings,
            k,
            false,
        ).0.asked == t.asked + Seq::new(
            (warnings.len() - k) as nat,
            |i: int|
                RequestView::PrintError { text: "warning:"@ + " "@ + warnings[k + i] + "\n"@ },
        ),
    decreases warnings.len() - k,
{
    let all = Seq::new(
        (warnings.len() - k) as nat,
        |i: int| RequestView::PrintError { text: "warning:"@ + " "@ + warnings[k + i] + "\n"@ },
    );
    if k < warnings.len() {
        let q = RequestView::PrintError { text: session::warning_line(warnings[k], false) };
        let (t1, r) = tape::ask_unit(t, q);
        if r is Ok {
            law_all_warnings_are_shown(t1, warnings, k + 1);
            assert(session::warned_from(t, warnings, k, false) == session::warned_from(
                t1,
                warnings,
                k + 1,
                false,
            ));
            let rest = Seq::new(
                (warnings.len() - (k + 1)) as nat,
                |i: int|
                    RequestView::PrintError {
                        text: "warning:"@ + " "@ + warnings[k + 1 + i] + "\n"@,
                    },
            );
            assert(t.asked.push(q) + rest =~= t.asked + all);
        }
    } else {
        assert(t.asked + all =~= t.asked);
    }
}

/// All lines are shown, in their order and on standard output.
pub proof fn law_all_lines_are_shown(t: TapeView, lines: Seq<Seq<char>>, k: int)
    requires
        0 <= k <= lines.len(),
    ensures
        session::said_from(t, lines, k).1 is Ok ==> session::said_from(t, lines, k).0.asked
            == t.asked + Seq::new(
            (lines.len() - k) as nat,
            |i: int| RequestView::Print { text: lines[k + i] },
        ),
    decreases lines.len() - k,
{
    let all = Seq::new(
        (lines.len() - k) as nat,
        |i: int| RequestView::Print { text: lines[k + i] },
    );
    if k < lines.len() {
        let q = RequestView::Print { text: lines[k] };
        let (t1, r) = session::said(t, lines[k]);
        if r is Ok {
            law_all_lines_are_shown(t1, lines, k + 1);
            assert(session::said_from(t, lines, k) == session::said_from(t1, lines, k + 1));
            let rest = Seq::new(
                (lines.len() - (k + 1)) as nat,
                |i: int| RequestView::Print { text: lines[k + 1 + i] },
            );
            assert(t.asked.push(q) + rest =~= t.asked + all);
        }
    } else {
        assert(t.asked + all =~= t.asked);
    }
}

/// Without colours, the line of a new pull request gives its number, the subject of its
/// layer and the address of its page.
pub proof fn law_new_pull_request_is_shown(c: ConfigView, s: StackView, o: OutcomeView)
    requires
        o.index < s.layers.len(),
    ensures
        ({
            let line = session::created_line(c, s, o, false);
            &&& listing::holds(line, "#"@ + text::decimal(o.number as nat))
            &&& listing::holds(line, s.layers[o.index as int].message.subject)
            &&& listing::holds(line, config::pr_url(c, o.number))
        }),
{
    let line = session::created_line(c, s, o, false);
    let number = "#"@ + text::decimal(o.number as nat);
    let subject = s.layers[o.index as int].message.subject;
    let url = config::pr_url(c, o.number);
    let a = "  "@ + "○"@ + " "@;
    assert(line =~= a + number + ("  "@ + subject + "  "@ + url + "\n"@));
    assert(line =~= (a + number + "  "@) + subject + ("  "@ + url + "\n"@));
    assert(line =~= (a + number + "  "@ + subject + "  "@) + url + "\n"@);
}

/// The address of a pull request on the web names the repository and the number.
pub proof fn law_page_is_that_of_the_pull_request(c: ConfigView, number: u64)
    ensures
        config::pr_url(c, number) == "https://github.com/"@ + c.owner + "/"@ + c.repo + "/pull/"@
            + text::decimal(number as nat),
        listing::holds(config::pr_url(c, number), c.owner + "/"@ + c.repo),
{
    let url = config::pr_url(c, number);
    assert(url =~= "https://github.com/"@ + (c.owner + "/"@ + c.repo) + ("/pull/"@ + text::decimal(
        number as nat,
    )));
}

/// Each changed message is shown in a line of its own, with the number of its pull request
/// and with the old subject before the new one.
pub proof fn law_changed_messages_are_shown(changed: Seq<AmendedView>, i: int)
    requires
        0 <= i < changed.len(),
    ensures
        commands::amended_lines(changed).len() == changed.len(),
        listing::holds(
            commands::amended_lines(changed)[i],
            "#"@ + text::decimal(changed[i].number as nat),
        ),
        listing::holds(
            commands::amended_lines(changed)[i],
            changed[i].old_subject + " -> "@ + changed[i].new_subject,
        ),
{
    let a = changed[i];
    let line = commands::amended_lines(changed)[i];
    let number = "#"@ + text::decimal(a.number as nat);
    let words = a.old_subject + " -> "@ + a.new_subject;
    reveal_strlit("  #");
    reveal_strlit("  ");
    reveal_strlit("#");
    assert("  #"@ =~= "  "@ + "#"@);
    assert(line =~= "  "@ + number + ("  "@ + words + "\n"@));
    assert(line =~= ("  "@ + number + "  "@) + words + "\n"@);
}

/// The line of a repaired pull request gives its number, and names the trunk exactly where
/// that is its base now.
pub proof fn law_repair_is_shown(repair: RepairView, trunk: Seq<char>)
    ensures
        ({
            let line = commands::repair_line(repair, trunk);
            let name = "#"@ + text::decimal(repair.number as nat);
            &&& listing::holds(line, name)
            &&& repair.retargeted ==> listing::holds(line, "retargeted → "@ + trunk)
            &&& !repair.retargeted ==> line == "  repaired "@ + name + "\n"@
        }),
{
    let line = commands::repair_line(repair, trunk);
    let name = "#"@ + text::decimal(repair.number as nat);
    reveal_strlit("  repaired #");
    reveal_strlit("  repaired ");
    reveal_strlit("#");
    reveal_strlit(" (retargeted → ");
    reveal_strlit(" (");
    reveal_strlit("retargeted → ");
    assert("  repaired #"@ =~= "  repaired "@ + "#"@);
    assert(" (retargeted → "@ =~= " ("@ + "retargeted → "@);
    if repair.retargeted {
        assert(line =~= "  repaired "@ + name + (" (retargeted → "@ + trunk + ")\n"@));
        assert(line =~= ("  repaired "@ + name + " ("@) + ("retargeted → "@ + trunk) + ")\n"@);
    } else {
        assert(line =~= "  repaired "@ + name + "\n"@);
        assert(line =~= "  repaired "@ + name + ("\n"@));
    }
}

/// After a `patch` the user is told of the branch and of how many commits it has, that it
/// was checked out exactly if it was, and that the pull request is merged or closed
/// exactly if it is.
pub proof fn law_patch_is_shown(o: PatchOutcomeView)
    ensures
        ({
            let lines = commands::patch_lines(o, false);
            &&& lines.len() == 1 + (if o.checked_out {
                1int
            } else {
                0
            }) + (if o.target_state == PrState::Open {
                0int
            } else {
                1
            })
            &&& listing::holds(lines[0], o.branch)
            &&& listing::holds(lines[0], text::decimal(o.commits.len()) + " commit"@)
            &&& o.checked_out ==> lines[1] == "Checked out "@ + o.branch + ".\n"@
            &&& o.target_state == PrState::Merged ==> lines.last()
                == "Note: pull request is already merged."@ + "\n"@
            &&& o.target_state == PrState::Closed ==> lines.last()
                == "Note: pull request was closed without merging."@ + "\n"@
        }),
{
    let lines = commands::patch_lines(o, false);
    let count = text::decimal(o.commits.len());
    let end = if o.commits.len() == 1 {
        ""@
    } else {
        "s"@
    };
    assert(lines[0] =~= "Created branch "@ + o.branch + (" with "@ + count + " commit"@ + end
        + ".\n"@));
    assert(lines[0] =~= ("Created branch "@ + o.branch + " with "@) + (count + " commit"@) + (end
        + ".\n"@));
}

/// What the base of a layer should be: the trunk where it sits on the trunk, and otherwise
/// the branch of the pull request below, which is named by its number.
pub proof fn law_wanted_base_is_what_the_layer_sits_on(
    c: ConfigView,
    s: StackView,
    prs: Seq<Option<PrView>>,
    i: int,
)
    ensures
        s.layers[i].dep == Dep::Main ==> status::wanted(c, s, prs, i) == (c.trunk, c.trunk),
        s.layers[i].dep matches Dep::Layer(j) ==> (prs[j as int] matches Some(pr)
            ==> s.layers[j as int].pr == Some(pr.number) ==> status::wanted(c, s, prs, i) == (
            pr.head,
            "#"@ + text::decimal(pr.number as nat),
        )),
{
}

proof fn lemma_filled_holds(text: Seq<char>, taken: usize, columns: usize, side: paint::Side)
    ensures
        listing::holds(paint::filled_up(text, taken, columns, side), text),
{
    let empty = Seq::<char>::empty();
    let all = paint::filled_up(text, taken, columns, side);
    if taken >= columns {
        assert(all =~= empty + text + empty);
    } else {
        let gap = paint::spaces((columns - taken) as nat);
        assert(all =~= empty + text + gap || all =~= gap + text + empty);
        assert(listing::holds(empty + text + gap, text));
        assert(listing::holds(gap + text + empty, text));
    }
}

proof fn lemma_rows(
    st: StatusView,
    c: ColumnsView,
    w: Widths,
    how: Drawing,
    n: int,
    out: Seq<char>,
    i: int,
)
    requires
        0 <= i < n,
    ensures
        listing::holds(status::rows_down(st, c, w, how, n, out), status::row(st, c, w, how, i)),
        i + 1 < n ==> listing::holds(
            status::rows_down(st, c, w, how, n, out),
            status::row(st, c, w, how, i + 1) + status::row(st, c, w, how, i),
        ),
    decreases n,
{
    let empty = Seq::<char>::empty();
    let top = status::row(st, c, w, how, n - 1);
    if i == n - 1 {
        lemma_rows_start(st, c, w, how, n - 1, out + top);
        let rest = choose|rest: Seq<char>|
            status::rows_down(st, c, w, how, n - 1, out + top) == #[trigger] (out + top + rest);
        assert(listing::holds(out + top + rest, top));
    } else {
        lemma_rows(st, c, w, how, n - 1, out + top, i);
        if i + 1 == n - 1 {
            let next = status::row(st, c, w, how, n - 2);
            let begun = out + top + next;
            lemma_rows_start(st, c, w, how, n - 2, begun);
            let rest = choose|rest: Seq<char>|
                status::rows_down(st, c, w, how, n - 2, begun) == #[trigger] (begun + rest);
            assert(begun + rest =~= out + (top + next) + rest);
            assert(listing::holds(out + (top + next) + rest, top + next));
        }
    }
}

proof fn lemma_rows_start(
    st: StatusView,
    c: ColumnsView,
    w: Widths,
    how: Drawing,
    n: int,
    out: Seq<char>,
)
    ensures
        exists|rest: Seq<char>|
            status::rows_down(st, c, w, how, n, out) == #[trigger] (out + rest),
    decreases n,
{
    let empty = Seq::<char>::empty();
    if n <= 0 {
        assert(out =~= out + empty);
    } else {
        let top = status::row(st, c, w, how, n - 1);
        lemma_rows_start(st, c, w, how, n - 1, out + top);
        let rest = choose|rest: Seq<char>|
            status::rows_down(st, c, w, how, n - 1, out + top) == #[trigger] (out + top + rest);
        assert(out + top + rest =~= out + (top + rest));
    }
}

/// A row from its parts, seen from each of them.
proof fn lemma_parts(
    glyph: Seq<char>,
    shown: Seq<char>,
    stated: Seq<char>,
    badged: Seq<char>,
    subject: Seq<char>,
    gap: Seq<char>,
    end: Seq<char>,
)
    ensures
        ({
            let row = gap + glyph + gap + shown + gap + stated + badged + gap + subject + end;
            &&& row == (gap + glyph + gap) + shown + (gap + stated + badged + gap + subject + end)
            &&& row == (gap + glyph + gap + shown + gap) + stated + (badged + gap + subject + end)
            &&& row == (gap + glyph + gap + shown + gap + stated) + badged + (gap + subject + end)
            &&& row == (gap + glyph + gap + shown + gap + stated + badged + gap) + subject + end
        }),
{
    let row = gap + glyph + gap + shown + gap + stated + badged + gap + subject + end;
    assert(row =~= (gap + glyph + gap) + shown + (gap + stated + badged + gap + subject + end));
    assert(row =~= (gap + glyph + gap + shown + gap) + stated + (badged + gap + subject + end));
    assert(row =~= (gap + glyph + gap + shown + gap + stated) + badged + (gap + subject + end));
}

/// Without colours, the row of a layer holds its cells.
proof fn lemma_row(
    st: StatusView,
    outcomes: Option<Seq<OutcomeView>>,
    c: ColumnsView,
    w: Widths,
    how: Drawing,
    i: int,
)
    requires
        0 <= i < st.layers.len(),
        !how.use_color,
        c == status::columns_of(st, outcomes, how),
    ensures
        ({
            let row = status::row(st, c, w, how, i);
            &&& listing::holds(row, status::number_cell(st.layers[i], outcomes, how))
            &&& listing::holds(row, status::state_cell(st.layers[i], outcomes, how))
            &&& how.term_width is None ==> listing::holds(row, st.layers[i].subject)
            &&& w.badges > 0 ==> listing::holds(
                row,
                status::badges_cell(st.trunk, st.layers[i], outcomes, how),
            )
        }),
{
    let layer = st.layers[i];
    let row = status::row(st, c, w, how, i);
    let number = status::number_cell(layer, outcomes, how);
    let state = status::state_cell(layer, outcomes, how);
    let badges = status::badges_cell(st.trunk, layer, outcomes, how);
    assert(c.numbers[i] == number && c.states[i] == state && c.badges[i] == badges);
    let glyph = c.glyphs[i];
    let shown = status::number_shown(layer, number, w, how);
    let stated = paint::padded(state, w.state, paint::Side::Left);
    let badged = status::badges_shown(badges, w);
    let subject = status::subject_shown(layer, w, how);
    let gap = "  "@;
    let end = "\n"@;
    lemma_parts(glyph, shown, stated, badged, subject, gap, end);
    lemma_filled_holds(number, paint::displayed_width(number), w.number, paint::Side::Right);
    lemma_filled_holds(state, paint::displayed_width(state), w.state, paint::Side::Left);
    listing::lemma_holds_in(
        gap + glyph + gap,
        shown,
        gap + stated + badged + gap + subject + end,
        number,
    );
    listing::lemma_holds_in(
        gap + glyph + gap + shown + gap,
        stated,
        badged + gap + subject + end,
        state,
    );
    if w.badges > 0 {
        let filled = paint::padded(badges, w.badges, paint::Side::Left);
        let empty = Seq::<char>::empty();
        lemma_filled_holds(badges, paint::displayed_width(badges), w.badges, paint::Side::Left);
        listing::lemma_holds_in(gap, filled, empty, badges);
        assert(gap + filled + empty =~= badged);
        listing::lemma_holds_in(
            gap + glyph + gap + shown + gap + stated,
            badged,
            gap + subject + end,
            badges,
        );
    }
}

/// The table shows every layer, from the top of the stack down, and the trunk at its end.
/// Without colours, the row of a layer holds the number of its pull request, the word for
/// its state, its badges and, where the terminal has no end, its subject.
pub proof fn law_table_shows_every_layer(
    st: StatusView,
    outcomes: Option<Seq<OutcomeView>>,
    how: Drawing,
    i: int,
)
    requires
        0 <= i < st.layers.len(),
        !how.use_color,
    ensures
        ({
            let c = status::columns_of(st, outcomes, how);
            let w = status::widths_of(c);
            let table = status::table(st, outcomes, how);
            let row = status::row(st, c, w, how, i);
            &&& listing::holds(table, row)
            &&& i + 1 < st.layers.len() ==> listing::holds(
                table,
                status::row(st, c, w, how, i + 1) + row,
            )
            &&& text::ends_with(table, st.trunk + "\n"@)
            &&& listing::holds(row, status::number_cell(st.layers[i], outcomes, how))
            &&& listing::holds(row, status::state_cell(st.layers[i], outcomes, how))
            &&& how.term_width is None ==> listing::holds(row, st.layers[i].subject)
            &&& w.badges > 0 ==> listing::holds(
                row,
                status::badges_cell(st.trunk, st.layers[i], outcomes, how),
            )
            &&& st.layers[i].number matches Some(n) ==> status::number_cell(
                st.layers[i],
                outcomes,
                how,
            ) == "#"@ + text::decimal(n as nat)
        }),
{
    let empty = Seq::<char>::empty();
    let c = status::columns_of(st, outcomes, how);
    let w = status::widths_of(c);
    let n = st.layers.len() as int;
    let row = status::row(st, c, w, how, i);
    let rows = status::rows_down(st, c, w, how, n, empty);
    let last = status::trunk_row(st.trunk, how);
    let table = status::table(st, outcomes, how);
    lemma_rows(st, c, w, how, n, empty, i);
    listing::lemma_holds_in(empty, rows, last, row);
    assert(empty + rows + last =~= table);
    if i + 1 < n {
        listing::lemma_holds_in(
            empty,
            rows,
            last,
            status::row(st, c, w, how, i + 1) + row,
        );
    }
    let end = st.trunk + "\n"@;
    assert(last.skip(last.len() - end.len()) =~= end);
    assert(table.skip(table.len() - end.len()) =~= last.skip(last.len() - end.len()));
    lemma_row(st, outcomes, c, w, how, i);
}

} // verus!
