//! Library-wide laws, stated over the same spec functions the contracts
//! use and proved from them.

use vstd::prelude::*;
use crate::aggregate::{line_passes, tally_after_files, tally_after_line, tally_after_lines};
use crate::parse::frac_ge;
use crate::record::{is_header, line_fields, line_key, spec_extract, CallerFormat, Thresholds};
use crate::run::{panel_names, spec_sample_counts, tally_after_panels, PanelInput};
use crate::report::{fields_text, joined, ratio_text, report_text};
use crate::tally::{
    bump_counts, key_index, lemma_key_index_props, spec_bump, zero_counts, KeyView, Tally,
    TallyView,
};

verus! {

/// A record line counts toward the tally exactly when each of its
/// extracted support, frequency and depth stands at or above its bound;
/// equality passes, strictly below fails.
pub proof fn lemma_filter_boundary(
    line: Seq<u8>,
    fmt: CallerFormat,
    th: Thresholds,
    d: int,
    s: int,
    fnum: int,
    fden: int,
)
    requires
        spec_extract(line_fields(line), fmt) == Some((d, s, fnum, fden)),
        !is_header(line),
    ensures
        line_passes(line, fmt, th) <==> (s >= th.min_support && frac_ge(
            fnum,
            fden,
            th.min_freq.num as int,
            th.min_freq.den as int,
        ) && d >= th.min_depth),
{
}

/// Key `k` heads some row of the tally.
pub open spec fn key_seen(t: TallyView, k: KeyView) -> bool {
    exists|i: int| 0 <= i < t.len() && (#[trigger] t[i]).0 == k
}

proof fn lemma_bump_keys(t: TallyView, k: KeyView, p: int, n: nat, k2: KeyView)
    ensures
        key_seen(spec_bump(t, k, p, n), k2) <==> (key_seen(t, k2) || k2 == k),
{
    lemma_key_index_props(t, k);
    let i = key_index(t, k);
    if i < 0 {
        let r = t.push((k, zero_counts(n).update(p, 1u32)));
        if key_seen(r, k2) {
            let j = choose|j: int| 0 <= j < r.len() && (#[trigger] r[j]).0 == k2;
            if j < t.len() {
                assert(t[j].0 == k2);
            } else {
                assert(k2 == k);
            }
        }
        if key_seen(t, k2) {
            let j = choose|j: int| 0 <= j < t.len() && (#[trigger] t[j]).0 == k2;
            assert(r[j].0 == k2);
        }
        if k2 == k {
            assert(r[t.len() as int].0 == k2);
        }
    } else {
        let r = t.update(i, (k, bump_counts(t[i].1, p)));
        assert(r[i].0 == k && k == t[i].0);
        if key_seen(r, k2) {
            let j = choose|j: int| 0 <= j < r.len() && (#[trigger] r[j]).0 == k2;
            assert(t[j].0 == k2);
        }
        if key_seen(t, k2) {
            let j = choose|j: int| 0 <= j < t.len() && (#[trigger] t[j]).0 == k2;
            assert(r[j].0 == k2);
        }
    }
}

/// Some pass-filter line of the file (when it was opened) carries key `k`.
pub open spec fn file_has_pass_key(
    file: Option<Seq<Seq<u8>>>,
    fmt: CallerFormat,
    th: Thresholds,
    k: KeyView,
) -> bool {
    match file {
        Some(lines) => exists|li: int|
            0 <= li < lines.len() && line_passes(#[trigger] lines[li], fmt, th) && line_key(
                lines[li],
            ) == k,
        None => false,
    }
}

proof fn lemma_lines_keys(
    t: TallyView,
    lines: Seq<Seq<u8>>,
    fmt: CallerFormat,
    th: Thresholds,
    panel: int,
    n: nat,
    k: KeyView,
)
    ensures
        key_seen(tally_after_lines(t, lines, fmt, th, panel, n), k) <==> (key_seen(t, k)
            || file_has_pass_key(Some(lines), fmt, th, k)),
    decreases lines.len(),
{
    if lines.len() == 0 {
    } else {
        let t1 = tally_after_line(t, lines[0], fmt, th, panel, n);
        if line_passes(lines[0], fmt, th) {
            lemma_bump_keys(t, line_key(lines[0]), panel, n, k);
        }
        lemma_lines_keys(t1, lines.skip(1), fmt, th, panel, n, k);
        let res = tally_after_lines(t, lines, fmt, th, panel, n);
        if key_seen(res, k) && !key_seen(t, k) {
            if key_seen(t1, k) {
                assert(line_passes(lines[0], fmt, th) && line_key(lines[0]) == k);
            } else {
                let li = choose|li: int|
                    0 <= li < lines.skip(1).len() && line_passes(
                        #[trigger] lines.skip(1)[li],
                        fmt,
                        th,
                    ) && line_key(lines.skip(1)[li]) == k;
                assert(lines.skip(1)[li] == lines[li + 1]);
                assert(line_passes(lines[li + 1], fmt, th) && line_key(lines[li + 1]) == k);
            }
        }
        if key_seen(t, k) {
            if line_passes(lines[0], fmt, th) {
                assert(key_seen(t1, k));
            } else {
                assert(t1 == t);
            }
        }
        if file_has_pass_key(Some(lines), fmt, th, k) {
            let li = choose|li: int|
                0 <= li < lines.len() && line_passes(#[trigger] lines[li], fmt, th) && line_key(
                    lines[li],
                ) == k;
            if li == 0 {
                assert(key_seen(t1, k));
            } else {
                assert(lines.skip(1)[li - 1] == lines[li]);
                assert(file_has_pass_key(Some(lines.skip(1)), fmt, th, k));
            }
        }
    }
}

proof fn lemma_files_keys(
    t: TallyView,
    files: Seq<Option<Seq<Seq<u8>>>>,
    fmt: CallerFormat,
    th: Thresholds,
    panel: int,
    n: nat,
    k: KeyView,
)
    ensures
        key_seen(tally_after_files(t, files, fmt, th, panel, n), k) <==> (key_seen(t, k) || exists|
            si: int,
        | 0 <= si < files.len() && file_has_pass_key(#[trigger] files[si], fmt, th, k)),
    decreases files.len(),
{
    if files.len() == 0 {
    } else {
        let t1 = match files[0] {
            Some(lines) => tally_after_lines(t, lines, fmt, th, panel, n),
            None => t,
        };
        match files[0] {
            Some(lines) => {
                lemma_lines_keys(t, lines, fmt, th, panel, n, k);
            },
            None => {},
        }
        lemma_files_keys(t1, files.skip(1), fmt, th, panel, n, k);
        let res = tally_after_files(t, files, fmt, th, panel, n);
        if key_seen(res, k) && !key_seen(t, k) {
            if key_seen(t1, k) {
                assert(file_has_pass_key(files[0], fmt, th, k));
            } else {
                let si = choose|si: int|
                    0 <= si < files.skip(1).len() && file_has_pass_key(
                        #[trigger] files.skip(1)[si],
                        fmt,
                        th,
                        k,
                    );
                assert(files.skip(1)[si] == files[si + 1]);
                assert(file_has_pass_key(files[si + 1], fmt, th, k));
            }
        }
        if key_seen(t, k) {
            assert(key_seen(t1, k));
        }
        if exists|si: int| 0 <= si < files.len() && file_has_pass_key(
            #[trigger] files[si],
            fmt,
            th,
            k,
        ) {
            let si = choose|si: int|
                0 <= si < files.len() && file_has_pass_key(#[trigger] files[si], fmt, th, k);
            if si == 0 {
                assert(key_seen(t1, k));
            } else {
                assert(files.skip(1)[si - 1] == files[si]);
            }
        }
    }
}

/// Some pass-filter record of the panel carries key `k`.
pub open spec fn panel_has_pass_key(p: PanelInput, th: Thresholds, k: KeyView) -> bool {
    exists|si: int|
        0 <= si < p.files.deep_view().len() && file_has_pass_key(
            #[trigger] p.files.deep_view()[si],
            p.fmt,
            th,
            k,
        )
}

/// Some pass-filter record of some panel carries key `k`.
pub open spec fn seen_in_panels(panels: Seq<PanelInput>, th: Thresholds, k: KeyView) -> bool {
    exists|pi: int| 0 <= pi < panels.len() && panel_has_pass_key(#[trigger] panels[pi], th, k)
}

proof fn lemma_panels_keys(
    t: TallyView,
    panels: Seq<PanelInput>,
    th: Thresholds,
    first: int,
    n: nat,
    k: KeyView,
)
    ensures
        key_seen(tally_after_panels(t, panels, th, first, n), k) <==> (key_seen(t, k)
            || seen_in_panels(panels, th, k)),
    decreases panels.len(),
{
    if panels.len() == 0 {
    } else {
        let t1 = tally_after_files(
            t,
            panels[0].files.deep_view(),
            panels[0].fmt,
            th,
            first,
            n,
        );
        lemma_files_keys(t, panels[0].files.deep_view(), panels[0].fmt, th, first, n, k);
        lemma_panels_keys(t1, panels.skip(1), th, first + 1, n, k);
        let res = tally_after_panels(t, panels, th, first, n);
        if key_seen(res, k) && !key_seen(t, k) {
            if key_seen(t1, k) {
                assert(panel_has_pass_key(panels[0], th, k));
            } else {
                let pi = choose|pi: int|
                    0 <= pi < panels.skip(1).len() && panel_has_pass_key(
                        #[trigger] panels.skip(1)[pi],
                        th,
                        k,
                    );
                assert(panels.skip(1)[pi] == panels[pi + 1]);
                assert(panel_has_pass_key(panels[pi + 1], th, k));
            }
        }
        if key_seen(t, k) {
            assert(key_seen(t1, k));
        }
        if seen_in_panels(panels, th, k) {
            let pi = choose|pi: int|
                0 <= pi < panels.len() && panel_has_pass_key(#[trigger] panels[pi], th, k);
            if pi == 0 {
                assert(key_seen(t1, k));
            } else {
                assert(panels.skip(1)[pi - 1] == panels[pi]);
            }
        }
    }
}

/// Every variant key carried by a pass-filter record of any panel heads
/// exactly one row of the final tally, and no other key heads any.
pub proof fn lemma_rows_exactly_once(t: Tally, panels: Seq<PanelInput>, th: Thresholds, k: KeyView)
    requires
        t.wf(),
        t@ == tally_after_panels(Seq::empty(), panels, th, 0, t.panel_count()),
    ensures
        key_seen(t@, k) <==> seen_in_panels(panels, th, k),
        forall|i: int, j: int|
            0 <= i < t@.len() && 0 <= j < t@.len() && (#[trigger] t@[i]).0 == k && (
            #[trigger] t@[j]).0 == k ==> i == j,
{
    lemma_panels_keys(Seq::empty(), panels, th, 0, t.panel_count(), k);
    assert(!key_seen(Seq::empty(), k));
    t.lemma_distinct_keys();
    assert forall|i: int, j: int|
        0 <= i < t@.len() && 0 <= j < t@.len() && (#[trigger] t@[i]).0 == k && (#[trigger] t@[j]).0
            == k implies i == j by {
        if i < j {
            assert(t@[i].0 != t@[j].0);
        }
        if j < i {
            assert(t@[j].0 != t@[i].0);
        }
    }
}

/// The ratio columns of a row are exactly the per-panel texts
/// `ratio_text(count, sampleCount)`, joined with tabs; a panel that never
/// produced the variant keeps count zero and prints as "0".
pub proof fn lemma_ratio_columns(counts: Seq<u32>, samples: Seq<u32>)
    requires
        counts.len() == samples.len(),
    ensures
        fields_text(counts, samples) == joined(
            Seq::new(counts.len(), |p: int| ratio_text(counts[p] as nat, samples[p] as nat)),
            9,
        ),
        forall|s: nat| ratio_text(0, s) == seq![48u8],
    decreases counts.len(),
{
    let m = Seq::new(counts.len(), |p: int| ratio_text(counts[p] as nat, samples[p] as nat));
    if counts.len() == 0 {
    } else if counts.len() == 1 {
        assert(joined(m, 9) == m[0]);
    } else {
        lemma_ratio_columns(counts.skip(1), samples.skip(1));
        let m1 = Seq::new(
            counts.skip(1).len(),
            |p: int| ratio_text(counts.skip(1)[p] as nat, samples.skip(1)[p] as nat),
        );
        assert(m.skip(1) =~= m1);
        assert(joined(m, 9) == m[0] + seq![9u8] + joined(m.skip(1), 9));
    }
}

/// Re-running over identical inputs yields the byte-identical table: the
/// output is a function of the panel inputs and thresholds alone.
pub proof fn lemma_run_deterministic(
    out1: Seq<u8>,
    out2: Seq<u8>,
    panels: Seq<PanelInput>,
    th: Thresholds,
)
    requires
        out1 == report_text(
            tally_after_panels(Seq::empty(), panels, th, 0, panels.len() as nat),
            panel_names(panels),
            spec_sample_counts(panels),
        ),
        out2 == report_text(
            tally_after_panels(Seq::empty(), panels, th, 0, panels.len() as nat),
            panel_names(panels),
            spec_sample_counts(panels),
        ),
    ensures
        out1 == out2,
{
}

} // verus!
