//! The whole run over in-memory inputs: each configured panel's sample
//! files are folded into one shared tally, and the tally becomes the
//! output table.

use vstd::prelude::*;
use crate::aggregate::{aggregate_panel, count_opened, files_ok, line_ok, tally_after_files};
use crate::parse::{all_digits, digits_val, frac_den, frac_num, is_frac, parse_frac, parse_u32};
use crate::record::{th_wf, trim_bytes, trim_spec, CallerFormat, Thresholds};
use crate::report::{build_report, report_text};
use crate::tally::{copy_vec, Tally, TallyView};

verus! {

/// One configured panel: its name, its caller format, and its sample
/// files, each either opened (split into lines) or not opened at all.
pub struct PanelInput {
    pub name: Vec<u8>,
    pub fmt: CallerFormat,
    pub files: Vec<Option<Vec<Vec<u8>>>>,
}

/// The tally after the given panels, processed in order; `first` is the
/// panel column of the first one.
pub open spec fn tally_after_panels(
    t: TallyView,
    panels: Seq<PanelInput>,
    th: Thresholds,
    first: int,
    n_panels: nat,
) -> TallyView
    decreases panels.len(),
{
    if panels.len() == 0 {
        t
    } else {
        tally_after_panels(
            tally_after_files(
                t,
                panels[0].files.deep_view(),
                panels[0].fmt,
                th,
                first,
                n_panels,
            ),
            panels.skip(1),
            th,
            first + 1,
            n_panels,
        )
    }
}

/// Every opened file of every panel is well formed.
pub open spec fn panels_ok(panels: Seq<PanelInput>) -> bool {
    forall|i: int|
        0 <= i < panels.len() ==> files_ok((#[trigger] panels[i]).files.deep_view(), panels[i].fmt)
}

/// The panels' names, in order.
pub open spec fn panel_names(panels: Seq<PanelInput>) -> Seq<Seq<u8>> {
    Seq::new(panels.len(), |i: int| panels[i].name@)
}

/// Each panel's count of opened sample files, in order.
pub open spec fn spec_sample_counts(panels: Seq<PanelInput>) -> Seq<u32> {
    Seq::new(panels.len(), |i: int| count_opened(panels[i].files.deep_view()) as u32)
}

/// The position of the first malformed record line of a run.
#[derive(Clone, Copy, PartialEq, Eq, Structural, Debug)]
pub struct RunError {
    pub panel: usize,
    pub sample: usize,
    pub line: usize,
}

/// `e` points at a real malformed line: an opened file of a real panel,
/// and a line in it that neither is a header nor extracts.
pub open spec fn err_witness(panels: Seq<PanelInput>, e: RunError) -> bool {
    &&& (e.panel as int) < panels.len()
    &&& (e.sample as int) < panels[e.panel as int].files.deep_view().len()
    &&& match panels[e.panel as int].files.deep_view()[e.sample as int] {
        Some(lines) => (e.line as int) < lines.len() && !line_ok(
            lines[e.line as int],
            panels[e.panel as int].fmt,
        ),
        None => false,
    }
}

/// Run the whole aggregation and build the output table; fail on the
/// first malformed record line, with its position.
pub fn run(panels: &Vec<PanelInput>, th: &Thresholds) -> (r: Result<Vec<u8>, RunError>)
    requires
        th_wf(*th),
        forall|i: int| 0 <= i < panels@.len() ==> (#[trigger] panels@[i]).files@.len() <= u32::MAX,
    ensures
        match r {
            Ok(out) => panels_ok(panels@) && out@ == report_text(
                tally_after_panels(Seq::empty(), panels@, *th, 0, panels@.len() as nat),
                panel_names(panels@),
                spec_sample_counts(panels@),
            ),
            Err(e) => !panels_ok(panels@) && err_witness(panels@, e),
        },
{
    let n = panels.len();
    let mut tally = Tally::new(n);
    let mut names: Vec<Vec<u8>> = Vec::new();
    let mut sample_counts: Vec<u32> = Vec::new();
    let mut pi: usize = 0;
    proof {
        assert(panels@.skip(0) =~= panels@);
    }
    while pi < n
        invariant
            0 <= pi <= n,
            n == panels@.len(),
            th_wf(*th),
            forall|i: int|
                0 <= i < panels@.len() ==> (#[trigger] panels@[i]).files@.len() <= u32::MAX,
            tally.wf(),
            tally.panel_count() == n,
            names@.len() == pi,
            sample_counts@.len() == pi,
            forall|i: int| 0 <= i < pi ==> (#[trigger] names@[i])@ == panels@[i].name@,
            forall|i: int|
                0 <= i < pi ==> (#[trigger] sample_counts@[i]) as int == count_opened(
                    panels@[i].files.deep_view(),
                ),
            forall|i: int|
                0 <= i < pi ==> files_ok((#[trigger] panels@[i]).files.deep_view(), panels@[i].fmt),
            tally_after_panels(Seq::empty(), panels@, *th, 0, n as nat) == tally_after_panels(
                tally@,
                panels@.skip(pi as int),
                *th,
                pi as int,
                n as nat,
            ),
        decreases n - pi,
    {
        proof {
            assert(panels@.skip(pi as int)[0] == panels@[pi as int]);
            assert(panels@.skip(pi as int).skip(1) =~= panels@.skip(pi + 1));
        }
        let p = &panels[pi];
        match aggregate_panel(&mut tally, &p.files, p.fmt, th, pi) {
            Ok(cnt) => {
                names.push(copy_vec(&p.name));
                sample_counts.push(cnt);
            },
            Err(m) => {
                proof {
                    assert(!files_ok(panels@[pi as int].files.deep_view(), panels@[pi as int].fmt));
                }
                return Err(RunError { panel: pi, sample: m.sample, line: m.line });
            },
        }
        pi = pi + 1;
    }
    let out = build_report(&tally, &names, &sample_counts);
    proof {
        assert(panels@.skip(n as int) =~= Seq::<PanelInput>::empty());
        assert forall|i: int| 0 <= i < n implies names.deep_view()[i] == panel_names(panels@)[i] by {
            assert(names@[i].deep_view() =~= names@[i]@);
        }
        assert(names.deep_view() =~= panel_names(panels@));
        assert(sample_counts@ =~= spec_sample_counts(panels@));
    }
    Ok(out)
}

/// The given text is a nonempty digit string whose value fits in `u32`.
pub open spec fn u32_text(s: Seq<u8>) -> bool {
    s.len() > 0 && all_digits(s) && digits_val(s) <= u32::MAX
}

/// The given text is a decimal fraction literal of at most 19 bytes.
pub open spec fn frac_text(s: Seq<u8>) -> bool {
    is_frac(s) && s.len() <= 19
}

/// Parse the three threshold arguments as the command line hands them,
/// each trimmed first: support and depth as unsigned integers, frequency
/// as a decimal fraction. `None` exactly when one of them is malformed.
pub fn parse_thresholds(support: &Vec<u8>, freq: &Vec<u8>, depth: &Vec<u8>) -> (r: Option<
    Thresholds,
>)
    ensures
        r is Some <==> (u32_text(trim_spec(support@)) && frac_text(trim_spec(freq@)) && u32_text(
            trim_spec(depth@),
        )),
        match r {
            Some(th) => {
                &&& th_wf(th)
                &&& th.min_support == digits_val(trim_spec(support@))
                &&& th.min_freq.num == frac_num(trim_spec(freq@))
                &&& th.min_freq.den == frac_den(trim_spec(freq@))
                &&& th.min_depth == digits_val(trim_spec(depth@))
            },
            None => true,
        },
{
    let ts = trim_bytes(support);
    let tf = trim_bytes(freq);
    let td = trim_bytes(depth);
    let s = parse_u32(&ts);
    let f = parse_frac(&tf);
    let d = parse_u32(&td);
    match (s, f, d) {
        (Some(min_support), Some(min_freq), Some(min_depth)) => Some(
            Thresholds { min_support, min_freq, min_depth },
        ),
        _ => None,
    }
}

} // verus!
