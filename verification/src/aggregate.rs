//! Folding one panel's sample files into the shared tally: every
//! non-header line is extracted, filtered against the thresholds, and a
//! pass-filter record raises its variant's counter for the panel.

use vstd::prelude::*;
use crate::record::{
    extract, is_header, line_fields, line_key, passes, passes_exec, spec_extract, split_bytes,
    th_wf, trim_bytes, CallerFormat, Thresholds,
};
use crate::tally::{copy_vec, spec_bump, Tally, TallyView, VariantKey};

verus! {

/// A record line is a header or one the extractor understands.
pub open spec fn line_ok(line: Seq<u8>, fmt: CallerFormat) -> bool {
    is_header(line) || spec_extract(line_fields(line), fmt) is Some
}

/// Every line of one opened sample file is a header or well formed.
pub open spec fn file_ok(lines: Seq<Seq<u8>>, fmt: CallerFormat) -> bool {
    forall|i: int| 0 <= i < lines.len() ==> line_ok(#[trigger] lines[i], fmt)
}

/// Every opened file of the list is well formed.
pub open spec fn files_ok(files: Seq<Option<Seq<Seq<u8>>>>, fmt: CallerFormat) -> bool {
    forall|i: int|
        0 <= i < files.len() ==> match #[trigger] files[i] {
            Some(lines) => file_ok(lines, fmt),
            None => true,
        }
}

/// A record line counts: it is no header, it extracts, and the extracted
/// support, frequency and depth meet the thresholds.
pub open spec fn line_passes(line: Seq<u8>, fmt: CallerFormat, th: Thresholds) -> bool {
    &&& !is_header(line)
    &&& match spec_extract(line_fields(line), fmt) {
        Some(v) => passes(v.0, v.1, v.2, v.3, th),
        None => false,
    }
}

/// The tally after one record line of panel `panel`.
pub open spec fn tally_after_line(
    t: TallyView,
    line: Seq<u8>,
    fmt: CallerFormat,
    th: Thresholds,
    panel: int,
    n_panels: nat,
) -> TallyView {
    if line_passes(line, fmt, th) {
        spec_bump(t, line_key(line), panel, n_panels)
    } else {
        t
    }
}

/// The tally after the lines of one sample file, in order.
pub open spec fn tally_after_lines(
    t: TallyView,
    lines: Seq<Seq<u8>>,
    fmt: CallerFormat,
    th: Thresholds,
    panel: int,
    n_panels: nat,
) -> TallyView
    decreases lines.len(),
{
    if lines.len() == 0 {
        t
    } else {
        tally_after_lines(
            tally_after_line(t, lines[0], fmt, th, panel, n_panels),
            lines.skip(1),
            fmt,
            th,
            panel,
            n_panels,
        )
    }
}

/// The tally after one panel's sample files, in list order; a file that
/// could not be opened contributes nothing.
pub open spec fn tally_after_files(
    t: TallyView,
    files: Seq<Option<Seq<Seq<u8>>>>,
    fmt: CallerFormat,
    th: Thresholds,
    panel: int,
    n_panels: nat,
) -> TallyView
    decreases files.len(),
{
    if files.len() == 0 {
        t
    } else {
        let t1 = match files[0] {
            Some(lines) => tally_after_lines(t, lines, fmt, th, panel, n_panels),
            None => t,
        };
        tally_after_files(t1, files.skip(1), fmt, th, panel, n_panels)
    }
}

/// How many files of the list were opened.
pub open spec fn count_opened(files: Seq<Option<Seq<Seq<u8>>>>) -> int
    decreases files.len(),
{
    if files.len() == 0 {
        0
    } else {
        (if files[0] is Some {
            1int
        } else {
            0int
        }) + count_opened(files.skip(1))
    }
}

pub proof fn lemma_count_opened_bounds(files: Seq<Option<Seq<Seq<u8>>>>)
    ensures
        0 <= count_opened(files) <= files.len(),
    decreases files.len(),
{
    if files.len() > 0 {
        lemma_count_opened_bounds(files.skip(1));
    }
}

/// The position of the first malformed record line: which sample file of
/// the panel's list, and which line within it.
#[derive(Clone, Copy, PartialEq, Eq, Structural, Debug)]
pub struct MalformedLine {
    pub sample: usize,
    pub line: usize,
}

/// Fold one panel's sample files into the shared tally and return how many
/// were opened; fail on the first malformed record line.
pub fn aggregate_panel(
    tally: &mut Tally,
    files: &Vec<Option<Vec<Vec<u8>>>>,
    fmt: CallerFormat,
    th: &Thresholds,
    panel: usize,
) -> (r: Result<u32, MalformedLine>)
    requires
        old(tally).wf(),
        panel < old(tally).panel_count(),
        th_wf(*th),
        files@.len() <= u32::MAX,
    ensures
        final(tally).wf(),
        final(tally).panel_count() == old(tally).panel_count(),
        match r {
            Ok(n) => files_ok(files.deep_view(), fmt) && final(tally)@ == tally_after_files(
                old(tally)@,
                files.deep_view(),
                fmt,
                *th,
                panel as int,
                old(tally).panel_count(),
            ) && n == count_opened(files.deep_view()),
            Err(e) => !files_ok(files.deep_view(), fmt) && e.sample < files@.len() && match files.deep_view()[e.sample as int] {
                Some(lines) => e.line < lines.len() && !line_ok(lines[e.line as int], fmt),
                None => false,
            },
        },
{
    let ghost fdv = files.deep_view();
    let mut opened: u32 = 0;
    let mut si: usize = 0;
    proof {
        assert(fdv.skip(0) =~= fdv);
    }
    while si < files.len()
        invariant
            0 <= si <= files@.len(),
            files@.len() <= u32::MAX,
            th_wf(*th),
            tally.wf(),
            tally.panel_count() == old(tally).panel_count(),
            panel < tally.panel_count(),
            fdv == files.deep_view(),
            opened <= si,
            count_opened(fdv) == opened + count_opened(fdv.skip(si as int)),
            tally_after_files(
                old(tally)@,
                fdv,
                fmt,
                *th,
                panel as int,
                old(tally).panel_count(),
            ) == tally_after_files(
                tally@,
                fdv.skip(si as int),
                fmt,
                *th,
                panel as int,
                old(tally).panel_count(),
            ),
            forall|j: int|
                0 <= j < si ==> match #[trigger] fdv[j] {
                    Some(lines) => file_ok(lines, fmt),
                    None => true,
                },
        decreases files@.len() - si,
    {
        proof {
            assert(fdv.skip(si as int)[0] == fdv[si as int]);
            assert(fdv.skip(si as int).skip(1) =~= fdv.skip(si + 1));
            lemma_count_opened_bounds(fdv.skip(si + 1));
        }
        match &files[si] {
            None => {
                proof {
                    assert(fdv[si as int] is None);
                }
            },
            Some(lines) => {
                proof {
                    assert(fdv[si as int] == Some(lines.deep_view()));
                }
                opened = opened + 1;
                let ghost ldv = lines.deep_view();
                let ghost tf = tally@;
                let mut li: usize = 0;
                proof {
                    assert(ldv.skip(0) =~= ldv);
                }
                while li < lines.len()
                    invariant
                        0 <= li <= lines@.len(),
                        si < files@.len(),
                        fdv == files.deep_view(),
                        fdv[si as int] == Some(ldv),
                        th_wf(*th),
                        tally.wf(),
                        tally.panel_count() == old(tally).panel_count(),
                        panel < tally.panel_count(),
                        ldv == lines.deep_view(),
                        tally_after_lines(
                            tf,
                            ldv,
                            fmt,
                            *th,
                            panel as int,
                            old(tally).panel_count(),
                        ) == tally_after_lines(
                            tally@,
                            ldv.skip(li as int),
                            fmt,
                            *th,
                            panel as int,
                            old(tally).panel_count(),
                        ),
                        forall|j: int| 0 <= j < li ==> line_ok(#[trigger] ldv[j], fmt),
                    decreases lines@.len() - li,
                {
                    proof {
                        assert(ldv.skip(li as int)[0] == ldv[li as int]);
                        assert(ldv.skip(li as int).skip(1) =~= ldv.skip(li + 1));
                        assert(ldv[li as int] == lines@[li as int].deep_view());
                        assert(lines@[li as int].deep_view() =~= lines@[li as int]@);
                    }
                    let line = &lines[li];
                    let is_hdr = line.len() > 0 && line[0] == 35;
                    if !is_hdr {
                        let trimmed = trim_bytes(line);
                        let fields = split_bytes(&trimmed, 9);
                        proof {
                            assert(fields.deep_view() == line_fields(ldv[li as int]));
                        }
                        match extract(&fields, fmt) {
                            None => {
                                proof {
                                    assert(!line_ok(ldv[li as int], fmt));
                                    assert(!file_ok(ldv, fmt));
                                    assert(!files_ok(fdv, fmt));
                                }
                                return Err(MalformedLine { sample: si, line: li });
                            },
                            Some(e) => {
                                if passes_exec(&e, th) {
                                    proof {
                                        assert(fields.deep_view().len() > 9);
                                        assert(fields@.len() == fields.deep_view().len());
                                        assert(fields@[0].deep_view() =~= fields@[0]@);
                                        assert(fields@[1].deep_view() =~= fields@[1]@);
                                        assert(fields@[3].deep_view() =~= fields@[3]@);
                                        assert(fields@[4].deep_view() =~= fields@[4]@);
                                    }
                                    let key = VariantKey {
                                        chrom: copy_vec(&fields[0]),
                                        pos: copy_vec(&fields[1]),
                                        ref_allele: copy_vec(&fields[3]),
                                        alt_allele: copy_vec(&fields[4]),
                                    };
                                    proof {
                                        assert(key@ == line_key(ldv[li as int]));
                                        assert(line_passes(ldv[li as int], fmt, *th));
                                    }
                                    tally.increment(key, panel);
                                } else {
                                    proof {
                                        assert(!line_passes(ldv[li as int], fmt, *th));
                                    }
                                }
                            },
                        }
                    } else {
                        proof {
                            assert(is_header(ldv[li as int]));
                            assert(!line_passes(ldv[li as int], fmt, *th));
                        }
                    }
                    li = li + 1;
                }
                proof {
                    assert(ldv.skip(ldv.len() as int) =~= Seq::<Seq<u8>>::empty());
                    assert(tally@ == tally_after_lines(
                        tf,
                        ldv,
                        fmt,
                        *th,
                        panel as int,
                        old(tally).panel_count(),
                    ));
                }
            },
        }
        si = si + 1;
    }
    proof {
        assert(fdv.skip(fdv.len() as int) =~= Seq::<Option<Seq<Seq<u8>>>>::empty());
        assert(files_ok(fdv, fmt));
    }
    Ok(opened)
}

} // verus!
