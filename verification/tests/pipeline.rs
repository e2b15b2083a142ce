//! End-to-end scenarios over in-memory panels.

use variant_prevalence::record::{CallerFormat, Thresholds};
use variant_prevalence::run::{parse_thresholds, run, PanelInput};

fn defaults() -> Thresholds {
    parse_thresholds(&b"4".to_vec(), &b"0.2".to_vec(), &b"15".to_vec()).unwrap()
}

fn mutect_line(chrom: &str, pos: &str, r: &str, a: &str, depth: u32, support: u32, freq: &str) -> Vec<u8> {
    format!(
        "{}\t{}\t.\t{}\t{}\t.\t.\t.\tGT:AD:X:DP:AF\t0/0:{},{}:x:{}:{}",
        chrom, pos, r, a, support, support, depth, freq
    )
    .into_bytes()
}

fn gatk_line(chrom: &str, pos: &str, r: &str, a: &str, depth: u32, support: u32) -> Vec<u8> {
    format!(
        "{}\t{}\t.\t{}\t{}\t.\t.\t.\tGT:AD:X:DP\t0/1:{},{}:x:{}",
        chrom, pos, r, a, depth - support, support, depth
    )
    .into_bytes()
}

fn out_string(r: Result<Vec<u8>, variant_prevalence::run::RunError>) -> String {
    String::from_utf8(r.expect("run failed")).unwrap()
}

#[test]
fn two_mutect_samples_full_prevalence() {
    let line = mutect_line("1", "100", "A", "T", 20, 8, "0.4");
    let panels = vec![PanelInput {
        name: b"panel509".to_vec(),
        fmt: CallerFormat::Mutect,
        files: vec![Some(vec![line.clone()]), Some(vec![line.clone()])],
    }];
    let out = out_string(run(&panels, &defaults()));
    assert_eq!(out, "chrom\tpos\tref\talt\tpanel509\n1\t100\tA\tT\t1\n");
}

#[test]
fn low_support_record_excluded() {
    let line = mutect_line("1", "100", "A", "T", 20, 3, "0.4");
    let panels = vec![PanelInput {
        name: b"panel509".to_vec(),
        fmt: CallerFormat::Mutect,
        files: vec![Some(vec![line])],
    }];
    let out = out_string(run(&panels, &defaults()));
    assert_eq!(out, "chrom\tpos\tref\talt\tpanel509\n");
}

#[test]
fn boundary_values_pass() {
    // support == 4, freq == 0.2, depth == 15: equality passes on all three
    let line = mutect_line("2", "5", "G", "C", 15, 4, "0.2");
    let panels = vec![PanelInput {
        name: b"panel509".to_vec(),
        fmt: CallerFormat::Mutect,
        files: vec![Some(vec![line])],
    }];
    let out = out_string(run(&panels, &defaults()));
    assert_eq!(out, "chrom\tpos\tref\talt\tpanel509\n2\t5\tG\tC\t1\n");
}

#[test]
fn just_below_boundary_fails() {
    let by_support = mutect_line("2", "5", "G", "C", 15, 3, "0.2");
    let by_freq = mutect_line("2", "6", "G", "C", 15, 4, "0.19");
    let by_depth = mutect_line("2", "7", "G", "C", 14, 4, "0.2");
    let panels = vec![PanelInput {
        name: b"panel509".to_vec(),
        fmt: CallerFormat::Mutect,
        files: vec![Some(vec![by_support, by_freq, by_depth])],
    }];
    let out = out_string(run(&panels, &defaults()));
    assert_eq!(out, "chrom\tpos\tref\talt\tpanel509\n");
}

#[test]
fn failed_open_excluded_from_denominator() {
    // P8: the unopened file does not count; the later file still does.
    let line = mutect_line("1", "100", "A", "T", 20, 8, "0.4");
    let panels = vec![PanelInput {
        name: b"panel509".to_vec(),
        fmt: CallerFormat::Mutect,
        files: vec![None, Some(vec![line.clone()]), Some(vec![line.clone()])],
    }];
    let out = out_string(run(&panels, &defaults()));
    assert_eq!(out, "chrom\tpos\tref\talt\tpanel509\n1\t100\tA\tT\t1\n");
}

#[test]
fn two_panels_share_one_row() {
    // P9: one row, each panel's ratio over its own denominator.
    let line = mutect_line("1", "100", "A", "T", 20, 8, "0.4");
    let g = gatk_line("1", "100", "A", "T", 20, 8);
    let empty_g = gatk_line("9", "9", "C", "G", 20, 0);
    let panels = vec![
        PanelInput {
            name: b"panel509".to_vec(),
            fmt: CallerFormat::Mutect,
            files: vec![Some(vec![line.clone()]), Some(vec![line.clone()])],
        },
        PanelInput {
            name: b"wgs".to_vec(),
            fmt: CallerFormat::Gatk,
            files: vec![
                Some(vec![g]),
                Some(vec![empty_g.clone()]),
                Some(vec![empty_g.clone()]),
                Some(vec![empty_g]),
            ],
        },
    ];
    let out = out_string(run(&panels, &defaults()));
    assert_eq!(
        out,
        "chrom\tpos\tref\talt\tpanel509\twgs\n1\t100\tA\tT\t1\t0.25\n"
    );
}

#[test]
fn rerun_is_byte_identical() {
    // P5: identical inputs, identical bytes.
    let line = mutect_line("1", "100", "A", "T", 20, 8, "0.4");
    let header = b"#CHROM\tPOS".to_vec();
    let panels = vec![PanelInput {
        name: b"exome".to_vec(),
        fmt: CallerFormat::Mutect,
        files: vec![Some(vec![header, line]), None],
    }];
    let th = defaults();
    let first = run(&panels, &th).unwrap();
    let second = run(&panels, &th).unwrap();
    assert_eq!(first, second);
}

#[test]
fn duplicate_line_counts_twice() {
    // Per-line counting: the same variant twice in one file increments twice.
    let line = mutect_line("1", "100", "A", "T", 20, 8, "0.4");
    let panels = vec![PanelInput {
        name: b"panel509".to_vec(),
        fmt: CallerFormat::Mutect,
        files: vec![Some(vec![line.clone(), line])],
    }];
    let out = out_string(run(&panels, &defaults()));
    assert_eq!(out, "chrom\tpos\tref\talt\tpanel509\n1\t100\tA\tT\t2\n");
}

#[test]
fn no_panels_header_only() {
    let panels: Vec<PanelInput> = Vec::new();
    let out = out_string(run(&panels, &defaults()));
    assert_eq!(out, "chrom\tpos\tref\talt\t\n");
}

#[test]
fn malformed_line_positions_reported() {
    let good = mutect_line("1", "100", "A", "T", 20, 8, "0.4");
    let bad = b"1\t100\t.\tA\tT".to_vec();
    let panels = vec![PanelInput {
        name: b"panel509".to_vec(),
        fmt: CallerFormat::Mutect,
        files: vec![Some(vec![good]), Some(vec![mutect_line("2", "1", "C", "G", 9, 1, "0.1"), bad])],
    }];
    let e = run(&panels, &defaults()).unwrap_err();
    assert_eq!(e.panel, 0);
    assert_eq!(e.sample, 1);
    assert_eq!(e.line, 1);
}

#[test]
fn mutect_het_marker_moves_to_column_ten() {
    // Column 9 carrying "0/1" shifts the sample block to column 10.
    let line = format!(
        "1\t100\t.\tA\tT\t.\t.\t.\tGT:AD:X:DP:AF\t0/1:0,0:x:1:0\t0/0:8,8:x:20:0.4"
    )
    .into_bytes();
    let panels = vec![PanelInput {
        name: b"panel509".to_vec(),
        fmt: CallerFormat::Mutect,
        files: vec![Some(vec![line])],
    }];
    let out = out_string(run(&panels, &defaults()));
    assert_eq!(out, "chrom\tpos\tref\talt\tpanel509\n1\t100\tA\tT\t1\n");
}
