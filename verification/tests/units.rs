//! Unit checks of the parsing, formatting and extraction functions.

use variant_prevalence::parse::{frac_ge_exec, parse_frac, parse_u32, Frac};
use variant_prevalence::record::{extract, split_bytes, trim_bytes, CallerFormat};
use variant_prevalence::report::{ratio_text_exec, u64_to_dec};
use variant_prevalence::run::parse_thresholds;

#[test]
fn parse_u32_exact() {
    assert_eq!(parse_u32(&b"0".to_vec()), Some(0));
    assert_eq!(parse_u32(&b"15".to_vec()), Some(15));
    assert_eq!(parse_u32(&b"4294967295".to_vec()), Some(u32::MAX));
}

#[test]
fn parse_u32_rejects() {
    assert_eq!(parse_u32(&b"".to_vec()), None);
    assert_eq!(parse_u32(&b"12a".to_vec()), None);
    assert_eq!(parse_u32(&b"-3".to_vec()), None);
    assert_eq!(parse_u32(&b"4294967296".to_vec()), None);
}

#[test]
fn parse_frac_exact() {
    assert_eq!(parse_frac(&b"0.2".to_vec()), Some(Frac { num: 2, den: 10 }));
    assert_eq!(parse_frac(&b"0.25".to_vec()), Some(Frac { num: 25, den: 100 }));
    assert_eq!(parse_frac(&b"3".to_vec()), Some(Frac { num: 3, den: 1 }));
    assert_eq!(parse_frac(&b"1.".to_vec()), Some(Frac { num: 1, den: 1 }));
    assert_eq!(parse_frac(&b".5".to_vec()), Some(Frac { num: 5, den: 10 }));
}

#[test]
fn parse_frac_rejects() {
    assert_eq!(parse_frac(&b"".to_vec()), None);
    assert_eq!(parse_frac(&b".".to_vec()), None);
    assert_eq!(parse_frac(&b"1.2.3".to_vec()), None);
    assert_eq!(parse_frac(&b"1e-3".to_vec()), None);
    assert_eq!(parse_frac(&b"12345678901234567890".to_vec()), None);
}

#[test]
fn frac_comparison() {
    let fifth = Frac { num: 2, den: 10 };
    assert!(frac_ge_exec(&Frac { num: 8, den: 20 }, &fifth));
    assert!(frac_ge_exec(&Frac { num: 4, den: 20 }, &fifth));
    assert!(!frac_ge_exec(&Frac { num: 3, den: 20 }, &fifth));
    // an infinite frequency (support over zero depth) beats every bound
    assert!(frac_ge_exec(&Frac { num: 1, den: 0 }, &fifth));
}

#[test]
fn decimal_rendering() {
    assert_eq!(u64_to_dec(0), b"0".to_vec());
    assert_eq!(u64_to_dec(907), b"907".to_vec());
    assert_eq!(ratio_text_exec(0, 5), b"0".to_vec());
    assert_eq!(ratio_text_exec(2, 2), b"1".to_vec());
    assert_eq!(ratio_text_exec(1, 2), b"0.5".to_vec());
    assert_eq!(ratio_text_exec(1, 4), b"0.25".to_vec());
    assert_eq!(ratio_text_exec(1, 3), b"0.333333".to_vec());
    assert_eq!(ratio_text_exec(3, 2), b"1.5".to_vec());
    assert_eq!(ratio_text_exec(1, 0), b"inf".to_vec());
}

#[test]
fn split_and_trim() {
    let parts = split_bytes(&b"a\t\tbc".to_vec(), 9);
    assert_eq!(parts, vec![b"a".to_vec(), b"".to_vec(), b"bc".to_vec()]);
    assert_eq!(trim_bytes(&b"  x y\r\n".to_vec()), b"x y".to_vec());
}

#[test]
fn gatk_extraction() {
    let line = b"1\t5\t.\tA\tG\t.\t.\t.\tGT:AD:PL:DP\t0/1:2,6:35:30".to_vec();
    let fields = split_bytes(&trim_bytes(&line), 9);
    let e = extract(&fields, CallerFormat::Gatk).unwrap();
    assert_eq!(e.depth, 30);
    assert_eq!(e.support, 6);
    // frequency is derived: support over depth
    assert_eq!(e.freq, Frac { num: 6, den: 30 });
}

#[test]
fn gatk_zero_support_zero_frequency() {
    let line = b"1\t5\t.\tA\tG\t.\t.\t.\tGT:AD:PL:DP\t0/0:30,0:35:30".to_vec();
    let fields = split_bytes(&trim_bytes(&line), 9);
    let e = extract(&fields, CallerFormat::Gatk).unwrap();
    assert_eq!(e.support, 0);
    assert_eq!(e.freq, Frac { num: 0, den: 1 });
}

#[test]
fn mutect_extraction_reads_frequency() {
    let line = b"1\t5\t.\tA\tG\t.\t.\t.\tGT:AD:X:DP:AF\t0/0:7,7:x:21:0.33".to_vec();
    let fields = split_bytes(&trim_bytes(&line), 9);
    let e = extract(&fields, CallerFormat::Mutect).unwrap();
    assert_eq!(e.depth, 21);
    assert_eq!(e.support, 7);
    assert_eq!(e.freq, Frac { num: 33, den: 100 });
}

#[test]
fn extraction_rejects_short_lines() {
    let fields = split_bytes(&b"1\t5\t.\tA\tG".to_vec(), 9);
    assert!(extract(&fields, CallerFormat::Gatk).is_none());
    assert!(extract(&fields, CallerFormat::Mutect).is_none());
    let bad = split_bytes(&b"1\t5\t.\tA\tG\t.\t.\t.\tGT:AD:X:DP\t0/0:x,y:x:20".to_vec(), 9);
    assert!(extract(&bad, CallerFormat::Gatk).is_none());
}

#[test]
fn threshold_parsing() {
    let th = parse_thresholds(&b" 4 ".to_vec(), &b"0.2".to_vec(), &b"15\n".to_vec()).unwrap();
    assert_eq!(th.min_support, 4);
    assert_eq!(th.min_freq, Frac { num: 2, den: 10 });
    assert_eq!(th.min_depth, 15);
    assert!(parse_thresholds(&b"four".to_vec(), &b"0.2".to_vec(), &b"15".to_vec()).is_none());
    assert!(parse_thresholds(&b"4".to_vec(), &b"x".to_vec(), &b"15".to_vec()).is_none());
    assert!(parse_thresholds(&b"4".to_vec(), &b"0.2".to_vec(), &b"".to_vec()).is_none());
}
