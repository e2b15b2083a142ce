//! One variant-call record line: trimming, tab and colon splitting, and the
//! two caller layouts that encode depth, supporting reads and frequency.

use vstd::prelude::*;
use crate::parse::{
    all_digits, digits_val, find_byte, frac_den, frac_ge, frac_ge_exec, frac_num, is_frac,
    lemma_find_byte_at, lemma_find_byte_props, parse_frac, parse_u32, Frac,
};

verus! {

/// ASCII whitespace, as trimmed off the ends of a record line.
pub open spec fn is_space(b: u8) -> bool {
    b == 32 || b == 9 || b == 10 || b == 13 || b == 11 || b == 12
}

pub open spec fn trim_front(s: Seq<u8>) -> Seq<u8>
    decreases s.len(),
{
    if s.len() > 0 && is_space(s[0]) {
        trim_front(s.skip(1))
    } else {
        s
    }
}

pub open spec fn trim_back(s: Seq<u8>) -> Seq<u8>
    decreases s.len(),
{
    if s.len() > 0 && is_space(s.last()) {
        trim_back(s.drop_last())
    } else {
        s
    }
}

/// `s` with ASCII whitespace removed from both ends.
pub open spec fn trim_spec(s: Seq<u8>) -> Seq<u8> {
    trim_back(trim_front(s))
}

proof fn lemma_trim_front_skip(s: Seq<u8>, k: int)
    requires
        0 <= k <= s.len(),
        forall|j: int| 0 <= j < k ==> is_space(#[trigger] s[j]),
        k == s.len() || !is_space(s[k]),
    ensures
        trim_front(s) == s.skip(k),
    decreases k,
{
    if k == 0 {
        assert(s.skip(0) =~= s);
    } else {
        assert(is_space(s[0]));
        assert forall|j: int| 0 <= j < k - 1 implies is_space(#[trigger] s.skip(1)[j]) by {
            assert(s.skip(1)[j] == s[j + 1]);
        }
        if k < s.len() {
            assert(s.skip(1)[k - 1] == s[k]);
        }
        lemma_trim_front_skip(s.skip(1), k - 1);
        assert(s.skip(1).skip(k - 1) =~= s.skip(k));
    }
}

proof fn lemma_trim_back_take(s: Seq<u8>, k: int)
    requires
        0 <= k <= s.len(),
        forall|j: int| k <= j < s.len() ==> is_space(#[trigger] s[j]),
        k == 0 || !is_space(s[k - 1]),
    ensures
        trim_back(s) == s.take(k),
    decreases s.len() - k,
{
    if k == s.len() {
        assert(s.take(k) =~= s);
    } else {
        assert(is_space(s.last()));
        assert forall|j: int| k <= j < s.drop_last().len() implies is_space(
            #[trigger] s.drop_last()[j],
        ) by {
            assert(s.drop_last()[j] == s[j]);
        }
        if k > 0 {
            assert(s.drop_last()[k - 1] == s[k - 1]);
        }
        lemma_trim_back_take(s.drop_last(), k);
        assert(s.drop_last().take(k) =~= s.take(k));
    }
}

/// Remove ASCII whitespace from both ends of a line.
pub fn trim_bytes(s: &Vec<u8>) -> (r: Vec<u8>)
    ensures
        r@ == trim_spec(s@),
{
    let n = s.len();
    let mut lo: usize = 0;
    while lo < n && (s[lo] == 32 || s[lo] == 9 || s[lo] == 10 || s[lo] == 13 || s[lo] == 11
        || s[lo] == 12)
        invariant
            0 <= lo <= n,
            n == s@.len(),
            forall|j: int| 0 <= j < lo ==> is_space(#[trigger] s@[j]),
        decreases n - lo,
    {
        lo = lo + 1;
    }
    proof {
        lemma_trim_front_skip(s@, lo as int);
    }
    let mut hi: usize = n;
    while hi > lo && (s[hi - 1] == 32 || s[hi - 1] == 9 || s[hi - 1] == 10 || s[hi - 1] == 13
        || s[hi - 1] == 11 || s[hi - 1] == 12)
        invariant
            lo <= hi <= n,
            n == s@.len(),
            forall|j: int| hi <= j < n ==> is_space(#[trigger] s@[j]),
        decreases hi,
    {
        hi = hi - 1;
    }
    proof {
        let t = s@.skip(lo as int);
        assert forall|j: int| hi - lo <= j < t.len() implies is_space(#[trigger] t[j]) by {
            assert(t[j] == s@[j + lo]);
        }
        if hi > lo {
            assert(t[hi - lo - 1] == s@[hi - 1]);
        }
        lemma_trim_back_take(t, hi - lo);
        assert(t.take(hi - lo) =~= s@.subrange(lo as int, hi as int));
    }
    vstd::slice::slice_to_vec(vstd::slice::slice_subrange(s.as_slice(), lo, hi))
}

/// The pieces of `s` between occurrences of `sep`; always at least one piece.
pub open spec fn split_spec(s: Seq<u8>, sep: u8) -> Seq<Seq<u8>>
    decreases s.len(),
{
    let i = find_byte(s, sep);
    if i < 0 || i >= s.len() {
        seq![s]
    } else {
        seq![s.take(i)] + split_spec(s.skip(i + 1), sep)
    }
}

/// Split `s` on `sep`, keeping empty pieces.
pub fn split_bytes(s: &Vec<u8>, sep: u8) -> (r: Vec<Vec<u8>>)
    ensures
        r.deep_view() == split_spec(s@, sep),
{
    let n = s.len();
    let mut parts: Vec<Vec<u8>> = Vec::new();
    let mut start: usize = 0;
    let mut i: usize = 0;
    proof {
        assert(parts.deep_view() =~~= Seq::<Seq<u8>>::empty());
        assert(s@.skip(0) =~= s@);
    }
    while i < n
        invariant
            0 <= start <= i <= n,
            n == s@.len(),
            forall|j: int| start <= j < i ==> s@[j] != sep,
            parts.deep_view() + split_spec(s@.skip(start as int), sep) == split_spec(s@, sep),
        decreases n - i,
    {
        if s[i] == sep {
            let piece = vstd::slice::slice_to_vec(
                vstd::slice::slice_subrange(s.as_slice(), start, i),
            );
            proof {
                let tail = s@.skip(start as int);
                assert(tail[i - start] == s@[i as int]);
                assert forall|j: int| 0 <= j < i - start implies tail[j] != sep by {
                    assert(tail[j] == s@[start + j]);
                }
                lemma_find_byte_at(tail, sep, i - start);
                assert(tail.take(i - start) =~= piece@);
                assert(tail.skip(i - start + 1) =~= s@.skip(i + 1));
                assert(split_spec(tail, sep) == seq![piece@] + split_spec(s@.skip(i + 1), sep));
            }
            let ghost pdv = parts.deep_view();
            parts.push(piece);
            proof {
                assert(parts.deep_view() =~~= pdv.push(piece@));
                assert(pdv.push(piece@) + split_spec(s@.skip(i + 1), sep) =~= pdv + (seq![piece@]
                    + split_spec(s@.skip(i + 1), sep)));
            }
            start = i + 1;
        }
        i = i + 1;
    }
    let piece = vstd::slice::slice_to_vec(vstd::slice::slice_subrange(s.as_slice(), start, n));
    proof {
        let tail = s@.skip(start as int);
        assert forall|j: int| 0 <= j < tail.len() implies tail[j] != sep by {
            assert(tail[j] == s@[start + j]);
        }
        lemma_find_byte_props(tail, sep);
        assert(split_spec(tail, sep) == seq![tail]);
        assert(piece@ =~= tail);
    }
    let ghost pdv = parts.deep_view();
    parts.push(piece);
    proof {
        assert(parts.deep_view() =~~= pdv.push(piece@));
        assert(pdv.push(piece@) =~= pdv + seq![piece@]);
    }
    parts
}

/// The heterozygous-genotype marker "0/1" occurs somewhere in `s`.
pub open spec fn has_het_marker(s: Seq<u8>) -> bool {
    exists|i: int|
        0 <= i && i + 3 <= s.len() && #[trigger] s[i] == 48 && s[i + 1] == 47 && s[i + 2] == 49
}

/// Scan for the heterozygous-genotype marker "0/1".
pub fn find_het_marker(s: &Vec<u8>) -> (r: bool)
    ensures
        r == has_het_marker(s@),
{
    let n = s.len();
    if n < 3 {
        return false;
    }
    let mut i: usize = 0;
    while i < n - 2
        invariant
            0 <= i <= n - 2,
            n == s@.len(),
            3 <= n,
            forall|j: int|
                0 <= j < i ==> !(#[trigger] s@[j] == 48 && s@[j + 1] == 47 && s@[j + 2] == 49),
        decreases n - i,
    {
        if s[i] == 48 && s[i + 1] == 47 && s[i + 2] == 49 {
            assert(has_het_marker(s@));
            return true;
        }
        i = i + 1;
    }
    assert forall|j: int|
        !(0 <= j && j + 3 <= s@.len() && #[trigger] s@[j] == 48 && s@[j + 1] == 47 && s@[j + 2]
            == 49) by {
        if 0 <= j && j + 3 <= s@.len() {
            assert(j < i);
        }
    }
    false
}

/// The two supported variant-calling pipelines, which differ in how a
/// record encodes depth, supporting reads and frequency.
#[derive(Clone, Copy, PartialEq, Eq, Structural, Debug)]
pub enum CallerFormat {
    Gatk,
    Mutect,
}

/// Depth, supporting-read count and frequency taken from one record.
#[derive(Clone, Copy, PartialEq, Eq, Structural, Debug)]
pub struct Extracted {
    pub depth: u32,
    pub support: u32,
    pub freq: Frac,
}

/// What the "gatk" layout yields on the given tab fields: sample block at
/// column 9, depth at colon field 3, support as the second comma value of
/// colon field 1, frequency derived as support over depth (zero support
/// giving zero).
pub open spec fn gatk_extract(fields: Seq<Seq<u8>>) -> Option<(int, int, int, int)> {
    if fields.len() <= 9 {
        None
    } else {
        let sub = split_spec(fields[9], 58);
        if sub.len() <= 3 {
            None
        } else {
            let supports = split_spec(sub[1], 44);
            if supports.len() <= 1 {
                None
            } else {
                let depth_s = sub[3];
                let support_s = supports[1];
                if depth_s.len() > 0 && all_digits(depth_s) && digits_val(depth_s) <= u32::MAX
                    && support_s.len() > 0 && all_digits(support_s) && digits_val(support_s)
                    <= u32::MAX {
                    let depth = digits_val(depth_s);
                    let support = digits_val(support_s);
                    if support == 0 {
                        Some((depth, support, 0, 1))
                    } else {
                        Some((depth, support, support, depth))
                    }
                } else {
                    None
                }
            }
        }
    }
}

/// What the "mutect" layout yields: sample block at column 9, or 10 when
/// column 9 carries the heterozygous marker; depth at colon field 3,
/// frequency read from colon field 4, support as the first comma value of
/// colon field 1.
pub open spec fn mutect_extract(fields: Seq<Seq<u8>>) -> Option<(int, int, int, int)> {
    if fields.len() <= 9 {
        None
    } else {
        let idx: int = if has_het_marker(fields[9]) {
            10
        } else {
            9
        };
        if fields.len() <= idx {
            None
        } else {
            let sub = split_spec(fields[idx], 58);
            if sub.len() <= 4 {
                None
            } else {
                let supports = split_spec(sub[1], 44);
                let depth_s = sub[3];
                let freq_s = sub[4];
                let support_s = supports[0];
                if depth_s.len() > 0 && all_digits(depth_s) && digits_val(depth_s) <= u32::MAX
                    && is_frac(freq_s) && freq_s.len() <= 19 && support_s.len() > 0 && all_digits(
                    support_s,
                ) && digits_val(support_s) <= u32::MAX {
                    Some(
                        (
                            digits_val(depth_s),
                            digits_val(support_s),
                            frac_num(freq_s),
                            frac_den(freq_s),
                        ),
                    )
                } else {
                    None
                }
            }
        }
    }
}

/// Depth, support and frequency that one record's tab fields yield under
/// the given caller layout, or nothing when the record is malformed.
pub open spec fn spec_extract(fields: Seq<Seq<u8>>, fmt: CallerFormat) -> Option<
    (int, int, int, int),
> {
    match fmt {
        CallerFormat::Gatk => gatk_extract(fields),
        CallerFormat::Mutect => mutect_extract(fields),
    }
}

proof fn lemma_dv_index(v: Seq<Vec<u8>>, i: int)
    requires
        0 <= i < v.len(),
    ensures
        Seq::new(v.len(), |j: int| v[j].deep_view())[i] == v[i]@,
{
    assert(v[i].deep_view() =~= v[i]@);
}

/// Read depth, support and frequency out of one record's tab fields under
/// the given caller layout; `None` exactly when the spec yields nothing.
pub fn extract(fields: &Vec<Vec<u8>>, fmt: CallerFormat) -> (r: Option<Extracted>)
    ensures
        match r {
            Some(e) => spec_extract(fields.deep_view(), fmt) == Some(
                ((e.depth as int), (e.support as int), (e.freq.num as int), (e.freq.den as int)),
            ),
            None => spec_extract(fields.deep_view(), fmt) is None,
        },
{
    let ghost fdv = fields.deep_view();
    match fmt {
        CallerFormat::Gatk => {
            if fields.len() <= 9 {
                return None;
            }
            proof {
                lemma_dv_index(fields@, 9);
            }
            let sub = split_bytes(&fields[9], 58);
            if sub.len() <= 3 {
                return None;
            }
            proof {
                lemma_dv_index(sub@, 1);
                lemma_dv_index(sub@, 3);
            }
            let supports = split_bytes(&sub[1], 44);
            if supports.len() <= 1 {
                return None;
            }
            proof {
                lemma_dv_index(supports@, 1);
            }
            let depth_opt = parse_u32(&sub[3]);
            let support_opt = parse_u32(&supports[1]);
            match (depth_opt, support_opt) {
                (Some(depth), Some(support)) => {
                    let freq = if support == 0 {
                        Frac { num: 0, den: 1 }
                    } else {
                        Frac { num: support as u64, den: depth as u64 }
                    };
                    Some(Extracted { depth, support, freq })
                },
                _ => None,
            }
        },
        CallerFormat::Mutect => {
            if fields.len() <= 9 {
                return None;
            }
            proof {
                lemma_dv_index(fields@, 9);
            }
            let het = find_het_marker(&fields[9]);
            let idx: usize = if het {
                10
            } else {
                9
            };
            if fields.len() <= idx {
                return None;
            }
            proof {
                lemma_dv_index(fields@, idx as int);
            }
            let sub = split_bytes(&fields[idx], 58);
            if sub.len() <= 4 {
                return None;
            }
            proof {
                lemma_dv_index(sub@, 1);
                lemma_dv_index(sub@, 3);
                lemma_dv_index(sub@, 4);
            }
            let supports = split_bytes(&sub[1], 44);
            proof {
                assert(split_spec(sub@[1]@, 44).len() >= 1);
                lemma_dv_index(supports@, 0);
            }
            let depth_opt = parse_u32(&sub[3]);
            let freq_opt = parse_frac(&sub[4]);
            let support_opt = parse_u32(&supports[0]);
            match (depth_opt, freq_opt, support_opt) {
                (Some(depth), Some(freq), Some(support)) => Some(
                    Extracted { depth, support, freq },
                ),
                _ => None,
            }
        },
    }
}

/// The numeric thresholds a record must meet to count.
#[derive(Clone, Copy, PartialEq, Eq, Structural, Debug)]
pub struct Thresholds {
    pub min_support: u32,
    pub min_freq: Frac,
    pub min_depth: u32,
}

/// A threshold set is well formed when its frequency bound is finite.
pub open spec fn th_wf(th: Thresholds) -> bool {
    th.min_freq.den >= 1
}

/// A record with the given depth, support and frequency passes the filter:
/// support, frequency and depth each at or above its bound.
pub open spec fn passes(depth: int, support: int, fnum: int, fden: int, th: Thresholds) -> bool {
    support >= th.min_support && frac_ge(fnum, fden, th.min_freq.num as int, th.min_freq.den as int)
        && depth >= th.min_depth
}

/// Apply the threshold filter to one extracted record.
pub fn passes_exec(e: &Extracted, th: &Thresholds) -> (r: bool)
    requires
        th_wf(*th),
    ensures
        r == passes((e.depth as int), (e.support as int), (e.freq.num as int), (e.freq.den as int), *th),
{
    e.support >= th.min_support && frac_ge_exec(&e.freq, &th.min_freq) && e.depth >= th.min_depth
}

/// A header line starts with '#'.
pub open spec fn is_header(line: Seq<u8>) -> bool {
    line.len() > 0 && line[0] == 35
}

/// The tab fields of a record line, after trimming.
pub open spec fn line_fields(line: Seq<u8>) -> Seq<Seq<u8>> {
    split_spec(trim_spec(line), 9)
}

/// The variant identity of a record line: chromosome, position, reference
/// and alternate allele, taken verbatim from fixed columns 0, 1, 3, 4.
pub open spec fn line_key(line: Seq<u8>) -> (Seq<u8>, Seq<u8>, Seq<u8>, Seq<u8>) {
    let f = line_fields(line);
    (f[0], f[1], f[3], f[4])
}

} // verus!
