//! The output table: a header row, then one row per distinct variant with
//! one prevalence-ratio column per panel.
//!
//! Ratios are written in decimal, truncated to six fractional digits with
//! trailing zeros dropped; a zero count prints as "0" and a positive count
//! over zero samples as "inf".

use vstd::prelude::*;
use crate::tally::{KeyView, Tally, TallyView};

verus! {

/// Decimal digits of `n`, most significant first.
pub open spec fn dec_digits(n: nat) -> Seq<u8>
    decreases n,
{
    if n < 10 {
        seq![(48 + n) as u8]
    } else {
        dec_digits(n / 10) + seq![(48 + n % 10) as u8]
    }
}

/// Render `n` in decimal.
pub fn u64_to_dec(n: u64) -> (r: Vec<u8>)
    ensures
        r@ == dec_digits(n as nat),
{
    let mut v: Vec<u8> = Vec::new();
    let mut cur: u64 = n;
    while cur >= 10
        invariant
            dec_digits(n as nat) == dec_digits(cur as nat) + v@,
        decreases cur,
    {
        let d: u8 = (cur % 10) as u8;
        v.insert(0, 48 + d);
        proof {
            assert(dec_digits((cur / 10) as nat) + (seq![(48 + (cur as nat) % 10) as u8] + v@.skip(
                1,
            )) =~= dec_digits((cur / 10) as nat) + seq![(48 + (cur as nat) % 10) as u8] + v@.skip(
                1,
            ));
            assert(v@ =~= seq![(48 + (cur as nat) % 10) as u8] + v@.skip(1));
        }
        cur = cur / 10;
    }
    v.insert(0, 48 + (cur as u8));
    proof {
        assert(v@ =~= seq![(48 + (cur as nat)) as u8] + v@.skip(1));
        assert(dec_digits(cur as nat) + v@.skip(1) =~= v@);
    }
    v
}

/// `n` written with leading zeros to six digits.
pub open spec fn pad6(n: nat) -> Seq<u8>
    recommends
        n < 1000000,
{
    Seq::new((6 - dec_digits(n).len()) as nat, |i: int| 48u8) + dec_digits(n)
}

/// Digit strings are as short as the bound: below ten to the `k`, at most
/// `k` digits.
pub proof fn lemma_dec_digits_len(n: nat, k: nat)
    requires
        1 <= k,
        n < crate::parse::pow10(k),
    ensures
        dec_digits(n).len() <= k,
    decreases n,
{
    if n < 10 {
    } else {
        assert(crate::parse::pow10(k) == 10 * crate::parse::pow10((k - 1) as nat));
        assert(n / 10 < crate::parse::pow10((k - 1) as nat));
        if k == 1 {
            crate::parse::lemma_pow10_pos((k - 1) as nat);
            assert(false);
        }
        lemma_dec_digits_len(n / 10, (k - 1) as nat);
    }
}

/// `s` with trailing zero digits removed.
pub open spec fn trim_zeros(s: Seq<u8>) -> Seq<u8>
    decreases s.len(),
{
    if s.len() > 0 && s.last() == 48 {
        trim_zeros(s.drop_last())
    } else {
        s
    }
}

/// The ratio column text for one variant and panel: count over the panel's
/// sample total, truncated to six fractional digits, trailing zeros
/// dropped; a zero count gives "0", a positive count over zero samples
/// "inf".
pub open spec fn ratio_text(count: nat, samples: nat) -> Seq<u8> {
    if count == 0 {
        seq![48u8]
    } else if samples == 0 {
        seq![105u8, 110u8, 102u8]
    } else {
        let scaled = (count * 1000000) / samples;
        let ip = scaled / 1000000;
        let fp = scaled % 1000000;
        if fp == 0 {
            dec_digits(ip)
        } else {
            dec_digits(ip) + seq![46u8] + trim_zeros(pad6(fp))
        }
    }
}

/// Render one ratio column.
pub fn ratio_text_exec(count: u32, samples: u32) -> (r: Vec<u8>)
    ensures
        r@ == ratio_text(count as nat, samples as nat),
{
    if count == 0 {
        let mut v: Vec<u8> = Vec::new();
        v.push(48);
        proof {
            assert(v@ =~= seq![48u8]);
        }
        return v;
    }
    if samples == 0 {
        let mut v: Vec<u8> = Vec::new();
        v.push(105);
        v.push(110);
        v.push(102);
        proof {
            assert(v@ =~= seq![105u8, 110u8, 102u8]);
        }
        return v;
    }
    let scaled: u64 = (count as u64) * 1000000 / (samples as u64);
    let ip: u64 = scaled / 1000000;
    let fp: u64 = scaled % 1000000;
    proof {
        assert(scaled == ((count as nat) * 1000000) / (samples as nat));
        assert(ip == scaled as nat / 1000000);
        assert(fp == scaled as nat % 1000000);
    }
    let mut v = u64_to_dec(ip);
    if fp == 0 {
        return v;
    }
    v.push(46);
    let mut digits = u64_to_dec(fp);
    proof {
        crate::parse::lemma_pow10_pos(5);
        assert(crate::parse::pow10(6) == 1000000) by {
            reveal_with_fuel(crate::parse::pow10, 8);
        }
        lemma_dec_digits_len(fp as nat, 6);
    }
    while digits.len() < 6
        invariant
            digits@.len() >= dec_digits(fp as nat).len(),
            digits@.len() <= 6,
            digits@ == Seq::new((digits@.len() - dec_digits(fp as nat).len()) as nat, |i: int| 48u8)
                + dec_digits(fp as nat),
            dec_digits(fp as nat).len() <= 6,
        decreases 6 - digits@.len(),
    {
        digits.insert(0, 48);
        proof {
            assert(digits@ =~= Seq::new(
                (digits@.len() - dec_digits(fp as nat).len()) as nat,
                |i: int| 48u8,
            ) + dec_digits(fp as nat));
        }
    }
    proof {
        assert(digits@ == pad6(fp as nat));
    }
    while digits.len() > 0 && digits[digits.len() - 1] == 48
        invariant
            trim_zeros(digits@) == trim_zeros(pad6(fp as nat)),
        decreases digits@.len(),
    {
        digits.pop();
    }
    proof {
        assert(trim_zeros(digits@) == digits@);
    }
    push_all(&mut v, &digits);
    proof {
        assert(v@ =~= dec_digits(ip as nat) + seq![46u8] + trim_zeros(pad6(fp as nat)));
    }
    v
}

/// Append all of `src` to `dst`.
pub fn push_all(dst: &mut Vec<u8>, src: &Vec<u8>)
    ensures
        final(dst)@ == old(dst)@ + src@,
{
    proof {
        assert(old(dst)@ + src@.take(0) =~= old(dst)@);
    }
    let mut i: usize = 0;
    while i < src.len()
        invariant
            0 <= i <= src@.len(),
            dst@ == old(dst)@ + src@.take(i as int),
        decreases src@.len() - i,
    {
        dst.push(src[i]);
        proof {
            assert(old(dst)@ + src@.take(i + 1) =~= (old(dst)@ + src@.take(i as int)).push(
                src@[i as int],
            ));
        }
        i = i + 1;
    }
    proof {
        assert(src@.take(src@.len() as int) =~= src@);
    }
}

/// `parts` joined with single `sep` bytes between them.
pub open spec fn joined(parts: Seq<Seq<u8>>, sep: u8) -> Seq<u8>
    decreases parts.len(),
{
    if parts.len() == 0 {
        Seq::empty()
    } else if parts.len() == 1 {
        parts[0]
    } else {
        parts[0] + seq![sep] + joined(parts.skip(1), sep)
    }
}

/// The fixed first columns of the header row: "chrom", "pos", "ref",
/// "alt", each followed by a tab.
pub open spec fn header_prefix() -> Seq<u8> {
    seq![
        99u8,
        104u8,
        114u8,
        111u8,
        109u8,
        9u8,
        112u8,
        111u8,
        115u8,
        9u8,
        114u8,
        101u8,
        102u8,
        9u8,
        97u8,
        108u8,
        116u8,
        9u8,
    ]
}

/// The header row: the fixed columns, the panel names joined with tabs,
/// and a newline.
pub open spec fn header_text(names: Seq<Seq<u8>>) -> Seq<u8> {
    header_prefix() + joined(names, 9) + seq![10u8]
}

/// The ratio columns of one row, joined with tabs.
pub open spec fn fields_text(counts: Seq<u32>, samples: Seq<u32>) -> Seq<u8>
    decreases counts.len(),
{
    if counts.len() == 0 {
        Seq::empty()
    } else if counts.len() == 1 {
        ratio_text(counts[0] as nat, samples[0] as nat)
    } else {
        ratio_text(counts[0] as nat, samples[0] as nat) + seq![9u8] + fields_text(
            counts.skip(1),
            samples.skip(1),
        )
    }
}

/// One output row: the four key fields and the ratio columns, tab
/// separated, ending in a newline.
pub open spec fn row_text(key: KeyView, counts: Seq<u32>, samples: Seq<u32>) -> Seq<u8> {
    key.0 + seq![9u8] + key.1 + seq![9u8] + key.2 + seq![9u8] + key.3 + seq![9u8] + fields_text(
        counts,
        samples,
    ) + seq![10u8]
}

/// The rows of the table, one per tally entry, in tally order.
pub open spec fn rows_text(t: TallyView, samples: Seq<u32>) -> Seq<u8>
    decreases t.len(),
{
    if t.len() == 0 {
        Seq::empty()
    } else {
        row_text(t[0].0, t[0].1, samples) + rows_text(t.skip(1), samples)
    }
}

/// The whole table.
pub open spec fn report_text(t: TallyView, names: Seq<Seq<u8>>, samples: Seq<u32>) -> Seq<u8> {
    header_text(names) + rows_text(t, samples)
}

/// What is still owed after the first `p` of the joined parts were
/// written: a leading separator from the second part on.
pub open spec fn rest_joined(parts: Seq<Seq<u8>>, sep: u8, p: int) -> Seq<u8> {
    if p >= parts.len() {
        Seq::empty()
    } else if p == 0 {
        joined(parts, sep)
    } else {
        seq![sep] + joined(parts.skip(p), sep)
    }
}

proof fn lemma_rest_joined_step(parts: Seq<Seq<u8>>, sep: u8, p: int)
    requires
        0 <= p < parts.len(),
    ensures
        p == 0 ==> rest_joined(parts, sep, p) == parts[0] + rest_joined(parts, sep, 1),
        p > 0 ==> rest_joined(parts, sep, p) == seq![sep] + parts[p] + rest_joined(
            parts,
            sep,
            p + 1,
        ),
{
    assert(parts.skip(p).len() == parts.len() - p);
    if parts.len() - p == 1 {
        if p == 0 {
            assert(joined(parts, sep) == parts[0]);
            assert(parts[0] + rest_joined(parts, sep, 1) =~= parts[0]);
        } else {
            assert(parts.skip(p)[0] == parts[p]);
            assert(joined(parts.skip(p), sep) == parts.skip(p)[0]);
            assert(seq![sep] + parts[p] + rest_joined(parts, sep, p + 1) =~= seq![sep] + parts[p]);
        }
    } else {
        if p == 0 {
            assert(joined(parts, sep) == parts[0] + seq![sep] + joined(parts.skip(1), sep));
            assert(parts[0] + (seq![sep] + joined(parts.skip(1), sep)) =~= parts[0] + seq![sep]
                + joined(parts.skip(1), sep));
        } else {
            assert(parts.skip(p)[0] == parts[p]);
            assert(parts.skip(p).skip(1) =~= parts.skip(p + 1));
            assert(joined(parts.skip(p), sep) == parts[p] + seq![sep] + joined(
                parts.skip(p + 1),
                sep,
            ));
            assert(seq![sep] + (parts[p] + seq![sep] + joined(parts.skip(p + 1), sep)) =~= seq![sep]
                + parts[p] + (seq![sep] + joined(parts.skip(p + 1), sep)));
        }
    }
}

/// Build the whole output table for the final tally.
pub fn build_report(tally: &Tally, names: &Vec<Vec<u8>>, samples: &Vec<u32>) -> (r: Vec<u8>)
    requires
        tally.wf(),
        names@.len() == tally.panel_count(),
        samples@.len() == tally.panel_count(),
    ensures
        r@ == report_text(tally@, names.deep_view(), samples@),
{
    let ghost ndv = names.deep_view();
    let mut out: Vec<u8> = Vec::new();
    out.push(99);
    out.push(104);
    out.push(114);
    out.push(111);
    out.push(109);
    out.push(9);
    out.push(112);
    out.push(111);
    out.push(115);
    out.push(9);
    out.push(114);
    out.push(101);
    out.push(102);
    out.push(9);
    out.push(97);
    out.push(108);
    out.push(116);
    out.push(9);
    proof {
        assert(out@ =~= header_prefix());
    }
    let mut p: usize = 0;
    while p < names.len()
        invariant
            0 <= p <= names@.len(),
            ndv == names.deep_view(),
            out@ + rest_joined(ndv, 9, p as int) == header_prefix() + joined(ndv, 9),
        decreases names@.len() - p,
    {
        proof {
            lemma_rest_joined_step(ndv, 9, p as int);
            assert(ndv[p as int] == names@[p as int].deep_view());
            assert(names@[p as int].deep_view() =~= names@[p as int]@);
        }
        if p > 0 {
            out.push(9);
            proof {
                assert(out@ + (ndv[p as int] + rest_joined(ndv, 9, p + 1)) =~= (out@.drop_last()
                    + seq![9u8]) + ndv[p as int] + rest_joined(ndv, 9, p + 1));
                assert(out@.drop_last().push(9u8) =~= out@);
            }
        }
        push_all(&mut out, &names[p]);
        proof {
            assert(out@ + rest_joined(ndv, 9, p + 1) =~= (out@.subrange(
                0,
                out@.len() - ndv[p as int].len(),
            ) + ndv[p as int]) + rest_joined(ndv, 9, p + 1));
        }
        p = p + 1;
    }
    out.push(10);
    proof {
        assert(rest_joined(ndv, 9, names@.len() as int) =~= Seq::<u8>::empty());
        assert(header_prefix() + joined(ndv, 9) + Seq::<u8>::empty() =~= header_prefix() + joined(
            ndv,
            9,
        ));
        assert(out@ =~= header_text(ndv));
    }
    let ghost tdv = tally@;
    let ghost target = report_text(tdv, ndv, samples@);
    proof {
        assert(tdv.skip(0) =~= tdv);
        assert(out@ + rows_text(tdv, samples@) =~= target);
        tally.lemma_row_width();
    }
    let n = tally.len();
    let mut ri: usize = 0;
    while ri < n
        invariant
            0 <= ri <= n,
            n == tally@.len(),
            tally.wf(),
            tdv == tally@,
            samples@.len() == tally.panel_count(),
            target == out@ + rows_text(tdv.skip(ri as int), samples@),
        decreases n - ri,
    {
        proof {
            tally.lemma_row_width();
            assert(tdv.skip(ri as int)[0] == tdv[ri as int]);
            assert(tdv.skip(ri as int).skip(1) =~= tdv.skip(ri + 1));
        }
        let mut row: Vec<u8> = Vec::new();
        let key = tally.key_at(ri);
        push_all(&mut row, &key.chrom);
        row.push(9);
        push_all(&mut row, &key.pos);
        row.push(9);
        push_all(&mut row, &key.ref_allele);
        row.push(9);
        push_all(&mut row, &key.alt_allele);
        row.push(9);
        let counts = tally.counts_at(ri);
        let ghost row_head = row@;
        proof {
            assert(row_head =~= tdv[ri as int].0.0 + seq![9u8] + tdv[ri as int].0.1 + seq![9u8]
                + tdv[ri as int].0.2 + seq![9u8] + tdv[ri as int].0.3 + seq![9u8]);
        }
        let mut fvec: Vec<u8> = Vec::new();
        let mut p2: usize = 0;
        proof {
            assert(counts@.skip(0) =~= counts@);
            assert(samples@.skip(0) =~= samples@);
        }
        while p2 < counts.len()
            invariant
                0 <= p2 <= counts@.len(),
                counts@.len() == samples@.len(),
                counts@ == tdv[ri as int].1,
                fvec@ + rest_fields(counts@, samples@, p2 as int) == fields_text(
                    counts@,
                    samples@,
                ),
            decreases counts@.len() - p2,
        {
            proof {
                lemma_rest_fields_step(counts@, samples@, p2 as int);
            }
            if p2 > 0 {
                fvec.push(9);
                proof {
                    assert(fvec@.drop_last().push(9u8) =~= fvec@);
                    assert(fvec@ + (ratio_text(counts@[p2 as int] as nat, samples@[p2 as int] as nat)
                        + rest_fields(counts@, samples@, p2 + 1)) =~= (fvec@.drop_last()
                        + seq![9u8]) + ratio_text(counts@[p2 as int] as nat, samples@[p2 as int] as nat)
                        + rest_fields(counts@, samples@, p2 + 1));
                }
            }
            let field = ratio_text_exec(counts[p2], samples[p2]);
            push_all(&mut fvec, &field);
            proof {
                assert(fvec@ + rest_fields(counts@, samples@, p2 + 1) =~= (fvec@.subrange(
                    0,
                    fvec@.len() - field@.len(),
                ) + field@) + rest_fields(counts@, samples@, p2 + 1));
            }
            p2 = p2 + 1;
        }
        proof {
            assert(rest_fields(counts@, samples@, counts@.len() as int) =~= Seq::<u8>::empty());
            assert(fvec@ + Seq::<u8>::empty() =~= fvec@);
            assert(fvec@ == fields_text(tdv[ri as int].1, samples@));
        }
        push_all(&mut row, &fvec);
        row.push(10);
        proof {
            assert(row@ =~= row_text(tdv[ri as int].0, tdv[ri as int].1, samples@));
        }
        push_all(&mut out, &row);
        proof {
            assert(rows_text(tdv.skip(ri as int), samples@) == row_text(
                tdv[ri as int].0,
                tdv[ri as int].1,
                samples@,
            ) + rows_text(tdv.skip(ri + 1), samples@));
            assert(out@ + rows_text(tdv.skip(ri + 1), samples@) =~= (out@.subrange(
                0,
                out@.len() - row@.len(),
            ) + row@) + rows_text(tdv.skip(ri + 1), samples@));
        }
        ri = ri + 1;
    }
    proof {
        assert(tdv.skip(tdv.len() as int) =~= Seq::<(KeyView, Seq<u32>)>::empty());
        assert(out@ + Seq::<u8>::empty() =~= out@);
    }
    out
}

/// What is still owed of the ratio columns after the first `p` were
/// written.
pub open spec fn rest_fields(counts: Seq<u32>, samples: Seq<u32>, p: int) -> Seq<u8> {
    if p >= counts.len() {
        Seq::empty()
    } else if p == 0 {
        fields_text(counts, samples)
    } else {
        seq![9u8] + fields_text(counts.skip(p), samples.skip(p))
    }
}

proof fn lemma_rest_fields_step(counts: Seq<u32>, samples: Seq<u32>, p: int)
    requires
        0 <= p < counts.len(),
        counts.len() == samples.len(),
    ensures
        p == 0 ==> rest_fields(counts, samples, p) == ratio_text(
            counts[0] as nat,
            samples[0] as nat,
        ) + rest_fields(counts, samples, 1),
        p > 0 ==> rest_fields(counts, samples, p) == seq![9u8] + ratio_text(
            counts[p] as nat,
            samples[p] as nat,
        ) + rest_fields(counts, samples, p + 1),
{
    if counts.len() - p == 1 {
        if p == 0 {
            assert(fields_text(counts, samples) == ratio_text(counts[0] as nat, samples[0] as nat));
            assert(ratio_text(counts[0] as nat, samples[0] as nat) + rest_fields(counts, samples, 1)
                =~= ratio_text(counts[0] as nat, samples[0] as nat));
        } else {
            assert(counts.skip(p)[0] == counts[p]);
            assert(samples.skip(p)[0] == samples[p]);
            assert(counts.skip(p).len() == 1);
            assert(fields_text(counts.skip(p), samples.skip(p)) == ratio_text(
                counts[p] as nat,
                samples[p] as nat,
            ));
            assert(seq![9u8] + ratio_text(counts[p] as nat, samples[p] as nat) + rest_fields(
                counts,
                samples,
                p + 1,
            ) =~= seq![9u8] + ratio_text(counts[p] as nat, samples[p] as nat));
        }
    } else {
        if p == 0 {
            assert(fields_text(counts, samples) == ratio_text(counts[0] as nat, samples[0] as nat)
                + seq![9u8] + fields_text(counts.skip(1), samples.skip(1)));
            assert(ratio_text(counts[0] as nat, samples[0] as nat) + (seq![9u8] + fields_text(
                counts.skip(1),
                samples.skip(1),
            )) =~= ratio_text(counts[0] as nat, samples[0] as nat) + seq![9u8] + fields_text(
                counts.skip(1),
                samples.skip(1),
            ));
        } else {
            assert(counts.skip(p)[0] == counts[p]);
            assert(samples.skip(p)[0] == samples[p]);
            assert(counts.skip(p).skip(1) =~= counts.skip(p + 1));
            assert(samples.skip(p).skip(1) =~= samples.skip(p + 1));
            assert(fields_text(counts.skip(p), samples.skip(p)) == ratio_text(
                counts[p] as nat,
                samples[p] as nat,
            ) + seq![9u8] + fields_text(counts.skip(p + 1), samples.skip(p + 1)));
            assert(seq![9u8] + (ratio_text(counts[p] as nat, samples[p] as nat) + seq![9u8]
                + fields_text(counts.skip(p + 1), samples.skip(p + 1))) =~= seq![9u8] + ratio_text(
                counts[p] as nat,
                samples[p] as nat,
            ) + (seq![9u8] + fields_text(counts.skip(p + 1), samples.skip(p + 1))));
        }
    }
}

} // verus!
