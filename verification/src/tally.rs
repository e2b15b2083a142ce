//! The cross-panel tally: one row per distinct variant, with one counter
//! per panel. Rows keep first-insertion order, so a run over the same
//! inputs always yields the same table.

use vstd::prelude::*;

verus! {

/// The identity of a variant site and allele: chromosome, position,
/// reference allele and alternate allele, taken verbatim from a record.
pub struct VariantKey {
    pub chrom: Vec<u8>,
    pub pos: Vec<u8>,
    pub ref_allele: Vec<u8>,
    pub alt_allele: Vec<u8>,
}

pub type KeyView = (Seq<u8>, Seq<u8>, Seq<u8>, Seq<u8>);

impl View for VariantKey {
    type V = KeyView;

    open spec fn view(&self) -> KeyView {
        (self.chrom@, self.pos@, self.ref_allele@, self.alt_allele@)
    }
}

/// Copy a vector of plain values.
pub fn copy_vec<T: Copy>(v: &Vec<T>) -> (r: Vec<T>)
    ensures
        r@ == v@,
{
    let mut r: Vec<T> = Vec::new();
    let mut i: usize = 0;
    while i < v.len()
        invariant
            0 <= i <= v@.len(),
            r@ == v@.take(i as int),
        decreases v@.len() - i,
    {
        r.push(v[i]);
        proof {
            assert(v@.take(i + 1) =~= v@.take(i as int).push(v@[i as int]));
        }
        i = i + 1;
    }
    proof {
        assert(v@.take(v@.len() as int) =~= v@);
    }
    r
}

fn vec_u8_eq(a: &Vec<u8>, b: &Vec<u8>) -> (r: bool)
    ensures
        r == (a@ == b@),
{
    if a.len() != b.len() {
        return false;
    }
    let mut i: usize = 0;
    while i < a.len()
        invariant
            0 <= i <= a@.len(),
            a@.len() == b@.len(),
            forall|j: int| 0 <= j < i ==> a@[j] == b@[j],
        decreases a@.len() - i,
    {
        if a[i] != b[i] {
            return false;
        }
        i = i + 1;
    }
    proof {
        assert(a@ =~= b@);
    }
    true
}

/// Exact equality of two variant keys: all four fields byte for byte.
pub fn key_eq(a: &VariantKey, b: &VariantKey) -> (r: bool)
    ensures
        r == (a@ == b@),
{
    vec_u8_eq(&a.chrom, &b.chrom) && vec_u8_eq(&a.pos, &b.pos) && vec_u8_eq(
        &a.ref_allele,
        &b.ref_allele,
    ) && vec_u8_eq(&a.alt_allele, &b.alt_allele)
}

pub type TallyView = Seq<(KeyView, Seq<u32>)>;

/// Index of the row holding key `k`, or -1 when absent.
pub open spec fn key_index(t: TallyView, k: KeyView) -> int
    decreases t.len(),
{
    if t.len() == 0 {
        -1
    } else if t[0].0 == k {
        0
    } else if key_index(t.skip(1), k) < 0 {
        -1
    } else {
        key_index(t.skip(1), k) + 1
    }
}

pub proof fn lemma_key_index_props(t: TallyView, k: KeyView)
    ensures
        key_index(t, k) == -1 || (0 <= key_index(t, k) < t.len()),
        key_index(t, k) >= 0 ==> t[key_index(t, k)].0 == k,
        forall|j: int| 0 <= j < key_index(t, k) ==> (#[trigger] t[j]).0 != k,
        key_index(t, k) == -1 ==> (forall|j: int| 0 <= j < t.len() ==> (#[trigger] t[j]).0 != k),
    decreases t.len(),
{
    if t.len() == 0 {
    } else if t[0].0 == k {
    } else {
        lemma_key_index_props(t.skip(1), k);
        assert(forall|j: int| 0 <= j < t.skip(1).len() ==> t.skip(1)[j] == t[j + 1]);
        if key_index(t.skip(1), k) >= 0 {
            assert forall|j: int| 0 <= j < key_index(t, k) implies (#[trigger] t[j]).0 != k by {
                if j > 0 {
                    assert(t.skip(1)[j - 1].0 != k);
                }
            }
        } else {
            assert forall|j: int| 0 <= j < t.len() implies (#[trigger] t[j]).0 != k by {
                if j > 0 {
                    assert(t.skip(1)[j - 1].0 != k);
                }
            }
        }
    }
}

/// `key_index` returns the position of the first matching row.
pub proof fn lemma_key_index_at(t: TallyView, k: KeyView, i: int)
    requires
        0 <= i < t.len(),
        t[i].0 == k,
        forall|j: int| 0 <= j < i ==> (#[trigger] t[j]).0 != k,
    ensures
        key_index(t, k) == i,
    decreases i,
{
    if i == 0 {
    } else {
        assert(t.skip(1)[i - 1].0 == k);
        assert forall|j: int| 0 <= j < i - 1 implies (#[trigger] t.skip(1)[j]).0 != k by {
            assert(t.skip(1)[j] == t[j + 1]);
        }
        lemma_key_index_at(t.skip(1), k, i - 1);
    }
}

/// A fresh row of zero counters.
pub open spec fn zero_counts(n: nat) -> Seq<u32> {
    Seq::new(n, |i: int| 0u32)
}

/// `c` with the counter at `p` raised by one, capped at `u32::MAX`.
pub open spec fn bump_counts(c: Seq<u32>, p: int) -> Seq<u32> {
    c.update(
        p,
        if c[p] < u32::MAX {
            (c[p] + 1) as u32
        } else {
            u32::MAX
        },
    )
}

/// The tally after one pass-filter record for key `k` in panel `p`: the
/// row for `k` gets its `p` counter raised, a missing row starting as all
/// zeroes first.
pub open spec fn spec_bump(t: TallyView, k: KeyView, p: int, n_panels: nat) -> TallyView {
    let i = key_index(t, k);
    if i < 0 {
        t.push((k, zero_counts(n_panels).update(p, 1u32)))
    } else {
        t.update(i, (k, bump_counts(t[i].1, p)))
    }
}

/// The shared tally, grown only through `increment` during aggregation and
/// read row by row when the table is written.
pub struct Tally {
    n_panels: usize,
    entries: Vec<(VariantKey, Vec<u32>)>,
}

impl View for Tally {
    type V = TallyView;

    closed spec fn view(&self) -> TallyView {
        Seq::new(self.entries@.len(), |i: int| (self.entries@[i].0@, self.entries@[i].1@))
    }
}

impl Tally {
    /// How many panels each row counts.
    pub closed spec fn panel_count(self) -> nat {
        self.n_panels as nat
    }

    /// Every row has one counter per panel, and no key repeats.
    pub closed spec fn wf(self) -> bool {
        &&& forall|i: int|
            0 <= i < self@.len() ==> (#[trigger] self@[i]).1.len() == self.panel_count()
        &&& forall|i: int, j: int|
            0 <= i < j < self@.len() ==> (#[trigger] self@[i]).0 != (#[trigger] self@[j]).0
    }

    /// Each row is as wide as the panel list.
    pub proof fn lemma_row_width(self)
        requires
            self.wf(),
        ensures
            forall|i: int|
                0 <= i < self@.len() ==> (#[trigger] self@[i]).1.len() == self.panel_count(),
    {
    }

    /// No two rows share a key.
    pub proof fn lemma_distinct_keys(self)
        requires
            self.wf(),
        ensures
            forall|i: int, j: int|
                0 <= i < j < self@.len() ==> (#[trigger] self@[i]).0 != (#[trigger] self@[j]).0,
    {
    }

    /// An empty tally over `n_panels` panels.
    pub fn new(n_panels: usize) -> (r: Tally)
        ensures
            r.wf(),
            r@ == Seq::<(KeyView, Seq<u32>)>::empty(),
            r.panel_count() == n_panels,
    {
        let r = Tally { n_panels, entries: Vec::new() };
        proof {
            assert(r@ =~= Seq::<(KeyView, Seq<u32>)>::empty());
        }
        r
    }

    pub fn len(&self) -> (r: usize)
        ensures
            r == self@.len(),
    {
        self.entries.len()
    }

    pub fn key_at(&self, i: usize) -> (r: &VariantKey)
        requires
            i < self@.len(),
        ensures
            r@ == self@[i as int].0,
    {
        &self.entries[i].0
    }

    pub fn counts_at(&self, i: usize) -> (r: &Vec<u32>)
        requires
            i < self@.len(),
        ensures
            r@ == self@[i as int].1,
    {
        &self.entries[i].1
    }

    /// Count one pass-filter record for `key` in panel `panel`.
    pub fn increment(&mut self, key: VariantKey, panel: usize)
        requires
            old(self).wf(),
            panel < old(self).panel_count(),
        ensures
            final(self).wf(),
            final(self).panel_count() == old(self).panel_count(),
            final(self)@ == spec_bump(old(self)@, key@, panel as int, old(self).panel_count()),
    {
        let ghost t0 = self@;
        let n = self.entries.len();
        let mut i: usize = 0;
        while i < n
            invariant
                0 <= i <= n,
                *self == *old(self),
                n == self.entries@.len(),
                old(self).wf(),
                panel < old(self).panel_count(),
                forall|j: int| 0 <= j < i ==> (#[trigger] self@[j]).0 != key@,
            decreases n - i,
        {
            if key_eq(&self.entries[i].0, &key) {
                proof {
                    assert(old(self)@[i as int].0 == key@);
                    lemma_key_index_at(old(self)@, key@, i as int);
                    assert(old(self)@[i as int].1.len() == old(self).panel_count());
                }
                let c = self.entries[i].1[panel];
                let newc = if c < u32::MAX {
                    c + 1
                } else {
                    c
                };
                let mut counts = copy_vec(&self.entries[i].1);
                counts[panel] = newc;
                self.entries[i] = (key, counts);
                proof {
                    assert(self@ =~~= spec_bump(
                        old(self)@,
                        key@,
                        panel as int,
                        old(self).panel_count(),
                    ));
                    assert forall|a: int, b: int| 0 <= a < b < self@.len() implies (
                    #[trigger] self@[a]).0 != (#[trigger] self@[b]).0 by {
                        assert(old(self)@[a].0 == self@[a].0 && old(self)@[b].0 == self@[b].0);
                    }
                }
                return ;
            }
            i = i + 1;
        }
        proof {
            lemma_key_index_props(t0, key@);
            assert(key_index(t0, key@) == -1);
        }
        let mut counts: Vec<u32> = Vec::new();
        let mut p: usize = 0;
        while p < self.n_panels
            invariant
                0 <= p <= self.n_panels,
                counts@.len() == p,
                forall|j: int| 0 <= j < p ==> counts@[j] == 0u32,
            decreases self.n_panels - p,
        {
            counts.push(0);
            p = p + 1;
        }
        proof {
            assert(counts@ =~= zero_counts(self.panel_count()));
        }
        counts[panel] = 1;
        self.entries.push((key, counts));
        proof {
            assert(self@ =~~= t0.push((key@, zero_counts(old(self).panel_count()).update(panel as int, 1u32))));
            assert forall|a: int, b: int| 0 <= a < b < self@.len() implies (#[trigger] self@[a]).0
                != (#[trigger] self@[b]).0 by {
                if b < t0.len() {
                    assert(t0[a].0 == self@[a].0 && t0[b].0 == self@[b].0);
                } else {
                    assert(self@[b].0 == key@);
                    assert(t0[a].0 == self@[a].0);
                }
            }
        }
    }
}

} // verus!
