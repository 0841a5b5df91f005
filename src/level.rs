use vstd::prelude::*;

verus! {

/// The sum of the counts of a list of `(category, count)` entries.
pub open spec fn counts_sum(s: Seq<(String, u32)>) -> int
    decreases s.len(),
{
    if s.len() == 0 {
        0
    } else {
        counts_sum(s.drop_last()) + s.last().1
    }
}

/// A non-negative quantity clamped to the range of `u32`.
pub open spec fn capped(x: int) -> u32 {
    if x > u32::MAX {
        u32::MAX
    } else if x < 0 {
        0
    } else {
        x as u32
    }
}

/// Counts are never negative, so neither is their sum.
pub proof fn lemma_counts_sum_nonneg(s: Seq<(String, u32)>)
    ensures
        counts_sum(s) >= 0,
    decreases s.len(),
{
    if s.len() > 0 {
        lemma_counts_sum_nonneg(s.drop_last());
    }
}

/// The counters of one save file: deaths and runs, each counted per category.
pub struct Level {
    deaths: Vec<(String, u32)>,
    runs: Vec<(String, u32)>,
}

impl View for Level {
    type V = (Seq<(String, u32)>, Seq<(String, u32)>);

    closed spec fn view(&self) -> Self::V {
        (self.deaths@, self.runs@)
    }
}

impl Level {
    /// The file's metric: every death count plus every run count.
    pub open spec fn metric(&self) -> int {
        counts_sum(self@.0) + counts_sum(self@.1)
    }

    /// A level with the given per-category death and run counts.
    pub fn new(deaths: Vec<(String, u32)>, runs: Vec<(String, u32)>) -> (r: Self)
        ensures
            r@ == (deaths@, runs@),
    {
        Level { deaths, runs }
    }

    /// The per-category death counts.
    pub fn deaths(&self) -> (r: &Vec<(String, u32)>)
        ensures
            r@ == self@.0,
    {
        &self.deaths
    }

    /// The per-category run counts.
    pub fn runs(&self) -> (r: &Vec<(String, u32)>)
        ensures
            r@ == self@.1,
    {
        &self.runs
    }

    /// The sum of all death and run counts, saturating at `u32::MAX`.
    pub fn total_deaths(&self) -> (r: u32)
        ensures
            r == capped(self.metric()),
    {
        let d = sum_counts(&self.deaths);
        let n = sum_counts(&self.runs);
        proof {
            lemma_counts_sum_nonneg(self.deaths@);
            lemma_counts_sum_nonneg(self.runs@);
        }
        d.saturating_add(n)
    }
}

impl Default for Level {
    fn default() -> (r: Self)
        ensures
            r@.0.len() == 0,
            r@.1.len() == 0,
    {
        Level { deaths: Vec::new(), runs: Vec::new() }
    }
}

/// Sums the counts of a list of entries, saturating at `u32::MAX`.
fn sum_counts(v: &Vec<(String, u32)>) -> (r: u32)
    ensures
        r == capped(counts_sum(v@)),
{
    let mut acc: u32 = 0;
    let mut i: usize = 0;
    while i < v.len()
        invariant
            i <= v.len(),
            acc == capped(counts_sum(v@.subrange(0, i as int))),
        decreases v.len() - i,
    {
        proof {
            let p = v@.subrange(0, i as int);
            assert(v@.subrange(0, i + 1).drop_last() =~= p);
            lemma_counts_sum_nonneg(p);
        }
        acc = acc.saturating_add(v[i].1);
        i += 1;
    }
    assert(v@.subrange(0, v.len() as int) =~= v@);
    acc
}

} // verus!
