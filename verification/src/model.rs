//! Adaptive frequency model: one count per symbol, starting at one
//! (Laplace smoothing), and their running total.
use vstd::prelude::*;

verus! {

/// Sum of the counts of the symbols before `s`.
pub open spec fn cum_freq(f: Seq<u64>, s: int) -> nat
    decreases s,
{
    if s <= 0 {
        0
    } else {
        cum_freq(f, s - 1) + f[s - 1] as nat
    }
}

/// Sum of all counts.
pub open spec fn sum_freq(f: Seq<u64>) -> nat {
    cum_freq(f, f.len() as int)
}

/// Every symbol has a count of at least one.
pub open spec fn all_positive(f: Seq<u64>) -> bool {
    forall|i: int| 0 <= i < f.len() ==> #[trigger] f[i] >= 1
}

/// Cumulative counts never decrease.
pub proof fn lemma_cum_freq_mono(f: Seq<u64>, a: int, b: int)
    requires
        0 <= a <= b <= f.len(),
    ensures
        cum_freq(f, a) <= cum_freq(f, b),
    decreases b - a,
{
    if a < b {
        lemma_cum_freq_mono(f, a, b - 1);
    }
}

/// Raising one count by one raises every cumulative count past it by one.
proof fn lemma_cum_freq_update(f: Seq<u64>, s: int, k: int)
    requires
        0 <= s < f.len(),
        0 <= k <= f.len(),
        f[s] < u64::MAX,
    ensures
        cum_freq(f.update(s, (f[s] + 1) as u64), k) == cum_freq(f, k) + if k > s {
            1int
        } else {
            0int
        },
    decreases k,
{
    if k > 0 {
        lemma_cum_freq_update(f, s, k - 1);
    }
}

/// Counts of one symbol each, the starting point of a model over `n` symbols.
pub open spec fn ones(n: nat) -> Seq<u64> {
    Seq::new(n, |i: int| 1u64)
}

proof fn lemma_cum_ones(n: nat, k: int)
    requires
        0 <= k <= n,
    ensures
        cum_freq(ones(n), k) == k,
    decreases k,
{
    if k > 0 {
        lemma_cum_ones(n, k - 1);
    }
}

/// The counts `f` after the updates `us`, applied in order, each raising the
/// count of one symbol by one (as `FrequencyModel::update` does).
pub open spec fn apply_updates(f: Seq<u64>, us: Seq<usize>) -> Seq<u64>
    decreases us.len(),
{
    if us.len() == 0 {
        f
    } else {
        let g = apply_updates(f, us.drop_last());
        let u = us.last() as int;
        g.update(u, (g[u] + 1) as u64)
    }
}

/// Number of times `s` occurs in `us`.
pub open spec fn occurrences(us: Seq<usize>, s: int) -> nat
    decreases us.len(),
{
    if us.len() == 0 {
        0
    } else {
        occurrences(us.drop_last(), s) + if us.last() == s {
            1nat
        } else {
            0nat
        }
    }
}

/// Starting from a fresh model over `n` symbols, after any updates each
/// symbol's count is one plus the number of times it was updated, and the
/// total is `n` plus the number of updates.
pub proof fn lemma_counts_after_updates(n: nat, us: Seq<usize>)
    requires
        forall|j: int| 0 <= j < us.len() ==> #[trigger] us[j] < n,
        n + us.len() <= u64::MAX,
    ensures
        apply_updates(ones(n), us).len() == n,
        forall|s: int|
            0 <= s < n ==> #[trigger] apply_updates(ones(n), us)[s] == 1 + occurrences(us, s),
        sum_freq(apply_updates(ones(n), us)) == n + us.len(),
    decreases us.len(),
{
    if us.len() == 0 {
        lemma_cum_ones(n, n as int);
    } else {
        let prev = us.drop_last();
        assert forall|j: int| 0 <= j < prev.len() implies #[trigger] prev[j] < n by {
            assert(prev[j] == us[j]);
        }
        lemma_counts_after_updates(n, prev);
        let g = apply_updates(ones(n), prev);
        let u = us.last() as int;
        assert(us.last() == us[us.len() - 1]);
        assert(g[u] == 1 + occurrences(prev, u));
        lemma_occurrences_bound(prev, u);
        lemma_cum_freq_update(g, u, n as int);
    }
}

proof fn lemma_occurrences_bound(us: Seq<usize>, s: int)
    ensures
        occurrences(us, s) <= us.len(),
    decreases us.len(),
{
    if us.len() > 0 {
        lemma_occurrences_bound(us.drop_last(), s);
    }
}

/// A frequency model that tracks symbol counts and provides cumulative ranges.
#[derive(Debug)]
pub struct FrequencyModel {
    freq: Vec<u64>,
    total: u64,
}

impl Clone for FrequencyModel {
    /// A model with the same counts and total.
    fn clone(&self) -> (m: Self)
        ensures
            m@ == self@,
            m.spec_total() == self.spec_total(),
    {
        proof {
            use_type_invariant(self);
        }
        let freq = self.freq.clone();
        assert(freq@ =~= self.freq@);
        FrequencyModel { freq, total: self.total }
    }
}

impl View for FrequencyModel {
    type V = Seq<u64>;

    closed spec fn view(&self) -> Seq<u64> {
        self.freq@
    }
}

impl FrequencyModel {
    /// The running total that the model keeps.
    pub closed spec fn spec_total(&self) -> u64 {
        self.total
    }

    /// The model's invariant: the total is the sum of the counts, and every
    /// count is at least one. Every model keeps it; verified code learns it of
    /// a model `m` with `use_type_invariant(&m)`.
    #[verifier::type_invariant]
    pub open spec fn wf(&self) -> bool {
        &&& self.spec_total() == sum_freq(self@)
        &&& all_positive(self@)
    }

    fn ones_vec(n: usize) -> (v: Vec<u64>)
        ensures
            v@ == ones(n as nat),
    {
        let mut v: Vec<u64> = Vec::new();
        let mut i: usize = 0;
        while i < n
            invariant
                i <= n,
                v@ == ones(i as nat),
            decreases n - i,
        {
            v.push(1);
            i = i + 1;
            assert(v@ =~= ones(i as nat));
        }
        v
    }

    /// Create a new model with `n` symbols, each starting at count one.
    pub fn new(n: usize) -> (m: Self)
        ensures
            m.wf(),
            m@ == ones(n as nat),
            m.spec_total() == n,
    {
        let freq = Self::ones_vec(n);
        proof {
            lemma_cum_ones(n as nat, n as int);
        }
        FrequencyModel { freq, total: n as u64 }
    }

    /// Create a uniform model with `n` symbols.
    pub fn new_uniform(n: usize) -> (m: Self)
        ensures
            m.wf(),
            m@ == ones(n as nat),
            m.spec_total() == n,
    {
        let freq = Self::ones_vec(n);
        proof {
            lemma_cum_ones(n as nat, n as int);
        }
        FrequencyModel { freq, total: n as u64 }
    }

    /// Increment the count for symbol `s`.
    pub fn update(&mut self, s: usize)
        requires
            s < old(self)@.len(),
            old(self).spec_total() < u64::MAX,
        ensures
            final(self).wf(),
            final(self)@ == old(self)@.update(s as int, (old(self)@[s as int] + 1) as u64),
            final(self).spec_total() == old(self).spec_total() + 1,
    {
        proof {
            use_type_invariant(&*self);
            lemma_cum_freq_mono(self@, s as int, s as int + 1);
            lemma_cum_freq_mono(self@, s as int + 1, self@.len() as int);
            lemma_cum_freq_update(self@, s as int, self@.len() as int);
        }
        // Take the fields out, leaving an empty model, and put back the new ones.
        let mut taken = FrequencyModel { freq: Vec::new(), total: 0 };
        std::mem::swap(self, &mut taken);
        let FrequencyModel { mut freq, total } = taken;
        let v = freq[s];
        freq.set(s, v + 1);
        *self = FrequencyModel { freq, total: total + 1 };
    }

    /// Total of all counts.
    pub fn total(&self) -> (t: u64)
        ensures
            t == self.spec_total(),
    {
        self.total
    }

    /// Count of symbol `s`.
    pub fn freq(&self, s: usize) -> (c: u64)
        requires
            s < self@.len(),
        ensures
            c == self@[s as int],
    {
        self.freq[s]
    }

    /// Number of symbols.
    pub fn alphabet_size(&self) -> (n: usize)
        ensures
            n == self@.len(),
    {
        self.freq.len()
    }

    /// Sum of the counts of the symbols before `s`: the low end of the
    /// cumulative range of `s`, whose high end is `cumulative(s + 1)`.
    pub fn cumulative(&self, s: usize) -> (c: u64)
        requires
            s <= self@.len(),
        ensures
            c == cum_freq(self@, s as int),
    {
        proof {
            use_type_invariant(self);
        }
        let mut cum: u64 = 0;
        let mut i: usize = 0;
        while i < s
            invariant
                self.wf(),
                i <= s <= self@.len(),
                cum == cum_freq(self@, i as int),
            decreases s - i,
        {
            proof {
                lemma_cum_freq_mono(self@, i as int + 1, self@.len() as int);
            }
            cum = cum + self.freq[i];
            i = i + 1;
        }
        cum
    }
}

} // verus!
