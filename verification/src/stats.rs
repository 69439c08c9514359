//! Per-series statistics: a finalized sample bucket holding the sorted
//! sample list and its checked sum. Every queried figure is a function of
//! the sorted list alone, so permuting the raw samples changes nothing.

use vstd::prelude::*;
use vstd::arithmetic::div_mod::lemma_div_is_ordered;
use vstd::arithmetic::div_mod::lemma_div_multiples_vanish;
use vstd::arithmetic::mul::lemma_mul_inequality;
use vstd::arithmetic::mul::lemma_mul_is_commutative;
use vstd::relations::total_ordering;
use vstd::relations::sorted_by;
use vstd::seq_lib::lemma_multiset_commutative;
use vstd::seq_lib::lemma_sorted_unique;

verus! {

/// The sum of a sequence of samples, as an unbounded integer.
pub open spec fn sum_seq(s: Seq<u64>) -> int
    decreases s.len(),
{
    if s.len() == 0 {
        0
    } else {
        sum_seq(s.drop_last()) + s.last()
    }
}

/// Ascending order.
pub open spec fn sorted(s: Seq<u64>) -> bool {
    forall|i: int, j: int| 0 <= i < j < s.len() ==> s[i] <= s[j]
}

/// The comparison that sorting a sample list goes by.
pub open spec fn sample_le() -> spec_fn(u64, u64) -> bool {
    |x: u64, y: u64| x <= y
}

pub proof fn lemma_sum_take_step(s: Seq<u64>, i: int)
    requires
        0 <= i < s.len(),
    ensures
        sum_seq(s.take(i + 1)) == sum_seq(s.take(i)) + s[i],
{
    assert(s.take(i + 1).drop_last() =~= s.take(i));
}

pub proof fn lemma_sum_take_monotone(s: Seq<u64>, i: int, j: int)
    requires
        0 <= i <= j <= s.len(),
    ensures
        sum_seq(s.take(i)) <= sum_seq(s.take(j)),
    decreases j - i,
{
    if i < j {
        lemma_sum_take_step(s, j - 1);
        lemma_sum_take_monotone(s, i, j - 1);
    }
}

pub proof fn lemma_sum_remove(s: Seq<u64>, i: int)
    requires
        0 <= i < s.len(),
    ensures
        sum_seq(s.remove(i)) == sum_seq(s) - s[i],
    decreases s.len(),
{
    if i == s.len() - 1 {
        assert(s.remove(i) =~= s.drop_last());
    } else {
        assert(s.remove(i).drop_last() =~= s.drop_last().remove(i));
        assert(s.remove(i).last() == s.last());
        lemma_sum_remove(s.drop_last(), i);
    }
}

/// The sum of a sample list depends only on its multiset of samples.
pub proof fn lemma_sum_permutation(a: Seq<u64>, b: Seq<u64>)
    requires
        a.to_multiset() == b.to_multiset(),
    ensures
        sum_seq(a) == sum_seq(b),
    decreases a.len(),
{
    broadcast use vstd::seq_lib::group_to_multiset_ensures;

    if a.len() == 0 {
        assert(b.to_multiset().len() == 0);
    } else {
        let x = a.last();
        assert(a.to_multiset().contains(x)) by {
            assert(a.contains(x));
        }
        assert(b.contains(x));
        let i = choose|i: int| 0 <= i < b.len() && b[i] == x;
        lemma_sum_remove(b, i);
        assert(a.drop_last() =~= a.remove(a.len() - 1));
        assert(a.drop_last().to_multiset() == b.remove(i).to_multiset()) by {
            assert(a.remove(a.len() - 1).to_multiset() == a.to_multiset().remove(x));
            assert(b.remove(i).to_multiset() == b.to_multiset().remove(x));
        }
        lemma_sum_permutation(a.drop_last(), b.remove(i));
    }
}

proof fn lemma_insert_multiset(s: Seq<u64>, pos: int, x: u64)
    requires
        0 <= pos <= s.len(),
    ensures
        s.insert(pos, x).to_multiset() == s.to_multiset().insert(x),
{
    broadcast use vstd::seq_lib::group_to_multiset_ensures;

    let front = s.take(pos);
    let back = s.skip(pos);
    assert(s.insert(pos, x) =~= front + (seq![x] + back));
    assert(s =~= front + back);
    lemma_multiset_commutative(front, seq![x] + back);
    lemma_multiset_commutative(front, back);
    assert((seq![x] + back).to_multiset() == back.to_multiset().insert(x)) by {
        assert(seq![x] + back =~= back.insert(0, x));
        assert(back.insert(0, x) =~= seq![x] + back);
        lemma_insert_front_multiset(back, x);
    }
    assert(s.insert(pos, x).to_multiset() =~= s.to_multiset().insert(x));
}

proof fn lemma_insert_front_multiset(s: Seq<u64>, x: u64)
    ensures
        (seq![x] + s).to_multiset() == s.to_multiset().insert(x),
    decreases s.len(),
{
    broadcast use vstd::seq_lib::group_to_multiset_ensures;

    if s.len() == 0 {
        assert(seq![x] + s =~= Seq::<u64>::empty().push(x));
        assert(Seq::<u64>::empty().push(x).to_multiset() =~= s.to_multiset().insert(x));
    } else {
        assert(seq![x] + s =~= (seq![x] + s.drop_last()).push(s.last()));
        lemma_insert_front_multiset(s.drop_last(), x);
        assert(s =~= s.drop_last().push(s.last()));
        assert((seq![x] + s).to_multiset() =~= s.to_multiset().insert(x));
    }
}

/// An ascending copy of a sample list; the samples themselves are kept.
fn sorted_copy(list: &Vec<u64>) -> (r: Vec<u64>)
    ensures
        sorted(r@),
        r@.to_multiset() == list@.to_multiset(),
        r@.len() == list@.len(),
{
    broadcast use vstd::seq_lib::group_to_multiset_ensures;

    let n = list.len();
    let mut out: Vec<u64> = Vec::new();
    let mut i: usize = 0;
    proof {
        assert(list@.take(0) =~= Seq::<u64>::empty());
        assert(out@.to_multiset() =~= list@.take(0).to_multiset());
    }
    while i < n
        invariant
            i <= n,
            n == list@.len(),
            sorted(out@),
            out@.len() == i,
            out@.to_multiset() == list@.take(i as int).to_multiset(),
        decreases n - i,
    {
        let x = list[i];
        let m = out.len();
        let mut pos: usize = 0;
        while pos < m && out[pos] <= x
            invariant
                pos <= m,
                m == out@.len(),
                forall|j: int| 0 <= j < pos ==> out@[j] <= x,
            decreases m - pos,
        {
            pos += 1;
        }
        proof {
            lemma_insert_multiset(out@, pos as int, x);
            assert(list@.take(i + 1) =~= list@.take(i as int).push(x));
            vstd::seq_lib::to_multiset_build(list@.take(i as int), x);
        }
        out.insert(pos, x);
        i += 1;
    }
    proof {
        assert(list@.take(n as int) =~= list@);
    }
    out
}

/// A finalized sample bucket: the samples in ascending order, together with
/// their sum. Exists only when the sum fits an unsigned 64-bit integer.
#[derive(Debug)]
pub struct Statistics {
    list: Vec<u64>,
    sum: u64,
}

impl View for Statistics {
    type V = Seq<u64>;

    /// The abstraction is the ascending sample list.
    closed spec fn view(&self) -> Seq<u64> {
        self.list@
    }
}

/// Where a requested quantile falls in an ascending list of `len` samples.
/// The ratio `num / den` is clamped to one, the slot to the last sample.
pub open spec fn percentile_index(len: int, num: int, den: int) -> int {
    let clamped = if num > den { den } else { num };
    let idx = len * clamped / den;
    if idx > len - 1 {
        len - 1
    } else {
        idx
    }
}

impl Statistics {
    /// The sample list is non-empty and ascending, and the cached sum is
    /// the sum of the samples.
    pub closed spec fn wf(&self) -> bool {
        &&& self.list@.len() > 0
        &&& sorted(self.list@)
        &&& self.sum == sum_seq(self.list@)
    }

    /// Build the bucket from a non-empty sample list: sort, then sum with
    /// overflow checked. A list whose sum exceeds the unsigned 64-bit range
    /// is rejected and the caller drops the series.
    pub fn new(list: Vec<u64>) -> (r: Result<Statistics, ()>)
        requires
            list@.len() > 0,
        ensures
            match r {
                Ok(s) => {
                    &&& sum_seq(list@) <= u64::MAX
                    &&& s.wf()
                    &&& sorted(s@)
                    &&& s@.to_multiset() == list@.to_multiset()
                    &&& s@.len() == list@.len()
                    &&& sum_seq(s@) == sum_seq(list@)
                },
                Err(_) => sum_seq(list@) > u64::MAX,
            },
    {
        let sorted_list = sorted_copy(&list);
        proof {
            lemma_sum_permutation(sorted_list@, list@);
        }
        let n = sorted_list.len();
        let mut sum: u64 = 0;
        let mut i: usize = 0;
        proof {
            assert(sorted_list@.take(0) =~= Seq::<u64>::empty());
        }
        while i < n
            invariant
                i <= n,
                n == sorted_list@.len(),
                sum == sum_seq(sorted_list@.take(i as int)),
                sum_seq(sorted_list@) == sum_seq(list@),
            decreases n - i,
        {
            let item = sorted_list[i];
            proof {
                lemma_sum_take_step(sorted_list@, i as int);
            }
            if item > u64::MAX - sum {
                proof {
                    lemma_sum_take_monotone(sorted_list@, i + 1, n as int);
                    assert(sorted_list@.take(n as int) =~= sorted_list@);
                }
                return Err(());
            }
            sum = sum + item;
            i += 1;
        }
        proof {
            assert(sorted_list@.take(n as int) =~= sorted_list@);
        }
        Ok(Statistics { list: sorted_list, sum })
    }

    /// How many samples the bucket holds.
    pub fn count(&self) -> (n: usize)
        requires
            self.wf(),
        ensures
            n == self@.len(),
    {
        self.list.len()
    }

    /// The checked sum of the samples.
    pub fn sum(&self) -> (s: u64)
        requires
            self.wf(),
        ensures
            s == sum_seq(self@),
    {
        self.sum
    }

    /// The samples in ascending order.
    pub fn samples(&self) -> (r: &Vec<u64>)
        requires
            self.wf(),
        ensures
            r@ == self@,
            sorted(r@),
            r@.len() > 0,
    {
        &self.list
    }

    /// The two middle samples: equal for an odd count, the two central
    /// samples for an even count. The median is their arithmetic mean.
    pub fn median_pair(&self) -> (r: (u64, u64))
        requires
            self.wf(),
        ensures
            r.0 == self@[(self@.len() - 1) as int / 2],
            r.1 == self@[self@.len() as int / 2],
    {
        let len = self.list.len();
        (self.list[(len - 1) / 2], self.list[len / 2])
    }

    /// The sample at the quantile `num / den`, with the ratio clamped to
    /// `[0, 1]` and the slot given by [`percentile_index`].
    pub fn percentile(&self, num: u64, den: u64) -> (r: u64)
        requires
            self.wf(),
            den > 0,
        ensures
            r == self@[percentile_index(self@.len() as int, num as int, den as int)],
    {
        let len = self.list.len();
        let clamped: u64 = if num > den {
            den
        } else {
            num
        };
        proof {
            assert((len as int) * (clamped as int) <= u128::MAX) by (nonlinear_arith)
                requires
                    0 <= (len as int),
                    (len as int) < 0x1_0000_0000_0000_0000,
                    0 <= (clamped as int),
                    (clamped as int) < 0x1_0000_0000_0000_0000,
            ;
        }
        let big: u128 = (len as u128) * (clamped as u128) / (den as u128);
        proof {
            lemma_mul_inequality(clamped as int, den as int, len as int);
            lemma_mul_is_commutative(len as int, clamped as int);
            lemma_mul_is_commutative(len as int, den as int);
            assert((len as int) * (clamped as int) <= (len as int) * (den as int));
            lemma_div_is_ordered(len as int * clamped as int, len as int * den as int, den as int);
            lemma_div_multiples_vanish(len as int, den as int);
            assert((den as int) * (len as int) / (den as int) == len as int);
            assert((len as int) * (clamped as int) / (den as int) <= len as int);
            assert(big as int == (len as int) * (clamped as int) / (den as int));
            assert(big <= len as u128);
        }
        let mut idx: usize = big as usize;
        if idx > len - 1 {
            idx = len - 1;
        }
        self.list[idx]
    }
}

/// Statistics are order-independent: any two ascending sample lists that
/// hold the same samples are the same list with the same sum, so every
/// figure derived from a bucket is invariant under permutation of its input.
pub proof fn lemma_statistics_order_independent(a: Seq<u64>, b: Seq<u64>)
    requires
        a.to_multiset() == b.to_multiset(),
        sorted(a),
        sorted(b),
    ensures
        a == b,
        sum_seq(a) == sum_seq(b),
{
    let le = sample_le();
    assert(total_ordering(le));
    assert(sorted_by(a, le)) by {
        assert(forall|i: int, j: int| 0 <= i < j < a.len() ==> #[trigger] le(a[i], a[j]));
    }
    assert(sorted_by(b, le)) by {
        assert(forall|i: int, j: int| 0 <= i < j < b.len() ==> #[trigger] le(b[i], b[j]));
    }
    lemma_sorted_unique(a, b, le);
    assert(a =~= b);
    lemma_sum_permutation(a, b);
}

/// The boundary behaviour of quantiles on an ascending sample list: the
/// zero quantile is the minimum, a full quantile is the maximum, and every
/// quantile is one of the samples.
pub proof fn lemma_percentile_boundaries(s: Seq<u64>, num: int, den: int)
    requires
        sorted(s),
        s.len() > 0,
        0 <= num,
        0 < den,
    ensures
        0 <= percentile_index(s.len() as int, num, den) < s.len(),
        s.contains(s[percentile_index(s.len() as int, num, den)]),
        percentile_index(s.len() as int, 0, den) == 0,
        forall|i: int| 0 <= i < s.len() ==> s[0] <= #[trigger] s[i],
        num >= den ==> percentile_index(s.len() as int, num, den) == s.len() - 1,
        forall|i: int| 0 <= i < s.len() ==> #[trigger] s[i] <= s[s.len() - 1],
{
    let len = s.len() as int;
    let clamped = if num > den { den } else { num };
    assert(0 <= len * clamped / den) by {
        lemma_div_is_ordered(0, len * clamped, den);
        assert(len * clamped >= 0) by (nonlinear_arith)
            requires
                len >= 0,
                clamped >= 0,
        ;
    }
    assert(len * 0 / den == 0) by {
        assert(len * 0 == 0) by (nonlinear_arith);
    }
    if num >= den {
        assert(len * den / den == len) by {
            lemma_div_multiples_vanish(len, den);
        }
    }
    assert(s.contains(s[percentile_index(s.len() as int, num, den)]));
}

} // verus!