//! The aggregation table: a mapping from group key to running
//! statistics, updated once per record and drained into per-group
//! reports at the end of a run.
//!
//! Keys are raw byte sequences compared byte-exactly. The table owns
//! one [`CityTemp`] entry per distinct key observed so far, and carries
//! alongside each entry the (ghost) sequence of values observed for
//! that key, so that the entry provably summarizes exactly what was
//! observed.

use vstd::prelude::*;

verus! {

use crate::stats::all_in_range;
use crate::stats::lemma_max_of_is_maximum;
use crate::stats::lemma_min_of_is_minimum;
use crate::stats::lemma_stats_of_singleton;
use crate::stats::lemma_stats_push;
use crate::stats::lemma_sum_of_bounds;
use crate::stats::spec_mean;
use crate::stats::CityTemp;
use crate::stats::CityTempReport;
use crate::MAX_OBSERVATIONS;
use crate::SCALED_MAX;

/// Byte-exact equality of two byte strings.
fn bytes_eq(a: &[u8], b: &[u8]) -> (r: bool)
    ensures
        r <==> a@ == b@,
{
    if a.len() != b.len() {
        return false;
    }
    let mut i: usize = 0;
    while i < a.len()
        invariant
            i <= a@.len(),
            a@.len() == b@.len(),
            forall|j: int| 0 <= j < i ==> a@[j] == b@[j],
        decreases a@.len() - i,
    {
        if a[i] != b[i] {
            return false;
        }
        i = i + 1;
    }
    proof {
        assert(a@ =~= b@);
    }
    true
}

/// One run's aggregation state: for each distinct key seen so far, the
/// running statistics of its group. `total` bounds every entry's count,
/// which keeps each running sum inside `i64` across a whole run.
pub struct AggTable {
    pub keys: Vec<Vec<u8>>,
    pub stats: Vec<CityTemp>,
    pub total: i64,
    pub obs: Ghost<Seq<Seq<int>>>,
}

impl AggTable {
    /// The keys of the table, as byte sequences, in insertion order.
    pub open spec fn key_views(self) -> Seq<Seq<u8>> {
        Seq::new(self.keys@.len(), |i: int| self.keys@[i]@)
    }

    /// Well-formedness: one entry per key, each entry exactly
    /// summarizing the values observed for its key, and every count
    /// bounded by `total`, itself at most [`MAX_OBSERVATIONS`].
    pub open spec fn wf(self) -> bool {
        &&& self.stats@.len() == self.keys@.len()
        &&& self.obs@.len() == self.keys@.len()
        &&& 0 <= self.total <= MAX_OBSERVATIONS
        &&& forall|i: int, j: int|
            0 <= i < j < self.keys@.len() ==> #[trigger] self.key_views()[i]
                != #[trigger] self.key_views()[j]
        &&& forall|i: int|
            0 <= i < self.keys@.len() ==> (#[trigger] self.stats@[i]).models(self.obs@[i])
        &&& forall|i: int|
            0 <= i < self.keys@.len() ==> (#[trigger] self.stats@[i]).count <= self.total
    }

    /// Some entry of the table has this key.
    pub open spec fn contains_key(self, k: Seq<u8>) -> bool {
        exists|i: int| 0 <= i < self.keys@.len() && #[trigger] self.key_views()[i] == k
    }

    /// The index of the entry with this key (unique in a well-formed
    /// table).
    pub open spec fn index_of_key(self, k: Seq<u8>) -> int {
        choose|i: int| 0 <= i < self.keys@.len() && #[trigger] self.key_views()[i] == k
    }

    /// The values observed so far for a key, empty if the key has not
    /// been observed.
    pub open spec fn obs_of(self, k: Seq<u8>) -> Seq<int> {
        if self.contains_key(k) {
            self.obs@[self.index_of_key(k)]
        } else {
            Seq::empty()
        }
    }

    /// In a well-formed table, an entry's index is the index its key
    /// resolves to: keys are unique.
    pub proof fn lemma_key_index(self, k: Seq<u8>, i: int)
        requires
            self.wf(),
            0 <= i < self.keys@.len(),
            self.key_views()[i] == k,
        ensures
            self.contains_key(k),
            self.index_of_key(k) == i,
    {
        assert(self.contains_key(k));
        let j = self.index_of_key(k);
        assert(0 <= j < self.keys@.len() && self.key_views()[j] == k);
        if i < j {
            assert(self.key_views()[i] != self.key_views()[j]);
        } else if j < i {
            assert(self.key_views()[j] != self.key_views()[i]);
        }
    }

    /// An empty table: the start of a run, no key observed yet.
    pub fn new() -> (r: AggTable)
        ensures
            r.wf(),
            r.total == 0,
            r.keys@.len() == 0,
            forall|k: Seq<u8>| !(#[trigger] r.contains_key(k)),
    {
        AggTable { keys: Vec::new(), stats: Vec::new(), total: 0, obs: Ghost(Seq::empty()) }
    }

    /// Folds one decoded value into the entry for `key`, creating the
    /// entry at its first observation. Exactly one group's history
    /// grows, by exactly this value; at a first observation the new
    /// entry is seeded with count one and the value as sum, minimum and
    /// maximum.
    pub fn observe(&mut self, key: &[u8], value: i64)
        requires
            old(self).wf(),
            old(self).total < MAX_OBSERVATIONS,
            -SCALED_MAX <= value <= SCALED_MAX,
        ensures
            final(self).wf(),
            final(self).total == old(self).total + 1,
            forall|k: Seq<u8>|
                #[trigger] final(self).contains_key(k) <==> (old(self).contains_key(k) || k
                    == key@),
            final(self).obs_of(key@) == old(self).obs_of(key@).push(value as int),
            forall|k: Seq<u8>|
                k != key@ ==> #[trigger] final(self).obs_of(k) == old(self).obs_of(k),
            final(self).keys@.len() == old(self).keys@.len() + (if old(self).contains_key(key@) {
                0int
            } else {
                1int
            }),
            !old(self).contains_key(key@) ==> final(self).stats@[old(self).keys@.len() as int]
                == (CityTemp {
                count: 1,
                rolling_sum: value,
                min_temp: value,
                max_temp: value,
            }),
    {
        let ghost pre = *self;
        let n = self.keys.len();
        let mut i: usize = 0;
        while i < n
            invariant
                *self == pre,
                pre == *old(self),
                pre.wf(),
                pre.total < MAX_OBSERVATIONS,
                -SCALED_MAX <= value <= SCALED_MAX,
                n == pre.keys@.len(),
                i <= n,
                forall|j: int| 0 <= j < i ==> #[trigger] pre.key_views()[j] != key@,
            decreases n - i,
        {
            if bytes_eq(self.keys[i].as_slice(), key) {
                proof {
                    pre.lemma_key_index(key@, i as int);
                    assert(pre.stats@[i as int].models(pre.obs@[i as int]));
                    lemma_sum_of_bounds(pre.obs@[i as int]);
                    lemma_min_of_is_minimum(pre.obs@[i as int]);
                    lemma_max_of_is_maximum(pre.obs@[i as int]);
                    assert(pre.stats@[i as int].min_temp <= pre.obs@[i as int][0]
                        <= pre.stats@[i as int].max_temp);
                }
                let mut st = self.stats[i];
                st.add(value);
                self.stats.set(i, st);
                self.total = self.total + 1;
                proof {
                    self.obs@ = pre.obs@.update(
                        i as int,
                        pre.obs@[i as int].push(value as int),
                    );
                    lemma_stats_push(pre.obs@[i as int], value as int);
                    assert(self.key_views() =~= pre.key_views());
                    assert(self.obs@[i as int] =~= pre.obs@[i as int].push(value as int));
                    assert(all_in_range(self.obs@[i as int]));
                    assert(self.wf());
                    self.lemma_key_index(key@, i as int);
                    assert forall|k: Seq<u8>|
                        #[trigger] self.contains_key(k) <==> (pre.contains_key(k) || k
                            == key@) by {
                        if pre.contains_key(k) {
                            let j = pre.index_of_key(k);
                            assert(self.key_views()[j] == k);
                        }
                        if self.contains_key(k) {
                            let j = self.index_of_key(k);
                            assert(pre.key_views()[j] == k);
                        }
                    }
                    assert forall|k: Seq<u8>| k != key@ implies #[trigger] self.obs_of(k)
                        == pre.obs_of(k) by {
                        if pre.contains_key(k) {
                            let j = pre.index_of_key(k);
                            assert(j != i as int);
                            self.lemma_key_index(k, j);
                        } else {
                            assert(!self.contains_key(k));
                        }
                    }
                }
                return ;
            }
            i = i + 1;
        }
        // the key was not seen before: seed a fresh entry
        let mut st = CityTemp::new(value);
        st.add(value);
        self.keys.push(vstd::slice::slice_to_vec(key));
        self.stats.push(st);
        self.total = self.total + 1;
        proof {
            self.obs@ = pre.obs@.push(seq![value as int]);
            lemma_stats_of_singleton(value as int);
            assert(!pre.contains_key(key@));
            assert(self.key_views() =~= pre.key_views().push(key@));
            assert(self.obs@[n as int] =~= seq![value as int]);
            assert(st == (CityTemp {
                count: 1,
                rolling_sum: value,
                min_temp: value,
                max_temp: value,
            }));
            assert(st.models(seq![value as int]));
            assert forall|a: int, b: int| 0 <= a < b < self.keys@.len() implies self.key_views()[a]
                != self.key_views()[b] by {
                if b < n {
                    assert(pre.key_views()[a] != pre.key_views()[b]);
                } else {
                    assert(pre.key_views()[a] != key@);
                }
            }
            assert(self.wf());
            self.lemma_key_index(key@, n as int);
            assert(pre.obs_of(key@).push(value as int) =~= seq![value as int]);
            assert forall|k: Seq<u8>|
                #[trigger] self.contains_key(k) <==> (pre.contains_key(k) || k == key@) by {
                if pre.contains_key(k) {
                    let j = pre.index_of_key(k);
                    assert(self.key_views()[j] == k);
                }
                if self.contains_key(k) && k != key@ {
                    let j = self.index_of_key(k);
                    assert(j != n as int);
                    assert(pre.key_views()[j] == k);
                }
            }
            assert forall|k: Seq<u8>| k != key@ implies #[trigger] self.obs_of(k) == pre.obs_of(
                k,
            ) by {
                if pre.contains_key(k) {
                    let j = pre.index_of_key(k);
                    assert(self.key_views()[j] == k);
                    self.lemma_key_index(k, j);
                } else {
                    assert(!self.contains_key(k));
                }
            }
        }
    }

    /// Aggregation is correct: in a well-formed table, the entry of an
    /// observed key carries the exact count and sum of the values
    /// observed for that key, and extremes that every observed value
    /// lies between and some observed value attains.
    pub proof fn lemma_entry_summarizes_history(self, k: Seq<u8>)
        requires
            self.wf(),
            self.contains_key(k),
        ensures
            self.stats@[self.index_of_key(k)].count == self.obs_of(k).len(),
            self.stats@[self.index_of_key(k)].rolling_sum == crate::stats::sum_of(self.obs_of(k)),
            forall|i: int|
                0 <= i < self.obs_of(k).len() ==> self.stats@[self.index_of_key(k)].min_temp
                    <= #[trigger] self.obs_of(k)[i] <= self.stats@[self.index_of_key(k)].max_temp,
            exists|i: int|
                0 <= i < self.obs_of(k).len() && #[trigger] self.obs_of(k)[i] == self.stats@[self.index_of_key(k)].min_temp,
            exists|i: int|
                0 <= i < self.obs_of(k).len() && #[trigger] self.obs_of(k)[i] == self.stats@[self.index_of_key(k)].max_temp,
    {
        let j = self.index_of_key(k);
        assert(0 <= j < self.keys@.len() && self.key_views()[j] == k);
        assert(self.stats@[j].models(self.obs@[j]));
        lemma_min_of_is_minimum(self.obs_of(k));
        lemma_max_of_is_maximum(self.obs_of(k));
    }

    /// The key lies among the first `j` entries of the table.
    pub open spec fn among_first(self, j: int, k: Seq<u8>) -> bool {
        exists|jj: int| 0 <= jj < j && #[trigger] self.key_views()[jj] == k
    }

    /// Combines another partition's table into this one: for every key,
    /// the observations of the two sides are joined, so min joins with
    /// min, max with max, and sums and counts add. Partitioning a record
    /// stream and merging the partial tables thus yields exactly the
    /// per-key observations of a single pass.
    pub fn merge(&mut self, other: &AggTable)
        requires
            old(self).wf(),
            other.wf(),
            old(self).total + other.total <= MAX_OBSERVATIONS,
        ensures
            final(self).wf(),
            final(self).total == old(self).total + other.total,
            forall|k: Seq<u8>|
                #[trigger] final(self).contains_key(k) <==> (old(self).contains_key(k)
                    || other.contains_key(k)),
            forall|k: Seq<u8>|
                #[trigger] final(self).obs_of(k) == old(self).obs_of(k) + other.obs_of(k),
    {
        let ghost pre = *self;
        self.total = self.total + other.total;
        proof {
            assert(self.key_views() =~= pre.key_views());
            assert forall|k: Seq<u8>| !other.among_first(0, k) implies #[trigger] self.obs_of(k)
                == pre.obs_of(k) && (self.contains_key(k) <==> pre.contains_key(k)) by {
                if pre.contains_key(k) {
                    let jk = pre.index_of_key(k);
                    assert(self.key_views()[jk] == k);
                    self.lemma_key_index(k, jk);
                    pre.lemma_key_index(k, jk);
                } else {
                    assert(!self.contains_key(k));
                }
            }
        }
        let m = other.keys.len();
        let mut j: usize = 0;
        while j < m
            invariant
                pre == *old(self),
                pre.wf(),
                other.wf(),
                pre.total + other.total <= MAX_OBSERVATIONS,
                m == other.keys@.len(),
                j <= m,
                self.wf(),
                self.total == pre.total + other.total,
                forall|jj: int|
                    0 <= jj < j ==> #[trigger] self.obs_of(other.key_views()[jj]) == pre.obs_of(
                        other.key_views()[jj],
                    ) + other.obs@[jj],
                forall|k: Seq<u8>|
                    !other.among_first(j as int, k) ==> #[trigger] self.obs_of(k) == pre.obs_of(k)
                        && (self.contains_key(k) <==> pre.contains_key(k)),
            decreases m - j,
        {
            let ghost mid = *self;
            let ghost kj = other.key_views()[j as int];
            proof {
                other.lemma_key_index(kj, j as int);
                assert(!other.among_first(j as int, kj)) by {
                    if other.among_first(j as int, kj) {
                        let jj = choose|jj: int|
                            0 <= jj < j && #[trigger] other.key_views()[jj] == kj;
                        assert(other.key_views()[jj] != other.key_views()[j as int]);
                    }
                }
                assert(mid.obs_of(kj) == pre.obs_of(kj));
            }
            let n2 = self.keys.len();
            let mut idx: usize = n2;
            let mut i: usize = 0;
            while i < n2
                invariant
                    *self == mid,
                    n2 == mid.keys@.len(),
                    i <= n2,
                    idx <= n2,
                    kj == other.key_views()[j as int],
                    j < m,
                    m == other.keys@.len(),
                    idx == n2 ==> forall|t: int|
                        0 <= t < i ==> #[trigger] mid.key_views()[t] != kj,
                    idx < n2 ==> mid.key_views()[idx as int] == kj,
                decreases n2 - i,
            {
                if idx == n2 && bytes_eq(self.keys[i].as_slice(), other.keys[j].as_slice()) {
                    idx = i;
                }
                i = i + 1;
            }
            if idx < n2 {
                proof {
                    mid.lemma_key_index(kj, idx as int);
                    assert(mid.contains_key(kj) && mid.obs@[idx as int] == mid.obs_of(kj));
                    if pre.contains_key(kj) {
                        let pk = pre.index_of_key(kj);
                        assert(pre.stats@[pk].models(pre.obs@[pk]));
                        assert(pre.stats@[pk].count <= pre.total);
                    }
                    assert(mid.stats@[idx as int].models(mid.obs@[idx as int]));
                    assert(other.stats@[j as int].models(other.obs@[j as int]));
                    assert(mid.obs@[idx as int].len() <= pre.total);
                    lemma_sum_of_bounds(mid.obs@[idx as int]);
                    lemma_sum_of_bounds(other.obs@[j as int]);
                }
                let mut st = self.stats[idx];
                st.merge(&other.stats[j]);
                self.stats.set(idx, st);
                proof {
                    self.obs@ = mid.obs@.update(
                        idx as int,
                        mid.obs@[idx as int] + other.obs@[j as int],
                    );
                    crate::stats::lemma_merge_stats_correct(
                        mid.obs@[idx as int],
                        other.obs@[j as int],
                    );
                    assert(self.key_views() =~= mid.key_views());
                    assert(all_in_range(self.obs@[idx as int]));
                    assert(st.models(self.obs@[idx as int]));
                    assert(self.wf());
                    self.lemma_key_index(kj, idx as int);
                    assert(self.obs_of(kj) == pre.obs_of(kj) + other.obs@[j as int]);
                    assert forall|k: Seq<u8>| k != kj implies #[trigger] self.obs_of(k)
                        == mid.obs_of(k) && (self.contains_key(k) <==> mid.contains_key(k)) by {
                        if mid.contains_key(k) {
                            let jk = mid.index_of_key(k);
                            assert(jk != idx as int);
                            assert(self.key_views()[jk] == k);
                            self.lemma_key_index(k, jk);
                        } else {
                            assert(!self.contains_key(k));
                        }
                    }
                }
            } else {
                proof {
                    assert(!mid.contains_key(kj)) by {
                        if mid.contains_key(kj) {
                            let jk = mid.index_of_key(kj);
                            assert(mid.key_views()[jk] != kj);
                        }
                    }
                    assert(other.stats@[j as int].models(other.obs@[j as int]));
                }
                let key_copy = vstd::slice::slice_to_vec(other.keys[j].as_slice());
                let st = other.stats[j];
                self.keys.push(key_copy);
                self.stats.push(st);
                proof {
                    self.obs@ = mid.obs@.push(other.obs@[j as int]);
                    assert(self.key_views() =~= mid.key_views().push(kj));
                    assert(st.count <= other.total);
                    assert forall|a: int, b: int|
                        0 <= a < b < self.keys@.len() implies self.key_views()[a]
                        != self.key_views()[b] by {
                        if b < n2 as int {
                            assert(mid.key_views()[a] != mid.key_views()[b]);
                        } else {
                            assert(mid.key_views()[a] != kj);
                        }
                    }
                    assert(self.wf());
                    self.lemma_key_index(kj, n2 as int);
                    assert(pre.obs_of(kj) =~= Seq::<int>::empty()) by {
                        assert(!pre.contains_key(kj));
                    }
                    assert(self.obs_of(kj) =~= pre.obs_of(kj) + other.obs@[j as int]);
                    assert forall|k: Seq<u8>| k != kj implies #[trigger] self.obs_of(k)
                        == mid.obs_of(k) && (self.contains_key(k) <==> mid.contains_key(k)) by {
                        if mid.contains_key(k) {
                            let jk = mid.index_of_key(k);
                            assert(self.key_views()[jk] == k);
                            self.lemma_key_index(k, jk);
                        } else {
                            if self.contains_key(k) {
                                let jk = self.index_of_key(k);
                                assert(jk == n2 as int);
                            }
                            assert(!self.contains_key(k));
                        }
                    }
                }
            }
            proof {
                assert forall|jj: int| 0 <= jj < j + 1 implies #[trigger] self.obs_of(
                    other.key_views()[jj],
                ) == pre.obs_of(other.key_views()[jj]) + other.obs@[jj] by {
                    if jj < j {
                        assert(other.key_views()[jj] != kj);
                        assert(self.obs_of(other.key_views()[jj]) == mid.obs_of(
                            other.key_views()[jj],
                        ));
                    }
                }
                assert forall|k: Seq<u8>| !other.among_first(j + 1, k) implies #[trigger] self
                    .obs_of(k) == pre.obs_of(k) && (self.contains_key(k) <==> pre.contains_key(
                    k,
                )) by {
                    assert(k != kj);
                    assert(!other.among_first(j as int, k));
                }
            }
            j = j + 1;
        }
        proof {
            assert forall|k: Seq<u8>| #[trigger] self.contains_key(k) <==> (pre.contains_key(k)
                || other.contains_key(k)) by {
                if other.contains_key(k) {
                    let jj = other.index_of_key(k);
                    assert(other.key_views()[jj] == k);
                    assert(self.obs_of(k) == pre.obs_of(k) + other.obs@[jj]);
                    assert(other.stats@[jj].models(other.obs@[jj]));
                    assert(self.obs_of(k).len() > 0);
                    assert(self.contains_key(k));
                } else {
                    assert(!other.among_first(m as int, k)) by {
                        if other.among_first(m as int, k) {
                            let jj = choose|jj: int|
                                0 <= jj < m && #[trigger] other.key_views()[jj] == k;
                            assert(other.contains_key(k));
                        }
                    }
                    assert(self.obs_of(k) == pre.obs_of(k));
                }
            }
            assert forall|k: Seq<u8>| #[trigger] self.obs_of(k) == pre.obs_of(k) + other.obs_of(
                k,
            ) by {
                if other.contains_key(k) {
                    let jj = other.index_of_key(k);
                    assert(other.key_views()[jj] == k);
                    assert(self.obs_of(k) == pre.obs_of(k) + other.obs@[jj]);
                    assert(other.obs_of(k) == other.obs@[jj]);
                } else {
                    assert(!other.among_first(m as int, k)) by {
                        if other.among_first(m as int, k) {
                            let jj = choose|jj: int|
                                0 <= jj < m && #[trigger] other.key_views()[jj] == k;
                            assert(other.contains_key(k));
                        }
                    }
                    assert(self.obs_of(k) =~= pre.obs_of(k) + other.obs_of(k));
                }
            }
        }
    }

    /// The report the table derives for the entry at an index: its
    /// exact extremes and its truncating mean.
    pub open spec fn report_at(self, i: int) -> CityTempReport {
        CityTempReport {
            min_temp: self.stats@[i].min_temp,
            max_temp: self.stats@[i].max_temp,
            mean_temp: spec_mean(
                self.stats@[i].rolling_sum as int,
                self.stats@[i].count as int,
            ) as i64,
        }
    }

    /// The sequence of reports is exactly one per entry, keyed as the
    /// table is keyed, each derived by [`AggTable::report_at`].
    pub open spec fn matches_reports(self, r: Seq<(Vec<u8>, CityTempReport)>) -> bool {
        &&& r.len() == self.keys@.len()
        &&& forall|i: int|
            0 <= i < r.len() ==> (#[trigger] r[i]).0@ == self.key_views()[i] && r[i].1
                == self.report_at(i)
    }

    /// Drains the accumulated state into one report per distinct key
    /// observed, in insertion order: the group's exact minimum and
    /// maximum and its truncating mean, all in the scaled domain.
    pub fn finalize(&self) -> (r: Vec<(Vec<u8>, CityTempReport)>)
        requires
            self.wf(),
        ensures
            self.matches_reports(r@),
    {
        let mut r: Vec<(Vec<u8>, CityTempReport)> = Vec::new();
        let n = self.keys.len();
        let mut i: usize = 0;
        while i < n
            invariant
                self.wf(),
                n == self.keys@.len(),
                i <= n,
                r@.len() == i,
                forall|j: int|
                    0 <= j < i ==> (#[trigger] r@[j]).0@ == self.key_views()[j] && r@[j].1
                        == self.report_at(j),
            decreases n - i,
        {
            proof {
                assert(self.stats@[i as int].models(self.obs@[i as int]));
            }
            let key_copy = vstd::slice::slice_to_vec(self.keys[i].as_slice());
            let rep = self.stats[i].report();
            r.push((key_copy, rep));
            i = i + 1;
        }
        r
    }

    /// Reading reports off the same accumulated state is idempotent:
    /// any two report sequences derived from one table state agree on
    /// every key and every statistic.
    pub proof fn lemma_reports_deterministic(
        self,
        r1: Seq<(Vec<u8>, CityTempReport)>,
        r2: Seq<(Vec<u8>, CityTempReport)>,
    )
        requires
            self.matches_reports(r1),
            self.matches_reports(r2),
        ensures
            r1.len() == r2.len(),
            forall|i: int|
                0 <= i < r1.len() ==> (#[trigger] r1[i]).0@ == r2[i].0@ && r1[i].1 == r2[i].1,
    {
    }
}

} // verus!
