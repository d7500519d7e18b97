use vstd::prelude::*;

verus! {

use core::cmp::Ordering;
use crate::order::{sorted_under, RecordOrder};
use crate::records::{
    byte_len, copy_record, lemma_byte_len_cat, lemma_byte_len_multiset, lemma_byte_len_prefix,
    lemma_byte_len_push, lemma_to_multiset_insert, views_of,
};

/// A capped classification of a record sequence's length: never an exact
/// count beyond two.
#[derive(Clone, Copy, PartialEq, Eq, Structural, Debug)]
pub enum RoughCount {
    Zero,
    One,
    Two,
    ThreeOrMore,
}

/// The rough count that classifies a record count of `n`.
pub open spec fn rough_of(n: nat) -> RoughCount {
    if n == 0 {
        RoughCount::Zero
    } else if n == 1 {
        RoughCount::One
    } else if n == 2 {
        RoughCount::Two
    } else {
        RoughCount::ThreeOrMore
    }
}

/// Classify a record sequence, examining at most three records.
pub fn count_roughly(records: &Vec<Vec<u8>>) -> (rc: RoughCount)
    ensures
        rc == rough_of(records@.len()),
{
    if records.len() == 0 {
        RoughCount::Zero
    } else if records.len() == 1 {
        RoughCount::One
    } else if records.len() == 2 {
        RoughCount::Two
    } else {
        RoughCount::ThreeOrMore
    }
}

/// One sequence of records together with the capacity that governs
/// in-memory sorting and its rough line-count classification.
pub struct Chunk {
    pub records: Vec<Vec<u8>>,
    pub capacity: u64,
    pub rough_count: RoughCount,
}

/// Sum the byte lengths of a sequence of records.
fn byte_sum(records: &Vec<Vec<u8>>) -> (n: u64)
    requires
        byte_len(views_of(records@)) <= u64::MAX,
    ensures
        n == byte_len(views_of(records@)),
{
    let ghost vs = views_of(records@);
    let mut sum: u64 = 0;
    let mut i: usize = 0;
    proof {
        assert(vs.subrange(0, 0) =~= Seq::<Seq<u8>>::empty());
        assert(byte_len(vs.subrange(0, 0)) == 0);
    }
    while i < records.len()
        invariant
            i <= vs.len(),
            vs == views_of(records@),
            byte_len(vs) <= u64::MAX,
            sum == byte_len(vs.subrange(0, i as int)),
        decreases vs.len() - i,
    {
        proof {
            assert(vs.subrange(0, i + 1) =~= vs.subrange(0, i as int).push(vs[i as int]));
            lemma_byte_len_push(vs.subrange(0, i as int), vs[i as int]);
            lemma_byte_len_prefix(vs, i + 1);
        }
        sum = sum + (records[i].len() as u64);
        i = i + 1;
    }
    proof {
        assert(vs.subrange(0, vs.len() as int) =~= vs);
    }
    sum
}

/// The record index at which a chunk splits: records are taken into the
/// first half until their bytes reach `m`, and always at least one.
pub open spec fn split_count(s: Seq<Seq<u8>>, m: int) -> nat
    decreases s.len(),
{
    if s.len() == 0 {
        0
    } else if s[0].len() >= m {
        1
    } else {
        1 + split_count(s.drop_first(), m - s[0].len())
    }
}

impl Chunk {
    /// The mathematical contents of this chunk: its records' byte sequences.
    pub open spec fn recs(&self) -> Seq<Seq<u8>> {
        views_of(self.records@)
    }

    /// Well-formed: the rough count classifies the records, and the total
    /// byte count is representable.
    pub open spec fn wf(&self) -> bool {
        &&& self.rough_count == rough_of(self.recs().len())
        &&& byte_len(self.recs()) <= u64::MAX
    }

    /// Wrap a record sequence as a chunk, classifying it.
    pub fn new(records: Vec<Vec<u8>>, capacity: u64) -> (c: Chunk)
        requires
            byte_len(views_of(records@)) <= u64::MAX,
        ensures
            c.wf(),
            c.recs() == views_of(records@),
            c.capacity == capacity,
    {
        let rough_count = count_roughly(&records);
        Chunk { records, capacity, rough_count }
    }

    /// True exactly when the chunk's bytes fit the in-memory buffer.
    pub fn fit_in_buffer(&self) -> (r: bool)
        requires
            self.wf(),
        ensures
            r == (byte_len(self.recs()) <= self.capacity),
    {
        byte_sum(&self.records) <= self.capacity
    }

    /// Read every record, sort them in memory under `ord`, and wrap the
    /// sorted records as a new chunk with the same capacity.
    pub fn sort<O: RecordOrder>(&self, ord: &O) -> (c: Chunk)
        requires
            self.wf(),
            ord.wf(),
        ensures
            c.wf(),
            c.capacity == self.capacity,
            c.recs().to_multiset() == self.recs().to_multiset(),
            sorted_under(*ord, c.recs()),
    {
        let ghost vs = self.recs();
        let mut out: Vec<Vec<u8>> = Vec::new();
        let mut idx: usize = 0;
        proof {
            assert(vs.subrange(0, 0) =~= Seq::<Seq<u8>>::empty());
            assert(views_of(out@) =~= Seq::<Seq<u8>>::empty());
        }
        while idx < self.records.len()
            invariant
                idx <= vs.len(),
                vs == self.recs(),
                ord.wf(),
                sorted_under(*ord, views_of(out@)),
                views_of(out@).to_multiset() == vs.subrange(0, idx as int).to_multiset(),
                views_of(out@).len() == idx,
            decreases vs.len() - idx,
        {
            let rec = copy_record(&self.records[idx]);
            let ghost ovs = views_of(out@);
            let mut p: usize = 0;
            let mut found = false;
            while !found && p < out.len()
                invariant
                    p <= ovs.len(),
                    ovs == views_of(out@),
                    ord.wf(),
                    rec@ == vs[idx as int],
                    forall|j: int| 0 <= j < p ==> ord.le(#[trigger] ovs[j], rec@),
                    found ==> p < ovs.len() && ord.le(rec@, ovs[p as int]),
                decreases ovs.len() - p + (if found {
                    0int
                } else {
                    1int
                }),
            {
                let o = ord.compare(&rec, &out[p]);
                if matches!(o, Ordering::Less) {
                    found = true;
                } else {
                    p = p + 1;
                }
            }
            let ghost pp = p as int;
            out.insert(p, rec);
            proof {
                assert(views_of(out@) =~= ovs.insert(pp, vs[idx as int]));
                let nvs = views_of(out@);
                lemma_to_multiset_insert(ovs, pp, vs[idx as int]);
                assert(vs.subrange(0, idx + 1) =~= vs.subrange(0, idx as int).push(
                    vs[idx as int],
                ));
                vstd::seq_lib::to_multiset_build(vs.subrange(0, idx as int), vs[idx as int]);
                assert(sorted_under(*ord, nvs)) by {
                    let r = vs[idx as int];
                    assert forall|i: int, j: int| 0 <= i < j < nvs.len() implies #[trigger] ord.le(
                        nvs[i],
                        nvs[j],
                    ) by {
                        if i < pp && j < pp {
                            assert(nvs[i] == ovs[i] && nvs[j] == ovs[j]);
                        } else if i < pp && j == pp {
                            assert(nvs[i] == ovs[i] && nvs[j] == r);
                        } else if i < pp && j > pp {
                            assert(nvs[i] == ovs[i] && nvs[j] == ovs[j - 1]);
                        } else if i == pp && j > pp {
                            assert(nvs[i] == r && nvs[j] == ovs[j - 1]);
                            if found {
                                if j - 1 > pp {
                                    ord.lemma_transitive(r, ovs[pp], ovs[j - 1]);
                                }
                            }
                        } else {
                            assert(i > pp);
                            assert(nvs[i] == ovs[i - 1] && nvs[j] == ovs[j - 1]);
                        }
                    }
                }
            }
            idx = idx + 1;
        }
        proof {
            assert(vs.subrange(0, vs.len() as int) =~= vs);
            lemma_byte_len_multiset(views_of(out@), vs);
        }
        Chunk::new(out, self.capacity)
    }

    /// The index at which this chunk splits in two.
    pub open spec fn split_point(&self) -> nat {
        if self.rough_count == RoughCount::Two {
            1
        } else {
            split_count(self.recs(), (byte_len(self.recs()) / 2) as int)
        }
    }

    /// Split the records in two at a record boundary near the byte midpoint:
    /// records stream into the first half until their accumulated bytes
    /// reach half of the total (a rough count of exactly two forces a
    /// one-record/one-record split instead); the rest form the second half.
    /// A first record longer than the midpoint goes whole into the first
    /// half, which can leave the second half empty.
    pub fn split(&self) -> (r: (Chunk, Chunk))
        requires
            self.wf(),
            self.rough_count == RoughCount::Two || self.rough_count == RoughCount::ThreeOrMore,
        ensures
            r.0.wf(),
            r.1.wf(),
            r.0.capacity == self.capacity,
            r.1.capacity == self.capacity,
            1 <= self.split_point() <= self.recs().len(),
            r.0.recs() == self.recs().subrange(0, self.split_point() as int),
            r.1.recs() == self.recs().skip(self.split_point() as int),
            self.rough_count == RoughCount::Two ==> r.0.recs().len() == 1 && r.1.recs().len()
                == 1,
    {
        let ghost vs = self.recs();
        let n = self.records.len();
        let total = byte_sum(&self.records);
        let mid = total / 2;
        let mut k: usize = 1;
        let mut sum: u64 = {
            proof {
                lemma_byte_len_prefix(vs, 1);
                assert(vs.subrange(0, 1) =~= Seq::<Seq<u8>>::empty().push(vs[0]));
                lemma_byte_len_push(Seq::<Seq<u8>>::empty(), vs[0]);
                assert(byte_len(Seq::<Seq<u8>>::empty()) == 0);
            }
            self.records[0].len() as u64
        };
        proof {
            assert(vs.skip(1) =~= vs.drop_first());
            if sum < mid {
                assert(split_count(vs, mid as int) == 1 + split_count(
                    vs.drop_first(),
                    mid - vs[0].len(),
                ));
            }
        }
        while sum < mid && self.rough_count != RoughCount::Two
            invariant
                1 <= k <= vs.len(),
                n == vs.len(),
                vs == self.recs(),
                self.wf(),
                self.rough_count == RoughCount::Two || self.rough_count
                    == RoughCount::ThreeOrMore,
                total == byte_len(vs),
                mid == total / 2,
                sum == byte_len(vs.subrange(0, k as int)),
                k == vs.len() ==> sum >= mid,
                self.rough_count == RoughCount::Two ==> k == 1,
                sum < mid ==> split_count(vs, mid as int) == k + split_count(
                    vs.skip(k as int),
                    mid - sum,
                ),
                sum >= mid ==> split_count(vs, mid as int) == k,
            decreases vs.len() - k,
        {
            proof {
                if k == vs.len() {
                    assert(vs.subrange(0, k as int) =~= vs);
                    assert(false);
                }
            }
            let ghost m1 = mid - sum;
            let ghost tail = vs.skip(k as int);
            proof {
                assert(tail[0] == vs[k as int]);
                assert(vs.subrange(0, k + 1) =~= vs.subrange(0, k as int).push(vs[k as int]));
                lemma_byte_len_push(vs.subrange(0, k as int), vs[k as int]);
                lemma_byte_len_prefix(vs, k + 1);
                assert(tail.drop_first() =~= vs.skip(k + 1));
                if tail[0].len() < m1 {
                    assert(split_count(tail, m1) == 1 + split_count(tail.drop_first(), m1
                        - tail[0].len()));
                } else {
                    assert(split_count(tail, m1) == 1);
                }
            }
            sum = sum + (self.records[k].len() as u64);
            k = k + 1;
            proof {
                if k == vs.len() {
                    assert(vs.subrange(0, k as int) =~= vs);
                }
            }
        }
        proof {
            assert(k == self.split_point());
        }
        let mut v1: Vec<Vec<u8>> = Vec::new();
        let mut i: usize = 0;
        proof {
            assert(views_of(v1@) =~= vs.subrange(0, 0));
        }
        while i < k
            invariant
                i <= k <= vs.len(),
                vs == self.recs(),
                views_of(v1@) == vs.subrange(0, i as int),
            decreases k - i,
        {
            v1.push(copy_record(&self.records[i]));
            i = i + 1;
            proof {
                assert(views_of(v1@) =~= vs.subrange(0, i - 1).push(vs[i - 1]));
                assert(vs.subrange(0, i as int) =~= vs.subrange(0, i - 1).push(vs[i - 1]));
            }
        }
        let mut v2: Vec<Vec<u8>> = Vec::new();
        let mut j: usize = k;
        proof {
            assert(views_of(v2@) =~= vs.subrange(k as int, k as int));
        }
        while j < self.records.len()
            invariant
                k <= j <= vs.len(),
                vs == self.recs(),
                views_of(v2@) == vs.subrange(k as int, j as int),
            decreases vs.len() - j,
        {
            v2.push(copy_record(&self.records[j]));
            j = j + 1;
            proof {
                assert(views_of(v2@) =~= vs.subrange(k as int, j - 1).push(vs[j - 1]));
                assert(vs.subrange(k as int, j as int) =~= vs.subrange(k as int, j - 1).push(
                    vs[j - 1],
                ));
            }
        }
        proof {
            assert(vs.subrange(k as int, vs.len() as int) =~= vs.skip(k as int));
            assert(vs =~= vs.subrange(0, k as int) + vs.skip(k as int));
            lemma_byte_len_cat(vs.subrange(0, k as int), vs.skip(k as int));
        }
        let c1 = Chunk::new(v1, self.capacity);
        let c2 = Chunk::new(v2, self.capacity);
        (c1, c2)
    }
}

} // verus!
