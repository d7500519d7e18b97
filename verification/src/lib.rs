//! Line-oriented merge sort.
//!
//! The engine of an external merge sort, stated over sequences of
//! newline-terminated records: a rough line-count classifier, a chunk
//! abstraction with buffer-fit test, in-memory sort and binary split, a
//! two-way merge, and the recursive driver that ties them together.

use vstd::prelude::*;

pub mod chunk;
pub mod laws;
pub mod order;
pub mod records;

verus! {

use core::cmp::Ordering;
use crate::chunk::{Chunk, RoughCount};
use crate::order::{
    comparator_matches, comparator_sorted, key_cmp_lawful, key_fn_matches, key_never_greater,
    key_sorted, never_greater, sorted_default, sorted_under, total_preorder, CmpOrder,
    DefaultOrder, KeyOrder, RecordOrder,
};
use vstd::std_specs::cmp::OrdSpec;
use crate::records::{
    all_complete, byte_len, complete_record, concat_records, copy_record, lemma_byte_len_cat,
    lemma_byte_len_multiset, lemma_flatten_lines_of, lemma_lines_of_flatten_id, lines_of,
    split_records, views_of, wf_records,
};

/// Pushing a record onto the left half of a concatenation inserts it into
/// the concatenation's multiset.
proof fn lemma_ms_push_left(a: Seq<Seq<u8>>, b: Seq<Seq<u8>>, x: Seq<u8>)
    ensures
        (a.push(x) + b).to_multiset() == (a + b).to_multiset().insert(x),
{
    broadcast use vstd::multiset::group_multiset_axioms;

    vstd::seq_lib::lemma_multiset_commutative(a.push(x), b);
    vstd::seq_lib::to_multiset_build(a, x);
    vstd::seq_lib::lemma_multiset_commutative(a, b);
    assert((a.push(x) + b).to_multiset() =~= (a + b).to_multiset().insert(x));
}

/// Pushing a record onto the right half of a concatenation inserts it into
/// the concatenation's multiset.
proof fn lemma_ms_push_right(a: Seq<Seq<u8>>, b: Seq<Seq<u8>>, x: Seq<u8>)
    ensures
        (a + b.push(x)) =~= (a + b).push(x),
        (a + b.push(x)).to_multiset() == (a + b).to_multiset().insert(x),
{
    assert((a + b.push(x)) =~= (a + b).push(x));
    vstd::seq_lib::to_multiset_build(a + b, x);
}

/// One merge emission step: pushing a record that every pending record is
/// at or above keeps the output sorted.
proof fn lemma_merge_step<O: RecordOrder>(ord: O, ovs: Seq<Seq<u8>>, x: Seq<u8>, srt: bool)
    requires
        srt ==> sorted_under(ord, ovs),
        srt && ovs.len() > 0 ==> ord.le(ovs.last(), x),
        ord.wf(),
    ensures
        srt ==> sorted_under(ord, ovs.push(x)),
{
    if srt {
        let nvs = ovs.push(x);
        assert forall|a: int, b: int| 0 <= a < b < nvs.len() implies #[trigger] ord.le(
            nvs[a],
            nvs[b],
        ) by {
            if b < ovs.len() {
                assert(nvs[a] == ovs[a] && nvs[b] == ovs[b]);
            } else {
                assert(nvs[b] == x);
                assert(nvs[a] == ovs[a]);
                if a < ovs.len() - 1 {
                    assert(ord.le(ovs[a], ovs.last()));
                    ord.lemma_transitive(ovs[a], ovs.last(), x);
                }
            }
        }
    }
}

/// The exact sequence a two-way merge emits: the strictly smaller head
/// first, and on ties always the second sequence's head before the
/// first's; once one side is exhausted, the rest of the other verbatim.
pub open spec fn merge_spec<O: RecordOrder>(ord: O, s1: Seq<Seq<u8>>, s2: Seq<Seq<u8>>) -> Seq<
    Seq<u8>,
>
    decreases s1.len(), s2.len(),
{
    if s1.len() == 0 {
        s2
    } else if s2.len() == 0 {
        s1
    } else if ord.le(s1[0], s2[0]) && !ord.le(s2[0], s1[0]) {
        seq![s1[0]] + merge_spec(ord, s1.drop_first(), s2)
    } else {
        seq![s2[0]] + merge_spec(ord, s1, s2.drop_first())
    }
}

proof fn lemma_merge_spec_empty<O: RecordOrder>(ord: O, s: Seq<Seq<u8>>)
    ensures
        merge_spec(ord, s, Seq::<Seq<u8>>::empty()) == s,
        merge_spec(ord, Seq::<Seq<u8>>::empty(), s) == s,
{
}

/// Two-way merge of two chunks sharing one capacity: repeatedly emit the
/// strictly smaller head, and on ties the second chunk's head before the
/// first's; once one side is exhausted, drain the other verbatim.
pub fn merge<O: RecordOrder>(c1: Chunk, c2: Chunk, ord: &O) -> (c: Chunk)
    requires
        c1.wf(),
        c2.wf(),
        ord.wf(),
        c1.capacity == c2.capacity,
        byte_len(c1.recs()) + byte_len(c2.recs()) <= u64::MAX,
    ensures
        c.wf(),
        c.capacity == c1.capacity,
        c.recs().to_multiset() == (c1.recs() + c2.recs()).to_multiset(),
        sorted_under(*ord, c1.recs()) && sorted_under(*ord, c2.recs()) ==> sorted_under(
            *ord,
            c.recs(),
        ),
        byte_len(c.recs()) == byte_len(c1.recs()) + byte_len(c2.recs()),
        c.recs() == merge_spec(*ord, c1.recs(), c2.recs()),
{
    let ghost s1 = c1.recs();
    let ghost s2 = c2.recs();
    let ghost srt = sorted_under(*ord, s1) && sorted_under(*ord, s2);
    let n1 = c1.records.len();
    let n2 = c2.records.len();
    let mut out: Vec<Vec<u8>> = Vec::new();
    let mut i: usize = 0;
    let mut j: usize = 0;
    proof {
        assert(views_of(out@) =~= Seq::<Seq<u8>>::empty());
        assert((s1.subrange(0, 0) + s2.subrange(0, 0)) =~= Seq::<Seq<u8>>::empty());
        assert(views_of(out@).to_multiset() =~= (s1.subrange(0, 0) + s2.subrange(
            0,
            0,
        )).to_multiset());
        assert(s1.skip(0) =~= s1);
        assert(s2.skip(0) =~= s2);
        assert(views_of(out@) + merge_spec(*ord, s1.skip(0), s2.skip(0)) =~= merge_spec(
            *ord,
            s1,
            s2,
        ));
    }
    while i < n1 && j < n2
        invariant
            i <= s1.len(),
            j <= s2.len(),
            n1 == s1.len(),
            n2 == s2.len(),
            s1 == c1.recs(),
            s2 == c2.recs(),
            ord.wf(),
            srt == (sorted_under(*ord, s1) && sorted_under(*ord, s2)),
            views_of(out@).to_multiset() == (s1.subrange(0, i as int) + s2.subrange(
                0,
                j as int,
            )).to_multiset(),
            views_of(out@).len() == i + j,
            srt ==> sorted_under(*ord, views_of(out@)),
            srt && i + j > 0 ==> forall|t: int|
                i <= t < s1.len() ==> ord.le(views_of(out@).last(), #[trigger] s1[t]),
            srt && i + j > 0 ==> forall|t: int|
                j <= t < s2.len() ==> ord.le(views_of(out@).last(), #[trigger] s2[t]),
            views_of(out@) + merge_spec(*ord, s1.skip(i as int), s2.skip(j as int))
                == merge_spec(*ord, s1, s2),
        decreases s1.len() - i + s2.len() - j,
    {
        let ghost ovs = views_of(out@);
        let o = ord.compare(&c1.records[i], &c2.records[j]);
        if matches!(o, Ordering::Less) {
            out.push(copy_record(&c1.records[i]));
            i = i + 1;
            proof {
                let x = s1[i - 1];
                assert(views_of(out@) =~= ovs.push(x));
                lemma_merge_step(*ord, ovs, x, srt);
                vstd::seq_lib::to_multiset_build(ovs, x);
                assert(s1.subrange(0, i as int) =~= s1.subrange(0, i - 1).push(x));
                lemma_ms_push_left(s1.subrange(0, i - 1), s2.subrange(0, j as int), x);
                assert(s1.skip(i - 1)[0] == x);
                assert(s2.skip(j as int)[0] == s2[j as int]);
                assert(s1.skip(i - 1).drop_first() =~= s1.skip(i as int));
                assert(merge_spec(*ord, s1.skip(i - 1), s2.skip(j as int)) == seq![x]
                    + merge_spec(*ord, s1.skip(i as int), s2.skip(j as int)));
                assert(views_of(out@) + merge_spec(*ord, s1.skip(i as int), s2.skip(j as int))
                    =~= ovs + merge_spec(*ord, s1.skip(i - 1), s2.skip(j as int)));
                if srt {
                    assert forall|t: int| i <= t < s1.len() implies ord.le(
                        views_of(out@).last(),
                        #[trigger] s1[t],
                    ) by {
                        assert(ord.le(s1[i - 1], s1[t]));
                    }
                    assert forall|t: int| j <= t < s2.len() implies ord.le(
                        views_of(out@).last(),
                        #[trigger] s2[t],
                    ) by {
                        if t > j {
                            assert(ord.le(s2[j as int], s2[t]));
                            ord.lemma_transitive(x, s2[j as int], s2[t]);
                        }
                    }
                }
            }
        } else {
            out.push(copy_record(&c2.records[j]));
            j = j + 1;
            proof {
                let x = s2[j - 1];
                assert(views_of(out@) =~= ovs.push(x));
                lemma_merge_step(*ord, ovs, x, srt);
                vstd::seq_lib::to_multiset_build(ovs, x);
                assert(s2.subrange(0, j as int) =~= s2.subrange(0, j - 1).push(x));
                lemma_ms_push_right(s1.subrange(0, i as int), s2.subrange(0, j - 1), x);
                assert(s2.skip(j - 1)[0] == x);
                assert(s1.skip(i as int)[0] == s1[i as int]);
                assert(s2.skip(j - 1).drop_first() =~= s2.skip(j as int));
                assert(merge_spec(*ord, s1.skip(i as int), s2.skip(j - 1)) == seq![x]
                    + merge_spec(*ord, s1.skip(i as int), s2.skip(j as int)));
                assert(views_of(out@) + merge_spec(*ord, s1.skip(i as int), s2.skip(j as int))
                    =~= ovs + merge_spec(*ord, s1.skip(i as int), s2.skip(j - 1)));
                if srt {
                    assert forall|t: int| i <= t < s1.len() implies ord.le(
                        views_of(out@).last(),
                        #[trigger] s1[t],
                    ) by {
                        if t > i {
                            assert(ord.le(s1[i as int], s1[t]));
                            ord.lemma_transitive(x, s1[i as int], s1[t]);
                        }
                    }
                    assert forall|t: int| j <= t < s2.len() implies ord.le(
                        views_of(out@).last(),
                        #[trigger] s2[t],
                    ) by {
                        assert(ord.le(s2[j - 1], s2[t]));
                    }
                }
            }
        }
    }
    if j == n2 {
        proof {
            assert(s2.subrange(0, j as int) =~= s2);
            assert(s2.skip(j as int) =~= Seq::<Seq<u8>>::empty());
            lemma_merge_spec_empty(*ord, s1.skip(i as int));
        }
        while i < n1
            invariant
                i <= s1.len(),
                n1 == s1.len(),
                s1 == c1.recs(),
                s2 == c2.recs(),
                ord.wf(),
                srt == (sorted_under(*ord, s1) && sorted_under(*ord, s2)),
                views_of(out@).to_multiset() == (s1.subrange(0, i as int) + s2).to_multiset(),
                views_of(out@).len() == i + s2.len(),
                srt ==> sorted_under(*ord, views_of(out@)),
                srt && views_of(out@).len() > 0 ==> forall|t: int|
                    i <= t < s1.len() ==> ord.le(views_of(out@).last(), #[trigger] s1[t]),
                views_of(out@) + s1.skip(i as int) == merge_spec(*ord, s1, s2),
            decreases s1.len() - i,
        {
            let ghost ovs = views_of(out@);
            out.push(copy_record(&c1.records[i]));
            i = i + 1;
            proof {
                let x = s1[i - 1];
                assert(views_of(out@) =~= ovs.push(x));
                lemma_merge_step(*ord, ovs, x, srt);
                vstd::seq_lib::to_multiset_build(ovs, x);
                assert(s1.subrange(0, i as int) =~= s1.subrange(0, i - 1).push(x));
                lemma_ms_push_left(s1.subrange(0, i - 1), s2, x);
                assert(s1.skip(i - 1) =~= seq![x] + s1.skip(i as int));
                assert(views_of(out@) + s1.skip(i as int) =~= ovs + s1.skip(i - 1));
                if srt {
                    assert forall|t: int| i <= t < s1.len() implies ord.le(
                        views_of(out@).last(),
                        #[trigger] s1[t],
                    ) by {
                        assert(ord.le(s1[i - 1], s1[t]));
                    }
                }
            }
        }
        proof {
            assert(s1.subrange(0, i as int) =~= s1);
            assert(s1.skip(i as int) =~= Seq::<Seq<u8>>::empty());
            assert(views_of(out@) =~= views_of(out@) + s1.skip(i as int));
        }
    } else {
        proof {
            assert(s1.subrange(0, i as int) =~= s1);
            assert(s1.skip(i as int) =~= Seq::<Seq<u8>>::empty());
            lemma_merge_spec_empty(*ord, s2.skip(j as int));
        }
        while j < n2
            invariant
                j <= s2.len(),
                n2 == s2.len(),
                s1 == c1.recs(),
                s2 == c2.recs(),
                ord.wf(),
                srt == (sorted_under(*ord, s1) && sorted_under(*ord, s2)),
                views_of(out@).to_multiset() == (s1 + s2.subrange(0, j as int)).to_multiset(),
                views_of(out@).len() == s1.len() + j,
                srt ==> sorted_under(*ord, views_of(out@)),
                srt && views_of(out@).len() > 0 ==> forall|t: int|
                    j <= t < s2.len() ==> ord.le(views_of(out@).last(), #[trigger] s2[t]),
                views_of(out@) + s2.skip(j as int) == merge_spec(*ord, s1, s2),
            decreases s2.len() - j,
        {
            let ghost ovs = views_of(out@);
            out.push(copy_record(&c2.records[j]));
            j = j + 1;
            proof {
                let x = s2[j - 1];
                assert(views_of(out@) =~= ovs.push(x));
                lemma_merge_step(*ord, ovs, x, srt);
                vstd::seq_lib::to_multiset_build(ovs, x);
                assert(s2.subrange(0, j as int) =~= s2.subrange(0, j - 1).push(x));
                lemma_ms_push_right(s1, s2.subrange(0, j - 1), x);
                assert(s2.skip(j - 1) =~= seq![x] + s2.skip(j as int));
                assert(views_of(out@) + s2.skip(j as int) =~= ovs + s2.skip(j - 1));
                if srt {
                    assert forall|t: int| j <= t < s2.len() implies ord.le(
                        views_of(out@).last(),
                        #[trigger] s2[t],
                    ) by {
                        assert(ord.le(s2[j - 1], s2[t]));
                    }
                }
            }
        }
        proof {
            assert(s2.subrange(0, j as int) =~= s2);
            assert(s2.skip(j as int) =~= Seq::<Seq<u8>>::empty());
            assert(views_of(out@) =~= views_of(out@) + s2.skip(j as int));
        }
    }
    proof {
        assert(views_of(out@) == merge_spec(*ord, s1, s2));
        lemma_byte_len_multiset(views_of(out@), s1 + s2);
        lemma_byte_len_cat(s1, s2);
    }
    Chunk::new(out, c1.capacity)
}

/// The recursive driver: trivial chunks are already sorted; a chunk that
/// fits the buffer is sorted in memory; anything else is split, each half
/// sorted recursively, and the halves merged. A split whose second half
/// came back empty is sorted in memory directly.
pub fn sort_chunk<O: RecordOrder>(chunk: Chunk, ord: &O) -> (c: Chunk)
    requires
        chunk.wf(),
        ord.wf(),
    ensures
        c.wf(),
        c.capacity == chunk.capacity,
        c.recs().to_multiset() == chunk.recs().to_multiset(),
        sorted_under(*ord, c.recs()),
        byte_len(c.recs()) == byte_len(chunk.recs()),
    decreases chunk.records@.len(),
{
    if matches!(chunk.rough_count, RoughCount::Zero) || matches!(
        chunk.rough_count,
        RoughCount::One,
    ) {
        return chunk;
    }
    if chunk.fit_in_buffer() {
        let r = chunk.sort(ord);
        proof {
            lemma_byte_len_multiset(r.recs(), chunk.recs());
        }
        return r;
    }
    let (c1, c2) = chunk.split();
    let ghost k = chunk.split_point() as int;
    proof {
        assert(chunk.recs() =~= chunk.recs().subrange(0, k) + chunk.recs().skip(k));
        lemma_byte_len_cat(c1.recs(), c2.recs());
        vstd::seq_lib::lemma_multiset_commutative(c1.recs(), c2.recs());
    }
    if matches!(c2.rough_count, RoughCount::Zero) {
        proof {
            assert(c2.recs().len() == 0);
            assert(c1.recs() =~= chunk.recs());
        }
        let r = c1.sort(ord);
        proof {
            lemma_byte_len_multiset(r.recs(), c1.recs());
        }
        return r;
    }
    let s1 = sort_chunk(c1, ord);
    let s2 = sort_chunk(c2, ord);
    proof {
        vstd::seq_lib::lemma_multiset_commutative(s1.recs(), s2.recs());
    }
    let m = merge(s1, s2, ord);
    proof {
        broadcast use vstd::multiset::group_multiset_axioms;

        assert((s1.recs() + s2.recs()).to_multiset() =~= chunk.recs().to_multiset());
    }
    m
}

/// Sort the records of a byte stream under the default order and return
/// their bytes in sorted order, concatenated with nothing added or removed.
pub fn sort(input: Vec<u8>, capacity: u64) -> (out: Vec<u8>)
    ensures
        exists|s: Seq<Seq<u8>>|
            {
                &&& s.to_multiset() == lines_of(input@).to_multiset()
                &&& sorted_default(s)
                &&& out@ == s.flatten()
            },
        all_complete(lines_of(input@)) ==> lines_of(out@).to_multiset() == lines_of(
            input@,
        ).to_multiset() && sorted_default(lines_of(out@)),
{
    broadcast use vstd::seq_lib::group_to_multiset_ensures;

    let n = input.len();
    proof {
        lemma_flatten_lines_of(input@);
        assert(n <= usize::MAX);
        assert(byte_len(lines_of(input@)) <= u64::MAX);
    }
    let recs = split_records(&input);
    let root = Chunk::new(recs, capacity);
    let ord = DefaultOrder {};
    let sorted = sort_chunk(root, &ord);
    let out = concat_records(&sorted.records);
    proof {
        let s = sorted.recs();
        let inrecs = lines_of(input@);
        assert(sorted_default(s)) by {
            assert forall|a: int, b: int| 0 <= a < b < s.len() implies #[trigger] crate::order::default_le(
                s[a],
                s[b],
            ) by {
                assert(ord.le(s[a], s[b]));
            }
        }
        if all_complete(inrecs) {
            assert forall|t: int| 0 <= t < s.len() implies complete_record(#[trigger] s[t]) by {
                assert(s.contains(s[t]));
                assert(s.to_multiset().count(s[t]) > 0);
                assert(inrecs.contains(s[t]));
                let w = choose|w: int| 0 <= w < inrecs.len() && inrecs[w] == s[t];
                assert(complete_record(inrecs[w]));
            }
            assert(wf_records(s));
            lemma_lines_of_flatten_id(s);
        }
    }
    out
}

/// Sort the records of a byte stream under a caller-supplied raw
/// comparator over whole records, terminators included. The comparator
/// must decide some total preorder; the output holds the same records,
/// with no adjacent pair that the comparator could call out of order.
pub fn sort_by<F: Fn(&Vec<u8>, &Vec<u8>) -> Ordering>(input: Vec<u8>, capacity: u64, cmp: F) -> (out:
    Vec<u8>)
    requires
        forall|x: &Vec<u8>, y: &Vec<u8>| #[trigger] call_requires(cmp, (x, y)),
        exists|r: spec_fn(Seq<u8>, Seq<u8>) -> bool|
            #[trigger] comparator_matches(cmp, r) && total_preorder(r),
    ensures
        exists|s: Seq<Seq<u8>>|
            {
                &&& s.to_multiset() == lines_of(input@).to_multiset()
                &&& out@ == s.flatten()
                &&& comparator_sorted(cmp, s)
            },
{
    let n = input.len();
    proof {
        lemma_flatten_lines_of(input@);
        assert(n <= usize::MAX);
        assert(byte_len(lines_of(input@)) <= u64::MAX);
    }
    let ghost r = choose|r: spec_fn(Seq<u8>, Seq<u8>) -> bool|
        #[trigger] comparator_matches(cmp, r) && total_preorder(r);
    let recs = split_records(&input);
    let root = Chunk::new(recs, capacity);
    let ord = CmpOrder { cmp, r: Ghost(r) };
    let sorted = sort_chunk(root, &ord);
    let out = concat_records(&sorted.records);
    proof {
        let s = sorted.recs();
        assert(comparator_sorted(ord.cmp, s)) by {
            assert forall|i: int| 0 <= i < s.len() - 1 implies #[trigger] never_greater(
                ord.cmp,
                s[i],
                s[i + 1],
            ) by {
                assert(ord.le(s[i], s[i + 1]));
            }
        }
    }
    out
}

/// Sort the records of a byte stream under a caller-supplied key function:
/// records compare by their keys under `K`'s three-way comparison. The
/// output holds the same records, with no adjacent pair whose keys compare
/// out of order.
pub fn sort_by_key<F: Fn(&Vec<u8>) -> K, K: Ord>(input: Vec<u8>, capacity: u64, conv: F) -> (out:
    Vec<u8>)
    requires
        forall|x: &Vec<u8>| #[trigger] call_requires(conv, (x,)),
        exists|kf: spec_fn(Seq<u8>) -> K| #[trigger] key_fn_matches(conv, kf),
        key_cmp_lawful::<K>(),
    ensures
        exists|s: Seq<Seq<u8>>|
            {
                &&& s.to_multiset() == lines_of(input@).to_multiset()
                &&& out@ == s.flatten()
                &&& key_sorted(conv, s)
            },
{
    let n = input.len();
    proof {
        lemma_flatten_lines_of(input@);
        assert(n <= usize::MAX);
        assert(byte_len(lines_of(input@)) <= u64::MAX);
    }
    let ghost kf = choose|kf: spec_fn(Seq<u8>) -> K| #[trigger] key_fn_matches(conv, kf);
    let recs = split_records(&input);
    let root = Chunk::new(recs, capacity);
    let ord = KeyOrder { conv, kf: Ghost(kf) };
    let sorted = sort_chunk(root, &ord);
    let out = concat_records(&sorted.records);
    proof {
        let s = sorted.recs();
        assert(key_sorted(ord.conv, s)) by {
            assert forall|i: int| 0 <= i < s.len() - 1 implies #[trigger] key_never_greater(
                ord.conv,
                s[i],
                s[i + 1],
            ) by {
                assert(ord.le(s[i], s[i + 1]));
                assert(kf(s[i]).cmp_spec(&kf(s[i + 1])) != Ordering::Greater);
            }
        }
    }
    out
}

} // verus!
