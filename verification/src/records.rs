use vstd::prelude::*;

verus! {

use vstd::seq_lib::lemma_flatten_concat;

/// The views of a sequence of byte vectors.
pub open spec fn views_of(s: Seq<Vec<u8>>) -> Seq<Seq<u8>> {
    Seq::new(s.len(), |i: int| s[i]@)
}

/// Total number of bytes held by a sequence of records.
pub open spec fn byte_len(s: Seq<Seq<u8>>) -> nat
    decreases s.len(),
{
    if s.len() == 0 {
        0
    } else {
        s[0].len() + byte_len(s.drop_first())
    }
}

pub proof fn lemma_byte_len_cat(a: Seq<Seq<u8>>, b: Seq<Seq<u8>>)
    ensures
        byte_len(a + b) == byte_len(a) + byte_len(b),
    decreases a.len(),
{
    if a.len() == 0 {
        assert(a + b =~= b);
        assert(byte_len(a) == 0);
    } else {
        assert((a + b).drop_first() =~= a.drop_first() + b);
        lemma_byte_len_cat(a.drop_first(), b);
        assert(byte_len(a + b) == (a + b)[0].len() + byte_len((a + b).drop_first()));
        assert(byte_len(a) == a[0].len() + byte_len(a.drop_first()));
    }
}

pub proof fn lemma_byte_len_singleton(x: Seq<u8>)
    ensures
        byte_len(seq![x]) == x.len(),
{
    assert(seq![x].drop_first() =~= Seq::<Seq<u8>>::empty());
    assert(byte_len(Seq::<Seq<u8>>::empty()) == 0);
    assert(byte_len(seq![x]) == seq![x][0].len() + byte_len(seq![x].drop_first()));
}

pub proof fn lemma_byte_len_push(s: Seq<Seq<u8>>, x: Seq<u8>)
    ensures
        byte_len(s.push(x)) == byte_len(s) + x.len(),
{
    lemma_byte_len_cat(s, seq![x]);
    lemma_byte_len_singleton(x);
    assert(s.push(x) =~= s + seq![x]);
}

/// Removing one record shortens the byte count by that record's length.
pub proof fn lemma_byte_len_remove(s: Seq<Seq<u8>>, i: int)
    requires
        0 <= i < s.len(),
    ensures
        byte_len(s.remove(i)) + s[i].len() == byte_len(s),
{
    let left = s.subrange(0, i);
    let mid = seq![s[i]];
    let right = s.subrange(i + 1, s.len() as int);
    assert(s =~= left + mid + right);
    assert(s.remove(i) =~= left + right);
    lemma_byte_len_cat(left + mid, right);
    lemma_byte_len_cat(left, mid);
    lemma_byte_len_cat(left, right);
    lemma_byte_len_singleton(s[i]);
}

/// Two record sequences holding the same multiset of records hold the same
/// number of bytes.
pub proof fn lemma_byte_len_multiset(s: Seq<Seq<u8>>, t: Seq<Seq<u8>>)
    requires
        s.to_multiset() == t.to_multiset(),
    ensures
        byte_len(s) == byte_len(t),
    decreases s.len(),
{
    broadcast use vstd::seq_lib::group_to_multiset_ensures;
    broadcast use vstd::multiset::group_multiset_axioms;

    if s.len() == 0 {
        assert(s.to_multiset().len() == 0);
        assert(t.to_multiset().len() == t.len());
        assert(byte_len(t) == 0);
    } else {
        let x = s[0];
        assert(s.contains(x));
        assert(s.to_multiset().count(x) > 0);
        assert(t.to_multiset().count(x) > 0);
        assert(t.contains(x));
        let j = choose|j: int| 0 <= j < t.len() && t[j] == x;
        assert(s.remove(0).to_multiset() =~= s.to_multiset().remove(x));
        assert(t.remove(j).to_multiset() =~= t.to_multiset().remove(x));
        lemma_byte_len_multiset(s.remove(0), t.remove(j));
        lemma_byte_len_remove(t, j);
        lemma_byte_len_remove(s, 0);
    }
}

pub proof fn lemma_byte_len_prefix(s: Seq<Seq<u8>>, k: int)
    requires
        0 <= k <= s.len(),
    ensures
        byte_len(s.subrange(0, k)) <= byte_len(s),
{
    assert(s =~= s.subrange(0, k) + s.skip(k));
    lemma_byte_len_cat(s.subrange(0, k), s.skip(k));
}

/// Length of the first record of a byte stream: everything up to and
/// including the first line feed, or the whole stream if there is none.
pub open spec fn first_line_len(bs: Seq<u8>) -> nat
    decreases bs.len(),
{
    if bs.len() == 0 {
        0
    } else if bs[0] == 10 {
        1
    } else {
        1 + first_line_len(bs.drop_first())
    }
}

pub proof fn lemma_first_line_len_bounds(bs: Seq<u8>)
    requires
        bs.len() > 0,
    ensures
        1 <= first_line_len(bs) <= bs.len(),
    decreases bs.len(),
{
    if bs[0] != 10 {
        if bs.len() > 1 {
            lemma_first_line_len_bounds(bs.drop_first());
        } else {
            assert(bs.drop_first().len() == 0);
            assert(first_line_len(bs.drop_first()) == 0);
        }
    }
}

/// The records of a byte stream: split after every line feed; a final
/// record without a terminator is kept as it stands.
pub open spec fn lines_of(bs: Seq<u8>) -> Seq<Seq<u8>>
    decreases bs.len() via lines_of_decreases
{
    if bs.len() == 0 {
        Seq::empty()
    } else {
        seq![bs.subrange(0, first_line_len(bs) as int)] + lines_of(
            bs.skip(first_line_len(bs) as int),
        )
    }
}

#[via_fn]
proof fn lines_of_decreases(bs: Seq<u8>) {
    if bs.len() > 0 {
        lemma_first_line_len_bounds(bs);
    }
}

/// A record that carries its terminator: nonempty, ends with a line feed,
/// and holds no other line feed.
pub open spec fn complete_record(r: Seq<u8>) -> bool {
    &&& r.len() > 0
    &&& r.last() == 10
    &&& forall|i: int| 0 <= i < r.len() - 1 ==> r[i] != 10
}

/// A record as `lines_of` produces them: nonempty, with a line feed at most
/// as its final byte.
pub open spec fn wf_record(r: Seq<u8>) -> bool {
    &&& r.len() > 0
    &&& forall|i: int| 0 <= i < r.len() - 1 ==> r[i] != 10
}

/// Every record is complete: the stream ends in a line feed.
pub open spec fn all_complete(rs: Seq<Seq<u8>>) -> bool {
    forall|i: int| 0 <= i < rs.len() ==> complete_record(#[trigger] rs[i])
}

/// A well-formed record sequence: all records complete but possibly the
/// last, which may lack its terminator.
pub open spec fn wf_records(rs: Seq<Seq<u8>>) -> bool {
    &&& forall|i: int| 0 <= i < rs.len() - 1 ==> complete_record(#[trigger] rs[i])
    &&& rs.len() > 0 ==> wf_record(rs.last())
}

/// The first record of `r + tail` is exactly `r` when `r` is complete.
pub proof fn lemma_first_line_of_complete(r: Seq<u8>, tail: Seq<u8>)
    requires
        complete_record(r),
    ensures
        first_line_len(r + tail) == r.len(),
    decreases r.len(),
{
    if r.len() == 1 {
        assert((r + tail)[0] == 10);
    } else {
        assert((r + tail)[0] == r[0]);
        assert(r[0] != 10);
        assert((r + tail).drop_first() =~= r.drop_first() + tail);
        assert(complete_record(r.drop_first())) by {
            assert(r.drop_first().last() == r.last());
            assert forall|i: int| 0 <= i < r.drop_first().len() - 1 implies r.drop_first()[i]
                != 10 by {
                assert(r.drop_first()[i] == r[i + 1]);
            }
        }
        lemma_first_line_of_complete(r.drop_first(), tail);
    }
}

/// Splitting `flatten(rs) + tail` first yields the complete records `rs`.
pub proof fn lemma_lines_of_concat(rs: Seq<Seq<u8>>, tail: Seq<u8>)
    requires
        forall|i: int| 0 <= i < rs.len() ==> complete_record(#[trigger] rs[i]),
    ensures
        lines_of(rs.flatten() + tail) == rs + lines_of(tail),
    decreases rs.len(),
{
    if rs.len() == 0 {
        assert(rs.flatten() + tail =~= tail);
        assert(rs + lines_of(tail) =~= lines_of(tail));
    } else {
        let r0 = rs[0];
        let rest = rs.drop_first();
        assert(rs.flatten() == r0 + rest.flatten());
        let bs = rs.flatten() + tail;
        assert(bs =~= r0 + (rest.flatten() + tail));
        lemma_first_line_of_complete(r0, rest.flatten() + tail);
        assert(first_line_len(bs) == r0.len());
        assert(bs.subrange(0, r0.len() as int) =~= r0);
        assert(bs.skip(r0.len() as int) =~= rest.flatten() + tail);
        lemma_lines_of_concat(rest, tail);
        assert(lines_of(bs) =~= seq![r0] + (rest + lines_of(tail)));
        assert(seq![r0] + (rest + lines_of(tail)) =~= rs + lines_of(tail));
    }
}

proof fn lemma_fll_no_lf(r: Seq<u8>)
    requires
        r.len() > 0,
        forall|i: int| 0 <= i < r.len() ==> r[i] != 10,
    ensures
        first_line_len(r) == r.len(),
    decreases r.len(),
{
    assert(r[0] != 10);
    if r.len() > 1 {
        assert forall|i: int| 0 <= i < r.drop_first().len() implies r.drop_first()[i] != 10 by {
            assert(r.drop_first()[i] == r[i + 1]);
        }
        lemma_fll_no_lf(r.drop_first());
    } else {
        assert(first_line_len(r.drop_first()) == 0);
    }
}

/// A nonempty stream without any line feed is one single record.
pub proof fn lemma_lines_of_unterminated(r: Seq<u8>)
    requires
        r.len() > 0,
        forall|i: int| 0 <= i < r.len() ==> r[i] != 10,
    ensures
        lines_of(r) == seq![r],
{
    lemma_fll_no_lf(r);
    assert(r.subrange(0, r.len() as int) =~= r);
    assert(r.skip(r.len() as int) =~= Seq::<u8>::empty());
    assert(lines_of(Seq::<u8>::empty()) =~= Seq::<Seq<u8>>::empty());
    assert(lines_of(r) =~= seq![r]);
}

/// Round trip: concatenating a well-formed record sequence and splitting it
/// again restores the records.
pub proof fn lemma_lines_of_flatten_id(rs: Seq<Seq<u8>>)
    requires
        wf_records(rs),
    ensures
        lines_of(rs.flatten()) == rs,
{
    if rs.len() == 0 {
        assert(rs.flatten() =~= Seq::<u8>::empty());
        assert(lines_of(rs.flatten()) =~= rs);
    } else {
        let front = rs.drop_last();
        let last = rs.last();
        assert forall|i: int| 0 <= i < front.len() implies complete_record(#[trigger] front[i]) by {
            assert(front[i] == rs[i]);
        }
        if last.last() == 10 {
            assert(complete_record(last));
            assert forall|i: int| 0 <= i < rs.len() implies complete_record(#[trigger] rs[i]) by {
                if i < rs.len() - 1 {
                } else {
                    assert(rs[i] == last);
                }
            }
            lemma_lines_of_concat(rs, Seq::<u8>::empty());
            assert(rs.flatten() + Seq::<u8>::empty() =~= rs.flatten());
            assert(rs + lines_of(Seq::<u8>::empty()) =~= rs);
        } else {
            assert(forall|i: int| 0 <= i < last.len() ==> last[i] != 10) by {
                assert(forall|i: int| 0 <= i < last.len() - 1 ==> last[i] != 10);
            }
            lemma_lines_of_concat(front, last);
            assert(front.push(last) =~= rs);
            front.lemma_flatten_push(last);
            assert(rs.flatten() == front.flatten() + last);
            lemma_lines_of_unterminated(last);
            assert(front + seq![last] =~= rs);
        }
    }
}

/// The first record of any nonempty stream holds no interior line feed, and
/// either ends with a line feed or is the whole stream.
proof fn lemma_fll_head(bs: Seq<u8>)
    requires
        bs.len() > 0,
    ensures
        forall|i: int| 0 <= i < first_line_len(bs) - 1 ==> bs[i] != 10,
        first_line_len(bs) == bs.len() || bs[first_line_len(bs) as int - 1] == 10,
    decreases bs.len(),
{
    lemma_first_line_len_bounds(bs);
    if bs[0] != 10 {
        if bs.len() > 1 {
            lemma_fll_head(bs.drop_first());
            lemma_first_line_len_bounds(bs.drop_first());
            let k = first_line_len(bs) as int;
            assert forall|i: int| 0 <= i < k - 1 implies bs[i] != 10 by {
                if i > 0 {
                    assert(bs.drop_first()[i - 1] == bs[i]);
                }
            }
            assert(bs.drop_first()[first_line_len(bs.drop_first()) as int - 1] == bs[k - 1]);
        } else {
            assert(first_line_len(bs.drop_first()) == 0);
        }
    }
}

/// Splitting any stream and flattening the records restores the stream, and
/// the records are well formed.
pub proof fn lemma_flatten_lines_of(bs: Seq<u8>)
    ensures
        lines_of(bs).flatten() == bs,
        wf_records(lines_of(bs)),
        byte_len(lines_of(bs)) == bs.len(),
    decreases bs.len(),
{
    if bs.len() == 0 {
        assert(lines_of(bs).flatten() =~= bs);
        assert(byte_len(lines_of(bs)) == 0);
    } else {
        lemma_first_line_len_bounds(bs);
        lemma_fll_head(bs);
        let k = first_line_len(bs) as int;
        let head = bs.subrange(0, k);
        let rest = bs.skip(k);
        lemma_flatten_lines_of(rest);
        assert(lines_of(bs) == seq![head] + lines_of(rest));
        lemma_flatten_concat(seq![head], lines_of(rest));
        assert(seq![head].flatten() == head) by {
            seq![head].lemma_flatten_one_element();
        }
        assert(head + rest =~= bs);
        lemma_byte_len_cat(seq![head], lines_of(rest));
        lemma_byte_len_singleton(head);
        assert(wf_record(head)) by {
            assert(forall|i: int| 0 <= i < k - 1 ==> head[i] == bs[i]);
        }
        if lines_of(rest).len() == 0 {
            assert(rest.len() == 0) by {
                if rest.len() > 0 {
                    lemma_first_line_len_bounds(rest);
                }
            }
            assert(lines_of(bs) =~= seq![head]);
            assert(wf_records(lines_of(bs)));
        } else {
            assert(rest.len() > 0);
            assert(complete_record(head)) by {
                assert(k < bs.len());
                assert(head.last() == bs[k - 1]);
            }
            assert forall|i: int| 0 <= i < lines_of(bs).len() - 1 implies complete_record(
                #[trigger] lines_of(bs)[i],
            ) by {
                if i > 0 {
                    assert(lines_of(bs)[i] == lines_of(rest)[i - 1]);
                }
            }
            assert(lines_of(bs).last() == lines_of(rest).last());
        }
    }
}

/// Split a byte stream into its records.
pub fn split_records(input: &Vec<u8>) -> (out: Vec<Vec<u8>>)
    ensures
        views_of(out@) == lines_of(input@),
{
    let mut out: Vec<Vec<u8>> = Vec::new();
    let mut cur: Vec<u8> = Vec::new();
    let mut pos: usize = 0;
    proof {
        assert(views_of(out@).flatten() =~= Seq::<u8>::empty());
        assert(views_of(out@).flatten() + cur@ =~= input@.subrange(0, 0));
    }
    while pos < input.len()
        invariant
            pos <= input@.len(),
            views_of(out@).flatten() + cur@ == input@.subrange(0, pos as int),
            forall|i: int| 0 <= i < out@.len() ==> complete_record(#[trigger] views_of(out@)[i]),
            forall|i: int| 0 <= i < cur@.len() ==> cur@[i] != 10,
        decreases input@.len() - pos,
    {
        let b = input[pos];
        let ghost old_out = views_of(out@);
        let ghost old_cur = cur@;
        cur.push(b);
        pos = pos + 1;
        proof {
            assert(input@.subrange(0, pos as int) =~= input@.subrange(0, pos - 1).push(b));
            assert(old_out.flatten() + old_cur.push(b) =~= (old_out.flatten() + old_cur).push(b));
        }
        if b == 10 {
            proof {
                assert(complete_record(cur@)) by {
                    assert forall|i: int| 0 <= i < cur@.len() - 1 implies cur@[i] != 10 by {
                        assert(cur@[i] == old_cur[i]);
                    }
                }
            }
            out.push(cur);
            cur = Vec::new();
            proof {
                assert(views_of(out@) =~= old_out.push(old_cur.push(10)));
                old_out.lemma_flatten_push(old_cur.push(10));
                assert(views_of(out@).flatten() + cur@ =~= views_of(out@).flatten());
                assert(views_of(out@).flatten() + cur@ =~= input@.subrange(0, pos as int));
            }
        } else {
            proof {
                assert(views_of(out@).flatten() + cur@ =~= input@.subrange(0, pos as int));
            }
        }
    }
    if cur.len() > 0 {
        let ghost old_out = views_of(out@);
        let ghost old_cur = cur@;
        out.push(cur);
        proof {
            assert(views_of(out@) =~= old_out.push(old_cur));
            old_out.lemma_flatten_push(old_cur);
        }
    }
    proof {
        assert(input@.subrange(0, input@.len() as int) =~= input@);
        assert(views_of(out@).flatten() == input@);
        assert(wf_records(views_of(out@)));
        lemma_lines_of_flatten_id(views_of(out@));
    }
    out
}

/// Inserting an element anywhere in a sequence inserts it into the
/// sequence's multiset.
pub proof fn lemma_to_multiset_insert<A>(s: Seq<A>, p: int, x: A)
    requires
        0 <= p <= s.len(),
    ensures
        s.insert(p, x).to_multiset() == s.to_multiset().insert(x),
{
    broadcast use vstd::seq_lib::group_to_multiset_ensures;
    broadcast use vstd::multiset::group_multiset_axioms;

    let t = s.insert(p, x);
    assert(t.remove(p) =~= s);
    assert(t[p] == x);
    assert(t.remove(p).to_multiset() =~= t.to_multiset().remove(t[p]));
    assert(t.contains(x));
    assert(t.to_multiset().count(x) > 0);
    assert(t.to_multiset() =~= s.to_multiset().insert(x)) by {
        assert(forall|y: A|
            s.to_multiset().insert(x).count(y) == s.to_multiset().count(y) + (if y == x {
                1int
            } else {
                0int
            }));
        assert(forall|y: A|
            t.to_multiset().remove(x).count(y) == t.to_multiset().count(y) - (if y == x {
                1int
            } else {
                0int
            }));
    }
}

/// Copy one record byte for byte.
pub fn copy_record(r: &Vec<u8>) -> (c: Vec<u8>)
    ensures
        c@ == r@,
{
    let mut c: Vec<u8> = Vec::new();
    let mut j: usize = 0;
    while j < r.len()
        invariant
            j <= r@.len(),
            c@ == r@.subrange(0, j as int),
        decreases r@.len() - j,
    {
        c.push(r[j]);
        j = j + 1;
        proof {
            assert(r@.subrange(0, j - 1).push(r@[j - 1]) =~= r@.subrange(0, j as int));
        }
    }
    proof {
        assert(r@.subrange(0, r@.len() as int) =~= r@);
    }
    c
}

/// Concatenate records back into one byte stream.
pub fn concat_records(recs: &Vec<Vec<u8>>) -> (out: Vec<u8>)
    ensures
        out@ == views_of(recs@).flatten(),
{
    let mut out: Vec<u8> = Vec::new();
    let mut i: usize = 0;
    proof {
        assert(views_of(recs@.subrange(0, 0)).flatten() =~= Seq::<u8>::empty());
    }
    while i < recs.len()
        invariant
            i <= recs@.len(),
            out@ == views_of(recs@.subrange(0, i as int)).flatten(),
        decreases recs@.len() - i,
    {
        let ghost old_out = out@;
        let r = &recs[i];
        let mut j: usize = 0;
        while j < r.len()
            invariant
                j <= r@.len(),
                out@ == old_out + r@.subrange(0, j as int),
            decreases r@.len() - j,
        {
            out.push(r[j]);
            j = j + 1;
            proof {
                assert((old_out + r@.subrange(0, j - 1)).push(r@[j - 1]) =~= old_out
                    + r@.subrange(0, j as int));
            }
        }
        i = i + 1;
        proof {
            assert(r@.subrange(0, r@.len() as int) =~= r@);
            assert(views_of(recs@.subrange(0, i as int)) =~= views_of(
                recs@.subrange(0, i - 1),
            ).push(r@));
            views_of(recs@.subrange(0, i - 1)).lemma_flatten_push(r@);
        }
    }
    proof {
        assert(recs@.subrange(0, recs@.len() as int) =~= recs@);
    }
    out
}

} // verus!
