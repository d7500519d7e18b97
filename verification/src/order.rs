use vstd::prelude::*;

verus! {

use core::cmp::Ordering;
use vstd::std_specs::cmp::OrdSpec;

/// Lexicographic order on byte sequences: `a` sorts at or before `b`.
pub open spec fn lex_le(a: Seq<u8>, b: Seq<u8>) -> bool
    decreases a.len(),
{
    if a.len() == 0 {
        true
    } else if b.len() == 0 {
        false
    } else if a[0] < b[0] {
        true
    } else if a[0] > b[0] {
        false
    } else {
        lex_le(a.drop_first(), b.drop_first())
    }
}

/// A record with all trailing line-feed and carriage-return bytes removed.
pub open spec fn trim_spec(a: Seq<u8>) -> Seq<u8>
    decreases a.len(),
{
    if a.len() > 0 && (a.last() == 10 || a.last() == 13) {
        trim_spec(a.drop_last())
    } else {
        a
    }
}

/// The default record order: records compare by their trimmed bytes.
/// For UTF-8 text this coincides with comparing the decoded characters,
/// since UTF-8 preserves the order of Unicode scalar values byte-wise.
pub open spec fn default_le(a: Seq<u8>, b: Seq<u8>) -> bool {
    lex_le(trim_spec(a), trim_spec(b))
}

pub proof fn lemma_lex_le_connex(a: Seq<u8>, b: Seq<u8>)
    ensures
        lex_le(a, b) || lex_le(b, a),
    decreases a.len(),
{
    if a.len() > 0 && b.len() > 0 && a[0] == b[0] {
        lemma_lex_le_connex(a.drop_first(), b.drop_first());
    }
}

pub proof fn lemma_lex_le_trans(a: Seq<u8>, b: Seq<u8>, c: Seq<u8>)
    requires
        lex_le(a, b),
        lex_le(b, c),
    ensures
        lex_le(a, c),
    decreases a.len(),
{
    if a.len() > 0 && b.len() > 0 && c.len() > 0 && a[0] == b[0] && b[0] == c[0] {
        lemma_lex_le_trans(a.drop_first(), b.drop_first(), c.drop_first());
    }
}

pub proof fn lemma_lex_le_antisym(a: Seq<u8>, b: Seq<u8>)
    requires
        lex_le(a, b),
        lex_le(b, a),
    ensures
        a == b,
    decreases a.len(),
{
    if a.len() > 0 && b.len() > 0 && a[0] == b[0] {
        lemma_lex_le_antisym(a.drop_first(), b.drop_first());
        assert forall|i: int| 0 <= i < a.len() implies a[i] == b[i] by {
            if i > 0 {
                assert(a[i] == a.drop_first()[i - 1]);
                assert(b[i] == b.drop_first()[i - 1]);
            }
        }
        assert(a =~= b);
    }
}

/// Skipping an equal prefix does not change how two byte sequences compare.
pub proof fn lemma_lex_le_skip(a: Seq<u8>, b: Seq<u8>, k: int)
    requires
        0 <= k <= a.len(),
        k <= b.len(),
        forall|j: int| 0 <= j < k ==> a[j] == b[j],
    ensures
        lex_le(a, b) == lex_le(a.skip(k), b.skip(k)),
    decreases k,
{
    if k > 0 {
        assert(a[0] == b[0]);
        assert forall|j: int| 0 <= j < k - 1 implies a.drop_first()[j] == b.drop_first()[j] by {
            assert(a.drop_first()[j] == a[j + 1]);
        }
        lemma_lex_le_skip(a.drop_first(), b.drop_first(), k - 1);
        assert(a.drop_first().skip(k - 1) =~= a.skip(k));
        assert(b.drop_first().skip(k - 1) =~= b.skip(k));
    } else {
        assert(a.skip(0) =~= a);
        assert(b.skip(0) =~= b);
    }
}

/// If everything from position `t` on is a line terminator byte and the byte
/// before `t` (if any) is not, then trimming yields exactly the prefix of
/// length `t`.
pub proof fn lemma_trim_point(a: Seq<u8>, t: int)
    requires
        0 <= t <= a.len(),
        forall|j: int| t <= j < a.len() ==> a[j] == 10 || a[j] == 13,
        t > 0 ==> !(a[t - 1] == 10 || a[t - 1] == 13),
    ensures
        trim_spec(a) == a.subrange(0, t),
    decreases a.len(),
{
    if a.len() > t {
        assert(a.last() == 10 || a.last() == 13);
        lemma_trim_point(a.drop_last(), t);
        assert(a.drop_last().subrange(0, t) =~= a.subrange(0, t));
    } else {
        assert(a.subrange(0, t) =~= a);
    }
}

/// A total order capability over raw records, threaded unchanged through a
/// whole sort invocation. `le` is the mathematical relation the sort is
/// stated against; `compare` is the executable three-way comparison.
pub trait RecordOrder: Sized {
    /// Whether this order value is usable: its relation is a total preorder
    /// and its comparator agrees with that relation.
    spec fn wf(&self) -> bool;

    /// The "sorts at or before" relation on records.
    spec fn le(&self, a: Seq<u8>, b: Seq<u8>) -> bool;

    proof fn lemma_connex(&self, a: Seq<u8>, b: Seq<u8>)
        requires
            self.wf(),
        ensures
            self.le(a, b) || self.le(b, a),
    ;

    proof fn lemma_transitive(&self, a: Seq<u8>, b: Seq<u8>, c: Seq<u8>)
        requires
            self.wf(),
            self.le(a, b),
            self.le(b, c),
        ensures
            self.le(a, c),
    ;

    /// Three-way comparison of two raw records.
    fn compare(&self, x: &Vec<u8>, y: &Vec<u8>) -> (o: Ordering)
        requires
            self.wf(),
        ensures
            o == Ordering::Less ==> self.le(x@, y@) && !self.le(y@, x@),
            o != Ordering::Less ==> self.le(y@, x@),
    ;
}

/// A record sequence is sorted under the default order.
pub open spec fn sorted_default(s: Seq<Seq<u8>>) -> bool {
    forall|i: int, j: int| 0 <= i < j < s.len() ==> #[trigger] default_le(s[i], s[j])
}

/// A record sequence is sorted under an order: every record sorts at or
/// before every later one.
pub open spec fn sorted_under<O: RecordOrder>(ord: O, s: Seq<Seq<u8>>) -> bool {
    forall|i: int, j: int| 0 <= i < j < s.len() ==> #[trigger] ord.le(s[i], s[j])
}

/// The default order: strip trailing terminators, then compare bytes.
pub struct DefaultOrder {}

/// Length of `x` once all trailing line terminator bytes are dropped.
fn trim_len(x: &Vec<u8>) -> (t: usize)
    ensures
        t <= x@.len(),
        trim_spec(x@) == x@.subrange(0, t as int),
{
    let mut t: usize = x.len();
    while t > 0 && (x[t - 1] == 10 || x[t - 1] == 13)
        invariant
            t <= x@.len(),
            forall|j: int| t <= j < x@.len() ==> x@[j] == 10 || x@[j] == 13,
        decreases t,
    {
        t = t - 1;
    }
    proof {
        lemma_trim_point(x@, t as int);
    }
    t
}

/// A total preorder on records: any two compare, and the relation chains.
pub open spec fn total_preorder(r: spec_fn(Seq<u8>, Seq<u8>) -> bool) -> bool {
    &&& forall|a: Seq<u8>, b: Seq<u8>| #[trigger] r(a, b) || #[trigger] r(b, a)
    &&& forall|a: Seq<u8>, b: Seq<u8>, c: Seq<u8>|
        #[trigger] r(a, b) && #[trigger] r(b, c) ==> r(a, c)
}

/// Every outcome the comparator can return classifies its two arguments
/// exactly as the relation `r` does.
pub open spec fn comparator_matches<F: Fn(&Vec<u8>, &Vec<u8>) -> Ordering>(
    cmp: F,
    r: spec_fn(Seq<u8>, Seq<u8>) -> bool,
) -> bool {
    forall|x: &Vec<u8>, y: &Vec<u8>, o: Ordering|
        #[trigger] call_ensures(cmp, (x, y), o) ==> {
            &&& (o == Ordering::Less ==> r(x@, y@) && !r(y@, x@))
            &&& (o == Ordering::Equal ==> r(x@, y@) && r(y@, x@))
            &&& (o == Ordering::Greater ==> r(y@, x@) && !r(x@, y@))
        }
}

/// No possible outcome of the comparator holds `a` strictly greater
/// than `b`.
pub open spec fn never_greater<F: Fn(&Vec<u8>, &Vec<u8>) -> Ordering>(
    cmp: F,
    a: Seq<u8>,
    b: Seq<u8>,
) -> bool {
    forall|x: &Vec<u8>, y: &Vec<u8>, o: Ordering|
        x@ == a && y@ == b && #[trigger] call_ensures(cmp, (x, y), o) ==> o != Ordering::Greater
}

/// No adjacent pair of records is out of order under the comparator.
pub open spec fn comparator_sorted<F: Fn(&Vec<u8>, &Vec<u8>) -> Ordering>(
    cmp: F,
    s: Seq<Seq<u8>>,
) -> bool {
    forall|i: int| 0 <= i < s.len() - 1 ==> #[trigger] never_greater(cmp, s[i], s[i + 1])
}

/// An order given by a caller-supplied raw comparator over whole records,
/// paired with the relation that the comparator decides.
pub struct CmpOrder<F> {
    pub cmp: F,
    pub r: Ghost<spec_fn(Seq<u8>, Seq<u8>) -> bool>,
}

impl<F: Fn(&Vec<u8>, &Vec<u8>) -> Ordering> RecordOrder for CmpOrder<F> {
    open spec fn wf(&self) -> bool {
        &&& forall|x: &Vec<u8>, y: &Vec<u8>| #[trigger] call_requires(self.cmp, (x, y))
        &&& comparator_matches(self.cmp, self.r@)
        &&& total_preorder(self.r@)
    }

    open spec fn le(&self, a: Seq<u8>, b: Seq<u8>) -> bool {
        (self.r@)(a, b)
    }

    proof fn lemma_connex(&self, a: Seq<u8>, b: Seq<u8>) {
        assert((self.r@)(a, b) || (self.r@)(b, a));
    }

    proof fn lemma_transitive(&self, a: Seq<u8>, b: Seq<u8>, c: Seq<u8>) {
        assert((self.r@)(a, b) && (self.r@)(b, c));
    }

    fn compare(&self, x: &Vec<u8>, y: &Vec<u8>) -> (o: Ordering) {
        (self.cmp)(x, y)
    }
}

/// The record order a key function and `K`'s three-way comparison induce.
pub open spec fn key_le<K: Ord>(kf: spec_fn(Seq<u8>) -> K, a: Seq<u8>, b: Seq<u8>) -> bool {
    kf(a).cmp_spec(&kf(b)) != Ordering::Greater
}

/// `K`'s three-way comparison is usable as a total order: its specification
/// is decided, reverses cleanly, and chains.
pub open spec fn key_cmp_lawful<K: Ord>() -> bool {
    &&& K::obeys_cmp_spec()
    &&& forall|a: K, b: K|
        (#[trigger] a.cmp_spec(&b)) == Ordering::Greater <==> b.cmp_spec(&a) == Ordering::Less
    &&& forall|a: K, b: K, c: K|
        (#[trigger] a.cmp_spec(&b)) != Ordering::Greater && (#[trigger] b.cmp_spec(&c))
            != Ordering::Greater ==> a.cmp_spec(&c) != Ordering::Greater
}

/// Whatever the call, the key function computes `kf` of the record's bytes.
pub open spec fn key_fn_matches<F: Fn(&Vec<u8>) -> K, K>(
    conv: F,
    kf: spec_fn(Seq<u8>) -> K,
) -> bool {
    forall|x: &Vec<u8>, k: K| #[trigger] call_ensures(conv, (x,), k) ==> k == kf(x@)
}

/// No possible keys of `a` and `b` compare `a` strictly greater than `b`.
pub open spec fn key_never_greater<F: Fn(&Vec<u8>) -> K, K: Ord>(
    conv: F,
    a: Seq<u8>,
    b: Seq<u8>,
) -> bool {
    forall|x: &Vec<u8>, y: &Vec<u8>, ka: K, kb: K|
        x@ == a && y@ == b && #[trigger] call_ensures(conv, (x,), ka) && #[trigger] call_ensures(
            conv,
            (y,),
            kb,
        ) ==> ka.cmp_spec(&kb) != Ordering::Greater
}

/// No adjacent pair of records is out of order under the key function.
pub open spec fn key_sorted<F: Fn(&Vec<u8>) -> K, K: Ord>(conv: F, s: Seq<Seq<u8>>) -> bool {
    forall|i: int| 0 <= i < s.len() - 1 ==> #[trigger] key_never_greater(conv, s[i], s[i + 1])
}

/// An order given by a caller-supplied key function: records compare by
/// their keys under `K`'s three-way comparison.
pub struct KeyOrder<F, K> {
    pub conv: F,
    pub kf: Ghost<spec_fn(Seq<u8>) -> K>,
}

impl<K: Ord, F: Fn(&Vec<u8>) -> K> RecordOrder for KeyOrder<F, K> {
    open spec fn wf(&self) -> bool {
        &&& forall|x: &Vec<u8>| #[trigger] call_requires(self.conv, (x,))
        &&& key_fn_matches(self.conv, self.kf@)
        &&& key_cmp_lawful::<K>()
    }

    open spec fn le(&self, a: Seq<u8>, b: Seq<u8>) -> bool {
        key_le(self.kf@, a, b)
    }

    proof fn lemma_connex(&self, a: Seq<u8>, b: Seq<u8>) {
        let ka = self.kf@(a);
        let kb = self.kf@(b);
        if ka.cmp_spec(&kb) == Ordering::Greater {
            assert(kb.cmp_spec(&ka) == Ordering::Less);
        }
    }

    proof fn lemma_transitive(&self, a: Seq<u8>, b: Seq<u8>, c: Seq<u8>) {
        assert(self.kf@(a).cmp_spec(&self.kf@(b)) != Ordering::Greater);
        assert(self.kf@(b).cmp_spec(&self.kf@(c)) != Ordering::Greater);
    }

    fn compare(&self, x: &Vec<u8>, y: &Vec<u8>) -> (o: Ordering) {
        let kx = (self.conv)(x);
        let ky = (self.conv)(y);
        let o = kx.cmp(&ky);
        proof {
            let ka = self.kf@(x@);
            let kb = self.kf@(y@);
            assert(kx == ka && ky == kb);
            assert(o == ka.cmp_spec(&kb));
            if o == Ordering::Less {
                assert(kb.cmp_spec(&ka) == Ordering::Greater);
            } else {
                if kb.cmp_spec(&ka) == Ordering::Greater {
                    assert(ka.cmp_spec(&kb) == Ordering::Less);
                    assert(false);
                }
            }
        }
        o
    }
}

impl RecordOrder for DefaultOrder {
    open spec fn wf(&self) -> bool {
        true
    }

    open spec fn le(&self, a: Seq<u8>, b: Seq<u8>) -> bool {
        default_le(a, b)
    }

    proof fn lemma_connex(&self, a: Seq<u8>, b: Seq<u8>) {
        lemma_lex_le_connex(trim_spec(a), trim_spec(b));
    }

    proof fn lemma_transitive(&self, a: Seq<u8>, b: Seq<u8>, c: Seq<u8>) {
        lemma_lex_le_trans(trim_spec(a), trim_spec(b), trim_spec(c));
    }

    fn compare(&self, x: &Vec<u8>, y: &Vec<u8>) -> (o: Ordering) {
        let tx = trim_len(x);
        let ty = trim_len(y);
        let ghost a = trim_spec(x@);
        let ghost b = trim_spec(y@);
        let mut k: usize = 0;
        while k < tx && k < ty && x[k] == y[k]
            invariant
                k <= tx,
                k <= ty,
                tx <= x@.len(),
                ty <= y@.len(),
                a == x@.subrange(0, tx as int),
                b == y@.subrange(0, ty as int),
                forall|j: int| 0 <= j < k ==> a[j] == b[j],
            decreases tx - k,
        {
            assert(a[k as int] == b[k as int]);
            k = k + 1;
        }
        proof {
            lemma_lex_le_skip(a, b, k as int);
            lemma_lex_le_skip(b, a, k as int);
        }
        if k < tx && k < ty {
            assert(a.skip(k as int)[0] == x@[k as int]);
            assert(b.skip(k as int)[0] == y@[k as int]);
            if x[k] < y[k] {
                Ordering::Less
            } else {
                assert(x@[k as int] > y@[k as int]);
                Ordering::Greater
            }
        } else if tx == ty {
            assert(a =~= b);
            Ordering::Equal
        } else if tx < ty {
            assert(k == tx);
            assert(a.skip(k as int) =~= Seq::<u8>::empty());
            assert(b.skip(k as int).len() > 0);
            Ordering::Less
        } else {
            assert(k == ty);
            assert(b.skip(k as int) =~= Seq::<u8>::empty());
            assert(a.skip(k as int).len() > 0);
            Ordering::Greater
        }
    }
}

} // verus!
