use vstd::prelude::*;

verus! {

use crate::order::{lemma_lex_le_antisym, sorted_under, trim_spec, DefaultOrder, RecordOrder};
use vstd::multiset::Multiset;

/// Among the records of `m`, the order has no distinct tied records: two
/// records at or below each other are the same bytes.
pub open spec fn antisymmetric_on<O: RecordOrder>(ord: O, m: Multiset<Seq<u8>>) -> bool {
    forall|a: Seq<u8>, b: Seq<u8>|
        m.contains(a) && m.contains(b) && #[trigger] ord.le(a, b) && #[trigger] ord.le(b, a)
            ==> a == b
}

/// The default order has no distinct tied records among the records of
/// `m` as long as no two of them share their trimmed bytes: ties under the
/// default order are exactly records with equal trimmed contents.
pub proof fn lemma_default_antisymmetric_on(m: Multiset<Seq<u8>>)
    requires
        forall|a: Seq<u8>, b: Seq<u8>|
            m.contains(a) && m.contains(b) && #[trigger] trim_spec(a) == #[trigger] trim_spec(b)
                ==> a == b,
    ensures
        antisymmetric_on((DefaultOrder {}), m),
{
    assert forall|a: Seq<u8>, b: Seq<u8>|
        m.contains(a) && m.contains(b) && #[trigger] (DefaultOrder {}).le(a, b) && #[trigger] (
        DefaultOrder {}).le(b, a) implies a == b by {
        lemma_lex_le_antisym(trim_spec(a), trim_spec(b));
    }
}

/// Two sorted record sequences holding the same records in the same
/// multiplicities are equal, provided the order has no distinct tied
/// records among them.
pub proof fn lemma_sorted_unique<O: RecordOrder>(ord: O, x: Seq<Seq<u8>>, y: Seq<Seq<u8>>)
    requires
        ord.wf(),
        antisymmetric_on(ord, x.to_multiset()),
        sorted_under(ord, x),
        sorted_under(ord, y),
        x.to_multiset() == y.to_multiset(),
    ensures
        x == y,
    decreases x.len(),
{
    broadcast use vstd::seq_lib::group_to_multiset_ensures;
    broadcast use vstd::multiset::group_multiset_axioms;

    if x.len() == 0 {
        assert(x.to_multiset().len() == 0);
        assert(y.to_multiset().len() == y.len());
        assert(x =~= y);
    } else {
        assert(x.to_multiset().len() == x.len());
        assert(y.to_multiset().len() == y.len());
        assert(x.contains(x[0]));
        assert(x.to_multiset().contains(x[0]));
        assert(y.to_multiset().contains(x[0]));
        assert(y.contains(x[0]));
        let jy = choose|t: int| 0 <= t < y.len() && y[t] == x[0];
        assert(y.contains(y[0]));
        assert(x.to_multiset().contains(y[0]));
        assert(x.contains(y[0]));
        let jx = choose|t: int| 0 <= t < x.len() && x[t] == y[0];
        assert(ord.le(y[0], x[0])) by {
            if jy > 0 {
                assert(ord.le(y[0], y[jy]));
            } else {
                ord.lemma_connex(y[0], y[0]);
            }
        }
        assert(ord.le(x[0], y[0])) by {
            if jx > 0 {
                assert(ord.le(x[0], x[jx]));
            } else {
                ord.lemma_connex(x[0], x[0]);
            }
        }
        assert(x[0] == y[0]);
        let xt = x.remove(0);
        let yt = y.remove(0);
        assert(xt.to_multiset() =~= x.to_multiset().remove(x[0]));
        assert(yt.to_multiset() =~= y.to_multiset().remove(y[0]));
        assert(sorted_under(ord, xt)) by {
            assert forall|i: int, j: int| 0 <= i < j < xt.len() implies #[trigger] ord.le(
                xt[i],
                xt[j],
            ) by {
                assert(xt[i] == x[i + 1] && xt[j] == x[j + 1]);
            }
        }
        assert(sorted_under(ord, yt)) by {
            assert forall|i: int, j: int| 0 <= i < j < yt.len() implies #[trigger] ord.le(
                yt[i],
                yt[j],
            ) by {
                assert(yt[i] == y[i + 1] && yt[j] == y[j + 1]);
            }
        }
        assert(antisymmetric_on(ord, xt.to_multiset())) by {
            assert forall|a: Seq<u8>, b: Seq<u8>|
                xt.to_multiset().contains(a) && xt.to_multiset().contains(b) && #[trigger] ord.le(
                    a,
                    b,
                ) && #[trigger] ord.le(b, a) implies a == b by {
                assert(x.to_multiset().contains(a));
                assert(x.to_multiset().contains(b));
            }
        }
        lemma_sorted_unique(ord, xt, yt);
        assert forall|i: int| 0 <= i < x.len() implies x[i] == y[i] by {
            if i > 0 {
                assert(xt[i - 1] == yt[i - 1]);
            }
        }
        assert(x =~= y);
    }
}

/// Idempotence: a sorted reordering of an already-sorted record sequence
/// is the sequence itself, byte for byte, when the order has no distinct
/// tied records in it. The hypotheses on `output` are exactly what the
/// sort of a chunk holding `input` ensures of its result.
pub proof fn lemma_sort_idempotent<O: RecordOrder>(
    ord: O,
    input: Seq<Seq<u8>>,
    output: Seq<Seq<u8>>,
)
    requires
        ord.wf(),
        antisymmetric_on(ord, input.to_multiset()),
        sorted_under(ord, input),
        sorted_under(ord, output),
        output.to_multiset() == input.to_multiset(),
    ensures
        output == input,
        output.flatten() == input.flatten(),
{
    lemma_sorted_unique(ord, input, output);
}

/// Capacity independence: two sorted reorderings of one input hold the
/// same records in the same order and therefore the same bytes, whatever
/// capacities and chunkings produced them, when the order has no distinct
/// tied records in the input. The hypotheses on each output are exactly
/// what the sort of a chunk holding `input` ensures of its result.
pub proof fn lemma_capacity_independent<O: RecordOrder>(
    ord: O,
    input: Seq<Seq<u8>>,
    out1: Seq<Seq<u8>>,
    out2: Seq<Seq<u8>>,
)
    requires
        ord.wf(),
        antisymmetric_on(ord, input.to_multiset()),
        sorted_under(ord, out1),
        sorted_under(ord, out2),
        out1.to_multiset() == input.to_multiset(),
        out2.to_multiset() == input.to_multiset(),
    ensures
        out1 == out2,
        out1.flatten() == out2.flatten(),
{
    lemma_sorted_unique(ord, out1, out2);
}

} // verus!
