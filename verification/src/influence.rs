//! Which binary digits pull hardest on a latent coordinate.

use crate::text::{decimal_digits, push_decimal};
use vstd::prelude::*;

verus! {

/// How many digits the analysis lists for each coordinate.
pub const LISTED_BITS: usize = 10;

/// One digit of the input and the name under which it is listed.
#[derive(Debug, PartialEq, Eq)]
pub struct Influence {
    pub bit: usize,
    pub label: String,
}

/// Whether digit `a` is listed before digit `b`: the larger magnitude first, and among equal ones
/// the lower digit first.
pub open spec fn before(magnitudes: Seq<u32>, a: int, b: int) -> bool {
    magnitudes[a] > magnitudes[b] || (magnitudes[a] == magnitudes[b] && a < b)
}

/// The digits in the order of their influence.
pub open spec fn is_ranking(magnitudes: Seq<u32>, ranking: Seq<usize>) -> bool {
    &&& ranking.len() == magnitudes.len()
    &&& forall|i: int| 0 <= i < ranking.len() ==> #[trigger] ranking[i] < magnitudes.len()
    &&& forall|b: usize| b < magnitudes.len() ==> #[trigger] ranking.contains(b)
    &&& forall|i: int, j: int|
        0 <= i < j < ranking.len() ==> before(
            magnitudes,
            #[trigger] ranking[i] as int,
            #[trigger] ranking[j] as int,
        )
}

/// Whether a digit occurs in a list.
pub open spec fn is_listed(list: Seq<Influence>, bit: usize) -> bool {
    exists|i: int| 0 <= i < list.len() && (#[trigger] list[i]).bit == bit
}

/// Whether every digit of a list comes before `bit`.
pub open spec fn comes_last(magnitudes: Seq<u32>, list: Seq<Influence>, bit: usize) -> bool {
    forall|i: int|
        0 <= i < list.len() ==> before(magnitudes, (#[trigger] list[i]).bit as int, bit as int)
}

/// The name of a digit: the lowest one decides between odd and even, the others are powers of two.
pub open spec fn label_of(bit: nat) -> Seq<char> {
    if bit == 0 {
        "LSB (Lẻ/Chẵn)"@
    } else {
        "2^"@ + decimal_digits(bit)
    }
}

/// Sorts digits by falling magnitude; digits of equal magnitude keep their order.
pub fn rank_by_magnitude(magnitudes: &Vec<u32>) -> (ranking: Vec<usize>)
    ensures
        is_ranking(magnitudes@, ranking@),
        ranking.len() == magnitudes.len(),
        forall|i: int| 0 <= i < ranking.len() ==> #[trigger] ranking@[i] < magnitudes.len(),
        forall|b: usize| b < magnitudes.len() ==> #[trigger] ranking@.contains(b),
        forall|i: int, j: int|
            0 <= i < j < ranking.len() ==> magnitudes@[#[trigger] ranking@[i] as int]
                > magnitudes@[#[trigger] ranking@[j] as int] || (magnitudes@[ranking@[i] as int]
                == magnitudes@[ranking@[j] as int] && ranking@[i] < ranking@[j]),
{
    let mut ranking: Vec<usize> = Vec::with_capacity(magnitudes.len());
    let mut next: usize = 0;
    while next < magnitudes.len()
        invariant
            next <= magnitudes.len(),
            ranking.len() == next,
            forall|i: int| 0 <= i < next ==> #[trigger] ranking@[i] < next,
            forall|b: usize| b < next ==> #[trigger] ranking@.contains(b),
            forall|i: int, j: int|
                0 <= i < j < next ==> before(
                    magnitudes@,
                    #[trigger] ranking@[i] as int,
                    #[trigger] ranking@[j] as int,
                ),
        decreases magnitudes.len() - next,
    {
        let mut place: usize = 0;
        while place < next && magnitudes[ranking[place]] >= magnitudes[next]
            invariant
                place <= next < magnitudes.len(),
                ranking.len() == next,
                forall|i: int| 0 <= i < next ==> #[trigger] ranking@[i] < next,
                forall|i: int|
                    0 <= i < place ==> magnitudes@[#[trigger] ranking@[i] as int]
                        >= magnitudes@[next as int],
            decreases next - place,
        {
            place += 1;
        }
        let ghost earlier = ranking@;
        ranking.insert(place, next);
        proof {
            let later = ranking@;
            assert forall|b: usize| b <= next implies #[trigger] later.contains(b) by {
                if b == next {
                    assert(later[place as int] == b);
                } else {
                    assert(earlier.contains(b));
                    let i = choose|i: int| 0 <= i < earlier.len() && earlier[i] == b;
                    if i < place {
                        assert(later[i] == b);
                    } else {
                        assert(later[i + 1] == b);
                    }
                }
            }
            assert forall|i: int, j: int| 0 <= i < j <= next implies before(
                magnitudes@,
                #[trigger] later[i] as int,
                #[trigger] later[j] as int,
            ) by {
                let old_i = if i < place { i } else { i - 1 };
                let old_j = if j < place { j } else { j - 1 };
                if i != place && j != place {
                    assert(later[i] == earlier[old_i] && later[j] == earlier[old_j]);
                    assert(before(magnitudes@, earlier[old_i] as int, earlier[old_j] as int));
                } else if i == place {
                    assert(later[j] == earlier[old_j]);
                    assert(place < next);
                    if old_j > place {
                        assert(before(
                            magnitudes@,
                            earlier[place as int] as int,
                            earlier[old_j] as int,
                        ));
                    }
                } else {
                    assert(later[i] == earlier[old_i]);
                }
            }
        }
        next += 1;
    }
    ranking
}

/// The name under which a digit is listed.
pub fn bit_label(bit: usize) -> (label: String)
    ensures
        label@ == label_of(bit as nat),
        bit == 0 ==> label@ == "LSB (Lẻ/Chẵn)"@,
        bit > 0 ==> label@ == "2^"@ + decimal_digits(bit as nat),
{
    if bit == 0 {
        "LSB (Lẻ/Chẵn)".to_owned()
    } else {
        let mut label = "2^".to_owned();
        push_decimal(&mut label, bit);
        label
    }
}

/// The `count` most influential digits with their names.
pub fn top_influences(magnitudes: &Vec<u32>, count: usize) -> (top: Vec<Influence>)
    requires
        count <= magnitudes.len(),
    ensures
        top.len() == count,
        forall|i: int|
            0 <= i < count ==> (#[trigger] top@[i]).bit < magnitudes.len() && top@[i].label@
                == label_of(top@[i].bit as nat),
        forall|i: int, j: int|
            0 <= i < j < count ==> before(
                magnitudes@,
                (#[trigger] top@[i]).bit as int,
                (#[trigger] top@[j]).bit as int,
            ),
        forall|b: usize|
            b < magnitudes.len() && !#[trigger] is_listed(top@, b) ==> comes_last(
                magnitudes@,
                top@,
                b,
            ),
        exists|ranking: Seq<usize>|
            #![trigger is_ranking(magnitudes@, ranking)]
            {
                &&& is_ranking(magnitudes@, ranking)
                &&& forall|i: int| 0 <= i < count ==> (#[trigger] top@[i]).bit == ranking[i]
            },
        forall|i: int|
            0 <= i < count ==> ((#[trigger] top@[i]).bit == 0 ==> top@[i].label@
                == "LSB (Lẻ/Chẵn)"@) && (top@[i].bit > 0 ==> top@[i].label@ == "2^"@
                + decimal_digits(top@[i].bit as nat)),
{
    let ranking = rank_by_magnitude(magnitudes);
    let mut top: Vec<Influence> = Vec::with_capacity(count);
    let mut i: usize = 0;
    while i < count
        invariant
            i <= count <= magnitudes.len(),
            is_ranking(magnitudes@, ranking@),
            top.len() == i,
            forall|k: int|
                0 <= k < i ==> (#[trigger] top@[k]).bit == ranking@[k] && top@[k].label@
                    == label_of(ranking@[k] as nat),
        decreases count - i,
    {
        let bit = ranking[i];
        top.push(Influence { bit, label: bit_label(bit) });
        i += 1;
    }
    proof {
        assert forall|b: usize|
            b < magnitudes.len() && !#[trigger] is_listed(top@, b) implies comes_last(
            magnitudes@,
            top@,
            b,
        ) by {
            assert(ranking@.contains(b));
            let p = choose|p: int| 0 <= p < ranking@.len() && ranking@[p] == b;
            if p < count {
                assert(top@[p].bit == b);
            }
            assert forall|i: int| 0 <= i < count implies before(
                magnitudes@,
                (#[trigger] top@[i]).bit as int,
                b as int,
            ) by {
                assert(before(magnitudes@, ranking@[i] as int, ranking@[p] as int));
            }
        }
    }
    top
}

/// The analysis lists ten digits for each coordinate.
pub proof fn lemma_listed_bits()
    ensures
        LISTED_BITS == 10,
{
}

/// A ranking lists every digit once. Of two digits the one with the larger magnitude comes first,
/// and of two with equal magnitudes the lower one.
pub proof fn lemma_ranking_order(magnitudes: Seq<u32>, ranking: Seq<usize>, i: int, j: int)
    requires
        is_ranking(magnitudes, ranking),
        0 <= i < j < ranking.len(),
    ensures
        ranking.len() == magnitudes.len(),
        ranking.no_duplicates(),
        ranking[i] < magnitudes.len(),
        ranking[j] < magnitudes.len(),
        forall|b: usize| b < magnitudes.len() ==> #[trigger] ranking.contains(b),
        magnitudes[ranking[i] as int] >= magnitudes[ranking[j] as int],
        magnitudes[ranking[i] as int] == magnitudes[ranking[j] as int] ==> ranking[i] < ranking[j],
{
    assert(before(magnitudes, ranking[i] as int, ranking[j] as int));
    assert forall|a: int, b: int|
        0 <= a < ranking.len() && 0 <= b < ranking.len() && a != b implies ranking[a]
        != ranking[b] by {
        if a < b {
            assert(before(magnitudes, ranking[a] as int, ranking[b] as int));
        } else {
            assert(before(magnitudes, ranking[b] as int, ranking[a] as int));
        }
    }
}

/// The order of influence leaves nothing open: two rankings of the same magnitudes are the same.
pub proof fn lemma_ranking_unique(magnitudes: Seq<u32>, a: Seq<usize>, b: Seq<usize>)
    requires
        is_ranking(magnitudes, a),
        is_ranking(magnitudes, b),
    ensures
        a == b,
{
    assert forall|i: int| 0 <= i < a.len() implies a[i] == b[i] by {
        lemma_ranks_agree(magnitudes, a, b, i);
    }
    assert(a =~= b);
}

/// Rankings that agree up to place `i` agree at place `i`.
proof fn lemma_ranks_agree(magnitudes: Seq<u32>, a: Seq<usize>, b: Seq<usize>, i: int)
    requires
        is_ranking(magnitudes, a),
        is_ranking(magnitudes, b),
        0 <= i < a.len(),
    ensures
        a[i] == b[i],
    decreases i,
{
    assert forall|k: int| 0 <= k < i implies a[k] == b[k] by {
        lemma_ranks_agree(magnitudes, a, b, k);
    }
    assert(b.contains(a[i]));
    assert(a.contains(b[i]));
    let p = choose|p: int| 0 <= p < b.len() && b[p] == a[i];
    let q = choose|q: int| 0 <= q < a.len() && a[q] == b[i];
    if p < i {
        assert(a[p] == a[i]);
        assert(before(magnitudes, a[p] as int, a[i] as int));
    } else if q < i {
        assert(b[q] == b[i]);
        assert(before(magnitudes, b[q] as int, b[i] as int));
    } else if p > i && q > i {
        assert(before(magnitudes, b[i] as int, b[p] as int));
        assert(before(magnitudes, a[i] as int, a[q] as int));
    }
}

} // verus!
