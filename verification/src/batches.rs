//! The order in which an epoch visits the samples.

use crate::draws::Draws;
use crate::random::shuffle;
use vstd::arithmetic::div_mod::{
    lemma_basic_div, lemma_div_non_zero, lemma_div_plus_one, lemma_div_pos_is_pos,
    lemma_fundamental_div_mod, lemma_fundamental_div_mod_converse,
};
use vstd::prelude::*;
use vstd::seq_lib::lemma_flatten_concat;

verus! {

/// The sample indices in the given order, each cut down to 32 bits.
pub open spec fn narrowed(indices: Seq<usize>) -> Seq<u32> {
    Seq::new(indices.len(), |i: int| indices[i] as u32)
}

/// The indices cut into pieces of `batch_size`; the last piece holds what is left.
pub open spec fn chunked(indices: Seq<u32>, batch_size: nat) -> Seq<Seq<u32>>
    decreases indices.len(),
{
    if indices.len() == 0 || batch_size == 0 {
        Seq::empty()
    } else if indices.len() <= batch_size {
        seq![indices]
    } else {
        seq![indices.take(batch_size as int)] + chunked(indices.skip(batch_size as int), batch_size)
    }
}

/// The contents of a list of batches.
pub open spec fn contents(batches: Seq<Vec<u32>>) -> Seq<Seq<u32>> {
    Seq::new(batches.len(), |i: int| batches[i]@)
}

/// The indices of `n` samples in their natural order.
pub open spec fn in_order(n: nat) -> Seq<usize> {
    Seq::new(n, |i: int| i as usize)
}

/// Cuts a list of sample indices into batches.
pub fn batches_of(indices: &Vec<usize>, batch_size: usize) -> (batches: Vec<Vec<u32>>)
    requires
        batch_size > 0,
    ensures
        contents(batches@) == chunked(narrowed(indices@), batch_size as nat),
        is_cut(batches@, indices@, batch_size as int),
{
    let ghost all = narrowed(indices@);
    let mut batches: Vec<Vec<u32>> = Vec::new();
    let mut start: usize = 0;
    proof {
        assert(all.skip(0) =~= all);
        assert(contents(batches@) =~= Seq::empty());
        assert(Seq::<Seq<u32>>::empty() + chunked(all, batch_size as nat) =~= chunked(
            all,
            batch_size as nat,
        ));
    }
    while start < indices.len()
        invariant
            batch_size > 0,
            start <= indices.len(),
            all == narrowed(indices@),
            contents(batches@) + chunked(all.skip(start as int), batch_size as nat) == chunked(
                all,
                batch_size as nat,
            ),
        decreases indices.len() - start,
    {
        let left = indices.len() - start;
        let size: usize = if left <= batch_size {
            left
        } else {
            batch_size
        };
        let mut batch: Vec<u32> = Vec::with_capacity(size);
        let mut i: usize = 0;
        while i < size
            invariant
                i <= size,
                start + size <= indices.len(),
                all == narrowed(indices@),
                batch@ == all.subrange(start as int, start + i),
            decreases size - i,
        {
            batch.push(indices[start + i] as u32);
            i += 1;
            assert(batch@ =~= all.subrange(start as int, start + i));
        }
        let ghost before = contents(batches@);
        let ghost rest = all.skip(start as int);
        batches.push(batch);
        proof {
            let b = batch_size as nat;
            assert(contents(batches@) =~= before.push(batch@));
            assert(batch@ =~= rest.take(size as int));
            assert(all.skip(start + size) =~= rest.skip(size as int));
            if left <= batch_size {
                assert(rest.take(size as int) =~= rest);
                assert(before.push(batch@) + Seq::<Seq<u32>>::empty() =~= before + seq![rest]);
            } else {
                assert(before.push(batch@) + chunked(rest.skip(b as int), b) =~= before + (seq![
                    rest.take(b as int),
                ] + chunked(rest.skip(b as int), b)));
            }
        }
        start += size;
    }
    assert(contents(batches@) + Seq::<Seq<u32>>::empty() =~= contents(batches@));
    proof {
        lemma_cut(batches@, indices@, batch_size as nat);
    }
    batches
}

/// The batches of one epoch over `dataset_size` samples, in an order that is drawn once for the
/// epoch.
pub fn draw_batches(draws: &mut Draws, dataset_size: usize, batch_size: usize) -> (batches: Vec<
    Vec<u32>,
>)
    requires
        batch_size > 0,
    ensures
        final(draws).numbers() == old(draws).numbers(),
        final(draws).shuffles().len() == old(draws).shuffles().len() + 1,
        final(draws).shuffles().drop_last() == old(draws).shuffles(),
        ({
            let (natural, order) = final(draws).shuffles().last();
            &&& natural.len() == dataset_size
            &&& forall|i: int| 0 <= i < dataset_size ==> #[trigger] natural[i] == i
            &&& order.to_multiset() == natural.to_multiset()
            &&& order.to_multiset() == in_order(dataset_size as nat).to_multiset()
            &&& contents(batches@) == chunked(narrowed(order), batch_size as nat)
            &&& is_cut(batches@, order, batch_size as int)
        }),
{
    let mut indices: Vec<usize> = Vec::new();
    let mut i: usize = 0;
    while i < dataset_size
        invariant
            i <= dataset_size,
            indices@ == in_order(i as nat),
        decreases dataset_size - i,
    {
        indices.push(i);
        i += 1;
        assert(indices@ =~= in_order(i as nat));
    }
    shuffle(&mut indices, draws);
    assert(draws.shuffles().drop_last() =~= old(draws).shuffles());
    batches_of(&indices, batch_size)
}

/// The batches of one epoch over `dataset_size` samples, in a random order.
pub fn shuffled_batches(dataset_size: usize, batch_size: usize) -> (batches: Vec<Vec<u32>>)
    requires
        batch_size > 0,
    ensures
        exists|order: Seq<usize>|
            #![trigger narrowed(order)]
            order.to_multiset() == in_order(dataset_size as nat).to_multiset() && contents(
                batches@,
            ) == chunked(narrowed(order), batch_size as nat),
        exists|draws: Draws, order: Seq<usize>|
            #![trigger draws.shuffles(), narrowed(order)]
            {
                &&& draws.shuffles() == seq![
                    (Seq::new(dataset_size as nat, |i: int| i as usize), order),
                ]
                &&& is_cut(batches@, order, batch_size as int)
            },
{
    let mut draws = Draws::new();
    let batches = draw_batches(&mut draws, dataset_size, batch_size);
    proof {
        let (natural, order) = draws.shuffles().last();
        assert(natural =~= Seq::new(dataset_size as nat, |i: int| i as usize));
        assert(draws.shuffles() =~= seq![(natural, order)]);
        assert(narrowed(order) == narrowed(order));
    }
    batches
}

/// Whether a list of batches is a list of indices cut into pieces: index `i`, as a 32-bit number,
/// stands at place `i % batch_size` of batch `i / batch_size`, and nothing else stands anywhere.
pub open spec fn is_cut(batches: Seq<Vec<u32>>, indices: Seq<usize>, batch_size: int) -> bool {
    &&& batches.len() == (indices.len() + batch_size - 1) / batch_size
    &&& forall|b: int|
        0 <= b < batches.len() ==> (#[trigger] batches[b]).len() == (if (b + 1) * batch_size
            <= indices.len() {
            batch_size
        } else {
            indices.len() - b * batch_size
        })
    &&& forall|b: int, k: int|
        0 <= b < batches.len() && 0 <= k < batches[b].len() ==> #[trigger] batches[b]@[k]
            == indices[b * batch_size + k] as u32
}

/// The pieces of a list, one by one.
proof fn lemma_pieces(indices: Seq<u32>, batch_size: nat, b: int)
    requires
        batch_size > 0,
        0 <= b < chunked(indices, batch_size).len(),
    ensures
        0 <= b * batch_size <= indices.len(),
        chunked(indices, batch_size)[b] == indices.subrange(
            b * batch_size,
            if (b + 1) * batch_size <= indices.len() {
                (b + 1) * batch_size
            } else {
                indices.len() as int
            },
        ),
    decreases indices.len(),
{
    let n = batch_size as int;
    assert((b + 1) * n == b * n + n) by (nonlinear_arith);
    if indices.len() <= n {
        assert(b == 0);
        assert(indices.subrange(0, indices.len() as int) =~= indices);
    } else if b == 0 {
        assert(indices.subrange(0, n) =~= indices.take(n));
    } else {
        let tail = indices.skip(n);
        lemma_pieces(tail, batch_size, b - 1);
        assert((b - 1) * n == b * n - n) by (nonlinear_arith);
        assert((b - 1 + 1) * n == b * n);
        let end = if (b + 1) * n <= indices.len() {
            (b + 1) * n
        } else {
            indices.len() as int
        };
        assert(indices.subrange(b * n, end) =~= tail.subrange(b * n - n, end - n));
    }
}

/// Index `i` of a list, as a 32-bit number, ends up at place `i % batch_size` of batch
/// `i / batch_size`.
pub proof fn lemma_batch_places(
    batches: Seq<Vec<u32>>,
    indices: Seq<usize>,
    batch_size: nat,
    i: int,
)
    requires
        batch_size > 0,
        0 <= i < indices.len(),
        contents(batches) == chunked(narrowed(indices), batch_size),
    ensures
        0 <= i / batch_size as int,
        i / (batch_size as int) < batches.len(),
        0 <= i % (batch_size as int) < batches[i / batch_size as int].len(),
        batches[i / batch_size as int]@[i % (batch_size as int)] == indices[i] as u32,
{
    let n = batch_size as int;
    let (b, k) = (i / n, i % n);
    let len = indices.len() as int;
    lemma_cut(batches, indices, batch_size);
    lemma_fundamental_div_mod(i, n);
    lemma_div_pos_is_pos(i, n);
    assert(0 <= k < n);
    assert(b * n + k == i) by (nonlinear_arith)
        requires
            i == n * b + k,
    ;
    assert((b + 1) * n == b * n + n) by (nonlinear_arith);
    lemma_fundamental_div_mod(len + n - 1, n);
    let m = (len + n - 1) / n;
    let r = (len + n - 1) % n;
    assert(b < m) by (nonlinear_arith)
        requires
            len + n - 1 == n * m + r,
            r < n,
            b * n + k == i,
            i < len,
            0 <= k,
            n > 0,
    ;
}

/// Cutting a list into pieces puts every index in its place.
pub proof fn lemma_cut(batches: Seq<Vec<u32>>, indices: Seq<usize>, batch_size: nat)
    requires
        batch_size > 0,
        contents(batches) == chunked(narrowed(indices), batch_size),
    ensures
        is_cut(batches, indices, batch_size as int),
{
    let n = batch_size as int;
    let all = narrowed(indices);
    lemma_batch_sizes(all, batch_size);
    assert(contents(batches).len() == batches.len());
    assert forall|b: int| 0 <= b < batches.len() implies (#[trigger] batches[b]).len() == (if (b
        + 1) * n <= indices.len() {
        n
    } else {
        indices.len() - b * n
    }) by {
        assert(contents(batches)[b] == batches[b]@);
        lemma_pieces(all, batch_size, b);
        assert((b + 1) * n == b * n + n) by (nonlinear_arith);
    }
    assert forall|b: int, k: int|
        0 <= b < batches.len() && 0 <= k < batches[b].len() implies #[trigger] batches[b]@[k]
        == indices[b * n + k] as u32 by {
        assert(contents(batches)[b] == batches[b]@);
        lemma_pieces(all, batch_size, b);
        assert((b + 1) * n == b * n + n) by (nonlinear_arith);
    }
}

/// Put together again, the batches give the indices in their order.
pub proof fn lemma_batches_join(indices: Seq<u32>, batch_size: nat)
    requires
        batch_size > 0,
    ensures
        chunked(indices, batch_size).flatten() == indices,
    decreases indices.len(),
{
    if indices.len() == 0 {
    } else if indices.len() <= batch_size {
        seq![indices].lemma_flatten_one_element();
    } else {
        let head = indices.take(batch_size as int);
        let tail = indices.skip(batch_size as int);
        lemma_batches_join(tail, batch_size);
        lemma_flatten_concat(seq![head], chunked(tail, batch_size));
        seq![head].lemma_flatten_one_element();
        assert(head + tail =~= indices);
    }
}

/// Every batch holds `batch_size` indices, but for the last one, which may hold fewer and is never
/// empty. As many batches are made as are needed.
pub proof fn lemma_batch_sizes(indices: Seq<u32>, batch_size: nat)
    requires
        batch_size > 0,
    ensures
        chunked(indices, batch_size).len() == (indices.len() + batch_size - 1) / batch_size as int,
        forall|i: int|
            0 <= i < chunked(indices, batch_size).len() - 1 ==> (#[trigger] chunked(
                indices,
                batch_size,
            )[i]).len() == batch_size,
        indices.len() > 0 ==> 0 < chunked(indices, batch_size).last().len() <= batch_size,
    decreases indices.len(),
{
    let b = batch_size as int;
    let len = indices.len() as int;
    if len == 0 {
        lemma_basic_div(b - 1, b);
    } else if len <= b {
        lemma_fundamental_div_mod_converse(len + b - 1, b, 1, len - 1);
    } else {
        let tail = indices.skip(b);
        lemma_batch_sizes(tail, batch_size);
        lemma_div_plus_one(len - 1, b);
        let pieces = chunked(indices, batch_size);
        let later = chunked(tail, batch_size);
        assert(pieces =~= seq![indices.take(b)] + later);
        assert(tail.len() + b - 1 == len - 1);
        assert(later.len() == (len - 1) / b);
        assert((len + b - 1) / b == (len - 1) / b + 1);
        assert(later.len() > 0) by {
            lemma_div_non_zero(len - 1, b);
        }
        assert(pieces.last() == later.last());
        assert forall|i: int| 0 <= i < pieces.len() - 1 implies (#[trigger] pieces[i]).len()
            == batch_size by {
            if i > 0 {
                assert(pieces[i] == later[i - 1]);
            }
        }
    }
}

/// An epoch visits every sample exactly once.
pub proof fn lemma_epoch_visits_once(order: Seq<usize>, dataset_size: nat)
    requires
        order.to_multiset() == in_order(dataset_size).to_multiset(),
        dataset_size <= 0x1_0000_0000,
        dataset_size <= usize::MAX,
    ensures
        narrowed(order).len() == dataset_size,
        narrowed(order).no_duplicates(),
        forall|i: int| 0 <= i < dataset_size ==> #[trigger] narrowed(order)[i] < dataset_size,
        forall|sample: u32| sample < dataset_size ==> #[trigger] narrowed(order).contains(sample),
{
    broadcast use vstd::seq_lib::group_to_multiset_ensures;

    let natural = in_order(dataset_size);
    assert(natural.no_duplicates());
    natural.lemma_multiset_has_no_duplicates();
    order.lemma_multiset_has_no_duplicates_conv();
    assert(order.len() == order.to_multiset().len());
    assert(natural.len() == natural.to_multiset().len());
    assert forall|i: int| 0 <= i < order.len() implies #[trigger] order[i] < dataset_size by {
        assert(order.contains(order[i]));
        assert(order.to_multiset().contains(order[i]));
        assert(natural.contains(order[i]));
    }
    assert forall|sample: u32| sample < dataset_size implies #[trigger] narrowed(order).contains(
        sample,
    ) by {
        assert(natural[sample as int] == sample as usize);
        assert(natural.contains(sample as usize));
        assert(order.to_multiset().contains(sample as usize));
        assert(order.contains(sample as usize));
        let i = choose|i: int| 0 <= i < order.len() && order[i] == sample as usize;
        assert(narrowed(order)[i] == sample);
    }
}

} // verus!
