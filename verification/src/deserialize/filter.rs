//! Row filtering: restricting a page's decoded rows to a caller-chosen
//! set of sorted, disjoint row-index ranges.

use vstd::prelude::*;

verus! {

/// One range of selected row indices: `length` rows starting at `start`.
#[derive(Clone, Copy, Debug, PartialEq, Eq, Structural)]
pub struct RowInterval {
    pub start: usize,
    pub length: usize,
}

/// A selection is well-formed for `n` rows when its ranges lie within
/// `[0, n)`, are sorted ascending and do not touch or overlap.
pub open spec fn sel_wf(sel: Seq<RowInterval>, n: nat) -> bool {
    &&& forall|i: int| 0 <= i < sel.len() ==> (#[trigger] sel[i]).start + sel[i].length <= n
    &&& forall|i: int| 0 <= i && i + 1 < sel.len() ==> (#[trigger] sel[i]).start + sel[i].length
        <= sel[i + 1].start
}

/// The selected items, range by range, in ascending order.
pub open spec fn spec_filter<T>(items: Seq<T>, sel: Seq<RowInterval>) -> Seq<T>
    decreases sel.len(),
{
    if sel.len() == 0 {
        Seq::empty()
    } else {
        items.subrange(sel[0].start as int, sel[0].start + sel[0].length) + spec_filter(
            items,
            sel.skip(1),
        )
    }
}

/// Whether row index `i` falls inside one of the selection's ranges.
pub open spec fn selected(sel: Seq<RowInterval>, i: int) -> bool {
    exists|k: int|
        0 <= k < sel.len() && (#[trigger] sel[k]).start <= i < sel[k].start + sel[k].length
}

/// The items whose index at or after `i` is selected, walked one index
/// at a time.
pub open spec fn mask_filter<T>(items: Seq<T>, sel: Seq<RowInterval>, i: int) -> Seq<T>
    decreases items.len() - i,
{
    if i < 0 || i >= items.len() {
        Seq::empty()
    } else if selected(sel, i) {
        seq![items[i]] + mask_filter(items, sel, i + 1)
    } else {
        mask_filter(items, sel, i + 1)
    }
}

proof fn lemma_mask_congruent<T>(items: Seq<T>, a: Seq<RowInterval>, b: Seq<RowInterval>, i: int)
    requires
        forall|x: int| i <= x < items.len() ==> selected(a, x) == selected(b, x),
    ensures
        mask_filter(items, a, i) == mask_filter(items, b, i),
    decreases items.len() - i,
{
    if 0 <= i < items.len() {
        lemma_mask_congruent(items, a, b, i + 1);
    }
}

proof fn lemma_mask_none<T>(items: Seq<T>, sel: Seq<RowInterval>, i: int)
    requires
        forall|x: int| i <= x < items.len() ==> !selected(sel, x),
    ensures
        mask_filter(items, sel, i) == Seq::<T>::empty(),
    decreases items.len() - i,
{
    if 0 <= i < items.len() {
        lemma_mask_none(items, sel, i + 1);
    }
}

proof fn lemma_wf_first_before(sel: Seq<RowInterval>, n: nat, k: int)
    requires
        sel_wf(sel, n),
        1 <= k < sel.len(),
    ensures
        sel[0].start + sel[0].length <= sel[k].start,
    decreases k,
{
    if k > 1 {
        lemma_wf_first_before(sel, n, k - 1);
    }
}

proof fn lemma_selected_shift(sel: Seq<RowInterval>, n: nat, x: int)
    requires
        sel_wf(sel, n),
        sel.len() >= 1,
        x >= sel[0].start + sel[0].length,
    ensures
        selected(sel, x) == selected(sel.skip(1), x),
{
    if selected(sel, x) {
        let k = choose|k: int|
            0 <= k < sel.len() && (#[trigger] sel[k]).start <= x < sel[k].start + sel[k].length;
        assert(k >= 1);
        assert(sel.skip(1)[k - 1] == sel[k]);
        assert(selected(sel.skip(1), x));
    }
    if selected(sel.skip(1), x) {
        let k = choose|k: int|
            0 <= k < sel.skip(1).len() && (#[trigger] sel.skip(1)[k]).start <= x < sel.skip(
                1,
            )[k].start + sel.skip(1)[k].length;
        assert(sel[k + 1] == sel.skip(1)[k]);
        assert(selected(sel, x));
    }
}

proof fn lemma_selected_before(sel: Seq<RowInterval>, n: nat, x: int)
    requires
        sel_wf(sel, n),
        sel.len() >= 1,
        x < sel[0].start,
    ensures
        !selected(sel, x),
{
    assert forall|k: int| 0 <= k < sel.len() implies !((#[trigger] sel[k]).start <= x < sel[
        k
    ].start + sel[k].length) by {
        if k >= 1 {
            lemma_wf_first_before(sel, n, k);
        }
    }
}

proof fn lemma_wf_skip(sel: Seq<RowInterval>, n: nat)
    requires
        sel_wf(sel, n),
        sel.len() >= 1,
    ensures
        sel_wf(sel.skip(1), n),
{
    assert forall|i: int| 0 <= i < sel.skip(1).len() implies (#[trigger] sel.skip(1)[i]).start
        + sel.skip(1)[i].length <= n by {
        assert(sel.skip(1)[i] == sel[i + 1]);
    }
    assert forall|i: int| 0 <= i && i + 1 < sel.skip(1).len() implies (#[trigger] sel.skip(
        1,
    )[i]).start + sel.skip(1)[i].length <= sel.skip(1)[i + 1].start by {
        assert(sel.skip(1)[i] == sel[i + 1]);
        assert(sel.skip(1)[i + 1] == sel[i + 2]);
        assert(sel[i + 1].start + sel[i + 1].length <= sel[i + 2].start);
    }
}

proof fn lemma_mask_inside<T>(items: Seq<T>, sel: Seq<RowInterval>, i: int)
    requires
        sel_wf(sel, items.len()),
        sel.len() >= 1,
        sel[0].start <= i <= sel[0].start + sel[0].length,
    ensures
        mask_filter(items, sel, i) == items.subrange(i, sel[0].start + sel[0].length)
            + mask_filter(items, sel.skip(1), sel[0].start + sel[0].length),
    decreases sel[0].start + sel[0].length - i,
{
    let end0 = sel[0].start + sel[0].length;
    if i == end0 {
        assert forall|x: int| i <= x < items.len() implies selected(sel, x) == selected(
            sel.skip(1),
            x,
        ) by {
            lemma_selected_shift(sel, items.len(), x);
        }
        lemma_mask_congruent(items, sel, sel.skip(1), i);
        assert(items.subrange(i, end0) =~= Seq::<T>::empty());
        assert(Seq::<T>::empty() + mask_filter(items, sel.skip(1), end0) =~= mask_filter(
            items,
            sel.skip(1),
            end0,
        ));
    } else {
        assert(selected(sel, i));
        lemma_mask_inside(items, sel, i + 1);
        assert(seq![items[i]] + (items.subrange(i + 1, end0) + mask_filter(
            items,
            sel.skip(1),
            end0,
        )) =~= items.subrange(i, end0) + mask_filter(items, sel.skip(1), end0));
    }
}

proof fn lemma_mask_before<T>(items: Seq<T>, sel: Seq<RowInterval>, i: int)
    requires
        sel_wf(sel, items.len()),
        sel.len() >= 1,
        0 <= i <= sel[0].start,
    ensures
        mask_filter(items, sel, i) == mask_filter(items, sel, sel[0].start as int),
    decreases sel[0].start - i,
{
    if i < sel[0].start {
        lemma_selected_before(sel, items.len(), i);
        lemma_mask_before(items, sel, i + 1);
    }
}

proof fn lemma_filter_mask_from<T>(items: Seq<T>, sel: Seq<RowInterval>, i: int)
    requires
        sel_wf(sel, items.len()),
        0 <= i <= items.len(),
        sel.len() >= 1 ==> i <= sel[0].start,
    ensures
        mask_filter(items, sel, i) == spec_filter(items, sel),
    decreases sel.len(),
{
    if sel.len() == 0 {
        assert(forall|x: int| i <= x < items.len() ==> !selected(sel, x));
        lemma_mask_none(items, sel, i);
    } else {
        let end0 = sel[0].start + sel[0].length;
        lemma_mask_before(items, sel, i);
        lemma_mask_inside(items, sel, sel[0].start as int);
        lemma_wf_skip(sel, items.len());
        if sel.skip(1).len() >= 1 {
            assert(sel.skip(1)[0] == sel[1]);
        }
        lemma_filter_mask_from(items, sel.skip(1), end0);
    }
}

/// Filtering a row of items by a well-formed selection gives exactly
/// the items whose index is a member of one of the selection's ranges,
/// walked in ascending order.
pub proof fn lemma_filter_is_membership<T>(items: Seq<T>, sel: Seq<RowInterval>)
    requires
        sel_wf(sel, items.len()),
    ensures
        spec_filter(items, sel) == mask_filter(items, sel, 0),
{
    lemma_filter_mask_from(items, sel, 0);
}

/// A selection of one range covering every row reproduces the items.
pub proof fn lemma_filter_full<T>(items: Seq<T>, iv: RowInterval)
    requires
        iv.start == 0,
        iv.length == items.len(),
    ensures
        spec_filter(items, seq![iv]) == items,
{
    assert(seq![iv].len() == 1);
    assert(seq![iv][0] == iv);
    assert(seq![iv].skip(1) =~= Seq::<RowInterval>::empty());
    assert(spec_filter(items, seq![iv].skip(1)) == Seq::<T>::empty());
    assert(items.subrange(0, items.len() as int) =~= items);
    assert(items.subrange(0, items.len() as int) + Seq::<T>::empty() =~= items);
}

/// The empty selection yields the empty row.
pub proof fn lemma_filter_none<T>(items: Seq<T>)
    ensures
        spec_filter(items, Seq::<RowInterval>::empty()) == Seq::<T>::empty(),
{
}

/// Keeps the items whose row index falls in the selection, in ascending
/// order. Every underlying item is visited once, as positional decoding
/// has no random access.
pub fn filter_rows<T: Copy>(items: &Vec<T>, sel: &Vec<RowInterval>) -> (r: Vec<T>)
    requires
        sel_wf(sel@, items@.len()),
    ensures
        r@ == spec_filter(items@, sel@),
{
    let mut out: Vec<T> = Vec::new();
    let mut k: usize = 0;
    let ilen = items.len();
    proof {
        assert(sel@.skip(0) =~= sel@);
    }
    while k < sel.len()
        invariant
            k <= sel@.len(),
            ilen == items@.len(),
            sel_wf(sel@, items@.len()),
            spec_filter(items@, sel@) =~= out@ + spec_filter(items@, sel@.skip(k as int)),
        decreases sel@.len() - k,
    {
        let iv = sel[k];
        let ghost mid = out@;
        proof {
            assert(sel@.skip(k as int)[0] == iv);
            assert(sel@.skip(k as int).skip(1) =~= sel@.skip(k + 1));
        }
        let mut t: usize = 0;
        while t < iv.length
            invariant
                t <= iv.length,
                ilen == items@.len(),
                iv.start + iv.length <= items@.len(),
                out@ =~= mid + items@.subrange(iv.start as int, iv.start + t),
            decreases iv.length - t,
        {
            proof {
                assert(items@.subrange(iv.start as int, iv.start + t).push(
                    items@[iv.start + t],
                ) =~= items@.subrange(iv.start as int, iv.start + t + 1));
            }
            out.push(items[iv.start + t]);
            t += 1;
        }
        proof {
            assert(out@ =~= mid + items@.subrange(iv.start as int, iv.start + iv.length));
            assert(mid + (items@.subrange(iv.start as int, iv.start + iv.length) + spec_filter(
                items@,
                sel@.skip(k + 1),
            )) =~= out@ + spec_filter(items@, sel@.skip(k + 1)));
        }
        k += 1;
    }
    proof {
        assert(sel@.skip(sel@.len() as int) =~= Seq::<RowInterval>::empty());
        assert(out@ + Seq::<T>::empty() =~= out@);
    }
    out
}

} // verus!

verus! {

/// The filtered row grows range by range: filtering by a selection is
/// filtering by all but its last range, then appending that range.
pub proof fn lemma_filter_snoc<T>(items: Seq<T>, sel: Seq<RowInterval>)
    requires
        sel.len() >= 1,
    ensures
        spec_filter(items, sel) == spec_filter(items, sel.drop_last()) + items.subrange(
            sel.last().start as int,
            sel.last().start + sel.last().length,
        ),
    decreases sel.len(),
{
    let tail = items.subrange(sel.last().start as int, sel.last().start + sel.last().length);
    if sel.len() == 1 {
        assert(sel.drop_last() =~= Seq::<RowInterval>::empty());
        assert(sel.skip(1) =~= Seq::<RowInterval>::empty());
        assert(sel[0] == sel.last());
        assert(items.subrange(sel[0].start as int, sel[0].start + sel[0].length) + Seq::<
            T,
        >::empty() =~= Seq::<T>::empty() + tail);
    } else {
        lemma_filter_snoc(items, sel.skip(1));
        assert(sel.skip(1).drop_last() =~= sel.drop_last().skip(1));
        assert(sel.skip(1).last() == sel.last());
        assert(sel.drop_last()[0] == sel[0]);
        let sub0 = items.subrange(sel[0].start as int, sel[0].start + sel[0].length);
        assert(sub0 + (spec_filter(items, sel.drop_last().skip(1)) + tail) =~= (sub0
            + spec_filter(items, sel.drop_last().skip(1))) + tail);
    }
}

} // verus!
