//! Sharing weighted leaves out over a given number of plans: heaviest
//! first, each into the first plan that stays within the target.

use vstd::prelude::*;
use crate::nodes::Key;
use crate::partition::{plan_views, PartitionPlan, PlanView};

verus! {

/// What the first `n` leaves weigh together.
pub open spec fn total_weight(leaves: Seq<PlanView>, n: int) -> nat
    decreases n,
{
    if n <= 0 {
        0
    } else {
        total_weight(leaves, n - 1) + leaves[n - 1].weight
    }
}

/// Whether `pos` is where a leaf of weight `w` goes into `order`, a list of
/// leaves by falling weight: behind every leaf that weighs as much or more.
pub open spec fn is_slot(order: Seq<int>, leaves: Seq<PlanView>, w: nat, pos: int) -> bool {
    &&& 0 <= pos <= order.len()
    &&& forall|j: int| 0 <= j < pos ==> leaves[#[trigger] order[j]].weight >= w
    &&& pos < order.len() ==> leaves[order[pos]].weight < w
}

/// Where a leaf of weight `w` goes into `order`.
pub open spec fn slot(order: Seq<int>, leaves: Seq<PlanView>, w: nat) -> int {
    choose|pos: int| is_slot(order, leaves, w, pos)
}

/// The first `n` leaves, each by its position in `leaves`, in the order of
/// falling weight; of two that weigh the same the earlier one comes first.
pub open spec fn by_weight(leaves: Seq<PlanView>, n: int) -> Seq<int>
    decreases n,
{
    if n <= 0 {
        Seq::empty()
    } else {
        let head = by_weight(leaves, n - 1);
        head.insert(slot(head, leaves, leaves[n - 1].weight), n - 1)
    }
}

/// The plan that a bin stands for: its leaves merged in the order they were
/// put in.
pub open spec fn bin_plan(bin: Seq<int>, leaves: Seq<PlanView>) -> PlanView
    decreases bin.len(),
{
    if bin.len() == 0 {
        PlanView::empty()
    } else {
        bin_plan(bin.drop_last(), leaves).merged(leaves[bin.last()])
    }
}

/// Whether the leaf `leaf` can join `bin` without the bin passing `cap`.
pub open spec fn fits(bin: Seq<int>, leaves: Seq<PlanView>, leaf: int, cap: nat) -> bool {
    bin_plan(bin, leaves).weight + leaves[leaf].weight <= cap
}

/// Whether `b` is the earliest bin that the leaf can join.
pub open spec fn is_first_fit(
    bins: Seq<Seq<int>>,
    leaves: Seq<PlanView>,
    leaf: int,
    cap: nat,
    b: int,
) -> bool {
    &&& 0 <= b < bins.len()
    &&& fits(bins[b], leaves, leaf, cap)
    &&& forall|j: int| 0 <= j < b ==> !fits(#[trigger] bins[j], leaves, leaf, cap)
}

/// Whether the leaf can join any bin.
pub open spec fn some_fit(bins: Seq<Seq<int>>, leaves: Seq<PlanView>, leaf: int, cap: nat) -> bool {
    exists|b: int| 0 <= b < bins.len() && fits(#[trigger] bins[b], leaves, leaf, cap)
}

/// The earliest bin that the leaf can join, where there is one.
pub open spec fn first_fit(bins: Seq<Seq<int>>, leaves: Seq<PlanView>, leaf: int, cap: nat) -> int {
    choose|b: int| is_first_fit(bins, leaves, leaf, cap, b)
}

/// The bins after the leaf has been placed: in the earliest bin it fits, and
/// in a new last bin where it fits none.
pub open spec fn place(bins: Seq<Seq<int>>, leaves: Seq<PlanView>, leaf: int, cap: nat) -> Seq<
    Seq<int>,
> {
    if some_fit(bins, leaves, leaf, cap) {
        let b = first_fit(bins, leaves, leaf, cap);
        bins.update(b, bins[b].push(leaf))
    } else {
        bins.push(seq![leaf])
    }
}

/// The bins after the first `n` leaves of `order` have been placed, one
/// after the other.
pub open spec fn pack(order: Seq<int>, leaves: Seq<PlanView>, cap: nat, n: int) -> Seq<Seq<int>>
    decreases n,
{
    if n <= 0 {
        Seq::empty()
    } else {
        place(pack(order, leaves, cap, n - 1), leaves, order[n - 1], cap)
    }
}

/// The bins with the last ones folded into one until at most `k` are left.
pub open spec fn collapse(bins: Seq<Seq<int>>, k: int) -> Seq<Seq<int>>
    decreases bins.len(),
{
    if bins.len() <= k || bins.len() < 2 {
        bins
    } else {
        let n = bins.len() as int;
        collapse(bins.take(n - 2).push(bins[n - 2] + bins[n - 1]), k)
    }
}

/// The weight that a bin should not pass: the `k`th part of all weight.
pub open spec fn target(leaves: Seq<PlanView>, k: int) -> nat {
    (total_weight(leaves, leaves.len() as int) / (k as nat)) as nat
}

/// How the leaves are shared out over at most `k` bins: heaviest first, each
/// into the earliest bin that stays within the target, then the bins beyond
/// the `k`th folded into it.
pub open spec fn balanced(leaves: Seq<PlanView>, k: int) -> Seq<Seq<int>> {
    let order = by_weight(leaves, leaves.len() as int);
    collapse(pack(order, leaves, target(leaves, k), leaves.len() as int), k)
}

/// The plans that the bins stand for, one for one.
pub open spec fn bin_plans(bins: Seq<Seq<int>>, leaves: Seq<PlanView>) -> Seq<PlanView> {
    Seq::new(bins.len(), |b: int| bin_plan(bins[b], leaves))
}

/// What all bins weigh together.
pub open spec fn bins_weight(bins: Seq<Seq<int>>, leaves: Seq<PlanView>) -> nat
    decreases bins.len(),
{
    if bins.len() == 0 {
        0
    } else {
        bins_weight(bins.drop_last(), leaves) + bin_plan(bins.last(), leaves).weight
    }
}

/// What the leaves named in `order` weigh together.
pub open spec fn order_weight(order: Seq<int>, leaves: Seq<PlanView>) -> nat
    decreases order.len(),
{
    if order.len() == 0 {
        0
    } else {
        order_weight(order.drop_last(), leaves) + leaves[order.last()].weight
    }
}

/// Positions as mathematical integers.
pub open spec fn ints(positions: Seq<usize>) -> Seq<int> {
    Seq::new(positions.len(), |i: int| positions[i] as int)
}

proof fn lemma_slot_unique(order: Seq<int>, leaves: Seq<PlanView>, w: nat, p: int, q: int)
    requires
        is_slot(order, leaves, w, p),
        is_slot(order, leaves, w, q),
    ensures
        p == q,
{
    if p < q {
        assert(leaves[order[p]].weight >= w);
    }
    if q < p {
        assert(leaves[order[q]].weight >= w);
    }
}

proof fn lemma_first_fit_unique(
    bins: Seq<Seq<int>>,
    leaves: Seq<PlanView>,
    leaf: int,
    cap: nat,
    p: int,
    q: int,
)
    requires
        is_first_fit(bins, leaves, leaf, cap, p),
        is_first_fit(bins, leaves, leaf, cap, q),
    ensures
        p == q,
{
    if p < q {
        assert(!fits(bins[p], leaves, leaf, cap));
    }
    if q < p {
        assert(!fits(bins[q], leaves, leaf, cap));
    }
}

/// Merging plans does not depend on how the merges are grouped.
pub proof fn lemma_merged_associative(a: PlanView, b: PlanView, c: PlanView)
    ensures
        a.merged(b).merged(c) == a.merged(b.merged(c)),
{
    let left = a.merged(b).merged(c);
    let right = a.merged(b.merged(c));
    assert(left.plan =~= right.plan);
    assert(left.dependencies =~= right.dependencies);
}

/// The plan without members changes nothing in a merge.
pub proof fn lemma_merged_empty(a: PlanView)
    ensures
        PlanView::empty().merged(a) == a,
        a.merged(PlanView::empty()) == a,
{
    let left = PlanView::empty().merged(a);
    assert(left.plan =~= a.plan);
    assert(left.dependencies =~= a.dependencies);
    let right = a.merged(PlanView::empty());
    assert(right.plan =~= a.plan);
    assert(right.dependencies =~= a.dependencies);
}

proof fn lemma_bin_plan_push(bin: Seq<int>, leaf: int, leaves: Seq<PlanView>)
    ensures
        bin_plan(bin.push(leaf), leaves) == bin_plan(bin, leaves).merged(leaves[leaf]),
{
    assert(bin.push(leaf).drop_last() =~= bin);
}

proof fn lemma_bin_plan_concat(a: Seq<int>, b: Seq<int>, leaves: Seq<PlanView>)
    ensures
        bin_plan(a + b, leaves) == bin_plan(a, leaves).merged(bin_plan(b, leaves)),
    decreases b.len(),
{
    if b.len() == 0 {
        assert(a + b =~= a);
        lemma_merged_empty(bin_plan(a, leaves));
    } else {
        assert((a + b).drop_last() =~= a + b.drop_last());
        lemma_bin_plan_concat(a, b.drop_last(), leaves);
        lemma_merged_associative(
            bin_plan(a, leaves),
            bin_plan(b.drop_last(), leaves),
            leaves[b.last()],
        );
    }
}

proof fn lemma_bins_weight_push(bins: Seq<Seq<int>>, bin: Seq<int>, leaves: Seq<PlanView>)
    ensures
        bins_weight(bins.push(bin), leaves) == bins_weight(bins, leaves) + bin_plan(
            bin,
            leaves,
        ).weight,
{
    assert(bins.push(bin).drop_last() =~= bins);
}

proof fn lemma_bins_weight_update(bins: Seq<Seq<int>>, b: int, bin: Seq<int>, leaves: Seq<PlanView>)
    requires
        0 <= b < bins.len(),
    ensures
        bins_weight(bins.update(b, bin), leaves) + bin_plan(bins[b], leaves).weight == bins_weight(
            bins,
            leaves,
        ) + bin_plan(bin, leaves).weight,
    decreases bins.len(),
{
    if b == bins.len() - 1 {
        assert(bins.update(b, bin).drop_last() =~= bins.drop_last());
    } else {
        assert(bins.update(b, bin).drop_last() =~= bins.drop_last().update(b, bin));
        lemma_bins_weight_update(bins.drop_last(), b, bin, leaves);
    }
}

proof fn lemma_place_weight(bins: Seq<Seq<int>>, leaves: Seq<PlanView>, leaf: int, cap: nat)
    ensures
        bins_weight(place(bins, leaves, leaf, cap), leaves) == bins_weight(bins, leaves)
            + leaves[leaf].weight,
{
    if some_fit(bins, leaves, leaf, cap) {
        let w = choose|b: int| 0 <= b < bins.len() && fits(#[trigger] bins[b], leaves, leaf, cap);
        lemma_first_fit_exists(bins, leaves, leaf, cap, w);
        let b = first_fit(bins, leaves, leaf, cap);
        lemma_bins_weight_update(bins, b, bins[b].push(leaf), leaves);
        lemma_bin_plan_push(bins[b], leaf, leaves);
    } else {
        lemma_bins_weight_push(bins, seq![leaf], leaves);
        lemma_bin_plan_push(Seq::empty(), leaf, leaves);
        assert(Seq::<int>::empty().push(leaf) =~= seq![leaf]);
    }
}

proof fn lemma_first_fit_exists(
    bins: Seq<Seq<int>>,
    leaves: Seq<PlanView>,
    leaf: int,
    cap: nat,
    w: int,
)
    requires
        0 <= w < bins.len(),
        fits(bins[w], leaves, leaf, cap),
    ensures
        is_first_fit(bins, leaves, leaf, cap, first_fit(bins, leaves, leaf, cap)),
    decreases w,
{
    if exists|j: int| 0 <= j < w && fits(#[trigger] bins[j], leaves, leaf, cap) {
        let j = choose|j: int| 0 <= j < w && fits(#[trigger] bins[j], leaves, leaf, cap);
        lemma_first_fit_exists(bins, leaves, leaf, cap, j);
    } else {
        assert(is_first_fit(bins, leaves, leaf, cap, w));
    }
}

proof fn lemma_pack_weight(order: Seq<int>, leaves: Seq<PlanView>, cap: nat, n: int)
    requires
        0 <= n <= order.len(),
    ensures
        bins_weight(pack(order, leaves, cap, n), leaves) == order_weight(order.take(n), leaves),
    decreases n,
{
    if n > 0 {
        lemma_pack_weight(order, leaves, cap, n - 1);
        lemma_place_weight(pack(order, leaves, cap, n - 1), leaves, order[n - 1], cap);
        assert(order.take(n).drop_last() =~= order.take(n - 1));
    }
}

proof fn lemma_order_weight_insert(order: Seq<int>, pos: int, leaf: int, leaves: Seq<PlanView>)
    requires
        0 <= pos <= order.len(),
    ensures
        order_weight(order.insert(pos, leaf), leaves) == order_weight(order, leaves)
            + leaves[leaf].weight,
    decreases order.len(),
{
    if pos == order.len() {
        assert(order.insert(pos, leaf).drop_last() =~= order);
    } else {
        assert(order.insert(pos, leaf).drop_last() =~= order.drop_last().insert(pos, leaf));
        lemma_order_weight_insert(order.drop_last(), pos, leaf, leaves);
    }
}

proof fn lemma_slot_exists(order: Seq<int>, leaves: Seq<PlanView>, w: nat, upto: int)
    requires
        0 <= upto <= order.len(),
        forall|j: int| 0 <= j < upto ==> leaves[#[trigger] order[j]].weight >= w,
    ensures
        is_slot(order, leaves, w, slot(order, leaves, w)),
    decreases order.len() - upto,
{
    if upto < order.len() && leaves[order[upto]].weight >= w {
        lemma_slot_exists(order, leaves, w, upto + 1);
    } else {
        assert(is_slot(order, leaves, w, upto));
    }
}

proof fn lemma_by_weight_weight(leaves: Seq<PlanView>, n: int)
    requires
        0 <= n,
    ensures
        by_weight(leaves, n).len() == n,
        order_weight(by_weight(leaves, n), leaves) == total_weight(leaves, n),
    decreases n,
{
    if n > 0 {
        lemma_by_weight_weight(leaves, n - 1);
        let head = by_weight(leaves, n - 1);
        lemma_slot_exists(head, leaves, leaves[n - 1].weight, 0);
        lemma_order_weight_insert(head, slot(head, leaves, leaves[n - 1].weight), n - 1, leaves);
    }
}

/// The leaves as positions, by falling weight, earlier first among equals.
fn sort_by_weight(leaves: &Vec<PartitionPlan>) -> (order: Vec<usize>)
    ensures
        ints(order@) == by_weight(plan_views(leaves@), leaves.len() as int),
        forall|j: int| 0 <= j < order@.len() ==> order@[j] < leaves.len(),
{
    let ghost all = plan_views(leaves@);
    let mut order: Vec<usize> = Vec::new();
    let mut n: usize = 0;
    assert(ints(order@) =~= by_weight(all, 0));
    while n < leaves.len()
        invariant
            n <= leaves.len(),
            all == plan_views(leaves@),
            ints(order@) == by_weight(all, n as int),
            forall|j: int| 0 <= j < order@.len() ==> order@[j] < n,
        decreases leaves.len() - n,
    {
        let w = leaves[n].weight;
        let ghost head = ints(order@);
        let mut pos: usize = 0;
        while pos < order.len() && leaves[order[pos]].weight >= w
            invariant
                pos <= order.len(),
                n < leaves.len(),
                all == plan_views(leaves@),
                head == ints(order@),
                forall|j: int| 0 <= j < order@.len() ==> order@[j] < n,
                forall|j: int| 0 <= j < pos ==> all[#[trigger] head[j]].weight >= w,
            decreases order.len() - pos,
        {
            pos += 1;
        }
        proof {
            assert(pos < order.len() ==> all[head[pos as int]].weight < w);
            assert(is_slot(head, all, w as nat, pos as int));
            lemma_slot_exists(head, all, w as nat, 0);
            lemma_slot_unique(head, all, w as nat, pos as int, slot(head, all, w as nat));
        }
        order.insert(pos, n);
        assert(ints(order@) =~= head.insert(pos as int, n as int));
        n += 1;
    }
    order
}

/// Shares the leaves out over at most `k` plans of about the same weight.
pub fn pack_leaves(leaves: &Vec<PartitionPlan>, k: usize) -> (plans: Vec<PartitionPlan>)
    requires
        k > 0,
        total_weight(plan_views(leaves@), leaves.len() as int) <= u64::MAX,
    ensures
        plan_views(plans@) == bin_plans(
            balanced(plan_views(leaves@), k as int),
            plan_views(leaves@),
        ),
{
    let ghost all = plan_views(leaves@);
    let mut sum: u64 = 0;
    let mut i: usize = 0;
    while i < leaves.len()
        invariant
            i <= leaves.len(),
            all == plan_views(leaves@),
            sum == total_weight(all, i as int),
            total_weight(all, leaves.len() as int) <= u64::MAX,
        decreases leaves.len() - i,
    {
        proof {
            lemma_total_weight_grows(all, i as int + 1, leaves.len() as int);
        }
        sum = sum + leaves[i].weight;
        i += 1;
    }
    let cap = sum / (k as u64);
    assert(cap as nat == target(all, k as int));
    let order = sort_by_weight(leaves);
    let ghost sorted = ints(order@);
    proof {
        lemma_by_weight_weight(all, leaves.len() as int);
    }
    let mut plans: Vec<PartitionPlan> = Vec::new();
    let ghost mut bins: Seq<Seq<int>> = Seq::empty();
    let mut n: usize = 0;
    assert(plan_views(plans@) =~= bin_plans(bins, all));
    while n < order.len()
        invariant
            n <= order.len(),
            order.len() == leaves.len(),
            all == plan_views(leaves@),
            sorted == ints(order@),
            forall|j: int| 0 <= j < order@.len() ==> order@[j] < leaves.len(),
            bins == pack(sorted, all, cap as nat, n as int),
            plans@.len() == bins.len(),
            plan_views(plans@) == bin_plans(bins, all),
        decreases order.len() - n,
    {
        let leaf = order[n];
        let w = leaves[leaf].weight;
        let mut b: usize = 0;
        while b < plans.len() && plans[b].weight as u128 + w as u128 > cap as u128
            invariant
                b <= plans.len(),
                leaf < leaves.len(),
                w == leaves@[leaf as int].weight,
                all == plan_views(leaves@),
                plans@.len() == bins.len(),
                plan_views(plans@) == bin_plans(bins, all),
                forall|j: int| 0 <= j < b ==> !fits(#[trigger] bins[j], all, leaf as int, cap as nat),
            decreases plans.len() - b,
        {
            assert(plan_views(plans@)[b as int] == bin_plan(bins[b as int], all));
            b += 1;
        }
        let ghost before = bins;
        let ghost views_before = plan_views(plans@);
        if b < plans.len() {
            proof {
                assert(plan_views(plans@)[b as int] == bin_plan(bins[b as int], all));
                assert(is_first_fit(bins, all, leaf as int, cap as nat, b as int));
                lemma_first_fit_exists(bins, all, leaf as int, cap as nat, b as int);
                lemma_first_fit_unique(
                    bins,
                    all,
                    leaf as int,
                    cap as nat,
                    b as int,
                    first_fit(bins, all, leaf as int, cap as nat),
                );
                lemma_bin_plan_push(bins[b as int], leaf as int, all);
                bins = bins.update(b as int, bins[b as int].push(leaf as int));
            }
            plans[b].merge(&leaves[leaf]);
            assert forall|j: int| 0 <= j < bins.len() implies plan_views(plans@)[j] == #[trigger] bin_plans(
                bins,
                all,
            )[j] by {
                if j != b {
                    assert(plan_views(plans@)[j] == views_before[j]);
                } else {
                    assert(views_before[j] == bin_plan(before[j], all));
                    assert(all[leaf as int] == leaves@[leaf as int]@);
                }
            }
        } else {
            proof {
                lemma_bin_plan_push(Seq::empty(), leaf as int, all);
                assert(Seq::<int>::empty().push(leaf as int) =~= seq![leaf as int]);
                bins = bins.push(seq![leaf as int]);
            }
            let mut plan = PartitionPlan::new();
            plan.merge(&leaves[leaf]);
            plans.push(plan);
            assert forall|j: int| 0 <= j < bins.len() implies plan_views(plans@)[j] == #[trigger] bin_plans(
                bins,
                all,
            )[j] by {
                if j < before.len() {
                    assert(plan_views(plans@)[j] == views_before[j]);
                } else {
                    assert(all[leaf as int] == leaves@[leaf as int]@);
                }
            }
        }
        proof {
            assert(bins == place(before, all, sorted[n as int], cap as nat));
            assert(plan_views(plans@) =~= bin_plans(bins, all));
        }
        n += 1;
    }
    proof {
        lemma_pack_weight(sorted, all, cap as nat, n as int);
        assert(sorted.take(n as int) =~= sorted);
    }
    while plans.len() > k
        invariant
            k > 0,
            all == plan_views(leaves@),
            plans@.len() == bins.len(),
            plan_views(plans@) == bin_plans(bins, all),
            bins_weight(bins, all) <= u64::MAX,
            collapse(bins, k as int) == balanced(all, k as int),
        decreases plans.len(),
    {
        let ghost whole = plan_views(plans@);
        let last = plans.pop().unwrap();
        let at = plans.len() - 1;
        proof {
            let m = bins.len() as int;
            assert(whole[m - 1] == bin_plan(bins[m - 1], all));
            assert(whole[m - 2] == bin_plan(bins[m - 2], all));
            lemma_bins_weight_push(bins.take(m - 2), bins[m - 2], all);
            lemma_bins_weight_push(bins.take(m - 1), bins[m - 1], all);
            assert(bins.take(m - 1) =~= bins.take(m - 2).push(bins[m - 2]));
            assert(bins =~= bins.take(m - 1).push(bins[m - 1]));
            lemma_bin_plan_concat(bins[m - 2], bins[m - 1], all);
            lemma_bins_weight_push(bins.take(m - 2), bins[m - 2] + bins[m - 1], all);
            bins = bins.take(m - 2).push(bins[m - 2] + bins[m - 1]);
        }
        plans[at].merge(&last);
        assert forall|j: int| 0 <= j < bins.len() implies plan_views(plans@)[j] == #[trigger] bin_plans(
            bins,
            all,
        )[j] by {
            if j != at {
                assert(plan_views(plans@)[j] == whole[j]);
            }
        }
        assert(plan_views(plans@) =~= bin_plans(bins, all));
    }
    plans
}

proof fn lemma_total_weight_grows(leaves: Seq<PlanView>, n: int, m: int)
    requires
        n <= m,
    ensures
        total_weight(leaves, n) <= total_weight(leaves, m),
    decreases m - n,
{
    if n < m {
        lemma_total_weight_grows(leaves, n, m - 1);
    }
}

/// How often the leaf `l` is in a bin.
pub open spec fn occurs(bin: Seq<int>, l: int) -> nat
    decreases bin.len(),
{
    if bin.len() == 0 {
        0
    } else if bin.last() == l {
        occurs(bin.drop_last(), l) + 1
    } else {
        occurs(bin.drop_last(), l)
    }
}

/// How often the leaf `l` is in all bins together.
pub open spec fn times(bins: Seq<Seq<int>>, l: int) -> nat
    decreases bins.len(),
{
    if bins.len() == 0 {
        0
    } else {
        times(bins.drop_last(), l) + occurs(bins.last(), l)
    }
}

/// Whether one of the plans has the key `key` among its members.
pub open spec fn names(plans: Seq<PlanView>, key: Key) -> bool {
    exists|p: int, i: int|
        0 <= p < plans.len() && 0 <= i < plans[p].plan.len() && (#[trigger] plans[p].plan[i]) == key
}

proof fn lemma_occurs_push(bin: Seq<int>, x: int, l: int)
    ensures
        occurs(bin.push(x), l) == occurs(bin, l) + if x == l {
            1nat
        } else {
            0nat
        },
{
    assert(bin.push(x).drop_last() =~= bin);
}

proof fn lemma_occurs_insert(bin: Seq<int>, pos: int, x: int, l: int)
    requires
        0 <= pos <= bin.len(),
    ensures
        occurs(bin.insert(pos, x), l) == occurs(bin, l) + if x == l {
            1nat
        } else {
            0nat
        },
    decreases bin.len(),
{
    if pos == bin.len() {
        assert(bin.insert(pos, x) =~= bin.push(x));
        lemma_occurs_push(bin, x, l);
    } else {
        assert(bin.insert(pos, x).drop_last() =~= bin.drop_last().insert(pos, x));
        lemma_occurs_insert(bin.drop_last(), pos, x, l);
    }
}

proof fn lemma_occurs_concat(a: Seq<int>, b: Seq<int>, l: int)
    ensures
        occurs(a + b, l) == occurs(a, l) + occurs(b, l),
    decreases b.len(),
{
    if b.len() == 0 {
        assert(a + b =~= a);
    } else {
        assert((a + b).drop_last() =~= a + b.drop_last());
        lemma_occurs_concat(a, b.drop_last(), l);
    }
}

proof fn lemma_occurs_found(bin: Seq<int>, l: int)
    ensures
        occurs(bin, l) > 0 <==> exists|j: int| 0 <= j < bin.len() && bin[j] == l,
    decreases bin.len(),
{
    if bin.len() > 0 {
        lemma_occurs_found(bin.drop_last(), l);
        if exists|j: int| 0 <= j < bin.len() && bin[j] == l {
            let j = choose|j: int| 0 <= j < bin.len() && bin[j] == l;
            if j < bin.len() - 1 {
                assert(bin.drop_last()[j] == l);
            }
        }
        if occurs(bin.drop_last(), l) > 0 {
            let j = choose|j: int| 0 <= j < bin.drop_last().len() && bin.drop_last()[j] == l;
            assert(bin[j] == l);
        }
        if bin.last() == l {
            assert(bin[bin.len() - 1] == l);
        }
    }
}

proof fn lemma_times_push(bins: Seq<Seq<int>>, bin: Seq<int>, l: int)
    ensures
        times(bins.push(bin), l) == times(bins, l) + occurs(bin, l),
{
    assert(bins.push(bin).drop_last() =~= bins);
}

proof fn lemma_times_update(bins: Seq<Seq<int>>, b: int, bin: Seq<int>, l: int)
    requires
        0 <= b < bins.len(),
    ensures
        times(bins.update(b, bin), l) + occurs(bins[b], l) == times(bins, l) + occurs(bin, l),
    decreases bins.len(),
{
    if b == bins.len() - 1 {
        assert(bins.update(b, bin).drop_last() =~= bins.drop_last());
    } else {
        assert(bins.update(b, bin).drop_last() =~= bins.drop_last().update(b, bin));
        lemma_times_update(bins.drop_last(), b, bin, l);
    }
}

proof fn lemma_times_found(bins: Seq<Seq<int>>, l: int)
    ensures
        times(bins, l) > 0 <==> exists|b: int, j: int|
            0 <= b < bins.len() && 0 <= j < bins[b].len() && #[trigger] bins[b][j] == l,
    decreases bins.len(),
{
    if bins.len() > 0 {
        let head = bins.drop_last();
        lemma_times_found(head, l);
        lemma_occurs_found(bins.last(), l);
        if exists|b: int, j: int|
            0 <= b < bins.len() && 0 <= j < bins[b].len() && #[trigger] bins[b][j] == l {
            let (b, j) = choose|b: int, j: int|
                0 <= b < bins.len() && 0 <= j < bins[b].len() && #[trigger] bins[b][j] == l;
            if b < bins.len() - 1 {
                assert(head[b][j] == l);
            }
        }
        if times(head, l) > 0 {
            let (b, j) = choose|b: int, j: int|
                0 <= b < head.len() && 0 <= j < head[b].len() && #[trigger] head[b][j] == l;
            assert(bins[b][j] == l);
        }
        if occurs(bins.last(), l) > 0 {
            let j = choose|j: int| 0 <= j < bins.last().len() && bins.last()[j] == l;
            assert(bins[bins.len() - 1][j] == l);
        }
    }
}

proof fn lemma_by_weight_once(leaves: Seq<PlanView>, n: int, l: int)
    requires
        0 <= n,
    ensures
        occurs(by_weight(leaves, n), l) == if 0 <= l < n {
            1nat
        } else {
            0nat
        },
    decreases n,
{
    if n > 0 {
        lemma_by_weight_once(leaves, n - 1, l);
        lemma_by_weight_weight(leaves, n - 1);
        let head = by_weight(leaves, n - 1);
        lemma_slot_exists(head, leaves, leaves[n - 1].weight, 0);
        lemma_occurs_insert(head, slot(head, leaves, leaves[n - 1].weight), n - 1, l);
    }
}

proof fn lemma_place_once(bins: Seq<Seq<int>>, leaves: Seq<PlanView>, leaf: int, cap: nat, l: int)
    ensures
        times(place(bins, leaves, leaf, cap), l) == times(bins, l) + if leaf == l {
            1nat
        } else {
            0nat
        },
        place(bins, leaves, leaf, cap).len() >= bins.len(),
{
    if some_fit(bins, leaves, leaf, cap) {
        let w = choose|b: int| 0 <= b < bins.len() && fits(#[trigger] bins[b], leaves, leaf, cap);
        lemma_first_fit_exists(bins, leaves, leaf, cap, w);
        let b = first_fit(bins, leaves, leaf, cap);
        lemma_times_update(bins, b, bins[b].push(leaf), l);
        lemma_occurs_push(bins[b], leaf, l);
    } else {
        lemma_times_push(bins, seq![leaf], l);
        lemma_occurs_push(Seq::empty(), leaf, l);
        assert(Seq::<int>::empty().push(leaf) =~= seq![leaf]);
    }
}

proof fn lemma_pack_once(order: Seq<int>, leaves: Seq<PlanView>, cap: nat, n: int, l: int)
    requires
        0 <= n <= order.len(),
    ensures
        times(pack(order, leaves, cap, n), l) == occurs(order.take(n), l),
    decreases n,
{
    if n > 0 {
        lemma_pack_once(order, leaves, cap, n - 1, l);
        lemma_place_once(pack(order, leaves, cap, n - 1), leaves, order[n - 1], cap, l);
        assert(order.take(n).drop_last() =~= order.take(n - 1));
    }
}

proof fn lemma_collapse_once(bins: Seq<Seq<int>>, k: int, l: int)
    requires
        k >= 1,
    ensures
        times(collapse(bins, k), l) == times(bins, l),
        collapse(bins, k).len() <= k || bins.len() == 0,
        collapse(bins, k).len() <= bins.len(),
    decreases bins.len(),
{
    if !(bins.len() <= k || bins.len() < 2) {
        let n = bins.len() as int;
        let folded = bins.take(n - 2).push(bins[n - 2] + bins[n - 1]);
        lemma_collapse_once(folded, k, l);
        lemma_times_push(bins.take(n - 2), bins[n - 2] + bins[n - 1], l);
        lemma_occurs_concat(bins[n - 2], bins[n - 1], l);
        lemma_times_push(bins.take(n - 2), bins[n - 2], l);
        lemma_times_push(bins.take(n - 1), bins[n - 1], l);
        assert(bins.take(n - 1) =~= bins.take(n - 2).push(bins[n - 2]));
        assert(bins =~= bins.take(n - 1).push(bins[n - 1]));
    }
}

/// Every leaf is in exactly one of the bins, and there once; and there are
/// no more bins than were asked for.
pub proof fn lemma_every_leaf_once(leaves: Seq<PlanView>, k: int, l: int)
    requires
        k >= 1,
    ensures
        times(balanced(leaves, k), l) == if 0 <= l < leaves.len() {
            1nat
        } else {
            0nat
        },
        balanced(leaves, k).len() <= k,
{
    let n = leaves.len() as int;
    let order = by_weight(leaves, n);
    lemma_by_weight_weight(leaves, n);
    let packed = pack(order, leaves, target(leaves, k), n);
    lemma_by_weight_once(leaves, n, l);
    lemma_pack_once(order, leaves, target(leaves, k), n, l);
    assert(order.take(n) =~= order);
    lemma_collapse_once(packed, k, l);
}

proof fn lemma_bin_plan_names(bin: Seq<int>, leaves: Seq<PlanView>, key: Key)
    ensures
        bin_plan(bin, leaves).plan.contains(key) <==> exists|j: int|
            0 <= j < bin.len() && leaves[#[trigger] bin[j]].plan.contains(key),
    decreases bin.len(),
{
    if bin.len() > 0 {
        let head = bin.drop_last();
        lemma_bin_plan_names(head, leaves, key);
        let before = bin_plan(head, leaves).plan;
        let added = leaves[bin.last()].plan;
        let now = bin_plan(bin, leaves).plan;
        assert(now == before + added);
        if now.contains(key) {
            let i = choose|i: int| 0 <= i < now.len() && now[i] == key;
            if i < before.len() {
                assert(before[i] == key);
                let j = choose|j: int| 0 <= j < head.len() && leaves[#[trigger] head[j]].plan.contains(key);
                assert(bin[j] == head[j]);
            } else {
                assert(added[i - before.len()] == key);
                assert(leaves[bin[bin.len() - 1]].plan.contains(key));
            }
        }
        if exists|j: int| 0 <= j < bin.len() && leaves[#[trigger] bin[j]].plan.contains(key) {
            let j = choose|j: int| 0 <= j < bin.len() && leaves[#[trigger] bin[j]].plan.contains(key);
            if j < bin.len() - 1 {
                assert(head[j] == bin[j]);
                assert(before.contains(key));
                let i = choose|i: int| 0 <= i < before.len() && before[i] == key;
                assert(now[i] == key);
            } else {
                let i = choose|i: int| 0 <= i < added.len() && added[i] == key;
                assert(now[before.len() + i] == key);
            }
        }
    }
}

/// The plans name the keys on the paths to the leaves, all of them and no
/// others.
pub proof fn lemma_plans_cover_paths(leaves: Seq<PlanView>, k: int, key: Key)
    requires
        k >= 1,
    ensures
        names(bin_plans(balanced(leaves, k), leaves), key) == names(leaves, key),
{
    let bins = balanced(leaves, k);
    let plans = bin_plans(bins, leaves);
    if names(plans, key) {
        let (p, i) = choose|p: int, i: int|
            0 <= p < plans.len() && 0 <= i < plans[p].plan.len() && (#[trigger] plans[p].plan[i]) == key;
        assert(plans[p].plan.contains(key));
        lemma_bin_plan_names(bins[p], leaves, key);
        let j = choose|j: int| 0 <= j < bins[p].len() && leaves[#[trigger] bins[p][j]].plan.contains(key);
        let l = bins[p][j];
        lemma_times_found(bins, l);
        lemma_every_leaf_once(leaves, k, l);
        let at = choose|at: int| 0 <= at < leaves[l].plan.len() && leaves[l].plan[at] == key;
        assert(leaves[l].plan[at] == key);
    }
    if names(leaves, key) {
        let (l, at) = choose|l: int, at: int|
            0 <= l < leaves.len() && 0 <= at < leaves[l].plan.len() && (#[trigger] leaves[l].plan[at])
                == key;
        lemma_every_leaf_once(leaves, k, l);
        lemma_times_found(bins, l);
        let (b, j) = choose|b: int, j: int|
            0 <= b < bins.len() && 0 <= j < bins[b].len() && #[trigger] bins[b][j] == l;
        assert(leaves[bins[b][j]].plan.contains(key));
        lemma_bin_plan_names(bins[b], leaves, key);
        assert(plans[b].plan.contains(key));
        let i = choose|i: int| 0 <= i < plans[b].plan.len() && plans[b].plan[i] == key;
        assert(plans[b].plan[i] == key);
    }
}

proof fn lemma_by_weight_range(leaves: Seq<PlanView>, n: int, j: int)
    requires
        0 <= j < n,
    ensures
        by_weight(leaves, n).len() == n,
        0 <= by_weight(leaves, n)[j] < n,
{
    lemma_by_weight_weight(leaves, n);
    let order = by_weight(leaves, n);
    let l = order[j];
    lemma_occurs_found(order, l);
    lemma_by_weight_once(leaves, n, l);
}

/// The greater of two weights.
pub open spec fn larger(a: nat, b: nat) -> nat {
    if a >= b {
        a
    } else {
        b
    }
}

proof fn lemma_pack_within(
    order: Seq<int>,
    leaves: Seq<PlanView>,
    cap: nat,
    most: nat,
    n: int,
    b: int,
)
    requires
        0 <= n <= order.len(),
        forall|j: int| 0 <= j < n ==> leaves[#[trigger] order[j]].weight <= most,
        0 <= b < pack(order, leaves, cap, n).len(),
    ensures
        bin_plan(pack(order, leaves, cap, n)[b], leaves).weight <= larger(cap, most),
    decreases n,
{
    if n > 0 {
        let before = pack(order, leaves, cap, n - 1);
        let leaf = order[n - 1];
        if some_fit(before, leaves, leaf, cap) {
            let w = choose|w: int| 0 <= w < before.len() && fits(#[trigger] before[w], leaves, leaf, cap);
            lemma_first_fit_exists(before, leaves, leaf, cap, w);
            let at = first_fit(before, leaves, leaf, cap);
            if b == at {
                lemma_bin_plan_push(before[at], leaf, leaves);
            } else {
                lemma_pack_within(order, leaves, cap, most, n - 1, b);
            }
        } else {
            if b < before.len() {
                lemma_pack_within(order, leaves, cap, most, n - 1, b);
            } else {
                lemma_bin_plan_push(Seq::empty(), leaf, leaves);
                assert(Seq::<int>::empty().push(leaf) =~= seq![leaf]);
                assert(leaves[order[n - 1]].weight <= most);
            }
        }
    }
}

proof fn lemma_collapse_keeps(bins: Seq<Seq<int>>, k: int, b: int)
    requires
        k >= 1,
        0 <= b < collapse(bins, k).len(),
        b < k - 1 || bins.len() <= k,
    ensures
        b < bins.len(),
        collapse(bins, k)[b] == bins[b],
    decreases bins.len(),
{
    if !(bins.len() <= k || bins.len() < 2) {
        let n = bins.len() as int;
        let folded = bins.take(n - 2).push(bins[n - 2] + bins[n - 1]);
        lemma_collapse_keeps(folded, k, b);
        lemma_collapse_once(folded, k, 0);
    }
}

/// Every plan weighs at most the target or, where a leaf weighs more than
/// that, at most the heaviest leaf; but for the last plan where the leaves
/// took more bins than there are plans, for it takes all that is left over.
pub proof fn lemma_balance_but_last(leaves: Seq<PlanView>, k: int, most: nat, b: int)
    requires
        k >= 1,
        forall|l: int| 0 <= l < leaves.len() ==> (#[trigger] leaves[l]).weight <= most,
        0 <= b < balanced(leaves, k).len(),
        b < k - 1 || pack(
            by_weight(leaves, leaves.len() as int),
            leaves,
            target(leaves, k),
            leaves.len() as int,
        ).len() <= k,
    ensures
        bin_plan(balanced(leaves, k)[b], leaves).weight <= larger(target(leaves, k), most),
{
    let n = leaves.len() as int;
    let cap = target(leaves, k);
    let order = by_weight(leaves, n);
    let packed = pack(order, leaves, cap, n);
    lemma_by_weight_weight(leaves, n);
    assert forall|j: int| 0 <= j < n implies leaves[#[trigger] order[j]].weight <= most by {
        lemma_by_weight_range(leaves, n, j);
    }
    lemma_collapse_keeps(packed, k, b);
    lemma_pack_within(order, leaves, cap, most, n, b);
}

/// No plan weighs more than twice the target, where no single leaf weighs
/// more than the target and packing the leaves took at most one bin more
/// than there are plans.
pub proof fn lemma_balance(leaves: Seq<PlanView>, k: int, b: int)
    requires
        k >= 1,
        forall|l: int| 0 <= l < leaves.len() ==> (#[trigger] leaves[l]).weight <= target(leaves, k),
        pack(
            by_weight(leaves, leaves.len() as int),
            leaves,
            target(leaves, k),
            leaves.len() as int,
        ).len() <= k + 1,
        0 <= b < balanced(leaves, k).len(),
    ensures
        bin_plan(balanced(leaves, k)[b], leaves).weight <= 2 * target(leaves, k),
{
    let n = leaves.len() as int;
    let cap = target(leaves, k);
    let order = by_weight(leaves, n);
    let packed = pack(order, leaves, cap, n);
    lemma_by_weight_weight(leaves, n);
    assert forall|j: int| 0 <= j < n implies leaves[#[trigger] order[j]].weight <= cap by {
        lemma_by_weight_range(leaves, n, j);
    }
    if packed.len() <= k || packed.len() < 2 {
        lemma_pack_within(order, leaves, cap, cap, n, b);
    } else {
        let m = packed.len() as int;
        let folded = packed.take(m - 2).push(packed[m - 2] + packed[m - 1]);
        assert(collapse(folded, k) == folded);
        if b < m - 2 {
            lemma_pack_within(order, leaves, cap, cap, n, b);
        } else {
            lemma_pack_within(order, leaves, cap, cap, n, m - 2);
            lemma_pack_within(order, leaves, cap, cap, n, m - 1);
            lemma_bin_plan_concat(packed[m - 2], packed[m - 1], leaves);
        }
    }
}

} // verus!
