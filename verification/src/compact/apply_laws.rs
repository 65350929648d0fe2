//! What holds of the places of tables once a task has been carried out.
use crate::compact::{self, LevelTaskView, TaskView};
use crate::compact::leveled;
use crate::compact::tiered;
use crate::lsm_storage::LayoutView;
use vstd::prelude::*;

verus! {

/// Taking ids out keeps the others and their order: what is left of two lists is what is left of
/// the one, then what is left of the other, and of a single id it is that id or nothing.
pub proof fn law_without(a: Seq<usize>, b: Seq<usize>, gone: Seq<usize>, id: usize)
    ensures
        compact::without(a + b, gone) == compact::without(a, gone) + compact::without(b, gone),
        gone.contains(id) ==> compact::without(seq![id], gone).len() == 0,
        !gone.contains(id) ==> compact::without(seq![id], gone) == seq![id],
    decreases b.len(),
{
    let none = Seq::<usize>::empty();
    assert(seq![id].drop_last() =~= none);
    assert(compact::without(none, gone) == none);
    assert(none.push(id) =~= seq![id]);
    if b.len() == 0 {
        assert(a + b =~= a);
        assert(compact::without(a, gone) + b =~= compact::without(a, gone));
    } else {
        law_without(a, b.drop_last(), gone, id);
        assert((a + b).drop_last() =~= a + b.drop_last());
        assert((a + b).last() == b.last());
        let x = compact::without(a, gone);
        let y = compact::without(b.drop_last(), gone);
        assert((x + y).push(b.last()) =~= x + y.push(b.last()));
    }
}

/// A task merges its upper and its lower tables, or those of all its tiers, or those of L0 and of
/// the first level.
pub proof fn law_task_ids(task: TaskView, id: usize)
    ensures
        compact::task_ids(task).contains(id) <==> match task {
            TaskView::Leveled(t) => t.upper.contains(id) || t.lower.contains(id),
            TaskView::Simple(t) => t.upper.contains(id) || t.lower.contains(id),
            TaskView::Tiered(tiers, _) => exists|i: int|
                0 <= i < tiers.len() && (#[trigger] tiers[i]).1.contains(id),
            TaskView::ForceFullCompaction(l0, l1) => l0.contains(id) || l1.contains(id),
        },
{
    match task {
        TaskView::Leveled(t) => {
            compact::lemma_concat_contains(t.upper, t.lower, id);
        },
        TaskView::Simple(t) => {
            compact::lemma_concat_contains(t.upper, t.lower, id);
        },
        TaskView::Tiered(tiers, _) => {
            lemma_tier_ids_contain(tiers, id);
        },
        TaskView::ForceFullCompaction(l0, l1) => {
            compact::lemma_concat_contains(l0, l1, id);
        },
    }
}

proof fn lemma_tier_ids_contain(tiers: Seq<(usize, Seq<usize>)>, id: usize)
    ensures
        tiered::tier_ids(tiers).contains(id) <==> exists|i: int|
            0 <= i < tiers.len() && (#[trigger] tiers[i]).1.contains(id),
    decreases tiers.len(),
{
    if tiers.len() > 0 {
        let front = tiers.drop_last();
        lemma_tier_ids_contain(front, id);
        compact::lemma_concat_contains(tiered::tier_ids(front), tiers.last().1, id);
        if tiered::tier_ids(front).contains(id) {
            let i = choose|i: int| 0 <= i < front.len() && (#[trigger] front[i]).1.contains(id);
            assert(tiers[i] == front[i]);
        }
        if tiers.last().1.contains(id) {
            assert(tiers[tiers.len() - 1].1.contains(id));
        }
        if exists|i: int| 0 <= i < tiers.len() && (#[trigger] tiers[i]).1.contains(id) {
            let i = choose|i: int| 0 <= i < tiers.len() && (#[trigger] tiers[i]).1.contains(id);
            if i < front.len() {
                assert(front[i] == tiers[i]);
            }
        }
    }
}

/// Where the tables stand once simple leveled compaction has carried out a task: those that were
/// merged are gone from the two levels, those that came of it are in the lower one, and all others
/// are where they were, also those that have come to L0 meanwhile.
pub proof fn law_simple_applied(
    layout: LayoutView,
    t: LevelTaskView,
    output: Seq<usize>,
    i: int,
    id: usize,
)
    requires
        0 <= i < layout.levels.len(),
    ensures
        ({
            let after = compact::layout_after(layout, TaskView::Simple(t), output);
            &&& after.l0.contains(id) <==> layout.l0.contains(id) && !(t.upper_level is None
                && t.upper.contains(id))
            &&& t.upper_level is Some ==> after.l0 == layout.l0
            &&& after.levels.len() == layout.levels.len()
            &&& after.levels[i].0 == layout.levels[i].0
            &&& t.lower_level != i + 1 && t.upper_level != Some((i + 1) as usize)
                ==> after.levels[i]
                == layout.levels[i]
            &&& layout.levels.len() <= usize::MAX ==> (after.levels[i].1.contains(id) <==> {
                ||| t.lower_level == i + 1 && output.contains(id)
                ||| {
                    &&& layout.levels[i].1.contains(id)
                    &&& !(t.upper_level == Some((i + 1) as usize) && t.upper.contains(id))
                    &&& !(t.lower_level == i + 1 && t.lower.contains(id))
                }
            })
        }),
{
    let level = layout.levels[i];
    compact::lemma_without(layout.l0, t.upper, id);
    compact::lemma_without(level.1, t.upper, id);
    let kept = if t.upper_level matches Some(u) && u == i + 1 {
        compact::without(level.1, t.upper)
    } else {
        level.1
    };
    compact::lemma_without(kept, t.lower, id);
    compact::lemma_concat_contains(compact::without(kept, t.lower), output, id);
}

proof fn lemma_first_of_divides(ids: Seq<usize>, gone: Seq<usize>)
    ensures
        0 <= leveled::first_of(ids, gone) <= ids.len(),
        forall|j: int| 0 <= j < leveled::first_of(ids, gone) ==> !gone.contains(#[trigger] ids[j]),
        leveled::first_of(ids, gone) < ids.len()
            ==> gone.contains(ids[leveled::first_of(ids, gone)]),
    decreases ids.len(),
{
    if ids.len() > 0 && !gone.contains(ids[0]) {
        let t = ids.drop_first();
        lemma_first_of_divides(t, gone);
        assert forall|j: int| 0 <= j < leveled::first_of(ids, gone) implies !gone.contains(
            #[trigger] ids[j],
        ) by {
            if j > 0 {
                assert(ids[j] == t[j - 1]);
            }
        }
    }
}

/// Where the tables stand once leveled compaction has carried out a task: those that were merged are
/// gone from the two levels, those that came of it stand together in the lower one, where the first
/// merged one stood, and all others are where they were, also those that have come to L0 meanwhile.
pub proof fn law_leveled_applied(
    layout: LayoutView,
    t: LevelTaskView,
    output: Seq<usize>,
    i: int,
    id: usize,
)
    requires
        0 <= i < layout.levels.len(),
        t.upper_level != Some(t.lower_level),
    ensures
        ({
            let after = compact::layout_after(layout, TaskView::Leveled(t), output);
            let old = layout.levels[i].1;
            &&& after.l0.contains(id) <==> layout.l0.contains(id) && !(t.upper_level is None
                && t.upper.contains(id))
            &&& t.upper_level is Some ==> after.l0 == layout.l0
            &&& after.levels.len() == layout.levels.len()
            &&& after.levels[i].0 == layout.levels[i].0
            &&& t.lower_level != i + 1 && t.upper_level != Some((i + 1) as usize)
                ==> after.levels[i]
                == layout.levels[i]
            &&& layout.levels.len() <= usize::MAX ==> (after.levels[i].1.contains(id) <==> {
                ||| t.lower_level == i + 1 && output.contains(id)
                ||| {
                    &&& old.contains(id)
                    &&& !(t.upper_level == Some((i + 1) as usize) && t.upper.contains(id))
                    &&& !(t.lower_level == i + 1 && t.lower.contains(id))
                }
            })
            &&& t.lower_level == i + 1 ==> exists|p: int|
                {
                    &&& 0 <= p <= old.len()
                    &&& p == old.len() || t.lower.contains(old[p])
                    &&& #[trigger] after.levels[i].1.take(p) == old.take(p)
                    &&& after.levels[i].1.subrange(p, p + output.len()) == output
                }
        }),
{
    let after = compact::layout_after(layout, TaskView::Leveled(t), output);
    let level = layout.levels[i];
    let old = level.1;
    compact::lemma_without(layout.l0, t.upper, id);
    compact::lemma_without(old, t.upper, id);
    let kept = if t.upper_level matches Some(u) && u == i + 1 {
        compact::without(old, t.upper)
    } else {
        old
    };
    let p = leveled::first_of(kept, t.lower);
    lemma_first_of_divides(kept, t.lower);
    let head = kept.take(p);
    let tail = kept.skip(p);
    compact::lemma_without(tail, t.lower, id);
    compact::lemma_concat_contains(head, output, id);
    compact::lemma_concat_contains(head + output, compact::without(tail, t.lower), id);
    assert(head + tail =~= kept);
    compact::lemma_concat_contains(head, tail, id);
    if head.contains(id) {
        let j = choose|j: int| 0 <= j < head.len() && head[j] == id;
        assert(kept[j] == id);
    }
    if t.lower_level == i + 1 {
        let r = after.levels[i].1;
        assert(r == head + output + compact::without(tail, t.lower));
        assert(r.take(p) =~= old.take(p));
        assert(r.subrange(p, p + output.len()) =~= output);
    }
}

/// Where the tiers stand once tiered compaction has carried out a task whose tiers stand together
/// from `p` on: what came of it is one tier in their place, which is named after its first table, or
/// nothing if there is none. All other tiers are where they were, also those that have come before
/// them meanwhile.
pub proof fn law_tiered_applied(
    layout: LayoutView,
    tiers: Seq<(usize, Seq<usize>)>,
    bottom: bool,
    output: Seq<usize>,
    p: int,
)
    requires
        0 <= p,
        p + tiers.len() <= layout.levels.len(),
        tiers.len() > 0,
        layout.levels.subrange(p, p + tiers.len()) == tiers,
        forall|i: int, j: int|
            0 <= i < layout.levels.len() && !(p <= i < p + tiers.len()) && 0 <= j < tiers.len()
                ==> (#[trigger] layout.levels[i]).1 != (#[trigger] tiers[j]).1,
    ensures
        ({
            let after = compact::layout_after(layout, TaskView::Tiered(tiers, bottom), output);
            let front = layout.levels.take(p);
            let back = layout.levels.skip(p + tiers.len());
            &&& after.l0 == layout.l0
            &&& output.len() == 0 ==> after.levels == front + back
            &&& output.len() > 0 ==> after.levels == front + seq![(output[0], output)] + back
        }),
{
    let levels = layout.levels;
    let w = tiers.len() as int;
    let n = levels.len() as int;
    assert forall|i: int| 0 <= i < n
        implies (tiered::holds_tier(tiers, (#[trigger] levels[i]).1) <==> p <= i
        < p + w) by {
        if p <= i < p + w {
            assert(tiers[i - p] == levels.subrange(p, p + w)[i - p]);
            assert(tiers[i - p].1 == levels[i].1);
        }
    }
    lemma_tiers_out(levels, tiers, p, w, n);
    assert(levels.take(n) =~= levels);
    let kept = tiered::other_levels(levels, tiers);
    assert(kept =~= levels.take(p) + levels.skip(p + w));
    if output.len() > 0 {
        let x = (output[0], output);
        assert(kept.insert(p, x) =~= levels.take(p) + seq![x] + levels.skip(p + w));
    }
}

proof fn lemma_tiers_out(
    levels: Seq<(usize, Seq<usize>)>,
    tiers: Seq<(usize, Seq<usize>)>,
    p: int,
    w: int,
    n: int,
)
    requires
        0 <= p,
        0 < w,
        0 <= n <= levels.len(),
        p + w <= levels.len(),
        forall|i: int|
            0 <= i < levels.len()
                ==> (tiered::holds_tier(tiers, (#[trigger] levels[i]).1) <==> p <= i < p
                + w),
    ensures
        n <= p ==> tiered::other_levels(levels.take(n), tiers) == levels.take(n),
        p <= n <= p + w ==> tiered::other_levels(levels.take(n), tiers) == levels.take(p),
        p + w <= n
            ==> tiered::other_levels(levels.take(n), tiers) == levels.take(p) + levels.subrange(
            p + w,
            n,
        ),
        n > p ==> tiered::first_tier(levels.take(n), tiers) == p,
        n <= p ==> tiered::first_tier(levels.take(n), tiers) == 0,
    decreases n,
{
    let t = levels.take(n);
    if n > 0 {
        lemma_tiers_out(levels, tiers, p, w, n - 1);
        let front = levels.take(n - 1);
        assert(t.drop_last() =~= front);
        assert(t.last() == levels[n - 1]);
        assert(forall|j: int| 0 <= j < n ==> #[trigger] t[j] == levels[j]);
        if n <= p {
            assert(front.push(levels[n - 1]) =~= t);
        } else if p + w < n {
            assert(levels.take(p) + levels.subrange(p + w, n) =~= (levels.take(p) + levels.subrange(
                p + w,
                n - 1,
            )).push(levels[n - 1]));
        } else if n == p + w {
            assert(levels.take(p) + levels.subrange(p + w, n) =~= levels.take(p));
        }
        if n > p + 1 {
            assert(tiered::holds_tier(tiers, t[p].1));
        }
        if n == p + 1 {
            assert forall|j: int| 0 <= j < t.len() - 1 implies !tiered::holds_tier(
                tiers,
                (#[trigger] t[j]).1,
            ) by {
                assert(t[j] == levels[j]);
            }
        }
    } else {
        assert(t =~= Seq::empty());
        assert(levels.take(p).len() == p);
    }
}

/// A full compaction leaves one level, which holds what came of it, and in L0 those tables that have
/// come there meanwhile.
pub proof fn law_full_applied(
    layout: LayoutView,
    l0: Seq<usize>,
    l1: Seq<usize>,
    output: Seq<usize>,
    id: usize,
)
    ensures
        ({
            let after = compact::layout_after(
                layout,
                TaskView::ForceFullCompaction(l0, l1),
                output,
            );
            &&& after.levels.len() == 1
            &&& after.levels[0] == (1usize, output)
            &&& after.l0.contains(id) <==> layout.l0.contains(id) && !l0.contains(id)
        }),
{
    compact::lemma_without(layout.l0, l0, id);
}

/// The tables of tiers are those of the one after those of the other.
pub proof fn law_tier_ids(a: Seq<(usize, Seq<usize>)>, b: Seq<(usize, Seq<usize>)>, t: (usize, Seq<usize>))
    ensures
        tiered::tier_ids(a + b) == tiered::tier_ids(a) + tiered::tier_ids(b),
        tiered::tier_ids(seq![t]) == t.1,
    decreases b.len(),
{
    let one = seq![t];
    let none = Seq::<(usize, Seq<usize>)>::empty();
    assert(one.drop_last() =~= none);
    assert(tiered::tier_ids(none) == Seq::<usize>::empty());
    assert(tiered::tier_ids(one) == tiered::tier_ids(none) + t.1);
    assert(Seq::<usize>::empty() + t.1 =~= t.1);
    if b.len() == 0 {
        assert(a + b =~= a);
        assert(tiered::tier_ids(a) + tiered::tier_ids(b) =~= tiered::tier_ids(a));
    } else {
        law_tier_ids(a, b.drop_last(), t);
        assert((a + b).drop_last() =~= a + b.drop_last());
        assert((a + b).last() == b.last());
        assert(tiered::tier_ids(a) + (tiered::tier_ids(b.drop_last()) + b.last().1)
            =~= (tiered::tier_ids(a) + tiered::tier_ids(
            b.drop_last(),
        )) + b.last().1);
    }
}

} // verus!
