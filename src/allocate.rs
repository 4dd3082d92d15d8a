use rand::seq::SliceRandom;
use vstd::prelude::*;

use crate::color::{
    catalogue, colors, default_color, index_of, lemma_catalogue_index, Color, NUM_COLORS,
};

verus! {

/// A slot index paired with that slot's preference list.
pub type LocPref = (usize, Vec<Color>);

/// The entries of `pref` that belong to `keep`, in their original order.
pub open spec fn filtered(keep: Set<Color>, pref: Seq<Color>) -> Seq<Color>
    decreases pref.len(),
{
    if pref.len() == 0 {
        Seq::empty()
    } else {
        let rest = filtered(keep, pref.drop_last());
        if keep.contains(pref.last()) {
            rest.push(pref.last())
        } else {
            rest
        }
    }
}

/// The preference lists, as sequences.
pub open spec fn views(prefs: Seq<Vec<Color>>) -> Seq<Seq<Color>> {
    prefs.map_values(|v: Vec<Color>| v@)
}

/// Every preference list restricted to the available colours.
pub open spec fn filtered_all(available: Seq<Color>, prefs: Seq<Seq<Color>>) -> Seq<Seq<Color>> {
    Seq::new(prefs.len(), |i: int| filtered(available.to_set(), prefs[i]))
}

/// What is known after a prefix of the preference-driven pass: the colour
/// recorded for each slot so far, the pool of colours not yet claimed, and
/// whether the pass has stopped because the pool ran dry.
pub struct PassState {
    pub assigned: Seq<Option<Color>>,
    pub pool: Set<Color>,
    pub done: bool,
}

/// The state before any slot is visited.
pub open spec fn initial_pass(available: Seq<Color>, n: nat) -> PassState {
    PassState {
        assigned: Seq::new(n, |i: int| None),
        pool: available.to_set(),
        done: false,
    }
}

/// Visiting one slot: a slot that is still unassigned and has an available
/// preference records its top preference, which leaves the pool.
pub open spec fn pass_step(s: PassState, fp: Seq<Seq<Color>>, slot: int) -> PassState {
    if s.done || s.assigned[slot] is Some || fp[slot].len() == 0 {
        s
    } else {
        let c = fp[slot][0];
        let pool = s.pool.remove(c);
        PassState {
            assigned: s.assigned.update(slot, Some(c)),
            pool: pool,
            done: pool == Set::<Color>::empty(),
        }
    }
}

/// The state after the first `k` slots of `order` were visited.
pub open spec fn pass_after(
    available: Seq<Color>,
    fp: Seq<Seq<Color>>,
    order: Seq<usize>,
    k: nat,
) -> PassState
    decreases k,
{
    if k == 0 {
        initial_pass(available, fp.len())
    } else {
        pass_step(pass_after(available, fp, order, (k - 1) as nat), fp, order[k - 1] as int)
    }
}

/// The number of unassigned slots before slot `i`.
pub open spec fn unassigned_before(assigned: Seq<Option<Color>>, i: int) -> nat
    decreases i,
{
    if i <= 0 {
        0
    } else {
        unassigned_before(assigned, i - 1) + if assigned[i - 1] is None {
            1nat
        } else {
            0nat
        }
    }
}

/// The final colour of slot `i`: its recorded colour, else the next leftover
/// colour, else the default colour.
pub open spec fn settled_at(assigned: Seq<Option<Color>>, leftover: Seq<Color>, i: int) -> Color {
    match assigned[i] {
        Some(c) => c,
        None => {
            let k = unassigned_before(assigned, i);
            if k < leftover.len() {
                leftover[k as int]
            } else {
                default_color()
            }
        },
    }
}

/// Every slot's final colour.
pub open spec fn settle(assigned: Seq<Option<Color>>, leftover: Seq<Color>) -> Seq<Color> {
    Seq::new(assigned.len(), |i: int| settled_at(assigned, leftover, i))
}

/// The allocation that visits the slots in `order`: empty when no colour is
/// available or there are no slots; otherwise one colour per slot.
pub open spec fn allocation(
    available: Seq<Color>,
    prefs: Seq<Seq<Color>>,
    order: Seq<usize>,
) -> Seq<Color> {
    if available.len() == 0 || prefs.len() == 0 {
        Seq::empty()
    } else {
        let s = pass_after(available, filtered_all(available, prefs), order, order.len());
        settle(s.assigned, filtered(s.pool, catalogue()))
    }
}

/// Slot `i` occurs in `order`.
pub open spec fn visits(order: Seq<usize>, i: int) -> bool {
    exists|j: int| 0 <= j < order.len() && order[j] == i
}

/// `order` visits every one of `n` slots exactly once.
pub open spec fn is_slot_order(order: Seq<usize>, n: nat) -> bool {
    &&& order.len() == n
    &&& forall|j: int| 0 <= j < order.len() ==> order[j] < n
    &&& forall|i: int| 0 <= i < n ==> #[trigger] visits(order, i)
}

/// Whether `c` is one of `available`.
fn contains_color(available: &[Color], c: Color) -> (r: bool)
    ensures
        r == available@.contains(c),
{
    let mut i: usize = 0;
    while i < available.len()
        invariant
            i <= available@.len(),
            forall|j: int| 0 <= j < i ==> available@[j] != c,
        decreases available.len() - i,
    {
        if available[i] == c {
            return true;
        }
        i += 1;
    }
    false
}

/// The entries of `pref` that are among `available`, in order.
pub fn filter_pref(available: &[Color], pref: &Vec<Color>) -> (r: Vec<Color>)
    ensures
        r@ == filtered(available@.to_set(), pref@),
{
    let mut out: Vec<Color> = Vec::new();
    let mut i: usize = 0;
    while i < pref.len()
        invariant
            i <= pref@.len(),
            out@ == filtered(available@.to_set(), pref@.subrange(0, i as int)),
        decreases pref.len() - i,
    {
        let c = pref[i];
        assert(pref@.subrange(0, i + 1).drop_last() =~= pref@.subrange(0, i as int));
        if contains_color(available, c) {
            out.push(c);
        }
        i += 1;
    }
    assert(pref@.subrange(0, pref@.len() as int) =~= pref@);
    out
}

/// Restricts each located preference list to the available colours, keeping
/// the slot indices and the order of the lists.
pub fn filter_prefs(available: &[Color], prefs: &[LocPref]) -> (r: Vec<LocPref>)
    ensures
        r@.len() == prefs@.len(),
        forall|i: int|
            0 <= i < prefs@.len() ==> (#[trigger] r@[i]).0 == prefs@[i].0 && r@[i].1@ == filtered(
                available@.to_set(),
                prefs@[i].1@,
            ),
{
    let mut out: Vec<LocPref> = Vec::new();
    let mut i: usize = 0;
    while i < prefs.len()
        invariant
            i <= prefs@.len(),
            out@.len() == i,
            forall|j: int|
                0 <= j < i ==> (#[trigger] out@[j]).0 == prefs@[j].0 && out@[j].1@ == filtered(
                    available@.to_set(),
                    prefs@[j].1@,
                ),
        decreases prefs.len() - i,
    {
        let kept = filter_pref(available, &prefs[i].1);
        out.push((prefs[i].0, kept));
        i += 1;
    }
    out
}


/// The pool held as one mark per catalogue entry, seen as a set.
pub open spec fn pool_set(marks: Seq<bool>) -> Set<Color> {
    Set::new(|c: Color| marks[index_of(c) as int])
}

/// Whether no colour is marked.
fn pool_is_empty(marks: &Vec<bool>) -> (r: bool)
    requires
        marks@.len() == NUM_COLORS,
    ensures
        r == (pool_set(marks@) == Set::<Color>::empty()),
{
    proof {
        lemma_catalogue_index();
    }
    let mut i: usize = 0;
    while i < NUM_COLORS
        invariant
            i <= NUM_COLORS,
            marks@.len() == NUM_COLORS,
            forall|j: int| 0 <= j < i ==> !marks@[j],
        decreases NUM_COLORS - i,
    {
        if marks[i] {
            assert(pool_set(marks@).contains(catalogue()[i as int]));
            return false;
        }
        i += 1;
    }
    assert(pool_set(marks@) =~= Set::<Color>::empty());
    true
}

/// Marks the catalogue entries that are among `available`.
fn initial_marks(available: &[Color]) -> (r: Vec<bool>)
    ensures
        r@.len() == NUM_COLORS,
        pool_set(r@) == available@.to_set(),
{
    proof {
        lemma_catalogue_index();
    }
    let cat = colors();
    let mut marks: Vec<bool> = Vec::new();
    let mut i: usize = 0;
    while i < NUM_COLORS
        invariant
            i <= NUM_COLORS,
            cat@ == catalogue(),
            marks@.len() == i,
            forall|j: int| 0 <= j < i ==> marks@[j] == available@.contains(catalogue()[j]),
        decreases NUM_COLORS - i,
    {
        marks.push(contains_color(available, cat[i]));
        i += 1;
    }
    assert(pool_set(marks@) =~= available@.to_set());
    marks
}

/// The colours still marked, in catalogue order.
fn leftover_colors(marks: &Vec<bool>) -> (r: Vec<Color>)
    requires
        marks@.len() == NUM_COLORS,
    ensures
        r@ == filtered(pool_set(marks@), catalogue()),
{
    proof {
        lemma_catalogue_index();
    }
    let cat = colors();
    let mut out: Vec<Color> = Vec::new();
    let mut i: usize = 0;
    while i < NUM_COLORS
        invariant
            i <= NUM_COLORS,
            cat@ == catalogue(),
            marks@.len() == NUM_COLORS,
            out@ == filtered(pool_set(marks@), catalogue().subrange(0, i as int)),
        decreases NUM_COLORS - i,
    {
        assert(catalogue().subrange(0, i + 1).drop_last() =~= catalogue().subrange(0, i as int));
        assert(pool_set(marks@).contains(catalogue()[i as int]) == marks@[i as int]);
        if marks[i] {
            out.push(cat[i]);
        }
        i += 1;
    }
    assert(catalogue().subrange(0, NUM_COLORS as int) =~= catalogue());
    out
}

/// The pass keeps one entry per slot.
proof fn lemma_pass_len(available: Seq<Color>, fp: Seq<Seq<Color>>, order: Seq<usize>, k: nat)
    requires
        k <= order.len(),
        forall|j: int| 0 <= j < order.len() ==> order[j] < fp.len(),
    ensures
        pass_after(available, fp, order, k).assigned.len() == fp.len(),
    decreases k,
{
    if k > 0 {
        lemma_pass_len(available, fp, order, (k - 1) as nat);
    }
}

/// Once the pass has stopped, visiting further slots changes nothing.
proof fn lemma_pass_stays_done(
    available: Seq<Color>,
    fp: Seq<Seq<Color>>,
    order: Seq<usize>,
    j: nat,
    k: nat,
)
    requires
        j <= k,
        pass_after(available, fp, order, j).done,
    ensures
        pass_after(available, fp, order, k) == pass_after(available, fp, order, j),
    decreases k - j,
{
    if k > j {
        lemma_pass_stays_done(available, fp, order, j, (k - 1) as nat);
    }
}

/// Every entry of a restricted list belongs to the set it was restricted to.
proof fn lemma_filtered_within(keep: Set<Color>, pref: Seq<Color>)
    ensures
        forall|i: int|
            0 <= i < filtered(keep, pref).len() ==> keep.contains(#[trigger] filtered(keep, pref)[i]),
    decreases pref.len(),
{
    if pref.len() > 0 {
        lemma_filtered_within(keep, pref.drop_last());
        let rest = filtered(keep, pref.drop_last());
        assert forall|i: int| 0 <= i < filtered(keep, pref).len() implies keep.contains(
            #[trigger] filtered(keep, pref)[i],
        ) by {
            if i < rest.len() {
                assert(rest.contains(rest[i]) ==> keep.contains(rest[i]));
            }
        }
    }
}

/// Every colour recorded by the pass, and every colour in its pool, was
/// available.
proof fn lemma_pass_within(
    available: Seq<Color>,
    fp: Seq<Seq<Color>>,
    order: Seq<usize>,
    k: nat,
)
    requires
        k <= order.len(),
        forall|j: int| 0 <= j < order.len() ==> order[j] < fp.len(),
        forall|i: int, m: int|
            0 <= i < fp.len() && 0 <= m < fp[i].len() ==> available.contains(#[trigger] fp[i][m]),
    ensures
        forall|i: int|
            0 <= i < pass_after(available, fp, order, k).assigned.len() && (#[trigger] pass_after(
                available,
                fp,
                order,
                k,
            ).assigned[i]) is Some ==> available.contains(
                pass_after(available, fp, order, k).assigned[i]->0,
            ),
        pass_after(available, fp, order, k).pool.subset_of(available.to_set()),
    decreases k,
{
    if k > 0 {
        lemma_pass_within(available, fp, order, (k - 1) as nat);
        let s = pass_after(available, fp, order, (k - 1) as nat);
        let slot = order[k - 1] as int;
        let t = pass_after(available, fp, order, k);
        lemma_pass_len(available, fp, order, (k - 1) as nat);
        if !(s.done || s.assigned[slot] is Some || fp[slot].len() == 0) {
            assert(available.contains(fp[slot][0]));
            assert forall|i: int| 0 <= i < t.assigned.len() && (#[trigger] t.assigned[i]) is Some implies available.contains(
                t.assigned[i]->0,
            ) by {
                if i != slot {
                    assert(t.assigned[i] == s.assigned[i]);
                }
            }
        }
    }
}

/// With colours available and at least one slot, every slot gets a colour.
pub proof fn lemma_allocation_len(
    available: Seq<Color>,
    prefs: Seq<Seq<Color>>,
    order: Seq<usize>,
)
    requires
        forall|j: int| 0 <= j < order.len() ==> order[j] < prefs.len(),
    ensures
        available.len() > 0 && prefs.len() > 0 ==> allocation(available, prefs, order).len()
            == prefs.len(),
        available.len() == 0 || prefs.len() == 0 ==> allocation(available, prefs, order).len()
            == 0,
{
    lemma_pass_len(available, filtered_all(available, prefs), order, order.len());
}

/// Every allocated colour is available, but for the default colour handed
/// out once the pool is used up.
pub proof fn lemma_allocation_within_available(
    available: Seq<Color>,
    prefs: Seq<Seq<Color>>,
    order: Seq<usize>,
)
    requires
        forall|j: int| 0 <= j < order.len() ==> order[j] < prefs.len(),
    ensures
        forall|i: int|
            0 <= i < allocation(available, prefs, order).len() ==> available.contains(
                #[trigger] allocation(available, prefs, order)[i],
            ) || allocation(available, prefs, order)[i] == default_color(),
{
    if available.len() > 0 && prefs.len() > 0 {
        let fp = filtered_all(available, prefs);
        assert forall|i: int, m: int| 0 <= i < fp.len() && 0 <= m < fp[i].len() implies available.contains(
            #[trigger] fp[i][m],
        ) by {
            lemma_filtered_within(available.to_set(), prefs[i]);
        }
        lemma_pass_len(available, fp, order, order.len());
        lemma_pass_within(available, fp, order, order.len());
        let s = pass_after(available, fp, order, order.len());
        let leftover = filtered(s.pool, catalogue());
        lemma_filtered_within(s.pool, catalogue());
        assert forall|i: int| 0 <= i < s.assigned.len() implies available.contains(
            #[trigger] settled_at(s.assigned, leftover, i),
        ) || settled_at(s.assigned, leftover, i) == default_color() by {
            if s.assigned[i] is None {
                let k = unassigned_before(s.assigned, i);
                if k < leftover.len() {
                    assert(s.pool.contains(leftover[k as int]));
                }
            }
        }
    }
}

/// No two slots share a top available preference.
pub open spec fn distinct_tops(available: Seq<Color>, prefs: Seq<Seq<Color>>) -> bool {
    let fp = filtered_all(available, prefs);
    forall|i: int, k: int|
        0 <= i < fp.len() && 0 <= k < fp.len() && i != k && fp[i].len() > 0 && fp[k].len() > 0
            ==> #[trigger] fp[i][0] != #[trigger] fp[k][0]
}

/// Some slot has recorded colour `c`.
pub open spec fn claimed(assigned: Seq<Option<Color>>, c: Color) -> bool {
    exists|i: int| 0 <= i < assigned.len() && assigned[i] == Some(c)
}

/// With distinct top preferences, the pass only ever records a slot's top
/// preference, its pool is what was available and not yet recorded, and
/// every visited slot with an available preference has a colour.
proof fn lemma_pass_distinct(
    available: Seq<Color>,
    fp: Seq<Seq<Color>>,
    order: Seq<usize>,
    k: nat,
)
    requires
        k <= order.len(),
        forall|j: int| 0 <= j < order.len() ==> order[j] < fp.len(),
        forall|i: int, m: int|
            0 <= i < fp.len() && 0 <= m < fp[i].len() ==> available.contains(#[trigger] fp[i][m]),
        forall|i: int, l: int|
            0 <= i < fp.len() && 0 <= l < fp.len() && i != l && fp[i].len() > 0 && fp[l].len() > 0
                ==> #[trigger] fp[i][0] != #[trigger] fp[l][0],
    ensures
        ({
            let s = pass_after(available, fp, order, k);
            &&& forall|i: int|
                0 <= i < fp.len() ==> (#[trigger] s.assigned[i]) is None || (fp[i].len() > 0
                    && s.assigned[i] == Some(fp[i][0]))
            &&& forall|c: Color|
                #[trigger] s.pool.contains(c) == (available.contains(c) && !claimed(
                    s.assigned,
                    c,
                ))
            &&& s.done ==> s.pool == Set::<Color>::empty()
            &&& forall|j: int|
                0 <= j < k && fp[order[j] as int].len() > 0 ==> (#[trigger] s.assigned[order[j] as int]) is Some
        }),
    decreases k,
{
    lemma_pass_len(available, fp, order, k);
    if k > 0 {
        lemma_pass_distinct(available, fp, order, (k - 1) as nat);
        lemma_pass_len(available, fp, order, (k - 1) as nat);
        let s = pass_after(available, fp, order, (k - 1) as nat);
        let t = pass_after(available, fp, order, k);
        let slot = order[k - 1] as int;
        if s.done {
            if fp[slot].len() > 0 {
                let c = fp[slot][0];
                assert(!s.pool.contains(c));
                assert(claimed(s.assigned, c));
                let i = choose|i: int| 0 <= i < s.assigned.len() && s.assigned[i] == Some(c);
                assert(fp[i].len() > 0 && fp[i][0] == c);
                assert(i == slot);
            }
        } else if !(s.assigned[slot] is Some || fp[slot].len() == 0) {
            let c = fp[slot][0];
            assert forall|d: Color| #[trigger] t.pool.contains(d) == (available.contains(d) && !claimed(
                t.assigned,
                d,
            )) by {
                if d == c {
                    assert(t.assigned[slot] == Some(c));
                } else {
                    if claimed(t.assigned, d) {
                        let i = choose|i: int| 0 <= i < t.assigned.len() && t.assigned[i] == Some(d);
                        assert(s.assigned[i] == Some(d));
                    }
                    if claimed(s.assigned, d) {
                        let i = choose|i: int| 0 <= i < s.assigned.len() && s.assigned[i] == Some(d);
                        assert(t.assigned[i] == Some(d));
                    }
                }
            }
            assert forall|j: int|
                0 <= j < k && fp[order[j] as int].len() > 0 implies (#[trigger] t.assigned[order[j] as int]) is Some by {
                if j < k - 1 && order[j] as int != slot {
                    assert(s.assigned[order[j] as int] is Some);
                }
            }
        }
    }
}

/// When no two slots share a top available preference, the allocation does
/// not depend on the order in which the slots are visited.
pub proof fn lemma_order_irrelevant(
    available: Seq<Color>,
    prefs: Seq<Seq<Color>>,
    o1: Seq<usize>,
    o2: Seq<usize>,
)
    requires
        is_slot_order(o1, prefs.len()),
        is_slot_order(o2, prefs.len()),
        distinct_tops(available, prefs),
    ensures
        allocation(available, prefs, o1) == allocation(available, prefs, o2),
{
    if available.len() > 0 && prefs.len() > 0 {
        let fp = filtered_all(available, prefs);
        assert forall|i: int, m: int| 0 <= i < fp.len() && 0 <= m < fp[i].len() implies available.contains(
            #[trigger] fp[i][m],
        ) by {
            lemma_filtered_within(available.to_set(), prefs[i]);
        }
        lemma_pass_distinct(available, fp, o1, o1.len());
        lemma_pass_distinct(available, fp, o2, o2.len());
        lemma_pass_len(available, fp, o1, o1.len());
        lemma_pass_len(available, fp, o2, o2.len());
        let s1 = pass_after(available, fp, o1, o1.len());
        let s2 = pass_after(available, fp, o2, o2.len());
        assert forall|i: int| 0 <= i < prefs.len() implies s1.assigned[i] == s2.assigned[i] by {
            assert(visits(o1, i) && visits(o2, i));
            let j1 = choose|j: int| 0 <= j < o1.len() && o1[j] == i;
            let j2 = choose|j: int| 0 <= j < o2.len() && o2[j] == i;
            if fp[i].len() > 0 {
                assert(s1.assigned[o1[j1] as int] is Some);
                assert(s2.assigned[o2[j2] as int] is Some);
            }
        }
        assert(s1.assigned =~= s2.assigned);
        assert(s1.pool =~= s2.pool);
    }
}

/// Allocates one colour per slot, visiting the slots in `order` for the
/// preference-driven pass.
///
/// Each visited slot that is still unassigned and has an available preference
/// records its top available preference, and that colour leaves the pool; the
/// pass stops once the pool is empty. Preference lists are restricted to
/// `available` once, before the pass, so two slots with the same top
/// preference both record it. Slots left without a colour then take the
/// remaining pool in catalogue order, and the default colour once that is
/// used up. No colours or no slots give an empty result.
///
/// The pass is deliberately a single one: two slots may end with the same
/// colour, either through a shared top preference or through the default
/// colour, and callers that need distinct colours must check for it.
pub fn choose_in_order(available: &[Color], prefs: &[Vec<Color>], order: &[usize]) -> (r: Vec<
    Color,
>)
    requires
        forall|j: int| 0 <= j < order@.len() ==> order@[j] < prefs@.len(),
    ensures
        r@ == allocation(available@, views(prefs@), order@),
        available@.len() > 0 && prefs@.len() > 0 ==> r@.len() == prefs@.len(),
        available@.len() == 0 || prefs@.len() == 0 ==> r@.len() == 0,
        forall|i: int|
            0 <= i < r@.len() ==> available@.contains(#[trigger] r@[i]) || r@[i]
                == default_color(),
{
    proof {
        lemma_allocation_len(available@, views(prefs@), order@);
        lemma_allocation_within_available(available@, views(prefs@), order@);
    }
    if available.len() == 0 || prefs.len() == 0 {
        return Vec::new();
    }
    let ghost fps = filtered_all(available@, views(prefs@));
    let n = prefs.len();
    let mut fp: Vec<Vec<Color>> = Vec::new();
    let mut assigned: Vec<Option<Color>> = Vec::new();
    let mut i: usize = 0;
    while i < n
        invariant
            i <= n,
            n == prefs@.len(),
            fps == filtered_all(available@, views(prefs@)),
            fp@.len() == i,
            assigned@ =~= Seq::new(i as nat, |k: int| None::<Color>),
            forall|k: int| 0 <= k < i ==> (#[trigger] fp@[k])@ == fps[k],
        decreases n - i,
    {
        fp.push(filter_pref(available, &prefs[i]));
        assigned.push(None);
        i += 1;
    }
    let mut marks = initial_marks(available);
    let mut done = false;
    let mut j: usize = 0;
    while j < order.len() && !done
        invariant
            j <= order@.len(),
            n == prefs@.len(),
            forall|k: int| 0 <= k < order@.len() ==> order@[k] < n,
            fps.len() == n,
            fp@.len() == n,
            forall|k: int| 0 <= k < n ==> (#[trigger] fp@[k])@ == fps[k],
            marks@.len() == NUM_COLORS,
            assigned@ == pass_after(available@, fps, order@, j as nat).assigned,
            pool_set(marks@) == pass_after(available@, fps, order@, j as nat).pool,
            done == pass_after(available@, fps, order@, j as nat).done,
        decreases order@.len() - j,
    {
        proof {
            lemma_pass_len(available@, fps, order@, j as nat);
        }
        let slot = order[j];
        let ghost s = pass_after(available@, fps, order@, j as nat);
        if assigned[slot].is_none() && fp[slot].len() > 0 {
            let c = fp[slot][0];
            assigned.set(slot, Some(c));
            marks.set(c.index(), false);
            assert(pool_set(marks@) =~= s.pool.remove(c));
            done = pool_is_empty(&marks);
        }
        j += 1;
    }
    proof {
        lemma_pass_len(available@, fps, order@, j as nat);
        if j < order@.len() {
            lemma_pass_stays_done(available@, fps, order@, j as nat, order@.len());
        }
    }
    let leftover = leftover_colors(&marks);
    let mut res: Vec<Color> = Vec::new();
    let mut next: usize = 0;
    let mut i: usize = 0;
    while i < n
        invariant
            i <= n,
            n == assigned@.len(),
            next <= i,
            next == unassigned_before(assigned@, i as int),
            res@.len() == i,
            forall|k: int|
                0 <= k < i ==> #[trigger] res@[k] == settled_at(assigned@, leftover@, k),
        decreases n - i,
    {
        match assigned[i] {
            Some(c) => res.push(c),
            None => {
                if next < leftover.len() {
                    res.push(leftover[next]);
                } else {
                    res.push(Color::Red);
                }
                next += 1;
            },
        }
        i += 1;
    }
    assert(res@ =~= settle(assigned@, leftover@));
    res
}

/// Relies on rand's `SliceRandom::shuffle` with the thread-local generator:
/// it only swaps elements, so the result is a rearrangement of the input.
#[verifier::external_body]
fn shuffle(v: &mut Vec<usize>)
    ensures
        final(v)@.to_multiset() == old(v)@.to_multiset(),
{
    v.shuffle(&mut rand::thread_rng());
}

/// Allocates one colour per slot, visiting the slots in one uniformly random
/// order for the preference-driven pass (see `choose_in_order`).
pub fn choose_colors(available: &[Color], prefs: &[Vec<Color>]) -> (r: Vec<Color>)
    ensures
        exists|order: Seq<usize>|
            is_slot_order(order, prefs@.len()) && r@ == allocation(
                available@,
                views(prefs@),
                order,
            ),
        available@.len() > 0 && prefs@.len() > 0 ==> r@.len() == prefs@.len(),
        available@.len() == 0 || prefs@.len() == 0 ==> r@.len() == 0,
        forall|i: int|
            0 <= i < r@.len() ==> available@.contains(#[trigger] r@[i]) || r@[i]
                == default_color(),
{
    let n = prefs.len();
    let mut order: Vec<usize> = Vec::new();
    let mut i: usize = 0;
    while i < n
        invariant
            i <= n,
            order@.len() == i,
            forall|k: int| 0 <= k < i ==> order@[k] == k,
        decreases n - i,
    {
        order.push(i);
        i += 1;
    }
    let ghost slots = order@;
    shuffle(&mut order);
    proof {
        slots.to_multiset_ensures();
        order@.to_multiset_ensures();
        assert forall|j: int| 0 <= j < order@.len() implies order@[j] < n by {
            let x = order@[j];
            assert(order@.contains(x));
            assert(order@.to_multiset().count(x) > 0);
            assert(slots.to_multiset().count(x) > 0);
            assert(slots.contains(x));
        }
        assert forall|k: int| 0 <= k < n implies #[trigger] visits(order@, k) by {
            let x = k as usize;
            assert(slots[k] == x);
            assert(slots.contains(x));
            assert(slots.to_multiset().count(x) > 0);
            assert(order@.to_multiset().count(x) > 0);
            assert(order@.contains(x));
            let j = choose|j: int| 0 <= j < order@.len() && order@[j] == x;
            assert(order@[j] == k);
        }
    }
    let r = choose_in_order(available, prefs, &order);
    assert(is_slot_order(order@, prefs@.len()));
    r
}

} // verus!
