//! The scheduling model of the deck: what its operations compute, stated
//! over the map from keys to items, and the facts proved of it.

use vstd::prelude::*;

use crate::item::{after_answer, after_wrong, box_interval, due_at, fresh_item, ItemData, NUM_BOXES};

verus! {

/// The keys of a list of entries.
pub open spec fn entry_keys(e: Seq<(String, ItemData)>) -> Seq<Seq<char>> {
    e.map_values(|x: (String, ItemData)| x.0@)
}

/// What a list of entries holds: the item of each key, the last entry of a
/// key winning over earlier ones.
pub open spec fn entries_map(e: Seq<(String, ItemData)>) -> Map<Seq<char>, ItemData>
    decreases e.len(),
{
    if e.len() == 0 {
        Map::empty()
    } else {
        entries_map(e.drop_last()).insert(e.last().0@, e.last().1)
    }
}

/// The item of a key, or a fresh item for a key the deck has not seen.
pub open spec fn item_or_fresh(m: Map<Seq<char>, ItemData>, k: Seq<char>) -> ItemData {
    if m.contains_key(k) {
        m[k]
    } else {
        fresh_item()
    }
}

/// The keys of a list of candidates.
pub open spec fn candidate_keys(c: Seq<String>) -> Seq<Seq<char>> {
    c.map_values(|s: String| s@)
}

/// A key is due for review when it is not tracked yet or its item is due.
pub open spec fn due_or_unseen(m: Map<Seq<char>, ItemData>, k: Seq<char>, now: u64) -> bool {
    !m.contains_key(k) || due_at(m[k], now)
}

/// `due_or_unseen` as a predicate on keys.
pub open spec fn due_or_unseen_pred(m: Map<Seq<char>, ItemData>, now: u64) -> spec_fn(
    Seq<char>,
) -> bool {
    |k: Seq<char>| due_or_unseen(m, k, now)
}

/// Keys that are not tracked yet.
pub open spec fn unseen_pred(m: Map<Seq<char>, ItemData>) -> spec_fn(Seq<char>) -> bool {
    |k: Seq<char>| !m.contains_key(k)
}

/// Tracked keys whose item lies in box `b`.
pub open spec fn in_box_pred(m: Map<Seq<char>, ItemData>, b: int) -> spec_fn(Seq<char>) -> bool {
    |k: Seq<char>| m.contains_key(k) && m[k].box_level == b
}

/// Tracked keys whose item lies in box `b` and is due.
pub open spec fn due_in_box_pred(m: Map<Seq<char>, ItemData>, b: int, now: u64) -> spec_fn(
    Seq<char>,
) -> bool {
    |k: Seq<char>| m.contains_key(k) && m[k].box_level == b && due_at(m[k], now)
}

/// Tracked keys whose item lies in a box from `lo` to `hi`.
pub open spec fn box_range_pred(m: Map<Seq<char>, ItemData>, lo: int, hi: int) -> spec_fn(
    Seq<char>,
) -> bool {
    |k: Seq<char>| m.contains_key(k) && lo <= m[k].box_level <= hi
}

/// The number of keys of `ks` that satisfy `p`.
pub open spec fn count_keys(ks: Seq<Seq<char>>, p: spec_fn(Seq<char>) -> bool) -> nat {
    ks.filter(p).len()
}

pub(crate) proof fn lemma_filter_take<A>(s: Seq<A>, p: spec_fn(A) -> bool, i: int)
    requires
        0 <= i < s.len(),
    ensures
        s.take(i + 1).filter(p) == (if p(s[i]) {
            s.take(i).filter(p).push(s[i])
        } else {
            s.take(i).filter(p)
        }),
{
    reveal_with_fuel(Seq::<_>::filter, 1);
    assert(s.take(i + 1).drop_last() =~= s.take(i));
    assert(s.take(i + 1).last() == s[i]);
}

pub(crate) proof fn lemma_count_prefix(ks: Seq<Seq<char>>, p: spec_fn(Seq<char>) -> bool, i: int)
    requires
        0 <= i <= ks.len(),
    ensures
        count_keys(ks.take(i), p) <= count_keys(ks, p),
    decreases ks.len(),
{
    reveal_with_fuel(Seq::<_>::filter, 1);
    if i == ks.len() {
        assert(ks.take(i) =~= ks);
    } else {
        let d = ks.drop_last();
        assert(d.take(i) =~= ks.take(i));
        lemma_count_prefix(d, p, i);
    }
}

pub(crate) proof fn lemma_take_all<A>(s: Seq<A>)
    ensures
        s.take(s.len() as int) == s,
{
    assert(s.take(s.len() as int) =~= s);
}

/// `counts` holds, for each box level, how many of the keys are tracked
/// in that box and due at `now`.
pub open spec fn due_counts_are(
    counts: Seq<u32>,
    m: Map<Seq<char>, ItemData>,
    ks: Seq<Seq<char>>,
    now: u64,
) -> bool {
    forall|b: int|
        0 <= b < NUM_BOXES ==> counts[b] == count_keys(ks, #[trigger] due_in_box_pred(m, b, now))
}

/// The views of a list of string slices.
pub open spec fn str_views(v: Seq<&str>) -> Seq<Seq<char>> {
    v.map_values(|s: &str| s@)
}

/// A summary of how the candidate keys stand in a deck at `now`, as
/// (unasked, weak, learning, mastered, due).
pub open spec fn summary_counts(m: Map<Seq<char>, ItemData>, ks: Seq<Seq<char>>, now: u64) -> (
    nat,
    nat,
    nat,
    nat,
    nat,
) {
    (
        count_keys(ks, unseen_pred(m)),
        count_keys(ks, box_range_pred(m, 0, 3)),
        count_keys(ks, box_range_pred(m, 4, 6)),
        count_keys(ks, box_range_pred(m, 7, 255)),
        count_keys(ks, due_or_unseen_pred(m, now)),
    )
}

/// A key the deck tracks whose item is not due at `now`.
pub open spec fn pending(m: Map<Seq<char>, ItemData>, k: Seq<char>, now: u64) -> bool {
    m.contains_key(k) && !due_at(m[k], now)
}

/// Every key is tracked and not due at `now`.
pub open spec fn all_pending(m: Map<Seq<char>, ItemData>, ks: Seq<Seq<char>>, now: u64) -> bool {
    forall|i: int| 0 <= i < ks.len() ==> #[trigger] pending(m, ks[i], now)
}

/// Seconds from `now` until an item becomes due.
pub open spec fn wait_secs(item: ItemData, now: u64) -> int {
    item.last_reviewed + box_interval(item.box_level) - now
}

/// The least wait among the items of the keys (of a non-empty list).
pub open spec fn min_wait(m: Map<Seq<char>, ItemData>, ks: Seq<Seq<char>>, now: u64) -> int
    decreases ks.len(),
{
    if ks.len() <= 1 {
        wait_secs(m[ks[0]], now)
    } else {
        let a = min_wait(m, ks.drop_last(), now);
        let b = wait_secs(m[ks.last()], now);
        if b < a {
            b
        } else {
            a
        }
    }
}

/// Seconds until the next key becomes due: `None` when there are no keys,
/// or one of them is due or unseen already.
pub open spec fn next_due_wait(m: Map<Seq<char>, ItemData>, ks: Seq<Seq<char>>, now: u64) -> Option<
    int,
> {
    if ks.len() > 0 && all_pending(m, ks, now) {
        Some(min_wait(m, ks, now))
    } else {
        None
    }
}

/// The due time of every key that the search for the next due time reaches
/// (each key up to the first that is due or unseen) fits a `u64`.
pub open spec fn due_times_fit(m: Map<Seq<char>, ItemData>, ks: Seq<Seq<char>>, now: u64) -> bool {
    forall|i: int|
        0 <= i < ks.len() && #[trigger] all_pending(m, ks.take(i + 1), now) ==> m[ks[i]].last_reviewed
            + box_interval(m[ks[i]].box_level) <= u64::MAX
}

/// The tier of a key when picking the next item: 0 for the key to skip,
/// 1 for a due item, 2 for a key not seen yet, 3 for an item not yet due.
pub open spec fn tier(m: Map<Seq<char>, ItemData>, skip: Option<Seq<char>>, k: Seq<char>, now: u64) -> int {
    if skip == Some(k) {
        0
    } else if !m.contains_key(k) {
        2
    } else if due_at(m[k], now) {
        1
    } else {
        3
    }
}

/// Some key lies in tier `t`.
pub open spec fn has_tier(
    m: Map<Seq<char>, ItemData>,
    ks: Seq<Seq<char>>,
    skip: Option<Seq<char>>,
    now: u64,
    t: int,
) -> bool {
    exists|i: int| 0 <= i < ks.len() && #[trigger] tier(m, skip, ks[i], now) == t
}

/// Key `i` lies in tier `t`, in the lowest box of that tier.
pub open spec fn lowest_in_tier(
    m: Map<Seq<char>, ItemData>,
    ks: Seq<Seq<char>>,
    skip: Option<Seq<char>>,
    now: u64,
    t: int,
    i: int,
) -> bool {
    &&& 0 <= i < ks.len()
    &&& tier(m, skip, ks[i], now) == t
    &&& forall|j: int|
        0 <= j < ks.len() && #[trigger] tier(m, skip, ks[j], now) == t ==> m[ks[i]].box_level
            <= m[ks[j]].box_level
}

/// The positions `0 .. n`.
pub open spec fn positions(n: nat) -> Seq<int> {
    Seq::new(n, |i: int| i)
}

/// The positions of tier `t` to pick from: for the tier of keys not seen
/// yet, all of them; for the others, those in the lowest box of the tier.
pub open spec fn pool_pred(
    m: Map<Seq<char>, ItemData>,
    ks: Seq<Seq<char>>,
    skip: Option<Seq<char>>,
    now: u64,
    t: int,
) -> spec_fn(int) -> bool {
    |i: int|
        if t == 2 {
            0 <= i < ks.len() && tier(m, skip, ks[i], now) == 2
        } else {
            lowest_in_tier(m, ks, skip, now, t, i)
        }
}

/// The tier to pick from: due items if any, else keys not seen yet if any,
/// else items not yet due if any; 0 when every key is the one to skip.
pub open spec fn selected_tier(
    m: Map<Seq<char>, ItemData>,
    ks: Seq<Seq<char>>,
    skip: Option<Seq<char>>,
    now: u64,
) -> int {
    if has_tier(m, ks, skip, now, 1) {
        1
    } else if has_tier(m, ks, skip, now, 2) {
        2
    } else if has_tier(m, ks, skip, now, 3) {
        3
    } else {
        0
    }
}

/// The candidates to pick from, by position: the due items of the lowest
/// box; else the keys not seen yet; else the items of the lowest box. The
/// key to skip is never among them.
pub open spec fn tier_pool(
    m: Map<Seq<char>, ItemData>,
    ks: Seq<Seq<char>>,
    skip: Option<Seq<char>>,
    now: u64,
) -> Seq<int> {
    let t = selected_tier(m, ks, skip, now);
    if t == 0 {
        Seq::empty()
    } else {
        positions(ks.len()).filter(pool_pred(m, ks, skip, now, t))
    }
}

/// The candidates `next_item` picks from, by position: the tier pool that
/// skips the last key answered, or, when every candidate is that key, the
/// pool that skips nothing.
pub open spec fn review_pool(
    m: Map<Seq<char>, ItemData>,
    ks: Seq<Seq<char>>,
    last: Option<Seq<char>>,
    now: u64,
) -> Seq<int> {
    let p = tier_pool(m, ks, last, now);
    if p.len() == 0 {
        tier_pool(m, ks, None, now)
    } else {
        p
    }
}

/// The positions of a list, as integers.
pub open spec fn position_views(v: Seq<usize>) -> Seq<int> {
    v.map_values(|x: usize| x as int)
}

/// The position of a key in the lowest box of tier `t`, among the first `n`
/// keys, when one of them lies in that tier.
proof fn lowest_position(
    m: Map<Seq<char>, ItemData>,
    ks: Seq<Seq<char>>,
    skip: Option<Seq<char>>,
    now: u64,
    t: int,
    n: int,
) -> (i: int)
    requires
        0 < n <= ks.len(),
        exists|j: int| 0 <= j < n && #[trigger] tier(m, skip, ks[j], now) == t,
    ensures
        0 <= i < n,
        tier(m, skip, ks[i], now) == t,
        forall|j: int|
            0 <= j < n && #[trigger] tier(m, skip, ks[j], now) == t ==> m[ks[i]].box_level
                <= m[ks[j]].box_level,
    decreases n,
{
    if exists|j: int| 0 <= j < n - 1 && #[trigger] tier(m, skip, ks[j], now) == t {
        let r = lowest_position(m, ks, skip, now, t, n - 1);
        if tier(m, skip, ks[n - 1], now) == t && m[ks[n - 1]].box_level < m[ks[r]].box_level {
            n - 1
        } else {
            r
        }
    } else {
        n - 1
    }
}

/// Tier pools hold positions of the keys.
pub(crate) proof fn lemma_tier_pool_in_range(
    m: Map<Seq<char>, ItemData>,
    ks: Seq<Seq<char>>,
    skip: Option<Seq<char>>,
    now: u64,
    k: int,
)
    requires
        0 <= k < tier_pool(m, ks, skip, now).len(),
    ensures
        0 <= tier_pool(m, ks, skip, now)[k] < ks.len(),
        tier(m, skip, ks[tier_pool(m, ks, skip, now)[k]], now) == selected_tier(m, ks, skip, now),
{
    let t = selected_tier(m, ks, skip, now);
    positions(ks.len()).lemma_filter_pred(pool_pred(m, ks, skip, now, t), k);
}

/// The pool `next_item` picks from holds positions of the candidates.
pub proof fn lemma_review_pool_in_range(
    m: Map<Seq<char>, ItemData>,
    ks: Seq<Seq<char>>,
    last: Option<Seq<char>>,
    now: u64,
    k: int,
)
    requires
        0 <= k < review_pool(m, ks, last, now).len(),
    ensures
        0 <= review_pool(m, ks, last, now)[k] < ks.len(),
{
    if tier_pool(m, ks, last, now).len() == 0 {
        lemma_tier_pool_in_range(m, ks, None, now, k);
    } else {
        lemma_tier_pool_in_range(m, ks, last, now, k);
    }
}

/// A tier pool is empty only when every key is the one to skip.
proof fn lemma_tier_pool_nonempty(
    m: Map<Seq<char>, ItemData>,
    ks: Seq<Seq<char>>,
    skip: Option<Seq<char>>,
    now: u64,
)
    requires
        selected_tier(m, ks, skip, now) != 0,
    ensures
        tier_pool(m, ks, skip, now).len() > 0,
{
    let t = selected_tier(m, ks, skip, now);
    let pos = positions(ks.len());
    let i = if t == 2 {
        choose|j: int| 0 <= j < ks.len() && #[trigger] tier(m, skip, ks[j], now) == 2
    } else {
        lowest_position(m, ks, skip, now, t, ks.len() as int)
    };
    assert(pos[i] == i);
    assert(pool_pred(m, ks, skip, now, t)(pos[i]));
    pos.lemma_filter_contains(pool_pred(m, ks, skip, now, t), i);
}

/// The pool `next_item` picks from is empty only when there are no
/// candidates.
pub proof fn lemma_review_pool_nonempty(
    m: Map<Seq<char>, ItemData>,
    ks: Seq<Seq<char>>,
    last: Option<Seq<char>>,
    now: u64,
)
    ensures
        (review_pool(m, ks, last, now).len() == 0) <==> (ks.len() == 0),
{
    if ks.len() > 0 {
        let none: Option<Seq<char>> = None;
        let t0 = tier(m, none, ks[0], now);
        assert(t0 == 1 || t0 == 2 || t0 == 3);
        lemma_tier_pool_nonempty(m, ks, none, now);
    } else {
        if tier_pool(m, ks, last, now).len() > 0 {
            lemma_tier_pool_in_range(m, ks, last, now, 0);
        }
        if tier_pool(m, ks, None, now).len() > 0 {
            lemma_tier_pool_in_range(m, ks, None, now, 0);
        }
    }
}

/// `next_item` skips the key answered last whenever another candidate is
/// there to pick.
pub proof fn lemma_pool_skips_last_key(
    m: Map<Seq<char>, ItemData>,
    ks: Seq<Seq<char>>,
    last: Seq<char>,
    now: u64,
    j: int,
    p: int,
)
    requires
        0 <= j < ks.len(),
        ks[j] != last,
        0 <= p < review_pool(m, ks, Some(last), now).len(),
    ensures
        ks[review_pool(m, ks, Some(last), now)[p]] != last,
{
    let t = tier(m, Some(last), ks[j], now);
    assert(t == 1 || t == 2 || t == 3);
    lemma_tier_pool_nonempty(m, ks, Some(last), now);
    lemma_tier_pool_in_range(m, ks, Some(last), now, p);
}

/// Due items come first: when a candidate other than the key answered last
/// is due, `next_item` picks a due item, from the lowest box among the due
/// candidates.
pub proof fn lemma_pool_prefers_due(
    m: Map<Seq<char>, ItemData>,
    ks: Seq<Seq<char>>,
    last: Option<Seq<char>>,
    now: u64,
    p: int,
)
    requires
        has_tier(m, ks, last, now, 1),
        0 <= p < review_pool(m, ks, last, now).len(),
    ensures
        ({
            let i = review_pool(m, ks, last, now)[p];
            &&& 0 <= i < ks.len()
            &&& m.contains_key(ks[i])
            &&& due_at(m[ks[i]], now)
            &&& last != Some(ks[i])
            &&& forall|j: int|
                0 <= j < ks.len() && #[trigger] tier(m, last, ks[j], now) == 1 ==> m[ks[i]].box_level
                    <= m[ks[j]].box_level
        }),
{
    lemma_tier_pool_nonempty(m, ks, last, now);
    let pos = positions(ks.len());
    pos.lemma_filter_pred(pool_pred(m, ks, last, now, 1), p);
}

/// Keys not seen yet come next: when no candidate other than the key
/// answered last is due but some are unseen, `next_item` picks an unseen one.
pub proof fn lemma_pool_then_unseen(
    m: Map<Seq<char>, ItemData>,
    ks: Seq<Seq<char>>,
    last: Option<Seq<char>>,
    now: u64,
    p: int,
)
    requires
        !has_tier(m, ks, last, now, 1),
        has_tier(m, ks, last, now, 2),
        0 <= p < review_pool(m, ks, last, now).len(),
    ensures
        ({
            let i = review_pool(m, ks, last, now)[p];
            &&& 0 <= i < ks.len()
            &&& !m.contains_key(ks[i])
            &&& last != Some(ks[i])
        }),
{
    lemma_tier_pool_nonempty(m, ks, last, now);
    let pos = positions(ks.len());
    pos.lemma_filter_pred(pool_pred(m, ks, last, now, 2), p);
}

proof fn lemma_count_step(ks: Seq<Seq<char>>, p: spec_fn(Seq<char>) -> bool)
    requires
        ks.len() > 0,
    ensures
        count_keys(ks, p) == count_keys(ks.drop_last(), p) + (if p(ks.last()) {
            1int
        } else {
            0int
        }),
{
    reveal_with_fuel(Seq::<_>::filter, 1);
}

/// The number of keys tracked in boxes `0 .. n`.
pub open spec fn boxed_total(m: Map<Seq<char>, ItemData>, ks: Seq<Seq<char>>, n: int) -> int
    decreases n,
{
    if n <= 0 {
        0
    } else {
        boxed_total(m, ks, n - 1) + count_keys(ks, in_box_pred(m, n - 1))
    }
}

proof fn lemma_boxed_total_step(m: Map<Seq<char>, ItemData>, ks: Seq<Seq<char>>, n: int)
    requires
        ks.len() > 0,
        n >= 0,
    ensures
        boxed_total(m, ks, n) == boxed_total(m, ks.drop_last(), n) + (if m.contains_key(ks.last())
            && m[ks.last()].box_level < n {
            1int
        } else {
            0int
        }),
    decreases n,
{
    if n > 0 {
        lemma_boxed_total_step(m, ks, n - 1);
        lemma_count_step(ks, in_box_pred(m, n - 1));
    }
}

/// Every candidate is counted once: either in the box of its item
/// (`box_counts`) or as not seen yet (`unseen_count`).
pub proof fn lemma_counts_cover_candidates(m: Map<Seq<char>, ItemData>, ks: Seq<Seq<char>>)
    requires
        forall|k: Seq<char>| #[trigger] m.contains_key(k) ==> m[k].box_level < NUM_BOXES,
    ensures
        boxed_total(m, ks, NUM_BOXES as int) + count_keys(ks, unseen_pred(m)) == ks.len(),
    decreases ks.len(),
{
    if ks.len() == 0 {
        reveal_with_fuel(Seq::<_>::filter, 1);
        lemma_boxed_total_empty(m, ks, NUM_BOXES as int);
    } else {
        lemma_counts_cover_candidates(m, ks.drop_last());
        lemma_boxed_total_step(m, ks, NUM_BOXES as int);
        lemma_count_step(ks, unseen_pred(m));
    }
}

proof fn lemma_boxed_total_empty(m: Map<Seq<char>, ItemData>, ks: Seq<Seq<char>>, n: int)
    requires
        ks.len() == 0,
    ensures
        boxed_total(m, ks, n) == 0,
    decreases n,
{
    reveal_with_fuel(Seq::<_>::filter, 1);
    if n > 0 {
        lemma_boxed_total_empty(m, ks, n - 1);
    }
}

/// In every box, the due items counted by `box_due_counts` are among the
/// items counted by `box_counts`.
pub proof fn lemma_due_counts_within_counts(
    m: Map<Seq<char>, ItemData>,
    ks: Seq<Seq<char>>,
    b: int,
    now: u64,
)
    ensures
        count_keys(ks, due_in_box_pred(m, b, now)) <= count_keys(ks, in_box_pred(m, b)),
    decreases ks.len(),
{
    if ks.len() == 0 {
        reveal_with_fuel(Seq::<_>::filter, 1);
    } else {
        lemma_due_counts_within_counts(m, ks.drop_last(), b, now);
        lemma_count_step(ks, due_in_box_pred(m, b, now));
        lemma_count_step(ks, in_box_pred(m, b));
    }
}

/// The summary splits the candidates into unasked, weak, learning and
/// mastered; its due count is the number of due items (`due_items`), which
/// includes every unasked candidate.
pub proof fn lemma_summary_partition(m: Map<Seq<char>, ItemData>, ks: Seq<Seq<char>>, now: u64)
    ensures
        ({
            let (unasked, weak, learning, mastered, due) = summary_counts(m, ks, now);
            &&& unasked + weak + learning + mastered == ks.len()
            &&& due == ks.filter(due_or_unseen_pred(m, now)).len()
            &&& unasked <= due
            &&& unasked == count_keys(ks, unseen_pred(m))
        }),
    decreases ks.len(),
{
    if ks.len() == 0 {
        reveal_with_fuel(Seq::<_>::filter, 1);
    } else {
        lemma_summary_partition(m, ks.drop_last(), now);
        lemma_count_step(ks, unseen_pred(m));
        lemma_count_step(ks, box_range_pred(m, 0, 3));
        lemma_count_step(ks, box_range_pred(m, 4, 6));
        lemma_count_step(ks, box_range_pred(m, 7, 255));
        lemma_count_step(ks, due_or_unseen_pred(m, now));
    }
}

/// Recording an answer makes the deck track the key, adds one item for a
/// key it did not track and keeps the count for one it did, and leaves the
/// items of the other keys as they were.
pub proof fn lemma_record_changes_one_key(
    m: Map<Seq<char>, ItemData>,
    key: Seq<char>,
    correct: bool,
    now: u64,
)
    requires
        m.dom().finite(),
    ensures
        ({
            let after = m.insert(key, after_answer(item_or_fresh(m, key), correct, now));
            &&& after.contains_key(key)
            &&& after.len() == m.len() + (if m.contains_key(key) {
                0int
            } else {
                1int
            })
            &&& forall|k: Seq<char>|
                k != key ==> (#[trigger] after.contains_key(k) == m.contains_key(k)) && (
                m.contains_key(k) ==> after[k] == m[k])
        }),
{
    let after = m.insert(key, after_answer(item_or_fresh(m, key), correct, now));
    if m.contains_key(key) {
        assert(after.dom() =~= m.dom());
    } else {
        assert(after.dom() =~= m.dom().insert(key));
    }
}

/// An answer keeps an item in the boxes: a wrong answer sends it to box 0;
/// a correct answer moves it up one box, capped at the last, only when it
/// is due, and otherwise leaves its box and review time as they were.
pub proof fn lemma_answer_moves_at_most_one_box(item: ItemData, now: u64)
    requires
        item.box_level < NUM_BOXES,
    ensures
        after_answer(item, false, now).box_level == 0,
        after_answer(item, true, now).box_level < NUM_BOXES,
        due_at(item, now) ==> after_answer(item, true, now).box_level == (if item.box_level + 1
            < NUM_BOXES {
            item.box_level + 1
        } else {
            NUM_BOXES - 1
        }),
        !due_at(item, now) ==> after_answer(item, true, now).box_level == item.box_level
            && after_answer(item, true, now).last_reviewed == item.last_reviewed,
{
}

proof fn lemma_min_wait_bounds(m: Map<Seq<char>, ItemData>, ks: Seq<Seq<char>>, now: u64)
    requires
        ks.len() > 0,
        all_pending(m, ks, now),
    ensures
        min_wait(m, ks, now) > 0,
        forall|i: int| 0 <= i < ks.len() ==> min_wait(m, ks, now) <= #[trigger] wait_secs(m[ks[i]], now),
        exists|i: int| 0 <= i < ks.len() && min_wait(m, ks, now) == #[trigger] wait_secs(m[ks[i]], now),
    decreases ks.len(),
{
    assert(pending(m, ks[0], now));
    if ks.len() > 1 {
        let d = ks.drop_last();
        assert forall|i: int| 0 <= i < d.len() implies #[trigger] pending(m, d[i], now) by {
            assert(d[i] == ks[i]);
            assert(pending(m, ks[i], now));
        }
        lemma_min_wait_bounds(m, d, now);
        assert(pending(m, ks[ks.len() - 1], now));
        assert forall|i: int| 0 <= i < ks.len() implies min_wait(m, ks, now) <= #[trigger] wait_secs(
            m[ks[i]],
            now,
        ) by {
            if i < ks.len() - 1 {
                assert(d[i] == ks[i]);
            }
        }
        let w = choose|i: int| 0 <= i < d.len() && min_wait(m, d, now) == #[trigger] wait_secs(m[d[i]], now);
        assert(d[w] == ks[w]);
        if min_wait(m, ks, now) != min_wait(m, d, now) {
            assert(min_wait(m, ks, now) == wait_secs(m[ks[ks.len() - 1]], now));
        }
    }
}

/// `next_due_in` gives a wait exactly when there are candidates and none of
/// them is due (`due_items` would be empty); the wait is positive, no longer
/// than the wait of any candidate, and the wait of one of them.
pub proof fn lemma_next_due_wait(m: Map<Seq<char>, ItemData>, ks: Seq<Seq<char>>, now: u64)
    ensures
        (next_due_wait(m, ks, now) is None) <==> (ks.len() == 0 || ks.filter(
            due_or_unseen_pred(m, now),
        ).len() > 0),
        next_due_wait(m, ks, now) matches Some(w) ==> {
            &&& w > 0
            &&& forall|i: int| 0 <= i < ks.len() ==> w <= #[trigger] wait_secs(m[ks[i]], now)
            &&& exists|i: int| 0 <= i < ks.len() && w == #[trigger] wait_secs(m[ks[i]], now)
        },
{
    let p = due_or_unseen_pred(m, now);
    if ks.len() > 0 {
        if all_pending(m, ks, now) {
            lemma_min_wait_bounds(m, ks, now);
            if ks.filter(p).len() > 0 {
                let x = ks.filter(p)[0];
                ks.lemma_filter_pred(p, 0);
                assert(ks.filter(p).contains(x));
                ks.lemma_filter_contains_rev(p, x);
                let i = choose|i: int| 0 <= i < ks.len() && ks[i] == x;
                assert(pending(m, ks[i], now));
                assert(p(ks[i]));
            }
        } else {
            let i = choose|i: int| 0 <= i < ks.len() && !#[trigger] pending(m, ks[i], now);
            assert(p(ks[i]));
            ks.lemma_filter_contains(p, i);
        }
    }
}

/// Counting keys under a predicate that is, key by key, the disjoint union
/// of two others adds their counts.
proof fn lemma_count_split(
    ks: Seq<Seq<char>>,
    p: spec_fn(Seq<char>) -> bool,
    q: spec_fn(Seq<char>) -> bool,
    r: spec_fn(Seq<char>) -> bool,
)
    requires
        forall|k: Seq<char>| #[trigger] p(k) == (q(k) || r(k)),
        forall|k: Seq<char>| !(#[trigger] q(k) && r(k)),
    ensures
        count_keys(ks, p) == count_keys(ks, q) + count_keys(ks, r),
    decreases ks.len(),
{
    if ks.len() == 0 {
        reveal_with_fuel(Seq::<_>::filter, 1);
    } else {
        lemma_count_split(ks.drop_last(), p, q, r);
        lemma_count_step(ks, p);
        lemma_count_step(ks, q);
        lemma_count_step(ks, r);
    }
}

/// Predicates that agree on every key count the same keys.
proof fn lemma_count_same(ks: Seq<Seq<char>>, p: spec_fn(Seq<char>) -> bool, q: spec_fn(Seq<char>) -> bool)
    requires
        forall|k: Seq<char>| #[trigger] p(k) == q(k),
    ensures
        count_keys(ks, p) == count_keys(ks, q),
{
    assert(p =~= q);
}

/// The keys tracked in boxes `lo ..= hi` are those in boxes `lo ..= hi - 1`
/// and those in box `hi`.
proof fn lemma_box_range_split(m: Map<Seq<char>, ItemData>, ks: Seq<Seq<char>>, lo: int, hi: int)
    requires
        lo < hi,
    ensures
        count_keys(ks, box_range_pred(m, lo, hi)) == count_keys(ks, box_range_pred(m, lo, hi - 1))
            + count_keys(ks, in_box_pred(m, hi)),
{
    lemma_count_split(ks, box_range_pred(m, lo, hi), box_range_pred(m, lo, hi - 1), in_box_pred(m, hi));
}

/// The weak, learning and mastered counts of the summary are the sums of
/// the per-box counts (`box_counts`) over boxes 0 to 3, 4 to 6 and 7 to 8.
pub proof fn lemma_summary_sums_box_counts(
    m: Map<Seq<char>, ItemData>,
    ks: Seq<Seq<char>>,
    now: u64,
)
    requires
        forall|k: Seq<char>| #[trigger] m.contains_key(k) ==> m[k].box_level < NUM_BOXES,
    ensures
        summary_counts(m, ks, now).1 == count_keys(ks, in_box_pred(m, 0)) + count_keys(
            ks,
            in_box_pred(m, 1),
        ) + count_keys(ks, in_box_pred(m, 2)) + count_keys(ks, in_box_pred(m, 3)),
        summary_counts(m, ks, now).2 == count_keys(ks, in_box_pred(m, 4)) + count_keys(
            ks,
            in_box_pred(m, 5),
        ) + count_keys(ks, in_box_pred(m, 6)),
        summary_counts(m, ks, now).3 == count_keys(ks, in_box_pred(m, 7)) + count_keys(
            ks,
            in_box_pred(m, 8),
        ),
{
    lemma_box_range_split(m, ks, 0, 3);
    lemma_box_range_split(m, ks, 0, 2);
    lemma_box_range_split(m, ks, 0, 1);
    lemma_count_same(ks, box_range_pred(m, 0, 0), in_box_pred(m, 0));
    lemma_box_range_split(m, ks, 4, 6);
    lemma_box_range_split(m, ks, 4, 5);
    lemma_count_same(ks, box_range_pred(m, 4, 4), in_box_pred(m, 4));
    lemma_count_split(ks, box_range_pred(m, 7, 255), in_box_pred(m, 7), in_box_pred(m, 8));
}

/// The number of keys tracked in boxes `0 .. n` and due at `now`.
pub open spec fn due_boxed_total(m: Map<Seq<char>, ItemData>, ks: Seq<Seq<char>>, n: int, now: u64) -> int
    decreases n,
{
    if n <= 0 {
        0
    } else {
        due_boxed_total(m, ks, n - 1, now) + count_keys(ks, due_in_box_pred(m, n - 1, now))
    }
}

proof fn lemma_due_boxed_total_step(
    m: Map<Seq<char>, ItemData>,
    ks: Seq<Seq<char>>,
    n: int,
    now: u64,
)
    requires
        ks.len() > 0,
        n >= 0,
    ensures
        due_boxed_total(m, ks, n, now) == due_boxed_total(m, ks.drop_last(), n, now) + (if m.contains_key(
            ks.last(),
        ) && m[ks.last()].box_level < n && due_at(m[ks.last()], now) {
            1int
        } else {
            0int
        }),
    decreases n,
{
    if n > 0 {
        lemma_due_boxed_total_step(m, ks, n - 1, now);
        lemma_count_step(ks, due_in_box_pred(m, n - 1, now));
    }
}

proof fn lemma_due_boxed_total_empty(m: Map<Seq<char>, ItemData>, ks: Seq<Seq<char>>, n: int, now: u64)
    requires
        ks.len() == 0,
    ensures
        due_boxed_total(m, ks, n, now) == 0,
    decreases n,
{
    reveal_with_fuel(Seq::<_>::filter, 1);
    if n > 0 {
        lemma_due_boxed_total_empty(m, ks, n - 1, now);
    }
}

proof fn lemma_due_split(m: Map<Seq<char>, ItemData>, ks: Seq<Seq<char>>, now: u64)
    requires
        forall|k: Seq<char>| #[trigger] m.contains_key(k) ==> m[k].box_level < NUM_BOXES,
    ensures
        due_boxed_total(m, ks, NUM_BOXES as int, now) + count_keys(ks, unseen_pred(m))
            == count_keys(ks, due_or_unseen_pred(m, now)),
    decreases ks.len(),
{
    if ks.len() == 0 {
        reveal_with_fuel(Seq::<_>::filter, 1);
        lemma_due_boxed_total_empty(m, ks, NUM_BOXES as int, now);
    } else {
        lemma_due_split(m, ks.drop_last(), now);
        lemma_due_boxed_total_step(m, ks, NUM_BOXES as int, now);
        lemma_count_step(ks, unseen_pred(m));
        lemma_count_step(ks, due_or_unseen_pred(m, now));
    }
}

/// The due counts of the nine boxes (`box_due_counts`) and the count of
/// unseen candidates (`unseen_count`) add up to the number of due items
/// (`due_items`) at the same time.
pub proof fn lemma_due_counts_add_up(m: Map<Seq<char>, ItemData>, ks: Seq<Seq<char>>, now: u64)
    requires
        forall|k: Seq<char>| #[trigger] m.contains_key(k) ==> m[k].box_level < NUM_BOXES,
    ensures
        count_keys(ks, due_in_box_pred(m, 0, now)) + count_keys(ks, due_in_box_pred(m, 1, now))
            + count_keys(ks, due_in_box_pred(m, 2, now)) + count_keys(ks, due_in_box_pred(m, 3, now))
            + count_keys(ks, due_in_box_pred(m, 4, now)) + count_keys(ks, due_in_box_pred(m, 5, now))
            + count_keys(ks, due_in_box_pred(m, 6, now)) + count_keys(ks, due_in_box_pred(m, 7, now))
            + count_keys(ks, due_in_box_pred(m, 8, now)) + count_keys(ks, unseen_pred(m))
            == ks.filter(due_or_unseen_pred(m, now)).len(),
{
    lemma_due_split(m, ks, now);
    reveal_with_fuel(due_boxed_total, 10);
}

/// The items after answers to the keys of `answers`, in order, each given
/// as (key, correct, time).
pub open spec fn after_answers(
    m: Map<Seq<char>, ItemData>,
    answers: Seq<(Seq<char>, bool, u64)>,
) -> Map<Seq<char>, ItemData>
    decreases answers.len(),
{
    if answers.len() == 0 {
        m
    } else {
        let prev = after_answers(m, answers.drop_last());
        let (key, correct, now) = answers.last();
        prev.insert(key, after_answer(item_or_fresh(prev, key), correct, now))
    }
}

/// The keys answered in a series of answers.
pub open spec fn answered_keys(answers: Seq<(Seq<char>, bool, u64)>) -> Set<Seq<char>> {
    answers.map_values(|a: (Seq<char>, bool, u64)| a.0).to_set()
}

proof fn lemma_after_answers_keys(m: Map<Seq<char>, ItemData>, answers: Seq<(Seq<char>, bool, u64)>)
    ensures
        after_answers(m, answers).dom() == m.dom() + answered_keys(answers),
    decreases answers.len(),
{
    if answers.len() > 0 {
        let d = answers.drop_last();
        lemma_after_answers_keys(m, d);
        let ka = answers.map_values(|a: (Seq<char>, bool, u64)| a.0);
        let kd = d.map_values(|a: (Seq<char>, bool, u64)| a.0);
        assert(kd =~= ka.drop_last());
        assert(ka =~= kd.push(answers.last().0));
        kd.lemma_push_to_set_commute(answers.last().0);
        assert(after_answers(m, answers).dom() =~= m.dom() + answered_keys(answers));
    }
}

/// Starting from an empty deck, a series of recorded answers leaves the deck
/// tracking exactly the keys answered: its length is the number of distinct
/// keys, and it is empty exactly when no answer was recorded.
pub proof fn lemma_records_track_distinct_keys(answers: Seq<(Seq<char>, bool, u64)>)
    ensures
        after_answers(Map::empty(), answers).dom() == answered_keys(answers),
        after_answers(Map::empty(), answers).len() == answered_keys(answers).len(),
        (after_answers(Map::empty(), answers).len() == 0) == (answers.len() == 0),
{
    let m = Map::<Seq<char>, ItemData>::empty();
    lemma_after_answers_keys(m, answers);
    assert(m.dom() + answered_keys(answers) =~= answered_keys(answers));
    let ka = answers.map_values(|a: (Seq<char>, bool, u64)| a.0);
    vstd::seq_lib::seq_to_set_is_finite(ka);
    if answers.len() > 0 {
        assert(ka.to_set().contains(ka[0]));
    }
}

/// An answer that marks an item reviewed at `t0` (a wrong answer, or a
/// correct one while the item is due) makes it wait out the interval of its
/// new box: at every time from `t0` until `t0` plus that interval the key is
/// neither due (`due_items`) nor counted as due in any box
/// (`box_due_counts`, the summary's due count), and from then on it is due.
pub proof fn lemma_answered_item_waits_its_interval(
    m: Map<Seq<char>, ItemData>,
    key: Seq<char>,
    correct: bool,
    t0: u64,
    t: u64,
)
    requires
        !correct || due_at(item_or_fresh(m, key), t0),
        t0 <= t,
    ensures
        ({
            let item = after_answer(item_or_fresh(m, key), correct, t0);
            let after = m.insert(key, item);
            &&& item.last_reviewed == t0
            &&& t < t0 + box_interval(item.box_level) ==> !due_or_unseen(after, key, t)
                && forall|b: int| !(#[trigger] due_in_box_pred(after, b, t))(key)
            &&& t >= t0 + box_interval(item.box_level) ==> due_or_unseen(after, key, t)
                && due_in_box_pred(after, item.box_level as int, t)(key)
        }),
{
}

/// An item answered wrong at `t0` is offered before any key not seen yet
/// once its 20 seconds have passed, as long as it is not the key answered
/// last: whatever `next_item` picks is then a due item in box 0.
pub proof fn lemma_wrong_answer_comes_back_first(
    m: Map<Seq<char>, ItemData>,
    ks: Seq<Seq<char>>,
    last: Option<Seq<char>>,
    i: int,
    earlier: ItemData,
    t0: u64,
    now: u64,
    p: int,
)
    requires
        0 <= i < ks.len(),
        m.contains_key(ks[i]),
        m[ks[i]] == after_wrong(earlier, t0),
        now >= t0 + 20,
        last != Some(ks[i]),
        0 <= p < review_pool(m, ks, last, now).len(),
    ensures
        ({
            let j = review_pool(m, ks, last, now)[p];
            &&& 0 <= j < ks.len()
            &&& m.contains_key(ks[j])
            &&& due_at(m[ks[j]], now)
            &&& m[ks[j]].box_level == 0
            &&& last != Some(ks[j])
        }),
{
    assert(tier(m, last, ks[i], now) == 1);
    lemma_pool_prefers_due(m, ks, last, now, p);
}

} // verus!
