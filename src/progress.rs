use vstd::prelude::*;

verus! {

/// What is known of one part of a transfer.
#[derive(Clone, Copy, Debug, PartialEq, Eq)]
pub struct PartProgress {
    pub part_id: usize,
    pub position: usize,
    pub total: usize,
    pub finished: bool,
}

/// One call of the progress callback: part `part_id` is at `position` of `total` bytes.
#[derive(Clone, Copy, Debug, PartialEq, Eq)]
pub struct ProgressEvent {
    pub part_id: usize,
    pub position: usize,
    pub total: usize,
}

/// The reduced view of all parts after an update.
pub struct Snapshot {
    pub sum_position: u128,
    pub sum_total: u128,
    /// Parts that have not reached their total, in ascending order.
    pub active_parts: Vec<usize>,
}

/// Per-part progress of one multi-part transfer, kept in ascending part order.
pub struct ProgressAggregator {
    parts: Vec<PartProgress>,
}

pub open spec fn part_of(part_id: usize, position: usize, total: usize) -> PartProgress {
    PartProgress { part_id, position, total, finished: position == total }
}

pub open spec fn entry_of(e: ProgressEvent) -> PartProgress {
    part_of(e.part_id, e.position, e.total)
}

/// Part identifiers strictly increase along the sequence.
pub open spec fn ids_sorted(s: Seq<PartProgress>) -> bool {
    forall|i: int, j: int| 0 <= i < j < s.len() ==> s[i].part_id < s[j].part_id
}

/// Every part is marked finished exactly when it has reached its total.
pub open spec fn flags_consistent(s: Seq<PartProgress>) -> bool {
    forall|i: int| 0 <= i < s.len() ==> s[i].finished == (s[i].position == s[i].total)
}

/// Puts `p` in the place of the entry with its identifier, or inserts it in order.
pub open spec fn upsert(s: Seq<PartProgress>, p: PartProgress) -> Seq<PartProgress>
    decreases s.len(),
{
    if s.len() == 0 {
        seq![p]
    } else if s[0].part_id < p.part_id {
        seq![s[0]] + upsert(s.drop_first(), p)
    } else if s[0].part_id == p.part_id {
        seq![p] + s.drop_first()
    } else {
        seq![p] + s
    }
}

/// The first entry with identifier `id`.
pub open spec fn lookup(s: Seq<PartProgress>, id: usize) -> Option<PartProgress>
    decreases s.len(),
{
    if s.len() == 0 {
        None
    } else if s[0].part_id == id {
        Some(s[0])
    } else {
        lookup(s.drop_first(), id)
    }
}

pub open spec fn sum_positions(s: Seq<PartProgress>) -> nat
    decreases s.len(),
{
    if s.len() == 0 {
        0
    } else {
        (s[0].position + sum_positions(s.drop_first())) as nat
    }
}

pub open spec fn sum_totals(s: Seq<PartProgress>) -> nat
    decreases s.len(),
{
    if s.len() == 0 {
        0
    } else {
        (s[0].total + sum_totals(s.drop_first())) as nat
    }
}

/// Identifiers of the unfinished entries, in sequence order.
pub open spec fn active_ids(s: Seq<PartProgress>) -> Seq<usize>
    decreases s.len(),
{
    if s.len() == 0 {
        Seq::empty()
    } else if s[0].finished {
        active_ids(s.drop_first())
    } else {
        seq![s[0].part_id] + active_ids(s.drop_first())
    }
}

/// The state after feeding `events`, in order, to a fresh aggregator.
pub open spec fn replay(events: Seq<ProgressEvent>) -> Seq<PartProgress>
    decreases events.len(),
{
    if events.len() == 0 {
        Seq::empty()
    } else {
        upsert(replay(events.drop_last()), entry_of(events.last()))
    }
}

/// The last event of part `id` among `events`.
pub open spec fn latest(events: Seq<ProgressEvent>, id: usize) -> Option<ProgressEvent>
    decreases events.len(),
{
    if events.len() == 0 {
        None
    } else if events.last().part_id == id {
        Some(events.last())
    } else {
        latest(events.drop_last(), id)
    }
}

pub open spec fn event_position_sum(events: Seq<ProgressEvent>) -> nat
    decreases events.len(),
{
    if events.len() == 0 {
        0
    } else {
        (event_position_sum(events.drop_last()) + events.last().position) as nat
    }
}

pub open spec fn event_total_sum(events: Seq<ProgressEvent>) -> nat
    decreases events.len(),
{
    if events.len() == 0 {
        0
    } else {
        (event_total_sum(events.drop_last()) + events.last().total) as nat
    }
}

pub open spec fn ids_distinct(events: Seq<ProgressEvent>) -> bool {
    forall|i: int, j: int|
        0 <= i < j < events.len() ==> events[i].part_id != events[j].part_id
}

proof fn lemma_cons<T>(x: T, t: Seq<T>)
    ensures
        (seq![x] + t).len() == t.len() + 1,
        (seq![x] + t)[0] == x,
        (seq![x] + t).drop_first() == t,
        seq![x].drop_first() == Seq::<T>::empty(),
        forall|k: int| 0 < k <= t.len() ==> #[trigger] (seq![x] + t)[k] == t[k - 1],
{
    assert((seq![x] + t).drop_first() =~= t);
    assert(seq![x].drop_first() =~= Seq::<T>::empty());
}

proof fn lemma_sums_append(a: Seq<PartProgress>, b: Seq<PartProgress>)
    ensures
        sum_positions(a + b) == sum_positions(a) + sum_positions(b),
        sum_totals(a + b) == sum_totals(a) + sum_totals(b),
        active_ids(a + b) == active_ids(a) + active_ids(b),
    decreases a.len(),
{
    if a.len() == 0 {
        assert(a + b =~= b);
        assert(active_ids(a) + active_ids(b) =~= active_ids(b));
    } else {
        lemma_sums_append(a.drop_first(), b);
        assert((a + b).drop_first() =~= a.drop_first() + b);
        if !a[0].finished {
            assert(seq![a[0].part_id] + (active_ids(a.drop_first()) + active_ids(b)) =~= (seq![
                a[0].part_id,
            ] + active_ids(a.drop_first())) + active_ids(b));
        }
    }
}

proof fn lemma_sums_bounded(s: Seq<PartProgress>)
    ensures
        sum_positions(s) <= s.len() * (usize::MAX as nat),
        sum_totals(s) <= s.len() * (usize::MAX as nat),
    decreases s.len(),
{
    if s.len() > 0 {
        lemma_sums_bounded(s.drop_first());
        assert((s.len() - 1) * (usize::MAX as nat) + usize::MAX == s.len() * (usize::MAX as nat))
            by (nonlinear_arith);
    }
}

proof fn lemma_upsert_at(s: Seq<PartProgress>, p: PartProgress, i: int)
    requires
        0 <= i <= s.len(),
        forall|j: int| 0 <= j < i ==> s[j].part_id < p.part_id,
        i < s.len() ==> s[i].part_id >= p.part_id,
    ensures
        upsert(s, p) == (if i < s.len() && s[i].part_id == p.part_id {
            s.update(i, p)
        } else {
            s.insert(i, p)
        }),
    decreases i,
{
    if i == 0 {
        if s.len() == 0 {
            assert(s.insert(0, p) =~= seq![p]);
        } else if s[0].part_id == p.part_id {
            assert(s.update(0, p) =~= seq![p] + s.drop_first());
        } else {
            assert(s.insert(0, p) =~= seq![p] + s);
        }
    } else {
        let t = s.drop_first();
        lemma_upsert_at(t, p, i - 1);
        if i < s.len() && s[i].part_id == p.part_id {
            assert(seq![s[0]] + t.update(i - 1, p) =~= s.update(i, p));
        } else {
            assert(seq![s[0]] + t.insert(i - 1, p) =~= s.insert(i, p));
        }
    }
}

proof fn lemma_upsert_lookup(s: Seq<PartProgress>, p: PartProgress, id: usize)
    ensures
        lookup(upsert(s, p), id) == (if id == p.part_id {
            Some(p)
        } else {
            lookup(s, id)
        }),
    decreases s.len(),
{
    if s.len() == 0 {
        lemma_cons(p, s);
    } else if s[0].part_id < p.part_id {
        lemma_upsert_lookup(s.drop_first(), p, id);
        lemma_cons(s[0], upsert(s.drop_first(), p));
    } else if s[0].part_id == p.part_id {
        lemma_cons(p, s.drop_first());
    } else {
        lemma_cons(p, s);
    }
}

/// Entries of `upsert(s, p)` stay above any bound that `s` and `p` stay above.
proof fn lemma_upsert_above(s: Seq<PartProgress>, p: PartProgress, b: usize)
    requires
        forall|j: int| 0 <= j < s.len() ==> s[j].part_id > b,
        p.part_id > b,
    ensures
        forall|k: int| 0 <= k < upsert(s, p).len() ==> upsert(s, p)[k].part_id > b,
    decreases s.len(),
{
    if s.len() == 0 {
        lemma_cons(p, s);
    } else if s[0].part_id < p.part_id {
        lemma_upsert_above(s.drop_first(), p, b);
        lemma_cons(s[0], upsert(s.drop_first(), p));
    } else if s[0].part_id == p.part_id {
        lemma_cons(p, s.drop_first());
    } else {
        lemma_cons(p, s);
    }
}

proof fn lemma_upsert_avoids(s: Seq<PartProgress>, p: PartProgress, id: usize)
    requires
        forall|j: int| 0 <= j < s.len() ==> s[j].part_id != id,
        p.part_id != id,
    ensures
        forall|k: int| 0 <= k < upsert(s, p).len() ==> upsert(s, p)[k].part_id != id,
    decreases s.len(),
{
    if s.len() == 0 {
        lemma_cons(p, s);
    } else if s[0].part_id < p.part_id {
        lemma_upsert_avoids(s.drop_first(), p, id);
        lemma_cons(s[0], upsert(s.drop_first(), p));
    } else if s[0].part_id == p.part_id {
        lemma_cons(p, s.drop_first());
    } else {
        lemma_cons(p, s);
    }
}

proof fn lemma_upsert_sorted(s: Seq<PartProgress>, p: PartProgress)
    requires
        ids_sorted(s),
    ensures
        ids_sorted(upsert(s, p)),
    decreases s.len(),
{
    if s.len() > 0 && s[0].part_id < p.part_id {
        let t = s.drop_first();
        lemma_upsert_sorted(t, p);
        lemma_upsert_above(t, p, s[0].part_id);
        let u = seq![s[0]] + upsert(t, p);
        lemma_cons(s[0], upsert(t, p));
        assert forall|i: int, j: int| 0 <= i < j < u.len() implies u[i].part_id < u[j].part_id by {
            if i > 0 {
                assert(u[i] == upsert(t, p)[i - 1]);
            }
            assert(u[j] == upsert(t, p)[j - 1]);
        }
    }
}

proof fn lemma_upsert_new_sums(s: Seq<PartProgress>, p: PartProgress)
    requires
        forall|j: int| 0 <= j < s.len() ==> s[j].part_id != p.part_id,
    ensures
        sum_positions(upsert(s, p)) == sum_positions(s) + p.position,
        sum_totals(upsert(s, p)) == sum_totals(s) + p.total,
    decreases s.len(),
{
    if s.len() == 0 {
        lemma_cons(p, s);
        assert(sum_positions(Seq::<PartProgress>::empty()) == 0);
        assert(sum_totals(Seq::<PartProgress>::empty()) == 0);
    } else if s[0].part_id < p.part_id {
        let t = s.drop_first();
        lemma_upsert_new_sums(t, p);
        lemma_cons(s[0], upsert(t, p));
    } else {
        lemma_cons(p, s);
    }
}

proof fn lemma_active_avoids(s: Seq<PartProgress>, id: usize)
    requires
        forall|j: int| 0 <= j < s.len() ==> s[j].part_id != id,
    ensures
        forall|k: int| 0 <= k < active_ids(s).len() ==> active_ids(s)[k] != id,
    decreases s.len(),
{
    if s.len() > 0 {
        lemma_active_avoids(s.drop_first(), id);
        lemma_cons(s[0].part_id, active_ids(s.drop_first()));
    }
}

proof fn lemma_active_above(s: Seq<PartProgress>, b: usize)
    requires
        forall|j: int| 0 <= j < s.len() ==> s[j].part_id > b,
    ensures
        forall|k: int| 0 <= k < active_ids(s).len() ==> active_ids(s)[k] > b,
    decreases s.len(),
{
    if s.len() > 0 {
        lemma_active_above(s.drop_first(), b);
        lemma_cons(s[0].part_id, active_ids(s.drop_first()));
    }
}

/// The active identifiers of a sorted sequence are strictly increasing.
pub proof fn lemma_active_sorted(s: Seq<PartProgress>)
    requires
        ids_sorted(s),
    ensures
        forall|i: int, j: int|
            0 <= i < j < active_ids(s).len() ==> active_ids(s)[i] < active_ids(s)[j],
    decreases s.len(),
{
    if s.len() > 0 {
        let t = s.drop_first();
        lemma_active_sorted(t);
        if !s[0].finished {
            lemma_active_above(t, s[0].part_id);
            lemma_cons(s[0].part_id, active_ids(t));
            let a = active_ids(s);
            assert forall|i: int, j: int| 0 <= i < j < a.len() implies a[i] < a[j] by {
                assert(a[j] == active_ids(t)[j - 1]);
                if i > 0 {
                    assert(a[i] == active_ids(t)[i - 1]);
                }
            }
        }
    }
}

proof fn lemma_finished_inactive(s: Seq<PartProgress>, p: PartProgress)
    requires
        ids_sorted(s),
        p.finished,
    ensures
        forall|k: int|
            0 <= k < active_ids(upsert(s, p)).len() ==> active_ids(upsert(s, p))[k] != p.part_id,
    decreases s.len(),
{
    if s.len() == 0 {
        let e = Seq::<PartProgress>::empty();
        assert(upsert(s, p) == seq![p]);
        assert(seq![p][0] == p);
        assert(seq![p].drop_first() =~= e);
        assert(active_ids(e) =~= Seq::<usize>::empty());
        assert(active_ids(seq![p]) =~= Seq::<usize>::empty());
    } else if s[0].part_id < p.part_id {
        let t = s.drop_first();
        let u = upsert(t, p);
        lemma_finished_inactive(t, p);
        lemma_cons(s[0], u);
        lemma_cons(s[0].part_id, active_ids(u));
        assert(upsert(s, p) == seq![s[0]] + u);
        if s[0].finished {
            assert(active_ids(upsert(s, p)) == active_ids(u));
        } else {
            assert(active_ids(upsert(s, p)) == seq![s[0].part_id] + active_ids(u));
        }
    } else if s[0].part_id == p.part_id {
        let t = s.drop_first();
        lemma_cons(p, t);
        assert forall|j: int| 0 <= j < t.len() implies t[j].part_id != p.part_id by {
            assert(s[0].part_id < s[j + 1].part_id);
        }
        lemma_active_avoids(t, p.part_id);
        assert(active_ids(upsert(s, p)) == active_ids(t));
    } else {
        lemma_cons(p, s);
        assert forall|j: int| 0 <= j < s.len() implies s[j].part_id != p.part_id by {
            if j > 0 {
                assert(s[0].part_id < s[j].part_id);
            }
        }
        lemma_active_avoids(s, p.part_id);
        assert(active_ids(upsert(s, p)) == active_ids(s));
    }
}

proof fn lemma_lookup_absent(s: Seq<PartProgress>, id: usize)
    requires
        forall|j: int| 0 <= j < s.len() ==> s[j].part_id != id,
    ensures
        lookup(s, id) is None,
    decreases s.len(),
{
    if s.len() > 0 {
        lemma_lookup_absent(s.drop_first(), id);
    }
}

/// Two sorted sequences that agree on every lookup are the same sequence.
proof fn lemma_sorted_lookup_unique(a: Seq<PartProgress>, b: Seq<PartProgress>)
    requires
        ids_sorted(a),
        ids_sorted(b),
        forall|id: usize| lookup(a, id) == lookup(b, id),
    ensures
        a == b,
    decreases a.len() + b.len(),
{
    if a.len() == 0 && b.len() == 0 {
        assert(a =~= b);
    } else if a.len() == 0 {
        assert(lookup(a, b[0].part_id) == lookup(b, b[0].part_id));
    } else if b.len() == 0 {
        assert(lookup(a, a[0].part_id) == lookup(b, a[0].part_id));
    } else {
        let x = a[0].part_id;
        let y = b[0].part_id;
        assert(lookup(a, x) == lookup(b, x));
        assert(lookup(a, y) == lookup(b, y));
        if x < y {
            lemma_lookup_absent(b, x);
        } else if y < x {
            lemma_lookup_absent(a, y);
        } else {
            let ta = a.drop_first();
            let tb = b.drop_first();
            lemma_lookup_absent(ta, x);
            lemma_lookup_absent(tb, x);
            assert forall|id: usize| lookup(ta, id) == lookup(tb, id) by {
                assert(lookup(a, id) == lookup(b, id));
            }
            lemma_sorted_lookup_unique(ta, tb);
            assert(a =~= seq![a[0]] + ta);
            assert(b =~= seq![b[0]] + tb);
        }
    }
}

proof fn lemma_replay_facts(events: Seq<ProgressEvent>)
    ensures
        ids_sorted(replay(events)),
        forall|id: usize|
            #![trigger lookup(replay(events), id)]
            lookup(replay(events), id) == (match latest(events, id) {
                Some(e) => Some(entry_of(e)),
                None => None,
            }),
    decreases events.len(),
{
    if events.len() > 0 {
        let prev = events.drop_last();
        lemma_replay_facts(prev);
        lemma_upsert_sorted(replay(prev), entry_of(events.last()));
        assert forall|id: usize| #[trigger]
            lookup(replay(events), id) == (match latest(events, id) {
                Some(e) => Some(entry_of(e)),
                None => None,
            }) by {
            lemma_upsert_lookup(replay(prev), entry_of(events.last()), id);
        }
    }
}

/// The state an aggregator ends in depends only on the last event of each
/// part: any two event orders that agree on it (for instance two
/// interleavings of the same per-part update streams) give the same parts,
/// hence the same sums and the same active list.
pub proof fn lemma_replay_order_independent(a: Seq<ProgressEvent>, b: Seq<ProgressEvent>)
    requires
        forall|id: usize| latest(a, id) == latest(b, id),
    ensures
        replay(a) == replay(b),
        sum_positions(replay(a)) == sum_positions(replay(b)),
        sum_totals(replay(a)) == sum_totals(replay(b)),
        active_ids(replay(a)) == active_ids(replay(b)),
{
    lemma_replay_facts(a);
    lemma_replay_facts(b);
    assert forall|id: usize| lookup(replay(a), id) == lookup(replay(b), id) by {
        assert(latest(a, id) == latest(b, id));
    }
    lemma_sorted_lookup_unique(replay(a), replay(b));
}

proof fn lemma_replay_avoids(events: Seq<ProgressEvent>, id: usize)
    requires
        forall|k: int| 0 <= k < events.len() ==> events[k].part_id != id,
    ensures
        forall|j: int| 0 <= j < replay(events).len() ==> replay(events)[j].part_id != id,
    decreases events.len(),
{
    if events.len() > 0 {
        lemma_replay_avoids(events.drop_last(), id);
        lemma_upsert_avoids(replay(events.drop_last()), entry_of(events.last()), id);
    }
}

/// When each event is for a part of its own, in whatever order they come, the
/// summed positions and totals are the sums over the events.
pub proof fn lemma_replay_sums_distinct(events: Seq<ProgressEvent>)
    requires
        ids_distinct(events),
    ensures
        sum_positions(replay(events)) == event_position_sum(events),
        sum_totals(replay(events)) == event_total_sum(events),
    decreases events.len(),
{
    if events.len() > 0 {
        let prev = events.drop_last();
        let last = events.last();
        assert(ids_distinct(prev));
        lemma_replay_sums_distinct(prev);
        assert forall|k: int| 0 <= k < prev.len() implies prev[k].part_id != last.part_id by {
            assert(events[k].part_id != events[events.len() - 1].part_id);
        }
        lemma_replay_avoids(prev, last.part_id);
        lemma_upsert_new_sums(replay(prev), entry_of(last));
    }
}

/// `events` without those of part `id`, in order.
pub open spec fn without_part(events: Seq<ProgressEvent>, id: usize) -> Seq<ProgressEvent>
    decreases events.len(),
{
    if events.len() == 0 {
        Seq::empty()
    } else if events.last().part_id == id {
        without_part(events.drop_last(), id)
    } else {
        without_part(events.drop_last(), id).push(events.last())
    }
}

/// The last event of each part, one per part.
pub open spec fn latest_events(events: Seq<ProgressEvent>) -> Seq<ProgressEvent>
    decreases events.len(),
{
    if events.len() == 0 {
        Seq::empty()
    } else {
        without_part(latest_events(events.drop_last()), events.last().part_id).push(events.last())
    }
}

/// The events of part `id`, in the order they came.
pub open spec fn part_events(events: Seq<ProgressEvent>, id: usize) -> Seq<ProgressEvent>
    decreases events.len(),
{
    if events.len() == 0 {
        Seq::empty()
    } else if events.last().part_id == id {
        part_events(events.drop_last(), id).push(events.last())
    } else {
        part_events(events.drop_last(), id)
    }
}

/// No two events for one part, stated event by event from the end.
spec fn distinct_from_end(events: Seq<ProgressEvent>) -> bool
    decreases events.len(),
{
    events.len() == 0 || (latest(events.drop_last(), events.last().part_id) is None
        && distinct_from_end(events.drop_last()))
}

proof fn lemma_latest_none(events: Seq<ProgressEvent>, id: usize)
    requires
        latest(events, id) is None,
    ensures
        forall|k: int| 0 <= k < events.len() ==> events[k].part_id != id,
    decreases events.len(),
{
    if events.len() > 0 {
        lemma_latest_none(events.drop_last(), id);
        assert forall|k: int| 0 <= k < events.len() implies events[k].part_id != id by {
            if k < events.len() - 1 {
                assert(events[k] == events.drop_last()[k]);
            }
        }
    }
}

proof fn lemma_distinct_from_end(events: Seq<ProgressEvent>)
    requires
        distinct_from_end(events),
    ensures
        ids_distinct(events),
    decreases events.len(),
{
    if events.len() > 0 {
        let prev = events.drop_last();
        lemma_distinct_from_end(prev);
        lemma_latest_none(prev, events.last().part_id);
        assert forall|i: int, j: int| 0 <= i < j < events.len() implies events[i].part_id
            != events[j].part_id by {
            assert(events[i] == prev[i]);
            if j < events.len() - 1 {
                assert(events[j] == prev[j]);
            }
        }
    }
}

proof fn lemma_without_part(events: Seq<ProgressEvent>, x: usize)
    ensures
        forall|id: usize|
            #[trigger] latest(without_part(events, x), id) == (if id == x {
                None
            } else {
                latest(events, id)
            }),
        distinct_from_end(events) ==> distinct_from_end(without_part(events, x)),
    decreases events.len(),
{
    if events.len() > 0 {
        let prev = events.drop_last();
        let l = events.last();
        lemma_without_part(prev, x);
        let w = without_part(events, x);
        if l.part_id != x {
            assert(w.drop_last() =~= without_part(prev, x));
            assert(w.last() == l);
        }
        assert forall|id: usize|
            #[trigger] latest(without_part(events, x), id) == (if id == x {
                None
            } else {
                latest(events, id)
            }) by {
            assert(latest(without_part(prev, x), id) == (if id == x {
                None
            } else {
                latest(prev, id)
            }));
        }
    }
}

proof fn lemma_latest_events(events: Seq<ProgressEvent>)
    ensures
        forall|id: usize| #[trigger] latest(latest_events(events), id) == latest(events, id),
        distinct_from_end(latest_events(events)),
    decreases events.len(),
{
    if events.len() > 0 {
        let prev = events.drop_last();
        let l = events.last();
        lemma_latest_events(prev);
        lemma_without_part(latest_events(prev), l.part_id);
        let w = without_part(latest_events(prev), l.part_id).push(l);
        assert(w.drop_last() =~= without_part(latest_events(prev), l.part_id));
        assert(w.last() == l);
        assert(latest_events(events) == w);
        assert forall|id: usize| #[trigger] latest(w, id) == latest(events, id) by {
            if id != l.part_id {
                assert(latest(w, id) == latest(w.drop_last(), id));
                assert(latest(without_part(latest_events(prev), l.part_id), id) == latest(
                    latest_events(prev),
                    id,
                ));
                assert(latest(latest_events(prev), id) == latest(prev, id));
            }
        }
        assert(latest(w.drop_last(), l.part_id) is None) by {
            assert(latest(without_part(latest_events(prev), l.part_id), l.part_id) is None);
        }
    }
}

/// The summed positions and totals are those of each part's latest event,
/// one event per part, whatever the order the events came in.
pub proof fn lemma_replay_sums_latest(events: Seq<ProgressEvent>)
    ensures
        ids_distinct(latest_events(events)),
        forall|id: usize| #[trigger] latest(latest_events(events), id) == latest(events, id),
        sum_positions(replay(events)) == event_position_sum(latest_events(events)),
        sum_totals(replay(events)) == event_total_sum(latest_events(events)),
{
    lemma_latest_events(events);
    lemma_distinct_from_end(latest_events(events));
    lemma_replay_order_independent(events, latest_events(events));
    lemma_replay_sums_distinct(latest_events(events));
}

proof fn lemma_latest_is_last_of_part(events: Seq<ProgressEvent>, id: usize)
    ensures
        latest(events, id) == (if part_events(events, id).len() == 0 {
            None
        } else {
            Some(part_events(events, id).last())
        }),
    decreases events.len(),
{
    if events.len() > 0 {
        lemma_latest_is_last_of_part(events.drop_last(), id);
    }
}

/// Two interleavings of the same per-part event streams (each part's events
/// in its own order) leave the aggregator in the same state, hence with the
/// same sums and the same active list.
pub proof fn lemma_interleavings_agree(a: Seq<ProgressEvent>, b: Seq<ProgressEvent>)
    requires
        forall|id: usize| part_events(a, id) == part_events(b, id),
    ensures
        replay(a) == replay(b),
        sum_positions(replay(a)) == sum_positions(replay(b)),
        sum_totals(replay(a)) == sum_totals(replay(b)),
        active_ids(replay(a)) == active_ids(replay(b)),
{
    assert forall|id: usize| latest(a, id) == latest(b, id) by {
        lemma_latest_is_last_of_part(a, id);
        lemma_latest_is_last_of_part(b, id);
        assert(part_events(a, id) == part_events(b, id));
    }
    lemma_replay_order_independent(a, b);
}

/// A part that reports its whole total is out of the active list right after
/// that update, and stays out when the same report comes again.
pub proof fn lemma_complete_part_inactive(s: Seq<PartProgress>, part_id: usize, total: usize)
    requires
        ids_sorted(s),
    ensures
        !active_ids(upsert(s, part_of(part_id, total, total))).contains(part_id),
        !active_ids(
            upsert(upsert(s, part_of(part_id, total, total)), part_of(part_id, total, total)),
        ).contains(part_id),
{
    let p = part_of(part_id, total, total);
    lemma_finished_inactive(s, p);
    lemma_upsert_sorted(s, p);
    lemma_finished_inactive(upsert(s, p), p);
}

impl View for ProgressAggregator {
    type V = Seq<PartProgress>;

    closed spec fn view(&self) -> Seq<PartProgress> {
        self.parts@
    }
}

impl ProgressAggregator {
    /// Parts are in ascending order of identifier, each finished flag true
    /// exactly when the part has reached its total.
    pub open spec fn wf(&self) -> bool {
        ids_sorted(self@) && flags_consistent(self@)
    }

    /// An aggregator that tracks no part yet.
    pub fn new() -> (r: ProgressAggregator)
        ensures
            r.wf(),
            r@ == Seq::<PartProgress>::empty(),
    {
        ProgressAggregator { parts: Vec::new() }
    }

    /// The sums over all tracked parts and the unfinished parts in ascending order.
    pub fn snapshot(&self) -> (r: Snapshot)
        ensures
            r.sum_position == sum_positions(self@),
            r.sum_total == sum_totals(self@),
            r.active_parts@ == active_ids(self@),
            self.wf() ==> forall|i: int, j: int|
                0 <= i < j < r.active_parts@.len() ==> r.active_parts@[i] < r.active_parts@[j],
    {
        let n = self.parts.len();
        let mut sum_position: u128 = 0;
        let mut sum_total: u128 = 0;
        let mut active: Vec<usize> = Vec::new();
        let mut i: usize = 0;
        while i < n
            invariant
                n == self.parts@.len(),
                i <= n,
                sum_position == sum_positions(self.parts@.take(i as int)),
                sum_total == sum_totals(self.parts@.take(i as int)),
                active@ == active_ids(self.parts@.take(i as int)),
            decreases n - i,
        {
            let p = self.parts[i];
            let ghost s = self.parts@;
            proof {
                let one = seq![p];
                assert(s.take(i + 1) =~= s.take(i as int) + one);
                lemma_sums_append(s.take(i as int), one);
                lemma_cons(p, Seq::<PartProgress>::empty());
                assert(one =~= seq![p] + Seq::<PartProgress>::empty());
                assert(sum_positions(Seq::<PartProgress>::empty()) == 0);
                assert(sum_totals(Seq::<PartProgress>::empty()) == 0);
                assert(active_ids(Seq::<PartProgress>::empty()) == Seq::<usize>::empty());
                lemma_sums_bounded(s.take(i as int));
                assert(s.take(i as int).len() == i);
                assert((i as int) * (usize::MAX as int) <= (usize::MAX as int) * (usize::MAX as int))
                    by (nonlinear_arith)
                    requires
                        i <= usize::MAX,
                ;
                assert((usize::MAX as int) * (usize::MAX as int) <= 0xffff_ffff_ffff_ffffint
                    * 0xffff_ffff_ffff_ffffint) by (nonlinear_arith)
                    requires
                        usize::MAX <= 0xffff_ffff_ffff_ffff,
                ;
            }
            sum_position = sum_position + p.position as u128;
            sum_total = sum_total + p.total as u128;
            if !p.finished {
                active.push(p.part_id);
            }
            proof {
                if !p.finished {
                    assert(active@ =~= active_ids(s.take(i as int)) + seq![p.part_id]);
                } else {
                    assert(active@ =~= active_ids(s.take(i as int)) + Seq::<usize>::empty());
                }
            }
            i = i + 1;
        }
        proof {
            assert(self.parts@.take(n as int) =~= self.parts@);
            if self.wf() {
                lemma_active_sorted(self@);
            }
        }
        Snapshot { sum_position, sum_total, active_parts: active }
    }

    /// Records that part `part_id` is at `position` of `total` bytes, and
    /// returns the snapshot after that.
    pub fn update(&mut self, part_id: usize, position: usize, total: usize) -> (r: Snapshot)
        requires
            old(self).wf(),
        ensures
            final(self).wf(),
            final(self)@ == upsert(old(self)@, part_of(part_id, position, total)),
            r.sum_position == sum_positions(final(self)@),
            r.sum_total == sum_totals(final(self)@),
            r.active_parts@ == active_ids(final(self)@),
            forall|i: int, j: int|
                0 <= i < j < r.active_parts@.len() ==> r.active_parts@[i] < r.active_parts@[j],
    {
        let p = PartProgress { part_id, position, total, finished: position == total };
        let n = self.parts.len();
        let mut i: usize = 0;
        while i < n && self.parts[i].part_id < part_id
            invariant
                n == self.parts@.len(),
                i <= n,
                forall|j: int| 0 <= j < i ==> self.parts@[j].part_id < part_id,
            decreases n - i,
        {
            i = i + 1;
        }
        let ghost s = self.parts@;
        proof {
            lemma_upsert_at(s, p, i as int);
            lemma_upsert_sorted(s, p);
        }
        if i < n && self.parts[i].part_id == part_id {
            self.parts.set(i, p);
        } else {
            self.parts.insert(i, p);
        }
        proof {
            assert(self.parts@ == upsert(s, p));
            assert(flags_consistent(self@)) by {
                assert forall|k: int| 0 <= k < self.parts@.len() implies self.parts@[k].finished
                    == (self.parts@[k].position == self.parts@[k].total) by {
                    if k < i {
                        assert(self.parts@[k] == s[k]);
                    } else if k > i {
                        if i < n && s[i as int].part_id == part_id {
                            assert(self.parts@[k] == s[k]);
                        } else {
                            assert(self.parts@[k] == s[k - 1]);
                        }
                    }
                }
            }
        }
        self.snapshot()
    }
}

} // verus!
