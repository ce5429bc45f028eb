//! The buffer that regroups the lines of one event until the event is complete.
//!
//! The lines of one auditd event arrive as several log lines that share an
//! event id. They are gathered under that id; an event that has received no
//! line for `STALE_AFTER_NANOS` is complete and leaves the buffer.

use vstd::prelude::*;
use crate::text::{views, same_text};

verus! {

/// How long an event must stay without new line before it is complete:
/// two seconds, in nanoseconds.
pub const STALE_AFTER_NANOS: u64 = 2_000_000_000;

/// How often the buffer is swept for complete events: half a second, in
/// nanoseconds.
pub const SWEEP_INTERVAL_NANOS: u64 = 500_000_000;

/// The lines gathered under one event id, and when the last of them arrived
/// (in nanoseconds on the caller's monotonic clock).
#[derive(Debug)]
pub struct EventGroup {
    pub id: String,
    pub lines: Vec<String>,
    pub last_seen: u64,
}

/// The model of an `EventGroup`.
pub struct GroupRecord {
    pub id: Seq<char>,
    pub lines: Seq<Seq<char>>,
    pub last_seen: u64,
}

impl View for EventGroup {
    type V = GroupRecord;

    open spec fn view(&self) -> GroupRecord {
        GroupRecord { id: self.id@, lines: views(self.lines@), last_seen: self.last_seen }
    }
}

/// The models of a vector of groups.
pub open spec fn group_views(v: Seq<EventGroup>) -> Seq<GroupRecord> {
    Seq::new(v.len(), |i: int| v[i]@)
}

/// No two groups share an id.
pub open spec fn distinct_ids(g: Seq<GroupRecord>) -> bool {
    forall|i: int, j: int| 0 <= i < g.len() && 0 <= j < g.len() && i != j ==> g[i].id != g[j].id
}

/// The position of the group with this id.
pub open spec fn position_of(g: Seq<GroupRecord>, id: Seq<char>) -> Option<int> {
    if exists|i: int| 0 <= i < g.len() && g[i].id == id {
        Some(choose|i: int| 0 <= i < g.len() && g[i].id == id)
    } else {
        None
    }
}

/// The lines and last arrival gathered under `id`.
pub open spec fn lookup(g: Seq<GroupRecord>, id: Seq<char>) -> Option<(Seq<Seq<char>>, u64)> {
    match position_of(g, id) {
        Some(i) => Some((g[i].lines, g[i].last_seen)),
        None => None,
    }
}

/// The groups after `lines` arrived at time `now` for the event `id`: they are
/// appended to that event's lines, or start a new group at the end.
pub open spec fn inserted(g: Seq<GroupRecord>, id: Seq<char>, lines: Seq<Seq<char>>, now: u64) -> Seq<
    GroupRecord,
> {
    match position_of(g, id) {
        Some(i) => g.update(i, GroupRecord { id, lines: g[i].lines + lines, last_seen: now }),
        None => g.push(GroupRecord { id, lines, last_seen: now }),
    }
}

/// A group is complete at `now` when no line came for `STALE_AFTER_NANOS`.
pub open spec fn is_stale(r: GroupRecord, now: u64) -> bool {
    now as int - r.last_seen as int >= STALE_AFTER_NANOS as int
}

/// The groups of `g` whose staleness at `now` is `stale`, in order.
pub open spec fn part(g: Seq<GroupRecord>, now: u64, stale: bool) -> Seq<GroupRecord>
    decreases g.len(),
{
    if g.len() == 0 {
        seq![]
    } else if is_stale(g.last(), now) == stale {
        part(g.drop_last(), now, stale).push(g.last())
    } else {
        part(g.drop_last(), now, stale)
    }
}

/// The groups of `g` that are complete at `now`, in order.
pub open spec fn stale_part(g: Seq<GroupRecord>, now: u64) -> Seq<GroupRecord> {
    part(g, now, true)
}

/// The groups of `g` that are still open at `now`, in order.
pub open spec fn fresh_part(g: Seq<GroupRecord>, now: u64) -> Seq<GroupRecord> {
    part(g, now, false)
}

/// The lines of events being regrouped, by event id.
pub struct EventGroups {
    groups: Vec<EventGroup>,
}

impl View for EventGroups {
    type V = Seq<GroupRecord>;

    closed spec fn view(&self) -> Seq<GroupRecord> {
        group_views(self.groups@)
    }
}

impl EventGroups {
    /// The buffer's own invariant: one group per event id.
    pub open spec fn wf(&self) -> bool {
        distinct_ids(self@)
    }

    /// An empty buffer.
    pub fn new() -> (r: Self)
        ensures
            r.wf(),
            r@ == Seq::<GroupRecord>::empty(),
    {
        let r = EventGroups { groups: Vec::new() };
        proof {
            assert(group_views(r.groups@) =~= Seq::<GroupRecord>::empty());
        }
        r
    }

    /// The number of events being regrouped.
    pub fn len(&self) -> (r: usize)
        ensures
            r == self@.len(),
    {
        self.groups.len()
    }

    /// Whether no event is being regrouped.
    pub fn is_empty(&self) -> (r: bool)
        ensures
            r == (self@.len() == 0),
    {
        self.groups.len() == 0
    }

    /// The group at position `i` (groups are kept in the order their events
    /// first arrived).
    pub fn group_at(&self, i: usize) -> (r: &EventGroup)
        requires
            i < self@.len(),
        ensures
            r@ == self@[i as int],
    {
        &self.groups[i]
    }

    /// The lines gathered under `id`, and when the last of them arrived.
    pub fn get(&self, id: &str) -> (r: Option<(Vec<String>, u64)>)
        requires
            self.wf(),
        ensures
            match r {
                Some((lines, t)) => lookup(self@, id@) == Some((views(lines@), t)),
                None => lookup(self@, id@) is None,
            },
    {
        match self.find(id) {
            Some(i) => {
                let g = &self.groups[i];
                Some((g.lines.clone(), g.last_seen))
            },
            None => None,
        }
    }

    /// The position of the group of `id`.
    fn find(&self, id: &str) -> (r: Option<usize>)
        requires
            self.wf(),
        ensures
            match r {
                Some(i) => position_of(self@, id@) == Some(i as int) && i < self@.len(),
                None => position_of(self@, id@) is None,
            },
    {
        let n = self.groups.len();
        let mut i: usize = 0;
        while i < n
            invariant
                n == self.groups@.len(),
                i <= n,
                self.wf(),
                forall|k: int| 0 <= k < i ==> self@[k].id != id@,
            decreases n - i,
        {
            if same_text(self.groups[i].id.as_str(), id) {
                proof {
                    assert(self@[i as int].id == id@);
                    lemma_position_unique(self@, id@, i as int);
                }
                return Some(i);
            }
            i = i + 1;
        }
        None
    }

    /// Gathers `lines`, which arrived at time `now`, under the event `id`.
    pub fn insert(&mut self, id: &str, lines: Vec<String>, now: u64)
        requires
            old(self).wf(),
        ensures
            final(self).wf(),
            final(self)@ == inserted(old(self)@, id@, views(lines@), now),
    {
        let ghost before = self@;
        match self.find(id) {
            Some(i) => {
                let mut group = self.groups.remove(i);
                let ghost old_group = group@;
                let ghost added = views(lines@);
                let mut lines = lines;
                group.lines.append(&mut lines);
                group.last_seen = now;
                proof {
                    assert(views(group.lines@) =~= old_group.lines + added);
                }
                self.groups.insert(i, group);
                proof {
                    assert(self@ =~= before.update(
                        i as int,
                        GroupRecord { id: id@, lines: old_group.lines + added, last_seen: now },
                    ));
                    assert(old_group == before[i as int]);
                }
            },
            None => {
                self.groups.push(EventGroup { id: String::from_str(id), lines, last_seen: now });
                proof {
                    assert(self@ =~= before.push(GroupRecord { id: id@, lines: views(lines@), last_seen: now }));
                }
            },
        }
        proof {
            lemma_inserted_distinct(before, id@, views(lines@), now);
        }
    }

    /// Takes out the groups that are complete at `now`, in order, and keeps
    /// the others.
    pub fn take_stale(&mut self, now: u64) -> (r: Vec<EventGroup>)
        requires
            old(self).wf(),
        ensures
            final(self).wf(),
            final(self)@ == fresh_part(old(self)@, now),
            group_views(r@) == stale_part(old(self)@, now),
    {
        let ghost before = self@;
        let mut taken: Vec<EventGroup> = Vec::new();
        let mut kept: Vec<EventGroup> = Vec::new();
        let mut rest: Vec<EventGroup> = Vec::new();
        std::mem::swap(&mut rest, &mut self.groups);
        let n = rest.len();
        let mut i: usize = 0;
        while i < n
            invariant
                n == before.len(),
                i <= n,
                rest@.len() == n - i,
                forall|k: int| 0 <= k < n - i ==> #[trigger] rest@[k]@ == before[k + i],
                group_views(taken@) == stale_part(before.take(i as int), now),
                group_views(kept@) == fresh_part(before.take(i as int), now),
            decreases n - i,
        {
            let ghost prev_rest = rest@;
            let g = rest.remove(0);
            proof {
                assert(g == prev_rest[0]);
                assert(g@ == before[i as int]);
                assert(before.take(i + 1).drop_last() =~= before.take(i as int));
                assert(before.take(i + 1).last() == before[i as int]);
                assert forall|k: int| 0 <= k < n - (i + 1) implies #[trigger] rest@[k]@ == before[k + i + 1] by {
                    assert(rest@[k] == prev_rest[k + 1]);
                }
            }
            let ghost taken_before = group_views(taken@);
            let ghost kept_before = group_views(kept@);
            if now as u128 >= g.last_seen as u128 + STALE_AFTER_NANOS as u128 {
                taken.push(g);
                proof {
                    assert(group_views(taken@) =~= taken_before.push(before[i as int]));
                }
            } else {
                kept.push(g);
                proof {
                    assert(group_views(kept@) =~= kept_before.push(before[i as int]));
                }
            }
            i = i + 1;
        }
        proof {
            assert(before.take(n as int) =~= before);
            lemma_part_distinct(before, now, false);
        }
        self.groups = kept;
        taken
    }
}

/// The position of an id is the one index that holds it.
pub proof fn lemma_position_unique(g: Seq<GroupRecord>, id: Seq<char>, i: int)
    requires
        distinct_ids(g),
        0 <= i < g.len(),
        g[i].id == id,
    ensures
        position_of(g, id) == Some(i),
{
}

proof fn lemma_inserted_distinct(g: Seq<GroupRecord>, id: Seq<char>, lines: Seq<Seq<char>>, now: u64)
    requires
        distinct_ids(g),
    ensures
        distinct_ids(inserted(g, id, lines, now)),
{
}


/// Every group of a part comes from `g` and has the part's staleness.
proof fn lemma_part_members(g: Seq<GroupRecord>, now: u64, stale: bool)
    ensures
        forall|k: int| 0 <= k < part(g, now, stale).len() ==> is_stale(#[trigger] part(g, now, stale)[k], now) == stale
            && exists|j: int| 0 <= j < g.len() && part(g, now, stale)[k] == g[j],
    decreases g.len(),
{
    if g.len() > 0 {
        let d = g.drop_last();
        lemma_part_members(d, now, stale);
        let f = part(g, now, stale);
        let p = part(d, now, stale);
        assert forall|k: int| 0 <= k < f.len() implies is_stale(#[trigger] f[k], now) == stale && exists|j: int| 0 <= j < g.len() && f[k] == g[j] by {
            if k < p.len() {
                assert(f[k] == p[k]);
                let j = choose|j: int| 0 <= j < d.len() && p[k] == d[j];
                assert(f[k] == g[j]);
            } else {
                assert(f[k] == g[g.len() - 1]);
            }
        }
    }
}

/// Every group of `g` with the part's staleness is in the part.
proof fn lemma_part_complete(g: Seq<GroupRecord>, now: u64, stale: bool)
    ensures
        forall|j: int| 0 <= j < g.len() && is_stale(#[trigger] g[j], now) == stale ==> exists|k: int| 0 <= k < part(g, now, stale).len() && part(g, now, stale)[k] == g[j],
    decreases g.len(),
{
    if g.len() > 0 {
        let d = g.drop_last();
        lemma_part_complete(d, now, stale);
        let f = part(g, now, stale);
        let p = part(d, now, stale);
        assert forall|j: int| 0 <= j < g.len() && is_stale(#[trigger] g[j], now) == stale implies exists|k: int| 0 <= k < f.len() && f[k] == g[j] by {
            if j < g.len() - 1 {
                assert(g[j] == d[j]);
                let k = choose|k: int| 0 <= k < p.len() && p[k] == d[j];
                assert(f[k] == p[k]);
            } else {
                assert(f[f.len() - 1] == g[j]);
            }
        }
    }
}

/// The two parts together have as many groups as `g`.
proof fn lemma_part_lengths(g: Seq<GroupRecord>, now: u64)
    ensures
        part(g, now, false).len() + part(g, now, true).len() == g.len(),
    decreases g.len(),
{
    if g.len() > 0 {
        lemma_part_lengths(g.drop_last(), now);
    }
}

/// A part keeps one group per id.
proof fn lemma_part_distinct(g: Seq<GroupRecord>, now: u64, stale: bool)
    requires
        distinct_ids(g),
    ensures
        distinct_ids(part(g, now, stale)),
    decreases g.len(),
{
    if g.len() > 0 {
        let d = g.drop_last();
        assert(distinct_ids(d)) by {
            assert forall|i: int, j: int| 0 <= i < d.len() && 0 <= j < d.len() && i != j implies d[i].id != d[j].id by {
                assert(d[i] == g[i] && d[j] == g[j]);
            }
        }
        lemma_part_distinct(d, now, stale);
        lemma_part_members(d, now, stale);
        if is_stale(g.last(), now) == stale {
            let p = part(d, now, stale);
            let f = part(g, now, stale);
            assert forall|i: int, j: int| 0 <= i < f.len() && 0 <= j < f.len() && i != j implies f[i].id != f[j].id by {
                if i < p.len() && j < p.len() {
                    assert(f[i] == p[i] && f[j] == p[j]);
                } else if i < p.len() {
                    let k = choose|k: int| 0 <= k < d.len() && p[i] == d[k];
                    assert(f[i] == g[k]);
                    assert(f[j] == g[g.len() - 1]);
                } else {
                    let k = choose|k: int| 0 <= k < d.len() && p[j] == d[k];
                    assert(f[j] == g[k]);
                    assert(f[i] == g[g.len() - 1]);
                }
            }
        }
    }
}

/// The lines gathered under `id` so far (none for an unknown id).
pub open spec fn lines_of(g: Seq<GroupRecord>, id: Seq<char>) -> Seq<Seq<char>> {
    match lookup(g, id) {
        Some((lines, _)) => lines,
        None => seq![],
    }
}

proof fn lemma_position_none(g: Seq<GroupRecord>, id: Seq<char>)
    requires
        forall|i: int| 0 <= i < g.len() ==> g[i].id != id,
    ensures
        position_of(g, id) is None,
{
}

proof fn lemma_lookup_at(g: Seq<GroupRecord>, i: int)
    requires
        distinct_ids(g),
        0 <= i < g.len(),
    ensures
        lookup(g, g[i].id) == Some((g[i].lines, g[i].last_seen)),
{
    lemma_position_unique(g, g[i].id, i);
}

/// Lines that arrive for an event are appended, in order, to the lines that
/// event already has, and the event's last arrival becomes `now`; the other
/// events are unchanged.
pub proof fn law_insert_appends(g: Seq<GroupRecord>, id: Seq<char>, lines: Seq<Seq<char>>, now: u64)
    requires
        distinct_ids(g),
    ensures
        lookup(inserted(g, id, lines, now), id) == Some((lines_of(g, id) + lines, now)),
        forall|other: Seq<char>| other != id ==> lookup(inserted(g, id, lines, now), other) == lookup(g, other),
        distinct_ids(inserted(g, id, lines, now)),
{
    let h = inserted(g, id, lines, now);
    lemma_inserted_distinct(g, id, lines, now);
    match position_of(g, id) {
        Some(i) => {
            lemma_position_unique(h, id, i);
        },
        None => {
            assert(lines_of(g, id) + lines =~= lines);
            lemma_position_unique(h, id, g.len() as int);
        },
    }
    assert forall|other: Seq<char>| other != id implies lookup(h, other) == lookup(g, other) by {
        match position_of(g, other) {
            Some(j) => {
                lemma_position_unique(h, other, j);
            },
            None => {
                assert forall|k: int| 0 <= k < h.len() implies h[k].id != other by {
                    if k < g.len() {
                        if h[k].id == other {
                            assert(g[k].id == other || k == position_of(g, id)->0);
                        }
                    }
                }
                lemma_position_none(h, other);
            },
        }
    }
}

/// Two arrivals for one event are gathered in the order they arrived.
pub proof fn law_insert_accumulates(
    g: Seq<GroupRecord>,
    id: Seq<char>,
    first: Seq<Seq<char>>,
    t1: u64,
    second: Seq<Seq<char>>,
    t2: u64,
)
    requires
        distinct_ids(g),
    ensures
        lookup(inserted(inserted(g, id, first, t1), id, second, t2), id) == Some(
            (lines_of(g, id) + first + second, t2),
        ),
{
    law_insert_appends(g, id, first, t1);
    law_insert_appends(inserted(g, id, first, t1), id, second, t2);
}

/// What a sweep at `now` leaves of the entry of an event.
pub open spec fn kept_entry(e: Option<(Seq<Seq<char>>, u64)>, now: u64) -> Option<(Seq<Seq<char>>, u64)> {
    match e {
        Some((lines, t)) => if now as int - t as int >= STALE_AFTER_NANOS as int {
            None
        } else {
            Some((lines, t))
        },
        None => None,
    }
}

/// What a sweep at `now` takes out of the entry of an event.
pub open spec fn taken_entry(e: Option<(Seq<Seq<char>>, u64)>, now: u64) -> Option<(Seq<Seq<char>>, u64)> {
    match e {
        Some((lines, t)) => if now as int - t as int >= STALE_AFTER_NANOS as int {
            Some((lines, t))
        } else {
            None
        },
        None => None,
    }
}

/// The entry of `id` in a part, from the entry in `g`.
proof fn lemma_part_lookup(g: Seq<GroupRecord>, now: u64, stale: bool, id: Seq<char>)
    requires
        distinct_ids(g),
    ensures
        lookup(part(g, now, stale), id) == (match lookup(g, id) {
            Some((lines, t)) => if (now as int - t as int >= STALE_AFTER_NANOS as int) == stale {
                Some((lines, t))
            } else {
                None
            },
            None => None,
        }),
{
    let f = part(g, now, stale);
    lemma_part_members(g, now, stale);
    lemma_part_complete(g, now, stale);
    lemma_part_distinct(g, now, stale);
    if exists|j: int| 0 <= j < g.len() && g[j].id == id {
        let j = choose|j: int| 0 <= j < g.len() && g[j].id == id;
        lemma_lookup_at(g, j);
        if is_stale(g[j], now) == stale {
            let k = choose|k: int| 0 <= k < f.len() && f[k] == g[j];
            lemma_lookup_at(f, k);
        } else {
            assert forall|k: int| 0 <= k < f.len() implies f[k].id != id by {
                let a = choose|a: int| 0 <= a < g.len() && f[k] == g[a];
                assert(is_stale(f[k], now) == stale);
            }
            lemma_position_none(f, id);
        }
    } else {
        lemma_position_none(g, id);
        assert forall|k: int| 0 <= k < f.len() implies f[k].id != id by {
            let a = choose|a: int| 0 <= a < g.len() && f[k] == g[a];
        }
        lemma_position_none(f, id);
    }
}

/// A sweep at `now` splits the events exactly by staleness: an event idle
/// for `STALE_AFTER_NANOS` or more is taken out with its lines, every other
/// event stays as it was, and no event is lost or made up.
pub proof fn law_take_stale_partitions(g: Seq<GroupRecord>, now: u64)
    requires
        distinct_ids(g),
    ensures
        forall|id: Seq<char>| #[trigger] lookup(fresh_part(g, now), id) == kept_entry(lookup(g, id), now),
        forall|id: Seq<char>| #[trigger] lookup(stale_part(g, now), id) == taken_entry(lookup(g, id), now),
        fresh_part(g, now).len() + stale_part(g, now).len() == g.len(),
        distinct_ids(fresh_part(g, now)),
        distinct_ids(stale_part(g, now)),
{
    lemma_part_lengths(g, now);
    lemma_part_distinct(g, now, false);
    lemma_part_distinct(g, now, true);
    assert forall|id: Seq<char>| #[trigger] lookup(fresh_part(g, now), id) == kept_entry(lookup(g, id), now) by {
        lemma_part_lookup(g, now, false, id);
    }
    assert forall|id: Seq<char>| #[trigger] lookup(stale_part(g, now), id) == taken_entry(lookup(g, id), now) by {
        lemma_part_lookup(g, now, true, id);
    }
}


/// An event stays open while lines keep coming within `STALE_AFTER_NANOS`:
/// a sweep before that leaves its lines in place, a sweep at or after that
/// takes them out, all of them.
pub proof fn law_event_closes_after_idle_time(
    g: Seq<GroupRecord>,
    id: Seq<char>,
    lines: Seq<Seq<char>>,
    arrival: u64,
    now: u64,
)
    requires
        distinct_ids(g),
    ensures
        (now as int - arrival as int) < (STALE_AFTER_NANOS as int) ==> lookup(fresh_part(inserted(g, id, lines, arrival), now), id)
            == Some((lines_of(g, id) + lines, arrival)) && lookup(stale_part(inserted(g, id, lines, arrival), now), id) is None,
        now as int - arrival as int >= STALE_AFTER_NANOS as int ==> lookup(fresh_part(inserted(g, id, lines, arrival), now), id) is None
            && lookup(stale_part(inserted(g, id, lines, arrival), now), id) == Some((lines_of(g, id) + lines, arrival)),
{
    law_insert_appends(g, id, lines, arrival);
    law_take_stale_partitions(inserted(g, id, lines, arrival), now);
}


/// When the last line of `id` arrived.
pub open spec fn last_arrival(g: Seq<GroupRecord>, id: Seq<char>) -> u64 {
    match lookup(g, id) {
        Some((_, t)) => t,
        None => 0,
    }
}

/// Sweeps at the times `times`, one after the other, with no line arriving in
/// between: what stays, and what each sweep takes out.
pub open spec fn sweeps(g: Seq<GroupRecord>, times: Seq<u64>) -> (Seq<GroupRecord>, Seq<Seq<GroupRecord>>)
    decreases times.len(),
{
    if times.len() == 0 {
        (g, seq![])
    } else {
        let (rest, taken) = sweeps(g, times.drop_last());
        (fresh_part(rest, times.last()), taken.push(stale_part(rest, times.last())))
    }
}

/// The event idle since `t` is complete at the `j`-th sweep and not before.
pub open spec fn first_complete_sweep(times: Seq<u64>, t: u64, j: int) -> bool {
    &&& 0 <= j < times.len()
    &&& times[j] as int - t as int >= STALE_AFTER_NANOS as int
    &&& forall|i: int| 0 <= i < j ==> (times[i] as int - t as int) < (STALE_AFTER_NANOS as int)
}

/// An event whose last line came at `t` is taken out, with all its lines, by
/// exactly one sweep: the first one at or after `t` plus `STALE_AFTER_NANOS`;
/// it stays as long as no sweep comes that late.
pub proof fn law_sweeps_take_event_once(g: Seq<GroupRecord>, id: Seq<char>, times: Seq<u64>)
    requires
        distinct_ids(g),
        lookup(g, id) is Some,
    ensures
        distinct_ids(sweeps(g, times).0),
        sweeps(g, times).1.len() == times.len(),
        forall|j: int| 0 <= j < times.len() ==> #[trigger] lookup(sweeps(g, times).1[j], id) == if first_complete_sweep(times, last_arrival(g, id), j) {
            lookup(g, id)
        } else {
            None
        },
        lookup(sweeps(g, times).0, id) == if exists|j: int| first_complete_sweep(times, last_arrival(g, id), j) {
            None
        } else {
            lookup(g, id)
        },
    decreases times.len(),
{
    let t = last_arrival(g, id);
    if times.len() > 0 {
        let d = times.drop_last();
        let n = times.len() - 1;
        law_sweeps_take_event_once(g, id, d);
        let (rest, taken) = sweeps(g, d);
        law_take_stale_partitions(rest, times.last());
        let all = sweeps(g, times).1;
        assert forall|j: int| 0 <= j < times.len() implies #[trigger] lookup(all[j], id) == if first_complete_sweep(times, t, j) {
            lookup(g, id)
        } else {
            None
        } by {
            if j < n {
                assert(all[j] == taken[j]);
                lemma_first_complete_prefix(times, t, j);
            } else {
                if exists|k: int| first_complete_sweep(d, t, k) {
                    let k = choose|k: int| first_complete_sweep(d, t, k);
                    assert(!first_complete_sweep(times, t, j));
                } else {
                    assert forall|i: int| 0 <= i < j implies (times[i] as int - t as int) < (STALE_AFTER_NANOS as int) by {
                        if !((times[i] as int - t as int) < (STALE_AFTER_NANOS as int)) {
                            assert(d[i] == times[i]);
                            assert forall|i2: int| 0 <= i2 < i implies (d[i2] as int - t as int) < (STALE_AFTER_NANOS as int) by {
                                if !((d[i2] as int - t as int) < (STALE_AFTER_NANOS as int)) {
                                    // the earliest late sweep of `d` would be a first complete sweep
                                    lemma_first_late_exists(d, t, i2);
                                }
                            }
                            assert(first_complete_sweep(d, t, i));
                        }
                    }
                }
            }
        }
        let rem = sweeps(g, times).0;
        assert(rem == fresh_part(rest, times.last()));
        assert(lookup(rem, id) == kept_entry(lookup(rest, id), times.last()));
        if exists|k: int| first_complete_sweep(d, t, k) {
            let k = choose|k: int| first_complete_sweep(d, t, k);
            lemma_first_complete_prefix(times, t, k);
            assert(lookup(rest, id) is None);
        } else {
            assert(lookup(rest, id) == lookup(g, id));
            if exists|k: int| first_complete_sweep(times, t, k) {
                let k = choose|k: int| first_complete_sweep(times, t, k);
                if k < n {
                    lemma_first_complete_prefix(times, t, k);
                }
                assert(times[n] as int - t as int >= STALE_AFTER_NANOS as int);
            } else {
                if times[n] as int - t as int >= STALE_AFTER_NANOS as int {
                    lemma_first_late_exists(times, t, n);
                }
            }
        }
    }
}

proof fn lemma_first_complete_prefix(times: Seq<u64>, t: u64, j: int)
    requires
        0 <= j < times.len() - 1,
    ensures
        first_complete_sweep(times, t, j) == first_complete_sweep(times.drop_last(), t, j),
{
    let d = times.drop_last();
    assert forall|i: int| 0 <= i <= j implies d[i] == times[i] by {}
    if first_complete_sweep(d, t, j) {
        assert forall|i: int| 0 <= i < j implies (times[i] as int - t as int) < (STALE_AFTER_NANOS as int) by {
            assert(d[i] == times[i]);
        }
    }
    if first_complete_sweep(times, t, j) {
        assert forall|i: int| 0 <= i < j implies (d[i] as int - t as int) < (STALE_AFTER_NANOS as int) by {
            assert(d[i] == times[i]);
        }
    }
}

/// If some sweep is late for `t`, there is a first late one.
proof fn lemma_first_late_exists(times: Seq<u64>, t: u64, j: int)
    requires
        0 <= j < times.len(),
        times[j] as int - t as int >= STALE_AFTER_NANOS as int,
    ensures
        exists|k: int| first_complete_sweep(times, t, k),
    decreases j,
{
    if forall|i: int| 0 <= i < j ==> (times[i] as int - t as int) < (STALE_AFTER_NANOS as int) {
        assert(first_complete_sweep(times, t, j));
    } else {
        let i = choose|i: int| 0 <= i < j && !((times[i] as int - t as int) < (STALE_AFTER_NANOS as int));
        lemma_first_late_exists(times, t, i);
    }
}

/// With sweeps every `SWEEP_INTERVAL_NANOS` at most, an event idle since `t`
/// is taken out before `t + STALE_AFTER_NANOS + SWEEP_INTERVAL_NANOS`, once a
/// sweep has come that late.
pub proof fn law_complete_within_one_interval(times: Seq<u64>, t: u64, late: int)
    requires
        times.len() > 0,
        (times[0] as int) < t as int + STALE_AFTER_NANOS as int + SWEEP_INTERVAL_NANOS as int,
        forall|i: int, j: int|
            0 <= i && j == i + 1 && j < times.len() ==> #[trigger] times[j] as int - #[trigger] times[i] as int
                <= SWEEP_INTERVAL_NANOS as int,
        0 <= late < times.len(),
        times[late] as int - t as int >= STALE_AFTER_NANOS as int,
    ensures
        exists|k: int| first_complete_sweep(times, t, k) && (times[k] as int) < t as int + STALE_AFTER_NANOS as int
            + SWEEP_INTERVAL_NANOS as int,
{
    lemma_first_late_exists(times, t, late);
    let k = choose|k: int| first_complete_sweep(times, t, k);
    if k > 0 {
        assert(times[k] as int - times[k - 1] as int <= SWEEP_INTERVAL_NANOS as int);
    }
}

} // verus!
