use std::collections::HashMap;
use vstd::prelude::*;

verus! {

broadcast use vstd::std_specs::hash::group_hash_axioms;

/// One entry of the history log: the up script (`up`) or the down script of
/// the migration `id` was executed.
#[derive(Clone, Copy, Debug, PartialEq, Eq, Structural)]
pub struct HistoryEvent {
    pub id: u64,
    pub up: bool,
}

/// The net state of the migration `id` after `events`: the number of times
/// it was migrated up less the number of times it was migrated down.
pub open spec fn net_state(events: Seq<HistoryEvent>, id: u64) -> int {
    events.filter(|e: HistoryEvent| e.id == id && e.up).len() - events.filter(
        |e: HistoryEvent| e.id == id && !e.up,
    ).len()
}

/// A migration can be applied where its net state is 0, and rolled back
/// where it is 1. With any other net state it can be neither.
pub open spec fn is_eligible(net: int, up: bool) -> bool {
    if up {
        net == 0
    } else {
        net == 1
    }
}

/// What one event adds to the net state of the migration `id`.
pub open spec fn weight(event: HistoryEvent, id: u64) -> int {
    if event.id != id {
        0
    } else if event.up {
        1
    } else {
        -1
    }
}

/// The ids that `events` speaks of.
pub open spec fn recorded_ids(events: Seq<HistoryEvent>) -> Set<u64> {
    Set::new(|id: u64| exists|i: int| 0 <= i < events.len() && #[trigger] events[i].id == id)
}

/// One more event changes the net state of its own migration by one, and no
/// other.
pub proof fn lemma_net_state_push(events: Seq<HistoryEvent>, event: HistoryEvent, id: u64)
    ensures
        net_state(events.push(event), id) == net_state(events, id) + weight(event, id),
{
    events.lemma_filter_push(event, |e: HistoryEvent| e.id == id && e.up);
    events.lemma_filter_push(event, |e: HistoryEvent| e.id == id && !e.up);
}

/// A net state lies between the number of events, negated, and that number.
pub proof fn lemma_net_state_bounds(events: Seq<HistoryEvent>, id: u64)
    ensures
        -events.len() <= net_state(events, id) <= events.len(),
        !recorded_ids(events).contains(id) ==> net_state(events, id) == 0,
    decreases events.len(),
{
    if events.len() > 0 {
        let before = events.drop_last();
        lemma_net_state_bounds(before, id);
        lemma_net_state_push(before, events.last(), id);
        assert(before.push(events.last()) =~= events);
        if !recorded_ids(events).contains(id) {
            assert(events[events.len() - 1].id != id);
            assert forall|i: int| 0 <= i < before.len() implies #[trigger] before[i].id != id by {
                assert(events[i].id != id);
            }
        }
    }
}

/// Replaying one log and then another gives each migration the net state
/// that a single pass over the two logs, joined, gives it.
pub proof fn lemma_net_state_concat(first: Seq<HistoryEvent>, second: Seq<HistoryEvent>, id: u64)
    ensures
        net_state(first + second, id) == net_state(first, id) + net_state(second, id),
    decreases second.len(),
{
    if second.len() == 0 {
        assert(first + second =~= first);
    } else {
        let before = second.drop_last();
        lemma_net_state_concat(first, before, id);
        lemma_net_state_push(first + before, second.last(), id);
        lemma_net_state_push(before, second.last(), id);
        assert((first + before).push(second.last()) =~= first + second);
        assert(before.push(second.last()) =~= second);
    }
}

/// Replaying a log twice gives each migration twice the net state of one
/// pass, which is also what a single pass over the log joined to itself
/// gives.
pub proof fn lemma_replay_twice(events: Seq<HistoryEvent>, id: u64)
    ensures
        net_state(events + events, id) == 2 * net_state(events, id),
{
    lemma_net_state_concat(events, events, id);
}

/// The net state counts the events and does not look at their order: two
/// logs joined either way round give the same net state.
pub proof fn lemma_net_state_commutes(first: Seq<HistoryEvent>, second: Seq<HistoryEvent>, id: u64)
    ensures
        net_state(first + second, id) == net_state(second + first, id),
{
    lemma_net_state_concat(first, second, id);
    lemma_net_state_concat(second, first, id);
}

/// A migration that is applied and then rolled back is where it was: one up
/// event and one down event of the same migration leave every net state
/// unchanged. A migration that could be applied before can be applied again,
/// and can be rolled back in between.
pub proof fn lemma_round_trip(events: Seq<HistoryEvent>, migration: u64, id: u64)
    ensures
        net_state(
            events.push(HistoryEvent { id: migration, up: true }).push(
                HistoryEvent { id: migration, up: false },
            ),
            id,
        ) == net_state(events, id),
        is_eligible(net_state(events, migration), true) ==> is_eligible(
            net_state(events.push(HistoryEvent { id: migration, up: true }), migration),
            false,
        ) && is_eligible(
            net_state(
                events.push(HistoryEvent { id: migration, up: true }).push(
                    HistoryEvent { id: migration, up: false },
                ),
                migration,
            ),
            true,
        ),
{
    let up = HistoryEvent { id: migration, up: true };
    let down = HistoryEvent { id: migration, up: false };
    lemma_net_state_push(events, up, id);
    lemma_net_state_push(events.push(up), down, id);
    lemma_net_state_push(events, up, migration);
    lemma_net_state_push(events.push(up), down, migration);
}

/// The net state that `states` holds for the migration `id`: 0 where they
/// hold none.
pub open spec fn net_of(states: Map<u64, int>, id: u64) -> int {
    if states.contains_key(id) {
        states[id]
    } else {
        0
    }
}

/// The net states that the log `events` gives: one for each migration that
/// it speaks of.
pub open spec fn states_of(events: Seq<HistoryEvent>) -> Map<u64, int> {
    Map::new(|id: u64| recorded_ids(events).contains(id), |id: u64| net_state(events, id))
}

/// The net states of a log hold the net state of every migration: they hold
/// none only for a migration whose net state is 0.
pub proof fn lemma_states_of(events: Seq<HistoryEvent>, id: u64)
    ensures
        net_of(states_of(events), id) == net_state(events, id),
{
    lemma_net_state_bounds(events, id);
}

/// The net state of every migration, as the history log gives it.
pub struct History {
    counts: HashMap<u64, i128>,
}

impl View for History {
    type V = Map<u64, int>;

    /// The net states that are held: one for each migration that the log
    /// speaks of.
    closed spec fn view(&self) -> Map<u64, int> {
        Map::new(|id: u64| self.counts@.contains_key(id), |id: u64| self.counts@[id] as int)
    }
}

impl History {
    /// The net state of the migration `id`: 0 where the log does not speak
    /// of it.
    pub open spec fn net_state(&self, id: u64) -> int {
        net_of(self@, id)
    }

    /// The history of a store that holds no log.
    pub fn new() -> (h: Self)
        ensures
            h@ == Map::<u64, int>::empty(),
    {
        let h = History { counts: HashMap::new() };
        assert(h@ =~= Map::<u64, int>::empty());
        h
    }

    /// The net state of the migration `id`.
    pub fn get(&self, id: u64) -> (n: i128)
        ensures
            n == self.net_state(id),
    {
        match self.counts.get(&id) {
            Some(n) => *n,
            None => 0,
        }
    }

    /// The number of migrations that the log speaks of.
    pub fn len(&self) -> (n: usize)
        ensures
            n == self@.dom().len(),
    {
        assert(self@.dom() =~= self.counts@.dom());
        self.counts.len()
    }
}

/// Folds the history log into the net state of each migration.
pub fn reconcile(events: &Vec<HistoryEvent>) -> (h: History)
    ensures
        h@ == states_of(events@),
        forall|id: u64| h.net_state(id) == net_state(events@, id),
{
    let mut counts: HashMap<u64, i128> = HashMap::new();
    let mut i: usize = 0;
    assert(counts@.dom() =~= recorded_ids(events@.take(0)));
    while i < events.len()
        invariant
            i <= events.len(),
            counts@.dom() == recorded_ids(events@.take(i as int)),
            forall|id: u64| #[trigger]
                counts@.contains_key(id) ==> counts@[id] == net_state(events@.take(i as int), id),
        decreases events.len() - i,
    {
        let event = events[i];
        let ghost seen = events@.take(i as int);
        let ghost next = events@.take(i + 1);
        proof {
            assert(seen.push(event) =~= next);
            lemma_net_state_bounds(seen, event.id);
            lemma_net_state_bounds(next, event.id);
            assert forall|id: u64| net_state(next, id) == net_state(seen, id) + weight(event, id) by {
                lemma_net_state_push(seen, event, id);
            }
        }
        let old_count: i128 = match counts.get(&event.id) {
            Some(n) => *n,
            None => 0,
        };
        let new_count: i128 = if event.up {
            old_count + 1
        } else {
            old_count - 1
        };
        counts.insert(event.id, new_count);
        proof {
            assert(next[i as int].id == event.id);
            assert forall|id: u64| recorded_ids(next).contains(id) implies recorded_ids(
                seen,
            ).contains(id) || id == event.id by {
                let k = choose|k: int| 0 <= k < next.len() && #[trigger] next[k].id == id;
                if k < i {
                    assert(seen[k].id == id);
                }
            }
            assert forall|id: u64| recorded_ids(seen).contains(id) implies recorded_ids(
                next,
            ).contains(id) by {
                let k = choose|k: int| 0 <= k < seen.len() && #[trigger] seen[k].id == id;
                assert(next[k].id == id);
            }
            assert(counts@.dom() =~= recorded_ids(next));
        }
        i = i + 1;
    }
    let h = History { counts };
    proof {
        assert(events@.take(i as int) =~= events@);
        assert(h@ =~= states_of(events@));
        assert forall|id: u64| h.net_state(id) == net_state(events@, id) by {
            lemma_states_of(events@, id);
        }
    }
    h
}

} // verus!
