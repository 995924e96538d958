use crate::error::Error;
use crate::history::{
    is_eligible, lemma_net_state_push, net_state, reconcile, states_of, History, HistoryEvent,
};
use crate::parser::{reports, texts};
use crate::selector::{
    filter_migrations, has_distinct_ids, selection, views, Candidate, CandidateView, MigrationDir,
};
use crate::store::{Asked, Journaled, MigrationRow, Request, Store};
use vstd::prelude::*;

verus! {

/// The number of candidates that a run executes: all that are available, or
/// at most `n` of them.
pub open spec fn execute_count(available: nat, n: Option<usize>) -> nat {
    match n {
        Some(limit) => if limit < available {
            limit as nat
        } else {
            available
        },
        None => available,
    }
}

/// Whether a run records what it executes in the history table. A run that
/// migrates up always does. A run that migrates down does so unless it rolls
/// back every candidate: the rollback of everything takes the history table
/// away with it.
pub open spec fn records_history(available: nat, up: bool, n: Option<usize>) -> bool {
    up || execute_count(available, n) != available
}

/// The requests that executing one migration makes: its statements in their
/// order and then, where the run records history, the row for the history
/// table.
pub open spec fn migration_requests(
    id: u64,
    statements: Seq<Seq<char>>,
    up: bool,
    record: bool,
) -> Seq<Request> {
    let executes = statements.map_values(|q: Seq<char>| Request::Execute(q));
    if record {
        executes.push(Request::Record(id, up))
    } else {
        executes
    }
}

/// The requests that executing `candidates`, one after the other, makes.
pub open spec fn requests_of(candidates: Seq<CandidateView>, up: bool, record: bool) -> Seq<
    Request,
>
    decreases candidates.len(),
{
    if candidates.len() == 0 {
        Seq::empty()
    } else {
        requests_of(candidates.drop_last(), up, record) + migration_requests(
            candidates.last().id,
            candidates.last().statements,
            up,
            record,
        )
    }
}

/// The requests that a run over `candidates` makes where the store refuses
/// none of them.
pub open spec fn run_plan(candidates: Seq<CandidateView>, up: bool, n: Option<usize>) -> Seq<
    Request,
> {
    requests_of(
        candidates.take(execute_count(candidates.len(), n) as int),
        up,
        records_history(candidates.len(), up, n),
    )
}

/// The id that a run over `candidates` reports: that of the last migration
/// that it executes, and none where it executes none.
pub open spec fn last_executed(candidates: Seq<CandidateView>, n: Option<usize>) -> Option<u64> {
    let count = execute_count(candidates.len(), n);
    if count == 0 {
        None
    } else {
        Some(candidates[count - 1].id)
    }
}

/// The answers to `count` requests that were all carried out.
pub open spec fn all_done(count: nat) -> Seq<bool> {
    Seq::new(count, |i: int| true)
}

/// Tells whether `error` is an answer that the store gives to `request`: it
/// is an error of the store's own `exec` for that statement, or of its own
/// `add` for that row.
pub open spec fn refusal<S: Store>(store: S, request: Request, error: S::Error) -> bool {
    match request {
        Request::Execute(text) => exists|q: &str|
            q@ == text && #[trigger] call_ensures(
                S::exec,
                (&store, q),
                Err::<(), S::Error>(error),
            ),
        Request::Record(id, up) => call_ensures(
            S::add,
            (&store, id, up),
            Err::<(), S::Error>(error),
        ),
    }
}

/// All the requests of `plan` were made, in their order, and the store
/// carried out each.
pub open spec fn completed(before: Asked, after: Asked, plan: Seq<Request>) -> bool {
    &&& after.requests == before.requests + plan
    &&& after.answers == before.answers + all_done(plan.len())
}

/// The first `k` requests of `plan` were made, in their order, and no
/// other. The store carried out all but the last of them, which it refused
/// with `error`.
pub open spec fn stopped_at<S: Store>(
    store: S,
    before: Asked,
    after: Asked,
    plan: Seq<Request>,
    k: int,
    error: S::Error,
) -> bool {
    &&& 0 < k <= plan.len()
    &&& after.requests == before.requests + plan.take(k)
    &&& after.answers == before.answers + all_done((k - 1) as nat).push(false)
    &&& refusal(store, plan[k - 1], error)
}

/// What executing `plan` leaves. Success is returned where the store
/// carried out all of its requests. Where the store refused one, no request
/// was made after it, and the error returned is the one with which the store
/// refused it.
pub open spec fn carried_out<S: Store, T>(
    store: S,
    before: Asked,
    after: Asked,
    plan: Seq<Request>,
    r: Result<T, Error<S::Error>>,
) -> bool {
    match r {
        Ok(_) => completed(before, after, plan),
        Err(e) => e is Store && exists|k: int| #[trigger]
            stopped_at(store, before, after, plan, k, e->Store_0),
    }
}

/// What a run in the direction `up` over the directories `dirs` leaves
/// where the history table gave the net states `states`. A failure of the
/// selection is returned with no request made. Else the run executes its
/// plan and reports the last migration that it executed.
pub open spec fn run_outcome<S: Store>(
    store: S,
    dirs: Seq<MigrationDir>,
    states: Map<u64, int>,
    up: bool,
    n: Option<usize>,
    before: Asked,
    after: Asked,
    r: Result<Option<u64>, Error<S::Error>>,
) -> bool {
    match selection(dirs, states, up) {
        Err(f) => r matches Err(e) && reports(e, f) && after == before,
        Ok(chosen) => carried_out(store, before, after, run_plan(chosen, up, n), r) && (
        r matches Ok(id) ==> id == last_executed(chosen, n)),
    }
}

/// Tells whether `events` are what `rows` say: each event holds the id and
/// the direction that the row in its place gives through its own `id` and
/// `is_up`.
pub open spec fn events_of_rows<S: Store>(rows: Seq<S::Row>, events: Seq<HistoryEvent>) -> bool {
    &&& events.len() == rows.len()
    &&& forall|i: int|
        0 <= i < rows.len() ==> call_ensures(
            <S::Row as MigrationRow>::id,
            (&rows[i],),
            (#[trigger] events[i]).id,
        ) && call_ensures(<S::Row as MigrationRow>::is_up, (&rows[i],), events[i].up)
}

/// Tells whether `states` are the net states that the history table gives:
/// none where the store has no history, else those of the log that its
/// rows hold.
pub open spec fn states_given<S: Store>(given: Option<Vec<S::Row>>, states: Map<u64, int>) -> bool {
    match given {
        None => states == Map::<u64, int>::empty(),
        Some(rows) => exists|events: Seq<HistoryEvent>| #[trigger]
            events_of_rows::<S>(rows@, events) && states == states_of(events),
    }
}

/// What reading the history leaves where the store's `get_all` answered
/// `rows`: its error, or the net states that its rows give.
pub open spec fn history_read<S: Store>(
    rows: Result<Option<Vec<S::Row>>, S::Error>,
    r: Result<History, Error<S::Error>>,
) -> bool {
    match rows {
        Err(e) => r == Err::<History, Error<S::Error>>(Error::Store(e)),
        Ok(given) => r matches Ok(h) && states_given::<S>(given, h@),
    }
}

/// What a run leaves that reads the history table itself. The store's
/// `get_all` is asked first. Its error is the error of the run, and nothing
/// else is asked of the store. Else the run goes on from the net states that
/// its rows give.
pub open spec fn migrated<S: Store>(
    store: S,
    dirs: Seq<MigrationDir>,
    up: bool,
    n: Option<usize>,
    before: Asked,
    after: Asked,
    r: Result<Option<u64>, Error<S::Error>>,
) -> bool {
    exists|rows: Result<Option<Vec<S::Row>>, S::Error>| #[trigger]
        call_ensures(S::get_all, (&store,), rows) && match rows {
            Err(e) => r == Err::<Option<u64>, Error<S::Error>>(Error::Store(e)) && after
                == before,
            Ok(given) => exists|states: Map<u64, int>|
                states_given::<S>(given, states) && #[trigger] run_outcome(
                    store,
                    dirs,
                    states,
                    up,
                    n,
                    before,
                    after,
                    r,
                ),
        }
}

/// What a redo leaves: a run that rolls back at most one migration and,
/// where it rolled one back, a run that applies at most one. An error of
/// either run is the error of the redo, which also tells whether a
/// migration was rolled back before; no run follows a failed one.
pub open spec fn redone<S: Store>(
    store: S,
    dirs: Seq<MigrationDir>,
    before: Asked,
    after: Asked,
    r: Result<Redo, RedoError<S::Error>>,
) -> bool {
    exists|between: Asked, down: Result<Option<u64>, Error<S::Error>>|
        #[trigger] migrated(store, dirs, false, Some(1usize), before, between, down)
            && match down {
            Err(e) => r == Err::<Redo, RedoError<S::Error>>(
                RedoError { rolled_back: None, error: e },
            ) && after == between,
            Ok(None) => r == Ok::<Redo, RedoError<S::Error>>(Redo::Nothing) && after == between,
            Ok(Some(rolled_back)) => exists|up: Result<Option<u64>, Error<S::Error>>|
                #[trigger] migrated(store, dirs, true, Some(1usize), between, after, up)
                    && match up {
                    Err(e) => r == Err::<Redo, RedoError<S::Error>>(
                        RedoError { rolled_back: Some(rolled_back), error: e },
                    ),
                    Ok(None) => r == Ok::<Redo, RedoError<S::Error>>(
                        Redo::RolledBack { down: rolled_back },
                    ),
                    Ok(Some(applied)) => r == Ok::<Redo, RedoError<S::Error>>(
                        Redo::Redone { down: rolled_back, up: applied },
                    ),
                },
        }
}

/// The requests for the first candidates are the beginning of the requests
/// for more of them.
pub proof fn lemma_requests_prefix(
    candidates: Seq<CandidateView>,
    up: bool,
    record: bool,
    i: int,
    m: int,
)
    requires
        0 <= i <= m <= candidates.len(),
    ensures
        requests_of(candidates.take(i), up, record).len() <= requests_of(
            candidates.take(m),
            up,
            record,
        ).len(),
        requests_of(candidates.take(m), up, record).take(
            requests_of(candidates.take(i), up, record).len() as int,
        ) == requests_of(candidates.take(i), up, record),
    decreases m - i,
{
    let short = requests_of(candidates.take(i), up, record);
    if i == m {
        assert(short.take(short.len() as int) =~= short);
    } else {
        lemma_requests_prefix(candidates, up, record, i, m - 1);
        assert(candidates.take(m).drop_last() =~= candidates.take(m - 1));
        let middle = requests_of(candidates.take(m - 1), up, record);
        let long = requests_of(candidates.take(m), up, record);
        assert(long.take(short.len() as int) =~= middle.take(short.len() as int));
    }
}

/// A run that may execute no migration asks nothing of the store and
/// reports none, whatever is pending: it cannot fail but in its selection.
pub proof fn lemma_zero_count_executes_nothing<S: Store>(
    store: S,
    dirs: Seq<MigrationDir>,
    states: Map<u64, int>,
    up: bool,
    before: Asked,
    after: Asked,
    r: Result<Option<u64>, Error<S::Error>>,
)
    requires
        run_outcome(store, dirs, states, up, Some(0usize), before, after, r),
        selection(dirs, states, up) is Ok,
    ensures
        r == Ok::<Option<u64>, Error<S::Error>>(None),
        after == before,
{
    let chosen = selection(dirs, states, up)->Ok_0;
    assert(chosen.take(0) =~= Seq::<CandidateView>::empty());
    assert(run_plan(chosen, up, Some(0usize)) =~= Seq::<Request>::empty());
    assert(before.requests + Seq::<Request>::empty() =~= before.requests);
    assert(before.answers + all_done(0) =~= before.answers);
}

/// Tells whether `store` refuses no request: every answer of its `exec`
/// and of its `add` is a success.
pub open spec fn never_refuses<S: Store>(store: S) -> bool {
    &&& forall|q: &str, done: Result<(), S::Error>| #[trigger]
        call_ensures(S::exec, (&store, q), done) ==> done is Ok
    &&& forall|id: u64, up: bool, done: Result<(), S::Error>| #[trigger]
        call_ensures(S::add, (&store, id, up), done) ==> done is Ok
}

/// With a store that refuses nothing a plan is executed to its end: success
/// is returned, and every request of the plan was made and carried out.
pub proof fn lemma_nothing_refused<S: Store, T>(
    store: S,
    before: Asked,
    after: Asked,
    plan: Seq<Request>,
    r: Result<T, Error<S::Error>>,
)
    requires
        carried_out(store, before, after, plan, r),
        never_refuses(store),
    ensures
        r is Ok,
        completed(before, after, plan),
{
    if r is Err {
        let error = r->Err_0->Store_0;
        let k = choose|k: int| #[trigger] stopped_at(store, before, after, plan, k, error);
        assert(refusal(store, plan[k - 1], error));
    }
}

/// A run that reads the history table itself is the run from the net states
/// that the table gives: where the store's `get_all` does not fail and its
/// rows can give no other net states than `states`, the run leaves what the
/// run from `states` leaves.
pub proof fn lemma_run_on_known_history<S: Store>(
    store: S,
    dirs: Seq<MigrationDir>,
    states: Map<u64, int>,
    up: bool,
    n: Option<usize>,
    before: Asked,
    after: Asked,
    r: Result<Option<u64>, Error<S::Error>>,
)
    requires
        migrated(store, dirs, up, n, before, after, r),
        forall|rows: Result<Option<Vec<S::Row>>, S::Error>| #[trigger]
            call_ensures(S::get_all, (&store,), rows) ==> rows is Ok,
        forall|rows: Result<Option<Vec<S::Row>>, S::Error>, given: Map<u64, int>|
            call_ensures(S::get_all, (&store,), rows) && rows is Ok && #[trigger] states_given::<S>(
                rows->Ok_0,
                given,
            ) ==> given == states,
    ensures
        run_outcome(store, dirs, states, up, n, before, after, r),
{
    let rows = choose|rows: Result<Option<Vec<S::Row>>, S::Error>| #[trigger]
        call_ensures(S::get_all, (&store,), rows) && match rows {
            Err(e) => r == Err::<Option<u64>, Error<S::Error>>(Error::Store(e)) && after
                == before,
            Ok(given) => exists|states: Map<u64, int>|
                states_given::<S>(given, states) && #[trigger] run_outcome(
                    store,
                    dirs,
                    states,
                    up,
                    n,
                    before,
                    after,
                    r,
                ),
        };
    let given = choose|given: Map<u64, int>|
        states_given::<S>(rows->Ok_0, given) && #[trigger] run_outcome(
            store,
            dirs,
            given,
            up,
            n,
            before,
            after,
            r,
        );
    assert(given == states);
}

/// With a store that has no history a run is the run from the empty
/// history: every migration counts as not applied.
pub proof fn lemma_run_without_history<S: Store>(
    store: S,
    dirs: Seq<MigrationDir>,
    up: bool,
    n: Option<usize>,
    before: Asked,
    after: Asked,
    r: Result<Option<u64>, Error<S::Error>>,
)
    requires
        migrated(store, dirs, up, n, before, after, r),
        forall|rows: Result<Option<Vec<S::Row>>, S::Error>| #[trigger]
            call_ensures(S::get_all, (&store,), rows) ==> rows == Ok::<
                Option<Vec<S::Row>>,
                S::Error,
            >(None),
    ensures
        run_outcome(store, dirs, Map::<u64, int>::empty(), up, n, before, after, r),
{
    lemma_run_on_known_history(store, dirs, Map::<u64, int>::empty(), up, n, before, after, r);
}

/// The rows that `plan` asks to add to the history table, in their order.
pub open spec fn rows_of(plan: Seq<Request>) -> Seq<HistoryEvent>
    decreases plan.len(),
{
    if plan.len() == 0 {
        Seq::empty()
    } else {
        match plan.last() {
            Request::Record(id, up) => rows_of(plan.drop_last()).push(HistoryEvent { id, up }),
            Request::Execute(_) => rows_of(plan.drop_last()),
        }
    }
}

/// The rows for the history table that executing `candidates` in the
/// direction `up` asks for where history is recorded: one for each.
pub open spec fn rows_for(candidates: Seq<CandidateView>, up: bool) -> Seq<HistoryEvent> {
    candidates.map_values(|c: CandidateView| HistoryEvent { id: c.id, up })
}

/// The rows of two plans, one after the other, are the rows of the first
/// and then those of the second.
pub proof fn lemma_rows_of_concat(first: Seq<Request>, second: Seq<Request>)
    ensures
        rows_of(first + second) == rows_of(first) + rows_of(second),
    decreases second.len(),
{
    if second.len() == 0 {
        assert(first + second =~= first);
        assert(rows_of(first) + rows_of(second) =~= rows_of(first));
    } else {
        lemma_rows_of_concat(first, second.drop_last());
        assert((first + second).drop_last() =~= first + second.drop_last());
        assert(rows_of(first + second) =~= rows_of(first) + rows_of(second));
    }
}

/// Executing one migration asks for its row where history is recorded, and
/// for no row where it is not.
pub proof fn lemma_rows_of_migration(
    id: u64,
    statements: Seq<Seq<char>>,
    up: bool,
    record: bool,
)
    ensures
        rows_of(migration_requests(id, statements, up, record)) == if record {
            seq![HistoryEvent { id, up }]
        } else {
            Seq::empty()
        },
    decreases statements.len(),
{
    let executes = statements.map_values(|q: Seq<char>| Request::Execute(q));
    if statements.len() > 0 {
        lemma_rows_of_migration(id, statements.drop_last(), up, false);
        assert(executes.drop_last() =~= statements.drop_last().map_values(
            |q: Seq<char>| Request::Execute(q),
        ));
    }
    assert(rows_of(executes) =~= Seq::<HistoryEvent>::empty());
    if record {
        assert(executes.push(Request::Record(id, up)).drop_last() =~= executes);
        assert(rows_of(executes.push(Request::Record(id, up))) =~= seq![HistoryEvent { id, up }]);
    }
}

/// A run asks for one row in the history table for each migration that it
/// executes, in the order of execution, where it records history; and for
/// none where it does not.
pub proof fn lemma_rows_of_run(candidates: Seq<CandidateView>, up: bool, record: bool)
    ensures
        rows_of(requests_of(candidates, up, record)) == if record {
            rows_for(candidates, up)
        } else {
            Seq::empty()
        },
    decreases candidates.len(),
{
    if candidates.len() == 0 {
        assert(rows_for(candidates, up) =~= Seq::<HistoryEvent>::empty());
    } else {
        let before = candidates.drop_last();
        let last = candidates.last();
        lemma_rows_of_run(before, up, record);
        lemma_rows_of_migration(last.id, last.statements, up, record);
        lemma_rows_of_concat(
            requests_of(before, up, record),
            migration_requests(last.id, last.statements, up, record),
        );
        if record {
            assert(rows_for(candidates, up) =~= rows_for(before, up) + seq![
                HistoryEvent { id: last.id, up },
            ]);
        } else {
            assert(Seq::<HistoryEvent>::empty() + Seq::<HistoryEvent>::empty() =~= Seq::<
                HistoryEvent,
            >::empty());
        }
    }
}

/// What the rows of executed migrations do to a net state: where the
/// migrations have distinct ids, the net state of each of them moves by one,
/// up for a run that applies and down for one that rolls back, and no other
/// net state moves.
pub proof fn lemma_net_state_after_rows(
    events: Seq<HistoryEvent>,
    executed: Seq<CandidateView>,
    up: bool,
    id: u64,
)
    requires
        has_distinct_ids(executed),
    ensures
        net_state(events + rows_for(executed, up), id) == net_state(events, id) + if exists|
            i: int,
        |
            0 <= i < executed.len() && #[trigger] executed[i].id == id {
            if up {
                1int
            } else {
                -1int
            }
        } else {
            0int
        },
    decreases executed.len(),
{
    if executed.len() == 0 {
        assert(events + rows_for(executed, up) =~= events);
    } else {
        let before = executed.drop_last();
        let last = executed.last();
        assert(has_distinct_ids(before)) by {
            assert forall|i: int, j: int| 0 <= i < j < before.len() implies #[trigger] before[i].id
                != #[trigger] before[j].id by {
                assert(executed[i].id != executed[j].id);
            }
        }
        lemma_net_state_after_rows(events, before, up, id);
        let row = HistoryEvent { id: last.id, up };
        lemma_net_state_push(events + rows_for(before, up), row, id);
        assert((events + rows_for(before, up)).push(row) =~= events + rows_for(executed, up));
        if exists|i: int| 0 <= i < before.len() && #[trigger] before[i].id == id {
            let i = choose|i: int| 0 <= i < before.len() && #[trigger] before[i].id == id;
            assert(executed[i].id == id);
            assert(executed[i].id != executed[executed.len() - 1].id);
        } else if last.id == id {
            assert(executed[executed.len() - 1].id == id);
        } else {
            assert forall|i: int| 0 <= i < executed.len() implies #[trigger] executed[i].id
                != id by {
                if i < before.len() {
                    assert(before[i].id == executed[i].id);
                }
            }
        }
    }
}

/// A run that records history moves on: once its rows are in the history
/// table, each migration that it executed is eligible for the other
/// direction, and each candidate that it left out is as eligible as it was.
/// This holds where the candidates have distinct ids and were eligible.
pub proof fn lemma_run_moves_on(
    events: Seq<HistoryEvent>,
    candidates: Seq<CandidateView>,
    up: bool,
    n: Option<usize>,
)
    requires
        has_distinct_ids(candidates),
        records_history(candidates.len(), up, n),
        forall|i: int|
            0 <= i < candidates.len() ==> is_eligible(
                net_state(events, #[trigger] candidates[i].id),
                up,
            ),
    ensures
        forall|i: int|
            0 <= i < execute_count(candidates.len(), n) ==> is_eligible(
                net_state(
                    events + rows_of(run_plan(candidates, up, n)),
                    #[trigger] candidates[i].id,
                ),
                !up,
            ),
        forall|i: int|
            execute_count(candidates.len(), n) <= i < candidates.len() ==> is_eligible(
                net_state(
                    events + rows_of(run_plan(candidates, up, n)),
                    #[trigger] candidates[i].id,
                ),
                up,
            ),
{
    let count = execute_count(candidates.len(), n) as int;
    let executed = candidates.take(count);
    lemma_rows_of_run(executed, up, true);
    assert(has_distinct_ids(executed)) by {
        assert forall|i: int, j: int| 0 <= i < j < executed.len() implies #[trigger] executed[i].id
            != #[trigger] executed[j].id by {
            assert(candidates[i].id != candidates[j].id);
        }
    }
    assert forall|i: int| 0 <= i < candidates.len() implies if i < count {
        is_eligible(
            net_state(events + rows_of(run_plan(candidates, up, n)), #[trigger] candidates[i].id),
            !up,
        )
    } else {
        is_eligible(
            net_state(events + rows_of(run_plan(candidates, up, n)), candidates[i].id),
            up,
        )
    } by {
        let id = candidates[i].id;
        lemma_net_state_after_rows(events, executed, up, id);
        if i < count {
            assert(executed[i].id == id);
        } else {
            assert forall|j: int| 0 <= j < executed.len() implies #[trigger] executed[j].id
                != id by {
                assert(candidates[j].id != candidates[i].id);
            }
        }
    }
}

/// Drives migration runs over the directories found under the migrations
/// root, against a store.
pub struct Migrator<S: Store> {
    dirs: Vec<MigrationDir>,
    store: Journaled<S>,
}

/// What a redo did.
#[derive(Debug, PartialEq, Eq)]
pub enum Redo {
    /// No migration was applied, so none was rolled back.
    Nothing,
    /// The migration `down` was rolled back; then none was found to apply.
    RolledBack { down: u64 },
    /// The migration `down` was rolled back and the migration `up` applied.
    Redone { down: u64, up: u64 },
}

/// Why a redo stopped, and the migration that it had rolled back by then,
/// if any.
#[derive(Debug, PartialEq, Eq)]
pub struct RedoError<E> {
    pub rolled_back: Option<u64>,
    pub error: Error<E>,
}

impl<S: Store> Migrator<S> {
    /// The directories that the migrator works on.
    pub closed spec fn dirs(&self) -> Seq<MigrationDir> {
        self.dirs@
    }

    /// Every request that the migrator has made of its store to change the
    /// database, oldest first.
    pub closed spec fn journal(&self) -> Seq<Request> {
        self.store.journal()
    }

    /// For each request of the journal, whether the store carried it out.
    pub closed spec fn answers(&self) -> Seq<bool> {
        self.store.answers()
    }

    /// The journal, with the answers of the store.
    pub open spec fn asked(&self) -> Asked {
        Asked { requests: self.journal(), answers: self.answers() }
    }

    /// The store that the migrator works on.
    pub closed spec fn store(&self) -> S {
        self.store.inner()
    }

    /// A migrator for the directories `dirs`, as they were found under the
    /// migrations root, and the store `store`.
    pub fn with_store(dirs: Vec<MigrationDir>, store: S) -> (m: Self)
        ensures
            m.dirs() == dirs@,
            m.store() == store,
            m.journal() == Seq::<Request>::empty(),
            m.answers() == Seq::<bool>::empty(),
    {
        Migrator { dirs, store: Journaled::new(store) }
    }

    /// Gives the store back.
    pub fn into_store(self) -> (store: S)
        ensures
            store == self.store(),
    {
        self.store.into_store()
    }

    /// Reads the history table and folds it into net states. A store
    /// without history gives the empty history; an error of the store is
    /// returned as it is.
    pub fn get_migration_history(&self) -> (r: Result<History, Error<S::Error>>)
        ensures
            exists|rows: Result<Option<Vec<S::Row>>, S::Error>| #[trigger]
                call_ensures(S::get_all, (&self.store(),), rows) && history_read::<S>(rows, r),
    {
        let answer = self.store.get_all();
        let ghost given = answer;
        assert(call_ensures(S::get_all, (&self.store(),), given));
        match answer {
            Err(e) => {
                let r = Err(Error::Store(e));
                assert(history_read::<S>(given, r));
                r
            },
            Ok(None) => {
                let r = Ok(History::new());
                assert(history_read::<S>(given, r));
                r
            },
            Ok(Some(rows)) => {
                let mut events: Vec<HistoryEvent> = Vec::new();
                let mut i: usize = 0;
                while i < rows.len()
                    invariant
                        i <= rows.len(),
                        events_of_rows::<S>(rows@.take(i as int), events@),
                    decreases rows.len() - i,
                {
                    let ghost before = events@;
                    let id = rows[i].id();
                    let up = rows[i].is_up();
                    events.push(HistoryEvent { id, up });
                    proof {
                        let taken = rows@.take(i + 1);
                        assert forall|j: int| 0 <= j < taken.len() implies call_ensures(
                            <S::Row as MigrationRow>::id,
                            (&taken[j],),
                            (#[trigger] events@[j]).id,
                        ) && call_ensures(
                            <S::Row as MigrationRow>::is_up,
                            (&taken[j],),
                            events@[j].up,
                        ) by {
                            if j < i {
                                assert(rows@.take(i as int)[j] == taken[j]);
                                assert(before[j] == events@[j]);
                            }
                        }
                    }
                    i = i + 1;
                }
                let h = reconcile(&events);
                let r = Ok(h);
                proof {
                    assert(rows@.take(i as int) =~= rows@);
                    assert(events_of_rows::<S>(rows@, events@));
                    assert(states_given::<S>(Some(rows), h@));
                    assert(history_read::<S>(given, r));
                }
                r
            },
        }
    }

    /// Executes one migration: hands its statements to the store in their
    /// order and then, where `add_history` says so, has the row `(timestamp,
    /// up)` added to the history table. Stops at the first request that the
    /// store refuses, and returns the error of the store.
    pub fn migrate_one(
        &mut self,
        timestamp: u64,
        queries: &Vec<String>,
        up: bool,
        add_history: bool,
    ) -> (r: Result<(), Error<S::Error>>)
        ensures
            final(self).dirs() == old(self).dirs(),
            final(self).store() == old(self).store(),
            carried_out(
                old(self).store(),
                old(self).asked(),
                final(self).asked(),
                migration_requests(timestamp, texts(queries@), up, add_history),
                r,
            ),
    {
        let ghost before = self.asked();
        let ghost plan = migration_requests(timestamp, texts(queries@), up, add_history);
        let ghost executes = texts(queries@).map_values(|q: Seq<char>| Request::Execute(q));
        let mut i: usize = 0;
        assert(self.journal() =~= before.requests + executes.take(0));
        assert(self.answers() =~= before.answers + all_done(0));
        while i < queries.len()
            invariant
                i <= queries.len(),
                self.dirs() == old(self).dirs(),
                self.store() == old(self).store(),
                before == old(self).asked(),
                executes == texts(queries@).map_values(|q: Seq<char>| Request::Execute(q)),
                plan == migration_requests(timestamp, texts(queries@), up, add_history),
                self.journal() == before.requests + executes.take(i as int),
                self.answers() == before.answers + all_done(i as nat),
            decreases queries.len() - i,
        {
            let q = queries[i].as_str();
            let done = self.store.exec(q);
            proof {
                assert(self.journal() =~= before.requests + executes.take(i + 1));
                assert(executes.take(i + 1) =~= plan.take(i + 1));
                assert(plan[i as int] == Request::Execute(q@));
            }
            match done {
                Ok(()) => {
                    assert(self.answers() =~= before.answers + all_done((i + 1) as nat));
                },
                Err(e) => {
                    proof {
                        assert(self.answers() =~= before.answers + all_done(i as nat).push(
                            false,
                        ));
                        let failed = Err::<(), Error<S::Error>>(Error::Store(e));
                        assert(call_ensures(
                            S::exec,
                            (&old(self).store(), q),
                            Err::<(), S::Error>(e),
                        ));
                        assert(refusal(old(self).store(), plan[i as int], e));
                        assert(stopped_at(
                            old(self).store(),
                            before,
                            self.asked(),
                            plan,
                            i + 1,
                            failed->Err_0->Store_0,
                        ));
                        assert(carried_out(old(self).store(), before, self.asked(), plan, failed));
                    }
                    return Err(Error::Store(e));
                },
            }
            i = i + 1;
        }
        assert(executes.take(i as int) =~= executes);
        if add_history {
            let done = self.store.add(timestamp, up);
            proof {
                assert(self.journal() =~= before.requests + plan);
                assert(plan.take(plan.len() as int) =~= plan);
            }
            match done {
                Ok(()) => {
                    assert(self.answers() =~= before.answers + all_done(plan.len()));
                    Ok(())
                },
                Err(e) => {
                    proof {
                        assert(self.answers() =~= before.answers + all_done(
                            (plan.len() - 1) as nat,
                        ).push(false));
                        let failed = Err::<(), Error<S::Error>>(Error::Store(e));
                        assert(plan[plan.len() - 1] == Request::Record(timestamp, up));
                        assert(refusal(old(self).store(), plan[plan.len() - 1], e));
                        assert(stopped_at(
                            old(self).store(),
                            before,
                            self.asked(),
                            plan,
                            plan.len() as int,
                            failed->Err_0->Store_0,
                        ));
                        assert(carried_out(old(self).store(), before, self.asked(), plan, failed));
                    }
                    Err(Error::Store(e))
                },
            }
        } else {
            Ok(())
        }
    }

    /// Executes the first `n` of the candidates, or all of them where `n` is
    /// `None` or more than there are, and reports the id of the last one
    /// executed. Stops at the first request that the store refuses: no
    /// request follows it, and nothing that was done is undone.
    pub fn execute_migrations(
        &mut self,
        migration_to_execute: Vec<Candidate>,
        up: bool,
        n: Option<usize>,
    ) -> (r: Result<Option<u64>, Error<S::Error>>)
        ensures
            final(self).dirs() == old(self).dirs(),
            final(self).store() == old(self).store(),
            carried_out(
                old(self).store(),
                old(self).asked(),
                final(self).asked(),
                run_plan(views(migration_to_execute@), up, n),
                r,
            ),
            r matches Ok(id) ==> id == last_executed(views(migration_to_execute@), n),
    {
        let total = migration_to_execute.len();
        let take_n = match n {
            Some(limit) => if limit < total {
                limit
            } else {
                total
            },
            None => total,
        };
        let add_history = up || take_n != total;
        let ghost before = self.asked();
        let ghost candidates = views(migration_to_execute@);
        let ghost plan = run_plan(candidates, up, n);
        let mut last: Option<u64> = None;
        let mut i: usize = 0;
        assert(candidates.take(0) =~= Seq::<CandidateView>::empty());
        assert(self.journal() =~= before.requests + requests_of(
            candidates.take(0),
            up,
            add_history,
        ));
        assert(self.answers() =~= before.answers + all_done(0));
        while i < take_n
            invariant
                i <= take_n <= total,
                total == migration_to_execute.len(),
                before == old(self).asked(),
                candidates == views(migration_to_execute@),
                take_n == execute_count(candidates.len(), n),
                add_history == records_history(candidates.len(), up, n),
                plan == run_plan(candidates, up, n),
                self.dirs() == old(self).dirs(),
                self.store() == old(self).store(),
                self.journal() == before.requests + requests_of(
                    candidates.take(i as int),
                    up,
                    add_history,
                ),
                self.answers() == before.answers + all_done(
                    requests_of(candidates.take(i as int), up, add_history).len(),
                ),
                last == if i == 0 {
                    None
                } else {
                    Some(candidates[i - 1].id)
                },
            decreases take_n - i,
        {
            let candidate = &migration_to_execute[i];
            let ghost done = requests_of(candidates.take(i as int), up, add_history);
            let ghost step = migration_requests(
                candidate.id,
                texts(candidate.statements@),
                up,
                add_history,
            );
            let ghost sofar = self.asked();
            proof {
                assert(candidates.take(i + 1).drop_last() =~= candidates.take(i as int));
                assert(requests_of(candidates.take(i + 1), up, add_history) == done + step);
                lemma_requests_prefix(candidates, up, add_history, i + 1, take_n as int);
            }
            match self.migrate_one(candidate.id, &candidate.statements, up, add_history) {
                Ok(()) => {
                    assert(self.journal() =~= before.requests + (done + step));
                    assert(self.answers() =~= before.answers + all_done((done + step).len()));
                },
                Err(e) => {
                    proof {
                        let error = e->Store_0;
                        let k = choose|k: int| #[trigger]
                            stopped_at(old(self).store(), sofar, self.asked(), step, k, error);
                        let at = done.len() + k;
                        assert(plan.take(at) =~= done + step.take(k));
                        assert(self.journal() =~= before.requests + plan.take(at));
                        assert(self.answers() =~= before.answers + all_done((at - 1) as nat).push(
                            false,
                        ));
                        assert(plan.take((done + step).len() as int) == done + step);
                        assert(plan[at - 1] == plan.take((done + step).len() as int)[at - 1]);
                        assert(plan[at - 1] == step[k - 1]);
                        assert(stopped_at(
                            old(self).store(),
                            before,
                            self.asked(),
                            plan,
                            at,
                            error,
                        ));
                    }
                    return Err(e);
                },
            }
            last = Some(candidate.id);
            i = i + 1;
        }
        Ok(last)
    }

    /// Runs the migrations that are eligible under `history` in the
    /// direction `up`: all of them, or at most `n`. A failure of the
    /// selection stops the run before it asks anything of the store.
    pub fn migrate_from(&mut self, history: &History, up: bool, n: Option<usize>) -> (r: Result<
        Option<u64>,
        Error<S::Error>,
    >)
        ensures
            final(self).dirs() == old(self).dirs(),
            final(self).store() == old(self).store(),
            run_outcome(
                old(self).store(),
                old(self).dirs(),
                history@,
                up,
                n,
                old(self).asked(),
                final(self).asked(),
                r,
            ),
    {
        match filter_migrations::<S::Error>(&self.dirs, history, up) {
            Err(e) => Err(e),
            Ok(None) => {
                proof {
                    let chosen = selection(self.dirs(), history@, up)->Ok_0;
                    assert(chosen.take(0) =~= chosen);
                    assert(self.journal() =~= self.journal() + run_plan(chosen, up, n));
                    assert(self.answers() =~= self.answers() + all_done(0));
                }
                Ok(None)
            },
            Ok(Some(migrations_to_execute)) => self.execute_migrations(
                migrations_to_execute,
                up,
                n,
            ),
        }
    }

    fn migrate_n(&mut self, up: bool, n: Option<usize>) -> (r: Result<
        Option<u64>,
        Error<S::Error>,
    >)
        ensures
            final(self).dirs() == old(self).dirs(),
            final(self).store() == old(self).store(),
            migrated(
                old(self).store(),
                old(self).dirs(),
                up,
                n,
                old(self).asked(),
                final(self).asked(),
                r,
            ),
    {
        let read = self.get_migration_history();
        let ghost read_result = read;
        let ghost rows = choose|rows: Result<Option<Vec<S::Row>>, S::Error>| #[trigger]
            call_ensures(S::get_all, (&self.store(),), rows) && history_read::<S>(
                rows,
                read_result,
            );
        match read {
            Err(e) => {
                let r = Err(e);
                assert(migrated(
                    old(self).store(),
                    old(self).dirs(),
                    up,
                    n,
                    old(self).asked(),
                    self.asked(),
                    r,
                ));
                r
            },
            Ok(history) => {
                let r = self.migrate_from(&history, up, n);
                proof {
                    assert(states_given::<S>(rows->Ok_0, history@));
                    assert(run_outcome(
                        old(self).store(),
                        old(self).dirs(),
                        history@,
                        up,
                        n,
                        old(self).asked(),
                        self.asked(),
                        r,
                    ));
                }
                r
            },
        }
    }

    /// Applies every migration that is not applied, oldest first. `None`
    /// where there is none.
    pub fn migrate_up(&mut self) -> (r: Result<Option<u64>, Error<S::Error>>)
        ensures
            final(self).dirs() == old(self).dirs(),
            final(self).store() == old(self).store(),
            migrated(
                old(self).store(),
                old(self).dirs(),
                true,
                None,
                old(self).asked(),
                final(self).asked(),
                r,
            ),
    {
        self.migrate_n(true, None)
    }

    /// Rolls back every migration that is applied, newest first. `None`
    /// where there is none.
    pub fn migrate_down(&mut self) -> (r: Result<Option<u64>, Error<S::Error>>)
        ensures
            final(self).dirs() == old(self).dirs(),
            final(self).store() == old(self).store(),
            migrated(
                old(self).store(),
                old(self).dirs(),
                false,
                None,
                old(self).asked(),
                final(self).asked(),
                r,
            ),
    {
        self.migrate_n(false, None)
    }

    /// Applies the `n` oldest migrations that are not applied, or all of
    /// them where they are fewer. `None` where none was applied.
    pub fn migrate_up_n(&mut self, n: usize) -> (r: Result<Option<u64>, Error<S::Error>>)
        ensures
            final(self).dirs() == old(self).dirs(),
            final(self).store() == old(self).store(),
            migrated(
                old(self).store(),
                old(self).dirs(),
                true,
                Some(n),
                old(self).asked(),
                final(self).asked(),
                r,
            ),
    {
        self.migrate_n(true, Some(n))
    }

    /// Rolls back the `n` newest migrations that are applied, or all of them
    /// where they are fewer. `None` where none was rolled back.
    pub fn migrate_down_n(&mut self, n: usize) -> (r: Result<Option<u64>, Error<S::Error>>)
        ensures
            final(self).dirs() == old(self).dirs(),
            final(self).store() == old(self).store(),
            migrated(
                old(self).store(),
                old(self).dirs(),
                false,
                Some(n),
                old(self).asked(),
                final(self).asked(),
                r,
            ),
    {
        self.migrate_n(false, Some(n))
    }

    /// Rolls back the newest applied migration and then applies the oldest
    /// migration that is not applied. Where nothing is applied, nothing is
    /// rolled back and nothing applied. An error tells whether a migration
    /// was rolled back before it.
    pub fn redo(&mut self) -> (r: Result<Redo, RedoError<S::Error>>)
        ensures
            final(self).dirs() == old(self).dirs(),
            final(self).store() == old(self).store(),
            redone(old(self).store(), old(self).dirs(), old(self).asked(), final(self).asked(), r),
    {
        let ghost store = self.store();
        let ghost dirs = self.dirs();
        let ghost before = self.asked();
        let down = self.migrate_down_n(1);
        let ghost between = self.asked();
        let ghost down_result = down;
        match down {
            Err(e) => {
                assert(migrated(store, dirs, false, Some(1usize), before, between, down_result));
                Err(RedoError { rolled_back: None, error: e })
            },
            Ok(None) => {
                assert(migrated(store, dirs, false, Some(1usize), before, between, down_result));
                Ok(Redo::Nothing)
            },
            Ok(Some(rolled_back)) => {
                let up = self.migrate_up_n(1);
                let ghost up_result = up;
                assert(migrated(store, dirs, false, Some(1usize), before, between, down_result));
                assert(migrated(
                    store,
                    dirs,
                    true,
                    Some(1usize),
                    between,
                    self.asked(),
                    up_result,
                ));
                match up {
                    Err(e) => Err(RedoError { rolled_back: Some(rolled_back), error: e }),
                    Ok(None) => Ok(Redo::RolledBack { down: rolled_back }),
                    Ok(Some(applied)) => Ok(Redo::Redone { down: rolled_back, up: applied }),
                }
            },
        }
    }
}

} // verus!
