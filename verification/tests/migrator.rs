use std::cell::RefCell;
use std::rc::Rc;
use vemigrate::error::Error;
use vemigrate::history::{reconcile, HistoryEvent};
use vemigrate::migrator::{Migrator, Redo, RedoError};
use vemigrate::parser::{FileContent, ScriptFile};
use vemigrate::selector::{Candidate, MigrationDir};
use vemigrate::store::{MigrationRow, Store};

#[derive(Clone, Debug, PartialEq)]
struct Row {
    id: u64,
    up: bool,
}

impl MigrationRow for Row {
    fn id(&self) -> u64 {
        self.id
    }

    fn is_up(&self) -> bool {
        self.up
    }
}

#[derive(Default)]
struct State {
    rows: Vec<Row>,
    calls: Vec<String>,
    refuse: Option<String>,
    refuse_reads: bool,
    drop_history_on: Option<String>,
}

#[derive(Clone, Default)]
struct MemoryStore {
    state: Rc<RefCell<State>>,
}

impl MemoryStore {
    fn calls(&self) -> Vec<String> {
        self.state.borrow().calls.clone()
    }

    fn rows(&self) -> Vec<(u64, bool)> {
        self.state.borrow().rows.iter().map(|r| (r.id, r.up)).collect()
    }

    fn forget_calls(&self) {
        self.state.borrow_mut().calls.clear();
    }

    fn refuse(&self, call: &str) {
        self.state.borrow_mut().refuse = Some(call.to_string());
    }
}

impl Store for MemoryStore {
    type Row = Row;
    type Error = String;

    fn get_all(&self) -> Result<Option<Vec<Row>>, String> {
        let state = self.state.borrow();
        if state.refuse_reads {
            return Err("no connection".to_string());
        }
        if state.rows.is_empty() {
            Ok(None)
        } else {
            Ok(Some(state.rows.clone()))
        }
    }

    fn add(&self, id: u64, up: bool) -> Result<(), String> {
        let mut state = self.state.borrow_mut();
        let call = format!("add {} {}", id, up);
        state.calls.push(call.clone());
        if state.refuse.as_deref() == Some(call.as_str()) {
            return Err(format!("refused: {}", call));
        }
        state.rows.push(Row { id, up });
        Ok(())
    }

    fn exec(&self, q: &str) -> Result<(), String> {
        let mut state = self.state.borrow_mut();
        state.calls.push(format!("exec {}", q));
        if state.refuse.as_deref() == Some(q) {
            return Err(format!("refused: {}", q));
        }
        if state.drop_history_on.as_deref() == Some(q) {
            state.rows.clear();
        }
        Ok(())
    }
}

fn dir(id: u64) -> MigrationDir {
    let name = format!("{}_m", id);
    MigrationDir {
        up: ScriptFile {
            path: format!("m/{}/up.cql", name),
            content: FileContent::Text(format!("-- up\ncreate a{};\ncreate b{};", id, id)),
        },
        down: ScriptFile {
            path: format!("m/{}/down.cql", name),
            content: FileContent::Text(format!("drop b{};\ndrop a{};", id, id)),
        },
        name,
    }
}

fn three() -> Vec<MigrationDir> {
    vec![dir(200), dir(300), dir(100)]
}

fn migrator(dirs: Vec<MigrationDir>) -> (Migrator<MemoryStore>, MemoryStore) {
    let store = MemoryStore::default();
    (Migrator::with_store(dirs, store.clone()), store)
}

fn strings(items: &[&str]) -> Vec<String> {
    items.iter().map(|s| s.to_string()).collect()
}

fn candidate(id: u64, statements: &[&str]) -> Candidate {
    Candidate { id, statements: strings(statements), path: format!("m/{}/up.cql", id) }
}

#[test]
fn migrate_up_applies_everything_oldest_first() {
    let (mut m, store) = migrator(three());
    assert_eq!(m.migrate_up(), Ok(Some(300)));
    assert_eq!(
        store.calls(),
        strings(&[
            "exec create a100;",
            "exec create b100;",
            "add 100 true",
            "exec create a200;",
            "exec create b200;",
            "add 200 true",
            "exec create a300;",
            "exec create b300;",
            "add 300 true",
        ])
    );
    assert_eq!(store.rows(), vec![(100, true), (200, true), (300, true)]);
    store.forget_calls();
    assert_eq!(m.migrate_up(), Ok(None));
    assert!(store.calls().is_empty());
}

#[test]
fn migrate_up_n_zero_executes_nothing() {
    let (mut m, store) = migrator(three());
    assert_eq!(m.migrate_up_n(0), Ok(None));
    assert!(store.calls().is_empty());
    assert!(store.rows().is_empty());
    assert_eq!(m.migrate_up(), Ok(Some(300)));
    store.forget_calls();
    assert_eq!(m.migrate_down_n(0), Ok(None));
    assert!(store.calls().is_empty());
    assert_eq!(store.rows().len(), 3);
}

#[test]
fn migrate_up_n_two_of_three_leaves_the_third_pending() {
    let (mut m, store) = migrator(three());
    assert_eq!(m.migrate_up_n(2), Ok(Some(200)));
    assert_eq!(
        store.calls(),
        strings(&[
            "exec create a100;",
            "exec create b100;",
            "add 100 true",
            "exec create a200;",
            "exec create b200;",
            "add 200 true",
        ])
    );
    assert_eq!(store.rows(), vec![(100, true), (200, true)]);
    store.forget_calls();
    assert_eq!(m.migrate_up(), Ok(Some(300)));
    assert_eq!(store.calls(), strings(&["exec create a300;", "exec create b300;", "add 300 true"]));
}

#[test]
fn migrate_down_n_one_rolls_back_the_newest() {
    let (mut m, store) = migrator(three());
    assert_eq!(m.migrate_up(), Ok(Some(300)));
    store.forget_calls();
    assert_eq!(m.migrate_down_n(1), Ok(Some(300)));
    assert_eq!(store.calls(), strings(&["exec drop b300;", "exec drop a300;", "add 300 false"]));
    assert_eq!(store.rows(), vec![(100, true), (200, true), (300, true), (300, false)]);
    store.forget_calls();
    assert_eq!(m.migrate_down_n(1), Ok(Some(200)));
    assert_eq!(store.calls(), strings(&["exec drop b200;", "exec drop a200;", "add 200 false"]));
}

#[test]
fn count_beyond_what_is_there_executes_all() {
    let (mut m, store) = migrator(three());
    assert_eq!(m.migrate_up_n(7), Ok(Some(300)));
    assert_eq!(store.rows(), vec![(100, true), (200, true), (300, true)]);
    let (mut m, store) = migrator(three());
    assert_eq!(m.migrate_up_n(3), Ok(Some(300)));
    assert_eq!(store.rows().len(), 3);
}

#[test]
fn full_rollback_records_no_history() {
    let (mut m, store) = migrator(three());
    assert_eq!(m.migrate_up(), Ok(Some(300)));
    store.forget_calls();
    assert_eq!(m.migrate_down(), Ok(Some(100)));
    assert_eq!(
        store.calls(),
        strings(&[
            "exec drop b300;",
            "exec drop a300;",
            "exec drop b200;",
            "exec drop a200;",
            "exec drop b100;",
            "exec drop a100;",
        ])
    );
    assert_eq!(store.rows(), vec![(100, true), (200, true), (300, true)]);
}

#[test]
fn rollback_by_count_of_everything_records_no_history() {
    let (mut m, store) = migrator(three());
    assert_eq!(m.migrate_up_n(2), Ok(Some(200)));
    store.forget_calls();
    assert_eq!(m.migrate_down_n(2), Ok(Some(100)));
    assert_eq!(
        store.calls(),
        strings(&["exec drop b200;", "exec drop a200;", "exec drop b100;", "exec drop a100;"])
    );
    let (mut m, store) = migrator(three());
    assert_eq!(m.migrate_up(), Ok(Some(300)));
    store.forget_calls();
    assert_eq!(m.migrate_down_n(2), Ok(Some(200)));
    assert_eq!(
        store.calls(),
        strings(&[
            "exec drop b300;",
            "exec drop a300;",
            "add 300 false",
            "exec drop b200;",
            "exec drop a200;",
            "add 200 false",
        ])
    );
}

#[test]
fn nothing_applied_rolls_back_nothing() {
    let (mut m, store) = migrator(three());
    assert_eq!(m.migrate_down(), Ok(None));
    assert_eq!(m.migrate_down_n(1), Ok(None));
    assert!(store.calls().is_empty());
    let (mut m, store) = migrator(Vec::new());
    assert_eq!(m.migrate_up(), Ok(None));
    assert_eq!(m.migrate_up_n(3), Ok(None));
    assert!(store.calls().is_empty());
}

#[test]
fn refused_statement_stops_the_run() {
    let (mut m, store) = migrator(three());
    store.refuse("create b200;");
    assert_eq!(m.migrate_up(), Err(Error::Store("refused: create b200;".to_string())));
    assert_eq!(
        store.calls(),
        strings(&[
            "exec create a100;",
            "exec create b100;",
            "add 100 true",
            "exec create a200;",
            "exec create b200;",
        ])
    );
    assert_eq!(store.rows(), vec![(100, true)]);
}

#[test]
fn refused_history_row_stops_the_run() {
    let (mut m, store) = migrator(three());
    store.refuse("add 100 true");
    assert_eq!(m.migrate_up(), Err(Error::Store("refused: add 100 true".to_string())));
    assert_eq!(
        store.calls(),
        strings(&["exec create a100;", "exec create b100;", "add 100 true"])
    );
    assert!(store.rows().is_empty());
}

#[test]
fn refused_history_read_stops_the_run() {
    let (mut m, store) = migrator(three());
    store.state.borrow_mut().refuse_reads = true;
    assert_eq!(m.migrate_up(), Err(Error::Store("no connection".to_string())));
    assert_eq!(m.migrate_down_n(1), Err(Error::Store("no connection".to_string())));
    assert_eq!(
        m.redo(),
        Err(RedoError { rolled_back: None, error: Error::Store("no connection".to_string()) })
    );
    assert!(store.calls().is_empty());
    assert!(m.get_migration_history().is_err());
}

#[test]
fn script_without_statements_stops_the_run_before_it_executes() {
    let mut dirs = three();
    dirs[1].up.content = FileContent::Text("-- later".to_string());
    let (mut m, store) = migrator(dirs);
    assert_eq!(
        m.migrate_up(),
        Err(Error::ParseMigrationFile("no CQL found in m/300_m/up.cql".to_string()))
    );
    assert_eq!(
        m.migrate_up_n(1),
        Err(Error::ParseMigrationFile("no CQL found in m/300_m/up.cql".to_string()))
    );
    assert!(store.calls().is_empty());
}

#[test]
fn unreadable_script_stops_the_run_before_it_executes() {
    let mut dirs = three();
    dirs[2].up.content = FileContent::Unreadable("permission denied".to_string());
    let (mut m, store) = migrator(dirs);
    assert_eq!(m.migrate_up(), Err(Error::Io("permission denied".to_string())));
    assert!(store.calls().is_empty());
}

#[test]
fn history_is_read_from_the_store() {
    let (m, store) = migrator(three());
    store.state.borrow_mut().rows = vec![
        Row { id: 100, up: true },
        Row { id: 200, up: true },
        Row { id: 200, up: false },
    ];
    let history = m.get_migration_history().unwrap();
    assert_eq!(history.get(100), 1);
    assert_eq!(history.get(200), 0);
    assert_eq!(history.get(300), 0);
    let (m, _store) = migrator(three());
    let history = m.get_migration_history().unwrap();
    assert_eq!(history.get(100), 0);
    assert_eq!(history.len(), 0);
}

#[test]
fn run_from_a_given_history() {
    let (mut m, store) = migrator(three());
    let history = reconcile(&vec![HistoryEvent { id: 100, up: true }]);
    assert_eq!(m.migrate_from(&history, true, Some(1)), Ok(Some(200)));
    assert_eq!(store.calls(), strings(&["exec create a200;", "exec create b200;", "add 200 true"]));
    store.forget_calls();
    assert_eq!(m.migrate_from(&history, false, None), Ok(Some(100)));
    assert_eq!(store.calls(), strings(&["exec drop b100;", "exec drop a100;"]));
}

#[test]
fn execute_migrations_reports_the_last_one_executed() {
    let (mut m, store) = migrator(Vec::new());
    let candidates =
        vec![candidate(1, &["a;", "b;"]), candidate(2, &["c;"]), candidate(3, &["d;"])];
    assert_eq!(m.execute_migrations(candidates.clone(), true, Some(2)), Ok(Some(2)));
    assert_eq!(
        store.calls(),
        strings(&["exec a;", "exec b;", "add 1 true", "exec c;", "add 2 true"])
    );
    store.forget_calls();
    assert_eq!(m.execute_migrations(candidates.clone(), false, Some(1)), Ok(Some(1)));
    assert_eq!(store.calls(), strings(&["exec a;", "exec b;", "add 1 false"]));
    store.forget_calls();
    assert_eq!(m.execute_migrations(candidates.clone(), false, None), Ok(Some(3)));
    assert_eq!(store.calls(), strings(&["exec a;", "exec b;", "exec c;", "exec d;"]));
    store.forget_calls();
    assert_eq!(m.execute_migrations(candidates.clone(), true, Some(0)), Ok(None));
    assert_eq!(m.execute_migrations(Vec::new(), true, None), Ok(None));
    assert_eq!(m.execute_migrations(Vec::new(), false, Some(4)), Ok(None));
    assert!(store.calls().is_empty());
}

#[test]
fn migrate_one_executes_then_records() {
    let (mut m, store) = migrator(Vec::new());
    assert_eq!(m.migrate_one(9, &strings(&["a;", "b;"]), true, true), Ok(()));
    assert_eq!(store.calls(), strings(&["exec a;", "exec b;", "add 9 true"]));
    store.forget_calls();
    assert_eq!(m.migrate_one(9, &strings(&["a;"]), false, false), Ok(()));
    assert_eq!(store.calls(), strings(&["exec a;"]));
    store.forget_calls();
    store.refuse("a;");
    assert_eq!(
        m.migrate_one(9, &strings(&["a;", "b;"]), false, true),
        Err(Error::Store("refused: a;".to_string()))
    );
    assert_eq!(store.calls(), strings(&["exec a;"]));
    assert_eq!(store.rows(), vec![(9, true)]);
}

#[test]
fn redo_rolls_back_and_applies_again() {
    let (mut m, store) = migrator(three());
    assert_eq!(m.migrate_up(), Ok(Some(300)));
    store.forget_calls();
    assert_eq!(m.redo(), Ok(Redo::Redone { down: 300, up: 300 }));
    assert_eq!(
        store.calls(),
        strings(&[
            "exec drop b300;",
            "exec drop a300;",
            "add 300 false",
            "exec create a300;",
            "exec create b300;",
            "add 300 true",
        ])
    );
}

#[test]
fn redo_with_nothing_applied_does_nothing() {
    let (mut m, store) = migrator(three());
    assert_eq!(m.redo(), Ok(Redo::Nothing));
    assert!(store.calls().is_empty());
}

#[test]
fn redo_of_the_only_migration_drops_and_rebuilds() {
    let (mut m, store) = migrator(vec![dir(100)]);
    assert_eq!(m.migrate_up(), Ok(Some(100)));
    store.state.borrow_mut().drop_history_on = Some("drop a100;".to_string());
    store.forget_calls();
    assert_eq!(m.redo(), Ok(Redo::Redone { down: 100, up: 100 }));
    assert_eq!(
        store.calls(),
        strings(&[
            "exec drop b100;",
            "exec drop a100;",
            "exec create a100;",
            "exec create b100;",
            "add 100 true",
        ])
    );
    assert_eq!(store.rows(), vec![(100, true)]);
}

#[test]
fn redo_that_finds_nothing_to_apply_says_so() {
    let (mut m, store) = migrator(vec![dir(100)]);
    assert_eq!(m.migrate_up(), Ok(Some(100)));
    store.forget_calls();
    assert_eq!(m.redo(), Ok(Redo::RolledBack { down: 100 }));
    assert_eq!(store.calls(), strings(&["exec drop b100;", "exec drop a100;"]));
}

#[test]
fn redo_stops_at_a_refused_statement() {
    let (mut m, store) = migrator(three());
    assert_eq!(m.migrate_up(), Ok(Some(300)));
    store.forget_calls();
    store.refuse("drop a300;");
    assert_eq!(
        m.redo(),
        Err(RedoError {
            rolled_back: None,
            error: Error::Store("refused: drop a300;".to_string())
        })
    );
    assert_eq!(store.calls(), strings(&["exec drop b300;", "exec drop a300;"]));
}

#[test]
fn redo_that_fails_to_apply_tells_what_it_rolled_back() {
    let (mut m, store) = migrator(three());
    assert_eq!(m.migrate_up(), Ok(Some(300)));
    store.forget_calls();
    store.refuse("create b300;");
    assert_eq!(
        m.redo(),
        Err(RedoError {
            rolled_back: Some(300),
            error: Error::Store("refused: create b300;".to_string())
        })
    );
    assert_eq!(
        store.calls(),
        strings(&[
            "exec drop b300;",
            "exec drop a300;",
            "add 300 false",
            "exec create a300;",
            "exec create b300;",
        ])
    );
    assert_eq!(store.rows(), vec![(100, true), (200, true), (300, true), (300, false)]);
}

#[test]
fn refused_statement_leaves_its_migration_without_a_row() {
    let (mut m, store) = migrator(three());
    store.refuse("create a100;");
    assert_eq!(m.migrate_up_n(1), Err(Error::Store("refused: create a100;".to_string())));
    assert_eq!(store.calls(), strings(&["exec create a100;"]));
    assert!(store.rows().is_empty());
}

#[test]
fn store_is_given_back() {
    let (m, store) = migrator(three());
    store.state.borrow_mut().rows.push(Row { id: 1, up: true });
    let back = m.into_store();
    assert_eq!(back.rows(), vec![(1, true)]);
}

#[test]
fn engine_message_of_an_error() {
    let e: Error<String> = Error::ParseMigrationFile("no CQL found in x".to_string());
    assert_eq!(e.message(), Some("no CQL found in x".to_string()));
    let e: Error<String> = Error::Io("denied".to_string());
    assert_eq!(e.message(), Some("denied".to_string()));
    let e: Error<String> = Error::Store("down".to_string());
    assert_eq!(e.message(), None);
    let e: Error<String> = Error::no_cql("m/1_a/up.cql");
    assert_eq!(e, Error::ParseMigrationFile("no CQL found in m/1_a/up.cql".to_string()));
}
