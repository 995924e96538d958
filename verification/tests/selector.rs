use vemigrate::error::Error;
use vemigrate::history::{reconcile, History, HistoryEvent};
use vemigrate::parser::{FileContent, ScriptFile};
use vemigrate::selector::{dir_id, filter_migrations, sort_candidates, Candidate, MigrationDir};

fn script(path: String, text: &str) -> ScriptFile {
    ScriptFile { path, content: FileContent::Text(text.to_string()) }
}

fn dir(name: &str, up: &str, down: &str) -> MigrationDir {
    MigrationDir {
        name: name.to_string(),
        up: script(format!("m/{}/up.cql", name), up),
        down: script(format!("m/{}/down.cql", name), down),
    }
}

fn plain(name: &str) -> MigrationDir {
    let id = name.split('_').next().unwrap().to_string();
    dir(name, &format!("up {};", id), &format!("down {};", id))
}

fn select(
    dirs: &Vec<MigrationDir>,
    history: &History,
    up: bool,
) -> Result<Option<Vec<Candidate>>, Error<String>> {
    filter_migrations(dirs, history, up)
}

fn ids(found: &Option<Vec<Candidate>>) -> Vec<u64> {
    found.as_ref().map(|v| v.iter().map(|c| c.id).collect()).unwrap_or_default()
}

fn applied(ids: &[u64]) -> History {
    reconcile(&ids.iter().map(|id| HistoryEvent { id: *id, up: true }).collect())
}

#[test]
fn directory_names_give_ids() {
    assert_eq!(dir_id("100_initial"), Some(100));
    assert_eq!(dir_id("1579012345_add_users_table"), Some(1579012345));
    assert_eq!(dir_id("007_bond"), Some(7));
    assert_eq!(dir_id("0_zero"), Some(0));
    assert_eq!(dir_id("12"), Some(12));
    assert_eq!(dir_id("12_"), Some(12));
    assert_eq!(dir_id("+5_plus"), Some(5));
    assert_eq!(dir_id("18446744073709551615_max"), Some(u64::MAX));
}

#[test]
fn names_without_a_number_give_no_id() {
    assert_eq!(dir_id(""), None);
    assert_eq!(dir_id("_100"), None);
    assert_eq!(dir_id("initial"), None);
    assert_eq!(dir_id("x100_a"), None);
    assert_eq!(dir_id("100x_a"), None);
    assert_eq!(dir_id("1 00_a"), None);
    assert_eq!(dir_id(" 100_a"), None);
    assert_eq!(dir_id("-100_a"), None);
    assert_eq!(dir_id("+_a"), None);
    assert_eq!(dir_id("+"), None);
    assert_eq!(dir_id("++1_a"), None);
    assert_eq!(dir_id("1+1_a"), None);
    assert_eq!(dir_id("18446744073709551616_over"), None);
    assert_eq!(dir_id("99999999999999999999999_over"), None);
    assert_eq!(dir_id("\u{664}\u{662}_arabic_digits"), None);
}

#[test]
fn ids_agree_with_the_number_parser_of_std() {
    let names = [
        "1_a", "+1_a", "-1_a", "01_a", "1_2_3", "a_1", "", "_", "+", "18446744073709551615",
        "18446744073709551616", "184467440737095516150", "0000000000000000000000001_x", "1.5_x",
        "1e3_x", "0x10_x", "١_x",
    ];
    for name in names.iter() {
        let expected = name.splitn(2, '_').next().and_then(|p| p.parse::<u64>().ok());
        assert_eq!(dir_id(name), expected, "{:?}", name);
    }
}

#[test]
fn pending_migrations_are_selected_oldest_first() {
    let dirs = vec![plain("300_c"), plain("100_a"), plain("200_b")];
    let found = select(&dirs, &History::new(), true).unwrap();
    assert_eq!(ids(&found), vec![100, 200, 300]);
    let found = found.unwrap();
    assert_eq!(found[0].statements, vec!["up 100;".to_string()]);
    assert_eq!(found[0].path, "m/100_a/up.cql");
    assert_eq!(found[2].statements, vec!["up 300;".to_string()]);
    assert_eq!(found[2].path, "m/300_c/up.cql");
}

#[test]
fn applied_migrations_are_selected_newest_first() {
    let dirs = vec![plain("200_b"), plain("400_d"), plain("100_a"), plain("300_c")];
    let found = select(&dirs, &applied(&[100, 200, 300]), false).unwrap();
    assert_eq!(ids(&found), vec![300, 200, 100]);
    let found = found.unwrap();
    assert_eq!(found[0].statements, vec!["down 300;".to_string()]);
    assert_eq!(found[0].path, "m/300_c/down.cql");
}

#[test]
fn applied_migrations_are_not_pending() {
    let dirs = vec![plain("100_a"), plain("200_b"), plain("300_c")];
    let found = select(&dirs, &applied(&[100, 200]), true).unwrap();
    assert_eq!(ids(&found), vec![300]);
}

#[test]
fn nothing_eligible_selects_none() {
    let dirs = vec![plain("100_a"), plain("200_b")];
    assert_eq!(select(&dirs, &applied(&[100, 200]), true), Ok(None));
    assert_eq!(select(&dirs, &History::new(), false), Ok(None));
    assert_eq!(select(&Vec::new(), &History::new(), true), Ok(None));
}

#[test]
fn other_net_states_are_eligible_for_nothing() {
    let dirs = vec![plain("100_a"), plain("200_b"), plain("300_c")];
    let events = vec![
        HistoryEvent { id: 100, up: true },
        HistoryEvent { id: 100, up: true },
        HistoryEvent { id: 200, up: false },
        HistoryEvent { id: 300, up: true },
    ];
    let history = reconcile(&events);
    assert_eq!(ids(&select(&dirs, &history, true).unwrap()), Vec::<u64>::new());
    assert_eq!(ids(&select(&dirs, &history, false).unwrap()), vec![300]);
}

#[test]
fn stray_directories_are_skipped() {
    let dirs = vec![
        dir("notes", "", ""),
        plain("200_b"),
        dir("_hidden", "", ""),
        plain("100_a"),
        dir("v2_draft", "", ""),
    ];
    let found = select(&dirs, &History::new(), true).unwrap();
    assert_eq!(ids(&found), vec![100, 200]);
}

#[test]
fn script_without_statements_fails_the_selection() {
    let dirs = vec![plain("300_c"), dir("100_a", "-- later", "down 100;"), plain("200_b")];
    assert_eq!(
        select(&dirs, &History::new(), true),
        Err(Error::ParseMigrationFile("no CQL found in m/100_a/up.cql".to_string()))
    );
    let found = select(&dirs, &applied(&[100, 200, 300]), false).unwrap();
    assert_eq!(ids(&found), vec![300, 200, 100]);
}

#[test]
fn first_failing_directory_decides_the_error() {
    let mut unreadable = plain("100_a");
    unreadable.up.content = FileContent::Unreadable("is a directory".to_string());
    let dirs = vec![plain("400_d"), dir("300_c", "", ""), unreadable.clone(), plain("200_b")];
    assert_eq!(
        select(&dirs, &History::new(), true),
        Err(Error::ParseMigrationFile("no CQL found in m/300_c/up.cql".to_string()))
    );
    let dirs = vec![plain("400_d"), unreadable, dir("300_c", "", ""), plain("200_b")];
    assert_eq!(select(&dirs, &History::new(), true), Err(Error::Io("is a directory".to_string())));
}

#[test]
fn scripts_of_migrations_that_are_not_selected_are_not_read() {
    let mut broken = dir("100_a", "-- nothing", "-- nothing");
    broken.down.content = FileContent::Unreadable("gone".to_string());
    let dirs = vec![broken, plain("200_b")];
    let found = select(&dirs, &applied(&[100]), true).unwrap();
    assert_eq!(ids(&found), vec![200]);
    let found = select(&dirs, &applied(&[200]), false).unwrap();
    assert_eq!(ids(&found), vec![200]);
}

#[test]
fn migrations_of_one_id_keep_their_order() {
    let dirs = vec![plain("200_x"), plain("100_first"), plain("300_y"), plain("100_second")];
    let found = select(&dirs, &History::new(), true).unwrap().unwrap();
    let paths: Vec<&str> = found.iter().map(|c| c.path.as_str()).collect();
    assert_eq!(
        paths,
        vec!["m/100_first/up.cql", "m/100_second/up.cql", "m/200_x/up.cql", "m/300_y/up.cql"]
    );
    let found = select(&dirs, &applied(&[100, 200, 300]), false).unwrap().unwrap();
    let paths: Vec<&str> = found.iter().map(|c| c.path.as_str()).collect();
    assert_eq!(
        paths,
        vec![
            "m/300_y/down.cql",
            "m/200_x/down.cql",
            "m/100_first/down.cql",
            "m/100_second/down.cql"
        ]
    );
}

#[test]
fn sorting_agrees_with_the_stable_sort_of_std() {
    let keys: Vec<u64> = vec![5, 3, 9, 3, 0, u64::MAX, 5, 1, 9, 9, 2];
    let candidates: Vec<Candidate> = keys
        .iter()
        .enumerate()
        .map(|(i, id)| Candidate { id: *id, statements: Vec::new(), path: i.to_string() })
        .collect();
    let mut ascending = candidates.clone();
    ascending.sort_by(|a, b| a.id.cmp(&b.id));
    assert_eq!(sort_candidates(candidates.clone(), true), ascending);
    let mut descending = candidates.clone();
    descending.sort_by(|a, b| b.id.cmp(&a.id));
    assert_eq!(sort_candidates(candidates, false), descending);
    assert_eq!(sort_candidates(Vec::new(), true), Vec::new());
}
