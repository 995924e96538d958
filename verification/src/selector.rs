use crate::error::Error;
use crate::history::{is_eligible, net_of, History};
use crate::parser::{
    chars_of, file_statements, parse_cql_file, reports, run_end, run_len, texts, Failure,
    ScriptFile,
};
use vstd::prelude::*;

verus! {

/// A directory found under the migrations root, with its two scripts.
#[derive(Clone, Debug, PartialEq, Eq)]
pub struct MigrationDir {
    pub name: String,
    pub up: ScriptFile,
    pub down: ScriptFile,
}

/// A migration that is ready to be executed in one direction.
#[derive(Clone, Debug, PartialEq, Eq)]
pub struct Candidate {
    pub id: u64,
    pub statements: Vec<String>,
    pub path: String,
}

/// What a candidate holds.
pub struct CandidateView {
    pub id: u64,
    pub statements: Seq<Seq<char>>,
    pub path: Seq<char>,
}

impl View for Candidate {
    type V = CandidateView;

    open spec fn view(&self) -> CandidateView {
        CandidateView { id: self.id, statements: texts(self.statements@), path: self.path@ }
    }
}

/// What a sequence of candidates holds.
pub open spec fn views(candidates: Seq<Candidate>) -> Seq<CandidateView> {
    candidates.map_values(|c: Candidate| c@)
}

/// The decimal digits.
pub open spec fn is_digit(c: char) -> bool {
    '0' <= c <= '9'
}

/// The number that a decimal digit stands for.
pub open spec fn digit_value(c: char) -> nat {
    (c as u32 - 48) as nat
}

/// The number that a sequence of decimal digits stands for.
pub open spec fn decimal_value(digits: Seq<char>) -> nat
    decreases digits.len(),
{
    if digits.len() == 0 {
        0
    } else {
        decimal_value(digits.drop_last()) * 10 + digit_value(digits.last())
    }
}

/// Every character of `s` is a decimal digit.
pub open spec fn all_digits(s: Seq<char>) -> bool {
    forall|i: int| 0 <= i < s.len() ==> is_digit(#[trigger] s[i])
}

/// The number that `digits` spells: they are one decimal digit or more, for
/// a number that fits in 64 bits.
pub open spec fn spelled(digits: Seq<char>) -> Option<u64> {
    if digits.len() > 0 && all_digits(digits) && decimal_value(digits) <= u64::MAX {
        Some(decimal_value(digits) as u64)
    } else {
        None
    }
}

/// The migration id that `s` spells: digits, which may follow a `+`.
pub open spec fn parse_id(s: Seq<char>) -> Option<u64> {
    if s.len() > 0 && s[0] == '+' {
        spelled(s.drop_first())
    } else {
        spelled(s)
    }
}

/// The migration id of the directory `name`: what stands before its first
/// `_` spells it. `None` where that is no id, which makes the directory no
/// migration.
pub open spec fn migration_id(name: Seq<char>) -> Option<u64> {
    parse_id(name.take(run_len(name, '_') as int))
}

/// The first digits of a number spell no more than all of them.
proof fn lemma_decimal_prefix(digits: Seq<char>, k: int)
    requires
        0 <= k <= digits.len(),
    ensures
        decimal_value(digits.take(k)) <= decimal_value(digits),
    decreases digits.len(),
{
    if k == digits.len() {
        assert(digits.take(k) =~= digits);
    } else {
        lemma_decimal_prefix(digits.drop_last(), k);
        assert(digits.drop_last().take(k) =~= digits.take(k));
    }
}

/// Reads the migration id off the name of a directory.
pub fn dir_id(name: &str) -> (id: Option<u64>)
    ensures
        id == migration_id(name@),
{
    let chars = chars_of(name);
    assert(chars@.skip(0) =~= chars@);
    let end = run_end(&chars, 0, '_');
    let first: usize = if end > 0 && chars[0] == '+' {
        1
    } else {
        0
    };
    let ghost prefix = name@.take(end as int);
    let ghost digits = prefix.skip(first as int);
    assert(first == 1 ==> digits =~= prefix.drop_first());
    assert(first == 0 ==> digits =~= prefix);
    assert(migration_id(name@) == spelled(digits));
    let mut i: usize = first;
    let mut value: u64 = 0;
    while i < end
        invariant
            first <= i <= end <= chars.len(),
            chars@ == name@,
            prefix == name@.take(end as int),
            digits == prefix.skip(first as int),
            migration_id(name@) == spelled(digits),
            all_digits(digits.take(i - first)),
            value == decimal_value(digits.take(i - first)),
        decreases end - i,
    {
        let c = chars[i];
        assert(digits[i - first] == c);
        if !('0' <= c && c <= '9') {
            return None;
        }
        let d: u64 = (c as u32 - 48) as u64;
        proof {
            assert(digits.take(i - first + 1).drop_last() =~= digits.take(i - first));
            lemma_decimal_prefix(digits, i - first + 1);
        }
        if value > (u64::MAX - d) / 10 {
            return None;
        }
        value = value * 10 + d;
        i = i + 1;
    }
    assert(digits.take(i - first) =~= digits);
    if end == first {
        None
    } else {
        Some(value)
    }
}

/// The script of a directory for one direction.
pub open spec fn script_of(dir: MigrationDir, up: bool) -> ScriptFile {
    if up {
        dir.up
    } else {
        dir.down
    }
}

/// Tells whether a run in the direction `up` has to execute the migration of
/// `dir`: the directory is a migration, and its net state makes it eligible.
pub open spec fn is_wanted(dir: MigrationDir, states: Map<u64, int>, up: bool) -> bool {
    match migration_id(dir.name@) {
        Some(id) => is_eligible(net_of(states, id), up),
        None => false,
    }
}

/// The candidate that the directory of a migration gives for one direction,
/// or why it gives none.
pub open spec fn candidate_of(dir: MigrationDir, up: bool) -> Result<CandidateView, Failure>
    recommends
        migration_id(dir.name@) is Some,
{
    match file_statements(script_of(dir, up)) {
        Ok(statements) => Ok(
            CandidateView {
                id: migration_id(dir.name@)->Some_0,
                statements,
                path: script_of(dir, up).path@,
            },
        ),
        Err(f) => Err(f),
    }
}

/// The candidates of the wanted directories among `dirs`, in the order of
/// the directories; or the failure of the first wanted directory that gives
/// no candidate.
pub open spec fn wanted_candidates(dirs: Seq<MigrationDir>, states: Map<u64, int>, up: bool)
    -> Result<Seq<CandidateView>, Failure>
    decreases dirs.len(),
{
    if dirs.len() == 0 {
        Ok(Seq::empty())
    } else {
        match wanted_candidates(dirs.drop_last(), states, up) {
            Err(f) => Err(f),
            Ok(found) => if !is_wanted(dirs.last(), states, up) {
                Ok(found)
            } else {
                match candidate_of(dirs.last(), up) {
                    Ok(c) => Ok(found.push(c)),
                    Err(f) => Err(f),
                }
            },
        }
    }
}

/// Tells whether the migration `a` may be executed before the migration `b`:
/// the older one is applied first, the newer one rolled back first.
pub open spec fn may_precede(a: u64, b: u64, up: bool) -> bool {
    if up {
        a <= b
    } else {
        a >= b
    }
}

/// `sorted` with `c` put behind every candidate that may precede it.
pub open spec fn insert_in_order(sorted: Seq<CandidateView>, c: CandidateView, up: bool) -> Seq<
    CandidateView,
>
    decreases sorted.len(),
{
    if sorted.len() > 0 && !may_precede(sorted.last().id, c.id, up) {
        insert_in_order(sorted.drop_last(), c, up).push(sorted.last())
    } else {
        sorted.push(c)
    }
}

/// The candidates in the order of execution: by ascending id to migrate up,
/// by descending id to migrate down; candidates of one id stay in the order
/// they had.
pub open spec fn in_order(candidates: Seq<CandidateView>, up: bool) -> Seq<CandidateView>
    decreases candidates.len(),
{
    if candidates.len() == 0 {
        Seq::empty()
    } else {
        insert_in_order(in_order(candidates.drop_last(), up), candidates.last(), up)
    }
}

/// The candidates of a run in the direction `up`, in the order of
/// execution; or the failure that stops the run before it executes anything.
pub open spec fn selection(dirs: Seq<MigrationDir>, states: Map<u64, int>, up: bool) -> Result<
    Seq<CandidateView>,
    Failure,
> {
    match wanted_candidates(dirs, states, up) {
        Ok(found) => Ok(in_order(found, up)),
        Err(f) => Err(f),
    }
}

/// Each candidate may precede all that follow it.
pub open spec fn is_ordered(candidates: Seq<CandidateView>, up: bool) -> bool {
    forall|i: int, j: int|
        0 <= i < j < candidates.len() ==> may_precede(
            #[trigger] candidates[i].id,
            #[trigger] candidates[j].id,
            up,
        )
}

/// No two candidates have the same id.
pub open spec fn has_distinct_ids(candidates: Seq<CandidateView>) -> bool {
    forall|i: int, j: int|
        0 <= i < j < candidates.len() ==> #[trigger] candidates[i].id
            != #[trigger] candidates[j].id
}

/// Each candidate has to be executed before all that follow it: the ids
/// ascend strictly to migrate up and descend strictly to migrate down.
pub open spec fn is_strictly_ordered(candidates: Seq<CandidateView>, up: bool) -> bool {
    forall|i: int, j: int|
        0 <= i < j < candidates.len() ==> if up {
            #[trigger] candidates[i].id < #[trigger] candidates[j].id
        } else {
            candidates[i].id > candidates[j].id
        }
}

/// The place at which `insert_in_order` puts a candidate.
pub proof fn lemma_insert_position(sorted: Seq<CandidateView>, c: CandidateView, up: bool) -> (p:
    int)
    ensures
        0 <= p <= sorted.len(),
        insert_in_order(sorted, c, up) == sorted.insert(p, c),
        forall|j: int| p <= j < sorted.len() ==> !may_precede(#[trigger] sorted[j].id, c.id, up),
        p > 0 ==> may_precede(sorted[p - 1].id, c.id, up),
    decreases sorted.len(),
{
    if sorted.len() > 0 && !may_precede(sorted.last().id, c.id, up) {
        let p = lemma_insert_position(sorted.drop_last(), c, up);
        assert(sorted.drop_last().insert(p, c).push(sorted.last()) =~= sorted.insert(p, c));
        assert forall|j: int| p <= j < sorted.len() implies !may_precede(
            #[trigger] sorted[j].id,
            c.id,
            up,
        ) by {
            if j < sorted.len() - 1 {
                assert(sorted.drop_last()[j] == sorted[j]);
            }
        }
        p
    } else {
        assert(sorted.push(c) =~= sorted.insert(sorted.len() as int, c));
        sorted.len() as int
    }
}

/// Putting a candidate in keeps the order, adds the candidate and nothing
/// else, and keeps the ids distinct where the new id is new.
pub proof fn lemma_insert_in_order(sorted: Seq<CandidateView>, c: CandidateView, up: bool)
    requires
        is_ordered(sorted, up),
    ensures
        is_ordered(insert_in_order(sorted, c, up), up),
        insert_in_order(sorted, c, up).to_multiset() == sorted.to_multiset().insert(c),
        has_distinct_ids(sorted) && (forall|i: int|
            0 <= i < sorted.len() ==> #[trigger] sorted[i].id != c.id) ==> has_distinct_ids(
            insert_in_order(sorted, c, up),
        ),
{
    broadcast use vstd::seq_lib::to_multiset_insert;

    let p = lemma_insert_position(sorted, c, up);
    let r = sorted.insert(p, c);
    assert forall|i: int, j: int| 0 <= i < j < r.len() implies may_precede(
        #[trigger] r[i].id,
        #[trigger] r[j].id,
        up,
    ) by {
        if j < p {
            assert(r[i] == sorted[i] && r[j] == sorted[j]);
        } else if j == p {
            assert(r[i] == sorted[i]);
            if i < p - 1 {
                assert(may_precede(sorted[i].id, sorted[p - 1].id, up));
            }
        } else if i < p {
            assert(r[i] == sorted[i] && r[j] == sorted[j - 1]);
        } else if i == p {
            assert(r[j] == sorted[j - 1]);
            assert(!may_precede(sorted[j - 1].id, c.id, up));
        } else {
            assert(r[i] == sorted[i - 1] && r[j] == sorted[j - 1]);
        }
    }
    if has_distinct_ids(sorted) && (forall|i: int|
        0 <= i < sorted.len() ==> #[trigger] sorted[i].id != c.id) {
        assert forall|i: int, j: int| 0 <= i < j < r.len() implies #[trigger] r[i].id
            != #[trigger] r[j].id by {
            let a = if i < p {
                i
            } else {
                i - 1
            };
            let b = if j < p {
                j
            } else {
                j - 1
            };
            if i != p && j != p {
                assert(r[i] == sorted[a] && r[j] == sorted[b]);
            } else if i == p {
                assert(r[j] == sorted[b]);
            } else {
                assert(r[i] == sorted[a]);
            }
        }
    }
}

/// The order of execution holds the candidates it was given, each as often
/// as it was given, and each may precede all that follow it.
pub proof fn lemma_in_order(candidates: Seq<CandidateView>, up: bool)
    ensures
        is_ordered(in_order(candidates, up), up),
        in_order(candidates, up).to_multiset() == candidates.to_multiset(),
        in_order(candidates, up).len() == candidates.len(),
        has_distinct_ids(candidates) ==> is_strictly_ordered(in_order(candidates, up), up),
    decreases candidates.len(),
{
    broadcast use vstd::seq_lib::to_multiset_build;

    if candidates.len() == 0 {
        assert(in_order(candidates, up) =~= candidates);
    } else {
        let before = candidates.drop_last();
        let last = candidates.last();
        let sorted = in_order(before, up);
        lemma_in_order(before, up);
        lemma_insert_in_order(sorted, last, up);
        assert(before.push(last) =~= candidates);
        let p = lemma_insert_position(sorted, last, up);
        if has_distinct_ids(candidates) {
            assert(has_distinct_ids(before)) by {
                assert forall|i: int, j: int| 0 <= i < j < before.len() implies #[trigger] before[i].id
                    != #[trigger] before[j].id by {
                    assert(candidates[i].id != candidates[j].id);
                }
            }
            lemma_strict_is_distinct(sorted, up);
            assert forall|i: int| 0 <= i < sorted.len() implies #[trigger] sorted[i].id
                != last.id by {
                sorted.to_multiset_ensures();
                before.to_multiset_ensures();
                assert(sorted.contains(sorted[i]));
                assert(sorted.to_multiset().count(sorted[i]) > 0);
                assert(before.to_multiset().count(sorted[i]) > 0);
                assert(before.contains(sorted[i]));
                let k = choose|k: int| 0 <= k < before.len() && before[k] == sorted[i];
                assert(candidates[k].id != candidates[candidates.len() - 1].id);
            }
            let r = in_order(candidates, up);
            assert forall|i: int, j: int| 0 <= i < j < r.len() implies if up {
                #[trigger] r[i].id < #[trigger] r[j].id
            } else {
                r[i].id > r[j].id
            } by {
                assert(may_precede(r[i].id, r[j].id, up));
                assert(r[i].id != r[j].id);
            }
        }
    }
}

/// Candidates that are strictly ordered have distinct ids.
pub proof fn lemma_strict_is_distinct(candidates: Seq<CandidateView>, up: bool)
    requires
        is_strictly_ordered(candidates, up),
    ensures
        has_distinct_ids(candidates),
{
    assert forall|i: int, j: int| 0 <= i < j < candidates.len() implies #[trigger] candidates[i].id
        != #[trigger] candidates[j].id by {
        if up {
            assert(candidates[i].id < candidates[j].id);
        } else {
            assert(candidates[i].id > candidates[j].id);
        }
    }
}

/// The directories that a run in the direction `up` has to execute, in the
/// order in which they were found.
pub open spec fn wanted_dirs(dirs: Seq<MigrationDir>, states: Map<u64, int>, up: bool) -> Seq<
    MigrationDir,
> {
    dirs.filter(|d: MigrationDir| is_wanted(d, states, up))
}

/// The candidates that directories give for one direction, each directory
/// giving one.
pub open spec fn candidates_of(dirs: Seq<MigrationDir>, up: bool) -> Seq<CandidateView> {
    dirs.map_values(|d: MigrationDir| candidate_of(d, up)->Ok_0)
}

/// No two directories are migrations with the same id.
pub open spec fn has_distinct_migrations(dirs: Seq<MigrationDir>) -> bool {
    forall|i: int, j: int|
        0 <= i < j < dirs.len() && migration_id(#[trigger] dirs[i].name@) is Some ==> migration_id(
            dirs[i].name@,
        ) != migration_id(#[trigger] dirs[j].name@)
}

/// Where every wanted directory gives a candidate, the candidates found are
/// those of the wanted directories: one for each, in the order of the
/// directories, and with distinct ids where the directories have them.
pub proof fn lemma_wanted_candidates(dirs: Seq<MigrationDir>, states: Map<u64, int>, up: bool)
    requires
        forall|i: int|
            0 <= i < dirs.len() && is_wanted(#[trigger] dirs[i], states, up) ==> candidate_of(
                dirs[i],
                up,
            ) is Ok,
    ensures
        wanted_candidates(dirs, states, up) == Ok::<Seq<CandidateView>, Failure>(
            candidates_of(wanted_dirs(dirs, states, up), up),
        ),
        forall|k: int|
            0 <= k < wanted_dirs(dirs, states, up).len() ==> is_wanted(
                #[trigger] wanted_dirs(dirs, states, up)[k],
                states,
                up,
            ) && dirs.contains(wanted_dirs(dirs, states, up)[k]),
        (forall|i: int| 0 <= i < dirs.len() ==> is_wanted(#[trigger] dirs[i], states, up))
            ==> wanted_dirs(dirs, states, up) == dirs,
        has_distinct_migrations(dirs) ==> has_distinct_ids(
            candidates_of(wanted_dirs(dirs, states, up), up),
        ),
    decreases dirs.len(),
{
    let wanted = |d: MigrationDir| is_wanted(d, states, up);
    if dirs.len() == 0 {
        assert(wanted_dirs(dirs, states, up) =~= dirs);
        assert(candidates_of(wanted_dirs(dirs, states, up), up) =~= Seq::empty());
    } else {
        let before = dirs.drop_last();
        let last = dirs.last();
        assert(before.push(last) =~= dirs);
        before.lemma_filter_push(last, wanted);
        assert forall|i: int|
            0 <= i < before.len() && is_wanted(#[trigger] before[i], states, up) implies candidate_of(
            before[i],
            up,
        ) is Ok by {
            assert(before[i] == dirs[i]);
        }
        lemma_wanted_candidates(before, states, up);
        let kept = wanted_dirs(before, states, up);
        let all = wanted_dirs(dirs, states, up);
        assert forall|k: int| 0 <= k < kept.len() implies dirs.contains(#[trigger] kept[k]) by {
            let i = choose|i: int| 0 <= i < before.len() && before[i] == kept[k];
            assert(dirs[i] == kept[k]);
        }
        if is_wanted(last, states, up) {
            assert(all == kept.push(last));
            assert(dirs[dirs.len() - 1] == last);
            assert(candidates_of(all, up) =~= candidates_of(kept, up).push(
                candidate_of(last, up)->Ok_0,
            ));
        } else {
            assert(all == kept);
        }
        if forall|i: int| 0 <= i < dirs.len() ==> is_wanted(#[trigger] dirs[i], states, up) {
            assert forall|i: int| 0 <= i < before.len() implies is_wanted(
                #[trigger] before[i],
                states,
                up,
            ) by {
                assert(before[i] == dirs[i]);
            }
            assert(is_wanted(dirs[dirs.len() - 1], states, up));
            assert(all =~= dirs);
        }
        if has_distinct_migrations(dirs) {
            assert(has_distinct_migrations(before)) by {
                assert forall|i: int, j: int|
                    0 <= i < j < before.len() && migration_id(
                        #[trigger] before[i].name@,
                    ) is Some implies migration_id(before[i].name@) != migration_id(
                    #[trigger] before[j].name@,
                ) by {
                    assert(before[i] == dirs[i] && before[j] == dirs[j]);
                }
            }
            let found = candidates_of(all, up);
            if is_wanted(last, states, up) {
                assert forall|i: int, j: int| 0 <= i < j < found.len() implies #[trigger] found[i].id
                    != #[trigger] found[j].id by {
                    if j < kept.len() {
                        assert(found[i] == candidates_of(kept, up)[i]);
                        assert(found[j] == candidates_of(kept, up)[j]);
                    } else {
                        assert(is_wanted(kept[i], states, up));
                        let k = choose|k: int| 0 <= k < before.len() && before[k] == kept[i];
                        assert(dirs[k] == kept[i]);
                        assert(migration_id(dirs[k].name@) != migration_id(
                            dirs[dirs.len() - 1].name@,
                        ));
                    }
                }
            }
        }
    }
}

/// With no history every migration is selected to be applied, and the
/// oldest comes first: where each directory is a migration whose up script
/// has statements, and no two have the same id, the run selects one
/// candidate for each directory, by strictly ascending id.
pub proof fn lemma_up_selects_all(dirs: Seq<MigrationDir>)
    requires
        forall|i: int| 0 <= i < dirs.len() ==> migration_id(#[trigger] dirs[i].name@) is Some,
        forall|i: int| 0 <= i < dirs.len() ==> candidate_of(#[trigger] dirs[i], true) is Ok,
        has_distinct_migrations(dirs),
    ensures
        selection(dirs, Map::empty(), true) matches Ok(chosen) && chosen.len() == dirs.len()
            && chosen.to_multiset() == candidates_of(dirs, true).to_multiset()
            && is_strictly_ordered(chosen, true),
{
    let states = Map::<u64, int>::empty();
    assert forall|i: int| 0 <= i < dirs.len() implies is_wanted(#[trigger] dirs[i], states, true) by {
        assert(migration_id(dirs[i].name@) is Some);
    }
    lemma_wanted_candidates(dirs, states, true);
    lemma_in_order(candidates_of(dirs, true), true);
}

/// The migrations that are applied, and no others, are selected to be
/// rolled back, and the newest comes first: where each applied migration has
/// a down script with statements, and no two directories have the same id,
/// the run selects one candidate for each directory whose net state is 1, by
/// strictly descending id.
pub proof fn lemma_down_selects_applied(dirs: Seq<MigrationDir>, states: Map<u64, int>)
    requires
        forall|i: int|
            0 <= i < dirs.len() && is_wanted(#[trigger] dirs[i], states, false) ==> candidate_of(
                dirs[i],
                false,
            ) is Ok,
        has_distinct_migrations(dirs),
    ensures
        selection(dirs, states, false) matches Ok(chosen) && chosen.to_multiset() == candidates_of(
            wanted_dirs(dirs, states, false),
            false,
        ).to_multiset() && is_strictly_ordered(chosen, false),
{
    lemma_wanted_candidates(dirs, states, false);
    lemma_in_order(candidates_of(wanted_dirs(dirs, states, false), false), false);
}

/// Only one place keeps the order: a candidate that is behind all that may
/// precede it, and before all others, is where `insert_in_order` puts it.
proof fn lemma_insert_at(sorted: Seq<CandidateView>, c: CandidateView, up: bool, p: int)
    requires
        0 <= p <= sorted.len(),
        forall|j: int| p <= j < sorted.len() ==> !may_precede(#[trigger] sorted[j].id, c.id, up),
        p > 0 ==> may_precede(sorted[p - 1].id, c.id, up),
    ensures
        insert_in_order(sorted, c, up) == sorted.insert(p, c),
{
    let q = lemma_insert_position(sorted, c, up);
    if p < q {
        assert(!may_precede(sorted[q - 1].id, c.id, up));
    } else if q < p {
        assert(!may_precede(sorted[p - 1].id, c.id, up));
    }
}

/// A failure is final: the directories that follow the one that failed do
/// not change it.
proof fn lemma_failure_stays(dirs: Seq<MigrationDir>, states: Map<u64, int>, up: bool, k: int)
    requires
        0 <= k <= dirs.len(),
        wanted_candidates(dirs.take(k), states, up) is Err,
    ensures
        wanted_candidates(dirs, states, up) == wanted_candidates(dirs.take(k), states, up),
    decreases dirs.len(),
{
    if k == dirs.len() {
        assert(dirs.take(k) =~= dirs);
    } else {
        assert(dirs.drop_last().take(k) =~= dirs.take(k));
        lemma_failure_stays(dirs.drop_last(), states, up, k);
    }
}

/// Tells whether the migration `a` may be executed before the migration `b`.
fn precedes(a: u64, b: u64, up: bool) -> (r: bool)
    ensures
        r == may_precede(a, b, up),
{
    if up {
        a <= b
    } else {
        a >= b
    }
}

/// Puts candidates in the order of execution.
pub fn sort_candidates(candidates: Vec<Candidate>, up: bool) -> (sorted: Vec<Candidate>)
    ensures
        views(sorted@) == in_order(views(candidates@), up),
        is_ordered(views(sorted@), up),
        views(sorted@).to_multiset() == views(candidates@).to_multiset(),
{
    let ghost all = candidates@;
    let mut sorted: Vec<Candidate> = Vec::new();
    assert(views(sorted@) =~= in_order(views(all.take(0)), up));
    for c in it: candidates
        invariant
            it.seq() == all,
            views(sorted@) == in_order(views(all.take(it.index())), up),
    {
        let ghost before = views(sorted@);
        let mut p: usize = sorted.len();
        while p > 0 && !precedes(sorted[p - 1].id, c.id, up)
            invariant
                p <= sorted.len(),
                before == views(sorted@),
                forall|j: int|
                    p <= j < before.len() ==> !may_precede(#[trigger] before[j].id, c.id, up),
            decreases p,
        {
            p = p - 1;
        }
        proof {
            lemma_insert_at(before, c@, up, p as int);
            assert(views(all.take(it.index() + 1)).drop_last() =~= views(
                all.take(it.index()),
            ));
        }
        sorted.insert(p, c);
        assert(views(sorted@) =~= before.insert(p as int, c@));
    }
    proof {
        assert(all.take(all.len() as int) =~= all);
        lemma_in_order(views(all), up);
    }
    sorted
}

/// Picks the migrations that a run in the direction `up` has to execute,
/// and puts them in the order of execution. A directory is picked where its
/// name gives a migration id whose net state makes it eligible. `None`
/// where no migration is picked. A picked migration whose script gives no
/// statements fails the selection, the first such directory deciding which
/// error is returned.
pub fn filter_migrations<E>(dirs: &Vec<MigrationDir>, history: &History, up: bool) -> (r: Result<
    Option<Vec<Candidate>>,
    Error<E>,
>)
    ensures
        match selection(dirs@, history@, up) {
            Err(f) => r matches Err(e) && reports(e, f),
            Ok(chosen) => r matches Ok(found) && if chosen.len() == 0 {
                found is None
            } else {
                found matches Some(v) && views(v@) == chosen
            },
        },
{
    let mut found: Vec<Candidate> = Vec::new();
    let mut i: usize = 0;
    assert(views(found@) =~= Seq::empty());
    while i < dirs.len()
        invariant
            i <= dirs.len(),
            wanted_candidates(dirs@.take(i as int), history@, up) == Ok::<
                Seq<CandidateView>,
                Failure,
            >(views(found@)),
        decreases dirs.len() - i,
    {
        let dir = &dirs[i];
        let ghost before = views(found@);
        proof {
            assert(dirs@.take(i + 1).drop_last() =~= dirs@.take(i as int));
        }
        match dir_id(dir.name.as_str()) {
            Some(id) => {
                let net = history.get(id);
                if (up && net == 0) || (!up && net == 1) {
                    let script = if up {
                        &dir.up
                    } else {
                        &dir.down
                    };
                    match parse_cql_file::<E>(script) {
                        Ok(statements) => {
                            found.push(Candidate { id, statements, path: script.path.clone() });
                            assert(views(found@) =~= before.push(found@.last()@));
                        },
                        Err(e) => {
                            proof {
                                lemma_failure_stays(dirs@, history@, up, i + 1);
                            }
                            return Err(e);
                        },
                    }
                }
            },
            None => {},
        }
        i = i + 1;
    }
    proof {
        assert(dirs@.take(i as int) =~= dirs@);
        lemma_in_order(views(found@), up);
    }
    if found.len() == 0 {
        return Ok(None);
    }
    Ok(Some(sort_candidates(found, up)))
}

} // verus!
