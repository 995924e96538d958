use crate::error::{no_cql_message, Error};
use vstd::prelude::*;
use vstd::string::*;

verus! {

/// What reading a script file gave: its text, or the message of the failure.
#[derive(Clone, Debug, PartialEq, Eq)]
pub enum FileContent {
    Text(String),
    Unreadable(String),
}

/// A script file of a migration, as it was found on disk.
#[derive(Clone, Debug, PartialEq, Eq)]
pub struct ScriptFile {
    pub path: String,
    pub content: FileContent,
}

/// What a failed attempt to get the statements of a script file reports.
pub enum Failure {
    /// The file at this path holds no statement.
    NoStatement(Seq<char>),
    /// The file could not be read; the message says why.
    Unreadable(Seq<char>),
}

/// Tells whether the error `e` reports the failure `f`.
pub open spec fn reports<E>(e: Error<E>, f: Failure) -> bool {
    match f {
        Failure::NoStatement(path) => e matches Error::ParseMigrationFile(m) && m@
            == no_cql_message(path),
        Failure::Unreadable(message) => e matches Error::Io(m) && m@ == message,
    }
}

/// The statements of a script file, or why it has none to give.
pub open spec fn file_statements(file: ScriptFile) -> Result<Seq<Seq<char>>, Failure> {
    match file.content {
        FileContent::Unreadable(message) => Err(Failure::Unreadable(message@)),
        FileContent::Text(text) => if script_statements(text@).len() == 0 {
            Err(Failure::NoStatement(file.path@))
        } else {
            Ok(script_statements(text@))
        },
    }
}

/// White space: the characters with the Unicode property `White_Space`.
pub open spec fn is_blank(c: char) -> bool {
    let u = c as u32;
    ||| 0x09 <= u <= 0x0D
    ||| u == 0x20
    ||| u == 0x85
    ||| u == 0xA0
    ||| u == 0x1680
    ||| 0x2000 <= u <= 0x200A
    ||| u == 0x2028
    ||| u == 0x2029
    ||| u == 0x202F
    ||| u == 0x205F
    ||| u == 0x3000
}

/// Tells whether `c` is white space.
pub fn is_blank_char(c: char) -> (r: bool)
    ensures
        r == is_blank(c),
{
    let u: u32 = c as u32;
    (0x09 <= u && u <= 0x0D) || u == 0x20 || u == 0x85 || u == 0xA0 || u == 0x1680 || (0x2000 <= u
        && u <= 0x200A) || u == 0x2028 || u == 0x2029 || u == 0x202F || u == 0x205F || u == 0x3000
}

/// `s` without the white space it begins with.
pub open spec fn trim_start(s: Seq<char>) -> Seq<char>
    decreases s.len(),
{
    if s.len() > 0 && is_blank(s[0]) {
        trim_start(s.drop_first())
    } else {
        s
    }
}

/// `s` without the white space it ends with.
pub open spec fn trim_end(s: Seq<char>) -> Seq<char>
    decreases s.len(),
{
    if s.len() > 0 && is_blank(s.last()) {
        trim_end(s.drop_last())
    } else {
        s
    }
}

/// `s` without the white space around it.
pub open spec fn trimmed(s: Seq<char>) -> Seq<char> {
    trim_end(trim_start(s))
}

/// A comment line begins with `--` or with `//`.
pub open spec fn is_comment(line: Seq<char>) -> bool {
    line.len() >= 2 && ((line[0] == '-' && line[1] == '-') || (line[0] == '/' && line[1] == '/'))
}

/// A line that belongs to a statement: not empty and no comment.
pub open spec fn is_significant(line: Seq<char>) -> bool {
    line.len() > 0 && !is_comment(line)
}

/// A line that ends in `;` ends the statement it belongs to.
pub open spec fn ends_statement(line: Seq<char>) -> bool {
    line.len() > 0 && line.last() == ';'
}

/// The number of characters of `text` before the first `stop`, or all of
/// them where it holds none.
pub open spec fn run_len(text: Seq<char>, stop: char) -> nat
    decreases text.len(),
{
    if text.len() == 0 || text[0] == stop {
        0
    } else {
        1 + run_len(text.drop_first(), stop)
    }
}

/// The length of the first line of `text`: the number of characters before
/// its first line feed.
pub open spec fn first_line_len(text: Seq<char>) -> nat {
    run_len(text, '\n')
}

/// The lines of `text` that belong to statements, each without the white
/// space around it, in the order of the text.
pub open spec fn script_lines(text: Seq<char>) -> Seq<Seq<char>>
    decreases text.len(),
{
    let n = first_line_len(text);
    let line = trimmed(text.take(n as int));
    let found = if is_significant(line) {
        seq![line]
    } else {
        Seq::empty()
    };
    if n < text.len() {
        found + script_lines(text.skip(n as int + 1))
    } else {
        found
    }
}

/// The statements that a sequence of significant lines makes up. A line
/// opens a statement where it is the first line or follows a line that ends
/// in `;`. Any other line is joined to the statement before it, with nothing
/// in between.
pub open spec fn statements(lines: Seq<Seq<char>>) -> Seq<Seq<char>>
    decreases lines.len(),
{
    if lines.len() == 0 {
        Seq::empty()
    } else {
        let before = lines.drop_last();
        let so_far = statements(before);
        if before.len() == 0 || ends_statement(before.last()) {
            so_far.push(lines.last())
        } else {
            so_far.update(so_far.len() - 1, so_far.last() + lines.last())
        }
    }
}

/// The statements of a migration script.
pub open spec fn script_statements(text: Seq<char>) -> Seq<Seq<char>> {
    statements(script_lines(text))
}

/// The texts that a sequence of strings holds.
pub open spec fn texts(strings: Seq<String>) -> Seq<Seq<char>> {
    strings.map_values(|s: String| s@)
}

/// There is a statement as soon as there is a significant line.
pub proof fn lemma_statements_len(lines: Seq<Seq<char>>)
    ensures
        statements(lines).len() <= lines.len(),
        (statements(lines).len() == 0) == (lines.len() == 0),
    decreases lines.len(),
{
    if lines.len() > 0 {
        lemma_statements_len(lines.drop_last());
    }
}

/// Every line that `script_lines` gives belongs to a statement.
pub proof fn lemma_script_lines_significant(text: Seq<char>)
    ensures
        forall|i: int|
            0 <= i < script_lines(text).len() ==> is_significant(#[trigger] script_lines(text)[i]),
    decreases text.len(),
{
    let n = first_line_len(text);
    let line = trimmed(text.take(n as int));
    let found = if is_significant(line) {
        seq![line]
    } else {
        Seq::empty()
    };
    if n < text.len() {
        let rest = script_lines(text.skip(n as int + 1));
        lemma_script_lines_significant(text.skip(n as int + 1));
        assert forall|i: int| 0 <= i < (found + rest).len() implies is_significant(
            #[trigger] (found + rest)[i],
        ) by {
            if i >= found.len() {
                assert((found + rest)[i] == rest[i - found.len()]);
            }
        }
    }
}

/// No statement is empty, and every statement but the last ends in `;`. The
/// last one does where the last line does.
pub proof fn lemma_statements_shape(lines: Seq<Seq<char>>)
    requires
        forall|i: int| 0 <= i < lines.len() ==> (#[trigger] lines[i]).len() > 0,
    ensures
        forall|k: int|
            0 <= k < statements(lines).len() ==> (#[trigger] statements(lines)[k]).len() > 0,
        forall|k: int|
            0 <= k < statements(lines).len() - 1 ==> ends_statement(
                #[trigger] statements(lines)[k],
            ),
        lines.len() > 0 ==> ends_statement(statements(lines).last()) == ends_statement(
            lines.last(),
        ),
    decreases lines.len(),
{
    if lines.len() > 0 {
        let before = lines.drop_last();
        assert forall|i: int| 0 <= i < before.len() implies (#[trigger] before[i]).len() > 0 by {
            assert(before[i] == lines[i]);
        }
        lemma_statements_shape(before);
        lemma_statements_len(before);
        assert(lines[lines.len() - 1].len() > 0);
    }
}

/// The statements of a script are not empty, and each but the last ends in
/// `;`.
pub proof fn lemma_script_statements_shape(text: Seq<char>)
    ensures
        forall|k: int|
            0 <= k < script_statements(text).len() ==> (#[trigger] script_statements(
                text,
            )[k]).len() > 0,
        forall|k: int|
            0 <= k < script_statements(text).len() - 1 ==> ends_statement(
                #[trigger] script_statements(text)[k],
            ),
{
    lemma_script_lines_significant(text);
    lemma_statements_shape(script_lines(text));
}

/// The characters of `text`, one by one.
pub(crate) fn chars_of(text: &str) -> (chars: Vec<char>)
    ensures
        chars@ == text@,
{
    broadcast use vstd::string::group_string_axioms;

    let mut chars: Vec<char> = Vec::new();
    for c in it: text.chars()
        invariant
            it.seq() == text@,
            chars@ == it.seq().take(it.index()),
    {
        chars.push(c);
        assert(chars@ =~= it.seq().take(it.index() + 1));
    }
    assert(chars@ =~= text@);
    chars
}

/// The place of the first `stop` at or after `start`, or the length of
/// `chars` where none follows.
pub(crate) fn run_end(chars: &Vec<char>, start: usize, stop: char) -> (end: usize)
    requires
        start <= chars.len(),
    ensures
        start <= end <= chars.len(),
        end - start == run_len(chars@.skip(start as int), stop),
{
    let mut end: usize = start;
    while end < chars.len() && chars[end] != stop
        invariant
            start <= end <= chars.len(),
            run_len(chars@.skip(start as int), stop) == (end - start) + run_len(
                chars@.skip(end as int),
                stop,
            ),
        decreases chars.len() - end,
    {
        assert(chars@.skip(end as int).drop_first() =~= chars@.skip(end as int + 1));
        end = end + 1;
    }
    end
}

/// Where the characters from `start` to `end` begin and end once the white
/// space around them is left out.
fn trim_bounds(chars: &Vec<char>, start: usize, end: usize) -> (bounds: (usize, usize))
    requires
        start <= end <= chars.len(),
    ensures
        start <= bounds.0 <= bounds.1 <= end,
        chars@.subrange(bounds.0 as int, bounds.1 as int) == trimmed(
            chars@.subrange(start as int, end as int),
        ),
{
    let mut from: usize = start;
    while from < end && is_blank_char(chars[from])
        invariant
            start <= from <= end <= chars.len(),
            trim_start(chars@.subrange(start as int, end as int)) == trim_start(
                chars@.subrange(from as int, end as int),
            ),
        decreases end - from,
    {
        assert(chars@.subrange(from as int, end as int).drop_first() =~= chars@.subrange(
            from as int + 1,
            end as int,
        ));
        from = from + 1;
    }
    let mut to: usize = end;
    while from < to && is_blank_char(chars[to - 1])
        invariant
            from <= to <= end <= chars.len(),
            trim_end(chars@.subrange(from as int, end as int)) == trim_end(
                chars@.subrange(from as int, to as int),
            ),
        decreases to - from,
    {
        assert(chars@.subrange(from as int, to as int).drop_last() =~= chars@.subrange(
            from as int,
            to as int - 1,
        ));
        to = to - 1;
    }
    (from, to)
}

/// Tells whether `line` is a comment line: one that begins with `--` or `//`.
pub fn is_cql_comment_line(line: &str) -> (r: bool)
    ensures
        r == is_comment(line@),
{
    if line.unicode_len() < 2 {
        return false;
    }
    let first = line.get_char(0);
    let second = line.get_char(1);
    (first == '-' && second == '-') || (first == '/' && second == '/')
}

/// Splits a migration script into its statements. Comment lines and blank
/// lines are left out, the lines of a statement are joined with nothing in
/// between, and a line that ends in `;` ends its statement. The last
/// statement needs no `;`.
pub fn parse_script(text: &str) -> (stmts: Vec<String>)
    ensures
        texts(stmts@) == script_statements(text@),
{
    let chars = chars_of(text);
    let n = chars.len();
    let mut stmts: Vec<String> = Vec::new();
    let mut fresh = false;
    let mut start: usize = 0;
    let mut done = false;
    let ghost mut seen: Seq<Seq<char>> = Seq::empty();
    assert(text@.skip(0) =~= text@);
    assert(texts(stmts@) =~= statements(seen));
    while !done
        invariant
            chars@ == text@,
            n == chars.len(),
            start <= n,
            !done ==> seen + script_lines(text@.skip(start as int)) == script_lines(text@),
            done ==> seen == script_lines(text@),
            texts(stmts@) == statements(seen),
            fresh == (seen.len() > 0 && ends_statement(seen.last())),
        decreases
            if done {
                0
            } else {
                n - start + 1
            },
    {
        let end = run_end(&chars, start, '\n');
        let (from, to) = trim_bounds(&chars, start, end);
        let ghost rest = text@.skip(start as int);
        let ghost line = chars@.subrange(from as int, to as int);
        let ghost before = seen;
        proof {
            assert(rest.take(end - start) =~= chars@.subrange(start as int, end as int));
            if end < n {
                assert(rest.skip(end - start + 1) =~= text@.skip(end as int + 1));
            }
            lemma_statements_len(seen);
        }
        let comment = to - from >= 2 && (chars[from] == '-' || chars[from] == '/') && chars[from
            + 1] == chars[from];
        if from < to && !comment {
            let piece = text.substring_char(from, to);
            if fresh || stmts.len() == 0 {
                stmts.push(String::from_str(piece));
            } else {
                let mut current = stmts.pop().unwrap();
                current.append(piece);
                stmts.push(current);
            }
            fresh = chars[to - 1] == ';';
            proof {
                seen = seen.push(line);
                assert(seen.drop_last() =~= before);
                assert(texts(stmts@) =~= statements(seen));
                assert(seen =~= before + seq![line]);
            }
        } else {
            assert(seen =~= before + Seq::<Seq<char>>::empty());
        }
        if end >= n {
            done = true;
        } else {
            start = end + 1;
        }
    }
    stmts
}

/// The statements of a script file. A file that could not be read is an
/// I/O error, one without any statement a parse error that names the file.
pub fn parse_cql_file<E>(file: &ScriptFile) -> (r: Result<Vec<String>, Error<E>>)
    ensures
        match file_statements(*file) {
            Ok(found) => r matches Ok(stmts) && texts(stmts@) == found,
            Err(f) => r matches Err(e) && reports(e, f),
        },
{
    match &file.content {
        FileContent::Unreadable(message) => Err(Error::Io(message.clone())),
        FileContent::Text(text) => {
            let stmts = parse_script(text.as_str());
            if stmts.len() == 0 {
                Err(Error::no_cql(file.path.as_str()))
            } else {
                Ok(stmts)
            }
        },
    }
}

} // verus!
