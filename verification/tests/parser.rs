use vemigrate::error::Error;
use vemigrate::parser::{
    is_blank_char, is_cql_comment_line, parse_cql_file, parse_script, FileContent, ScriptFile,
};

fn text_file(path: &str, text: &str) -> ScriptFile {
    ScriptFile { path: path.to_string(), content: FileContent::Text(text.to_string()) }
}

fn strings(items: &[&str]) -> Vec<String> {
    items.iter().map(|s| s.to_string()).collect()
}

#[test]
fn comments_are_skipped_and_statements_split() {
    let stmts =
        parse_script("-- comment\ncreate table t (a int);\n// c\ninsert into t values (1);");
    assert_eq!(stmts, strings(&["create table t (a int);", "insert into t values (1);"]));
}

#[test]
fn script_of_comments_only_is_a_parse_error() {
    let file = text_file("migrations/1_a/up.cql", "-- nothing here");
    let r: Result<Vec<String>, Error<String>> = parse_cql_file(&file);
    assert_eq!(
        r,
        Err(Error::ParseMigrationFile("no CQL found in migrations/1_a/up.cql".to_string()))
    );
}

#[test]
fn empty_script_is_a_parse_error() {
    let file = text_file("up.cql", "");
    let r: Result<Vec<String>, Error<String>> = parse_cql_file(&file);
    assert_eq!(r, Err(Error::ParseMigrationFile("no CQL found in up.cql".to_string())));
    assert!(parse_script("").is_empty());
    assert!(parse_script("\n\n   \n\t\n").is_empty());
}

#[test]
fn unreadable_script_is_an_io_error() {
    let file = ScriptFile {
        path: "down.cql".to_string(),
        content: FileContent::Unreadable("permission denied".to_string()),
    };
    let r: Result<Vec<String>, Error<String>> = parse_cql_file(&file);
    assert_eq!(r, Err(Error::Io("permission denied".to_string())));
}

#[test]
fn readable_script_gives_its_statements() {
    let file = text_file("up.cql", "select 1;\nselect 2;");
    let r: Result<Vec<String>, Error<String>> = parse_cql_file(&file);
    assert_eq!(r, Ok(strings(&["select 1;", "select 2;"])));
}

#[test]
fn last_statement_needs_no_separator() {
    assert_eq!(parse_script("select 1;\nselect 2"), strings(&["select 1;", "select 2"]));
    assert_eq!(parse_script("select 1"), strings(&["select 1"]));
}

#[test]
fn lines_of_a_statement_are_joined_without_space() {
    let stmts = parse_script("create table t (\n    a int,\n    b int\n);\nselect 1;");
    assert_eq!(stmts, strings(&["create table t (a int,b int);", "select 1;"]));
}

#[test]
fn comment_inside_a_statement_is_left_out() {
    let stmts = parse_script("create table t (\n-- the key\n a int\n// done\n);");
    assert_eq!(stmts, strings(&["create table t (a int);"]));
}

#[test]
fn lines_are_trimmed_before_they_are_judged() {
    let stmts = parse_script("   -- indented comment\r\n\t select 1 ;  \r\n  // x\r\n select 2;\r\n");
    assert_eq!(stmts, strings(&["select 1 ;", "select 2;"]));
}

#[test]
fn separator_inside_a_line_does_not_split() {
    assert_eq!(parse_script("select 1; select 2\nselect 3;"), strings(&["select 1; select 2select 3;"]));
}

#[test]
fn short_lines_are_statements() {
    assert_eq!(parse_script("a\n;\n-\n/"), strings(&["a;", "-/"]));
    assert_eq!(parse_script(";"), strings(&[";"]));
}

#[test]
fn text_beyond_ascii_is_kept() {
    let stmts = parse_script("insert into t values ('\u{e9}t\u{e9}');\n\u{3000}select '\u{20ac}';\u{a0}");
    assert_eq!(stmts, strings(&["insert into t values ('\u{e9}t\u{e9}');", "select '\u{20ac}';"]));
}

#[test]
fn blank_agrees_with_the_white_space_of_std() {
    let mut c = 0u32;
    while c <= 0x10FFFF {
        if let Some(ch) = char::from_u32(c) {
            assert_eq!(is_blank_char(ch), ch.is_whitespace(), "U+{:04X}", c);
        }
        c += 1;
    }
}

#[test]
fn comment_lines_begin_with_two_dashes_or_two_slashes() {
    assert!(is_cql_comment_line("-- a comment"));
    assert!(is_cql_comment_line("// a comment"));
    assert!(is_cql_comment_line("--"));
    assert!(is_cql_comment_line("//"));
    assert!(!is_cql_comment_line("-/ no"));
    assert!(!is_cql_comment_line("/- no"));
    assert!(!is_cql_comment_line("- - no"));
    assert!(!is_cql_comment_line("select 1; -- trailing"));
    assert!(!is_cql_comment_line("-"));
    assert!(!is_cql_comment_line("/"));
    assert!(!is_cql_comment_line(""));
    assert!(!is_cql_comment_line("\u{20ac}-- no"));
}

#[test]
fn parse_agrees_with_a_line_by_line_reading() {
    let texts = [
        "select 1;\n\n-- c\nselect\n 2\n;\n// d\nselect 3",
        "--only\n//comments\n",
        "a;b;\nc\nd;\n\ne",
        "\n;\n;\n",
        " x \n y ;\n z ",
    ];
    for text in texts.iter() {
        let mut expected: Vec<String> = Vec::new();
        let mut fresh = false;
        for line in text.split('\n') {
            let line = line.trim();
            if line.is_empty() || line.starts_with("--") || line.starts_with("//") {
                continue;
            }
            if fresh || expected.is_empty() {
                expected.push(String::new());
            }
            expected.last_mut().unwrap().push_str(line);
            fresh = line.ends_with(';');
        }
        assert_eq!(parse_script(text), expected, "{:?}", text);
    }
}
