//! The rewriting engine on small documents, with formatters written for each case.
use sqlx_fmt::literal::{format_raw_string_literal, format_string_literal, unquote_raw_string_literal};
use sqlx_fmt::rewrite::{rewrite, rewrite_with_flag, rewrite_with_names};
use sqlx_fmt::syntax::{find_and_collect, LiteralKind, LiteralOccurrence, SyntaxNode};
use sqlx_fmt::{format_query_macros_literals, formatted_output, split_macro_names, FormatError};

/// Collapses runs of whitespace to single spaces, on one line.
fn squash(sql: &str, _raw: bool) -> Result<String, String> {
    Ok(sql.split_whitespace().collect::<Vec<_>>().join(" ") + "\n")
}

/// Collapses whitespace and starts a new line before `from` and `where`.
fn clauses(sql: &str, _raw: bool) -> Result<String, String> {
    let mut out = String::new();
    for word in sql.split_whitespace() {
        if word == "from" || word == "where" {
            out.push('\n');
        } else if !out.is_empty() {
            out.push(' ');
        }
        out.push_str(word);
    }
    out.push('\n');
    Ok(out)
}

fn run(content: &str, formatter: fn(&str, bool) -> Result<String, String>) -> String {
    sqlx_fmt::format(content, 4, &None, formatter).unwrap()
}

#[test]
fn concrete_scenario() {
    let out = run("sqlx::query!(r#\"select   *   from t\"#, id)", squash);
    assert_eq!(out, "sqlx::query!(r#\"select * from t\"#, id)");
}

#[test]
fn single_line_raw_expands() {
    let content = "fn f() {\n    sqlx::query!(r#\"select * from t where id = 1\"#, id)\n}\n";
    let expected = "fn f() {\n    sqlx::query!(r#\"\n                     select *\n                     from t\n                     where id = 1\n                 \"#, id)\n}\n";
    assert_eq!(run(content, clauses), expected);
}

#[test]
fn multi_line_raw_collapses() {
    let content = "sqlx::query!(\n    r#\"\n        select *\n          from t\n    \"#,\n)";
    let expected = "sqlx::query!(\n    r#\"select * from t\"#,\n)";
    assert_eq!(run(content, squash), expected);
}

#[test]
fn quoted_multi_line_flattened() {
    let content = "sqlx::query!(\"select * from t where id = 1\")";
    let expected = "sqlx::query!(\"select * from t where id = 1\")";
    assert_eq!(run(content, clauses), expected);
    let out = run("sqlx::query!(\"select   *  from t\")", clauses);
    assert_eq!(out, "sqlx::query!(\"select * from t\")");
}

#[test]
fn delimiter_marks_preserved() {
    for marks in 0..4 {
        let h = "#".repeat(marks);
        let content = format!("sqlx::query!(r{h}\"select   1\"{h})");
        let expected = format!("sqlx::query!(r{h}\"select 1\"{h})");
        assert_eq!(run(&content, squash), expected);
        let lit = format_raw_string_literal(marks, 0, 4, 1, b"select 1\nfrom t\n");
        assert!(lit.starts_with(format!("r{h}\"\n").as_bytes()));
        assert!(lit.ends_with(format!("\n\"{h}").as_bytes()));
        assert_eq!(unquote_raw_string_literal(&lit), Some((marks, marks + 2, lit.len() - marks - 1)));
    }
}

#[test]
fn unlisted_macro_untouched() {
    let content = "other!(r#\"select   1\"#); query_typed!(\"select   2\")";
    assert_eq!(run(content, squash), content);
    let only_query = Some("query".to_string());
    let content = "sqlx::query!(\"select   1\"); query!(\"select   2\")";
    let out = sqlx_fmt::format(content, 4, &only_query, squash).unwrap();
    assert_eq!(out, "sqlx::query!(\"select   1\"); query!(\"select 2\")");
}

#[test]
fn nested_invocations_found() {
    let content = "mod m {\n    fn f() {\n        {\n            if x { sqlx::query!(\"select   1\") }\n        }\n    }\n}\nfn g() { let c = || sqlx::query_as!(T, r#\"select  2\"#); }\n";
    let expected = "mod m {\n    fn f() {\n        {\n            if x { sqlx::query!(\"select 1\") }\n        }\n    }\n}\nfn g() { let c = || sqlx::query_as!(T, r#\"select 2\"#); }\n";
    assert_eq!(run(content, squash), expected);
}

#[test]
fn failure_isolated() {
    let content = "sqlx::query!(\"bad   one\"); sqlx::query!(\"select   2\");";
    let out = sqlx_fmt::format(content, 4, &None, |sql: &str, raw: bool| {
        if sql.starts_with("bad") {
            Err("cannot format".to_string())
        } else {
            squash(sql, raw)
        }
    })
    .unwrap();
    assert_eq!(out, "sqlx::query!(\"bad   one\"); sqlx::query!(\"select 2\");");
}

#[test]
fn formatting_twice_is_stable() {
    let content = "fn f() {\n    sqlx::query!(\n        r##\"select *   from t where a = 1\"##,\n        x\n    );\n    sqlx::migrate!(\"select 1\n from u\");\n    sqlx::query!(r\"select 2\");\n}\n";
    let once = run(content, clauses);
    let twice = run(&once, clauses);
    assert_eq!(once, twice);
    assert_ne!(once, content);
}

#[test]
fn literal_indentation_is_configurable() {
    let content = "  sqlx::query!(r#\"select * from t\"#)";
    let out = sqlx_fmt::format(content, 2, &None, clauses).unwrap();
    assert_eq!(out, "  sqlx::query!(r#\"\n                 select *\n                 from t\n               \"#)");
}

#[test]
fn crlf_lines_and_trailing_blank_lines() {
    let lit = format_raw_string_literal(1, 2, 4, 1, b"select *\r\nfrom t\r\n\r\n\n");
    assert_eq!(lit, b"r#\"\n      select *\n      from t\n  \"#".to_vec());
    let lit = format_string_literal(b"  select *\r\n   from t  \n");
    assert_eq!(lit, b"\"select * from t\"".to_vec());
}

#[test]
fn non_ascii_text_kept_whole() {
    let content = "sqlx::query!(\"select   'é'  from   t\")";
    assert_eq!(run(content, squash), "sqlx::query!(\"select 'é' from t\")");
}

#[test]
fn empty_macro_list_is_an_error() {
    let macros = Some(" , ,".to_string());
    let r = sqlx_fmt::format("sqlx::query!(\"x\")", 4, &macros, squash);
    assert_eq!(r, Err(FormatError::NoMacros));
}

#[test]
fn macro_list_is_split_and_trimmed() {
    let names = split_macro_names(b" query, sqlx::query_as ,,migrate ");
    assert_eq!(names, vec![b"query".to_vec(), b"sqlx::query_as".to_vec(), b"migrate".to_vec()]);
    assert!(split_macro_names(b"").is_empty());
}

#[test]
fn names_given_as_strings() {
    let out = format_query_macros_literals(
        "query!(\"a   b\"); other!(\"c   d\")",
        4,
        vec!["other".to_string()],
        squash,
    )
    .unwrap();
    assert_eq!(out, "query!(\"a   b\"); other!(\"c d\")");
}

#[test]
fn unquote_raw_literals() {
    assert_eq!(unquote_raw_string_literal(b"r\"ab\""), Some((0, 2, 4)));
    assert_eq!(unquote_raw_string_literal(b"r##\"ab\"##"), Some((2, 4, 6)));
    assert_eq!(unquote_raw_string_literal(b"r###"), None);
    assert_eq!(unquote_raw_string_literal(b"r#\""), None);
    assert_eq!(unquote_raw_string_literal(b""), None);
}

fn node(kind: &str, field: Option<&str>, depth: usize, start: usize, end: usize) -> SyntaxNode {
    SyntaxNode {
        kind: kind.to_string(),
        field: field.map(|f| f.to_string()),
        depth,
        start_byte: start,
        end_byte: end,
        start_column: start,
    }
}

#[test]
fn walk_over_hand_built_tree() {
    let source = "q!(\"a\", r\"b\", \"c\")";
    let nodes = vec![
        node("source_file", None, 0, 0, 19),
        node("macro_invocation", None, 1, 0, 19),
        node("identifier", Some("macro"), 2, 0, 1),
        node("token_tree", None, 2, 2, 19),
        node("string_literal", None, 3, 3, 6),
        node("raw_string_literal", None, 3, 8, 12),
        node("string_literal", None, 3, 14, 17),
    ];
    let names = vec![b"q".to_vec()];
    let found = find_and_collect(source, &nodes, &names).unwrap();
    assert_eq!(found.len(), 2);
    assert_eq!(found[0].kind, LiteralKind::Quoted);
    assert_eq!(found[0].text, "a");
    assert_eq!(found[1].kind, LiteralKind::Raw { hashes: 0 });
    assert_eq!(found[1].text, "b");
    let none = find_and_collect(source, &nodes, &vec![b"p".to_vec()]).unwrap();
    assert!(none.is_empty());
}

#[test]
fn overlapping_literals_are_refused() {
    let source = "q!(\"abc\")";
    let nodes = vec![
        node("macro_invocation", None, 0, 0, 9),
        node("identifier", Some("macro"), 1, 0, 1),
        node("token_tree", None, 1, 2, 9),
        node("string_literal", None, 2, 3, 8),
        node("token_tree", None, 1, 2, 9),
        node("string_literal", None, 2, 3, 8),
    ];
    assert!(find_and_collect(source, &nodes, &vec![b"q".to_vec()]).is_none());
}

#[test]
fn rewrite_splices_by_original_offsets() {
    let source = "a \"x\" b \"y\" c";
    let occurrences = vec![
        LiteralOccurrence {
            kind: LiteralKind::Quoted,
            start_byte: 2,
            end_byte: 5,
            start_column: 2,
            line_count: 1,
            text: "x".to_string(),
        },
        LiteralOccurrence {
            kind: LiteralKind::Quoted,
            start_byte: 8,
            end_byte: 11,
            start_column: 8,
            line_count: 1,
            text: "y".to_string(),
        },
    ];
    let results = vec![Some("longer text\n".to_string()), Some("z\n".to_string())];
    assert_eq!(rewrite(source, &occurrences, &results, 4), "a \"longer text\" b \"z\" c");
    let results = vec![None, Some("z\n".to_string())];
    assert_eq!(rewrite(source, &occurrences, &results, 4), "a \"x\" b \"z\" c");
}

#[test]
fn error_messages() {
    assert!(FormatError::NoMacros.message().contains("no macros"));
    assert!(!FormatError::Unparsable.message().is_empty());
    assert!(!FormatError::Misplaced.message().is_empty());
    let r = rewrite_with_names("fn f() {}", 4, &vec![b"q".to_vec()], squash);
    assert_eq!(r, Ok("fn f() {}".to_string()));
}

#[test]
fn unicode_white_space_is_trimmed() {
    let inline = format_raw_string_literal(0, 0, 4, 2, "a\u{3000}".as_bytes());
    assert_eq!(inline, b"r\"a\"".to_vec());
    let many = format_raw_string_literal(0, 0, 4, 1, "a\n\u{3000}".as_bytes());
    assert_eq!(many, b"r\"\n    a\n\"".to_vec());
    let quoted = format_string_literal("\u{3000}\nb".as_bytes());
    assert_eq!(quoted, b"\" b\"".to_vec());
    let spaced = format_string_literal("\u{a0}a\u{2009}\u{85}\n\u{1680}b\u{205f}\u{202f}".as_bytes());
    assert_eq!(spaced, b"\"a b\"".to_vec());
    let kept = format_string_literal("\u{200b}a".as_bytes());
    assert_eq!(kept, "\"\u{200b}a\"".as_bytes().to_vec());
}

#[test]
fn unicode_white_space_in_macro_list() {
    assert!(split_macro_names("\u{85}".as_bytes()).is_empty());
    let r = sqlx_fmt::format("query!(\"a   b\")", 4, &Some("\u{85}".to_string()), squash);
    assert_eq!(r, Err(FormatError::NoMacros));
    let out = sqlx_fmt::format("query!(\"a   b\")", 4, &Some("query\u{85}".to_string()), squash);
    assert_eq!(out, Ok("query!(\"a b\")".to_string()));
}

#[test]
fn quoted_flag_is_handed_over() {
    let source = "q!(\"one\", r\"two\")";
    let mark = |sql: &str, raw: bool| -> Result<String, String> {
        Ok(format!("{sql} {}\n", if raw { "raw" } else { "quoted" }))
    };
    let names = vec![b"q".to_vec()];
    let out = rewrite_with_flag(source, 4, &names, false, mark).unwrap();
    assert_eq!(out, "q!(\"one quoted\", r\"two raw\")");
    let out = rewrite_with_flag(source, 4, &names, true, mark).unwrap();
    assert_eq!(out, "q!(\"one raw\", r\"two raw\")");
}

#[test]
fn formatter_output_settled() {
    assert_eq!(formatted_output("select 1  \n\n"), Some("select 1\n".to_string()));
    assert_eq!(formatted_output("  select 1\u{3000}"), Some("  select 1\n".to_string()));
    assert_eq!(formatted_output(" \n\u{3000}\t"), None);
    assert_eq!(formatted_output(""), None);
}
