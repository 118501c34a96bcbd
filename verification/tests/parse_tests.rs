use kissat::parse::{faster_is_digit, parse_dimacs, Strictness};

fn parse(text: &str, strict: Strictness) -> (Option<&'static str>, u64, Option<i32>, Vec<i32>) {
    let r = parse_dimacs(text.as_bytes(), strict);
    (r.error, r.lineno, r.max_var, r.lits)
}

#[test]
fn well_formed_dimacs() {
    let (err, lineno, max_var, lits) = parse("c comment\np cnf 3 2\n1 -2 0\n2 3 0\n", Strictness::NormalParsing);
    assert_eq!(err, None);
    assert_eq!(max_var, Some(3));
    assert_eq!(lits, vec![1, -2, 0, 2, 3, 0]);
    assert_eq!(lineno, 5);
}

#[test]
fn comments_blanks_and_carriage_returns() {
    let text = "c a\r\n\np  cnf  2   1  \r\n  -1\t2 c trailing\n0\nc end";
    let (err, _, max_var, lits) = parse(text, Strictness::NormalParsing);
    assert_eq!(err, None);
    assert_eq!(max_var, Some(2));
    assert_eq!(lits, vec![-1, 2, 0]);
}

#[test]
fn header_errors() {
    assert_eq!(parse("", Strictness::NormalParsing).0, Some("empty file"));
    assert_eq!(parse("c x\n", Strictness::NormalParsing).0, Some("end-of-file before header"));
    assert_eq!(parse("x\n", Strictness::NormalParsing).0, Some("expected 'c' or 'p' at start of line"));
    assert_eq!(parse("p cnf x 1\n", Strictness::NormalParsing).0, Some("expected digit after 'p cnf '"));
    assert_eq!(parse("p cnf 1073741824 1\n", Strictness::NormalParsing).0, Some("maximum variable too large"));
    assert_eq!(parse("p cnf 2\n", Strictness::NormalParsing).0, Some("unexpected new-line after maximum variable"));
    assert_eq!(parse("\np cnf 1 0\n", Strictness::PedanticParsing).0, Some("unexpected empty line"));
    assert_eq!(parse("p cn 1 0\n", Strictness::NormalParsing).0, Some("expected 'n' after 'p cn'"));
}

#[test]
fn clause_errors_and_relaxed_parsing() {
    assert_eq!(parse("p cnf 1 1\n2 0\n", Strictness::NormalParsing).0,
        Some("maximum variable index exceeded (try '--relaxed' parsing)"));
    let (err, _, _, lits) = parse("p cnf 1 1\n2 0\n", Strictness::RelaxedParsing);
    assert_eq!(err, None);
    assert_eq!(lits, vec![2, 0]);
    assert_eq!(parse("p cnf 1 1\n1 0 1 0\n", Strictness::NormalParsing).0, Some("too many clauses (try '--relaxed' parsing)"));
    assert_eq!(parse("p cnf 1 2\n1 0\n", Strictness::NormalParsing).0, Some("one clause missing (try '--relaxed' parsing)"));
    assert_eq!(parse("p cnf 1 3\n1 0\n", Strictness::NormalParsing).0,
        Some("more than one clause missing (try '--relaxed' parsing)"));
    assert_eq!(parse("p cnf 1 1\n1\n", Strictness::NormalParsing).0, Some("trailing zero missing"));
    assert_eq!(parse("p cnf 1 1\n-0\n", Strictness::NormalParsing).0, Some("expected non-zero digit after '-'"));
    assert_eq!(parse("p cnf 1 1\n1x 0\n", Strictness::NormalParsing).0, Some("expected white space after literal"));
    assert_eq!(parse("p cnf 1 1\n1 0", Strictness::PedanticParsing).0, Some("unexpected end-of-file after trailing zero"));
    assert_eq!(parse("p cnf 1 1\n1 0", Strictness::NormalParsing).0, None);
}

#[test]
fn error_line_numbers() {
    // Errors reported through the new-line they stopped at name the line before it.
    let r = parse_dimacs(b"c one\nc two\np cnf 1 1\n-\n", Strictness::NormalParsing);
    assert_eq!(r.error, Some("unexpected new-line after '-'"));
    assert_eq!(r.lineno, 4);
    assert!(faster_is_digit(48) && !faster_is_digit(47));
}

use kissat::file::{
    compression_for_reading, compression_for_writing, has_suffix, matches_signature, pipe_command, read_command,
    signature, tool_name, write_command, Compression,
};

#[test]
fn compressed_files_by_suffix() {
    assert!(has_suffix("a.cnf.gz", ".gz"));
    assert!(!has_suffix("gz", ".gz"));
    assert_eq!(compression_for_reading("a.cnf.bz2"), Some(Compression::Bzip2));
    assert_eq!(compression_for_reading("a.cnf.Z"), Some(Compression::Compress));
    assert_eq!(compression_for_reading("a.cnf"), None);
    assert_eq!(compression_for_writing("a.cnf.Z"), None);
    assert_eq!(compression_for_writing("a.cnf.xz"), Some(Compression::Xz));
    assert_eq!(read_command(Compression::Gzip), "gzip -c -d %s");
    assert_eq!(write_command(Compression::SevenZip), Some("7z a -si %s 2>/dev/null"));
    assert!(matches_signature(&[0x1F, 0x8B], &signature(Compression::Gzip)));
    assert!(!matches_signature(&[0x1F], &signature(Compression::Gzip)));
}

#[test]
fn commands_for_a_file() {
    assert_eq!(tool_name("gzip -c -d %s"), "gzip");
    assert_eq!(tool_name("xz"), "xz");
    assert_eq!(pipe_command("gzip -c -d %s", "in.gz"), "gzip -c -d in.gz");
    assert_eq!(pipe_command("no placeholder", "x"), "no placeholder");
}
