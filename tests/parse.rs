use lcov_html::lcov::{LcovFile, LcovParseError, LcovParser};

const SAMPLE_LCOV_INFO: &str = "TN:
SF:src/controller/user.rs
FN:24,<user::CreateUser as From>::from
FN:36,user::UpdateUser::from
FN:114,user::configure_resources
FNDA:3,<user::CreateUser as From>::from
FNDA:1,user::UpdateUser::from
FNDA:4,user::configure_resources
FNF:3
FNH:3
BRDA:115,0,0,1
BRDA:115,0,1,-
BRF:2
BRH:1
DA:24,3
DA:25,3
DA:26,3
DA:36,1
DA:37,1
DA:114,4
DA:115,4
DA:120,4
DA:130,0
LF:9
LH:8
end_of_record
TN:
SF:/home/user/.cargo/registry/src/actix-web-2.0.0/src/lib.rs
DA:1,1
LF:1
LH:1
end_of_record
";

fn parse_ok(content: &str) -> LcovFile {
    LcovParser::parse(content).unwrap()
}

fn parse_err(content: &str) -> LcovParseError {
    match LcovParser::parse(content) {
        Ok(_) => panic!("expected a parse error"),
        Err(e) => e,
    }
}

#[test]
fn test_parse() {
    let res = LcovParser::parse(SAMPLE_LCOV_INFO);
    res.unwrap();
}

#[test]
fn sample_keeps_project_record_only() {
    let file = parse_ok(SAMPLE_LCOV_INFO);
    assert_eq!(file.reports.len(), 1);
    let r = &file.reports[0];
    assert_eq!(r.path, "src/controller/user.rs");
    assert_eq!(r.name, "");
    assert_eq!(r.fn_found, 3);
    assert_eq!(r.fn_hit, 3);
    assert_eq!(r.fn_ln.get("user::UpdateUser::from"), Some(&36));
    assert_eq!(r.fn_da.get("user::configure_resources"), Some(&4));
    assert_eq!(r.ln_data.len(), 9);
    assert_eq!(r.ln_data.get("130"), Some(&0));
    assert_eq!(r.ln_found, 9);
    assert_eq!(r.ln_hit, 8);
    assert_eq!(r.br_found, 2);
    assert_eq!(r.br_hit, 1);
    let b = r.br_data.get("115").unwrap();
    assert_eq!(b.blk, "0");
    assert_eq!(b.br, "1");
    assert_eq!(b.hit, "-");
}

#[test]
fn round_trip_single_block() {
    let file = parse_ok("TN:unit\nSF:src/a.rs\nFN:3,main\nFNDA:7,main\nDA:4,2\nend_of_record\n");
    assert_eq!(file.reports.len(), 1);
    let r = &file.reports[0];
    assert_eq!(r.name, "unit");
    assert_eq!(r.path, "src/a.rs");
    assert_eq!(r.fn_ln.len(), 1);
    assert_eq!(r.fn_ln.get("main"), Some(&3));
    assert_eq!(r.fn_da.len(), 1);
    assert_eq!(r.fn_da.get("main"), Some(&7));
    assert_eq!(r.ln_data.len(), 1);
    assert_eq!(r.ln_data.get("4"), Some(&2));
    assert_eq!(r.br_data.len(), 0);
    assert_eq!(r.fn_found, 0);
    assert_eq!(r.ln_found, 0);
}

#[test]
fn empty_path_block_dropped() {
    let file = parse_ok("TN:test\nend_of_record\n");
    assert_eq!(file.reports.len(), 0);
}

#[test]
fn skip_marker_paths_dropped() {
    let file = parse_ok("SF:/home/user/.cargo/registry/foo.rs\nend_of_record\n");
    assert_eq!(file.reports.len(), 0);
    let file = parse_ok("SF:/home/user/.rustup/toolchains/lib.rs\nend_of_record\n");
    assert_eq!(file.reports.len(), 0);
    let file = parse_ok("SF:/home/user/project/foo.rs\nend_of_record\n");
    assert_eq!(file.reports.len(), 1);
    assert_eq!(file.reports[0].path, "/home/user/project/foo.rs");
}

#[test]
fn later_path_overrides_skipped_one() {
    let file = parse_ok("SF:/x/.cargo/a.rs\nSF:src/b.rs\nend_of_record\n");
    assert_eq!(file.reports.len(), 1);
    assert_eq!(file.reports[0].path, "src/b.rs");
}

#[test]
fn custom_skip_markers() {
    let skip = vec!["vendor".to_string()];
    let content = "SF:/p/vendor/x.rs\nend_of_record\nSF:/p/.cargo/y.rs\nend_of_record\n";
    let file = LcovParser::parse_skipping(content, &skip).unwrap();
    assert_eq!(file.reports.len(), 1);
    assert_eq!(file.reports[0].path, "/p/.cargo/y.rs");
    let none: Vec<String> = vec![];
    let file = LcovParser::parse_skipping(content, &none).unwrap();
    assert_eq!(file.reports.len(), 2);
}

#[test]
fn line_data_last_write_wins() {
    let file = parse_ok("SF:a.rs\nDA:10,1\nDA:10,5\nend_of_record\n");
    let r = &file.reports[0];
    assert_eq!(r.ln_data.get("10"), Some(&5));
    assert_eq!(r.ln_data.len(), 1);
}

#[test]
fn records_keep_input_order() {
    let file = parse_ok("SF:b.rs\nend_of_record\nSF:a.rs\nend_of_record\n");
    assert_eq!(file.reports.len(), 2);
    assert_eq!(file.reports[0].path, "b.rs");
    assert_eq!(file.reports[1].path, "a.rs");
}

#[test]
fn unknown_token_fails_with_line_index() {
    let e = parse_err("SF:a.rs\n\nXX:1\nend_of_record\n");
    assert_eq!(e.line, 2);
    assert_eq!(e.message, "Unexpected token 'XX'");
    let e = parse_err("XX:1");
    assert_eq!(e.line, 0);
}

#[test]
fn counters_kept_exactly() {
    let file = parse_ok("SF:a.rs\nFNF:3\nFNH:2\nLF:10\nLH:7\nBRF:4\nBRH:1\nend_of_record\n");
    let r = &file.reports[0];
    assert_eq!(r.fn_found, 3);
    assert_eq!(r.fn_hit, 2);
    assert_eq!(r.ln_found, 10);
    assert_eq!(r.ln_hit, 7);
    assert_eq!(r.br_found, 4);
    assert_eq!(r.br_hit, 1);
}

#[test]
fn blank_lines_ignored() {
    let plain = parse_ok("TN:t\nSF:a.rs\nDA:1,1\nend_of_record\nTN:u\nSF:b.rs\nend_of_record");
    let spaced = parse_ok(
        "\n   \nTN:t\n\t\nSF:a.rs\r\n  DA:1,1  \nend_of_record\n \n\nTN:u\nSF:b.rs\nend_of_record\n\n",
    );
    assert_eq!(plain.reports.len(), 2);
    assert_eq!(spaced.reports.len(), 2);
    for i in 0..2 {
        assert_eq!(plain.reports[i].path, spaced.reports[i].path);
        assert_eq!(plain.reports[i].name, spaced.reports[i].name);
        assert_eq!(plain.reports[i].ln_data.len(), spaced.reports[i].ln_data.len());
    }
    assert_eq!(spaced.reports[0].ln_data.get("1"), Some(&1));
}

#[test]
fn empty_input_has_no_records() {
    assert_eq!(parse_ok("").reports.len(), 0);
    assert_eq!(parse_ok("\n\n").reports.len(), 0);
}

#[test]
fn unterminated_block_not_emitted() {
    let file = parse_ok("SF:a.rs\nDA:1,1\n");
    assert_eq!(file.reports.len(), 0);
}

#[test]
fn missing_test_name_and_path() {
    let e = parse_err("TN");
    assert_eq!(e.line, 0);
    assert_eq!(e.message, "No test name defined");
    let e = parse_err("TN:x\nSF");
    assert_eq!(e.line, 1);
    assert_eq!(e.message, "No source path defined");
}

#[test]
fn missing_fields_fail() {
    assert_eq!(parse_err("FN:12").message, "Missing field");
    assert_eq!(parse_err("FNDA").message, "Missing field");
    assert_eq!(parse_err("DA:12").message, "Missing field");
    assert_eq!(parse_err("BRDA:1,0,0").message, "Missing field");
    assert_eq!(parse_err("LF").message, "Missing field");
}

#[test]
fn malformed_numbers_fail() {
    assert_eq!(parse_err("FNF:x").message, "Invalid number");
    assert_eq!(parse_err("LH:").message, "Invalid number");
    assert_eq!(parse_err("LF:-1").message, "Invalid number");
    assert_eq!(parse_err("BRF:4294967296").message, "Invalid number");
    assert_eq!(parse_err("DA:1,two").message, "Invalid number");
    assert_eq!(parse_err("FN:a,main").message, "Invalid number");
    let e = parse_err("SF:a.rs\nDA:3,1\nFNH: 2\n");
    assert_eq!(e.line, 2);
    assert_eq!(e.message, "Invalid number");
}

#[test]
fn number_edge_values() {
    let file = parse_ok("SF:a.rs\nLF:4294967295\nLH:+12\nFNF:007\nend_of_record");
    let r = &file.reports[0];
    assert_eq!(r.ln_found, 4294967295);
    assert_eq!(r.ln_hit, 12);
    assert_eq!(r.fn_found, 7);
}

#[test]
fn remainder_runs_to_line_end() {
    let file = parse_ok("TN:a:b\nSF:C:/src/x.rs\nFN:5,f,extra\nend_of_record");
    let r = &file.reports[0];
    assert_eq!(r.name, "a:b");
    assert_eq!(r.path, "C:/src/x.rs");
    assert_eq!(r.fn_ln.get("f"), Some(&5));
    assert_eq!(r.fn_ln.get("f,extra"), None);
}

#[test]
fn end_of_record_resets_fields() {
    let file = parse_ok("SF:a.rs\nLF:3\nDA:1,1\nend_of_record\nSF:b.rs\nend_of_record");
    assert_eq!(file.reports[1].ln_found, 0);
    assert_eq!(file.reports[1].ln_data.len(), 0);
}

#[test]
fn unicode_tokens_kept() {
    let file = parse_ok("SF:src/caf\u{e9}.rs\nFN:1,\u{3bb}\u{2003}\nend_of_record");
    let r = &file.reports[0];
    assert_eq!(r.path, "src/caf\u{e9}.rs");
    assert_eq!(r.fn_ln.get("\u{3bb}"), Some(&1));
}

#[test]
fn covered_and_uncovered_partition() {
    let file = parse_ok("SF:a.rs\nDA:3,0\nDA:1,2\nDA:2,0\nDA:3,4\nend_of_record");
    let r = &file.reports[0];
    assert_eq!(r.covered_lines(), vec!["3".to_string(), "1".to_string()]);
    assert_eq!(r.uncovered_lines(), vec!["2".to_string()]);
}

#[test]
fn token_map_keeps_first_arrival_order() {
    let file = parse_ok("SF:a.rs\nFN:1,b\nFN:2,a\nFN:3,b\nend_of_record");
    let m = &file.reports[0].fn_ln;
    assert_eq!(m.len(), 2);
    let (k0, v0) = m.entry(0);
    let (k1, v1) = m.entry(1);
    assert_eq!((k0.as_str(), *v0), ("b", 3));
    assert_eq!((k1.as_str(), *v1), ("a", 2));
}

#[test]
fn defaults_are_empty() {
    let f = LcovFile::default();
    assert_eq!(f.reports.len(), 0);
    let r = lcov_html::lcov::LcovReport::default();
    assert_eq!(r.path, "");
    assert_eq!(r.ln_data.len(), 0);
    assert_eq!(r.fn_found, 0);
}

#[test]
fn unknown_token_after_good_line() {
    let e = parse_err("SF:a.rs\nXX:1\nend_of_record");
    assert_eq!(e.line, 1);
    assert_eq!(e.message, "Unexpected token 'XX'");
    let e = parse_err("SF:a.rs\n  \n\t\nXX:1\nend_of_record");
    assert_eq!(e.line, 3);
    assert_eq!(e.message, "Unexpected token 'XX'");
}

#[test]
fn partition_covers_each_line_once() {
    let file = parse_ok("SF:a.rs\nDA:1,0\nDA:2,3\nDA:3,0\nDA:2,0\nDA:4,9\nend_of_record");
    let r = &file.reports[0];
    let covered = r.covered_lines();
    let uncovered = r.uncovered_lines();
    assert_eq!(covered.len() + uncovered.len(), r.ln_data.len());
    assert_eq!(covered, vec!["4".to_string()]);
    assert_eq!(
        uncovered,
        vec!["1".to_string(), "2".to_string(), "3".to_string()]
    );
    for k in &covered {
        assert!(!uncovered.contains(k));
    }
}
