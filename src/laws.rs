use vstd::prelude::*;

use crate::lcov::{
    number_name, parse_spec, counter_field, empty_report, line_remainder, line_token, parse_from, step, token_number,
    unexpected_token, is_skipped, ParseState, ReportModel,
};
use crate::text::{is_space, trim, trim_end, trim_start};

verus! {

/// The record-type tokens, character by character.
proof fn lemma_token_views()
    ensures
        "TN"@ == seq!['T', 'N'],
        "SF"@ == seq!['S', 'F'],
        "FN"@ == seq!['F', 'N'],
        "FNDA"@ == seq!['F', 'N', 'D', 'A'],
        "FNF"@ == seq!['F', 'N', 'F'],
        "FNH"@ == seq!['F', 'N', 'H'],
        "BRDA"@ == seq!['B', 'R', 'D', 'A'],
        "BRF"@ == seq!['B', 'R', 'F'],
        "BRH"@ == seq!['B', 'R', 'H'],
        "DA"@ == seq!['D', 'A'],
        "LH"@ == seq!['L', 'H'],
        "LF"@ == seq!['L', 'F'],
        "end_of_record"@ == seq!['e', 'n', 'd', '_', 'o', 'f', '_', 'r', 'e', 'c', 'o', 'r', 'd'],
        "TN"@.len() == 2,
        "SF"@.len() == 2,
        "FN"@.len() == 2,
        "FNDA"@.len() == 4,
        "FNF"@.len() == 3,
        "FNH"@.len() == 3,
        "BRDA"@.len() == 4,
        "BRF"@.len() == 3,
        "BRH"@.len() == 3,
        "DA"@.len() == 2,
        "LH"@.len() == 2,
        "LF"@.len() == 2,
        "end_of_record"@.len() == 13,
{
    reveal_strlit("TN");
    reveal_strlit("SF");
    reveal_strlit("FN");
    reveal_strlit("FNDA");
    reveal_strlit("FNF");
    reveal_strlit("FNH");
    reveal_strlit("BRDA");
    reveal_strlit("BRF");
    reveal_strlit("BRH");
    reveal_strlit("DA");
    reveal_strlit("LH");
    reveal_strlit("LF");
    reveal_strlit("end_of_record");
    assert("TN"@ =~= seq!['T', 'N']);
    assert("SF"@ =~= seq!['S', 'F']);
    assert("FN"@ =~= seq!['F', 'N']);
    assert("FNDA"@ =~= seq!['F', 'N', 'D', 'A']);
    assert("FNF"@ =~= seq!['F', 'N', 'F']);
    assert("FNH"@ =~= seq!['F', 'N', 'H']);
    assert("BRDA"@ =~= seq!['B', 'R', 'D', 'A']);
    assert("BRF"@ =~= seq!['B', 'R', 'F']);
    assert("BRH"@ =~= seq!['B', 'R', 'H']);
    assert("DA"@ =~= seq!['D', 'A']);
    assert("LH"@ =~= seq!['L', 'H']);
    assert("LF"@ =~= seq!['L', 'F']);
    assert("end_of_record"@ =~= seq!['e', 'n', 'd', '_', 'o', 'f', '_', 'r', 'e', 'c', 'o', 'r', 'd']);
}

proof fn lemma_all_space_trims_to_nothing(s: Seq<char>)
    requires
        forall|i: int| 0 <= i < s.len() ==> is_space(#[trigger] s[i]),
    ensures
        trim_start(s).len() == 0,
    decreases s.len(),
{
    if s.len() > 0 {
        assert forall|i: int| 0 <= i < s.skip(1).len() implies is_space(#[trigger] s.skip(1)[i]) by {
            assert(s.skip(1)[i] == s[i + 1]);
        }
        lemma_all_space_trims_to_nothing(s.skip(1));
    }
}

/// A line made of whitespace alone, or of nothing, changes nothing.
pub proof fn lemma_blank_line_ignored(st: ParseState, raw: Seq<char>, skip: Seq<Seq<char>>)
    requires
        forall|i: int| 0 <= i < raw.len() ==> is_space(#[trigger] raw[i]),
    ensures
        step(st, raw, skip) == Ok::<ParseState, Seq<char>>(st),
{
    lemma_all_space_trims_to_nothing(raw);
    assert(trim(raw).len() == 0);
}

/// `end_of_record` on a report without a path resets the report and adds
/// nothing to the finished ones.
pub proof fn lemma_pathless_record_dropped(st: ParseState, raw: Seq<char>, skip: Seq<Seq<char>>)
    requires
        line_token(trim(raw)) == "end_of_record"@,
        st.cur.path.len() == 0,
    ensures
        step(st, raw, skip) == Ok::<ParseState, Seq<char>>(
            ParseState { cur: empty_report(), done: st.done },
        ),
{
    lemma_token_views();
    crate::text::lemma_find_char(trim(raw), ':');
    assert(trim(raw).len() > 0);
}

/// `end_of_record` on a report with a path appends it after the reports
/// already finished, and starts an empty one.
pub proof fn lemma_record_appended_in_order(st: ParseState, raw: Seq<char>, skip: Seq<Seq<char>>)
    requires
        line_token(trim(raw)) == "end_of_record"@,
        st.cur.path.len() > 0,
    ensures
        step(st, raw, skip) == Ok::<ParseState, Seq<char>>(
            ParseState { cur: empty_report(), done: st.done.push(st.cur) },
        ),
{
    lemma_token_views();
    crate::text::lemma_find_char(trim(raw), ':');
    assert(trim(raw).len() > 0);
}

/// An `SF` path that holds a skip marker is ignored; any other sets the path.
pub proof fn lemma_source_path_filter(
    st: ParseState,
    raw: Seq<char>,
    path: Seq<char>,
    skip: Seq<Seq<char>>,
)
    requires
        line_token(trim(raw)) == "SF"@,
        line_remainder(trim(raw)) == Some(path),
    ensures
        is_skipped(path, skip) ==> step(st, raw, skip) == Ok::<ParseState, Seq<char>>(st),
        !is_skipped(path, skip) ==> step(st, raw, skip) == Ok::<ParseState, Seq<char>>(
            ParseState { cur: ReportModel { path, ..st.cur }, done: st.done },
        ),
{
    lemma_token_views();
    crate::text::lemma_find_char(trim(raw), ':');
    assert(trim(raw).len() > 0);
}

/// A `DA` line sets the hits of its line token, replacing an earlier value:
/// of two `DA` lines for one token, the later one wins.
pub proof fn lemma_line_data_last_write_wins(
    st: ParseState,
    first: Seq<char>,
    second: Seq<char>,
    skip: Seq<Seq<char>>,
    ln: Seq<char>,
    h1: u32,
    h2: u32,
)
    requires
        line_token(trim(first)) == "DA"@,
        line_token(trim(second)) == "DA"@,
        token_number(line_remainder(trim(first))) == Ok::<(Seq<char>, u32), Seq<char>>((ln, h1)),
        token_number(line_remainder(trim(second))) == Ok::<(Seq<char>, u32), Seq<char>>((ln, h2)),
    ensures
        step(st, first, skip) is Ok,
        step(step(st, first, skip)->Ok_0, second, skip) is Ok,
        step(step(st, first, skip)->Ok_0, second, skip)->Ok_0.cur.ln_data[ln] == h2,
        step(step(st, first, skip)->Ok_0, second, skip)->Ok_0.cur.ln_data.dom() == st.cur.ln_data.dom().insert(ln),
{
    lemma_token_views();
    crate::text::lemma_find_char(trim(first), ':');
    assert(trim(first).len() > 0);
    crate::text::lemma_find_char(trim(second), ':');
    assert(trim(second).len() > 0);
    let mid = step(st, first, skip)->Ok_0;
    assert(mid.cur.ln_data == st.cur.ln_data.insert(ln, h1));
    assert(mid.cur.ln_data.insert(ln, h2).dom() =~= st.cur.ln_data.dom().insert(ln));
}

/// The six counters take exactly the number on their line.
pub proof fn lemma_counters_kept(st: ParseState, raw: Seq<char>, skip: Seq<Seq<char>>, n: u32)
    requires
        counter_field(line_remainder(trim(raw))) == Ok::<u32, Seq<char>>(n),
    ensures
        line_token(trim(raw)) == "FNF"@ ==> step(st, raw, skip) == Ok::<ParseState, Seq<char>>(
            ParseState { cur: ReportModel { fn_found: n, ..st.cur }, done: st.done },
        ),
        line_token(trim(raw)) == "FNH"@ ==> step(st, raw, skip) == Ok::<ParseState, Seq<char>>(
            ParseState { cur: ReportModel { fn_hit: n, ..st.cur }, done: st.done },
        ),
        line_token(trim(raw)) == "BRF"@ ==> step(st, raw, skip) == Ok::<ParseState, Seq<char>>(
            ParseState { cur: ReportModel { br_found: n, ..st.cur }, done: st.done },
        ),
        line_token(trim(raw)) == "BRH"@ ==> step(st, raw, skip) == Ok::<ParseState, Seq<char>>(
            ParseState { cur: ReportModel { br_hit: n, ..st.cur }, done: st.done },
        ),
        line_token(trim(raw)) == "LF"@ ==> step(st, raw, skip) == Ok::<ParseState, Seq<char>>(
            ParseState { cur: ReportModel { ln_found: n, ..st.cur }, done: st.done },
        ),
        line_token(trim(raw)) == "LH"@ ==> step(st, raw, skip) == Ok::<ParseState, Seq<char>>(
            ParseState { cur: ReportModel { ln_hit: n, ..st.cur }, done: st.done },
        ),
{
    lemma_token_views();
    crate::text::lemma_find_char(trim(raw), ':');
    assert(trim(raw).len() > 0);
}

/// A non-blank line whose token is none of the known ones fails, naming the
/// token.
pub proof fn lemma_unknown_token_fails(st: ParseState, raw: Seq<char>, skip: Seq<Seq<char>>)
    requires
        trim(raw).len() > 0,
        line_token(trim(raw)) != "TN"@,
        line_token(trim(raw)) != "SF"@,
        line_token(trim(raw)) != "FN"@,
        line_token(trim(raw)) != "FNDA"@,
        line_token(trim(raw)) != "FNF"@,
        line_token(trim(raw)) != "FNH"@,
        line_token(trim(raw)) != "BRDA"@,
        line_token(trim(raw)) != "BRF"@,
        line_token(trim(raw)) != "BRH"@,
        line_token(trim(raw)) != "DA"@,
        line_token(trim(raw)) != "LH"@,
        line_token(trim(raw)) != "LF"@,
        line_token(trim(raw)) != "end_of_record"@,
    ensures
        step(st, raw, skip) == Err::<ParseState, Seq<char>>(unexpected_token(line_token(trim(raw)))),
{
}

/// A line that fails stops the parse with that line's index.
pub proof fn lemma_failing_line_reported(
    s: Seq<char>,
    line: int,
    st: ParseState,
    skip: Seq<Seq<char>>,
)
    requires
        step(st, s.take(crate::text::find_char(s, '\n')), skip) is Err,
    ensures
        parse_from(s, line, st, skip) == Err::<Seq<ReportModel>, (int, Seq<char>)>(
            (line, step(st, s.take(crate::text::find_char(s, '\n')), skip)->Err_0),
        ),
{
}

/// Parsing never reorders or drops a finished report: the reports finished
/// before come first in the result, in the same order.
pub proof fn lemma_finished_reports_kept(
    s: Seq<char>,
    line: int,
    st: ParseState,
    skip: Seq<Seq<char>>,
)
    requires
        parse_from(s, line, st, skip) is Ok,
    ensures
        st.done.len() <= parse_from(s, line, st, skip)->Ok_0.len(),
        parse_from(s, line, st, skip)->Ok_0.take(st.done.len() as int) == st.done,
    decreases s.len(),
{
    lemma_token_views();
    let e = crate::text::find_char(s, '\n');
    let next = step(st, s.take(e), skip)->Ok_0;
    assert(next.done.len() >= st.done.len() && next.done.take(st.done.len() as int) =~= st.done);
    if 0 <= e < s.len() {
        lemma_finished_reports_kept(s.skip(e + 1), line + 1, next, skip);
        let out = parse_from(s, line, st, skip)->Ok_0;
        assert(out.take(next.done.len() as int) == next.done);
        assert(out.take(st.done.len() as int) =~= next.done.take(st.done.len() as int));
    }
}


proof fn lemma_find_newline_in_line(l: Seq<char>, rest: Seq<char>)
    requires
        forall|j: int| 0 <= j < l.len() ==> l[j] != '\n',
    ensures
        crate::text::find_char(l + seq!['\n'] + rest, '\n') == l.len(),
    decreases l.len(),
{
    let s = l + seq!['\n'] + rest;
    if l.len() > 0 {
        assert(s.skip(1) =~= l.skip(1) + seq!['\n'] + rest);
        assert(l[0] != '\n');
        lemma_find_newline_in_line(l.skip(1), rest);
    } else {
        assert(s[0] == '\n');
    }
}

/// A line without a newline, followed by a newline and more text, is parsed
/// as that line and then the rest, from the next index.
pub proof fn lemma_parse_line_then_rest(
    l: Seq<char>,
    rest: Seq<char>,
    line: int,
    st: ParseState,
    skip: Seq<Seq<char>>,
)
    requires
        forall|j: int| 0 <= j < l.len() ==> l[j] != '\n',
    ensures
        parse_from(l + seq!['\n'] + rest, line, st, skip) == match step(st, l, skip) {
            Err(m) => Err((line, m)),
            Ok(next) => parse_from(rest, line + 1, next, skip),
        },
{
    let s = l + seq!['\n'] + rest;
    lemma_find_newline_in_line(l, rest);
    assert(s.take(l.len() as int) =~= l);
    assert(s.skip(l.len() as int + 1) =~= rest);
}

/// A trace of one well-formed block (`TN`, `SF`, `FN`, `FNDA`, `DA`,
/// `end_of_record`, one per line) parses into exactly one report that holds
/// the values of those lines and nothing else.
pub proof fn lemma_single_block_round_trip(
    tn: Seq<char>,
    sf: Seq<char>,
    fn_line: Seq<char>,
    fnda: Seq<char>,
    da: Seq<char>,
    end: Seq<char>,
    skip: Seq<Seq<char>>,
    name: Seq<char>,
    path: Seq<char>,
    func: Seq<char>,
    func_line: u32,
    func_hits: u32,
    ln: Seq<char>,
    hits: u32,
)
    requires
        forall|j: int| 0 <= j < tn.len() ==> tn[j] != '\n',
        forall|j: int| 0 <= j < sf.len() ==> sf[j] != '\n',
        forall|j: int| 0 <= j < fn_line.len() ==> fn_line[j] != '\n',
        forall|j: int| 0 <= j < fnda.len() ==> fnda[j] != '\n',
        forall|j: int| 0 <= j < da.len() ==> da[j] != '\n',
        forall|j: int| 0 <= j < end.len() ==> end[j] != '\n',
        line_token(trim(tn)) == "TN"@,
        line_remainder(trim(tn)) == Some(name),
        line_token(trim(sf)) == "SF"@,
        line_remainder(trim(sf)) == Some(path),
        path.len() > 0,
        !is_skipped(path, skip),
        line_token(trim(fn_line)) == "FN"@,
        number_name(line_remainder(trim(fn_line))) == Ok::<(u32, Seq<char>), Seq<char>>(
            (func_line, func),
        ),
        line_token(trim(fnda)) == "FNDA"@,
        number_name(line_remainder(trim(fnda))) == Ok::<(u32, Seq<char>), Seq<char>>(
            (func_hits, func),
        ),
        line_token(trim(da)) == "DA"@,
        token_number(line_remainder(trim(da))) == Ok::<(Seq<char>, u32), Seq<char>>((ln, hits)),
        line_token(trim(end)) == "end_of_record"@,
    ensures
        parse_spec(
            tn + seq!['\n'] + (sf + seq!['\n'] + (fn_line + seq!['\n'] + (fnda + seq!['\n'] + (da
                + seq!['\n'] + (end + seq!['\n']))))),
            skip,
        ) == Ok::<Seq<ReportModel>, (int, Seq<char>)>(
            seq![
                ReportModel {
                    name,
                    path,
                    fn_ln: Map::empty().insert(func, func_line),
                    fn_da: Map::empty().insert(func, func_hits),
                    ln_data: Map::empty().insert(ln, hits),
                    ..empty_report()
                },
            ],
        ),
{
    lemma_token_views();
    crate::text::lemma_find_char(trim(tn), ':');
    crate::text::lemma_find_char(trim(sf), ':');
    crate::text::lemma_find_char(trim(fn_line), ':');
    crate::text::lemma_find_char(trim(fnda), ':');
    crate::text::lemma_find_char(trim(da), ':');
    crate::text::lemma_find_char(trim(end), ':');
    let e: Seq<char> = Seq::empty();
    let r5 = end + seq!['\n'];
    let r4 = da + seq!['\n'] + r5;
    let r3 = fnda + seq!['\n'] + r4;
    let r2 = fn_line + seq!['\n'] + r3;
    let r1 = sf + seq!['\n'] + r2;
    let s0 = ParseState { cur: empty_report(), done: Seq::empty() };
    let s1 = step(s0, tn, skip)->Ok_0;
    let s2 = step(s1, sf, skip)->Ok_0;
    let s3 = step(s2, fn_line, skip)->Ok_0;
    let s4 = step(s3, fnda, skip)->Ok_0;
    let s5 = step(s4, da, skip)->Ok_0;
    let s6 = step(s5, end, skip)->Ok_0;
    assert(step(s0, tn, skip) is Ok);
    assert(step(s1, sf, skip) is Ok);
    assert(step(s2, fn_line, skip) is Ok);
    assert(step(s3, fnda, skip) is Ok);
    assert(step(s4, da, skip) is Ok);
    assert(step(s5, end, skip) is Ok);
    lemma_parse_line_then_rest(tn, r1, 0, s0, skip);
    lemma_parse_line_then_rest(sf, r2, 1, s1, skip);
    lemma_parse_line_then_rest(fn_line, r3, 2, s2, skip);
    lemma_parse_line_then_rest(fnda, r4, 3, s3, skip);
    lemma_parse_line_then_rest(da, r5, 4, s4, skip);
    assert(r5 =~= end + seq!['\n'] + e);
    lemma_parse_line_then_rest(end, e, 5, s5, skip);
    lemma_blank_line_ignored(s6, e.take(crate::text::find_char(e, '\n')), skip);
    assert(s6.done =~= seq![s5.cur]);
}


/// Ends the parse on the empty text that follows a final newline.
proof fn lemma_parse_empty_rest(line: int, st: ParseState, skip: Seq<Seq<char>>)
    ensures
        parse_from(Seq::empty(), line, st, skip) == Ok::<Seq<ReportModel>, (int, Seq<char>)>(
            st.done,
        ),
{
    let e: Seq<char> = Seq::empty();
    lemma_blank_line_ignored(st, e.take(crate::text::find_char(e, '\n')), skip);
}

/// A block of a `TN` line and `end_of_record`, with no `SF`, yields no report.
pub proof fn lemma_block_without_path_dropped(
    tn: Seq<char>,
    end: Seq<char>,
    skip: Seq<Seq<char>>,
    name: Seq<char>,
)
    requires
        forall|j: int| 0 <= j < tn.len() ==> tn[j] != '\n',
        forall|j: int| 0 <= j < end.len() ==> end[j] != '\n',
        line_token(trim(tn)) == "TN"@,
        line_remainder(trim(tn)) == Some(name),
        line_token(trim(end)) == "end_of_record"@,
    ensures
        parse_spec(tn + seq!['\n'] + (end + seq!['\n']), skip) == Ok::<
            Seq<ReportModel>,
            (int, Seq<char>),
        >(Seq::empty()),
{
    lemma_token_views();
    crate::text::lemma_find_char(trim(tn), ':');
    crate::text::lemma_find_char(trim(end), ':');
    let e: Seq<char> = Seq::empty();
    let s0 = ParseState { cur: empty_report(), done: Seq::empty() };
    let s1 = step(s0, tn, skip)->Ok_0;
    assert(step(s0, tn, skip) is Ok);
    lemma_parse_line_then_rest(tn, end + seq!['\n'], 0, s0, skip);
    assert(end + seq!['\n'] =~= end + seq!['\n'] + e);
    lemma_pathless_record_dropped(s1, end, skip);
    lemma_parse_line_then_rest(end, e, 1, s1, skip);
    lemma_parse_empty_rest(2, step(s1, end, skip)->Ok_0, skip);
}

/// A block of an `SF` line and `end_of_record` yields no report when the path
/// holds a skip marker, and one report with that path otherwise.
pub proof fn lemma_skipped_block_dropped(
    sf: Seq<char>,
    end: Seq<char>,
    skip: Seq<Seq<char>>,
    path: Seq<char>,
)
    requires
        forall|j: int| 0 <= j < sf.len() ==> sf[j] != '\n',
        forall|j: int| 0 <= j < end.len() ==> end[j] != '\n',
        line_token(trim(sf)) == "SF"@,
        line_remainder(trim(sf)) == Some(path),
        path.len() > 0,
        line_token(trim(end)) == "end_of_record"@,
    ensures
        is_skipped(path, skip) ==> parse_spec(sf + seq!['\n'] + (end + seq!['\n']), skip) == Ok::<
            Seq<ReportModel>,
            (int, Seq<char>),
        >(Seq::empty()),
        !is_skipped(path, skip) ==> parse_spec(sf + seq!['\n'] + (end + seq!['\n']), skip)
            == Ok::<Seq<ReportModel>, (int, Seq<char>)>(
            seq![ReportModel { path, ..empty_report() }],
        ),
{
    lemma_token_views();
    crate::text::lemma_find_char(trim(sf), ':');
    crate::text::lemma_find_char(trim(end), ':');
    let e: Seq<char> = Seq::empty();
    let s0 = ParseState { cur: empty_report(), done: Seq::empty() };
    lemma_source_path_filter(s0, sf, path, skip);
    let s1 = step(s0, sf, skip)->Ok_0;
    lemma_parse_line_then_rest(sf, end + seq!['\n'], 0, s0, skip);
    assert(end + seq!['\n'] =~= end + seq!['\n'] + e);
    lemma_parse_line_then_rest(end, e, 1, s1, skip);
    if is_skipped(path, skip) {
        lemma_pathless_record_dropped(s1, end, skip);
    } else {
        lemma_record_appended_in_order(s1, end, skip);
        assert(s1.cur == ReportModel { path, ..empty_report() });
        assert(Seq::<ReportModel>::empty().push(s1.cur) =~= seq![s1.cur]);
    }
    lemma_parse_empty_rest(2, step(s1, end, skip)->Ok_0, skip);
}

/// Two blocks, each an `SF` line and `end_of_record`, yield their reports in
/// the order of the input: the parser does not sort.
pub proof fn lemma_two_blocks_in_input_order(
    sf1: Seq<char>,
    end1: Seq<char>,
    sf2: Seq<char>,
    end2: Seq<char>,
    skip: Seq<Seq<char>>,
    p1: Seq<char>,
    p2: Seq<char>,
)
    requires
        forall|j: int| 0 <= j < sf1.len() ==> sf1[j] != '\n',
        forall|j: int| 0 <= j < end1.len() ==> end1[j] != '\n',
        forall|j: int| 0 <= j < sf2.len() ==> sf2[j] != '\n',
        forall|j: int| 0 <= j < end2.len() ==> end2[j] != '\n',
        line_token(trim(sf1)) == "SF"@,
        line_remainder(trim(sf1)) == Some(p1),
        line_token(trim(sf2)) == "SF"@,
        line_remainder(trim(sf2)) == Some(p2),
        p1.len() > 0,
        p2.len() > 0,
        !is_skipped(p1, skip),
        !is_skipped(p2, skip),
        line_token(trim(end1)) == "end_of_record"@,
        line_token(trim(end2)) == "end_of_record"@,
    ensures
        parse_spec(
            sf1 + seq!['\n'] + (end1 + seq!['\n'] + (sf2 + seq!['\n'] + (end2 + seq!['\n']))),
            skip,
        ) == Ok::<Seq<ReportModel>, (int, Seq<char>)>(
            seq![
                ReportModel { path: p1, ..empty_report() },
                ReportModel { path: p2, ..empty_report() },
            ],
        ),
{
    lemma_token_views();
    crate::text::lemma_find_char(trim(end1), ':');
    crate::text::lemma_find_char(trim(end2), ':');
    let e: Seq<char> = Seq::empty();
    let r3 = end2 + seq!['\n'];
    let r2 = sf2 + seq!['\n'] + r3;
    let r1 = end1 + seq!['\n'] + r2;
    let s0 = ParseState { cur: empty_report(), done: Seq::empty() };
    lemma_source_path_filter(s0, sf1, p1, skip);
    let s1 = step(s0, sf1, skip)->Ok_0;
    lemma_record_appended_in_order(s1, end1, skip);
    let s2 = step(s1, end1, skip)->Ok_0;
    lemma_source_path_filter(s2, sf2, p2, skip);
    let s3 = step(s2, sf2, skip)->Ok_0;
    lemma_record_appended_in_order(s3, end2, skip);
    let s4 = step(s3, end2, skip)->Ok_0;
    lemma_parse_line_then_rest(sf1, r1, 0, s0, skip);
    lemma_parse_line_then_rest(end1, r2, 1, s1, skip);
    lemma_parse_line_then_rest(sf2, r3, 2, s2, skip);
    assert(r3 =~= end2 + seq!['\n'] + e);
    lemma_parse_line_then_rest(end2, e, 3, s3, skip);
    lemma_parse_empty_rest(4, s4, skip);
    assert(s4.done =~= seq![
        ReportModel { path: p1, ..empty_report() },
        ReportModel { path: p2, ..empty_report() },
    ]);
}


/// `l` holds no newline.
pub open spec fn no_newline(l: Seq<char>) -> bool {
    forall|j: int| 0 <= j < l.len() ==> l[j] != '\n'
}

/// The text whose lines, split on `'\n'`, are `lines`.
pub open spec fn join_lines(lines: Seq<Seq<char>>) -> Seq<char>
    decreases lines.len(),
{
    if lines.len() <= 1 {
        if lines.len() == 0 {
            Seq::empty()
        } else {
            lines[0]
        }
    } else {
        lines[0] + seq!['\n'] + join_lines(lines.skip(1))
    }
}

/// Adds `k` to the line index of an error.
pub open spec fn shift_err(r: Result<ParseState, (int, Seq<char>)>, k: int) -> Result<
    ParseState,
    (int, Seq<char>),
> {
    match r {
        Ok(st) => Ok(st),
        Err((j, m)) => Err((j + k, m)),
    }
}

/// Applies `lines` one after the other: the final state, or the index
/// (within `lines`) and message of the first line that fails.
pub open spec fn run_lines(st: ParseState, lines: Seq<Seq<char>>, skip: Seq<Seq<char>>) -> Result<
    ParseState,
    (int, Seq<char>),
>
    decreases lines.len(),
{
    if lines.len() == 0 {
        Ok(st)
    } else {
        match step(st, lines[0], skip) {
            Err(m) => Err((0, m)),
            Ok(next) => shift_err(run_lines(next, lines.skip(1), skip), 1),
        }
    }
}

/// What a parse returns once its lines have run.
pub open spec fn finish(r: Result<ParseState, (int, Seq<char>)>) -> Result<
    Seq<ReportModel>,
    (int, Seq<char>),
> {
    match r {
        Ok(st) => Ok(st.done),
        Err(e) => Err(e),
    }
}

proof fn lemma_find_newline_at_end(l: Seq<char>)
    requires
        no_newline(l),
    ensures
        crate::text::find_char(l, '\n') == l.len(),
    decreases l.len(),
{
    if l.len() > 0 {
        assert(l[0] != '\n');
        lemma_find_newline_at_end(l.skip(1));
    }
}

/// Parsing a text is running `step` over its lines, in order.
pub proof fn lemma_parse_is_run_of_lines(
    lines: Seq<Seq<char>>,
    line: int,
    st: ParseState,
    skip: Seq<Seq<char>>,
)
    requires
        lines.len() >= 1,
        forall|i: int| 0 <= i < lines.len() ==> no_newline(#[trigger] lines[i]),
    ensures
        parse_from(join_lines(lines), line, st, skip) == match run_lines(st, lines, skip) {
            Ok(fin) => Ok(fin.done),
            Err((j, m)) => Err((line + j, m)),
        },
    decreases lines.len(),
{
    let l0 = lines[0];
    assert(no_newline(l0));
    if lines.len() == 1 {
        lemma_find_newline_at_end(l0);
        assert(l0.take(l0.len() as int) =~= l0);
        assert(lines.skip(1).len() == 0);
        assert(join_lines(lines) == l0);
        match step(st, l0, skip) {
            Err(m) => {
                assert(parse_from(l0, line, st, skip) == Err::<Seq<ReportModel>, (int, Seq<char>)>((line, m)));
            },
            Ok(next) => {
                assert(run_lines(next, lines.skip(1), skip) == Ok::<ParseState, (int, Seq<char>)>(next));
                assert(parse_from(l0, line, st, skip) == Ok::<Seq<ReportModel>, (int, Seq<char>)>(next.done));
            },
        }
    } else {
        let rest = lines.skip(1);
        assert forall|i: int| 0 <= i < rest.len() implies no_newline(#[trigger] rest[i]) by {
            assert(rest[i] == lines[i + 1]);
        }
        lemma_parse_line_then_rest(l0, join_lines(rest), line, st, skip);
        match step(st, l0, skip) {
            Err(m) => {},
            Ok(next) => {
                lemma_parse_is_run_of_lines(rest, line + 1, next, skip);
            },
        }
    }
}

/// The whole parse of a text is `finish` of running `step` over its lines.
pub proof fn lemma_parse_spec_is_run(lines: Seq<Seq<char>>, skip: Seq<Seq<char>>)
    requires
        lines.len() >= 1,
        forall|i: int| 0 <= i < lines.len() ==> no_newline(#[trigger] lines[i]),
    ensures
        parse_spec(join_lines(lines), skip) == finish(
            run_lines(ParseState { cur: empty_report(), done: Seq::empty() }, lines, skip),
        ),
{
    lemma_parse_is_run_of_lines(
        lines,
        0,
        ParseState { cur: empty_report(), done: Seq::empty() },
        skip,
    );
}

/// A failing run names one of its own lines.
pub proof fn lemma_run_err_index(st: ParseState, lines: Seq<Seq<char>>, skip: Seq<Seq<char>>)
    ensures
        match run_lines(st, lines, skip) {
            Err((j, m)) => 0 <= j < lines.len(),
            Ok(_) => true,
        },
    decreases lines.len(),
{
    if lines.len() > 0 {
        match step(st, lines[0], skip) {
            Err(m) => {},
            Ok(next) => {
                lemma_run_err_index(next, lines.skip(1), skip);
            },
        }
    }
}

/// Running lines is running their first `i`, then the rest from there.
pub proof fn lemma_run_split(
    st: ParseState,
    lines: Seq<Seq<char>>,
    i: int,
    skip: Seq<Seq<char>>,
)
    requires
        0 <= i <= lines.len(),
    ensures
        run_lines(st, lines, skip) == match run_lines(st, lines.take(i), skip) {
            Err(e) => Err(e),
            Ok(mid) => shift_err(run_lines(mid, lines.skip(i), skip), i),
        },
    decreases i,
{
    if i == 0 {
        assert(lines.take(0).len() == 0);
        assert(lines.skip(0) =~= lines);
        match run_lines(st, lines, skip) {
            Ok(_) => {},
            Err(_) => {},
        }
    } else {
        let t = lines.take(i);
        assert(t[0] == lines[0]);
        match step(st, lines[0], skip) {
            Err(m) => {},
            Ok(next) => {
                lemma_run_split(next, lines.skip(1), i - 1, skip);
                assert(t.skip(1) =~= lines.skip(1).take(i - 1));
                assert(lines.skip(1).skip(i - 1) =~= lines.skip(i));
            },
        }
    }
}

/// In a trace whose lines before index `i` all apply without error, a line
/// `i` that is not blank and whose token is none of the known ones makes the
/// parse fail at index `i`, naming that token.
pub proof fn lemma_unknown_token_fails_trace(
    lines: Seq<Seq<char>>,
    i: int,
    skip: Seq<Seq<char>>,
)
    requires
        0 <= i < lines.len(),
        forall|k: int| 0 <= k < lines.len() ==> no_newline(#[trigger] lines[k]),
        run_lines(ParseState { cur: empty_report(), done: Seq::empty() }, lines.take(i), skip) is Ok,
        trim(lines[i]).len() > 0,
        line_token(trim(lines[i])) != "TN"@,
        line_token(trim(lines[i])) != "SF"@,
        line_token(trim(lines[i])) != "FN"@,
        line_token(trim(lines[i])) != "FNDA"@,
        line_token(trim(lines[i])) != "FNF"@,
        line_token(trim(lines[i])) != "FNH"@,
        line_token(trim(lines[i])) != "BRDA"@,
        line_token(trim(lines[i])) != "BRF"@,
        line_token(trim(lines[i])) != "BRH"@,
        line_token(trim(lines[i])) != "DA"@,
        line_token(trim(lines[i])) != "LH"@,
        line_token(trim(lines[i])) != "LF"@,
        line_token(trim(lines[i])) != "end_of_record"@,
    ensures
        parse_spec(join_lines(lines), skip) == Err::<Seq<ReportModel>, (int, Seq<char>)>(
            (i, unexpected_token(line_token(trim(lines[i])))),
        ),
{
    let s0 = ParseState { cur: empty_report(), done: Seq::empty() };
    lemma_parse_spec_is_run(lines, skip);
    lemma_run_split(s0, lines, i, skip);
    let mid = run_lines(s0, lines.take(i), skip)->Ok_0;
    let rest = lines.skip(i);
    assert(rest[0] == lines[i]);
    lemma_unknown_token_fails(mid, lines[i], skip);
}

/// Inserting a line of whitespace alone (or an empty line) at index `i`
/// leaves the result of a parse unchanged, but for the index of a failing
/// line at or after `i`, which grows by one.
pub proof fn lemma_blank_line_inserted(
    lines: Seq<Seq<char>>,
    i: int,
    blank: Seq<char>,
    skip: Seq<Seq<char>>,
)
    requires
        0 <= i <= lines.len(),
        lines.len() >= 1,
        forall|k: int| 0 <= k < lines.len() ==> no_newline(#[trigger] lines[k]),
        forall|j: int| 0 <= j < blank.len() ==> is_space(#[trigger] blank[j]),
        no_newline(blank),
    ensures
        parse_spec(join_lines(lines.insert(i, blank)), skip) == match parse_spec(
            join_lines(lines),
            skip,
        ) {
            Ok(rs) => Ok(rs),
            Err((j, m)) => Err((if j < i { j } else { j + 1 }, m)),
        },
{
    let s0 = ParseState { cur: empty_report(), done: Seq::empty() };
    let l2 = lines.insert(i, blank);
    assert forall|k: int| 0 <= k < l2.len() implies no_newline(#[trigger] l2[k]) by {
        if k < i {
            assert(l2[k] == lines[k]);
        } else if k > i {
            assert(l2[k] == lines[k - 1]);
        }
    }
    lemma_parse_spec_is_run(lines, skip);
    lemma_parse_spec_is_run(l2, skip);
    lemma_run_split(s0, lines, i, skip);
    lemma_run_split(s0, l2, i, skip);
    assert(l2.take(i) =~= lines.take(i));
    lemma_run_err_index(s0, lines.take(i), skip);
    match run_lines(s0, lines.take(i), skip) {
        Err(e) => {},
        Ok(mid) => {
            let tail2 = l2.skip(i);
            assert(tail2[0] == blank);
            assert(tail2.skip(1) =~= lines.skip(i));
            lemma_blank_line_ignored(mid, blank, skip);
            lemma_run_err_index(mid, lines.skip(i), skip);
        },
    }
}

/// Adding whitespace around line `i` leaves the result of a parse unchanged.
pub proof fn lemma_line_padding_ignored(
    lines: Seq<Seq<char>>,
    i: int,
    padded: Seq<char>,
    skip: Seq<Seq<char>>,
)
    requires
        0 <= i < lines.len(),
        forall|k: int| 0 <= k < lines.len() ==> no_newline(#[trigger] lines[k]),
        no_newline(padded),
        trim(padded) == trim(lines[i]),
    ensures
        parse_spec(join_lines(lines.update(i, padded)), skip) == parse_spec(join_lines(lines), skip),
{
    let s0 = ParseState { cur: empty_report(), done: Seq::empty() };
    let l2 = lines.update(i, padded);
    assert forall|k: int| 0 <= k < l2.len() implies no_newline(#[trigger] l2[k]) by {
        if k != i {
            assert(l2[k] == lines[k]);
        }
    }
    lemma_parse_spec_is_run(lines, skip);
    lemma_parse_spec_is_run(l2, skip);
    lemma_run_split(s0, lines, i, skip);
    lemma_run_split(s0, l2, i, skip);
    assert(l2.take(i) =~= lines.take(i));
    match run_lines(s0, lines.take(i), skip) {
        Err(e) => {},
        Ok(mid) => {
            let t1 = lines.skip(i);
            let t2 = l2.skip(i);
            assert(t2.skip(1) =~= t1.skip(1));
            assert(t1[0] == lines[i]);
            assert(t2[0] == padded);
        },
    }
}

} // verus!
