use vstd::prelude::*;

use crate::text::{
    lemma_find_char, chars_of, contains_in, contains_seq, find_char, find_in, parse_u32, parse_u32_spec,
    string_of_range, trim, trim_range,
};
use crate::token_map::TokenMap;

verus! {

/// One `BRDA` entry, its fields kept as the raw tokens of the trace.
pub struct BrData {
    pub blk: String,
    pub br: String,
    pub hit: String,
}

impl View for BrData {
    type V = (Seq<char>, Seq<char>, Seq<char>);

    open spec fn view(&self) -> (Seq<char>, Seq<char>, Seq<char>) {
        (self.blk@, self.br@, self.hit@)
    }
}

/// The coverage facts of one source file: one `SF` ... `end_of_record` block.
pub struct LcovReport {
    pub name: String,
    pub path: String,
    pub fn_found: u32,
    pub fn_hit: u32,
    pub fn_ln: TokenMap<u32>,
    pub fn_da: TokenMap<u32>,
    pub br_hit: u32,
    pub br_found: u32,
    pub br_data: TokenMap<BrData>,
    pub ln_hit: u32,
    pub ln_found: u32,
    pub ln_data: TokenMap<u32>,
}

/// What a report holds, as mathematical values.
pub struct ReportModel {
    pub name: Seq<char>,
    pub path: Seq<char>,
    pub fn_found: u32,
    pub fn_hit: u32,
    pub fn_ln: Map<Seq<char>, u32>,
    pub fn_da: Map<Seq<char>, u32>,
    pub br_hit: u32,
    pub br_found: u32,
    pub br_data: Map<Seq<char>, (Seq<char>, Seq<char>, Seq<char>)>,
    pub ln_hit: u32,
    pub ln_found: u32,
    pub ln_data: Map<Seq<char>, u32>,
}

impl View for LcovReport {
    type V = ReportModel;

    open spec fn view(&self) -> ReportModel {
        ReportModel {
            name: self.name@,
            path: self.path@,
            fn_found: self.fn_found,
            fn_hit: self.fn_hit,
            fn_ln: self.fn_ln.view(),
            fn_da: self.fn_da.view(),
            br_hit: self.br_hit,
            br_found: self.br_found,
            br_data: self.br_data.view().map_values(|b: BrData| b@),
            ln_hit: self.ln_hit,
            ln_found: self.ln_found,
            ln_data: self.ln_data.view(),
        }
    }
}

impl LcovReport {
    pub open spec fn wf(&self) -> bool {
        &&& self.fn_ln.wf()
        &&& self.fn_da.wf()
        &&& self.br_data.wf()
        &&& self.ln_data.wf()
    }

    /// A report with every field empty or zero.
    pub fn new() -> (r: Self)
        ensures
            r.wf(),
            r@ == empty_report(),
    {
        let r = LcovReport {
            name: String::new(),
            path: String::new(),
            fn_found: 0,
            fn_hit: 0,
            fn_ln: TokenMap::new(),
            fn_da: TokenMap::new(),
            br_hit: 0,
            br_found: 0,
            br_data: TokenMap::new(),
            ln_hit: 0,
            ln_found: 0,
            ln_data: TokenMap::new(),
        };
        assert(r@.br_data =~= Map::empty());
        r
    }
}

impl Default for LcovReport {
    fn default() -> (r: Self)
        ensures
            r.wf(),
            r@ == empty_report(),
    {
        LcovReport::new()
    }
}

/// A report with every field empty or zero.
pub open spec fn empty_report() -> ReportModel {
    ReportModel {
        name: Seq::empty(),
        path: Seq::empty(),
        fn_found: 0,
        fn_hit: 0,
        fn_ln: Map::empty(),
        fn_da: Map::empty(),
        br_hit: 0,
        br_found: 0,
        br_data: Map::empty(),
        ln_hit: 0,
        ln_found: 0,
        ln_data: Map::empty(),
    }
}

/// The reports of one trace, in the order in which their blocks ended.
pub struct LcovFile {
    pub reports: Vec<LcovReport>,
}

pub open spec fn report_models(rs: Seq<LcovReport>) -> Seq<ReportModel> {
    rs.map_values(|r: LcovReport| r@)
}

pub open spec fn all_wf(rs: Seq<LcovReport>) -> bool {
    forall|i: int| 0 <= i < rs.len() ==> (#[trigger] rs[i]).wf()
}

impl View for LcovFile {
    type V = Seq<ReportModel>;

    open spec fn view(&self) -> Seq<ReportModel> {
        report_models(self.reports@)
    }
}

impl LcovFile {
    pub open spec fn wf(&self) -> bool {
        all_wf(self.reports@)
    }
}

impl Default for LcovFile {
    fn default() -> (r: Self)
        ensures
            r.wf(),
            r@ == Seq::<ReportModel>::empty(),
    {
        let r = LcovFile { reports: Vec::new() };
        assert(r@ =~= Seq::<ReportModel>::empty());
        r
    }
}

/// Why a trace was refused: the 0-based index of the offending line, and a
/// description.
#[derive(Debug)]
pub struct LcovParseError {
    pub line: usize,
    pub message: String,
}

impl LcovParseError {
    pub fn new(line: usize, message: String) -> (r: Self)
        ensures
            r.line == line,
            r.message@ == message@,
    {
        LcovParseError { line, message }
    }
}

/// The parser's state between two lines: the report being filled, and the
/// reports already finished.
pub struct ParseState {
    pub cur: ReportModel,
    pub done: Seq<ReportModel>,
}

pub open spec fn missing_field() -> Seq<char> {
    "Missing field"@
}

pub open spec fn invalid_number() -> Seq<char> {
    "Invalid number"@
}

pub open spec fn unexpected_token(ty: Seq<char>) -> Seq<char> {
    "Unexpected token '"@ + ty + "'"@
}

/// The text before the first comma.
pub open spec fn head(s: Seq<char>) -> Seq<char> {
    s.take(find_char(s, ','))
}

/// The text after the first comma, if `s` has one.
pub open spec fn tail(s: Seq<char>) -> Option<Seq<char>> {
    if find_char(s, ',') < s.len() {
        Some(s.skip(find_char(s, ',') + 1))
    } else {
        None
    }
}

/// A single number: the whole remainder.
pub open spec fn counter_field(rem: Option<Seq<char>>) -> Result<u32, Seq<char>> {
    match rem {
        None => Err(missing_field()),
        Some(r) => match parse_u32_spec(r) {
            Some(n) => Ok(n),
            None => Err(invalid_number()),
        },
    }
}

/// `<number>,<name>`, as in `FN` and `FNDA`.
pub open spec fn number_name(rem: Option<Seq<char>>) -> Result<(u32, Seq<char>), Seq<char>> {
    match rem {
        None => Err(missing_field()),
        Some(r) => match tail(r) {
            None => Err(missing_field()),
            Some(t) => match parse_u32_spec(head(r)) {
                Some(n) => Ok((n, head(t))),
                None => Err(invalid_number()),
            },
        },
    }
}

/// `<line>,<hits>`, as in `DA`: the line kept as a token, the hits a number.
pub open spec fn token_number(rem: Option<Seq<char>>) -> Result<(Seq<char>, u32), Seq<char>> {
    match rem {
        None => Err(missing_field()),
        Some(r) => match tail(r) {
            None => Err(missing_field()),
            Some(t) => match parse_u32_spec(head(t)) {
                Some(n) => Ok((head(r), n)),
                None => Err(invalid_number()),
            },
        },
    }
}

/// `<line>,<block>,<branch>,<hit>`, as in `BRDA`: four raw tokens.
pub open spec fn branch_fields(rem: Option<Seq<char>>) -> Option<
    (Seq<char>, (Seq<char>, Seq<char>, Seq<char>)),
> {
    match rem {
        None => None,
        Some(r0) => match tail(r0) {
            None => None,
            Some(r1) => match tail(r1) {
                None => None,
                Some(r2) => match tail(r2) {
                    None => None,
                    Some(r3) => Some((head(r0), (head(r1), head(r2), head(r3)))),
                },
            },
        },
    }
}

/// `path` holds one of the skip markers.
pub open spec fn is_skipped(path: Seq<char>, skip: Seq<Seq<char>>) -> bool {
    exists|i: int| 0 <= i < skip.len() && contains_seq(path, #[trigger] skip[i])
}

/// The record-type token of a trimmed line: the text before its first colon.
pub open spec fn line_token(line: Seq<char>) -> Seq<char> {
    line.take(find_char(line, ':'))
}

/// The text after the first colon of a trimmed line, if it has a colon.
pub open spec fn line_remainder(line: Seq<char>) -> Option<Seq<char>> {
    if find_char(line, ':') < line.len() {
        Some(line.skip(find_char(line, ':') + 1))
    } else {
        None
    }
}

pub open spec fn with_cur(st: ParseState, cur: ReportModel) -> ParseState {
    ParseState { cur, done: st.done }
}

/// What one line of the trace does to the parser's state.
pub open spec fn step(st: ParseState, raw: Seq<char>, skip: Seq<Seq<char>>) -> Result<
    ParseState,
    Seq<char>,
> {
    let line = trim(raw);
    let ty = line_token(line);
    let rem = line_remainder(line);
    let c = st.cur;
    if line.len() == 0 {
        Ok(st)
    } else if ty == "TN"@ {
        match rem {
            None => Err("No test name defined"@),
            Some(r) => Ok(with_cur(st, ReportModel { name: r, ..c })),
        }
    } else if ty == "SF"@ {
        match rem {
            None => Err("No source path defined"@),
            Some(r) => if is_skipped(r, skip) {
                Ok(st)
            } else {
                Ok(with_cur(st, ReportModel { path: r, ..c }))
            },
        }
    } else if ty == "FN"@ {
        match number_name(rem) {
            Err(m) => Err(m),
            Ok((n, name)) => Ok(with_cur(st, ReportModel { fn_ln: c.fn_ln.insert(name, n), ..c })),
        }
    } else if ty == "FNDA"@ {
        match number_name(rem) {
            Err(m) => Err(m),
            Ok((n, name)) => Ok(with_cur(st, ReportModel { fn_da: c.fn_da.insert(name, n), ..c })),
        }
    } else if ty == "FNF"@ {
        match counter_field(rem) {
            Err(m) => Err(m),
            Ok(n) => Ok(with_cur(st, ReportModel { fn_found: n, ..c })),
        }
    } else if ty == "FNH"@ {
        match counter_field(rem) {
            Err(m) => Err(m),
            Ok(n) => Ok(with_cur(st, ReportModel { fn_hit: n, ..c })),
        }
    } else if ty == "BRDA"@ {
        match branch_fields(rem) {
            None => Err(missing_field()),
            Some((ln, b)) => Ok(with_cur(st, ReportModel { br_data: c.br_data.insert(ln, b), ..c })),
        }
    } else if ty == "BRF"@ {
        match counter_field(rem) {
            Err(m) => Err(m),
            Ok(n) => Ok(with_cur(st, ReportModel { br_found: n, ..c })),
        }
    } else if ty == "BRH"@ {
        match counter_field(rem) {
            Err(m) => Err(m),
            Ok(n) => Ok(with_cur(st, ReportModel { br_hit: n, ..c })),
        }
    } else if ty == "DA"@ {
        match token_number(rem) {
            Err(m) => Err(m),
            Ok((ln, n)) => Ok(with_cur(st, ReportModel { ln_data: c.ln_data.insert(ln, n), ..c })),
        }
    } else if ty == "LH"@ {
        match counter_field(rem) {
            Err(m) => Err(m),
            Ok(n) => Ok(with_cur(st, ReportModel { ln_hit: n, ..c })),
        }
    } else if ty == "LF"@ {
        match counter_field(rem) {
            Err(m) => Err(m),
            Ok(n) => Ok(with_cur(st, ReportModel { ln_found: n, ..c })),
        }
    } else if ty == "end_of_record"@ {
        Ok(
            ParseState {
                cur: empty_report(),
                done: if c.path.len() > 0 {
                    st.done.push(c)
                } else {
                    st.done
                },
            },
        )
    } else {
        Err(unexpected_token(ty))
    }
}

/// Parses the lines of `s`, the first of which has index `line`, from state
/// `st`: the finished reports, or the index and message of the first bad line.
pub open spec fn parse_from(s: Seq<char>, line: int, st: ParseState, skip: Seq<Seq<char>>) -> Result<
    Seq<ReportModel>,
    (int, Seq<char>),
>
    decreases s.len(),
{
    let e = find_char(s, '\n');
    match step(st, s.take(e), skip) {
        Err(m) => Err((line, m)),
        Ok(next) => if 0 <= e < s.len() {
            parse_from(s.skip(e + 1), line + 1, next, skip)
        } else {
            Ok(next.done)
        },
    }
}

/// The whole of a trace, parsed with the given skip markers.
pub open spec fn parse_spec(content: Seq<char>, skip: Seq<Seq<char>>) -> Result<
    Seq<ReportModel>,
    (int, Seq<char>),
> {
    parse_from(content, 0, ParseState { cur: empty_report(), done: Seq::empty() }, skip)
}

/// The markers of vendored and toolchain paths that a plain parse skips.
pub open spec fn default_skip() -> Seq<Seq<char>> {
    seq![".cargo"@, ".rustup"@]
}


/// The skip markers as character sequences.
pub open spec fn marker_views(skip: Seq<Vec<char>>) -> Seq<Seq<char>> {
    skip.map_values(|m: Vec<char>| m@)
}

/// The characters of an optional range of `t`.
pub open spec fn range_view(t: Seq<char>, rem: Option<(usize, usize)>) -> Option<Seq<char>> {
    match rem {
        Some((a, b)) => Some(t.subrange(a as int, b as int)),
        None => None,
    }
}

pub open spec fn range_ok(t: Seq<char>, rem: Option<(usize, usize)>) -> bool {
    match rem {
        Some((a, b)) => a <= b <= t.len(),
        None => true,
    }
}

proof fn lemma_ranges(t: Seq<char>, lo: int, m: int, hi: int)
    requires
        0 <= lo <= m <= hi <= t.len(),
    ensures
        t.subrange(lo, hi).take(m - lo) == t.subrange(lo, m),
        m < hi ==> t.subrange(lo, hi).skip(m - lo + 1) == t.subrange(m + 1, hi),
{
    assert(t.subrange(lo, hi).take(m - lo) =~= t.subrange(lo, m));
    if m < hi {
        assert(t.subrange(lo, hi).skip(m - lo + 1) =~= t.subrange(m + 1, hi));
    }
}

/// Finds the first comma of `text[lo..hi]`: what comes before it is `head`,
/// what comes after it is `tail`.
fn split_comma(text: &Vec<char>, lo: usize, hi: usize) -> (r: usize)
    requires
        lo <= hi <= text@.len(),
    ensures
        lo <= r <= hi,
        head(text@.subrange(lo as int, hi as int)) == text@.subrange(lo as int, r as int),
        r < hi ==> tail(text@.subrange(lo as int, hi as int)) == Some(
            text@.subrange(r + 1, hi as int),
        ),
        r == hi ==> tail(text@.subrange(lo as int, hi as int)) is None,
{
    let r = find_in(text, lo, hi, ',');
    proof {
        lemma_find_char(text@.subrange(lo as int, hi as int), ',');
        lemma_ranges(text@, lo as int, r as int, hi as int);
    }
    r
}

fn missing_field_msg() -> (r: String)
    ensures
        r@ == missing_field(),
{
    String::from_str("Missing field")
}

fn invalid_number_msg() -> (r: String)
    ensures
        r@ == invalid_number(),
{
    String::from_str("Invalid number")
}

fn read_counter(text: &Vec<char>, rem: Option<(usize, usize)>) -> (r: Result<u32, String>)
    requires
        range_ok(text@, rem),
    ensures
        match counter_field(range_view(text@, rem)) {
            Ok(n) => r is Ok && r->Ok_0 == n,
            Err(m) => r is Err && r->Err_0@ == m,
        },
{
    match rem {
        None => Err(missing_field_msg()),
        Some((a, b)) => match parse_u32(text, a, b) {
            Some(n) => Ok(n),
            None => Err(invalid_number_msg()),
        },
    }
}

fn read_number_name(text: &Vec<char>, rem: Option<(usize, usize)>) -> (r: Result<(u32, String), String>)
    requires
        range_ok(text@, rem),
    ensures
        match number_name(range_view(text@, rem)) {
            Ok((n, name)) => r matches Ok((n2, name2)) && n2 == n && name2@ == name,
            Err(m) => r is Err && r->Err_0@ == m,
        },
{
    match rem {
        None => Err(missing_field_msg()),
        Some((a, b)) => {
            let c = split_comma(text, a, b);
            if c == b {
                return Err(missing_field_msg());
            }
            let d = split_comma(text, c + 1, b);
            match parse_u32(text, a, c) {
                Some(n) => Ok((n, string_of_range(text, c + 1, d))),
                None => Err(invalid_number_msg()),
            }
        },
    }
}

fn read_token_number(text: &Vec<char>, rem: Option<(usize, usize)>) -> (r: Result<(String, u32), String>)
    requires
        range_ok(text@, rem),
    ensures
        match token_number(range_view(text@, rem)) {
            Ok((tok, n)) => r matches Ok((tok2, n2)) && tok2@ == tok && n2 == n,
            Err(m) => r is Err && r->Err_0@ == m,
        },
{
    match rem {
        None => Err(missing_field_msg()),
        Some((a, b)) => {
            let c = split_comma(text, a, b);
            if c == b {
                return Err(missing_field_msg());
            }
            let d = split_comma(text, c + 1, b);
            match parse_u32(text, c + 1, d) {
                Some(n) => Ok((string_of_range(text, a, c), n)),
                None => Err(invalid_number_msg()),
            }
        },
    }
}

fn read_branch(text: &Vec<char>, rem: Option<(usize, usize)>) -> (r: Option<(String, BrData)>)
    requires
        range_ok(text@, rem),
    ensures
        match branch_fields(range_view(text@, rem)) {
            Some((ln, b)) => r matches Some((ln2, b2)) && ln2@ == ln && b2@ == b,
            None => r is None,
        },
{
    match rem {
        None => None,
        Some((a, b)) => {
            let c1 = split_comma(text, a, b);
            if c1 == b {
                return None;
            }
            let c2 = split_comma(text, c1 + 1, b);
            if c2 == b {
                return None;
            }
            let c3 = split_comma(text, c2 + 1, b);
            if c3 == b {
                return None;
            }
            let c4 = split_comma(text, c3 + 1, b);
            let data = BrData {
                blk: string_of_range(text, c1 + 1, c2),
                br: string_of_range(text, c2 + 1, c3),
                hit: string_of_range(text, c3 + 1, c4),
            };
            Some((string_of_range(text, a, c1), data))
        },
    }
}

/// Tells whether `text[lo..hi]` holds one of the markers.
fn skipped(text: &Vec<char>, lo: usize, hi: usize, skip: &Vec<Vec<char>>) -> (r: bool)
    requires
        lo <= hi <= text@.len(),
    ensures
        r == is_skipped(text@.subrange(lo as int, hi as int), marker_views(skip@)),
{
    let ghost path = text@.subrange(lo as int, hi as int);
    let mut i: usize = 0;
    while i < skip.len()
        invariant
            i <= skip@.len(),
            lo <= hi <= text@.len(),
            path == text@.subrange(lo as int, hi as int),
            forall|j: int| 0 <= j < i ==> !contains_seq(path, #[trigger] marker_views(skip@)[j]),
        decreases skip@.len() - i,
    {
        if contains_in(text, lo, hi, &skip[i]) {
            assert(contains_seq(path, marker_views(skip@)[i as int]));
            return true;
        }
        i = i + 1;
    }
    false
}

fn token_is(ty: &String, word: &str) -> (r: bool)
    ensures
        r == (ty@ == word@),
{
    *ty == String::from_str(word)
}

/// Applies one line, `text[lo..hi]`, to the report being filled and to the
/// finished ones.
fn apply_line(
    text: &Vec<char>,
    lo: usize,
    hi: usize,
    skip: &Vec<Vec<char>>,
    cur: &mut LcovReport,
    done: &mut Vec<LcovReport>,
) -> (r: Result<(), String>)
    requires
        lo <= hi <= text@.len(),
        old(cur).wf(),
        all_wf(old(done)@),
    ensures
        final(cur).wf(),
        all_wf(final(done)@),
        match step(
            ParseState { cur: old(cur)@, done: report_models(old(done)@) },
            text@.subrange(lo as int, hi as int),
            marker_views(skip@),
        ) {
            Ok(st) => r is Ok && final(cur)@ == st.cur && report_models(final(done)@) == st.done,
            Err(m) => r is Err && r->Err_0@ == m,
        },
{
    let (a, b) = trim_range(text, lo, hi);
    if a == b {
        return Ok(());
    }
    let c = find_in(text, a, b, ':');
    proof {
        lemma_find_char(text@.subrange(a as int, b as int), ':');
        lemma_ranges(text@, a as int, c as int, b as int);
    }
    let ty = string_of_range(text, a, c);
    let rem: Option<(usize, usize)> = if c < b {
        Some((c + 1, b))
    } else {
        None
    };
    assert(range_view(text@, rem) == line_remainder(text@.subrange(a as int, b as int)));
    if token_is(&ty, "TN") {
        match rem {
            None => Err(String::from_str("No test name defined")),
            Some((x, y)) => {
                cur.name = string_of_range(text, x, y);
                Ok(())
            },
        }
    } else if token_is(&ty, "SF") {
        match rem {
            None => Err(String::from_str("No source path defined")),
            Some((x, y)) => {
                if !skipped(text, x, y, skip) {
                    cur.path = string_of_range(text, x, y);
                }
                Ok(())
            },
        }
    } else if token_is(&ty, "FN") {
        match read_number_name(text, rem) {
            Err(m) => Err(m),
            Ok((n, name)) => {
                cur.fn_ln.insert(name, n);
                Ok(())
            },
        }
    } else if token_is(&ty, "FNDA") {
        match read_number_name(text, rem) {
            Err(m) => Err(m),
            Ok((n, name)) => {
                cur.fn_da.insert(name, n);
                Ok(())
            },
        }
    } else if token_is(&ty, "FNF") {
        match read_counter(text, rem) {
            Err(m) => Err(m),
            Ok(n) => {
                cur.fn_found = n;
                Ok(())
            },
        }
    } else if token_is(&ty, "FNH") {
        match read_counter(text, rem) {
            Err(m) => Err(m),
            Ok(n) => {
                cur.fn_hit = n;
                Ok(())
            },
        }
    } else if token_is(&ty, "BRDA") {
        match read_branch(text, rem) {
            None => Err(missing_field_msg()),
            Some((ln, data)) => {
                let ghost before = cur.br_data.view();
                let ghost k = ln@;
                let ghost v = data@;
                cur.br_data.insert(ln, data);
                assert(cur.br_data.view().map_values(|b: BrData| b@) =~= before.map_values(
                    |b: BrData| b@,
                ).insert(k, v));
                Ok(())
            },
        }
    } else if token_is(&ty, "BRF") {
        match read_counter(text, rem) {
            Err(m) => Err(m),
            Ok(n) => {
                cur.br_found = n;
                Ok(())
            },
        }
    } else if token_is(&ty, "BRH") {
        match read_counter(text, rem) {
            Err(m) => Err(m),
            Ok(n) => {
                cur.br_hit = n;
                Ok(())
            },
        }
    } else if token_is(&ty, "DA") {
        match read_token_number(text, rem) {
            Err(m) => Err(m),
            Ok((ln, n)) => {
                cur.ln_data.insert(ln, n);
                Ok(())
            },
        }
    } else if token_is(&ty, "LH") {
        match read_counter(text, rem) {
            Err(m) => Err(m),
            Ok(n) => {
                cur.ln_hit = n;
                Ok(())
            },
        }
    } else if token_is(&ty, "LF") {
        match read_counter(text, rem) {
            Err(m) => Err(m),
            Ok(n) => {
                cur.ln_found = n;
                Ok(())
            },
        }
    } else if token_is(&ty, "end_of_record") {
        let mut finished = LcovReport::new();
        std::mem::swap(cur, &mut finished);
        if !finished.path.as_str().is_empty() {
            let ghost before = done@;
            done.push(finished);
            assert(report_models(done@) =~= report_models(before).push(finished@));
        }
        Ok(())
    } else {
        let mut m = String::from_str("Unexpected token '");
        m.append(ty.as_str());
        m.append("'");
        Err(m)
    }
}


/// Parses a whole trace; kept as a unit type so that callers name the parser.
pub struct LcovParser;

/// The string views of the skip markers.
pub open spec fn string_views(skip: Seq<String>) -> Seq<Seq<char>> {
    skip.map_values(|m: String| m@)
}

impl LcovParser {
    /// Parses `content`, skipping `SF` paths that hold `.cargo` or `.rustup`.
    pub fn parse(content: &str) -> (r: Result<LcovFile, LcovParseError>)
        ensures
            match parse_spec(content@, default_skip()) {
                Ok(rs) => r matches Ok(f) && f.wf() && f@ == rs,
                Err((l, m)) => r matches Err(e) && e.line == l && e.message@ == m,
            },
    {
        let mut skip: Vec<String> = Vec::new();
        skip.push(String::from_str(".cargo"));
        skip.push(String::from_str(".rustup"));
        assert(string_views(skip@) =~= default_skip());
        Self::parse_skipping(content, &skip)
    }

    /// Parses `content`, skipping `SF` paths that hold any of `skip`.
    pub fn parse_skipping(content: &str, skip: &Vec<String>) -> (r: Result<
        LcovFile,
        LcovParseError,
    >)
        ensures
            match parse_spec(content@, string_views(skip@)) {
                Ok(rs) => r matches Ok(f) && f.wf() && f@ == rs,
                Err((l, m)) => r matches Err(e) && e.line == l && e.message@ == m,
            },
    {
        let text = chars_of(content);
        let mut markers: Vec<Vec<char>> = Vec::new();
        let mut i: usize = 0;
        while i < skip.len()
            invariant
                i <= skip@.len(),
                marker_views(markers@) == string_views(skip@.take(i as int)),
            decreases skip@.len() - i,
        {
            let ghost before = markers@;
            markers.push(chars_of(skip[i].as_str()));
            assert(marker_views(markers@) =~= marker_views(before).push(skip@[i as int]@));
            assert(skip@.take(i + 1) =~= skip@.take(i as int).push(skip@[i as int]));
            assert(string_views(skip@.take(i + 1)) =~= string_views(skip@.take(i as int)).push(
                skip@[i as int]@,
            ));
            i = i + 1;
        }
        assert(skip@.take(i as int) =~= skip@);
        let ghost sv = string_views(skip@);
        let mut cur = LcovReport::new();
        let mut done: Vec<LcovReport> = Vec::new();
        let mut pos: usize = 0;
        let mut line: usize = 0;
        assert(text@.skip(0) =~= text@);
        assert(report_models(done@) =~= Seq::<ReportModel>::empty());
        loop
            invariant
                pos <= text@.len(),
                text@ == content@,
                line <= pos,
                cur.wf(),
                all_wf(done@),
                marker_views(markers@) == sv,
                sv == string_views(skip@),
                parse_spec(text@, sv) == parse_from(
                    text@.skip(pos as int),
                    line as int,
                    ParseState { cur: cur@, done: report_models(done@) },
                    sv,
                ),
            decreases text@.len() - pos,
        {
            let e = find_in(&text, pos, text.len(), '\n');
            let ghost rest = text@.skip(pos as int);
            proof {
                assert(rest =~= text@.subrange(pos as int, text@.len() as int));
                lemma_find_char(rest, '\n');
                lemma_ranges(text@, pos as int, e as int, text@.len() as int);
                if e < text@.len() {
                    assert(rest.skip(e - pos + 1) =~= text@.skip(e + 1));
                }
            }
            let ghost st0 = ParseState { cur: cur@, done: report_models(done@) };
            let ghost this_line = text@.subrange(pos as int, e as int);
            assert(rest.take(find_char(rest, '\n')) == this_line);
            let res = apply_line(&text, pos, e, &markers, &mut cur, &mut done);
            match res {
                Err(m) => {
                    return Err(LcovParseError::new(line, m));
                },
                Ok(()) => {},
            }
            if e < text.len() {
                pos = e + 1;
                line = line + 1;
            } else {
                return Ok(LcovFile { reports: done });
            }
        }
    }
}

} // verus!
