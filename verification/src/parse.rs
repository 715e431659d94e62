//! Line-oriented input parsing.
//!
//! A rule line has the form `<name>: <low>-<high> or <low>-<high>`, where the
//! name is made of letters, digits, underscores and spaces, and each bound is
//! a run of decimal digits.  A record line is a comma-separated list of
//! decimal numbers, with an optional trailing comma.  A line that does not
//! begin like a rule (or a record) ends the section; a line that begins like
//! one but is broken past that point is a fatal input-format violation.

use vstd::prelude::*;
use vstd::string::StrSliceExecFns;
use vstd::string::StringExecFns;

use crate::rules::Rule;

verus! {

/// Errors that abort the whole computation: malformed input has no recovery.
#[derive(Clone, Copy, Debug, PartialEq, Eq, Structural)]
pub enum ParseError {
    /// A line that begins like a rule has an unparsable or oversized range.
    MalformedRule,
    /// A record line holds a number too large for a field value.
    MalformedRecord,
}

pub open spec fn is_digit(c: char) -> bool {
    '0' <= c && c <= '9'
}

pub open spec fn digit_val(c: char) -> int {
    c as int - '0' as int
}

/// A rule name may hold letters, digits, underscores and spaces.
pub open spec fn is_name_char(c: char) -> bool {
    ('a' <= c && c <= 'z') || ('A' <= c && c <= 'Z') || is_digit(c) || c == '_' || c == ' '
}

/// Length of the maximal run of digits starting at `i`.
pub open spec fn digit_run_len(s: Seq<char>, i: int) -> int
    decreases s.len() - i,
{
    if 0 <= i && i < s.len() && is_digit(s[i]) {
        1 + digit_run_len(s, i + 1)
    } else {
        0
    }
}

/// Numeric value of a sequence of digit characters, most significant first.
pub open spec fn digits_val(s: Seq<char>) -> int
    decreases s.len(),
{
    if s.len() == 0 {
        0
    } else {
        digits_val(s.drop_last()) * 10 + digit_val(s.last())
    }
}

/// Value of the digit run starting at `i`.
pub open spec fn run_val(s: Seq<char>, i: int) -> int {
    digits_val(s.subrange(i, i + digit_run_len(s, i)))
}

/// Index of the first colon at or after `i`, or the length if there is none.
pub open spec fn first_colon(s: Seq<char>, i: int) -> int
    decreases s.len() - i,
{
    if 0 <= i && i < s.len() {
        if s[i] == ':' {
            i
        } else {
            first_colon(s, i + 1)
        }
    } else {
        s.len() as int
    }
}

proof fn lemma_first_colon_from(s: Seq<char>, k: int, i: int)
    requires
        0 <= k <= i <= s.len(),
        forall|j: int| k <= j < i ==> s[j] != ':',
        i == s.len() || s[i] == ':',
    ensures
        first_colon(s, k) == i,
    decreases i - k,
{
    if k < i {
        lemma_first_colon_from(s, k + 1, i);
    }
}

proof fn lemma_first_colon_ge(s: Seq<char>, k: int)
    requires
        0 <= k <= s.len(),
    ensures
        first_colon(s, k) >= k,
    decreases s.len() - k,
{
    if k < s.len() && s[k] != ':' {
        lemma_first_colon_ge(s, k + 1);
    }
}

proof fn lemma_first_colon_at_least(s: Seq<char>, k: int, i: int)
    requires
        0 <= k <= i <= s.len(),
        forall|j: int| k <= j < i ==> s[j] != ':',
    ensures
        first_colon(s, k) >= i,
    decreases i - k,
{
    if k < i {
        lemma_first_colon_at_least(s, k + 1, i);
    } else {
        lemma_first_colon_ge(s, k);
    }
}

proof fn lemma_digit_run_extent(s: Seq<char>, k: int, i: int)
    requires
        0 <= k <= i <= s.len(),
        forall|j: int| k <= j < i ==> is_digit(s[j]),
        i == s.len() || !is_digit(s[i]),
    ensures
        digit_run_len(s, k) == i - k,
    decreases i - k,
{
    if k < i {
        lemma_digit_run_extent(s, k + 1, i);
    }
}

/// A line begins like a rule when a nonempty name of name characters is
/// followed by a colon and a space.
pub open spec fn has_rule_prefix(s: Seq<char>) -> bool {
    let c = first_colon(s, 0);
    &&& 0 < c
    &&& c + 1 < s.len()
    &&& s[c + 1] == ' '
    &&& forall|j: int| 0 <= j < c ==> is_name_char(#[trigger] s[j])
}

/// Index where the range part of a rule line begins.
pub open spec fn body_start(s: Seq<char>) -> int {
    first_colon(s, 0) + 2
}

/// Start of the second bound, after the first run and a dash.
pub open spec fn d2_at(s: Seq<char>, b: int) -> int {
    b + digit_run_len(s, b) + 1
}

/// Start of the ` or ` separator.
pub open spec fn or_at(s: Seq<char>, b: int) -> int {
    d2_at(s, b) + digit_run_len(s, d2_at(s, b))
}

/// Start of the third bound.
pub open spec fn d3_at(s: Seq<char>, b: int) -> int {
    or_at(s, b) + 4
}

/// Start of the fourth bound.
pub open spec fn d4_at(s: Seq<char>, b: int) -> int {
    d3_at(s, b) + digit_run_len(s, d3_at(s, b)) + 1
}

/// The range part starting at `b` reads `<digits>-<digits> or <digits>-<digits>`
/// and runs exactly to the end of the line.
pub open spec fn range_shape_at(s: Seq<char>, b: int) -> bool {
    let n1 = digit_run_len(s, b);
    let p2 = d2_at(s, b);
    let n2 = digit_run_len(s, p2);
    let o = or_at(s, b);
    let p3 = d3_at(s, b);
    let n3 = digit_run_len(s, p3);
    let p4 = d4_at(s, b);
    let n4 = digit_run_len(s, p4);
    &&& n1 > 0
    &&& b + n1 < s.len() && s[b + n1] == '-'
    &&& n2 > 0
    &&& o + 4 <= s.len() && s[o] == ' ' && s[o + 1] == 'o' && s[o + 2] == 'r' && s[o + 3] == ' '
    &&& n3 > 0
    &&& p3 + n3 < s.len() && s[p3 + n3] == '-'
    &&& n4 > 0
    &&& p4 + n4 == s.len()
}

/// A well-formed rule line: rule prefix, well-shaped ranges, and all four
/// bounds small enough for a field value.
pub open spec fn rule_line_ok(s: Seq<char>) -> bool {
    let b = body_start(s);
    &&& has_rule_prefix(s)
    &&& range_shape_at(s, b)
    &&& run_val(s, b) <= i64::MAX
    &&& run_val(s, d2_at(s, b)) <= i64::MAX
    &&& run_val(s, d3_at(s, b)) <= i64::MAX
    &&& run_val(s, d4_at(s, b)) <= i64::MAX
}

/// The rule that a well-formed rule line denotes.
pub open spec fn rule_matches_line(rule: Rule, s: Seq<char>) -> bool {
    let b = body_start(s);
    &&& rule.name@ == s.subrange(0, first_colon(s, 0))
    &&& rule.range1_low as int == run_val(s, b)
    &&& rule.range1_high as int == run_val(s, d2_at(s, b))
    &&& rule.range2_low as int == run_val(s, d3_at(s, b))
    &&& rule.range2_high as int == run_val(s, d4_at(s, b))
}

/// How a single line relates to the rule grammar.
pub enum RuleLineParse {
    /// The line does not begin like a rule; it ends the rule section.
    NoMatch,
    /// The line begins like a rule but is broken past the colon.
    Malformed,
    /// The line is a well-formed rule.
    Parsed(Rule),
}

fn is_name_char_exec(c: char) -> (r: bool)
    ensures
        r == is_name_char(c),
{
    let cu = c as u32;
    (cu >= 'a' as u32 && cu <= 'z' as u32) || (cu >= 'A' as u32 && cu <= 'Z' as u32) || (cu >= '0'
        as u32 && cu <= '9' as u32) || c == '_' || c == ' '
}

/// Reads the digit run starting at `start`: returns the index just past the
/// run, and its value unless the run is empty or its value does not fit.
fn scan_number(line: &str, start: usize, n: usize) -> (r: (usize, Option<i64>))
    requires
        n == line@.len(),
        start <= n,
    ensures
        start <= r.0 <= n,
        r.0 == start + digit_run_len(line@, start as int),
        (r.1 is Some <==> digit_run_len(line@, start as int) > 0 && run_val(line@, start as int)
            <= i64::MAX),
        (r.1 matches Some(v) ==> v as int == run_val(line@, start as int)),
{
    let mut i: usize = start;
    let mut val: i64 = 0;
    let mut over: bool = false;
    loop
        invariant
            n == line@.len(),
            start <= i <= n,
            forall|j: int| start <= j < i ==> is_digit(#[trigger] line@[j]),
            !over ==> val as int == digits_val(line@.subrange(start as int, i as int)),
            over ==> digits_val(line@.subrange(start as int, i as int)) > i64::MAX,
            val >= 0,
        ensures
            n == line@.len(),
            start <= i <= n,
            forall|j: int| start <= j < i ==> is_digit(#[trigger] line@[j]),
            i == n || !is_digit(line@[i as int]),
            !over ==> val as int == digits_val(line@.subrange(start as int, i as int)),
            over ==> digits_val(line@.subrange(start as int, i as int)) > i64::MAX,
            val >= 0,
        decreases n - i,
    {
        if i >= n {
            break;
        }
        let c = line.get_char(i);
        let cu = c as u32;
        if cu < '0' as u32 || cu > '9' as u32 {
            break;
        }
        let d: i64 = (cu - '0' as u32) as i64;
        proof {
            assert(line@.subrange(start as int, i + 1 as int).drop_last() =~= line@.subrange(
                start as int,
                i as int,
            ));
            assert(line@.subrange(start as int, i + 1 as int).last() == line@[i as int]);
        }
        if over {
            proof {
                let prev = digits_val(line@.subrange(start as int, i as int));
                assert(prev * 10 >= prev) by (nonlinear_arith)
                    requires
                        prev >= 0,
                ;
            }
        } else {
            match val.checked_mul(10) {
                Some(m) => {
                    match m.checked_add(d) {
                        Some(nv) => {
                            val = nv;
                        },
                        None => {
                            over = true;
                        },
                    }
                },
                None => {
                    over = true;
                },
            }
        }
        i = i + 1;
    }
    proof {
        lemma_digit_run_extent(line@, start as int, i as int);
    }
    if over || i == start {
        (i, None)
    } else {
        (i, Some(val))
    }
}

/// Classifies one line against the rule grammar, and parses it when it is a
/// well-formed rule.
pub fn parse_rule_line(line: &str) -> (r: RuleLineParse)
    ensures
        (r is NoMatch <==> !has_rule_prefix(line@)),
        (r is Parsed <==> rule_line_ok(line@)),
        (r matches RuleLineParse::Parsed(rule) ==> rule_matches_line(rule, line@)),
{
    let n = line.unicode_len();
    let mut i: usize = 0;
    loop
        invariant
            n == line@.len(),
            i <= n,
            forall|j: int| 0 <= j < i ==> line@[j] != ':' && is_name_char(#[trigger] line@[j]),
        ensures
            n == line@.len(),
            i < n,
            line@[i as int] == ':',
            forall|j: int| 0 <= j < i ==> line@[j] != ':' && is_name_char(#[trigger] line@[j]),
        decreases n - i,
    {
        if i >= n {
            proof {
                lemma_first_colon_from(line@, 0, n as int);
            }
            return RuleLineParse::NoMatch;
        }
        let c = line.get_char(i);
        if c == ':' {
            break;
        }
        if !is_name_char_exec(c) {
            proof {
                lemma_first_colon_at_least(line@, 0, i + 1 as int);
            }
            return RuleLineParse::NoMatch;
        }
        i = i + 1;
    }
    proof {
        lemma_first_colon_from(line@, 0, i as int);
    }
    if i == 0 {
        return RuleLineParse::NoMatch;
    }
    if i + 1 >= n {
        return RuleLineParse::NoMatch;
    }
    if line.get_char(i + 1) != ' ' {
        return RuleLineParse::NoMatch;
    }
    let b = i + 2;
    let (e1, v1o) = scan_number(line, b, n);
    let v1 = match v1o {
        Some(v) => v,
        None => {
            return RuleLineParse::Malformed;
        },
    };
    if e1 >= n {
        return RuleLineParse::Malformed;
    }
    if line.get_char(e1) != '-' {
        return RuleLineParse::Malformed;
    }
    let (e2, v2o) = scan_number(line, e1 + 1, n);
    let v2 = match v2o {
        Some(v) => v,
        None => {
            return RuleLineParse::Malformed;
        },
    };
    if n - e2 < 4 {
        return RuleLineParse::Malformed;
    }
    if line.get_char(e2) != ' ' || line.get_char(e2 + 1) != 'o' || line.get_char(e2 + 2) != 'r'
        || line.get_char(e2 + 3) != ' ' {
        return RuleLineParse::Malformed;
    }
    let (e3, v3o) = scan_number(line, e2 + 4, n);
    let v3 = match v3o {
        Some(v) => v,
        None => {
            return RuleLineParse::Malformed;
        },
    };
    if e3 >= n {
        return RuleLineParse::Malformed;
    }
    if line.get_char(e3) != '-' {
        return RuleLineParse::Malformed;
    }
    let (e4, v4o) = scan_number(line, e3 + 1, n);
    let v4 = match v4o {
        Some(v) => v,
        None => {
            return RuleLineParse::Malformed;
        },
    };
    if e4 != n {
        return RuleLineParse::Malformed;
    }
    let name_slice = line.substring_char(0, i);
    let name = String::from_str(name_slice);
    let rule = Rule::new(name, v1, v2, v3, v4);
    RuleLineParse::Parsed(rule)
}

/// A record line reads `<digits>` then zero or more `,<digits>`, with an
/// optional trailing comma, and nothing else.
pub open spec fn record_shape_at(s: Seq<char>, i: int) -> bool
    decreases s.len() - i,
{
    let rl = digit_run_len(s, i);
    let j = i + rl;
    if rl <= 0 {
        false
    } else if j == s.len() {
        true
    } else if j < s.len() && s[j] == ',' {
        j + 1 == s.len() || record_shape_at(s, j + 1)
    } else {
        false
    }
}

/// Every number on the record line fits a field value.
pub open spec fn record_fits_at(s: Seq<char>, i: int) -> bool
    decreases s.len() - i,
{
    let rl = digit_run_len(s, i);
    let j = i + rl;
    if rl > 0 && j < s.len() && s[j] == ',' && j + 1 < s.len() {
        run_val(s, i) <= i64::MAX && record_fits_at(s, j + 1)
    } else {
        run_val(s, i) <= i64::MAX
    }
}

/// The field values that a well-formed record line denotes, in line order.
pub open spec fn record_vals_at(s: Seq<char>, i: int) -> Seq<i64>
    decreases s.len() - i,
{
    let rl = digit_run_len(s, i);
    let j = i + rl;
    if rl <= 0 {
        Seq::empty()
    } else if j < s.len() && s[j] == ',' && j + 1 < s.len() {
        seq![(run_val(s, i) as i64)] + record_vals_at(s, j + 1)
    } else {
        seq![(run_val(s, i) as i64)]
    }
}

/// How a single line relates to the record grammar.
pub enum RecordLineParse {
    /// The line is not a comma-separated list of numbers; it ends the section.
    NoMatch,
    /// The line is such a list, but some number is too large for a field.
    Malformed,
    /// The line is a well-formed record.
    Parsed,
}

/// Parses the record line from position `i` on, appending the values to `acc`.
fn parse_record_from(line: &str, i: usize, n: usize, acc: &mut Vec<i64>) -> (r: RecordLineParse)
    requires
        n == line@.len(),
        i <= n,
    ensures
        (r is NoMatch <==> !record_shape_at(line@, i as int)),
        (r is Parsed <==> record_shape_at(line@, i as int) && record_fits_at(line@, i as int)),
        r is Parsed ==> final(acc)@ == old(acc)@ + record_vals_at(line@, i as int),
    decreases n - i,
{
    let (j, vo) = scan_number(line, i, n);
    if j == i {
        return RecordLineParse::NoMatch;
    }
    if j == n {
        match vo {
            Some(v) => {
                acc.push(v);
                return RecordLineParse::Parsed;
            },
            None => {
                return RecordLineParse::Malformed;
            },
        }
    }
    let c = line.get_char(j);
    if c != ',' {
        return RecordLineParse::NoMatch;
    }
    if j + 1 == n {
        match vo {
            Some(v) => {
                acc.push(v);
                return RecordLineParse::Parsed;
            },
            None => {
                return RecordLineParse::Malformed;
            },
        }
    }
    match vo {
        Some(v) => {
            acc.push(v);
            parse_record_from(line, j + 1, n, acc)
        },
        None => {
            let mut scratch: Vec<i64> = Vec::new();
            let rest = parse_record_from(line, j + 1, n, &mut scratch);
            match rest {
                RecordLineParse::NoMatch => RecordLineParse::NoMatch,
                _ => RecordLineParse::Malformed,
            }
        },
    }
}

/// Classifies one whole line against the record grammar, appending its values
/// to `acc` when it is well formed.
pub fn parse_record_line(line: &str, acc: &mut Vec<i64>) -> (r: RecordLineParse)
    ensures
        (r is NoMatch <==> !record_shape_at(line@, 0)),
        (r is Parsed <==> record_shape_at(line@, 0) && record_fits_at(line@, 0)),
        r is Parsed ==> final(acc)@ == old(acc)@ + record_vals_at(line@, 0),
{
    let n = line.unicode_len();
    parse_record_from(line, 0, n, acc)
}

/// Number of consecutive well-formed rule lines from index `i` on.
pub open spec fn rule_run(lines: Seq<String>, i: int) -> int
    decreases lines.len() - i,
{
    if 0 <= i && i < lines.len() && rule_line_ok(lines[i]@) {
        1 + rule_run(lines, i + 1)
    } else {
        0
    }
}

proof fn lemma_rule_run_extent(lines: Seq<String>, k: int, i: int)
    requires
        0 <= k <= i <= lines.len(),
        forall|j: int| k <= j < i ==> rule_line_ok(#[trigger] lines[j]@),
        i == lines.len() || !rule_line_ok(lines[i]@),
    ensures
        rule_run(lines, k) == i - k,
    decreases i - k,
{
    if k < i {
        lemma_rule_run_extent(lines, k + 1, i);
    }
}

/// A well-formed record line: shaped as a record, every number in range.
pub open spec fn record_line_ok(s: Seq<char>) -> bool {
    record_shape_at(s, 0) && record_fits_at(s, 0)
}

/// Number of consecutive well-formed record lines from index `i` on.
pub open spec fn record_run(lines: Seq<String>, i: int) -> int
    decreases lines.len() - i,
{
    if 0 <= i && i < lines.len() && record_line_ok(lines[i]@) {
        1 + record_run(lines, i + 1)
    } else {
        0
    }
}

proof fn lemma_record_run_extent(lines: Seq<String>, k: int, i: int)
    requires
        0 <= k <= i <= lines.len(),
        forall|j: int| k <= j < i ==> record_line_ok(#[trigger] lines[j]@),
        i == lines.len() || !record_line_ok(lines[i]@),
    ensures
        record_run(lines, k) == i - k,
    decreases i - k,
{
    if k < i {
        lemma_record_run_extent(lines, k + 1, i);
    }
}

/// Reads the rule section that begins at line `start`: consumes well-formed
/// rule lines until a line that does not begin like a rule, consumes that
/// terminator too, and returns the rules with the index of the next unread
/// line.  A line that begins like a rule but is broken past the colon is a
/// fatal format violation.
pub fn read_rules(lines: &Vec<String>, start: usize) -> (r: Result<
    (Vec<Rule>, usize),
    ParseError,
>)
    requires
        start <= lines@.len(),
    ensures
        ({
            let e = start + rule_run(lines@, start as int);
            &&& (r is Err <==> e < lines@.len() && has_rule_prefix(lines@[e]@))
            &&& (r matches Err(err) ==> err == ParseError::MalformedRule)
            &&& (r matches Ok(pair) ==> {
                &&& pair.0@.len() == rule_run(lines@, start as int)
                &&& forall|i: int|
                    0 <= i < pair.0@.len() ==> rule_matches_line(
                        #[trigger] pair.0@[i],
                        lines@[start + i]@,
                    )
                &&& pair.1 == if e < lines@.len() {
                    e + 1
                } else {
                    e
                }
                &&& pair.1 <= lines@.len()
            })
        }),
{
    let mut rules: Vec<Rule> = Vec::new();
    let mut idx: usize = start;
    loop
        invariant
            start <= idx <= lines@.len(),
            rules@.len() == idx - start,
            forall|j: int| start <= j < idx ==> rule_line_ok(#[trigger] lines@[j]@),
            forall|i: int|
                0 <= i < rules@.len() ==> rule_matches_line(
                    #[trigger] rules@[i],
                    lines@[start + i]@,
                ),
        decreases lines@.len() - idx,
    {
        if idx >= lines.len() {
            proof {
                lemma_rule_run_extent(lines@, start as int, idx as int);
            }
            return Ok((rules, idx));
        }
        let lp = parse_rule_line(lines[idx].as_str());
        match lp {
            RuleLineParse::Parsed(rule) => {
                rules.push(rule);
                idx = idx + 1;
            },
            RuleLineParse::NoMatch => {
                proof {
                    lemma_rule_run_extent(lines@, start as int, idx as int);
                }
                return Ok((rules, idx + 1));
            },
            RuleLineParse::Malformed => {
                proof {
                    lemma_rule_run_extent(lines@, start as int, idx as int);
                }
                return Err(ParseError::MalformedRule);
            },
        }
    }
}

/// Reads a record section: skips the section's header line at `start`
/// unconditionally, consumes well-formed record lines until a line that is
/// not one, consumes that terminator too, and returns the records with the
/// index of the next unread line.  A record line whose number does not fit a
/// field value is a fatal format violation.
pub fn read_passports(lines: &Vec<String>, start: usize) -> (r: Result<
    (Vec<Vec<i64>>, usize),
    ParseError,
>)
    requires
        start <= lines@.len(),
    ensures
        ({
            let b = if start < lines@.len() {
                start + 1
            } else {
                start as int
            };
            let e = b + record_run(lines@, b);
            &&& (r is Err <==> e < lines@.len() && record_shape_at(lines@[e]@, 0))
            &&& (r matches Err(err) ==> err == ParseError::MalformedRecord)
            &&& (r matches Ok(pair) ==> {
                &&& pair.0@.len() == record_run(lines@, b)
                &&& forall|i: int|
                    0 <= i < pair.0@.len() ==> (#[trigger] pair.0@[i])@ == record_vals_at(
                        lines@[b + i]@,
                        0,
                    )
                &&& pair.1 == if e < lines@.len() {
                    e + 1
                } else {
                    e
                }
                &&& pair.1 <= lines@.len()
            })
        }),
{
    let mut passports: Vec<Vec<i64>> = Vec::new();
    if start >= lines.len() {
        return Ok((passports, start));
    }
    let mut idx: usize = start + 1;
    loop
        invariant
            start + 1 <= idx <= lines@.len(),
            passports@.len() == idx - start - 1,
            forall|j: int| start + 1 <= j < idx ==> record_line_ok(#[trigger] lines@[j]@),
            forall|i: int|
                0 <= i < passports@.len() ==> (#[trigger] passports@[i])@ == record_vals_at(
                    lines@[start + 1 + i]@,
                    0,
                ),
        decreases lines@.len() - idx,
    {
        if idx >= lines.len() {
            proof {
                lemma_record_run_extent(lines@, start + 1 as int, idx as int);
            }
            return Ok((passports, idx));
        }
        let mut vals: Vec<i64> = Vec::new();
        let rp = parse_record_line(lines[idx].as_str(), &mut vals);
        match rp {
            RecordLineParse::Parsed => {
                passports.push(vals);
                idx = idx + 1;
            },
            RecordLineParse::NoMatch => {
                proof {
                    lemma_record_run_extent(lines@, start + 1 as int, idx as int);
                }
                return Ok((passports, idx + 1));
            },
            RecordLineParse::Malformed => {
                proof {
                    lemma_record_run_extent(lines@, start + 1 as int, idx as int);
                }
                return Err(ParseError::MalformedRecord);
            },
        }
    }
}

} // verus!
