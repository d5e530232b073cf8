//! The maximal-munch tokenizer loop: at each cursor position every table's
//! DFA is run over the remaining input, the longest match wins (the earlier
//! table on a tie), a token record `<id> <payload> <line> <column>` is
//! emitted (suppressed for the `IGNORE` sentinel), and the cursor advances.

use vstd::prelude::*;
use vstd::string::*;
use crate::alphabet_translator::{spec_encode_string, char_to_hex_a_string};
use crate::regex::{
    Regex, spec_first_match, spec_match_len, scan_fails, lemma_match_len_le_input,
    lemma_count_nl_bounds, lemma_col_after_bounds, lemma_match_chars_byte,
};
use crate::scanner::{Scanner, TransitionTable, scanner_wf};
use crate::text::{spec_dec_str, usize_to_string, str_eq};

verus! {

/// Why a tokenization stopped before the end of the source.
#[derive(Clone, Copy, Debug, PartialEq, Eq, Structural)]
pub enum TokenizeError {
    /// The source holds a character that the alphabet does not map.
    CharNotInAlphabet,
    /// No rule matches at the cursor; the position names the first
    /// character that no table could start a token with.
    NoRuleMatch { line: usize, column: usize },
}

/// The longest match any table produces on `s`, 0 when none matches.
pub open spec fn spec_max_len(ts: Seq<TransitionTable>, a: Seq<char>, s: Seq<char>) -> int
    decreases ts.len(),
{
    if ts.len() == 0 {
        0
    } else {
        let prev = spec_max_len(ts.drop_last(), a, s);
        let last = spec_match_len(ts.last().tt@, a, s);
        if last > prev {
            last
        } else {
            prev
        }
    }
}

/// The winning table: the first one whose match has the maximal length, or
/// -1 when the maximal length is 0 (the strict-greater update rule).
pub open spec fn spec_winner(ts: Seq<TransitionTable>, a: Seq<char>, s: Seq<char>) -> int
    decreases ts.len(),
{
    if ts.len() == 0 {
        -1
    } else {
        let prev = spec_max_len(ts.drop_last(), a, s);
        let last = spec_match_len(ts.last().tt@, a, s);
        if last > prev && last > 0 {
            ts.len() - 1
        } else {
            spec_winner(ts.drop_last(), a, s)
        }
    }
}

/// The maximal match length is never longer than the input.
pub proof fn lemma_max_len_bounds(ts: Seq<TransitionTable>, a: Seq<char>, s: Seq<char>)
    ensures
        0 <= spec_max_len(ts, a, s) <= s.len(),
    decreases ts.len(),
{
    if ts.len() > 0 {
        lemma_max_len_bounds(ts.drop_last(), a, s);
        lemma_match_len_le_input(ts.last().tt@, a, s);
    }
}

/// The token id sentinel whose matches are consumed without emission.
pub open spec fn is_ignore(id: Seq<char>) -> bool {
    id == seq!['I', 'G', 'N', 'O', 'R', 'E']
}

/// One emitted token record, fields separated by single spaces, one record
/// per line.
pub open spec fn spec_render_line(id: Seq<char>, payload: Seq<char>, line: int, col: int) -> Seq<
    char,
> {
    id + seq![' '] + payload + seq![' '] + spec_dec_str(line) + seq![' '] + spec_dec_str(col)
        + seq!['\n']
}

/// One tokenizer iteration as the model records it.
pub struct StepV {
    /// Index of the winning table.
    pub table: int,
    /// The matched lexeme.
    pub lexeme: Seq<char>,
    /// The winning table's token id.
    pub id: Seq<char>,
    /// The emitted payload: the replace-with literal, or the hex-encoded
    /// lexeme.
    pub payload: Seq<char>,
    /// Line the token starts on (1-based).
    pub line: int,
    /// Column the token starts at (1-based).
    pub column: int,
}

/// Why the model stops before the end of the source.
pub enum ScanErrV {
    /// A character that the alphabet does not map was reached.
    BadChar,
    /// No table matches at the cursor.
    NoMatch { line: int, column: int },
}

/// What tokenizing a source yields: the steps taken, and the error that
/// stopped it, if one did.
pub struct ScanOutV {
    pub steps: Seq<StepV>,
    pub err: Option<ScanErrV>,
}

/// The tokenizer's behaviour on `s` with the cursor at `(line, col)`: one
/// step per token, until the source is exhausted, a character fails to
/// resolve, or no rule matches.
pub open spec fn spec_scan(
    ts: Seq<TransitionTable>,
    a: Seq<char>,
    nl: char,
    s: Seq<char>,
    line: int,
    col: int,
) -> ScanOutV
    decreases s.len(),
    via spec_scan_decreases
{
    if s.len() == 0 {
        ScanOutV { steps: Seq::empty(), err: None }
    } else if exists|j: int| 0 <= j < ts.len() && scan_fails((#[trigger] ts[j]).tt@, a, s) {
        ScanOutV { steps: Seq::empty(), err: Some(ScanErrV::BadChar) }
    } else {
        let m = spec_max_len(ts, a, s);
        if m <= 0 {
            ScanOutV { steps: Seq::empty(), err: Some(ScanErrV::NoMatch { line, column: col }) }
        } else {
            let w = spec_winner(ts, a, s);
            let fm = spec_first_match(ts[w].tt@, a, s, nl);
            let lexeme = s.take(m);
            let payload = match ts[w].replace_with {
                Some(v) => v@,
                None => spec_encode_string(lexeme),
            };
            let step = StepV { table: w, lexeme, id: ts[w].id@, payload, line, column: col };
            let line2 = line + fm.1;
            let col2 = if fm.1 == 0 {
                col + m
            } else {
                fm.2
            };
            let rest = spec_scan(ts, a, nl, s.skip(m), line2, col2);
            ScanOutV { steps: seq![step] + rest.steps, err: rest.err }
        }
    }
}

#[via_fn]
proof fn spec_scan_decreases(
    ts: Seq<TransitionTable>,
    a: Seq<char>,
    nl: char,
    s: Seq<char>,
    line: int,
    col: int,
) {
    lemma_max_len_bounds(ts, a, s);
}

/// The text written for a sequence of steps: one line per step whose token
/// id is not the `IGNORE` sentinel.
pub open spec fn spec_render_steps(steps: Seq<StepV>) -> Seq<char>
    decreases steps.len(),
{
    if steps.len() == 0 {
        Seq::empty()
    } else {
        (if is_ignore(steps[0].id) {
            Seq::<char>::empty()
        } else {
            spec_render_line(steps[0].id, steps[0].payload, steps[0].line, steps[0].column)
        }) + spec_render_steps(steps.drop_first())
    }
}

/// Executable errors against model errors.
pub open spec fn err_matches(e: Option<TokenizeError>, v: Option<ScanErrV>) -> bool {
    match (e, v) {
        (None, None) => true,
        (Some(TokenizeError::CharNotInAlphabet), Some(ScanErrV::BadChar)) => true,
        (
            Some(TokenizeError::NoRuleMatch { line, column }),
            Some(ScanErrV::NoMatch { line: l2, column: c2 }),
        ) => line as int == l2 && column as int == c2,
        _ => false,
    }
}

/// No table matches longer than the maximum, and the winner is the first
/// table whose match is maximal: the deterministic tie-break of the
/// maximal-munch dispatch.
pub proof fn lemma_winner_props(ts: Seq<TransitionTable>, a: Seq<char>, s: Seq<char>)
    ensures
        forall|x: int|
            0 <= x < ts.len() ==> spec_match_len((#[trigger] ts[x]).tt@, a, s) <= spec_max_len(
                ts,
                a,
                s,
            ),
        spec_max_len(ts, a, s) > 0 ==> {
            let w = spec_winner(ts, a, s);
            &&& 0 <= w < ts.len()
            &&& spec_match_len(ts[w].tt@, a, s) == spec_max_len(ts, a, s)
            &&& forall|x: int|
                0 <= x < w ==> spec_match_len((#[trigger] ts[x]).tt@, a, s) < spec_max_len(
                    ts,
                    a,
                    s,
                )
        },
        spec_max_len(ts, a, s) == 0 ==> spec_winner(ts, a, s) == -1,
    decreases ts.len(),
{
    if ts.len() > 0 {
        let prev = ts.drop_last();
        lemma_winner_props(prev, a, s);
        lemma_max_len_bounds(prev, a, s);
        assert(forall|x: int| 0 <= x < prev.len() ==> prev[x] == ts[x]);
    }
}

/// Sum of the lexeme lengths over a sequence of steps.
pub open spec fn steps_total_len(steps: Seq<StepV>) -> int
    decreases steps.len(),
{
    if steps.len() == 0 {
        0
    } else {
        steps[0].lexeme.len() + steps_total_len(steps.drop_first())
    }
}

/// Every step consumes at least one character and no more than remain, and a
/// tokenization that runs to the end consumes the source exactly: the lexeme
/// lengths sum to the source length.
pub proof fn lemma_steps_cover(
    ts: Seq<TransitionTable>,
    a: Seq<char>,
    nl: char,
    s: Seq<char>,
    line: int,
    col: int,
)
    ensures
        ({
            let o = spec_scan(ts, a, nl, s, line, col);
            &&& forall|k: int| 0 <= k < o.steps.len() ==> (#[trigger] o.steps[k]).lexeme.len() >= 1
            &&& steps_total_len(o.steps) <= s.len()
            &&& o.err is None ==> steps_total_len(o.steps) == s.len()
        }),
    decreases s.len(),
{
    let o = spec_scan(ts, a, nl, s, line, col);
    if s.len() == 0 {
    } else if exists|j: int| 0 <= j < ts.len() && scan_fails((#[trigger] ts[j]).tt@, a, s) {
    } else {
        let m = spec_max_len(ts, a, s);
        lemma_max_len_bounds(ts, a, s);
        if m > 0 {
            let fm = spec_first_match(ts[spec_winner(ts, a, s)].tt@, a, s, nl);
            let line2 = line + fm.1;
            let col2 = if fm.1 == 0 {
                col + m
            } else {
                fm.2
            };
            let rest = spec_scan(ts, a, nl, s.skip(m), line2, col2);
            lemma_steps_cover(ts, a, nl, s.skip(m), line2, col2);
            assert(o.steps.drop_first() =~= rest.steps);
            assert(o.steps[0].lexeme.len() == m);
            assert forall|k: int| 0 <= k < o.steps.len() implies (#[trigger] o.steps[k]).lexeme.len()
                >= 1 by {
                if k > 0 {
                    assert(o.steps[k] == rest.steps[k - 1]);
                }
            }
        }
    }
}

/// Positions never go backwards: over the steps of one tokenization the
/// `(line, column)` pairs are non-decreasing in lexicographic order.
pub open spec fn pos_le(l1: int, c1: int, l2: int, c2: int) -> bool {
    l1 < l2 || (l1 == l2 && c1 <= c2)
}

pub proof fn lemma_positions_monotone(
    ts: Seq<TransitionTable>,
    a: Seq<char>,
    nl: char,
    s: Seq<char>,
    line: int,
    col: int,
)
    ensures
        ({
            let o = spec_scan(ts, a, nl, s, line, col);
            &&& forall|k: int|
                0 <= k < o.steps.len() ==> pos_le(
                    line,
                    col,
                    (#[trigger] o.steps[k]).line,
                    o.steps[k].column,
                )
            &&& forall|k1: int, k2: int|
                0 <= k1 <= k2 < o.steps.len() ==> pos_le(
                    (#[trigger] o.steps[k1]).line,
                    o.steps[k1].column,
                    (#[trigger] o.steps[k2]).line,
                    o.steps[k2].column,
                )
        }),
    decreases s.len(),
{
    let o = spec_scan(ts, a, nl, s, line, col);
    if s.len() == 0 {
    } else if exists|j: int| 0 <= j < ts.len() && scan_fails((#[trigger] ts[j]).tt@, a, s) {
    } else {
        let m = spec_max_len(ts, a, s);
        lemma_max_len_bounds(ts, a, s);
        if m > 0 {
            let fm = spec_first_match(ts[spec_winner(ts, a, s)].tt@, a, s, nl);
            let line2 = line + fm.1;
            let col2 = if fm.1 == 0 {
                col + m
            } else {
                fm.2
            };
            let rest = spec_scan(ts, a, nl, s.skip(m), line2, col2);
            lemma_positions_monotone(ts, a, nl, s.skip(m), line2, col2);
            lemma_winner_props(ts, a, s);
            assert(spec_match_len(ts[spec_winner(ts, a, s)].tt@, a, s) == m);
            lemma_count_nl_bounds(s.take(m), nl);
            assert(pos_le(line, col, line2, col2));
            assert(o.steps.drop_first() =~= rest.steps);
            assert forall|k: int|
                0 <= k < o.steps.len() implies pos_le(
                line,
                col,
                (#[trigger] o.steps[k]).line,
                o.steps[k].column,
            ) by {
                if k > 0 {
                    assert(o.steps[k] == rest.steps[k - 1]);
                    assert(pos_le(line2, col2, rest.steps[k - 1].line, rest.steps[k - 1].column));
                }
            }
            assert forall|k1: int, k2: int|
                0 <= k1 <= k2 < o.steps.len() implies pos_le(
                (#[trigger] o.steps[k1]).line,
                o.steps[k1].column,
                (#[trigger] o.steps[k2]).line,
                o.steps[k2].column,
            ) by {
                if k1 > 0 {
                    assert(o.steps[k1] == rest.steps[k1 - 1]);
                    assert(o.steps[k2] == rest.steps[k2 - 1]);
                } else if k2 > 0 {
                    assert(o.steps[k2] == rest.steps[k2 - 1]);
                    assert(pos_le(line2, col2, rest.steps[k2 - 1].line, rest.steps[k2 - 1].column));
                }
            }
        }
    }
}

/// Every step is attributed to a table of the definition, carries that
/// table's token id, and its payload is the replace-with literal when the
/// table has one and the hex-encoded lexeme otherwise.
pub proof fn lemma_payload_law(
    ts: Seq<TransitionTable>,
    a: Seq<char>,
    nl: char,
    s: Seq<char>,
    line: int,
    col: int,
)
    ensures
        ({
            let o = spec_scan(ts, a, nl, s, line, col);
            forall|k: int|
                0 <= k < o.steps.len() ==> {
                    let st = #[trigger] o.steps[k];
                    &&& 0 <= st.table < ts.len()
                    &&& st.id == ts[st.table].id@
                    &&& (ts[st.table].replace_with is None ==> st.payload == spec_encode_string(
                        st.lexeme,
                    ))
                    &&& (ts[st.table].replace_with matches Some(v) ==> st.payload == v@)
                }
        }),
    decreases s.len(),
{
    let o = spec_scan(ts, a, nl, s, line, col);
    if s.len() == 0 {
    } else if exists|j: int| 0 <= j < ts.len() && scan_fails((#[trigger] ts[j]).tt@, a, s) {
    } else {
        let m = spec_max_len(ts, a, s);
        lemma_max_len_bounds(ts, a, s);
        if m > 0 {
            lemma_winner_props(ts, a, s);
            let fm = spec_first_match(ts[spec_winner(ts, a, s)].tt@, a, s, nl);
            let line2 = line + fm.1;
            let col2 = if fm.1 == 0 {
                col + m
            } else {
                fm.2
            };
            let rest = spec_scan(ts, a, nl, s.skip(m), line2, col2);
            lemma_payload_law(ts, a, nl, s.skip(m), line2, col2);
            assert(o.steps.drop_first() =~= rest.steps);
            assert forall|k: int| 0 <= k < o.steps.len() implies {
                let st = #[trigger] o.steps[k];
                &&& 0 <= st.table < ts.len()
                &&& st.id == ts[st.table].id@
                &&& (ts[st.table].replace_with is None ==> st.payload == spec_encode_string(
                    st.lexeme,
                ))
                &&& (ts[st.table].replace_with matches Some(v) ==> st.payload == v@)
            } by {
                if k > 0 {
                    assert(o.steps[k] == rest.steps[k - 1]);
                }
            }
        }
    }
}

/// Tokenization is deterministic: the model, and with it the rendered
/// output, is a function of the scanner's tables, alphabet and newline and
/// of the source text alone, so two runs on identical inputs return
/// identical output byte for byte.
pub proof fn lemma_run_deterministic(s1: &Scanner, s2: &Scanner, source: Seq<char>)
    requires
        s1.transition_tables@ == s2.transition_tables@,
        s1.alpha@ == s2.alpha@,
        s1.newline == s2.newline,
    ensures
        spec_render_steps(
            spec_scan(s1.transition_tables@, s1.alpha@, s1.newline, source, 1, 1).steps,
        ) == spec_render_steps(
            spec_scan(s2.transition_tables@, s2.alpha@, s2.newline, source, 1, 1).steps,
        ),
{
}

/// The tokenizer.
pub struct Driver {}

impl Driver {
    /// Tokenize `source` with `scanner`, as [`spec_scan`] describes: the
    /// returned text is exactly the rendering of the model's steps (so two
    /// runs on identical inputs return identical text), and the error, if
    /// any, is the model's. Output written before a failure is returned with
    /// the error.
    #[verifier::loop_isolation(false)]
    #[verifier::rlimit(100)]
    pub fn run(scanner: &Scanner, source: &str) -> (r: (String, Option<TokenizeError>))
        requires
            scanner_wf(scanner),
            source@.len() < usize::MAX,
        ensures
            ({
                let m = spec_scan(
                    scanner.transition_tables@,
                    scanner.alpha@,
                    scanner.newline,
                    source@,
                    1,
                    1,
                );
                &&& r.0@ == spec_render_steps(m.steps)
                &&& err_matches(r.1, m.err)
            }),
    {
        let ghost ts = scanner.transition_tables@;
        let ghost a = scanner.alpha@;
        let ghost s = source@;
        let nlch = scanner.newline;
        proof {
            reveal_strlit("IGNORE");
        }

        let alpha = scanner.get_alpha();
        let trans = scanner.get_trans();
        let mut regxs: Vec<Regex> = Vec::new();
        let mut ti: usize = 0;
        while ti < trans.len()
            invariant
                0 <= ti <= trans.len(),
                regxs@.len() == ti,
                forall|j: int|
                    0 <= j < ti ==> {
                        let rx = #[trigger] regxs@[j];
                        &&& rx.dfa@ == ts[j].tt@
                        &&& rx.alphabet@ == a
                        &&& rx.token matches Some(u) && u@ == ts[j].id@
                        &&& rx.replace_with == ts[j].replace_with
                        &&& rx.wf()
                    },
            decreases trans.len() - ti,
        {
            let t = &trans[ti];
            let replace_value = match &t.replace_with {
                None => None,
                Some(v) => Some(v.clone()),
            };
            regxs.push(Regex::new(&t.tt, Some(t.id.as_str()), &alpha, replace_value));
            ti = ti + 1;
        }

        let n = source.unicode_len();
        let mut pos: usize = 0;
        let mut line: usize = 1;
        let mut col: usize = 1;
        let mut out = String::new();
        let ghost full = spec_scan(ts, a, nlch, s, 1, 1);
        proof {
            assert(s.skip(0) =~= s);
            assert(out@ + spec_render_steps(full.steps) =~= spec_render_steps(full.steps));
        }
        while pos < n
            invariant
                0 <= pos <= n,
                1 <= line <= 1 + pos,
                1 <= col <= 1 + pos,
                regxs@.len() == ts.len(),
                forall|j: int|
                    0 <= j < regxs@.len() ==> {
                        let rx = #[trigger] regxs@[j];
                        &&& rx.dfa@ == ts[j].tt@
                        &&& rx.alphabet@ == a
                        &&& rx.token matches Some(u) && u@ == ts[j].id@
                        &&& rx.replace_with == ts[j].replace_with
                        &&& rx.wf()
                    },
                ({
                    let rem_scan = spec_scan(ts, a, nlch, s.skip(pos as int), line as int, col as int);
                    &&& spec_render_steps(full.steps) == out@ + spec_render_steps(rem_scan.steps)
                    &&& full.err == rem_scan.err
                }),
            decreases n - pos,
        {
            let ghost rems = s.skip(pos as int);
            let ghost rem_scan = spec_scan(ts, a, nlch, rems, line as int, col as int);
            let rem = source.substring_char(pos, n);
            proof {
                assert(rem@ =~= rems);
            }

            let mut longest: usize = 0;
            let mut num_newlines: usize = 0;
            let mut char_number: usize = 0;
            let mut widx: usize = 0;
            let mut j: usize = 0;
            proof {
                assert(ts.take(0) =~= Seq::<TransitionTable>::empty());
            }
            while j < regxs.len()
                invariant
                    0 <= j <= regxs.len(),
                    pos < n,
                    rems == s.skip(pos as int),
                    rem@ == rems,
                    regxs@.len() == ts.len(),
                    forall|x: int|
                        0 <= x < regxs@.len() ==> {
                            let rx = #[trigger] regxs@[x];
                            &&& rx.dfa@ == ts[x].tt@
                            &&& rx.alphabet@ == a
                            &&& rx.token matches Some(u) && u@ == ts[x].id@
                            &&& rx.replace_with == ts[x].replace_with
                            &&& rx.wf()
                        },
                    forall|x: int| 0 <= x < j ==> !scan_fails((#[trigger] ts[x]).tt@, a, rems),
                    longest as int == spec_max_len(ts.take(j as int), a, rems),
                    longest <= rems.len(),
                    longest > 0 ==> {
                        &&& widx < j
                        &&& widx as int == spec_winner(ts.take(j as int), a, rems)
                        &&& (longest as int, num_newlines as int, char_number as int)
                            == spec_first_match(ts[widx as int].tt@, a, rems, nlch)
                    },
                    longest == 0 ==> spec_winner(ts.take(j as int), a, rems) == -1,
                decreases regxs.len() - j,
            {
                proof {
                    assert(ts.take(j + 1).drop_last() =~= ts.take(j as int));
                    assert(ts.take(j + 1).last() == ts[j as int]);
                }
                let ghost prev_regxs = regxs@;
                let res = regxs[j].first_match(rem, nlch);
                proof {
                    assert forall|x: int| 0 <= x < regxs@.len() implies {
                        let rx = #[trigger] regxs@[x];
                        &&& rx.dfa@ == ts[x].tt@
                        &&& rx.alphabet@ == a
                        &&& rx.token matches Some(u) && u@ == ts[x].id@
                        &&& rx.replace_with == ts[x].replace_with
                        &&& rx.wf()
                    } by {
                        if x != j as int {
                            assert(regxs@[x] == prev_regxs[x]);
                        }
                    }
                }
                match res {
                    Err(_) => {
                        proof {
                            assert(scan_fails(ts[j as int].tt@, a, rems));
                            assert(rem_scan.steps =~= Seq::<StepV>::empty());
                            assert(out@ + Seq::<char>::empty() =~= out@);
                        }
                        return (out, Some(TokenizeError::CharNotInAlphabet));
                    },
                    Ok((length, newlines, cn)) => {
                        proof {
                            lemma_match_len_le_input(ts[j as int].tt@, a, rems);
                        }
                        if length > longest {
                            longest = length;
                            num_newlines = newlines;
                            char_number = cn;
                            widx = j;
                        }
                    },
                }
                j = j + 1;
            }
            proof {
                assert(ts.take(regxs@.len() as int) =~= ts);
            }

            if longest == 0 {
                proof {
                    assert(rem_scan.err == Some(
                        ScanErrV::NoMatch { line: line as int, column: col as int },
                    ));
                    assert(rem_scan.steps =~= Seq::<StepV>::empty());
                    assert(out@ + Seq::<char>::empty() =~= out@);
                }
                return (out, Some(TokenizeError::NoRuleMatch { line, column: col }));
            }

            let ghost w = spec_winner(ts, a, rems);
            let ghost m = spec_max_len(ts, a, rems);
            let ghost step0 = rem_scan.steps[0];
            proof {
                assert(w == widx as int);
                assert(m == longest as int);
                assert(rem_scan.steps == seq![
                    StepV {
                        table: w,
                        lexeme: rems.take(m),
                        id: ts[w].id@,
                        payload: match ts[w].replace_with {
                            Some(v) => v@,
                            None => spec_encode_string(rems.take(m)),
                        },
                        line: line as int,
                        column: col as int,
                    },
                ] + spec_scan(
                    ts,
                    a,
                    nlch,
                    rems.skip(m),
                    line as int + num_newlines as int,
                    if num_newlines == 0 {
                        col as int + m
                    } else {
                        char_number as int
                    },
                ).steps);
            }

            let wre = &regxs[widx];
            let lexeme = source.substring_char(pos, pos + longest);
            proof {
                assert(lexeme@ =~= rems.take(longest as int));
                lemma_match_chars_byte(ts[widx as int].tt@, a, rems);
                assert forall|x: int| 0 <= x < lexeme@.len() implies ((#[trigger] lexeme@[x])
                    as u32) < 256 by {
                    assert(lexeme@[x] == rems[x]);
                }
            }
            let payload: String = match &wre.replace_with {
                Some(v) => v.clone(),
                None => char_to_hex_a_string(lexeme),
            };

            let id: &String = match &wre.token {
                Some(t) => t,
                None => vstd::pervasive::unreached(),
            };
            let suppress = str_eq(id.as_str(), "IGNORE");
            proof {
                assert("IGNORE"@ =~= seq!['I', 'G', 'N', 'O', 'R', 'E']);
                assert(suppress == is_ignore(step0.id));
            }
            let ghost out_before = out@;
            if !suppress {
                out.append(id.as_str());
                out.push(' ');
                out.append(payload.as_str());
                out.push(' ');
                let ls = usize_to_string(line);
                out.append(ls.as_str());
                out.push(' ');
                let cs = usize_to_string(col);
                out.append(cs.as_str());
                out.push('\n');
                proof {
                    assert(out@ =~= out_before + spec_render_line(
                        step0.id,
                        step0.payload,
                        line as int,
                        col as int,
                    ));
                }
            } else {
                proof {
                    assert(out@ =~= out_before + Seq::<char>::empty());
                }
            }

            proof {
                lemma_count_nl_bounds(rems.take(longest as int), nlch);
                lemma_col_after_bounds(rems.take(longest as int), nlch);
                assert(num_newlines <= longest);
                assert(char_number <= longest);
                let rest = spec_scan(
                    ts,
                    a,
                    nlch,
                    rems.skip(m),
                    line as int + num_newlines as int,
                    if num_newlines == 0 {
                        col as int + m
                    } else {
                        char_number as int
                    },
                );
                assert(rem_scan.steps.drop_first() =~= rest.steps);
                let x0 = if is_ignore(step0.id) {
                    Seq::<char>::empty()
                } else {
                    spec_render_line(step0.id, step0.payload, step0.line, step0.column)
                };
                assert(spec_render_steps(rem_scan.steps) == x0 + spec_render_steps(rest.steps));
                assert(out@ == out_before + x0);
                assert(out_before + (x0 + spec_render_steps(rest.steps)) =~= (out_before + x0)
                    + spec_render_steps(rest.steps));
                assert(rems.skip(m) =~= s.skip(pos as int + longest as int));
            }

            line = line + num_newlines;
            if num_newlines == 0 {
                col = col + longest;
            } else {
                col = char_number;
            }
            pos = pos + longest;
        }
        proof {
            assert(s.skip(pos as int) =~= Seq::<char>::empty());
            let rem_scan = spec_scan(ts, a, nlch, s.skip(pos as int), line as int, col as int);
            assert(rem_scan.steps =~= Seq::<StepV>::empty());
            assert(out@ + Seq::<char>::empty() =~= out@);
        }
        (out, None)
    }
}

} // verus!
