//! The DFA transition table: an ordered sequence of rows, row `i` describing
//! state `i`. A transition entry is either the next state or dead (`None`,
//! written `E` in the file grammar). State 0 is the start state.

use vstd::prelude::*;
use vstd::string::*;
use crate::text::{spec_split_ws, split_ws, is_dec_str, dec_val, parse_usize, str_eq};

verus! {

/// One row of a DFA table.
#[derive(Debug, PartialEq, Eq)]
pub struct Row {
    pub is_accepting: bool,
    pub id: usize,
    pub transitions: Vec<Option<usize>>,
}

/// The mathematical content of a [`Row`].
pub struct RowV {
    pub accepting: bool,
    pub id: usize,
    pub transitions: Seq<Option<usize>>,
}

impl View for Row {
    type V = RowV;

    open spec fn view(&self) -> RowV {
        RowV { accepting: self.is_accepting, id: self.id, transitions: self.transitions@ }
    }
}

/// A deterministic finite automaton as a table of rows.
#[derive(Debug, PartialEq, Eq)]
pub struct DFA {
    pub rows: Vec<Row>,
}

impl View for DFA {
    type V = Seq<RowV>;

    open spec fn view(&self) -> Seq<RowV> {
        self.rows@.map_values(|r: Row| r@)
    }
}

/// A row fits an alphabet of `k` symbols and a table of `n_rows` states: one
/// transition entry per symbol, every named state in range.
pub open spec fn row_wf(r: RowV, k: nat, n_rows: nat) -> bool {
    &&& r.transitions.len() == k
    &&& forall|j: int|
        0 <= j < r.transitions.len() ==> ((#[trigger] r.transitions[j]) matches Some(t)
            ==> (t as nat) < n_rows)
}

/// A DFA is compatible with an alphabet of `k` symbols: it has a start state
/// and every row fits.
pub open spec fn dfa_wf(d: Seq<RowV>, k: nat) -> bool {
    &&& d.len() > 0
    &&& forall|i: int| 0 <= i < d.len() ==> row_wf(#[trigger] d[i], k, d.len())
}

impl Row {
    pub fn new(is_accepting: bool, id: usize, transitions: Vec<Option<usize>>) -> (r: Self)
        ensures
            r@ == (RowV { accepting: is_accepting, id, transitions: transitions@ }),
    {
        Self { is_accepting, id, transitions }
    }

    pub fn transitions(&self) -> (r: &Vec<Option<usize>>)
        ensures
            r@ == self@.transitions,
    {
        &self.transitions
    }

    pub fn is_accepting(&self) -> (r: bool)
        ensures
            r == self@.accepting,
    {
        self.is_accepting
    }
}

impl Clone for Row {
    fn clone(&self) -> (r: Self)
        ensures
            r@ == self@,
    {
        let mut transitions: Vec<Option<usize>> = Vec::new();
        let mut i: usize = 0;
        while i < self.transitions.len()
            invariant
                0 <= i <= self.transitions.len(),
                transitions@ == self.transitions@.take(i as int),
            decreases self.transitions.len() - i,
        {
            transitions.push(self.transitions[i]);
            proof {
                assert(self.transitions@.take(i + 1) =~= self.transitions@.take(i as int).push(
                    self.transitions@[i as int],
                ));
            }
            i = i + 1;
        }
        proof {
            assert(self.transitions@.take(self.transitions@.len() as int) =~= self.transitions@);
        }
        Row { is_accepting: self.is_accepting, id: self.id, transitions }
    }
}

impl Clone for DFA {
    fn clone(&self) -> (r: Self)
        ensures
            r@ == self@,
    {
        let mut rows: Vec<Row> = Vec::new();
        let mut i: usize = 0;
        while i < self.rows.len()
            invariant
                0 <= i <= self.rows.len(),
                rows@.map_values(|r: Row| r@) == self@.take(i as int),
            decreases self.rows.len() - i,
        {
            let ghost prev = rows@.map_values(|r: Row| r@);
            rows.push(self.rows[i].clone());
            proof {
                assert(rows@.map_values(|r: Row| r@) =~= prev.push(self.rows@[i as int]@));
                assert(self@.take(i + 1) =~= self@.take(i as int).push(self@[i as int]));
                assert(self@[i as int] == self.rows@[i as int]@);
            }
            i = i + 1;
        }
        proof {
            assert(self@.take(self@.len() as int) =~= self@);
        }
        DFA { rows }
    }
}

/// A transition token of the row grammar: `E` for dead, else an in-range
/// decimal state index. `None` means the token fails the grammar.
pub open spec fn spec_trans_token(t: Seq<char>) -> Option<Option<usize>> {
    if t == seq!['E'] {
        Some(None)
    } else if is_dec_str(t) && dec_val(t) <= usize::MAX {
        Some(Some(dec_val(t) as usize))
    } else {
        None
    }
}

/// Parse a sequence of transition tokens; `None` when any token fails.
pub open spec fn spec_parse_transitions(ts: Seq<Seq<char>>) -> Option<Seq<Option<usize>>>
    decreases ts.len(),
{
    if ts.len() == 0 {
        Some(Seq::empty())
    } else {
        match spec_trans_token(ts[0]) {
            None => None,
            Some(v) => match spec_parse_transitions(ts.drop_first()) {
                None => None,
                Some(rest) => Some(seq![v] + rest),
            },
        }
    }
}

/// The row grammar: `<accept> <id> <t_0> ... <t_{k-1}>`, fields separated by
/// whitespace, `<accept>` one of `+` `-`, `<id>` decimal, each `<t_i>` either
/// `E` or decimal.
pub open spec fn spec_parse_row(line: Seq<char>) -> Option<RowV> {
    let toks = spec_split_ws(line);
    if toks.len() < 2 {
        None
    } else if toks[0] != seq!['+'] && toks[0] != seq!['-'] {
        None
    } else if !(is_dec_str(toks[1]) && dec_val(toks[1]) <= usize::MAX) {
        None
    } else {
        match spec_parse_transitions(toks.skip(2)) {
            None => None,
            Some(tr) => Some(
                RowV {
                    accepting: toks[0] == seq!['+'],
                    id: dec_val(toks[1]) as usize,
                    transitions: tr,
                },
            ),
        }
    }
}

/// `None` when the parse fails, carried through a partial transitions parse.
pub open spec fn opt_prepend(a: Seq<Option<usize>>, o: Option<Seq<Option<usize>>>) -> Option<
    Seq<Option<usize>>,
> {
    match o {
        None => None,
        Some(r) => Some(a + r),
    }
}

impl Row {
    /// Parse one line of the row grammar, as [`spec_parse_row`] describes.
    #[verifier::loop_isolation(false)]
    pub fn from_str_custom(input: &str) -> (r: Result<Self, ()>)
        ensures
            match r {
                Ok(row) => spec_parse_row(input@) == Some(row@),
                Err(_) => spec_parse_row(input@) == None::<RowV>,
            },
    {
        proof {
            reveal_strlit("+");
            reveal_strlit("-");
            reveal_strlit("E");
        }
        let toks = split_ws(input);
        let ghost tv = spec_split_ws(input@);
        if toks.len() < 2 {
            return Err(());
        }
        let plus = str_eq(toks[0].as_str(), "+");
        let minus = str_eq(toks[0].as_str(), "-");
        proof {
            assert("+"@ =~= seq!['+']);
            assert("-"@ =~= seq!['-']);
            assert("E"@ =~= seq!['E']);
        }
        if !plus && !minus {
            return Err(());
        }
        let id = match parse_usize(toks[1].as_str()) {
            Some(v) => v,
            None => {
                return Err(());
            },
        };
        let mut transitions: Vec<Option<usize>> = Vec::new();
        let mut j: usize = 2;
        proof {
            match spec_parse_transitions(tv.skip(2)) {
                Some(r) => {
                    assert(transitions@ + r =~= r);
                },
                None => {},
            }
        }
        while j < toks.len()
            invariant
                2 <= j <= toks.len(),
                tv == toks.deep_view(),
                tv == spec_split_ws(input@),
                spec_parse_transitions(tv.skip(2)) == opt_prepend(
                    transitions@,
                    spec_parse_transitions(tv.skip(j as int)),
                ),
            decreases toks.len() - j,
        {
            proof {
                assert(tv.skip(j as int)[0] == tv[j as int]);
                assert(tv.skip(j as int).drop_first() =~= tv.skip(j + 1));
            }
            let t = &toks[j];
            proof {
                assert(tv[j as int] == toks@[j as int]@);
            }
            if str_eq(t.as_str(), "E") {
                let ghost prev = transitions@;
                transitions.push(None);
                proof {
                    match spec_parse_transitions(tv.skip(j + 1)) {
                        Some(rest) => {
                            assert(prev + (seq![None::<usize>] + rest) =~= transitions@ + rest);
                        },
                        None => {},
                    }
                }
            } else {
                match parse_usize(t.as_str()) {
                    Some(v) => {
                        let ghost prev = transitions@;
                        transitions.push(Some(v));
                        proof {
                            match spec_parse_transitions(tv.skip(j + 1)) {
                                Some(rest) => {
                                    assert(prev + (seq![Some(v)] + rest) =~= transitions@ + rest);
                                },
                                None => {},
                            }
                        }
                    },
                    None => {
                        return Err(());
                    },
                }
            }
            j = j + 1;
        }
        proof {
            assert(tv.skip(toks.len() as int) =~= Seq::<Seq<char>>::empty());
            assert(transitions@ + Seq::<Option<usize>>::empty() =~= transitions@);
        }
        Ok(Row::new(plus, id, transitions))
    }
}

/// Rows accumulated from lines in order, stopping at the first line that
/// fails the row grammar. Trailing blank or comment lines are thereby
/// skipped; an empty sequence of lines yields no rows.
pub open spec fn spec_rows_from_lines(lines: Seq<Seq<char>>) -> Seq<RowV>
    decreases lines.len(),
{
    if lines.len() == 0 {
        Seq::empty()
    } else {
        match spec_parse_row(lines[0]) {
            None => Seq::empty(),
            Some(r) => seq![r] + spec_rows_from_lines(lines.drop_first()),
        }
    }
}

impl DFA {
    pub fn new(rows: Vec<Row>) -> (d: Self)
        ensures
            d@ == rows@.map_values(|r: Row| r@),
    {
        Self { rows }
    }

    /// Build a DFA from the lines of a table file, as
    /// [`spec_rows_from_lines`] describes.
    pub fn from_lines(lines: &Vec<String>) -> (d: Self)
        ensures
            d@ == spec_rows_from_lines(lines.deep_view()),
    {
        let ghost lv = lines.deep_view();
        let mut rows: Vec<Row> = Vec::new();
        let mut i: usize = 0;
        let mut stopped = false;
        proof {
            assert(lv.skip(0) =~= lv);
            assert(rows@.map_values(|r: Row| r@) =~= Seq::<RowV>::empty());
            assert(Seq::<RowV>::empty() + spec_rows_from_lines(lv) =~= spec_rows_from_lines(lv));
        }
        while i < lines.len()
            invariant_except_break
                !stopped,
            invariant
                0 <= i <= lines.len(),
                lv == lines.deep_view(),
                stopped ==> spec_rows_from_lines(lv) == rows@.map_values(|r: Row| r@),
                !stopped ==> spec_rows_from_lines(lv) == rows@.map_values(|r: Row| r@)
                    + spec_rows_from_lines(lv.skip(i as int)),
            ensures
                stopped || i == lines@.len(),
            decreases lines.len() - i,
        {
            proof {
                assert(lv.skip(i as int)[0] == lv[i as int]);
                assert(lv.skip(i as int).drop_first() =~= lv.skip(i + 1));
                assert(lines@[i as int]@ == lv[i as int]);
            }
            match Row::from_str_custom(lines[i].as_str()) {
                Ok(row) => {
                    let ghost prev = rows@.map_values(|r: Row| r@);
                    let ghost rv = row@;
                    rows.push(row);
                    proof {
                        assert(rows@.map_values(|r: Row| r@) =~= prev.push(rv));
                        let rest = spec_rows_from_lines(lv.skip(i + 1));
                        assert(prev + (seq![rv] + rest) =~= prev.push(rv) + rest);
                    }
                },
                Err(_) => {
                    stopped = true;
                    proof {
                        assert(spec_rows_from_lines(lv.skip(i as int)) =~= Seq::<RowV>::empty());
                        assert(rows@.map_values(|r: Row| r@) + Seq::<RowV>::empty()
                            =~= rows@.map_values(|r: Row| r@));
                    }
                    break;
                },
            }
            i = i + 1;
        }
        proof {
            if !stopped {
                assert(i == lv.len());
                assert(lv.skip(i as int) =~= Seq::<Seq<char>>::empty());
                assert(spec_rows_from_lines(lv.skip(i as int)) == Seq::<RowV>::empty());
                assert(rows@.map_values(|r: Row| r@) + Seq::<RowV>::empty() =~= rows@.map_values(
                    |r: Row| r@,
                ));
            }
        }
        DFA::new(rows)
    }

    /// Number of rows (states) in the table.
    pub fn len(&self) -> (n: usize)
        ensures
            n == self@.len(),
    {
        self.rows.len()
    }

    /// The transition for `letter` out of state `row`.
    pub fn transition(&self, row: usize, letter: usize) -> (r: Option<usize>)
        requires
            row < self@.len(),
            letter < self@[row as int].transitions.len(),
        ensures
            r == self@[row as int].transitions[letter as int],
    {
        self.rows[row].transitions[letter]
    }

    /// Whether state `row` is accepting.
    pub fn is_accepting(&self, row: usize) -> (r: bool)
        requires
            row < self@.len(),
        ensures
            r == self@[row as int].accepting,
    {
        self.rows[row].is_accepting
    }

    /// Check the cross-consistency with an alphabet of `k` symbols that the
    /// runner assumes, as [`dfa_wf`] describes.
    pub fn is_compatible(&self, k: usize) -> (r: bool)
        ensures
            r == dfa_wf(self@, k as nat),
    {
        let n = self.rows.len();
        if n == 0 {
            return false;
        }
        let mut i: usize = 0;
        while i < n
            invariant
                n == self@.len(),
                0 <= i <= n,
                forall|x: int| 0 <= x < i ==> row_wf(#[trigger] self@[x], k as nat, n as nat),
            decreases n - i,
        {
            let row = &self.rows[i];
            proof {
                assert(row@ == self@[i as int]);
            }
            if row.transitions.len() != k {
                return false;
            }
            let mut j: usize = 0;
            while j < k
                invariant
                    n == self@.len(),
                    0 <= i < n,
                    row@ == self@[i as int],
                    row@.transitions.len() == k,
                    0 <= j <= k,
                    forall|y: int|
                        0 <= y < j ==> ((#[trigger] row@.transitions[y]) matches Some(t) ==> (
                        t as nat) < n as nat),
                decreases k - j,
            {
                match row.transitions[j] {
                    Some(t) => {
                        if t >= n {
                            return false;
                        }
                    },
                    None => {},
                }
                j = j + 1;
            }
            i = i + 1;
        }
        true
    }
}

} // verus!
