//! An older form of the DFA table whose row grammar carries no id field: the
//! row's position in the file is its id.

use vstd::prelude::*;
use vstd::string::*;
use crate::dfa::{RowV, spec_parse_transitions, opt_prepend};
use crate::text::{spec_split_ws, split_ws, parse_usize, str_eq};

verus! {

/// One row of the table; the id is handed in by position.
#[derive(Debug, PartialEq, Eq)]
pub struct Row {
    pub is_accepting: bool,
    pub id: usize,
    pub transitions: Vec<Option<usize>>,
}

impl View for Row {
    type V = RowV;

    open spec fn view(&self) -> RowV {
        RowV { accepting: self.is_accepting, id: self.id, transitions: self.transitions@ }
    }
}

/// The positional row grammar: `<accept> <t_0> ... <t_{k-1}>`, `<accept>` one
/// of `+` `-`, each `<t_i>` either `E` or decimal; the id is the given one.
pub open spec fn spec_parse_row_pos(line: Seq<char>, id: usize) -> Option<RowV> {
    let toks = spec_split_ws(line);
    if toks.len() < 1 {
        None
    } else if toks[0] != seq!['+'] && toks[0] != seq!['-'] {
        None
    } else {
        match spec_parse_transitions(toks.skip(1)) {
            None => None,
            Some(tr) => Some(RowV { accepting: toks[0] == seq!['+'], id, transitions: tr }),
        }
    }
}

impl Row {
    pub fn new(is_accepting: bool, id: usize, transitions: Vec<Option<usize>>) -> (r: Self)
        ensures
            r@ == (RowV { accepting: is_accepting, id, transitions: transitions@ }),
    {
        Self { is_accepting, id, transitions }
    }

    /// Parse one line of the positional row grammar, as
    /// [`spec_parse_row_pos`] describes.
    #[verifier::loop_isolation(false)]
    pub fn from_str_custom(input: &str, id: usize) -> (r: Result<Self, ()>)
        ensures
            match r {
                Ok(row) => spec_parse_row_pos(input@, id) == Some(row@),
                Err(_) => spec_parse_row_pos(input@, id) == None::<RowV>,
            },
    {
        proof {
            reveal_strlit("+");
            reveal_strlit("-");
            reveal_strlit("E");
        }
        let toks = split_ws(input);
        let ghost tv = spec_split_ws(input@);
        if toks.len() < 1 {
            return Err(());
        }
        let plus = str_eq(toks[0].as_str(), "+");
        let minus = str_eq(toks[0].as_str(), "-");
        proof {
            assert("+"@ =~= seq!['+']);
            assert("-"@ =~= seq!['-']);
            assert("E"@ =~= seq!['E']);
        }
        if !plus && !minus {
            return Err(());
        }
        let mut transitions: Vec<Option<usize>> = Vec::new();
        let mut j: usize = 1;
        proof {
            match spec_parse_transitions(tv.skip(1)) {
                Some(r) => {
                    assert(transitions@ + r =~= r);
                },
                None => {},
            }
        }
        while j < toks.len()
            invariant
                1 <= j <= toks.len(),
                tv == toks.deep_view(),
                tv == spec_split_ws(input@),
                spec_parse_transitions(tv.skip(1)) == opt_prepend(
                    transitions@,
                    spec_parse_transitions(tv.skip(j as int)),
                ),
            decreases toks.len() - j,
        {
            proof {
                assert(tv.skip(j as int)[0] == tv[j as int]);
                assert(tv.skip(j as int).drop_first() =~= tv.skip(j + 1));
            }
            let t = &toks[j];
            proof {
                assert(tv[j as int] == toks@[j as int]@);
            }
            if str_eq(t.as_str(), "E") {
                let ghost prev = transitions@;
                transitions.push(None);
                proof {
                    match spec_parse_transitions(tv.skip(j + 1)) {
                        Some(rest) => {
                            assert(prev + (seq![None::<usize>] + rest) =~= transitions@ + rest);
                        },
                        None => {},
                    }
                }
            } else {
                match parse_usize(t.as_str()) {
                    Some(v) => {
                        let ghost prev = transitions@;
                        transitions.push(Some(v));
                        proof {
                            match spec_parse_transitions(tv.skip(j + 1)) {
                                Some(rest) => {
                                    assert(prev + (seq![Some(v)] + rest) =~= transitions@ + rest);
                                },
                                None => {},
                            }
                        }
                    },
                    None => {
                        return Err(());
                    },
                }
            }
            j = j + 1;
        }
        proof {
            assert(tv.skip(toks.len() as int) =~= Seq::<Seq<char>>::empty());
            assert(transitions@ + Seq::<Option<usize>>::empty() =~= transitions@);
        }
        Ok(Row::new(plus, id, transitions))
    }
}

/// Rows accumulated from lines in order with positional ids starting at `id`,
/// stopping at the first line that fails the grammar.
pub open spec fn spec_rows_from_lines_pos(lines: Seq<Seq<char>>, id: usize) -> Seq<RowV>
    decreases lines.len(),
{
    if lines.len() == 0 || id == usize::MAX {
        Seq::empty()
    } else {
        match spec_parse_row_pos(lines[0], id) {
            None => Seq::empty(),
            Some(r) => seq![r] + spec_rows_from_lines_pos(lines.drop_first(), (id + 1) as usize),
        }
    }
}

/// The table: an ordered sequence of rows, row `i` describing state `i`.
pub struct TransitionTable {
    pub rows: Vec<Row>,
}

impl View for TransitionTable {
    type V = Seq<RowV>;

    open spec fn view(&self) -> Seq<RowV> {
        self.rows@.map_values(|r: Row| r@)
    }
}

impl TransitionTable {
    pub fn new(rows: Vec<Row>) -> (t: Self)
        ensures
            t@ == rows@.map_values(|r: Row| r@),
    {
        Self { rows }
    }

    /// Build a table from the lines of a file, as
    /// [`spec_rows_from_lines_pos`] describes.
    pub fn from_lines(lines: &Vec<String>) -> (t: Self)
        ensures
            t@ == spec_rows_from_lines_pos(lines.deep_view(), 0),
    {
        let ghost lv = lines.deep_view();
        let mut rows: Vec<Row> = Vec::new();
        let mut i: usize = 0;
        let mut stopped = false;
        proof {
            assert(lv.skip(0) =~= lv);
            assert(rows@.map_values(|r: Row| r@) =~= Seq::<RowV>::empty());
            assert(Seq::<RowV>::empty() + spec_rows_from_lines_pos(lv, 0) =~= spec_rows_from_lines_pos(
                lv,
                0,
            ));
        }
        while i < lines.len()
            invariant_except_break
                !stopped,
            invariant
                0 <= i <= lines.len(),
                lines.len() <= usize::MAX,
                lv == lines.deep_view(),
                stopped ==> spec_rows_from_lines_pos(lv, 0) == rows@.map_values(|r: Row| r@),
                !stopped ==> spec_rows_from_lines_pos(lv, 0) == rows@.map_values(|r: Row| r@)
                    + spec_rows_from_lines_pos(lv.skip(i as int), i),
            ensures
                stopped || i == lines@.len(),
            decreases lines.len() - i,
        {
            proof {
                assert(lv.skip(i as int)[0] == lv[i as int]);
                assert(lv.skip(i as int).drop_first() =~= lv.skip(i + 1));
                assert(lines@[i as int]@ == lv[i as int]);
            }
            match Row::from_str_custom(lines[i].as_str(), i) {
                Ok(row) => {
                    let ghost prev = rows@.map_values(|r: Row| r@);
                    let ghost rv = row@;
                    rows.push(row);
                    proof {
                        assert(rows@.map_values(|r: Row| r@) =~= prev.push(rv));
                        let rest = spec_rows_from_lines_pos(lv.skip(i + 1), (i + 1) as usize);
                        assert(prev + (seq![rv] + rest) =~= prev.push(rv) + rest);
                    }
                },
                Err(_) => {
                    stopped = true;
                    proof {
                        assert(spec_rows_from_lines_pos(lv.skip(i as int), i) =~= Seq::<
                            RowV,
                        >::empty());
                        assert(rows@.map_values(|r: Row| r@) + Seq::<RowV>::empty()
                            =~= rows@.map_values(|r: Row| r@));
                    }
                    break;
                },
            }
            i = i + 1;
        }
        proof {
            if !stopped {
                assert(lv.skip(i as int) =~= Seq::<Seq<char>>::empty());
                assert(spec_rows_from_lines_pos(lv.skip(i as int), i) == Seq::<RowV>::empty());
                assert(rows@.map_values(|r: Row| r@) + Seq::<RowV>::empty() =~= rows@.map_values(
                    |r: Row| r@,
                ));
            }
        }
        TransitionTable::new(rows)
    }
}

} // verus!
