//! The scanner definition: the alphabet, the newline character, and the
//! ordered list of transition-table entries `(DFA, token id, optional
//! replace-with literal)`.

use vstd::prelude::*;
use vstd::string::*;
use crate::alphabet::{Alphabet, alphabet_wf, sym_index, lemma_sym_index};
use crate::alphabet_translator::{is_hex_digit, hex_pair_char, hex_pair_to_char, is_hex_digit_char};
use crate::dfa::{DFA, dfa_wf};
use crate::text::{is_space, spec_split_ws, split_ws};

verus! {

/// The whitespace removed, remaining characters in order.
pub open spec fn strip_spaces(s: Seq<char>) -> Seq<char>
    decreases s.len(),
{
    if s.len() == 0 {
        Seq::empty()
    } else if is_space(s.last()) {
        strip_spaces(s.drop_last())
    } else {
        strip_spaces(s.drop_last()).push(s.last())
    }
}

/// Decode a stripped alphabet line: `x` consumes the following two characters
/// as a hex escape for one byte-valued character; any other byte-valued
/// character stands for itself. `None` when an escape is short or not hex, or
/// a literal character is not byte-valued.
pub open spec fn decode_alpha(t: Seq<char>) -> Option<Seq<char>>
    decreases t.len(),
{
    if t.len() == 0 {
        Some(Seq::empty())
    } else if t[0] == 'x' {
        if t.len() >= 3 && is_hex_digit(t[1]) && is_hex_digit(t[2]) {
            match decode_alpha(t.skip(3)) {
                None => None,
                Some(rest) => Some(seq![hex_pair_char(seq![t[1], t[2]])] + rest),
            }
        } else {
            None
        }
    } else if (t[0] as u32) < 256 {
        match decode_alpha(t.drop_first()) {
            None => None,
            Some(rest) => Some(seq![t[0]] + rest),
        }
    } else {
        None
    }
}

/// The alphabet named by an alphabet line: the decoded characters in
/// encounter order, at least one of them and no two alike, and the first of
/// them as the scanner's newline character.
pub open spec fn spec_alphabet(line: Seq<char>) -> Option<(Seq<char>, char)> {
    match decode_alpha(strip_spaces(line)) {
        None => None,
        Some(d) => if d.len() > 0 && (forall|i: int, j: int| 0 <= i < j < d.len() ==> d[i] != d[j]) {
            Some((d, d[0]))
        } else {
            None
        },
    }
}

/// `None` carried through a partial decode.
pub open spec fn opt_prepend_chars(a: Seq<char>, o: Option<Seq<char>>) -> Option<Seq<char>> {
    match o {
        None => None,
        Some(r) => Some(a + r),
    }
}

/// Remove the whitespace from a string.
fn strip_ws_chars(s: &str) -> (r: Vec<char>)
    ensures
        r@ == strip_spaces(s@),
{
    let n = s.unicode_len();
    let mut r: Vec<char> = Vec::new();
    let mut i: usize = 0;
    while i < n
        invariant
            n == s@.len(),
            0 <= i <= n,
            r@ == strip_spaces(s@.take(i as int)),
        decreases n - i,
    {
        let c = s.get_char(i);
        proof {
            assert(s@.take(i + 1).drop_last() =~= s@.take(i as int));
            assert(s@.take(i + 1).last() == s@[i as int]);
        }
        if !crate::text::is_space_char(c) {
            r.push(c);
        }
        i = i + 1;
    }
    proof {
        assert(s@.take(n as int) =~= s@);
    }
    r
}

/// One transition-table entry of the scanner definition.
pub struct TransitionTable {
    pub tt: DFA,
    pub id: String,
    pub replace_with: Option<String>,
}

/// An entry line split into its two or three fields.
pub open spec fn spec_parse_entry(line: Seq<char>) -> Option<
    (Seq<char>, Seq<char>, Option<Seq<char>>),
> {
    let toks = spec_split_ws(line);
    if toks.len() == 2 {
        Some((toks[0], toks[1], None))
    } else if toks.len() == 3 {
        Some((toks[0], toks[1], Some(toks[2])))
    } else {
        None
    }
}

impl TransitionTable {
    pub fn new(tt: DFA, id: String, replace_with: Option<String>) -> (t: Self)
        ensures
            t.tt == tt,
            t.id == id,
            t.replace_with == replace_with,
    {
        TransitionTable { tt, id, replace_with }
    }

    /// Split a definition entry line into DFA file name, token id, and
    /// optional replace-with literal, as [`spec_parse_entry`] describes.
    pub fn parse_line(input: &str) -> (r: Result<(String, String, Option<String>), ()>)
        ensures
            match r {
                Ok(t) => spec_parse_entry(input@) == Some(
                    (
                        t.0@,
                        t.1@,
                        match t.2 {
                            None => None::<Seq<char>>,
                            Some(v) => Some(v@),
                        },
                    ),
                ),
                Err(_) => spec_parse_entry(input@) == None::<
                    (Seq<char>, Seq<char>, Option<Seq<char>>),
                >,
            },
    {
        let toks = split_ws(input);
        if toks.len() == 2 {
            proof {
                assert(toks.deep_view()[0] == toks@[0]@);
                assert(toks.deep_view()[1] == toks@[1]@);
            }
            Ok((toks[0].clone(), toks[1].clone(), None))
        } else if toks.len() == 3 {
            proof {
                assert(toks.deep_view()[0] == toks@[0]@);
                assert(toks.deep_view()[1] == toks@[1]@);
                assert(toks.deep_view()[2] == toks@[2]@);
            }
            Ok((toks[0].clone(), toks[1].clone(), Some(toks[2].clone())))
        } else {
            Err(())
        }
    }
}

/// The fields of a parsed entry.
pub open spec fn entry_view(e: (String, String, Option<String>)) -> (
    Seq<char>,
    Seq<char>,
    Option<Seq<char>>,
) {
    (
        e.0@,
        e.1@,
        match e.2 {
            None => None,
            Some(v) => Some(v@),
        },
    )
}

/// The parsed entries of the definition lines after the alphabet line,
/// accumulated in order and stopping at the first line that fails the entry
/// grammar. Trailing blank or comment lines are thereby skipped.
pub open spec fn spec_entries_from_lines(lines: Seq<Seq<char>>) -> Seq<
    (Seq<char>, Seq<char>, Option<Seq<char>>),
>
    decreases lines.len(),
{
    if lines.len() == 0 {
        Seq::empty()
    } else {
        match spec_parse_entry(lines[0]) {
            None => Seq::empty(),
            Some(e) => seq![e] + spec_entries_from_lines(lines.drop_first()),
        }
    }
}

impl TransitionTable {
    /// Parse the entry lines of a definition file in order, as
    /// [`spec_entries_from_lines`] describes.
    pub fn parse_lines(lines: &Vec<String>) -> (r: Vec<(String, String, Option<String>)>)
        ensures
            r@.map_values(|e: (String, String, Option<String>)| entry_view(e))
                == spec_entries_from_lines(lines.deep_view()),
    {
        let ghost lv = lines.deep_view();
        let mut entries: Vec<(String, String, Option<String>)> = Vec::new();
        let mut i: usize = 0;
        let mut stopped = false;
        proof {
            assert(lv.skip(0) =~= lv);
            assert(entries@.map_values(|e: (String, String, Option<String>)| entry_view(e)) =~= Seq::<
                (Seq<char>, Seq<char>, Option<Seq<char>>),
            >::empty());
            assert(Seq::<(Seq<char>, Seq<char>, Option<Seq<char>>)>::empty()
                + spec_entries_from_lines(lv) =~= spec_entries_from_lines(lv));
        }
        while i < lines.len()
            invariant_except_break
                !stopped,
            invariant
                0 <= i <= lines.len(),
                lv == lines.deep_view(),
                stopped ==> spec_entries_from_lines(lv) == entries@.map_values(
                    |e: (String, String, Option<String>)| entry_view(e),
                ),
                !stopped ==> spec_entries_from_lines(lv) == entries@.map_values(
                    |e: (String, String, Option<String>)| entry_view(e),
                ) + spec_entries_from_lines(lv.skip(i as int)),
            ensures
                stopped || i == lines@.len(),
            decreases lines.len() - i,
        {
            proof {
                assert(lv.skip(i as int)[0] == lv[i as int]);
                assert(lv.skip(i as int).drop_first() =~= lv.skip(i + 1));
                assert(lines@[i as int]@ == lv[i as int]);
            }
            match TransitionTable::parse_line(lines[i].as_str()) {
                Ok(entry) => {
                    let ghost prev = entries@.map_values(
                        |e: (String, String, Option<String>)| entry_view(e),
                    );
                    let ghost ev = entry_view(entry);
                    entries.push(entry);
                    proof {
                        assert(entries@.map_values(|e: (String, String, Option<String>)| entry_view(e))
                            =~= prev.push(ev));
                        let rest = spec_entries_from_lines(lv.skip(i + 1));
                        assert(prev + (seq![ev] + rest) =~= prev.push(ev) + rest);
                    }
                },
                Err(_) => {
                    stopped = true;
                    proof {
                        assert(spec_entries_from_lines(lv.skip(i as int)) =~= Seq::<
                            (Seq<char>, Seq<char>, Option<Seq<char>>),
                        >::empty());
                        assert(entries@.map_values(|e: (String, String, Option<String>)| entry_view(e))
                            + Seq::<(Seq<char>, Seq<char>, Option<Seq<char>>)>::empty()
                            =~= entries@.map_values(
                            |e: (String, String, Option<String>)| entry_view(e),
                        ));
                    }
                    break;
                },
            }
            i = i + 1;
        }
        proof {
            if !stopped {
                assert(lv.skip(i as int) =~= Seq::<Seq<char>>::empty());
                assert(spec_entries_from_lines(lv.skip(i as int)) == Seq::<
                    (Seq<char>, Seq<char>, Option<Seq<char>>),
                >::empty());
                assert(entries@.map_values(|e: (String, String, Option<String>)| entry_view(e))
                    + Seq::<(Seq<char>, Seq<char>, Option<Seq<char>>)>::empty()
                    =~= entries@.map_values(|e: (String, String, Option<String>)| entry_view(e)));
            }
        }
        entries
    }
}

/// A scanner: alphabet, newline character, and transition-table entries in
/// definition order.
pub struct Scanner {
    pub newline: char,
    pub alpha: Alphabet,
    pub transition_tables: Vec<TransitionTable>,
}

/// The cross-consistency the DFA runners assume: a valid alphabet, and every
/// entry's DFA compatible with it.
pub open spec fn scanner_wf(s: &Scanner) -> bool {
    &&& alphabet_wf(s.alpha@)
    &&& forall|i: int|
        0 <= i < s.transition_tables@.len() ==> dfa_wf(
            (#[trigger] s.transition_tables@[i]).tt@,
            s.alpha@.len(),
        )
}

impl Scanner {
    pub fn new(newline: char, alpha: Alphabet, transition_tables: Vec<TransitionTable>) -> (s:
        Self)
        ensures
            s.newline == newline,
            s.alpha == alpha,
            s.transition_tables == transition_tables,
    {
        Self { newline, alpha, transition_tables }
    }

    pub fn get_alpha(&self) -> (a: Alphabet)
        ensures
            a@ == self.alpha@,
    {
        self.alpha.clone()
    }

    pub fn get_trans(&self) -> (r: &Vec<TransitionTable>)
        ensures
            r == &self.transition_tables,
    {
        &self.transition_tables
    }

    /// Decode an alphabet line into the alphabet and the newline character,
    /// as [`spec_alphabet`] describes. Fails on a malformed escape, a
    /// non-byte character, a repeated character, or an empty alphabet.
    #[verifier::loop_isolation(false)]
    pub fn alphabet_build(input: &str) -> (r: Result<(Alphabet, char), ()>)
        ensures
            match r {
                Ok(t) => {
                    &&& spec_alphabet(input@) == Some((t.0@, t.1))
                    &&& alphabet_wf(t.0@)
                    &&& t.0@.len() > 0
                    &&& t.1 == t.0@[0]
                },
                Err(_) => spec_alphabet(input@) == None::<(Seq<char>, char)>,
            },
    {
        let stripped = strip_ws_chars(input);
        let ghost t = stripped@;
        let mut alpha = Alphabet::new();
        let mut i: usize = 0;
        proof {
            assert(t.skip(0) =~= t);
            match decode_alpha(t) {
                Some(d) => {
                    assert(alpha@ + d =~= d);
                },
                None => {},
            }
        }
        while i < stripped.len()
            invariant
                0 <= i <= stripped.len(),
                alpha@.len() <= i,
                decode_alpha(t) == opt_prepend_chars(alpha@, decode_alpha(t.skip(i as int))),
                alphabet_wf(alpha@),
            decreases stripped.len() - i,
        {
            proof {
                assert(t.skip(i as int)[0] == t[i as int]);
            }
            let c0 = stripped[i];
            let c: char;
            let advance: usize;
            if c0 == 'x' {
                if stripped.len() - i < 3 {
                    proof {
                        assert(t.skip(i as int).len() < 3);
                    }
                    return Err(());
                }
                let c1 = stripped[i + 1];
                let c2 = stripped[i + 2];
                proof {
                    assert(t.skip(i as int)[1] == t[i + 1]);
                    assert(t.skip(i as int)[2] == t[i + 2]);
                }
                if !is_hex_digit_char(c1) || !is_hex_digit_char(c2) {
                    return Err(());
                }
                c = hex_pair_to_char(c1, c2);
                advance = 3;
                proof {
                    assert(t.skip(i as int).skip(3) =~= t.skip(i + 3));
                    assert(seq![c1, c2] =~= seq![t.skip(i as int)[1], t.skip(i as int)[2]]);
                }
            } else {
                let u = c0 as u32;
                if u >= 256 {
                    return Err(());
                }
                c = c0;
                advance = 1;
                proof {
                    assert(t.skip(i as int).drop_first() =~= t.skip(i + 1));
                }
            }
            let ghost tail = decode_alpha(t.skip(i as int + advance as int));
            proof {
                assert(decode_alpha(t.skip(i as int)) == opt_prepend_chars(seq![c], tail));
            }
            match alpha.lookup(c) {
                Some(k) => {
                    proof {
                        lemma_sym_index(alpha@, c);
                        assert(alpha@[k as int] == c);
                        match tail {
                            Some(rest) => {
                                let d = (alpha@ + (seq![c] + rest));
                                assert(decode_alpha(t) == Some(d));
                                assert(d[k as int] == c);
                                assert(d[alpha@.len() as int] == c);
                                assert(!(forall|x: int, y: int|
                                    0 <= x < y < d.len() ==> d[x] != d[y]));
                            },
                            None => {},
                        }
                    }
                    return Err(());
                },
                None => {
                    proof {
                        lemma_sym_index(alpha@, c);
                        let prev = alpha@;
                        match tail {
                            Some(rest) => {
                                assert(prev + (seq![c] + rest) =~= prev.push(c) + rest);
                            },
                            None => {},
                        }
                        assert forall|x: int, y: int|
                            0 <= x < y < prev.push(c).len() implies prev.push(c)[x] != prev.push(
                            c,
                        )[y] by {
                            if y == prev.len() {
                                assert(prev[x] != c);
                            }
                        }
                    }
                    let index = alpha.len();
                    alpha.insert(c, index);
                },
            }
            i = i + advance;
        }
        proof {
            assert(t.skip(t.len() as int) =~= Seq::<char>::empty());
            assert(decode_alpha(t) == Some(alpha@ + Seq::<char>::empty()));
            assert(alpha@ + Seq::<char>::empty() =~= alpha@);
        }
        if alpha.len() == 0 {
            return Err(());
        }
        let newline = alpha.chars[0];
        Ok((alpha, newline))
    }

    /// Check the cross-consistency that the runners assume, as
    /// [`scanner_wf`] describes.
    pub fn is_well_formed(&self) -> (r: bool)
        ensures
            r == scanner_wf(self),
    {
        let k = self.alpha.len();
        let mut i: usize = 0;
        while i < k
            invariant
                k == self.alpha@.len(),
                0 <= i <= k,
                forall|x: int, y: int| 0 <= x < y < i ==> self.alpha@[x] != self.alpha@[y],
                forall|x: int| 0 <= x < i ==> ((#[trigger] self.alpha@[x]) as u32) < 256,
            decreases k - i,
        {
            let c = self.alpha.chars[i];
            if (c as u32) >= 256 {
                return false;
            }
            match self.alpha.lookup(c) {
                Some(f) => {
                    proof {
                        lemma_sym_index(self.alpha@, c);
                    }
                    if f != i {
                        proof {
                            assert(self.alpha@[f as int] == c);
                            assert(f < i);
                        }
                        return false;
                    }
                    proof {
                        assert forall|x: int, y: int|
                            0 <= x < y < i + 1 implies self.alpha@[x] != self.alpha@[y] by {
                            if y == i as int {
                                assert(self.alpha@[x] != c);
                            }
                        }
                    }
                },
                None => {
                    proof {
                        lemma_sym_index(self.alpha@, c);
                        assert(self.alpha@[i as int] != c);
                    }
                },
            }
            i = i + 1;
        }
        let n = self.transition_tables.len();
        let mut j: usize = 0;
        while j < n
            invariant
                n == self.transition_tables@.len(),
                k == self.alpha@.len(),
                0 <= j <= n,
                forall|x: int|
                    0 <= x < j ==> dfa_wf(
                        (#[trigger] self.transition_tables@[x]).tt@,
                        self.alpha@.len(),
                    ),
            decreases n - j,
        {
            if !self.transition_tables[j].tt.is_compatible(k) {
                return false;
            }
            j = j + 1;
        }
        true
    }
}

} // verus!
