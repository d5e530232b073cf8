//! The DFA runner: a stateful cursor that feeds one DFA over input
//! characters, tracks the number of characters consumed, and reports the
//! longest accepting prefix of an input together with the newlines crossed
//! and the column at the accept.

use vstd::prelude::*;
use vstd::string::*;
use crate::alphabet::{Alphabet, alphabet_wf, sym_index, lemma_sym_index};
use crate::dfa::{DFA, RowV, dfa_wf};

verus! {

/// A character was fed that the alphabet does not map. The scanner definition
/// is required to describe the entire input character set, so this error is
/// fatal to a scan.
#[derive(Clone, Copy, Debug, PartialEq, Eq, Structural)]
pub enum ScanError {
    CharNotInAlphabet,
}

/// One feed step out of a live state: resolve the character to its symbol,
/// then consult the transition table. Dead (`None`) when the character does
/// not resolve or the transition is dead.
pub open spec fn step_state(d: Seq<RowV>, a: Seq<char>, st: usize, c: char) -> Option<usize> {
    let k = sym_index(a, c);
    if k < 0 {
        None
    } else if st < d.len() && k < d[st as int].transitions.len() {
        d[st as int].transitions[k]
    } else {
        None
    }
}

/// The state after feeding `s` from the start state, or `None` once the scan
/// has died.
pub open spec fn run_state(d: Seq<RowV>, a: Seq<char>, s: Seq<char>) -> Option<usize>
    decreases s.len(),
{
    if s.len() == 0 {
        Some(0usize)
    } else {
        match run_state(d, a, s.drop_last()) {
            None => None,
            Some(st) => step_state(d, a, st, s.last()),
        }
    }
}

/// Whether feeding `s` reaches a character outside the alphabet while the
/// automaton is still live. Characters after the death of the automaton are
/// never resolved.
pub open spec fn scan_fails(d: Seq<RowV>, a: Seq<char>, s: Seq<char>) -> bool
    decreases s.len(),
{
    if s.len() == 0 {
        false
    } else {
        scan_fails(d, a, s.drop_last()) || (run_state(d, a, s.drop_last()) is Some && sym_index(
            a,
            s.last(),
        ) < 0)
    }
}

/// After `m` characters the automaton is live in an accepting state.
pub open spec fn accepting_at(d: Seq<RowV>, a: Seq<char>, s: Seq<char>, m: int) -> bool {
    &&& 0 <= m <= s.len()
    &&& match run_state(d, a, s.take(m)) {
        Some(st) => st < d.len() && d[st as int].accepting,
        None => false,
    }
}

/// The largest accepted prefix length in `[1, m]`, or 0 when there is none.
pub open spec fn best_match_upto(d: Seq<RowV>, a: Seq<char>, s: Seq<char>, m: int) -> int
    decreases m,
{
    if m <= 0 {
        0
    } else if accepting_at(d, a, s, m) {
        m
    } else {
        best_match_upto(d, a, s, m - 1)
    }
}

/// The length of the longest accepting prefix of `s`, or 0.
pub open spec fn spec_match_len(d: Seq<RowV>, a: Seq<char>, s: Seq<char>) -> int {
    best_match_upto(d, a, s, s.len() as int)
}

/// Number of newline characters in `s`.
pub open spec fn count_nl(s: Seq<char>, nl: char) -> int
    decreases s.len(),
{
    if s.len() == 0 {
        0
    } else {
        count_nl(s.drop_last(), nl) + if s.last() == nl {
            1int
        } else {
            0int
        }
    }
}

/// The running column after `s`: one step per character, reset to 1 by a
/// newline (so the value is 0 only before any character was read).
pub open spec fn col_after(s: Seq<char>, nl: char) -> int
    decreases s.len(),
{
    if s.len() == 0 {
        0
    } else if s.last() == nl {
        1
    } else {
        col_after(s.drop_last(), nl) + 1
    }
}

/// What `first_match` returns: the longest accepting prefix length, the
/// newlines inside that prefix, and the column at its end.
pub open spec fn spec_first_match(d: Seq<RowV>, a: Seq<char>, s: Seq<char>, nl: char) -> (
    int,
    int,
    int,
) {
    let m = spec_match_len(d, a, s);
    (m, count_nl(s.take(m), nl), col_after(s.take(m), nl))
}

/// Whether the automaton consumes all of `s` and ends accepting.
pub open spec fn spec_full_match(d: Seq<RowV>, a: Seq<char>, s: Seq<char>) -> bool {
    match run_state(d, a, s) {
        Some(st) => st < d.len() && d[st as int].accepting,
        None => false,
    }
}

/// Once dead, the run stays dead on every longer prefix.
pub proof fn lemma_dead_stays(d: Seq<RowV>, a: Seq<char>, s: Seq<char>, m: int, big: int)
    requires
        0 <= m <= big <= s.len(),
        run_state(d, a, s.take(m)) is None,
    ensures
        run_state(d, a, s.take(big)) is None,
    decreases big - m,
{
    if big > m {
        lemma_dead_stays(d, a, s, m, big - 1);
        assert(s.take(big).drop_last() =~= s.take(big - 1));
    }
}

/// A failure on a prefix is a failure on every longer prefix.
pub proof fn lemma_fails_monotone(d: Seq<RowV>, a: Seq<char>, s: Seq<char>, m: int, big: int)
    requires
        0 <= m <= big <= s.len(),
        scan_fails(d, a, s.take(m)),
    ensures
        scan_fails(d, a, s.take(big)),
    decreases big - m,
{
    if big > m {
        lemma_fails_monotone(d, a, s, m, big - 1);
        assert(s.take(big).drop_last() =~= s.take(big - 1));
    }
}

/// After the automaton dies no further character is resolved, so whether the
/// scan fails is settled.
pub proof fn lemma_fails_frozen(d: Seq<RowV>, a: Seq<char>, s: Seq<char>, m: int, big: int)
    requires
        0 <= m <= big <= s.len(),
        run_state(d, a, s.take(m)) is None,
    ensures
        scan_fails(d, a, s.take(big)) == scan_fails(d, a, s.take(m)),
    decreases big - m,
{
    if big > m {
        lemma_fails_frozen(d, a, s, m, big - 1);
        lemma_dead_stays(d, a, s, m, big - 1);
        assert(s.take(big).drop_last() =~= s.take(big - 1));
    }
}

/// After the automaton dies no longer prefix is accepted, so the best match
/// is settled.
pub proof fn lemma_best_after_death(d: Seq<RowV>, a: Seq<char>, s: Seq<char>, dead_at: int, big: int)
    requires
        0 <= dead_at <= big <= s.len(),
        run_state(d, a, s.take(dead_at)) is None,
    ensures
        best_match_upto(d, a, s, big) == best_match_upto(d, a, s, dead_at - 1),
    decreases big - dead_at,
{
    if big > dead_at {
        lemma_dead_stays(d, a, s, dead_at, big);
        lemma_best_after_death(d, a, s, dead_at, big - 1);
    }
}

/// The best match length up to `m` lies in `[0, m]`.
pub proof fn lemma_best_match_upto_bounds(d: Seq<RowV>, a: Seq<char>, s: Seq<char>, m: int)
    requires
        m <= s.len(),
    ensures
        0 <= best_match_upto(d, a, s, m),
        best_match_upto(d, a, s, m) <= m || m < 0,
    decreases m,
{
    if m > 0 && !accepting_at(d, a, s, m) {
        lemma_best_match_upto_bounds(d, a, s, m - 1);
    }
}

/// No token is longer than the input it was matched in.
pub proof fn lemma_match_len_le_input(d: Seq<RowV>, a: Seq<char>, s: Seq<char>)
    ensures
        0 <= spec_match_len(d, a, s) <= s.len(),
{
    lemma_best_match_upto_bounds(d, a, s, s.len() as int);
}

/// A positive best match is an accepted prefix length.
pub proof fn lemma_best_match_upto_accepting(d: Seq<RowV>, a: Seq<char>, s: Seq<char>, m: int)
    requires
        best_match_upto(d, a, s, m) > 0,
    ensures
        accepting_at(d, a, s, best_match_upto(d, a, s, m)),
    decreases m,
{
    if m > 0 && !accepting_at(d, a, s, m) {
        lemma_best_match_upto_accepting(d, a, s, m - 1);
    }
}

/// The match length is maximal: every accepted prefix is no longer than it.
/// Together with [`lemma_best_match_upto_accepting`] this says the match
/// length is exactly the longest accepting prefix of the input.
pub proof fn lemma_match_len_maximal(d: Seq<RowV>, a: Seq<char>, s: Seq<char>, m: int)
    requires
        accepting_at(d, a, s, m),
        m >= 1,
    ensures
        m <= spec_match_len(d, a, s),
{
    lemma_best_match_upto_ge(d, a, s, m, s.len() as int);
}

proof fn lemma_best_match_upto_ge(d: Seq<RowV>, a: Seq<char>, s: Seq<char>, m: int, big: int)
    requires
        accepting_at(d, a, s, m),
        1 <= m <= big,
    ensures
        m <= best_match_upto(d, a, s, big),
    decreases big,
{
    if big > m && !accepting_at(d, a, s, big) {
        lemma_best_match_upto_ge(d, a, s, m, big - 1);
    }
}

/// There are no more newlines in a text than characters.
pub proof fn lemma_count_nl_bounds(s: Seq<char>, nl: char)
    ensures
        0 <= count_nl(s, nl) <= s.len(),
    decreases s.len(),
{
    if s.len() > 0 {
        lemma_count_nl_bounds(s.drop_last(), nl);
    }
}

/// The running column never exceeds the characters read, and is at least 1
/// once one was read.
pub proof fn lemma_col_after_bounds(s: Seq<char>, nl: char)
    ensures
        0 <= col_after(s, nl) <= s.len(),
        s.len() > 0 ==> col_after(s, nl) >= 1,
    decreases s.len(),
{
    if s.len() > 0 {
        lemma_col_after_bounds(s.drop_last(), nl);
    }
}

/// While the automaton is live every character read so far resolved to a
/// symbol of the alphabet.
pub proof fn lemma_live_chars_resolved(d: Seq<RowV>, a: Seq<char>, s: Seq<char>)
    requires
        run_state(d, a, s) is Some,
    ensures
        forall|i: int| 0 <= i < s.len() ==> sym_index(a, #[trigger] s[i]) >= 0,
    decreases s.len(),
{
    if s.len() > 0 {
        lemma_live_chars_resolved(d, a, s.drop_last());
        assert forall|i: int| 0 <= i < s.len() implies sym_index(a, #[trigger] s[i]) >= 0 by {
            if i < s.len() - 1 {
                assert(s.drop_last()[i] == s[i]);
            }
        }
    }
}

/// The characters of a matched lexeme are in the alphabet, hence byte-valued.
pub proof fn lemma_match_chars_byte(d: Seq<RowV>, a: Seq<char>, s: Seq<char>)
    requires
        alphabet_wf(a),
    ensures
        forall|i: int|
            0 <= i < spec_match_len(d, a, s) ==> ((#[trigger] s[i]) as u32) < 256,
{
    let m = spec_match_len(d, a, s);
    lemma_match_len_le_input(d, a, s);
    if m > 0 {
        lemma_best_match_upto_accepting(d, a, s, s.len() as int);
        lemma_live_chars_resolved(d, a, s.take(m));
        assert forall|i: int| 0 <= i < m implies ((#[trigger] s[i]) as u32) < 256 by {
            assert(s.take(m)[i] == s[i]);
            assert(sym_index(a, s[i]) >= 0);
            lemma_sym_index(a, s[i]);
            assert(a[sym_index(a, s[i])] == s[i]);
        }
    }
}

/// The result of `first_match` depends only on the runner's DFA and alphabet
/// and on the input: two runners over the same tables, and in particular one
/// runner asked twice in succession, return equal triples.
pub proof fn lemma_first_match_idempotent(r1: &Regex, r2: &Regex, input: Seq<char>, nl: char)
    requires
        r1.dfa@ == r2.dfa@,
        r1.alphabet@ == r2.alphabet@,
    ensures
        spec_first_match(r1.dfa@, r1.alphabet@, input, nl) == spec_first_match(
            r2.dfa@,
            r2.alphabet@,
            input,
            nl,
        ),
{
}

/// A DFA runner over a DFA and an alphabet, with an optional token id and an
/// optional replace-with literal for the tokenizer.
pub struct Regex {
    pub dfa: DFA,
    pub token: Option<String>,
    pub alphabet: Alphabet,
    pub replace_with: Option<String>,
    pub state: Option<usize>,
    pub length: usize,
}

impl Regex {
    /// The runner's tables are consistent and its state is in range.
    pub open spec fn wf(&self) -> bool {
        &&& alphabet_wf(self.alphabet@)
        &&& dfa_wf(self.dfa@, self.alphabet@.len())
        &&& match self.state {
            Some(st) => st < self.dfa@.len(),
            None => true,
        }
    }

    /// Start state, nothing consumed.
    pub open spec fn is_reset(&self) -> bool {
        self.state == Some(0usize) && self.length == 0
    }

    /// The fields that no scan changes.
    pub open spec fn same_tables(&self, other: &Regex) -> bool {
        &&& self.dfa@ == other.dfa@
        &&& self.token == other.token
        &&& self.alphabet@ == other.alphabet@
        &&& self.replace_with == other.replace_with
    }

    pub fn new(dfa: &DFA, token: Option<&str>, alphabet: &Alphabet, replace_with: Option<String>)
        -> (r: Self)
        ensures
            r.dfa@ == dfa@,
            match (token, r.token) {
                (None, None) => true,
                (Some(t), Some(u)) => u@ == t@,
                _ => false,
            },
            r.alphabet@ == alphabet@,
            r.replace_with == replace_with,
            r.is_reset(),
    {
        Regex {
            dfa: dfa.clone(),
            token: match token {
                None => None,
                Some(t) => Some(t.to_owned()),
            },
            alphabet: alphabet.clone(),
            replace_with,
            state: Some(0),
            length: 0,
        }
    }

    /// Number of characters consumed since the last reset.
    pub fn len(&self) -> (n: usize)
        ensures
            n == self.length,
    {
        self.length
    }

    /// Return to the start state with nothing consumed.
    pub fn reset(&mut self)
        ensures
            final(self).is_reset(),
            old(self).same_tables(final(self)),
    {
        self.length = 0;
        self.state = Some(0);
    }

    /// Feed one character: resolve it to a symbol (an unresolved character is
    /// a fatal error), consult the transition, and count the consumed
    /// character. Once dead the runner ignores further characters.
    pub fn accept(&mut self, letter: char) -> (r: Result<Option<usize>, ScanError>)
        requires
            old(self).wf(),
            old(self).length < usize::MAX,
        ensures
            final(self).wf(),
            old(self).same_tables(final(self)),
            match r {
                Ok(st) => match old(self).state {
                    None => {
                        &&& st == None::<usize>
                        &&& final(self).state == old(self).state
                        &&& final(self).length == old(self).length
                    },
                    Some(cur) => {
                        &&& sym_index(old(self).alphabet@, letter) >= 0
                        &&& st == step_state(old(self).dfa@, old(self).alphabet@, cur, letter)
                        &&& final(self).state == st
                        &&& final(self).length == if st is Some {
                            old(self).length + 1
                        } else {
                            old(self).length as int
                        }
                    },
                },
                Err(e) => {
                    &&& old(self).state is Some
                    &&& sym_index(old(self).alphabet@, letter) < 0
                    &&& final(self).state == old(self).state
                    &&& final(self).length == old(self).length
                    &&& e == ScanError::CharNotInAlphabet
                },
            },
    {
        let cur = match self.state {
            None => {
                return Ok(None);
            },
            Some(cur) => cur,
        };
        let k = match self.alphabet.lookup(letter) {
            None => {
                return Err(ScanError::CharNotInAlphabet);
            },
            Some(k) => k,
        };
        proof {
            lemma_sym_index(self.alphabet@, letter);
        }
        let new_state = self.dfa.transition(cur, k);
        if new_state.is_some() {
            self.length = self.length + 1;
        }
        self.state = new_state;
        Ok(new_state)
    }

    /// Whether the runner is live in an accepting state.
    pub fn currently_accepting(&self) -> (r: bool)
        requires
            self.wf(),
        ensures
            r == match self.state {
                Some(st) => self.dfa@[st as int].accepting,
                None => false,
            },
    {
        match self.state {
            Some(st) => self.dfa.is_accepting(st),
            None => false,
        }
    }

    /// Whether the given state is accepting.
    pub fn does_accept(&self, state: usize) -> (r: bool)
        requires
            state < self.dfa@.len(),
        ensures
            r == self.dfa@[state as int].accepting,
    {
        self.dfa.is_accepting(state)
    }

    /// Scan `input` for the longest accepting prefix, as
    /// [`spec_first_match`] describes: its length (0 when no prefix is
    /// accepted), the newlines inside it, and the column at its end. Fails
    /// exactly when a character outside the alphabet is reached while the
    /// automaton is live. After the scan, early break or failure the runner
    /// is reset.
    #[verifier::loop_isolation(false)]
    pub fn first_match(&mut self, input: &str, newline: char) -> (r: Result<
        (usize, usize, usize),
        ScanError,
    >)
        requires
            old(self).wf(),
        ensures
            final(self).is_reset(),
            final(self).wf(),
            old(self).same_tables(final(self)),
            match r {
                Ok(t) => {
                    &&& !scan_fails(old(self).dfa@, old(self).alphabet@, input@)
                    &&& (t.0 as int, t.1 as int, t.2 as int) == spec_first_match(
                        old(self).dfa@,
                        old(self).alphabet@,
                        input@,
                        newline,
                    )
                },
                Err(e) => {
                    &&& scan_fails(old(self).dfa@, old(self).alphabet@, input@)
                    &&& e == ScanError::CharNotInAlphabet
                },
            },
    {
        let ghost d = self.dfa@;
        let ghost a = self.alphabet@;
        let ghost s = input@;
        let n = input.unicode_len();
        let mut st: usize = 0;
        let mut i: usize = 0;
        let mut best_len: usize = 0;
        let mut num_newlines: usize = 0;
        let mut newlines_run: usize = 0;
        let mut position: usize = 0;
        let mut final_pos: usize = 0;
        proof {
            assert(s.take(0) =~= Seq::<char>::empty());
        }
        while i < n
            invariant
                *self == *old(self),
                0 <= i <= n,
                run_state(d, a, s.take(i as int)) == Some(st),
                st < d.len(),
                !scan_fails(d, a, s.take(i as int)),
                best_len <= i,
                best_len as int == best_match_upto(d, a, s, i as int),
                num_newlines + newlines_run <= i,
                num_newlines as int == count_nl(s.take(best_len as int), newline),
                num_newlines + newlines_run == count_nl(s.take(i as int), newline),
                position <= i,
                position as int == col_after(s.take(i as int), newline),
                final_pos <= i,
                final_pos as int == col_after(s.take(best_len as int), newline),
            decreases n - i,
        {
            let c = input.get_char(i);
            proof {
                assert(s.take(i + 1).drop_last() =~= s.take(i as int));
                assert(s.take(i + 1).last() == s[i as int]);
            }
            let k = match self.alphabet.lookup(c) {
                None => {
                    proof {
                        assert(scan_fails(d, a, s.take(i + 1)));
                        lemma_fails_monotone(d, a, s, i + 1, n as int);
                        assert(s.take(n as int) =~= s);
                    }
                    self.reset();
                    return Err(ScanError::CharNotInAlphabet);
                },
                Some(k) => k,
            };
            proof {
                lemma_sym_index(a, c);
            }
            let next = self.dfa.transition(st, k);
            proof {
                assert(run_state(d, a, s.take(i + 1)) == step_state(d, a, st, c));
            }
            match next {
                None => {
                    proof {
                        assert(run_state(d, a, s.take(i + 1)) is None);
                        assert(!scan_fails(d, a, s.take(i + 1)));
                        lemma_best_after_death(d, a, s, i + 1, n as int);
                        lemma_fails_frozen(d, a, s, i + 1, n as int);
                        assert(s.take(n as int) =~= s);
                        assert(best_match_upto(d, a, s, n as int) == best_len as int);
                    }
                    self.reset();
                    return Ok((best_len, num_newlines, final_pos));
                },
                Some(t2) => {
                    st = t2;
                    i = i + 1;
                    position = position + 1;
                    if c == newline {
                        newlines_run = newlines_run + 1;
                        position = 1;
                    }
                    if self.dfa.is_accepting(st) {
                        proof {
                            assert(accepting_at(d, a, s, i as int));
                        }
                        best_len = i;
                        num_newlines = num_newlines + newlines_run;
                        newlines_run = 0;
                        final_pos = position;
                    } else {
                        proof {
                            assert(!accepting_at(d, a, s, i as int));
                            assert(best_match_upto(d, a, s, i as int) == best_match_upto(
                                d,
                                a,
                                s,
                                i - 1,
                            ));
                        }
                    }
                },
            }
        }
        proof {
            assert(s.take(n as int) =~= s);
        }
        self.reset();
        Ok((best_len, num_newlines, final_pos))
    }

    /// Feed the whole input and report whether the automaton consumed every
    /// character and ended in an accepting state, as [`spec_full_match`]
    /// describes. Fails exactly when a character outside the alphabet is
    /// reached while the automaton is live. The runner is reset before it
    /// returns.
    #[verifier::loop_isolation(false)]
    pub fn full_match(&mut self, input: &str) -> (r: Result<bool, ScanError>)
        requires
            old(self).wf(),
        ensures
            final(self).is_reset(),
            final(self).wf(),
            old(self).same_tables(final(self)),
            match r {
                Ok(b) => {
                    &&& !scan_fails(old(self).dfa@, old(self).alphabet@, input@)
                    &&& b == spec_full_match(old(self).dfa@, old(self).alphabet@, input@)
                },
                Err(e) => {
                    &&& scan_fails(old(self).dfa@, old(self).alphabet@, input@)
                    &&& e == ScanError::CharNotInAlphabet
                },
            },
    {
        let ghost d = self.dfa@;
        let ghost a = self.alphabet@;
        let ghost s = input@;
        let n = input.unicode_len();
        let mut st: Option<usize> = Some(0);
        let mut i: usize = 0;
        proof {
            assert(s.take(0) =~= Seq::<char>::empty());
        }
        while i < n
            invariant
                *self == *old(self),
                0 <= i <= n,
                run_state(d, a, s.take(i as int)) == st,
                st matches Some(x) ==> x < d.len(),
                !scan_fails(d, a, s.take(i as int)),
            decreases n - i,
        {
            let c = input.get_char(i);
            proof {
                assert(s.take(i + 1).drop_last() =~= s.take(i as int));
                assert(s.take(i + 1).last() == s[i as int]);
            }
            match st {
                None => {},
                Some(cur) => {
                    let k = match self.alphabet.lookup(c) {
                        None => {
                            proof {
                                assert(scan_fails(d, a, s.take(i + 1)));
                                lemma_fails_monotone(d, a, s, i + 1, n as int);
                                assert(s.take(n as int) =~= s);
                            }
                            self.reset();
                            return Err(ScanError::CharNotInAlphabet);
                        },
                        Some(k) => k,
                    };
                    proof {
                        lemma_sym_index(a, c);
                    }
                    st = self.dfa.transition(cur, k);
                },
            }
            i = i + 1;
        }
        proof {
            assert(s.take(n as int) =~= s);
        }
        let accepted = match st {
            Some(x) => self.dfa.is_accepting(x),
            None => false,
        };
        self.reset();
        Ok(accepted)
    }
}

} // verus!
