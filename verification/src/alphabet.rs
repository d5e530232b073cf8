//! The alphabet: an ordered mapping from input character to dense symbol
//! index, built in encounter order. The character at position `i` of the
//! backing vector carries symbol index `i`.

use vstd::prelude::*;

verus! {

/// A valid alphabet: no duplicate characters, all of them byte-valued.
pub open spec fn alphabet_wf(a: Seq<char>) -> bool {
    &&& forall|i: int, j: int| 0 <= i < j < a.len() ==> a[i] != a[j]
    &&& forall|i: int| 0 <= i < a.len() ==> ((#[trigger] a[i]) as u32) < 256
}

/// The symbol index of `c`: the first position of `c` in the alphabet, or -1
/// when `c` is not in the alphabet.
pub open spec fn sym_index(a: Seq<char>, c: char) -> int
    decreases a.len(),
{
    if a.len() == 0 {
        -1
    } else if a[0] == c {
        0
    } else {
        let r = sym_index(a.drop_first(), c);
        if r < 0 {
            -1
        } else {
            r + 1
        }
    }
}

/// What [`sym_index`] computes: a non-negative result is the first position
/// holding `c`; -1 means `c` does not occur.
pub proof fn lemma_sym_index(a: Seq<char>, c: char)
    ensures
        -1 <= sym_index(a, c) < a.len(),
        sym_index(a, c) >= 0 ==> a[sym_index(a, c)] == c,
        sym_index(a, c) >= 0 ==> forall|j: int| 0 <= j < sym_index(a, c) ==> a[j] != c,
        sym_index(a, c) == -1 ==> forall|j: int| 0 <= j < a.len() ==> a[j] != c,
    decreases a.len(),
{
    if a.len() > 0 && a[0] != c {
        let d = a.drop_first();
        lemma_sym_index(d, c);
        if sym_index(d, c) >= 0 {
            assert forall|j: int| 0 <= j < sym_index(a, c) implies a[j] != c by {
                if j > 0 {
                    assert(d[j - 1] != c);
                }
            }
        } else {
            assert forall|j: int| 0 <= j < a.len() implies a[j] != c by {
                if j > 0 {
                    assert(d[j - 1] != c);
                }
            }
        }
    }
}

/// In an alphabet without repeated characters the assigned symbol indices are
/// exactly 0 up to the number of characters: the character at position `i`
/// carries index `i`, and no character carries an index outside that range.
pub proof fn lemma_alphabet_density(a: Seq<char>)
    requires
        forall|i: int, j: int| 0 <= i < j < a.len() ==> a[i] != a[j],
    ensures
        forall|i: int| 0 <= i < a.len() ==> sym_index(a, #[trigger] a[i]) == i,
        forall|c: char| -1 <= #[trigger] sym_index(a, c) < a.len(),
{
    assert forall|i: int| 0 <= i < a.len() implies sym_index(a, #[trigger] a[i]) == i by {
        lemma_sym_index(a, a[i]);
        let s = sym_index(a, a[i]);
        if s < i {
            assert(a[s] == a[i]);
        } else if s > i {
            assert(a[i] != a[i]);
        }
    }
    assert forall|c: char| -1 <= #[trigger] sym_index(a, c) < a.len() by {
        lemma_sym_index(a, c);
    }
}

/// An ordered mapping from character to dense symbol index.
#[derive(Debug, PartialEq, Eq)]
pub struct Alphabet {
    pub chars: Vec<char>,
}

impl View for Alphabet {
    type V = Seq<char>;

    open spec fn view(&self) -> Seq<char> {
        self.chars@
    }
}

impl Clone for Alphabet {
    fn clone(&self) -> (r: Self)
        ensures
            r@ == self@,
    {
        let mut chars: Vec<char> = Vec::new();
        let mut i: usize = 0;
        while i < self.chars.len()
            invariant
                0 <= i <= self.chars.len(),
                chars@ == self.chars@.take(i as int),
            decreases self.chars.len() - i,
        {
            chars.push(self.chars[i]);
            proof {
                assert(self.chars@.take(i + 1) =~= self.chars@.take(i as int).push(
                    self.chars@[i as int],
                ));
            }
            i = i + 1;
        }
        proof {
            assert(self.chars@.take(self.chars@.len() as int) =~= self.chars@);
        }
        Alphabet { chars }
    }
}

impl Alphabet {
    /// An empty alphabet.
    pub fn new() -> (a: Self)
        ensures
            a@ == Seq::<char>::empty(),
    {
        let chars: Vec<char> = Vec::new();
        proof {
            assert(chars@ =~= Seq::<char>::empty());
        }
        Alphabet { chars }
    }

    /// Number of characters (symbols) in the alphabet.
    pub fn len(&self) -> (n: usize)
        ensures
            n == self@.len(),
    {
        self.chars.len()
    }

    /// Assign the next symbol index to `c`. The index is dense: it must be
    /// the current size of the alphabet, and `c` must be new.
    pub fn insert(&mut self, c: char, index: usize)
        requires
            index == old(self)@.len(),
            sym_index(old(self)@, c) == -1,
        ensures
            final(self)@ == old(self)@.push(c),
    {
        self.chars.push(c);
    }

    /// The symbol index of `c`, as [`sym_index`] describes.
    pub fn lookup(&self, c: char) -> (r: Option<usize>)
        ensures
            match r {
                Some(i) => sym_index(self@, c) == i as int,
                None => sym_index(self@, c) == -1,
            },
    {
        proof {
            lemma_sym_index(self@, c);
        }
        let n = self.chars.len();
        let mut i: usize = 0;
        while i < n
            invariant
                n == self@.len(),
                0 <= i <= n,
                forall|j: int| 0 <= j < i ==> self@[j] != c,
            decreases n - i,
        {
            if self.chars[i] == c {
                proof {
                    lemma_sym_index(self@, c);
                    let s = sym_index(self@, c);
                    assert(self@[i as int] == c);
                    if s == -1 {
                        assert(self@[i as int] != c);
                    } else if s < i as int {
                        assert(self@[s] != c);
                        assert(self@[s] == c);
                    } else if s > i as int {
                        assert(self@[i as int] != c);
                    }
                }
                return Some(i);
            }
            i = i + 1;
        }
        None
    }
}

} // verus!
