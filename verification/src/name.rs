//! The names of symbols, stored inline.

use vstd::prelude::*;

verus! {

broadcast use vstd::array::group_array_axioms;

/// Number of bytes that a symbol name occupies inside an atom.
pub const NAME_WIDTH: usize = 16;

/// Longest text a name can hold: one byte is kept for the terminator.
pub const NAME_LIMIT: usize = 15;

/// Index of the first zero byte of `s` at or after `i`; `s.len()` if there is none.
pub open spec fn nul_from(s: Seq<u8>, i: int) -> int
    decreases s.len() - i,
{
    if 0 <= i < s.len() && s[i] != 0 {
        nul_from(s, i + 1)
    } else {
        i
    }
}

/// The bytes of `s` in front of its first zero byte.
pub open spec fn text_of(s: Seq<u8>) -> Seq<u8> {
    s.take(nul_from(s, 0))
}

/// What a name keeps of the bytes it is made from: the text in front of the
/// first zero byte, cut after `NAME_LIMIT` bytes.
pub open spec fn clipped(s: Seq<u8>) -> Seq<u8> {
    let t = text_of(s);
    if t.len() <= NAME_LIMIT {
        t
    } else {
        t.take(NAME_LIMIT as int)
    }
}

/// Skipping bytes that are not zero does not move the first zero byte.
pub proof fn lemma_nul_from_skip(s: Seq<u8>, k: int, i: int)
    requires
        0 <= k <= i <= s.len(),
        forall|j: int| k <= j < i ==> s[j] != 0,
    ensures
        nul_from(s, k) == nul_from(s, i),
        i <= nul_from(s, i) <= s.len(),
    decreases s.len() - k,
{
    if k < i {
        lemma_nul_from_skip(s, k + 1, i);
    } else {
        lemma_nul_from_bounds(s, i);
    }
}

/// The first zero byte at or after `i` lies between `i` and the end.
pub proof fn lemma_nul_from_bounds(s: Seq<u8>, i: int)
    requires
        0 <= i <= s.len(),
    ensures
        i <= nul_from(s, i) <= s.len(),
        nul_from(s, i) < s.len() ==> s[nul_from(s, i)] == 0,
        forall|j: int| i <= j < nul_from(s, i) ==> s[j] != 0,
    decreases s.len() - i,
{
    if i < s.len() && s[i] != 0 {
        lemma_nul_from_bounds(s, i + 1);
    }
}

/// Text without a zero byte that is not longer than `NAME_LIMIT` is kept whole.
pub proof fn lemma_clipped_plain(s: Seq<u8>)
    requires
        s.len() <= NAME_LIMIT,
        forall|j: int| 0 <= j < s.len() ==> s[j] != 0,
    ensures
        clipped(s) == s,
{
    lemma_nul_from_skip(s, 0, s.len() as int);
    assert(text_of(s) =~= s);
}

/// The name of a symbol, stored inline in `NAME_WIDTH` bytes: the text, then
/// zero bytes up to the end.
#[derive(Clone, Copy, Debug)]
pub struct Name {
    bytes: [u8; 16],
}

impl View for Name {
    type V = Seq<u8>;

    /// The text of the name.
    closed spec fn view(&self) -> Seq<u8> {
        text_of(self.bytes@)
    }
}

impl Name {
    /// Makes a name from `bytes`. Text beyond `NAME_LIMIT` bytes is cut off,
    /// and so is everything from the first zero byte on.
    pub fn new(bytes: &[u8]) -> (name: Name)
        ensures
            name@ == clipped(bytes@),
    {
        let mut out: [u8; 16] = [0u8; 16];
        let mut i: usize = 0;
        while i < NAME_LIMIT && i < bytes.len() && bytes[i] != 0
            invariant
                i <= NAME_LIMIT,
                i <= bytes.len(),
                forall|j: int| 0 <= j < i ==> out@[j] == bytes@[j] && bytes@[j] != 0,
                forall|j: int| i <= j < 16 ==> out@[j] == 0,
            decreases NAME_LIMIT - i,
        {
            out[i] = bytes[i];
            i = i + 1;
        }
        proof {
            lemma_nul_from_skip(out@, 0, i as int);
            lemma_nul_from_skip(bytes@, 0, i as int);
            lemma_nul_from_bounds(bytes@, i as int);
            assert(text_of(out@) =~= bytes@.take(i as int));
            assert(clipped(bytes@) =~= bytes@.take(i as int));
        }
        Name { bytes: out }
    }

    /// Number of bytes of text in the name.
    pub fn len(&self) -> (n: usize)
        ensures
            n == self@.len(),
            n <= NAME_WIDTH,
    {
        let mut i: usize = 0;
        while i < NAME_WIDTH && self.bytes[i] != 0
            invariant
                i <= NAME_WIDTH,
                forall|j: int| 0 <= j < i ==> self.bytes@[j] != 0,
            decreases NAME_WIDTH - i,
        {
            i = i + 1;
        }
        proof {
            lemma_nul_from_skip(self.bytes@, 0, i as int);
        }
        i
    }

    /// The text of the name, byte by byte.
    pub fn text(&self) -> (v: Vec<u8>)
        ensures
            v@ == self@,
    {
        let n: usize = self.len();
        let mut v: Vec<u8> = Vec::new();
        let mut i: usize = 0;
        while i < n
            invariant
                i <= n,
                n == self@.len(),
                n <= NAME_WIDTH,
                v@ == self.bytes@.take(i as int),
            decreases n - i,
        {
            v.push(self.bytes[i]);
            i = i + 1;
            assert(v@ =~= self.bytes@.take(i as int));
        }
        proof {
            lemma_nul_from_bounds(self.bytes@, 0);
        }
        v
    }

    /// Whether the text of the name is `text`.
    pub fn matches(&self, text: &[u8]) -> (b: bool)
        ensures
            b == (self@ == text@),
    {
        let n: usize = self.len();
        if n != text.len() {
            return false;
        }
        proof {
            lemma_nul_from_bounds(self.bytes@, 0);
        }
        let mut i: usize = 0;
        while i < n
            invariant
                i <= n,
                n == self@.len(),
                n == text.len(),
                n <= NAME_WIDTH,
                self@ == self.bytes@.take(n as int),
                forall|j: int| 0 <= j < i ==> self.bytes@[j] == text@[j],
            decreases n - i,
        {
            if self.bytes[i] != text[i] {
                assert(self@[i as int] != text@[i as int]);
                return false;
            }
            i = i + 1;
        }
        assert(self@ =~= text@);
        true
    }

    /// Whether two names hold the same text.
    pub fn same(&self, other: &Name) -> (b: bool)
        ensures
            b == (self@ == other@),
    {
        let mut i: usize = 0;
        while i < NAME_WIDTH
            invariant
                i <= NAME_WIDTH,
                forall|j: int| 0 <= j < i ==> self.bytes@[j] == other.bytes@[j] && self.bytes@[j] != 0,
            decreases NAME_WIDTH - i,
        {
            let a: u8 = self.bytes[i];
            let b: u8 = other.bytes[i];
            if a != b {
                proof {
                    lemma_nul_from_skip(self.bytes@, 0, i as int);
                    lemma_nul_from_skip(other.bytes@, 0, i as int);
                    lemma_nul_from_bounds(self.bytes@, i as int);
                    lemma_nul_from_bounds(other.bytes@, i as int);
                    let p = nul_from(self.bytes@, 0);
                    let q = nul_from(other.bytes@, 0);
                    if self@ == other@ {
                        assert(p == self@.len());
                        assert(q == other@.len());
                        if a != 0 {
                            assert(self@[i as int] == a);
                            assert(other@[i as int] == b);
                        }
                    }
                }
                return false;
            }
            if a == 0 {
                proof {
                    lemma_nul_from_skip(self.bytes@, 0, i as int);
                    lemma_nul_from_skip(other.bytes@, 0, i as int);
                    assert(self@ =~= other@);
                }
                return true;
            }
            i = i + 1;
        }
        proof {
            lemma_nul_from_skip(self.bytes@, 0, i as int);
            lemma_nul_from_skip(other.bytes@, 0, i as int);
            assert(self@ =~= other@);
        }
        true
    }
}

} // verus!
