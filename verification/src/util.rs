//! Interned identifiers.
//!
//! A `Symbol` is a small integer handle standing in for a piece of text.  An
//! `Interner` owns the table of texts; interning the same text twice yields
//! the same handle, and a handle resolves back to the text it stands for.

use vstd::prelude::*;
use vstd::string::StringExecFns;

verus! {

/// An interned identifier: a handle into an [`Interner`].
///
/// Two symbols made from equal text by the same interner are equal, and
/// either resolves back to that text.
#[derive(Debug, PartialEq, Eq, Hash, Clone, Copy, Structural)]
pub struct Symbol(u32);

impl Symbol {
    /// The handle as a number: an index into the owning interner's table.
    pub closed spec fn id(self) -> int {
        self.0 as int
    }

    /// Interns `s`: returns the existing handle when `s` was seen before,
    /// otherwise appends `s` to the table and returns its fresh handle.
    pub fn new(interner: &mut Interner, s: &str) -> (r: Symbol)
        requires
            old(interner).wf(),
            old(interner).texts().len() < u32::MAX,
        ensures
            final(interner).wf(),
            final(interner).texts().len() >= old(interner).texts().len(),
            forall|k: int|
                0 <= k < old(interner).texts().len() ==> final(interner).texts()[k]
                    == old(interner).texts()[k],
            0 <= r.id() < final(interner).texts().len(),
            final(interner).texts()[r.id()] == s@,
            old(interner).texts().contains(s@) ==> *final(interner) == *old(interner),
            !old(interner).texts().contains(s@) ==> final(interner).texts()
                == old(interner).texts().push(s@) && r.id() == old(interner).texts().len(),
    {
        interner.intern(s)
    }
}

/// Shorthand for [`Symbol::new`].
pub fn sym(interner: &mut Interner, s: &str) -> (r: Symbol)
    requires
        old(interner).wf(),
        old(interner).texts().len() < u32::MAX,
    ensures
        final(interner).wf(),
        final(interner).texts().len() >= old(interner).texts().len(),
        forall|k: int|
            0 <= k < old(interner).texts().len() ==> final(interner).texts()[k]
                == old(interner).texts()[k],
        0 <= r.id() < final(interner).texts().len(),
        final(interner).texts()[r.id()] == s@,
        old(interner).texts().contains(s@) ==> *final(interner) == *old(interner),
        !old(interner).texts().contains(s@) ==> final(interner).texts()
            == old(interner).texts().push(s@) && r.id() == old(interner).texts().len(),
{
    Symbol::new(interner, s)
}

/// The table of interned texts.  Texts are stored once each, in the order
/// they were first seen; a [`Symbol`] is an index into this table.
pub struct Interner {
    strings: Vec<String>,
}

impl Interner {
    /// The stored texts, in insertion order.
    pub closed spec fn texts(self) -> Seq<Seq<char>> {
        self.strings@.map(|i: int, s: String| s@)
    }

    /// No text is stored twice.
    pub open spec fn wf(self) -> bool {
        forall|i: int, j: int|
            0 <= i < j < self.texts().len() ==> self.texts()[i] != self.texts()[j]
    }

    /// An empty interner.
    pub fn new() -> (r: Interner)
        ensures
            r.wf(),
            r.texts().len() == 0,
    {
        Interner { strings: Vec::new() }
    }

    /// Interns `s`; see [`Symbol::new`].
    #[verifier::loop_isolation(false)]
    pub fn intern(&mut self, s: &str) -> (r: Symbol)
        requires
            old(self).wf(),
            old(self).texts().len() < u32::MAX,
        ensures
            final(self).wf(),
            final(self).texts().len() >= old(self).texts().len(),
            forall|k: int|
                0 <= k < old(self).texts().len() ==> final(self).texts()[k]
                    == old(self).texts()[k],
            0 <= r.id() < final(self).texts().len(),
            final(self).texts()[r.id()] == s@,
            old(self).texts().contains(s@) ==> *final(self) == *old(self),
            !old(self).texts().contains(s@) ==> final(self).texts()
                == old(self).texts().push(s@) && r.id() == old(self).texts().len(),
    {
        let owned: String = s.to_owned();
        let n = self.strings.len();
        let mut i: usize = 0;
        while i < n
            invariant
                n == self.texts().len(),
                owned@ == s@,
                forall|k: int| 0 <= k < i ==> self.texts()[k] != s@,
            decreases n - i,
        {
            let same = self.strings[i].eq(&owned);
            assert(same == (self.strings@[i as int]@ == owned@));
            assert(self.texts()[i as int] == self.strings@[i as int]@);
            if same {
                assert(self.texts()[i as int] == s@);
                return Symbol(i as u32);
            }
            i += 1;
        }
        assert(!self.texts().contains(s@));
        self.strings.push(owned);
        assert(self.texts() =~= old(self).texts().push(s@));
        Symbol(n as u32)
    }

    /// The text a symbol stands for.
    pub fn resolve(&self, s: Symbol) -> (r: String)
        requires
            0 <= s.id() < self.texts().len(),
        ensures
            r@ == self.texts()[s.id()],
    {
        self.strings[s.0 as usize].clone()
    }
}

/// The character for one decimal digit.
pub open spec fn digit_char(d: int) -> char {
    if d == 0 {
        '0'
    } else if d == 1 {
        '1'
    } else if d == 2 {
        '2'
    } else if d == 3 {
        '3'
    } else if d == 4 {
        '4'
    } else if d == 5 {
        '5'
    } else if d == 6 {
        '6'
    } else if d == 7 {
        '7'
    } else if d == 8 {
        '8'
    } else {
        '9'
    }
}

/// The decimal digits of `n`, most significant first.
pub open spec fn dec_digits(n: nat) -> Seq<char>
    decreases n,
{
    if n < 10 {
        seq![digit_char(n as int)]
    } else {
        dec_digits(n / 10).push(digit_char((n % 10) as int))
    }
}

fn digit_str(d: usize) -> (r: &'static str)
    requires
        d < 10,
    ensures
        r@ =~= seq![digit_char(d as int)],
{
    proof {
        reveal_strlit("0");
        reveal_strlit("1");
        reveal_strlit("2");
        reveal_strlit("3");
        reveal_strlit("4");
        reveal_strlit("5");
        reveal_strlit("6");
        reveal_strlit("7");
        reveal_strlit("8");
        reveal_strlit("9");
    }
    match d {
        0 => "0",
        1 => "1",
        2 => "2",
        3 => "3",
        4 => "4",
        5 => "5",
        6 => "6",
        7 => "7",
        8 => "8",
        _ => "9",
    }
}

/// Renders `n` in decimal.
pub fn usize_dec(n: usize) -> (r: String)
    ensures
        r@ == dec_digits(n as nat),
    decreases n,
{
    if n < 10 {
        digit_str(n).to_owned()
    } else {
        proof {
            assert(n / 10 < n) by (nonlinear_arith)
                requires
                    n >= 10,
            ;
        }
        let mut s = usize_dec(n / 10);
        s.append(digit_str(n % 10));
        s
    }
}

/// Two handles into one table that point at the same text are the same
/// handle, so symbols interned from equal text are equal and resolve back to
/// that text.
pub proof fn lemma_symbols_with_equal_text_are_equal(
    it: Interner,
    a: Symbol,
    b: Symbol,
)
    requires
        it.wf(),
        0 <= a.id() < it.texts().len(),
        0 <= b.id() < it.texts().len(),
        it.texts()[a.id()] == it.texts()[b.id()],
    ensures
        a == b,
{
    if a.id() < b.id() {
        assert(it.texts()[a.id()] != it.texts()[b.id()]);
    } else if b.id() < a.id() {
        assert(it.texts()[b.id()] != it.texts()[a.id()]);
    }
}

} // verus!
