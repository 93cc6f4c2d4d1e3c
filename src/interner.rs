//! A string interner: equal strings get the same symbol.

use vstd::prelude::*;
use crate::tree::StrSym;

verus! {

/// Interned strings; the symbol of a string is its index.
#[derive(Debug, Clone)]
pub struct StringInterner {
    strings: Vec<String>,
}

impl View for StringInterner {
    type V = Seq<Seq<char>>;

    closed spec fn view(&self) -> Seq<Seq<char>> {
        self.strings@.map_values(|s: String| s@)
    }
}

impl StringInterner {
    /// Well-formedness: no string is held twice.
    pub open spec fn wf(&self) -> bool {
        forall|i: int, j: int| 0 <= i < j < self@.len() ==> self@[i] != self@[j]
    }

    /// Creates an empty interner.
    pub fn new() -> (r: StringInterner)
        ensures
            r@ == Seq::<Seq<char>>::empty(),
            r.wf(),
    {
        let r = StringInterner { strings: Vec::new() };
        assert(r@ =~= Seq::<Seq<char>>::empty());
        r
    }

    /// Returns the symbol of `s`, if it was interned.
    pub fn get(&self, s: &str) -> (r: Option<StrSym>)
        requires
            self.wf(),
        ensures
            match r {
                Some(sym) => sym.0 < self@.len() && self@[sym.0 as int] == s@,
                None => forall|i: int| 0 <= i < self@.len() ==> self@[i] != s@,
            },
    {
        let key = s.to_owned();
        let mut i: usize = 0;
        while i < self.strings.len()
            invariant
                i <= self@.len(),
                self@.len() == self.strings@.len(),
                key@ == s@,
                forall|j: int| 0 <= j < i ==> self@[j] != s@,
            decreases self.strings@.len() - i,
        {
            if self.strings[i] == key {
                return Some(StrSym(i));
            }
            i = i + 1;
        }
        None
    }

    /// Returns the symbol of `s`, interning it first if needed.
    pub fn get_or_intern(&mut self, s: &str) -> (r: StrSym)
        requires
            old(self).wf(),
        ensures
            final(self).wf(),
            r.0 < final(self)@.len(),
            final(self)@[r.0 as int] == s@,
            (exists|i: int| 0 <= i < old(self)@.len() && old(self)@[i] == s@) ==> final(self)@ == old(self)@,
            (forall|i: int| 0 <= i < old(self)@.len() ==> old(self)@[i] != s@) ==> final(self)@ == old(self)@.push(s@),
    {
        match self.get(s) {
            Some(sym) => sym,
            None => {
                let n = self.strings.len();
                self.strings.push(s.to_owned());
                assert(self@ =~= old(self)@.push(s@));
                StrSym(n)
            },
        }
    }

    /// Returns the string of `sym`, if it is a symbol of this interner.
    pub fn resolve(&self, sym: StrSym) -> (r: Option<&str>)
        ensures
            r is Some <==> sym.0 < self@.len(),
            r is Some ==> r->0@ == self@[sym.0 as int],
    {
        if sym.0 < self.strings.len() {
            Some(self.strings[sym.0].as_str())
        } else {
            None
        }
    }

    /// Returns the number of interned strings.
    pub fn len(&self) -> (r: usize)
        ensures
            r == self@.len(),
    {
        self.strings.len()
    }
}

} // verus!
