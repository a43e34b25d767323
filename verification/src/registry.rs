//! The polynomial registry: five fixed named slots `a`..`e`, each
//! holding at most one polynomial. Creating into an occupied slot
//! replaces it; names outside `a`..`e` are rejected; operating on an
//! empty slot reports `NotFound`.

use vstd::prelude::*;

verus! {

use crate::errors::PolyError;
use crate::parse::{parse_err_of, parse_ok, parse_polynomial, poly_entries, entries_coef,
    strip_spaces};
use crate::poly::Polynomial;

/// Is `c` a slot name?
pub open spec fn name_ok(c: char) -> bool {
    c == 'a' || c == 'b' || c == 'c' || c == 'd' || c == 'e'
}

/// The slot index of a name.
pub open spec fn name_idx(c: char) -> int {
    if c == 'a' {
        0
    } else if c == 'b' {
        1
    } else if c == 'c' {
        2
    } else if c == 'd' {
        3
    } else {
        4
    }
}

/// The five named slots.
pub struct Registry {
    pub slots: Vec<Option<Polynomial>>,
}

impl Registry {
    /// Five slots, each holding a canonical polynomial or nothing.
    pub open spec fn wf(&self) -> bool {
        &&& self.slots@.len() == 5
        &&& forall|i: int| 0 <= i < 5 ==> ((#[trigger] self.slots@[i]) is Some
            ==> self.slots@[i]->0.wf())
    }

    /// The slot for `c`, a name.
    pub open spec fn slot(&self, c: char) -> Option<Polynomial> {
        self.slots@[name_idx(c)]
    }

    /// An empty registry.
    pub fn new() -> (r: Registry)
        ensures
            r.wf(),
            forall|c: char| name_ok(c) ==> (#[trigger] r.slot(c)) is None,
    {
        let mut slots: Vec<Option<Polynomial>> = Vec::new();
        slots.push(None);
        slots.push(None);
        slots.push(None);
        slots.push(None);
        slots.push(None);
        Registry { slots }
    }

    /// The slot index of a valid name, as an executable value.
    fn index_of(name: char) -> (r: Option<usize>)
        ensures
            r is Some <==> name_ok(name),
            r is Some ==> r->0 as int == name_idx(name) && r->0 < 5,
    {
        if name == 'a' {
            Some(0)
        } else if name == 'b' {
            Some(1)
        } else if name == 'c' {
            Some(2)
        } else if name == 'd' {
            Some(3)
        } else if name == 'e' {
            Some(4)
        } else {
            None
        }
    }

    /// Parses `text` and stores the result under `name`, replacing any
    /// earlier polynomial there. A name outside `a`..`e` is
    /// `InvalidName`; a text that does not parse reports the parser's
    /// error; in either case the registry is unchanged.
    pub fn create(&mut self, name: char, text: &str) -> (r: Result<(), PolyError>)
        requires
            old(self).wf(),
        ensures
            final(self).wf(),
            !name_ok(name) ==> r == Err::<(), PolyError>(PolyError::InvalidName)
                && *final(self) == *old(self),
            name_ok(name) && !parse_ok(strip_spaces(text@)) ==> r == Err::<(), PolyError>(
                parse_err_of(strip_spaces(text@)),
            ) && *final(self) == *old(self),
            r is Ok <==> (name_ok(name) && parse_ok(strip_spaces(text@))),
            r is Ok ==> (final(self).slot(name) is Some && final(self).slot(name)->0.wf()
                && forall|e: int| #[trigger] final(self).slot(name)->0.coef(e) == entries_coef(
                poly_entries(strip_spaces(text@)),
                e,
            )),
            r is Ok ==> forall|c: char| name_ok(c) && c != name
                ==> #[trigger] final(self).slot(c) == old(self).slot(c),
    {
        let idx = match Self::index_of(name) {
            None => {
                return Err(PolyError::InvalidName);
            },
            Some(i) => i,
        };
        let p = match parse_polynomial(text) {
            Err(e) => {
                return Err(e);
            },
            Ok(p) => p,
        };
        self.slots.set(idx, Some(p));
        proof {
            assert forall|c: char| name_ok(c) && c != name
                implies #[trigger] final(self).slot(c) == old(self).slot(c) by {
                assert(name_idx(c) != name_idx(name));
            }
        }
        Ok(())
    }

    /// A copy of the polynomial stored under `name`.
    pub fn get(&self, name: char) -> (r: Result<Polynomial, PolyError>)
        requires
            self.wf(),
        ensures
            !name_ok(name) ==> r == Err::<Polynomial, PolyError>(PolyError::InvalidName),
            name_ok(name) && self.slot(name) is None ==> r == Err::<Polynomial, PolyError>(
                PolyError::NotFound,
            ),
            r is Ok <==> (name_ok(name) && self.slot(name) is Some),
            r is Ok ==> r->Ok_0.terms@ == self.slot(name)->0.terms@ && r->Ok_0.wf(),
    {
        let idx = match Self::index_of(name) {
            None => {
                return Err(PolyError::InvalidName);
            },
            Some(i) => i,
        };
        match &self.slots[idx] {
            None => Err(PolyError::NotFound),
            Some(p) => Ok(p.duplicate()),
        }
    }

    /// Does `name` hold a polynomial? Invalid names hold none.
    pub fn contains(&self, name: char) -> (r: bool)
        requires
            self.wf(),
        ensures
            r == (name_ok(name) && self.slot(name) is Some),
    {
        match Self::index_of(name) {
            None => false,
            Some(idx) => self.slots[idx].is_some(),
        }
    }

    /// The number of terms of the polynomial stored under `name`.
    pub fn term_count(&self, name: char) -> (r: Result<usize, PolyError>)
        requires
            self.wf(),
        ensures
            !name_ok(name) ==> r == Err::<usize, PolyError>(PolyError::InvalidName),
            name_ok(name) && self.slot(name) is None ==> r == Err::<usize, PolyError>(
                PolyError::NotFound,
            ),
            r is Ok <==> (name_ok(name) && self.slot(name) is Some),
            r is Ok ==> r->Ok_0 == self.slot(name)->0.terms@.len(),
    {
        let idx = match Self::index_of(name) {
            None => {
                return Err(PolyError::InvalidName);
            },
            Some(i) => i,
        };
        match &self.slots[idx] {
            None => Err(PolyError::NotFound),
            Some(p) => Ok(p.term_count()),
        }
    }

    /// Empties every slot.
    pub fn clear_all(&mut self)
        requires
            old(self).wf(),
        ensures
            final(self).wf(),
            forall|c: char| name_ok(c) ==> (#[trigger] final(self).slot(c)) is None,
    {
        self.slots.set(0, None);
        self.slots.set(1, None);
        self.slots.set(2, None);
        self.slots.set(3, None);
        self.slots.set(4, None);
    }

    /// The names of the occupied slots, in fixed `a`..`e` order.
    pub fn list_names(&self) -> (r: Vec<char>)
        requires
            self.wf(),
        ensures
            r@ == name_list(self),
    {
        let mut out: Vec<char> = Vec::new();
        if self.slots[0].is_some() {
            out.push('a');
        }
        if self.slots[1].is_some() {
            out.push('b');
        }
        if self.slots[2].is_some() {
            out.push('c');
        }
        if self.slots[3].is_some() {
            out.push('d');
        }
        if self.slots[4].is_some() {
            out.push('e');
        }
        proof {
            assert(out@ =~= name_list(self));
        }
        out
    }
}

/// The singleton `[c]` when the slot is occupied, else nothing.
pub open spec fn name_entry(o: Option<Polynomial>, c: char) -> Seq<char> {
    if o is Some {
        seq![c]
    } else {
        Seq::<char>::empty()
    }
}

/// The occupied names in fixed `a`..`e` order.
pub open spec fn name_list(reg: &Registry) -> Seq<char> {
    name_entry(reg.slots@[0], 'a') + name_entry(reg.slots@[1], 'b') + name_entry(reg.slots@[2], 'c')
        + name_entry(reg.slots@[3], 'd') + name_entry(reg.slots@[4], 'e')
}

} // verus!
