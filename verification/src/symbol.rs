use vstd::prelude::*;

verus! {

/// A compact identifier, used in place of string comparisons at runtime.
#[derive(Debug, Clone, Copy, PartialEq, Eq, Hash, Structural)]
pub struct Symbol(pub u32);

/// Maps strings to Symbol ids and back. A symbol's id is the position of its
/// name in `names`; no name occurs twice.
pub struct Interner {
    names: Vec<String>,
}

/// The effect of interning `name`: a known name keeps its symbol and the
/// names stay as they were; a new name is appended and gets the next id.
pub open spec fn interned(before: Seq<Seq<char>>, after: Seq<Seq<char>>, name: Seq<char>, sym: Symbol) -> bool {
    &&& before.contains(name) ==> {
        &&& after == before
        &&& (sym.0 as int) < before.len()
        &&& before[sym.0 as int] == name
    }
    &&& !before.contains(name) ==> {
        &&& after == before.push(name)
        &&& sym.0 == before.len()
    }
}

/// No name occurs twice in the sequence.
pub open spec fn distinct_names(names: Seq<Seq<char>>) -> bool {
    forall|i: int, j: int|
        0 <= i < names.len() && 0 <= j < names.len() && i != j ==> names[i] != names[j]
}

impl View for Interner {
    type V = Seq<Seq<char>>;

    closed spec fn view(&self) -> Seq<Seq<char>> {
        self.names@.map_values(|s: String| s@)
    }
}

impl Interner {
    /// The interner's invariant: every name is stored once.
    pub open spec fn wf(&self) -> bool {
        distinct_names(self@)
    }

    pub fn new() -> (r: Self)
        ensures
            r.wf(),
            r@ == Seq::<Seq<char>>::empty(),
    {
        let r = Interner { names: Vec::new() };
        assert(r@ =~= Seq::<Seq<char>>::empty());
        r
    }

    /// Position of `name` among the interned names, if it is there.
    fn find(&self, name: &String) -> (r: Option<usize>)
        ensures
            match r {
                Some(i) => i < self@.len() && self@[i as int] == name@,
                None => !self@.contains(name@),
            },
    {
        let mut i: usize = 0;
        while i < self.names.len()
            invariant
                i <= self.names.len(),
                self@.len() == self.names.len(),
                forall|j: int| 0 <= j < i ==> self@[j] != name@,
            decreases self.names.len() - i,
        {
            if self.names[i] == *name {
                return Some(i);
            }
            i = i + 1;
        }
        proof {
            if self@.contains(name@) {
                let k = choose|k: int| 0 <= k < self@.len() && self@[k] == name@;
                assert(self@[k] != name@);
            }
        }
        None
    }

    /// Returns the symbol of `name`, adding the name if it is new. A new name
    /// gets the next id, the number of names interned before it. Ids are `u32`,
    /// so the interner must hold fewer than `u32::MAX` names.
    pub fn intern(&mut self, name: &str) -> (sym: Symbol)
        requires
            old(self).wf(),
            old(self)@.len() < u32::MAX,
        ensures
            final(self).wf(),
            interned(old(self)@, final(self)@, name@, sym),
            (sym.0 as int) < final(self)@.len() && final(self)@[sym.0 as int] == name@,
    {
        let owned = name.to_owned();
        match self.find(&owned) {
            Some(id) => Symbol(id as u32),
            None => {
                let id = self.names.len() as u32;
                let ghost before = self@;
                self.names.push(owned);
                assert(self@ =~= before.push(name@));
                assert(distinct_names(self@)) by {
                    assert forall|i: int, j: int|
                        0 <= i < self@.len() && 0 <= j < self@.len() && i != j
                        implies self@[i] != self@[j] by {
                        if i < before.len() && j < before.len() {
                        } else if i == before.len() {
                            assert(self@[j] == before[j]);
                            assert(before.contains(before[j]));
                        } else {
                            assert(self@[i] == before[i]);
                            assert(before.contains(before[i]));
                        }
                    }
                }
                Symbol(id)
            },
        }
    }

    /// The name of an interned symbol.
    pub fn resolve(&self, sym: Symbol) -> (r: &str)
        requires
            (sym.0 as int) < self@.len(),
        ensures
            r@ == self@[sym.0 as int],
    {
        self.names[sym.0 as usize].as_str()
    }

    /// The number of interned names.
    pub fn len(&self) -> (r: usize)
        ensures
            r == self@.len(),
    {
        self.names.len()
    }
}

} // verus!
