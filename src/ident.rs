use vstd::prelude::*;

verus! {

/// Interned 64-bit handle for a resource name.
#[derive(Clone, Copy, Debug, PartialEq, Eq, Structural, Hash, PartialOrd, Ord)]
pub struct Ident(pub u64);

/// Returned when a name was never interned by a table.
#[derive(Clone, Copy, Debug, PartialEq, Eq, Structural)]
pub struct InvalidIdentError;

/// Table of interned names; an ident is the index of its name.
pub struct IdentTable {
    names: Vec<String>,
}

/// The table after interning `s`: unchanged if `s` is present, else extended by it.
pub open spec fn interned(t: Seq<Seq<char>>, s: Seq<char>) -> Seq<Seq<char>> {
    if t.contains(s) {
        t
    } else {
        t.push(s)
    }
}

/// The ident that interning `s` yields: its index in the table after interning.
pub open spec fn ident_of(t: Seq<Seq<char>>, s: Seq<char>) -> u64 {
    if t.contains(s) {
        (choose|i: int| 0 <= i < t.len() && t[i] == s) as u64
    } else {
        t.len() as u64
    }
}

/// The name an ident stands for, or the empty string if none.
pub open spec fn name_of(t: Seq<Seq<char>>, id: u64) -> Seq<char> {
    if id < t.len() {
        t[id as int]
    } else {
        Seq::empty()
    }
}

impl View for IdentTable {
    type V = Seq<Seq<char>>;

    closed spec fn view(&self) -> Seq<Seq<char>> {
        self.names@.map_values(|n: String| n@)
    }
}

impl IdentTable {
    /// Names are unique.
    pub open spec fn wf(&self) -> bool {
        self@.no_duplicates()
    }

    pub fn new() -> (r: IdentTable)
        ensures
            r.wf(),
            r@ == Seq::<Seq<char>>::empty(),
    {
        let r = IdentTable { names: Vec::new() };
        proof {
            assert(r@ =~= Seq::<Seq<char>>::empty());
        }
        r
    }

    /// Position of `s` among the names, if interned.
    fn position(&self, s: &String) -> (r: Option<usize>)
        requires
            self.wf(),
        ensures
            r.is_none() == !self@.contains(s@),
            r.is_some() ==> r.unwrap() < self@.len() && self@[r.unwrap() as int] == s@,
    {
        let mut i: usize = 0;
        while i < self.names.len()
            invariant
                i <= self.names@.len(),
                self@.len() == self.names@.len(),
                forall|j: int| 0 <= j < i ==> self@[j] != s@,
            decreases self.names@.len() - i,
        {
            if self.names[i] == *s {
                proof {
                    assert(self@[i as int] == self.names@[i as int]@);
                }
                return Some(i);
            }
            i = i + 1;
        }
        proof {
            if self@.contains(s@) {
                let k = choose|k: int| 0 <= k < self@.len() && self@[k] == s@;
                assert(self@[k] != s@);
            }
        }
        None
    }

    /// Finds the ident of an already interned name, without interning it.
    pub fn lookup(&self, string: &str) -> (r: Result<Ident, InvalidIdentError>)
        requires
            self.wf(),
        ensures
            r.is_ok() == self@.contains(string@),
            r.is_ok() ==> r.unwrap() == Ident(ident_of(self@, string@)),
    {
        let s = string.to_owned();
        match self.position(&s) {
            Some(i) => {
                proof {
                    lemma_index_unique(self@, s@, i as int);
                }
                Ok(Ident(i as u64))
            },
            None => Err(InvalidIdentError),
        }
    }
}

/// In a table without duplicates the chosen index of a name is its only index.
proof fn lemma_index_unique(t: Seq<Seq<char>>, s: Seq<char>, i: int)
    requires
        t.no_duplicates(),
        0 <= i < t.len(),
        i <= u64::MAX,
        t[i] == s,
    ensures
        t.contains(s),
        ident_of(t, s) == i,
{
    assert(t.contains(s));
    let k = choose|k: int| 0 <= k < t.len() && t[k] == s;
    assert(t[k] == t[i]);
    if k != i {
        assert(t.no_duplicates());
        assert(false);
    }
}

impl Ident {
    /// Interns `string`: equal strings always give equal idents.
    pub fn from_str(table: &mut IdentTable, string: &str) -> (r: Ident)
        requires
            old(table).wf(),
        ensures
            final(table).wf(),
            final(table)@ == interned(old(table)@, string@),
            r == Ident(ident_of(old(table)@, string@)),
            name_of(final(table)@, r.0) == string@,
    {
        let s = string.to_owned();
        match table.position(&s) {
            Some(i) => {
                proof {
                    lemma_index_unique(table@, s@, i as int);
                }
                Ident(i as u64)
            },
            None => {
                let n = table.names.len();
                let ghost old_view = table@;
                table.names.push(s);
                proof {
                    assert(table@ =~= old_view.push(string@));
                    assert forall|a: int, b: int| 0 <= a < b < table@.len() implies table@[a] != table@[b] by {
                        if b == n as int {
                            assert(old_view[a] != string@);
                        }
                    }
                }
                Ident(n as u64)
            },
        }
    }

    pub fn as_u64(self) -> (r: u64)
        ensures
            r == self.0,
    {
        let Ident(u) = self;
        u
    }

    /// The name this ident was interned from, or the empty string.
    pub fn as_str(self, table: &IdentTable) -> (r: String)
        ensures
            r@ == name_of(table@, self.0),
    {
        if self.0 < table.names.len() as u64 {
            table.names[self.0 as usize].clone()
        } else {
            String::new()
        }
    }
}

/// Interning a name and reading it back gives the same name.
pub proof fn law_round_trip(t: Seq<Seq<char>>, s: Seq<char>)
    requires
        t.no_duplicates(),
        t.len() < u64::MAX,
    ensures
        name_of(interned(t, s), ident_of(t, s)) == s,
{
    if t.contains(s) {
        let k = choose|k: int| 0 <= k < t.len() && t[k] == s;
    } else {
        assert(interned(t, s)[t.len() as int] == s);
    }
}

} // verus!
