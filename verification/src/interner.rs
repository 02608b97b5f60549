//! The symbol table: a bidirectional name <-> id interner.
//!
//! Ids are assigned in first-seen order starting at 1, and are never reused or
//! removed. The name that owns id `i + 1` is the `i`-th entry of `names`.

use vstd::prelude::*;

verus! {

/// Allocates stable numeric ids for qualified names.
pub struct IDGenerator {
    names: Vec<String>,
}

/// The first position of `name` in `names`, if `name` occurs there.
pub open spec fn find_name(names: Seq<Seq<char>>, name: Seq<char>) -> Option<int>
    decreases names.len(),
{
    if names.len() == 0 {
        None
    } else if names[0] == name {
        Some(0int)
    } else {
        match find_name(names.drop_first(), name) {
            Some(i) => Some(i + 1),
            None => None,
        }
    }
}

/// The id that interning `name` into a table of `names` returns: the position
/// of an existing entry plus one, or the next unused id.
pub open spec fn intern_id(names: Seq<Seq<char>>, name: Seq<char>) -> int {
    match find_name(names, name) {
        Some(i) => i + 1,
        None => names.len() as int + 1,
    }
}

/// The table after interning `name`: unchanged if present, else grown by one.
pub open spec fn intern_names(names: Seq<Seq<char>>, name: Seq<char>) -> Seq<Seq<char>> {
    match find_name(names, name) {
        Some(_) => names,
        None => names.push(name),
    }
}

/// No two entries of the table hold the same name.
pub open spec fn distinct_names(names: Seq<Seq<char>>) -> bool {
    forall|i: int, j: int| 0 <= i < j < names.len() ==> names[i] != names[j]
}

/// `find_name` returns the first matching position, or `None` when no entry
/// matches.
pub proof fn lemma_find_name_first(names: Seq<Seq<char>>, name: Seq<char>)
    ensures
        match find_name(names, name) {
            Some(i) => 0 <= i < names.len() && names[i] == name && (forall|j: int|
                0 <= j < i ==> names[j] != name),
            None => forall|j: int| 0 <= j < names.len() ==> names[j] != name,
        },
    decreases names.len(),
{
    if names.len() > 0 && names[0] != name {
        let rest = names.drop_first();
        lemma_find_name_first(rest, name);
        assert(forall|j: int| 0 <= j < rest.len() ==> rest[j] == names[j + 1]);
        match find_name(rest, name) {
            Some(i) => {
                assert forall|j: int| 0 <= j < i + 1 implies names[j] != name by {
                    if j > 0 {
                        assert(names[j] == rest[j - 1]);
                    }
                }
            },
            None => {
                assert forall|j: int| 0 <= j < names.len() implies names[j] != name by {
                    if j > 0 {
                        assert(names[j] == rest[j - 1]);
                    }
                }
            },
        }
    }
}

/// `find_name` finds a match exactly where the pointwise facts put it.
pub proof fn lemma_find_name_at(names: Seq<Seq<char>>, name: Seq<char>, i: int)
    requires
        0 <= i < names.len(),
        names[i] == name,
        forall|j: int| 0 <= j < i ==> names[j] != name,
    ensures
        find_name(names, name) == Some(i),
    decreases names.len(),
{
    if i > 0 {
        lemma_find_name_at(names.drop_first(), name, i - 1);
    }
}

/// `find_name` reports absence exactly when no entry matches.
pub proof fn lemma_find_name_absent(names: Seq<Seq<char>>, name: Seq<char>)
    requires
        forall|j: int| 0 <= j < names.len() ==> names[j] != name,
    ensures
        find_name(names, name) is None,
    decreases names.len(),
{
    if names.len() > 0 {
        lemma_find_name_absent(names.drop_first(), name);
    }
}

/// Repeated interning of one name returns the same id and leaves the table as
/// the first call left it.
pub proof fn lemma_intern_idempotent(names: Seq<Seq<char>>, name: Seq<char>)
    ensures
        intern_names(intern_names(names, name), name) == intern_names(names, name),
        intern_id(intern_names(names, name), name) == intern_id(names, name),
{
    lemma_find_name_first(names, name);
    if find_name(names, name) is None {
        lemma_find_name_at(names.push(name), name, names.len() as int);
    }
}

/// Interning a first-seen name, then another name still unseen, hands out
/// strictly increasing ids.
pub proof fn lemma_intern_increasing(names: Seq<Seq<char>>, a: Seq<char>, b: Seq<char>)
    requires
        find_name(names, a) is None,
        find_name(intern_names(names, a), b) is None,
    ensures
        intern_id(intern_names(names, a), b) > intern_id(names, a),
{
}

/// Interning keeps the entries of the table distinct.
pub proof fn lemma_intern_distinct(names: Seq<Seq<char>>, name: Seq<char>)
    requires
        distinct_names(names),
    ensures
        distinct_names(intern_names(names, name)),
{
    lemma_find_name_first(names, name);
}

impl View for IDGenerator {
    type V = Seq<Seq<char>>;

    closed spec fn view(&self) -> Seq<Seq<char>> {
        self.names@.map_values(|s: String| s@)
    }
}

impl IDGenerator {
    /// An empty symbol table; the first interned name will get id 1.
    pub fn new() -> (r: IDGenerator)
        ensures
            r@ == Seq::<Seq<char>>::empty(),
    {
        let r = IDGenerator { names: Vec::new() };
        proof {
            assert(r@ =~= Seq::<Seq<char>>::empty());
        }
        r
    }

    /// Returns the id of `sig`, allocating the next sequential id when `sig`
    /// has not been seen before. Never fails.
    pub fn id(&mut self, sig: &String) -> (id: u64)
        ensures
            final(self)@ == intern_names(old(self)@, sig@),
            id as int == intern_id(old(self)@, sig@),
            1 <= id as int <= final(self)@.len(),
            final(self)@[id as int - 1] == sig@,
    {
        let ghost names0 = self@;
        let n = self.names.len();
        let mut i: usize = 0;
        while i < n
            invariant
                i <= n,
                n == self.names@.len(),
                self@ == names0,
                forall|j: int| 0 <= j < i ==> self@[j] != sig@,
            decreases n - i,
        {
            proof {
                assert(self@[i as int] == self.names@[i as int]@);
            }
            if self.names[i] == *sig {
                proof {
                    lemma_find_name_at(names0, sig@, i as int);
                }
                return (i + 1) as u64;
            }
            i += 1;
        }
        proof {
            lemma_find_name_absent(names0, sig@);
        }
        self.names.push(sig.clone());
        proof {
            assert(self@ =~= names0.push(sig@));
        }
        let m = self.names.len();
        m as u64
    }

    /// Rebuilds a symbol table from its name list; `names[i]` owns id `i + 1`.
    pub fn from_names(names: Vec<String>) -> (r: IDGenerator)
        ensures
            r@.len() == names@.len(),
            forall|i: int| 0 <= i < names@.len() ==> r@[i] == (#[trigger] names@[i])@,
    {
        IDGenerator { names }
    }

    /// The stored names; entry `i` owns id `i + 1`.
    pub fn names_vec(&self) -> (r: &Vec<String>)
        ensures
            r@.len() == self@.len(),
            forall|i: int| 0 <= i < self@.len() ==> (#[trigger] r@[i])@ == self@[i],
    {
        &self.names
    }

    /// Resolves an id back to the name it was assigned for.
    pub fn name(&self, id: u64) -> (r: Option<&String>)
        ensures
            match r {
                Some(s) => 1 <= id as int <= self@.len() && s@ == self@[id as int - 1],
                None => !(1 <= id as int <= self@.len()),
            },
    {
        if 1 <= id && id <= self.names.len() as u64 {
            Some(&self.names[(id - 1) as usize])
        } else {
            None
        }
    }
}

} // verus!
