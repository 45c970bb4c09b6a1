//! A collection of values keyed by name, kept in insertion order. Inserting under a name
//! that is present replaces that entry's value; inserting under a new name appends an entry.
//! Its map view (`lookup_map`) gives each name the value of its first entry.

use vstd::prelude::*;
use crate::text::str_eq;

verus! {

/// Index of the first entry of `s` named `name`.
pub open spec fn position_of<T>(s: Seq<(Seq<char>, T)>, name: Seq<char>) -> Option<int>
    decreases s.len(),
{
    if s.len() == 0 {
        None
    } else if s[0].0 == name {
        Some(0)
    } else {
        match position_of(s.drop_first(), name) {
            Some(i) => Some(i + 1),
            None => None,
        }
    }
}

/// The map from names to values that a sequence of entries denotes.
pub open spec fn lookup_map<T>(s: Seq<(Seq<char>, T)>) -> Map<Seq<char>, T> {
    Map::new(|k: Seq<char>| position_of(s, k) is Some, |k: Seq<char>| s[position_of(s, k)->0].1)
}

/// No two entries share a name.
pub open spec fn distinct_names<T>(s: Seq<(Seq<char>, T)>) -> bool {
    forall|i: int, j: int| 0 <= i < j < s.len() ==> #[trigger] s[i].0 != #[trigger] s[j].0
}

/// The entries after inserting `value` under `name`.
pub open spec fn inserted<T>(s: Seq<(Seq<char>, T)>, name: Seq<char>, value: T) -> Seq<
    (Seq<char>, T),
> {
    match position_of(s, name) {
        Some(i) => s.update(i, (name, value)),
        None => s.push((name, value)),
    }
}

/// `position_of` is the first index with that name.
pub proof fn lemma_position_of<T>(s: Seq<(Seq<char>, T)>, name: Seq<char>)
    ensures
        match position_of(s, name) {
            Some(i) => 0 <= i < s.len() && s[i].0 == name && forall|j: int|
                0 <= j < i ==> #[trigger] s[j].0 != name,
            None => forall|j: int| 0 <= j < s.len() ==> #[trigger] s[j].0 != name,
        },
    decreases s.len(),
{
    if s.len() > 0 {
        lemma_position_of(s.drop_first(), name);
        let t = s.drop_first();
        assert forall|j: int| 1 <= j < s.len() implies #[trigger] s[j].0 == t[j - 1].0 by {}
    }
}

/// The first index at which the name occurs, characterized.
pub proof fn lemma_position_of_at<T>(s: Seq<(Seq<char>, T)>, name: Seq<char>, i: int)
    requires
        0 <= i < s.len(),
        s[i].0 == name,
        forall|j: int| 0 <= j < i ==> #[trigger] s[j].0 != name,
    ensures
        position_of(s, name) == Some(i),
{
    lemma_position_of(s, name);
    match position_of(s, name) {
        Some(p) => {
            if p < i {
                assert(s[p].0 != name);
            }
            if p > i {
                assert(s[i].0 != name);
            }
        },
        None => {
            assert(s[i].0 != name);
        },
    }
}

/// The name is absent, characterized.
pub proof fn lemma_position_of_none<T>(s: Seq<(Seq<char>, T)>, name: Seq<char>)
    requires
        forall|j: int| 0 <= j < s.len() ==> #[trigger] s[j].0 != name,
    ensures
        position_of(s, name) is None,
{
    lemma_position_of(s, name);
    if let Some(p) = position_of(s, name) {
        assert(s[p].0 != name);
    }
}

/// Inserting under a name sets that name and leaves every other name as it was.
pub proof fn lemma_inserted_map<T>(s: Seq<(Seq<char>, T)>, name: Seq<char>, value: T)
    ensures
        lookup_map(inserted(s, name, value)) == lookup_map(s).insert(name, value),
{
    let t = inserted(s, name, value);
    lemma_position_of(s, name);
    assert forall|j: int| 0 <= j < s.len() implies #[trigger] t[j].0 == s[j].0 by {}
    match position_of(s, name) {
        Some(i) => {
            assert forall|j: int| 0 <= j < i implies #[trigger] t[j].0 != name by {
                assert(t[j].0 == s[j].0);
            }
            lemma_position_of_at(t, name, i);
        },
        None => {
            assert forall|j: int| 0 <= j < s.len() implies #[trigger] t[j].0 != name by {
                assert(t[j].0 == s[j].0);
            }
            lemma_position_of_at(t, name, s.len() as int);
        },
    }
    assert forall|k: Seq<char>| k != name implies #[trigger] position_of(t, k) == position_of(
        s,
        k,
    ) && (position_of(s, k) is Some ==> t[position_of(s, k)->0].1 == s[position_of(
        s,
        k,
    )->0].1) by {
        lemma_position_of(s, k);
        match position_of(s, k) {
            Some(p) => {
                assert forall|j: int| 0 <= j < p implies #[trigger] t[j].0 != k by {
                    assert(t[j].0 == s[j].0);
                }
                assert(t[p].0 == s[p].0);
                lemma_position_of_at(t, k, p);
            },
            None => {
                assert forall|j: int| 0 <= j < t.len() implies #[trigger] t[j].0 != k by {
                    if j < s.len() {
                        assert(t[j].0 == s[j].0);
                    }
                }
                lemma_position_of_none(t, k);
            },
        }
    }
    assert(lookup_map(t) =~= lookup_map(s).insert(name, value));
}

/// Inserting keeps the names distinct.
pub proof fn lemma_inserted_distinct<T>(s: Seq<(Seq<char>, T)>, name: Seq<char>, value: T)
    requires
        distinct_names(s),
    ensures
        distinct_names(inserted(s, name, value)),
{
    lemma_position_of(s, name);
    let t = inserted(s, name, value);
    assert forall|i: int, j: int| 0 <= i < j < t.len() implies #[trigger] t[i].0
        != #[trigger] t[j].0 by {
        if j < s.len() {
            if let Some(p) = position_of(s, name) {
                if i == p {
                    assert(s[j].0 != s[p].0);
                } else if j == p {
                    assert(s[i].0 != s[p].0);
                } else {
                    assert(s[i].0 != s[j].0);
                }
            } else {
                assert(s[i].0 != s[j].0);
            }
        } else {
            assert(t[i].0 == s[i].0);
        }
    }
}

/// Transforming values while keeping names keeps every name's position.
pub proof fn lemma_position_of_map_values<T, U>(
    s: Seq<(Seq<char>, T)>,
    g: spec_fn((Seq<char>, T)) -> (Seq<char>, U),
    name: Seq<char>,
)
    requires
        forall|e: (Seq<char>, T)| #[trigger] g(e).0 == e.0,
    ensures
        position_of(s.map_values(g), name) == position_of(s, name),
    decreases s.len(),
{
    if s.len() > 0 {
        assert(s.map_values(g).drop_first() =~= s.drop_first().map_values(g));
        assert(s.map_values(g)[0] == g(s[0]));
        lemma_position_of_map_values(s.drop_first(), g, name);
    }
}

/// Inserting commutes with transforming the values while keeping the names.
pub proof fn lemma_inserted_map_values<T, U>(
    s: Seq<(Seq<char>, T)>,
    g: spec_fn((Seq<char>, T)) -> (Seq<char>, U),
    name: Seq<char>,
    value: T,
)
    requires
        forall|e: (Seq<char>, T)| #[trigger] g(e).0 == e.0,
    ensures
        inserted(s, name, value).map_values(g) == inserted(s.map_values(g), name, g((name, value)).1),
{
    lemma_position_of_map_values(s, g, name);
    lemma_position_of(s, name);
    let gv = g((name, value));
    assert(gv == (name, gv.1));
    match position_of(s, name) {
        Some(i) => {
            assert(inserted(s, name, value).map_values(g) =~= s.map_values(g).update(i, gv));
        },
        None => {
            assert(inserted(s, name, value).map_values(g) =~= s.map_values(g).push(gv));
        },
    }
}

/// Values of type `T` under distinct names, in insertion order.
pub struct Pool<T> {
    entries: Vec<(String, T)>,
}

impl<T> View for Pool<T> {
    type V = Seq<(Seq<char>, T)>;

    closed spec fn view(&self) -> Seq<(Seq<char>, T)> {
        self.entries@.map_values(|e: (String, T)| (e.0@, e.1))
    }
}

impl<T> Pool<T> {
    /// An empty pool.
    pub fn new() -> (r: Self)
        ensures
            r@ == Seq::<(Seq<char>, T)>::empty(),
    {
        let r = Pool { entries: Vec::new() };
        assert(r@ =~= Seq::<(Seq<char>, T)>::empty());
        r
    }

    /// Number of entries.
    pub fn len(&self) -> (r: usize)
        ensures
            r == self@.len(),
    {
        self.entries.len()
    }

    /// Whether the pool has no entry.
    pub fn is_empty(&self) -> (r: bool)
        ensures
            r == (self@.len() == 0),
    {
        self.entries.len() == 0
    }

    /// Position of the entry named `name`.
    pub fn index_of(&self, name: &str) -> (r: Option<usize>)
        ensures
            match r {
                Some(i) => position_of(self@, name@) == Some(i as int),
                None => position_of(self@, name@) is None,
            },
    {
        let n = self.entries.len();
        let mut i: usize = 0;
        while i < n
            invariant
                n == self@.len(),
                i <= n,
                forall|j: int| 0 <= j < i ==> #[trigger] self@[j].0 != name@,
            decreases n - i,
        {
            if str_eq(self.entries[i].0.as_str(), name) {
                proof {
                    lemma_position_of_at(self@, name@, i as int);
                }
                return Some(i);
            }
            i = i + 1;
        }
        proof {
            lemma_position_of_none(self@, name@);
        }
        None
    }

    /// Whether an entry is named `name`.
    pub fn contains_key(&self, name: &str) -> (r: bool)
        ensures
            r == lookup_map(self@).contains_key(name@),
    {
        self.index_of(name).is_some()
    }

    /// The name of entry `i`.
    pub fn name_at(&self, i: usize) -> (r: &String)
        requires
            i < self@.len(),
        ensures
            r@ == self@[i as int].0,
    {
        &self.entries[i].0
    }

    /// The value of entry `i`.
    pub fn value_at(&self, i: usize) -> (r: &T)
        requires
            i < self@.len(),
        ensures
            *r == self@[i as int].1,
    {
        &self.entries[i].1
    }

    /// The value of entry `i`, to be changed in place; its name stays.
    pub fn value_at_mut(&mut self, i: usize) -> (r: &mut T)
        requires
            i < old(self)@.len(),
        ensures
            *r == old(self)@[i as int].1,
            final(self)@ == old(self)@.update(i as int, (old(self)@[i as int].0, *final(r))),
    {
        let e = &mut self.entries[i];
        &mut e.1
    }

    /// Inserts `value` under `name`: an entry of that name gets the new value, otherwise a new
    /// entry is appended.
    pub fn insert(&mut self, name: String, value: T)
        ensures
            final(self)@ == inserted(old(self)@, name@, value),
            lookup_map(final(self)@) == lookup_map(old(self)@).insert(name@, value),
            distinct_names(old(self)@) ==> distinct_names(final(self)@),
    {
        proof {
            lemma_inserted_map(self@, name@, value);
            lemma_inserted_distinct_if(self@, name@, value);
        }
        match self.index_of(name.as_str()) {
            Some(i) => {
                proof {
                    lemma_position_of(self@, name@);
                }
                self.entries.set(i, (name, value));
            },
            None => {
                self.entries.push((name, value));
            },
        }
        assert(self@ =~= inserted(old(self)@, name@, value));
    }
}

pub proof fn lemma_inserted_distinct_if<T>(s: Seq<(Seq<char>, T)>, name: Seq<char>, value: T)
    ensures
        distinct_names(s) ==> distinct_names(inserted(s, name, value)),
{
    if distinct_names(s) {
        lemma_inserted_distinct(s, name, value);
    }
}

} // verus!
