//! The declared-parameter table of a statement: a small map from parameter
//! name to declared type, keeping the order in which names were first
//! declared. A later declaration for the same name overwrites the type.

use vstd::prelude::*;
use crate::chars::str_eq;

verus! {

/// Whether some entry of `s` has key `k`.
pub open spec fn has_key(s: Seq<(Seq<char>, Seq<char>)>, k: Seq<char>) -> bool {
    exists|i: int| 0 <= i < s.len() && s[i].0 == k
}

/// The first index whose entry has key `k`.
pub open spec fn index_of_key(s: Seq<(Seq<char>, Seq<char>)>, k: Seq<char>) -> int
    decreases s.len(),
{
    if s.len() == 0 {
        0
    } else if s[0].0 == k {
        0
    } else {
        1 + index_of_key(s.drop_first(), k)
    }
}

/// The value stored under key `k`.
pub open spec fn value_of(s: Seq<(Seq<char>, Seq<char>)>, k: Seq<char>) -> Seq<char> {
    s[index_of_key(s, k)].1
}

/// What inserting `k -> v` does to the entries: overwrites the value of an
/// existing entry in place, or appends a new entry at the end.
pub open spec fn params_insert(
    s: Seq<(Seq<char>, Seq<char>)>,
    k: Seq<char>,
    v: Seq<char>,
) -> Seq<(Seq<char>, Seq<char>)> {
    if has_key(s, k) {
        s.update(index_of_key(s, k), (k, v))
    } else {
        s.push((k, v))
    }
}

pub proof fn lemma_index_of_key(s: Seq<(Seq<char>, Seq<char>)>, k: Seq<char>)
    requires
        has_key(s, k),
    ensures
        0 <= index_of_key(s, k) < s.len(),
        s[index_of_key(s, k)].0 == k,
        forall|i: int| 0 <= i < index_of_key(s, k) ==> s[i].0 != k,
    decreases s.len(),
{
    if s.len() > 0 && s[0].0 != k {
        assert(has_key(s.drop_first(), k)) by {
            let w = choose|i: int| 0 <= i < s.len() && s[i].0 == k;
            assert(s.drop_first()[w - 1].0 == k);
        }
        lemma_index_of_key(s.drop_first(), k);
        assert forall|i: int| 0 <= i < index_of_key(s, k) implies s[i].0 != k by {
            if i > 0 {
                assert(s.drop_first()[i - 1].0 == s[i].0);
            }
        }
    }
}

/// A statement's declared-parameter table.
#[derive(Debug)]
pub struct Params {
    entries: Vec<(String, String)>,
}

impl View for Params {
    type V = Seq<(Seq<char>, Seq<char>)>;

    closed spec fn view(&self) -> Seq<(Seq<char>, Seq<char>)> {
        self.entries@.map_values(|p: (String, String)| (p.0@, p.1@))
    }
}

impl Params {
    /// An empty table.
    pub fn new() -> (r: Params)
        ensures
            r@ == Seq::<(Seq<char>, Seq<char>)>::empty(),
    {
        let r = Params { entries: Vec::new() };
        proof {
            assert(r@ =~= Seq::<(Seq<char>, Seq<char>)>::empty());
        }
        r
    }

    /// The number of declared parameters.
    pub fn len(&self) -> (n: usize)
        ensures
            n == self@.len(),
    {
        self.entries.len()
    }

    /// Whether no parameter is declared.
    pub fn is_empty(&self) -> (b: bool)
        ensures
            b == (self@.len() == 0),
    {
        self.entries.len() == 0
    }

    /// The name of the entry at `i`, in first-declaration order.
    pub fn key_at(&self, i: usize) -> (k: &String)
        requires
            i < self@.len(),
        ensures
            k@ == self@[i as int].0,
    {
        &self.entries[i].0
    }

    /// The declared type of the entry at `i`.
    pub fn type_at(&self, i: usize) -> (t: &String)
        requires
            i < self@.len(),
        ensures
            t@ == self@[i as int].1,
    {
        &self.entries[i].1
    }

    /// Records `name -> ptype`, overwriting any earlier declaration of the
    /// same name.
    pub fn insert(&mut self, name: String, ptype: String)
        ensures
            final(self)@ == params_insert(old(self)@, name@, ptype@),
    {
        let ghost s0 = self@;
        let ghost e0 = self.entries@;
        proof {
            assert(s0 == e0.map_values(|p: (String, String)| (p.0@, p.1@)));
        }
        let ghost kview = name@;
        let ghost tview = ptype@;
        let n = self.entries.len();
        let mut i: usize = 0;
        while i < n
            invariant
                0 <= i <= n,
                n == self.entries@.len(),
                self@ == s0,
                s0 == old(self)@,
                self.entries@ == e0,
                name@ == kview,
                ptype@ == tview,
                forall|j: int| 0 <= j < i ==> s0[j].0 != name@,
            decreases n - i,
        {
            let hit = str_eq(self.entries[i].0.as_str(), name.as_str());
            proof {
                assert(s0[i as int] == (self.entries@[i as int].0@, self.entries@[i as int].1@));
            }
            if hit {
                proof {
                    assert(s0[i as int].0 == name@);
                    assert(has_key(s0, name@));
                    lemma_index_of_key(s0, name@);
                    assert(index_of_key(s0, name@) == i as int);
                }
                self.entries.set(i, (name, ptype));
                proof {
                    assert forall|j: int| 0 <= j < self@.len() implies self@[j] == s0.update(
                        i as int,
                        (kview, tview),
                    )[j] by {
                        assert(self@[j] == (self.entries@[j].0@, self.entries@[j].1@));
                        if j != i as int {
                            assert(s0[j] == (e0[j].0@, e0[j].1@));
                        }
                    }
                    assert(self@ =~= s0.update(i as int, (kview, tview)));
                }
                return ;
            }
            i = i + 1;
        }
        proof {
            assert(!has_key(s0, name@));
        }
        self.entries.push((name, ptype));
        proof {
            assert forall|j: int| 0 <= j < self@.len() implies self@[j] == s0.push(
                (kview, tview),
            )[j] by {
                assert(self@[j] == (self.entries@[j].0@, self.entries@[j].1@));
                if j < s0.len() {
                    assert(s0[j] == (e0[j].0@, e0[j].1@));
                }
            }
            assert(self@ =~= s0.push((kview, tview)));
        }
    }

    /// The declared type of `name`, if it was declared.
    pub fn get(&self, name: &str) -> (r: Option<&String>)
        ensures
            (match r {
                Some(t) => has_key(self@, name@) && t@ == value_of(self@, name@),
                None => !has_key(self@, name@),
            }),
    {
        let n = self.entries.len();
        let mut i: usize = 0;
        while i < n
            invariant
                0 <= i <= n,
                n == self@.len(),
                forall|j: int| 0 <= j < i ==> self@[j].0 != name@,
            decreases n - i,
        {
            let hit = str_eq(self.entries[i].0.as_str(), name);
            proof {
                assert(self@[i as int] == (
                    self.entries@[i as int].0@,
                    self.entries@[i as int].1@,
                ));
            }
            if hit {
                proof {
                    assert(self@[i as int].0 == name@);
                    assert(has_key(self@, name@));
                    lemma_index_of_key(self@, name@);
                    assert(index_of_key(self@, name@) == i as int);
                }
                return Some(&self.entries[i].1);
            }
            i = i + 1;
        }
        proof {
            assert(!has_key(self@, name@));
        }
        None
    }
}

} // verus!
