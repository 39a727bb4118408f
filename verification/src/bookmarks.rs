//! Resume positions (Samsung `X_SetBookmark`): object IDs mapped to a
//! position in seconds.
use vstd::prelude::*;

verus! {

/// One saved position.
#[derive(Debug)]
pub struct Bookmark {
    pub object_id: String,
    pub position: u64,
}

/// The saved positions, at most one per object.
#[derive(Debug)]
pub struct BookmarkPositions {
    entries: Vec<Bookmark>,
}

/// The position saved for `id` in `s`, if any.
pub open spec fn find_position(s: Seq<(Seq<char>, u64)>, id: Seq<char>) -> Option<u64>
    decreases s.len(),
{
    if s.len() == 0 {
        None
    } else if s.last().0 == id {
        Some(s.last().1)
    } else {
        find_position(s.drop_last(), id)
    }
}

proof fn lemma_find_position_at(s: Seq<(Seq<char>, u64)>, i: int)
    requires
        0 <= i < s.len(),
        forall|a: int, b: int| 0 <= a < b < s.len() ==> (#[trigger] s[a]).0 != (#[trigger] s[b]).0,
    ensures
        find_position(s, s[i].0) == Some(s[i].1),
    decreases s.len(),
{
    if i < s.len() - 1 {
        let t = s.drop_last();
        assert(t[i] == s[i]);
        assert forall|a: int, b: int| 0 <= a < b < t.len() implies (#[trigger] t[a]).0 != (
        #[trigger] t[b]).0 by {
            assert(t[a] == s[a] && t[b] == s[b]);
        }
        lemma_find_position_at(t, i);
    }
}

proof fn lemma_find_position_none(s: Seq<(Seq<char>, u64)>, id: Seq<char>)
    requires
        forall|a: int| 0 <= a < s.len() ==> (#[trigger] s[a]).0 != id,
    ensures
        find_position(s, id) is None,
    decreases s.len(),
{
    if s.len() > 0 {
        let t = s.drop_last();
        assert forall|a: int| 0 <= a < t.len() implies (#[trigger] t[a]).0 != id by {
            assert(t[a] == s[a]);
        }
        lemma_find_position_none(t, id);
    }
}

proof fn lemma_find_position_some(s: Seq<(Seq<char>, u64)>, id: Seq<char>)
    requires
        find_position(s, id) is Some,
    ensures
        exists|a: int| 0 <= a < s.len() && s[a].0 == id && s[a].1 == find_position(s, id)->0,
    decreases s.len(),
{
    if s.last().0 != id {
        lemma_find_position_some(s.drop_last(), id);
        let a = choose|a: int|
            0 <= a < s.drop_last().len() && s.drop_last()[a].0 == id && s.drop_last()[a].1
                == find_position(s.drop_last(), id)->0;
        assert(s[a] == s.drop_last()[a]);
    } else {
        assert(s[s.len() - 1] == s.last());
    }
}

impl BookmarkPositions {
    pub closed spec fn pairs(&self) -> Seq<(Seq<char>, u64)> {
        self.entries@.map_values(|b: Bookmark| (b.object_id@, b.position))
    }

    /// The position saved for `id`.
    pub open spec fn spec_get(&self, id: Seq<char>) -> Option<u64> {
        find_position(self.pairs(), id)
    }

    /// Each object has at most one position, and no saved position is zero.
    pub closed spec fn wf(&self) -> bool {
        let s = self.pairs();
        &&& forall|a: int, b: int| 0 <= a < b < s.len() ==> (#[trigger] s[a]).0 != (#[trigger] s[b]).0
        &&& forall|a: int| 0 <= a < s.len() ==> (#[trigger] s[a]).1 != 0
    }

    /// No saved positions.
    pub fn new() -> (r: Self)
        ensures
            r.wf(),
            forall|id: Seq<char>| #[trigger] r.spec_get(id) is None,
    {
        let r = BookmarkPositions { entries: Vec::new() };
        assert(r.pairs().len() == 0);
        r
    }

    fn index_of(&self, id: &str) -> (r: Option<usize>)
        requires
            self.wf(),
        ensures
            match r {
                Some(a) => a < self.pairs().len() && self.pairs()[a as int].0 == id@,
                None => forall|a: int| 0 <= a < self.pairs().len() ==> (#[trigger] self.pairs()[a]).0 != id@,
            },
    {
        let ghost s = self.pairs();
        let mut a: usize = 0;
        while a < self.entries.len()
            invariant
                s == self.pairs(),
                s.len() == self.entries@.len(),
                a <= s.len(),
                forall|b: int| 0 <= b < a ==> (#[trigger] s[b]).0 != id@,
            decreases s.len() - a,
        {
            assert(s[a as int].0 == self.entries@[a as int].object_id@);
            if crate::text::str_eq(self.entries[a].object_id.as_str(), id) {
                return Some(a);
            }
            a = a + 1;
        }
        None
    }

    /// The position saved for `object_id`.
    pub fn get(&self, object_id: &str) -> (r: Option<u64>)
        requires
            self.wf(),
        ensures
            r == self.spec_get(object_id@),
    {
        match self.index_of(object_id) {
            Some(a) => {
                proof {
                    lemma_find_position_at(self.pairs(), a as int);
                }
                Some(self.entries[a].position)
            },
            None => {
                proof {
                    lemma_find_position_none(self.pairs(), object_id@);
                }
                None
            },
        }
    }

    /// Saves a position; position zero forgets the object instead.
    pub fn set(&mut self, object_id: String, position: u64)
        requires
            old(self).wf(),
        ensures
            final(self).wf(),
            forall|id: Seq<char>| #[trigger]
                final(self).spec_get(id) == (if id == object_id@ {
                    if position == 0 {
                        None
                    } else {
                        Some(position)
                    }
                } else {
                    old(self).spec_get(id)
                }),
    {
        let ghost s = self.pairs();
        let found = self.index_of(object_id.as_str());
        let ghost id0 = object_id@;
        match found {
            Some(a) => {
                if position == 0 {
                    self.entries.remove(a);
                    proof {
                        assert(self.pairs() =~= s.remove(a as int));
                    }
                } else {
                    self.entries.set(a, Bookmark { object_id, position });
                    proof {
                        assert(self.pairs() =~= s.update(a as int, (id0, position)));
                    }
                }
            },
            None => {
                if position != 0 {
                    self.entries.push(Bookmark { object_id, position });
                    proof {
                        assert(self.pairs() =~= s.push((id0, position)));
                    }
                }
            },
        }
        proof {
            let t = self.pairs();
            assert forall|a: int, b: int| 0 <= a < b < t.len() implies (#[trigger] t[a]).0 != (
            #[trigger] t[b]).0 by {
                match found {
                    Some(k) => {
                        if position == 0 {
                            let a0 = if a < k { a } else { a + 1 };
                            let b0 = if b < k { b } else { b + 1 };
                            assert(t[a] == s[a0] && t[b] == s[b0]);
                        } else {
                            if a == k {
                                assert(t[b] == s[b]);
                            } else if b == k {
                                assert(t[a] == s[a]);
                            } else {
                                assert(t[a] == s[a] && t[b] == s[b]);
                            }
                        }
                    },
                    None => {
                        if position != 0 && b == t.len() - 1 {
                            assert(t[a] == s[a]);
                        } else {
                            assert(t[a] == s[a] && t[b] == s[b]);
                        }
                    },
                }
            }
            assert forall|a: int| 0 <= a < t.len() implies (#[trigger] t[a]).1 != 0 by {
                match found {
                    Some(k) => {
                        if position == 0 {
                            let a0 = if a < k { a } else { a + 1 };
                            assert(t[a] == s[a0]);
                        } else if a != k {
                            assert(t[a] == s[a]);
                        }
                    },
                    None => {
                        if !(position != 0 && a == t.len() - 1) {
                            assert(t[a] == s[a]);
                        }
                    },
                }
            }
            assert forall|id: Seq<char>| #[trigger] find_position(t, id) == (if id == id0 {
                if position == 0 {
                    None
                } else {
                    Some(position)
                }
            } else {
                find_position(s, id)
            }) by {
                if id == id0 {
                    if position == 0 {
                        assert forall|a: int| 0 <= a < t.len() implies (#[trigger] t[a]).0 != id by {
                            match found {
                                Some(k) => {
                                    let a0 = if a < k { a } else { a + 1 };
                                    assert(t[a] == s[a0]);
                                },
                                None => {
                                    assert(t[a] == s[a]);
                                },
                            }
                        }
                        lemma_find_position_none(t, id);
                    } else {
                        match found {
                            Some(k) => {
                                lemma_find_position_at(t, k as int);
                            },
                            None => {
                                lemma_find_position_at(t, t.len() - 1);
                            },
                        }
                    }
                } else {
                    match find_position(s, id) {
                        Some(_) => {
                            lemma_find_position_some(s, id);
                            let j = choose|j: int| 0 <= j < s.len() && s[j].0 == id && s[j].1 == find_position(s, id)->0;
                            match found {
                                Some(k) => {
                                    if position == 0 {
                                        let j1 = if j < k { j } else { j - 1 };
                                        assert(t[j1] == s[j]);
                                        lemma_find_position_at(t, j1);
                                    } else {
                                        assert(t[j] == s[j]);
                                        lemma_find_position_at(t, j);
                                    }
                                },
                                None => {
                                    assert(t[j] == s[j]);
                                    lemma_find_position_at(t, j);
                                },
                            }
                        },
                        None => {
                            assert forall|a: int| 0 <= a < t.len() implies (#[trigger] t[a]).0 != id by {
                                match found {
                                    Some(k) => {
                                        if position == 0 {
                                            let a0 = if a < k { a } else { a + 1 };
                                            assert(t[a] == s[a0]);
                                            if s[a0].0 == id {
                                                lemma_find_position_at(s, a0);
                                            }
                                        } else if a != k {
                                            assert(t[a] == s[a]);
                                            if s[a].0 == id {
                                                lemma_find_position_at(s, a);
                                            }
                                        }
                                    },
                                    None => {
                                        if a < s.len() {
                                            assert(t[a] == s[a]);
                                            if s[a].0 == id {
                                                lemma_find_position_at(s, a);
                                            }
                                        }
                                    },
                                }
                            }
                            lemma_find_position_none(t, id);
                        },
                    }
                }
            }
        }
    }

    /// The number of saved positions.
    pub fn len(&self) -> (r: usize)
        ensures
            r == self.pairs().len(),
    {
        self.entries.len()
    }

    /// The saved position at index `i` (in no particular order).
    pub fn at(&self, i: usize) -> (r: (&str, u64))
        requires
            i < self.pairs().len(),
        ensures
            (r.0@, r.1) == self.pairs()[i as int],
    {
        (self.entries[i].object_id.as_str(), self.entries[i].position)
    }
}

} // verus!
