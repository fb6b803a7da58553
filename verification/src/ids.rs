//! Numbers for vertex identifiers.

use crate::strmap::StrMap;
use crate::strmap::{lemma_put_lookup, lookup};
use crate::text::texts;
use vstd::prelude::*;

verus! {

/// Whether the map finds each text at its position, and nothing else.
pub open spec fn finds(forward: Seq<(Seq<char>, usize)>, ids: Seq<Seq<char>>) -> bool {
    forall|id: Seq<char>|
        match #[trigger] lookup(forward, id) {
            Some(i) => i < ids.len() && ids[i as int] == id,
            None => !ids.contains(id),
        }
}

/// Gives consecutive numbers to identifiers, in the order in which they were registered.
#[derive(Debug)]
pub struct IdMapper {
    ids: Vec<String>,
    forward: StrMap<usize>,
}

impl IdMapper {
    /// The identifiers by number.
    pub closed spec fn view(&self) -> Seq<Seq<char>> {
        texts(self.ids@)
    }

    #[verifier::type_invariant]
    closed spec fn indexed(&self) -> bool {
        &&& texts(self.ids@).no_duplicates()
        &&& finds(self.forward.pairs(), texts(self.ids@))
    }

    /// The number of an identifier; one that has none gets the next.
    pub fn register_id(&mut self, id: &str) -> (r: usize)
        ensures
            r < final(self)@.len(),
            final(self)@[r as int] == id@,
            final(self)@ == if old(self)@.contains(id@) {
                old(self)@
            } else {
                old(self)@.push(id@)
            },
            final(self)@.no_duplicates(),
    {
        proof {
            use_type_invariant(&*self);
        }
        match self.forward.get(id) {
            Some(index) => {
                return *index;
            },
            None => {},
        }
        let ghost before = texts(self.ids@);
        let index: usize = self.ids.len();
        let mut taken = IdMapper::default();
        std::mem::swap(self, &mut taken);
        let mut ids = taken.ids;
        let mut forward = taken.forward;
        let ghost map = forward.pairs();
        ids.push(id.to_owned());
        forward.insert(id.to_owned(), index);
        proof {
            let after = texts(ids@);
            assert(after =~= before.push(id@));
            assert forall|k: Seq<char>|
                match #[trigger] lookup(forward.pairs(), k) {
                    Some(i) => i < after.len() && after[i as int] == k,
                    None => !after.contains(k),
                } by {
                lemma_put_lookup(map, id@, index, k);
                if k != id@ {
                    match lookup(map, k) {
                        Some(i) => {
                            assert(after[i as int] == before[i as int]);
                        },
                        None => {
                            if after.contains(k) {
                                let j = choose|j: int| 0 <= j < after.len() && after[j] == k;
                                assert(before[j] == k);
                            }
                        },
                    }
                }
            }
            assert(after.no_duplicates()) by {
                assert forall|i: int, j: int| 0 <= i < j < after.len() implies after[i]
                    != after[j] by {
                    assert(after[i] == before[i]);
                    if j == before.len() {
                        assert(before.contains(before[i]));
                    }
                }
            }
        }
        *self = IdMapper { ids, forward };
        index
    }

    /// The number of an identifier.
    pub fn resolve_id(&self, id: &str) -> (r: Option<usize>)
        ensures
            match r {
                Some(i) => i < self@.len() && self@[i as int] == id@,
                None => !self@.contains(id@),
            },
    {
        proof {
            use_type_invariant(self);
        }
        match self.forward.get(id) {
            Some(index) => Some(*index),
            None => None,
        }
    }

    /// The identifier with that number.
    pub fn resolve_index(&self, index: usize) -> (r: Option<&str>)
        ensures
            match r {
                Some(id) => index < self@.len() && self@[index as int] == id@,
                None => index >= self@.len(),
            },
    {
        if index < self.ids.len() {
            Some(self.ids[index].as_str())
        } else {
            None
        }
    }

    /// Forgets an identifier. Those after it move up by one.
    pub fn remove_id(&mut self, id: &str) -> (r: bool)
        ensures
            r == old(self)@.contains(id@),
            if r {
                exists|i: int|
                    0 <= i < old(self)@.len() && #[trigger] old(self)@[i] == id@ && final(self)@
                        == old(self)@.remove(i)
            } else {
                final(self)@ == old(self)@
            },
            final(self)@.no_duplicates(),
            !final(self)@.contains(id@),
    {
        proof {
            use_type_invariant(&*self);
        }
        let index: usize = match self.resolve_id(id) {
            Some(index) => index,
            None => {
                return false;
            },
        };
        let ghost before = texts(self.ids@);
        let mut taken = IdMapper::default();
        std::mem::swap(self, &mut taken);
        let mut ids = taken.ids;
        let removed = ids.remove(index);
        proof {
            let after = texts(ids@);
            assert(after =~= before.remove(index as int));
            assert(after.no_duplicates());
            assert(before[index as int] == id@);
            if after.contains(id@) {
                let j = choose|j: int| 0 <= j < after.len() && after[j] == id@;
                if j < index {
                    assert(after[j] == before[j]);
                } else {
                    assert(after[j] == before[j + 1]);
                }
            }
        }
        *self = IdMapper::rebuild_indices(ids);
        true
    }

    /// The mapper of these identifiers.
    fn rebuild_indices(ids: Vec<String>) -> (r: IdMapper)
        requires
            texts(ids@).no_duplicates(),
        ensures
            r@ == texts(ids@),
    {
        let ghost all = texts(ids@);
        let mut forward: StrMap<usize> = StrMap::new();
        let mut i: usize = 0;
        assert(all.take(0) =~= Seq::<Seq<char>>::empty());
        while i < ids.len()
            invariant
                i <= ids@.len(),
                all == texts(ids@),
                all.no_duplicates(),
                finds(forward.pairs(), all.take(i as int)),
            decreases ids.len() - i,
        {
            let ghost map = forward.pairs();
            forward.insert(ids[i].clone(), i);
            proof {
                let id = all[i as int];
                let before = all.take(i as int);
                let after = all.take(i + 1);
                assert(after =~= before.push(id));
                assert forall|k: Seq<char>|
                    match #[trigger] lookup(forward.pairs(), k) {
                        Some(j) => j < after.len() && after[j as int] == k,
                        None => !after.contains(k),
                    } by {
                    lemma_put_lookup(map, id, i, k);
                    if k != id {
                        match lookup(map, k) {
                            Some(j) => {
                                assert(after[j as int] == before[j as int]);
                            },
                            None => {
                                if after.contains(k) {
                                    let j = choose|j: int| 0 <= j < after.len() && after[j] == k;
                                    assert(before[j] == k);
                                }
                            },
                        }
                    }
                }
            }
            i += 1;
        }
        assert(all.take(i as int) =~= all);
        IdMapper { ids, forward }
    }
}

impl Default for IdMapper {
    fn default() -> (r: Self)
        ensures
            r@ == Seq::<Seq<char>>::empty(),
    {
        let ids: Vec<String> = Vec::new();
        assert(texts(ids@) =~= Seq::<Seq<char>>::empty());
        IdMapper { ids, forward: StrMap::new() }
    }
}

} // verus!
