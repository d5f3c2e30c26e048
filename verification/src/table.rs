//! A table of named objects (semaphores, message queues, shared-memory
//! regions): each name appears at most once.
use vstd::prelude::*;

verus! {

pub struct NameTable<T> {
    keys: Vec<String>,
    vals: Vec<T>,
}

impl<T> NameTable<T> {
    /// The names, in table order.
    pub closed spec fn names(&self) -> Seq<Seq<char>> {
        self.keys@.map_values(|s: String| s@)
    }

    /// The objects, in table order.
    pub closed spec fn values(&self) -> Seq<T> {
        self.vals@
    }

    /// Names and objects line up and no name appears twice.
    pub closed spec fn wf(&self) -> bool {
        &&& self.keys@.len() == self.vals@.len()
        &&& self.names().no_duplicates()
    }

    pub open spec fn len(&self) -> nat {
        self.values().len()
    }

    /// The table as a map from name to object.
    pub open spec fn view(&self) -> Map<Seq<char>, T> {
        Map::new(
            |k: Seq<char>| self.names().contains(k),
            |k: Seq<char>| self.values()[self.names().index_of(k)],
        )
    }

    pub fn new() -> (r: Self)
        ensures
            r.wf(),
            r@ == Map::<Seq<char>, T>::empty(),
            r.len() == 0,
    {
        let r = NameTable { keys: Vec::new(), vals: Vec::new() };
        assert(r.names() =~= Seq::<Seq<char>>::empty());
        assert(r@ =~= Map::<Seq<char>, T>::empty());
        r
    }

    /// How many names the table holds.
    pub fn count(&self) -> (r: usize)
        requires
            self.wf(),
        ensures
            r == self.len(),
            (r == 0) <==> (self@ == Map::<Seq<char>, T>::empty()),
    {
        proof {
            if self.len() == 0 {
                assert(self.names().len() == 0);
                assert(self@ =~= Map::<Seq<char>, T>::empty());
            } else {
                assert(self.names().len() > 0);
                assert(self.names().contains(self.names()[0]));
                assert(self@.contains_key(self.names()[0]));
            }
        }
        self.vals.len()
    }

    /// The slot holding `name`, if any.
    pub fn find(&self, name: &str) -> (r: Option<usize>)
        requires
            self.wf(),
        ensures
            r is None ==> !self@.contains_key(name@),
            r is Some ==> {
                &&& self@.contains_key(name@)
                &&& r->0 < self.len()
                &&& self.names()[r->0 as int] == name@
                &&& self@[name@] == self.values()[r->0 as int]
            },
    {
        let key: String = name.to_owned();
        let mut i: usize = 0;
        while i < self.keys.len()
            invariant
                self.wf(),
                key@ == name@,
                0 <= i <= self.keys@.len(),
                forall|j: int| 0 <= j < i ==> self.names()[j] != name@,
            decreases self.keys@.len() - i,
        {
            if self.keys[i] == key {
                proof {
                    assert(self.names()[i as int] == name@);
                    assert(self.names().contains(name@));
                    let k = self.names().index_of(name@);
                    assert(self.names()[k] == name@);
                }
                return Some(i);
            }
            i = i + 1;
        }
        proof {
            assert(!self.names().contains(name@));
        }
        None
    }

    /// The object in slot `i`.
    pub fn get(&self, i: usize) -> (r: &T)
        requires
            self.wf(),
            i < self.len(),
        ensures
            *r == self.values()[i as int],
    {
        &self.vals[i]
    }

    /// Mutable access to the object in slot `i`; the names stay as they are.
    pub fn get_mut(&mut self, i: usize) -> (r: &mut T)
        requires
            old(self).wf(),
            i < old(self).len(),
        ensures
            *r == old(self).values()[i as int],
            final(self).wf(),
            final(self).names() == old(self).names(),
            final(self).values() == old(self).values().update(i as int, *final(r)),
    {
        &mut self.vals[i]
    }

    /// Changing the object in one slot changes the map at that slot's name only.
    pub proof fn lemma_view_update(a: &Self, b: &Self, i: int)
        requires
            a.wf(),
            0 <= i < a.len(),
            b.names() == a.names(),
            b.values() == a.values().update(i, b.values()[i]),
        ensures
            b.wf(),
            b@ == a@.insert(a.names()[i], b.values()[i]),
    {
        let ns = a.names();
        assert(ns.index_of(ns[i]) == i) by {
            let j = ns.index_of(ns[i]);
            assert(ns[j] == ns[i]);
        }
        assert(b.keys@.len() == b.vals@.len()) by {
            assert(b.names().len() == b.keys@.len());
        }
        assert forall|k: Seq<char>| #[trigger] ns.contains(k) && k != ns[i] implies ns.index_of(k) != i by {
        }
        assert(b@ =~= a@.insert(ns[i], b.values()[i]));
    }

    /// Adds a new name; the caller has checked that it is not present.
    pub fn insert_new(&mut self, name: &str, v: T)
        requires
            old(self).wf(),
            !old(self)@.contains_key(name@),
        ensures
            final(self).wf(),
            final(self)@ == old(self)@.insert(name@, v),
            final(self).len() == old(self).len() + 1,
    {
        let key: String = name.to_owned();
        self.keys.push(key);
        self.vals.push(v);
        proof {
            let on = old(self).names();
            let nn = self.names();
            assert(nn =~= on.push(name@));
            assert(self.values() =~= old(self).values().push(v));
            assert(!on.contains(name@));
            assert(nn.no_duplicates());
            assert forall|k: Seq<char>| #[trigger] on.contains(k) implies nn.index_of(k) == on.index_of(k) by {
                let a = on.index_of(k);
                let b = nn.index_of(k);
                assert(nn[a] == k);
                assert(nn[b] == k);
            }
            assert(nn.index_of(name@) == on.len()) by {
                let b = nn.index_of(name@);
                assert(nn[on.len() as int] == name@);
            }
            assert forall|k: Seq<char>| #[trigger] self@.contains_key(k) implies old(self)@.insert(name@, v).contains_key(k)
                && self@[k] == old(self)@.insert(name@, v)[k] by {
                if k == name@ {
                } else {
                    assert(nn.contains(k));
                    let b = nn.index_of(k);
                    assert(b < on.len());
                    assert(on.contains(k));
                }
            }
            assert forall|k: Seq<char>| #[trigger] old(self)@.insert(name@, v).contains_key(k) implies self@.contains_key(k) by {
                if k != name@ {
                    let a = on.index_of(k);
                    assert(nn[a] == k);
                } else {
                    assert(nn[on.len() as int] == name@);
                }
            }
            assert(self@ =~= old(self)@.insert(name@, v));
        }
    }

    /// Removes slot `i`, returning its object.
    pub fn remove_at(&mut self, i: usize) -> (r: T)
        requires
            old(self).wf(),
            i < old(self).len(),
        ensures
            final(self).wf(),
            r == old(self).values()[i as int],
            final(self)@ == old(self)@.remove(old(self).names()[i as int]),
            final(self).len() == old(self).len() - 1,
    {
        let ghost on = self.names();
        let ghost ov = self.values();
        let ghost gone = on[i as int];
        self.keys.remove(i);
        let r = self.vals.remove(i);
        proof {
            let nn = self.names();
            assert(nn =~= on.remove(i as int));
            assert(self.values() =~= ov.remove(i as int));
            assert forall|k: Seq<char>| nn.contains(k) implies #[trigger] on.contains(k) && k != gone
                && self.values()[nn.index_of(k)] == ov[on.index_of(k)] by {
                let b = nn.index_of(k);
                if b < i {
                    assert(on[b] == k);
                } else {
                    assert(on[b + 1] == k);
                }
            }
            assert forall|k: Seq<char>| #[trigger] on.contains(k) && k != gone implies nn.contains(k) by {
                let a = on.index_of(k);
                if a < i {
                    assert(nn[a] == k);
                } else {
                    assert(a != i);
                    assert(nn[a - 1] == k);
                }
            }
            assert(self@ =~= old(self)@.remove(gone));
        }
        r
    }
}

} // verus!
