//! The index from property names to the stores that hold their values, with
//! the queue of names that were asked for before their store existed.
use vstd::prelude::*;

verus! {

/// The identity of a property store: its position among the stores.
#[derive(Clone, Copy, Debug, PartialEq, Eq)]
pub struct StoreId {
    pub index: usize,
}

/// `p` with `n` appended, unless `n` is already queued.
pub open spec fn enqueue(p: Seq<Seq<char>>, n: Seq<char>) -> Seq<Seq<char>> {
    if p.contains(n) {
        p
    } else {
        p.push(n)
    }
}

/// The views of a sequence of strings.
pub open spec fn views_of(v: Seq<String>) -> Seq<Seq<char>> {
    v.map_values(|s: String| s@)
}

/// The name index: which store each bound name has, and which names wait
/// for one. A name is bound at most once and keeps its store from then on.
pub struct PropertyRegistry {
    names: Vec<String>,
    ids: Vec<StoreId>,
    pending: Vec<String>,
    bound: Ghost<Map<Seq<char>, StoreId>>,
}

impl PropertyRegistry {
    /// The permanent mapping from each bound name to its store.
    pub closed spec fn bound(&self) -> Map<Seq<char>, StoreId> {
        self.bound@
    }

    /// The names waiting for a store, in the order they were first asked for.
    pub closed spec fn pending(&self) -> Seq<Seq<char>> {
        views_of(self.pending@)
    }

    /// The parallel name and id lists agree with the mapping; the queue holds
    /// each name once and no bound name.
    pub closed spec fn wf(&self) -> bool {
        &&& self.names@.len() == self.ids@.len()
        &&& forall|i: int|
            0 <= i < self.names@.len() ==> {
                &&& #[trigger] self.bound@.contains_key(self.names@[i]@)
                &&& self.bound@[self.names@[i]@] == self.ids@[i]
            }
        &&& forall|k: Seq<char>|
            #[trigger] self.bound@.contains_key(k) ==> exists|i: int|
                0 <= i < self.names@.len() && self.names@[i]@ == k
        &&& self.pending().no_duplicates()
        &&& forall|i: int|
            0 <= i < self.pending@.len() ==> !self.bound@.contains_key(#[trigger] self.pending@[i]@)
    }

    /// What a well-formed registry keeps of its queue: each name once, and
    /// none that is bound already.
    pub proof fn lemma_pending_unbound(&self)
        requires
            self.wf(),
        ensures
            self.pending().no_duplicates(),
            forall|i: int|
                0 <= i < self.pending().len() ==> !self.bound().contains_key(
                    #[trigger] self.pending()[i],
                ),
    {
        assert forall|i: int| 0 <= i < self.pending().len() implies !self.bound().contains_key(
            #[trigger] self.pending()[i],
        ) by {
            assert(self.pending()[i] == self.pending@[i]@);
        }
    }

    /// An empty registry: no name bound, none pending.
    pub fn new() -> (r: PropertyRegistry)
        ensures
            r.wf(),
            r.bound() == Map::<Seq<char>, StoreId>::empty(),
            r.pending() == Seq::<Seq<char>>::empty(),
    {
        let r = PropertyRegistry {
            names: Vec::new(),
            ids: Vec::new(),
            pending: Vec::new(),
            bound: Ghost(Map::empty()),
        };
        assert(r.pending() =~= Seq::<Seq<char>>::empty());
        r
    }

    /// The position of `name` among the bound names, if it is bound.
    fn find(&self, name: &String) -> (r: Option<usize>)
        requires
            self.wf(),
        ensures
            match r {
                Some(i) => i < self.names@.len() && self.names@[i as int]@ == name@,
                None => !self.bound().contains_key(name@),
            },
    {
        let mut i: usize = 0;
        while i < self.names.len()
            invariant
                self.wf(),
                i <= self.names@.len(),
                forall|j: int| 0 <= j < i ==> self.names@[j]@ != name@,
            decreases self.names@.len() - i,
        {
            if self.names[i] == *name {
                return Some(i);
            }
            i += 1;
        }
        None
    }

    /// The position of `name` in the pending queue, if it is queued.
    fn find_pending(&self, name: &String) -> (r: Option<usize>)
        requires
            self.wf(),
        ensures
            match r {
                Some(i) => i < self.pending@.len() && self.pending()[i as int] == name@,
                None => !self.pending().contains(name@),
            },
    {
        let mut i: usize = 0;
        while i < self.pending.len()
            invariant
                self.wf(),
                i <= self.pending@.len(),
                forall|j: int| 0 <= j < i ==> self.pending()[j] != name@,
            decreases self.pending@.len() - i,
        {
            if self.pending[i] == *name {
                return Some(i);
            }
            i += 1;
        }
        None
    }

    /// The store bound to `name`, without queueing anything.
    pub fn lookup(&self, name: &str) -> (r: Option<StoreId>)
        requires
            self.wf(),
        ensures
            r == (if self.bound().contains_key(name@) {
                Some(self.bound()[name@])
            } else {
                None
            }),
    {
        let key = name.to_owned();
        match self.find(&key) {
            Some(i) => Some(self.ids[i]),
            None => None,
        }
    }

    /// The store bound to `name`; when there is none yet, `name` is queued
    /// for creation (once, however often it is asked for) and `None` comes
    /// back.
    pub fn get(&mut self, name: &str) -> (r: Option<StoreId>)
        requires
            old(self).wf(),
        ensures
            final(self).wf(),
            final(self).bound() == old(self).bound(),
            old(self).bound().contains_key(name@) ==> {
                &&& r == Some(old(self).bound()[name@])
                &&& final(self).pending() == old(self).pending()
            },
            !old(self).bound().contains_key(name@) ==> {
                &&& r.is_none()
                &&& final(self).pending() == enqueue(old(self).pending(), name@)
            },
    {
        let key = name.to_owned();
        match self.find(&key) {
            Some(i) => Some(self.ids[i]),
            None => {
                self.enqueue_unbound(key);
                None
            },
        }
    }

    /// Queues `key`, known to be unbound, unless it is queued already.
    fn enqueue_unbound(&mut self, key: String)
        requires
            old(self).wf(),
            !old(self).bound().contains_key(key@),
        ensures
            final(self).wf(),
            final(self).bound() == old(self).bound(),
            final(self).pending() == enqueue(old(self).pending(), key@),
    {
        if self.find_pending(&key).is_none() {
            let ghost k = key@;
            self.pending.push(key);
            assert(self.pending() =~= old(self).pending().push(k));
            assert forall|i: int| 0 <= i < self.pending@.len() implies !self.bound@.contains_key(
                #[trigger] self.pending@[i]@,
            ) by {
                if i < old(self).pending@.len() {
                    assert(old(self).pending@[i]@ == old(self).pending()[i]);
                }
            }
        }
    }

    /// Installs the permanent mapping from `name` to `id` and takes `name`
    /// off the pending queue. A name that is bound already keeps its store:
    /// the call is ignored and `false` comes back.
    pub fn bind(&mut self, name: String, id: StoreId) -> (r: bool)
        requires
            old(self).wf(),
        ensures
            final(self).wf(),
            r == !old(self).bound().contains_key(name@),
            !r ==> final(self).bound() == old(self).bound() && final(self).pending()
                == old(self).pending(),
            r ==> final(self).bound() == old(self).bound().insert(name@, id),
            r ==> final(self).pending() == old(self).pending().remove_value(name@),
    {
        if self.find(&name).is_some() {
            return false;
        }
        let ghost n = name@;
        match self.find_pending(&name) {
            Some(i) => {
                let ghost before = self.pending();
                proof {
                    lemma_first_index_no_dups(before, i as int, n);
                }
                self.pending.remove(i);
                assert(self.pending() =~= before.remove(i as int));
                proof {
                    lemma_remove_keeps_no_dups(before, i as int);
                }
                assert forall|j: int| 0 <= j < self.pending@.len() implies #[trigger] self.pending@[j]@
                    != n by {
                    assert(self.pending()[j] == self.pending@[j]@);
                    if j < i {
                        assert(before[j] == self.pending()[j]);
                    } else {
                        assert(before[j + 1] == self.pending()[j]);
                    }
                }
            },
            None => {
                assert(old(self).pending().remove_value(n) == old(self).pending()) by {
                    old(self).pending().index_of_first_ensures(n);
                }
            },
        }
        self.names.push(name);
        self.ids.push(id);
        self.bound = Ghost(self.bound@.insert(n, id));
        assert forall|k: Seq<char>| #[trigger] self.bound@.contains_key(k) implies exists|i: int|
            0 <= i < self.names@.len() && self.names@[i]@ == k by {
            if k == n {
                assert(self.names@[self.names@.len() - 1]@ == k);
            } else {
                let i = choose|i: int| 0 <= i < old(self).names@.len() && old(self).names@[i]@ == k;
                assert(self.names@[i]@ == k);
            }
        }
        assert forall|i: int| 0 <= i < self.pending@.len() implies !self.bound@.contains_key(
            #[trigger] self.pending@[i]@,
        ) by {
            assert(self.pending()[i] == self.pending@[i]@);
        }
        true
    }

    /// Hands over every pending name, in queue order, and leaves the queue
    /// empty.
    pub fn take_pending(&mut self) -> (r: Vec<String>)
        requires
            old(self).wf(),
        ensures
            final(self).wf(),
            final(self).bound() == old(self).bound(),
            final(self).pending() == Seq::<Seq<char>>::empty(),
            views_of(r@) == old(self).pending(),
    {
        let mut r: Vec<String> = Vec::new();
        std::mem::swap(&mut r, &mut self.pending);
        assert(self.pending() =~= Seq::<Seq<char>>::empty());
        r
    }
}

impl Default for PropertyRegistry {
    fn default() -> (r: PropertyRegistry)
        ensures
            r.wf(),
            r.bound() == Map::<Seq<char>, StoreId>::empty(),
            r.pending() == Seq::<Seq<char>>::empty(),
    {
        PropertyRegistry::new()
    }
}

/// In a sequence without duplicates, the first index of an element is its
/// only index.
proof fn lemma_first_index_no_dups(s: Seq<Seq<char>>, i: int, n: Seq<char>)
    requires
        s.no_duplicates(),
        0 <= i < s.len(),
        s[i] == n,
    ensures
        s.index_of_first(n) == Some(i),
        s.remove_value(n) == s.remove(i),
{
    s.index_of_first_ensures(n);
}

/// Removing an element keeps a sequence free of duplicates.
proof fn lemma_remove_keeps_no_dups(s: Seq<Seq<char>>, i: int)
    requires
        s.no_duplicates(),
        0 <= i < s.len(),
    ensures
        s.remove(i).no_duplicates(),
{
    let t = s.remove(i);
    assert forall|a: int, b: int| 0 <= a < t.len() && 0 <= b < t.len() && a != b implies t[a]
        != t[b] by {
        let sa = if a < i { a } else { a + 1 };
        let sb = if b < i { b } else { b + 1 };
        assert(t[a] == s[sa]);
        assert(t[b] == s[sb]);
    }
}

} // verus!
