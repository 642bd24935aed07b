use vstd::prelude::*;

use crate::handle::{DrawError, Handle, LoadError};
use crate::path_index::PathIndex;
use crate::slot_table::{
    all_occupied, first_fit, is_first_free, lemma_first_fit, lemma_first_free_unique, placed,
    SlotTable,
};

verus! {

/// The abstract state of a cache: its slots and its path index.
pub struct CacheState<T> {
    pub slots: Seq<Option<T>>,
    pub paths: Map<Seq<char>, usize>,
}

impl<T> CacheState<T> {
    /// The slot `id` exists and holds an instance.
    pub open spec fn occupied(self, id: int) -> bool {
        0 <= id < self.slots.len() && self.slots[id] is Some
    }

    /// Every indexed path names an occupied slot, no two paths name the same
    /// slot, and every occupied slot is named by some path.
    pub open spec fn wf(self) -> bool {
        &&& forall|p: Seq<char>| #[trigger] self.paths.contains_key(p) ==> self.occupied(self.paths[p] as int)
        &&& forall|p: Seq<char>, q: Seq<char>|
            #[trigger] self.paths.contains_key(p) && #[trigger] self.paths.contains_key(q)
                && self.paths[p] == self.paths[q] ==> p == q
        &&& forall|i: int| #[trigger] self.occupied(i) ==> exists|p: Seq<char>|
            #[trigger] self.paths.contains_key(p) && self.paths[p] == i
    }

    /// The state after `x`, created from `path`, is stored at the first-fit slot.
    pub open spec fn loaded(self, path: Seq<char>, x: T) -> CacheState<T> {
        CacheState {
            slots: placed(self.slots, first_fit(self.slots), x),
            paths: self.paths.insert(path, first_fit(self.slots) as usize),
        }
    }

    /// The state after slot `id` is emptied and the path naming it is dropped.
    pub open spec fn unloaded(self, id: int) -> CacheState<T> {
        CacheState {
            slots: if 0 <= id < self.slots.len() {
                self.slots.update(id, None)
            } else {
                self.slots
            },
            paths: Map::new(
                |p: Seq<char>| self.paths.contains_key(p) && self.paths[p] != id,
                |p: Seq<char>| self.paths[p],
            ),
        }
    }
}

/// Loading a path that is not yet indexed keeps the state well formed.
pub proof fn lemma_loaded_wf<T>(c: CacheState<T>, path: Seq<char>, x: T)
    requires
        c.wf(),
        !c.paths.contains_key(path),
        c.slots.len() < usize::MAX,
    ensures
        c.loaded(path, x).wf(),
        c.loaded(path, x).occupied(first_fit(c.slots)),
{
    lemma_first_fit(c.slots);
    let f = first_fit(c.slots);
    let n = c.loaded(path, x);
    assert(f == c.slots.len() || c.slots[f] is None);
    assert forall|i: int| 0 <= i < c.slots.len() && i != f implies #[trigger] n.slots[i] == c.slots[i] by {}
    assert(n.slots.len() >= c.slots.len());
    assert(n.slots[f] == Some(x));
    assert forall|p: Seq<char>| #[trigger] n.paths.contains_key(p) implies n.occupied(n.paths[p] as int) by {
        if p != path {
            assert(c.paths.contains_key(p));
            assert(c.occupied(c.paths[p] as int));
        }
    }
    assert forall|i: int| #[trigger] n.occupied(i) implies exists|p: Seq<char>|
        #[trigger] n.paths.contains_key(p) && n.paths[p] == i by {
        if i == f {
            assert(n.paths.contains_key(path));
        } else {
            assert(i < c.slots.len());
            assert(n.slots[i] == c.slots[i]);
            assert(c.occupied(i));
            let p = choose|p: Seq<char>| #[trigger] c.paths.contains_key(p) && c.paths[p] == i;
            assert(n.paths.contains_key(p));
        }
    }
    assert forall|p: Seq<char>, q: Seq<char>|
        #[trigger] n.paths.contains_key(p) && #[trigger] n.paths.contains_key(q)
            && n.paths[p] == n.paths[q] implies p == q by {
        if p != path && q != path {
            assert(c.paths.contains_key(p) && c.paths.contains_key(q));
        } else if p != path {
            assert(c.paths.contains_key(p));
            assert(n.paths[p] == c.paths[p]);
            assert(c.occupied(c.paths[p] as int));
        } else if q != path {
            assert(c.paths.contains_key(q));
            assert(n.paths[q] == c.paths[q]);
            assert(c.occupied(c.paths[q] as int));
        }
    }
}

/// Unloading any slot keeps the state well formed.
pub proof fn lemma_unloaded_wf<T>(c: CacheState<T>, id: int)
    requires
        c.wf(),
    ensures
        c.unloaded(id).wf(),
        !c.unloaded(id).occupied(id),
{
    let n = c.unloaded(id);
    assert forall|p: Seq<char>| #[trigger] n.paths.contains_key(p) implies n.occupied(n.paths[p] as int) by {
        assert(c.paths.contains_key(p));
        assert(c.occupied(c.paths[p] as int));
    }
    assert forall|i: int| #[trigger] n.occupied(i) implies exists|p: Seq<char>|
        #[trigger] n.paths.contains_key(p) && n.paths[p] == i by {
        assert(c.occupied(i));
        let p = choose|p: Seq<char>| #[trigger] c.paths.contains_key(p) && c.paths[p] == i;
        assert(n.paths.contains_key(p));
    }
    assert forall|p: Seq<char>, q: Seq<char>|
        #[trigger] n.paths.contains_key(p) && #[trigger] n.paths.contains_key(q)
            && n.paths[p] == n.paths[q] implies p == q by {
        assert(c.paths.contains_key(p) && c.paths.contains_key(q));
    }
}

/// Unloading a slot that holds nothing changes nothing.
pub proof fn lemma_unloaded_empty<T>(c: CacheState<T>, id: int)
    requires
        c.wf(),
        !c.occupied(id),
    ensures
        c.unloaded(id) == c,
{
    let n = c.unloaded(id);
    assert forall|p: Seq<char>| #[trigger] c.paths.contains_key(p) implies c.paths[p] != id by {
        assert(c.occupied(c.paths[p] as int));
    }
    assert(n.paths =~= c.paths);
    assert(n.slots =~= c.slots);
}

/// Loading a path that is already cached finds the slot its first load
/// filled: the second load is a hit, returns the same handle, and creates
/// nothing.
pub proof fn lemma_load_dedup<T>(c: CacheState<T>, path: Seq<char>, x: T)
    requires
        c.wf(),
        !c.paths.contains_key(path),
        c.slots.len() < usize::MAX,
    ensures
        c.loaded(path, x).paths.contains_key(path),
        c.loaded(path, x).paths[path] == first_fit(c.slots),
{
    lemma_first_fit(c.slots);
}

/// Unloading a freshly loaded resource frees its slot for the next load:
/// a different, uncached path loaded next lands in the same slot.
pub proof fn lemma_reuse_after_unload<T>(c: CacheState<T>, a: Seq<char>, b: Seq<char>, x: T)
    requires
        c.wf(),
        !c.paths.contains_key(a),
        !c.paths.contains_key(b),
        a != b,
        c.slots.len() < usize::MAX,
    ensures
        !c.loaded(a, x).unloaded(first_fit(c.slots)).paths.contains_key(b),
        first_fit(c.loaded(a, x).unloaded(first_fit(c.slots)).slots) == first_fit(c.slots),
{
    lemma_first_fit(c.slots);
    let f = first_fit(c.slots);
    let s2 = c.loaded(a, x).unloaded(f).slots;
    if f < c.slots.len() {
        assert(s2 =~= c.slots);
    } else {
        assert(s2 =~= c.slots.push(None));
        assert(is_first_free(s2, f));
        lemma_first_fit(s2);
        assert(!all_occupied(s2));
        lemma_first_free_unique(s2, f, first_fit(s2));
    }
}

/// After a slot is unloaded it holds nothing, so drawing through any handle
/// to it reports a missing resource.
pub proof fn lemma_unloaded_is_missing<T>(c: CacheState<T>, id: int)
    ensures
        !c.unloaded(id).occupied(id),
{
}

/// Unloading the same slot a second time changes nothing and frees nothing:
/// no other slot and no other path is touched.
pub proof fn lemma_unload_twice<T>(c: CacheState<T>, id: int)
    ensures
        c.unloaded(id).unloaded(id) == c.unloaded(id),
        !c.unloaded(id).occupied(id),
        forall|j: int| 0 <= j < c.slots.len() && j != id ==> #[trigger] c.unloaded(id).slots[j] == c.slots[j],
        forall|p: Seq<char>| #[trigger] c.paths.contains_key(p) && c.paths[p] != id
            ==> c.unloaded(id).paths.contains_key(p) && c.unloaded(id).paths[p] == c.paths[p],
{
    let once = c.unloaded(id);
    assert(once.unloaded(id).slots =~= once.slots);
    assert(once.unloaded(id).paths =~= once.paths);
}

/// A cache of resources of one kind, keyed by path and handed out as
/// [`Handle`]s. The cache alone owns the instances.
pub struct ResourceCache<T> {
    slots: SlotTable<T>,
    paths: PathIndex,
}

impl<T> View for ResourceCache<T> {
    type V = CacheState<T>;

    closed spec fn view(&self) -> CacheState<T> {
        CacheState { slots: self.slots@, paths: self.paths@ }
    }
}

impl<T> ResourceCache<T> {
    /// The path index is well formed and agrees with the slots.
    pub closed spec fn wf(&self) -> bool {
        self.paths.wf() && self@.wf()
    }

    /// An empty cache.
    pub fn new() -> (r: Self)
        ensures
            r.wf(),
            r@.slots == Seq::<Option<T>>::empty(),
            r@.paths == Map::<Seq<char>, usize>::empty(),
    {
        ResourceCache { slots: SlotTable::new(), paths: PathIndex::new() }
    }

    /// The number of slots, empty ones included.
    pub fn slot_count(&self) -> (r: usize)
        ensures
            r == self@.slots.len(),
    {
        self.slots.len()
    }

    /// Whether `handle` names a slot that holds a resource.
    pub fn is_loaded(&self, handle: Handle) -> (r: bool)
        ensures
            r == self@.occupied(handle.id as int),
    {
        self.slots.get(handle.id).is_some()
    }

    /// The handle of the resource loaded from `path`, if it is cached.
    pub fn handle_of(&self, path: &str) -> (r: Option<Handle>)
        requires
            self.wf(),
        ensures
            match r {
                Some(h) => self@.paths.contains_key(path@) && h.id == self@.paths[path@],
                None => !self@.paths.contains_key(path@),
            },
    {
        match self.paths.lookup(path) {
            Some(i) => Some(Handle { id: i }),
            None => None,
        }
    }

    /// Returns the handle of the resource loaded from `path`, creating it
    /// with `create` only when the path is not cached yet.
    ///
    /// A cached path is returned as it is: `create` is not called, and the
    /// parameters it would apply are not applied again. Otherwise the new
    /// instance goes to the lowest empty slot, or to a new slot at the end.
    /// When `create` fails the cache is left exactly as it was.
    pub fn load<E, F: FnOnce(&str) -> Result<T, E>>(
        &mut self,
        path: &str,
        create: F,
    ) -> (r: Result<Handle, LoadError<E>>)
        requires
            old(self).wf(),
            old(self)@.slots.len() < usize::MAX,
            create.requires((path,)),
        ensures
            final(self).wf(),
            old(self)@.paths.contains_key(path@) ==> r == Ok::<Handle, LoadError<E>>(
                Handle { id: old(self)@.paths[path@] },
            ) && final(self)@ == old(self)@,
            !old(self)@.paths.contains_key(path@) ==> match r {
                Ok(h) => {
                    &&& h.id == first_fit(old(self)@.slots)
                    &&& final(self)@.slots[h.id as int] is Some
                    &&& create.ensures((path,), Ok(final(self)@.slots[h.id as int]->0))
                    &&& final(self)@ == old(self)@.loaded(path@, final(self)@.slots[h.id as int]->0)
                },
                Err(LoadError::CreationFailed(e)) => {
                    &&& create.ensures((path,), Err(e))
                    &&& final(self)@ == old(self)@
                },
            },
    {
        match self.paths.lookup(path) {
            Some(i) => Ok(Handle { id: i }),
            None => {
                let index = self.slots.find_free_slot();
                proof {
                    lemma_first_fit(self.slots@);
                    if let Some(i) = index {
                        lemma_first_free_unique(self.slots@, i as int, first_fit(self.slots@));
                    }
                }
                match create(path) {
                    Err(e) => Err(LoadError::CreationFailed(e)),
                    Ok(x) => {
                        let ghost x_ghost = x;
                        let i = self.slots.place(index, x);
                        self.paths.insert(path, i);
                        proof {
                            lemma_loaded_wf(old(self)@, path@, x_ghost);
                            assert(self@ == old(self)@.loaded(path@, x_ghost));
                        }
                        Ok(Handle { id: i })
                    },
                }
            },
        }
    }

    /// Frees the resource that `handle` names and drops its path from the
    /// index; returns whether there was one to free.
    ///
    /// A handle whose resource is already gone is no error: nothing changes
    /// and the result is `false`, so unloading twice is safe.
    pub fn unload(&mut self, handle: Handle) -> (r: bool)
        requires
            old(self).wf(),
        ensures
            final(self).wf(),
            r == old(self)@.occupied(handle.id as int),
            final(self)@ == old(self)@.unloaded(handle.id as int),
            !r ==> final(self)@ == old(self)@,
    {
        proof {
            lemma_unloaded_wf(self@, handle.id as int);
        }
        match self.paths.path_of(handle.id) {
            None => {
                proof {
                    lemma_unloaded_empty(self@, handle.id as int);
                }
                false
            },
            Some(path) => {
                let ghost before = self@;
                self.paths.remove(path.as_str());
                self.slots.clear(handle.id);
                proof {
                    assert(before.occupied(before.paths[path@] as int));
                    assert(self@.paths =~= before.unloaded(handle.id as int).paths);
                    assert(self@.slots =~= before.unloaded(handle.id as int).slots);
                }
                true
            },
        }
    }

    /// Hands the resource that `handle` names to `blit`.
    ///
    /// The slot is checked on every call: an empty one gives
    /// `MissingResource` and `blit` is not called; a failure of `blit` comes
    /// back as `BackendFailure`.
    pub fn draw<E, F: FnOnce(&T) -> Result<(), E>>(
        &self,
        handle: Handle,
        blit: F,
    ) -> (r: Result<(), DrawError<E>>)
        requires
            self.wf(),
            self@.occupied(handle.id as int) ==> blit.requires((&self@.slots[handle.id as int]->0,)),
        ensures
            !self@.occupied(handle.id as int) ==> r is Err && r->Err_0 is MissingResource,
            self@.occupied(handle.id as int) ==> match r {
                Ok(_) => blit.ensures((&self@.slots[handle.id as int]->0,), Ok(())),
                Err(d) => d is BackendFailure && blit.ensures(
                    (&self@.slots[handle.id as int]->0,),
                    Err(d->BackendFailure_0),
                ),
            },
    {
        match self.slots.get(handle.id) {
            None => Err(DrawError::MissingResource),
            Some(x) => {
                let res = blit(x);
                match res {
                    Ok(u) => {
                        assert(res == Ok::<(), E>(()));
                        Ok(u)
                    },
                    Err(e) => Err(DrawError::BackendFailure(e)),
                }
            },
        }
    }
}

} // verus!
