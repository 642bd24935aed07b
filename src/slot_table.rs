use vstd::prelude::*;

verus! {

/// Every entry of `s` holds an instance.
pub open spec fn all_occupied<T>(s: Seq<Option<T>>) -> bool {
    forall|j: int| 0 <= j < s.len() ==> (#[trigger] s[j]) is Some
}

/// `i` is the lowest empty entry of `s`.
pub open spec fn is_first_free<T>(s: Seq<Option<T>>, i: int) -> bool {
    &&& 0 <= i < s.len()
    &&& s[i] is None
    &&& forall|j: int| 0 <= j < i ==> (#[trigger] s[j]) is Some
}

/// The slot that first-fit placement uses: the lowest empty entry, or one
/// past the end when every entry is occupied.
pub open spec fn first_fit<T>(s: Seq<Option<T>>) -> int {
    if exists|i: int| is_first_free(s, i) {
        choose|i: int| is_first_free(s, i)
    } else {
        s.len() as int
    }
}

/// `s` with `x` stored at `i`: an overwrite inside the table, a push at its end.
pub open spec fn placed<T>(s: Seq<Option<T>>, i: int, x: T) -> Seq<Option<T>> {
    if i < s.len() {
        s.update(i, Some(x))
    } else {
        s.push(Some(x))
    }
}

/// Two lowest empty entries are the same entry.
pub proof fn lemma_first_free_unique<T>(s: Seq<Option<T>>, i: int, k: int)
    requires
        is_first_free(s, i),
        is_first_free(s, k),
    ensures
        i == k,
{
    if i < k {
        assert(s[i] is Some);
    } else if k < i {
        assert(s[k] is Some);
    }
}

/// The first-fit slot is the lowest empty entry when there is one, and the
/// end of the table when every entry is occupied.
pub proof fn lemma_first_fit<T>(s: Seq<Option<T>>)
    ensures
        all_occupied(s) ==> first_fit(s) == s.len(),
        !all_occupied(s) ==> is_first_free(s, first_fit(s)),
        0 <= first_fit(s) <= s.len(),
{
    if exists|i: int| is_first_free(s, i) {
        let i = choose|i: int| is_first_free(s, i);
        assert(s[i] is None);
    } else if !all_occupied(s) {
        let j = choose|j: int| 0 <= j < s.len() && !(s[j] is Some);
        lemma_lowest_empty(s, j);
    }
}

/// An empty entry at `j` implies a lowest empty entry at or below `j`.
proof fn lemma_lowest_empty<T>(s: Seq<Option<T>>, j: int)
    requires
        0 <= j < s.len(),
        s[j] is None,
    ensures
        exists|i: int| is_first_free(s, i),
    decreases j,
{
    if forall|k: int| 0 <= k < j ==> (#[trigger] s[k]) is Some {
        assert(is_first_free(s, j));
    } else {
        let k = choose|k: int| 0 <= k < j && !(#[trigger] s[k] is Some);
        lemma_lowest_empty(s, k);
    }
}

/// The ordered sequence of optional instances behind a cache. An entry's
/// index never changes while it holds an instance; emptied entries stay in
/// place and are reused, lowest first.
pub struct SlotTable<T> {
    entries: Vec<Option<T>>,
}

impl<T> View for SlotTable<T> {
    type V = Seq<Option<T>>;

    closed spec fn view(&self) -> Seq<Option<T>> {
        self.entries@
    }
}

impl<T> SlotTable<T> {
    /// A table with no entries.
    pub fn new() -> (r: Self)
        ensures
            r@ == Seq::<Option<T>>::empty(),
    {
        SlotTable { entries: Vec::new() }
    }

    /// The number of entries, empty ones included.
    pub fn len(&self) -> (r: usize)
        ensures
            r == self@.len(),
    {
        self.entries.len()
    }

    /// The lowest empty entry, or `None` when every entry is occupied and a
    /// new one must be appended.
    pub fn find_free_slot(&self) -> (r: Option<usize>)
        ensures
            match r {
                Some(i) => is_first_free(self@, i as int),
                None => all_occupied(self@),
            },
    {
        let mut i: usize = 0;
        while i < self.entries.len()
            invariant
                i <= self@.len(),
                forall|j: int| 0 <= j < i ==> (#[trigger] self@[j]) is Some,
            decreases self@.len() - i,
        {
            if self.entries[i].is_none() {
                return Some(i);
            }
            i = i + 1;
        }
        None
    }

    /// Stores `instance` at the empty entry `index`, or appends it when
    /// `index` is `None`; returns the index it now stands at.
    pub fn place(&mut self, index: Option<usize>, instance: T) -> (r: usize)
        requires
            match index {
                Some(i) => i < old(self)@.len() && old(self)@[i as int] is None,
                None => old(self)@.len() < usize::MAX,
            },
        ensures
            match index {
                Some(i) => r == i,
                None => r == old(self)@.len(),
            },
            final(self)@ == placed(old(self)@, r as int, instance),
    {
        match index {
            Some(i) => {
                self.entries.set(i, Some(instance));
                i
            },
            None => {
                self.entries.push(Some(instance));
                self.entries.len() - 1
            },
        }
    }

    /// The instance at `index`; `None` both for an empty entry and for an
    /// index past the end.
    pub fn get(&self, index: usize) -> (r: Option<&T>)
        ensures
            r is Some <==> (index < self@.len() && self@[index as int] is Some),
            r is Some ==> self@[index as int] == Some(*r->0),
    {
        if index < self.entries.len() {
            self.entries[index].as_ref()
        } else {
            None
        }
    }

    /// Empties the entry at `index`. The table never shrinks, so the indices
    /// of the other entries stay as they are; an index past the end changes
    /// nothing.
    pub fn clear(&mut self, index: usize)
        ensures
            index < old(self)@.len() ==> final(self)@ == old(self)@.update(index as int, None),
            index >= old(self)@.len() ==> final(self)@ == old(self)@,
    {
        if index < self.entries.len() {
            self.entries.set(index, None);
        }
    }
}

} // verus!
