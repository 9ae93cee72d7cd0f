//! The filter registry: a store mapping hook names to ordered sequences of
//! filter entries, with registration, priority-ordered dispatch, and removal.
//!
//! A hook's sequence is kept sorted ascending by priority at all times, with
//! ties broken by registration order: of two entries with equal priority the
//! one registered first (the one with the smaller id) stands earlier. Ids are
//! handed out by a monotone counter that starts at 1, so an id is never zero
//! and never reused.

use vstd::prelude::*;
use crate::callback::FilterCallback;
use crate::value::DispatchError;
use crate::value::FilterValue;
use crate::value::ValueModel;
use crate::value::kind_of;

verus! {

/// One registered filter: its id, its priority, and the callback.
pub struct FilterEntry<C> {
    pub id: u64,
    pub priority: i32,
    pub callback: C,
}

/// A named hook and its ordered sequence of filter entries.
pub struct HookSlot<C> {
    pub name: String,
    pub filters: Vec<FilterEntry<C>>,
}

/// The registry: hook names mapped to their filter sequences, plus the id
/// counter. Hooks are looked up by name; names are pairwise distinct.
pub struct FilterRegistry<C> {
    hooks: Vec<HookSlot<C>>,
    next_id: u64,
}

/// The entries of the first hook in `s` named `name`, or the empty sequence
/// if no hook carries that name.
pub open spec fn lookup_hook<C>(s: Seq<HookSlot<C>>, name: Seq<char>) -> Seq<FilterEntry<C>>
    decreases s.len(),
{
    if s.len() == 0 {
        Seq::empty()
    } else if s[0].name@ == name {
        s[0].filters@
    } else {
        lookup_hook(s.drop_first(), name)
    }
}

/// Whether some hook in `s` carries `name`.
pub open spec fn contains_hook<C>(s: Seq<HookSlot<C>>, name: Seq<char>) -> bool
    decreases s.len(),
{
    if s.len() == 0 {
        false
    } else if s[0].name@ == name {
        true
    } else {
        contains_hook(s.drop_first(), name)
    }
}

/// Dispatch order: `a` runs before `b` when its priority is lower, or at
/// equal priority when it was registered earlier (smaller id).
pub open spec fn entry_before<C>(a: FilterEntry<C>, b: FilterEntry<C>) -> bool {
    a.priority < b.priority || (a.priority == b.priority && a.id < b.id)
}

/// Well-formedness of one hook's sequence: every id is nonzero and below the
/// registry's counter, ids are pairwise distinct, and the sequence is sorted
/// by `entry_before`.
pub open spec fn entries_wf<C>(s: Seq<FilterEntry<C>>, bound: u64) -> bool {
    &&& (forall|i: int| 0 <= i < s.len() ==> 1 <= (#[trigger] s[i]).id < bound)
    &&& (forall|i: int, j: int|
        #![trigger s[i], s[j]]
        0 <= i < j < s.len() ==> entry_before(s[i], s[j]) && s[i].id != s[j].id)
}

/// The sequence with every entry carrying `id` taken out, the others kept in
/// their relative order. Ids are unique in a well-formed hook, so at most one
/// entry goes.
pub open spec fn without_id<C>(s: Seq<FilterEntry<C>>, id: u64) -> Seq<FilterEntry<C>> {
    s.filter(|e: FilterEntry<C>| e.id != id)
}

/// The position at which an entry of the given priority is inserted: directly
/// after every entry whose priority is less than or equal to it, that is, at
/// the first index holding a strictly greater priority.
pub open spec fn insert_pos<C>(s: Seq<FilterEntry<C>>, priority: i32) -> int
    decreases s.len(),
{
    if s.len() == 0 {
        0
    } else if s[0].priority <= priority {
        1 + insert_pos(s.drop_first(), priority)
    } else {
        0
    }
}

/// The result of threading a value through the entries' callbacks in order:
/// the output of each callback becomes the input of the next.
pub open spec fn chain<C: FilterCallback>(s: Seq<FilterEntry<C>>, v: ValueModel) -> ValueModel
    decreases s.len(),
{
    if s.len() == 0 {
        v
    } else {
        chain(s.drop_first(), s[0].callback.transform(v))
    }
}

impl<C> FilterRegistry<C> {
    /// The filter sequence registered under `name`; empty if the hook does
    /// not exist.
    pub closed spec fn entries(self, name: Seq<char>) -> Seq<FilterEntry<C>> {
        lookup_hook(self.hooks@, name)
    }

    /// Whether a hook named `name` exists in the registry.
    pub closed spec fn has_hook(self, name: Seq<char>) -> bool {
        contains_hook(self.hooks@, name)
    }

    /// The id the next registration will receive.
    pub closed spec fn fresh_id(self) -> u64 {
        self.next_id
    }

    /// The registry invariant: the counter starts at 1 and only grows, hook
    /// names are pairwise distinct, each hook's sequence is well formed with
    /// every id below the counter, and no id occurs in two hooks.
    pub closed spec fn wf(self) -> bool {
        &&& 1 <= self.next_id
        &&& (forall|k1: int, k2: int|
            #![trigger self.hooks@[k1], self.hooks@[k2]]
            0 <= k1 < k2 < self.hooks@.len() ==> self.hooks@[k1].name@ != self.hooks@[k2].name@)
        &&& (forall|k: int|
            0 <= k < self.hooks@.len() ==> entries_wf(
                (#[trigger] self.hooks@[k]).filters@,
                self.next_id,
            ))
        &&& (forall|k1: int, i1: int, k2: int, i2: int|
            #![trigger self.hooks@[k1].filters@[i1], self.hooks@[k2].filters@[i2]]
            0 <= k1 < k2 < self.hooks@.len() && 0 <= i1 < self.hooks@[k1].filters@.len() && 0
                <= i2 < self.hooks@[k2].filters@.len() ==> self.hooks@[k1].filters@[i1].id
                != self.hooks@[k2].filters@[i2].id)
    }

    /// An empty registry, with the id counter at its starting value.
    pub fn new() -> (r: FilterRegistry<C>)
        ensures
            r.wf(),
            r.fresh_id() == 1,
            forall|h: Seq<char>| !(#[trigger] r.has_hook(h)),
            forall|h: Seq<char>| #[trigger] r.entries(h) == Seq::<FilterEntry<C>>::empty(),
    {
        FilterRegistry { hooks: Vec::new(), next_id: 1 }
    }

    /// Registers a callback on the hook named `hook` and returns the new
    /// entry's id. The entry is numbered with the next value of the counter
    /// and inserted directly after every entry whose priority is less than or
    /// equal to `priority`, so the sequence stays sorted and an entry
    /// registered earlier at the same priority keeps its earlier place. A
    /// hook not seen before is created first; no other hook changes.
    pub fn add_filter(&mut self, hook: &str, priority: i32, callback: C) -> (id: u64)
        requires
            old(self).wf(),
            old(self).fresh_id() < u64::MAX,
        ensures
            final(self).wf(),
            id == old(self).fresh_id(),
            final(self).fresh_id() == old(self).fresh_id() + 1,
            final(self).has_hook(hook@),
            final(self).entries(hook@) == old(self).entries(hook@).insert(
                insert_pos(old(self).entries(hook@), priority),
                (FilterEntry { id, priority, callback }),
            ),
            forall|h: Seq<char>|
                h != hook@ ==> #[trigger] final(self).entries(h) == old(self).entries(h),
            forall|h: Seq<char>|
                h != hook@ ==> #[trigger] final(self).has_hook(h) == old(self).has_hook(h),
    {
        let id = self.next_id;
        let key: String = hook.to_owned();
        let entry = FilterEntry { id, priority, callback };
        let ghost entry_g = entry;
        self.next_id = self.next_id + 1;
        let found = self.find_hook(&key);
        match found {
            Some(j) => {
                proof {
                    lemma_lookup_at(old(self).hooks@, hook@, j as int);
                }
                let mut slot = self.hooks.remove(j);
                let ghost old_filters = slot.filters@;
                let pos = find_insert_pos(&slot.filters, priority);
                slot.filters.insert(pos, entry);
                let ghost slot2 = slot;
                self.hooks.insert(j, slot);
                proof {
                    self.lemma_add_existing(*old(self), hook@, j as int, pos as int, entry_g, slot2, old_filters);
                }
            },
            None => {
                proof {
                    assert forall|k: int|
                        0 <= k < old(self).hooks@.len() implies (#[trigger] old(
                        self,
                    ).hooks@[k]).name@ != hook@ by {
                        assert(old(self).hooks@[k] == self.hooks@[k]);
                    }
                    lemma_lookup_absent(old(self).hooks@, hook@);
                }
                let mut filters: Vec<FilterEntry<C>> = Vec::new();
                filters.push(entry);
                let slot = HookSlot { name: key, filters };
                let ghost slot2 = slot;
                self.hooks.push(slot);
                proof {
                    self.lemma_add_new(*old(self), hook@, entry_g, slot2);
                }
            },
        }
        id
    }

    /// After an insertion into the existing hook at index `j`, the registry
    /// is well formed again, the hook's entries are the old ones with the new
    /// entry at its insertion position, and every other hook is unchanged.
    proof fn lemma_add_existing(
        self,
        prev: FilterRegistry<C>,
        h: Seq<char>,
        j: int,
        pos: int,
        e: FilterEntry<C>,
        slot2: HookSlot<C>,
        old_filters: Seq<FilterEntry<C>>,
    )
        requires
            prev.wf(),
            prev.next_id < u64::MAX,
            0 <= j < prev.hooks@.len(),
            prev.hooks@[j].name@ == h,
            forall|k: int| 0 <= k < j ==> (#[trigger] prev.hooks@[k]).name@ != h,
            old_filters == prev.hooks@[j].filters@,
            e.id == prev.next_id,
            pos == insert_pos(old_filters, e.priority),
            slot2.name == prev.hooks@[j].name,
            slot2.filters@ == old_filters.insert(pos, e),
            self.next_id == prev.next_id + 1,
            self.hooks@ == prev.hooks@.remove(j).insert(j, slot2),
        ensures
            self.wf(),
            self.has_hook(h),
            self.entries(h) == prev.entries(h).insert(insert_pos(prev.entries(h), e.priority), e),
            forall|h2: Seq<char>| h2 != h ==> #[trigger] self.entries(h2) == prev.entries(h2),
            forall|h2: Seq<char>| h2 != h ==> #[trigger] self.has_hook(h2) == prev.has_hook(h2),
    {
        let sh = self.hooks@;
        let ph = prev.hooks@;
        ph.remove_ensures(j);
        ph.remove(j).insert_ensures(j, slot2);
        lemma_insert_pos_props(old_filters, e.priority);
        old_filters.insert_ensures(pos, e);
        assert(sh =~= ph.update(j, slot2));
        assert(forall|k: int| 0 <= k < ph.len() && k != j ==> #[trigger] sh[k] == ph[k]);
        assert(sh[j] == slot2);
        // The hook's own entries, by first-match lookup on both sides.
        lemma_lookup_at(ph, h, j);
        lemma_lookup_at(sh, h, j);
        assert(self.entries(h) == slot2.filters@);
        // Every other name looks up the same entries as before.
        assert forall|h2: Seq<char>| h2 != h implies #[trigger] self.entries(h2) == prev.entries(
            h2,
        ) by {
            lemma_lookup_update_other(ph, j, slot2, h2);
        }
        assert forall|h2: Seq<char>| h2 != h implies #[trigger] self.has_hook(h2)
            == prev.has_hook(h2) by {
            lemma_lookup_update_other(ph, j, slot2, h2);
        }
        // Well-formedness: distinct names carry over pointwise.
        assert(forall|k: int| 0 <= k < sh.len() ==> (#[trigger] sh[k]).name@ == ph[k].name@);
        // Each hook's sequence is well formed under the grown bound.
        assert forall|k: int| 0 <= k < sh.len() implies entries_wf(
            (#[trigger] sh[k]).filters@,
            self.next_id,
        ) by {
            if k == j {
                assert(entries_wf(old_filters, prev.next_id));
                lemma_entries_wf_insert(old_filters, e, pos, prev.next_id, self.next_id);
            } else {
                assert(entries_wf(ph[k].filters@, prev.next_id));
            }
        }
        // No id occurs under two hooks: the new entry's id is fresh.
        assert forall|k1: int, i1: int, k2: int, i2: int|
            0 <= k1 < k2 < sh.len() && 0 <= i1 < sh[k1].filters@.len() && 0 <= i2
                < sh[k2].filters@.len() implies #[trigger] sh[k1].filters@[i1].id != #[trigger] sh[k2].filters@[i2].id by {
            let a = sh[k1].filters@[i1];
            let b = sh[k2].filters@[i2];
            if k1 == j {
                if i1 == pos {
                    assert(a == e);
                    assert(b == ph[k2].filters@[i2]);
                    assert(b.id < prev.next_id);
                } else {
                    let i1p = if i1 < pos { i1 } else { i1 - 1 };
                    assert(a == old_filters[i1p]);
                    assert(b == ph[k2].filters@[i2]);
                }
            } else if k2 == j {
                if i2 == pos {
                    assert(b == e);
                    assert(a == ph[k1].filters@[i1]);
                    assert(a.id < prev.next_id);
                } else {
                    let i2p = if i2 < pos { i2 } else { i2 - 1 };
                    assert(b == old_filters[i2p]);
                    assert(a == ph[k1].filters@[i1]);
                }
            } else {
                assert(a == ph[k1].filters@[i1]);
                assert(b == ph[k2].filters@[i2]);
            }
        }
    }

    /// After a push of a freshly created hook, the registry is well formed
    /// again, the new hook holds exactly the new entry, and every other hook
    /// is unchanged.
    proof fn lemma_add_new(
        self,
        prev: FilterRegistry<C>,
        h: Seq<char>,
        e: FilterEntry<C>,
        slot2: HookSlot<C>,
    )
        requires
            prev.wf(),
            prev.next_id < u64::MAX,
            forall|k: int| 0 <= k < prev.hooks@.len() ==> (#[trigger] prev.hooks@[k]).name@ != h,
            e.id == prev.next_id,
            slot2.name@ == h,
            slot2.filters@ == Seq::<FilterEntry<C>>::empty().push(e),
            self.next_id == prev.next_id + 1,
            self.hooks@ == prev.hooks@.push(slot2),
        ensures
            self.wf(),
            self.has_hook(h),
            self.entries(h) == prev.entries(h).insert(insert_pos(prev.entries(h), e.priority), e),
            forall|h2: Seq<char>| h2 != h ==> #[trigger] self.entries(h2) == prev.entries(h2),
            forall|h2: Seq<char>| h2 != h ==> #[trigger] self.has_hook(h2) == prev.has_hook(h2),
    {
        let sh = self.hooks@;
        let ph = prev.hooks@;
        let j = ph.len() as int;
        lemma_lookup_absent(ph, h);
        assert(forall|k: int| 0 <= k < j ==> #[trigger] sh[k] == ph[k]);
        assert(sh[j] == slot2);
        lemma_lookup_at(sh, h, j);
        assert(prev.entries(h) == Seq::<FilterEntry<C>>::empty());
        assert(insert_pos(prev.entries(h), e.priority) == 0);
        assert(prev.entries(h).insert(0, e) =~= slot2.filters@);
        assert forall|h2: Seq<char>| h2 != h implies #[trigger] self.entries(h2) == prev.entries(
            h2,
        ) by {
            lemma_lookup_push_other(ph, slot2, h2);
        }
        assert forall|h2: Seq<char>| h2 != h implies #[trigger] self.has_hook(h2)
            == prev.has_hook(h2) by {
            lemma_lookup_push_other(ph, slot2, h2);
        }
        assert forall|k: int| 0 <= k < sh.len() implies entries_wf(
            (#[trigger] sh[k]).filters@,
            self.next_id,
        ) by {
            if k == j {
                assert(slot2.filters@.len() == 1);
                assert(slot2.filters@[0] == e);
            } else {
                assert(entries_wf(ph[k].filters@, prev.next_id));
            }
        }
        assert forall|k1: int, i1: int, k2: int, i2: int|
            0 <= k1 < k2 < sh.len() && 0 <= i1 < sh[k1].filters@.len() && 0 <= i2
                < sh[k2].filters@.len() implies #[trigger] sh[k1].filters@[i1].id != #[trigger] sh[k2].filters@[i2].id by {
            if k2 == j {
                assert(sh[k2].filters@[i2] == e);
                assert(sh[k1].filters@[i1] == ph[k1].filters@[i1]);
                assert(ph[k1].filters@[i1].id < prev.next_id);
            } else {
                assert(sh[k1].filters@[i1] == ph[k1].filters@[i1]);
                assert(sh[k2].filters@[i2] == ph[k2].filters@[i2]);
            }
        }
    }

    /// The index of the hook named `*key`, if it exists.
    fn find_hook(&self, key: &String) -> (r: Option<usize>)
        ensures
            match r {
                Some(j) => 0 <= j < self.hooks@.len() && self.hooks@[j as int].name@ == key@
                    && (forall|k: int| 0 <= k < j ==> (#[trigger] self.hooks@[k]).name@ != key@),
                None => forall|k: int|
                    0 <= k < self.hooks@.len() ==> (#[trigger] self.hooks@[k]).name@ != key@,
            },
    {
        let mut j: usize = 0;
        while j < self.hooks.len()
            invariant
                j <= self.hooks@.len(),
                forall|k: int| 0 <= k < j ==> (#[trigger] self.hooks@[k]).name@ != key@,
            decreases self.hooks@.len() - j,
        {
            let slot = &self.hooks[j];
            if slot.name == *key {
                return Some(j);
            }
            j += 1;
        }
        None
    }

    /// Removes the entry whose id is `id` from the hook named `hook` and
    /// returns whether one was removed: ids are unique, so at most one entry
    /// ever matches. The remaining entries keep their relative order; a
    /// missing hook or an unknown id is a no-op returning false. The hook
    /// itself stays, even when its last entry is removed.
    pub fn remove_filter(&mut self, hook: &str, id: u64) -> (r: bool)
        requires
            old(self).wf(),
        ensures
            final(self).wf(),
            r == exists|k: int|
                0 <= k < old(self).entries(hook@).len() && (#[trigger] old(self).entries(
                    hook@,
                )[k]).id == id,
            final(self).entries(hook@) == without_id(old(self).entries(hook@), id),
            final(self).has_hook(hook@) == old(self).has_hook(hook@),
            final(self).fresh_id() == old(self).fresh_id(),
            forall|h: Seq<char>|
                h != hook@ ==> #[trigger] final(self).entries(h) == old(self).entries(h),
            forall|h: Seq<char>|
                h != hook@ ==> #[trigger] final(self).has_hook(h) == old(self).has_hook(h),
    {
        let key: String = hook.to_owned();
        match self.find_hook(&key) {
            None => {
                proof {
                    lemma_lookup_absent(self.hooks@, hook@);
                    lemma_filter_id_all_keep(Seq::<FilterEntry<C>>::empty(), id);
                }
                false
            },
            Some(j) => {
                proof {
                    lemma_lookup_at(old(self).hooks@, hook@, j as int);
                }
                let mut slot = self.hooks.remove(j);
                let ghost old_filters = slot.filters@;
                match find_entry(&slot.filters, id) {
                    Some(m) => {
                        let _removed = slot.filters.remove(m);
                        let ghost slot2 = slot;
                        self.hooks.insert(j, slot);
                        proof {
                            self.lemma_remove_entry(
                                *old(self),
                                hook@,
                                j as int,
                                m as int,
                                id,
                                slot2,
                                old_filters,
                            );
                            assert(old(self).entries(hook@)[m as int].id == id);
                        }
                        true
                    },
                    None => {
                        let ghost slot2 = slot;
                        self.hooks.insert(j, slot);
                        proof {
                            self.lemma_remove_noop(*old(self), hook@, j as int, id, slot2);
                        }
                        false
                    },
                }
            },
        }
    }

    /// Deletes the hook named `hook` from the registry entirely, with all
    /// its entries; other hooks and the id counter are untouched. Deleting a
    /// hook that does not exist changes nothing, so the operation is
    /// idempotent.
    pub fn remove_all_filters(&mut self, hook: &str)
        requires
            old(self).wf(),
        ensures
            final(self).wf(),
            !final(self).has_hook(hook@),
            final(self).entries(hook@) == Seq::<FilterEntry<C>>::empty(),
            final(self).fresh_id() == old(self).fresh_id(),
            forall|h: Seq<char>|
                h != hook@ ==> #[trigger] final(self).entries(h) == old(self).entries(h),
            forall|h: Seq<char>|
                h != hook@ ==> #[trigger] final(self).has_hook(h) == old(self).has_hook(h),
    {
        let key: String = hook.to_owned();
        match self.find_hook(&key) {
            None => {
                proof {
                    assert forall|k: int|
                        0 <= k < old(self).hooks@.len() implies (#[trigger] old(
                        self,
                    ).hooks@[k]).name@ != hook@ by {
                        assert(old(self).hooks@[k] == self.hooks@[k]);
                    }
                    lemma_lookup_absent(old(self).hooks@, hook@);
                }
            },
            Some(j) => {
                let _slot = self.hooks.remove(j);
                proof {
                    self.lemma_remove_hook(*old(self), hook@, j as int);
                }
            },
        }
    }

    /// The id the next registration will receive.
    pub fn next_filter_id(&self) -> (n: u64)
        ensures
            n == self.fresh_id(),
    {
        self.next_id
    }

    /// Whether a hook named `hook` exists in the registry.
    pub fn hook_exists(&self, hook: &str) -> (b: bool)
        ensures
            b == self.has_hook(hook@),
    {
        let key: String = hook.to_owned();
        match self.find_hook(&key) {
            Some(j) => {
                proof {
                    lemma_lookup_at(self.hooks@, hook@, j as int);
                }
                true
            },
            None => {
                proof {
                    lemma_lookup_absent(self.hooks@, hook@);
                }
                false
            },
        }
    }

    /// The number of filters registered on the hook named `hook`.
    pub fn filter_count(&self, hook: &str) -> (n: usize)
        ensures
            n == self.entries(hook@).len(),
    {
        let key: String = hook.to_owned();
        match self.find_hook(&key) {
            Some(j) => {
                proof {
                    lemma_lookup_at(self.hooks@, hook@, j as int);
                }
                self.hooks[j].filters.len()
            },
            None => {
                proof {
                    lemma_lookup_absent(self.hooks@, hook@);
                }
                0
            },
        }
    }

    /// The id and priority of each filter on the hook named `hook`, in
    /// dispatch order.
    pub fn filter_table(&self, hook: &str) -> (t: Vec<(u64, i32)>)
        ensures
            t@.len() == self.entries(hook@).len(),
            forall|k: int|
                0 <= k < t@.len() ==> #[trigger] t@[k] == (
                    self.entries(hook@)[k].id,
                    self.entries(hook@)[k].priority,
                ),
    {
        let key: String = hook.to_owned();
        let mut t: Vec<(u64, i32)> = Vec::new();
        match self.find_hook(&key) {
            Some(j) => {
                proof {
                    lemma_lookup_at(self.hooks@, hook@, j as int);
                }
                let list = &self.hooks[j].filters;
                let mut i: usize = 0;
                while i < list.len()
                    invariant
                        i <= list@.len(),
                        list@ == self.entries(hook@),
                        t@.len() == i,
                        forall|k: int|
                            0 <= k < i ==> #[trigger] t@[k] == (list@[k].id, list@[k].priority),
                    decreases list@.len() - i,
                {
                    let e = &list[i];
                    t.push((e.id, e.priority));
                    i += 1;
                }
                t
            },
            None => {
                proof {
                    lemma_lookup_absent(self.hooks@, hook@);
                }
                t
            },
        }
    }

    /// After deleting the entry at index `m` of the hook at index `j`, the
    /// registry is well formed, that hook's entries are the old ones with
    /// every entry carrying `id` filtered out, and everything else is
    /// unchanged.
    proof fn lemma_remove_entry(
        self,
        prev: FilterRegistry<C>,
        h: Seq<char>,
        j: int,
        m: int,
        id: u64,
        slot2: HookSlot<C>,
        old_filters: Seq<FilterEntry<C>>,
    )
        requires
            prev.wf(),
            0 <= j < prev.hooks@.len(),
            prev.hooks@[j].name@ == h,
            forall|k: int| 0 <= k < j ==> (#[trigger] prev.hooks@[k]).name@ != h,
            old_filters == prev.hooks@[j].filters@,
            0 <= m < old_filters.len(),
            old_filters[m].id == id,
            slot2.name == prev.hooks@[j].name,
            slot2.filters@ == old_filters.remove(m),
            self.next_id == prev.next_id,
            self.hooks@ == prev.hooks@.remove(j).insert(j, slot2),
        ensures
            self.wf(),
            self.entries(h) == without_id(prev.entries(h), id),
            self.has_hook(h) == prev.has_hook(h),
            forall|h2: Seq<char>| h2 != h ==> #[trigger] self.entries(h2) == prev.entries(h2),
            forall|h2: Seq<char>| h2 != h ==> #[trigger] self.has_hook(h2) == prev.has_hook(h2),
    {
        let sh = self.hooks@;
        let ph = prev.hooks@;
        ph.remove_ensures(j);
        ph.remove(j).insert_ensures(j, slot2);
        assert(sh =~= ph.update(j, slot2));
        assert(forall|k: int| 0 <= k < ph.len() && k != j ==> #[trigger] sh[k] == ph[k]);
        assert(sh[j] == slot2);
        assert(entries_wf(old_filters, prev.next_id));
        // Ids within one hook are pairwise distinct, so only index m matches.
        assert forall|i: int| 0 <= i < old_filters.len() && i != m implies (#[trigger] old_filters[i]).id
            != id by {
            if i < m {
                assert(old_filters[i].id != old_filters[m].id);
            } else {
                assert(old_filters[m].id != old_filters[i].id);
            }
        }
        lemma_remove_at_is_filter(old_filters, id, m);
        lemma_lookup_at(ph, h, j);
        lemma_lookup_at(sh, h, j);
        assert forall|h2: Seq<char>| h2 != h implies #[trigger] self.entries(h2) == prev.entries(
            h2,
        ) by {
            lemma_lookup_update_other(ph, j, slot2, h2);
        }
        assert forall|h2: Seq<char>| h2 != h implies #[trigger] self.has_hook(h2)
            == prev.has_hook(h2) by {
            lemma_lookup_update_other(ph, j, slot2, h2);
        }
        assert(forall|k: int| 0 <= k < sh.len() ==> (#[trigger] sh[k]).name@ == ph[k].name@);
        assert forall|k: int| 0 <= k < sh.len() implies entries_wf(
            (#[trigger] sh[k]).filters@,
            self.next_id,
        ) by {
            if k == j {
                lemma_entries_wf_remove(old_filters, m, prev.next_id);
            } else {
                assert(entries_wf(ph[k].filters@, prev.next_id));
            }
        }
        old_filters.remove_ensures(m);
        assert forall|k1: int, i1: int, k2: int, i2: int|
            0 <= k1 < k2 < sh.len() && 0 <= i1 < sh[k1].filters@.len() && 0 <= i2
                < sh[k2].filters@.len() implies #[trigger] sh[k1].filters@[i1].id != #[trigger] sh[k2].filters@[i2].id by {
            if k1 == j {
                let i1p = if i1 < m {
                    i1
                } else {
                    i1 + 1
                };
                assert(sh[k1].filters@[i1] == old_filters[i1p]);
                assert(sh[k2].filters@[i2] == ph[k2].filters@[i2]);
            } else if k2 == j {
                let i2p = if i2 < m {
                    i2
                } else {
                    i2 + 1
                };
                assert(sh[k2].filters@[i2] == old_filters[i2p]);
                assert(sh[k1].filters@[i1] == ph[k1].filters@[i1]);
            } else {
                assert(sh[k1].filters@[i1] == ph[k1].filters@[i1]);
                assert(sh[k2].filters@[i2] == ph[k2].filters@[i2]);
            }
        }
    }

    /// Reinserting the hook's slot unchanged leaves the whole registry as it
    /// was; no entry carried the id looked for.
    proof fn lemma_remove_noop(
        self,
        prev: FilterRegistry<C>,
        h: Seq<char>,
        j: int,
        id: u64,
        slot2: HookSlot<C>,
    )
        requires
            prev.wf(),
            0 <= j < prev.hooks@.len(),
            prev.hooks@[j].name@ == h,
            forall|k: int| 0 <= k < j ==> (#[trigger] prev.hooks@[k]).name@ != h,
            slot2 == prev.hooks@[j],
            forall|k: int|
                0 <= k < slot2.filters@.len() ==> (#[trigger] slot2.filters@[k]).id != id,
            self.next_id == prev.next_id,
            self.hooks@ == prev.hooks@.remove(j).insert(j, slot2),
        ensures
            self.wf(),
            self.entries(h) == without_id(prev.entries(h), id),
            self.has_hook(h) == prev.has_hook(h),
            !(exists|k: int|
                0 <= k < prev.entries(h).len() && (#[trigger] prev.entries(h)[k]).id == id),
            forall|h2: Seq<char>| h2 != h ==> #[trigger] self.entries(h2) == prev.entries(h2),
            forall|h2: Seq<char>| h2 != h ==> #[trigger] self.has_hook(h2) == prev.has_hook(h2),
    {
        let sh = self.hooks@;
        let ph = prev.hooks@;
        ph.remove_ensures(j);
        ph.remove(j).insert_ensures(j, slot2);
        assert(sh =~= ph);
        lemma_lookup_at(ph, h, j);
        lemma_filter_id_all_keep(prev.entries(h), id);
        assert forall|k: int| 0 <= k < sh.len() implies entries_wf(
            (#[trigger] sh[k]).filters@,
            self.next_id,
        ) by {
            assert(entries_wf(ph[k].filters@, prev.next_id));
        }
        assert forall|k1: int, i1: int, k2: int, i2: int|
            0 <= k1 < k2 < sh.len() && 0 <= i1 < sh[k1].filters@.len() && 0 <= i2
                < sh[k2].filters@.len() implies #[trigger] sh[k1].filters@[i1].id != #[trigger] sh[k2].filters@[i2].id by {
            assert(sh[k1].filters@[i1] == ph[k1].filters@[i1]);
            assert(sh[k2].filters@[i2] == ph[k2].filters@[i2]);
        }
    }

    /// After deleting the hook at index `j`, the registry is well formed,
    /// the name no longer resolves to any entries, and every other hook is
    /// unchanged.
    proof fn lemma_remove_hook(self, prev: FilterRegistry<C>, h: Seq<char>, j: int)
        requires
            prev.wf(),
            0 <= j < prev.hooks@.len(),
            prev.hooks@[j].name@ == h,
            self.next_id == prev.next_id,
            self.hooks@ == prev.hooks@.remove(j),
        ensures
            self.wf(),
            !self.has_hook(h),
            self.entries(h) == Seq::<FilterEntry<C>>::empty(),
            forall|h2: Seq<char>| h2 != h ==> #[trigger] self.entries(h2) == prev.entries(h2),
            forall|h2: Seq<char>| h2 != h ==> #[trigger] self.has_hook(h2) == prev.has_hook(h2),
    {
        let sh = self.hooks@;
        let ph = prev.hooks@;
        ph.remove_ensures(j);
        // The deleted hook was the only one carrying the name.
        assert forall|k: int| 0 <= k < sh.len() implies (#[trigger] sh[k]).name@ != h by {
            let kp = if k < j {
                k
            } else {
                k + 1
            };
            assert(sh[k] == ph[kp]);
        }
        lemma_lookup_absent(sh, h);
        assert forall|h2: Seq<char>| h2 != h implies #[trigger] self.entries(h2) == prev.entries(
            h2,
        ) by {
            lemma_lookup_remove_other(ph, j, h2);
        }
        assert forall|h2: Seq<char>| h2 != h implies #[trigger] self.has_hook(h2)
            == prev.has_hook(h2) by {
            lemma_lookup_remove_other(ph, j, h2);
        }
        assert forall|k1: int, k2: int|
            #![trigger sh[k1], sh[k2]]
            0 <= k1 < k2 < sh.len() implies sh[k1].name@ != sh[k2].name@ by {
            let k1p = if k1 < j {
                k1
            } else {
                k1 + 1
            };
            let k2p = if k2 < j {
                k2
            } else {
                k2 + 1
            };
            assert(sh[k1] == ph[k1p]);
            assert(sh[k2] == ph[k2p]);
        }
        assert forall|k: int| 0 <= k < sh.len() implies entries_wf(
            (#[trigger] sh[k]).filters@,
            self.next_id,
        ) by {
            let kp = if k < j {
                k
            } else {
                k + 1
            };
            assert(sh[k] == ph[kp]);
            assert(entries_wf(ph[kp].filters@, prev.next_id));
        }
        assert forall|k1: int, i1: int, k2: int, i2: int|
            0 <= k1 < k2 < sh.len() && 0 <= i1 < sh[k1].filters@.len() && 0 <= i2
                < sh[k2].filters@.len() implies #[trigger] sh[k1].filters@[i1].id != #[trigger] sh[k2].filters@[i2].id by {
            let k1p = if k1 < j {
                k1
            } else {
                k1 + 1
            };
            let k2p = if k2 < j {
                k2
            } else {
                k2 + 1
            };
            assert(sh[k1] == ph[k1p]);
            assert(sh[k2] == ph[k2p]);
            assert(ph[k1p].filters@[i1].id != ph[k2p].filters@[i2].id);
        }
    }
}

impl<C: FilterCallback> FilterRegistry<C> {
    /// Threads `value` through the filters of the hook named `hook`, lowest
    /// priority first: the output of each callback becomes the input of the
    /// next, and the fully transformed value is returned. A hook that does
    /// not exist or holds no filters returns the value unchanged. If some
    /// filter's declared kind differs from the value's kind, dispatch stops
    /// at the first such filter and reports the type-consistency fault
    /// instead.
    pub fn apply_filters(&self, hook: &str, value: FilterValue) -> (r: Result<
        FilterValue,
        DispatchError,
    >)
        ensures
            (r is Ok) <==> (forall|k: int|
                0 <= k < self.entries(hook@).len() ==> (#[trigger] self.entries(
                    hook@,
                )[k]).callback.declared_kind() == kind_of(value@)),
            r matches Ok(out) ==> out@ == chain(self.entries(hook@), value@),
            self.entries(hook@).len() == 0 ==> r == Ok::<FilterValue, DispatchError>(value),
            r is Err ==> r == Err::<FilterValue, DispatchError>(DispatchError::TypeMismatch),
    {
        let key: String = hook.to_owned();
        match self.find_hook(&key) {
            None => {
                proof {
                    lemma_lookup_absent(self.hooks@, hook@);
                }
                Ok(value)
            },
            Some(j) => {
                proof {
                    lemma_lookup_at(self.hooks@, hook@, j as int);
                }
                let list = &self.hooks[j].filters;
                let ghost es = self.entries(hook@);
                let vk = value.kind();
                let mut cur = value;
                let mut i: usize = 0;
                proof {
                    assert(es.skip(0) =~= es);
                }
                while i < list.len()
                    invariant
                        i <= list@.len(),
                        es == list@,
                        es == self.entries(hook@),
                        i == 0 ==> cur == value,
                        vk == kind_of(value@),
                        kind_of(cur@) == kind_of(value@),
                        chain(es, value@) == chain(es.skip(i as int), cur@),
                        forall|k: int|
                            0 <= k < i ==> (#[trigger] es[k]).callback.declared_kind() == kind_of(
                                value@,
                            ),
                    decreases list@.len() - i,
                {
                    let f = &list[i];
                    let fk = f.callback.kind();
                    if fk != vk {
                        proof {
                            assert(es[i as int].callback.declared_kind() != kind_of(value@));
                        }
                        return Err(DispatchError::TypeMismatch);
                    }
                    proof {
                        assert(es.skip(i as int)[0] == es[i as int]);
                        assert(es.skip(i as int).drop_first() =~= es.skip(i as int + 1));
                    }
                    cur = f.callback.call(cur);
                    i += 1;
                }
                proof {
                    assert(es.skip(list@.len() as int) =~= Seq::<FilterEntry<C>>::empty());
                }
                Ok(cur)
            },
        }
    }
}

/// A sequence in which no entry carries `id` is untouched by filtering that
/// id out.
proof fn lemma_filter_id_all_keep<C>(s: Seq<FilterEntry<C>>, id: u64)
    requires
        forall|i: int| 0 <= i < s.len() ==> (#[trigger] s[i]).id != id,
    ensures
        s.filter(|e: FilterEntry<C>| e.id != id) == s,
    decreases s.len(),
{
    reveal(Seq::filter);
    if s.len() > 0 {
        assert(forall|i: int| 0 <= i < s.len() - 1 ==> (#[trigger] s.drop_last()[i]) == s[i]);
        lemma_filter_id_all_keep(s.drop_last(), id);
        assert(s[s.len() - 1].id != id);
        assert(s.drop_last().push(s.last()) =~= s);
    }
}

/// When exactly the entry at index `m` carries `id`, filtering that id out
/// deletes that one entry and leaves the others in their relative order.
proof fn lemma_remove_at_is_filter<C>(s: Seq<FilterEntry<C>>, id: u64, m: int)
    requires
        0 <= m < s.len(),
        s[m].id == id,
        forall|i: int| 0 <= i < s.len() && i != m ==> (#[trigger] s[i]).id != id,
    ensures
        s.remove(m) == s.filter(|e: FilterEntry<C>| e.id != id),
    decreases s.len(),
{
    reveal(Seq::filter);
    s.remove_ensures(m);
    assert(forall|i: int| 0 <= i < s.len() - 1 ==> (#[trigger] s.drop_last()[i]) == s[i]);
    if m == s.len() - 1 {
        lemma_filter_id_all_keep(s.drop_last(), id);
        assert(s.last().id == id);
        assert(s.remove(m) =~= s.drop_last());
    } else {
        lemma_remove_at_is_filter(s.drop_last(), id, m);
        assert(s.last().id != id);
        s.drop_last().remove_ensures(m);
        assert(s.remove(m) =~= s.drop_last().remove(m).push(s.last()));
    }
}

/// Deleting one entry keeps a hook's sequence well formed.
proof fn lemma_entries_wf_remove<C>(s: Seq<FilterEntry<C>>, m: int, bound: u64)
    requires
        entries_wf(s, bound),
        0 <= m < s.len(),
    ensures
        entries_wf(s.remove(m), bound),
{
    s.remove_ensures(m);
    let t = s.remove(m);
    assert forall|i: int, j: int|
        #![trigger t[i], t[j]]
        0 <= i < j < t.len() implies entry_before(t[i], t[j]) && t[i].id != t[j].id by {
        let ip = if i < m {
            i
        } else {
            i + 1
        };
        let jp = if j < m {
            j
        } else {
            j + 1
        };
        assert(t[i] == s[ip]);
        assert(t[j] == s[jp]);
    }
    assert forall|i: int| 0 <= i < t.len() implies 1 <= (#[trigger] t[i]).id < bound by {
        let ip = if i < m {
            i
        } else {
            i + 1
        };
        assert(t[i] == s[ip]);
    }
}

/// An index of `list` whose entry carries `id`, if any does.
fn find_entry<C>(list: &Vec<FilterEntry<C>>, id: u64) -> (r: Option<usize>)
    ensures
        match r {
            Some(m) => 0 <= m < list@.len() && list@[m as int].id == id,
            None => forall|k: int| 0 <= k < list@.len() ==> (#[trigger] list@[k]).id != id,
        },
{
    let mut m: usize = 0;
    while m < list.len()
        invariant
            m <= list@.len(),
            forall|k: int| 0 <= k < m ==> (#[trigger] list@[k]).id != id,
        decreases list@.len() - m,
    {
        if list[m].id == id {
            return Some(m);
        }
        m += 1;
    }
    None
}

/// The insertion position is the first index holding a priority strictly
/// greater than `p`, and the whole sequence length where there is none.
proof fn lemma_insert_pos_props<C>(s: Seq<FilterEntry<C>>, p: i32)
    ensures
        0 <= insert_pos(s, p) <= s.len(),
        forall|k: int| 0 <= k < insert_pos(s, p) ==> (#[trigger] s[k]).priority <= p,
        insert_pos(s, p) < s.len() ==> s[insert_pos(s, p)].priority > p,
    decreases s.len(),
{
    if s.len() > 0 && s[0].priority <= p {
        lemma_insert_pos_props(s.drop_first(), p);
        assert forall|k: int| 0 <= k < insert_pos(s, p) implies (#[trigger] s[k]).priority
            <= p by {
            if k > 0 {
                assert(s.drop_first()[k - 1] == s[k]);
            }
        }
        if insert_pos(s, p) < s.len() {
            assert(s.drop_first()[insert_pos(s, p) - 1] == s[insert_pos(s, p)]);
        }
    }
}

/// An index with the first-strictly-greater-priority property is the
/// insertion position.
proof fn lemma_insert_pos_at<C>(s: Seq<FilterEntry<C>>, p: i32, i: int)
    requires
        0 <= i <= s.len(),
        forall|k: int| 0 <= k < i ==> (#[trigger] s[k]).priority <= p,
        i < s.len() ==> s[i].priority > p,
    ensures
        insert_pos(s, p) == i,
    decreases s.len(),
{
    if s.len() > 0 && i > 0 {
        assert(forall|k: int| 0 <= k < s.len() - 1 ==> (#[trigger] s.drop_first()[k]) == s[k + 1]);
        lemma_insert_pos_at(s.drop_first(), p, i - 1);
    }
}

/// Inserting a freshly numbered entry at its insertion position keeps the
/// sequence well formed: sorted by priority, stable for equal priorities
/// (the new entry stands after every older entry of its priority), ids
/// distinct and within the new bound.
proof fn lemma_entries_wf_insert<C>(
    s: Seq<FilterEntry<C>>,
    e: FilterEntry<C>,
    pos: int,
    b1: u64,
    b2: u64,
)
    requires
        entries_wf(s, b1),
        b1 <= e.id < b2,
        1 <= e.id,
        pos == insert_pos(s, e.priority),
    ensures
        entries_wf(s.insert(pos, e), b2),
{
    lemma_insert_pos_props(s, e.priority);
    let t = s.insert(pos, e);
    s.insert_ensures(pos, e);
    assert(forall|k: int| 0 <= k < pos ==> #[trigger] t[k] == s[k]);
    assert(forall|k: int| pos < k < t.len() ==> #[trigger] t[k] == s[k - 1]);
    assert(t[pos] == e);
    assert forall|i: int, j: int|
        #![trigger t[i], t[j]]
        0 <= i < j < t.len() implies entry_before(t[i], t[j]) && t[i].id != t[j].id by {
        if i < pos && j == pos {
            assert(t[i] == s[i]);
            assert(s[i].priority <= e.priority);
            assert(s[i].id < b1 <= e.id);
        } else if i == pos && j > pos {
            assert(t[j] == s[j - 1]);
            assert(j - 1 >= pos);
            if j - 1 > pos {
                assert(entry_before(s[pos], s[j - 1]));
            }
            assert(s[j - 1].priority > e.priority);
            assert(s[j - 1].id < b1 <= e.id);
        } else if i < pos && j > pos {
            assert(t[i] == s[i] && t[j] == s[j - 1]);
            assert(entry_before(s[i], s[j - 1]) && s[i].id != s[j - 1].id);
        } else if i > pos {
            assert(t[i] == s[i - 1] && t[j] == s[j - 1]);
            assert(entry_before(s[i - 1], s[j - 1]) && s[i - 1].id != s[j - 1].id);
        } else {
            assert(t[i] == s[i] && t[j] == s[j]);
            assert(entry_before(s[i], s[j]) && s[i].id != s[j].id);
        }
    }
    assert forall|i: int| 0 <= i < t.len() implies 1 <= (#[trigger] t[i]).id < b2 by {
        if i < pos {
            assert(t[i] == s[i]);
        } else if i > pos {
            assert(t[i] == s[i - 1]);
        }
    }
}

/// The first index whose entry's priority strictly exceeds `priority`, or the
/// length of the list: where a new entry of that priority is inserted.
fn find_insert_pos<C>(list: &Vec<FilterEntry<C>>, priority: i32) -> (pos: usize)
    ensures
        0 <= pos <= list@.len(),
        pos as int == insert_pos(list@, priority),
{
    let mut i: usize = 0;
    while i < list.len()
        invariant
            i <= list@.len(),
            forall|k: int| 0 <= k < i ==> (#[trigger] list@[k]).priority <= priority,
        decreases list@.len() - i,
    {
        if list[i].priority > priority {
            proof {
                lemma_insert_pos_at(list@, priority, i as int);
            }
            return i;
        }
        i += 1;
    }
    proof {
        lemma_insert_pos_at(list@, priority, i as int);
    }
    i
}

/// If the first hook named `name` stands at index `j`, the lookup yields that
/// hook's entries.
proof fn lemma_lookup_at<C>(s: Seq<HookSlot<C>>, name: Seq<char>, j: int)
    requires
        0 <= j < s.len(),
        s[j].name@ == name,
        forall|k: int| 0 <= k < j ==> (#[trigger] s[k]).name@ != name,
    ensures
        lookup_hook(s, name) == s[j].filters@,
        contains_hook(s, name),
    decreases j,
{
    if j > 0 {
        assert(s[0].name@ != name);
        assert(s.drop_first()[j - 1] == s[j]);
        assert(forall|k: int| 0 <= k < j - 1 ==> (#[trigger] s.drop_first()[k]) == s[k + 1]);
        lemma_lookup_at(s.drop_first(), name, j - 1);
    }
}

/// If no hook in `s` carries `name`, the lookup yields the empty sequence.
proof fn lemma_lookup_absent<C>(s: Seq<HookSlot<C>>, name: Seq<char>)
    requires
        forall|k: int| 0 <= k < s.len() ==> (#[trigger] s[k]).name@ != name,
    ensures
        lookup_hook(s, name) == Seq::<FilterEntry<C>>::empty(),
        !contains_hook(s, name),
    decreases s.len(),
{
    if s.len() > 0 {
        assert(forall|k: int| 0 <= k < s.len() - 1 ==> (#[trigger] s.drop_first()[k]) == s[k + 1]);
        lemma_lookup_absent(s.drop_first(), name);
    }
}

/// Replacing the hook at index `j` by one of the same name leaves the lookup
/// of every other name unchanged.
proof fn lemma_lookup_update_other<C>(s: Seq<HookSlot<C>>, j: int, slot: HookSlot<C>, name: Seq<char>)
    requires
        0 <= j < s.len(),
        name != slot.name@,
        name != s[j].name@,
    ensures
        lookup_hook(s.update(j, slot), name) == lookup_hook(s, name),
        contains_hook(s.update(j, slot), name) == contains_hook(s, name),
    decreases s.len(),
{
    let s2 = s.update(j, slot);
    if j == 0 {
        assert(s2[0] == slot);
        assert(s2.drop_first() =~= s.drop_first());
    } else {
        assert(s2[0] == s[0]);
        if s[0].name@ != name {
            assert(s2.drop_first() =~= s.drop_first().update(j - 1, slot));
            lemma_lookup_update_other(s.drop_first(), j - 1, slot, name);
        }
    }
}

/// Appending a hook leaves the lookup of every other name unchanged.
proof fn lemma_lookup_push_other<C>(s: Seq<HookSlot<C>>, slot: HookSlot<C>, name: Seq<char>)
    requires
        name != slot.name@,
    ensures
        lookup_hook(s.push(slot), name) == lookup_hook(s, name),
        contains_hook(s.push(slot), name) == contains_hook(s, name),
    decreases s.len(),
{
    let s2 = s.push(slot);
    assert(s2.len() == s.len() + 1);
    if s.len() == 0 {
        assert(s2[0] == slot);
        assert(s2.drop_first() =~= Seq::<HookSlot<C>>::empty());
        assert(lookup_hook(s2.drop_first(), name) == Seq::<FilterEntry<C>>::empty());
        assert(!contains_hook(s2.drop_first(), name));
        assert(lookup_hook(s2, name) == Seq::<FilterEntry<C>>::empty());
        assert(!contains_hook(s2, name));
    } else {
        assert(s2[0] == s[0]);
        if s[0].name@ != name {
            assert(s2.drop_first() =~= s.drop_first().push(slot));
            lemma_lookup_push_other(s.drop_first(), slot, name);
            assert(lookup_hook(s2, name) == lookup_hook(s2.drop_first(), name));
            assert(lookup_hook(s, name) == lookup_hook(s.drop_first(), name));
        } else {
            assert(lookup_hook(s2, name) == s2[0].filters@);
            assert(lookup_hook(s, name) == s[0].filters@);
        }
    }
}

/// A lookup either yields the entries of some hook carrying the name, or the
/// empty sequence when no hook does.
proof fn lemma_lookup_is_slot_or_empty<C>(s: Seq<HookSlot<C>>, h: Seq<char>)
    ensures
        contains_hook(s, h) ==> exists|j: int|
            0 <= j < s.len() && (#[trigger] s[j]).name@ == h && lookup_hook(s, h) == s[j].filters@,
        !contains_hook(s, h) ==> lookup_hook(s, h) == Seq::<FilterEntry<C>>::empty(),
    decreases s.len(),
{
    if s.len() > 0 && s[0].name@ != h {
        lemma_lookup_is_slot_or_empty(s.drop_first(), h);
        if contains_hook(s.drop_first(), h) {
            let j = choose|j: int|
                0 <= j < s.drop_first().len() && (#[trigger] s.drop_first()[j]).name@ == h
                    && lookup_hook(s.drop_first(), h) == s.drop_first()[j].filters@;
            assert(s[j + 1] == s.drop_first()[j]);
            assert(s[j + 1].name@ == h && lookup_hook(s, h) == s[j + 1].filters@);
        }
    }
}

/// In a well-formed registry every hook's entry sequence is well formed:
/// sorted, stable, ids distinct, nonzero and below the counter.
pub proof fn lemma_entries_well_formed<C>(r: FilterRegistry<C>, h: Seq<char>)
    requires
        r.wf(),
    ensures
        entries_wf(r.entries(h), r.fresh_id()),
{
    lemma_lookup_is_slot_or_empty(r.hooks@, h);
}

/// A filter registered at a strictly lower priority stands earlier in a
/// hook's dispatch sequence than one at a higher priority, whatever order
/// the two were registered in.
pub proof fn lemma_lower_priority_runs_first<C>(r: FilterRegistry<C>, h: Seq<char>, i: int, j: int)
    requires
        r.wf(),
        0 <= i < r.entries(h).len(),
        0 <= j < r.entries(h).len(),
        r.entries(h)[i].priority < r.entries(h)[j].priority,
    ensures
        i < j,
{
    lemma_entries_well_formed(r, h);
    let s = r.entries(h);
    if j < i {
        assert(entry_before(s[j], s[i]));
    }
}

/// Of two filters at equal priority on one hook, the one registered first
/// (ids grow with registration order) stands earlier in the dispatch
/// sequence: registration order is stable under the priority sort.
pub proof fn lemma_equal_priority_is_stable<C>(r: FilterRegistry<C>, h: Seq<char>, i: int, j: int)
    requires
        r.wf(),
        0 <= i < r.entries(h).len(),
        0 <= j < r.entries(h).len(),
        r.entries(h)[i].priority == r.entries(h)[j].priority,
        r.entries(h)[i].id < r.entries(h)[j].id,
    ensures
        i < j,
{
    lemma_entries_well_formed(r, h);
    let s = r.entries(h);
    if j < i {
        assert(entry_before(s[j], s[i]));
    }
}

/// Removing an id removes exactly the entries carrying it: afterwards no
/// entry carries the id, so removing it a second time changes nothing (and
/// finds nothing).
pub proof fn lemma_remove_filter_twice<C>(s: Seq<FilterEntry<C>>, id: u64)
    ensures
        forall|k: int|
            0 <= k < without_id(s, id).len() ==> (#[trigger] without_id(s, id)[k]).id != id,
        without_id(without_id(s, id), id) == without_id(s, id),
{
    let pred = (|e: FilterEntry<C>| e.id != id);
    assert forall|k: int| 0 <= k < without_id(s, id).len() implies (#[trigger] without_id(
        s,
        id,
    )[k]).id != id by {
        s.lemma_filter_pred(pred, k);
    }
    lemma_filter_id_all_keep(without_id(s, id), id);
}

/// A hook without filters — never created, or cleared — dispatches every
/// value to itself, and a first registration on it yields exactly the one
/// new entry: the hook behaves as new.
pub proof fn lemma_empty_hook_is_fresh<C: FilterCallback>(v: ValueModel, e: FilterEntry<C>)
    ensures
        chain(Seq::<FilterEntry<C>>::empty(), v) == v,
        Seq::<FilterEntry<C>>::empty().insert(
            insert_pos(Seq::<FilterEntry<C>>::empty(), e.priority),
            e,
        ) == seq![e],
{
    assert(insert_pos(Seq::<FilterEntry<C>>::empty(), e.priority) == 0);
    assert(Seq::<FilterEntry<C>>::empty().insert(0, e) =~= seq![e]);
}

/// Deleting the hook at index `j` leaves the lookup of every other name
/// unchanged.
proof fn lemma_lookup_remove_other<C>(s: Seq<HookSlot<C>>, j: int, name: Seq<char>)
    requires
        0 <= j < s.len(),
        name != s[j].name@,
    ensures
        lookup_hook(s.remove(j), name) == lookup_hook(s, name),
        contains_hook(s.remove(j), name) == contains_hook(s, name),
    decreases s.len(),
{
    let s2 = s.remove(j);
    s.remove_ensures(j);
    if j == 0 {
        assert(s2 =~= s.drop_first());
    } else {
        assert(s2[0] == s[0]);
        if s[0].name@ != name {
            assert(s2.drop_first() =~= s.drop_first().remove(j - 1));
            lemma_lookup_remove_other(s.drop_first(), j - 1, name);
        }
    }
}

} // verus!
