//! A dense map from small integer-like keys to values.
//!
//! Keys are handed out by `insert` as the lowest free slot index, so
//! the backing vector stays compact; a `first_free` cursor makes the
//! common grow-at-the-end insertion constant-time.

use vstd::prelude::*;

verus! {

/// Key types of a `SmallMap`: values standing for slot indexes in
/// `0 .. spec_limit()`.
pub trait Key: Sized + Copy {
    /// One past the largest representable slot index.
    spec fn spec_limit() -> int;

    /// The slot index this key stands for.
    spec fn spec_index(self) -> int;

    fn try_from_usize(value: usize) -> (r: Option<Self>)
        ensures
            r is Some <==> value < Self::spec_limit(),
            match r {
                Some(k) => k.spec_index() == value,
                None => true,
            },
    ;

    fn into_usize(self) -> (r: usize)
        ensures
            r as int == self.spec_index(),
            self.spec_index() >= 0,
    ;
}

/// The stock key type: slot indexes below `u32::MAX`.
#[derive(Clone, Copy, PartialEq, Eq, Structural, Debug)]
pub struct DefaultU32Key {
    pub raw: u32,
}

impl Key for DefaultU32Key {
    open spec fn spec_limit() -> int {
        0xffff_ffff
    }

    open spec fn spec_index(self) -> int {
        self.raw as int
    }

    fn try_from_usize(value: usize) -> (r: Option<DefaultU32Key>) {
        if value < 0xffff_ffff {
            Some(DefaultU32Key { raw: value as u32 })
        } else {
            None
        }
    }

    fn into_usize(self) -> (r: usize) {
        self.raw as usize
    }
}

/// How many slots of the vector are filled.
pub(crate) open spec fn filled_count<V>(s: Seq<Option<V>>) -> int
    decreases s.len(),
{
    if s.len() == 0 {
        0
    } else {
        filled_count(s.drop_last()) + (if s.last() is Some {
            1int
        } else {
            0int
        })
    }
}

pub(crate) proof fn lemma_filled_count_bounds<V>(s: Seq<Option<V>>)
    ensures
        0 <= filled_count(s) <= s.len(),
    decreases s.len(),
{
    if s.len() > 0 {
        lemma_filled_count_bounds(s.drop_last());
    }
}

pub(crate) proof fn lemma_filled_count_update<V>(s: Seq<Option<V>>, i: int, v: Option<V>)
    requires
        0 <= i < s.len(),
    ensures
        filled_count(s.update(i, v)) == filled_count(s) - (if s[i] is Some {
            1int
        } else {
            0int
        }) + (if v is Some {
            1int
        } else {
            0int
        }),
    decreases s.len(),
{
    let t = s.update(i, v);
    if i == s.len() - 1 {
        assert(t.drop_last() =~= s.drop_last());
    } else {
        assert(t.drop_last() =~= s.drop_last().update(i, v));
        lemma_filled_count_update(s.drop_last(), i, v);
    }
}

pub(crate) proof fn lemma_filled_count_push<V>(s: Seq<Option<V>>, v: Option<V>)
    ensures
        filled_count(s.push(v)) == filled_count(s) + (if v is Some {
            1int
        } else {
            0int
        }),
{
    assert(s.push(v).drop_last() =~= s);
}

/// A map from keys to values, stored densely by slot index.
pub struct SmallMap<K, V> {
    data: Vec<Option<V>>,
    first_free: usize,
    len: usize,
    key_marker: core::marker::PhantomData<K>,
}

impl<K: Key, V> SmallMap<K, V> {
    /// The value in slot `i` (absent outside the vector).
    pub closed spec fn slot(self, i: int) -> Option<V> {
        if 0 <= i < self.data@.len() {
            self.data@[i]
        } else {
            None
        }
    }

    pub closed spec fn spec_len(self) -> int {
        self.len as int
    }

    /// Slots below the free cursor are filled; the cursor sits on a
    /// hole or at the end; `len` counts the filled slots.
    pub closed spec fn wf(self) -> bool {
        &&& self.first_free <= self.data@.len()
        &&& forall|j: int| 0 <= j < self.first_free ==> (#[trigger] self.data@[j]) is Some
        &&& self.first_free < self.data@.len() ==> self.data@[self.first_free as int] is None
        &&& self.len as int == filled_count(self.data@)
        &&& forall|j: int|
            0 <= j < self.data@.len() && (#[trigger] self.data@[j]) is Some ==> j < K::spec_limit()
    }

    pub fn default() -> (r: SmallMap<K, V>)
        ensures
            r.wf(),
            r.spec_len() == 0,
            forall|i: int| #[trigger] r.slot(i) is None,
    {
        SmallMap {
            data: Vec::new(),
            first_free: 0,
            len: 0,
            key_marker: core::marker::PhantomData,
        }
    }

    pub fn len(&self) -> (r: usize)
        ensures
            r as int == self.spec_len(),
    {
        self.len
    }

    pub fn is_empty(&self) -> (r: bool)
        ensures
            r == (self.spec_len() == 0),
    {
        self.len == 0
    }

    /// Store `value` in the lowest free slot and hand back its key.
    pub fn insert(&mut self, value: V) -> (k: K)
        requires
            old(self).wf(),
            old(self).spec_len() < K::spec_limit(),
            old(self).spec_len() < usize::MAX,
        ensures
            final(self).wf(),
            final(self).spec_len() == old(self).spec_len() + 1,
            old(self).slot(k.spec_index()) is None,
            final(self).slot(k.spec_index()) == Some(value),
            forall|i: int|
                i != k.spec_index() ==> #[trigger] final(self).slot(i) == old(self).slot(i),
            // The key is the lowest free slot: everything below it was
            // already occupied.
            forall|i: int| 0 <= i < k.spec_index() ==> (#[trigger] old(self).slot(i)) is Some,
    {
        proof {
            lemma_filled_count_bounds(self.data@);
            // Everything below the cursor is filled, so the cursor
            // cannot exceed the number of filled slots.
            lemma_cursor_at_most_count(self.data@, self.first_free as int);
        }
        let ghost prior = *self;
        if self.first_free >= self.data.len() {
            let ghost s = self.data@;
            self.data.push(None);
            proof {
                lemma_filled_count_push(s, None::<V>);
            }
        }
        let slot_index = self.first_free;
        let key = match K::try_from_usize(slot_index) {
            Some(key) => key,
            None => {
                // The cursor is at most the filled count, which the
                // caller bounded below the key limit.
                proof {
                    assert(false);
                }
                vstd::pervasive::unreached()
            },
        };
        let ghost s1 = self.data@;
        self.data.set(slot_index, Some(value));
        proof {
            lemma_filled_count_update(s1, slot_index as int, Some(value));
        }
        self.len = self.len + 1;
        // Advance the cursor past the now-contiguous filled prefix.
        let mut stop: bool = false;
        while !stop
            invariant
                slot_index < self.data@.len(),
                self.first_free <= self.data@.len(),
                forall|j: int| 0 <= j < self.first_free ==> (#[trigger] self.data@[j]) is Some,
                stop ==> (self.first_free == self.data@.len() || self.data@[self.first_free as int]
                    is None),
                self.data@ == s1.update(slot_index as int, Some(value)),
                self.len as int == filled_count(self.data@),
                slot_index < self.first_free || self.first_free == slot_index,
            decreases self.data@.len() - self.first_free + (if stop {
                0int
            } else {
                1int
            }),
        {
            if self.first_free >= self.data.len() {
                stop = true;
            } else {
                let occupied = match &self.data[self.first_free] {
                    Some(_) => true,
                    None => false,
                };
                if occupied {
                    self.first_free = self.first_free + 1;
                } else {
                    stop = true;
                }
            }
        }
        key
    }

    /// Look up a key's value.
    pub fn get(&self, key: K) -> (r: Option<&V>)
        ensures
            match r {
                Some(v) => self.slot(key.spec_index()) == Some(*v),
                None => self.slot(key.spec_index()) is None,
            },
    {
        let i = key.into_usize();
        if i < self.data.len() {
            match &self.data[i] {
                Some(v) => Some(v),
                None => None,
            }
        } else {
            None
        }
    }

    /// Replace the value behind an occupied key; reports whether the
    /// key was occupied.
    pub fn set(&mut self, key: K, value: V) -> (r: bool)
        requires
            old(self).wf(),
        ensures
            final(self).wf(),
            r == (old(self).slot(key.spec_index()) is Some),
            final(self).spec_len() == old(self).spec_len(),
            r ==> final(self).slot(key.spec_index()) == Some(value),
            !r ==> *final(self) == *old(self),
            forall|i: int|
                i != key.spec_index() ==> #[trigger] final(self).slot(i) == old(self).slot(i),
    {
        let i = key.into_usize();
        if i < self.data.len() {
            let occupied = match &self.data[i] {
                Some(_) => true,
                None => false,
            };
            if occupied {
                let ghost s = self.data@;
                self.data.set(i, Some(value));
                proof {
                    lemma_filled_count_update(s, i as int, Some(value));
                }
                return true;
            }
        }
        false
    }

    /// The keys of every occupied slot, in ascending slot order.
    pub fn keys(&self) -> (r: Vec<K>)
        requires
            self.wf(),
        ensures
            forall|j: int|
                0 <= j < r@.len() ==> self.slot((#[trigger] r@[j]).spec_index()) is Some,
            forall|i: int|
                #[trigger] self.slot(i) is Some ==> exists|j: int|
                    0 <= j < r@.len() && (#[trigger] r@[j]).spec_index() == i,
    {
        let mut r: Vec<K> = Vec::new();
        let mut i: usize = 0;
        while i < self.data.len()
            invariant
                self.wf(),
                i <= self.data@.len(),
                forall|j: int|
                    0 <= j < r@.len() ==> self.slot((#[trigger] r@[j]).spec_index()) is Some,
                forall|ii: int|
                    0 <= ii < i && #[trigger] self.slot(ii) is Some ==> exists|j: int|
                        0 <= j < r@.len() && (#[trigger] r@[j]).spec_index() == ii,
            decreases self.data@.len() - i,
        {
            let occupied = match &self.data[i] {
                Some(_) => true,
                None => false,
            };
            if occupied {
                let key = match K::try_from_usize(i) {
                    Some(key) => key,
                    None => {
                        proof {
                            assert(false);
                        }
                        vstd::pervasive::unreached()
                    },
                };
                let ghost prev = r@;
                r.push(key);
                proof {
                    assert forall|ii: int|
                        0 <= ii < i + 1 && #[trigger] self.slot(ii) is Some implies exists|j: int|
                        0 <= j < r@.len() && (#[trigger] r@[j]).spec_index() == ii by {
                        if ii == i {
                            assert(r@[prev.len() as int].spec_index() == ii);
                        } else {
                            let j = choose|j: int|
                                0 <= j < prev.len() && (#[trigger] prev[j]).spec_index() == ii;
                            assert(r@[j].spec_index() == ii);
                        }
                    }
                }
            }
            i = i + 1;
        }
        r
    }

    /// Replace the value behind `key` unless it is the protected
    /// key: the guard discipline an entity uses to update every slot
    /// but its own while it is itself being updated.  The protected
    /// slot is never touched.
    pub fn set_excluding(&mut self, protected: K, key: K, value: V) -> (r: bool)
        requires
            old(self).wf(),
        ensures
            final(self).wf(),
            final(self).spec_len() == old(self).spec_len(),
            final(self).slot(protected.spec_index()) == old(self).slot(protected.spec_index()),
            r == (key.spec_index() != protected.spec_index() && old(self).slot(key.spec_index())
                is Some),
            r ==> final(self).slot(key.spec_index()) == Some(value),
            !r ==> *final(self) == *old(self),
            forall|i: int|
                i != key.spec_index() ==> #[trigger] final(self).slot(i) == old(self).slot(i),
    {
        if key.into_usize() == protected.into_usize() {
            return false;
        }
        self.set(key, value)
    }

    /// Remove a key's value, freeing its slot for reuse.
    pub fn remove(&mut self, key: K) -> (r: Option<V>)
        requires
            old(self).wf(),
        ensures
            final(self).wf(),
            r == old(self).slot(key.spec_index()),
            final(self).slot(key.spec_index()) is None,
            forall|i: int|
                i != key.spec_index() ==> #[trigger] final(self).slot(i) == old(self).slot(i),
            final(self).spec_len() == old(self).spec_len() - (if r is Some {
                1int
            } else {
                0int
            }),
    {
        let i = key.into_usize();
        if i >= self.data.len() {
            return None;
        }
        let ghost s = self.data@;
        let value = self.data.remove(i);
        self.data.insert(i, None);
        proof {
            assert(self.data@ =~= s.update(i as int, None));
            lemma_filled_count_update(s, i as int, None::<V>);
        }
        match value {
            Some(v) => {
                if self.first_free > i {
                    self.first_free = i;
                }
                proof {
                    lemma_filled_count_bounds(s.update(i as int, None));
                    lemma_filled_count_bounds(s);
                }
                self.len = self.len - 1;
                Some(v)
            },
            None => {
                proof {
                    assert(self.data@ =~= s);
                }
                None
            },
        }
    }
}

/// A cursor with a fully filled prefix cannot exceed the number of
/// filled slots.
pub(crate) proof fn lemma_cursor_at_most_count<V>(s: Seq<Option<V>>, cursor: int)
    requires
        0 <= cursor <= s.len(),
        forall|j: int| 0 <= j < cursor ==> (#[trigger] s[j]) is Some,
    ensures
        cursor <= filled_count(s),
    decreases s.len(),
{
    if s.len() > 0 {
        if cursor == s.len() {
            lemma_cursor_at_most_count(s.drop_last(), cursor - 1);
        } else {
            assert forall|j: int| 0 <= j < cursor implies (#[trigger] s.drop_last()[j]) is Some by {
                assert(s[j] is Some);
            }
            lemma_cursor_at_most_count(s.drop_last(), cursor);
            lemma_filled_count_bounds(s.drop_last());
        }
    }
}

} // verus!
