//! Utilities for treating the backing storage for trees generically.
//!
//! This module is home for the following items:
//! - [`ListStorage`], the trait for list-like collections used as the backing storage of trees
//! - [`MoveFix`], the trait which lets tree nodes correct their parent/child keys when the
//!   elements of a list storage are shifted around
//! - [`Storage`], the key-based view of a backing storage, provided for every list storage whose
//!   elements know how to fix their keys
use vstd::prelude::*;
use crate::shape::{shift_key, key_shift_fits};

verus! {

/// Shifts one key according to [`shift_key`].
pub fn shift_one_key(key: usize, shifted_from: usize, shifted_by: isize) -> (shifted: usize)
    requires
        key_shift_fits(key, shifted_from, shifted_by as int),
    ensures
        shifted == shift_key(key, shifted_from, shifted_by as int),
{
    let k = key as i128;
    let from = shifted_from as i128;
    let by = shifted_by as i128;
    if by < 0 {
        if k >= from - by {
            (k + by) as usize
        } else {
            key
        }
    } else {
        if k >= from {
            (k + by) as usize
        } else {
            key
        }
    }
}

/// Shifts an optional key according to [`shift_key`].
pub fn shift_optional_key(key: Option<usize>, shifted_from: usize, shifted_by: isize) -> (shifted:
    Option<usize>)
    requires
        key matches Some(k) ==> key_shift_fits(k, shifted_from, shifted_by as int),
    ensures
        shifted == match key {
            Some(k) => Some(shift_key(k, shifted_from, shifted_by as int)),
            None => None,
        },
{
    match key {
        Some(k) => Some(shift_one_key(k, shifted_from, shifted_by)),
        None => None,
    }
}

/// Renames one key: `previous_index` becomes `current_index`, every other key stays.
pub open spec fn move_key(key: usize, previous_index: usize, current_index: usize) -> usize {
    if key == previous_index {
        current_index
    } else {
        key
    }
}

/// Trait for data structures which can be used as the backing storage of trees: collections of
/// elements, each addressed by a key.
///
/// The contents are described by [`has_key`](Storage::has_key) and
/// [`element`](Storage::element). Keys need not be stable: removing an element may change the
/// keys of the others, as it does for list storages.
pub trait Storage: Sized {
    /// The type used for element naming.
    type Key;
    /// The type of the elements stored.
    type Element;

    /// The key `key` names an element of the storage.
    spec fn has_key(&self, key: Self::Key) -> bool;

    /// The element named by `key`.
    spec fn element(&self, key: Self::Key) -> Self::Element;

    /// The number of elements in the storage.
    spec fn size(&self) -> nat;

    /// Adds an element to the collection, returning its key.
    fn add(&mut self, element: Self::Element) -> (key: Self::Key)
        requires
            old(self).size() < usize::MAX,
        ensures
            !old(self).has_key(key),
            final(self).has_key(key),
            final(self).element(key) == element,
            final(self).size() == old(self).size() + 1,
            forall|k: Self::Key| #[trigger] old(self).has_key(k) ==> final(self).has_key(k)
                && final(self).element(k) == old(self).element(k),
    ;

    /// Removes and returns the element identified by `key` within the storage.
    fn remove(&mut self, key: &Self::Key) -> (element: Self::Element)
        requires
            old(self).has_key(*key),
        ensures
            element == old(self).element(*key),
            final(self).size() == old(self).size() - 1,
    ;

    /// Returns the number of elements in the storage, also referred to as its 'length'.
    fn len(&self) -> (len: usize)
        ensures
            len == self.size(),
    ;

    /// Creates an empty collection with the specified capacity.
    fn with_capacity(capacity: usize) -> (storage: Self)
        ensures
            storage.size() == 0,
    ;

    /// Returns a reference to the specified element in the storage, which must exist.
    fn get_unchecked(&self, key: &Self::Key) -> (element: &Self::Element)
        requires
            self.has_key(*key),
        ensures
            *element == self.element(*key),
    ;

    /// Returns a *mutable* reference to the specified element in the storage, which must exist.
    fn get_unchecked_mut(&mut self, key: &Self::Key) -> (element: &mut Self::Element)
        requires
            old(self).has_key(*key),
        ensures
            *element == old(self).element(*key),
            final(self).size() == old(self).size(),
            final(self).element(*key) == *final(element),
            forall|k: Self::Key| #[trigger] final(self).has_key(k) == old(self).has_key(k),
            forall|k: Self::Key| k != *key && old(self).has_key(k) ==> #[trigger] final(self).element(k)
                == old(self).element(k),
    ;

    /// Returns `true` if the specified key is present in the storage, `false` otherwise.
    fn contains_key(&self, key: &Self::Key) -> (r: bool)
        ensures
            r == self.has_key(*key),
    ;

    /// Returns a reference to the specified element in the storage, or `None` if it is not there.
    fn get(&self, key: &Self::Key) -> (element: Option<&Self::Element>)
        ensures
            match element {
                Some(e) => self.has_key(*key) && *e == self.element(*key),
                None => !self.has_key(*key),
            },
    {
        if self.contains_key(key) {
            Some(self.get_unchecked(key))
        } else {
            None
        }
    }

    /// Creates a new empty storage.
    fn new() -> (storage: Self)
        ensures
            storage.size() == 0,
    {
        Self::with_capacity(0)
    }

    /// Returns `true` if the storage contains no elements, `false` otherwise.
    fn is_empty(&self) -> (empty: bool)
        ensures
            empty <==> self.size() == 0,
    {
        self.len() == 0
    }
}

impl<T: ListStorage> Storage for T {
    type Key = usize;
    type Element = T::Element;

    open spec fn has_key(&self, key: usize) -> bool {
        key < self.elements().len()
    }

    open spec fn element(&self, key: usize) -> T::Element {
        self.elements()[key as int]
    }

    open spec fn size(&self) -> nat {
        self.elements().len()
    }

    fn add(&mut self, element: T::Element) -> (key: usize) {
        ListStorage::add(self, element)
    }

    fn remove(&mut self, key: &usize) -> (element: T::Element) {
        ListStorage::remove(self, *key)
    }

    fn len(&self) -> (len: usize) {
        ListStorage::len(self)
    }

    fn with_capacity(capacity: usize) -> (storage: Self) {
        <T as ListStorage>::with_capacity(capacity)
    }

    fn get_unchecked(&self, key: &usize) -> (element: &T::Element) {
        ListStorage::get_unchecked(self, *key)
    }

    fn get_unchecked_mut(&mut self, key: &usize) -> (element: &mut T::Element) {
        ListStorage::get_unchecked_mut(self, *key)
    }

    fn contains_key(&self, key: &usize) -> (r: bool) {
        *key < ListStorage::len(self)
    }
}

/// Trait for list-like containers which can be the backing storage for trees.
///
/// The contents of the container are described by [`elements`](ListStorage::elements), the
/// sequence of its elements in order.
pub trait ListStorage: Sized {
    /// The type of values in the container.
    type Element;

    /// The elements of the collection, in order.
    spec fn elements(&self) -> Seq<Self::Element>;

    /// Creates an empty collection with the specified capacity.
    fn with_capacity(capacity: usize) -> (storage: Self)
        ensures
            storage.elements() == Seq::<Self::Element>::empty(),
    ;

    /// Inserts an element at position `index` within the collection, shifting all elements after
    /// it to the right.
    fn insert(&mut self, index: usize, element: Self::Element)
        requires
            index <= old(self).elements().len(),
        ensures
            final(self).elements() == old(self).elements().insert(index as int, element),
    ;

    /// Removes and returns the element at position `index` within the collection, shifting all
    /// elements after it to the left.
    fn remove(&mut self, index: usize) -> (element: Self::Element)
        requires
            index < old(self).elements().len(),
        ensures
            element == old(self).elements()[index as int],
            final(self).elements() == old(self).elements().remove(index as int),
    ;

    /// Returns the number of elements in the collection, also referred to as its 'length'.
    fn len(&self) -> (len: usize)
        ensures
            len == self.elements().len(),
    ;

    /// Returns a reference to the specified element in the collection, which must be in bounds.
    fn get_unchecked(&self, index: usize) -> (element: &Self::Element)
        requires
            index < self.elements().len(),
        ensures
            *element == self.elements()[index as int],
    ;

    /// Returns a *mutable* reference to the specified element in the collection, which must be in
    /// bounds.
    fn get_unchecked_mut(&mut self, index: usize) -> (element: &mut Self::Element)
        requires
            index < old(self).elements().len(),
        ensures
            *element == old(self).elements()[index as int],
            final(self).elements() == old(self).elements().update(index as int, *final(element)),
    ;

    /// Returns a reference to the specified element in the collection, or `None` if the index is
    /// out of bounds.
    fn get(&self, index: usize) -> (element: Option<&Self::Element>)
        ensures
            match element {
                Some(e) => index < self.elements().len() && *e == self.elements()[index as int],
                None => index >= self.elements().len(),
            },
    {
        if self.len() > index {
            Some(self.get_unchecked(index))
        } else {
            None
        }
    }

    /// Returns a *mutable* reference to the specified element in the collection, or `None` if the
    /// index is out of bounds.
    fn get_mut(&mut self, index: usize) -> (element: Option<&mut Self::Element>)
        ensures
            match element {
                Some(e) => {
                    &&& index < old(self).elements().len()
                    &&& *e == old(self).elements()[index as int]
                    &&& final(self).elements() == old(self).elements().update(
                        index as int,
                        *final(e),
                    )
                },
                None => index >= old(self).elements().len() && final(self).elements() == old(
                    self,
                ).elements(),
            },
    {
        if self.len() > index {
            Some(self.get_unchecked_mut(index))
        } else {
            None
        }
    }

    /// Creates a new empty collection.
    fn new() -> (storage: Self)
        ensures
            storage.elements() == Seq::<Self::Element>::empty(),
    {
        Self::with_capacity(0)
    }

    /// Returns `true` if the collection contains no elements, `false` otherwise.
    fn is_empty(&self) -> (empty: bool)
        ensures
            empty <==> self.elements().len() == 0,
    {
        self.len() == 0
    }

    /// Appends an element to the back of the collection.
    fn push(&mut self, element: Self::Element)
        ensures
            final(self).elements() == old(self).elements().push(element),
    {
        let len = self.len();
        self.insert(len, element);
        assert(old(self).elements().insert(len as int, element) =~= old(self).elements().push(
            element,
        ));
    }

    /// Removes the last element from the collection and returns it, or `None` if it is empty.
    fn pop(&mut self) -> (element: Option<Self::Element>)
        ensures
            match element {
                Some(e) => {
                    &&& old(self).elements().len() > 0
                    &&& e == old(self).elements().last()
                    &&& final(self).elements() == old(self).elements().drop_last()
                },
                None => old(self).elements().len() == 0 && final(self).elements() == old(
                    self,
                ).elements(),
            },
    {
        if !self.is_empty() {
            let last = self.len() - 1;
            let element = self.remove(last);
            assert(old(self).elements().remove(last as int) =~= old(self).elements().drop_last());
            Some(element)
        } else {
            None
        }
    }

    /// Shortens the collection, keeping the first `len` elements and dropping the rest.
    ///
    /// If `len` is greater than the collection's current length, this has no effect.
    fn truncate(&mut self, len: usize)
        ensures
            len >= old(self).elements().len() ==> final(self).elements() == old(self).elements(),
            len < old(self).elements().len() ==> final(self).elements() == old(
                self,
            ).elements().subrange(0, len as int),
    {
        while self.len() > len
            invariant
                len < old(self).elements().len() ==> self.elements() == old(
                    self,
                ).elements().subrange(0, self.elements().len() as int),
                len < old(self).elements().len() ==> len <= self.elements().len(),
                self.elements().len() <= old(self).elements().len(),
                len >= old(self).elements().len() ==> self.elements() == old(self).elements(),
            decreases self.elements().len(),
        {
            let last = self.len() - 1;
            let ghost before = self.elements();
            self.remove(last);
            assert(self.elements() =~= before.subrange(0, last as int));
        }
    }

    /// Adds an element to the end of the collection, returning its index. Never shifts elements
    /// around.
    fn add(&mut self, element: Self::Element) -> (index: usize)
        requires
            old(self).elements().len() < usize::MAX,
        ensures
            index == old(self).elements().len(),
            final(self).elements() == old(self).elements().push(element),
    {
        self.push(element);
        self.len() - 1
    }
}

impl<T> ListStorage for Vec<T> {
    type Element = T;

    open spec fn elements(&self) -> Seq<T> {
        self@
    }

    fn with_capacity(capacity: usize) -> (storage: Self) {
        Vec::with_capacity(capacity)
    }

    fn insert(&mut self, index: usize, element: T) {
        Vec::insert(self, index, element)
    }

    fn remove(&mut self, index: usize) -> (element: T) {
        Vec::remove(self, index)
    }

    fn len(&self) -> (len: usize) {
        Vec::len(self)
    }

    fn get_unchecked(&self, index: usize) -> (element: &T) {
        &self[index]
    }

    fn get_unchecked_mut(&mut self, index: usize) -> (element: &mut T) {
        &mut self[index]
    }

    fn new() -> (storage: Self) {
        Vec::new()
    }

    fn push(&mut self, element: T) {
        Vec::push(self, element)
    }

    fn pop(&mut self) -> (element: Option<T>) {
        Vec::pop(self)
    }

    fn truncate(&mut self, len: usize) {
        Vec::truncate(self, len)
    }
}

/// Inserts an element at position `index` within the collection; the keys held by the
/// elements which were already there are corrected through [`MoveFix`] to account for the
/// shift. The inserted element is kept as it was given.
pub fn insert_and_shiftfix<S: ListStorage>(storage: &mut S, index: usize, element: S::Element)
    where S::Element: MoveFix,
    requires
        index <= old(storage).elements().len(),
        forall|i: int|
            0 <= i < old(storage).elements().len() ==> #[trigger] old(
                storage,
            ).elements()[i].shift_fits(index, 1),
    ensures
        final(storage).elements() == old(storage).elements().map_values(
            |e: S::Element| e.shifted(index, 1),
        ).insert(index as int, element),
{
    <S::Element as MoveFix>::fix_right_shift(storage, index, 1);
    storage.insert(index, element);
}

/// Removes and returns the element at position `index` within the collection; the keys held
/// by the remaining elements are corrected through [`MoveFix`] to account for the shift.
pub fn remove_and_shiftfix<S: ListStorage>(storage: &mut S, index: usize) -> (element: S::Element)
    where S::Element: MoveFix,
    requires
        index < old(storage).elements().len(),
    ensures
        element == old(storage).elements()[index as int],
        final(storage).elements() == old(storage).elements().remove(index as int).map_values(
            |e: S::Element| e.shifted(index, -1),
        ),
{
    let element = storage.remove(index);
    <S::Element as MoveFix>::fix_left_shift(storage, index, 1);
    element
}

/// Trait for tree node types to be able to correct their parent/child node keys when elements
/// are moved around in the list storage which holds them.
pub trait MoveFix: Sized {
    /// The element with all its keys shifted according to [`shift_key`].
    spec fn shifted(self, shifted_from: usize, shifted_by: int) -> Self;

    /// All keys of the element stay within the range of `usize` when shifted.
    spec fn shift_fits(self, shifted_from: usize, shifted_by: int) -> bool;

    /// The element with every key equal to `previous_index` renamed to `current_index`.
    spec fn moved(self, previous_index: usize, current_index: usize) -> Self;

    /// Shifts all keys held by this element according to [`shift_key`].
    fn shift_keys(&mut self, shifted_from: usize, shifted_by: isize)
        requires
            shifted_by > 0 ==> old(self).shift_fits(shifted_from, shifted_by as int),
        ensures
            *final(self) == old(self).shifted(shifted_from, shifted_by as int),
    ;

    /// Renames the key `previous_index` to `current_index` wherever this element holds it.
    fn move_keys(&mut self, previous_index: usize, current_index: usize)
        ensures
            *final(self) == old(self).moved(previous_index, current_index),
    ;

    /// The hook to be called when the items in the collection get shifted due to an insertion or
    /// removal. `shifted_from` specifies the index at which a new item was inserted or from which
    /// an item was removed. Positive values for `shifted_by` indicate a shift to the right,
    /// negative are to the left.
    fn fix_shift<S: ListStorage<Element = Self>>(
        storage: &mut S,
        shifted_from: usize,
        shifted_by: isize,
    )
        requires
            shifted_by != 0,
            shifted_by > 0 ==> forall|i: int|
                0 <= i < old(storage).elements().len() ==> #[trigger] old(
                    storage,
                ).elements()[i].shift_fits(shifted_from, shifted_by as int),
        ensures
            final(storage).elements() == old(storage).elements().map_values(
                |e: Self| e.shifted(shifted_from, shifted_by as int),
            ),
    {
        let len = storage.len();
        let mut i: usize = 0;
        while i < len
            invariant
                len == old(storage).elements().len(),
                storage.elements().len() == len,
                i <= len,
                shifted_by > 0 ==> forall|k: int|
                    0 <= k < len ==> #[trigger] old(storage).elements()[k].shift_fits(
                        shifted_from,
                        shifted_by as int,
                    ),
                forall|k: int|
                    0 <= k < i ==> #[trigger] storage.elements()[k] == old(
                        storage,
                    ).elements()[k].shifted(shifted_from, shifted_by as int),
                forall|k: int|
                    i <= k < len ==> #[trigger] storage.elements()[k] == old(storage).elements()[k],
            decreases len - i,
        {
            let element = storage.get_unchecked_mut(i);
            element.shift_keys(shifted_from, shifted_by);
            i = i + 1;
        }
        assert(storage.elements() =~= old(storage).elements().map_values(
            |e: Self| e.shifted(shifted_from, shifted_by as int),
        ));
    }

    /// The hook to be called when an element in a collection gets moved from one location to
    /// another: every reference to `previous_index` is renamed to `current_index`.
    fn fix_move<S: ListStorage<Element = Self>>(
        storage: &mut S,
        previous_index: usize,
        current_index: usize,
    )
        ensures
            final(storage).elements() == old(storage).elements().map_values(
                |e: Self| e.moved(previous_index, current_index),
            ),
    {
        let len = storage.len();
        let mut i: usize = 0;
        while i < len
            invariant
                len == old(storage).elements().len(),
                storage.elements().len() == len,
                i <= len,
                forall|k: int|
                    0 <= k < i ==> #[trigger] storage.elements()[k] == old(
                        storage,
                    ).elements()[k].moved(previous_index, current_index),
                forall|k: int|
                    i <= k < len ==> #[trigger] storage.elements()[k] == old(storage).elements()[k],
            decreases len - i,
        {
            let element = storage.get_unchecked_mut(i);
            element.move_keys(previous_index, current_index);
            i = i + 1;
        }
        assert(storage.elements() =~= old(storage).elements().map_values(
            |e: Self| e.moved(previous_index, current_index),
        ));
    }

    /// The hook to be called when the items in the collection get shifted to the *left* due to a
    /// *removal* of `shifted_by` items starting at `shifted_from`.
    fn fix_left_shift<S: ListStorage<Element = Self>>(
        storage: &mut S,
        shifted_from: usize,
        shifted_by: usize,
    )
        requires
            0 < shifted_by <= isize::MAX,
        ensures
            final(storage).elements() == old(storage).elements().map_values(
                |e: Self| e.shifted(shifted_from, -(shifted_by as int)),
            ),
    {
        let by = shifted_by as isize;
        Self::fix_shift(storage, shifted_from, -by);
    }

    /// The hook to be called when the items in the collection get shifted to the *right* due to
    /// an *insertion* of `shifted_by` items at `shifted_from`.
    fn fix_right_shift<S: ListStorage<Element = Self>>(
        storage: &mut S,
        shifted_from: usize,
        shifted_by: usize,
    )
        requires
            0 < shifted_by <= isize::MAX,
            forall|i: int|
                0 <= i < old(storage).elements().len() ==> #[trigger] old(
                    storage,
                ).elements()[i].shift_fits(shifted_from, shifted_by as int),
        ensures
            final(storage).elements() == old(storage).elements().map_values(
                |e: Self| e.shifted(shifted_from, shifted_by as int),
            ),
    {
        Self::fix_shift(storage, shifted_from, shifted_by as isize);
    }
}


/// Inserting an element into a list storage and then removing the element at the same position
/// gives that element back and leaves the storage as it was.
pub proof fn law_insert_then_remove<T>(elements: Seq<T>, index: int, element: T)
    requires
        0 <= index <= elements.len(),
    ensures
        elements.insert(index, element)[index] == element,
        elements.insert(index, element).remove(index) == elements,
{
    assert(elements.insert(index, element).remove(index) =~= elements);
}

/// Adding an element to a list storage and then removing the element under the key it was given
/// hands that element back and leaves the storage as it was.
pub proof fn law_add_then_remove<T>(elements: Seq<T>, element: T)
    ensures
        elements.push(element)[elements.len() as int] == element,
        elements.push(element).remove(elements.len() as int) == elements,
{
    assert(elements.push(element).remove(elements.len() as int) =~= elements);
}

} // verus!
