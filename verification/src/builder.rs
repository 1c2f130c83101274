//! Builder-style helpers for assembling arrays of packed data.

use vstd::prelude::*;

verus! {

/// Collects items into a vector with a fluent API.
pub struct PackedDataBuilder<T> {
    pub data: Vec<T>,
}

impl<T> PackedDataBuilder<T> {
    /// An empty builder.
    pub fn new() -> (r: Self)
        ensures
            r.data@ =~= Seq::<T>::empty(),
    {
        PackedDataBuilder { data: Vec::new() }
    }

    /// An empty builder pre-sized for `capacity` items.
    pub fn with_capacity(capacity: usize) -> (r: Self)
        ensures
            r.data@ =~= Seq::<T>::empty(),
    {
        PackedDataBuilder { data: Vec::with_capacity(capacity) }
    }

    /// Appends one item.
    pub fn push(self, item: T) -> (r: Self)
        ensures
            r.data@ == self.data@.push(item),
    {
        let mut data = self.data;
        data.push(item);
        PackedDataBuilder { data }
    }

    /// Appends a batch of items.
    pub fn extend(self, items: Vec<T>) -> (r: Self)
        ensures
            r.data@ == self.data@ + items@,
    {
        let mut data = self.data;
        let mut items = items;
        data.append(&mut items);
        PackedDataBuilder { data }
    }

    /// The collected items.
    pub fn build(self) -> (r: Vec<T>)
        ensures
            r@ == self.data@,
    {
        self.data
    }
}

impl<T> Default for PackedDataBuilder<T> {
    /// An empty builder.
    fn default() -> (r: Self)
        ensures
            r.data@ =~= Seq::<T>::empty(),
    {
        PackedDataBuilder { data: Vec::new() }
    }
}

/// Collects entities, with fallible insertion for building from results.
#[derive(Debug)]
pub struct EntityBuilder<T> {
    pub items: Vec<T>,
}

impl<T> EntityBuilder<T> {
    /// An empty builder.
    pub fn new() -> (r: Self)
        ensures
            r.items@ =~= Seq::<T>::empty(),
    {
        EntityBuilder { items: Vec::new() }
    }

    /// Appends one entity.
    pub fn add(self, item: T) -> (r: Self)
        ensures
            r.items@ == self.items@.push(item),
    {
        let mut items = self.items;
        items.push(item);
        EntityBuilder { items }
    }

    /// Appends a batch of entities.
    pub fn extend(self, items: Vec<T>) -> (r: Self)
        ensures
            r.items@ == self.items@ + items@,
    {
        let mut mine = self.items;
        let mut items = items;
        mine.append(&mut items);
        EntityBuilder { items: mine }
    }

    /// Appends the value of a result, or stops the chain with its error.
    pub fn try_add<E>(self, item: Result<T, E>) -> (r: Result<Self, E>)
        ensures
            match r {
                Ok(b) => item is Ok && b.items@ == self.items@.push(item->Ok_0),
                Err(e) => item == Err::<T, E>(e),
            },
    {
        match item {
            Ok(v) => {
                let mut items = self.items;
                items.push(v);
                Ok(EntityBuilder { items })
            },
            Err(e) => Err(e),
        }
    }

    /// The collected entities.
    pub fn build(self) -> (r: Vec<T>)
        ensures
            r@ == self.items@,
    {
        self.items
    }

    /// The collected entities, as a result for chains that end fallibly.
    pub fn build_result<E>(self, _phantom: Option<E>) -> (r: Result<Vec<T>, E>)
        ensures
            r == Ok::<Vec<T>, E>(self.items),
    {
        Ok(self.items)
    }
}

} // verus!
