//! Indexes from order ids: the engine's registry of where each resting order
//! lives, and a plain index from order id to arena slot.

use crate::types::OrderLocation;
use std::collections::HashMap;
use vstd::prelude::*;

verus! {

/// An index from order id to arena slot.
#[derive(Debug)]
pub struct OrderRegistry {
    pub _asset_view: HashMap<u128, usize>,
}

impl View for OrderRegistry {
    type V = Map<u128, usize>;

    open spec fn view(&self) -> Map<u128, usize> {
        self._asset_view@
    }
}

impl OrderRegistry {
    /// An empty index.
    pub fn new() -> (r: Self)
        ensures
            r@ == Map::<u128, usize>::empty(),
    {
        Self { _asset_view: HashMap::new() }
    }

    /// Records that the order `order_id` is in slot `idx`. Returns the slot
    /// that was recorded for it before, if any.
    pub fn insert(&mut self, order_id: u128, idx: usize) -> (r: Option<usize>)
        ensures
            final(self)@ == old(self)@.insert(order_id, idx),
            r == if old(self)@.contains_key(order_id) {
                Some(old(self)@[order_id])
            } else {
                None
            },
    {
        self._asset_view.insert(order_id, idx)
    }

    /// Whether a slot is recorded for the order.
    pub fn order_exist(&self, order_id: u128) -> (r: bool)
        ensures
            r == self@.contains_key(order_id),
    {
        self._asset_view.contains_key(&order_id)
    }

    /// The slot recorded for an order of the index.
    pub fn get_idx(&self, order_id: u128) -> (r: &usize)
        requires
            self@.contains_key(order_id),
        ensures
            *r == self@[order_id],
    {
        self._asset_view.get(&order_id).unwrap()
    }

    /// Forgets the order. Returns the slot that was recorded for it, if any.
    pub fn delete_key(&mut self, order_id: u128) -> (r: Option<usize>)
        ensures
            final(self)@ == old(self)@.remove(order_id),
            r == if old(self)@.contains_key(order_id) {
                Some(old(self)@[order_id])
            } else {
                None
            },
    {
        self._asset_view.remove(&order_id)
    }
}

/// The registry of the engine: where each resting order lives.
#[derive(Debug)]
pub struct GlobalOrderRegistry {
    pub map: HashMap<u128, OrderLocation>,
}

impl View for GlobalOrderRegistry {
    type V = Map<u128, OrderLocation>;

    open spec fn view(&self) -> Map<u128, OrderLocation> {
        self.map@
    }
}

impl GlobalOrderRegistry {
    /// An empty registry.
    pub fn new() -> (r: Self)
        ensures
            r@ == Map::<u128, OrderLocation>::empty(),
    {
        Self { map: HashMap::new() }
    }

    /// Where the order rests, if it is registered.
    pub fn get_details(&self, global_order_id: &u128) -> (r: Option<&OrderLocation>)
        ensures
            r == if self@.contains_key(*global_order_id) {
                Some(&self@[*global_order_id])
            } else {
                None
            },
    {
        self.map.get(global_order_id)
    }

    /// Takes the order out of the registry. Returns where it was, if it was
    /// registered.
    pub fn delete(&mut self, global_order_id: &u128) -> (r: Option<OrderLocation>)
        ensures
            final(self)@ == old(self)@.remove(*global_order_id),
            r == if old(self)@.contains_key(*global_order_id) {
                Some(old(self)@[*global_order_id])
            } else {
                None
            },
    {
        self.map.remove(global_order_id)
    }

    /// Registers the order at `orderlocation`. Returns where it was
    /// registered before, if it was.
    pub fn insert(&mut self, global_order_id: u128, orderlocation: OrderLocation) -> (r: Option<
        OrderLocation,
    >)
        ensures
            final(self)@ == old(self)@.insert(global_order_id, orderlocation),
            r == if old(self)@.contains_key(global_order_id) {
                Some(old(self)@[global_order_id])
            } else {
                None
            },
    {
        self.map.insert(global_order_id, orderlocation)
    }
}

} // verus!
