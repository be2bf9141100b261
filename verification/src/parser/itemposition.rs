use super::position::Position;
use vstd::prelude::*;

verus! {

/// An item together with the span of the input it was read from.
#[derive(PartialEq, Debug)]
pub struct ItemPosition<I>(pub Position, pub I);

impl<I: View> View for ItemPosition<I> {
    type V = ItemPosition<I::V>;

    open spec fn view(&self) -> ItemPosition<I::V> {
        ItemPosition(self.0, self.1@)
    }
}

impl<I> ItemPosition<I> {
    /// `item` at the span of `length` bytes from `start`.
    pub fn new(start: usize, length: usize, item: I) -> (r: ItemPosition<I>)
        ensures
            r == ItemPosition(Position { start, length }, item),
    {
        ItemPosition(Position::new(start, length), item)
    }

    /// The same span around another item.
    pub fn replace<U>(&self, x: U) -> (r: ItemPosition<U>)
        ensures
            r == ItemPosition(self.0, x),
    {
        ItemPosition(self.0, x)
    }
}

} // verus!
