use vstd::prelude::*;

verus! {

/// Identifier of an item type
pub type ItemId = u32;

/// The type of an item. It contains the behavior and the texture of the item.
/// This is the data provided by the creator of the item.
#[derive(Debug, Clone)]
pub enum ItemType {
    NormalItem { texture: String },
}

/// A general item in-memory representation
#[derive(Debug, Clone)]
pub struct Item {
    pub name: String,
    pub ty: ItemType,
}

} // verus!
