//! A sentinel-based circular doubly-linked list whose insertions hand back
//! handles; a handle removes exactly its own element in constant time.
//!
//! The ring lives in an arena of slots linked by index. Slot 0 is the
//! sentinel. A handle names a slot together with the stamp that slot carried
//! when the element was inserted, so a handle whose element is gone is
//! recognised and refused instead of corrupting the ring.
//!
//! A handle does not borrow its list, so each of its operations takes the
//! list as an argument, and dropping a handle leaves its element in place:
//! `ListHandle::release` takes an element out and drops its value. Dropping
//! the list drops the values still in it.
mod list;
mod ring;

pub use list::{Handle, HandleError, Iter, IterMut, List, ListHandle};
