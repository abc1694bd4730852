//! A small task-tracker library: task records with validated titles and due
//! dates, a store that keeps them sorted and assigns stable identifiers, and
//! a codec for the persisted document.

pub mod codec;
pub mod dates;
pub mod menu;
pub mod text;
pub mod todo_error;
pub mod todo_item;
pub mod todo_store;
