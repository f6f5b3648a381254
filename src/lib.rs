//! Share one single-pass iterator between any number of independent cursors.
//!
//! Every item is pulled from the underlying iterator at most once; cursors
//! that arrive later replay the cached prefix and only pull past its end.
//! Two flavours exist: [`CopyReiterate`] hands out copies of `Copy` items,
//! and [`Reiterate`] keeps owned strings in address-stable storage and hands
//! out `&str` borrows of them.
//!
//! A cursor is only a position: advancing it takes the adaptor by `&mut`, so
//! a second pull can never begin while one is in progress, and dropping a
//! cursor has no effect on anything shared.

mod copying;
pub mod model;
mod stable;

pub use copying::{CopyReiterate, CopyReiterator};
pub use stable::{frozen_strings, str_view, strings_view, Reiterate, Reiterator};
