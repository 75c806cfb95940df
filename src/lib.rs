//! A mail-capture library: records of "sent" mail, their canonical file
//! names, and the logic of a directory-backed store that holds them.
//!
//! - `decimal`: decimal text of the numbers in a file name.
//! - `names`: the file name of a record, and the grammar of such names.
//! - `listing`: which directory entries are mail files, and their order.
//! - `mail`: the record, its options, and the clock that keeps successive
//!   records apart.
//! - `store`: the store's root and the paths of its files.
pub mod decimal;
pub mod names;
pub mod listing;
pub mod mail;
pub mod store;
