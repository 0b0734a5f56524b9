//! Unpacking of PCK0 resource packages and of the field-masked Lua 5.1 dumps
//! inside them.
//!
//! - [`pck`] reads packages, [`pck_format`] says how they are written and what
//!   reading makes of that, [`pck_laws`] what reading says byte by byte;
//! - [`lua`] unmasks Lua dumps, [`lua_chunk`] says which functions they hold
//!   and that unmasking undoes masking, [`lua_laws`] what it does to the bytes,
//!   [`lua_refusals`] what a dump is refused for;
//! - [`key`] finds the key of the masking in the launcher;
//! - [`extract`] goes from the stored bytes of an entry to what is written,
//!   [`output`] says where, and [`output_laws`] character by character;
//! - [`cli`] holds the arguments and the search for packages, [`report`] and
//!   [`messages`] what is said;
//! - [`bytes`] and [`text`] hold numbers as bytes and as text, [`text_laws`]
//!   says what numbers, columns, lines and messages look like.

pub mod bytes;
pub mod cli;
pub mod extract;
pub mod key;
pub mod lua;
pub mod lua_chunk;
pub mod lua_laws;
pub mod lua_refusals;
pub mod messages;
pub mod output;
pub mod output_laws;
pub mod pck;
pub mod pck_format;
pub mod pck_laws;
pub mod report;
pub mod text;
pub mod text_laws;
