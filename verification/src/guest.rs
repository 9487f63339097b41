//! The guest game fixture: the code that runs inside the sandboxed module.
//! Its handle table, serialization and game rules are ordinary logic, so
//! they live here, verified; the host side talks to them through
//! [`crate::host`].

pub mod game;
pub mod instance;
pub mod keys;
pub mod serial;
pub mod squares;
