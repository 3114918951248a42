//! Layout and routing helpers for an immediate-mode GUI host: a flexbox-style
//! layout engine over integer units, and a client-side page router with an
//! animated transition state machine.

pub mod chat;
pub mod flex;
pub mod router;
pub mod transition;
