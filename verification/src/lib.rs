//! Verified core of server/browser hydration: serialized-data identifiers and
//! their allocation scopes, a cursor over a DOM tree model, and the queue of
//! route paths awaiting a speculative preload.

pub mod decimal;
pub mod id;
pub mod scope;
pub mod draw;
pub mod dom;
pub mod mount;
pub mod cursor;
pub mod preload;
pub mod trace;
