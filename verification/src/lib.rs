//! A minimal in-process work scheduler: work items are registered with an
//! engine, driven through an execute/poll lifecycle, and archived once they
//! report completion.

pub mod work;
