//! A rewriting engine for ABC, a language of nine combinators.
//!
//! Programs are terms, and running a program rewrites its term toward a
//! normal form. This crate holds
//!
//! - the mathematical model: terms ([`term`]), what a term store holds
//!   ([`heap`]), what rewriting means ([`semantics`]), what completion means
//!   ([`completion`]) and how terms are written ([`syntax`]);
//! - the contracts of a term store and of the handler that answers bangs
//!   ([`container`]);
//! - a store that meets these contracts ([`store`]), with its rewriter
//!   ([`machine`]), its completion pass, its collector ([`collect`]) and its
//!   reader and writer;
//! - laws of the rewriter, the environment and the collector ([`laws`]), and
//!   of the reader and the writer ([`roundtrip`]).
//!
//! Every function is verified against its contract, but for three small
//! wrappers around `Rc<str>`, whose contracts are taken from the
//! documentation of the standard library. A [`Store`] is made with
//! [`Store::new`] and used through [`Container`] and [`Effects`].

pub mod collect;
pub mod completion;
pub mod container;
pub mod heap;
pub mod laws;
pub mod machine;
pub mod roundtrip;
pub mod semantics;
pub mod store;
pub mod syntax;
pub mod term;
mod text;

pub use container::{Container, Effects, Handler};
pub use heap::Heap;
pub use machine::Machine;
pub use store::{Handle, Store};
pub use term::{Constant, Error, Kind, Term, Variable};
