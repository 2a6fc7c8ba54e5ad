//! Completion-aware asynchronous sequences and their combinator algebra.
//!
//! A *completion* operation is an asynchronous state machine with a polling
//! interface and one extra obligation on the caller: once a poll has reported
//! "not finished", the operation must be driven to completion before it is
//! discarded.  This crate provides the two foundational interfaces (a
//! single-value operation and a sequence of values), sources that produce
//! such sequences, the adapters that transform, filter, bound and concatenate
//! them, and the terminal reductions that drive a sequence to a single value.
//!
//! Every stream and every single-value operation carries a mathematical
//! model: the sequence of items it has yielded so far, and a transition
//! relation saying exactly what one poll may do.  The contracts of the
//! adapters are stated against that model and verified.

pub mod blocking;
pub mod contract;
pub mod ext;
pub mod laws;
pub mod lift;
pub mod poll;
pub mod reduce;
pub mod seq_facts;
pub mod sequencing;
pub mod source;
pub mod then;
pub mod transform;
