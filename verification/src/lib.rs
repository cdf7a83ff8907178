//! Target-independent core of a fast development code generator.
//!
//! The crate lowers a monomorphic, layout-annotated intermediate
//! representation ([`ir`]) to a sequence of requests to a target code
//! emitter ([`backend::Backend`]), one procedure at a time. Compile speed
//! matters more here than the quality of the code.
//!
//! Lowering a procedure has three steps, all driven by an
//! [`engine::Engine`]:
//!
//! 1. the liveness scan ([`liveness`]) finds, for each symbol, the last
//!    statement at which it is seen;
//! 2. the free map ([`free_map`]) turns that table into one release list
//!    per statement;
//! 3. the statements are lowered in order ([`lowering`]), and after each
//!    statement the symbols on its release list are freed.
//!
//! Statements are identified by their index in the pre-order walk of the
//! procedure body. Lowering fails, without recovery, on IR that breaks an
//! invariant of this stage and on constructs that the backend does not
//! lower ([`error`]).
//!
//! A call that fails leaves the engine in a state that its contract
//! names: what was asked of the backend before the error, and what the
//! tables hold. A procedure that names a symbol of the range reserved for
//! scratch symbols is rejected before anything is lowered.
//!
//! What is proved, beyond the contract of each function:
//!
//! - the table of the scan holds the last sighting of each symbol; a
//!   structure is seen wherever a view into it is used, so its entry is
//!   no earlier than that of a view bound to it ([`liveness_proofs`]);
//! - the free map holds exactly the symbols of the table, each once
//!   ([`free_map`]);
//! - an arithmetic operation on operands of different layouts is rejected
//!   before anything is asked of the backend, and what is asked of the
//!   backend depends on the procedure and the context alone
//!   ([`lowering_proofs`]);
//! - each symbol of a procedure body is released exactly once, after the
//!   statement at which it is seen last ([`release_proofs`]);
//! - no symbol is used after its release, and no structure is released
//!   before the last use of a view bound to it ([`order_proofs`]).

pub mod arena;
pub mod backend;
pub mod engine;
pub mod env;
pub mod error;
pub mod free_map;
pub mod ir;
pub mod layout;
pub mod liveness;
pub mod liveness_proofs;
pub mod low_level;
pub mod lowering;
pub mod lowering_proofs;
pub mod order_proofs;
pub mod release_proofs;
pub mod relocation;
pub mod symbol;
pub mod symbol_map;
