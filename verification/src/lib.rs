//! A gate-level logic simulator with a multi-layer board editor model.
//!
//! A [`Board`] is a stack of grids of [`Tile`]s. Net extraction collapses its
//! conductors into nets, the lowering turns every driver into a register so
//! feedback loops are legal while a signal still advances one driver per
//! tick, and [`Sim`] runs the resulting [`Circuit`] on the reference
//! [`Interpreter`] and answers per-cell questions.
//!
//! For throughput a circuit is optimized and compiled to a flat tape
//! ([`tape::Compiled`]) that the scalar and 64-lane batch engines run; both
//! are proved to agree with the interpreter on the unoptimized circuit.

pub mod batch;
pub mod bench;
pub mod board;
pub mod capture;
pub mod circuit;
pub mod demos;
pub mod display;
pub mod editor;
pub mod hud;
pub mod entity;
pub mod interp;
pub mod lower;
pub mod net;
pub mod opt;
pub mod scalar;
pub mod sim;
pub mod tape;
pub mod tile;
pub mod timing;
pub mod uf;

pub use board::{Board, Cell};
pub use circuit::{BuildError, Circuit, CircuitBuilder, GateOp, InstData, Instruction, Reg, Register, Signal};
pub use interp::{Backend, Interpreter};
pub use lower::{compile, BoardMap, CompileError, Compiled};
pub use net::{extract, NetId, Nets};
pub use sim::Sim;
pub use tile::{Direction, GateKind, Tile};
