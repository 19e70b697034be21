//! A register machine over segmented memory.
//!
//! The machine executes packed 32-bit instruction words against a state of
//! eight 32-bit registers, a table of independently sized word segments, a
//! stack of freed segment ids, and a program counter into segment 0.
//! `decode` extracts and assembles instruction fields; `machine` holds the
//! state and the opcode handlers.
pub mod decode;
pub mod machine;
