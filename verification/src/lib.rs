//! Discovery of return-terminated instruction sequences ("gadgets") in
//! x86-64 code, and synthesis of stack payloads that chain them: register
//! loads, a memory-write primitive, a system-call invocation, and the
//! shell-spawning orchestration built from those three.

pub mod gadget;
pub mod instr;
pub mod replay;
pub mod rop;
pub mod segment;
