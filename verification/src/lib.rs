//! Reconstruction of crashed-process call stacks from post-mortem snapshots.
//!
//! The crate parses Breakpad-style text symbol files, walks raw thread stacks
//! with trust-ranked unwinding strategies (call-frame information, frame
//! pointers, stack scanning), and resolves instruction addresses to function
//! names and source locations.

pub mod call_stack;
pub mod cfi_eval;
pub mod code_module;
pub mod digits;
pub mod errors;
pub mod frame_info;
pub mod memory;
pub mod minidump;
pub mod process_state;
pub mod resolved_stack_frame;
pub mod resolver;
pub mod stack_frame;
pub mod stack_walker;
pub mod symbol_store;
pub mod tokens;
pub mod utils;

pub use call_stack::CallStack;
pub use code_module::{CodeModule, CodeModuleId};
pub use errors::Error;
pub use frame_info::FrameInfoMap;
pub use process_state::{ProcessResult, ProcessState};
pub use resolved_stack_frame::ResolvedStackFrame;
pub use resolver::Resolver;
pub use stack_frame::{FrameTrust, StackFrame};
pub use symbol_store::SymbolStore;
pub use utils::path_to_bytes;
