//! SLEIGH runtime support: address-space descriptions, context variables,
//! emulator memory state, p-code templates, and the p-code snippet compiler.
pub mod space;
pub mod context;
pub mod opcode;
pub mod globalcontext;
pub mod memstate;
pub mod semantics;
pub mod pcodecompile;
pub mod pcodeparse;
pub mod loadimage_xml;
pub mod emulate;
pub mod marshal;
pub mod ctxsnapshot;
pub mod trackdb;
pub mod ctxcodec;
