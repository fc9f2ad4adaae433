//! Link-time weaving of embedded assembly blocks.
//!
//! Object files and static archives may carry a custom metadata section whose
//! payload is a sequence of null-terminated assembly blocks. This library
//! holds the verified logic of the tool that weaves those blocks into a
//! linked binary: scanning the binary module container into sections,
//! extracting the assembly blocks, resolving archive members, planning the
//! assembler and linker invocations, and normalizing the linked artifact by
//! dropping the leftover metadata sections and rewriting a canonical header.
//!
//! Process and file-system work (spawning the assembler and the linker,
//! reading and writing artifacts) lives outside this crate; everything here
//! is pure logic over byte vectors.

pub mod archive;
pub mod error;
pub mod extract;
pub mod leb;
pub mod link;
pub mod normalize;
pub mod scan;
pub mod select;
pub mod weave;
