//! Read-only analysis engine for x86-64 module images and `cs2-dumper`
//! symbol tables: section listing, signature scanning with wildcards,
//! disassembly annotated with dumper symbols, and discovery of the game's
//! processes and Steam library folders.

pub mod text;
pub mod seqs;
pub mod number;
pub mod pattern;
pub mod image;
pub mod disasm;
pub mod symbols;
pub mod environment;

pub use disasm::{disassemble, DecodedInstruction, SymbolMap};
pub use environment::{parse_steam_library_folders, select_cs2_processes, Cs2Environment, Cs2Process};
pub use image::{scan_pattern, try_scan_pattern, ImageError, ImageSection, ModuleImage, PatternMatch, SectionInfo};
pub use number::{parse_u64, NumberError};
pub use pattern::{Pattern, PatternError};
pub use symbols::{collect_symbol_file, load_symbol_map, load_symbols, LoadedSymbol, SymbolError};
