use vstd::prelude::*;

use crate::parser::{parse_custom_sections, wasm_custom_sections};

verus! {

/// Raw WebAssembly bytes alongside the path they were read from.
#[derive(Debug)]
pub struct WasmModule {
    pub path: String,
    pub bytes: Vec<u8>,
}

/// Why bytes were not accepted as a WebAssembly module.
#[derive(Debug)]
pub enum LoadError {
    /// The bytes do not start with the WebAssembly magic header `\0asm`.
    BadMagic,
    /// A WebAssembly payload failed to parse.
    Malformed(wasmparser::BinaryReaderError),
}

/// `b` starts with the WebAssembly magic header `\0asm`.
pub open spec fn has_wasm_magic(b: Seq<u8>) -> bool {
    &&& b.len() >= 4
    &&& b[0] == 0x00u8
    &&& b[1] == 0x61u8
    &&& b[2] == 0x73u8
    &&& b[3] == 0x6du8
}

/// Walks every payload of the binary and fails on the first one that does
/// not parse.
pub fn validate_wasm_structure(bytes: &[u8]) -> (r: Result<(), wasmparser::BinaryReaderError>)
    ensures
        r is Ok <==> wasm_custom_sections(bytes@).1,
{
    let (_sections, failure) = parse_custom_sections(bytes);
    match failure {
        Some(e) => Err(e),
        None => Ok(()),
    }
}

/// Accepts bytes read from `path` as a WebAssembly module: the magic header
/// is checked first, then every payload must parse.
pub fn check_wasm(path: String, bytes: Vec<u8>) -> (r: Result<WasmModule, LoadError>)
    ensures
        match r {
            Ok(m) => m.path == path && m.bytes@ == bytes@ && has_wasm_magic(bytes@) && wasm_custom_sections(
                bytes@,
            ).1,
            Err(LoadError::BadMagic) => !has_wasm_magic(bytes@),
            Err(LoadError::Malformed(_)) => has_wasm_magic(bytes@) && !wasm_custom_sections(bytes@).1,
        },
{
    if bytes.len() < 4 || bytes[0] != 0x00u8 || bytes[1] != 0x61u8 || bytes[2] != 0x73u8 || bytes[3] != 0x6du8 {
        return Err(LoadError::BadMagic);
    }
    match validate_wasm_structure(bytes.as_slice()) {
        Ok(()) => Ok(WasmModule { path, bytes }),
        Err(e) => Err(LoadError::Malformed(e)),
    }
}

} // verus!
