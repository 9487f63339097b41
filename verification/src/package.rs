//! Game packages: a compressed archive (zip family) whose `code.wasm` entry
//! is the guest module's bytecode. Loading extracts that entry; building
//! wraps a ready module into a fresh archive. (Shrinking a module before
//! wrapping is the packaging tool's business: the collector it uses can
//! abort on malformed modules, which no contract here could admit.)

use vstd::prelude::*;

verus! {

/// A loaded package: the guest module's bytecode.
#[derive(Debug, Clone)]
pub struct Package {
    pub wasm_module: Vec<u8>,
}

/// Why a package failed to load.
#[derive(Debug)]
pub enum LoadError {
    /// The archive could not be read through.
    Io,
    /// The archive is not a well-formed package.
    MalformedPackage,
}

/// The `code.wasm` entry of an archive, decompressed — a function of the
/// archive bytes alone — or nothing, where the bytes are not an archive
/// with such an entry.
pub uninterp spec fn wasm_entry(archive: Seq<u8>) -> Option<Seq<u8>>;

/// Relies on zip's `ZipArchive`: opens the archive over an in-memory
/// cursor, finds the `code.wasm` entry by name, and inflates it whole. On
/// bytes held in memory the outcome is a function of the bytes alone.
#[verifier::external_body]
fn extract_wasm_entry(archive: &[u8]) -> (r: Result<Vec<u8>, LoadError>)
    ensures
        match r {
            Ok(bytes) => wasm_entry(archive@) == Some(bytes@),
            Err(_) => wasm_entry(archive@) is None,
        },
{
    let mut zip_archive = match zip::ZipArchive::new(std::io::Cursor::new(archive)) {
        Ok(a) => a,
        Err(zip::result::ZipError::Io(_)) => return Err(LoadError::Io),
        Err(_) => return Err(LoadError::MalformedPackage),
    };
    let mut code = Vec::new();
    let outcome = match zip_archive.by_name("code.wasm") {
        Ok(mut file) => match std::io::Read::read_to_end(&mut file, &mut code) {
            Ok(_) => Ok(code),
            Err(_) => Err(LoadError::Io),
        },
        Err(_) => Err(LoadError::MalformedPackage),
    };
    outcome
}

/// Loads a package from archive bytes: exactly the archives holding a
/// `code.wasm` entry load, and the package carries that entry's bytes.
pub fn load_package(archive: &[u8]) -> (r: Result<Package, LoadError>)
    ensures
        match r {
            Ok(p) => wasm_entry(archive@) == Some(p.wasm_module@),
            Err(_) => wasm_entry(archive@) is None,
        },
{
    match extract_wasm_entry(archive) {
        Ok(bytes) => Ok(Package { wasm_module: bytes }),
        Err(e) => Err(e),
    }
}

/// The package archive wrapping a module: an `assets/` directory and the
/// module under `code.wasm`, written with the default options, whose
/// timestamp is fixed — a function of the module bytes alone.
pub uninterp spec fn archive_of(module: Seq<u8>) -> Option<Seq<u8>>;

/// Relies on zip's `ZipWriter` over an in-memory cursor, with the default
/// file options (whose timestamp is the fixed epoch of the format), so the
/// archive is a function of the module bytes alone.
#[verifier::external_body]
fn wrap_module(module: &[u8]) -> (r: Option<Vec<u8>>)
    ensures
        match r {
            Some(archive) => archive_of(module@) == Some(archive@),
            None => archive_of(module@) is None,
        },
{
    let cursor = std::io::Cursor::new(Vec::new());
    let mut writer = zip::ZipWriter::new(cursor);
    let options: zip::write::SimpleFileOptions = Default::default();
    let headers = writer.add_directory("assets/", options).is_err() || writer.start_file(
        "code.wasm",
        options,
    ).is_err();
    if headers || std::io::Write::write_all(&mut writer, module).is_err() {
        return None;
    }
    match writer.finish() {
        Ok(cursor) => Some(cursor.into_inner()),
        Err(_) => None,
    }
}

/// Builds a distributable package archive around a module.
pub fn build_package(module: &[u8]) -> (r: Option<Vec<u8>>)
    ensures
        match r {
            Some(archive) => archive_of(module@) == Some(archive@),
            None => archive_of(module@) is None,
        },
{
    wrap_module(module)
}

} // verus!
