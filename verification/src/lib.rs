//! Reading Minecraft NBT data, rendering it as SNBT, shaping it into a tree for
//! display and editing, and keeping the viewer's state between frames.

pub mod bytes;
pub mod edit;
pub mod gzip;
pub mod nbt;
pub mod parse;
pub mod snbt;
pub mod text;
pub mod tree;
pub mod viewer;

pub use crate::gzip::decompress_file;
use crate::gzip::{gzip_header_found, gzip_inflate};
use crate::nbt::{RootTag, RootV};
use crate::parse::{error_text, root_of, NbtError};
use vstd::prelude::*;

verus! {

/// Why a file could not be loaded.
#[derive(Debug, PartialEq, Eq)]
pub enum LoadError {
    /// The data is not valid NBT.
    Nbt(NbtError),
    /// The gzip stream failed before the NBT data ended: the decoder's error text.
    Gzip(String),
}

/// The mathematical value of a [`LoadError`].
pub enum LoadErrorV {
    Nbt(NbtError),
    Gzip(Seq<char>),
}

impl View for LoadError {
    type V = LoadErrorV;

    open spec fn view(&self) -> LoadErrorV {
        match self {
            LoadError::Nbt(e) => LoadErrorV::Nbt(*e),
            LoadError::Gzip(m) => LoadErrorV::Gzip(m@),
        }
    }
}

/// The message shown for a load error.
pub open spec fn load_error_text(e: LoadErrorV) -> Seq<char> {
    match e {
        LoadErrorV::Nbt(n) => error_text(n),
        LoadErrorV::Gzip(m) => m,
    }
}

impl LoadError {
    /// The message shown for this error.
    pub fn message(&self) -> (s: String)
        ensures
            s@ == load_error_text(self@),
    {
        match self {
            LoadError::Nbt(e) => e.message(),
            LoadError::Gzip(m) => m.clone(),
        }
    }
}

/// `root_of` with its errors taken as load errors.
pub open spec fn nbt_result(r: Result<RootV, NbtError>) -> Result<RootV, LoadErrorV> {
    match r {
        Ok(v) => Ok(v),
        Err(e) => Err(LoadErrorV::Nbt(e)),
    }
}

/// What loading a file gives: gzip data is unpacked first. If the unpacked
/// bytes run out before the NBT does and the gzip stream did not end cleanly,
/// the error is the one the decoder stopped on, as reading the NBT straight
/// from the decoder would have met it.
pub open spec fn load_of(data: Seq<u8>) -> Result<RootV, LoadErrorV> {
    if gzip_header_found(data) {
        let (bytes, failure) = gzip_inflate(data);
        match (root_of(bytes), failure) {
            (Err(NbtError::UnexpectedEof), Some(m)) => Err(LoadErrorV::Gzip(m)),
            (r, _) => nbt_result(r),
        }
    } else {
        nbt_result(root_of(data))
    }
}

/// Parses an NBT document from `data`. `name` names where the data came from
/// (a file name); the root tag keeps the name stored in the data.
///
/// # Errors
///
/// Returns an error exactly when `data` is not valid NBT, as [`root_of`] states.
pub fn parse_nbt_file(data: &[u8], name: &str) -> (r: Result<RootTag, NbtError>)
    ensures
        match r {
            Ok(t) => root_of(data@) == Ok::<RootV, NbtError>(t@),
            Err(e) => root_of(data@) == Err::<RootV, NbtError>(e),
        },
{
    RootTag::from_raw(data)
}

/// Loads an NBT file's contents, gzip-compressed or not.
///
/// # Errors
///
/// Returns an error exactly when [`load_of`] does.
pub fn load_nbt_file(data: Vec<u8>, name: &str) -> (r: Result<RootTag, LoadError>)
    ensures
        match r {
            Ok(t) => load_of(data@) == Ok::<RootV, LoadErrorV>(t@),
            Err(e) => load_of(data@) == Err::<RootV, LoadErrorV>(e@),
        },
        data@.len() == 0 || data@[0] != 0x1f ==> match r {
            Ok(t) => root_of(data@) == Ok::<RootV, NbtError>(t@),
            Err(e) => root_of(data@) matches Err(n) && e == LoadError::Nbt(n),
        },
{
    match decompress_file(data) {
        Ok(inflated) => {
            let r = parse_nbt_file(inflated.bytes.as_slice(), name);
            match r {
                Ok(t) => Ok(t),
                Err(NbtError::UnexpectedEof) => match inflated.failure {
                    Some(m) => Err(LoadError::Gzip(m)),
                    None => Err(LoadError::Nbt(NbtError::UnexpectedEof)),
                },
                Err(e) => Err(LoadError::Nbt(e)),
            }
        },
        Err(raw) => match parse_nbt_file(raw.as_slice(), name) {
            Ok(t) => Ok(t),
            Err(e) => Err(LoadError::Nbt(e)),
        },
    }
}

} // verus!
