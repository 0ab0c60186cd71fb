//! Which format a model path has.

use vstd::prelude::*;
use vstd::string::StringExecFns;

use crate::formats::desc::{texts_view, ModelDesc, ModelV};
use crate::formats::error::{Fault, FormatError};
use crate::formats::gguf;
use crate::text::text_eq;

verus! {

/// What a model path leads to.
#[derive(Debug, Clone, Copy, PartialEq, Eq, Structural)]
pub enum Source {
    /// A directory: an MLX model.
    Directory,
    /// A safetensors file: the MLX model in the directory that it stands in.
    BesideShard,
    /// Any other file: a GGUF model, if its magic says so.
    SingleFile,
}

/// What a model path leads to, by whether it is a directory and by its extension.
pub open spec fn source_of(is_dir: bool, extension: Seq<char>) -> Source {
    if is_dir {
        Source::Directory
    } else if extension == "safetensors"@ {
        Source::BesideShard
    } else {
        Source::SingleFile
    }
}

/// What a model path leads to, by whether it is a directory and by its extension.
pub fn classify(is_dir: bool, extension: &str) -> (r: Source)
    ensures
        r == source_of(is_dir, extension@),
{
    if is_dir {
        Source::Directory
    } else if text_eq(extension, "safetensors") {
        Source::BesideShard
    } else {
        Source::SingleFile
    }
}

/// The model in a single file with contents `data`. A file too short to hold a magic
/// number cannot be read; one with another magic number is of no known format.
pub open spec fn file_model(path: Seq<char>, data: Seq<u8>) -> Result<ModelV, Fault> {
    if data.len() < 4 {
        Err(Fault::Io("failed to fill whole buffer"@))
    } else {
        match gguf::parsed(data) {
            Err(Fault::BadMagic(_)) => Err(Fault::UnknownFormat(path)),
            Err(e) => Err(e),
            Ok(m) => Ok(ModelV { weight_files: seq![path], ..m }),
        }
    }
}

/// Loads the model in a single file with contents `data`, and records its path.
pub fn load_file(path: &str, data: &[u8]) -> (r: Result<ModelDesc, FormatError>)
    requires
        data@.len() <= 0x7FFF_FFFF_FFFF_FFFF,
    ensures
        gguf::model_outcome(r) == file_model(path@, data@),
{
    if data.len() < 4 {
        return Err(FormatError::Io("failed to fill whole buffer".to_owned()));
    }
    match gguf::parse(data) {
        Err(FormatError::BadMagic { .. }) => Err(FormatError::UnknownFormat(path.to_owned())),
        Err(e) => Err(e),
        Ok(m) => {
            let mut desc = m;
            let mut files: Vec<String> = Vec::new();
            files.push(path.to_owned());
            proof {
                assert(texts_view(files@) =~= seq![path@]);
            }
            desc.weight_files = files;
            Ok(desc)
        },
    }
}

} // verus!
