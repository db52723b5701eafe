//! The insert command: append content to a resource of a named storage.
//!
//! The command decides; it reads and writes nothing. Its caller resolves
//! the storage name and lists the files of the location, and performs the
//! write that the command hands back.

use crate::backend::{spec_listed_stream, spec_listing, StorageType, StoredFile, WriteOp, WriteOpView};
use crate::format::Format;
use crate::record::{spec_frame, spec_valid_len};
use crate::resource_id::{lemma_text_parse, spec_parse, ResourceId};
use crate::storage::{spec_entry, spec_insert, spec_open, Storage};
use vstd::prelude::*;
use vstd::string::*;
use vstd::utf8::encode_utf8;

verus! {

/// Why a command failed before any write.
#[derive(Debug)]
pub enum AppError {
    /// No storage of this name is known under the root directory.
    StorageNotFound(String),
    /// The text given as a resource identifier is not canonical.
    Parse,
}

/// Where a storage name led: the location of the storage and, if one was
/// recorded for it, its kind.
pub struct StorageLocation {
    pub path: String,
    pub storage_type: Option<StorageType>,
}

/// The arguments of the insert command.
#[derive(Clone, Debug)]
pub struct Insert {
    /// Root directory of the managed folder.
    pub root_dir: String,
    /// Storage name.
    pub storage: String,
    /// Identifier of the resource to append to.
    pub id: String,
    /// Content to append to the resource.
    pub content: String,
    /// Format of the content; `Raw` where none is given.
    pub format: Option<Format>,
    /// Kind of the storage, used where none is recorded for it; `File`
    /// where none is given either.
    pub kind: Option<StorageType>,
}

/// The kind to open a storage with: the recorded one, else the requested
/// one, else `File`.
pub open spec fn spec_storage_type(
    recorded: Option<StorageType>,
    requested: Option<StorageType>,
) -> StorageType {
    match recorded {
        Some(kind) => kind,
        None => match requested {
            Some(kind) => kind,
            None => StorageType::File,
        },
    }
}

/// The format to insert under: the requested one, else `Raw`.
pub open spec fn spec_format(requested: Option<Format>) -> Format {
    match requested {
        Some(format) => format,
        None => Format::Raw,
    }
}

impl Insert {
    /// Runs the command on what its caller found: `located` is where the
    /// storage name led, `None` if nowhere, and `listing` holds the files
    /// of that location.
    ///
    /// Fails with `StorageNotFound`, carrying the storage name, exactly
    /// when the name led nowhere; else with `Parse` exactly when the
    /// identifier is not canonical. Otherwise the content's bytes are
    /// inserted under the identifier into the storage opened on the
    /// listing, and the storage comes back with the write that stores the
    /// new entry.
    pub fn run(&self, located: Option<StorageLocation>, listing: Vec<StoredFile>) -> (result:
        Result<(Storage, WriteOp), AppError>)
        ensures
            match result {
                Ok((storage, op)) => {
                    &&& located is Some
                    &&& spec_parse(self.id@) is Ok
                    &&& storage.wf()
                    &&& storage.spec_location() == located->0.path@
                    &&& storage.spec_storage_type() == spec_storage_type(
                        located->0.storage_type,
                        self.kind,
                    )
                    &&& storage@ == spec_insert(
                        spec_open(spec_listing(listing@)),
                        spec_parse(self.id@)->Ok_0,
                        spec_format(self.format),
                        encode_utf8(self.content@),
                    )
                    &&& op@ == (WriteOpView::Append {
                        name: self.id@,
                        offset: spec_valid_len(
                            spec_listed_stream(spec_listing(listing@), spec_parse(self.id@)->Ok_0),
                        ),
                        bytes: spec_frame(
                            spec_entry(spec_format(self.format), encode_utf8(self.content@)),
                        ),
                    })
                },
                Err(AppError::StorageNotFound(name)) => located is None && name@ == self.storage@,
                Err(AppError::Parse) => located is Some && spec_parse(self.id@) is Err,
            },
    {
        let (path, recorded) = match located {
            Some(location) => (location.path, location.storage_type),
            None => {
                return Err(AppError::StorageNotFound(self.storage.clone()));
            },
        };
        let storage_type = match recorded {
            Some(kind) => kind,
            None => match self.kind {
                Some(kind) => kind,
                None => StorageType::File,
            },
        };
        let format = match self.format {
            Some(format) => format,
            None => Format::Raw,
        };
        let mut storage = Storage::new(path, storage_type, listing);
        let id = match ResourceId::parse(self.id.as_str()) {
            Ok(id) => id,
            Err(_) => {
                return Err(AppError::Parse);
            },
        };
        proof {
            lemma_text_parse(self.id@);
        }
        let op = storage.insert(id, self.content.as_str().as_bytes(), format);
        Ok((storage, op))
    }
}

} // verus!
