//! Backends: where the records of each resource are kept.
//!
//! A backend holds the record streams of a storage location as they stand
//! on the medium, and answers every operation from them. It touches no
//! medium itself: it is opened from the files found at the location, and
//! each operation that changes a stream hands back the one write that
//! brings the medium to the same state.

use crate::record::{
    lemma_scan_truncated, scan, spec_frame, spec_scan, spec_valid_len, spec_views, Entry,
    EntryView,
};
use crate::resource_id::{lemma_parse_text, lemma_text_parse, spec_parse, ParseError, ResourceId};
use vstd::prelude::*;

verus! {

/// Which kind of backend a storage location uses.
#[derive(Clone, Copy, Debug, PartialEq, Eq, Structural)]
pub enum StorageType {
    /// One file per resource, named by the resource's canonical text.
    File,
}

/// A file as found at a storage location.
pub struct StoredFile {
    pub name: String,
    pub bytes: Vec<u8>,
}

/// What a stored file holds.
pub struct StoredFileView {
    pub name: Seq<char>,
    pub bytes: Seq<u8>,
}

impl View for StoredFile {
    type V = StoredFileView;

    open spec fn view(&self) -> StoredFileView {
        StoredFileView { name: self.name@, bytes: self.bytes@ }
    }
}

/// What each file of a listing holds.
pub open spec fn spec_listing(files: Seq<StoredFile>) -> Seq<StoredFileView> {
    files.map_values(|file: StoredFile| file@)
}

/// One write to the medium.
pub enum WriteOp {
    /// Cut the file `name` to `offset` bytes, creating it if there is none,
    /// and write `bytes` at its end.
    Append { name: String, offset: u64, bytes: Vec<u8> },
    /// Remove the file `name`.
    Remove { name: String },
}

/// What a write holds.
pub enum WriteOpView {
    Append { name: Seq<char>, offset: int, bytes: Seq<u8> },
    Remove { name: Seq<char> },
}

impl View for WriteOp {
    type V = WriteOpView;

    open spec fn view(&self) -> WriteOpView {
        match self {
            WriteOp::Append { name, offset, bytes } => WriteOpView::Append {
                name: name@,
                offset: *offset as int,
                bytes: bytes@,
            },
            WriteOp::Remove { name } => WriteOpView::Remove { name: name@ },
        }
    }
}

/// The backend knows no resource under this identifier.
#[derive(Clone, Copy, Debug, PartialEq, Eq, Structural)]
pub struct ResourceNotFound {
    pub id: ResourceId,
}

/// The resources that a listing gives, in the order in which their files
/// come. A file whose name is no canonical identifier gives none, and
/// neither does one that names a resource again.
pub open spec fn spec_listed_ids(listing: Seq<StoredFileView>) -> Seq<ResourceId>
    decreases listing.len(),
{
    if listing.len() == 0 {
        Seq::empty()
    } else {
        let before = spec_listed_ids(listing.drop_last());
        match spec_parse(listing.last().name) {
            Ok(id) => if before.contains(id) {
                before
            } else {
                before.push(id)
            },
            Err(_) => before,
        }
    }
}

/// The record stream that a listing gives for `id`: the bytes of the first
/// file that names it, and nothing where no file does.
pub open spec fn spec_listed_stream(listing: Seq<StoredFileView>, id: ResourceId) -> Seq<u8>
    decreases listing.len(),
{
    if listing.len() == 0 {
        Seq::empty()
    } else if spec_listed_ids(listing.drop_last()).contains(id) {
        spec_listed_stream(listing.drop_last(), id)
    } else if spec_parse(listing.last().name) == Ok::<ResourceId, ParseError>(id) {
        listing.last().bytes
    } else {
        Seq::empty()
    }
}

struct ResourceFile {
    id: ResourceId,
    stream: Vec<u8>,
}

/// The file-per-resource backend.
pub struct FileBackend {
    files: Vec<ResourceFile>,
}

impl FileBackend {
    /// The known resources, in the order in which they became known.
    pub closed spec fn ids(&self) -> Seq<ResourceId> {
        self.files@.map_values(|file: ResourceFile| file.id)
    }

    /// The record stream of `id`; empty where `id` is not known.
    pub closed spec fn stream(&self, id: ResourceId) -> Seq<u8> {
        if self.ids().contains(id) {
            self.files@[self.ids().index_of(id)].stream@
        } else {
            Seq::empty()
        }
    }

    /// Whether the backend is in order: no resource is known twice.
    pub open spec fn wf(&self) -> bool {
        self.ids().no_duplicates()
    }

    /// Whether `id` is known.
    pub open spec fn knows(&self, id: ResourceId) -> bool {
        self.ids().contains(id)
    }

    /// The entries of `id`, in the order in which they were appended.
    pub open spec fn entries(&self, id: ResourceId) -> Seq<EntryView> {
        spec_scan(self.stream(id))
    }

    /// A resource that is not known has an empty stream, and so no entries.
    pub proof fn lemma_unknown_is_empty(&self, id: ResourceId)
        requires
            !self.knows(id),
        ensures
            self.stream(id) == Seq::<u8>::empty(),
            self.entries(id) == Seq::<EntryView>::empty(),
    {
    }

    proof fn lemma_stream_at(&self, i: int)
        requires
            self.wf(),
            0 <= i < self.files@.len(),
        ensures
            self.ids().len() == self.files@.len(),
            self.ids()[i] == self.files@[i].id,
            self.knows(self.files@[i].id),
            self.stream(self.files@[i].id) == self.files@[i].stream@,
    {
        let id = self.files@[i].id;
        assert(self.ids()[i] == id);
        let j = self.ids().index_of(id);
        assert(self.ids()[j] == id);
    }

    fn position(&self, id: ResourceId) -> (found: Option<usize>)
        requires
            self.wf(),
        ensures
            match found {
                Some(i) => i < self.files@.len() && self.files@[i as int].id == id && self.knows(
                    id,
                ) && self.ids().index_of(id) == i,
                None => !self.knows(id),
            },
    {
        let mut i: usize = 0;
        while i < self.files.len()
            invariant
                i <= self.files@.len(),
                self.wf(),
                forall|k: int| 0 <= k < i ==> self.files@[k].id != id,
            decreases self.files@.len() - i,
        {
            if self.files[i].id == id {
                proof {
                    self.lemma_stream_at(i as int);
                    let j = self.ids().index_of(id);
                    assert(self.ids()[j] == id);
                }
                return Some(i);
            }
            i = i + 1;
        }
        proof {
            if self.ids().contains(id) {
                let j = self.ids().index_of(id);
                assert(self.ids()[j] == id);
                assert(self.files@[j].id == id);
            }
        }
        None
    }

    fn attach(&mut self, id: ResourceId, stream: Vec<u8>)
        requires
            old(self).wf(),
            !old(self).knows(id),
        ensures
            final(self).wf(),
            final(self).ids() == old(self).ids().push(id),
            final(self).stream(id) == stream@,
            forall|other: ResourceId|
                other != id ==> final(self).stream(other) == old(self).stream(other),
    {
        let ghost before = *self;
        let ghost count = self.files@.len() as int;
        self.files.push(ResourceFile { id, stream });
        proof {
            assert(self.ids() =~= before.ids().push(id));
            assert(self.wf()) by {
                assert forall|a: int, b: int|
                    0 <= a < self.ids().len() && 0 <= b < self.ids().len() && a != b implies self.ids()[a]
                    != self.ids()[b] by {
                    if a < count && b < count {
                        assert(before.ids()[a] != before.ids()[b]);
                    } else if a < count {
                        assert(before.ids()[a] == self.ids()[a]);
                    } else {
                        assert(before.ids()[b] == self.ids()[b]);
                    }
                }
            }
            self.lemma_stream_at(count);
            assert forall|other: ResourceId| other != id implies self.stream(other)
                == before.stream(other) by {
                if before.knows(other) {
                    let j = before.ids().index_of(other);
                    assert(before.ids()[j] == other);
                    before.lemma_stream_at(j);
                    self.lemma_stream_at(j);
                } else {
                    if self.knows(other) {
                        let j = self.ids().index_of(other);
                        assert(self.ids()[j] == other);
                        assert(j < count);
                        assert(before.ids()[j] == other);
                    }
                }
            }
        }
    }

    /// Opens the backend on the files found at its location. No file at
    /// all is a fresh location, with no resource.
    pub fn open_or_create(listing: Vec<StoredFile>) -> (backend: FileBackend)
        ensures
            backend.wf(),
            backend.ids() == spec_listed_ids(spec_listing(listing@)),
            forall|id: ResourceId|
                backend.stream(id) == spec_listed_stream(spec_listing(listing@), id),
    {
        let mut backend = FileBackend { files: Vec::new() };
        let ghost all = spec_listing(listing@);
        let mut i: usize = 0;
        assert(backend.ids() =~= Seq::<ResourceId>::empty());
        assert(all.take(0) =~= Seq::<StoredFileView>::empty());
        while i < listing.len()
            invariant
                i <= listing@.len(),
                all == spec_listing(listing@),
                backend.wf(),
                backend.ids() == spec_listed_ids(all.take(i as int)),
                forall|id: ResourceId|
                    backend.stream(id) == spec_listed_stream(all.take(i as int), id),
            decreases listing@.len() - i,
        {
            proof {
                assert(all.take(i + 1).drop_last() =~= all.take(i as int));
                assert(all.take(i + 1).last() == listing@[i as int]@);
            }
            match ResourceId::parse(listing[i].name.as_str()) {
                Ok(id) => {
                    if backend.position(id).is_none() {
                        backend.attach(id, listing[i].bytes.clone());
                    }
                },
                Err(_) => {},
            }
            i = i + 1;
        }
        assert(all.take(i as int) =~= all);
        backend
    }

    /// The name of the file that holds `id`.
    pub fn file_name(id: ResourceId) -> (name: String)
        ensures
            name@ == id.spec_text(),
    {
        id.to_string()
    }

    /// Whether `id` is known.
    pub fn contains(&self, id: ResourceId) -> (known: bool)
        requires
            self.wf(),
        ensures
            known == self.knows(id),
    {
        self.position(id).is_some()
    }

    /// The known resources, in the order in which they became known.
    pub fn list_ids(&self) -> (ids: Vec<ResourceId>)
        requires
            self.wf(),
        ensures
            ids@ == self.ids(),
    {
        let mut ids: Vec<ResourceId> = Vec::new();
        let mut i: usize = 0;
        while i < self.files.len()
            invariant
                i <= self.files@.len(),
                ids@ == self.ids().take(i as int),
                self.ids().len() == self.files@.len(),
            decreases self.files@.len() - i,
        {
            ids.push(self.files[i].id);
            assert(ids@ =~= self.ids().take(i + 1));
            i = i + 1;
        }
        assert(self.ids().take(i as int) =~= self.ids());
        ids
    }

    /// The entries of `id` in the order in which they were appended; none
    /// where `id` is not known. A torn or damaged tail of the stream is
    /// left out.
    pub fn read_entries(&self, id: ResourceId) -> (entries: Vec<Entry>)
        requires
            self.wf(),
        ensures
            spec_views(entries@) == self.entries(id),
    {
        match self.position(id) {
            Some(i) => {
                proof {
                    self.lemma_stream_at(i as int);
                }
                scan(self.files[i].stream.as_slice()).entries
            },
            None => {
                let entries: Vec<Entry> = Vec::new();
                assert(spec_views(entries@) =~= Seq::<EntryView>::empty());
                entries
            },
        }
    }

    /// Appends the record of `entry` to the stream of `id`, behind the
    /// entries that the stream holds: a torn tail is cut off first. A
    /// resource that was not known becomes known, last in order. The write
    /// handed back does the same to the file of `id`.
    pub fn append_entry(&mut self, id: ResourceId, entry: &Entry) -> (op: WriteOp)
        requires
            old(self).wf(),
        ensures
            final(self).wf(),
            final(self).ids() == if old(self).knows(id) {
                old(self).ids()
            } else {
                old(self).ids().push(id)
            },
            final(self).stream(id) == old(self).stream(id).take(
                spec_valid_len(old(self).stream(id)),
            ) + spec_frame(entry@),
            forall|other: ResourceId|
                other != id ==> final(self).stream(other) == old(self).stream(other),
            op@ == (WriteOpView::Append {
                name: id.spec_text(),
                offset: spec_valid_len(old(self).stream(id)),
                bytes: spec_frame(entry@),
            }),
    {
        let ghost before = *self;
        let frame = entry.frame();
        let name = id.to_string();
        match self.position(id) {
            Some(i) => {
                proof {
                    before.lemma_stream_at(i as int);
                }
                let mut file = self.files.remove(i);
                let valid = scan(file.stream.as_slice()).valid_len;
                file.stream.truncate(valid);
                let mut tail = frame.clone();
                file.stream.append(&mut tail);
                self.files.insert(i, file);
                proof {
                    assert(self.files@ =~= before.files@.update(i as int, file));
                    assert(self.ids() =~= before.ids());
                    self.lemma_stream_at(i as int);
                    assert forall|other: ResourceId| other != id implies self.stream(other)
                        == before.stream(other) by {
                        if before.knows(other) {
                            let j = before.ids().index_of(other);
                            assert(before.ids()[j] == other);
                            before.lemma_stream_at(j);
                            self.lemma_stream_at(j);
                        }
                    }
                }
                WriteOp::Append { name, offset: valid as u64, bytes: frame }
            },
            None => {
                proof {
                    before.lemma_unknown_is_empty(id);
                    assert(Seq::<u8>::empty().take(0) + spec_frame(entry@) =~= spec_frame(
                        entry@,
                    ));
                }
                self.attach(id, frame.clone());
                WriteOp::Append { name, offset: 0, bytes: frame }
            },
        }
    }

    /// Forgets `id` and all its entries, and hands back the write that
    /// removes its file; reports a resource that is not known, and then
    /// changes nothing.
    pub fn delete(&mut self, id: ResourceId) -> (result: Result<WriteOp, ResourceNotFound>)
        requires
            old(self).wf(),
        ensures
            final(self).wf(),
            match result {
                Ok(op) => {
                    &&& old(self).knows(id)
                    &&& !final(self).knows(id)
                    &&& final(self).ids() == old(self).ids().remove(old(self).ids().index_of(id))
                    &&& forall|other: ResourceId|
                        other != id ==> final(self).stream(other) == old(self).stream(other)
                    &&& op@ == (WriteOpView::Remove { name: id.spec_text() })
                },
                Err(error) => {
                    &&& !old(self).knows(id)
                    &&& error.id == id
                    &&& final(self).ids() == old(self).ids()
                    &&& forall|other: ResourceId|
                        final(self).stream(other) == old(self).stream(other)
                },
            },
    {
        let ghost before = *self;
        match self.position(id) {
            Some(i) => {
                let removed = self.files.remove(i);
                proof {
                    assert(self.ids() =~= before.ids().remove(i as int));
                    assert(self.wf()) by {
                        assert forall|a: int, b: int|
                            0 <= a < self.ids().len() && 0 <= b < self.ids().len() && a
                                != b implies self.ids()[a] != self.ids()[b] by {
                            let a0 = if a < i { a } else { a + 1 };
                            let b0 = if b < i { b } else { b + 1 };
                            assert(self.ids()[a] == before.ids()[a0]);
                            assert(self.ids()[b] == before.ids()[b0]);
                        }
                    }
                    if self.ids().contains(id) {
                        let j = self.ids().index_of(id);
                        assert(self.ids()[j] == id);
                        let j0 = if j < i { j } else { j + 1 };
                        assert(before.ids()[j0] == id);
                    }
                    assert forall|other: ResourceId| other != id implies self.stream(other)
                        == before.stream(other) by {
                        if before.knows(other) {
                            let j0 = before.ids().index_of(other);
                            assert(before.ids()[j0] == other);
                            before.lemma_stream_at(j0);
                            let j = if j0 < i { j0 } else { j0 - 1 };
                            assert(self.files@[j] == before.files@[j0]);
                            self.lemma_stream_at(j);
                        } else {
                            if self.knows(other) {
                                let j = self.ids().index_of(other);
                                assert(self.ids()[j] == other);
                                let j0 = if j < i { j } else { j + 1 };
                                assert(before.ids()[j0] == other);
                            }
                        }
                    }
                }
                Ok(WriteOp::Remove { name: id.to_string() })
            },
            None => Err(ResourceNotFound { id }),
        }
    }
}

/// An open backend of any kind. Every kind offers the same operations with
/// the same meaning; the kind decides only how the medium is laid out.
pub enum Backend {
    File(FileBackend),
}

impl Backend {
    /// The kind of this backend.
    pub open spec fn spec_storage_type(&self) -> StorageType {
        match self {
            Backend::File(_) => StorageType::File,
        }
    }

    /// Whether the backend is in order.
    pub open spec fn wf(&self) -> bool {
        match self {
            Backend::File(inner) => inner.wf(),
        }
    }

    /// The known resources, in the order in which they became known.
    pub open spec fn ids(&self) -> Seq<ResourceId> {
        match self {
            Backend::File(inner) => inner.ids(),
        }
    }

    /// The record stream of `id`; empty where `id` is not known.
    pub open spec fn stream(&self, id: ResourceId) -> Seq<u8> {
        match self {
            Backend::File(inner) => inner.stream(id),
        }
    }

    /// Whether `id` is known.
    pub open spec fn knows(&self, id: ResourceId) -> bool {
        self.ids().contains(id)
    }

    /// The entries of `id`, in the order in which they were appended.
    pub open spec fn entries(&self, id: ResourceId) -> Seq<EntryView> {
        spec_scan(self.stream(id))
    }

    /// A resource that is not known has an empty stream, and so no entries.
    pub proof fn lemma_unknown_is_empty(&self, id: ResourceId)
        requires
            !self.knows(id),
        ensures
            self.stream(id) == Seq::<u8>::empty(),
            self.entries(id) == Seq::<EntryView>::empty(),
    {
        match self {
            Backend::File(inner) => inner.lemma_unknown_is_empty(id),
        }
    }

    /// Opens the backend of the given kind on the files found at its
    /// location.
    pub fn open_or_create(storage_type: StorageType, listing: Vec<StoredFile>) -> (backend:
        Backend)
        ensures
            backend.wf(),
            backend.spec_storage_type() == storage_type,
            backend.ids() == spec_listed_ids(spec_listing(listing@)),
            forall|id: ResourceId|
                backend.stream(id) == spec_listed_stream(spec_listing(listing@), id),
    {
        match storage_type {
            StorageType::File => Backend::File(FileBackend::open_or_create(listing)),
        }
    }

    /// The kind of this backend.
    pub fn storage_type(&self) -> (storage_type: StorageType)
        ensures
            storage_type == self.spec_storage_type(),
    {
        match self {
            Backend::File(_) => StorageType::File,
        }
    }

    /// Whether `id` is known.
    pub fn contains(&self, id: ResourceId) -> (known: bool)
        requires
            self.wf(),
        ensures
            known == self.knows(id),
    {
        match self {
            Backend::File(inner) => inner.contains(id),
        }
    }

    /// The known resources, in the order in which they became known.
    pub fn list_ids(&self) -> (ids: Vec<ResourceId>)
        requires
            self.wf(),
        ensures
            ids@ == self.ids(),
    {
        match self {
            Backend::File(inner) => inner.list_ids(),
        }
    }

    /// The entries of `id` in the order in which they were appended; none
    /// where `id` is not known.
    pub fn read_entries(&self, id: ResourceId) -> (entries: Vec<Entry>)
        requires
            self.wf(),
        ensures
            spec_views(entries@) == self.entries(id),
    {
        match self {
            Backend::File(inner) => inner.read_entries(id),
        }
    }

    /// Appends the record of `entry` to the stream of `id`, behind the
    /// entries that the stream holds, and hands back the write that does
    /// the same to the medium. A resource that was not known becomes known,
    /// last in order.
    pub fn append_entry(&mut self, id: ResourceId, entry: &Entry) -> (op: WriteOp)
        requires
            old(self).wf(),
        ensures
            final(self).wf(),
            final(self).spec_storage_type() == old(self).spec_storage_type(),
            final(self).ids() == if old(self).knows(id) {
                old(self).ids()
            } else {
                old(self).ids().push(id)
            },
            final(self).stream(id) == old(self).stream(id).take(
                spec_valid_len(old(self).stream(id)),
            ) + spec_frame(entry@),
            forall|other: ResourceId|
                other != id ==> final(self).stream(other) == old(self).stream(other),
            op@ == (WriteOpView::Append {
                name: id.spec_text(),
                offset: spec_valid_len(old(self).stream(id)),
                bytes: spec_frame(entry@),
            }),
    {
        match self {
            Backend::File(inner) => inner.append_entry(id, entry),
        }
    }

    /// Forgets `id` and all its entries, and hands back the write that
    /// does the same to the medium; reports a resource that is not known,
    /// and then changes nothing.
    pub fn delete(&mut self, id: ResourceId) -> (result: Result<WriteOp, ResourceNotFound>)
        requires
            old(self).wf(),
        ensures
            final(self).wf(),
            final(self).spec_storage_type() == old(self).spec_storage_type(),
            match result {
                Ok(op) => {
                    &&& old(self).knows(id)
                    &&& !final(self).knows(id)
                    &&& final(self).ids() == old(self).ids().remove(old(self).ids().index_of(id))
                    &&& forall|other: ResourceId|
                        other != id ==> final(self).stream(other) == old(self).stream(other)
                    &&& op@ == (WriteOpView::Remove { name: id.spec_text() })
                },
                Err(error) => {
                    &&& !old(self).knows(id)
                    &&& error.id == id
                    &&& final(self).ids() == old(self).ids()
                    &&& forall|other: ResourceId|
                        final(self).stream(other) == old(self).stream(other)
                },
            },
    {
        match self {
            Backend::File(inner) => inner.delete(id),
        }
    }
}

/// A listing in which the file at `index` is cut short to `cut` bytes.
pub open spec fn spec_cut_listing(listing: Seq<StoredFileView>, index: int, cut: int) -> Seq<
    StoredFileView,
> {
    listing.update(
        index,
        StoredFileView { name: listing[index].name, bytes: listing[index].bytes.take(cut) },
    )
}

proof fn lemma_cut_listing(listing: Seq<StoredFileView>, index: int, cut: int)
    requires
        0 <= index < listing.len(),
        0 <= cut <= listing[index].bytes.len(),
    ensures
        spec_listed_ids(spec_cut_listing(listing, index, cut)) == spec_listed_ids(listing),
        forall|id: ResourceId|
            {
                let whole = spec_listed_stream(listing, id);
                let short = #[trigger] spec_listed_stream(
                    spec_cut_listing(listing, index, cut),
                    id,
                );
                short == whole || (whole == listing[index].bytes && short == whole.take(cut))
            },
    decreases listing.len(),
{
    let short_listing = spec_cut_listing(listing, index, cut);
    if index == listing.len() - 1 {
        assert(short_listing.drop_last() =~= listing.drop_last());
    } else {
        assert(short_listing.drop_last() =~= spec_cut_listing(listing.drop_last(), index, cut));
        lemma_cut_listing(listing.drop_last(), index, cut);
        assert(short_listing.last() == listing.last());
        assert forall|id: ResourceId|
            {
                let whole = spec_listed_stream(listing, id);
                let short = #[trigger] spec_listed_stream(short_listing, id);
                short == whole || (whole == listing[index].bytes && short == whole.take(cut))
            } by {
            let inner = spec_listed_stream(
                spec_cut_listing(listing.drop_last(), index, cut),
                id,
            );
            assert(inner == spec_listed_stream(listing.drop_last(), id) || (spec_listed_stream(
                listing.drop_last(),
                id,
            ) == listing.drop_last()[index].bytes && inner == spec_listed_stream(
                listing.drop_last(),
                id,
            ).take(cut)));
        }
    }
}

/// A file of a location that was cut short at any byte, as by a crash in
/// the middle of a write, costs no resource and damages no entry: the same
/// resources are found, and of each the entries read are the front of
/// those that were there before the cut.
pub proof fn lemma_open_truncated(listing: Seq<StoredFileView>, index: int, cut: int)
    requires
        0 <= index < listing.len(),
        0 <= cut <= listing[index].bytes.len(),
    ensures
        spec_listed_ids(spec_cut_listing(listing, index, cut)) == spec_listed_ids(listing),
        forall|id: ResourceId|
            (#[trigger] spec_scan(
                spec_listed_stream(spec_cut_listing(listing, index, cut), id),
            )).is_prefix_of(spec_scan(spec_listed_stream(listing, id))),
{
    lemma_cut_listing(listing, index, cut);
    assert forall|id: ResourceId|
        (#[trigger] spec_scan(
            spec_listed_stream(spec_cut_listing(listing, index, cut), id),
        )).is_prefix_of(spec_scan(spec_listed_stream(listing, id))) by {
        let whole = spec_listed_stream(listing, id);
        let short = spec_listed_stream(spec_cut_listing(listing, index, cut), id);
        if short == whole {
            assert(spec_scan(whole).subrange(0, spec_scan(whole).len() as int) =~= spec_scan(
                whole,
            ));
        } else {
            lemma_scan_truncated(whole, cut);
        }
    }
}

/// Whether the name of `file` is the canonical text of `id`.
pub open spec fn spec_names(file: StoredFileView, id: ResourceId) -> bool {
    spec_parse(file.name) == Ok::<ResourceId, ParseError>(id)
}

/// Whether no two files of `listing` have the same name, as in any
/// directory.
pub open spec fn spec_names_distinct(listing: Seq<StoredFileView>) -> bool {
    forall|i: int, j: int|
        0 <= i < j < listing.len() ==> (#[trigger] listing[i]).name != (#[trigger] listing[j]).name
}

/// Whether `listing` has a file called `name`.
pub open spec fn spec_holds(listing: Seq<StoredFileView>, name: Seq<char>) -> bool {
    exists|i: int| 0 <= i < listing.len() && (#[trigger] listing[i]).name == name
}

/// Where in `listing` the file called `name` stands.
pub open spec fn spec_place(listing: Seq<StoredFileView>, name: Seq<char>) -> int {
    choose|i: int| 0 <= i < listing.len() && (#[trigger] listing[i]).name == name
}

/// The files of a location after `op` is performed on them.
pub open spec fn spec_perform(listing: Seq<StoredFileView>, op: WriteOpView) -> Seq<
    StoredFileView,
> {
    match op {
        WriteOpView::Append { name, offset, bytes } => if spec_holds(listing, name) {
            let at = spec_place(listing, name);
            listing.update(
                at,
                StoredFileView { name, bytes: listing[at].bytes.take(offset) + bytes },
            )
        } else {
            listing.push(StoredFileView { name, bytes })
        },
        WriteOpView::Remove { name } => if spec_holds(listing, name) {
            listing.remove(spec_place(listing, name))
        } else {
            listing
        },
    }
}

/// The resources that a listing gives are those that its files name.
pub proof fn lemma_listed_known(listing: Seq<StoredFileView>, id: ResourceId)
    ensures
        spec_listed_ids(listing).contains(id) <==> exists|i: int|
            0 <= i < listing.len() && spec_names(#[trigger] listing[i], id),
    decreases listing.len(),
{
    if listing.len() > 0 {
        let front = listing.drop_last();
        let before = spec_listed_ids(front);
        let ids = spec_listed_ids(listing);
        let last = listing.len() - 1;
        lemma_listed_known(front, id);
        if before.contains(id) {
            let k = before.index_of(id);
            assert(before[k] == id);
            assert(ids[k] == id);
            let i = choose|i: int| 0 <= i < front.len() && spec_names(#[trigger] front[i], id);
            assert(spec_names(listing[i], id));
        } else if spec_names(listing[last], id) {
            assert(ids == before.push(id));
            assert(ids[before.len() as int] == id);
        } else {
            if ids.contains(id) {
                let k = ids.index_of(id);
                assert(ids[k] == id);
                if k < before.len() {
                    assert(before[k] == id);
                }
            }
            if exists|i: int| 0 <= i < listing.len() && spec_names(#[trigger] listing[i], id) {
                let i = choose|i: int|
                    0 <= i < listing.len() && spec_names(#[trigger] listing[i], id);
                assert(spec_names(front[i], id));
            }
        }
    }
}

/// In a listing without repeated names, the stream of a resource is the
/// bytes of the file that names it.
pub proof fn lemma_listed_stream_at(listing: Seq<StoredFileView>, at: int, id: ResourceId)
    requires
        spec_names_distinct(listing),
        0 <= at < listing.len(),
        spec_names(listing[at], id),
    ensures
        spec_listed_ids(listing).contains(id),
        spec_listed_stream(listing, id) == listing[at].bytes,
    decreases listing.len(),
{
    let front = listing.drop_last();
    let last = listing.len() - 1;
    lemma_listed_known(listing, id);
    lemma_listed_known(front, id);
    if at == last {
        if spec_listed_ids(front).contains(id) {
            let i = choose|i: int| 0 <= i < front.len() && spec_names(#[trigger] front[i], id);
            lemma_text_parse(listing[i].name);
            lemma_text_parse(listing[at].name);
            assert(listing[i].name == listing[at].name);
        }
    } else {
        assert(spec_names(front[at], id));
        assert(spec_names_distinct(front)) by {
            assert forall|i: int, j: int| 0 <= i < j < front.len() implies (#[trigger] front[i]).name
                != (#[trigger] front[j]).name by {
                assert(listing[i].name != listing[j].name);
            }
        }
        lemma_listed_stream_at(front, at, id);
    }
}

/// A resource that no file of a listing names has an empty stream.
pub proof fn lemma_listed_unknown(listing: Seq<StoredFileView>, id: ResourceId)
    requires
        !spec_listed_ids(listing).contains(id),
    ensures
        spec_listed_stream(listing, id) == Seq::<u8>::empty(),
    decreases listing.len(),
{
    if listing.len() > 0 {
        let last = listing.len() - 1;
        lemma_listed_known(listing, id);
        lemma_listed_known(listing.drop_last(), id);
        if spec_listed_ids(listing.drop_last()).contains(id) {
            let i = choose|i: int|
                0 <= i < listing.drop_last().len() && spec_names(
                    #[trigger] listing.drop_last()[i],
                    id,
                );
            assert(spec_names(listing[i], id));
        }
        assert(!spec_names(listing[last], id));
    }
}

proof fn lemma_same_names(
    listing: Seq<StoredFileView>,
    changed: Seq<StoredFileView>,
    at: int,
    id: ResourceId,
)
    requires
        spec_names_distinct(listing),
        0 <= at < listing.len(),
        spec_names(listing[at], id),
        changed == listing.update(at, changed[at]),
        changed[at].name == listing[at].name,
    ensures
        spec_names_distinct(changed),
        forall|any: ResourceId|
            spec_listed_ids(changed).contains(any) == spec_listed_ids(listing).contains(any),
        spec_listed_stream(changed, id) == changed[at].bytes,
        spec_listed_stream(listing, id) == listing[at].bytes,
        forall|other: ResourceId|
            other != id ==> spec_listed_stream(changed, other) == spec_listed_stream(
                listing,
                other,
            ),
{
    assert(spec_names_distinct(changed)) by {
        assert forall|i: int, j: int| 0 <= i < j < changed.len() implies (#[trigger] changed[i]).name
            != (#[trigger] changed[j]).name by {
            assert(listing[i].name != listing[j].name);
        }
    }
    assert forall|any: ResourceId|
        spec_listed_ids(changed).contains(any) == spec_listed_ids(listing).contains(any) by {
        lemma_listed_known(listing, any);
        lemma_listed_known(changed, any);
        if spec_listed_ids(listing).contains(any) {
            let i = choose|i: int| 0 <= i < listing.len() && spec_names(#[trigger] listing[i], any);
            assert(spec_names(changed[i], any));
        }
        if spec_listed_ids(changed).contains(any) {
            let i = choose|i: int| 0 <= i < changed.len() && spec_names(#[trigger] changed[i], any);
            assert(spec_names(listing[i], any));
        }
    }
    lemma_listed_stream_at(listing, at, id);
    lemma_listed_stream_at(changed, at, id);
    assert forall|other: ResourceId| other != id implies spec_listed_stream(changed, other)
        == spec_listed_stream(listing, other) by {
        lemma_listed_known(listing, other);
        if spec_listed_ids(listing).contains(other) {
            let i = choose|i: int|
                0 <= i < listing.len() && spec_names(#[trigger] listing[i], other);
            assert(spec_names(changed[i], other));
            lemma_listed_stream_at(listing, i, other);
            lemma_listed_stream_at(changed, i, other);
        } else {
            lemma_listed_unknown(listing, other);
            lemma_listed_unknown(changed, other);
        }
    }
}

proof fn lemma_pushed(
    listing: Seq<StoredFileView>,
    file: StoredFileView,
    id: ResourceId,
    any: ResourceId,
)
    requires
        spec_names(file, id),
        !spec_listed_ids(listing).contains(id),
    ensures
        spec_listed_ids(listing.push(file)).contains(any) == (spec_listed_ids(listing).contains(
            any,
        ) || any == id),
        spec_listed_stream(listing.push(file), any) == if any == id {
            file.bytes
        } else {
            spec_listed_stream(listing, any)
        },
{
    let after = listing.push(file);
    let before = spec_listed_ids(listing);
    assert(after.drop_last() =~= listing);
    assert(after.last() == file);
    assert(spec_listed_ids(after) == before.push(id));
    assert(before.push(id)[before.len() as int] == id);
    if before.contains(any) {
        let k = before.index_of(any);
        assert(before[k] == any);
        assert(before.push(id)[k] == any);
    }
    if before.push(id).contains(any) && any != id {
        let k = before.push(id).index_of(any);
        assert(before.push(id)[k] == any);
        assert(before[k] == any);
    }
    if any != id && !before.contains(any) {
        lemma_listed_unknown(listing, any);
    }
}

proof fn lemma_removed_distinct(listing: Seq<StoredFileView>, at: int)
    requires
        spec_names_distinct(listing),
        0 <= at < listing.len(),
    ensures
        spec_names_distinct(listing.remove(at)),
{
    let after = listing.remove(at);
    assert forall|i: int, j: int| 0 <= i < j < after.len() implies (#[trigger] after[i]).name
        != (#[trigger] after[j]).name by {
        let i0 = if i < at { i } else { i + 1 };
        let j0 = if j < at { j } else { j + 1 };
        assert(after[i] == listing[i0]);
        assert(after[j] == listing[j0]);
        assert(listing[i0].name != listing[j0].name);
    }
}

proof fn lemma_removed(listing: Seq<StoredFileView>, at: int, id: ResourceId, any: ResourceId)
    requires
        spec_names_distinct(listing),
        0 <= at < listing.len(),
        spec_names(listing[at], id),
    ensures
        spec_listed_ids(listing.remove(at)).contains(any) == (spec_listed_ids(listing).contains(
            any,
        ) && any != id),
        any != id ==> spec_listed_stream(listing.remove(at), any) == spec_listed_stream(
            listing,
            any,
        ),
{
    let after = listing.remove(at);
    lemma_removed_distinct(listing, at);
    lemma_listed_known(listing, any);
    lemma_listed_known(after, any);
    if spec_listed_ids(after).contains(any) {
        let i = choose|i: int| 0 <= i < after.len() && spec_names(#[trigger] after[i], any);
        let i0 = if i < at { i } else { i + 1 };
        assert(after[i] == listing[i0]);
        assert(spec_names(listing[i0], any));
        if any == id {
            lemma_text_parse(listing[i0].name);
            lemma_text_parse(listing[at].name);
            if i0 < at {
                assert(listing[i0].name != listing[at].name);
            } else {
                assert(listing[at].name != listing[i0].name);
            }
        }
    }
    if spec_listed_ids(listing).contains(any) && any != id {
        let i0 = choose|i: int| 0 <= i < listing.len() && spec_names(#[trigger] listing[i], any);
        let i = if i0 < at { i0 } else { i0 - 1 };
        assert(after[i] == listing[i0]);
        assert(spec_names(after[i], any));
        lemma_listed_stream_at(listing, i0, any);
        lemma_listed_stream_at(after, i, any);
    }
    if any != id && !spec_listed_ids(listing).contains(any) {
        lemma_listed_unknown(listing, any);
        lemma_listed_unknown(after, any);
    }
}

/// What an append write does to the files of a location, as seen on
/// opening it: the resource that the file names is known afterwards, its
/// stream is cut at the offset and continued by the bytes written, and
/// every other resource is as it was.
pub proof fn lemma_appended(
    listing: Seq<StoredFileView>,
    id: ResourceId,
    offset: int,
    bytes: Seq<u8>,
    any: ResourceId,
)
    requires
        spec_names_distinct(listing),
        0 <= offset <= spec_listed_stream(listing, id).len(),
    ensures
        ({
            let after = spec_perform(
                listing,
                WriteOpView::Append { name: id.spec_text(), offset, bytes },
            );
            &&& spec_names_distinct(after)
            &&& spec_listed_ids(after).contains(any) == (spec_listed_ids(listing).contains(any)
                || any == id)
            &&& spec_listed_stream(after, any) == if any == id {
                spec_listed_stream(listing, id).take(offset) + bytes
            } else {
                spec_listed_stream(listing, any)
            }
        }),
{
    let name = id.spec_text();
    let after = spec_perform(listing, WriteOpView::Append { name, offset, bytes });
    lemma_parse_text(id);
    lemma_listed_known(listing, id);
    if spec_holds(listing, name) {
        let at = spec_place(listing, name);
        assert(spec_names(listing[at], id));
        lemma_same_names(listing, after, at, id);
    } else {
        let count = listing.len() as int;
        let file = StoredFileView { name, bytes };
        if spec_listed_ids(listing).contains(id) {
            let i = choose|i: int| 0 <= i < listing.len() && spec_names(#[trigger] listing[i], id);
            lemma_text_parse(listing[i].name);
        }
        lemma_listed_unknown(listing, id);
        assert(spec_listed_stream(listing, id).take(0) + bytes =~= bytes);
        assert(after == listing.push(file));
        assert(spec_names_distinct(after)) by {
            assert forall|i: int, j: int| 0 <= i < j < after.len() implies (#[trigger] after[i]).name
                != (#[trigger] after[j]).name by {
                if j < count {
                    assert(listing[i].name != listing[j].name);
                } else {
                    assert(listing[i].name != name);
                }
            }
        }
        lemma_pushed(listing, file, id, any);
    }
}

/// What a remove write does to the files of a location that holds the
/// resource, as seen on opening it: the resource is no longer known, and
/// every other resource is as it was.
pub proof fn lemma_unlinked(listing: Seq<StoredFileView>, id: ResourceId, any: ResourceId)
    requires
        spec_names_distinct(listing),
        spec_listed_ids(listing).contains(id),
    ensures
        ({
            let after = spec_perform(listing, WriteOpView::Remove { name: id.spec_text() });
            &&& spec_names_distinct(after)
            &&& spec_listed_ids(after).contains(any) == (spec_listed_ids(listing).contains(any)
                && any != id)
            &&& any != id ==> spec_listed_stream(after, any) == spec_listed_stream(listing, any)
        }),
{
    let name = id.spec_text();
    lemma_parse_text(id);
    lemma_listed_known(listing, id);
    let found = choose|i: int| 0 <= i < listing.len() && spec_names(#[trigger] listing[i], id);
    lemma_text_parse(listing[found].name);
    assert(spec_holds(listing, name));
    let at = spec_place(listing, name);
    lemma_removed_distinct(listing, at);
    lemma_removed(listing, at, id, any);
}

} // verus!
