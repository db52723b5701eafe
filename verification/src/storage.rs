//! The storage: resources and their entries, kept through a backend.
//!
//! Inserting under an identifier that is not yet known creates the
//! resource; reading one that is not known gives no entries. Only deleting
//! reports an unknown identifier.

use crate::backend::{
    lemma_appended, lemma_listed_unknown, lemma_open_truncated, lemma_unlinked,
    spec_cut_listing, spec_listed_ids, spec_listed_stream, spec_listing, spec_names_distinct,
    spec_perform, Backend, StorageType, StoredFile, StoredFileView, WriteOp, WriteOpView,
};
use crate::format::{Format, FormatError};
use crate::record::{
    lemma_frame_len, lemma_scan_append, lemma_torn_append, lemma_valid_prefix, spec_fits,
    spec_frame, spec_scan, spec_valid_len, spec_views, Entry, EntryView,
};
use crate::resource_id::ResourceId;
use vstd::prelude::*;

verus! {

/// Why a storage operation failed.
#[derive(Clone, Copy, Debug, PartialEq, Eq, Structural)]
pub enum StorageError {
    /// No resource is known under the identifier.
    ResourceNotFound(ResourceId),
    /// An entry could not be read under the format it claims.
    Format(FormatError),
}

/// The resources of a storage with the entries of each.
pub type Contents = Map<ResourceId, Seq<EntryView>>;

/// One item of a resource as a reader sees it: the format and the content.
pub type Item = (Format, Seq<u8>);

/// The entries of `id`; none where `id` is not known.
pub open spec fn spec_entries_of(contents: Contents, id: ResourceId) -> Seq<EntryView> {
    if contents.dom().contains(id) {
        contents[id]
    } else {
        Seq::empty()
    }
}

/// The entry that an insert of `content` under `format` appends.
pub open spec fn spec_entry(format: Format, content: Seq<u8>) -> EntryView {
    EntryView { tag: format.spec_tag(), payload: format.spec_encode(content) }
}

/// The contents after `content` is inserted under `id`: one more entry at
/// the end of those of `id`, which becomes known if it was not.
pub open spec fn spec_insert(
    contents: Contents,
    id: ResourceId,
    format: Format,
    content: Seq<u8>,
) -> Contents {
    contents.insert(id, spec_entries_of(contents, id).push(spec_entry(format, content)))
}

/// The contents after each of `items` is inserted under `id`, in order.
pub open spec fn spec_insert_all(contents: Contents, id: ResourceId, items: Seq<Item>) -> Contents
    decreases items.len(),
{
    if items.len() == 0 {
        contents
    } else {
        spec_insert(
            spec_insert_all(contents, id, items.drop_last()),
            id,
            items.last().0,
            items.last().1,
        )
    }
}

/// What a reader sees of one entry: an error with the entry's tag when the
/// tag names no format or the payload is not of that format.
pub open spec fn spec_decode_entry(entry: EntryView) -> Result<Item, FormatError> {
    match Format::spec_from_tag(entry.tag) {
        Some(format) => match format.spec_decode(entry.payload) {
            Some(content) => Ok((format, content)),
            None => Err(FormatError { tag: entry.tag }),
        },
        None => Err(FormatError { tag: entry.tag }),
    }
}

/// What a reader sees of `entries`: every item in order, or the error of
/// the first entry that cannot be read.
pub open spec fn spec_decode_all(entries: Seq<EntryView>) -> Result<Seq<Item>, FormatError>
    decreases entries.len(),
{
    if entries.len() == 0 {
        Ok(Seq::empty())
    } else {
        match spec_decode_all(entries.drop_last()) {
            Ok(items) => match spec_decode_entry(entries.last()) {
                Ok(item) => Ok(items.push(item)),
                Err(error) => Err(error),
            },
            Err(error) => Err(error),
        }
    }
}

/// What reading `id` gives.
pub open spec fn spec_read(contents: Contents, id: ResourceId) -> Result<Seq<Item>, StorageError> {
    match spec_decode_all(spec_entries_of(contents, id)) {
        Ok(items) => Ok(items),
        Err(error) => Err(StorageError::Format(error)),
    }
}

/// What deleting `id` gives: the contents without it, or the report that
/// it was not known.
pub open spec fn spec_delete(contents: Contents, id: ResourceId) -> Result<Contents, StorageError> {
    if contents.dom().contains(id) {
        Ok(contents.remove(id))
    } else {
        Err(StorageError::ResourceNotFound(id))
    }
}

/// The contents found on opening a location with the files of `listing`.
pub open spec fn spec_open(listing: Seq<StoredFileView>) -> Contents {
    Map::new(
        |id: ResourceId| spec_listed_ids(listing).contains(id),
        |id: ResourceId| spec_scan(spec_listed_stream(listing, id)),
    )
}

/// What each item of a reading holds.
pub open spec fn spec_items(items: Seq<(Format, Vec<u8>)>) -> Seq<Item> {
    items.map_values(|item: (Format, Vec<u8>)| (item.0, item.1@))
}

/// A storage location opened through its backend.
pub struct Storage {
    location: String,
    backend: Backend,
}

impl Storage {
    /// Whether the storage is in order.
    pub closed spec fn wf(&self) -> bool {
        self.backend.wf()
    }

    /// The location that the storage was opened at.
    pub closed spec fn spec_location(&self) -> Seq<char> {
        self.location@
    }

    /// The kind of backend that the storage uses.
    pub closed spec fn spec_storage_type(&self) -> StorageType {
        self.backend.spec_storage_type()
    }

    /// The known resources, in the order in which they became known.
    pub closed spec fn ids(&self) -> Seq<ResourceId> {
        self.backend.ids()
    }

    /// The record stream of `id` as it stands on the medium; empty where
    /// `id` is not known.
    pub closed spec fn stream(&self, id: ResourceId) -> Seq<u8> {
        self.backend.stream(id)
    }

    /// Whether `id` is known.
    pub open spec fn knows(&self, id: ResourceId) -> bool {
        self.ids().contains(id)
    }

    /// The resources with the entries of each.
    pub open spec fn view(&self) -> Contents {
        Map::new(|id: ResourceId| self.knows(id), |id: ResourceId| spec_scan(self.stream(id)))
    }

    /// The entries of a storage are those read from its streams, and a
    /// resource that is not known has none.
    pub proof fn lemma_entries(&self, id: ResourceId)
        ensures
            spec_entries_of(self@, id) == spec_scan(self.stream(id)),
            !self.knows(id) ==> self.stream(id) == Seq::<u8>::empty(),
    {
        if !self.knows(id) {
            self.backend.lemma_unknown_is_empty(id);
        }
    }

    /// Opens the storage of the given kind at `location` on the files
    /// found there.
    pub fn new(location: String, storage_type: StorageType, listing: Vec<StoredFile>) -> (storage:
        Storage)
        ensures
            storage.wf(),
            storage.spec_location() == location@,
            storage.spec_storage_type() == storage_type,
            storage@ == spec_open(spec_listing(listing@)),
            storage.ids() == spec_listed_ids(spec_listing(listing@)),
            forall|id: ResourceId|
                storage.stream(id) == spec_listed_stream(spec_listing(listing@), id),
    {
        let storage = Storage { location, backend: Backend::open_or_create(storage_type, listing) };
        assert(storage@ =~= spec_open(spec_listing(listing@)));
        storage
    }

    /// The location that the storage was opened at.
    pub fn location(&self) -> (location: &String)
        ensures
            location@ == self.spec_location(),
    {
        &self.location
    }

    /// The kind of backend that the storage uses.
    pub fn storage_type(&self) -> (storage_type: StorageType)
        ensures
            storage_type == self.spec_storage_type(),
    {
        self.backend.storage_type()
    }

    /// Appends `content`, encoded under `format`, as a new entry of `id`.
    /// Entries that `id` holds stay as they are, and so does every other
    /// resource. The write handed back brings the medium to the new state.
    pub fn insert(&mut self, id: ResourceId, content: &[u8], format: Format) -> (op: WriteOp)
        requires
            old(self).wf(),
        ensures
            final(self).wf(),
            final(self).spec_location() == old(self).spec_location(),
            final(self).spec_storage_type() == old(self).spec_storage_type(),
            final(self)@ == spec_insert(old(self)@, id, format, content@),
            final(self).ids() == if old(self).knows(id) {
                old(self).ids()
            } else {
                old(self).ids().push(id)
            },
            final(self).stream(id) == old(self).stream(id).take(
                spec_valid_len(old(self).stream(id)),
            ) + spec_frame(spec_entry(format, content@)),
            forall|other: ResourceId|
                other != id ==> final(self).stream(other) == old(self).stream(other),
            op@ == (WriteOpView::Append {
                name: id.spec_text(),
                offset: spec_valid_len(old(self).stream(id)),
                bytes: spec_frame(spec_entry(format, content@)),
            }),
    {
        let ghost before = *self;
        let entry = Entry::new(format, format.encode(content));
        let op = self.backend.append_entry(id, &entry);
        proof {
            assert(spec_fits(entry@));
            lemma_scan_append(before.stream(id), entry@);
            before.lemma_entries(id);
            let after = spec_insert(before@, id, format, content@);
            assert forall|any: ResourceId| self.knows(any) == after.dom().contains(any) by {
                if before.knows(id) {
                } else {
                    assert(before.ids().push(id)[before.ids().len() as int] == id);
                    if before.knows(any) {
                        let j = before.ids().index_of(any);
                        assert(before.ids().push(id)[j] == any);
                    }
                }
            }
            assert(self@ =~= after);
        }
        op
    }

    /// The items of `id` in the order in which they were inserted; none
    /// where `id` is not known. Fails on the first entry that cannot be
    /// read under the format it claims.
    pub fn read(&self, id: ResourceId) -> (result: Result<Vec<(Format, Vec<u8>)>, StorageError>)
        requires
            self.wf(),
        ensures
            match spec_read(self@, id) {
                Ok(items) => result is Ok && spec_items(result->Ok_0@) == items,
                Err(error) => result == Err::<Vec<(Format, Vec<u8>)>, StorageError>(error),
            },
    {
        let entries = self.backend.read_entries(id);
        let ghost views = spec_views(entries@);
        proof {
            self.lemma_entries(id);
        }
        let mut items: Vec<(Format, Vec<u8>)> = Vec::new();
        let mut i: usize = 0;
        assert(views.take(0) =~= Seq::<EntryView>::empty());
        assert(spec_items(items@) =~= Seq::<Item>::empty());
        while i < entries.len()
            invariant
                i <= entries@.len(),
                views == spec_views(entries@),
                views == spec_entries_of(self@, id),
                spec_decode_all(views.take(i as int)) == Ok::<Seq<Item>, FormatError>(
                    spec_items(items@),
                ),
            decreases entries@.len() - i,
        {
            let ghost seen = spec_items(items@);
            proof {
                assert(views.take(i + 1).drop_last() =~= views.take(i as int));
                assert(views.take(i + 1).last() == entries@[i as int]@);
            }
            let format = match entries[i].format() {
                Ok(format) => format,
                Err(error) => {
                    proof {
                        lemma_decode_all_fails_on(views, i + 1);
                    }
                    return Err(StorageError::Format(error));
                },
            };
            let content = match format.decode(entries[i].payload().as_slice()) {
                Ok(content) => content,
                Err(error) => {
                    proof {
                        lemma_decode_all_fails_on(views, i + 1);
                    }
                    return Err(StorageError::Format(error));
                },
            };
            items.push((format, content));
            assert(spec_items(items@) =~= seen.push((format, content@)));
            i = i + 1;
        }
        assert(views.take(i as int) =~= views);
        Ok(items)
    }

    /// The known resources, each once, in the order in which they became
    /// known.
    pub fn list(&self) -> (ids: Vec<ResourceId>)
        requires
            self.wf(),
        ensures
            ids@ == self.ids(),
            ids@.no_duplicates(),
            forall|id: ResourceId| ids@.contains(id) <==> self@.dom().contains(id),
    {
        self.backend.list_ids()
    }

    /// Forgets `id` with all its entries and hands back the write that
    /// removes it from the medium; reports an identifier that is not
    /// known, and then changes nothing.
    pub fn delete(&mut self, id: ResourceId) -> (result: Result<WriteOp, StorageError>)
        requires
            old(self).wf(),
        ensures
            final(self).wf(),
            final(self).spec_location() == old(self).spec_location(),
            final(self).spec_storage_type() == old(self).spec_storage_type(),
            match spec_delete(old(self)@, id) {
                Ok(contents) => {
                    &&& result is Ok
                    &&& result->Ok_0@ == (WriteOpView::Remove { name: id.spec_text() })
                    &&& final(self)@ == contents
                    &&& final(self).ids() == old(self).ids().remove(old(self).ids().index_of(id))
                    &&& forall|other: ResourceId|
                        other != id ==> final(self).stream(other) == old(self).stream(other)
                },
                Err(error) => {
                    &&& result == Err::<WriteOp, StorageError>(error)
                    &&& final(self)@ == old(self)@
                    &&& final(self).ids() == old(self).ids()
                    &&& forall|other: ResourceId|
                        final(self).stream(other) == old(self).stream(other)
                },
            },
    {
        let ghost before = *self;
        match self.backend.delete(id) {
            Ok(op) => {
                proof {
                    let at = before.ids().index_of(id);
                    assert(before.ids()[at] == id);
                    assert forall|any: ResourceId|
                        self.knows(any) == (before.knows(any) && any != id) by {
                        if before.knows(any) && any != id {
                            let j = before.ids().index_of(any);
                            assert(before.ids()[j] == any);
                            let k = if j < at { j } else { j - 1 };
                            assert(self.ids()[k] == any);
                        }
                        if self.knows(any) {
                            let k = self.ids().index_of(any);
                            assert(self.ids()[k] == any);
                            let j = if k < at { k } else { k + 1 };
                            assert(before.ids()[j] == any);
                        }
                    }
                    assert(self@ =~= before@.remove(id));
                }
                Ok(op)
            },
            Err(_) => {
                proof {
                    assert(self@ =~= before@);
                }
                Err(StorageError::ResourceNotFound(id))
            },
        }
    }
}

/// Where the entries up to some place cannot all be read, neither can any
/// longer front of them, and the error is the same.
pub proof fn lemma_decode_all_fails_on(entries: Seq<EntryView>, upto: int)
    requires
        0 <= upto <= entries.len(),
        spec_decode_all(entries.take(upto)) is Err,
    ensures
        spec_decode_all(entries) == spec_decode_all(entries.take(upto)),
    decreases entries.len() - upto,
{
    if upto == entries.len() {
        assert(entries.take(upto) =~= entries);
    } else {
        assert(entries.take(upto + 1).drop_last() =~= entries.take(upto));
        lemma_decode_all_fails_on(entries, upto + 1);
    }
}

/// What a reader sees of an entry that an insert made: the format and the
/// content that were inserted.
pub proof fn lemma_decode_inserted(format: Format, content: Seq<u8>)
    ensures
        spec_decode_entry(spec_entry(format, content)) == Ok::<Item, FormatError>(
            (format, content),
        ),
{
}

/// After an insert under `id`, reading `id` gives what it gave before,
/// unchanged and in the same order, and the inserted item last.
pub proof fn lemma_insert_then_read(
    contents: Contents,
    id: ResourceId,
    format: Format,
    content: Seq<u8>,
)
    requires
        spec_read(contents, id) is Ok,
    ensures
        spec_read(spec_insert(contents, id, format, content), id) == Ok::<
            Seq<Item>,
            StorageError,
        >(spec_read(contents, id)->Ok_0.push((format, content))),
{
    let before = spec_entries_of(contents, id);
    let after = spec_entries_of(spec_insert(contents, id, format, content), id);
    assert(after == before.push(spec_entry(format, content)));
    assert(after.drop_last() =~= before);
    lemma_decode_inserted(format, content);
}

/// An insert under `id` adds one entry at the end of those of `id` and
/// changes nothing else: not the entries that `id` held, whether they can
/// be read or not, and no other resource.
pub proof fn lemma_insert_keeps_rest(
    contents: Contents,
    id: ResourceId,
    format: Format,
    content: Seq<u8>,
)
    ensures
        spec_entries_of(spec_insert(contents, id, format, content), id) == spec_entries_of(
            contents,
            id,
        ).push(spec_entry(format, content)),
        spec_insert(contents, id, format, content).dom().contains(id),
        forall|other: ResourceId|
            other != id ==> {
                &&& spec_insert(contents, id, format, content).dom().contains(other)
                    == contents.dom().contains(other)
                &&& #[trigger] spec_entries_of(spec_insert(contents, id, format, content), other)
                    == spec_entries_of(contents, other)
            },
{
}

/// After any number of inserts under `id`, `id` holds as many entries as
/// it held before and one more for each insert; and where it could be read
/// before, reading it gives what it gave before followed by the inserted
/// items in order.
pub proof fn lemma_inserts_add_up(contents: Contents, id: ResourceId, items: Seq<Item>)
    ensures
        spec_entries_of(spec_insert_all(contents, id, items), id).len() == spec_entries_of(
            contents,
            id,
        ).len() + items.len(),
        spec_read(contents, id) is Ok ==> spec_read(spec_insert_all(contents, id, items), id)
            == Ok::<Seq<Item>, StorageError>(spec_read(contents, id)->Ok_0 + items),
        spec_read(contents, id) is Ok ==> spec_read(
            spec_insert_all(contents, id, items),
            id,
        )->Ok_0.len() == spec_read(contents, id)->Ok_0.len() + items.len(),
    decreases items.len(),
{
    if items.len() == 0 {
        if spec_read(contents, id) is Ok {
            assert(spec_read(contents, id)->Ok_0 + items =~= spec_read(contents, id)->Ok_0);
        }
    } else {
        let earlier = spec_insert_all(contents, id, items.drop_last());
        lemma_inserts_add_up(contents, id, items.drop_last());
        lemma_insert_keeps_rest(earlier, id, items.last().0, items.last().1);
        if spec_read(contents, id) is Ok {
            lemma_insert_then_read(earlier, id, items.last().0, items.last().1);
            let prior = spec_read(contents, id)->Ok_0;
            assert((prior + items.drop_last()).push(items.last()) =~= prior + items);
        }
    }
}

/// After a delete of `id` that succeeded, `id` is not known and reads as
/// empty, a second delete reports that it is not known, and every other
/// resource is as it was.
pub proof fn lemma_delete_then_absent(contents: Contents, id: ResourceId)
    requires
        spec_delete(contents, id) is Ok,
    ensures
        !spec_delete(contents, id)->Ok_0.dom().contains(id),
        spec_read(spec_delete(contents, id)->Ok_0, id) == Ok::<Seq<Item>, StorageError>(
            Seq::empty(),
        ),
        spec_delete(spec_delete(contents, id)->Ok_0, id) == Err::<Contents, StorageError>(
            StorageError::ResourceNotFound(id),
        ),
        forall|other: ResourceId|
            other != id ==> {
                &&& spec_delete(contents, id)->Ok_0.dom().contains(other)
                    == contents.dom().contains(other)
                &&& #[trigger] spec_entries_of(spec_delete(contents, id)->Ok_0, other)
                    == spec_entries_of(contents, other)
            },
{
}

/// The write that an insert hands back on a storage opened on `listing`.
pub open spec fn spec_insert_op(
    listing: Seq<StoredFileView>,
    id: ResourceId,
    format: Format,
    content: Seq<u8>,
) -> WriteOpView {
    WriteOpView::Append {
        name: id.spec_text(),
        offset: spec_valid_len(spec_listed_stream(listing, id)),
        bytes: spec_frame(spec_entry(format, content)),
    }
}

/// The write that a delete of a known resource hands back.
pub open spec fn spec_delete_op(id: ResourceId) -> WriteOpView {
    WriteOpView::Remove { name: id.spec_text() }
}

/// Performing the write of an insert on the files of a location, and
/// opening the location again, gives the contents that the insert left in
/// the storage.
pub proof fn lemma_insert_reaches_medium(
    listing: Seq<StoredFileView>,
    id: ResourceId,
    format: Format,
    content: Seq<u8>,
)
    requires
        spec_names_distinct(listing),
        spec_fits(spec_entry(format, content)),
    ensures
        spec_names_distinct(spec_perform(listing, spec_insert_op(listing, id, format, content))),
        spec_open(spec_perform(listing, spec_insert_op(listing, id, format, content)))
            == spec_insert(spec_open(listing), id, format, content),
{
    let entry = spec_entry(format, content);
    let old_stream = spec_listed_stream(listing, id);
    let offset = spec_valid_len(old_stream);
    let after = spec_perform(listing, spec_insert_op(listing, id, format, content));
    let target = spec_insert(spec_open(listing), id, format, content);
    lemma_valid_prefix(old_stream);
    lemma_scan_append(old_stream, entry);
    lemma_appended(listing, id, offset, spec_frame(entry), id);
    if !spec_listed_ids(listing).contains(id) {
        lemma_listed_unknown(listing, id);
    }
    assert(spec_entries_of(spec_open(listing), id) == spec_scan(old_stream));
    assert forall|any: ResourceId|
        spec_open(after).dom().contains(any) == target.dom().contains(any) by {
        lemma_appended(listing, id, offset, spec_frame(entry), any);
    }
    assert forall|any: ResourceId| spec_open(after).dom().contains(any) implies spec_open(
        after,
    )[any] == target[any] by {
        lemma_appended(listing, id, offset, spec_frame(entry), any);
    }
    assert(spec_open(after) =~= target);
}

/// A crash in the middle of the write of an insert, after which only a
/// part of the record stands on the medium, loses the insert and nothing
/// else: on opening the location again every resource has the entries it
/// had before.
pub proof fn lemma_torn_insert_keeps_entries(
    listing: Seq<StoredFileView>,
    id: ResourceId,
    format: Format,
    content: Seq<u8>,
    written: int,
)
    requires
        spec_names_distinct(listing),
        spec_fits(spec_entry(format, content)),
        0 <= written < spec_frame(spec_entry(format, content)).len(),
    ensures
        forall|any: ResourceId|
            #[trigger] spec_entries_of(
                spec_open(
                    spec_perform(
                        listing,
                        WriteOpView::Append {
                            name: id.spec_text(),
                            offset: spec_valid_len(spec_listed_stream(listing, id)),
                            bytes: spec_frame(spec_entry(format, content)).take(written),
                        },
                    ),
                ),
                any,
            ) == spec_entries_of(spec_open(listing), any),
{
    let entry = spec_entry(format, content);
    let old_stream = spec_listed_stream(listing, id);
    let offset = spec_valid_len(old_stream);
    let part = spec_frame(entry).take(written);
    let after = spec_perform(
        listing,
        WriteOpView::Append { name: id.spec_text(), offset, bytes: part },
    );
    lemma_frame_len(entry);
    lemma_valid_prefix(old_stream);
    lemma_torn_append(old_stream, entry, written);
    assert forall|any: ResourceId| #[trigger]
        spec_entries_of(spec_open(after), any) == spec_entries_of(spec_open(listing), any) by {
        lemma_appended(listing, id, offset, part, any);
        if !spec_listed_ids(listing).contains(any) {
            lemma_listed_unknown(listing, any);
            if any != id {
                lemma_listed_unknown(after, any);
            }
        }
    }
}

/// Performing the write of a delete on the files of a location, and
/// opening the location again, gives the contents without the deleted
/// resource.
pub proof fn lemma_delete_reaches_medium(listing: Seq<StoredFileView>, id: ResourceId)
    requires
        spec_names_distinct(listing),
        spec_open(listing).dom().contains(id),
    ensures
        spec_names_distinct(spec_perform(listing, spec_delete_op(id))),
        spec_open(spec_perform(listing, spec_delete_op(id))) == spec_open(listing).remove(id),
{
    let after = spec_perform(listing, spec_delete_op(id));
    let target = spec_open(listing).remove(id);
    lemma_unlinked(listing, id, id);
    assert forall|any: ResourceId|
        spec_open(after).dom().contains(any) == target.dom().contains(any) by {
        lemma_unlinked(listing, id, any);
    }
    assert forall|any: ResourceId| spec_open(after).dom().contains(any) implies spec_open(
        after,
    )[any] == target[any] by {
        lemma_unlinked(listing, id, any);
    }
    assert(spec_open(after) =~= target);
}

/// A file of a location that was cut short at any byte costs no resource
/// and damages no entry: on opening the location the same resources are
/// known, and of each the entries are the front of those that were there
/// before the cut.
pub proof fn lemma_cut_keeps_fronts(listing: Seq<StoredFileView>, index: int, cut: int)
    requires
        0 <= index < listing.len(),
        0 <= cut <= listing[index].bytes.len(),
    ensures
        spec_open(spec_cut_listing(listing, index, cut)).dom() == spec_open(listing).dom(),
        forall|id: ResourceId|
            (#[trigger] spec_entries_of(
                spec_open(spec_cut_listing(listing, index, cut)),
                id,
            )).is_prefix_of(spec_entries_of(spec_open(listing), id)),
{
    lemma_open_truncated(listing, index, cut);
    let short = spec_open(spec_cut_listing(listing, index, cut));
    let whole = spec_open(listing);
    assert(short.dom() =~= whole.dom());
    assert forall|id: ResourceId|
        (#[trigger] spec_entries_of(short, id)).is_prefix_of(spec_entries_of(whole, id)) by {
        if whole.dom().contains(id) {
            assert(spec_scan(
                spec_listed_stream(spec_cut_listing(listing, index, cut), id),
            ).is_prefix_of(spec_scan(spec_listed_stream(listing, id))));
        } else {
            assert(Seq::<EntryView>::empty().subrange(0, 0) =~= Seq::<EntryView>::empty());
        }
    }
}

} // verus!
