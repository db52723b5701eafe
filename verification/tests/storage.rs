use ark_cli::backend::{Backend, FileBackend, ResourceNotFound, StorageType, StoredFile, WriteOp};
use ark_cli::format::{Format, FormatError};
use ark_cli::record::Entry;
use ark_cli::resource_id::ResourceId;
use ark_cli::storage::{Storage, StorageError};

const ID: &str = "abc12345-0000000000000005";
const OTHER: &str = "00000001-0000000000000002";

fn id() -> ResourceId {
    ResourceId::parse(ID).unwrap()
}

fn other() -> ResourceId {
    ResourceId::parse(OTHER).unwrap()
}

fn fresh() -> Storage {
    Storage::new(String::from("/tmp/s"), StorageType::File, Vec::new())
}

fn raw(content: &[u8]) -> (Format, Vec<u8>) {
    (Format::Raw, content.to_vec())
}

fn hello_frame() -> Vec<u8> {
    vec![0, 5, 0, 0, 0, 0, 0, 0, 0, 104, 101, 108, 108, 111, 79, 155, 166, 60]
}

fn world_frame() -> Vec<u8> {
    vec![0, 5, 0, 0, 0, 0, 0, 0, 0, 119, 111, 114, 108, 100, 138, 44, 193, 48]
}

/// Performs a write on a medium kept in memory.
fn perform(medium: &mut Vec<(String, Vec<u8>)>, op: WriteOp) {
    match op {
        WriteOp::Append { name, offset, bytes } => {
            if let Some(file) = medium.iter_mut().find(|file| file.0 == name) {
                file.1.truncate(offset as usize);
                file.1.extend_from_slice(&bytes);
            } else {
                assert_eq!(offset, 0);
                medium.push((name, bytes));
            }
        }
        WriteOp::Remove { name } => {
            let before = medium.len();
            medium.retain(|file| file.0 != name);
            assert_eq!(medium.len() + 1, before);
        }
    }
}

fn listing(medium: &[(String, Vec<u8>)]) -> Vec<StoredFile> {
    medium
        .iter()
        .map(|file| StoredFile { name: file.0.clone(), bytes: file.1.clone() })
        .collect()
}

#[test]
fn fresh_storage_is_empty() {
    let storage = fresh();
    assert_eq!(storage.location(), "/tmp/s");
    assert_eq!(storage.storage_type(), StorageType::File);
    assert_eq!(storage.list(), Vec::<ResourceId>::new());
    assert_eq!(storage.read(id()), Ok(Vec::new()));
}

#[test]
fn insert_hello_then_world() {
    let mut storage = fresh();
    storage.insert(id(), b"hello", Format::Raw);
    assert_eq!(storage.read(id()), Ok(vec![raw(b"hello")]));
    storage.insert(id(), b"world", Format::Raw);
    assert_eq!(storage.read(id()), Ok(vec![raw(b"hello"), raw(b"world")]));
}

#[test]
fn insert_creates_unknown_resource() {
    let mut storage = fresh();
    assert_eq!(storage.list(), Vec::<ResourceId>::new());
    let op = storage.insert(id(), b"hello", Format::Raw);
    assert_eq!(storage.list(), vec![id()]);
    match op {
        WriteOp::Append { name, offset, bytes } => {
            assert_eq!(name, ID);
            assert_eq!(offset, 0);
            assert_eq!(bytes, hello_frame());
        }
        WriteOp::Remove { .. } => panic!("insert removes nothing"),
    }
}

#[test]
fn insert_appends_to_known_resource() {
    let mut storage = fresh();
    storage.insert(id(), b"hello", Format::Raw);
    let op = storage.insert(id(), b"world", Format::Raw);
    assert_eq!(storage.list(), vec![id()]);
    match op {
        WriteOp::Append { name, offset, bytes } => {
            assert_eq!(name, ID);
            assert_eq!(offset, 18);
            assert_eq!(bytes, world_frame());
        }
        WriteOp::Remove { .. } => panic!("insert removes nothing"),
    }
}

#[test]
fn insert_leaves_other_resources_alone() {
    let mut storage = fresh();
    storage.insert(other(), b"first", Format::Raw);
    storage.insert(id(), b"hello", Format::Raw);
    storage.insert(other(), b"second", Format::Raw);
    assert_eq!(storage.read(other()), Ok(vec![raw(b"first"), raw(b"second")]));
    assert_eq!(storage.read(id()), Ok(vec![raw(b"hello")]));
    assert_eq!(storage.list(), vec![other(), id()]);
}

#[test]
fn read_length_counts_inserts_and_prior_entries() {
    let mut bytes = hello_frame();
    bytes.extend_from_slice(&world_frame());
    let files = vec![StoredFile { name: String::from(ID), bytes }];
    let mut storage = Storage::new(String::from("/tmp/s"), StorageType::File, files);
    assert_eq!(storage.read(id()).unwrap().len(), 2);
    for round in 0..10usize {
        storage.insert(id(), &[round as u8], Format::Raw);
        assert_eq!(storage.read(id()).unwrap().len(), 3 + round);
    }
    let items = storage.read(id()).unwrap();
    assert_eq!(items[0], raw(b"hello"));
    assert_eq!(items[1], raw(b"world"));
    assert_eq!(items[11], raw(&[9]));
}

#[test]
fn insert_of_empty_content() {
    let mut storage = fresh();
    storage.insert(id(), b"", Format::Raw);
    assert_eq!(storage.read(id()), Ok(vec![raw(b"")]));
}

#[test]
fn read_of_unknown_resource_is_empty() {
    let mut storage = fresh();
    storage.insert(id(), b"hello", Format::Raw);
    assert_eq!(storage.read(other()), Ok(Vec::new()));
}

#[test]
fn read_reports_entry_of_unknown_format() {
    let mut bytes = hello_frame();
    bytes.extend_from_slice(&[7, 1, 0, 0, 0, 0, 0, 0, 0, 120, 66, 158, 243, 72]);
    bytes.extend_from_slice(&world_frame());
    let files = vec![StoredFile { name: String::from(ID), bytes }];
    let storage = Storage::new(String::from("/tmp/s"), StorageType::File, files);
    assert_eq!(storage.read(id()), Err(StorageError::Format(FormatError { tag: 7 })));
}

#[test]
fn delete_removes_resource() {
    let mut storage = fresh();
    storage.insert(id(), b"hello", Format::Raw);
    storage.insert(other(), b"kept", Format::Raw);
    match storage.delete(id()) {
        Ok(WriteOp::Remove { name }) => assert_eq!(name, ID),
        _ => panic!("delete of a known resource succeeds"),
    }
    assert_eq!(storage.list(), vec![other()]);
    assert_eq!(storage.read(id()), Ok(Vec::new()));
    assert_eq!(storage.read(other()), Ok(vec![raw(b"kept")]));
}

#[test]
fn second_delete_reports_absence() {
    let mut storage = fresh();
    storage.insert(id(), b"hello", Format::Raw);
    assert!(storage.delete(id()).is_ok());
    match storage.delete(id()) {
        Err(error) => assert_eq!(error, StorageError::ResourceNotFound(id())),
        Ok(_) => panic!("a second delete reports absence"),
    }
}

#[test]
fn delete_of_unknown_resource_changes_nothing() {
    let mut storage = fresh();
    storage.insert(other(), b"kept", Format::Raw);
    match storage.delete(id()) {
        Err(error) => assert_eq!(error, StorageError::ResourceNotFound(id())),
        Ok(_) => panic!("nothing to delete"),
    }
    assert_eq!(storage.list(), vec![other()]);
    assert_eq!(storage.read(other()), Ok(vec![raw(b"kept")]));
}

#[test]
fn insert_after_delete_starts_anew() {
    let mut storage = fresh();
    storage.insert(id(), b"hello", Format::Raw);
    storage.delete(id()).unwrap();
    let op = storage.insert(id(), b"world", Format::Raw);
    assert_eq!(storage.read(id()), Ok(vec![raw(b"world")]));
    match op {
        WriteOp::Append { offset, .. } => assert_eq!(offset, 0),
        WriteOp::Remove { .. } => panic!("insert removes nothing"),
    }
}

#[test]
fn open_skips_foreign_and_repeated_files() {
    let files = vec![
        StoredFile { name: String::from("notes.txt"), bytes: hello_frame() },
        StoredFile { name: String::from(ID), bytes: hello_frame() },
        StoredFile { name: String::from("ABC12345-0000000000000005"), bytes: hello_frame() },
        StoredFile { name: String::from(ID), bytes: world_frame() },
        StoredFile { name: String::from(OTHER), bytes: Vec::new() },
    ];
    let storage = Storage::new(String::from("/tmp/s"), StorageType::File, files);
    assert_eq!(storage.list(), vec![id(), other()]);
    assert_eq!(storage.read(id()), Ok(vec![raw(b"hello")]));
    assert_eq!(storage.read(other()), Ok(Vec::new()));
}

#[test]
fn reopened_medium_holds_what_was_written() {
    let mut medium: Vec<(String, Vec<u8>)> = Vec::new();
    let mut storage = Storage::new(String::from("/tmp/s"), StorageType::File, listing(&medium));
    let op = storage.insert(id(), b"hello", Format::Raw);
    perform(&mut medium, op);
    let op = storage.insert(other(), b"kept", Format::Raw);
    perform(&mut medium, op);
    let op = storage.insert(id(), b"world", Format::Raw);
    perform(&mut medium, op);
    assert_eq!(medium.len(), 2);
    assert_eq!(medium[0].0, ID);
    let mut expected = hello_frame();
    expected.extend_from_slice(&world_frame());
    assert_eq!(medium[0].1, expected);

    let mut reopened = Storage::new(String::from("/tmp/s"), StorageType::File, listing(&medium));
    assert_eq!(reopened.list(), storage.list());
    assert_eq!(reopened.read(id()), Ok(vec![raw(b"hello"), raw(b"world")]));
    assert_eq!(reopened.read(other()), Ok(vec![raw(b"kept")]));

    let op = reopened.delete(id()).unwrap();
    perform(&mut medium, op);
    let last = Storage::new(String::from("/tmp/s"), StorageType::File, listing(&medium));
    assert_eq!(last.list(), vec![other()]);
    assert_eq!(last.read(id()), Ok(Vec::new()));
}

#[test]
fn stream_cut_mid_record_reads_as_shorter_sequence() {
    let mut whole = hello_frame();
    whole.extend_from_slice(&world_frame());
    for cut in 0..=whole.len() {
        let files = vec![StoredFile { name: String::from(ID), bytes: whole[..cut].to_vec() }];
        let storage = Storage::new(String::from("/tmp/s"), StorageType::File, files);
        assert_eq!(storage.list(), vec![id()]);
        let items = storage.read(id()).unwrap();
        let expected: Vec<(Format, Vec<u8>)> = if cut < 18 {
            vec![]
        } else if cut < 36 {
            vec![raw(b"hello")]
        } else {
            vec![raw(b"hello"), raw(b"world")]
        };
        assert_eq!(items, expected, "cut at {}", cut);
    }
}

#[test]
fn insert_after_torn_write_cuts_the_tail_off() {
    let mut medium: Vec<(String, Vec<u8>)> = Vec::new();
    let mut torn = hello_frame();
    torn.extend_from_slice(&world_frame()[..11]);
    medium.push((String::from(ID), torn));
    let mut storage = Storage::new(String::from("/tmp/s"), StorageType::File, listing(&medium));
    assert_eq!(storage.read(id()), Ok(vec![raw(b"hello")]));
    let op = storage.insert(id(), b"again", Format::Raw);
    match &op {
        WriteOp::Append { offset, .. } => assert_eq!(*offset, 18),
        WriteOp::Remove { .. } => panic!("insert removes nothing"),
    }
    perform(&mut medium, op);
    assert_eq!(storage.read(id()), Ok(vec![raw(b"hello"), raw(b"again")]));
    let reopened = Storage::new(String::from("/tmp/s"), StorageType::File, listing(&medium));
    assert_eq!(reopened.read(id()), Ok(vec![raw(b"hello"), raw(b"again")]));
}

#[test]
fn backend_appends_and_reads_entries() {
    let mut backend = Backend::open_or_create(StorageType::File, Vec::new());
    assert_eq!(backend.storage_type(), StorageType::File);
    assert!(!backend.contains(id()));
    backend.append_entry(id(), &Entry::new(Format::Raw, b"hello".to_vec()));
    backend.append_entry(id(), &Entry::new(Format::Raw, b"world".to_vec()));
    assert!(backend.contains(id()));
    assert_eq!(backend.list_ids(), vec![id()]);
    let entries = backend.read_entries(id());
    assert_eq!(entries.len(), 2);
    assert_eq!(entries[0].payload(), &b"hello".to_vec());
    assert_eq!(entries[1].payload(), &b"world".to_vec());
    assert!(backend.read_entries(other()).is_empty());
}

#[test]
fn backend_delete_reports_unknown_resource() {
    let mut backend = FileBackend::open_or_create(Vec::new());
    assert_eq!(backend.delete(id()).err(), Some(ResourceNotFound { id: id() }));
    backend.append_entry(id(), &Entry::new(Format::Raw, b"hello".to_vec()));
    assert!(backend.delete(id()).is_ok());
    assert_eq!(backend.delete(id()).err(), Some(ResourceNotFound { id: id() }));
    assert!(backend.list_ids().is_empty());
}

#[test]
fn file_is_named_by_canonical_text() {
    assert_eq!(FileBackend::file_name(id()), ID);
}
