use ark_cli::backend::{StorageType, StoredFile, WriteOp};
use ark_cli::format::Format;
use ark_cli::insert::{AppError, Insert, StorageLocation};
use ark_cli::resource_id::ResourceId;

const ID: &str = "abc12345-0000000000000005";

fn command(id: &str, content: &str) -> Insert {
    Insert {
        root_dir: String::from("."),
        storage: String::from("notes"),
        id: String::from(id),
        content: String::from(content),
        format: None,
        kind: None,
    }
}

fn located(storage_type: Option<StorageType>) -> Option<StorageLocation> {
    Some(StorageLocation { path: String::from("./.ark/user/notes"), storage_type })
}

#[test]
fn run_reports_missing_storage_by_name() {
    match command(ID, "hello").run(None, Vec::new()) {
        Err(AppError::StorageNotFound(name)) => assert_eq!(name, "notes"),
        _ => panic!("a storage that was not found is reported"),
    }
}

#[test]
fn run_reports_missing_storage_before_bad_id() {
    match command("nonsense", "hello").run(None, Vec::new()) {
        Err(AppError::StorageNotFound(name)) => assert_eq!(name, "notes"),
        _ => panic!("a storage that was not found is reported first"),
    }
}

#[test]
fn run_reports_malformed_id() {
    for text in ["", "nonsense", "ABC12345-0000000000000005", "abc12345+0000000000000005"] {
        match command(text, "hello").run(located(None), Vec::new()) {
            Err(AppError::Parse) => {}
            _ => panic!("{:?} is no identifier", text),
        }
    }
}

#[test]
fn run_inserts_into_fresh_storage() {
    let (storage, op) = command(ID, "hello").run(located(None), Vec::new()).unwrap();
    let id = ResourceId::parse(ID).unwrap();
    assert_eq!(storage.location(), "./.ark/user/notes");
    assert_eq!(storage.storage_type(), StorageType::File);
    assert_eq!(storage.list(), vec![id]);
    assert_eq!(storage.read(id), Ok(vec![(Format::Raw, b"hello".to_vec())]));
    match op {
        WriteOp::Append { name, offset, bytes } => {
            assert_eq!(name, ID);
            assert_eq!(offset, 0);
            assert_eq!(
                bytes,
                vec![0, 5, 0, 0, 0, 0, 0, 0, 0, 104, 101, 108, 108, 111, 79, 155, 166, 60]
            );
        }
        WriteOp::Remove { .. } => panic!("insert removes nothing"),
    }
}

#[test]
fn run_appends_behind_existing_entries() {
    let existing = vec![0, 5, 0, 0, 0, 0, 0, 0, 0, 104, 101, 108, 108, 111, 79, 155, 166, 60];
    let files = vec![StoredFile { name: String::from(ID), bytes: existing }];
    let mut insert = command(ID, "world");
    insert.format = Some(Format::Raw);
    insert.kind = Some(StorageType::File);
    let (storage, op) = insert.run(located(Some(StorageType::File)), files).unwrap();
    let id = ResourceId::parse(ID).unwrap();
    assert_eq!(
        storage.read(id),
        Ok(vec![(Format::Raw, b"hello".to_vec()), (Format::Raw, b"world".to_vec())])
    );
    match op {
        WriteOp::Append { name, offset, bytes } => {
            assert_eq!(name, ID);
            assert_eq!(offset, 18);
            assert_eq!(
                bytes,
                vec![0, 5, 0, 0, 0, 0, 0, 0, 0, 119, 111, 114, 108, 100, 138, 44, 193, 48]
            );
        }
        WriteOp::Remove { .. } => panic!("insert removes nothing"),
    }
}

#[test]
fn run_stores_content_as_utf8() {
    let (storage, _) = command(ID, "héllo").run(located(None), Vec::new()).unwrap();
    let id = ResourceId::parse(ID).unwrap();
    assert_eq!(storage.read(id), Ok(vec![(Format::Raw, "héllo".as_bytes().to_vec())]));
    assert_eq!(storage.read(id).unwrap()[0].1.len(), 6);
}
