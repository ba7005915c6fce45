use fun_kv::constants::{Operation, BLOCK_SIZE, METADATA_VERSION};
use fun_kv::error::DbError;
use fun_kv::kv::record::Record;
use fun_kv::storage::blocks::{all_zero, deletion_marker_block, metadata_block};
use fun_kv::storage::format::{get_format, value_in_sectors, DefaultFormat, RecordFormat};
use fun_kv::storage::free_space_manager::FreeSpaceManager;
use fun_kv::storage::metadata::{
    has_signature, metadata_from_record, metadata_to_record, signature, Metadata, METADATA_RECORD_SIZE,
};
use fun_kv::storage::write_buffer::{
    jittered_pause, perpare_record_data, periodic_flush_channel, shard_count, wants_flush,
    worker_count, worker_next, FlushRetry, RecvOutcome, ShardedWriteBuffer, WorkerAction, WriteEntry,
};
use std::sync::Arc;

const MIB: u64 = 1 << 20;

#[test]
fn free_space_initialize_allocate_release() {
    let mut fsm = FreeSpaceManager::new();
    fsm.initialize(MIB).unwrap();
    assert_eq!(fsm.get_total_free(), 240 * 4096);
    assert_eq!(fsm.get_free_chunks_count(), 1);
    assert_eq!(fsm.get_largest_free_chunk(), 240 * 4096);

    // the first fit starts right after the metadata sectors
    assert_eq!(fsm.allocate_sectors(10).unwrap(), 16);
    assert_eq!(fsm.get_total_free(), 230 * 4096);
    assert_eq!(fsm.get_largest_free_chunk(), 230 * 4096);
    assert_eq!(fsm.get_fragmentation_percent(), 0);

    // giving the sectors back merges them with the run after them
    fsm.release_sectors(16, 10).unwrap();
    assert_eq!(fsm.get_free_chunks_count(), 1);
    assert_eq!(fsm.get_largest_free_chunk(), 240 * 4096);
    assert_eq!(fsm.get_total_free(), 240 * 4096);
    assert_eq!(fsm.get_fragmentation_percent(), 0);
}

#[test]
fn free_space_one_sector_from_fresh_file() {
    let mut fsm = FreeSpaceManager::new();
    fsm.initialize(MIB).unwrap();
    assert_eq!(fsm.allocate_sectors(1).unwrap(), 16);
    assert_eq!(fsm.get_total_free(), 978_944);
    assert_eq!(fsm.get_free_chunks_count(), 1);
    assert_eq!(fsm.get_largest_free_chunk(), 978_944);
    assert_eq!(fsm.get_fragmentation_percent(), 0);
}

#[test]
fn free_space_release_between_runs_coalesces() {
    let mut fsm = FreeSpaceManager::new();
    fsm.release_sectors(16, 4).unwrap();
    fsm.release_sectors(24, 4).unwrap();
    assert_eq!(fsm.get_free_chunks_count(), 2);
    assert_eq!(fsm.get_fragmentation_percent(), 50);
    fsm.release_sectors(20, 4).unwrap();
    assert_eq!(fsm.get_free_chunks_count(), 1);
    assert_eq!(fsm.get_total_free(), 49_152);
    assert_eq!(fsm.get_largest_free_chunk(), 49_152);
    assert_eq!(fsm.get_fragmentation_percent(), 0);
}

#[test]
fn release_past_64_bit_fragmentation_is_refused() {
    // three runs of 2^57 bytes: the third would leave 2^58 bytes outside the
    // largest run, a hundredfold of which passes 64 bits
    let run: u64 = 1 << 45;
    let mut fsm = FreeSpaceManager::new();
    fsm.release_sectors(16, run).unwrap();
    assert!(fsm.release_fits_check(16 + run + 1, run));
    fsm.release_sectors(16 + run + 1, run).unwrap();
    assert_eq!(fsm.get_fragmentation_percent(), 50);
    assert!(!fsm.release_fits_check(16 + 2 * run + 2, run));
    // an allocation never leaves more outside the largest run than before
    assert!(fsm.allocation_fits(run));
}

#[test]
fn free_space_errors() {
    let mut fsm = FreeSpaceManager::default();
    assert!(matches!(fsm.initialize(16 * 4096), Err(DbError::InvalidDevice)));
    let mut fsm = FreeSpaceManager::new();
    fsm.initialize(MIB).unwrap();
    assert!(matches!(fsm.allocate_sectors(0), Err(DbError::InvalidArgument)));
    assert!(matches!(fsm.allocate_sectors(241), Err(DbError::OutOfSpace)));
    assert!(matches!(fsm.release_sectors(0, 1), Err(DbError::InvalidArgument)));
    assert!(matches!(fsm.release_sectors(250, 10), Err(DbError::InvalidArgument)));
    // a run that starts where one already starts is refused
    assert!(matches!(fsm.release_sectors(16, 1), Err(DbError::DuplicateKey)));
}

#[test]
fn free_space_best_fit_prefers_smallest_run() {
    let mut fsm = FreeSpaceManager::new();
    fsm.set_persistence_size(MIB);
    fsm.release_sectors(100, 50).unwrap();
    fsm.release_sectors(20, 5).unwrap();
    assert_eq!(fsm.get_free_chunks_count(), 2);
    assert_eq!(fsm.allocate_sectors(4).unwrap(), 20);
    assert_eq!(fsm.allocate_sectors(6).unwrap(), 100);
}

#[test]
fn format_sizes_and_round_trip() {
    let format = get_format(METADATA_VERSION);
    assert_eq!(format.record_header_size(5), 35);
    assert_eq!(format.total_size(5, 10), 45);

    let rec = Record::new_with_ttl(b"hello".to_vec(), b"world".to_vec(), 42, 7);
    let body = DefaultFormat.serialize_record(&rec, true);
    assert_eq!(body.len(), 2 + 5 + 24 + 5);
    assert_eq!(&body[0..2], &[5u8, 0u8]);
    let mut sector = vec![0u8; 4];
    sector.extend_from_slice(&body);
    let (key, value_len, ts, ttl) = DefaultFormat.parse_record(&sector).unwrap();
    assert_eq!(key, b"hello".to_vec());
    assert_eq!((value_len, ts, ttl), (5, 42, 7));

    // too short to hold the fixed fields
    assert!(DefaultFormat.parse_record(&sector[..10]).is_none());
    let without_value = DefaultFormat.serialize_record(&rec, false);
    assert_eq!(without_value.len(), 31);
}

#[test]
fn value_taken_out_of_sectors() {
    let rec = Record::new(b"key".to_vec(), b"some value".to_vec(), 1);
    let image = perpare_record_data(&rec, &DefaultFormat).unwrap();
    assert_eq!(image.len(), BLOCK_SIZE);
    assert_eq!(&image[0..4], &[0x46u8, 0x4Bu8, 0, 0]);
    assert_eq!(value_in_sectors(3, 10, &image).unwrap(), b"some value".to_vec());
    assert!(matches!(value_in_sectors(3, 10, &image[..40]), Err(DbError::InvalidRecord)));
}

#[test]
fn metadata_blocks() {
    let mut m = Metadata::new();
    assert_eq!(&m.signature, b"FUNKV_SIG");
    assert_eq!(m.version, 1);
    assert_eq!(m.block_size, 4096);
    assert!(!m.validate());
    m.persistent_size = MIB;
    assert!(m.validate());
    m.persistent_size = (1u64 << 40) + 1;
    assert!(!m.validate());
    let created = m.creation_time;
    m.update();
    assert_eq!(m.creation_time, created);
    assert!(m.last_update_time >= created);

    assert_eq!(signature(), *b"FUNKV_SIG");
    assert!(has_signature(b"FUNKV_SIG and more"));
    assert!(!has_signature(b"FUNKV_SI"));
    assert!(!has_signature(b"FUNKV_SIX"));
}

#[test]
fn deletion_and_metadata_blocks() {
    let block = deletion_marker_block();
    assert_eq!(block.len(), BLOCK_SIZE);
    assert_eq!(&block[..8], b"DELETED!");
    assert!(all_zero(&block[8..]));
    assert!(!all_zero(&block));

    let m = metadata_block(&[1, 2, 3]).unwrap();
    assert_eq!(m.len(), BLOCK_SIZE);
    assert_eq!(&m[..3], &[1, 2, 3]);
    assert!(all_zero(&m[3..]));
    assert!(matches!(metadata_block(&vec![0u8; BLOCK_SIZE + 1]), Err(DbError::InvalidValueSize)));
}

#[test]
fn write_buffer_shard() {
    let mut shard = ShardedWriteBuffer::new(0);
    assert!(!shard.is_full());
    let rec = Arc::new(Record::new(b"k".to_vec(), b"v".to_vec(), 5));
    shard.add_entry(WriteEntry::new(Operation::Insert, rec.clone(), 0)).unwrap();
    shard.add_entry(WriteEntry::new(Operation::Delete, rec, 1)).unwrap();
    let drained = shard.drain_entries();
    assert_eq!(drained.len(), 2);
    assert_eq!(drained[0].operation, Operation::Insert);
    assert_eq!(drained[1].operation, Operation::Delete);
    assert_eq!(drained[1].old_value_len, 1);
    assert!(shard.drain_entries().is_empty());
}

#[test]
fn write_buffer_decisions() {
    assert_eq!(shard_count(8), 4);
    assert_eq!(shard_count(1), 1);
    assert_eq!(shard_count(3), 1);
    assert_eq!(worker_count(8, 4), 4);
    assert_eq!(worker_count(2, 4), 2);
    assert!(wants_flush(true, 1, 2));
    assert!(!wants_flush(true, 2, 2));
    assert!(!wants_flush(false, 0, 2));
    assert_eq!(periodic_flush_channel(3, 0, 4), Some(3));
    assert_eq!(periodic_flush_channel(3, 3, 4), Some(0));
    assert_eq!(periodic_flush_channel(0, 0, 4), None);
    assert_eq!(periodic_flush_channel(3, 4, 4), None);
    assert!(matches!(worker_next(RecvOutcome::Disconnected, 0, 2), WorkerAction::Stop));
    assert!(matches!(worker_next(RecvOutcome::Timeout, 0, 2), WorkerAction::Wait));
    assert!(matches!(worker_next(RecvOutcome::Request, 1, 2), WorkerAction::Flush));
    assert!(matches!(worker_next(RecvOutcome::Request, 2, 2), WorkerAction::Wait));
}

#[test]
fn retry_pauses() {
    assert_eq!(jittered_pause(100, 10), 110);
    assert_eq!(jittered_pause(100, -10), 90);
    assert_eq!(jittered_pause(200, -3), 194);
    assert_eq!(jittered_pause(0, 5), 1);

    let mut retry = FlushRetry::new();
    assert!(retry.has_tries());
    let first = retry.after_failure().unwrap();
    assert!((90..=110).contains(&first));
    let second = retry.after_failure().unwrap();
    assert!((180..=220).contains(&second));
    assert!(retry.after_failure().is_none());
    assert!(!retry.has_tries());
}

#[test]
fn errno_mapping() {
    assert_eq!(DbError::KeyNotFound.errno(), 2);
    assert_eq!(DbError::InvalidValueSize.errno(), 22);
    assert_eq!(DbError::ShuttingDown.errno(), 5);
    assert_eq!(DbError::SystemError(99).errno(), 99);
    assert!(matches!(DbError::from_errno(28), DbError::DatabaseFull));
    assert!(matches!(DbError::from(75), DbError::NumericOverflow));
    assert!(matches!(DbError::from_errno(1234), DbError::SystemError(1234)));
    assert_eq!(DbError::from_errno(17).errno(), 17);
}

#[test]
fn record_sizes_and_references() {
    let mut rec = Record::new(b"abc".to_vec(), b"12345".to_vec(), 9);
    assert_eq!(rec.key_len, 3);
    assert_eq!(rec.ref_count(), 1);
    rec.inc_ref();
    assert_eq!(rec.dec_ref(), 1);
    assert_eq!(rec.calculate_disk_size(), 4096);
    assert!(rec.calculate_size() >= 128);
    assert_eq!(rec.get_value().unwrap(), b"12345".to_vec());
    rec.clear_value();
    assert!(rec.get_value().is_none());
    assert_eq!(fun_kv::kv::record::calculate_record_size(3, 5), 128);
}

#[test]
fn metadata_record_round_trip() {
    let mut m = Metadata::new();
    m.persistent_size = 1 << 20;
    m.total_records = 7;
    m.total_size = 3 * 4096;
    let bytes = metadata_to_record(&m);
    assert_eq!(bytes.len(), METADATA_RECORD_SIZE);
    assert_eq!(&bytes[0..9], b"FUNKV_SIG");
    assert_eq!(&bytes[9..12], &[0u8, 0, 0]);
    assert_eq!(&bytes[40..44], &4096u32.to_le_bytes());
    let back = metadata_from_record(&bytes).unwrap();
    assert_eq!(back.persistent_size, 1 << 20);
    assert_eq!(back.total_records, 7);
    assert_eq!(back.total_size, 3 * 4096);
    assert_eq!(back.version, m.version);
    assert_eq!(back.creation_time, m.creation_time);
    // a record of another length, or one without a file size, is refused
    assert!(metadata_from_record(&bytes[..100]).is_none());
    let fresh = metadata_to_record(&Metadata::new());
    assert!(metadata_from_record(&fresh).is_none());
}
