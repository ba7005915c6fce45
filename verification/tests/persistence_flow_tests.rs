use fun_kv::constants::{Operation, BLOCK_SIZE};
use fun_kv::error::DbError;
use fun_kv::kv::record::Record;
use fun_kv::kv::store::persistence::new_file_size;
use fun_kv::kv::store::recovery::classify_sector;
use fun_kv::kv::store::ttl::{sample_and_expire_batch, sample_and_expire_batch_at};
use fun_kv::kv::store::{FunKV, SectorReader};
use fun_kv::storage::blocks::deletion_marker_block;
use fun_kv::storage::format::DefaultFormat;
use fun_kv::storage::write_buffer::perpare_record_data;
use fun_kv::DbBuilder;

const FILE_LEN: u64 = 1 << 20;

/// A backing file held in memory.
struct MemDisk {
    bytes: Vec<u8>,
}

impl MemDisk {
    fn new() -> Self {
        MemDisk { bytes: vec![0u8; FILE_LEN as usize] }
    }

    fn write(&mut self, sector: u64, data: &[u8]) {
        let start = sector as usize * BLOCK_SIZE;
        self.bytes[start..start + data.len()].copy_from_slice(data);
    }

    fn sign(&mut self) {
        self.bytes[..9].copy_from_slice(b"FUNKV_SIG");
    }
}

impl SectorReader for MemDisk {
    fn read_sectors(&self, sector: u64, count: u64) -> Result<Vec<u8>, DbError> {
        let start = sector as usize * BLOCK_SIZE;
        let end = start + count as usize * BLOCK_SIZE;
        if end > self.bytes.len() {
            return Err(DbError::InvalidArgument);
        }
        Ok(self.bytes[start..end].to_vec())
    }
}

fn persistent_store() -> FunKV {
    let mut db = FunKV::new(Some("db.bin".to_string())).unwrap();
    db.open_new_file(FILE_LEN).unwrap();
    db.attach_write_buffer();
    db
}

/// Runs one flush of the queued writes against `disk`.
fn flush(db: &mut FunKV, disk: &mut MemDisk) {
    let entries = db.take_pending_writes();
    let batch = db.begin_write_batch(entries).unwrap();
    for (sector, data) in &batch.writes {
        disk.write(*sector, data);
    }
    for sector in &batch.delete_markers {
        disk.write(*sector, &deletion_marker_block());
    }
    db.finish_write_batch(batch.records_to_clear, true).unwrap();
    db.record_flush();
}

#[test]
fn flushed_value_is_read_back_from_disk() {
    let mut disk = MemDisk::new();
    let mut db = persistent_store();
    db.insert(b"alpha", b"first value").unwrap();
    db.insert(b"beta", b"second value").unwrap();
    flush(&mut db, &mut disk);
    assert_eq!(db.stats().writes_flushed, 2);
    assert_eq!(db.stats().flush_count, 1);
    // two one-sector records are on disk
    assert_eq!(db.flush_all().unwrap().total_size, 2 * 4096);

    // the values now live on disk only: a read without the disk fails
    assert!(matches!(db.get(b"alpha"), Err(DbError::NoDevice)));
    assert_eq!(db.get_with_reader(b"alpha", &disk).unwrap(), b"first value");
    // the read offered the value to the cache, which now answers alone
    assert_eq!(db.get(b"alpha").unwrap(), b"first value");
    let s = db.stats();
    assert_eq!(s.cache_misses, 1);
    assert_eq!(s.cache_hits, 1);
}

#[test]
fn recovery_rebuilds_indexes_from_sectors() {
    let mut disk = MemDisk::new();
    {
        let mut db = persistent_store();
        db.insert(b"k1", b"v1").unwrap();
        db.insert(b"k2", &vec![9u8; 5000]).unwrap();
        flush(&mut db, &mut disk);
        let meta = db.flush_all().unwrap();
        assert_eq!(meta.total_records, 2);
        assert_eq!(meta.total_size, 3 * 4096);
    }
    disk.sign();

    let mut db = FunKV::new(Some("db.bin".to_string())).unwrap();
    db.open_existing_file(FILE_LEN, &disk.bytes[..BLOCK_SIZE]).unwrap();
    db.load_indexes(&disk, disk.read_sectors(0, 1), None).unwrap();
    assert_eq!(db.len(), 2);
    assert!(db.contains_key(b"k1"));
    assert_eq!(db.get_with_reader(b"k1", &disk).unwrap(), b"v1");
    assert_eq!(db.get_with_reader(b"k2", &disk).unwrap(), vec![9u8; 5000]);
    // k1 takes sector 16, k2 sectors 17 and 18
    assert_eq!(db.flush_all().unwrap().total_size, 3 * 4096);
}

#[test]
fn update_queues_delete_and_marks_old_sectors() {
    let mut disk = MemDisk::new();
    let mut db = persistent_store();
    db.insert(b"key", b"old").unwrap();
    flush(&mut db, &mut disk);
    db.insert(b"key", b"new").unwrap();
    let pending = db.take_pending_writes();
    assert_eq!(pending.len(), 2);
    assert_eq!(pending[0].operation, Operation::Update);
    assert_eq!(pending[1].operation, Operation::Delete);
    assert_eq!(pending[1].record.sector, 16);
    let batch = db.begin_write_batch(pending).unwrap();
    assert_eq!(batch.delete_markers, vec![16]);
    assert_eq!(batch.writes.len(), 1);
    for (sector, data) in &batch.writes {
        disk.write(*sector, data);
    }
    disk.write(16, &deletion_marker_block());
    db.finish_write_batch(batch.records_to_clear, true).unwrap();
    assert_eq!(db.get_with_reader(b"key", &disk).unwrap(), b"new");
    assert!(classify_sector(&disk.bytes[16 * BLOCK_SIZE..17 * BLOCK_SIZE]).is_none());
}

#[test]
fn failed_flush_gives_sectors_back() {
    let mut db = persistent_store();
    db.insert(b"key", b"value").unwrap();
    let entries = db.take_pending_writes();
    let batch = db.begin_write_batch(entries).unwrap();
    assert_eq!(batch.records_to_clear.len(), 1);
    db.finish_write_batch(batch.records_to_clear, false).unwrap();
    let s = db.stats();
    assert_eq!(s.write_failures, 1);
    assert_eq!(s.writes_flushed, 0);
    // the value was never marked as written
    assert_eq!(db.get(b"key").unwrap(), b"value");
}

#[test]
fn sector_classification() {
    let rec = Record::new_with_ttl(b"name".to_vec(), b"value".to_vec(), 77, 88);
    let image = perpare_record_data(&rec, &DefaultFormat).unwrap();
    let (key, value_len, ts, ttl) = classify_sector(&image).unwrap();
    assert_eq!((key, value_len, ts, ttl), (b"name".to_vec(), 5, 77, 88));
    assert!(classify_sector(&deletion_marker_block()).is_none());
    assert!(classify_sector(&[0u8; 3]).is_none());
    assert!(classify_sector(&vec![0u8; BLOCK_SIZE]).is_none());
    let mut bad = image.clone();
    bad[2] = 1;
    assert!(classify_sector(&bad).is_none());
}

#[test]
fn expired_records_are_swept() {
    let mut disk = MemDisk::new();
    let expired = Record::new_with_ttl(b"old".to_vec(), b"x".to_vec(), 1, 1);
    disk.write(16, &perpare_record_data(&expired, &DefaultFormat).unwrap());
    let lasting = Record::new_with_ttl(b"new".to_vec(), b"y".to_vec(), 1, u64::MAX);
    disk.write(17, &perpare_record_data(&lasting, &DefaultFormat).unwrap());
    disk.sign();

    let mut db = FunKV::new(Some("db.bin".to_string())).unwrap();
    db.open_existing_file(FILE_LEN, &disk.bytes[..BLOCK_SIZE]).unwrap();
    db.attach_write_buffer();
    db.load_indexes(&disk, disk.read_sectors(0, 1), None).unwrap();
    assert_eq!(db.len(), 2);

    let (sampled, removed) = sample_and_expire_batch(&mut db, 20);
    assert!(sampled >= 1);
    assert_eq!(removed, 1);
    assert!(!db.contains_key(b"old"));
    assert!(db.contains_key(b"new"));
    let pending = db.take_pending_writes();
    assert_eq!(pending.len(), 1);
    assert_eq!(pending[0].operation, Operation::Delete);
    assert_eq!(pending[0].record.sector, 16);
}

#[test]
fn sampling_removes_only_records_expired_at_the_given_time() {
    let mut disk = MemDisk::new();
    let early = Record::new_with_ttl(b"early".to_vec(), b"x".to_vec(), 1, 50);
    disk.write(16, &perpare_record_data(&early, &DefaultFormat).unwrap());
    let late = Record::new_with_ttl(b"late".to_vec(), b"y".to_vec(), 1, 500);
    disk.write(17, &perpare_record_data(&late, &DefaultFormat).unwrap());
    disk.sign();

    let mut db = FunKV::new(Some("db.bin".to_string())).unwrap();
    db.open_existing_file(FILE_LEN, &disk.bytes[..BLOCK_SIZE]).unwrap();
    db.load_indexes(&disk, disk.read_sectors(0, 1), None).unwrap();
    assert_eq!(db.len(), 2);

    // nothing has expired at time 10: every draw finds a record, none is removed
    assert_eq!(sample_and_expire_batch_at(&mut db, 10, 10), (10, 0));
    assert_eq!(db.len(), 2);
    // at time 100 only the record expiring at 50 goes
    let (sampled, removed) = sample_and_expire_batch_at(&mut db, 30, 100);
    assert_eq!(sampled, 30);
    assert_eq!(removed, 1);
    assert!(!db.contains_key(b"early"));
    assert!(db.contains_key(b"late"));
}

#[test]
fn expired_records_are_skipped_when_loading() {
    let mut disk = MemDisk::new();
    let expired = Record::new_with_ttl(b"old".to_vec(), b"x".to_vec(), 1, 1);
    disk.write(16, &perpare_record_data(&expired, &DefaultFormat).unwrap());
    disk.sign();
    let mut db = DbBuilder::new().enable_ttl(true).build().unwrap();
    db.open_existing_file(FILE_LEN, &disk.bytes[..BLOCK_SIZE]).unwrap();
    db.load_indexes(&disk, disk.read_sectors(0, 1), None).unwrap();
    assert_eq!(db.len(), 0);
}

#[test]
fn new_file_setup() {
    assert_eq!(new_file_size(Some(123)), 123);
    assert_eq!(new_file_size(None), 4 * 1024 * 1024 * 1024);
    let mut db = FunKV::new(Some("db.bin".to_string())).unwrap();
    assert!(matches!(db.open_new_file(4096), Err(DbError::InvalidDevice)));
    let mut db = FunKV::new(Some("db.bin".to_string())).unwrap();
    db.open_new_file(FILE_LEN).unwrap();
    assert_eq!(db.metadata().persistent_size, FILE_LEN);
    // a store without a backing file has no metadata to flush
    let mut mem = FunKV::new(None).unwrap();
    assert!(mem.flush_all().is_none());
}

#[test]
fn loading_indexes_reports_a_failed_metadata_read() {
    let disk = MemDisk::new();
    let mut db = FunKV::new(Some("db.bin".to_string())).unwrap();
    db.open_existing_file(FILE_LEN, &disk.bytes[..BLOCK_SIZE]).unwrap();
    assert!(matches!(db.load_indexes(&disk, Err(DbError::NoDevice), None), Err(DbError::NoDevice)));
    // a block without the signature leaves the store empty
    db.load_indexes(&disk, disk.read_sectors(0, 1), None).unwrap();
    assert!(db.is_empty());
}

#[test]
fn reads_decide_expiry_by_the_given_clock_reading() {
    let mut disk = MemDisk::new();
    let lasting = Record::new_with_ttl(b"late".to_vec(), b"value".to_vec(), 1, u64::MAX - 1);
    disk.write(16, &perpare_record_data(&lasting, &DefaultFormat).unwrap());
    disk.sign();
    let mut db = DbBuilder::new().enable_ttl(true).build().unwrap();
    db.open_existing_file(FILE_LEN, &disk.bytes[..BLOCK_SIZE]).unwrap();
    db.load_indexes(&disk, disk.read_sectors(0, 1), None).unwrap();
    assert_eq!(db.len(), 1);

    assert!(matches!(db.get_with_reader_at(b"late", &disk, u64::MAX), Err(DbError::KeyNotFound)));
    // a read that finds nothing on disk reports the reader's error
    assert!(matches!(db.get_with_reader_at(b"late", &fun_kv::kv::store::NoDevice, 5), Err(DbError::NoDevice)));
    assert_eq!(db.get_with_reader_at(b"late", &disk, 5).unwrap(), b"value".to_vec());
}

#[test]
fn image_replaced_during_flush_is_queued_for_deletion() {
    let mut db = persistent_store();
    db.insert(b"key", b"first").unwrap();
    let entries = db.take_pending_writes();
    let batch = db.begin_write_batch(entries).unwrap();
    assert_eq!(batch.records_to_clear.len(), 1);
    let sector = batch.records_to_clear[0].0;
    // the key is replaced while its first image is being written
    db.insert(b"key", b"second").unwrap();
    let queued = db.take_pending_writes();
    assert_eq!(queued.len(), 2);
    db.finish_write_batch(batch.records_to_clear, true).unwrap();
    let stale = db.take_pending_writes();
    assert_eq!(stale.len(), 1);
    assert_eq!(stale[0].operation, Operation::Delete);
    assert_eq!(stale[0].record.sector, sector);
    assert_eq!(stale[0].record.key, b"key".to_vec());
}

#[test]
fn flushed_metadata_keeps_the_block_signed() {
    let mut db = persistent_store();
    db.insert(b"k", b"v").unwrap();
    let meta = db.flush_all().unwrap();
    assert_eq!(&meta.signature, b"FUNKV_SIG");
    assert_eq!(meta.persistent_size, FILE_LEN);
    assert_eq!(meta.block_size, 4096);
    assert_eq!(meta.total_records, 1);
    let held = db.metadata();
    assert_eq!(held.last_update_time, meta.last_update_time);
    assert_eq!(held.total_records, meta.total_records);
    assert!(meta.validate());
}
