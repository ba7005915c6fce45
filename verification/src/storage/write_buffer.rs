use std::sync::Arc;
use std::time::Instant;

use rand::RngExt;
use vstd::prelude::*;

use std::collections::VecDeque;

use crate::constants::{BLOCK_SIZE, Operation, SECTOR_MARKER, WRITE_BUFFER_COUNT, WRITE_BUFFER_SIZE};
use crate::error::DbError;
use crate::kv::record::{blocks_for, record_size_spec, Record};
use crate::storage::format::{header_size_spec, record_bytes, DefaultFormat, RecordFormat};

verus! {

/// `std::time::Instant`, a reading of the monotonic clock.
#[verifier::external_type_specification]
#[verifier::external_body]
pub struct ExInstant(std::time::Instant);

/// `Instant::now`: the current reading of the monotonic clock. Nothing is stated
/// of it.
#[verifier::external_body]
pub(crate) fn instant_now() -> Instant {
    Instant::now()
}

/// `Instant::elapsed`, in nanoseconds cut to 64 bits. Nothing is stated of it:
/// it depends on the clock.
#[verifier::external_body]
pub(crate) fn elapsed_nanos(start: &Instant) -> u64 {
    start.elapsed().as_nanos() as u64
}

/// One write waiting to reach the disk.
pub struct WriteEntry {
    pub operation: Operation,
    pub record: Arc<Record>,
    pub old_value_len: usize,
    pub work_status: u32,
    pub retry_count: u32,
    pub timestamp: Instant,
}

impl WriteEntry {
    /// A fresh entry for `operation` on `record`, stamped now.
    pub fn new(operation: Operation, record: Arc<Record>, old_value_len: usize) -> (r: Self)
        ensures
            r.operation == operation,
            *r.record == *record,
            r.old_value_len == old_value_len,
            r.work_status == 0,
            r.retry_count == 0,
    {
        WriteEntry {
            operation,
            record,
            old_value_len,
            work_status: 0,
            retry_count: 0,
            timestamp: instant_now(),
        }
    }
}

/// The sector header of a record's first sector: the marker, little-endian,
/// then sequence number 0.
pub open spec fn sector_header_seq() -> Seq<u8> {
    seq![(SECTOR_MARKER & 0xff) as u8, (SECTOR_MARKER >> 8) as u8, 0u8, 0u8]
}

/// The bytes that start a record's first sector: the sector header and the
/// record with its value.
pub open spec fn sector_image(r: Record) -> Seq<u8> {
    sector_header_seq() + record_bytes(r, true)
}

/// `s` cut or padded with zero bytes to length `n`.
pub open spec fn pad_to(s: Seq<u8>, n: int) -> Seq<u8> {
    if s.len() <= n {
        s + Seq::new((n - s.len()) as nat, |i: int| 0u8)
    } else {
        s.subrange(0, n)
    }
}

/// The number of sectors the image of `r` spans.
pub open spec fn image_blocks(r: Record) -> int {
    blocks_for(header_size_spec(r.key.len() as int) + r.value_len)
}

/// The whole sectors a record takes on disk.
pub open spec fn disk_image(r: Record) -> Seq<u8> {
    pad_to(sector_image(r), image_blocks(r) * BLOCK_SIZE)
}

/// The sectors that store `record`: the sector header, the record with its value,
/// zero padding to whole blocks.
pub fn perpare_record_data(record: &Record, format: &DefaultFormat) -> (r: Result<Vec<u8>, DbError>)
    requires
        record.key.len() + record.value_len <= usize::MAX - 30 - BLOCK_SIZE,
    ensures
        r is Ok,
        r.unwrap()@ == disk_image(*record),
        r.unwrap()@.len() == image_blocks(*record) * BLOCK_SIZE,
{
    let total_size = format.total_size(record.key.len(), record.value_len);

    let sectors_needed = total_size / BLOCK_SIZE + if total_size % BLOCK_SIZE != 0 {
        1usize
    } else {
        0usize
    };
    proof {
        assert(sectors_needed * BLOCK_SIZE <= total_size + BLOCK_SIZE) by (nonlinear_arith)
            requires
                sectors_needed == total_size / BLOCK_SIZE + if total_size % BLOCK_SIZE != 0 {
                    1int
                } else {
                    0int
                },
        ;
        assert(sectors_needed == blocks_for(total_size as int));
    }
    let padded_size = sectors_needed * BLOCK_SIZE;

    let mut data: Vec<u8> = Vec::with_capacity(padded_size);

    data.push((SECTOR_MARKER & 0xff) as u8);
    data.push((SECTOR_MARKER >> 8) as u8);
    data.push(0u8);
    data.push(0u8);

    let mut record_data = format.serialize_record(record, true);
    data.append(&mut record_data);
    let ghost image = data@;
    assert(image =~= sector_image(*record));

    data.resize(padded_size, 0);
    proof {
        if image.len() <= padded_size {
            assert(data@ =~= image + Seq::new((padded_size - image.len()) as nat, |i: int| 0u8));
        }
        assert(data@ =~= disk_image(*record));
    }

    Ok(data)
}

/// One shard of the write buffer: writes in arrival order with their count and
/// the memory they are charged for.
pub struct ShardedWriteBuffer {
    buffer: VecDeque<WriteEntry>,
    count: usize,
    size: usize,
}

/// The state of a shard.
pub struct ShardView {
    pub entries: Seq<(Operation, Record, usize)>,
    pub count: usize,
    pub size: usize,
}

impl View for ShardedWriteBuffer {
    type V = ShardView;

    closed spec fn view(&self) -> ShardView {
        ShardView {
            entries: self.buffer@.map_values(|e: WriteEntry| entry_view(e)),
            count: self.count,
            size: self.size,
        }
    }
}

/// What a queued write records: operation, record and old value length.
pub open spec fn entry_view(e: WriteEntry) -> (Operation, Record, usize) {
    (e.operation, *e.record, e.old_value_len)
}

/// A `usize` counter moved up by `n`, wrapping around.
pub open spec fn counter_add(c: usize, n: usize) -> usize {
    vstd::wrapping::usize_specs::wrapping_add(c, n)
}

/// The number of write-buffer shards for `cpus` processors: half of them, at least one.
pub fn shard_count(cpus: usize) -> (r: usize)
    ensures
        r == if cpus / 2 > 1 {
            cpus / 2
        } else {
            1
        },
{
    let half = cpus / 2;
    if half > 1 {
        half
    } else {
        1
    }
}

impl ShardedWriteBuffer {
    pub fn new(_shard_id: usize) -> (r: Self)
        ensures
            r@.entries == Seq::<(Operation, Record, usize)>::empty(),
            r@.count == 0,
            r@.size == 0,
    {
        let r = Self { buffer: VecDeque::new(), count: 0, size: 0 };
        proof {
            assert(r@.entries =~= Seq::<(Operation, Record, usize)>::empty());
        }
        r
    }

    /// Queues `entry`, counting it and charging its record's memory.
    pub fn add_entry(&mut self, entry: WriteEntry) -> (r: Result<(), DbError>)
        requires
            entry.record.value_len <= crate::kv::store::charge_limit(),
        ensures
            r is Ok,
            final(self)@.entries == old(self)@.entries.push(entry_view(entry)),
            final(self)@.count == counter_add(old(self)@.count, 1),
            exists|charge: usize|
                charge >= record_size_spec(entry.record.key.len() as int, entry.record.value_len as int)
                    && final(self)@.size == #[trigger] counter_add(old(self)@.size, charge),
    {
        let entry_size = entry.record.calculate_size();
        let ghost e = entry;

        self.buffer.push_back(entry);

        self.count = self.count.wrapping_add(1);
        self.size = self.size.wrapping_add(entry_size);
        proof {
            assert(self@.entries =~= old(self)@.entries.push(entry_view(e)));
            assert(self@.size == counter_add(old(self)@.size, entry_size));
        }

        Ok(())
    }

    /// Hands over every queued write, oldest first, and resets the counters.
    pub fn drain_entries(&mut self) -> (r: Vec<WriteEntry>)
        ensures
            r@.map_values(|e: WriteEntry| entry_view(e)) == old(self)@.entries,
            final(self)@.entries == Seq::<(Operation, Record, usize)>::empty(),
            final(self)@.count == 0,
            final(self)@.size == 0,
    {
        let mut entries: Vec<WriteEntry> = Vec::new();
        let ghost all = self.buffer@;
        while self.buffer.len() > 0
            invariant
                all == entries@ + self.buffer@,
            decreases self.buffer@.len(),
        {
            let ghost before = self.buffer@;
            let e = self.buffer.pop_front();
            match e {
                Some(x) => {
                    entries.push(x);
                    proof {
                        assert(self.buffer@ == before.drop_first());
                        assert(all =~= entries@ + self.buffer@);
                    }
                },
                None => {},
            }
        }
        self.count = 0;
        self.size = 0;
        proof {
            assert(entries@ =~= all);
            assert(self@.entries =~= Seq::<(Operation, Record, usize)>::empty());
        }

        entries
    }

    /// The number of writes queued.
    pub fn count(&self) -> (r: usize)
        ensures
            r == self@.count,
    {
        self.count
    }

    /// Whether the shard should be flushed: enough writes or enough bytes.
    pub fn is_full(&self) -> (r: bool)
        ensures
            r == (self@.count >= WRITE_BUFFER_COUNT || self@.size >= WRITE_BUFFER_SIZE),
    {
        self.count >= WRITE_BUFFER_COUNT || self.size >= WRITE_BUFFER_SIZE
    }
}


/// `rand::rng().random_range(-10..=10)`: a jitter in percent drawn by the
/// thread's random generator, between -10 and 10 inclusive.
#[verifier::external_body]
fn random_jitter_percent() -> (r: i32)
    ensures
        -10 <= r <= 10,
{
    rand::rng().random_range(-10..=10)
}

/// The pause before the next try of a batch write: `delay_us` moved by
/// `jitter_percent` percent of itself (the share rounded toward zero), and at
/// least one microsecond.
pub open spec fn jittered_delay(delay_us: int, jitter_percent: int) -> int {
    let jitter = if jitter_percent >= 0 {
        (delay_us * jitter_percent) / 100
    } else {
        -((delay_us * -jitter_percent) / 100)
    };
    if delay_us + jitter > 1 {
        delay_us + jitter
    } else {
        1
    }
}

/// The pause before the next try, in microseconds.
pub fn jittered_pause(delay_us: i32, jitter_percent: i32) -> (r: u64)
    requires
        0 <= delay_us <= 1_000_000,
        -10 <= jitter_percent <= 10,
    ensures
        r == jittered_delay(delay_us as int, jitter_percent as int),
{
    let jitter: i32 = if jitter_percent >= 0 {
        proof {
            assert(0 <= delay_us * jitter_percent <= 10_000_000) by (nonlinear_arith)
                requires
                    0 <= delay_us <= 1_000_000,
                    0 <= jitter_percent <= 10,
            ;
        }
        (delay_us * jitter_percent) / 100
    } else {
        let down: i32 = -jitter_percent;
        proof {
            assert(0 <= delay_us * down <= 10_000_000) by (nonlinear_arith)
                requires
                    0 <= delay_us <= 1_000_000,
                    0 <= down <= 10,
            ;
        }
        -((delay_us * down) / 100)
    };
    let total: i32 = delay_us + jitter;
    if total > 1 {
        total as u64
    } else {
        1
    }
}

/// The retries left for a batch write and the pause before the next one.
pub struct FlushRetry {
    retries_left: u32,
    delay_us: i32,
}

impl FlushRetry {
    /// Three tries, the first pause around 100 microseconds, doubling after each.
    pub closed spec fn wf(&self) -> bool {
        ||| self.retries_left == 3 && self.delay_us == 100
        ||| self.retries_left == 2 && self.delay_us == 200
        ||| self.retries_left <= 1 && self.delay_us == 400
    }

    pub closed spec fn retries_spec(&self) -> u32 {
        self.retries_left
    }

    pub closed spec fn delay_spec(&self) -> i32 {
        self.delay_us
    }

    pub fn new() -> (r: Self)
        ensures
            r.wf(),
            r.retries_spec() == 3,
            r.delay_spec() == 100,
    {
        FlushRetry { retries_left: 3, delay_us: 100 }
    }

    /// Whether a try is left.
    pub fn has_tries(&self) -> (r: bool)
        ensures
            r == (self.retries_spec() > 0),
    {
        self.retries_left > 0
    }

    /// Counts a failed try. With a try still left, returns the pause before it
    /// (the current delay with a random jitter of at most ten percent) and
    /// doubles the delay; with none left, returns `None`.
    pub fn after_failure(&mut self) -> (r: Option<u64>)
        requires
            old(self).wf(),
            old(self).retries_spec() > 0,
        ensures
            final(self).wf(),
            final(self).retries_spec() == old(self).retries_spec() - 1,
            final(self).retries_spec() > 0 ==> {
                &&& final(self).delay_spec() == 2 * old(self).delay_spec()
                &&& r matches Some(p) && exists|j: int|
                    -10 <= j <= 10 && p == #[trigger] jittered_delay(old(self).delay_spec() as int, j)
            },
            final(self).retries_spec() == 0 ==> r is None && final(self).delay_spec()
                == old(self).delay_spec(),
    {
        self.retries_left = self.retries_left - 1;
        if self.retries_left > 0 {
            let jitter = random_jitter_percent();
            let pause = jittered_pause(self.delay_us, jitter);
            self.delay_us = self.delay_us * 2;
            Some(pause)
        } else {
            None
        }
    }
}

/// What a flush worker saw when it waited for a request.
pub enum RecvOutcome {
    Request,
    Timeout,
    Disconnected,
}

/// What a flush worker does next.
pub enum WorkerAction {
    /// Leave the loop.
    Stop,
    /// Wait for the next request.
    Wait,
    /// Drain the worker's shard and write what it held.
    Flush,
}

/// The decision of a flush worker once its wait for a request ended: stop when
/// the channel is gone, wait again after a timeout, and serve a request only when
/// the worker owns a shard.
pub fn worker_next(outcome: RecvOutcome, worker_id: usize, shards: usize) -> (r: WorkerAction)
    ensures
        match outcome {
            RecvOutcome::Disconnected => r is Stop,
            RecvOutcome::Timeout => r is Wait,
            RecvOutcome::Request => if worker_id < shards {
                r is Flush
            } else {
                r is Wait
            },
        },
{
    match outcome {
        RecvOutcome::Disconnected => WorkerAction::Stop,
        RecvOutcome::Timeout => WorkerAction::Wait,
        RecvOutcome::Request => {
            if worker_id < shards {
                WorkerAction::Flush
            } else {
                WorkerAction::Wait
            }
        },
    }
}

/// The number of flush workers started for `num_workers` asked and `num_shards`
/// shards: one per shard at most.
pub fn worker_count(num_workers: usize, num_shards: usize) -> (r: usize)
    ensures
        r == if num_workers < num_shards {
            num_workers
        } else {
            num_shards
        },
{
    if num_workers < num_shards {
        num_workers
    } else {
        num_shards
    }
}

/// Whether a write placed in shard `shard_id` asks for a flush: the shard is
/// full and has a worker channel.
pub fn wants_flush(shard_full: bool, shard_id: usize, channels: usize) -> (r: bool)
    ensures
        r == (shard_full && shard_id < channels),
{
    shard_full && shard_id < channels
}

/// The channel the periodic flusher asks to flush shard `shard_id` holding
/// `count` writes, with `channels` worker channels: none for an empty shard or one
/// without a worker, else the channels counted from the last one backwards.
pub fn periodic_flush_channel(count: usize, shard_id: usize, channels: usize) -> (r: Option<usize>)
    ensures
        r == if count > 0 && shard_id < channels {
            Some((channels - 1 - shard_id) as usize)
        } else {
            None::<usize>
        },
{
    if count > 0 && shard_id < channels {
        Some(channels - 1 - shard_id)
    } else {
        None
    }
}

} // verus!
