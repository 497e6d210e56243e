use discord_drive::chunks::split_into_chunks;
use discord_drive::directory::{
    create_entry_result, record_upload, MasterDirectoryChild, MasterDirectoryChildPart,
};
use discord_drive::errors::DriveError;
use discord_drive::retrieve::{lookup_result, order_parts, Reassembler};
use discord_drive::schedule::{endpoint_for, TransferScheduler};

/// An in-memory stand-in for the endpoint pool: uploads remember their
/// bytes under a fabricated location reference, downloads look them up.
struct FakePool {
    size: usize,
    blobs: Vec<(String, Vec<u8>)>,
}

impl FakePool {
    fn new(size: usize) -> Self {
        FakePool { size, blobs: Vec::new() }
    }

    fn upload(&mut self, endpoint: usize, id: &str, bytes: Vec<u8>) -> String {
        assert!(endpoint < self.size);
        let url = format!("https://endpoint-{}/{}", endpoint, id);
        self.blobs.push((url.clone(), bytes));
        url
    }

    fn download(&self, url: &str) -> Vec<u8> {
        for (u, b) in &self.blobs {
            if u == url {
                return b.clone();
            }
        }
        panic!("unknown location reference");
    }
}

/// Stores `data` under `name`: split, dispatch under the concurrency limit,
/// upload, record each part with the idempotent append — completions
/// resolving in an arbitrary order picked by `scramble`.
fn store(
    name: &str,
    data: &Vec<u8>,
    chunk_size: usize,
    limit: usize,
    pool: &mut FakePool,
    scramble: fn(usize) -> usize,
) -> MasterDirectoryChild {
    assert!(chunk_size > 0);
    let chunks = split_into_chunks(data, chunk_size);
    let count = chunks.len();
    assert!(count <= i32::MAX as usize);
    let mut entry = match create_entry_result(None, name.to_string()) {
        Ok(e) => e,
        Err(_) => panic!("fresh name cannot conflict"),
    };
    let mut sched = TransferScheduler::new(count, limit, pool.size);
    sched.note_entry_created();

    // Dispatch everything, then resolve the batch in a scrambled order, as
    // racing transfers would; the admission gate caps each batch.
    while !sched.is_done() {
        let mut batch = Vec::new();
        while let Some((index, endpoint)) = sched.try_dispatch() {
            assert_eq!(endpoint, endpoint_for(index, pool.size));
            batch.push((index, endpoint));
        }
        assert!(sched.in_flight <= sched.limit);
        let picks: Vec<usize> = (0..batch.len()).map(|j| scramble(j) % batch.len()).collect();
        let mut done = vec![false; batch.len()];
        for pick in picks.into_iter().chain(0..batch.len()) {
            if done[pick] {
                continue;
            }
            done[pick] = true;
            let (index, endpoint) = batch[pick];
            let id = format!("{}.{}", name, index);
            let url = pool.upload(endpoint, &id, chunks[index].clone());
            match record_upload(name, index, Some(url)) {
                Ok(part) => {
                    entry.append_part_if_absent(part.clone());
                    // A retried append changes nothing.
                    entry.append_part_if_absent(part);
                    sched.complete(index, true);
                }
                Err(_) => unreachable!(),
            }
        }
    }
    assert!(sched.all_succeeded());
    assert_eq!(entry.parts.len(), count);
    entry
}

/// Retrieves the object recorded in `entry`: contiguity check, downloads
/// staged out of order, reassembly in index order.
fn retrieve(entry: MasterDirectoryChild, pool: &FakePool) -> Result<Vec<u8>, DriveError> {
    let entry = lookup_result(Some(entry))?;
    let sorted = order_parts(entry.parts)?;
    let count = sorted.len();
    let mut reassembler = Reassembler::new(count);
    // Stage highest index first: the output order must not depend on it.
    for part in sorted.iter().rev() {
        let bytes = pool.download(&part.url);
        let index = part.part as usize;
        assert!(index < count);
        reassembler.stage(index, bytes);
    }
    assert!(reassembler.is_complete());
    Ok(reassembler.assemble())
}

fn sample_bytes(len: usize) -> Vec<u8> {
    let mut data = Vec::with_capacity(len);
    for i in 0..len {
        data.push((i * 7 % 256) as u8);
    }
    data
}

#[test]
fn round_trip_empty_object() {
    let mut pool = FakePool::new(2);
    let data: Vec<u8> = Vec::new();
    let entry = store("empty.bin", &data, 4, 3, &mut pool, |j| j);
    assert!(entry.parts.is_empty());
    let out = retrieve(entry, &pool).unwrap();
    assert_eq!(out, data);
}

#[test]
fn round_trip_single_chunk() {
    let mut pool = FakePool::new(3);
    let data = sample_bytes(9);
    let entry = store("one.bin", &data, 16, 24, &mut pool, |j| j);
    assert_eq!(entry.parts.len(), 1);
    let out = retrieve(entry, &pool).unwrap();
    assert_eq!(out, data);
}

#[test]
fn round_trip_many_chunks_across_endpoints() {
    let mut pool = FakePool::new(4);
    let data = sample_bytes(1009);
    // 1009 bytes at 32 per chunk: 32 chunks, the last of 17 bytes, spread
    // over 4 endpoints, at most 5 transfers at once, completions scrambled.
    let entry = store("big.bin", &data, 32, 5, &mut pool, |j| j.wrapping_mul(13).wrapping_add(5));
    assert_eq!(entry.parts.len(), 32);
    let out = retrieve(entry, &pool).unwrap();
    assert_eq!(out, data);
}

#[test]
fn corrupt_ledger_missing_index_fails_before_download() {
    // Five chunks were stored, the entry for index 2 is gone: retrieval
    // must fail with CorruptLedger before any download is attempted.
    let mut entry = MasterDirectoryChild::new("holey.bin".to_string());
    for index in [0usize, 1, 3, 4] {
        entry.append_part_if_absent(MasterDirectoryChildPart::new(
            "holey.bin",
            index,
            format!("https://endpoint-0/holey.bin.{}", index),
        ));
    }
    let r = order_parts(entry.parts);
    assert_eq!(r.unwrap_err(), DriveError::CorruptLedger);
}

#[test]
fn corrupt_ledger_duplicate_index() {
    let mut entry = MasterDirectoryChild::new("dup.bin".to_string());
    entry.parts.push(MasterDirectoryChildPart::new("dup.bin", 0, "u0".to_string()));
    entry.parts.push(MasterDirectoryChildPart::new("dup.bin", 1, "u1".to_string()));
    // A duplicate index slipped in under a different id.
    entry.parts.push(MasterDirectoryChildPart {
        name: "dup.bin".to_string(),
        id: "dup.bin.1b".to_string(),
        part: 1,
        parent: "dup.bin".to_string(),
        url: "u1b".to_string(),
    });
    let r = order_parts(entry.parts);
    assert_eq!(r.unwrap_err(), DriveError::CorruptLedger);
}

#[test]
fn corrupt_ledger_negative_index() {
    let mut entry = MasterDirectoryChild::new("neg.bin".to_string());
    entry.parts.push(MasterDirectoryChildPart {
        name: "neg.bin".to_string(),
        id: "neg.bin.-1".to_string(),
        part: -1,
        parent: "neg.bin".to_string(),
        url: "u".to_string(),
    });
    let r = order_parts(entry.parts);
    assert_eq!(r.unwrap_err(), DriveError::CorruptLedger);
}

#[test]
fn sorted_parts_are_in_index_order() {
    let mut entry = MasterDirectoryChild::new("obj".to_string());
    for index in [2usize, 0, 1] {
        entry.append_part_if_absent(MasterDirectoryChildPart::new(
            "obj",
            index,
            format!("u{}", index),
        ));
    }
    let sorted = order_parts(entry.parts).unwrap();
    assert_eq!(sorted.len(), 3);
    for (j, part) in sorted.iter().enumerate() {
        assert_eq!(part.part as usize, j);
        assert_eq!(part.url, format!("u{}", j));
    }
}
