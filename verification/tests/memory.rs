//! Tests of the guest heap manager: allocation, round trips, bounds
//! enforcement, and the block table's sentinel semantics.

use extism_runtime::error::RuntimeError;
use extism_runtime::memory::PluginMemory;

#[test]
fn alloc_bytes_round_trip() {
    let mut m = PluginMemory::new();
    let data = b"hello plugin world".to_vec();
    let block = m.alloc_bytes(&data).unwrap();
    assert_eq!(block.length, data.len());
    assert_ne!(block.offset, 0);
    assert_eq!(m.get(block), data);
}

#[test]
fn alloc_bytes_round_trip_empty() {
    let mut m = PluginMemory::new();
    let block = m.alloc_bytes(&[]).unwrap();
    assert_eq!(block.length, 0);
    assert_ne!(block.offset, 0);
    assert_eq!(m.get(block), Vec::<u8>::new());
}

#[test]
fn block_length_unknown_offsets() {
    let mut m = PluginMemory::new();
    assert_eq!(m.block_length(0), None);
    assert_eq!(m.block_length(12345), None);
    let block = m.alloc_bytes(b"abcd").unwrap();
    assert_eq!(m.block_length(block.offset), Some(4));
    m.free(block.offset);
    assert_eq!(m.block_length(block.offset), None);
    // freeing again, or freeing the sentinel, is a no-op
    m.free(block.offset);
    m.free(0);
    assert_eq!(m.block_length(0), None);
}

#[test]
fn live_blocks_do_not_overlap() {
    let mut m = PluginMemory::new();
    let a = m.alloc_bytes(&[0xaa; 16]).unwrap();
    let b = m.alloc_bytes(&[0xbb; 16]).unwrap();
    let c = m.alloc_bytes(&[0xcc; 7]).unwrap();
    // writing one block never disturbs another
    for i in 0..16 {
        m.store_u8(b.offset + i, 0x11).unwrap();
    }
    assert_eq!(m.get(a), vec![0xaa; 16]);
    assert_eq!(m.get(b), vec![0x11; 16]);
    assert_eq!(m.get(c), vec![0xcc; 7]);
}

#[test]
fn freed_block_is_reused_for_same_size() {
    let mut m = PluginMemory::new();
    let a = m.allocate(32).unwrap();
    m.free(a.offset);
    let b = m.allocate(32).unwrap();
    assert_eq!(a.offset, b.offset);
    // a different size does not reuse the freed row
    m.free(b.offset);
    let c = m.allocate(33).unwrap();
    assert_ne!(c.offset, a.offset);
}

#[test]
fn typed_access_is_little_endian() {
    let mut m = PluginMemory::new();
    let block = m.allocate(12).unwrap();
    m.store_u32(block.offset, 0x0403_0201).unwrap();
    assert_eq!(m.load_u8(block.offset).unwrap(), 1);
    assert_eq!(m.load_u8(block.offset + 1).unwrap(), 2);
    assert_eq!(m.load_u8(block.offset + 2).unwrap(), 3);
    assert_eq!(m.load_u8(block.offset + 3).unwrap(), 4);
    assert_eq!(m.load_u32(block.offset).unwrap(), 0x0403_0201);
    m.store_u64(block.offset + 4, 0x0807_0605_0403_0201).unwrap();
    assert_eq!(m.load_u64(block.offset + 4).unwrap(), 0x0807_0605_0403_0201);
    assert_eq!(m.load_u8(block.offset + 11).unwrap(), 8);
}

#[test]
fn out_of_bounds_reads_fail() {
    let mut m = PluginMemory::new();
    let block = m.allocate(4).unwrap();
    assert_eq!(m.load_u32(block.offset).is_ok(), true);
    // offset + 4 exceeds the block's live length: a Read error, not data
    assert_eq!(m.load_u32(block.offset + 1), Err(RuntimeError::ReadFailed));
    assert_eq!(m.load_u64(block.offset), Err(RuntimeError::ReadFailed));
    assert_eq!(m.load_u8(block.offset + 4), Err(RuntimeError::ReadFailed));
    m.free(block.offset);
    assert_eq!(m.load_u8(block.offset), Err(RuntimeError::ReadFailed));
}

#[test]
fn out_of_bounds_writes_fail() {
    let mut m = PluginMemory::new();
    let block = m.allocate(4).unwrap();
    assert_eq!(m.store_u32(block.offset, 7).is_ok(), true);
    assert_eq!(m.store_u32(block.offset + 1, 7), Err(RuntimeError::WriteFailed));
    assert_eq!(m.store_u64(block.offset, 7), Err(RuntimeError::WriteFailed));
    assert_eq!(m.store_u8(0, 7), Err(RuntimeError::WriteFailed));
    // the failed writes changed nothing
    assert_eq!(m.load_u32(block.offset).unwrap(), 7);
}

#[test]
fn reset_clears_every_block() {
    let mut m = PluginMemory::new();
    let a = m.alloc_bytes(b"data").unwrap();
    m.reset();
    assert_eq!(m.block_length(a.offset), None);
    let b = m.alloc_bytes(b"fresh").unwrap();
    assert_eq!(m.get(b), b"fresh".to_vec());
}
