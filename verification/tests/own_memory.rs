use mempoll::memory::process_vm_memory::ProcessVmMemory;
use mempoll::memory::{MemoryError, MemoryReader, MemoryWriter};
use mempoll::process::{MapRange, MemoryType};
use mempoll::searcher::{MemorySearcher, SearchType};

fn own_pid() -> u32 {
    nix::unistd::getpid().as_raw() as u32
}

#[test]
fn a_process_reads_its_own_memory_across() {
    let data: Vec<u8> = (0..200u8).collect();
    let address = data.as_ptr() as usize;
    let mut memory = ProcessVmMemory::new(own_pid());
    let mut buf = vec![0u8; 200];
    assert_eq!(memory.readbuf(address, &mut buf).unwrap(), 200);
    assert_eq!(buf, data);
    let mut buf = vec![0u8; 7];
    assert_eq!(memory.readbuf(address + 13, &mut buf).unwrap(), 7);
    assert_eq!(buf, vec![13, 14, 15, 16, 17, 18, 19]);
    assert_eq!(memory.read::<u32>(address + 1).unwrap(), 0x04030201);
    let mut none = [0u8; 0];
    assert_eq!(memory.readbuf(address, &mut none).unwrap(), 0);
}

#[test]
fn a_read_of_memory_that_is_not_there_fails() {
    let mut memory = ProcessVmMemory::new(own_pid());
    let mut buf = vec![0u8; 16];
    assert!(matches!(memory.readbuf(8, &mut buf), Err(MemoryError::CrossProcReadFailed(_))));
}

#[test]
fn a_process_searches_its_own_memory_across() {
    let mut data = vec![0u8; 4096];
    for at in [0usize, 100, 2048, 4092] {
        data[at..at + 4].copy_from_slice(&0xfeed_f00du32.to_le_bytes());
    }
    let address = data.as_ptr() as usize;
    let mut memory = ProcessVmMemory::new(own_pid());
    memory.process.maps.push(MapRange {
        address: (address, address + 4096),
        perms: 3,
        offset: 0,
        dev: (0, 0),
        inode: 0,
        pathname: String::new(),
        memory_type: MemoryType::A,
    });
    let found = memory
        .search::<SearchType<u32>, 512, fn(&MapRange) -> bool>(SearchType::Eq(0xfeed_f00d), None)
        .unwrap();
    assert_eq!(found, vec![address, address + 100, address + 2048, address + 4092]);
    let found = memory
        .search::<SearchType<u32>, 512, _>(
            SearchType::Eq(0xfeed_f00d),
            Some(|m: &MapRange| m.memory_type == MemoryType::Ch),
        )
        .unwrap();
    assert!(found.is_empty());
    assert_eq!(memory.process.pid, own_pid());
    assert_eq!(memory.process.maps.len(), 1);
    assert_eq!(memory.process.maps[0].address, (address, address + 4096));
    assert_eq!(memory.process.maps[0].memory_type, MemoryType::A);
}

#[test]
fn a_process_writes_its_own_memory_across() {
    let target = vec![0u8; 64];
    let address = target.as_ptr() as usize;
    let mut memory = ProcessVmMemory::new(own_pid());
    let pattern: Vec<u8> = (0..40).map(|i| 0xa0 + i as u8).collect();
    assert_eq!(memory.writebuf(address + 3, &pattern).unwrap(), 40);
    let mut back = vec![0u8; 64];
    assert_eq!(memory.readbuf(address, &mut back).unwrap(), 64);
    assert_eq!(&back[..3], &[0, 0, 0]);
    assert_eq!(&back[3..43], &pattern[..]);
    assert_eq!(&back[43..], &[0u8; 21]);
    memory.write(address + 50, &-2i32).unwrap();
    assert_eq!(memory.read::<i32>(address + 50).unwrap(), -2);
    assert_eq!(memory.read::<u16>(address + 52).unwrap(), 0xffff);
    assert_eq!(memory.writebuf(address, &[]).unwrap(), 0);
    assert_eq!(target.len(), 64);
}
