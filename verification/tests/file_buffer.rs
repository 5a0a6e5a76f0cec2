use pbtree::error::Error;
use pbtree::file_buffer::{BufFile, SeekFrom, Slab, DEFAULT_NUM_SLABS, REACH, SLAB_SIZE};
use pbtree::storage::{MemFile, Storage};
use rand::Rng;
use rand::SeedableRng;
use rand::XorShiftRng;

const MIB: u64 = 1024 * 1024;

/// A store that fails every write once it was told to.
struct Failing {
    inner: MemFile,
    fail_writes: bool,
}

impl Storage for Failing {
    fn size(&self) -> Result<u64, Error> {
        self.inner.size()
    }

    fn read_at(&mut self, pos: u64, len: usize) -> Result<Vec<u8>, Error> {
        self.inner.read_at(pos, len)
    }

    fn truncate(&mut self) -> Result<(), Error> {
        self.inner.truncate()
    }

    fn flush(&mut self) -> Result<(), Error> {
        Ok(())
    }

    fn write_at(&mut self, pos: u64, data: &[u8]) -> Result<(), Error> {
        if self.fail_writes {
            Err(Error::Io(std::io::Error::from(std::io::ErrorKind::Other)))
        } else {
            self.inner.write_at(pos, data)
        }
    }
}

fn read_at(b: &mut BufFile<MemFile>, pos: u64, len: usize) -> Vec<u8> {
    assert_eq!(b.seek(SeekFrom::Start(pos)).unwrap(), pos);
    let mut out = vec![0u8; len];
    assert_eq!(b.read(&mut out).unwrap(), len);
    out
}

fn write_at(b: &mut BufFile<MemFile>, pos: u64, data: &[u8]) {
    assert_eq!(b.seek(SeekFrom::Start(pos)).unwrap(), pos);
    assert_eq!(b.write(data).unwrap(), data.len());
}

#[test]
fn a_slab_is_a_page_of_the_store_padded_with_zeros() {
    let mut m = MemFile::from_bytes(vec![9, 8, 7]);
    let s = Slab::new(0, &mut m).unwrap();
    assert_eq!(s.dat.len(), SLAB_SIZE);
    assert_eq!(&s.dat[..4], &[9, 8, 7, 0]);
    assert!(s.dat[4..].iter().all(|b| *b == 0));
    assert_eq!(m.as_slice(), &[9, 8, 7]);
}

#[test]
fn a_slab_writes_its_whole_page_back() {
    let mut m = MemFile::from_bytes(vec![1, 2, 3]);
    let mut s = Slab::new(0, &mut m).unwrap();
    s.dat[1] = 42;
    s.write(&mut m).unwrap();
    assert_eq!(m.size().unwrap(), MIB);
    assert_eq!(&m.as_slice()[..4], &[1, 42, 3, 0]);
}

#[test]
fn a_new_buffer_starts_at_the_beginning() {
    let b = BufFile::new(MemFile::from_bytes(vec![1, 2, 3])).unwrap();
    assert_eq!(b.cursor, 0);
    assert_eq!(b.end, 3);
    assert_eq!(b.dat.len(), 0);
    assert_eq!(DEFAULT_NUM_SLABS, 16);
}

#[test]
fn two_pages_through_two_slabs() {
    let mut b = BufFile::with_capacity(2, MemFile::new()).unwrap();
    let ones = vec![1u8; MIB as usize];
    let twos = vec![2u8; MIB as usize];
    write_at(&mut b, 0, &ones);
    write_at(&mut b, MIB, &twos);
    assert_eq!(read_at(&mut b, 512 * 1024, 1), vec![1]);
    assert_eq!(read_at(&mut b, MIB + 512 * 1024, 1), vec![2]);
    assert!(b.dat.len() <= 2);
    b.flush().unwrap();
    let store = b.store().as_slice();
    assert_eq!(store.len() as u64, 2 * MIB);
    assert!(store[..MIB as usize].iter().all(|x| *x == 1));
    assert!(store[MIB as usize..].iter().all(|x| *x == 2));
}

#[test]
fn one_slab_evicts_on_every_other_page() {
    let mut b = BufFile::with_capacity(1, MemFile::new()).unwrap();
    write_at(&mut b, 0, &[11]);
    write_at(&mut b, MIB, &[22]);
    write_at(&mut b, 0, &[33]);
    write_at(&mut b, MIB, &[44]);
    assert_eq!(b.dat.len(), 1);
    b.flush().unwrap();
    let store = b.store().as_slice();
    assert_eq!(store[0], 33);
    assert_eq!(store[MIB as usize], 44);
    assert_eq!(read_at(&mut b, 0, 1), vec![33]);
    assert_eq!(read_at(&mut b, MIB, 1), vec![44]);
}

#[test]
fn what_is_written_is_read_back_across_pages() {
    let mut b = BufFile::with_capacity(2, MemFile::new()).unwrap();
    let data: Vec<u8> = (0..3_000_000u32).map(|i| (i % 251) as u8).collect();
    write_at(&mut b, MIB - 5, &data);
    assert_eq!(b.cursor, MIB - 5 + 3_000_000);
    assert_eq!(read_at(&mut b, MIB - 5, data.len()), data);
    assert_eq!(read_at(&mut b, MIB - 7, 4), vec![0, 0, 0, 1]);
    assert!(b.dat.len() <= 2);
}

#[test]
fn random_writes_read_back_and_reach_the_store() {
    let mut rng = XorShiftRng::from_seed([0, 1, 377, 6712]);
    let mut b = BufFile::with_capacity(3, MemFile::new()).unwrap();
    let mut model = vec![0u8; 6 * MIB as usize];
    for _ in 0..40 {
        let pos = rng.gen_range(0, 5 * MIB);
        let len = rng.gen_range(0, 300_000) as usize;
        let fill: u8 = rng.gen();
        let data = vec![fill; len];
        write_at(&mut b, pos, &data);
        model[pos as usize..pos as usize + len].copy_from_slice(&data);
        let back = rng.gen_range(0, 5 * MIB);
        let got = read_at(&mut b, back, 1000);
        assert_eq!(&got[..], &model[back as usize..back as usize + 1000]);
        assert!(b.dat.len() <= 3);
    }
    let store = b.close().unwrap();
    let held = store.as_slice();
    assert_eq!(&model[..held.len()], held);
    assert!(model[held.len()..].iter().all(|x| *x == 0));
}

#[test]
fn a_second_flush_changes_nothing() {
    let mut b = BufFile::with_capacity(4, MemFile::from_bytes(vec![5; 10])).unwrap();
    write_at(&mut b, 3, &[1, 2, 3]);
    write_at(&mut b, 2 * MIB + 1, &[4]);
    b.flush().unwrap();
    let once = b.store().as_slice().to_vec();
    b.flush().unwrap();
    assert_eq!(b.store().as_slice(), &once[..]);
    assert_eq!(&once[..10], &[5, 5, 5, 1, 2, 3, 5, 5, 5, 5]);
    assert_eq!(once.len() as u64, 3 * MIB);
    assert_eq!(once[2 * MIB as usize + 1], 4);
}

#[test]
fn the_least_used_slab_leaves() {
    let mut b = BufFile::with_capacity(2, MemFile::new()).unwrap();
    write_at(&mut b, 0, &[1]);
    write_at(&mut b, 0, &[1]);
    write_at(&mut b, 0, &[1]);
    write_at(&mut b, MIB, &[2]);
    write_at(&mut b, MIB, &[2]);
    // Page 0 was used three times, page 1 twice: page 1 leaves for page 2.
    write_at(&mut b, 2 * MIB, &[3]);
    assert_eq!(b.dat.len(), 2);
    assert_eq!(b.dat[0].dat[0], 1);
    assert_eq!(b.dat[1].dat[0], 3);
    assert_eq!(b.store().as_slice()[MIB as usize], 2);
}

#[test]
fn seek_moves_the_cursor_the_usual_way() {
    let mut b = BufFile::with_capacity(2, MemFile::from_bytes(vec![7; 100])).unwrap();
    assert_eq!(b.seek(SeekFrom::Start(40)).unwrap(), 40);
    assert_eq!(b.seek(SeekFrom::Current(10)).unwrap(), 50);
    assert_eq!(b.seek(SeekFrom::Current(-20)).unwrap(), 30);
    assert_eq!(b.seek(SeekFrom::End(0)).unwrap(), 100);
    assert_eq!(b.seek(SeekFrom::End(-1)).unwrap(), 99);
    let mut one = [0u8; 1];
    assert_eq!(b.read(&mut one).unwrap(), 1);
    assert_eq!(one, [7]);
    assert_eq!(b.cursor, 100);
}

#[test]
fn seek_before_the_start_or_beyond_reach_fails() {
    let mut b = BufFile::with_capacity(2, MemFile::from_bytes(vec![7; 100])).unwrap();
    b.seek(SeekFrom::Start(5)).unwrap();
    assert!(matches!(b.seek(SeekFrom::Current(-6)), Err(Error::InvalidSeek)));
    assert!(matches!(b.seek(SeekFrom::End(-101)), Err(Error::InvalidSeek)));
    assert!(matches!(b.seek(SeekFrom::Start(REACH)), Err(Error::InvalidSeek)));
    assert_eq!(b.cursor, 5);
    b.cursor = REACH - 1;
    let mut two = [0u8; 2];
    assert!(matches!(b.read(&mut two), Err(Error::InvalidSeek)));
    assert!(matches!(b.write(&two), Err(Error::InvalidSeek)));
    assert_eq!(b.cursor, REACH - 1);
}

#[test]
fn seeking_past_the_end_extends_the_store_with_zeros() {
    let mut b = BufFile::with_capacity(2, MemFile::from_bytes(vec![7; 100])).unwrap();
    assert_eq!(b.seek(SeekFrom::Start(MIB + 10)).unwrap(), MIB + 10);
    assert_eq!(b.end, 2 * MIB);
    assert_eq!(b.store().size().unwrap(), 2 * MIB);
    assert_eq!(read_at(&mut b, 98, 4), vec![7, 7, 0, 0]);
    assert_eq!(read_at(&mut b, MIB + 10, 2), vec![0, 0]);
}

#[test]
fn an_empty_read_or_write_moves_nothing() {
    let mut b = BufFile::with_capacity(1, MemFile::from_bytes(vec![7; 100])).unwrap();
    b.seek(SeekFrom::Start(8)).unwrap();
    let mut none = [0u8; 0];
    assert_eq!(b.read(&mut none).unwrap(), 0);
    assert_eq!(b.write(&none).unwrap(), 0);
    assert_eq!(b.cursor, 8);
}

#[test]
fn a_failure_of_the_store_comes_back_as_it_was() {
    let store = Failing { inner: MemFile::new(), fail_writes: false };
    let mut b = BufFile::with_capacity(1, store).unwrap();
    b.seek(SeekFrom::Start(0)).unwrap();
    assert_eq!(b.write(&[1, 2, 3]).unwrap(), 3);
    let mut store = b.close().unwrap();
    assert_eq!(&store.inner.as_slice()[..3], &[1, 2, 3]);
    store.fail_writes = true;
    let mut b = BufFile::with_capacity(1, store).unwrap();
    b.seek(SeekFrom::Start(0)).unwrap();
    b.write(&[9]).unwrap();
    // The page is resident: a read of it needs no store.
    let mut one = [0u8; 1];
    b.seek(SeekFrom::Start(0)).unwrap();
    assert_eq!(b.read(&mut one).unwrap(), 1);
    assert_eq!(one, [9]);
    // The next page needs the slab, and the write-back fails.
    assert!(matches!(b.seek(SeekFrom::Start(MIB)), Err(Error::Io(_))));
    assert!(matches!(b.flush(), Err(Error::Io(_))));
    assert_eq!(b.cursor, 1);
}
