use pbtree::error::Error;
use pbtree::storage::{MemFile, Storage};

/// A store written outside the library, as one over a file would be.
struct Plain {
    v: Vec<u8>,
}

impl Storage for Plain {
    fn size(&self) -> Result<u64, Error> {
        Ok(self.v.len() as u64)
    }

    fn read_at(&mut self, pos: u64, len: usize) -> Result<Vec<u8>, Error> {
        let from = (pos as usize).min(self.v.len());
        let to = from.saturating_add(len).min(self.v.len());
        Ok(self.v[from..to].to_vec())
    }

    fn truncate(&mut self) -> Result<(), Error> {
        self.v.clear();
        Ok(())
    }

    fn flush(&mut self) -> Result<(), Error> {
        Ok(())
    }

    fn write_at(&mut self, pos: u64, data: &[u8]) -> Result<(), Error> {
        if data.is_empty() {
            return Ok(());
        }
        let from = pos as usize;
        if self.v.len() < from + data.len() {
            self.v.resize(from + data.len(), 0);
        }
        self.v[from..from + data.len()].copy_from_slice(data);
        Ok(())
    }
}

fn exercise<F: Storage>(f: &mut F) {
    assert_eq!(f.size().unwrap(), 0);
    f.write_at(3, &[7, 8, 9]).unwrap();
    assert_eq!(f.size().unwrap(), 6);
    assert_eq!(f.read_at(0, 6).unwrap(), vec![0, 0, 0, 7, 8, 9]);
    assert_eq!(f.read_at(4, 100).unwrap(), vec![8, 9]);
    assert_eq!(f.read_at(6, 1).unwrap(), Vec::<u8>::new());
    assert_eq!(f.read_at(60, 1).unwrap(), Vec::<u8>::new());
    f.write_at(1, &[1, 2, 3]).unwrap();
    assert_eq!(f.read_at(0, 6).unwrap(), vec![0, 1, 2, 3, 8, 9]);
    f.write_at(40, &[]).unwrap();
    assert_eq!(f.size().unwrap(), 6);
}

#[test]
fn a_store_in_memory_reads_what_was_written() {
    let mut m = MemFile::new();
    exercise(&mut m);
    assert_eq!(m.as_slice(), &[0, 1, 2, 3, 8, 9]);
}

#[test]
fn a_store_written_elsewhere_reads_the_same() {
    let mut p = Plain { v: Vec::new() };
    exercise(&mut p);
    assert_eq!(p.v, vec![0, 1, 2, 3, 8, 9]);
}

#[test]
fn a_store_in_memory_starts_with_given_bytes() {
    let mut m = MemFile::from_bytes(vec![5, 6]);
    assert_eq!(m.size().unwrap(), 2);
    assert_eq!(m.read_at(1, 1).unwrap(), vec![6]);
}
