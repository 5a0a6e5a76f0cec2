use pbtree::codec::{read_exact, Codec};
use pbtree::error::Error;
use pbtree::storage::{MemFile, Storage};

#[test]
fn a_number_is_eight_bytes() {
    assert_eq!(0x0102030405060708u64.serialize(), vec![8, 7, 6, 5, 4, 3, 2, 1]);
    let mut m = MemFile::from_bytes(vec![0, 8, 7, 6, 5, 4, 3, 2, 1, 0]);
    assert_eq!(u64::deserialize(&mut m, 1).unwrap(), 0x0102030405060708);
    assert!(matches!(u64::deserialize(&mut m, 3), Err(Error::Corrupt)));
}

#[test]
fn a_string_is_its_length_and_its_bytes() {
    let s = String::from("h\u{e9}llo");
    let e = s.serialize();
    assert_eq!(e, vec![6, 0, 0, 0, 0, 0, 0, 0, b'h', 0xC3, 0xA9, b'l', b'l', b'o']);
    assert_eq!(String::new().serialize(), vec![0; 8]);
}

#[test]
fn strings_read_back_from_where_they_stand() {
    let mut m = MemFile::new();
    let words = ["", "a", "hello", "h\u{e9}llo", "0123456789"];
    let mut at = Vec::new();
    for w in words {
        let pos = m.size().unwrap();
        m.write_at(pos, &String::from(w).serialize()).unwrap();
        // An empty record still takes its length.
        assert_eq!(m.size().unwrap(), pos + 8 + w.len() as u64);
        at.push(pos);
    }
    for (w, pos) in words.iter().zip(at) {
        assert_eq!(String::deserialize(&mut m, pos).unwrap(), *w);
    }
}

#[test]
fn what_is_no_string_is_corrupt() {
    let mut short = MemFile::from_bytes(vec![5, 0, 0, 0, 0, 0, 0, 0, b'a', b'b']);
    assert!(matches!(String::deserialize(&mut short, 0), Err(Error::Corrupt)));
    let mut head = MemFile::from_bytes(vec![5, 0, 0]);
    assert!(matches!(String::deserialize(&mut head, 0), Err(Error::Corrupt)));
    let mut utf = MemFile::from_bytes(vec![2, 0, 0, 0, 0, 0, 0, 0, 0xC3, 0x28]);
    assert!(matches!(String::deserialize(&mut utf, 0), Err(Error::Corrupt)));
    let mut far = MemFile::from_bytes(vec![1, 2, 3]);
    assert!(matches!(String::deserialize(&mut far, 100), Err(Error::Corrupt)));
}

#[test]
fn read_exact_wants_every_byte() {
    let mut m = MemFile::from_bytes(vec![1, 2, 3, 4]);
    assert_eq!(read_exact(&mut m, 1, 3).unwrap(), vec![2, 3, 4]);
    assert!(matches!(read_exact(&mut m, 2, 3), Err(Error::Corrupt)));
    assert_eq!(read_exact(&mut m, 4, 0).unwrap(), Vec::<u8>::new());
}
