use dofs::chunk::{ChunkedFile, DEFAULT_CHUNK_SIZE};

/// A small deterministic generator for offsets.
struct Lcg(u64);

impl Lcg {
    fn next(&mut self) -> u64 {
        self.0 = self.0.wrapping_mul(6364136223846793005).wrapping_add(1442695040888963407);
        self.0 >> 33
    }
}

#[test]
fn chunked_create_write_read_one_mib() {
    let mut f = ChunkedFile::new(DEFAULT_CHUNK_SIZE);
    let data = vec![0x2Au8; 1_048_576];
    f.write(0, &data);
    assert_eq!(f.size, 1_048_576);
    assert_eq!(f.chunks.len(), 256);
    assert_eq!(f.read(0, 1_048_576), data);
}

#[test]
fn chunked_append() {
    let mut f = ChunkedFile::new(4096);
    f.write(0, &vec![0x01u8; 524_288]);
    f.write(f.size, &vec![0x02u8; 524_288]);
    let back = f.read(0, 1_048_576);
    assert!(back[..524_288].iter().all(|&b| b == 0x01));
    assert!(back[524_288..].iter().all(|&b| b == 0x02));
}

#[test]
fn chunked_truncate_shrink_then_grow() {
    let mut f = ChunkedFile::new(4096);
    f.write(0, &vec![0x07u8; 1_048_576]);
    f.truncate(524_288);
    assert_eq!(f.read(0, 1_048_576), vec![0x07u8; 524_288]);
    f.truncate(1_048_576);
    let back = f.read(0, 1_048_576);
    assert_eq!(back.len(), 1_048_576);
    assert!(back[..524_288].iter().all(|&b| b == 0x07));
    assert!(back[524_288..].iter().all(|&b| b == 0));
}

#[test]
fn chunked_truncate_keeps_the_partial_chunk() {
    let mut f = ChunkedFile::new(4096);
    f.write(0, &vec![0x09u8; 3 * 4096]);
    f.truncate(4096 + 100);
    assert!(f.chunks.keys().all(|&k| k < 2 * 4096));
    assert_eq!(f.chunks.get(&4096).unwrap().len(), 100);
    assert_eq!(f.read(0, 100_000), vec![0x09u8; 4196]);
    f.truncate(4096 + 200);
    let back = f.read(0, 100_000);
    assert_eq!(back.len(), 4296);
    assert!(back[..4196].iter().all(|&b| b == 0x09));
    assert!(back[4196..].iter().all(|&b| b == 0));
    f.truncate(4096);
    assert!(f.chunks.get(&4096).is_none());
    assert_eq!(f.size, 4096);
}

#[test]
fn chunked_last_chunk_is_short() {
    let mut f = ChunkedFile::new(8);
    f.write(0, b"0123456789abc");
    assert_eq!(f.chunks.get(&0).unwrap(), &b"01234567".to_vec());
    assert_eq!(f.chunks.get(&8).unwrap(), &b"89abc".to_vec());
    f.write(20, b"Z");
    assert_eq!(f.size, 21);
    assert!(f.chunks.get(&16).is_some());
    assert_eq!(f.read(0, 100), b"0123456789abc\0\0\0\0\0\0\0Z".to_vec());
}

#[test]
fn chunked_sparse_read_is_zero() {
    let mut f = ChunkedFile::new(16);
    f.write(100, b"hi");
    assert_eq!(f.size, 102);
    assert_eq!(f.chunks.len(), 1);
    let back = f.read(0, 200);
    assert_eq!(back.len(), 102);
    assert!(back[..100].iter().all(|&b| b == 0));
    assert_eq!(&back[100..], b"hi");
    assert_eq!(f.read(102, 5), Vec::<u8>::new());
    assert_eq!(f.read(101, 5), b"i".to_vec());
}

#[test]
fn chunked_single_byte_write() {
    let mut f = ChunkedFile::new(4);
    f.write(0, b"abcdefghij");
    f.write(5, b"X");
    assert_eq!(f.read(0, 10), b"abcdeXghij".to_vec());
    assert_eq!(f.size, 10);
    assert_eq!(f.read(5, 1), f.read(5, 1));
}

#[test]
fn chunked_insert_chunk_checks() {
    let mut f = ChunkedFile::with_size(8, 20);
    assert!(f.insert_chunk(8, b"abc".to_vec()));
    assert!(!f.insert_chunk(3, b"abc".to_vec()));
    assert!(!f.insert_chunk(16, b"abcdefg".to_vec()));
    assert!(!f.insert_chunk(0, Vec::new()));
    assert!(!f.insert_chunk(0, b"123456789".to_vec()));
    let back = f.read(0, 20);
    assert_eq!(&back[8..11], b"abc");
    assert!(back[..8].iter().all(|&b| b == 0));
}

#[test]
fn chunked_hundred_mib_random_io() {
    let mut f = ChunkedFile::new(4096);
    let total: u64 = 104_857_600;
    let piece = vec![0x37u8; 1_048_576];
    let mut off: u64 = 0;
    while off < total {
        f.write(off, &piece);
        off += piece.len() as u64;
    }
    assert_eq!(f.size, total);
    let back = f.read(0, total);
    assert_eq!(back.len() as u64, total);
    assert!(back.iter().all(|&b| b == 0x37));
    drop(back);
    let mut rng = Lcg(42);
    let mut expect: Vec<(u64, u8)> = Vec::new();
    for i in 0..10u8 {
        let o = rng.next() % total;
        f.write(o, &[i]);
        expect.retain(|&(p, _)| p != o);
        expect.push((o, i));
    }
    for (o, v) in expect {
        assert_eq!(f.read(o, 1), vec![v]);
    }
    assert_eq!(f.size, total);
}

#[test]
fn chunked_truncate_of_a_huge_sparse_file_is_quick() {
    let mut f = ChunkedFile::new(4096);
    f.write(1u64 << 60, b"x");
    f.write(8192, b"y");
    assert_eq!(f.size, (1u64 << 60) + 1);
    assert_eq!(f.chunks.len(), 2);
    f.truncate(8193);
    assert_eq!(f.size, 8193);
    assert_eq!(f.chunks.len(), 1);
    assert_eq!(f.read(8190, 10), b"\0\0y".to_vec());
    f.truncate(0);
    assert!(f.chunks.is_empty());
}

#[test]
fn chunked_write_stores_chunk_lengths() {
    let mut f = ChunkedFile::new(10);
    f.write(5, &[1u8; 20]);
    assert_eq!(f.size, 25);
    assert_eq!(f.chunks.get(&0).unwrap().len(), 10);
    assert_eq!(f.chunks.get(&10).unwrap().len(), 10);
    assert_eq!(f.chunks.get(&20).unwrap().len(), 5);
    f.write(0, &[2u8; 3]);
    assert_eq!(f.chunks.get(&0).unwrap().len(), 10);
    assert_eq!(f.read(0, 6), vec![2, 2, 2, 0, 0, 1]);
}
