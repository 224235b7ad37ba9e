use tile::tlog::{
    node_hash, record_hash, stored_hash_count, sub_tree_index, tree_hash, Coordinate, ReadHash,
};

#[test]
fn test_split_stored_hash_index() {
    for level in 0..10 {
        for n in 1..100 {
            let want = Coordinate { level, n };
            let got = Coordinate::split_stored_hash_index(want.stored_hash_index());
            assert_eq!(got, want, "{level},{n}");
        }
    }
}

#[test]
fn test_stored_hash_index_values() {
    assert_eq!(Coordinate { level: 0, n: 0 }.stored_hash_index(), 0);
    assert_eq!(Coordinate { level: 0, n: 1 }.stored_hash_index(), 1);
    assert_eq!(Coordinate { level: 1, n: 0 }.stored_hash_index(), 2);
    assert_eq!(Coordinate { level: 0, n: 2 }.stored_hash_index(), 3);
    assert_eq!(Coordinate { level: 0, n: 3 }.stored_hash_index(), 4);
    assert_eq!(Coordinate { level: 1, n: 1 }.stored_hash_index(), 5);
    assert_eq!(Coordinate { level: 2, n: 0 }.stored_hash_index(), 6);
    assert_eq!(Coordinate { level: -1, n: 1 }.stored_hash_index(), 0);
}

#[test]
fn test_stored_hash_count_values() {
    assert_eq!(stored_hash_count(0), 0);
    assert_eq!(stored_hash_count(1), 1);
    assert_eq!(stored_hash_count(2), 3);
    assert_eq!(stored_hash_count(4), 7);
    assert_eq!(stored_hash_count(5), 8);
    assert_eq!(stored_hash_count(8), 15);
}

#[test]
fn test_stored_hash_count_monotonic() {
    for n in 0..200usize {
        assert!(
            stored_hash_count(n + 1) >= stored_hash_count(n),
            "count shrank at {n}"
        );
        // Each record adds one leaf hash plus one interior hash per
        // completed power-of-two subtree.
        assert_eq!(
            stored_hash_count(n + 1) - stored_hash_count(n),
            1 + (n + 1).trailing_zeros() as usize,
            "wrong step at {n}"
        );
    }
}

#[test]
fn test_stored_hash_count_dense_fill() {
    // After n records, exactly the hashes of complete subtrees are stored.
    for n in 0..64usize {
        for level in 0..6isize {
            for k in 0..32usize {
                let idx = Coordinate { level, n: k }.stored_hash_index();
                let complete = (k + 1) * (1usize << level) <= n;
                assert_eq!(idx < stored_hash_count(n), complete, "{level},{k},{n}");
            }
        }
    }
}

#[test]
fn test_record_hash_empty() {
    // SHA-256 of the single byte 0x00: the well-known empty leaf hash.
    let want: [u8; 32] = [
        0x6e, 0x34, 0x0b, 0x9c, 0xff, 0xb3, 0x7a, 0x98, 0x9c, 0xa5, 0x44, 0xe6, 0xbb, 0x78, 0x0a,
        0x2c, 0x78, 0x90, 0x1d, 0x3f, 0xb3, 0x37, 0x38, 0x76, 0x85, 0x11, 0xa3, 0x06, 0x17, 0xaf,
        0xa0, 0x1d,
    ];
    assert_eq!(record_hash(b"").as_bytes(), &want);
}

#[test]
fn test_hash_domain_separation() {
    let leaf = record_hash(b"");
    let node = node_hash(&leaf, &leaf);
    assert_ne!(leaf.as_bytes(), node.as_bytes());

    let a = record_hash(b"a");
    let b = record_hash(b"b");
    assert_ne!(a.as_bytes(), b.as_bytes());
    assert_ne!(
        node_hash(&a, &b).as_bytes(),
        node_hash(&b, &a).as_bytes()
    );
}

#[test]
fn test_sub_tree_index_ranges() {
    assert_eq!(sub_tree_index(0, 1), vec![0]);
    assert_eq!(sub_tree_index(0, 4), vec![6]);
    assert_eq!(sub_tree_index(0, 6), vec![6, 9]);
    assert_eq!(sub_tree_index(2, 6), vec![5, 9]);
    assert_eq!(sub_tree_index(0, 7), vec![6, 9, 10]);
    assert_eq!(sub_tree_index(3, 3), Vec::<usize>::new());
}

struct SliceReader(Vec<tile::tlog::Hash>);

impl ReadHash for SliceReader {
    type Error = usize;

    fn read_hashes(&self, indices: &Vec<usize>) -> Result<Vec<tile::tlog::Hash>, usize> {
        let mut out = Vec::new();
        for &i in indices.iter() {
            match self.0.get(i) {
                Some(h) => out.push(*h),
                None => return Err(i),
            }
        }
        Ok(out)
    }
}

#[test]
fn test_tree_hash() {
    let l0 = record_hash(b"a");
    let l1 = record_hash(b"b");
    let l2 = record_hash(b"c");
    let n01 = node_hash(&l0, &l1);
    // Storage order: leaf 0, leaf 1, node(0-1), leaf 2.
    let reader = SliceReader(vec![l0, l1, n01, l2]);

    let empty = tree_hash(0, &reader).unwrap();
    assert_eq!(empty.as_bytes(), &[0u8; 32]);

    let one = tree_hash(1, &reader).unwrap();
    assert_eq!(one.as_bytes(), l0.as_bytes());

    let two = tree_hash(2, &reader).unwrap();
    assert_eq!(two.as_bytes(), n01.as_bytes());

    let three = tree_hash(3, &reader).unwrap();
    assert_eq!(three.as_bytes(), node_hash(&n01, &l2).as_bytes());

    // An index the reader cannot serve propagates its failure.
    assert!(matches!(tree_hash(4, &reader), Err(6)));
}
