use lib::bitset_iterator::{BitSource, BitsetIterator, Bitsetsss};
use lib::EcsId;

/// The bits of a word.
const WORD_BITS: u32 = 64;

fn src(words: &[u64], invert: bool) -> BitSource<'_> {
    BitSource { words, invert }
}

#[test]
fn archetype_iter_empty_bitset() {
    let data: Vec<u64> = vec![];
    let mut bitset_iter = BitsetIterator::new(vec![src(&data, false)], 0);

    assert!(matches!(bitset_iter.next(), None));
}

#[test]
fn archetype_iter_single_bitset() {
    let data: Vec<u64> = vec![0b0000_1011];
    let mut bitset_iter = BitsetIterator::new(vec![src(&data, false)], WORD_BITS);

    assert_eq!(bitset_iter.next(), Some(0));
    assert_eq!(bitset_iter.next(), Some(1));
    assert_eq!(bitset_iter.next(), Some(3));
    assert!(matches!(bitset_iter.next(), None));
}

#[test]
fn archetype_iter_gapped_bitset() {
    let data: Vec<u64> = vec![0, 0b101];
    let mut bitset_iter = BitsetIterator::new(vec![src(&data, false)], WORD_BITS * 2);

    assert_eq!(bitset_iter.next(), Some(64));
    assert_eq!(bitset_iter.next(), Some(66));
    assert!(matches!(bitset_iter.next(), None));
}

#[test]
fn archetype_iter_triple_bitset() {
    let data1: Vec<u64> = vec![0b1010_1011];
    let data2: Vec<u64> = vec![0b0110_1110];
    let data3: Vec<u64> = vec![0b1110_0110];

    let mut bitset_iter = BitsetIterator::new(
        vec![src(&data1, false), src(&data2, false), src(&data3, false)],
        WORD_BITS,
    );

    assert_eq!(bitset_iter.next(), Some(1));
    assert_eq!(bitset_iter.next(), Some(5));
    assert!(matches!(bitset_iter.next(), None));
}

#[test]
fn archetype_iter_map_bitset() {
    let data1: Vec<u64> = vec![0b1010_1011];
    let data2: Vec<u64> = vec![0b0111_0110];

    let mut bitset_iter = BitsetIterator::new(vec![src(&data1, false), src(&data2, true)], WORD_BITS);

    assert_eq!(bitset_iter.next(), Some(0));
    assert_eq!(bitset_iter.next(), Some(3));
    assert_eq!(bitset_iter.next(), Some(7));
    assert!(matches!(bitset_iter.next(), None));
}

#[test]
fn archetype_iter_all_ones() {
    let data: Vec<u64> = vec![u64::MAX];
    let mut bitset_iter = BitsetIterator::new(vec![src(&data, false)], WORD_BITS);

    for n in 0..WORD_BITS {
        assert_eq!(bitset_iter.next(), Some(n as usize));
    }
    assert!(matches!(bitset_iter.next(), None));
}

#[test]
fn archetype_iter_bit_length() {
    let data: Vec<u64> = vec![0b101];
    let mut bitset_iter = BitsetIterator::new(vec![src(&data, false)], 2);

    assert_eq!(bitset_iter.next(), Some(0));
    assert!(matches!(bitset_iter.next(), None));
}

#[test]
fn archetype_iter_long_bit_length() {
    let data: Vec<u64> = vec![0b0, u64::MAX];
    let mut bitset_iter = BitsetIterator::new(vec![src(&data, false)], WORD_BITS * 2);

    for n in 0..WORD_BITS {
        let n = n + 64;
        assert_eq!(bitset_iter.next(), Some(n as usize));
    }
    assert!(matches!(bitset_iter.next(), None));
}

#[test]
fn archetype_iter_incorrect_bit_length() {
    let data: Vec<u64> = vec![0b101];
    let mut bitset_iter = BitsetIterator::new(vec![src(&data, false)], 2000);

    assert_eq!(bitset_iter.next(), Some(0));
    assert_eq!(bitset_iter.next(), Some(2));
    assert!(matches!(bitset_iter.next(), None));
}

#[test]
fn archetype_iter_returns_none_continuously_incorrect_bit_length() {
    let data: Vec<u64> = vec![0b101];
    let mut bitset_iter = BitsetIterator::new(vec![src(&data, false)], 2000);

    assert_eq!(bitset_iter.next(), Some(0));
    assert_eq!(bitset_iter.next(), Some(2));
    for _ in 0..9 {
        assert!(matches!(bitset_iter.next(), None));
    }
}

#[test]
fn archetype_iter_returns_none_continuously_bit_length() {
    let data: Vec<u64> = vec![0b101];
    let mut bitset_iter = BitsetIterator::new(vec![src(&data, false)], 3);

    assert_eq!(bitset_iter.next(), Some(0));
    assert_eq!(bitset_iter.next(), Some(2));
    for _ in 0..9 {
        assert!(matches!(bitset_iter.next(), None));
    }
}

#[test]
fn archetype_iter_returns_none_continuously() {
    let data: Vec<u64> = vec![u64::MAX];
    // the iterator ends because the words run out, not because of the bit length
    let mut bitset_iter = BitsetIterator::new(vec![src(&data, false)], WORD_BITS);

    for n in 0..WORD_BITS {
        assert_eq!(bitset_iter.next(), Some(n as usize));
    }
    for _ in 0..9 {
        assert!(matches!(bitset_iter.next(), None));
    }
}

#[test]
fn archetype_iter_insert_one() {
    let mut bitsets = Bitsetsss::new();
    let key = EcsId::new(0, 0);
    bitsets.insert_bitvec(key);

    let bitvec = bitsets.get_bitvec(key).unwrap();
    assert_eq!(bitvec.data.len(), 0);
}

#[test]
fn archetype_iter_set_bit() {
    let mut bitsets = Bitsetsss::new();
    let key = EcsId::new(0, 0);
    bitsets.insert_bitvec(key);
    bitsets.set_bit(key, 0, true);
    bitsets.set_bit(key, 3, true);

    let bitvec = bitsets.get_bitvec(key).unwrap();

    assert_eq!(bitvec.data[0], 0b1001);
    assert_eq!(bitvec.len, 4);
}

#[test]
fn archetype_iter_set_bit_far() {
    let mut bitsets = Bitsetsss::new();
    let key = EcsId::new(0, 0);
    bitsets.insert_bitvec(key);
    bitsets.set_bit(key, WORD_BITS as usize, true);

    let bitvec = bitsets.get_bitvec(key).unwrap();
    assert_eq!(bitvec.data[0], 0b0);
    assert_eq!(bitvec.data[1], 0b1);
    assert_eq!(bitvec.len, (WORD_BITS + 1) as usize);
}

#[test]
fn archetype_iter_get_bit() {
    let mut bitsets = Bitsetsss::new();
    let key = EcsId::new(0, 0);
    bitsets.insert_bitvec(key);
    bitsets.set_bit(key, 3, true);

    let bitvec = bitsets.get_bitvec(key).unwrap();
    assert!(bitvec.get_bit(3).unwrap());
}

#[test]
fn archetype_iter_bitset_iterator() {
    let mut bitsets = Bitsetsss::new();

    let key1 = EcsId::new(0, 0);
    bitsets.insert_bitvec(key1);
    bitsets.set_bit(key1, 1, true);
    bitsets.set_bit(key1, 2, true);

    let key2 = EcsId::new(1, 0);
    bitsets.insert_bitvec(key2);
    bitsets.set_bit(key2, 2, true);
    bitsets.set_bit(key2, 3, true);

    let bitvec1 = bitsets.get_bitvec(key1).unwrap();
    let bitvec2 = bitsets.get_bitvec(key2).unwrap();

    let mut bitset_iter = BitsetIterator::new(vec![src(&bitvec1.data, false), src(&bitvec2.data, false)], 4);

    assert_eq!(bitset_iter.next(), Some(2));
    assert!(matches!(bitset_iter.next(), None));
}

#[test]
fn bitset_iterator_empty_bitset() {
    let data: Vec<u64> = vec![];
    let mut bitset_iter = BitsetIterator::new(vec![src(&data, false)], 0);

    assert!(matches!(bitset_iter.next(), None));
}

#[test]
fn bitset_iterator_single_bitset() {
    let data: Vec<u64> = vec![0b0000_1011];
    let mut bitset_iter = BitsetIterator::new(vec![src(&data, false)], WORD_BITS);

    assert_eq!(bitset_iter.next(), Some(0));
    assert_eq!(bitset_iter.next(), Some(1));
    assert_eq!(bitset_iter.next(), Some(3));
    assert!(matches!(bitset_iter.next(), None));
}

#[test]
fn bitset_iterator_gapped_bitset() {
    let data: Vec<u64> = vec![0, 0b101];
    let mut bitset_iter = BitsetIterator::new(vec![src(&data, false)], WORD_BITS * 2);

    assert_eq!(bitset_iter.next(), Some(64));
    assert_eq!(bitset_iter.next(), Some(66));
    assert!(matches!(bitset_iter.next(), None));
}

#[test]
fn bitset_iterator_triple_bitset() {
    let data1: Vec<u64> = vec![0b1010_1011];
    let data2: Vec<u64> = vec![0b0110_1110];
    let data3: Vec<u64> = vec![0b1110_0110];

    let mut bitset_iter = BitsetIterator::new(
        vec![src(&data1, false), src(&data2, false), src(&data3, false)],
        WORD_BITS,
    );

    assert_eq!(bitset_iter.next(), Some(1));
    assert_eq!(bitset_iter.next(), Some(5));
    assert!(matches!(bitset_iter.next(), None));
}

#[test]
fn bitset_iterator_map_bitset() {
    let data1: Vec<u64> = vec![0b1010_1011];
    let data2: Vec<u64> = vec![0b0111_0110];

    let mut bitset_iter = BitsetIterator::new(vec![src(&data1, false), src(&data2, true)], WORD_BITS);

    assert_eq!(bitset_iter.next(), Some(0));
    assert_eq!(bitset_iter.next(), Some(3));
    assert_eq!(bitset_iter.next(), Some(7));
    assert!(matches!(bitset_iter.next(), None));
}

#[test]
fn bitset_iterator_all_ones() {
    let data: Vec<u64> = vec![u64::MAX];
    let mut bitset_iter = BitsetIterator::new(vec![src(&data, false)], WORD_BITS);

    for n in 0..WORD_BITS {
        assert_eq!(bitset_iter.next(), Some(n as usize));
    }
    assert!(matches!(bitset_iter.next(), None));
}

#[test]
fn bitset_iterator_bit_length() {
    let data: Vec<u64> = vec![0b101];
    let mut bitset_iter = BitsetIterator::new(vec![src(&data, false)], 2);

    assert_eq!(bitset_iter.next(), Some(0));
    assert!(matches!(bitset_iter.next(), None));
}

#[test]
fn bitset_iterator_long_bit_length() {
    let data: Vec<u64> = vec![0b0, u64::MAX];
    let mut bitset_iter = BitsetIterator::new(vec![src(&data, false)], WORD_BITS * 2);

    for n in 0..WORD_BITS {
        let n = n + 64;
        assert_eq!(bitset_iter.next(), Some(n as usize));
    }
    assert!(matches!(bitset_iter.next(), None));
}

#[test]
fn bitset_iterator_incorrect_bit_length() {
    let data: Vec<u64> = vec![0b101];
    let mut bitset_iter = BitsetIterator::new(vec![src(&data, false)], 2000);

    assert_eq!(bitset_iter.next(), Some(0));
    assert_eq!(bitset_iter.next(), Some(2));
    assert!(matches!(bitset_iter.next(), None));
}

#[test]
fn bitset_iterator_returns_none_continuously_incorrect_bit_length() {
    let data: Vec<u64> = vec![0b101];
    let mut bitset_iter = BitsetIterator::new(vec![src(&data, false)], 2000);

    assert_eq!(bitset_iter.next(), Some(0));
    assert_eq!(bitset_iter.next(), Some(2));
    for _ in 0..9 {
        assert!(matches!(bitset_iter.next(), None));
    }
}

#[test]
fn bitset_iterator_returns_none_continuously_bit_length() {
    let data: Vec<u64> = vec![0b101];
    let mut bitset_iter = BitsetIterator::new(vec![src(&data, false)], 3);

    assert_eq!(bitset_iter.next(), Some(0));
    assert_eq!(bitset_iter.next(), Some(2));
    for _ in 0..9 {
        assert!(matches!(bitset_iter.next(), None));
    }
}

#[test]
fn bitset_iterator_returns_none_continuously() {
    let data: Vec<u64> = vec![u64::MAX];
    // the iterator ends because the words run out, not because of the bit length
    let mut bitset_iter = BitsetIterator::new(vec![src(&data, false)], WORD_BITS);

    for n in 0..WORD_BITS {
        assert_eq!(bitset_iter.next(), Some(n as usize));
    }
    for _ in 0..9 {
        assert!(matches!(bitset_iter.next(), None));
    }
}

#[test]
fn bitsetsss_insert_one() {
    let mut bitsets = Bitsetsss::new();
    let key = EcsId::new(0, 0);
    bitsets.insert_bitvec(key);

    let bitvec = bitsets.get_bitvec(key).unwrap();
    assert_eq!(bitvec.data.len(), 0);
}

#[test]
fn bitsetsss_set_bit() {
    let mut bitsets = Bitsetsss::new();
    let key = EcsId::new(0, 0);
    bitsets.insert_bitvec(key);
    bitsets.set_bit(key, 0, true);
    bitsets.set_bit(key, 3, true);

    let bitvec = bitsets.get_bitvec(key).unwrap();

    assert_eq!(bitvec.data[0], 0b1001);
    assert_eq!(bitvec.len, 4);
}

#[test]
fn bitsetsss_set_bit_far() {
    let mut bitsets = Bitsetsss::new();
    let key = EcsId::new(0, 0);
    bitsets.insert_bitvec(key);
    bitsets.set_bit(key, WORD_BITS as usize, true);

    let bitvec = bitsets.get_bitvec(key).unwrap();
    assert_eq!(bitvec.data[0], 0b0);
    assert_eq!(bitvec.data[1], 0b1);
    assert_eq!(bitvec.len, (WORD_BITS + 1) as usize);
}

#[test]
fn bitsetsss_get_bit() {
    let mut bitsets = Bitsetsss::new();
    let key = EcsId::new(0, 0);
    bitsets.insert_bitvec(key);
    bitsets.set_bit(key, 3, true);

    let bitvec = bitsets.get_bitvec(key).unwrap();
    assert!(bitvec.get_bit(3).unwrap());
}

#[test]
fn bitsetsss_bitset_iterator() {
    let mut bitsets = Bitsetsss::new();

    let key1 = EcsId::new(0, 0);
    bitsets.insert_bitvec(key1);
    bitsets.set_bit(key1, 1, true);
    bitsets.set_bit(key1, 2, true);

    let key2 = EcsId::new(1, 0);
    bitsets.insert_bitvec(key2);
    bitsets.set_bit(key2, 2, true);
    bitsets.set_bit(key2, 3, true);

    let bitvec1 = bitsets.get_bitvec(key1).unwrap();
    let bitvec2 = bitsets.get_bitvec(key2).unwrap();

    let mut bitset_iter = BitsetIterator::new(vec![src(&bitvec1.data, false), src(&bitvec2.data, false)], 4);

    assert_eq!(bitset_iter.next(), Some(2));
    assert!(matches!(bitset_iter.next(), None));
}

#[test]
fn tests_empty_bitset() {
    let data: Vec<u64> = vec![];
    let mut bitset_iter = BitsetIterator::new(vec![src(&data, false)], 0);

    assert!(matches!(bitset_iter.next(), None));
}

#[test]
fn tests_single_bitset() {
    let data: Vec<u64> = vec![0b0000_1011];
    let mut bitset_iter = BitsetIterator::new(vec![src(&data, false)], WORD_BITS);

    assert_eq!(bitset_iter.next(), Some(0));
    assert_eq!(bitset_iter.next(), Some(1));
    assert_eq!(bitset_iter.next(), Some(3));
    assert!(matches!(bitset_iter.next(), None));
}

#[test]
fn tests_gapped_bitset() {
    let data: Vec<u64> = vec![0, 0b101];
    let mut bitset_iter = BitsetIterator::new(vec![src(&data, false)], WORD_BITS * 2);

    assert_eq!(bitset_iter.next(), Some(64));
    assert_eq!(bitset_iter.next(), Some(66));
    assert!(matches!(bitset_iter.next(), None));
}

#[test]
fn tests_triple_bitset() {
    let data1: Vec<u64> = vec![0b1010_1011];
    let data2: Vec<u64> = vec![0b0110_1110];
    let data3: Vec<u64> = vec![0b1110_0110];

    let mut bitset_iter = BitsetIterator::new(
        vec![src(&data1, false), src(&data2, false), src(&data3, false)],
        WORD_BITS,
    );

    assert_eq!(bitset_iter.next(), Some(1));
    assert_eq!(bitset_iter.next(), Some(5));
    assert!(matches!(bitset_iter.next(), None));
}

#[test]
fn tests_map_bitset() {
    let data1: Vec<u64> = vec![0b1010_1011];
    let data2: Vec<u64> = vec![0b0111_0110];

    let mut bitset_iter = BitsetIterator::new(vec![src(&data1, false), src(&data2, true)], WORD_BITS);

    assert_eq!(bitset_iter.next(), Some(0));
    assert_eq!(bitset_iter.next(), Some(3));
    assert_eq!(bitset_iter.next(), Some(7));
    assert!(matches!(bitset_iter.next(), None));
}

#[test]
fn tests_all_ones() {
    let data: Vec<u64> = vec![u64::MAX];
    let mut bitset_iter = BitsetIterator::new(vec![src(&data, false)], WORD_BITS);

    for n in 0..WORD_BITS {
        assert_eq!(bitset_iter.next(), Some(n as usize));
    }
    assert!(matches!(bitset_iter.next(), None));
}

#[test]
fn tests_bit_length() {
    let data: Vec<u64> = vec![0b101];
    let mut bitset_iter = BitsetIterator::new(vec![src(&data, false)], 2);

    assert_eq!(bitset_iter.next(), Some(0));
    assert!(matches!(bitset_iter.next(), None));
}

#[test]
fn tests_long_bit_length() {
    let data: Vec<u64> = vec![0b0, u64::MAX];
    let mut bitset_iter = BitsetIterator::new(vec![src(&data, false)], WORD_BITS * 2);

    for n in 0..WORD_BITS {
        let n = n + 64;
        assert_eq!(bitset_iter.next(), Some(n as usize));
    }
    assert!(matches!(bitset_iter.next(), None));
}

#[test]
fn tests_incorrect_bit_length() {
    let data: Vec<u64> = vec![0b101];
    let mut bitset_iter = BitsetIterator::new(vec![src(&data, false)], 2000);

    assert_eq!(bitset_iter.next(), Some(0));
    assert_eq!(bitset_iter.next(), Some(2));
    assert!(matches!(bitset_iter.next(), None));
}

#[test]
fn tests_returns_none_continuously_incorrect_bit_length() {
    let data: Vec<u64> = vec![0b101];
    let mut bitset_iter = BitsetIterator::new(vec![src(&data, false)], 2000);

    assert_eq!(bitset_iter.next(), Some(0));
    assert_eq!(bitset_iter.next(), Some(2));
    for _ in 0..9 {
        assert!(matches!(bitset_iter.next(), None));
    }
}

#[test]
fn tests_returns_none_continuously_bit_length() {
    let data: Vec<u64> = vec![0b101];
    let mut bitset_iter = BitsetIterator::new(vec![src(&data, false)], 3);

    assert_eq!(bitset_iter.next(), Some(0));
    assert_eq!(bitset_iter.next(), Some(2));
    for _ in 0..9 {
        assert!(matches!(bitset_iter.next(), None));
    }
}

#[test]
fn tests_returns_none_continuously() {
    let data: Vec<u64> = vec![u64::MAX];
    // the iterator ends because the words run out, not because of the bit length
    let mut bitset_iter = BitsetIterator::new(vec![src(&data, false)], WORD_BITS);

    for n in 0..WORD_BITS {
        assert_eq!(bitset_iter.next(), Some(n as usize));
    }
    for _ in 0..9 {
        assert!(matches!(bitset_iter.next(), None));
    }
}

#[test]
fn tests_insert_one() {
    let mut bitsets = Bitsetsss::new();
    let key = EcsId::new(0, 0);
    bitsets.insert_bitvec(key);

    let bitvec = bitsets.get_bitvec(key).unwrap();
    assert_eq!(bitvec.data.len(), 0);
}

#[test]
fn tests_set_bit() {
    let mut bitsets = Bitsetsss::new();
    let key = EcsId::new(0, 0);
    bitsets.insert_bitvec(key);
    bitsets.set_bit(key, 0, true);
    bitsets.set_bit(key, 3, true);

    let bitvec = bitsets.get_bitvec(key).unwrap();

    assert_eq!(bitvec.data[0], 0b1001);
    assert_eq!(bitvec.len, 4);
}

#[test]
fn tests_set_bit_far() {
    let mut bitsets = Bitsetsss::new();
    let key = EcsId::new(0, 0);
    bitsets.insert_bitvec(key);
    bitsets.set_bit(key, WORD_BITS as usize, true);

    let bitvec = bitsets.get_bitvec(key).unwrap();
    assert_eq!(bitvec.data[0], 0b0);
    assert_eq!(bitvec.data[1], 0b1);
    assert_eq!(bitvec.len, (WORD_BITS + 1) as usize);
}

#[test]
fn tests_get_bit() {
    let mut bitsets = Bitsetsss::new();
    let key = EcsId::new(0, 0);
    bitsets.insert_bitvec(key);
    bitsets.set_bit(key, 3, true);

    let bitvec = bitsets.get_bitvec(key).unwrap();
    assert!(bitvec.get_bit(3).unwrap());
}

#[test]
fn tests_bitset_iterator() {
    let mut bitsets = Bitsetsss::new();

    let key1 = EcsId::new(0, 0);
    bitsets.insert_bitvec(key1);
    bitsets.set_bit(key1, 1, true);
    bitsets.set_bit(key1, 2, true);

    let key2 = EcsId::new(1, 0);
    bitsets.insert_bitvec(key2);
    bitsets.set_bit(key2, 2, true);
    bitsets.set_bit(key2, 3, true);

    let bitvec1 = bitsets.get_bitvec(key1).unwrap();
    let bitvec2 = bitsets.get_bitvec(key2).unwrap();

    let mut bitset_iter = BitsetIterator::new(vec![src(&bitvec1.data, false), src(&bitvec2.data, false)], 4);

    assert_eq!(bitset_iter.next(), Some(2));
    assert!(matches!(bitset_iter.next(), None));
}
