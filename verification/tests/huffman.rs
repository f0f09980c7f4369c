use huffman::bits::{BitSink, BitSource};
use huffman::builder::HuffBuilder;
use huffman::reader::HuffReader;
use huffman::tree::HuffTree;
use huffman::writer::HuffWriter;
use huffman::HuffError;

#[test]
fn build_simple_tree() {
    let tree = HuffBuilder::new()
        .add('a', 1)
        .add('b', 2)
        .add('d', 10)
        .build()
        .unwrap();

    let expected = HuffTree::new_node(
        HuffTree::new_leaf('d'),
        HuffTree::new_node(HuffTree::new_leaf('b'), HuffTree::new_leaf('a')),
    );

    assert_eq!(expected, tree);
}

#[test]
fn build_flat_tree() {
    let tree = HuffBuilder::new()
        .add('a', 1)
        .add('b', 1)
        .add('c', 1)
        .add('d', 1)
        .build()
        .unwrap();

    let expected = HuffTree::new_node(
        HuffTree::new_node(HuffTree::new_leaf('a'), HuffTree::new_leaf('b')),
        HuffTree::new_node(HuffTree::new_leaf('c'), HuffTree::new_leaf('d')),
    );

    assert_eq!(expected, tree);
}

#[test]
fn build_tree_from_table() {
    let table = vec![('a', 2), ('b', 1)];

    let tree = HuffBuilder::new().add_table(table).build().unwrap();

    let expected = HuffTree::new_node(HuffTree::new_leaf('a'), HuffTree::new_leaf('b'));

    assert_eq!(expected, tree);
}

#[test]
fn encoding_map() {
    let tree = HuffBuilder::new()
        .add('a', 1)
        .add('b', 1)
        .add('c', 1)
        .add('d', 1)
        .build()
        .unwrap();

    let map = tree.encoding();

    assert_eq!(map.get(&'a'), Some(&vec![false, false]));
    assert_eq!(map.get(&'b'), Some(&vec![false, true]));
    assert_eq!(map.get(&'c'), Some(&vec![true, false]));
    assert_eq!(map.get(&'d'), Some(&vec![true, true]));
    assert_eq!(map.get(&'e'), None);
}

#[test]
fn encode() {
    let tree = HuffBuilder::new()
        .add('a', 1)
        .add('b', 1)
        .add('c', 1)
        .add('d', 1)
        .build()
        .unwrap();

    let mut writer = HuffWriter::new(tree, BitSink::new());

    for value in vec!['a', 'b', 'c', 'd', 'a'] {
        writer.write(&value).unwrap();
    }

    let output = writer.into_sink().into_bytes();

    let expected = vec![0b_00011011, 0b_00000000];

    assert_eq!(expected, output);
}

#[test]
fn encode_value_error() {
    let tree = HuffBuilder::new().add('a', 1).build().unwrap();

    let mut writer = HuffWriter::new(tree, BitSink::new());

    for value in vec!['b'] {
        match writer.write(&value) {
            Ok(_) => panic!(),
            Err(_) => (),
        }
    }
}

#[test]
fn decode() {
    let tree = HuffBuilder::new()
        .add('a', 1)
        .add('b', 1)
        .add('c', 1)
        .add('d', 1)
        .build()
        .unwrap();

    let input = vec![0b_00011011, 0b_00000000];

    let mut reader = HuffReader::new(tree, BitSource::from_bytes(&input));
    let mut output = vec![];

    for _ in 0..5 {
        output.push(reader.read().unwrap());
    }

    assert_eq!(vec!['a', 'b', 'c', 'd', 'a'], output);
}

#[test]
fn build_empty_yields_none() {
    assert!(HuffBuilder::new().build().is_none());
}

#[test]
fn build_single_pair_yields_leaf() {
    let tree = HuffBuilder::new().add('a', 1).build().unwrap();
    assert_eq!(HuffTree::new_leaf('a'), tree);
}

#[test]
fn build_is_deterministic() {
    let one = HuffBuilder::new()
        .add('x', 3)
        .add('y', 3)
        .add('z', 3)
        .add('w', 1)
        .build()
        .unwrap();
    let two = HuffBuilder::new()
        .add('x', 3)
        .add('y', 3)
        .add('z', 3)
        .add('w', 1)
        .build()
        .unwrap();
    assert_eq!(one, two);
}

#[test]
fn skewed_tree_code_lengths() {
    let tree = HuffBuilder::new()
        .add('a', 1)
        .add('b', 2)
        .add('d', 10)
        .build()
        .unwrap();
    let map = tree.encoding();
    assert_eq!(map.get(&'d'), Some(&vec![false]));
    assert_eq!(map.get(&'b'), Some(&vec![true, false]));
    assert_eq!(map.get(&'a'), Some(&vec![true, true]));
}

#[test]
fn single_leaf_writes_no_bits() {
    let tree = HuffBuilder::new().add('a', 1).build().unwrap();
    let mut writer = HuffWriter::new(tree, BitSink::new());
    writer.write(&'a').unwrap();
    writer.write(&'a').unwrap();
    let output = writer.into_sink().into_bytes();
    assert_eq!(Vec::<u8>::new(), output);
}

#[test]
fn single_leaf_reads_without_consuming() {
    let tree = HuffBuilder::new().add('a', 1).build().unwrap();
    let input: Vec<u8> = vec![];
    let mut reader = HuffReader::new(tree, BitSource::from_bytes(&input));
    assert_eq!(Ok('a'), reader.read());
    assert_eq!(Ok('a'), reader.read());
}

#[test]
fn read_past_end_fails() {
    let tree = HuffBuilder::new().add('a', 1).add('b', 1).build().unwrap();
    let input: Vec<u8> = vec![];
    let mut reader = HuffReader::new(tree, BitSource::from_bytes(&input));
    assert_eq!(Err(HuffError::UnexpectedEndOfInput), reader.read());
}

#[test]
fn writer_usable_after_unencodable_symbol() {
    let tree = HuffBuilder::new().add('a', 1).add('b', 1).build().unwrap();
    let mut writer = HuffWriter::new(tree, BitSink::new());
    assert_eq!(Err(HuffError::UnencodableSymbol), writer.write(&'z'));
    assert_eq!(Ok(()), writer.write(&'b'));
    let output = writer.into_sink().into_bytes();
    assert_eq!(vec![0b_10000000], output);
}

#[test]
fn round_trip_skewed_tree() {
    let message = vec!['d', 'b', 'a', 'd', 'd', 'a', 'b'];

    let tree = HuffBuilder::new()
        .add('a', 1)
        .add('b', 2)
        .add('d', 10)
        .build()
        .unwrap();
    let mut writer = HuffWriter::new(tree, BitSink::new());
    for value in &message {
        writer.write(value).unwrap();
    }
    let bytes = writer.into_sink().into_bytes();

    let tree = HuffBuilder::new()
        .add('a', 1)
        .add('b', 2)
        .add('d', 10)
        .build()
        .unwrap();
    let mut reader = HuffReader::new(tree, BitSource::from_bytes(&bytes));
    let mut output = vec![];
    for _ in 0..message.len() {
        output.push(reader.read().unwrap());
    }
    assert_eq!(message, output);
}

#[test]
fn sink_packs_most_significant_bit_first() {
    let mut sink = BitSink::new();
    sink.write_bit(true);
    assert_eq!(vec![0b_10000000], sink.into_bytes());

    let mut sink = BitSink::new();
    for bit in [true, false, true, true, false, false, true, true, true] {
        sink.write_bit(bit);
    }
    assert_eq!(vec![0b_10110011, 0b_10000000], sink.into_bytes());
}

#[test]
fn source_yields_most_significant_bit_first() {
    let bytes = vec![0b_10110011];
    let mut source = BitSource::from_bytes(&bytes);
    let mut bits = vec![];
    while let Some(b) = source.read_bit() {
        bits.push(b);
    }
    assert_eq!(
        vec![true, false, true, true, false, false, true, true],
        bits
    );
}

#[test]
fn duplicate_symbol_keeps_last_path() {
    let tree = HuffBuilder::new()
        .add('a', 1)
        .add('a', 1)
        .add('b', 2)
        .build()
        .unwrap();
    let map = tree.encoding();
    // two leaves hold 'a'; the path recorded last in traversal order wins
    assert_eq!(map.get(&'a'), Some(&vec![false, true]));
    assert_eq!(map.get(&'b'), Some(&vec![true]));
}
