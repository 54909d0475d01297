use huffman::bits::{encode_symbols, pack_bits, unpack_bits};
use huffman::builder::{build_tree, count_frequencies};
use huffman::codes::create_encoding_from_decoding;
use huffman::decode::{decode_bits, decode_symbol};
use huffman::image::read_header;
use huffman::{get_size, BinTree, HuffmanError, HuffmanNode, HuffmanState};

fn build(data: &[u8]) -> HuffmanState {
    match HuffmanState::new(data.to_vec()) {
        Ok(st) => st,
        Err(e) => panic!("build failed: {:?}", e),
    }
}

fn load(bytes: &[u8]) -> Result<(HuffmanState, Vec<u8>), HuffmanError> {
    HuffmanState::load(bytes)
}

fn count_leaves(t: &BinTree<HuffmanNode>) -> u64 {
    match (&t.left, &t.right) {
        (None, None) => 1,
        (l, r) => {
            l.as_ref().map(|x| count_leaves(x)).unwrap_or(0)
                + r.as_ref().map(|x| count_leaves(x)).unwrap_or(0)
        }
    }
}

fn code(st: &HuffmanState, s: u8) -> Option<Vec<bool>> {
    st.encoding()[s as usize].as_ref().map(|e| e.bits.clone())
}

#[test]
fn frequencies_of_aabbbc() {
    let counts = count_frequencies(b"aabbbc");
    assert_eq!(counts.len(), 256);
    assert_eq!(counts[b'a' as usize], 2);
    assert_eq!(counts[b'b' as usize], 3);
    assert_eq!(counts[b'c' as usize], 1);
    assert_eq!(counts.iter().sum::<u64>(), 6);
}

#[test]
fn aabbbc_tree_has_three_leaves_and_two_merged_nodes() {
    let st = build(b"aabbbc");
    let tree = st.tree();
    assert_eq!(get_size(tree), 5);
    assert_eq!(count_leaves(tree), 3);
    assert_eq!(tree.val, HuffmanNode::empty(6));
    assert_eq!(tree.right.as_ref().unwrap().val, HuffmanNode::new(3, b'b'));
    let merged = tree.left.as_ref().unwrap();
    assert_eq!(merged.val, HuffmanNode::empty(3));
    assert_eq!(merged.left.as_ref().unwrap().val, HuffmanNode::new(2, b'a'));
    assert_eq!(merged.right.as_ref().unwrap().val, HuffmanNode::new(1, b'c'));
}

#[test]
fn aabbbc_codes() {
    let st = build(b"aabbbc");
    assert_eq!(code(&st, b'b'), Some(vec![true]));
    assert_eq!(code(&st, b'a'), Some(vec![false, false]));
    assert_eq!(code(&st, b'c'), Some(vec![false, true]));
    assert_eq!(code(&st, b'd'), None);
    assert_eq!(st.encoding().iter().filter(|e| e.is_some()).count(), 3);
}

#[test]
fn aabbbc_compress_size_and_bytes() {
    let st = build(b"aabbbc");
    let c = st.compress();
    let bits = 2 * code(&st, b'a').unwrap().len()
        + 3 * code(&st, b'b').unwrap().len()
        + code(&st, b'c').unwrap().len();
    assert_eq!(c.len(), (bits + 7) / 8);
    assert_eq!(c, vec![112, 1]);
}

#[test]
fn aabbbc_round_trip() {
    let st = build(b"aabbbc");
    let c = st.compress();
    assert_eq!(st.decompress(c).unwrap(), b"aabbbc".to_vec());
}

#[test]
fn single_repeated_byte() {
    let st = build(b"aaaa");
    let tree = st.tree();
    assert!(tree.left.is_none() && tree.right.is_none());
    assert_eq!(tree.val, HuffmanNode::new(4, b'a'));
    assert_eq!(code(&st, b'a'), Some(vec![false]));
    let c = st.compress();
    assert_eq!(c, vec![0]);
    assert_eq!(st.decompress(c).unwrap(), b"aaaa".to_vec());
}

#[test]
fn empty_input_is_rejected() {
    assert!(matches!(HuffmanState::new(Vec::new()), Err(HuffmanError::EmptyInput)));
}

#[test]
fn save_then_load_aabbbc() {
    let st = build(b"aabbbc");
    let image = st.save();
    assert_eq!(image.len(), 8 + 2 * 10 * 5 + 2);
    assert_eq!(image[..8].to_vec(), 58u64.to_le_bytes().to_vec());
    let (loaded, payload) = load(&image).unwrap();
    assert_eq!(payload, st.compress());
    assert_eq!(loaded.raw_data(), st.raw_data());
    assert_eq!(loaded.encoding(), st.encoding());
    assert_eq!(loaded.tree(), st.tree());
    assert_eq!(loaded.decompress(payload).unwrap(), b"aabbbc".to_vec());
}

#[test]
fn offset_past_the_end_is_corrupt() {
    let st = build(b"aabbbc");
    let mut image = st.save();
    let big = (image.len() as u64) * 4;
    image[..8].copy_from_slice(&big.to_le_bytes());
    assert!(matches!(load(&image), Err(HuffmanError::CorruptStream)));
    image[..8].copy_from_slice(&u64::MAX.to_le_bytes());
    assert!(matches!(load(&image), Err(HuffmanError::CorruptStream)));
}

#[test]
fn short_image_is_corrupt() {
    assert!(matches!(load(&[]), Err(HuffmanError::CorruptStream)));
    assert!(matches!(load(&[58, 0, 0]), Err(HuffmanError::CorruptStream)));
}

#[test]
fn mismatched_in_order_block_is_corrupt() {
    let st = build(b"aabbbc");
    let mut image = st.save();
    image[8] ^= 1;
    assert!(matches!(load(&image), Err(HuffmanError::CorruptStream)));
}

#[test]
fn bad_flag_is_corrupt() {
    let st = build(b"aabbbc");
    let mut image = st.save();
    image[58 + 8] = 7;
    assert!(matches!(load(&image), Err(HuffmanError::CorruptStream)));
}

#[test]
fn cut_payload_is_truncated() {
    let st = build(b"aabbbc");
    let mut image = st.save();
    image.pop();
    assert!(matches!(load(&image), Err(HuffmanError::TruncatedDecode)));
}

#[test]
fn short_compressed_input_is_truncated() {
    let st = build(b"aabbbc");
    assert!(matches!(st.decompress(vec![112]), Err(HuffmanError::TruncatedDecode)));
    assert!(matches!(st.decompress(Vec::new()), Err(HuffmanError::TruncatedDecode)));
}

#[test]
fn padding_bits_are_ignored() {
    let st = build(b"aabbbc");
    assert_eq!(st.decompress(vec![112, 1, 0, 0]).unwrap(), b"aabbbc".to_vec());
}

#[test]
fn byte_zero_survives_save_and_load() {
    let data = vec![0u8, 0, 1, 2, 0, 255];
    let st = build(&data);
    let (loaded, payload) = load(&st.save()).unwrap();
    assert_eq!(loaded.raw_data(), &data);
    assert_eq!(loaded.decompress(payload).unwrap(), data);
}

#[test]
fn round_trip_on_text() {
    let data = b"the quick brown fox jumps over the lazy dog, again and again".to_vec();
    let st = build(&data);
    assert_eq!(st.decompress(st.compress()).unwrap(), data);
}

#[test]
fn round_trip_on_all_byte_values() {
    let mut data = Vec::new();
    for i in 0..256u32 {
        for _ in 0..(i % 7 + 1) {
            data.push(i as u8);
        }
    }
    let st = build(&data);
    assert_eq!(st.decompress(st.compress()).unwrap(), data);
    assert_eq!(get_size(st.tree()), 2 * 256 - 1);
    let (loaded, _) = load(&st.save()).unwrap();
    assert_eq!(loaded.raw_data(), &data);
}

#[test]
fn codes_are_prefix_free() {
    let st = build(b"abracadabra, said the wizard to the lizard");
    let codes: Vec<Vec<bool>> = (0..=255u8).filter_map(|s| code(&st, s)).collect();
    for (i, a) in codes.iter().enumerate() {
        for (j, b) in codes.iter().enumerate() {
            if i != j {
                assert!(!(a.len() <= b.len() && b[..a.len()] == a[..]));
            }
        }
    }
}

#[test]
fn size_law_on_text() {
    let data = b"hello world, hello huffman".to_vec();
    let st = build(&data);
    let counts = count_frequencies(&data);
    let mut bits = 0usize;
    for s in 0..256usize {
        if let Some(c) = code(&st, s as u8) {
            bits += counts[s] as usize * c.len();
        }
    }
    assert_eq!(st.compress().len(), (bits + 7) / 8);
}

#[test]
fn tree_size_for_four_symbols() {
    let st = build(b"abcdabcaba");
    assert_eq!(count_leaves(st.tree()), 4);
    assert_eq!(get_size(st.tree()), 7);
    assert_eq!(st.tree().val.freq, 10);
}

#[test]
fn builds_are_deterministic() {
    let data = b"mississippi river banks".to_vec();
    let a = build(&data);
    let b = build(&data);
    assert_eq!(a.tree(), b.tree());
    assert_eq!(a.encoding(), b.encoding());
    assert_eq!(build_tree(&data), build_tree(&data));
}

#[test]
fn equal_frequencies_break_ties_by_byte_value() {
    let st = build(b"ba");
    let tree = st.tree();
    assert_eq!(tree.right.as_ref().unwrap().val, HuffmanNode::new(1, b'a'));
    assert_eq!(tree.left.as_ref().unwrap().val, HuffmanNode::new(1, b'b'));
}

#[test]
fn unrepresentable_symbol_is_an_error() {
    let tree = build_tree(b"ab");
    let table = create_encoding_from_decoding(&tree);
    assert!(matches!(
        encode_symbols(&table, b"abc"),
        Err(HuffmanError::UnrepresentableSymbol)
    ));
    assert_eq!(encode_symbols(&table, b"ba").unwrap(), vec![false, true]);
}

#[test]
fn packing_is_lsb_first_and_padded() {
    assert_eq!(pack_bits(&vec![true, false, true]), vec![5]);
    assert_eq!(pack_bits(&vec![false; 8]), vec![0]);
    let mut nine = vec![true; 9];
    nine[0] = false;
    assert_eq!(pack_bits(&nine), vec![254, 1]);
    assert_eq!(pack_bits(&Vec::new()), Vec::<u8>::new());
    assert_eq!(
        unpack_bits(&[5]),
        vec![true, false, true, false, false, false, false, false]
    );
}

#[test]
fn decoder_walks_codes_and_stops_at_the_count() {
    let tree = build_tree(b"aabbbc");
    let bits = vec![false, true, true, false, false];
    assert_eq!(decode_symbol(&tree, &bits, 0), Some((b'c', 2)));
    assert_eq!(decode_symbol(&tree, &bits, 2), Some((b'b', 3)));
    assert_eq!(decode_symbol(&tree, &bits, 3), Some((b'a', 5)));
    assert_eq!(decode_symbol(&tree, &bits, 4), None);
    assert_eq!(decode_bits(&tree, &bits, 0).unwrap(), Vec::<u8>::new());
    assert_eq!(decode_bits(&tree, &bits, 2).unwrap(), b"cb".to_vec());
    assert!(matches!(decode_bits(&tree, &bits, 4), Err(HuffmanError::TruncatedDecode)));
}

#[test]
fn header_reader_finds_the_tree() {
    let st = build(b"aabbbc");
    let image = st.save();
    let (tree, end) = read_header(&image).unwrap();
    assert_eq!(&tree, st.tree());
    assert_eq!(end, 108);
    assert!(read_header(&image[..107]).is_none());
}
