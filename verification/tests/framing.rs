use base64::Engine;
use vcbgen::blueprint::{generate_logic_blueprint, u32_be_bytes};
use vcbgen::config::Config;
use vcbgen::generator::generate_blueprint;
use vcbgen::ink::{InkLayer, RGBA};

fn small_layer() -> InkLayer {
    InkLayer::new(vec![
        RGBA::new_opaque(1, 2, 3),
        RGBA::new(4, 5, 6, 7),
        RGBA::new_opaque(8, 9, 10),
        RGBA::new_opaque(11, 12, 13),
    ])
}

#[test]
fn be_bytes_are_big_endian() {
    assert_eq!(u32_be_bytes(0x01020304), vec![1, 2, 3, 4]);
    assert_eq!(u32_be_bytes(16), vec![0, 0, 0, 16]);
}

#[test]
fn layer_bytes_flatten_in_push_order() {
    let layer = small_layer();
    assert_eq!(
        layer.to_be_bytes(),
        vec![1, 2, 3, 255, 4, 5, 6, 7, 8, 9, 10, 255, 11, 12, 13, 255]
    );
    assert_eq!(layer.len(), 4);
}

#[test]
fn layer_cells_are_reachable_and_replaceable() {
    let mut layer = InkLayer::empty();
    assert_eq!(layer.len(), 0);
    assert!(layer.get(0).is_none());
    layer.push_ink(RGBA::new_opaque(1, 2, 3));
    layer.push_ink(RGBA::new(9, 9, 9, 9));
    assert_eq!(layer.get(1).copied(), Some(RGBA::new(9, 9, 9, 9)));
    *layer.get_mut(1) = RGBA::new_opaque(7, 7, 7);
    assert_eq!(layer.get(1).copied(), Some(RGBA { r: 7, g: 7, b: 7, a: 255 }));
    assert_eq!(layer.get(0).unwrap().to_be_bytes(), vec![1, 2, 3, 255]);
}

#[test]
fn blueprint_framing_round_trips() {
    // Decode the produced string back: the chunk's base64 must yield the
    // declared width, height and uncompressed length, and the payload
    // must decompress to the exact flattened pixel bytes.
    let layer = small_layer();
    let raw = layer.to_be_bytes();
    let s = generate_logic_blueprint(&layer, 2, 2).unwrap();
    assert_eq!(&s[0..4], "VCB+");
    let chunk_b64 = &s[12..];
    let chunk = base64::engine::general_purpose::STANDARD
        .decode(chunk_b64)
        .unwrap();
    assert_eq!(&chunk[0..4], &[0, 0, 0, 2]); // width
    assert_eq!(&chunk[4..8], &[0, 0, 0, 2]); // height
    let block_len = u32::from_be_bytes(chunk[8..12].try_into().unwrap());
    assert_eq!(block_len as usize, chunk.len() - 8);
    assert_eq!(&chunk[12..16], &[0, 0, 0, 0]); // reserved
    let ulen = u32::from_be_bytes(chunk[16..20].try_into().unwrap());
    assert_eq!(ulen as usize, raw.len());
    let decompressed = zstd::stream::decode_all(&chunk[20..]).unwrap();
    assert_eq!(decompressed, raw);
}

#[test]
fn blueprint_hash_prefix_is_the_chunk_digest() {
    let layer = small_layer();
    let s = generate_logic_blueprint(&layer, 2, 2).unwrap();
    let chunk_b64 = &s[12..];
    let mut hasher = sha1_smol::Sha1::new();
    hasher.update(chunk_b64.as_bytes());
    let digest = hasher.digest().bytes();
    let expected = base64::engine::general_purpose::STANDARD.encode(&digest[0..6]);
    assert_eq!(&s[4..12], expected);
}

#[test]
fn whole_pipeline_emits_a_decodable_artifact() {
    let cfg = Config {
        opcodes: vec![("op".to_string(), 2)],
        microcode_map: vec![("LOAD".to_string(), 0), ("HALT".to_string(), 1)],
        counter_bit_length: 1,
        flags_bit_length: 0,
    };
    let s = generate_blueprint("[op=1#]\n0 LOAD\n1 HALT", &cfg).unwrap();
    assert!(s.starts_with("VCB+"));
    let chunk = base64::engine::general_purpose::STANDARD
        .decode(&s[12..])
        .unwrap();
    assert_eq!(&chunk[0..4], &[0, 0, 0, 16]); // width 16
    assert_eq!(&chunk[4..8], &[0, 0, 0, 4]); // height 4
    let ulen = u32::from_be_bytes(chunk[16..20].try_into().unwrap());
    assert_eq!(ulen, 16 * 4 * 4); // four channel bytes per cell
    let decompressed = zstd::stream::decode_all(&chunk[20..]).unwrap();
    assert_eq!(decompressed.len(), 16 * 4 * 4);
}
