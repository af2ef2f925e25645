use rpfm::bytes::{Cursor, CursorError, write_cstring};
use rpfm::error::PackError;
use rpfm::rigid::{LodHeader, RigidModel};

fn le(v: u32) -> [u8; 4] {
    v.to_le_bytes()
}

fn model_bytes(version: u32, words_per_lod: usize) -> Vec<u8> {
    let mut b = b"RMV2".to_vec();
    b.extend_from_slice(&le(version));
    b.extend_from_slice(&le(2));
    let mut skeleton = b"humanoid01".to_vec();
    skeleton.resize(128, 0);
    b.extend_from_slice(&skeleton);
    for lod in 0..2u32 {
        for w in 0..words_per_lod as u32 {
            b.extend_from_slice(&le(lod * 10 + w));
        }
    }
    b.extend_from_slice(&[7, 7, 7]);
    b
}

#[test]
fn version_6_round_trip() {
    let bytes = model_bytes(6, 5);
    let m = RigidModel::decode(&bytes).unwrap();
    assert_eq!(m.version, 6);
    assert_eq!(m.lods.len(), 2);
    assert_eq!(
        m.lods[1],
        LodHeader {
            groups_count: 10,
            vertices_data_length: 11,
            indices_data_length: 12,
            start_offset: 13,
            zoom_factor: 14,
            extra_1: 0,
            extra_2: 0,
        }
    );
    assert_eq!(m.body, vec![7, 7, 7]);
    assert_eq!(m.skeleton_name(), b"humanoid01".to_vec());
    assert_eq!(m.encode(), bytes);
}

#[test]
fn version_7_has_two_more_words() {
    let bytes = model_bytes(7, 7);
    let m = RigidModel::decode(&bytes).unwrap();
    assert_eq!(m.lods[0].extra_1, 5);
    assert_eq!(m.lods[0].extra_2, 6);
    assert_eq!(m.lods[1].start_offset, 13);
    assert_eq!(m.encode(), bytes);
}

#[test]
fn patch_skeleton_block() {
    let bytes = model_bytes(6, 5);
    let mut m = RigidModel::decode(&bytes).unwrap();
    m.set_skeleton_name(b"dragon");
    assert_eq!(m.skeleton_name(), b"dragon".to_vec());
    assert_eq!(m.skeleton.len(), 128);
    let out = m.encode();
    assert_eq!(out.len(), bytes.len());
    assert_eq!(&out[12..18], b"dragon");
    assert!(out[18..140].iter().all(|&b| b == 0));
    assert_eq!(&out[140..], &bytes[140..]);
}

#[test]
fn rigid_errors() {
    let bytes = model_bytes(6, 5);
    assert_eq!(RigidModel::decode(&bytes[..100]).err(), Some(PackError::MalformedHeader));
    let mut bad = bytes.clone();
    bad[0] = b'X';
    assert_eq!(RigidModel::decode(&bad).err(), Some(PackError::MalformedHeader));
    let mut bad = bytes.clone();
    bad[4] = 8;
    assert_eq!(RigidModel::decode(&bad).err(), Some(PackError::MalformedHeader));
    assert_eq!(RigidModel::decode(&bytes[..150]).err(), Some(PackError::TruncatedData));
}

#[test]
fn nul_terminated_strings() {
    let mut out = Vec::new();
    write_cstring(&mut out, b"abc");
    write_cstring(&mut out, b"");
    assert_eq!(out, vec![b'a', b'b', b'c', 0, 0]);
    let mut c = Cursor::new(&out);
    assert_eq!(c.read_cstring(), Ok(b"abc".to_vec()));
    assert_eq!(c.read_cstring(), Ok(Vec::new()));
    assert_eq!(c.read_cstring(), Err(CursorError::UnexpectedEof));
    let unterminated = [b'x', b'y'];
    let mut c = Cursor::new(&unterminated);
    assert_eq!(c.read_cstring(), Err(CursorError::UnexpectedEof));
}
