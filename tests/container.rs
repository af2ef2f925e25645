use rpfm::container::{Container, Header, PackFileType};
use rpfm::edit::MergeReport;
use rpfm::error::PackError;
use rpfm::tree::{NodeKind, TreePathType};

fn path(s: &str) -> Vec<Vec<u16>> {
    if s.is_empty() {
        return Vec::new();
    }
    s.split('/').map(|seg| seg.encode_utf16().collect()).collect()
}

fn mod_header() -> Header {
    Header {
        pack_file_type: PackFileType::Mod,
        data_is_encrypted: false,
        index_has_timestamp: false,
        index_is_encrypted: false,
        header_is_extended: false,
        data_is_compressed: false,
    }
}

fn paths_of(c: &Container) -> Vec<Vec<Vec<u16>>> {
    c.entries.iter().map(|e| e.path.clone()).collect()
}

/// The archive of the scenarios: `a/x.loc`, `a/y.txt`, `b.txt`, written and read back.
fn scenario_archive() -> Container {
    let mut c = Container::new(mod_header());
    c.add(path("a/x.loc"), vec![1, 2, 3]).unwrap();
    c.add(path("a/y.txt"), b"hello".to_vec()).unwrap();
    c.add(path("b.txt"), vec![]).unwrap();
    let bytes = c.encode().unwrap();
    Container::decode(&bytes).unwrap()
}

#[test]
fn scenario_a_classify() {
    let c = scenario_archive();
    assert_eq!(c.entries.len(), 3);
    assert_eq!(c.classify(&path("a")), TreePathType::Folder);
    assert_eq!(c.classify(&path("a/x.loc")), TreePathType::File);
    assert_eq!(c.classify(&path("z")), TreePathType::Absent);
    assert_eq!(c.classify(&path("")), TreePathType::PackFile);
    assert_eq!(c.classify(&path("a/x.loc/deeper")), TreePathType::Absent);
}

#[test]
fn scenario_b_duplicate_add() {
    let mut c = scenario_archive();
    assert_eq!(c.entries.len(), 3);
    assert_eq!(c.add(path("c.txt"), vec![1]), Ok(()));
    assert_eq!(c.entries.len(), 4);
    let before = paths_of(&c);
    assert_eq!(c.add(path("c.txt"), vec![2, 2]), Err(PackError::DuplicatePath));
    assert_eq!(c.entries.len(), 4);
    assert_eq!(paths_of(&c), before);
    assert_eq!(c.entries[3].data, vec![1]);
}

#[test]
fn scenario_d_delete_folder() {
    let mut c = scenario_archive();
    assert_eq!(c.delete(&path("a")), Ok(2));
    assert_eq!(paths_of(&c), vec![path("b.txt")]);
    assert_eq!(c.classify(&path("a")), TreePathType::Absent);
}

#[test]
fn delete_exact_file_and_missing() {
    let mut c = scenario_archive();
    assert_eq!(c.delete(&path("a/y.txt")), Ok(1));
    assert_eq!(paths_of(&c), vec![path("a/x.loc"), path("b.txt")]);
    assert_eq!(c.delete(&path("nope")), Err(PackError::NotFound));
    assert_eq!(c.entries.len(), 2);
    assert_eq!(c.delete(&path("a/x")), Err(PackError::NotFound));
}

#[test]
fn exact_bytes_of_one_entry() {
    let mut c = Container::new(mod_header());
    c.add(path("a"), vec![1, 2]).unwrap();
    let bytes = c.encode().unwrap();
    assert_eq!(
        bytes,
        vec![
            0x50, 0x46, 0x48, 0x35, 3, 0, 0, 0, 1, 0, 0, 0, 10, 0, 0, 0, 2, 0, 0, 0, 1, 0, 1, 0,
            0x61, 0, 1, 2
        ]
    );
}

#[test]
fn round_trip_keeps_entries() {
    let c = scenario_archive();
    let bytes = c.encode().unwrap();
    let d = Container::decode(&bytes).unwrap();
    assert_eq!(paths_of(&d), paths_of(&c));
    for (x, y) in c.entries.iter().zip(d.entries.iter()) {
        assert_eq!(x.data, y.data);
        assert_eq!(x.timestamp, y.timestamp);
    }
    assert_eq!(d.encode().unwrap(), bytes);
}

#[test]
fn round_trip_with_timestamps_and_extended_header() {
    let header = Header {
        pack_file_type: PackFileType::Patch,
        data_is_encrypted: true,
        index_has_timestamp: true,
        index_is_encrypted: false,
        header_is_extended: true,
        data_is_compressed: true,
    };
    let mut c = Container::new(header);
    c.add(path("db/units/data"), vec![9; 40]).unwrap();
    c.add(path("text/readme.txt"), b"abc".to_vec()).unwrap();
    let bytes = c.encode().unwrap();
    assert_eq!(&bytes[4..8], &[2 + 16 + 32 + 64 + 0, 1, 0, 0]);
    let d = Container::decode(&bytes).unwrap();
    assert_eq!(d.header, header);
    assert_eq!(paths_of(&d), paths_of(&c));
    assert_eq!(d.entries[0].timestamp, Some(0));
    assert_eq!(d.entries[0].data, vec![9; 40]);
    assert_eq!(d.encode().unwrap(), bytes);
}

#[test]
fn short_buffer_is_malformed() {
    for n in 0..16 {
        let bytes = vec![0x50u8; n];
        assert_eq!(Container::decode(&bytes).err(), Some(PackError::MalformedHeader));
    }
}

#[test]
fn bad_signature_and_ordinal_are_malformed() {
    let c = scenario_archive();
    let good = c.encode().unwrap();
    let mut bad = good.clone();
    bad[0] = b'X';
    assert_eq!(Container::decode(&bad).err(), Some(PackError::MalformedHeader));
    let mut bad = good.clone();
    bad[4] = 5;
    assert_eq!(Container::decode(&bad).err(), Some(PackError::MalformedHeader));
    let mut bad = good.clone();
    bad[6] = 2;
    assert_eq!(Container::decode(&bad).err(), Some(PackError::MalformedHeader));
    let mut bad = good.clone();
    bad[5] = 1;
    assert_eq!(Container::decode(&bad[..20]).err(), Some(PackError::MalformedHeader));
}

#[test]
fn truncated_index_and_payload() {
    let c = scenario_archive();
    let good = c.encode().unwrap();
    assert_eq!(Container::decode(&good[..20]).err(), Some(PackError::TruncatedData));
    assert_eq!(
        Container::decode(&good[..good.len() - 1]).err(),
        Some(PackError::TruncatedData)
    );
}

#[test]
fn corrupt_index_is_reported() {
    let mut c = Container::new(mod_header());
    c.add(path("a"), vec![]).unwrap();
    c.add(path("b"), vec![]).unwrap();
    let good = c.encode().unwrap();
    // The second record's segment "b" becomes "a": a repeated path.
    let mut dup = good.clone();
    let last = good.iter().rposition(|&b| b == 0x62).unwrap();
    dup[last] = 0x61;
    assert_eq!(Container::decode(&dup).err(), Some(PackError::IndexCorrupt));
    // One more entry than the index holds.
    let mut more = good.clone();
    more[8] = 3;
    assert_eq!(Container::decode(&more).err(), Some(PackError::IndexCorrupt));
    // One fewer: bytes left over in the index.
    let mut fewer = good.clone();
    fewer[8] = 1;
    assert_eq!(Container::decode(&fewer).err(), Some(PackError::IndexCorrupt));
    // An empty segment.
    let mut empty_seg = good.clone();
    empty_seg[22] = 0;
    assert_eq!(Container::decode(&empty_seg).err(), Some(PackError::IndexCorrupt));
}

#[test]
fn rename_file_and_folder() {
    let mut c = scenario_archive();
    assert_eq!(c.rename(&path("a/y.txt"), "z.txt".encode_utf16().collect()), Ok(()));
    assert_eq!(paths_of(&c), vec![path("a/x.loc"), path("a/z.txt"), path("b.txt")]);
    assert_eq!(c.rename(&path("a"), "q".encode_utf16().collect()), Ok(()));
    assert_eq!(paths_of(&c), vec![path("q/x.loc"), path("q/z.txt"), path("b.txt")]);
    assert_eq!(c.entries[0].data, vec![1, 2, 3]);
}

#[test]
fn rename_collision_and_missing() {
    let mut c = scenario_archive();
    let before = paths_of(&c);
    assert_eq!(
        c.rename(&path("a/y.txt"), "x.loc".encode_utf16().collect()),
        Err(PackError::DuplicatePath)
    );
    assert_eq!(paths_of(&c), before);
    assert_eq!(
        c.rename(&path("nothing"), "y".encode_utf16().collect()),
        Err(PackError::NotFound)
    );
    assert_eq!(paths_of(&c), before);
}

#[test]
fn merge_folder_with_skips() {
    let mut c = scenario_archive();
    let mut other = Container::new(mod_header());
    other.add(path("src/a/x.loc"), vec![7]).unwrap();
    other.add(path("src/a/new.txt"), vec![8]).unwrap();
    other.add(path("elsewhere.txt"), vec![9]).unwrap();
    let report = c.merge_from(&other, &path("src/a"), &Vec::new()).unwrap();
    assert_eq!(report, MergeReport { added: 1, skipped: 1 });
    assert_eq!(
        paths_of(&c),
        vec![path("a/x.loc"), path("a/y.txt"), path("b.txt"), path("a/new.txt")]
    );
    assert_eq!(c.entries[0].data, vec![1, 2, 3]);
    assert_eq!(c.entries[3].data, vec![8]);
}

#[test]
fn merge_file_into_folder_and_missing() {
    let mut c = scenario_archive();
    let mut other = Container::new(mod_header());
    other.add(path("deep/down/file.bin"), vec![5, 5]).unwrap();
    let report = c.merge_from(&other, &path("deep/down/file.bin"), &path("b")).unwrap();
    assert_eq!(report, MergeReport { added: 1, skipped: 0 });
    assert_eq!(c.position(&path("b/file.bin")), Some(3));
    assert_eq!(
        c.merge_from(&other, &path("absent"), &path("b")),
        Err(PackError::NotFound)
    );
    assert_eq!(c.entries.len(), 4);
}

#[test]
fn build_tree_in_first_appearance_order() {
    let c = scenario_archive();
    let t = c.build();
    let got: Vec<(Vec<Vec<u16>>, NodeKind, Option<usize>)> =
        t.nodes.iter().map(|n| (n.path.clone(), n.kind, n.parent)).collect();
    assert_eq!(
        got,
        vec![
            (path("a"), NodeKind::Folder, None),
            (path("a/x.loc"), NodeKind::File, Some(0)),
            (path("a/y.txt"), NodeKind::File, Some(0)),
            (path("b.txt"), NodeKind::File, None),
        ]
    );
}

#[test]
fn build_twice_gives_the_same_tree() {
    let c = scenario_archive();
    let t1 = c.build();
    let t2 = c.build();
    assert_eq!(t1.nodes.len(), t2.nodes.len());
    for (x, y) in t1.nodes.iter().zip(t2.nodes.iter()) {
        assert_eq!(x.path, y.path);
        assert_eq!(x.kind, y.kind);
        assert_eq!(x.parent, y.parent);
    }
}

#[test]
fn empty_archive_round_trip() {
    let c = Container::new(mod_header());
    let bytes = c.encode().unwrap();
    assert_eq!(bytes.len(), 16);
    let d = Container::decode(&bytes).unwrap();
    assert!(d.entries.is_empty());
    assert!(d.build().nodes.is_empty());
}
