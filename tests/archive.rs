use wtar::codec::{
    archive_name, compressed_name, create_header, push_le, serialize_children, serialize_tree,
    ArchiveError,
};
use wtar::entry::WtarFile;
use wtar::extract::{answer, is_affirmative, next_action, reply_confirms, Action, OverwritePref};
use wtar::reader::{metadata_length, parse_metadata, read_le, ExtractStep};

fn b(s: &str) -> Vec<u8> {
    s.as_bytes().to_vec()
}

fn file(path: &str, size: u64) -> WtarFile {
    WtarFile::from_metadata(b(path), false, size)
}

fn dir(path: &str) -> WtarFile {
    WtarFile::new_dir(b(path))
}

fn record(out: &mut Vec<u8>, path: &str, is_dir: bool, size: u64) {
    out.extend_from_slice(&(path.len() as u32).to_le_bytes());
    out.extend_from_slice(path.as_bytes());
    out.push(is_dir as u8);
    if !is_dir {
        out.extend_from_slice(&size.to_le_bytes());
    }
}

fn sample_tree() -> WtarFile {
    let mut d = dir("d");
    d.push_child(file("d/a.txt", 3));
    d.push_child(dir("d/sub"));
    d
}

fn nested_tree() -> WtarFile {
    let mut root = dir("r");
    let mut x = dir("r/x");
    let mut y = dir("r/x/y");
    y.push_child(file("r/x/y/deep.bin", 7));
    y.push_child(file("r/x/y/empty", 0));
    x.push_child(file("r/x/one", 2));
    x.push_child(y);
    root.push_child(x);
    root.push_child(file("r/top", 5));
    root
}

#[test]
fn scenario_file_and_empty_subdirectory() {
    let h = create_header(&sample_tree()).unwrap();
    let mut meta = Vec::new();
    record(&mut meta, "d/a.txt", false, 3);
    record(&mut meta, "d/sub", true, 0);
    let mut expected = (meta.len() as u32).to_le_bytes().to_vec();
    expected.extend_from_slice(&meta);
    assert_eq!(h.bytes, expected);
    assert_eq!(h.file_list, vec![b("d/a.txt")]);

    let steps = parse_metadata(&h.bytes[4..].to_vec()).unwrap();
    assert_eq!(steps.len(), 2);
    assert_eq!(steps[0].path, b("d/a.txt"));
    assert!(!steps[0].is_dir);
    assert_eq!(steps[0].size, 3);
    assert_eq!(steps[0].offset, h.bytes.len() as u64);
    assert_eq!(steps[1].path, b("d/sub"));
    assert!(steps[1].is_dir);
}

#[test]
fn zero_byte_file_gets_a_record() {
    let mut d = dir("z");
    d.push_child(file("z/empty", 0));
    d.push_child(file("z/next", 4));
    let h = create_header(&d).unwrap();
    let mut meta = Vec::new();
    record(&mut meta, "z/empty", false, 0);
    record(&mut meta, "z/next", false, 4);
    assert_eq!(&h.bytes[4..], &meta[..]);
    let steps = parse_metadata(&meta).unwrap();
    let data_offset = meta.len() as u64 + 4;
    assert_eq!(steps[0].size, 0);
    assert_eq!(steps[0].offset, data_offset);
    assert_eq!(steps[1].offset, data_offset);
}

#[test]
fn length_prefix_matches_block() {
    for tree in [sample_tree(), nested_tree(), dir("empty")] {
        let h = create_header(&tree).unwrap();
        let prefix = metadata_length(&h.bytes).unwrap();
        assert_eq!(prefix as usize, h.bytes.len() - 4);
    }
    let h = create_header(&dir("empty")).unwrap();
    assert_eq!(h.bytes, vec![0, 0, 0, 0]);
    assert!(h.file_list.is_empty());
}

#[test]
fn payload_offsets_follow_preorder_sizes() {
    let h = create_header(&nested_tree()).unwrap();
    let steps = parse_metadata(&h.bytes[4..].to_vec()).unwrap();
    let paths: Vec<Vec<u8>> = steps.iter().map(|s: &ExtractStep| s.path.clone()).collect();
    assert_eq!(
        paths,
        vec![b("r/x"), b("r/x/one"), b("r/x/y"), b("r/x/y/deep.bin"), b("r/x/y/empty"), b("r/top")]
    );
    let d = h.bytes.len() as u64;
    let offsets: Vec<u64> = steps.iter().map(|s: &ExtractStep| s.offset).collect();
    assert_eq!(offsets, vec![d, d, d + 2, d + 2, d + 9, d + 9]);
    assert_eq!(
        h.file_list,
        vec![b("r/x/one"), b("r/x/y/deep.bin"), b("r/x/y/empty"), b("r/top")]
    );
}

#[test]
fn round_trip_records() {
    let h = create_header(&nested_tree()).unwrap();
    let steps = parse_metadata(&h.bytes[4..].to_vec()).unwrap();
    let mut again = dir("r");
    for s in &steps {
        again.push_child(WtarFile::from_metadata(s.path.clone(), s.is_dir, s.size));
    }
    // A flat tree of the same records serializes to the same block.
    let mut meta = Vec::new();
    let mut files = Vec::new();
    serialize_children(&again, &mut meta, &mut files);
    assert_eq!(meta, h.bytes[4..].to_vec());
    assert_eq!(files, h.file_list);
}

#[test]
fn serialize_tree_includes_the_node() {
    let mut meta = vec![9];
    let mut files = vec![b("before")];
    serialize_tree(&sample_tree(), &mut meta, &mut files);
    let mut expected = vec![9];
    record(&mut expected, "d", true, 0);
    record(&mut expected, "d/a.txt", false, 3);
    record(&mut expected, "d/sub", true, 0);
    assert_eq!(meta, expected);
    assert_eq!(files, vec![b("before"), b("d/a.txt")]);
}

#[test]
fn directory_size_is_recorded_as_zero() {
    let d = WtarFile::from_metadata(b("big"), true, 4096);
    assert_eq!(d.size, 0);
    let f = WtarFile::from_metadata(b("f"), false, 4096);
    assert_eq!(f.size, 4096);
}

#[test]
fn truncated_metadata_is_malformed() {
    let h = create_header(&sample_tree()).unwrap();
    let meta = h.bytes[4..].to_vec();
    let first_record = 4 + "d/a.txt".len() + 1 + 8;
    for cut in 1..meta.len() {
        let r = parse_metadata(&meta[..cut].to_vec());
        if cut == first_record {
            assert_eq!(r.unwrap().len(), 1);
        } else {
            assert_eq!(r.err(), Some(ArchiveError::Malformed));
        }
    }
    assert_eq!(metadata_length(&vec![1, 2, 3]), Err(ArchiveError::Malformed));
    assert_eq!(parse_metadata(&Vec::new()).unwrap().len(), 0);
}

#[test]
fn overflowing_payload_offsets_are_malformed() {
    let mut meta = Vec::new();
    record(&mut meta, "a", false, u64::MAX - 10);
    record(&mut meta, "b", false, 100);
    assert_eq!(parse_metadata(&meta).err(), Some(ArchiveError::Malformed));
}

#[test]
fn nonzero_flag_reads_as_directory() {
    let mut meta = Vec::new();
    meta.extend_from_slice(&1u32.to_le_bytes());
    meta.push(b'q');
    meta.push(7);
    let steps = parse_metadata(&meta).unwrap();
    assert!(steps[0].is_dir);
    assert_eq!(steps[0].size, 0);
}

#[test]
fn little_endian_reads_and_writes() {
    let mut buf = Vec::new();
    push_le(&mut buf, 0x0102_0304_0506_0708, 8);
    assert_eq!(buf, vec![8, 7, 6, 5, 4, 3, 2, 1]);
    assert_eq!(read_le(&buf, 0, 8), 0x0102_0304_0506_0708);
    assert_eq!(read_le(&buf, 2, 3), 0x040506);
    assert_eq!(metadata_length(&vec![0x10, 0x27, 0, 0, 99]), Ok(10000));
}

#[test]
fn archive_names() {
    assert_eq!(archive_name(&b("d/")), b("d.wtar"));
    assert_eq!(archive_name(&b("some/dir")), b("some/dir.wtar"));
    assert_eq!(compressed_name(&b("d.wtar")), b("d.wtar.gz"));
}

#[test]
fn confirmed_rerun_replaces_each_existing_path() {
    let exists = [true, false, true];
    let mut pref = OverwritePref::Unset;
    let mut actions = Vec::new();
    for e in exists {
        let mut a = next_action(pref, e);
        if a == Action::Ask {
            let (p, b) = answer(true);
            pref = p;
            a = b;
        }
        actions.push(a);
    }
    assert_eq!(actions, vec![Action::Replace, Action::Create, Action::Replace]);
    assert_eq!(pref, OverwritePref::Confirmed);
}

#[test]
fn declined_overwrite_stops_before_removing() {
    assert_eq!(next_action(OverwritePref::Unset, false), Action::Create);
    assert_eq!(next_action(OverwritePref::Unset, true), Action::Ask);
    assert_eq!(answer(false), (OverwritePref::Declined, Action::Abort));
    assert_eq!(next_action(OverwritePref::Declined, false), Action::Abort);
}

#[test]
fn affirmative_replies() {
    assert!(is_affirmative("y\n"));
    assert!(is_affirmative("  y \t"));
    assert!(!is_affirmative("yes\n"));
    assert!(!is_affirmative("n\n"));
    assert!(!is_affirmative("\n"));
    assert!(!is_affirmative("Y"));
    assert!(reply_confirms("y"));
    assert!(!reply_confirms(" y"));
}
