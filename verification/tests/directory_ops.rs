use fatdir::codec::{DirEntryData, DirFileEntryData, DirLfnEntryData};
use fatdir::lfn::lfn_checksum;
use fatdir::dir::{Dir, DirHandle, FileSystem};
use fatdir::{Error, FatType};

fn root_fs(slots: usize) -> (FileSystem, Dir) {
    (FileSystem::new(FatType::Fat16, slots), Dir::new(DirHandle::Root))
}

fn entry_names(fs: &FileSystem, dir: &Dir) -> Vec<String> {
    let mut names = Vec::new();
    let mut it = dir.iter();
    while let Some(e) = it.next(fs) {
        if e.lfn.len() > 0 {
            names.push(String::from_utf16(&e.lfn).unwrap());
        } else {
            names.push(String::from_utf8(e.data.name.clone()).unwrap());
        }
    }
    names
}

#[test]
fn test_sfn_slot_round_trip() {
    let mut bytes = Vec::new();
    for i in 0..32u8 {
        // keep byte 11 (attributes) off the LFN marker
        bytes.push(if i == 11 { 0x20 } else { 0x41 + i });
    }
    let entry = DirEntryData::deserialize(&bytes, 0);
    assert_eq!(entry.serialize(), bytes);
}

#[test]
fn test_lfn_slot_round_trip() {
    let mut bytes = vec![0u8; 32];
    bytes[0] = 0x42;
    bytes[11] = 0x0F;
    bytes[13] = 0xA7;
    for i in 14..26 {
        bytes[i] = i as u8;
    }
    let entry = DirEntryData::deserialize(&bytes, 0);
    assert_eq!(entry.serialize(), bytes);
}

#[test]
fn test_write_then_iter_yields_name() {
    let (mut fs, root) = root_fs(64);
    let e = root.create_file(&mut fs, "Hello.World.txt").unwrap();
    assert_eq!(e.data.name.len(), 11);
    let names = entry_names(&fs, &root);
    assert_eq!(names, vec!["Hello.World.txt".to_string()]);
}

#[test]
fn test_create_file_is_idempotent() {
    let (mut fs, root) = root_fs(64);
    let e1 = root.create_file(&mut fs, "notes.txt").unwrap();
    let e2 = root.create_file(&mut fs, "NOTES.TXT").unwrap();
    assert_eq!(e1.data.name, e2.data.name);
    assert_eq!(entry_names(&fs, &root).len(), 1);
}

#[test]
fn test_remove_then_iter_and_first_fit_reuse() {
    let (mut fs, root) = root_fs(64);
    let first = root.create_file(&mut fs, "first.txt").unwrap();
    root.create_file(&mut fs, "second.txt").unwrap();
    assert_eq!(first.offset_range.0, 0);
    root.remove(&mut fs, "first.txt").unwrap();
    let names = entry_names(&fs, &root);
    assert_eq!(names, vec!["second.txt".to_string()]);
    // the freed slots are taken again, first-fit from the directory start
    let third = root.create_file(&mut fs, "third.txt").unwrap();
    assert_eq!(third.offset_range.0, 0);
    assert_eq!(
        entry_names(&fs, &root),
        vec!["third.txt".to_string(), "second.txt".to_string()]
    );
}

#[test]
fn test_remove_missing_is_not_found() {
    let (mut fs, root) = root_fs(16);
    assert_eq!(root.remove(&mut fs, "nothing.txt"), Err(Error::NotFound));
}

#[test]
fn test_rename_preserves_payload() {
    let (mut fs, root) = root_fs(64);
    let name: Vec<char> = "data.bin".chars().collect();
    let mut payload = DirFileEntryData::new("DATA    BIN".as_bytes().to_vec(), 0x20);
    payload.size = 1234;
    payload.first_cluster_lo = 7;
    root.write_entry(&mut fs, &name, payload).unwrap();
    let dst = Dir::new(DirHandle::Root);
    root.rename(&mut fs, "data.bin", &dst, "renamed.bin").unwrap();
    let mut it = root.iter();
    let e = it.next(&fs).unwrap();
    assert_eq!(String::from_utf16(&e.lfn).unwrap(), "renamed.bin");
    assert_eq!(e.data.size, 1234);
    assert_eq!(e.data.first_cluster_lo, 7);
    assert_eq!(e.data.attrs, 0x20);
    assert!(it.next(&fs).is_none());
}

#[test]
fn test_rename_to_existing_fails() {
    let (mut fs, root) = root_fs(64);
    root.create_file(&mut fs, "a.txt").unwrap();
    root.create_file(&mut fs, "b.txt").unwrap();
    let dst = Dir::new(DirHandle::Root);
    assert_eq!(
        root.rename(&mut fs, "a.txt", &dst, "b.txt"),
        Err(Error::AlreadyExists)
    );
    // the failed rename left both entries in place
    assert_eq!(
        entry_names(&fs, &root),
        vec!["a.txt".to_string(), "b.txt".to_string()]
    );
}

#[test]
fn test_rename_moves_between_directories() {
    let (mut fs, root) = root_fs(64);
    root.create_dir(&mut fs, "a").unwrap();
    root.create_dir(&mut fs, "b").unwrap();
    root.create_file(&mut fs, "a/f.txt").unwrap();
    root.rename(&mut fs, "a/f.txt", &root, "b/g.txt").unwrap();
    let a = root.open_dir(&fs, "a").unwrap();
    let b = root.open_dir(&fs, "b").unwrap();
    assert_eq!(entry_names(&fs, &a), vec![".".to_string(), "..".to_string()]);
    assert_eq!(
        entry_names(&fs, &b),
        vec![".".to_string(), "..".to_string(), "g.txt".to_string()]
    );
}

#[test]
fn test_create_dir_has_dot_entries() {
    let (mut fs, root) = root_fs(64);
    let sub = root.create_dir(&mut fs, "stuff").unwrap();
    assert_eq!(sub.handle, DirHandle::Cluster(2));
    let names = entry_names(&fs, &sub);
    assert_eq!(names, vec![".".to_string(), "..".to_string()]);
    let mut it = root.iter();
    let e = it.next(&fs).unwrap();
    assert!(e.is_dir());
    assert_eq!(e.first_cluster(FatType::Fat16), Some(2));
}

#[test]
fn test_create_dir_is_idempotent() {
    let (mut fs, root) = root_fs(64);
    let d1 = root.create_dir(&mut fs, "stuff").unwrap();
    let dirs_before = fs.dirs.len();
    let d2 = root.create_dir(&mut fs, "STUFF").unwrap();
    assert_eq!(d1.handle, d2.handle);
    // opening an existing directory allocates nothing
    assert_eq!(fs.dirs.len(), dirs_before);
}

#[test]
fn test_nested_paths() {
    let (mut fs, root) = root_fs(64);
    root.create_dir(&mut fs, "a").unwrap();
    root.create_dir(&mut fs, "a/b").unwrap();
    root.create_file(&mut fs, "a/b/deep.txt").unwrap();
    let b = root.open_dir(&fs, "a/b").unwrap();
    assert_eq!(entry_names(&fs, &b)[2], "deep.txt".to_string());
    let f = root.open_file(&fs, "a/b/deep.txt").unwrap();
    assert!(!f.is_dir());
}

#[test]
fn test_kind_mismatch_errors() {
    let (mut fs, root) = root_fs(64);
    root.create_dir(&mut fs, "d").unwrap();
    root.create_file(&mut fs, "f.txt").unwrap();
    assert_eq!(root.open_file(&fs, "d").unwrap_err(), Error::IsADirectory);
    assert_eq!(root.open_dir(&fs, "f.txt").unwrap_err(), Error::NotADirectory);
    assert_eq!(root.open_file(&fs, "missing").unwrap_err(), Error::NotFound);
}

#[test]
fn test_remove_non_empty_directory_denied() {
    let (mut fs, root) = root_fs(64);
    root.create_dir(&mut fs, "d").unwrap();
    root.create_file(&mut fs, "d/inner.txt").unwrap();
    assert_eq!(root.remove(&mut fs, "d"), Err(Error::NonEmptyDirectory));
    root.remove(&mut fs, "d/inner.txt").unwrap();
    assert_eq!(root.remove(&mut fs, "d"), Ok(Some(2)));
}

#[test]
fn test_invalid_name_rejected() {
    let (mut fs, root) = root_fs(64);
    assert_eq!(root.create_file(&mut fs, "bad*name").unwrap_err(), Error::InvalidInput);
    assert_eq!(root.create_file(&mut fs, "bad\"quote").unwrap_err(), Error::InvalidInput);
}

#[test]
fn test_root_cannot_grow() {
    // one root slot: a long-named file needs an LFN slot plus the SFN slot
    let (mut fs, root) = root_fs(1);
    assert_eq!(root.create_file(&mut fs, "file.txt").unwrap_err(), Error::DirectoryFull);
}

#[test]
fn test_free_slot_is_skipped_by_iter() {
    let (mut fs, root) = root_fs(64);
    root.create_file(&mut fs, "keep.txt").unwrap();
    let gone = root.create_file(&mut fs, "gone.txt").unwrap();
    root.remove(&mut fs, "gone.txt").unwrap();
    let names = entry_names(&fs, &root);
    assert_eq!(names, vec!["keep.txt".to_string()]);
    // the freed range is exactly the removed entry's slots
    let again = root.create_file(&mut fs, "gone2.txt").unwrap();
    assert_eq!(again.offset_range.0, gone.offset_range.0);
}

fn lfn_slot_ab(order: u8, checksum: u8) -> Vec<u8> {
    let mut units = vec![0xFFFFu16; 13];
    units[0] = 'a' as u16;
    units[1] = 'b' as u16;
    units[2] = 0;
    let slot = DirLfnEntryData { order, units, entry_type: 0, checksum, reserved_0: 0 };
    DirEntryData::Lfn(slot).serialize()
}

#[test]
fn test_matching_lfn_run_is_decoded() {
    let (mut fs, root) = root_fs(8);
    let sfn_name = "AB         ".as_bytes().to_vec();
    let chk = lfn_checksum(&sfn_name);
    let mut bytes = lfn_slot_ab(0x41, chk);
    bytes.extend_from_slice(&DirFileEntryData::new(sfn_name, 0).serialize());
    bytes.resize(8 * 32, 0);
    fs.root = bytes;
    let mut it = root.iter();
    let e = it.next(&fs).unwrap();
    assert_eq!(String::from_utf16(&e.lfn).unwrap(), "ab");
    assert_eq!(e.offset_range, (0, 64));
}

#[test]
fn test_mismatched_lfn_run_is_discarded() {
    let (mut fs, root) = root_fs(8);
    let sfn_name = "AB         ".as_bytes().to_vec();
    let chk = lfn_checksum(&sfn_name);
    let mut bytes = lfn_slot_ab(0x41, chk.wrapping_add(1));
    bytes.extend_from_slice(&DirFileEntryData::new(sfn_name, 0).serialize());
    bytes.resize(8 * 32, 0);
    fs.root = bytes;
    let mut it = root.iter();
    let e = it.next(&fs).unwrap();
    // the spurious run is dropped; only the short name remains
    assert!(e.lfn.is_empty());
    assert_eq!(e.data.name, "AB         ".as_bytes());
}

#[test]
fn test_volume_label_is_skipped() {
    let (mut fs, root) = root_fs(8);
    let mut bytes = DirFileEntryData::new("MYVOLUME   ".as_bytes().to_vec(), 0x08).serialize();
    bytes.extend_from_slice(
        &DirFileEntryData::new("FILE    TXT".as_bytes().to_vec(), 0x20).serialize(),
    );
    bytes.resize(8 * 32, 0);
    fs.root = bytes;
    let names = entry_names(&fs, &root);
    assert_eq!(names, vec!["FILE    TXT".to_string()]);
}
