use srcrs::vpk::reader::{SeekFrom, VpkError, VPK};

fn push_nul_str(tree: &mut Vec<u8>, s: &str) {
    tree.extend_from_slice(s.as_bytes());
    tree.push(0);
}

fn push_entry(
    tree: &mut Vec<u8>,
    crc: u32,
    preload: &[u8],
    archive_index: u16,
    entry_offset: u32,
    entry_length: u32,
) {
    tree.extend_from_slice(&crc.to_le_bytes());
    tree.extend_from_slice(&(preload.len() as u16).to_le_bytes());
    tree.extend_from_slice(&archive_index.to_le_bytes());
    tree.extend_from_slice(&entry_offset.to_le_bytes());
    tree.extend_from_slice(&entry_length.to_le_bytes());
    tree.extend_from_slice(&0xffffu16.to_le_bytes());
    tree.extend_from_slice(preload);
}

fn build_dir_v1(tree: &[u8]) -> Vec<u8> {
    let mut data = Vec::new();
    data.extend_from_slice(&0x55aa1234u32.to_le_bytes());
    data.extend_from_slice(&1u32.to_le_bytes());
    data.extend_from_slice(&(tree.len() as u32).to_le_bytes());
    data.extend_from_slice(tree);
    data
}

fn build_dir_v2(tree: &[u8]) -> Vec<u8> {
    let mut data = Vec::new();
    data.extend_from_slice(&0x55aa1234u32.to_le_bytes());
    data.extend_from_slice(&2u32.to_le_bytes());
    data.extend_from_slice(&(tree.len() as u32).to_le_bytes());
    data.extend_from_slice(&[0u8; 16]);
    data.extend_from_slice(tree);
    data
}

/// One entry `cfg/chapter1.cfg` whose bytes are split between preload and a
/// numbered sidecar archive, where they sit at the given offset.
fn chunked_fixture(content: &[u8], split: usize, sidecar_pad: usize) -> (Vec<u8>, Vec<u8>) {
    let crc = crc32fast::hash(content);
    let mut tree = Vec::new();
    push_nul_str(&mut tree, "cfg");
    push_nul_str(&mut tree, "cfg");
    push_nul_str(&mut tree, "chapter1");
    push_entry(
        &mut tree,
        crc,
        &content[..split],
        0,
        sidecar_pad as u32,
        (content.len() - split) as u32,
    );
    push_nul_str(&mut tree, "");
    push_nul_str(&mut tree, "");
    push_nul_str(&mut tree, "");
    let dir = build_dir_v1(&tree);
    let mut sidecar = vec![0xabu8; sidecar_pad];
    sidecar.extend_from_slice(&content[split..]);
    (dir, sidecar)
}

#[test]
fn chunked_entry_reads_back_identical() {
    let content = b"Hello, chunked world! 0123456789 and a longer tail of bytes.";
    let (dir, sidecar) = chunked_fixture(content, 7, 3);

    let vpk = VPK::load("Misc_dir.vpk", dir).unwrap();

    let sidecar_name = vpk.sidecar_for("cfg/chapter1.cfg").unwrap().unwrap();
    assert_eq!(sidecar_name, "Misc_000.vpk");

    let mut file = vpk.get("cfg/chapter1.cfg", Some(sidecar)).unwrap();
    file.verify().unwrap();
    assert_eq!(file.len(), content.len());

    let mut data = vec![0u8; file.len()];
    assert_eq!(file.read(&mut data), content.len());
    assert_eq!(data, content);
}

#[test]
fn seek_then_read_matches_slice() {
    let content = b"Hello, chunked world! 0123456789 and a longer tail of bytes.";
    let (dir, sidecar) = chunked_fixture(content, 7, 3);

    let vpk = VPK::load("Misc_dir.vpk", dir).unwrap();
    let mut file = vpk.get("cfg/chapter1.cfg", Some(sidecar)).unwrap();

    assert_eq!(file.seek(SeekFrom::Start(10)), 10);
    assert_eq!(file.stream_position(), 10);

    let mut rest = vec![0u8; content.len() - 10];
    assert_eq!(file.read(&mut rest), content.len() - 10);
    assert_eq!(rest, &content[10..]);
}

#[test]
fn seek_current_and_end() {
    let content = b"0123456789abcdef";
    let (dir, sidecar) = chunked_fixture(content, 4, 0);

    let vpk = VPK::load("pak_dir.vpk", dir).unwrap();
    let mut file = vpk.get("cfg/chapter1.cfg", Some(sidecar)).unwrap();

    assert_eq!(file.seek(SeekFrom::Start(4)), 4);
    assert_eq!(file.seek(SeekFrom::Current(3)), 7);
    assert_eq!(file.seek(SeekFrom::Current(-2)), 5);
    assert_eq!(file.seek(SeekFrom::End(-6)), (content.len() - 6) as u64);

    let mut tail = vec![0u8; 6];
    assert_eq!(file.read(&mut tail), 6);
    assert_eq!(tail, &content[content.len() - 6..]);

    assert_eq!(file.seek(SeekFrom::End(0)), content.len() as u64);
    let mut nothing = vec![0u8; 4];
    assert_eq!(file.read(&mut nothing), 0);
}

#[test]
fn directory_stored_entry_reads_back_identical() {
    let content = b"stored right in the directory file";
    let crc = crc32fast::hash(content);
    let mut tree = Vec::new();
    push_nul_str(&mut tree, "nut");
    push_nul_str(&mut tree, " ");
    push_nul_str(&mut tree, "blastoff");
    push_entry(&mut tree, crc, &[], 0x7fff, 0, content.len() as u32);
    push_nul_str(&mut tree, "");
    push_nul_str(&mut tree, "");
    push_nul_str(&mut tree, "");
    let mut dir = build_dir_v1(&tree);
    dir.extend_from_slice(content);

    let vpk = VPK::load("blastoffold.vpk", dir).unwrap();

    assert_eq!(vpk.sidecar_for("blastoff.nut").unwrap(), None);

    let mut file = vpk.get("blastoff.nut", None).unwrap();
    file.verify().unwrap();
    assert_eq!(file.len(), content.len());

    let mut data = vec![0u8; file.len()];
    assert_eq!(file.read(&mut data), content.len());
    assert_eq!(data, content);
}

#[test]
fn preloaded_entry_reads_back_identical() {
    let content = b"tiny preloaded payload";
    let crc = crc32fast::hash(content);
    let mut tree = Vec::new();
    push_nul_str(&mut tree, "txt");
    push_nul_str(&mut tree, "docs");
    push_nul_str(&mut tree, "note");
    push_entry(&mut tree, crc, content, 0x7fff, 0, 0);
    push_nul_str(&mut tree, "");
    push_nul_str(&mut tree, "");
    push_nul_str(&mut tree, "");
    let dir = build_dir_v2(&tree);

    let vpk = VPK::load("small_dir.vpk", dir).unwrap();
    let mut file = vpk.get("docs/note.txt", None).unwrap();
    file.verify().unwrap();
    assert_eq!(file.len(), content.len());

    let mut data = vec![0u8; file.len()];
    assert_eq!(file.read(&mut data), content.len());
    assert_eq!(data, content);
}

#[test]
fn verify_detects_tampering() {
    let content = b"stored right in the directory file";
    let crc = crc32fast::hash(content);
    let mut tree = Vec::new();
    push_nul_str(&mut tree, "nut");
    push_nul_str(&mut tree, " ");
    push_nul_str(&mut tree, "blastoff");
    push_entry(&mut tree, crc, &[], 0x7fff, 0, content.len() as u32);
    push_nul_str(&mut tree, "");
    push_nul_str(&mut tree, "");
    push_nul_str(&mut tree, "");
    let mut dir = build_dir_v1(&tree);
    dir.extend_from_slice(content);

    let mut tampered = dir.clone();
    let last = tampered.len() - 1;
    tampered[last] ^= 0x01;

    let good = VPK::load("blastoffold.vpk", dir).unwrap();
    good.get("blastoff.nut", None).unwrap().verify().unwrap();

    let bad = VPK::load("blastoffold.vpk", tampered).unwrap();
    let err = bad.get("blastoff.nut", None).unwrap().verify().unwrap_err();
    match err {
        VpkError::ChecksumMismatch(computed, stored) => {
            assert_eq!(stored, crc);
            assert_ne!(computed, stored);
        }
        other => panic!("unexpected error: {:?}", other),
    }
}

#[test]
fn absent_path_is_not_found() {
    let content = b"tiny preloaded payload";
    let crc = crc32fast::hash(content);
    let mut tree = Vec::new();
    push_nul_str(&mut tree, "txt");
    push_nul_str(&mut tree, "docs");
    push_nul_str(&mut tree, "note");
    push_entry(&mut tree, crc, content, 0x7fff, 0, 0);
    push_nul_str(&mut tree, "");
    push_nul_str(&mut tree, "");
    push_nul_str(&mut tree, "");
    let dir = build_dir_v1(&tree);

    let vpk = VPK::load("small_dir.vpk", dir).unwrap();

    assert_eq!(vpk.get("docs/absent.txt", None).unwrap_err(), VpkError::NotFound);
    assert_eq!(vpk.sidecar_for("docs/absent.txt").unwrap_err(), VpkError::NotFound);
}

#[test]
fn sidecar_needed_but_missing() {
    let content = b"needs a sidecar";
    let (dir, _sidecar) = chunked_fixture(content, 4, 0);

    let vpk = VPK::load("pak_dir.vpk", dir).unwrap();
    assert_eq!(
        vpk.get("cfg/chapter1.cfg", None).unwrap_err(),
        VpkError::MissingArchive
    );
}

#[test]
fn truncated_sidecar_is_error() {
    let content = b"needs a sidecar with more bytes than this";
    let (dir, sidecar) = chunked_fixture(content, 4, 0);
    let short = sidecar[..sidecar.len() - 2].to_vec();

    let vpk = VPK::load("pak_dir.vpk", dir).unwrap();
    assert_eq!(
        vpk.get("cfg/chapter1.cfg", Some(short)).unwrap_err(),
        VpkError::Truncated
    );
}

#[test]
fn archive_names_are_zero_padded() {
    let content = b"x";
    let (dir, _) = chunked_fixture(content, 0, 0);
    let vpk = VPK::load("maps/pak01_dir.vpk", dir).unwrap();

    assert_eq!(vpk.archive_name(0), "maps/pak01_000.vpk");
    assert_eq!(vpk.archive_name(7), "maps/pak01_007.vpk");
    assert_eq!(vpk.archive_name(42), "maps/pak01_042.vpk");
    assert_eq!(vpk.archive_name(123), "maps/pak01_123.vpk");
    assert_eq!(vpk.archive_name(1234), "maps/pak01_1234.vpk");
}

#[test]
fn bad_signature_is_error() {
    let mut data = build_dir_v1(&[0u8]);
    data[0] = 0x00;
    assert_eq!(VPK::load("x_dir.vpk", data).unwrap_err(), VpkError::InvalidSignature);
}

#[test]
fn short_input_is_error() {
    let data = vec![0x34, 0x12];
    assert_eq!(VPK::load("x_dir.vpk", data).unwrap_err(), VpkError::InvalidSignature);
}

#[test]
fn unsupported_version_is_error() {
    let mut data = Vec::new();
    data.extend_from_slice(&0x55aa1234u32.to_le_bytes());
    data.extend_from_slice(&3u32.to_le_bytes());
    data.extend_from_slice(&0u32.to_le_bytes());
    assert_eq!(
        VPK::load("x_dir.vpk", data).unwrap_err(),
        VpkError::UnsupportedVersion(3)
    );
}

#[test]
fn truncated_tree_is_error() {
    let mut data = Vec::new();
    data.extend_from_slice(&0x55aa1234u32.to_le_bytes());
    data.extend_from_slice(&1u32.to_le_bytes());
    data.extend_from_slice(&100u32.to_le_bytes());
    data.push(0x61);
    assert_eq!(VPK::load("x_dir.vpk", data).unwrap_err(), VpkError::MalformedTree);
}

#[test]
fn unterminated_name_is_error() {
    let mut tree = Vec::new();
    tree.extend_from_slice(b"cfg");
    let data = build_dir_v1(&tree);
    assert_eq!(VPK::load("x_dir.vpk", data).unwrap_err(), VpkError::MalformedTree);
}

#[test]
fn non_utf8_name_is_error() {
    let mut tree = Vec::new();
    tree.extend_from_slice(&[0xff, 0xfe]);
    tree.push(0);
    push_nul_str(&mut tree, "");
    let data = build_dir_v1(&tree);
    assert_eq!(VPK::load("x_dir.vpk", data).unwrap_err(), VpkError::InvalidName);
}
