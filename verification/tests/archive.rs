use kwui_cli::file_format::ArchiveError;
use kwui_cli::packager::pack;
use kwui_cli::packager::list;
use kwui_cli::packager::unpack;
use kwui_cli::packager::PackItem;
use kwui_cli::packager::UnpackEntry;

fn item(src: &str, dst: &str) -> PackItem {
    PackItem { src: src.to_string(), dst: dst.to_string() }
}

fn resolve(entries: &[UnpackEntry]) -> Vec<(String, Option<Vec<u8>>)> {
    let mut out: Vec<(String, Option<Vec<u8>>)> = Vec::new();
    for e in entries {
        match e {
            UnpackEntry::Dir { path } => out.push((path.clone(), None)),
            UnpackEntry::File { path, data } => out.push((path.clone(), Some(data.clone()))),
            UnpackEntry::CopyOf { path, source } => {
                let data = out
                    .iter()
                    .find(|(p, d)| p == source && d.is_some())
                    .and_then(|(_, d)| d.clone())
                    .expect("copy source must already exist");
                out.push((path.clone(), Some(data)));
            }
        }
    }
    out
}

#[test]
fn three_files_dedup() {
    // two identical text files and one image in a subdirectory
    let files = vec![
        item("a.txt", "/a.txt"),
        item("b.txt", "/b.txt"),
        item("sub/c.png", "/sub/c.png"),
    ];
    let png: Vec<u8> = vec![0x89, 0x50, 0x4E, 0x47, 1, 2, 3, 4, 5, 6, 7, 8];
    let contents = vec![b"hello".to_vec(), b"hello".to_vec(), png.clone()];
    let dirs = vec!["/".to_string(), "/sub/".to_string()];
    let bytes = pack(files, contents, dirs).expect("pack must succeed");

    let info = list(&bytes).expect("list must succeed");
    assert!(!info.solid);
    assert_eq!(info.dir_count, 2);
    assert_eq!(info.file_count, 3);
    // the sentinel plus one item per unique content: "hello" is stored once
    assert_eq!(info.item_count, 3);
    assert_eq!(info.chunk_count, 2);
    assert_eq!(info.entries.len(), 5);

    let out = unpack(&bytes).expect("unpack must succeed");
    assert_eq!(out.len(), 5);
    let n_dirs = out
        .iter()
        .filter(|e| matches!(e, UnpackEntry::Dir { .. }))
        .count();
    assert_eq!(n_dirs, 2);
    // the duplicated text is decompressed once and copied once
    let n_copies = out
        .iter()
        .filter(|e| matches!(e, UnpackEntry::CopyOf { .. }))
        .count();
    assert_eq!(n_copies, 1);
    let resolved = resolve(&out);
    let get = |p: &str| {
        resolved
            .iter()
            .find(|(q, _)| q == p)
            .unwrap_or_else(|| panic!("missing {}", p))
            .1
            .clone()
    };
    assert_eq!(get("/a.txt"), Some(b"hello".to_vec()));
    assert_eq!(get("/b.txt"), Some(b"hello".to_vec()));
    assert_eq!(get("/sub/c.png"), Some(png));
    assert_eq!(get("/"), None);
    assert_eq!(get("/sub/"), None);
}

#[test]
fn nul_destination_rejected() {
    let files = vec![item("a.txt", "/a\u{0}b.txt")];
    let contents = vec![b"abc".to_vec()];
    let dirs = vec!["/".to_string()];
    assert_eq!(
        pack(files, contents, dirs).err(),
        Some(ArchiveError::InvalidPath)
    );
}

#[test]
fn bad_magic_rejected() {
    let files = vec![item("a.txt", "/a.txt")];
    let contents = vec![b"abc".to_vec()];
    let dirs = vec!["/".to_string()];
    let mut bytes = pack(files, contents, dirs).expect("pack must succeed");
    bytes[0] = b'X';
    assert_eq!(list(&bytes).err(), Some(ArchiveError::BadMagic));
    assert!(matches!(unpack(&bytes), Err(ArchiveError::BadMagic)));
}

#[test]
fn bad_version_rejected() {
    let files = vec![item("a.txt", "/a.txt")];
    let contents = vec![b"abc".to_vec()];
    let dirs = vec!["/".to_string()];
    let mut bytes = pack(files, contents, dirs).expect("pack must succeed");
    bytes[4] = 9;
    assert_eq!(list(&bytes).err(), Some(ArchiveError::BadVersion));
}

#[test]
fn truncated_rejected() {
    let files = vec![item("a.txt", "/a.txt")];
    let contents = vec![b"abc".to_vec()];
    let dirs = vec!["/".to_string()];
    let bytes = pack(files, contents, dirs).expect("pack must succeed");
    let cut = &bytes[0..10];
    assert_eq!(list(cut).err(), Some(ArchiveError::Truncated));
}

#[test]
fn compressible_content_round_trips() {
    // long repetitive content compresses well and must come back intact
    let mut text: Vec<u8> = Vec::new();
    for _ in 0..200 {
        text.extend_from_slice(b"abcabcabc");
    }
    let files = vec![item("big.txt", "/big.txt")];
    let contents = vec![text.clone()];
    let dirs = vec!["/".to_string()];
    let bytes = pack(files, contents, dirs).expect("pack must succeed");
    // the archive must be smaller than header plus the raw content
    assert!(bytes.len() < text.len());
    let out = unpack(&bytes).expect("unpack must succeed");
    let resolved = resolve(&out);
    let found = resolved
        .iter()
        .find(|(p, _)| p == "/big.txt")
        .expect("path present");
    assert_eq!(found.1.as_ref().unwrap(), &text);
}

#[test]
fn image_stays_uncompressed() {
    // repetitive bytes would compress, but the png name forbids it
    let mut data: Vec<u8> = Vec::new();
    for _ in 0..100 {
        data.extend_from_slice(b"xyzxyzxyz");
    }
    let files = vec![item("pic.png", "/pic.png")];
    let contents = vec![data.clone()];
    let dirs = vec!["/".to_string()];
    let bytes = pack(files, contents, dirs).expect("pack must succeed");
    // stored raw: the archive holds the full content
    assert!(bytes.len() > data.len());
    let out = unpack(&bytes).expect("unpack must succeed");
    let resolved = resolve(&out);
    let found = resolved.iter().find(|(p, _)| p == "/pic.png").unwrap();
    assert_eq!(found.1.as_ref().unwrap(), &data);
}

#[test]
fn empty_archive_round_trips() {
    let bytes = pack(Vec::new(), Vec::new(), vec!["/".to_string()]).expect("pack");
    let info = list(&bytes).expect("list");
    assert_eq!(info.file_count, 0);
    assert_eq!(info.dir_count, 1);
    assert_eq!(info.entries.len(), 1);
    assert_eq!(info.entries[0].0, "/");
    assert_eq!(info.entries[0].1, 0);
    let out = unpack(&bytes).expect("unpack");
    assert_eq!(out.len(), 1);
    assert!(matches!(&out[0], UnpackEntry::Dir { path } if path == "/"));
}

#[test]
fn empty_file_round_trips() {
    let files = vec![item("empty.bin", "/empty.bin")];
    let contents = vec![Vec::new()];
    let dirs = vec!["/".to_string()];
    let bytes = pack(files, contents, dirs).expect("pack");
    let out = unpack(&bytes).expect("unpack");
    let resolved = resolve(&out);
    let found = resolved.iter().find(|(p, _)| p == "/empty.bin").unwrap();
    assert_eq!(found.1.as_ref().unwrap().len(), 0);
}
