use kwui_cli::builder::bytes_eq;
use kwui_cli::builder::content_scan;
use kwui_cli::builder::empty_sha1;
use kwui_cli::builder::find_item;
use kwui_cli::builder::solid_sort_key;
use kwui_cli::file_format::read_u16le;
use kwui_cli::file_format::read_u32le;
use kwui_cli::file_format::write_u16le;
use kwui_cli::file_format::write_u32le;
use kwui_cli::file_format::Item;
use kwui_cli::file_format::ITEM_FLAG_DIR;
use kwui_cli::packager::need_compress;
use kwui_cli::packager::PackItem;

#[test]
fn little_endian_round_trip() {
    let mut out: Vec<u8> = Vec::new();
    write_u16le(&mut out, 0xBEEF);
    write_u32le(&mut out, 0xDEAD_1234);
    assert_eq!(out, vec![0xEF, 0xBE, 0x34, 0x12, 0xAD, 0xDE]);
    assert_eq!(read_u16le(&out, 0), 0xBEEF);
    assert_eq!(read_u32le(&out, 2), 0xDEAD_1234);
}

#[test]
fn need_compress_skips_images() {
    assert!(!need_compress("/art/logo.PNG"));
    assert!(!need_compress("/a.gif"));
    assert!(!need_compress("/photos/x.JpEg"));
    assert!(!need_compress("/b.jpg"));
    assert!(need_compress("/script.js"));
    assert!(need_compress("/notes.txt"));
    assert!(need_compress("/png"));
}

#[test]
fn sort_key_prefers_executables() {
    let exe = solid_sort_key(&PackItem {
        src: "Tools/Setup.EXE".to_string(),
        dst: "/Setup.EXE".to_string(),
    });
    let txt = solid_sort_key(&PackItem {
        src: "readme.txt".to_string(),
        dst: "/readme.txt".to_string(),
    });
    assert_eq!(exe.prio, -1);
    assert_eq!(txt.prio, 0);
    let exe_suffix: String = exe.suffix.iter().map(|u| char::from(*u as u8)).collect();
    assert_eq!(exe_suffix, "exe");
}

#[test]
fn sort_key_without_extension() {
    let k = solid_sort_key(&PackItem {
        src: "Makefile".to_string(),
        dst: "/Makefile".to_string(),
    });
    assert_eq!(k.prio, 0);
    let suffix: String = k.suffix.iter().map(|u| char::from(*u as u8)).collect();
    assert_eq!(suffix, "zzz");
    let fname: String = k.fname.iter().map(|u| char::from(*u as u8)).collect();
    assert_eq!(fname, "makefile");
}

#[test]
fn dedup_key_lookup() {
    let (len, digest) = content_scan(&b"hello".to_vec());
    assert_eq!(len, 5);
    assert_eq!(digest.len(), 20);
    let sentinel = Item {
        digest: empty_sha1(),
        fname: String::new(),
        reference: 1,
        flags: ITEM_FLAG_DIR,
        offset: 0,
        length: 0,
    };
    let it = Item {
        digest: digest.clone(),
        fname: "a".to_string(),
        reference: 1,
        flags: 0,
        offset: 0,
        length: 5,
    };
    let items = vec![sentinel, it];
    assert_eq!(find_item(&items, 5, &digest), Some(1));
    let (_, other) = content_scan(&b"world".to_vec());
    assert_eq!(find_item(&items, 5, &other), None);
    assert_eq!(find_item(&items, 4, &digest), None);
    assert!(bytes_eq(&digest, &digest));
    assert!(!bytes_eq(&digest, &other));
}

#[test]
fn identical_bytes_share_one_item() {
    // the dedup key is (length, digest): equal contents collapse
    let a = b"same-bytes".to_vec();
    let b = b"same-bytes".to_vec();
    let (la, da) = content_scan(&a);
    let (lb, db) = content_scan(&b);
    assert_eq!(la, lb);
    assert!(bytes_eq(&da, &db));
}
