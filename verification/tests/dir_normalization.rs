use kwui_cli::inputs::auto_root_dst;
use kwui_cli::inputs::dir_mapping_prefix;
use kwui_cli::inputs::ensure_dir_slash;
use kwui_cli::inputs::finish_dir_items;
use kwui_cli::inputs::join_under;
use kwui_cli::inputs::mapping_dst;
use kwui_cli::packager::PackItem;

fn item(src: &str, dst: &str) -> PackItem {
    PackItem { src: src.to_string(), dst: dst.to_string() }
}

#[test]
fn destination_shapes() {
    assert_eq!(auto_root_dst("logo.png"), "/logo.png");
    assert_eq!(mapping_dst("/assets/", "a.txt"), "/assets/a.txt");
    assert_eq!(mapping_dst("/assets/b.txt", "a.txt"), "/assets/b.txt");
    assert_eq!(dir_mapping_prefix("/assets/"), "/assets");
    assert_eq!(dir_mapping_prefix("/assets"), "/assets");
}

#[test]
fn parents_synthesized_and_deduped() {
    let files = vec![
        item("x", "/Sub/a.txt"),
        item("y", "/sub/b.txt"),
        item("z", "/c.txt"),
    ];
    let dirs = finish_dir_items(&files, vec!["/".to_string(), "/SUB/".to_string()]);
    // case-insensitive neighbours collapse: one "/" and one "/sub/"-like entry
    assert_eq!(dirs.len(), 2);
    let lowered: Vec<String> = dirs.iter().map(|d| d.to_lowercase()).collect();
    assert!(lowered.contains(&"/".to_string()));
    assert!(lowered.contains(&"/sub/".to_string()));
}

#[test]
fn join_and_slash_shapes() {
    assert_eq!(join_under("/assets", "img/a.png"), "/assets/img/a.png");
    assert_eq!(join_under("/assets", ""), "/assets");
    assert_eq!(ensure_dir_slash("/assets"), "/assets/");
    assert_eq!(ensure_dir_slash("/assets/"), "/assets/");
}

#[test]
fn root_added_when_missing() {
    let files = vec![item("x", "/a.txt")];
    let dirs = finish_dir_items(&files, Vec::new());
    assert_eq!(dirs, vec!["/".to_string()]);
}
