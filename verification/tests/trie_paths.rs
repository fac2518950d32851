use kwui_cli::trie::LookupTable;

fn collect_sorted(t: &LookupTable) -> Vec<(String, u16)> {
    let mut v = t.iter();
    v.sort();
    v
}

#[test]
fn three_sibling_paths() {
    // /a, /ab and /b share prefixes; every insertion order yields the same set
    let orders: Vec<Vec<(&str, u16)>> = vec![
        vec![("/a", 1), ("/ab", 2), ("/b", 3)],
        vec![("/b", 3), ("/ab", 2), ("/a", 1)],
        vec![("/ab", 2), ("/a", 1), ("/b", 3)],
    ];
    for order in orders {
        let mut t = LookupTable::new();
        for (p, v) in &order {
            assert_eq!(t.insert(p, *v).unwrap(), 0);
        }
        let got = collect_sorted(&t);
        assert_eq!(
            got,
            vec![
                ("/a".to_string(), 1),
                ("/ab".to_string(), 2),
                ("/b".to_string(), 3),
            ]
        );
    }
}

#[test]
fn reinsert_returns_existing_value() {
    let mut t = LookupTable::new();
    assert_eq!(t.insert("/data/file", 7).unwrap(), 0);
    // the same path again: the stored value comes back, nothing changes
    assert_eq!(t.insert("/data/file", 9).unwrap(), 7);
    let got = collect_sorted(&t);
    assert_eq!(got, vec![("/data/file".to_string(), 7)]);
}

#[test]
fn empty_table_iterates_empty() {
    let t = LookupTable::new();
    assert_eq!(t.iter().len(), 0);
}

#[test]
fn nested_paths_kept_apart() {
    let mut t = LookupTable::new();
    t.insert("/", 0).unwrap();
    t.insert("/sub/", 0).unwrap();
    t.insert("/sub/c.png", 1).unwrap();
    t.insert("/a.txt", 2).unwrap();
    let got = collect_sorted(&t);
    assert_eq!(
        got,
        vec![
            ("/".to_string(), 0),
            ("/a.txt".to_string(), 2),
            ("/sub/".to_string(), 0),
            ("/sub/c.png".to_string(), 1),
        ]
    );
}

#[test]
fn non_ascii_paths_round_trip() {
    let mut t = LookupTable::new();
    t.insert("/r\u{e9}sum\u{e9}.txt", 4).unwrap();
    t.insert("/\u{1F600}.bin", 5).unwrap();
    let got = collect_sorted(&t);
    assert_eq!(
        got,
        vec![
            ("/r\u{e9}sum\u{e9}.txt".to_string(), 4),
            ("/\u{1F600}.bin".to_string(), 5),
        ]
    );
}
