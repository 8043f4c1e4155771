use hanoidb::compression::Compression;
use hanoidb::entry::Entry;
use hanoidb::level::Level;
use hanoidb::scan::LevelScanner;
use hanoidb::writer::Writer;

fn collect(mut scanner: LevelScanner) -> Vec<Entry> {
    let mut out = Vec::new();
    while let Some(entry) = scanner.next() {
        out.push(entry);
    }
    out
}

#[test]
fn level_scanner() {
    // A - 1 2 4
    // B - 2 3 5 6
    // C - 1 3 6T
    //
    // => C1, B2, C3, A4, B5, C6T
    let mut a_file = Writer::new();
    for key in [1, 2, 4] {
        a_file
            .add(Entry::KeyVal {
                key: format!("{key}").into_bytes(),
                value: format!("A{key}").into_bytes(),
                timestamp: None,
            })
            .unwrap();
    }
    let a_file = a_file.close().unwrap();
    let mut b_file = Writer::new();
    for key in [2, 3, 5, 6] {
        b_file
            .add(Entry::KeyVal {
                key: format!("{key}").into_bytes(),
                value: format!("B{key}").into_bytes(),
                timestamp: None,
            })
            .unwrap();
    }
    let b_file = b_file.close().unwrap();
    let mut c_file = Writer::new();
    c_file
        .add(Entry::KeyVal {
            key: "1".to_owned().into_bytes(),
            value: "C1".to_owned().into_bytes(),
            timestamp: None,
        })
        .unwrap();
    c_file
        .add(Entry::KeyVal {
            key: "3".to_owned().into_bytes(),
            value: "C3".to_owned().into_bytes(),
            timestamp: None,
        })
        .unwrap();
    c_file.add(Entry::Deleted { key: "6".to_owned().into_bytes(), timestamp: None }).unwrap();
    let c_file = c_file.close().unwrap();

    let level = Level::new(10, Some(a_file), Some(b_file), Some(c_file), Default::default()).unwrap();
    let scanner = LevelScanner::new(&level).unwrap();
    // => C1, B2, C3, A4, B5, C6T
    assert_eq!(
        collect(scanner),
        vec![
            Entry::KeyVal {
                key: "1".to_owned().into_bytes(),
                value: "C1".to_owned().into_bytes(),
                timestamp: None,
            },
            Entry::KeyVal {
                key: "2".to_string().into_bytes(),
                value: "B2".to_string().into_bytes(),
                timestamp: None,
            },
            Entry::KeyVal {
                key: "3".to_owned().into_bytes(),
                value: "C3".to_owned().into_bytes(),
                timestamp: None,
            },
            Entry::KeyVal {
                key: "4".to_string().into_bytes(),
                value: "A4".to_string().into_bytes(),
                timestamp: None,
            },
            Entry::KeyVal {
                key: "5".to_string().into_bytes(),
                value: "B5".to_string().into_bytes(),
                timestamp: None,
            },
            Entry::Deleted { key: "6".to_owned().into_bytes(), timestamp: None },
        ]
    )
}

#[test]
fn a_level_without_files_yields_nothing() {
    let level = Level::new(10, None, None, None, Compression::Uncompressed).unwrap();
    let mut scanner = LevelScanner::new(&level).unwrap();
    assert_eq!(scanner.next(), None);
    assert_eq!(scanner.next(), None);
}

#[test]
fn a_level_with_one_file_yields_the_file() {
    let mut file = Writer::new();
    let entries: Vec<Entry> = (0..500u32)
        .map(|i| Entry::KeyVal { key: i.to_be_bytes().to_vec(), value: vec![1], timestamp: None })
        .collect();
    for entry in &entries {
        file.add(entry.clone()).unwrap();
    }
    let level = Level::new(3, None, Some(file.close().unwrap()), None, Compression::Uncompressed).unwrap();
    assert_eq!(collect(LevelScanner::new(&level).unwrap()), entries);
}
