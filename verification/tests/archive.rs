use jello::archive::{extract_archive, place_file, place_files, ExtractStep, FoundFile};
use std::io::{Cursor, Write};
use zip::write::SimpleFileOptions;
use zip::ZipWriter;

fn archive_of(files: &[(&str, &[u8])]) -> Vec<u8> {
    let mut w = ZipWriter::new(Cursor::new(Vec::new()));
    for (name, data) in files {
        if name.ends_with('/') {
            w.add_directory(*name, SimpleFileOptions::default()).unwrap();
        } else {
            w.start_file(*name, SimpleFileOptions::default()).unwrap();
            w.write_all(data).unwrap();
        }
    }
    w.finish().unwrap().into_inner()
}

fn described(steps: Vec<ExtractStep>) -> Vec<String> {
    steps
        .into_iter()
        .map(|s| match s {
            ExtractStep::MakeDir(name) => format!("dir {name}"),
            ExtractStep::WriteFile(name, data) => format!("file {name} {}", String::from_utf8(data).unwrap()),
        })
        .collect()
}

#[test]
fn archives_are_unpacked_in_order() {
    let bytes = archive_of(&[("background.js", b"{}"), ("img/", b""), ("img/a.txt", b"hello hello hello")]);
    assert_eq!(
        described(extract_archive(bytes).unwrap()),
        vec!["file background.js {}", "dir img/", "file img/a.txt hello hello hello"]
    );
    assert!(extract_archive(archive_of(&[])).unwrap().is_empty());
}

#[test]
fn names_that_lead_out_are_passed_over() {
    let bytes = archive_of(&[
        ("../out.txt", b"1"),
        ("a/../../out.txt", b"2"),
        ("/out.txt", b"3"),
        ("a/../in.txt", b"4"),
        ("./b//c.txt", b"5"),
        ("a/b/../../../x/../../y", b"6"),
    ]);
    assert_eq!(described(extract_archive(bytes).unwrap()), vec!["file a/../in.txt 4", "file ./b//c.txt 5"]);
}

#[test]
fn bytes_that_are_no_archive_are_refused() {
    let why = extract_archive(vec![1, 2, 3]).err().unwrap();
    assert!(why.starts_with("Invalid extension archive: "));
    assert!(why.len() > "Invalid extension archive: ".len());
}

#[test]
fn damaged_files_are_refused() {
    let mut bytes = archive_of(&[("a.txt", b"some text that is packed")]);
    let at = bytes.windows(5).position(|w| w == b"a.txt").unwrap() + 5;
    bytes[at + 2] ^= 0xFF;
    bytes[at + 3] ^= 0xFF;
    assert!(extract_archive(bytes).is_err());
}

#[test]
fn damage_in_what_is_passed_over_does_no_harm() {
    let mut bytes = archive_of(&[("../a.txt", b"some text that is packed"), ("b.txt", b"fine")]);
    let at = bytes.windows(8).position(|w| w == b"../a.txt").unwrap() + 8;
    bytes[at + 2] ^= 0xFF;
    bytes[at + 3] ^= 0xFF;
    assert_eq!(described(extract_archive(bytes).unwrap()), vec!["file b.txt fine"]);
}

fn file(name: &str, enclosed: bool, data: Result<&[u8], &str>) -> FoundFile {
    FoundFile {
        name: name.to_string(),
        enclosed,
        data: data.map(|d| d.to_vec()).map_err(|e| e.to_string()),
    }
}

#[test]
fn what_leads_out_is_passed_over_whatever_it_is_called() {
    for name in ["..\\..\\x.dll", "a.txt", "a/", "C:\\x"] {
        assert!(place_file(file(name, false, Ok(b"1"))).unwrap().is_none());
        assert!(place_file(file(name, false, Err("broken"))).unwrap().is_none());
    }
    for name in ["a/", "a\\"] {
        let step = place_file(file(name, true, Err("broken"))).unwrap().unwrap();
        assert_eq!(described(vec![step]), vec![format!("dir {name}")]);
    }
    let step = place_file(file("a\\b.txt", true, Ok(b"1"))).unwrap().unwrap();
    assert_eq!(described(vec![step]), vec!["file a\\b.txt 1"]);
    assert_eq!(place_file(file("a.txt", true, Err("broken"))).err().unwrap(), "broken");
}

#[test]
fn the_first_failure_is_told() {
    let fine = vec![Ok(file("a/", true, Ok(b""))), Ok(file("../b", false, Err("unread"))), Ok(file("c", true, Ok(b"2")))];
    assert_eq!(described(place_files(fine).unwrap()), vec!["dir a/", "file c 2"]);
    let unread = vec![Ok(file("a", true, Err("first"))), Err("second".to_string())];
    assert_eq!(place_files(unread).err().unwrap(), "first");
    let unopened = vec![Ok(file("a", true, Ok(b"1"))), Err("second".to_string()), Ok(file("b", true, Err("third")))];
    assert_eq!(place_files(unopened).err().unwrap(), "second");
    assert!(place_files(vec![]).unwrap().is_empty());
}
