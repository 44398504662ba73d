use codebrief::binary::{is_binary_content, is_binary_file, is_binary_file_by_extension};
use codebrief::escape::{escape, unescape};
use codebrief::payload::{select_files, serialize_files, FileEntry, IngestError, IngestedFile};

fn file(path: &str, content: &[u8]) -> IngestedFile {
    IngestedFile { path: path.to_string(), content: Some(content.to_vec()) }
}

#[test]
fn test_is_binary_file() {
    let text_file_path = format!("{}/test.txt", "test_binary_dir");
    let binary_file_path = format!("{}/test.png", "test_binary_dir");
    let text = b"This is a test file.\n";
    let png = [0x89, 0x50, 0x4E, 0x47, 0x0D, 0x0A, 0x1A, 0x0A];
    assert!(!is_binary_file(&text_file_path, Some(text)));
    assert!(is_binary_file(&binary_file_path, Some(&png)));
}

#[test]
fn test_get_tracked_files() {
    let entries = vec![
        FileEntry { path: "test_tracked_dir".to_string(), is_file: false },
        FileEntry { path: "test_tracked_dir/test.txt".to_string(), is_file: true },
    ];
    let files = select_files(&entries);
    assert!(!files.is_empty());
    assert!(files.iter().any(|f| f.contains("test.txt")));
}

#[test]
fn test_get_files_content() {
    let test_file_path = format!("{}/test.txt", "test_content_dir");
    let test_content = "Hello, World!";
    let result = serialize_files(&vec![file(&test_file_path, test_content.as_bytes())]);
    assert!(result.is_ok());
    let content = result.unwrap();
    assert!(content.contains(&test_file_path));
    assert!(content.contains(test_content));
}

#[test]
fn magic_numbers_make_a_file_binary_whatever_its_name() {
    let magics: [&[u8]; 4] = [
        &[0xFF, 0xD8, 0xFF],
        &[0x89, b'P', b'N', b'G', 0x0D, 0x0A, 0x1A, 0x0A],
        b"GIF87a",
        b"GIF89a",
    ];
    for m in magics {
        let mut data = m.to_vec();
        data.extend_from_slice(b" trailing text");
        assert!(is_binary_file("notes.txt", Some(&data)));
        assert!(is_binary_file("README", Some(m)));
        assert!(is_binary_content(&data));
    }
    assert!(!is_binary_content(b"GIF88a"));
    assert!(!is_binary_content(&[0xFF, 0xD8]));
}

#[test]
fn png_name_alone_makes_a_file_binary() {
    assert!(is_binary_file("x.png", Some(b"plain words, no zero byte")));
    assert!(is_binary_file("x.png", None));
    assert!(is_binary_file_by_extension("x.png"));
}

#[test]
fn extension_signal_details() {
    assert!(is_binary_file_by_extension("PHOTO.JPG"));
    assert!(is_binary_file_by_extension("a/b.c/tool.Exe"));
    assert!(is_binary_file_by_extension("scan.jpeg"));
    assert!(!is_binary_file_by_extension("png"));
    assert!(!is_binary_file_by_extension("Makefile"));
    assert!(!is_binary_file_by_extension("image.png.txt"));
    assert!(!is_binary_file_by_extension("archive.pngx"));
    assert!(!is_binary_file("main.rs", None));
}

#[test]
fn zero_byte_counts_only_in_the_first_kilobyte() {
    let mut early = vec![b'a'; 2000];
    early[1023] = 0;
    assert!(is_binary_file("data.txt", Some(&early)));
    let mut late = vec![b'a'; 2000];
    late[1024] = 0;
    assert!(!is_binary_file("data.txt", Some(&late)));
}

#[test]
fn hidden_files_are_collected_and_every_record_reads_back() {
    let entries = vec![
        FileEntry { path: "root".to_string(), is_file: false },
        FileEntry { path: "root/a.txt".to_string(), is_file: true },
        FileEntry { path: "root/.hidden.txt".to_string(), is_file: true },
    ];
    let paths = select_files(&entries);
    assert_eq!(paths, vec!["root/a.txt".to_string(), "root/.hidden.txt".to_string()]);
    let files = vec![file("root/a.txt", b"hello"), file("root/.hidden.txt", b"secret")];
    let payload = serialize_files(&files).unwrap();
    let records: Vec<&str> = payload.split('\n').collect();
    assert_eq!(records.len(), 2);
    let expected = [("root/a.txt", "hello"), ("root/.hidden.txt", "secret")];
    for (record, (path, content)) in records.iter().zip(expected) {
        let (p, e) = record.split_once('\t').unwrap();
        assert_eq!(p, path);
        assert_eq!(unescape(e), Some(content.to_string()));
    }
}

#[test]
fn only_binary_files_give_no_readable_files() {
    let result = serialize_files(&vec![file("dir/logo.png", b"not really an image")]);
    assert_eq!(result, Err(IngestError::NoReadableFiles));
    assert_eq!(serialize_files(&vec![]), Err(IngestError::NoReadableFiles));
}

#[test]
fn unreadable_and_non_utf8_files_are_skipped() {
    let files = vec![
        IngestedFile { path: "gone.txt".to_string(), content: None },
        file("latin1.txt", &[0x63, 0x61, 0x66, 0xE9]),
        file("ok.txt", b"fine"),
    ];
    assert_eq!(serialize_files(&files).unwrap(), "ok.txt\t\\\"fine\\\"");
    let none_left = vec![IngestedFile { path: "gone.txt".to_string(), content: None }];
    assert_eq!(serialize_files(&none_left), Err(IngestError::NoReadableFiles));
}

#[test]
fn escape_exact_values() {
    assert_eq!(escape("a\tb\nc"), r#"\"a\\tb\\nc\""#);
    assert_eq!(escape(""), r#"\"\""#);
    assert_eq!(escape("\u{1}"), r#"\"\\u0001\""#);
    assert_eq!(escape("say \"hi\" \\"), r#"\"say \\\"hi\\\" \\\\\""#);
    assert_eq!(escape("é"), r#"\"é\""#);
}

#[test]
fn escape_has_no_newline_or_tab_and_round_trips() {
    let samples = ["", "plain", "tab\there", "line\nbreak\r\n", "\u{0}\u{1f}\u{7f}", "日本語 ü", "\\\"/"];
    for s in samples {
        let e = escape(s);
        assert!(!e.contains('\n') && !e.contains('\t'));
        assert_eq!(unescape(&e), Some(s.to_string()));
    }
}

#[test]
fn unescape_rejects_what_escape_never_writes() {
    assert_eq!(unescape("\\x"), None);
    assert_eq!(unescape("plain"), None);
    assert_eq!(unescape("\\\"\\u12\\\""), None);
}
