use std::io::Write;
use tika_magic::compile::compile;
use tika_magic::document::{Magic, Match, MimeType, Offset};
use tika_magic::ole_inspect::OleSpecialHandler;
use tika_magic::zip_inspect::ZipSpecialHandler;
use tika_magic::{from_u8, match_u8};
use zip::write::SimpleFileOptions;

fn zip_with_entries(entries: &[(&str, &[u8])]) -> Vec<u8> {
    let mut cursor = std::io::Cursor::new(Vec::new());
    {
        let mut writer = zip::ZipWriter::new(&mut cursor);
        for (name, content) in entries {
            writer
                .start_file::<_, ()>(name.to_string(), SimpleFileOptions::default())
                .unwrap();
            writer.write_all(content).unwrap();
        }
        writer.finish().unwrap();
    }
    cursor.into_inner()
}

fn simple_type(mime: &str, priority: u32, value: &str) -> MimeType {
    MimeType {
        mime_type: mime.to_string(),
        globs: vec![],
        magics: vec![Magic {
            priority,
            matches: vec![Match {
                value: Some(value.to_string()),
                match_type: "string".to_string(),
                offset: Some(Offset::Start(0)),
                mask: None,
                sub_matches: vec![],
            }],
        }],
        aliases: vec![],
        sub_classes: vec![],
        root_xml: vec![],
    }
}

#[test]
fn bare_zip_magic_is_generic_zip() {
    let reg = compile(&vec![simple_type("application/zip", 50, "PK\\003\\004")]).unwrap();
    // the local-file-header magic with no real structure behind it
    assert_eq!(from_u8(&reg, b"PK\x03\x04 with no further structure"), "application/zip");
}

#[test]
fn word_directory_wins_over_generic_zip() {
    let word = "application/vnd.openxmlformats-officedocument.wordprocessingml.document";
    let reg = compile(&vec![
        simple_type("application/zip", 50, "PK\\003\\004"),
        simple_type(word, 50, "PK\\003\\004"),
    ])
    .unwrap();
    let bytes = zip_with_entries(&[("word/document.xml", b"<doc/>"), ("other.txt", b"x")]);
    assert_eq!(
        from_u8(&reg, &bytes),
        "application/vnd.openxmlformats-officedocument.wordprocessingml.document"
    );
    // the container verdict also drives the exact-type check, for a
    // registered mime
    assert!(match_u8(&reg, word, &bytes));
    assert!(!match_u8(&reg, "application/zip", &bytes));
    // a string registered nowhere never matches, even when it equals
    // the inspector's verdict
    let bare = compile(&vec![simple_type("application/zip", 50, "PK\\003\\004")]).unwrap();
    assert!(!match_u8(&bare, word, &bytes));
}

#[test]
fn spreadsheet_and_presentation_directories() {
    let reg = compile(&vec![simple_type("application/zip", 50, "PK\\003\\004")]).unwrap();
    let xl = zip_with_entries(&[("xl/workbook.xml", b"<x/>")]);
    assert_eq!(from_u8(&reg, &xl), "application/vnd.openxmlformats-officedocument.spreadsheetml.sheet");
    let ppt = zip_with_entries(&[("ppt/slides.xml", b"<x/>")]);
    assert_eq!(
        from_u8(&reg, &ppt),
        "application/vnd.openxmlformats-officedocument.presentationml.presentation"
    );
    let apk = zip_with_entries(&[("AndroidManifest.xml", b"<x/>")]);
    assert_eq!(from_u8(&reg, &apk), "application/vnd.android.package-archive");
}

#[test]
fn mimetype_entry_resolves_through_the_registry() {
    let mut epub = simple_type("application/epub+zip", 50, "PK\\003\\004");
    epub.aliases = vec![];
    let reg = compile(&vec![simple_type("application/zip", 50, "PK\\003\\004"), epub]).unwrap();
    let bytes = zip_with_entries(&[("mimetype", b"application/epub+zip\n")]);
    assert_eq!(from_u8(&reg, &bytes), "application/epub+zip");
    // an unregistered mimetype entry falls through to the other rules,
    // then to the generic signature
    let bytes = zip_with_entries(&[("mimetype", b"application/x-unknown-package")]);
    assert_eq!(from_u8(&reg, &bytes), "application/zip");
}

#[test]
fn keynote_marker() {
    let reg = compile(&vec![simple_type("application/zip", 50, "PK\\003\\004")]).unwrap();
    let bytes = zip_with_entries(&[("index.apxl", b"<key:presentation xmlns:key=\"x\"/>")]);
    assert_eq!(from_u8(&reg, &bytes), "application/vnd.apple.keynote");
}

#[test]
fn sun_office_manifest() {
    let reg = compile(&vec![simple_type("application/zip", 50, "PK\\003\\004")]).unwrap();
    let manifest = b"<manifest media-type=\"application/vnd.sun.xml.calc\"/>";
    let bytes = zip_with_entries(&[("META-INF/manifest.xml", manifest as &[u8])]);
    assert_eq!(from_u8(&reg, &bytes), "application/vnd.sun.xml.calc");
}

/// A minimal compound file: a 512-byte header, one allocation sector
/// and one directory sector naming a single stream.
fn ole_with_stream(name: &str) -> Vec<u8> {
    let mut out = vec![0u8; 1536];
    // header
    out[0..8].copy_from_slice(&[0xD0, 0xCF, 0x11, 0xE0, 0xA1, 0xB1, 0x1A, 0xE1]);
    out[24..26].copy_from_slice(&0x003Eu16.to_le_bytes());
    out[26..28].copy_from_slice(&0x0003u16.to_le_bytes());
    out[28..30].copy_from_slice(&[0xFE, 0xFF]);
    out[30..32].copy_from_slice(&9u16.to_le_bytes());
    out[32..34].copy_from_slice(&6u16.to_le_bytes());
    out[44..48].copy_from_slice(&1u32.to_le_bytes()); // one allocation sector
    out[48..52].copy_from_slice(&1u32.to_le_bytes()); // directory at sector 1
    out[56..60].copy_from_slice(&4096u32.to_le_bytes());
    out[60..64].copy_from_slice(&0xFFFF_FFFEu32.to_le_bytes());
    out[64..68].copy_from_slice(&0u32.to_le_bytes());
    out[68..72].copy_from_slice(&0xFFFF_FFFEu32.to_le_bytes());
    out[72..76].copy_from_slice(&0u32.to_le_bytes());
    out[76..80].copy_from_slice(&0u32.to_le_bytes()); // allocation table at sector 0
    for k in 0..108 {
        let at = 80 + 4 * k;
        out[at..at + 4].copy_from_slice(&0xFFFF_FFFFu32.to_le_bytes());
    }
    // sector 0: the allocation table
    out[512..516].copy_from_slice(&0xFFFF_FFFDu32.to_le_bytes());
    out[516..520].copy_from_slice(&0xFFFF_FFFEu32.to_le_bytes());
    for k in 2..128 {
        let at = 512 + 4 * k;
        out[at..at + 4].copy_from_slice(&0xFFFF_FFFFu32.to_le_bytes());
    }
    // sector 1: the directory
    let dir = 1024;
    write_dir_entry(&mut out, dir, "Root Entry", 5, 1);
    write_dir_entry(&mut out, dir + 128, name, 2, 0xFFFF_FFFF);
    out
}

fn write_dir_entry(out: &mut [u8], at: usize, name: &str, entry_type: u8, child: u32) {
    for (k, b) in name.bytes().enumerate() {
        out[at + 2 * k] = b;
    }
    let name_len = (2 * name.len() + 2) as u16;
    out[at + 64..at + 66].copy_from_slice(&name_len.to_le_bytes());
    out[at + 66] = entry_type;
    out[at + 67] = 1;
    out[at + 68..at + 72].copy_from_slice(&0xFFFF_FFFFu32.to_le_bytes());
    out[at + 72..at + 76].copy_from_slice(&0xFFFF_FFFFu32.to_le_bytes());
    out[at + 76..at + 80].copy_from_slice(&child.to_le_bytes());
    out[at + 116..at + 120].copy_from_slice(&0xFFFF_FFFEu32.to_le_bytes());
}

#[test]
fn ole_word_document_stream() {
    let reg = compile(&vec![simple_type("application/zip", 50, "PK\\003\\004")]).unwrap();
    let bytes = ole_with_stream("WordDocument");
    assert_eq!(from_u8(&reg, &bytes), "application/msword");
    // the table consults the lower-cased name
    let bytes = ole_with_stream("WORKBOOK");
    assert_eq!(from_u8(&reg, &bytes), "application/vnd.ms-excel");
    let bytes = ole_with_stream("__substg1.0_001A001F");
    assert_eq!(from_u8(&reg, &bytes), "application/vnd.ms-outlook");
}

#[test]
fn ole_magic_without_structure_yields_nothing() {
    let handler = OleSpecialHandler;
    assert_eq!(handler.check(b"\xD0\xCF\x11\xE0\xA1\xB1\x1A\xE1 and nothing else"), None);
    assert_eq!(handler.check(b"not ole at all"), None);
}

#[test]
fn ole_malformed_structure_yields_nothing() {
    let handler = OleSpecialHandler;
    // a directory chain that loops on itself is cut off, not followed
    // forever
    let mut cyclic = ole_with_stream("WordDocument");
    cyclic[512 + 4..512 + 8].copy_from_slice(&1u32.to_le_bytes());
    assert_eq!(handler.check(&cyclic), None);
    // a chain id outside the allocation table yields nothing instead
    // of a fault
    let mut wild = ole_with_stream("WordDocument");
    wild[48..52].copy_from_slice(&0xFFFF_0000u32.to_le_bytes());
    assert_eq!(handler.check(&wild), None);
    // a directory sector beyond the buffer yields nothing
    let mut short = ole_with_stream("WordDocument");
    short.truncate(1024);
    assert_eq!(handler.check(&short), None);
    // an entry with an unknown type byte makes the directory unreadable
    let mut bad = ole_with_stream("WordDocument");
    bad[1024 + 66] = 9;
    assert_eq!(handler.check(&bad), None);
}

#[test]
fn zip_handler_direct() {
    let reg = compile(&vec![simple_type("application/zip", 50, "PK\\003\\004")]).unwrap();
    let handler = ZipSpecialHandler;
    let bytes = zip_with_entries(&[("word/x.xml", b"<x/>")]);
    assert_eq!(
        handler.check(&reg, &bytes).as_deref(),
        Some("application/vnd.openxmlformats-officedocument.wordprocessingml.document")
    );
    assert_eq!(handler.check(&reg, b"PK\x03\x04broken"), None);
    assert_eq!(handler.check(&reg, b"not a zip"), None);
}
