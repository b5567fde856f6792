use std::io::{Cursor, Write};

use docmill::input::{extension_format, zip_format, DetectedSource, InputError, InputFormat};

fn from_bytes(name: &str, bytes: Vec<u8>) -> Result<DetectedSource, InputError> {
    DetectedSource::from_bytes(name, bytes)
}

fn archive(entries: &[(&str, &[u8])]) -> Vec<u8> {
    let mut out = Cursor::new(Vec::new());
    {
        let mut writer = zip::ZipWriter::new(&mut out);
        let options: zip::write::FileOptions<'_, ()> = zip::write::FileOptions::default();
        for (name, body) in entries {
            writer.start_file(*name, options).unwrap();
            writer.write_all(body).unwrap();
        }
        writer.finish().unwrap();
    }
    out.into_inner()
}

#[test]
fn content_wins_over_extension() {
    let src = from_bytes("wrong.pdf", br"{\rtf1 hello}".to_vec()).unwrap();
    assert_eq!(src.format, InputFormat::Rtf);
    assert!(src.warning.is_some());
}

#[test]
fn extension_fallback_handles_new_formats() {
    assert_eq!(from_bytes("empty.RTF", Vec::new()).unwrap().format, InputFormat::Rtf);
    assert_eq!(from_bytes("empty.xlsb", Vec::new()).unwrap().format, InputFormat::Xlsx);
}

#[test]
fn image_magic_needs_no_extension() {
    let src = from_bytes("upload", b"\x89PNG\r\n\x1a\nrest".to_vec()).unwrap();
    assert_eq!(src.format, InputFormat::Image);
}

#[test]
fn opc_main_parts_are_detected_without_extensions() {
    let bytes = archive(&[("[Content_Types].xml", b"<Types/>"), ("xl/workbook.bin", b"workbook")]);
    let source = from_bytes("upload", bytes).unwrap();
    assert_eq!(source.format, InputFormat::Xlsx);
}

#[test]
fn archives_are_told_apart_by_their_entries() {
    let format = |entries: &[(&str, &[u8])]| {
        from_bytes("upload", archive(entries)).ok().map(|s| s.format)
    };
    assert_eq!(format(&[("word/document.xml", b"")]), Some(InputFormat::Docx));
    assert_eq!(format(&[("PPT\\presentation.xml", b"")]), Some(InputFormat::Pptx));
    assert_eq!(format(&[("xl/workbook.xml", b"")]), Some(InputFormat::Xlsx));
    assert_eq!(
        format(&[("document.xml", b""), ("[Content_Types].xml", b"")]),
        Some(InputFormat::Dclx)
    );
    assert_eq!(format(&[("META-INF/container.xml", b"")]), Some(InputFormat::Epub));
    assert_eq!(
        format(&[("mimetype", b" application/vnd.oasis.opendocument.text\n")]),
        Some(InputFormat::Odt)
    );
    assert_eq!(format(&[("mimetype", b"application/epub+zip")]), Some(InputFormat::Epub));
    assert_eq!(format(&[("mimetype", b"text/plain")]), None);
    assert_eq!(format(&[("readme", b"")]), None);
    let mut long = b"application/vnd.oasis.opendocument.spreadsheet".to_vec();
    long.resize(256, b' ');
    long.extend_from_slice(b"more");
    assert_eq!(format(&[("mimetype", &long)]), Some(InputFormat::Ods));
}

#[test]
fn broken_archives_fall_back_to_the_extension() {
    let source = from_bytes("a.docx", b"PK\x03\x04garbage".to_vec()).unwrap();
    assert_eq!(source.format, InputFormat::Docx);
    assert_eq!(source.warning, None);
}

#[test]
fn entry_names_decide_in_order() {
    let names = |all: &[&str]| all.iter().map(|s| s.to_string()).collect::<Vec<_>>();
    let both = names(&["ppt/presentation.xml", "word/document.xml"]);
    assert_eq!(zip_format(&both, &None), Some(InputFormat::Docx));
    assert_eq!(zip_format(&names(&["mimetype"]), &None), None);
    assert_eq!(
        zip_format(
            &names(&["mimetype"]),
            &Some("application/vnd.oasis.opendocument.presentation".to_string())
        ),
        Some(InputFormat::Odp)
    );
}

#[test]
fn signatures_of_pictures_and_texts() {
    let format = |b: &[u8]| from_bytes("upload", b.to_vec()).ok().map(|s| s.format);
    for picture in [
        &b"\xff\xd8\xffrest"[..],
        b"GIF87a",
        b"GIF89a",
        b"BM",
        b"II*\0",
        b"MM\0*",
        b"RIFF1234WEBP",
    ] {
        assert_eq!(format(picture), Some(InputFormat::Image), "{picture:?}");
    }
    assert_eq!(format(b"RIFF1234WAVE"), None);
    assert_eq!(format(b"%PDF-1.7"), Some(InputFormat::Pdf));
    assert_eq!(format(b"\xef\xbb\xbf \r\n\t\x0c{\\rtf1}"), Some(InputFormat::Rtf));
    assert_eq!(format(b"\x0b{\\rtf1}"), None);
}

#[test]
fn warnings_and_errors_are_worded() {
    let src = from_bytes("wrong.pdf", br"{\rtf1 hello}".to_vec()).unwrap();
    assert_eq!(
        src.warning.as_deref(),
        Some("content identifies rtf but filename suggests pdf; using content")
    );
    assert_eq!(src.name, "wrong.pdf");
    assert_eq!(src.bytes, br"{\rtf1 hello}");
    let error = from_bytes("odd \"name\"", Vec::new()).unwrap_err();
    assert_eq!(error.message(), "unsupported input format for \"odd \\\"name\\\"\"");
    let error = InputError::Io { name: "f".to_string(), source: "gone".to_string() };
    assert_eq!(error.message(), "reading f: gone");
}

#[test]
fn every_format_is_known_by_its_identifier() {
    let mut known = 0;
    for ext in [
        "docx", "pptx", "html", "png", "pdf", "adoc", "md", "csv", "xlsx", "doc", "xls", "ppt",
        "odt", "ods", "odp", "xml", "dclg", "doctags", "dclx", "json", "wav", "mp4", "vtt", "ebc",
        "tex", "eml", "epub", "mhtml", "rtf", "vsdx", "svg", "pages", "numbers", "key", "abw",
        "wpd", "wps", "dbf", "dif", "slk", "wk1", "wq1", "sdw", "djvu", "TXT",
    ] {
        let format = docling::InputFormat::from_extension(ext).unwrap();
        let own = extension_format(&format!("dir.x/file.{ext}")).unwrap();
        assert_eq!(own.as_str(), format.as_str());
        assert_eq!(InputFormat::named(own.as_str()), Some(own));
        known += 1;
    }
    assert_eq!(known, 45);
    for name in ["xml_uspto", "xml_xbrl", "mets_gbs"] {
        assert_eq!(InputFormat::named(name).unwrap().as_str(), name);
    }
    assert_eq!(extension_format("file.log"), None);
    assert_eq!(extension_format("pdf"), None);
    assert_eq!(InputFormat::named("log"), None);
}
