//! Content-first detection of an input's format.

use std::io::{Cursor, Read};

use vstd::prelude::*;
use zip::ZipArchive;

use crate::bytes;
use crate::paths;
use crate::text;

verus! {

broadcast use vstd::string::group_string_axioms;

/// The formats that the document converter reads.
#[derive(Debug, Clone, Copy, PartialEq, Eq, Structural)]
pub enum InputFormat {
    Docx,
    Pptx,
    Html,
    Image,
    Pdf,
    Asciidoc,
    Md,
    Csv,
    Xlsx,
    Doc,
    Xls,
    Ppt,
    Odt,
    Ods,
    Odp,
    XmlUspto,
    XmlJats,
    XmlXbrl,
    XmlDoclang,
    DocTags,
    Dclx,
    MetsGbs,
    JsonDocling,
    Audio,
    Video,
    Vtt,
    Ebcdic,
    Latex,
    Email,
    Epub,
    Mhtml,
    Rtf,
    Visio,
    Svg,
    Pages,
    Numbers,
    Keynote,
    Abiword,
    WordPerfect,
    Works,
    Dbf,
    Dif,
    Sylk,
    Lotus,
    QuattroPro,
    StarOffice5,
    Djvu,
}

impl InputFormat {
    /// The format's stable identifier.
    pub open spec fn name(self) -> Seq<char> {
        match self {
            InputFormat::Docx => "docx"@,
            InputFormat::Pptx => "pptx"@,
            InputFormat::Html => "html"@,
            InputFormat::Image => "image"@,
            InputFormat::Pdf => "pdf"@,
            InputFormat::Asciidoc => "asciidoc"@,
            InputFormat::Md => "md"@,
            InputFormat::Csv => "csv"@,
            InputFormat::Xlsx => "xlsx"@,
            InputFormat::Doc => "doc"@,
            InputFormat::Xls => "xls"@,
            InputFormat::Ppt => "ppt"@,
            InputFormat::Odt => "odt"@,
            InputFormat::Ods => "ods"@,
            InputFormat::Odp => "odp"@,
            InputFormat::XmlUspto => "xml_uspto"@,
            InputFormat::XmlJats => "xml_jats"@,
            InputFormat::XmlXbrl => "xml_xbrl"@,
            InputFormat::XmlDoclang => "xml_doclang"@,
            InputFormat::DocTags => "doctags"@,
            InputFormat::Dclx => "dclx"@,
            InputFormat::MetsGbs => "mets_gbs"@,
            InputFormat::JsonDocling => "json_docling"@,
            InputFormat::Audio => "audio"@,
            InputFormat::Video => "video"@,
            InputFormat::Vtt => "vtt"@,
            InputFormat::Ebcdic => "ebc"@,
            InputFormat::Latex => "latex"@,
            InputFormat::Email => "email"@,
            InputFormat::Epub => "epub"@,
            InputFormat::Mhtml => "mhtml"@,
            InputFormat::Rtf => "rtf"@,
            InputFormat::Visio => "visio"@,
            InputFormat::Svg => "svg"@,
            InputFormat::Pages => "pages"@,
            InputFormat::Numbers => "numbers"@,
            InputFormat::Keynote => "key"@,
            InputFormat::Abiword => "abiword"@,
            InputFormat::WordPerfect => "wordperfect"@,
            InputFormat::Works => "works"@,
            InputFormat::Dbf => "dbf"@,
            InputFormat::Dif => "dif"@,
            InputFormat::Sylk => "sylk"@,
            InputFormat::Lotus => "lotus"@,
            InputFormat::QuattroPro => "quattro"@,
            InputFormat::StarOffice5 => "staroffice5"@,
            InputFormat::Djvu => "djvu"@,
        }
    }

    /// The format's stable identifier.
    pub fn as_str(self) -> (r: &'static str)
        ensures
            r@ == self.name(),
    {
        match self {
            InputFormat::Docx => "docx",
            InputFormat::Pptx => "pptx",
            InputFormat::Html => "html",
            InputFormat::Image => "image",
            InputFormat::Pdf => "pdf",
            InputFormat::Asciidoc => "asciidoc",
            InputFormat::Md => "md",
            InputFormat::Csv => "csv",
            InputFormat::Xlsx => "xlsx",
            InputFormat::Doc => "doc",
            InputFormat::Xls => "xls",
            InputFormat::Ppt => "ppt",
            InputFormat::Odt => "odt",
            InputFormat::Ods => "ods",
            InputFormat::Odp => "odp",
            InputFormat::XmlUspto => "xml_uspto",
            InputFormat::XmlJats => "xml_jats",
            InputFormat::XmlXbrl => "xml_xbrl",
            InputFormat::XmlDoclang => "xml_doclang",
            InputFormat::DocTags => "doctags",
            InputFormat::Dclx => "dclx",
            InputFormat::MetsGbs => "mets_gbs",
            InputFormat::JsonDocling => "json_docling",
            InputFormat::Audio => "audio",
            InputFormat::Video => "video",
            InputFormat::Vtt => "vtt",
            InputFormat::Ebcdic => "ebc",
            InputFormat::Latex => "latex",
            InputFormat::Email => "email",
            InputFormat::Epub => "epub",
            InputFormat::Mhtml => "mhtml",
            InputFormat::Rtf => "rtf",
            InputFormat::Visio => "visio",
            InputFormat::Svg => "svg",
            InputFormat::Pages => "pages",
            InputFormat::Numbers => "numbers",
            InputFormat::Keynote => "key",
            InputFormat::Abiword => "abiword",
            InputFormat::WordPerfect => "wordperfect",
            InputFormat::Works => "works",
            InputFormat::Dbf => "dbf",
            InputFormat::Dif => "dif",
            InputFormat::Sylk => "sylk",
            InputFormat::Lotus => "lotus",
            InputFormat::QuattroPro => "quattro",
            InputFormat::StarOffice5 => "staroffice5",
            InputFormat::Djvu => "djvu",
        }
    }

    /// The format of an identifier.
    pub open spec fn of_name(name: Seq<char>) -> Option<InputFormat> {
        if name == "docx"@ {
            Some(InputFormat::Docx)
        } else if name == "pptx"@ {
            Some(InputFormat::Pptx)
        } else if name == "html"@ {
            Some(InputFormat::Html)
        } else if name == "image"@ {
            Some(InputFormat::Image)
        } else if name == "pdf"@ {
            Some(InputFormat::Pdf)
        } else if name == "asciidoc"@ {
            Some(InputFormat::Asciidoc)
        } else if name == "md"@ {
            Some(InputFormat::Md)
        } else if name == "csv"@ {
            Some(InputFormat::Csv)
        } else if name == "xlsx"@ {
            Some(InputFormat::Xlsx)
        } else if name == "doc"@ {
            Some(InputFormat::Doc)
        } else if name == "xls"@ {
            Some(InputFormat::Xls)
        } else if name == "ppt"@ {
            Some(InputFormat::Ppt)
        } else if name == "odt"@ {
            Some(InputFormat::Odt)
        } else if name == "ods"@ {
            Some(InputFormat::Ods)
        } else if name == "odp"@ {
            Some(InputFormat::Odp)
        } else if name == "xml_uspto"@ {
            Some(InputFormat::XmlUspto)
        } else if name == "xml_jats"@ {
            Some(InputFormat::XmlJats)
        } else if name == "xml_xbrl"@ {
            Some(InputFormat::XmlXbrl)
        } else if name == "xml_doclang"@ {
            Some(InputFormat::XmlDoclang)
        } else if name == "doctags"@ {
            Some(InputFormat::DocTags)
        } else if name == "dclx"@ {
            Some(InputFormat::Dclx)
        } else if name == "mets_gbs"@ {
            Some(InputFormat::MetsGbs)
        } else if name == "json_docling"@ {
            Some(InputFormat::JsonDocling)
        } else if name == "audio"@ {
            Some(InputFormat::Audio)
        } else if name == "video"@ {
            Some(InputFormat::Video)
        } else if name == "vtt"@ {
            Some(InputFormat::Vtt)
        } else if name == "ebc"@ {
            Some(InputFormat::Ebcdic)
        } else if name == "latex"@ {
            Some(InputFormat::Latex)
        } else if name == "email"@ {
            Some(InputFormat::Email)
        } else if name == "epub"@ {
            Some(InputFormat::Epub)
        } else if name == "mhtml"@ {
            Some(InputFormat::Mhtml)
        } else if name == "rtf"@ {
            Some(InputFormat::Rtf)
        } else if name == "visio"@ {
            Some(InputFormat::Visio)
        } else if name == "svg"@ {
            Some(InputFormat::Svg)
        } else if name == "pages"@ {
            Some(InputFormat::Pages)
        } else if name == "numbers"@ {
            Some(InputFormat::Numbers)
        } else if name == "key"@ {
            Some(InputFormat::Keynote)
        } else if name == "abiword"@ {
            Some(InputFormat::Abiword)
        } else if name == "wordperfect"@ {
            Some(InputFormat::WordPerfect)
        } else if name == "works"@ {
            Some(InputFormat::Works)
        } else if name == "dbf"@ {
            Some(InputFormat::Dbf)
        } else if name == "dif"@ {
            Some(InputFormat::Dif)
        } else if name == "sylk"@ {
            Some(InputFormat::Sylk)
        } else if name == "lotus"@ {
            Some(InputFormat::Lotus)
        } else if name == "quattro"@ {
            Some(InputFormat::QuattroPro)
        } else if name == "staroffice5"@ {
            Some(InputFormat::StarOffice5)
        } else if name == "djvu"@ {
            Some(InputFormat::Djvu)
        } else {
            None
        }
    }

    /// The format of an identifier.
    pub fn named(name: &str) -> (r: Option<InputFormat>)
        ensures
            r == InputFormat::of_name(name@),
    {
        if text::same(name, "docx") {
            Some(InputFormat::Docx)
        } else if text::same(name, "pptx") {
            Some(InputFormat::Pptx)
        } else if text::same(name, "html") {
            Some(InputFormat::Html)
        } else if text::same(name, "image") {
            Some(InputFormat::Image)
        } else if text::same(name, "pdf") {
            Some(InputFormat::Pdf)
        } else if text::same(name, "asciidoc") {
            Some(InputFormat::Asciidoc)
        } else if text::same(name, "md") {
            Some(InputFormat::Md)
        } else if text::same(name, "csv") {
            Some(InputFormat::Csv)
        } else if text::same(name, "xlsx") {
            Some(InputFormat::Xlsx)
        } else if text::same(name, "doc") {
            Some(InputFormat::Doc)
        } else if text::same(name, "xls") {
            Some(InputFormat::Xls)
        } else if text::same(name, "ppt") {
            Some(InputFormat::Ppt)
        } else if text::same(name, "odt") {
            Some(InputFormat::Odt)
        } else if text::same(name, "ods") {
            Some(InputFormat::Ods)
        } else if text::same(name, "odp") {
            Some(InputFormat::Odp)
        } else if text::same(name, "xml_uspto") {
            Some(InputFormat::XmlUspto)
        } else if text::same(name, "xml_jats") {
            Some(InputFormat::XmlJats)
        } else if text::same(name, "xml_xbrl") {
            Some(InputFormat::XmlXbrl)
        } else if text::same(name, "xml_doclang") {
            Some(InputFormat::XmlDoclang)
        } else if text::same(name, "doctags") {
            Some(InputFormat::DocTags)
        } else if text::same(name, "dclx") {
            Some(InputFormat::Dclx)
        } else if text::same(name, "mets_gbs") {
            Some(InputFormat::MetsGbs)
        } else if text::same(name, "json_docling") {
            Some(InputFormat::JsonDocling)
        } else if text::same(name, "audio") {
            Some(InputFormat::Audio)
        } else if text::same(name, "video") {
            Some(InputFormat::Video)
        } else if text::same(name, "vtt") {
            Some(InputFormat::Vtt)
        } else if text::same(name, "ebc") {
            Some(InputFormat::Ebcdic)
        } else if text::same(name, "latex") {
            Some(InputFormat::Latex)
        } else if text::same(name, "email") {
            Some(InputFormat::Email)
        } else if text::same(name, "epub") {
            Some(InputFormat::Epub)
        } else if text::same(name, "mhtml") {
            Some(InputFormat::Mhtml)
        } else if text::same(name, "rtf") {
            Some(InputFormat::Rtf)
        } else if text::same(name, "visio") {
            Some(InputFormat::Visio)
        } else if text::same(name, "svg") {
            Some(InputFormat::Svg)
        } else if text::same(name, "pages") {
            Some(InputFormat::Pages)
        } else if text::same(name, "numbers") {
            Some(InputFormat::Numbers)
        } else if text::same(name, "key") {
            Some(InputFormat::Keynote)
        } else if text::same(name, "abiword") {
            Some(InputFormat::Abiword)
        } else if text::same(name, "wordperfect") {
            Some(InputFormat::WordPerfect)
        } else if text::same(name, "works") {
            Some(InputFormat::Works)
        } else if text::same(name, "dbf") {
            Some(InputFormat::Dbf)
        } else if text::same(name, "dif") {
            Some(InputFormat::Dif)
        } else if text::same(name, "sylk") {
            Some(InputFormat::Sylk)
        } else if text::same(name, "lotus") {
            Some(InputFormat::Lotus)
        } else if text::same(name, "quattro") {
            Some(InputFormat::QuattroPro)
        } else if text::same(name, "staroffice5") {
            Some(InputFormat::StarOffice5)
        } else if text::same(name, "djvu") {
            Some(InputFormat::Djvu)
        } else {
            None
        }
    }
}

/// The identifier of the format that the converter's table has for an
/// extension.
pub uninterp spec fn extension_name(ext: Seq<char>) -> Option<Seq<char>>;

/// `docling::InputFormat::from_extension`, and the identifier that
/// `InputFormat::as_str` gives for its result. Both are tables.
#[verifier::external_body]
fn name_of_extension(ext: &str) -> (r: Option<String>)
    ensures
        text::opt_view(r) == extension_name(ext@),
{
    docling::InputFormat::from_extension(ext).map(|format| format.as_str().to_string())
}

/// The format that the extension of a file name suggests.
pub open spec fn suggested(name: Seq<char>) -> Option<InputFormat> {
    match paths::extension(name) {
        Some(ext) => match extension_name(ext) {
            Some(n) => InputFormat::of_name(n),
            None => None,
        },
        None => None,
    }
}

/// The format that the extension of a file name suggests.
pub fn extension_format(name: &str) -> (r: Option<InputFormat>)
    ensures
        r == suggested(name@),
{
    match paths::extension_of(name) {
        Some(ext) => match name_of_extension(&ext) {
            Some(n) => InputFormat::named(&n),
            None => None,
        },
        None => None,
    }
}

/// White space of ASCII: tab, line feed, form feed, carriage return, space.
pub open spec fn ascii_white(b: u8) -> bool {
    b == 9 || b == 10 || b == 12 || b == 13 || b == 32
}

/// Without the white space that starts it.
pub open spec fn past_white(s: Seq<u8>) -> Seq<u8>
    decreases s.len(),
{
    if s.len() > 0 && ascii_white(s[0]) {
        past_white(s.skip(1))
    } else {
        s
    }
}

/// Without the byte order mark that starts it.
pub open spec fn past_mark(s: Seq<u8>) -> Seq<u8> {
    if bytes::signed(s, "\u{ef}\u{bb}\u{bf}"@) {
        s.skip(3)
    } else {
        s
    }
}

/// The bytes start as one of the picture formats does.
pub open spec fn image_signature(s: Seq<u8>) -> bool {
    ||| bytes::signed(s, "\u{89}PNG\r\n\u{1a}\n"@)
    ||| bytes::signed(s, "\u{ff}\u{d8}\u{ff}"@)
    ||| bytes::signed(s, "GIF87a"@)
    ||| bytes::signed(s, "GIF89a"@)
    ||| bytes::signed(s, "II*\0"@)
    ||| bytes::signed(s, "MM\0*"@)
    ||| bytes::signed(s, "BM"@)
    ||| (s.len() >= 12 && bytes::signed(s, "RIFF"@) && bytes::signed(s.skip(8), "WEBP"@))
}

/// Whether the bytes start as one of the picture formats does.
pub fn is_image(content: &[u8]) -> (r: bool)
    ensures
        r == image_signature(content@),
{
    bytes::is_signed(content, "\u{89}PNG\r\n\u{1a}\n") || bytes::is_signed(
        content,
        "\u{ff}\u{d8}\u{ff}",
    ) || bytes::is_signed(content, "GIF87a") || bytes::is_signed(content, "GIF89a")
        || bytes::is_signed(content, "II*\0") || bytes::is_signed(content, "MM\0*")
        || bytes::is_signed(content, "BM") || (content.len() >= 12 && bytes::is_signed(
        content,
        "RIFF",
    ) && bytes::is_signed(vstd::slice::slice_subrange(content, 8, content.len()), "WEBP"))
}

#[verifier::external_type_specification]
#[verifier::external_body]
#[verifier::reject_recursive_types(T)]
pub struct ExCursor<T>(std::io::Cursor<T>);

#[verifier::external_type_specification]
#[verifier::external_body]
#[verifier::reject_recursive_types(R)]
pub struct ExZipArchive<R>(zip::ZipArchive<R>);

/// A ZIP archive as a reader sees it.
#[verifier::ext_equal]
pub struct Archive {
    /// The name of each entry that can be opened.
    pub entries: Seq<Option<Seq<char>>>,
    /// By the name of an entry and a number of bytes: the text that so many
    /// bytes at the entry's start spell, where it can be read and is UTF-8.
    pub starts: Map<(Seq<char>, u64), Seq<char>>,
}

/// What opening bytes as a ZIP archive gives.
pub uninterp spec fn zip_opened(content: Seq<u8>) -> Option<Archive>;

/// The entries of an open archive.
pub uninterp spec fn zip_entries(z: ZipArchive<Cursor<&[u8]>>) -> Seq<Option<Seq<char>>>;

/// The starts of the entries of an open archive.
pub uninterp spec fn zip_starts(z: ZipArchive<Cursor<&[u8]>>) -> Map<(Seq<char>, u64), Seq<char>>;

/// `ZipArchive::new` over the bytes. Whether they open, and what is then in
/// the archive, is a function of the bytes.
#[verifier::external_body]
fn open_zip<'a>(content: &'a [u8]) -> (r: Option<ZipArchive<Cursor<&'a [u8]>>>)
    ensures
        match r {
            Some(z) => zip_opened(content@) == Some(
                (Archive { entries: zip_entries(z), starts: zip_starts(z) }),
            ),
            None => zip_opened(content@) is None,
        },
{
    ZipArchive::new(Cursor::new(content)).ok()
}

/// `ZipArchive::len`: the number of entries.
#[verifier::external_body]
fn zip_len(z: &ZipArchive<Cursor<&[u8]>>) -> (r: usize)
    ensures
        r == zip_entries(*z).len(),
{
    z.len()
}

/// `ZipArchive::by_index` and the name of the entry that it opens. Opening
/// an entry leaves the archive as it is.
#[verifier::external_body]
fn zip_name(z: &mut ZipArchive<Cursor<&[u8]>>, i: usize) -> (r: Option<String>)
    requires
        i < zip_entries(*old(z)).len(),
    ensures
        text::opt_view(r) == zip_entries(*old(z))[i as int],
        zip_entries(*final(z)) == zip_entries(*old(z)),
        zip_starts(*final(z)) == zip_starts(*old(z)),
{
    z.by_index(i).ok().map(|file| file.name().to_string())
}

/// `ZipArchive::by_name`, reading the entry's first bytes as text. Reading
/// leaves the archive as it is.
#[verifier::external_body]
fn zip_start(z: &mut ZipArchive<Cursor<&[u8]>>, name: &str, limit: u64) -> (r: Option<String>)
    ensures
        text::opt_view(r) == start_of(zip_starts(*old(z)), name@, limit),
        zip_entries(*final(z)) == zip_entries(*old(z)),
        zip_starts(*final(z)) == zip_starts(*old(z)),
{
    let mut start = String::new();
    z.by_name(name).ok()?.take(limit).read_to_string(&mut start).ok()?;
    Some(start)
}

/// The start of an entry, where there is one.
pub open spec fn start_of(
    starts: Map<(Seq<char>, u64), Seq<char>>,
    name: Seq<char>,
    limit: u64,
) -> Option<Seq<char>> {
    if starts.dom().contains((name, limit)) {
        Some(starts[(name, limit)])
    } else {
        None
    }
}

/// An entry's name with `/` for `\\`, in lower case.
pub open spec fn entry_name(name: Seq<char>) -> Seq<char> {
    text::lowercase(name.map_values(|c: char| if c == '\\' { '/' } else { c }))
}

fn entry_name_of(name: &str) -> (r: Vec<char>)
    ensures
        r@ == entry_name(name@),
{
    let v = text::chars_of(name);
    let mut r: Vec<char> = Vec::new();
    let ghost slashed = |c: char| if c == '\\' { '/' } else { c };
    for i in 0..v.len()
        invariant
            r@ == v@.take(i as int).map_values(slashed),
            slashed == (|c: char| if c == '\\' { '/' } else { c }),
    {
        let c = v[i];
        r.push(if c == '\\' { '/' } else { c });
        assert(v@.take(i + 1) == v@.take(i as int).push(c));
    }
    assert(v@.take(v@.len() as int) == v@);
    text::lowered(&r)
}

/// An archive holds an entry of this name.
pub open spec fn holds(names: Seq<Seq<char>>, name: Seq<char>) -> bool {
    exists|i: int| 0 <= i < names.len() && entry_name(#[trigger] names[i]) == name
}

fn has_entry(names: &Vec<Vec<char>>, name: &str, Ghost(raw): Ghost<Seq<Seq<char>>>) -> (r: bool)
    requires
        names@.len() == raw.len(),
        forall|i: int| 0 <= i < raw.len() ==> (#[trigger] names@[i])@ == entry_name(raw[i]),
    ensures
        r == holds(raw, name@),
{
    for i in 0..names.len()
        invariant
            names@.len() == raw.len(),
            forall|i: int| 0 <= i < raw.len() ==> (#[trigger] names@[i])@ == entry_name(raw[i]),
            forall|k: int| 0 <= k < i ==> entry_name(#[trigger] raw[k]) != name@,
    {
        if text::same_chars(&names[i], name) {
            assert(entry_name(raw[i as int]) == name@);
            return true;
        }
        assert(names@[i as int]@ == entry_name(raw[i as int]));
    }
    false
}

/// The format of an archive by the names of its entries and the text at the
/// start of its entry `mimetype`.
pub open spec fn archive_format(names: Seq<Seq<char>>, mimetype: Option<Seq<char>>) -> Option<
    InputFormat,
> {
    if holds(names, "xl/workbook.bin"@) && holds(names, "[content_types].xml"@) {
        Some(InputFormat::Xlsx)
    } else if holds(names, "word/document.xml"@) {
        Some(InputFormat::Docx)
    } else if holds(names, "ppt/presentation.xml"@) {
        Some(InputFormat::Pptx)
    } else if holds(names, "xl/workbook.xml"@) {
        Some(InputFormat::Xlsx)
    } else if holds(names, "document.xml"@) && holds(names, "[content_types].xml"@) {
        Some(InputFormat::Dclx)
    } else if holds(names, "meta-inf/container.xml"@) {
        Some(InputFormat::Epub)
    } else if holds(names, "mimetype"@) {
        match mimetype {
            Some(m) => mime_format(text::trim(m)),
            None => None,
        }
    } else {
        None
    }
}

/// The format that a MIME type names.
pub open spec fn mime_format(m: Seq<char>) -> Option<InputFormat> {
    if m == "application/vnd.oasis.opendocument.text"@ {
        Some(InputFormat::Odt)
    } else if m == "application/vnd.oasis.opendocument.spreadsheet"@ {
        Some(InputFormat::Ods)
    } else if m == "application/vnd.oasis.opendocument.presentation"@ {
        Some(InputFormat::Odp)
    } else if m == "application/epub+zip"@ {
        Some(InputFormat::Epub)
    } else {
        None
    }
}

/// The format of an archive by the names of its entries and the text at the
/// start of its entry `mimetype`.
pub fn zip_format(names: &Vec<String>, mimetype: &Option<String>) -> (r: Option<InputFormat>)
    ensures
        r == archive_format(text::string_views(names@), text::opt_view(*mimetype)),
{
    let ghost raw = text::string_views(names@);
    let mut all: Vec<Vec<char>> = Vec::new();
    for i in 0..names.len()
        invariant
            raw == text::string_views(names@),
            all@.len() == i,
            forall|k: int| 0 <= k < i ==> (#[trigger] all@[k])@ == entry_name(raw[k]),
    {
        all.push(entry_name_of(&names[i]));
    }
    if has_entry(&all, "xl/workbook.bin", Ghost(raw)) && has_entry(
        &all,
        "[content_types].xml",
        Ghost(raw),
    ) {
        return Some(InputFormat::Xlsx);
    }
    if has_entry(&all, "word/document.xml", Ghost(raw)) {
        return Some(InputFormat::Docx);
    }
    if has_entry(&all, "ppt/presentation.xml", Ghost(raw)) {
        return Some(InputFormat::Pptx);
    }
    if has_entry(&all, "xl/workbook.xml", Ghost(raw)) {
        return Some(InputFormat::Xlsx);
    }
    if has_entry(&all, "document.xml", Ghost(raw)) && has_entry(
        &all,
        "[content_types].xml",
        Ghost(raw),
    ) {
        return Some(InputFormat::Dclx);
    }
    if has_entry(&all, "meta-inf/container.xml", Ghost(raw)) {
        return Some(InputFormat::Epub);
    }
    if !has_entry(&all, "mimetype", Ghost(raw)) {
        return None;
    }
    match mimetype {
        Some(m) => {
            let t = text::trim_str(m);
            if text::same(&t, "application/vnd.oasis.opendocument.text") {
                Some(InputFormat::Odt)
            } else if text::same(&t, "application/vnd.oasis.opendocument.spreadsheet") {
                Some(InputFormat::Ods)
            } else if text::same(&t, "application/vnd.oasis.opendocument.presentation") {
                Some(InputFormat::Odp)
            } else if text::same(&t, "application/epub+zip") {
                Some(InputFormat::Epub)
            } else {
                None
            }
        },
        None => None,
    }
}

/// Archives with more entries than this are not looked into.
pub const MAX_ENTRIES: usize = 10_000;

/// How many bytes of the entry `mimetype` count.
pub const MIMETYPE_BYTES: u64 = 256;

/// The names of entries that can all be opened.
pub open spec fn entry_names(entries: Seq<Option<Seq<char>>>) -> Seq<Seq<char>> {
    entries.map_values(|e: Option<Seq<char>>| e->0)
}

/// The format of bytes that open as an archive, by what is in it.
pub open spec fn opened_format(z: Option<Archive>) -> Option<InputFormat> {
    match z {
        Some(a) => if a.entries.len() > MAX_ENTRIES || exists|i: int|
            0 <= i < a.entries.len() && (#[trigger] a.entries[i]) is None {
            None
        } else {
            archive_format(
                entry_names(a.entries),
                start_of(a.starts, "mimetype"@, MIMETYPE_BYTES),
            )
        },
        None => None,
    }
}

/// The format of a ZIP archive. One that does not open, has too many
/// entries or an entry that cannot be opened has none.
pub fn detect_zip(content: &[u8]) -> (r: Option<InputFormat>)
    ensures
        r == opened_format(zip_opened(content@)),
{
    match open_zip(content) {
        Some(mut z) => {
            let n: usize = zip_len(&z);
            if n > MAX_ENTRIES {
                return None;
            }
            let ghost a = Archive { entries: zip_entries(z), starts: zip_starts(z) };
            let mut names: Vec<String> = Vec::new();
            for i in 0..n
                invariant
                    n == a.entries.len(),
                    n <= MAX_ENTRIES,
                    zip_opened(content@) == Some(a),
                    zip_entries(z) == a.entries,
                    zip_starts(z) == a.starts,
                    names@.len() == i,
                    forall|k: int|
                        0 <= k < i ==> (#[trigger] a.entries[k]) == Some(names@[k]@),
            {
                match zip_name(&mut z, i) {
                    Some(name) => names.push(name),
                    None => {
                        assert(a.entries[i as int] is None);
                        return None;
                    },
                }
            }
            let mimetype = zip_start(&mut z, "mimetype", MIMETYPE_BYTES);
            assert(text::string_views(names@) =~= entry_names(a.entries));
            zip_format(&names, &mimetype)
        },
        None => None,
    }
}

/// The format that the content's signature shows.
pub open spec fn content_of(s: Seq<u8>) -> Option<InputFormat> {
    if bytes::signed(past_white(past_mark(s)), "{\\rtf"@) {
        Some(InputFormat::Rtf)
    } else if bytes::signed(s, "%PDF-"@) {
        Some(InputFormat::Pdf)
    } else if image_signature(s) {
        Some(InputFormat::Image)
    } else if bytes::signed(s, "PK\u{3}\u{4}"@) || bytes::signed(s, "PK\u{5}\u{6}"@)
        || bytes::signed(s, "PK\u{7}\u{8}"@) {
        opened_format(zip_opened(s))
    } else {
        None
    }
}

/// The format that the content's signature shows.
pub fn content_format(content: &[u8]) -> (r: Option<InputFormat>)
    ensures
        r == content_of(content@),
{
    let mut at: usize = 0;
    if bytes::is_signed(content, "\u{ef}\u{bb}\u{bf}") {
        proof {
            reveal_strlit("\u{ef}\u{bb}\u{bf}");
        }
        at = 3;
    }
    let ghost head = past_mark(content@);
    assert(content@.skip(0) == content@);
    assert(head == content@.skip(at as int));
    while at < content.len() && (content[at] == 9 || content[at] == 10 || content[at] == 12
        || content[at] == 13 || content[at] == 32)
        invariant
            at <= content@.len(),
            past_white(head) == past_white(content@.skip(at as int)),
        decreases content@.len() - at,
    {
        assert(content@.skip(at as int).skip(1) == content@.skip(at + 1));
        at += 1;
    }
    let rest = vstd::slice::slice_subrange(content, at, content.len());
    assert(rest@ == content@.skip(at as int));
    if bytes::is_signed(rest, "{\\rtf") {
        return Some(InputFormat::Rtf);
    }
    if bytes::is_signed(content, "%PDF-") {
        return Some(InputFormat::Pdf);
    }
    if is_image(content) {
        return Some(InputFormat::Image);
    }
    if bytes::is_signed(content, "PK\u{3}\u{4}") || bytes::is_signed(content, "PK\u{5}\u{6}")
        || bytes::is_signed(content, "PK\u{7}\u{8}") {
        return detect_zip(content);
    }
    None
}

/// Why an input is not converted.
#[derive(Debug)]
pub enum InputError {
    /// It could not be read; `source` says why.
    Io { name: String, source: String },
    /// Neither its content nor its name shows a format.
    Unsupported { name: String },
}

impl InputError {
    /// The words of [`InputError::message`].
    pub open spec fn words(self) -> Seq<char> {
        match self {
            InputError::Io { name, source } => "reading "@ + name@ + ": "@ + source@,
            InputError::Unsupported { name } => "unsupported input format for "@ + text::str_debug(
                name@,
            ),
        }
    }

    /// The error in words.
    pub fn message(&self) -> (r: String)
        ensures
            r@ == self.words(),
    {
        match self {
            InputError::Io { name, source } => {
                let mut v = text::chars_of("reading ");
                text::append_str(&mut v, name);
                text::append_str(&mut v, ": ");
                text::append_str(&mut v, source);
                text::string_of(&v)
            },
            InputError::Unsupported { name } => {
                let mut v = text::chars_of("unsupported input format for ");
                text::append_str(&mut v, &text::debug_quoted(name));
                text::string_of(&v)
            },
        }
    }
}

/// An input with its format.
#[derive(Debug)]
pub struct DetectedSource {
    pub name: String,
    pub bytes: Vec<u8>,
    pub format: InputFormat,
    /// Present when the content's signature overrode the file name's extension.
    pub warning: Option<String>,
}

/// What the content shows goes before what the name suggests.
pub open spec fn chosen(content: Option<InputFormat>, hint: Option<InputFormat>) -> Option<
    InputFormat,
> {
    match content {
        Some(format) => Some(format),
        None => hint,
    }
}

/// The warning about a name that suggests another format than the content.
pub open spec fn mismatch(content: Option<InputFormat>, hint: Option<InputFormat>) -> Option<
    Seq<char>,
> {
    match (content, hint) {
        (Some(actual), Some(other)) => if actual != other {
            Some(
                "content identifies "@ + actual.name() + " but filename suggests "@ + other.name()
                    + "; using content"@,
            )
        } else {
            None
        },
        _ => None,
    }
}

impl DetectedSource {
    /// Detect the format of a file by its content, then by the extension of
    /// its name.
    pub fn from_bytes(name: &str, content: Vec<u8>) -> (r: Result<
        DetectedSource,
        InputError,
    >)
        ensures
            match r {
                Ok(d) => d.name@ == name@ && d.bytes@ == content@ && Some(d.format) == chosen(
                    content_of(content@),
                    suggested(name@),
                ) && text::opt_view(d.warning) == mismatch(content_of(content@), suggested(name@)),
                Err(InputError::Unsupported { name: n }) => n@ == name@ && chosen(
                    content_of(content@),
                    suggested(name@),
                ) is None,
                Err(InputError::Io { .. }) => false,
            },
    {
        let shown = content_format(&content);
        let hint = extension_format(name);
        detected(name, content, shown, hint)
    }
}

/// An input with the format that its content shows, or else its name.
pub fn detected(
    name: &str,
    content: Vec<u8>,
    shown: Option<InputFormat>,
    hint: Option<InputFormat>,
) -> (r: Result<DetectedSource, InputError>)
    ensures
        match r {
            Ok(d) => d.name@ == name@ && d.bytes@ == content@ && Some(d.format) == chosen(
                shown,
                hint,
            ) && text::opt_view(d.warning) == mismatch(shown, hint),
            Err(InputError::Unsupported { name: n }) => n@ == name@ && chosen(shown, hint) is None,
            Err(InputError::Io { .. }) => false,
        },
{
    let warning = match (shown, hint) {
        (Some(actual), Some(other)) => if actual != other {
            let mut v = text::chars_of("content identifies ");
            text::append_str(&mut v, actual.as_str());
            text::append_str(&mut v, " but filename suggests ");
            text::append_str(&mut v, other.as_str());
            text::append_str(&mut v, "; using content");
            Some(text::string_of(&v))
        } else {
            None
        },
        _ => None,
    };
    let format = match (shown, hint) {
        (Some(f), _) => f,
        (None, Some(f)) => f,
        (None, None) => return Err(InputError::Unsupported { name: name.to_owned() }),
    };
    Ok(DetectedSource { name: name.to_owned(), bytes: content, format, warning })
}

} // verus!
