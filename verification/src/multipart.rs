//! Uploads as `multipart/form-data`: enough for an HTML form and for `curl -F`.

use vstd::prelude::*;

use crate::bytes;
use crate::query;
use crate::text;

verus! {

broadcast use vstd::string::group_string_axioms;

/// What stands between the first and the second occurrence of a text, or
/// behind the first where there is no second.
pub open spec fn between(s: Seq<char>, pat: Seq<char>) -> Option<Seq<char>> {
    match text::first(s, pat) {
        Some(i) => {
            let rest = s.skip((i + pat.len()) as int);
            match text::first(rest, pat) {
                Some(j) => Some(rest.take(j as int)),
                None => Some(rest),
            }
        },
        None => None,
    }
}

fn between_of<'a>(v: &'a [char], pat: &str) -> (r: Option<&'a [char]>)
    ensures
        match r {
            Some(b) => between(v@, pat@) == Some(b@),
            None => between(v@, pat@) is None,
        },
{
    let found = text::find(v, pat);
    proof {
        text::lemma_first_is(v@, pat@, found);
    }
    match found {
        Some(i) => {
            let n: usize = text::chars_of(pat).len();
            let len: usize = v.len();
            assert(text::occurs_at(v@, pat@, i as int));
            let rest = vstd::slice::slice_subrange(v, i + n, len);
            assert(rest@ == v@.skip(i + n));
            let again = text::find(rest, pat);
            proof {
                text::lemma_first_is(rest@, pat@, again);
            }
            match again {
                Some(j) => {
                    let part = vstd::slice::slice_subrange(rest, 0, j);
                    assert(part@ == rest@.take(j as int));
                    Some(part)
                },
                None => Some(rest),
            }
        },
        None => None,
    }
}

/// Without the quotes that start it.
pub open spec fn unquote_front(s: Seq<char>) -> Seq<char>
    decreases s.len(),
{
    if s.len() > 0 && s[0] == '"' {
        unquote_front(s.skip(1))
    } else {
        s
    }
}

/// Without the quotes that end it.
pub open spec fn unquote_back(s: Seq<char>) -> Seq<char>
    decreases s.len(),
{
    if s.len() > 0 && s.last() == '"' {
        unquote_back(s.drop_last())
    } else {
        s
    }
}

fn unquoted<'a>(v: &'a [char]) -> (r: &'a [char])
    ensures
        r@ == unquote_back(unquote_front(v@)),
{
    let mut a: usize = 0;
    assert(v@.skip(0) == v@);
    while a < v.len() && v[a] == '"'
        invariant
            a <= v@.len(),
            unquote_front(v@) == unquote_front(v@.skip(a as int)),
        decreases v@.len() - a,
    {
        assert(v@.skip(a as int).skip(1) == v@.skip(a + 1));
        a += 1;
    }
    let mut b: usize = v.len();
    let ghost front = v@.skip(a as int);
    assert(v@.subrange(a as int, b as int) == front);
    while b > a && v[b - 1] == '"'
        invariant
            a <= b <= v@.len(),
            unquote_back(front) == unquote_back(v@.subrange(a as int, b as int)),
        decreases b,
    {
        assert(v@.subrange(a as int, b as int).drop_last() == v@.subrange(a as int, b - 1));
        b -= 1;
    }
    vstd::slice::slice_subrange(v, a, b)
}

/// The boundary that a content type names.
pub open spec fn boundary(content_type: Seq<char>) -> Option<Seq<char>> {
    if text::starts_with(text::lowercase(content_type), "multipart/form-data"@) {
        match between(content_type, "boundary="@) {
            Some(b) => Some(unquote_back(unquote_front(text::trim(b)))),
            None => None,
        }
    } else {
        None
    }
}

/// The boundary of a `multipart/form-data; boundary=…` content type.
pub fn multipart_boundary(content_type: &str) -> (r: Option<String>)
    ensures
        text::opt_view(r) == boundary(content_type@),
{
    let v = text::chars_of(content_type);
    if !text::has_prefix(&text::lowered(&v), "multipart/form-data") {
        return None;
    }
    match between_of(&v, "boundary=") {
        Some(b) => Some(text::string_of(unquoted(text::trimmed(b)))),
        None => None,
    }
}

/// Position of the first line that is a content disposition; the number of
/// lines where there is none.
pub open spec fn disposition(lines: Seq<Seq<char>>) -> int
    decreases lines.len(),
{
    if lines.len() == 0 {
        0
    } else if text::starts_with(text::lowercase(lines[0]), "content-disposition"@) {
        0
    } else {
        1 + disposition(lines.skip(1))
    }
}

fn disposition_of(lines: &Vec<Vec<char>>) -> (r: usize)
    ensures
        r == disposition(text::views(lines@)),
        r <= lines@.len(),
{
    let ghost all = text::views(lines@);
    assert(all.skip(0) == all);
    let mut i: usize = 0;
    while i < lines.len()
        invariant
            i <= lines@.len(),
            all == text::views(lines@),
            disposition(all) == i + disposition(all.skip(i as int)),
        decreases lines@.len() - i,
    {
        assert(all.skip(i as int)[0] == lines@[i as int]@);
        if text::has_prefix(&text::lowered(&lines[i]), "content-disposition") {
            return i;
        }
        assert(all.skip(i as int).skip(1) == all.skip(i + 1));
        i += 1;
    }
    i
}

/// The value of an attribute of a content disposition: what stands in quotes
/// behind its name and `=`.
pub open spec fn attribute(line: Seq<char>, key: Seq<char>) -> Option<Seq<char>> {
    match between(line, key + "=\""@) {
        Some(r) => Some(r.take(text::index_of(r, '"'))),
        None => None,
    }
}

fn attribute_of(line: &[char], key: &str) -> (r: Option<String>)
    ensures
        text::opt_view(r) == attribute(line@, key@),
{
    let pat = text::both(key, "=\"");
    match between_of(line, &pat) {
        Some(rest) => {
            let n: usize = text::position_of(rest, '"');
            let v = vstd::slice::slice_subrange(rest, 0, n);
            assert(v@ == rest@.take(n as int));
            Some(text::string_of(v))
        },
        None => None,
    }
}

/// What a part of an upload is.
pub enum PartView {
    /// Nothing: what stands before the first part, or closes the last.
    Gap,
    /// Not a part: it has no headers, or none that says what it is.
    Broken,
    /// A file.
    File { name: Seq<char>, content: Seq<u8> },
    /// A field of the form.
    Field { name: Seq<char>, text: Seq<char> },
    /// A part without a name.
    Nameless,
}

/// The line end, twice: it ends the headers.
pub open spec fn blank_line() -> Seq<u8> {
    seq![13u8, 10u8, 13u8, 10u8]
}

/// What a part is by its disposition and its content.
pub open spec fn disposed(line: Seq<char>, content: Seq<u8>) -> PartView {
    match attribute(line, "filename"@) {
        Some(name) if name.len() > 0 => PartView::File { name, content },
        _ => match attribute(line, "name"@) {
            Some(name) => PartView::Field { name, text: text::trim(bytes::spelled(content)) },
            None => PartView::Nameless,
        },
    }
}

/// What a part of an upload is. One line end stands before its headers and
/// one behind its content; a blank line parts the two.
pub open spec fn part(raw: Seq<u8>) -> PartView {
    let p = bytes::before_line_end(bytes::past_line_end(raw));
    if bytes::stripped(raw).len() == 0 || bytes::stripped(raw) == bytes::latin("--"@) {
        PartView::Gap
    } else {
        match text::first(p, blank_line()) {
            Some(end) => {
                let lines = text::lines(bytes::spelled(p.take(end as int)));
                let content = p.skip(end as int + 4);
                let at = disposition(lines);
                if at < lines.len() {
                    disposed(lines[at], content)
                } else {
                    PartView::Broken
                }
            },
            None => PartView::Broken,
        }
    }
}

/// A part of an upload.
enum Part<'a> {
    Gap,
    Broken,
    File { name: String, content: &'a [u8] },
    Field { name: String, text: String },
    Nameless,
}

spec fn shown(p: Part) -> PartView {
    match p {
        Part::Gap => PartView::Gap,
        Part::Broken => PartView::Broken,
        Part::File { name, content } => PartView::File { name: name@, content: content@ },
        Part::Field { name, text } => PartView::Field { name: name@, text: text@ },
        Part::Nameless => PartView::Nameless,
    }
}

fn part_of<'a>(raw: &'a [u8]) -> (r: Part<'a>)
    ensures
        shown(r) == part(raw@),
{
    let all = bytes::strip_crlf(raw);
    let closing = bytes::latin_of("--");
    if all.len() == 0 {
        return Part::Gap;
    }
    if all.len() == closing.len() && bytes::is_at(all, &closing, 0) {
        assert(all@.subrange(0, all@.len() as int) == all@);
        return Part::Gap;
    }
    assert(all@ != bytes::latin("--"@)) by {
        if all@ == bytes::latin("--"@) {
            assert(all@.subrange(0, all@.len() as int) == all@);
        }
    }
    let p = bytes::between_line_ends(raw);
    let blank: Vec<u8> = vec![13u8, 10u8, 13u8, 10u8];
    assert(blank@ == blank_line());
    match bytes::find_bytes(p, &blank) {
        Some(end) => {
            let head = vstd::slice::slice_subrange(p, 0, end);
            assert(head@ == p@.take(end as int));
            let len: usize = p.len();
            let content = vstd::slice::slice_subrange(p, end + 4, len);
            assert(content@ == p@.skip(end + 4));
            let headers = bytes::spell(head);
            let lines = text::lines_of(&text::chars_of(&headers));
            let at: usize = disposition_of(&lines);
            if at == lines.len() {
                return Part::Broken;
            }
            let line = &lines[at];
            assert(text::views(lines@)[at as int] == line@);
            match attribute_of(line, "filename") {
                Some(name) => {
                    if text::chars_of(&name).len() > 0 {
                        return Part::File { name, content };
                    }
                },
                None => {},
            }
            match attribute_of(line, "name") {
                Some(name) => {
                    let value = bytes::spell(content);
                    Part::Field { name, text: text::trim_str(&value) }
                },
                None => Part::Nameless,
            }
        },
        None => Part::Broken,
    }
}

/// An upload: the first file with its name, and the fields of the form.
pub struct Upload {
    pub file: Option<(Seq<char>, Seq<u8>)>,
    pub fields: Seq<(Seq<char>, Seq<char>)>,
}

/// The upload that a list of parts makes; none where a part is broken.
pub open spec fn gathered(parts: Seq<Seq<u8>>) -> Option<Upload>
    decreases parts.len(),
{
    if parts.len() == 0 {
        Some(Upload { file: None, fields: Seq::empty() })
    } else {
        match gathered(parts.drop_last()) {
            Some(u) => match part(parts.last()) {
                PartView::Broken => None,
                PartView::File { name, content } => if u.file is None {
                    Some(Upload { file: Some((name, content)), ..u })
                } else {
                    Some(u)
                },
                PartView::Field { name, text } => Some(
                    Upload { fields: u.fields.push((name, text)), ..u },
                ),
                _ => Some(u),
            },
            None => None,
        }
    }
}

/// What separates the parts.
pub open spec fn delimiter(boundary: Seq<char>) -> Seq<u8> {
    vstd::utf8::encode_utf8("--"@ + boundary)
}

/// The upload that a body holds; none without a file.
pub open spec fn upload(body: Seq<u8>, boundary: Seq<char>) -> Option<Upload> {
    match gathered(bytes::pieces(body, delimiter(boundary))) {
        Some(u) => if u.file is Some {
            Some(u)
        } else {
            None
        },
        None => None,
    }
}

proof fn lemma_broken(parts: Seq<Seq<u8>>, i: int)
    requires
        0 <= i <= parts.len(),
        gathered(parts.take(i)) is None,
    ensures
        gathered(parts) is None,
    decreases parts.len() - i,
{
    if i < parts.len() {
        assert(parts.take(i + 1).drop_last() == parts.take(i));
        lemma_broken(parts, i + 1);
    } else {
        assert(parts.take(i) == parts);
    }
}

pub proof fn lemma_delimiter(boundary: Seq<char>)
    ensures
        delimiter(boundary).len() > 0,
{
    reveal_strlit("--");
    vstd::utf8::encode_utf8_first_scalar("--"@ + boundary);
}

/// Read an upload: the first part with a file name, with its bytes, and every
/// field.
pub fn parse_multipart(body: &[u8], boundary: &str) -> (r: Option<
    (String, Vec<u8>, Vec<(String, String)>),
>)
    ensures
        match r {
            Some((name, content, fields)) => upload(body@, boundary@) == Some(
                (Upload {
                    file: Some((name@, content@)),
                    fields: query::pair_views(fields@),
                }),
            ),
            None => upload(body@, boundary@) is None,
        },
{
    let delim = text::both("--", boundary);
    proof {
        lemma_delimiter(boundary@);
    }
    let parts = bytes::split_bytes(body, delim.as_str().as_bytes());
    let ghost all = bytes::slices(parts@);
    let mut file: Option<(String, &[u8])> = None;
    let mut fields: Vec<(String, String)> = Vec::new();
    assert(all.take(0).len() == 0);
    assert(query::pair_views(fields@) == Seq::<(Seq<char>, Seq<char>)>::empty());
    for i in 0..parts.len()
        invariant
            all == bytes::slices(parts@),
            all == bytes::pieces(body@, delimiter(boundary@)),
            gathered(all.take(i as int)) == Some(
                (Upload {
                    file: match file {
                        Some((name, content)) => Some((name@, content@)),
                        None => None,
                    },
                    fields: query::pair_views(fields@),
                }),
            ),
    {
        assert(all.take(i + 1).drop_last() == all.take(i as int));
        assert(all.take(i + 1).last() == parts@[i as int]@);
        let ghost before = query::pair_views(fields@);
        match part_of(parts[i]) {
            Part::Broken => {
                proof {
                    lemma_broken(all, i + 1);
                }
                return None;
            },
            Part::File { name, content } => {
                if file.is_none() {
                    file = Some((name, content));
                }
            },
            Part::Field { name, text } => {
                fields.push((name, text));
                assert(query::pair_views(fields@) == before.push((name@, text@)));
            },
            _ => {},
        }
    }
    assert(all.take(all.len() as int) == all);
    match file {
        Some((name, content)) => Some((name, bytes::copy(content), fields)),
        None => None,
    }
}

} // verus!
