//! Forms as browsers and `curl -F` send them, and what is read of them.

use vstd::prelude::*;
use vstd::utf8::encode_utf8;

use crate::bytes;
use crate::multipart;
use crate::multipart::{PartView, Upload};
use crate::multipart_laws;
use crate::multipart_laws::{apart, closing, line_end, sent, sent_part, starts_well, with_file};
use crate::text;
use crate::text_laws;

verus! {

/// A part of a form.
pub enum Sent {
    /// A field with its value.
    Field { name: Seq<char>, value: Seq<char> },
    /// A file of a field, with its name, its content and perhaps its type.
    File { field: Seq<char>, name: Seq<char>, kind: Option<Seq<char>>, content: Seq<u8> },
}

/// What stands before the name of a field.
pub open spec fn opening() -> Seq<char> {
    "Content-Disposition: form-data; name=\""@
}

/// What stands between the name of a field and that of its file.
pub open spec fn middle() -> Seq<char> {
    "\"; filename=\""@
}

/// The line that says what a field is.
pub open spec fn field_line(name: Seq<char>) -> Seq<char> {
    opening() + name + seq!['"']
}

/// The line that says what a file is.
pub open spec fn file_line(field: Seq<char>, name: Seq<char>) -> Seq<char> {
    opening() + field + middle() + name + seq!['"']
}

impl Sent {
    /// The line that says what the part is.
    pub open spec fn line(self) -> Seq<char> {
        match self {
            Sent::Field { name, .. } => field_line(name),
            Sent::File { field, name, .. } => file_line(field, name),
        }
    }

    /// The headers of the part.
    pub open spec fn headers(self) -> Seq<char> {
        match self {
            Sent::File { kind: Some(kind), .. } => self.line() + seq!['\r', '\n']
                + "Content-Type: "@ + kind,
            _ => self.line(),
        }
    }

    /// The content of the part.
    pub open spec fn content(self) -> Seq<u8> {
        match self {
            Sent::Field { value, .. } => encode_utf8(value),
            Sent::File { content, .. } => content,
        }
    }

    /// The part as it is sent.
    pub open spec fn bytes(self) -> (Seq<u8>, Seq<u8>) {
        (encode_utf8(self.headers()), self.content())
    }
}

/// A text in one line.
pub open spec fn one_line(s: Seq<char>) -> bool {
    forall|i: int| 0 <= i < s.len() ==> s[i] != '\r' && s[i] != '\n'
}

/// A name without quotes and line ends. One that ends in `name=` is not plain:
/// with the quote that follows it reads as the start of a name.
pub open spec fn plain(s: Seq<char>) -> bool {
    &&& one_line(s)
    &&& forall|i: int| 0 <= i < s.len() ==> s[i] != '"'
    &&& !text::ends_with(s, "name="@)
}

/// A part that arrives as it is: its names are plain, a file has a name, and
/// no white space surrounds a value.
pub open spec fn sound(p: Sent) -> bool {
    match p {
        Sent::Field { name, value } => plain(name) && text::trim(value) == value,
        Sent::File { field, name, kind, .. } => plain(field) && plain(name) && name.len() > 0
            && match kind {
            Some(k) => one_line(k),
            None => true,
        },
    }
}

/// The bytes of a form.
pub open spec fn form(parts: Seq<Sent>, boundary: Seq<char>) -> Seq<u8> {
    sent(parts.map_values(|p: Sent| p.bytes()), boundary)
}

/// What a form holds: its first file with its bytes, and every field, in order.
pub open spec fn held(parts: Seq<Sent>) -> Upload
    decreases parts.len(),
{
    if parts.len() == 0 {
        Upload { file: None, fields: Seq::empty() }
    } else {
        let u = held(parts.drop_last());
        match parts.last() {
            Sent::Field { name, value } => Upload { fields: u.fields.push((name, value)), ..u },
            Sent::File { name, content, .. } => if u.file is None {
                Upload { file: Some((name, content)), ..u }
            } else {
                u
            },
        }
    }
}

proof fn lemma_opening()
    ensures
        opening().len() == 38,
        opening()[0] == 'C',
        opening()[31] == ' ',
        opening()[32] == 'n',
        opening()[33] == 'a',
        opening()[34] == 'm',
        opening()[35] == 'e',
        opening()[36] == '=',
        opening()[37] == '"',
        one_line(opening()),
        forall|i: int| 0 <= i < 37 ==> opening()[i] != '"',
        middle().len() == 13,
        middle()[0] == '"',
        middle()[12] == '"',
        one_line(middle()),
        forall|i: int| 0 < i < 12 ==> middle()[i] != '"',
        middle().subrange(3, 13) == wanted_file(),
        wanted_file().len() == 10,
        wanted_file()[3] == 'e',
        wanted_file()[9] == '"',
        forall|i: int| 0 <= i < 9 ==> wanted_file()[i] != '"',
        wanted_file().subrange(4, 9) == "name="@,
        wanted_name().len() == 6,
        wanted_name()[5] == '"',
        forall|i: int| 0 <= i < 5 ==> wanted_name()[i] != '"',
        wanted_name().subrange(0, 5) == "name="@,
        opening().subrange(32, 38) == wanted_name(),
        "name="@.len() == 5,
{
    reveal_strlit("Content-Disposition: form-data; name=\"");
    reveal_strlit("\"; filename=\"");
    reveal_strlit("filename");
    reveal_strlit("name");
    reveal_strlit("=\"");
    reveal_strlit("name=");
    assert(middle().subrange(3, 13) =~= wanted_file());
    assert(wanted_file().subrange(4, 9) =~= "name="@);
    assert(wanted_name().subrange(0, 5) =~= "name="@);
    assert(opening().subrange(32, 38) =~= wanted_name());
}

/// What the name of a file is looked for behind.
pub open spec fn wanted_file() -> Seq<char> {
    "filename"@ + "=\""@
}

/// What the name of a field is looked for behind.
pub open spec fn wanted_name() -> Seq<char> {
    "name"@ + "=\""@
}

/// The first occurrence is where one is and none before it.
proof fn lemma_found(s: Seq<char>, pat: Seq<char>, k: int)
    requires
        text::occurs_at(s, pat, k),
        forall|j: int| 0 <= j < k ==> !#[trigger] text::occurs_at(s, pat, j),
    ensures
        text::first(s, pat) == Some(k as nat),
{
    text::lemma_first(s, pat);
    match text::first(s, pat) {
        Some(n) => {
            if n < k {
                assert(!text::occurs_at(s, pat, n as int));
            }
        },
        None => {},
    }
}

proof fn lemma_not_found(s: Seq<char>, pat: Seq<char>)
    requires
        forall|j: int| 0 <= j ==> !#[trigger] text::occurs_at(s, pat, j),
    ensures
        text::first(s, pat) is None,
{
    text::lemma_first(s, pat);
}

/// A plain name with a quote behind it holds nothing that a name is looked for
/// behind.
proof fn lemma_tail(n: Seq<char>, pat: Seq<char>)
    requires
        plain(n),
        pat == wanted_file() || pat == wanted_name(),
    ensures
        text::first(n.push('"'), pat) is None,
{
    lemma_opening();
    let s = n.push('"');
    assert forall|k: int| 0 <= k implies !#[trigger] text::occurs_at(s, pat, k) by {
        if text::occurs_at(s, pat, k) {
            let e = k + pat.len() - 1;
            let at = s.subrange(k, k + pat.len());
            assert(at[pat.len() - 1] == s[e]);
            assert(s[e] == '"');
            assert(e == n.len());
            let cut = pat.len() - 6;
            assert(pat.subrange(cut, pat.len() - 1) == "name="@);
            assert(n.subrange(n.len() - 5, n.len() as int) =~= at.subrange(cut, pat.len() - 1));
            assert(text::ends_with(n, "name="@));
        }
    }
    lemma_not_found(s, pat);
}

/// What stands up to the quote behind a field's name does not name a file.
proof fn lemma_no_file_before(s: Seq<char>, n: Seq<char>, k: int)
    requires
        plain(n),
        0 <= k,
        k + 10 <= 38 + n.len() + 1 <= s.len(),
        s.take(38 + n.len() as int + 1) == opening() + n + seq!['"'],
    ensures
        !text::occurs_at(s, wanted_file(), k),
{
    lemma_opening();
    let front = opening() + n + seq!['"'];
    if text::occurs_at(s, wanted_file(), k) {
        let at = s.subrange(k, k + 10);
        let e = k + 9;
        assert forall|j: int| 0 <= j < 10 implies at[j] == front[k + j] by {
            assert(s.take(38 + n.len() as int + 1)[k + j] == s[k + j]);
        }
        assert(at[9] == '"');
        if e < 37 {
            assert(front[e] == opening()[e]);
        } else if e == 37 {
            assert(at[3] == front[31]);
            assert(front[31] == opening()[31]);
        } else if e < 38 + n.len() {
            assert(front[e] == n[e - 38]);
        } else if n.len() >= 5 {
            assert(n.subrange(n.len() - 5, n.len() as int) =~= at.subrange(4, 9));
            assert(text::ends_with(n, "name="@));
        } else {
            let j = 37 - k;
            assert(at[j] == front[37]);
            assert(front[37] == opening()[37]);
        }
    }
}

proof fn lemma_taken(n: Seq<char>)
    requires
        plain(n),
    ensures
        n.push('"').take(text::index_of(n.push('"'), '"')) == n,
{
    text::lemma_index_of_is(n.push('"'), '"', n.len() as int);
    assert(n.push('"').take(n.len() as int) =~= n);
}

proof fn lemma_field_line(n: Seq<char>)
    requires
        plain(n),
    ensures
        multipart::attribute(field_line(n), "filename"@) is None,
        multipart::attribute(field_line(n), "name"@) == Some(n),
{
    lemma_opening();
    let s = field_line(n);
    assert(s.take(38 + n.len() as int + 1) =~= opening() + n + seq!['"']);
    assert forall|k: int| 0 <= k implies !#[trigger] text::occurs_at(s, wanted_file(), k) by {
        if k + 10 <= s.len() {
            lemma_no_file_before(s, n, k);
        }
    }
    lemma_not_found(s, wanted_file());
    assert(s.subrange(32, 38) =~= opening().subrange(32, 38));
    assert forall|k: int| 0 <= k < 32 implies !#[trigger] text::occurs_at(s, wanted_name(), k) by {
        if text::occurs_at(s, wanted_name(), k) {
            assert(s.subrange(k, k + 6)[5] == s[k + 5]);
            assert(s[k + 5] == opening()[k + 5]);
        }
    }
    lemma_found(s, wanted_name(), 32);
    assert(s.skip(38) =~= n.push('"'));
    lemma_tail(n, wanted_name());
    lemma_taken(n);
}

proof fn lemma_file_line(n: Seq<char>, f: Seq<char>)
    requires
        plain(n),
        plain(f),
    ensures
        multipart::attribute(file_line(n, f), "filename"@) == Some(f),
{
    lemma_opening();
    let s = file_line(n, f);
    let m = 38 + n.len() as int;
    assert(s.take(m + 1) =~= opening() + n + seq!['"']);
    assert(s.subrange(m + 3, m + 13) =~= middle().subrange(3, 13));
    assert forall|k: int| 0 <= k < m + 3 implies !#[trigger] text::occurs_at(
        s,
        wanted_file(),
        k,
    ) by {
        if k + 10 <= m + 1 {
            lemma_no_file_before(s, n, k);
        } else if text::occurs_at(s, wanted_file(), k) {
            assert(s.subrange(k, k + 10)[9] == s[k + 9]);
            assert(s[k + 9] == middle()[k + 9 - m]);
        }
    }
    lemma_found(s, wanted_file(), m + 3);
    assert(s.skip(m + 13) =~= f.push('"'));
    lemma_tail(f, wanted_file());
    lemma_taken(f);
}

proof fn lemma_encode_concat(a: Seq<char>, b: Seq<char>)
    ensures
        encode_utf8(a + b) == encode_utf8(a) + encode_utf8(b),
    decreases a.len(),
{
    if a.len() == 0 {
        assert(a + b =~= b);
        assert(encode_utf8(a) + encode_utf8(b) =~= encode_utf8(b));
    } else {
        assert((a + b).drop_first() =~= a.drop_first() + b);
        lemma_encode_concat(a.drop_first(), b);
        let first = vstd::utf8::encode_scalar(a[0] as u32);
        assert(first + (encode_utf8(a.drop_first()) + encode_utf8(b)) =~= (first + encode_utf8(
            a.drop_first(),
        )) + encode_utf8(b));
    }
}

proof fn lemma_encode_char(c: char)
    requires
        (c as u32) < 0x80,
    ensures
        encode_utf8(seq![c]) == seq![c as u8],
{
    let u = c as u32;
    vstd::utf8::char_u32_cast(c, u);
    assert(seq![c].drop_first() =~= Seq::<char>::empty());
    assert(u < 0x80 ==> (u & 0x7f) as u8 == u) by (bit_vector);
    assert(vstd::utf8::encode_scalar(u) =~= seq![c as u8]);
    let none = Seq::<char>::empty();
    assert(encode_utf8(none) =~= Seq::<u8>::empty());
    assert(encode_utf8(seq![c]) == vstd::utf8::encode_scalar(seq![c][0] as u32) + encode_utf8(
        seq![c].drop_first(),
    ));
    assert(encode_utf8(seq![c]) =~= seq![c as u8]);
}

/// A text in one line is sent without line ends.
proof fn lemma_encode_one_line(s: Seq<char>)
    requires
        one_line(s),
    ensures
        forall|i: int|
            0 <= i < encode_utf8(s).len() ==> #[trigger] encode_utf8(s)[i] != 13 && encode_utf8(
                s,
            )[i] != 10,
{
    bytes::lemma_ascii_byte(s, 13);
    bytes::lemma_ascii_byte(s, 10);
}

proof fn lemma_one_line_concat(a: Seq<char>, b: Seq<char>)
    requires
        one_line(a),
        one_line(b),
    ensures
        one_line(a + b),
{
}

proof fn lemma_line(p: Sent)
    requires
        sound(p),
    ensures
        one_line(p.line()),
        p.line().len() > 0,
        p.line()[0] == 'C',
        text::starts_with(text::lowercase(p.line()), "content-disposition"@),
{
    lemma_opening();
    match p {
        Sent::Field { name, .. } => {
            lemma_one_line_concat(opening(), name);
            lemma_one_line_concat(opening() + name, seq!['"']);
        },
        Sent::File { field, name, .. } => {
            lemma_one_line_concat(opening(), field);
            lemma_one_line_concat(opening() + field, middle());
            lemma_one_line_concat(opening() + field + middle(), name);
            lemma_one_line_concat(opening() + field + middle() + name, seq!['"']);
        },
    }
    let low = text::lowercase(p.line());
    reveal_strlit("Content-Disposition: form-data; name=\"");
    reveal_strlit("content-disposition");
    let want = "content-disposition"@;
    assert forall|i: int| 0 <= i < want.len() implies low[i] == want[i] by {
        assert(low[i] == text::lower(p.line()[i]));
        assert(p.line()[i] == opening()[i]);
        assert('C' as u8 + 32 == 'c' as u8);
        assert('D' as u8 + 32 == 'd' as u8);
    }
    assert(low.subrange(0, want.len() as int) =~= want);
}

/// The headers of a part are read as the line that says what it is.
proof fn lemma_headers(p: Sent)
    requires
        sound(p),
    ensures
        text::lines(p.headers()).len() > 0,
        text::lines(p.headers())[0] == p.line(),
        starts_well(encode_utf8(p.headers())),
        apart(encode_utf8(p.headers()), multipart::blank_line()),
{
    lemma_line(p);
    let line = p.line();
    let e = encode_utf8(line);
    let blank = multipart::blank_line();
    lemma_encode_one_line(line);
    lemma_encode_char('C');
    assert(line =~= seq!['C'] + line.skip(1));
    lemma_encode_concat(seq!['C'], line.skip(1));
    assert(e[0] == 67);
    let all = encode_utf8(p.headers());
    if let Sent::File { kind: Some(kind), .. } = p {
        reveal_strlit("Content-Type: ");
        let rest = "Content-Type: "@ + kind;
        assert(p.headers() =~= line + (seq!['\r'] + (seq!['\n'] + rest)));
        lemma_encode_concat(line, seq!['\r'] + (seq!['\n'] + rest));
        lemma_encode_concat(seq!['\r'], seq!['\n'] + rest);
        lemma_encode_concat(seq!['\n'], rest);
        lemma_encode_char('\r');
        lemma_encode_char('\n');
        assert(rest =~= seq!['C'] + rest.skip(1));
        lemma_encode_concat(seq!['C'], rest.skip(1));
        let f = encode_utf8(rest);
        assert(f[0] == 67);
        assert(one_line(rest));
        lemma_encode_one_line(rest);
        assert(all =~= e + seq![13u8, 10u8] + f);
        text::lemma_index_of_is(p.headers(), '\n', line.len() as int + 1);
        assert(p.headers().take(line.len() as int + 1) =~= line.push('\r'));
        assert(line.push('\r').drop_last() =~= line);
        let whole = all + blank;
        assert forall|k: int| 0 <= k < all.len() implies !#[trigger] text::occurs_at(
            whole,
            blank,
            k,
        ) by {
            if text::occurs_at(whole, blank, k) {
                let at = whole.subrange(k, k + 4);
                assert(at[0] == whole[k] && at[2] == whole[k + 2]);
                if k < e.len() {
                    assert(whole[k] == e[k]);
                } else if k == e.len() {
                    assert(whole[k + 2] == f[0]);
                } else if k == e.len() + 1 {
                    assert(whole[k] == 10);
                } else {
                    assert(whole[k] == f[k - e.len() - 2]);
                }
            }
        }
        lemma_bytes_found(all, blank);
    } else {
        text::lemma_index_of_is(line, '\n', line.len() as int);
        let whole = all + blank;
        assert forall|k: int| 0 <= k < all.len() implies !#[trigger] text::occurs_at(
            whole,
            blank,
            k,
        ) by {
            if text::occurs_at(whole, blank, k) {
                assert(whole.subrange(k, k + 4)[0] == whole[k]);
                assert(whole[k] == e[k]);
            }
        }
        lemma_bytes_found(all, blank);
    }
}

/// Where nothing is found before a separator, a piece stands apart.
proof fn lemma_bytes_found(piece: Seq<u8>, sep: Seq<u8>)
    requires
        forall|k: int|
            0 <= k < piece.len() ==> !#[trigger] text::occurs_at(piece + sep, sep, k),
    ensures
        apart(piece, sep),
{
    let s = piece + sep;
    text::lemma_first(s, sep);
    assert(s.subrange(piece.len() as int, s.len() as int) =~= sep);
    assert(text::occurs_at(s, sep, piece.len() as int));
    match text::first(s, sep) {
        Some(n) => {
            if n > piece.len() {
                assert(!text::occurs_at(s, sep, piece.len() as int));
            } else if n < piece.len() {
                assert(!text::occurs_at(s, sep, n as int));
            }
        },
        None => {},
    }
}

/// A part is read as what was sent.
proof fn lemma_headed(p: Sent)
    requires
        sound(p),
    ensures
        multipart_laws::headed(encode_utf8(p.headers()), p.content()) == (match p {
            Sent::Field { name, value } => PartView::Field { name, text: value },
            Sent::File { name, content, .. } => PartView::File { name, content },
        }),
{
    broadcast use {vstd::utf8::encode_utf8_decode_utf8, vstd::utf8::encode_utf8_valid_utf8};

    lemma_headers(p);
    lemma_line(p);
    assert(bytes::spelled(encode_utf8(p.headers())) == p.headers());
    let lines = text::lines(p.headers());
    assert(multipart::disposition(lines) == 0);
    match p {
        Sent::Field { name, value } => {
            lemma_field_line(name);
            assert(bytes::spelled(encode_utf8(value)) == value);
        },
        Sent::File { field, name, .. } => {
            lemma_file_line(field, name);
        },
    }
}

proof fn lemma_collected(parts: Seq<Sent>)
    requires
        forall|i: int| 0 <= i < parts.len() ==> sound(#[trigger] parts[i]),
    ensures
        multipart_laws::collected(parts.map_values(|p: Sent| p.bytes())) == Some(held(parts)),
    decreases parts.len(),
{
    let f = |p: Sent| p.bytes();
    if parts.len() > 0 {
        let shorter = parts.drop_last();
        assert forall|i: int| 0 <= i < shorter.len() implies sound(#[trigger] shorter[i]) by {
            assert(sound(parts[i]));
        }
        lemma_collected(shorter);
        assert(parts.map_values(f).drop_last() =~= shorter.map_values(f));
        let p = parts.last();
        assert(sound(parts[parts.len() - 1]));
        lemma_headed(p);
        assert(parts.map_values(f).last() == p.bytes());
    }
}

/// A boundary as a header can name it.
pub open spec fn is_boundary(b: Seq<char>) -> bool {
    b.len() > 0 && one_line(b)
}

/// A piece that ends a line stands apart from a separator without line feeds
/// that is not in it.
proof fn lemma_apart(piece: Seq<u8>, sep: Seq<u8>)
    requires
        piece.len() > 0,
        piece.last() == 10,
        forall|i: int| 0 <= i < sep.len() ==> sep[i] != 10,
        !text::occurs(piece, sep),
    ensures
        apart(piece, sep),
{
    let s = piece + sep;
    assert forall|k: int| 0 <= k < piece.len() implies !#[trigger] text::occurs_at(s, sep, k) by {
        if text::occurs_at(s, sep, k) {
            let at = s.subrange(k, k + sep.len());
            if k + sep.len() <= piece.len() {
                assert(piece.subrange(k, k + sep.len()) =~= at);
                assert(text::occurs_at(piece, sep, k));
            } else {
                let j = piece.len() - 1 - k;
                assert(at[j] == s[piece.len() - 1]);
                assert(s[piece.len() - 1] == piece.last());
            }
        }
    }
    lemma_bytes_found(piece, sep);
}

proof fn lemma_boundary(b: Seq<char>)
    requires
        is_boundary(b),
    ensures
        multipart::delimiter(b).len() >= 3,
        forall|i: int|
            0 <= i < multipart::delimiter(b).len() ==> #[trigger] multipart::delimiter(b)[i] != 10
                && multipart::delimiter(b)[i] != 13,
        text::first(closing(), multipart::delimiter(b)) is None,
{
    reveal_strlit("--");
    let d = multipart::delimiter(b);
    let s = "--"@ + b;
    assert(one_line(s));
    lemma_encode_one_line(s);
    assert("--"@ =~= seq!['-'] + seq!['-']);
    lemma_encode_concat("--"@, b);
    lemma_encode_concat(seq!['-'], seq!['-']);
    lemma_encode_char('-');
    vstd::utf8::encode_utf8_first_scalar(b);
    text::lemma_first(closing(), d);
    assert forall|k: int| 0 <= k implies !#[trigger] text::occurs_at(closing(), d, k) by {
        if text::occurs_at(closing(), d, k) {
            let at = closing().subrange(k, k + d.len());
            assert(at[2] == closing()[k + 2]);
            assert(d[2] != 10 && d[2] != 13);
        }
    }
}

/// A form arrives as it was sent: its first file with its name and its bytes,
/// and every field with its value, also where a value or a file is empty and
/// where a file begins or ends with line ends. Only a form without a file does
/// not arrive.
pub proof fn law_forms_arrive(parts: Seq<Sent>, boundary: Seq<char>)
    requires
        is_boundary(boundary),
        forall|i: int| 0 <= i < parts.len() ==> sound(#[trigger] parts[i]),
        forall|i: int|
            0 <= i < parts.len() ==> !text::occurs(
                sent_part((#[trigger] parts[i]).bytes().0, parts[i].bytes().1),
                multipart::delimiter(boundary),
            ),
    ensures
        multipart::upload(form(parts, boundary), boundary) == with_file(Some(held(parts))),
{
    let f = |p: Sent| p.bytes();
    let raw = parts.map_values(f);
    let sep = multipart::delimiter(boundary);
    lemma_boundary(boundary);
    assert forall|i: int| 0 <= i < raw.len() implies {
        &&& starts_well(#[trigger] raw[i].0)
        &&& apart(raw[i].0, multipart::blank_line())
        &&& apart(sent_part(raw[i].0, raw[i].1), sep)
    } by {
        assert(raw[i] == parts[i].bytes());
        assert(sound(parts[i]));
        lemma_headers(parts[i]);
        let piece = sent_part(raw[i].0, raw[i].1);
        assert(piece.last() == line_end()[1]);
        lemma_apart(piece, sep);
    }
    multipart_laws::law_uploads_arrive(raw, boundary);
    lemma_collected(parts);
}

/// The value of a field is its text without the white space around it; a file
/// is taken byte for byte, and a part that names a file is no field.
pub proof fn law_values_are_trimmed_and_files_are_not(line: Seq<char>, content: Seq<u8>)
    ensures
        match multipart::disposed(line, content) {
            PartView::Field { name, text } => text_laws::is_trimmed(bytes::spelled(content), text)
                && multipart::attribute(line, "name"@) == Some(name),
            PartView::File { name, content: c } => c == content && name.len() > 0
                && multipart::attribute(line, "filename"@) == Some(name),
            PartView::Nameless => multipart::attribute(line, "name"@) is None,
            _ => false,
        },
        multipart::attribute(line, "filename"@) matches Some(name) ==> (name.len() > 0
            <==> multipart::disposed(line, content) is File),
{
    text_laws::law_trimming(bytes::spelled(content));
}

} // verus!
