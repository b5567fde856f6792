//! What holds of uploads as they are sent and read.

use vstd::prelude::*;

use crate::bytes;
use crate::multipart;
use crate::multipart::{PartView, Upload};
use crate::text;

verus! {

/// Pieces with a separator between them.
pub open spec fn joined(pieces: Seq<Seq<u8>>, sep: Seq<u8>) -> Seq<u8>
    decreases pieces.len(),
{
    if pieces.len() == 0 {
        Seq::empty()
    } else if pieces.len() == 1 {
        pieces[0]
    } else {
        pieces[0] + sep + joined(pieces.skip(1), sep)
    }
}

/// Where a separator follows, it is found behind the piece and not before.
pub open spec fn apart(piece: Seq<u8>, sep: Seq<u8>) -> bool {
    text::first(piece + sep, sep) == Some(piece.len())
}

/// What follows does not change where the first occurrence stands.
proof fn lemma_first_in_front(s: Seq<u8>, rest: Seq<u8>, pat: Seq<u8>)
    requires
        text::first(s, pat) is Some,
    ensures
        text::first(s + rest, pat) == text::first(s, pat),
{
    text::lemma_first(s, pat);
    text::lemma_first(s + rest, pat);
    let n = text::first(s, pat)->0 as int;
    let whole = s + rest;
    assert forall|k: int| 0 <= k <= n implies #[trigger] text::occurs_at(whole, pat, k)
        == text::occurs_at(s, pat, k) by {
        if k + pat.len() <= s.len() {
            assert(whole.subrange(k, k + pat.len()) =~= s.subrange(k, k + pat.len()));
        }
    }
    assert(text::occurs_at(whole, pat, n));
    match text::first(whole, pat) {
        Some(m) => {
            if m < n {
                assert(text::occurs_at(whole, pat, m as int));
                assert(!text::occurs_at(s, pat, m as int));
            } else if n < m {
                assert(!text::occurs_at(whole, pat, n));
            }
        },
        None => {},
    }
}

/// Splitting gives back what was joined.
pub proof fn law_splitting_undoes_joining(pieces: Seq<Seq<u8>>, sep: Seq<u8>)
    requires
        sep.len() > 0,
        pieces.len() > 0,
        forall|i: int| 0 <= i < pieces.len() - 1 ==> #[trigger] apart(pieces[i], sep),
        text::first(pieces.last(), sep) is None,
    ensures
        bytes::pieces(joined(pieces, sep), sep) == pieces,
    decreases pieces.len(),
{
    let whole = joined(pieces, sep);
    if pieces.len() == 1 {
        assert(pieces =~= seq![pieces[0]]);
    } else {
        let p = pieces[0];
        let rest = joined(pieces.skip(1), sep);
        assert(apart(p, sep));
        lemma_first_in_front(p + sep, rest, sep);
        assert(whole.take(p.len() as int) =~= p);
        assert(whole.skip((p.len() + sep.len()) as int) =~= rest);
        assert forall|i: int| 0 <= i < pieces.skip(1).len() - 1 implies #[trigger] apart(
            pieces.skip(1)[i],
            sep,
        ) by {
            assert(apart(pieces[i + 1], sep));
        }
        assert(pieces.skip(1).last() == pieces.last());
        law_splitting_undoes_joining(pieces.skip(1), sep);
        assert(seq![p] + pieces.skip(1) =~= pieces);
    }
}

/// Joining gives back what was split.
pub proof fn law_joining_undoes_splitting(s: Seq<u8>, sep: Seq<u8>)
    requires
        sep.len() > 0,
    ensures
        joined(bytes::pieces(s, sep), sep) == s,
        bytes::pieces(s, sep).len() > 0,
    decreases s.len(),
{
    text::lemma_first(s, sep);
    let all = bytes::pieces(s, sep);
    match text::first(s, sep) {
        Some(i) => {
            let front = s.take(i as int);
            let rest = s.skip((i + sep.len()) as int);
            assert(text::occurs_at(s, sep, i as int));
            law_joining_undoes_splitting(rest, sep);
            assert(all == seq![front] + bytes::pieces(rest, sep));
            assert(all.skip(1) =~= bytes::pieces(rest, sep));
            assert(s.subrange(i as int, (i + sep.len()) as int) == sep);
            assert(front + sep + rest =~= s);
        },
        None => {},
    }
}

/// A line end.
pub open spec fn line_end() -> Seq<u8> {
    seq![13u8, 10u8]
}

/// A part as it is sent: its headers, a blank line and its content.
pub open spec fn sent_part(headers: Seq<u8>, content: Seq<u8>) -> Seq<u8> {
    line_end() + headers + multipart::blank_line() + content + line_end()
}

/// What a part is by its headers and its content.
pub open spec fn headed(headers: Seq<u8>, content: Seq<u8>) -> PartView {
    let lines = text::lines(bytes::spelled(headers));
    let at = multipart::disposition(lines);
    if at < lines.len() {
        multipart::disposed(lines[at], content)
    } else {
        PartView::Broken
    }
}

/// Headers that start neither as a line end does nor as what closes an upload.
pub open spec fn starts_well(s: Seq<u8>) -> bool {
    s.len() > 0 && s[0] != 13 && s[0] != 45
}

proof fn lemma_strip_back(s: Seq<u8>)
    requires
        starts_well(s),
    ensures
        starts_well(bytes::strip_back(s)),
        bytes::strip_back(s)[0] == s[0],
    decreases s.len(),
{
    if s.len() >= 2 && s[s.len() - 2] == 13 && s[s.len() - 1] == 10 {
        lemma_strip_back(s.take(s.len() - 2));
    }
}

/// A part arrives with the headers and the content that it was sent with.
pub proof fn law_parts_arrive(headers: Seq<u8>, content: Seq<u8>)
    requires
        starts_well(headers),
        apart(headers, multipart::blank_line()),
    ensures
        multipart::part(sent_part(headers, content)) == headed(headers, content),
{
    let raw = sent_part(headers, content);
    let blank = multipart::blank_line();
    let p = headers + blank + content;
    let open = p + line_end();
    assert(raw =~= line_end() + open);
    assert(raw.skip(2) =~= open);
    assert(open[0] == headers[0]);
    assert(bytes::past_line_end(raw) == open);
    assert(open[open.len() - 2] == 13 && open[open.len() - 1] == 10);
    assert(open.take(open.len() - 2) =~= p);
    assert(bytes::before_line_end(open) == p);
    assert(bytes::strip_front(raw) == bytes::strip_front(open));
    assert(bytes::strip_front(open) == open);
    lemma_strip_back(open);
    assert(bytes::stripped(raw) != bytes::latin("--"@)) by {
        reveal_strlit("--");
        assert(bytes::latin("--"@)[0] == 45);
    }
    lemma_first_in_front(headers + blank, content, blank);
    assert(p.take(headers.len() as int) =~= headers);
    assert(p.skip(headers.len() as int + 4) =~= content);
}

/// What closes an upload.
pub open spec fn closing() -> Seq<u8> {
    seq![45u8, 45u8, 13u8, 10u8]
}

/// The pieces of an upload: nothing, the parts, and what closes it.
pub open spec fn sent_pieces(parts: Seq<(Seq<u8>, Seq<u8>)>) -> Seq<Seq<u8>> {
    seq![Seq::<u8>::empty()] + parts.map_values(
        |p: (Seq<u8>, Seq<u8>)| sent_part(p.0, p.1),
    ) + seq![closing()]
}

/// An upload as it is sent, of parts with their headers and contents.
pub open spec fn sent(parts: Seq<(Seq<u8>, Seq<u8>)>, boundary: Seq<char>) -> Seq<u8> {
    joined(sent_pieces(parts), multipart::delimiter(boundary))
}

/// The parts can be told apart by a boundary.
pub open spec fn sendable(parts: Seq<(Seq<u8>, Seq<u8>)>, boundary: Seq<char>) -> bool {
    &&& forall|i: int|
        0 <= i < parts.len() ==> {
            &&& starts_well(#[trigger] parts[i].0)
            &&& apart(parts[i].0, multipart::blank_line())
            &&& apart(sent_part(parts[i].0, parts[i].1), multipart::delimiter(boundary))
        }
    &&& text::first(closing(), multipart::delimiter(boundary)) is None
}

/// The upload that parts with their headers and contents make.
pub open spec fn collected(parts: Seq<(Seq<u8>, Seq<u8>)>) -> Option<Upload>
    decreases parts.len(),
{
    if parts.len() == 0 {
        Some(Upload { file: None, fields: Seq::empty() })
    } else {
        match collected(parts.drop_last()) {
            Some(u) => match headed(parts.last().0, parts.last().1) {
                PartView::Broken => None,
                PartView::File { name, content } => if u.file is None {
                    Some(Upload { file: Some((name, content)), ..u })
                } else {
                    Some(u)
                },
                PartView::Field { name, text } => Some(
                    Upload { fields: u.fields.push((name, text)), ..u },
                ),
                _ => Some(u),
            },
            None => None,
        }
    }
}

proof fn lemma_gathered(parts: Seq<(Seq<u8>, Seq<u8>)>, boundary: Seq<char>)
    requires
        sendable(parts, boundary),
    ensures
        multipart::gathered(
            seq![Seq::<u8>::empty()] + parts.map_values(
                |p: (Seq<u8>, Seq<u8>)| sent_part(p.0, p.1),
            ),
        ) == collected(parts),
    decreases parts.len(),
{
    let raw = |p: (Seq<u8>, Seq<u8>)| sent_part(p.0, p.1);
    let first = seq![Seq::<u8>::empty()];
    let all = first + parts.map_values(raw);
    if parts.len() == 0 {
        assert(all =~= first);
        assert(first.drop_last() =~= Seq::<Seq<u8>>::empty());
        assert(multipart::part(Seq::<u8>::empty()) is Gap);
        assert(multipart::gathered(first.drop_last()) is Some);
    } else {
        let shorter = parts.drop_last();
        assert forall|i: int| 0 <= i < shorter.len() implies {
            &&& starts_well(#[trigger] shorter[i].0)
            &&& apart(shorter[i].0, multipart::blank_line())
            &&& apart(sent_part(shorter[i].0, shorter[i].1), multipart::delimiter(boundary))
        } by {
            assert(starts_well(parts[i].0));
        }
        lemma_gathered(shorter, boundary);
        assert(all.drop_last() =~= first + shorter.map_values(raw));
        let p = parts.last();
        assert(starts_well(parts[parts.len() - 1].0));
        law_parts_arrive(p.0, p.1);
        assert(all.last() == sent_part(p.0, p.1));
    }
}

/// An upload without a file is none.
pub open spec fn with_file(u: Option<Upload>) -> Option<Upload> {
    match u {
        Some(u) => if u.file is Some {
            Some(u)
        } else {
            None
        },
        None => None,
    }
}

/// An upload arrives as it was sent, whatever its parts' headers say: every
/// part with its headers and its content.
pub proof fn law_uploads_arrive(parts: Seq<(Seq<u8>, Seq<u8>)>, boundary: Seq<char>)
    requires
        sendable(parts, boundary),
    ensures
        multipart::upload(sent(parts, boundary), boundary) == with_file(collected(parts)),
{
    let sep = multipart::delimiter(boundary);
    let all = sent_pieces(parts);
    let raw = |p: (Seq<u8>, Seq<u8>)| sent_part(p.0, p.1);
    multipart::lemma_delimiter(boundary);
    assert(all.last() == closing());
    assert forall|i: int| 0 <= i < all.len() - 1 implies #[trigger] apart(all[i], sep) by {
        if i == 0 {
            assert(all[0] =~= Seq::<u8>::empty());
            assert(all[0] + sep =~= sep);
            assert(sep.subrange(0, sep.len() as int) =~= sep);
        } else {
            assert(starts_well(parts[i - 1].0));
            assert(all[i] == sent_part(parts[i - 1].0, parts[i - 1].1));
        }
    }
    law_splitting_undoes_joining(all, sep);
    lemma_gathered(parts, boundary);
    assert(all.drop_last() =~= seq![Seq::<u8>::empty()] + parts.map_values(raw));
    assert(multipart::part(closing()) is Gap) by {
        reveal_strlit("--");
        let dashes = seq![45u8, 45u8];
        assert(bytes::strip_front(closing()) == closing());
        assert(closing().take(2) =~= dashes);
        assert(bytes::strip_back(closing()) == bytes::strip_back(dashes));
        assert(bytes::strip_back(dashes) == dashes);
        assert(bytes::latin("--"@) =~= dashes);
    }
}

} // verus!
