//! What the contents of documents and trees are, and how a picture file
//! becomes a document.

use vstd::prelude::*;

use crate::bytes;
use crate::config_laws;
use crate::converted;
use crate::document;
use crate::document::{Node, NodeView, Wrap};
use crate::paths;
use crate::text;
use crate::tree::{ItemTree, Kind, TreeKind};

verus! {

broadcast use vstd::string::group_string_axioms;

/// The contents of a node are what it holds, each under its own name.
pub proof fn law_contents_of_nodes(n: Node, i: int)
    ensures
        n matches Node::Paragraph { text } ==> n@ == (NodeView::Paragraph { text: text@ }),
        n matches Node::Code { text } ==> n@ == (NodeView::Code { text: text@ }),
        n matches Node::Caption { text, href } ==> n@ == (NodeView::Caption {
            text: text@,
            href: href@,
        }),
        n matches Node::PageInfo { page_no, key } ==> n@ == (NodeView::PageInfo { page_no, key }),
        n matches Node::Other { key } ==> n@ == (NodeView::Other { key }),
        n matches Node::Furniture { layer, inner } ==> n@ == (NodeView::Furniture {
            layer,
            inner: Box::new(inner@),
        }),
        n matches Node::Located { location, inner } ==> n@ == (NodeView::Located {
            location,
            inner: Box::new(inner@),
        }),
        n matches Node::DoclangOnly(inner) ==> n@ == NodeView::DoclangOnly(Box::new(inner@)),
        n matches Node::Group { key, layer, children } ==> (n@ matches NodeView::Group {
            key: k,
            layer: l,
            children: c,
        } && k == key && l == layer && c.len() == children@.len() && (0 <= i < c.len() ==> c[i]
            == children@[i]@)),
        n matches Node::Picture { key, caption, caption_href, image } ==> (
        n@ matches NodeView::Picture { key: k, caption: c, caption_href: h, image: m } && k == key
            && c == text::opt_view(caption) && h == text::opt_view(caption_href) && (m is Some
            <==> image is Some) && (image is Some ==> m->0.data == image->0.data@ && m->0.mimetype
            == image->0.mimetype@ && m->0.width == image->0.width && m->0.height
            == image->0.height)),
        n matches Node::Table { key, rows, location, cells } ==> (n@ matches NodeView::Table {
            key: k,
            rows: r,
            location: l,
            cells: c,
        } && k == key && l == location && r.len() == rows@.len() && c.len() == cells@.len() && (0
            <= i < c.len() ==> c[i] == document::nodes_view(cells@[i]@))),
{
    reveal_with_fuel(document::node_view, 2);
    reveal_with_fuel(document::nodes_view, 2);
    reveal_with_fuel(document::cells_view, 2);
}

/// The contents of a tree are those of its items, in their order, and what
/// stands at the top.
pub proof fn law_contents_of_trees(t: ItemTree, i: int)
    ensures
        t@.body == t.body@,
        t@.items.len() == t.items@.len(),
        0 <= i < t.items@.len() ==> {
            let a = t.items@[i];
            let b = t@.items[i];
            &&& b.parent == a.parent
            &&& b.children == a.children@
            &&& b.layer == a.layer
            &&& b.prov == a.prov
            &&& b.comments == a.comments@
            &&& b.source == a.source
            &&& b.deleted == a.deleted
            &&& b.kind == a.kind@
        },
{
}

/// The contents of an item say what it is.
pub proof fn law_contents_of_kinds(k: TreeKind)
    ensures
        k matches TreeKind::Text { text } ==> k@ == (Kind::Text { text: text@ }),
        k matches TreeKind::Code { text } ==> k@ == (Kind::Code { text: text@ }),
        k matches TreeKind::Other { key } ==> k@ == (Kind::Other { key }),
        k matches TreeKind::Table { key, rows } ==> (k@ matches Kind::Table { key: q, rows: r } && q
            == key && r.len() == rows@.len()),
        k matches TreeKind::Picture { key, image } ==> (k@ matches Kind::Picture {
            key: q,
            image: m,
        } && q == key && (m is Some <==> image is Some) && (image is Some ==> m->0.data
            == image->0.data@ && m->0.mimetype == image->0.mimetype@)),
{
}

/// A wrapper around a node is the outermost, and what it holds is what the
/// node holds.
pub proof fn law_wrappers(w: Wrap, n: NodeView)
    ensures
        document::wraps(document::wrapped(w, n)) == seq![w] + document::wraps(n),
        document::inside(document::wrapped(w, n)) == document::inside(n),
        !document::is_wrapper(n) ==> document::wraps(n).len() == 0 && document::inside(n) == n,
        !document::is_wrapper(document::inside(n)),
    decreases n,
{
    match n {
        NodeView::Furniture { inner, .. } => law_wrappers(w, *inner),
        NodeView::Located { inner, .. } => law_wrappers(w, *inner),
        NodeView::DoclangOnly(inner) => law_wrappers(w, *inner),
        _ => {},
    }
}

/// A picture file is of the type that its first bytes show.
pub proof fn law_types_of_picture_files(name: Seq<char>, rest: Seq<u8>)
    ensures
        converted::picture_mime(name, seq![0xffu8, 0xd8, 0xff] + rest) == "image/jpeg"@,
        converted::picture_mime(name, seq![0x42u8, 0x4d] + rest) == "image/bmp"@,
        converted::picture_mime(name, seq![0x47u8, 0x49, 0x46, 0x38, 0x39, 0x61] + rest)
            == "image/gif"@,
        converted::picture_mime(name, seq![0x49u8, 0x49, 0x2a, 0x00] + rest) == "image/tiff"@,
{
    reveal_strlit("\u{ff}\u{d8}\u{ff}");
    reveal_strlit("GIF87a");
    reveal_strlit("GIF89a");
    reveal_strlit("BM");
    reveal_strlit("II*\0");
    reveal_strlit("MM\0*");
    let jpg = seq![0xffu8, 0xd8, 0xff];
    let bmp = seq![0x42u8, 0x4d];
    let gif = seq![0x47u8, 0x49, 0x46, 0x38, 0x39, 0x61];
    let tif = seq![0x49u8, 0x49, 0x2a, 0x00];
    assert(bytes::latin("\u{ff}\u{d8}\u{ff}"@) =~= jpg);
    assert(bytes::latin("BM"@) =~= bmp);
    assert(bytes::latin("GIF89a"@) =~= gif);
    assert(bytes::latin("II*\0"@) =~= tif);
    assert(bytes::latin("GIF87a"@)[0] == 0x47);
    lemma_start(jpg, rest, "\u{ff}\u{d8}\u{ff}"@);
    lemma_start(bmp, rest, "BM"@);
    lemma_start(gif, rest, "GIF89a"@);
    lemma_start(tif, rest, "II*\0"@);
    lemma_other(bmp + rest, "\u{ff}\u{d8}\u{ff}"@);
    lemma_other(bmp + rest, "GIF87a"@);
    lemma_other(bmp + rest, "GIF89a"@);
    lemma_other(gif + rest, "\u{ff}\u{d8}\u{ff}"@);
    lemma_other(tif + rest, "\u{ff}\u{d8}\u{ff}"@);
    lemma_other(tif + rest, "GIF87a"@);
    lemma_other(tif + rest, "GIF89a"@);
    lemma_other(tif + rest, "BM"@);
}

proof fn lemma_start(sig: Seq<u8>, rest: Seq<u8>, word: Seq<char>)
    requires
        bytes::latin(word) == sig,
    ensures
        bytes::signed(sig + rest, word),
{
    config_laws::lemma_signed(sig + rest, word);
    assert((sig + rest).take(sig.len() as int) =~= sig);
}

proof fn lemma_other(s: Seq<u8>, word: Seq<char>)
    requires
        s.len() > 0,
        bytes::latin(word).len() > 0,
        s[0] != bytes::latin(word)[0],
    ensures
        !bytes::signed(s, word),
{
    config_laws::lemma_signed(s, word);
    let sig = bytes::latin(word);
    if sig.len() <= s.len() && s.take(sig.len() as int) == sig {
        assert(s.take(sig.len() as int)[0] == s[0]);
    }
}

/// A picture file becomes a document with the stem of its name and one
/// picture: the whole file, in its size.
pub proof fn law_a_picture_file_is_a_document(
    name: Seq<char>,
    data: Seq<u8>,
    strict: bool,
    size: (u32, u32),
)
    ensures
        ({
            let d = converted::one_picture(name, data, strict, size);
            &&& d.nodes.len() == 1
            &&& d.nodes[0] matches NodeView::Picture { image, caption, .. } && caption is None
                && image is Some && image->0.data == data && image->0.width == size.0
                && image->0.height == size.1 && image->0.mimetype == converted::picture_mime(
                name,
                data,
            )
            &&& d.tree is None
            &&& d.strict_markdown == strict
            &&& paths::stem(name) is Some ==> d.name == paths::stem(name)->0
            &&& paths::stem(name) is None ==> d.name == name
        }),
{
}

} // verus!
