//! A converted document as a list of nodes: what picture OCR reads of each
//! node as plain values, and a key for the rest, which belongs to the caller.

use vstd::prelude::*;

use crate::text;

verus! {

/// A content layer other than the body.
#[derive(Debug, Clone, Copy, PartialEq, Eq, Structural)]
pub enum ContentLayer {
    /// Page headers and footers, navigation.
    Furniture,
    /// Speaker notes and comments.
    Notes,
    /// Hidden content.
    Invisible,
}

/// An embedded image file. Width and height are 0 when they are unknown.
#[derive(Debug, PartialEq, Eq)]
pub struct PictureImage {
    pub mimetype: String,
    pub width: u32,
    pub height: u32,
    pub data: Vec<u8>,
}

/// The contents of a [`PictureImage`].
pub struct Image {
    pub mimetype: Seq<char>,
    pub width: u32,
    pub height: u32,
    pub data: Seq<u8>,
}

impl View for PictureImage {
    type V = Image;

    open spec fn view(&self) -> Image {
        Image {
            mimetype: self.mimetype@,
            width: self.width,
            height: self.height,
            data: self.data@,
        }
    }
}

#[allow(inconsistent_fields)]
/// A document node. `key` names what the caller keeps of the node besides.
#[derive(Debug, PartialEq, Eq)]
pub enum Node {
    /// The mark at which a page begins.
    PageInfo { page_no: usize, key: u64 },
    /// A node on a layer other than the body.
    Furniture { layer: ContentLayer, inner: Box<Node> },
    /// A node with its place on the page: left, top, right, bottom.
    Located { location: [u16; 4], inner: Box<Node> },
    /// A node that only DocLang output shows.
    DoclangOnly(Box<Node>),
    /// A group of nodes, which may stand on a layer of its own.
    Group { key: u64, layer: Option<ContentLayer>, children: Vec<Node> },
    /// A table: its text cells, its place, and the blocks of its rich cells.
    Table { key: u64, rows: Vec<Vec<String>>, location: Option<[u16; 4]>, cells: Vec<Vec<Node>> },
    /// A picture with its caption, the caption's link and the image file.
    Picture {
        key: u64,
        caption: Option<String>,
        caption_href: Option<String>,
        image: Option<PictureImage>,
    },
    /// Body text.
    Paragraph { text: String },
    /// Body text that links somewhere.
    Caption { text: String, href: String },
    /// A code block.
    Code { text: String },
    /// Any other node.
    Other { key: u64 },
}

#[allow(inconsistent_fields)]
/// The contents of a [`Node`].
pub enum NodeView {
    PageInfo { page_no: usize, key: u64 },
    Furniture { layer: ContentLayer, inner: Box<NodeView> },
    Located { location: [u16; 4], inner: Box<NodeView> },
    DoclangOnly(Box<NodeView>),
    Group { key: u64, layer: Option<ContentLayer>, children: Seq<NodeView> },
    Table {
        key: u64,
        rows: Seq<Seq<Seq<char>>>,
        location: Option<[u16; 4]>,
        cells: Seq<Seq<NodeView>>,
    },
    Picture {
        key: u64,
        caption: Option<Seq<char>>,
        caption_href: Option<Seq<char>>,
        image: Option<Image>,
    },
    Paragraph { text: Seq<char> },
    Caption { text: Seq<char>, href: Seq<char> },
    Code { text: Seq<char> },
    Other { key: u64 },
}

/// The contents of a list of nodes.
pub open spec fn nodes_view(s: Seq<Node>) -> Seq<NodeView>
    decreases s,
{
    Seq::new(
        s.len(),
        |i: int|
            if 0 <= i < s.len() {
                node_view(s[i])
            } else {
                arbitrary()
            },
    )
}

/// The text cells of a table.
pub open spec fn rows_view(rows: Seq<Vec<String>>) -> Seq<Seq<Seq<char>>> {
    rows.map_values(|r: Vec<String>| text::string_views(r@))
}

/// The blocks of a table's rich cells.
pub open spec fn cells_view(cells: Seq<Vec<Node>>) -> Seq<Seq<NodeView>>
    decreases cells,
{
    Seq::new(
        cells.len(),
        |i: int|
            if 0 <= i < cells.len() {
                nodes_view(cells[i]@)
            } else {
                arbitrary()
            },
    )
}

/// The contents of a node.
pub open spec fn node_view(n: Node) -> NodeView
    decreases n,
{
    match n {
        Node::PageInfo { page_no, key } => NodeView::PageInfo { page_no, key },
        Node::Furniture { layer, inner } => NodeView::Furniture {
            layer,
            inner: Box::new(node_view(*inner)),
        },
        Node::Located { location, inner } => NodeView::Located {
            location,
            inner: Box::new(node_view(*inner)),
        },
        Node::DoclangOnly(inner) => NodeView::DoclangOnly(Box::new(node_view(*inner))),
        Node::Group { key, layer, children } => NodeView::Group {
            key,
            layer,
            children: nodes_view(children@),
        },
        Node::Table { key, rows, location, cells } => NodeView::Table {
            key,
            rows: rows_view(rows@),
            location,
            cells: cells_view(cells@),
        },
        Node::Picture { key, caption, caption_href, image } => NodeView::Picture {
            key,
            caption: text::opt_view(caption),
            caption_href: text::opt_view(caption_href),
            image: match image {
                Some(i) => Some(i@),
                None => None,
            },
        },
        Node::Paragraph { text } => NodeView::Paragraph { text: text@ },
        Node::Caption { text, href } => NodeView::Caption { text: text@, href: href@ },
        Node::Code { text } => NodeView::Code { text: text@ },
        Node::Other { key } => NodeView::Other { key },
    }
}

impl View for Node {
    type V = NodeView;

    open spec fn view(&self) -> NodeView {
        node_view(*self)
    }
}

/// How many nodes a node is made of.
pub open spec fn weight(n: NodeView) -> nat
    decreases n,
{
    match n {
        NodeView::Furniture { inner, .. } => 1 + weight(*inner),
        NodeView::Located { inner, .. } => 1 + weight(*inner),
        NodeView::DoclangOnly(inner) => 1 + weight(*inner),
        NodeView::Group { children, .. } => 1 + weights(children),
        NodeView::Table { cells, .. } => 1 + cell_weights(cells),
        _ => 1,
    }
}

/// How many nodes a list of nodes is made of.
pub open spec fn weights(s: Seq<NodeView>) -> nat
    decreases s,
{
    if s.len() == 0 {
        0
    } else {
        weight(s[0]) + weights(s.skip(1))
    }
}

/// How many nodes the rich cells of a table are made of.
pub open spec fn cell_weights(s: Seq<Seq<NodeView>>) -> nat
    decreases s,
{
    if s.len() == 0 {
        0
    } else {
        weights(s[0]) + cell_weights(s.skip(1))
    }
}

/// A wrapper around a node.
#[derive(Debug, Clone, Copy)]
pub enum Wrap {
    Furniture(ContentLayer),
    Located([u16; 4]),
    Doclang,
}

/// The wrappers of a node, from the outside in.
pub open spec fn wraps(n: NodeView) -> Seq<Wrap>
    decreases n,
{
    match n {
        NodeView::Furniture { layer, inner } => seq![Wrap::Furniture(layer)] + wraps(*inner),
        NodeView::Located { location, inner } => seq![Wrap::Located(location)] + wraps(*inner),
        NodeView::DoclangOnly(inner) => seq![Wrap::Doclang] + wraps(*inner),
        _ => seq![],
    }
}

/// What a node's wrappers hold.
pub open spec fn inside(n: NodeView) -> NodeView
    decreases n,
{
    match n {
        NodeView::Furniture { inner, .. } => inside(*inner),
        NodeView::Located { inner, .. } => inside(*inner),
        NodeView::DoclangOnly(inner) => inside(*inner),
        _ => n,
    }
}

/// One wrapper put around a node.
pub open spec fn wrapped(w: Wrap, n: NodeView) -> NodeView {
    match w {
        Wrap::Furniture(layer) => NodeView::Furniture { layer, inner: Box::new(n) },
        Wrap::Located(location) => NodeView::Located { location, inner: Box::new(n) },
        Wrap::Doclang => NodeView::DoclangOnly(Box::new(n)),
    }
}

/// Wrappers put around a node, the first one outermost.
pub open spec fn rewrapped(ws: Seq<Wrap>, n: NodeView) -> NodeView
    decreases ws.len(),
{
    if ws.len() == 0 {
        n
    } else {
        wrapped(ws[0], rewrapped(ws.skip(1), n))
    }
}

/// A node is a wrapper.
pub open spec fn is_wrapper(n: NodeView) -> bool {
    n is Furniture || n is Located || n is DoclangOnly
}

/// Peeling a node and putting its wrappers back gives the node, and what was
/// inside is no wrapper.
pub proof fn law_rewrap_undoes_peel(n: NodeView)
    ensures
        rewrapped(wraps(n), inside(n)) == n,
        !is_wrapper(inside(n)),
    decreases n,
{
    match n {
        NodeView::Furniture { layer, inner } => {
            law_rewrap_undoes_peel(*inner);
            assert(wraps(n).skip(1) == wraps(*inner));
        },
        NodeView::Located { location, inner } => {
            law_rewrap_undoes_peel(*inner);
            assert(wraps(n).skip(1) == wraps(*inner));
        },
        NodeView::DoclangOnly(inner) => {
            law_rewrap_undoes_peel(*inner);
            assert(wraps(n).skip(1) == wraps(*inner));
        },
        _ => {},
    }
}

/// Peeling a node that wrappers were put around gives those wrappers and then
/// its own, and what is inside does not change.
pub proof fn law_peel_undoes_rewrap(ws: Seq<Wrap>, n: NodeView)
    ensures
        wraps(rewrapped(ws, n)) == ws + wraps(n),
        inside(rewrapped(ws, n)) == inside(n),
    decreases ws.len(),
{
    if ws.len() > 0 {
        law_peel_undoes_rewrap(ws.skip(1), n);
        assert(seq![ws[0]] + (ws.skip(1) + wraps(n)) == ws + wraps(n));
    } else {
        assert(ws + wraps(n) == wraps(n));
    }
}

pub proof fn lemma_inside_weight(n: NodeView)
    ensures
        weight(inside(n)) <= weight(n),
        weight(n) >= 1,
    decreases n,
{
    match n {
        NodeView::Furniture { inner, .. } => lemma_inside_weight(*inner),
        NodeView::Located { inner, .. } => lemma_inside_weight(*inner),
        NodeView::DoclangOnly(inner) => lemma_inside_weight(*inner),
        _ => {},
    }
}

/// Take the wrappers off a node.
pub fn peel(node: Node) -> (r: (Vec<Wrap>, Node))
    ensures
        r.0@ == wraps(node@),
        r.1@ == inside(node@),
{
    let ghost whole = node@;
    let mut ws: Vec<Wrap> = Vec::new();
    let mut cur = node;
    loop
        invariant
            whole == node@,
            wraps(whole) == ws@ + wraps(cur@),
            inside(whole) == inside(cur@),
        decreases weight(cur@),
    {
        match cur {
            Node::Furniture { layer, inner } => {
                assert(ws@ + (seq![Wrap::Furniture(layer)] + wraps(inner@)) == ws@.push(
                    Wrap::Furniture(layer),
                ) + wraps(inner@));
                ws.push(Wrap::Furniture(layer));
                cur = *inner;
            },
            Node::Located { location, inner } => {
                assert(ws@ + (seq![Wrap::Located(location)] + wraps(inner@)) == ws@.push(
                    Wrap::Located(location),
                ) + wraps(inner@));
                ws.push(Wrap::Located(location));
                cur = *inner;
            },
            Node::DoclangOnly(inner) => {
                assert(ws@ + (seq![Wrap::Doclang] + wraps(inner@)) == ws@.push(Wrap::Doclang)
                    + wraps(inner@));
                ws.push(Wrap::Doclang);
                cur = *inner;
            },
            other => {
                assert(ws@ + Seq::<Wrap>::empty() == ws@);
                return (ws, other);
            },
        }
    }
}

/// Look through the wrappers of a node.
pub fn peel_ref<'a>(node: &'a Node) -> (r: (Vec<Wrap>, &'a Node))
    ensures
        r.0@ == wraps(node@),
        r.1@ == inside(node@),
{
    let mut ws: Vec<Wrap> = Vec::new();
    let mut cur: &'a Node = node;
    loop
        invariant
            wraps(node@) == ws@ + wraps(cur@),
            inside(node@) == inside(cur@),
        decreases weight(cur@),
    {
        match cur {
            Node::Furniture { layer, inner } => {
                assert(ws@ + (seq![Wrap::Furniture(*layer)] + wraps(inner@)) == ws@.push(
                    Wrap::Furniture(*layer),
                ) + wraps(inner@));
                ws.push(Wrap::Furniture(*layer));
                cur = &**inner;
            },
            Node::Located { location, inner } => {
                assert(ws@ + (seq![Wrap::Located(*location)] + wraps(inner@)) == ws@.push(
                    Wrap::Located(*location),
                ) + wraps(inner@));
                ws.push(Wrap::Located(*location));
                cur = &**inner;
            },
            Node::DoclangOnly(inner) => {
                assert(ws@ + (seq![Wrap::Doclang] + wraps(inner@)) == ws@.push(Wrap::Doclang)
                    + wraps(inner@));
                ws.push(Wrap::Doclang);
                cur = &**inner;
            },
            _ => {
                assert(ws@ + Seq::<Wrap>::empty() == ws@);
                return (ws, cur);
            },
        }
    }
}

/// Put wrappers around a node, the first one outermost.
pub fn rewrap(ws: &[Wrap], node: Node) -> (r: Node)
    ensures
        r@ == rewrapped(ws@, node@),
{
    let ghost bare = node@;
    let mut cur = node;
    let mut i: usize = ws.len();
    while i > 0
        invariant
            i <= ws@.len(),
            cur@ == rewrapped(ws@.skip(i as int), bare),
        decreases i,
    {
        i -= 1;
        assert(ws@.skip(i as int).skip(1) == ws@.skip(i + 1));
        cur = match ws[i] {
            Wrap::Furniture(layer) => Node::Furniture { layer, inner: Box::new(cur) },
            Wrap::Located(location) => Node::Located { location, inner: Box::new(cur) },
            Wrap::Doclang => Node::DoclangOnly(Box::new(cur)),
        };
    }
    assert(ws@.skip(0) == ws@);
    cur
}


pub proof fn lemma_nodes_push(s: Seq<Node>, n: Node)
    ensures
        nodes_view(s.push(n)) == nodes_view(s).push(n@),
{
    assert(nodes_view(s.push(n)) =~= nodes_view(s).push(n@));
}

pub proof fn lemma_nodes_rest(s: Seq<Node>, i: int)
    requires
        0 <= i < s.len(),
    ensures
        nodes_view(s).skip(i)[0] == s[i]@,
        nodes_view(s).skip(i).skip(1) == nodes_view(s).skip(i + 1),
        nodes_view(s).skip(i).len() > 0,
        weights(nodes_view(s).skip(i)) == weight(s[i]@) + weights(nodes_view(s).skip(i + 1)),
{
    assert(nodes_view(s).skip(i).skip(1) =~= nodes_view(s).skip(i + 1));
}

pub proof fn lemma_cells_rest(s: Seq<Vec<Node>>, i: int)
    requires
        0 <= i < s.len(),
    ensures
        cells_view(s).skip(i)[0] == nodes_view(s[i]@),
        cells_view(s).skip(i).skip(1) == cells_view(s).skip(i + 1),
        cells_view(s).skip(i).len() > 0,
        cell_weights(cells_view(s).skip(i)) == weights(nodes_view(s[i]@)) + cell_weights(
            cells_view(s).skip(i + 1),
        ),
{
    assert(cells_view(s).skip(i).skip(1) =~= cells_view(s).skip(i + 1));
}

} // verus!
