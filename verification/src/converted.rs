//! A converted document in both its representations, and picture OCR over the
//! one that is exported.

use vstd::prelude::*;

use crate::bytes;
use crate::document;
use crate::document::{Image, Node, NodeView, PictureImage};
use crate::engine::{OcrOutcome, Outcome};
use crate::local;
use crate::paths;
use crate::postprocess;
use crate::postprocess::{OcrStats, OutputTarget, PostOptions, Tally};
use crate::text;
use crate::tree;
use crate::tree::{ItemTree, Tree};

verus! {

broadcast use vstd::string::group_string_axioms;

/// How an export shows pictures.
#[derive(Debug, Clone, Copy, PartialEq, Eq, Structural)]
pub enum ImageMode {
    /// A mark in their place.
    Placeholder,
    /// The image within the document.
    Embedded,
    /// A link to a file beside the document.
    Referenced,
}

/// A converted document: a list of nodes, and an item tree where the
/// converter made one, which JSON is then exported from.
#[derive(Debug, PartialEq, Eq)]
pub struct Document {
    pub name: String,
    pub nodes: Vec<Node>,
    pub tree: Option<ItemTree>,
    /// Markdown without extensions.
    pub strict_markdown: bool,
    /// What stands between two pages.
    pub page_break_placeholder: Option<String>,
}

/// The contents of a [`Document`].
#[verifier::ext_equal]
pub struct Contents {
    pub name: Seq<char>,
    pub nodes: Seq<NodeView>,
    pub tree: Option<Tree>,
    pub strict_markdown: bool,
    pub page_break_placeholder: Option<Seq<char>>,
}

impl View for Document {
    type V = Contents;

    open spec fn view(&self) -> Contents {
        Contents {
            name: self.name@,
            nodes: document::nodes_view(self.nodes@),
            tree: match self.tree {
                Some(t) => Some(t@),
                None => None,
            },
            strict_markdown: self.strict_markdown,
            page_break_placeholder: text::opt_view(self.page_break_placeholder),
        }
    }
}

impl Contents {
    /// The item tree is what it should be, where there is one.
    pub open spec fn well_formed(self) -> bool {
        match self.tree {
            Some(t) => t.well_formed(),
            None => true,
        }
    }

    /// The item tree is what is exported.
    pub open spec fn exports_tree(self, opts: PostOptions) -> bool {
        opts.target == OutputTarget::Json && self.tree is Some
    }

    /// The images to recognise text in, in the order of their outcomes.
    /// `covers` lists the pairs of a picture and a table of the item tree
    /// that the picture's box contains.
    pub open spec fn requests(self, covers: Seq<(usize, usize)>, opts: PostOptions) -> Seq<Image> {
        if self.exports_tree(opts) {
            tree::tree_requests(self.tree->0, covers, opts)
        } else {
            postprocess::requests(self.nodes, opts)
        }
    }

    /// The document with what was recognised put in its place.
    pub open spec fn transformed(
        self,
        covers: Seq<(usize, usize)>,
        opts: PostOptions,
        outcomes: Seq<Option<Outcome>>,
    ) -> Contents {
        if self.exports_tree(opts) {
            Contents {
                tree: Some(tree::tree_transformed(self.tree->0, covers, opts, outcomes)),
                ..self
            }
        } else {
            Contents { nodes: postprocess::transformed(self.nodes, opts, outcomes), ..self }
        }
    }

    /// What is counted on the way.
    pub open spec fn counted(
        self,
        covers: Seq<(usize, usize)>,
        opts: PostOptions,
        outcomes: Seq<Option<Outcome>>,
    ) -> Tally {
        if self.exports_tree(opts) {
            tree::tree_counted(self.tree->0, covers, opts, outcomes)
        } else {
            postprocess::counted(self.nodes, opts, outcomes)
        }
    }
}

/// The images of a document to recognise text in.
pub fn images_to_read<'a>(doc: &'a Document, covers: &[(usize, usize)], opts: &PostOptions) -> (r:
    Vec<&'a PictureImage>)
    requires
        doc@.well_formed(),
    ensures
        postprocess::image_views(r@) == doc@.requests(covers@, *opts),
{
    if opts.target == OutputTarget::Json {
        if let Some(t) = &doc.tree {
            return tree::tree_pictures_to_read(t, covers, opts);
        }
    }
    postprocess::pictures_to_read(&doc.nodes, opts)
}

/// Put what was recognised into the representation that is exported, and
/// count.
pub fn apply(
    doc: &mut Document,
    covers: &[(usize, usize)],
    opts: &PostOptions,
    outcomes: &[Option<OcrOutcome>],
) -> (stats: OcrStats)
    requires
        old(doc)@.well_formed(),
        outcomes@.len() == old(doc)@.requests(covers@, *opts).len(),
        postprocess::list_pictures(old(doc)@.nodes, *opts) <= usize::MAX,
    ensures
        final(doc)@ == old(doc)@.transformed(
            covers@,
            *opts,
            postprocess::outcome_views(outcomes@),
        ),
        final(doc)@.well_formed(),
        stats@ == old(doc)@.counted(covers@, *opts, postprocess::outcome_views(outcomes@)),
{
    if opts.target == OutputTarget::Json {
        let mut held: Option<ItemTree> = None;
        core::mem::swap(&mut held, &mut doc.tree);
        match held {
            Some(t) => {
                let mut t = t;
                let stats = tree::apply_tree(&mut t, covers, opts, outcomes);
                doc.tree = Some(t);
                return stats;
            },
            None => {},
        }
    }
    let mut nodes: Vec<Node> = Vec::new();
    core::mem::swap(&mut nodes, &mut doc.nodes);
    let (out, stats) = postprocess::apply_nodes(nodes, opts, outcomes);
    doc.nodes = out;
    stats
}

/// Only the representation that is exported changes.
pub proof fn law_only_what_is_exported_changes(
    doc: Contents,
    covers: Seq<(usize, usize)>,
    opts: PostOptions,
    outcomes: Seq<Option<Outcome>>,
)
    ensures
        doc.exports_tree(opts) ==> doc.transformed(covers, opts, outcomes).nodes == doc.nodes,
        !doc.exports_tree(opts) ==> doc.transformed(covers, opts, outcomes).tree == doc.tree,
        doc.transformed(covers, opts, outcomes).name == doc.name,
        doc.transformed(covers, opts, outcomes).strict_markdown == doc.strict_markdown,
        doc.transformed(covers, opts, outcomes).page_break_placeholder
            == doc.page_break_placeholder,
{
}

/// The MIME type that a picture file's signature shows, or else its
/// extension, and PNG where neither does.
pub open spec fn picture_mime(name: Seq<char>, data: Seq<u8>) -> Seq<char> {
    if bytes::signed(data, "\u{ff}\u{d8}\u{ff}"@) {
        "image/jpeg"@
    } else if bytes::signed(data, "GIF87a"@) || bytes::signed(data, "GIF89a"@) {
        "image/gif"@
    } else if bytes::signed(data, "BM"@) {
        "image/bmp"@
    } else if bytes::signed(data, "II*\0"@) || bytes::signed(data, "MM\0*"@) {
        "image/tiff"@
    } else if data.len() >= 12 && bytes::signed(data, "RIFF"@) && bytes::signed(
        data.skip(8),
        "WEBP"@,
    ) {
        "image/webp"@
    } else {
        match paths::extension(name) {
            Some(ext) => extension_mime(text::lowercase(ext)),
            None => "image/png"@,
        }
    }
}

/// The MIME type of pictures with an extension, in lower case.
pub open spec fn extension_mime(ext: Seq<char>) -> Seq<char> {
    if ext == "jpg"@ || ext == "jpeg"@ {
        "image/jpeg"@
    } else if ext == "gif"@ {
        "image/gif"@
    } else if ext == "bmp"@ {
        "image/bmp"@
    } else if ext == "tif"@ || ext == "tiff"@ {
        "image/tiff"@
    } else if ext == "webp"@ {
        "image/webp"@
    } else {
        "image/png"@
    }
}

fn picture_mime_of(name: &str, data: &[u8]) -> (r: &'static str)
    ensures
        r@ == picture_mime(name@, data@),
{
    if bytes::is_signed(data, "\u{ff}\u{d8}\u{ff}") {
        return "image/jpeg";
    }
    if bytes::is_signed(data, "GIF87a") || bytes::is_signed(data, "GIF89a") {
        return "image/gif";
    }
    if bytes::is_signed(data, "BM") {
        return "image/bmp";
    }
    if bytes::is_signed(data, "II*\0") || bytes::is_signed(data, "MM\0*") {
        return "image/tiff";
    }
    if data.len() >= 12 && bytes::is_signed(data, "RIFF") && bytes::is_signed(
        vstd::slice::slice_subrange(data, 8, data.len()),
        "WEBP",
    ) {
        return "image/webp";
    }
    match paths::extension_of(name) {
        Some(e) => {
            let ext = text::lowered(&text::chars_of(&e));
            if text::same_chars(&ext, "jpg") || text::same_chars(&ext, "jpeg") {
                "image/jpeg"
            } else if text::same_chars(&ext, "gif") {
                "image/gif"
            } else if text::same_chars(&ext, "bmp") {
                "image/bmp"
            } else if text::same_chars(&ext, "tif") || text::same_chars(&ext, "tiff") {
                "image/tiff"
            } else if text::same_chars(&ext, "webp") {
                "image/webp"
            } else {
                "image/png"
            }
        },
        None => "image/png",
    }
}

/// The document made of one picture file of a given size.
pub open spec fn one_picture(
    name: Seq<char>,
    data: Seq<u8>,
    strict: bool,
    size: (u32, u32),
) -> Contents {
    Contents {
        name: match paths::stem(name) {
            Some(stem) => stem,
            None => name,
        },
        nodes: seq![
            NodeView::Picture {
                key: 0,
                caption: None,
                caption_href: None,
                image: Some(
                    Image {
                        mimetype: picture_mime(name, data),
                        width: size.0,
                        height: size.1,
                        data,
                    },
                ),
            },
        ],
        tree: None,
        strict_markdown: strict,
        page_break_placeholder: None,
    }
}

/// Wrap an image file as a document that holds one picture. Its width and
/// height are 0 where the file cannot be decoded.
pub fn one_picture_document(name: &str, data: Vec<u8>, strict: bool) -> (r: Document)
    ensures
        r@ == one_picture(name@, data@, strict, local::file_size(data@)),
{
    let size = local::image_size(&data);
    picture_document(name, data, strict, size)
}

/// Wrap an image file of a given size as a document that holds one picture.
pub fn picture_document(name: &str, data: Vec<u8>, strict: bool, size: (u32, u32)) -> (r: Document)
    ensures
        r@ == one_picture(name@, data@, strict, size),
{
    let mimetype = picture_mime_of(name, &data).to_owned();
    let title = match paths::stem_of(name) {
        Some(stem) => stem,
        None => name.to_owned(),
    };
    let image = PictureImage { mimetype, width: size.0, height: size.1, data };
    let picture = Node::Picture {
        key: 0,
        caption: None,
        caption_href: None,
        image: Some(image),
    };
    let ghost shown = picture@;
    let mut nodes: Vec<Node> = Vec::new();
    nodes.push(picture);
    assert(document::nodes_view(nodes@) =~= seq![shown]);
    Document { name: title, nodes, tree: None, strict_markdown: strict, page_break_placeholder: None }
}

/// A picture file is read unless it is known to be too small; a size of 0
/// stands for one that is not known.
pub proof fn law_a_picture_file_is_read(
    name: Seq<char>,
    data: Seq<u8>,
    strict: bool,
    size: (u32, u32),
    covers: Seq<(usize, usize)>,
    opts: PostOptions,
)
    ensures
        one_picture(name, data, strict, size).requests(covers, opts) == (if postprocess::too_small(
            size.0,
            size.1,
            opts,
        ) {
            Seq::<Image>::empty()
        } else {
            seq![
                Image {
                    mimetype: picture_mime(name, data),
                    width: size.0,
                    height: size.1,
                    data,
                },
            ]
        }),
        size == (0u32, 0u32) ==> !postprocess::too_small(size.0, size.1, opts),
{
    let doc = one_picture(name, data, strict, size);
    let n = doc.nodes[0];
    assert(doc.nodes =~= seq![n]);
    reveal_with_fuel(postprocess::list_requests, 3);
    reveal_with_fuel(postprocess::node_requests, 3);
    reveal_with_fuel(postprocess::list_regions, 3);
    reveal_with_fuel(postprocess::node_regions, 3);
    reveal_with_fuel(document::wraps, 2);
    reveal_with_fuel(document::inside, 2);
    assert(size.0 == 0 ==> size.0 * size.1 == 0) by (nonlinear_arith);
}

} // verus!
