//! The document transform: find every picture that carries an image file,
//! and splice the text that OCR found in it into the document, in place of
//! the picture or after it.
//!
//! A picture can stand inside wrappers (a place on the page, a layer other
//! than the body, DocLang-only content); what is spliced in gets the same
//! wrappers. Outputs other than DocLang leave the hidden layers out, so
//! pictures there are read for DocLang alone.
//!
//! Reading an image is the caller's work. [`pictures_to_read`] lists the
//! images in the order in which they stand in the document; [`apply`] takes
//! one outcome for each and rewrites the document.

use vstd::prelude::*;

use crate::document;
use crate::document::{ContentLayer, Image, Node, NodeView, PictureImage, Wrap};
use crate::engine::{OcrOutcome, Outcome};
use crate::text;

verus! {

/// How OCR text lands in the document.
#[derive(Debug, Clone, Copy, PartialEq, Eq, Structural)]
pub enum OutputMode {
    /// A fenced code block that holds the layout-preserving rendering where
    /// the engine gave one, else the text.
    Fence,
    /// The text between two comment markers.
    Markers,
    /// Just the text.
    Text,
    /// The text as a Markdown blockquote.
    Quote,
    /// Pictures stay as they are; callers skip the transform in this mode.
    Placeholder,
}

/// Which exporter the document goes to.
#[derive(Debug, Clone, Copy, PartialEq, Eq, Structural)]
pub enum OutputTarget {
    Markdown,
    Json,
    DocLang,
    Chunks,
}

impl OutputTarget {
    /// The target that an output format's name stands for.
    pub open spec fn named(format: Seq<char>) -> OutputTarget {
        if format == "json"@ {
            OutputTarget::Json
        } else if format == "dclx"@ {
            OutputTarget::DocLang
        } else if format == "chunks"@ {
            OutputTarget::Chunks
        } else {
            OutputTarget::Markdown
        }
    }

    /// The target of an output format.
    pub fn from_format(format: &str) -> (r: OutputTarget)
        ensures
            r == OutputTarget::named(format@),
    {
        if text::same(format, "json") {
            OutputTarget::Json
        } else if text::same(format, "dclx") {
            OutputTarget::DocLang
        } else if text::same(format, "chunks") {
            OutputTarget::Chunks
        } else {
            OutputTarget::Markdown
        }
    }
}

#[derive(Debug, Clone, Copy)]
pub struct PostOptions {
    pub mode: OutputMode,
    /// Pictures with fewer pixels than this are skipped. 0 skips none, and a
    /// picture of unknown size is never skipped.
    pub min_pixels: u32,
    /// Keep the picture and put the text after it.
    pub keep_picture: bool,
    /// The output, which decides what is shown: JSON also notes, DocLang every
    /// layer and the rich cells of tables.
    pub target: OutputTarget,
}

impl PostOptions {
    /// Pictures in the rich cells of tables are read too.
    pub open spec fn reads_hidden(&self) -> bool {
        self.target == OutputTarget::DocLang
    }
}

/// Counters for the summary of a run.
#[derive(Debug, Clone, Copy, PartialEq, Eq, Structural)]
pub struct OcrStats {
    /// Every picture, with or without an image file.
    pub pictures: usize,
    /// Pictures whose text was spliced in.
    pub ocred: usize,
    /// How many of those, and of the empty ones, came from the cache.
    pub cached: usize,
    /// Pictures with too few pixels.
    pub skipped_small: usize,
    /// Pictures that hold a table which the document already has as a table.
    pub skipped_structured: usize,
    /// Pictures without text.
    pub empty: usize,
    /// Pictures that no engine could read.
    pub failed: usize,
}

/// The numbers in an [`OcrStats`].
pub struct Tally {
    pub pictures: nat,
    pub ocred: nat,
    pub cached: nat,
    pub skipped_small: nat,
    pub skipped_structured: nat,
    pub empty: nat,
    pub failed: nat,
}

impl View for OcrStats {
    type V = Tally;

    open spec fn view(&self) -> Tally {
        Tally {
            pictures: self.pictures as nat,
            ocred: self.ocred as nat,
            cached: self.cached as nat,
            skipped_small: self.skipped_small as nat,
            skipped_structured: self.skipped_structured as nat,
            empty: self.empty as nat,
            failed: self.failed as nat,
        }
    }
}

impl Default for OcrStats {
    fn default() -> (r: OcrStats)
        ensures
            r@ == nothing(),
    {
        OcrStats {
            pictures: 0,
            ocred: 0,
            cached: 0,
            skipped_small: 0,
            skipped_structured: 0,
            empty: 0,
            failed: 0,
        }
    }
}

/// Nothing counted.
pub open spec fn nothing() -> Tally {
    Tally {
        pictures: 0,
        ocred: 0,
        cached: 0,
        skipped_small: 0,
        skipped_structured: 0,
        empty: 0,
        failed: 0,
    }
}

/// Two counts together.
pub open spec fn plus(a: Tally, b: Tally) -> Tally {
    Tally {
        pictures: a.pictures + b.pictures,
        ocred: a.ocred + b.ocred,
        cached: a.cached + b.cached,
        skipped_small: a.skipped_small + b.skipped_small,
        skipped_structured: a.skipped_structured + b.skipped_structured,
        empty: a.empty + b.empty,
        failed: a.failed + b.failed,
    }
}

/// No picture is counted under two heads, and only a picture that was read
/// can have come from the cache.
pub open spec fn consistent(t: Tally) -> bool {
    &&& t.ocred + t.skipped_small + t.skipped_structured + t.empty + t.failed <= t.pictures
    &&& t.cached <= t.ocred + t.empty
}

impl OcrStats {
    /// The line that reports the counters.
    pub open spec fn line(t: Tally) -> Seq<char> {
        "docmill: "@ + text::decimal(t.pictures) + " picture(s), "@ + text::decimal(t.ocred)
            + " ocr'd ("@ + text::decimal(t.cached) + " cached), "@ + text::decimal(t.skipped_small)
            + " skipped (small), "@ + text::decimal(t.skipped_structured)
            + " skipped (structured table), "@ + text::decimal(t.empty) + " empty, "@
            + text::decimal(t.failed) + " failed"@
    }

    /// The line that reports the counters.
    pub fn summary(&self) -> (r: String)
        ensures
            r@ == OcrStats::line(self@),
    {
        let mut v: Vec<char> = Vec::new();
        text::append_str(&mut v, "docmill: ");
        assert(v@ == "docmill: "@);
        text::append(&mut v, &text::decimal_of(self.pictures as u64));
        text::append_str(&mut v, " picture(s), ");
        text::append(&mut v, &text::decimal_of(self.ocred as u64));
        text::append_str(&mut v, " ocr'd (");
        text::append(&mut v, &text::decimal_of(self.cached as u64));
        text::append_str(&mut v, " cached), ");
        text::append(&mut v, &text::decimal_of(self.skipped_small as u64));
        text::append_str(&mut v, " skipped (small), ");
        text::append(&mut v, &text::decimal_of(self.skipped_structured as u64));
        text::append_str(&mut v, " skipped (structured table), ");
        text::append(&mut v, &text::decimal_of(self.empty as u64));
        text::append_str(&mut v, " empty, ");
        text::append(&mut v, &text::decimal_of(self.failed as u64));
        text::append_str(&mut v, " failed");
        text::string_of(&v)
    }
}

/// The length of the stretch from `a` to `b`.
pub open spec fn span(a: int, b: int) -> int {
    if b > a {
        b - a
    } else {
        0
    }
}

pub open spec fn larger(a: int, b: int) -> int {
    if a < b {
        b
    } else {
        a
    }
}

pub open spec fn smaller(a: int, b: int) -> int {
    if a < b {
        a
    } else {
        b
    }
}

/// The area of a region.
pub open spec fn area(r: [u16; 4]) -> int {
    span(r[0] as int, r[2] as int) * span(r[1] as int, r[3] as int)
}

/// The area that two regions share.
pub open spec fn shared_area(a: [u16; 4], b: [u16; 4]) -> int {
    span(larger(a[0] as int, b[0] as int), smaller(a[2] as int, b[2] as int)) * span(
        larger(a[1] as int, b[1] as int),
        smaller(a[3] as int, b[3] as int),
    )
}

/// At least four fifths of a table of some area lie inside the picture.
pub open spec fn holds_table(picture: [u16; 4], table: [u16; 4]) -> bool {
    area(table) > 0 && shared_area(picture, table) * 100 >= area(table) * 80
}

fn span_of(a: u16, b: u16) -> (r: u64)
    ensures
        r == span(a as int, b as int),
        r <= 65535,
{
    if b > a {
        (b - a) as u64
    } else {
        0
    }
}

fn larger_of(a: u16, b: u16) -> (r: u16)
    ensures
        r == larger(a as int, b as int),
{
    if a < b {
        b
    } else {
        a
    }
}

fn smaller_of(a: u16, b: u16) -> (r: u16)
    ensures
        r == smaller(a as int, b as int),
{
    if a < b {
        a
    } else {
        b
    }
}

/// Whether at least four fifths of the table lie inside the picture.
pub fn contains_table(picture: [u16; 4], table: [u16; 4]) -> (r: bool)
    ensures
        r == holds_table(picture, table),
{
    let tw: u64 = span_of(table[0], table[2]);
    let th: u64 = span_of(table[1], table[3]);
    let iw: u64 = span_of(larger_of(picture[0], table[0]), smaller_of(picture[2], table[2]));
    let ih: u64 = span_of(larger_of(picture[1], table[1]), smaller_of(picture[3], table[3]));
    assert(0 <= tw * th <= 65535 * 65535) by (nonlinear_arith)
        requires
            tw <= 65535,
            th <= 65535,
    ;
    assert(0 <= iw * ih <= 65535 * 65535) by (nonlinear_arith)
        requires
            iw <= 65535,
            ih <= 65535,
    ;
    let table_area: u64 = tw * th;
    let shared: u64 = iw * ih;
    table_area > 0 && shared * 100 >= table_area * 80
}

/// An output shows what stands in a wrapper: DocLang everything, JSON notes
/// too, and the others the body alone.
pub open spec fn shows(target: OutputTarget, w: Wrap) -> bool {
    match w {
        Wrap::Located(_) => true,
        Wrap::Furniture(layer) => target == OutputTarget::DocLang || (target == OutputTarget::Json
            && layer == ContentLayer::Notes),
        Wrap::Doclang => target == OutputTarget::DocLang,
    }
}

/// Some wrapper puts the node on a layer that the output does not show.
pub open spec fn hides(ws: Seq<Wrap>, target: OutputTarget) -> bool {
    exists|i: int| 0 <= i < ws.len() && !shows(target, #[trigger] ws[i])
}

pub fn is_hiding(ws: &[Wrap], target: OutputTarget) -> (r: bool)
    ensures
        r == hides(ws@, target),
{
    let mut i: usize = 0;
    while i < ws.len()
        invariant
            i <= ws@.len(),
            forall|k: int| 0 <= k < i ==> shows(target, #[trigger] ws@[k]),
        decreases ws@.len() - i,
    {
        let shown = match ws[i] {
            Wrap::Located(_) => true,
            Wrap::Furniture(layer) => target == OutputTarget::DocLang || (target
                == OutputTarget::Json && layer == ContentLayer::Notes),
            Wrap::Doclang => target == OutputTarget::DocLang,
        };
        if !shown {
            assert(!shows(target, ws@[i as int]));
            return true;
        }
        i += 1;
    }
    false
}

/// An output shows a group on a layer of its own: Markdown and chunks do not.
pub open spec fn shows_group(target: OutputTarget, layer: Option<ContentLayer>) -> bool {
    layer is None || target == OutputTarget::Json || target == OutputTarget::DocLang
}

/// What stands in a group is not shown: a wrapper of the group or the group's
/// own layer hides it.
pub open spec fn group_hides(
    ws: Seq<Wrap>,
    layer: Option<ContentLayer>,
    target: OutputTarget,
) -> bool {
    hides(ws, target) || !shows_group(target, layer)
}

pub fn is_group_hiding(ws: &[Wrap], layer: Option<ContentLayer>, target: OutputTarget) -> (r: bool)
    ensures
        r == group_hides(ws@, layer, target),
{
    let shown = layer.is_none() || target == OutputTarget::Json || target == OutputTarget::DocLang;
    !shown || is_hiding(ws, target)
}

/// The place that the outermost wrapper with a place gives.
pub open spec fn place(ws: Seq<Wrap>) -> Option<[u16; 4]>
    decreases ws.len(),
{
    if ws.len() == 0 {
        None
    } else {
        match ws[0] {
            Wrap::Located(l) => Some(l),
            _ => place(ws.skip(1)),
        }
    }
}

pub fn place_of(ws: &[Wrap]) -> (r: Option<[u16; 4]>)
    ensures
        r == place(ws@),
{
    let mut i: usize = 0;
    assert(ws@.skip(0) == ws@);
    while i < ws.len()
        invariant
            i <= ws@.len(),
            place(ws@) == place(ws@.skip(i as int)),
        decreases ws@.len() - i,
    {
        match ws[i] {
            Wrap::Located(l) => return Some(l),
            _ => {},
        }
        assert(ws@.skip(i as int).skip(1) == ws@.skip(i + 1));
        i += 1;
    }
    None
}

/// A table has some text.
pub open spec fn filled(rows: Seq<Seq<Seq<char>>>) -> bool {
    exists|i: int, j: int|
        0 <= i < rows.len() && 0 <= j < rows[i].len() && !text::blank(#[trigger] rows[i][j])
}

pub fn is_filled(rows: &Vec<Vec<String>>) -> (r: bool)
    ensures
        r == filled(document::rows_view(rows@)),
{
    let mut i: usize = 0;
    while i < rows.len()
        invariant
            i <= rows@.len(),
            forall|a: int, b: int|
                0 <= a < i && 0 <= b < document::rows_view(rows@)[a].len() ==> text::blank(
                    #[trigger] document::rows_view(rows@)[a][b],
                ),
        decreases rows@.len() - i,
    {
        let row = &rows[i];
        assert(document::rows_view(rows@)[i as int] == text::string_views(row@));
        let mut j: usize = 0;
        while j < row.len()
            invariant
                j <= row@.len(),
                i < rows@.len(),
                document::rows_view(rows@)[i as int] == text::string_views(row@),
                forall|b: int|
                    0 <= b < j ==> text::blank(#[trigger] document::rows_view(rows@)[i as int][b]),
            decreases row@.len() - j,
        {
            if !text::is_blank_str(&row[j]) {
                assert(!text::blank(document::rows_view(rows@)[i as int][j as int]));
                return true;
            }
            j += 1;
        }
        i += 1;
    }
    false
}

/// The page that holds after a list of nodes.
pub open spec fn list_page(nodes: Seq<NodeView>, page: usize) -> usize
    decreases document::weights(nodes), 1int,
{
    if nodes.len() == 0 {
        page
    } else {
        proof {
            document::lemma_inside_weight(nodes[0]);
        }
        list_page(nodes.skip(1), node_page(nodes[0], page))
    }
}

/// The page that holds after a node.
pub open spec fn node_page(n: NodeView, page: usize) -> usize
    decreases document::weight(n), 0int,
{
    proof {
        document::lemma_inside_weight(n);
    }
    match n {
        NodeView::PageInfo { page_no, .. } => page_no,
        _ => match document::inside(n) {
            NodeView::Group { children, .. } => list_page(children, page),
            _ => page,
        },
    }
}

/// The tables with text that the output shows, as page and place.
pub open spec fn list_regions(
    nodes: Seq<NodeView>,
    hidden: bool,
    page: usize,
    target: OutputTarget,
) -> Seq<(usize, [u16; 4])>
    decreases document::weights(nodes), 1int,
{
    if nodes.len() == 0 {
        seq![]
    } else {
        proof {
            document::lemma_inside_weight(nodes[0]);
        }
        node_regions(nodes[0], hidden, page, target) + list_regions(
            nodes.skip(1),
            hidden,
            node_page(nodes[0], page),
            target,
        )
    }
}

/// The tables with text that the output shows of one node.
pub open spec fn node_regions(n: NodeView, hidden: bool, page: usize, target: OutputTarget) -> Seq<
    (usize, [u16; 4]),
>
    decreases document::weight(n), 0int,
{
    proof {
        document::lemma_inside_weight(n);
    }
    match document::inside(n) {
        NodeView::Group { layer, children, .. } => list_regions(
            children,
            hidden || group_hides(document::wraps(n), layer, target),
            page,
            target,
        ),
        NodeView::Table { rows, location, .. } => {
            let at = if place(document::wraps(n)) is Some {
                place(document::wraps(n))
            } else {
                location
            };
            if filled(rows) && !(hidden || hides(document::wraps(n), target)) && at is Some {
                seq![(page, at->0)]
            } else {
                seq![]
            }
        },
        _ => seq![],
    }
}

/// What is to become of a picture.
#[derive(Debug, Clone, Copy, PartialEq, Eq, Structural)]
pub enum Verdict {
    /// There is no image file, or the output does not show the picture.
    Leave,
    /// The document has the picture's table as a table.
    Structured,
    /// The picture has too few pixels.
    Small,
    /// The image is to be read.
    Read,
}

/// A picture with fewer pixels than are worth reading.
pub open spec fn too_small(width: u32, height: u32, opts: PostOptions) -> bool {
    0 < width * height < opts.min_pixels
}

pub fn is_too_small(width: u32, height: u32, opts: &PostOptions) -> (r: bool)
    ensures
        r == too_small(width, height, *opts),
{
    assert(0 <= width * height <= 0xffff_ffff * 0xffff_ffff) by (nonlinear_arith)
        requires
            width <= 0xffff_ffff,
            height <= 0xffff_ffff,
    ;
    let pixels: u64 = width as u64 * height as u64;
    0 < pixels && pixels < opts.min_pixels as u64
}

/// A table on the page lies inside the picture.
pub open spec fn covers_table(
    at: Option<[u16; 4]>,
    page: usize,
    regions: Seq<(usize, [u16; 4])>,
) -> bool {
    exists|i: int|
        0 <= i < regions.len() && (#[trigger] regions[i]).0 == page && at is Some && holds_table(
            at->0,
            regions[i].1,
        )
}

/// What is to become of the picture inside a node.
pub open spec fn verdict(
    image: Option<Image>,
    ws: Seq<Wrap>,
    hidden: bool,
    page: usize,
    regions: Seq<(usize, [u16; 4])>,
    opts: PostOptions,
) -> Verdict {
    match image {
        None => Verdict::Leave,
        Some(img) => if hidden || hides(ws, opts.target) {
            Verdict::Leave
        } else if covers_table(place(ws), page, regions) {
            Verdict::Structured
        } else if too_small(img.width, img.height, opts) {
            Verdict::Small
        } else {
            Verdict::Read
        },
    }
}

pub fn verdict_of(
    image: &Option<PictureImage>,
    ws: &[Wrap],
    hidden: bool,
    page: usize,
    regions: &[(usize, [u16; 4])],
    opts: &PostOptions,
) -> (r: Verdict)
    ensures
        r == verdict(image_view(*image), ws@, hidden, page, regions@, *opts),
{
    let img = match image {
        None => return Verdict::Leave,
        Some(img) => img,
    };
    if hidden || is_hiding(ws, opts.target) {
        return Verdict::Leave;
    }
    if let Some(at) = place_of(ws) {
        let mut i: usize = 0;
        while i < regions.len()
            invariant
                i <= regions@.len(),
                forall|k: int|
                    0 <= k < i && (#[trigger] regions@[k]).0 == page ==> !holds_table(
                        at,
                        regions@[k].1,
                    ),
                place(ws@) == Some(at),
                image_view(*image) is Some,
                !(hidden || hides(ws@, opts.target)),
            decreases regions@.len() - i,
        {
            let region = regions[i];
            if region.0 == page && contains_table(at, region.1) {
                assert(regions@[i as int].0 == page);
                return Verdict::Structured;
            }
            i += 1;
        }
    }
    if is_too_small(img.width, img.height, opts) {
        Verdict::Small
    } else {
        Verdict::Read
    }
}

/// The contents of an optional image.
pub open spec fn image_view(image: Option<PictureImage>) -> Option<Image> {
    match image {
        Some(i) => Some(i@),
        None => None,
    }
}

/// The images to read in a list of nodes, in order.
pub open spec fn list_requests(
    nodes: Seq<NodeView>,
    hidden: bool,
    page: usize,
    regions: Seq<(usize, [u16; 4])>,
    opts: PostOptions,
) -> Seq<Image>
    decreases document::weights(nodes), 1int,
{
    if nodes.len() == 0 {
        seq![]
    } else {
        proof {
            document::lemma_inside_weight(nodes[0]);
        }
        node_requests(nodes[0], hidden, page, regions, opts) + list_requests(
            nodes.skip(1),
            hidden,
            node_page(nodes[0], page),
            regions,
            opts,
        )
    }
}

/// The images to read in the rich cells of a table, in order.
pub open spec fn cell_requests(
    cells: Seq<Seq<NodeView>>,
    page: usize,
    regions: Seq<(usize, [u16; 4])>,
    opts: PostOptions,
) -> Seq<Image>
    decreases document::cell_weights(cells), 2int + cells.len(),
{
    if cells.len() == 0 {
        seq![]
    } else {
        list_requests(cells[0], false, page, regions, opts) + cell_requests(
            cells.skip(1),
            page,
            regions,
            opts,
        )
    }
}

/// The images to read in one node, in order.
pub open spec fn node_requests(
    n: NodeView,
    hidden: bool,
    page: usize,
    regions: Seq<(usize, [u16; 4])>,
    opts: PostOptions,
) -> Seq<Image>
    decreases document::weight(n), 0int,
{
    proof {
        document::lemma_inside_weight(n);
    }
    match document::inside(n) {
        NodeView::Group { layer, children, .. } => list_requests(
            children,
            hidden || group_hides(document::wraps(n), layer, opts.target),
            page,
            regions,
            opts,
        ),
        NodeView::Table { cells, .. } => if opts.reads_hidden() {
            cell_requests(cells, page, regions, opts)
        } else {
            seq![]
        },
        NodeView::Picture { image, .. } => if verdict(
            image,
            document::wraps(n),
            hidden,
            page,
            regions,
            opts,
        ) == Verdict::Read {
            seq![image->0]
        } else {
            seq![]
        },
        _ => seq![],
    }
}


/// A line that would end a Markdown fence is moved one column to the right.
pub open spec fn defused_line(l: Seq<char>) -> Seq<char> {
    if text::starts_with(text::trim_start(l), "```"@) {
        " "@ + l
    } else {
        l
    }
}

/// A text in which no line ends a Markdown fence.
pub open spec fn defused(body: Seq<char>) -> Seq<char> {
    if text::occurs(body, "```"@) {
        text::join(text::lines(body).map_values(|l: Seq<char>| defused_line(l)), "\n"@)
    } else {
        body
    }
}

/// Make a text safe inside a Markdown fence: a line that starts with three
/// backticks would end the fence early, and a space before it prevents that.
pub fn defuse_fences(body: &str) -> (r: String)
    ensures
        r@ == defused(body@),
{
    let v = text::chars_of(body);
    if !text::has(&v, "```") {
        return text::string_of(&v);
    }
    let ls = text::lines_of(&v);
    let mut out: Vec<Vec<char>> = Vec::new();
    let mut i: usize = 0;
    let ghost f = |l: Seq<char>| defused_line(l);
    while i < ls.len()
        invariant
            i <= ls@.len(),
            f == (|l: Seq<char>| defused_line(l)),
            text::views(out@) == text::views(ls@).take(i as int).map_values(f),
        decreases ls@.len() - i,
    {
        let ghost before = text::views(out@);
        let mut line: Vec<char> = Vec::new();
        if text::has_prefix(text::trimmed_start(&ls[i]), "```") {
            text::append_str(&mut line, " ");
        }
        text::append(&mut line, &ls[i]);
        assert(line@ == defused_line(ls@[i as int]@));
        out.push(line);
        assert(text::views(out@) == before.push(line@));
        i += 1;
        assert(text::views(ls@).take(i as int) == text::views(ls@).take(i - 1).push(
            ls@[i - 1]@,
        ));
        assert(text::views(ls@).take(i as int).map_values(f) == text::views(ls@).take(
            i - 1,
        ).map_values(f).push(f(ls@[i - 1]@)));
    }
    assert(text::views(ls@).take(i as int) == text::views(ls@));
    text::string_of(&text::joined(&out, "\n"))
}

/// A line of a Markdown blockquote.
pub open spec fn quoted_line(l: Seq<char>) -> Seq<char> {
    if text::blank(l) {
        ">"@
    } else {
        "> "@ + l
    }
}

/// A text as a Markdown blockquote.
pub open spec fn quoted(body: Seq<char>) -> Seq<char> {
    text::join(text::lines(body).map_values(|l: Seq<char>| quoted_line(l)), "\n"@)
}

fn quote(v: &[char]) -> (r: String)
    ensures
        r@ == quoted(v@),
{
    let ls = text::lines_of(v);
    let mut out: Vec<Vec<char>> = Vec::new();
    let mut i: usize = 0;
    let ghost f = |l: Seq<char>| quoted_line(l);
    while i < ls.len()
        invariant
            i <= ls@.len(),
            f == (|l: Seq<char>| quoted_line(l)),
            text::views(out@) == text::views(ls@).take(i as int).map_values(f),
        decreases ls@.len() - i,
    {
        let ghost before = text::views(out@);
        let mut line: Vec<char> = Vec::new();
        if text::is_blank(&ls[i]) {
            text::append_str(&mut line, ">");
        } else {
            text::append_str(&mut line, "> ");
            text::append(&mut line, &ls[i]);
        }
        assert(line@ == quoted_line(ls@[i as int]@));
        out.push(line);
        assert(text::views(out@) == before.push(line@));
        i += 1;
        assert(text::views(ls@).take(i as int) == text::views(ls@).take(i - 1).push(
            ls@[i - 1]@,
        ));
        assert(text::views(ls@).take(i as int).map_values(f) == text::views(ls@).take(
            i - 1,
        ).map_values(f).push(f(ls@[i - 1]@)));
    }
    assert(text::views(ls@).take(i as int) == text::views(ls@));
    text::string_of(&text::joined(&out, "\n"))
}

/// What a fence shows of an outcome: the layout-preserving rendering without
/// the white space at its end, or the text where there is no such rendering.
pub open spec fn fence_body(o: Outcome) -> Seq<char> {
    match o.grid {
        Some(g) => if text::blank(g) {
            text::trim(o.text)
        } else {
            text::trim_end(g)
        },
        None => text::trim(o.text),
    }
}

/// The nodes that show a text which OCR found.
pub open spec fn rendered(o: Outcome, mode: OutputMode) -> Option<Seq<NodeView>> {
    match mode {
        OutputMode::Fence => Some(seq![NodeView::Code { text: defused(fence_body(o)) }]),
        OutputMode::Markers => Some(
            seq![
                NodeView::Paragraph { text: "<!-- ocr:begin engine="@ + o.engine + " -->"@ },
                NodeView::Paragraph { text: text::trim(o.text) },
                NodeView::Paragraph { text: "<!-- ocr:end -->"@ },
            ],
        ),
        OutputMode::Text => Some(seq![NodeView::Paragraph { text: text::trim(o.text) }]),
        OutputMode::Quote => Some(
            seq![NodeView::Paragraph { text: quoted(text::trim(o.text)) }],
        ),
        OutputMode::Placeholder => None,
    }
}

/// The nodes that an outcome puts into the document: `None` leaves the
/// picture as it is. A picture without text gives no nodes, and stays only
/// where the image itself is shown; one that no engine could read stays.
pub open spec fn spliced(outcome: Option<Outcome>, opts: PostOptions) -> Option<Seq<NodeView>> {
    match outcome {
        None => None,
        Some(o) => if text::blank(o.text) {
            if opts.keep_picture {
                None
            } else {
                Some(seq![])
            }
        } else {
            rendered(o, opts.mode)
        },
    }
}

/// What an outcome adds to the counters.
pub open spec fn read_tally(outcome: Option<Outcome>) -> Tally {
    match outcome {
        None => Tally { failed: 1, ..nothing() },
        Some(o) => Tally {
            cached: if o.from_cache {
                1
            } else {
                0
            },
            empty: if text::blank(o.text) {
                1
            } else {
                0
            },
            ocred: if text::blank(o.text) {
                0
            } else {
                1
            },
            ..nothing()
        },
    }
}

/// The contents of an optional outcome.
pub open spec fn outcome_view(o: Option<OcrOutcome>) -> Option<Outcome> {
    match o {
        Some(x) => Some(x@),
        None => None,
    }
}

/// The contents of a list of outcomes.
pub open spec fn outcome_views(s: Seq<Option<OcrOutcome>>) -> Seq<Option<Outcome>> {
    s.map_values(|o: Option<OcrOutcome>| outcome_view(o))
}

/// The counters have room for one more picture under one head.
pub open spec fn has_room(t: Tally) -> bool {
    &&& t.ocred + t.skipped_small + t.skipped_structured + t.empty + t.failed < t.pictures
    &&& t.cached <= t.ocred + t.empty
}

/// Turn an outcome into the nodes that show it, and count it.
pub fn ocr_parts(outcome: &Option<OcrOutcome>, opts: &PostOptions, stats: &mut OcrStats) -> (r:
    Option<Vec<Node>>)
    requires
        has_room(old(stats)@),
    ensures
        match r {
            Some(parts) => spliced(outcome_view(*outcome), *opts) == Some(
                document::nodes_view(parts@),
            ),
            None => spliced(outcome_view(*outcome), *opts) is None,
        },
        final(stats)@ == plus(old(stats)@, read_tally(outcome_view(*outcome))),
        consistent(final(stats)@),
{
    let o = match outcome {
        None => {
            stats.failed = stats.failed + 1;
            return None;
        },
        Some(o) => o,
    };
    if o.from_cache {
        stats.cached = stats.cached + 1;
    }
    let chars = text::chars_of(&o.text);
    let shown = text::trimmed(&chars);
    if text::is_blank(&chars) {
        stats.empty = stats.empty + 1;
        if opts.keep_picture {
            return None;
        }
        let parts: Vec<Node> = Vec::new();
        assert(document::nodes_view(parts@) == Seq::<NodeView>::empty());
        return Some(parts);
    }
    stats.ocred = stats.ocred + 1;
    let mut parts: Vec<Node> = Vec::new();
    match opts.mode {
        OutputMode::Fence => {
            let body = fence_text(o);
            parts.push(Node::Code { text: defuse_fences(&body) });
        },
        OutputMode::Markers => {
            let mut begin: Vec<char> = Vec::new();
            text::append_str(&mut begin, "<!-- ocr:begin engine=");
            text::append_str(&mut begin, &o.engine);
            text::append_str(&mut begin, " -->");
            assert(begin@ == "<!-- ocr:begin engine="@ + o.engine@ + " -->"@);
            parts.push(Node::Paragraph { text: text::string_of(&begin) });
            parts.push(Node::Paragraph { text: text::string_of(shown) });
            parts.push(Node::Paragraph { text: "<!-- ocr:end -->".to_string() });
        },
        OutputMode::Text => {
            parts.push(Node::Paragraph { text: text::string_of(shown) });
        },
        OutputMode::Quote => {
            parts.push(Node::Paragraph { text: quote(shown) });
        },
        OutputMode::Placeholder => {
            return None;
        },
    }
    assert(Some(document::nodes_view(parts@)) == rendered(o@, opts.mode)) by {
        let want = rendered(o@, opts.mode)->0;
        assert(document::nodes_view(parts@).len() == want.len());
        assert(document::nodes_view(parts@) =~= want);
    }
    Some(parts)
}

fn fence_text(o: &OcrOutcome) -> (r: String)
    ensures
        r@ == fence_body(o@),
{
    let chars = text::chars_of(&o.text);
    match &o.grid {
        Some(g) => {
            let v = text::chars_of(g);
            if text::is_blank(&v) {
                text::string_of(text::trimmed(&chars))
            } else {
                text::string_of(text::trimmed_end(&v))
            }
        },
        None => text::string_of(text::trimmed(&chars)),
    }
}

/// A picture's caption as a node of its own, with the caption's link.
pub open spec fn caption_nodes(caption: Option<Seq<char>>, href: Option<Seq<char>>) -> Seq<
    NodeView,
> {
    match caption {
        Some(c) => if text::blank(c) {
            seq![]
        } else {
            match href {
                Some(h) => seq![NodeView::Caption { text: c, href: h }],
                None => seq![NodeView::Paragraph { text: c }],
            }
        },
        None => seq![],
    }
}

/// Nodes with the same wrappers around each.
pub open spec fn all_rewrapped(ws: Seq<Wrap>, nodes: Seq<NodeView>) -> Seq<NodeView> {
    nodes.map_values(|n: NodeView| document::rewrapped(ws, n))
}

/// What stands in the place of a picture that was read. A picture that stays
/// has its text after it; one that goes leaves its caption.
pub open spec fn replacement(n: NodeView, outcome: Option<Outcome>, opts: PostOptions) -> Seq<
    NodeView,
> {
    match spliced(outcome, opts) {
        None => seq![n],
        Some(parts) => if opts.keep_picture {
            seq![n] + all_rewrapped(document::wraps(n), parts)
        } else {
            match document::inside(n) {
                NodeView::Picture { caption, caption_href, .. } => all_rewrapped(
                    document::wraps(n),
                    caption_nodes(caption, caption_href) + parts,
                ),
                _ => seq![n],
            }
        },
    }
}

/// A list of nodes after the transform. `outs` holds the outcomes for its
/// images and any that follow.
pub open spec fn list_result(
    nodes: Seq<NodeView>,
    hidden: bool,
    page: usize,
    regions: Seq<(usize, [u16; 4])>,
    opts: PostOptions,
    outs: Seq<Option<Outcome>>,
) -> Seq<NodeView>
    decreases document::weights(nodes), 1int,
{
    if nodes.len() == 0 {
        seq![]
    } else {
        proof {
            document::lemma_inside_weight(nodes[0]);
        }
        let used = node_requests(nodes[0], hidden, page, regions, opts).len() as int;
        node_result(nodes[0], hidden, page, regions, opts, outs) + list_result(
            nodes.skip(1),
            hidden,
            node_page(nodes[0], page),
            regions,
            opts,
            outs.skip(used),
        )
    }
}

/// The rich cells of a table after the transform.
pub open spec fn cell_result(
    cells: Seq<Seq<NodeView>>,
    page: usize,
    regions: Seq<(usize, [u16; 4])>,
    opts: PostOptions,
    outs: Seq<Option<Outcome>>,
) -> Seq<Seq<NodeView>>
    decreases document::cell_weights(cells), 2int + cells.len(),
{
    if cells.len() == 0 {
        seq![]
    } else {
        let used = list_requests(cells[0], false, page, regions, opts).len() as int;
        seq![list_result(cells[0], false, page, regions, opts, outs)] + cell_result(
            cells.skip(1),
            page,
            regions,
            opts,
            outs.skip(used),
        )
    }
}

/// What stands in the place of a node after the transform.
pub open spec fn node_result(
    n: NodeView,
    hidden: bool,
    page: usize,
    regions: Seq<(usize, [u16; 4])>,
    opts: PostOptions,
    outs: Seq<Option<Outcome>>,
) -> Seq<NodeView>
    decreases document::weight(n), 0int,
{
    proof {
        document::lemma_inside_weight(n);
    }
    let ws = document::wraps(n);
    match document::inside(n) {
        NodeView::Group { key, layer, children } => {
            let below = hidden || group_hides(ws, layer, opts.target);
            let walked = list_result(children, below, page, regions, opts, outs);
            seq![document::rewrapped(ws, NodeView::Group { key, layer, children: walked })]
        },
        NodeView::Table { key, rows, location, cells } => if opts.reads_hidden() {
            let walked = cell_result(cells, page, regions, opts, outs);
            seq![
                document::rewrapped(ws, NodeView::Table { key, rows, location, cells: walked }),
            ]
        } else {
            seq![n]
        },
        NodeView::Picture { image, .. } => if verdict(image, ws, hidden, page, regions, opts)
            == Verdict::Read {
            replacement(n, outs[0], opts)
        } else {
            seq![n]
        },
        _ => seq![n],
    }
}

/// What a list of nodes adds to the counters.
pub open spec fn list_tally(
    nodes: Seq<NodeView>,
    hidden: bool,
    page: usize,
    regions: Seq<(usize, [u16; 4])>,
    opts: PostOptions,
    outs: Seq<Option<Outcome>>,
) -> Tally
    decreases document::weights(nodes), 1int,
{
    if nodes.len() == 0 {
        nothing()
    } else {
        proof {
            document::lemma_inside_weight(nodes[0]);
        }
        let used = node_requests(nodes[0], hidden, page, regions, opts).len() as int;
        plus(
            node_tally(nodes[0], hidden, page, regions, opts, outs),
            list_tally(
                nodes.skip(1),
                hidden,
                node_page(nodes[0], page),
                regions,
                opts,
                outs.skip(used),
            ),
        )
    }
}

/// What the rich cells of a table add to the counters.
pub open spec fn cell_tally(
    cells: Seq<Seq<NodeView>>,
    page: usize,
    regions: Seq<(usize, [u16; 4])>,
    opts: PostOptions,
    outs: Seq<Option<Outcome>>,
) -> Tally
    decreases document::cell_weights(cells), 2int + cells.len(),
{
    if cells.len() == 0 {
        nothing()
    } else {
        let used = list_requests(cells[0], false, page, regions, opts).len() as int;
        plus(
            list_tally(cells[0], false, page, regions, opts, outs),
            cell_tally(cells.skip(1), page, regions, opts, outs.skip(used)),
        )
    }
}

/// One picture, under no head.
pub open spec fn one_picture() -> Tally {
    Tally { pictures: 1, ..nothing() }
}

/// What a picture adds to the counters.
pub open spec fn picture_tally(v: Verdict, outcome: Option<Outcome>) -> Tally {
    match v {
        Verdict::Leave => one_picture(),
        Verdict::Structured => Tally { skipped_structured: 1, ..one_picture() },
        Verdict::Small => Tally { skipped_small: 1, ..one_picture() },
        Verdict::Read => plus(one_picture(), read_tally(outcome)),
    }
}

/// What a node adds to the counters.
pub open spec fn node_tally(
    n: NodeView,
    hidden: bool,
    page: usize,
    regions: Seq<(usize, [u16; 4])>,
    opts: PostOptions,
    outs: Seq<Option<Outcome>>,
) -> Tally
    decreases document::weight(n), 0int,
{
    proof {
        document::lemma_inside_weight(n);
    }
    let ws = document::wraps(n);
    match document::inside(n) {
        NodeView::Group { layer, children, .. } => list_tally(
            children,
            hidden || group_hides(ws, layer, opts.target),
            page,
            regions,
            opts,
            outs,
        ),
        NodeView::Table { cells, .. } => if opts.reads_hidden() {
            cell_tally(cells, page, regions, opts, outs)
        } else {
            nothing()
        },
        NodeView::Picture { image, .. } => picture_tally(
            verdict(image, ws, hidden, page, regions, opts),
            outs[0],
        ),
        _ => nothing(),
    }
}


fn page_after(nodes: &Vec<Node>, page: usize) -> (r: usize)
    ensures
        r == list_page(document::nodes_view(nodes@), page),
    decreases document::weights(document::nodes_view(nodes@)), 1int,
{
    let mut at: usize = page;
    let mut i: usize = 0;
    let ghost whole = document::nodes_view(nodes@);
    assert(whole.skip(0) == whole);
    while i < nodes.len()
        invariant
            i <= nodes@.len(),
            whole == document::nodes_view(nodes@),
            list_page(whole, page) == list_page(whole.skip(i as int), at),
            document::weights(whole.skip(i as int)) <= document::weights(whole),
        decreases nodes@.len() - i,
    {
        proof {
            document::lemma_nodes_rest(nodes@, i as int);
        }
        at = page_after_node(&nodes[i], at);
        i += 1;
    }
    at
}

fn page_after_node(node: &Node, page: usize) -> (r: usize)
    ensures
        r == node_page(node@, page),
    decreases document::weight(node@), 0int,
{
    if let Node::PageInfo { page_no, .. } = node {
        return *page_no;
    }
    proof {
        document::lemma_inside_weight(node@);
    }
    let (_, bare) = document::peel_ref(node);
    match bare {
        Node::Group { children, .. } => page_after(children, page),
        _ => page,
    }
}

/// Collect the tables with text that the output shows, as page and place.
fn collect_regions(
    nodes: &Vec<Node>,
    hidden: bool,
    page: usize,
    target: OutputTarget,
    out: &mut Vec<(usize, [u16; 4])>,
)
    ensures
        final(out)@ == old(out)@ + list_regions(
            document::nodes_view(nodes@),
            hidden,
            page,
            target,
        ),
    decreases document::weights(document::nodes_view(nodes@)),
{
    let mut at: usize = page;
    let mut i: usize = 0;
    let ghost whole = document::nodes_view(nodes@);
    let ghost all = list_regions(whole, hidden, page, target);
    assert(whole.skip(0) == whole);
    assert(old(out)@ + all == out@ + list_regions(whole.skip(0), hidden, at, target));
    while i < nodes.len()
        invariant
            i <= nodes@.len(),
            whole == document::nodes_view(nodes@),
            old(out)@ + all == out@ + list_regions(
                whole.skip(i as int),
                hidden,
                at,
                target,
            ),
            document::weights(whole.skip(i as int)) <= document::weights(whole),
        decreases nodes@.len() - i,
    {
        proof {
            document::lemma_nodes_rest(nodes@, i as int);
            document::lemma_inside_weight(nodes@[i as int]@);
        }
        let node = &nodes[i];
        let ghost before = out@;
        let ghost rest = list_regions(
            whole.skip(i + 1),
            hidden,
            node_page(node@, at),
            target,
        );
        let (ws, bare) = document::peel_ref(node);
        match bare {
            Node::Group { layer, children, .. } => {
                let below = hidden || is_group_hiding(&ws, *layer, target);
                collect_regions(children, below, at, target, out);
            },
            Node::Table { rows, location, .. } => {
                if is_filled(rows) && !(hidden || is_hiding(&ws, target)) {
                    let found = match place_of(&ws) {
                        Some(l) => Some(l),
                        None => *location,
                    };
                    if let Some(l) = found {
                        out.push((at, l));
                    }
                }
            },
            _ => {},
        }
        assert(out@ == before + node_regions(node@, hidden, at, target));
        assert(before + (node_regions(node@, hidden, at, target) + rest) == out@ + rest);
        at = page_after_node(node, at);
        i += 1;
    }
    assert(out@ + Seq::<(usize, [u16; 4])>::empty() == out@);
}

/// The tables of a document that can make a picture superfluous.
pub open spec fn regions(nodes: Seq<NodeView>, opts: PostOptions) -> Seq<(usize, [u16; 4])> {
    list_regions(nodes, false, 0, opts.target)
}

/// Find the tables of a document that can make a picture superfluous.
pub fn table_locations(nodes: &Vec<Node>, opts: &PostOptions) -> (r: Vec<(usize, [u16; 4])>)
    ensures
        r@ == regions(document::nodes_view(nodes@), *opts),
{
    let mut out: Vec<(usize, [u16; 4])> = Vec::new();
    collect_regions(nodes, false, 0, opts.target, &mut out);
    assert(Seq::<(usize, [u16; 4])>::empty() + regions(document::nodes_view(nodes@), *opts)
        == regions(document::nodes_view(nodes@), *opts));
    out
}

/// The contents of a list of images.
pub open spec fn image_views(s: Seq<&PictureImage>) -> Seq<Image> {
    s.map_values(|i: &PictureImage| i@)
}

fn collect_requests<'a>(
    nodes: &'a Vec<Node>,
    hidden: bool,
    page: usize,
    tables: &[(usize, [u16; 4])],
    opts: &PostOptions,
    out: &mut Vec<&'a PictureImage>,
)
    ensures
        image_views(final(out)@) == image_views(old(out)@) + list_requests(
            document::nodes_view(nodes@),
            hidden,
            page,
            tables@,
            *opts,
        ),
    decreases document::weights(document::nodes_view(nodes@)), 1int,
{
    let mut at: usize = page;
    let mut i: usize = 0;
    let ghost whole = document::nodes_view(nodes@);
    let ghost all = list_requests(whole, hidden, page, tables@, *opts);
    let ghost start = image_views(out@);
    assert(whole.skip(0) == whole);
    while i < nodes.len()
        invariant
            i <= nodes@.len(),
            whole == document::nodes_view(nodes@),
            start + all == image_views(out@) + list_requests(
                whole.skip(i as int),
                hidden,
                at,
                tables@,
                *opts,
            ),
            document::weights(whole.skip(i as int)) <= document::weights(whole),
        decreases nodes@.len() - i,
    {
        proof {
            document::lemma_nodes_rest(nodes@, i as int);
            document::lemma_inside_weight(nodes@[i as int]@);
        }
        let node: &'a Node = &nodes[i];
        let ghost before = image_views(out@);
        let ghost mine = node_requests(node@, hidden, at, tables@, *opts);
        let ghost rest = list_requests(
            whole.skip(i + 1),
            hidden,
            node_page(node@, at),
            tables@,
            *opts,
        );
        let (ws, bare) = document::peel_ref(node);
        match bare {
            Node::Group { layer, children, .. } => {
                let below = hidden || is_group_hiding(&ws, *layer, opts.target);
                collect_requests(children, below, at, tables, opts, out);
            },
            Node::Table { cells, .. } => {
                if opts.target == OutputTarget::DocLang {
                    collect_cell_requests(cells, at, tables, opts, out);
                } else {
                    assert(before + mine == before);
                }
            },
            Node::Picture { image, .. } => {
                let v = verdict_of(image, &ws, hidden, at, tables, opts);
                if let Some(img) = image {
                    if v == Verdict::Read {
                        let ghost old_out = out@;
                        out.push(img);
                        assert(image_views(out@) == before.push(img@));
                        assert(before.push(img@) == before + seq![img@]);
                    } else {
                        assert(before + mine == before);
                    }
                } else {
                    assert(before + mine == before);
                }
            },
            _ => {
                assert(before + mine == before);
            },
        }
        assert(image_views(out@) == before + mine);
        assert(before + (mine + rest) == image_views(out@) + rest);
        at = page_after_node(node, at);
        i += 1;
    }
    assert(image_views(out@) + Seq::<Image>::empty() == image_views(out@));
}

fn collect_cell_requests<'a>(
    cells: &'a Vec<Vec<Node>>,
    page: usize,
    tables: &[(usize, [u16; 4])],
    opts: &PostOptions,
    out: &mut Vec<&'a PictureImage>,
)
    ensures
        image_views(final(out)@) == image_views(old(out)@) + cell_requests(
            document::cells_view(cells@),
            page,
            tables@,
            *opts,
        ),
    decreases document::cell_weights(document::cells_view(cells@)), 2int,
{
    let mut i: usize = 0;
    let ghost whole = document::cells_view(cells@);
    let ghost all = cell_requests(whole, page, tables@, *opts);
    let ghost start = image_views(out@);
    assert(whole.skip(0) == whole);
    while i < cells.len()
        invariant
            i <= cells@.len(),
            whole == document::cells_view(cells@),
            start + all == image_views(out@) + cell_requests(
                whole.skip(i as int),
                page,
                tables@,
                *opts,
            ),
            document::cell_weights(whole.skip(i as int)) <= document::cell_weights(whole),
        decreases cells@.len() - i,
    {
        proof {
            document::lemma_cells_rest(cells@, i as int);
        }
        let ghost before = image_views(out@);
        let ghost mine = list_requests(
            document::nodes_view(cells@[i as int]@),
            false,
            page,
            tables@,
            *opts,
        );
        let ghost rest = cell_requests(whole.skip(i + 1), page, tables@, *opts);
        collect_requests(&cells[i], false, page, tables, opts, out);
        assert(before + (mine + rest) == image_views(out@) + rest);
        i += 1;
    }
    assert(image_views(out@) + Seq::<Image>::empty() == image_views(out@));
}

/// The images to read in a document, in the order in which they stand there.
pub open spec fn requests(nodes: Seq<NodeView>, opts: PostOptions) -> Seq<Image> {
    list_requests(nodes, false, 0, regions(nodes, opts), opts)
}

/// List the images to read in a document, in the order in which they stand
/// there.
pub fn pictures_to_read<'a>(nodes: &'a Vec<Node>, opts: &PostOptions) -> (r: Vec<&'a PictureImage>)
    ensures
        image_views(r@) == requests(document::nodes_view(nodes@), *opts),
{
    let tables = table_locations(nodes, opts);
    let mut out: Vec<&'a PictureImage> = Vec::new();
    collect_requests(nodes, false, 0, &tables, opts, &mut out);
    assert(Seq::<Image>::empty() + requests(document::nodes_view(nodes@), *opts) == requests(
        document::nodes_view(nodes@),
        *opts,
    ));
    out
}


/// The transform under way: the page it is on, how many outcomes it has used
/// and what it has counted.
struct Walk<'a> {
    tables: &'a [(usize, [u16; 4])],
    opts: &'a PostOptions,
    outcomes: &'a [Option<OcrOutcome>],
    page: usize,
    used: usize,
    stats: OcrStats,
}

impl<'a> Walk<'a> {
    /// The outcomes that are still to be used.
    spec fn ahead(&self) -> Seq<Option<Outcome>> {
        outcome_views(self.outcomes@).skip(self.used as int)
    }

    /// The transform's inputs do not change.
    spec fn same_inputs(&self, other: &Walk<'a>) -> bool {
        &&& self.tables == other.tables
        &&& self.opts == other.opts
        &&& self.outcomes == other.outcomes
    }

    /// There is an outcome for each image, and the counters have room.
    spec fn ready(&self, images: nat, pictures: nat) -> bool {
        &&& self.used + images <= self.outcomes@.len()
        &&& self.stats@.pictures + pictures <= usize::MAX
        &&& consistent(self.stats@)
    }

    fn walk(&mut self, nodes: Vec<Node>, hidden: bool) -> (r: Vec<Node>)
        requires
            old(self).ready(
                list_requests(
                    document::nodes_view(nodes@),
                    hidden,
                    old(self).page,
                    old(self).tables@,
                    *old(self).opts,
                ).len(),
                list_tally(
                    document::nodes_view(nodes@),
                    hidden,
                    old(self).page,
                    old(self).tables@,
                    *old(self).opts,
                    old(self).ahead(),
                ).pictures,
            ),
        ensures
            final(self).same_inputs(old(self)),
            final(self).page == list_page(document::nodes_view(nodes@), old(self).page),
            final(self).used == old(self).used + list_requests(
                document::nodes_view(nodes@),
                hidden,
                old(self).page,
                old(self).tables@,
                *old(self).opts,
            ).len(),
            final(self).stats@ == plus(
                old(self).stats@,
                list_tally(
                    document::nodes_view(nodes@),
                    hidden,
                    old(self).page,
                    old(self).tables@,
                    *old(self).opts,
                    old(self).ahead(),
                ),
            ),
            consistent(final(self).stats@),
            document::nodes_view(r@) == list_result(
                document::nodes_view(nodes@),
                hidden,
                old(self).page,
                old(self).tables@,
                *old(self).opts,
                old(self).ahead(),
            ),
        decreases document::weights(document::nodes_view(nodes@)), 1int,
    {
        let mut out: Vec<Node> = Vec::new();
        let ghost all = nodes@;
        let ghost whole = document::nodes_view(nodes@);
        let ghost start = *self;
        proof {
            assert(whole.skip(0) == whole);
            assert(document::nodes_view(out@) =~= Seq::<NodeView>::empty());
        }
        for node in it: nodes
            invariant
                it.seq() == all,
                all == nodes@,
                whole == document::nodes_view(all),
                document::weights(whole.skip(it.index())) <= document::weights(whole),
                start == *old(self),
                self.same_inputs(&start),
                consistent(self.stats@),
                self.used <= self.outcomes@.len(),
                list_page(whole, start.page) == list_page(whole.skip(it.index()), self.page),
                start.used + list_requests(
                    whole,
                    hidden,
                    start.page,
                    start.tables@,
                    *start.opts,
                ).len() == self.used + list_requests(
                    whole.skip(it.index()),
                    hidden,
                    self.page,
                    start.tables@,
                    *start.opts,
                ).len(),
                start.used + list_requests(
                    whole,
                    hidden,
                    start.page,
                    start.tables@,
                    *start.opts,
                ).len() <= self.outcomes@.len(),
                plus(
                    start.stats@,
                    list_tally(
                        whole,
                        hidden,
                        start.page,
                        start.tables@,
                        *start.opts,
                        start.ahead(),
                    ),
                ) == plus(
                    self.stats@,
                    list_tally(
                        whole.skip(it.index()),
                        hidden,
                        self.page,
                        start.tables@,
                        *start.opts,
                        self.ahead(),
                    ),
                ),
                plus(
                    start.stats@,
                    list_tally(
                        whole,
                        hidden,
                        start.page,
                        start.tables@,
                        *start.opts,
                        start.ahead(),
                    ),
                ).pictures <= usize::MAX,
                list_result(
                    whole,
                    hidden,
                    start.page,
                    start.tables@,
                    *start.opts,
                    start.ahead(),
                ) == document::nodes_view(out@) + list_result(
                    whole.skip(it.index()),
                    hidden,
                    self.page,
                    start.tables@,
                    *start.opts,
                    self.ahead(),
                ),
        {
            let ghost i = it.index();
            let ghost here = *self;
            let ghost before = document::nodes_view(out@);
            proof {
                document::lemma_nodes_rest(all, i);
                document::lemma_inside_weight(node@);
            }
            let ghost n = node@;
            self.walk_node(node, hidden, &mut out);
            proof {
                let used = node_requests(n, hidden, here.page, start.tables@, *start.opts).len();
                assert(self.ahead() =~= here.ahead().skip(used as int));
                let mine = node_result(
                    n,
                    hidden,
                    here.page,
                    start.tables@,
                    *start.opts,
                    here.ahead(),
                );
                let rest = list_result(
                    whole.skip(i + 1),
                    hidden,
                    self.page,
                    start.tables@,
                    *start.opts,
                    self.ahead(),
                );
                assert(before + (mine + rest) =~= before + mine + rest);
            }
        }
        proof {
            assert(whole.skip(all.len() as int).len() == 0);
            assert(document::nodes_view(out@) + Seq::<NodeView>::empty() =~= document::nodes_view(
                out@,
            ));
        }
        out
    }

    fn walk_node(&mut self, node: Node, hidden: bool, out: &mut Vec<Node>)
        requires
            old(self).ready(
                node_requests(
                    node@,
                    hidden,
                    old(self).page,
                    old(self).tables@,
                    *old(self).opts,
                ).len(),
                node_tally(
                    node@,
                    hidden,
                    old(self).page,
                    old(self).tables@,
                    *old(self).opts,
                    old(self).ahead(),
                ).pictures,
            ),
        ensures
            final(self).same_inputs(old(self)),
            final(self).page == node_page(node@, old(self).page),
            final(self).used == old(self).used + node_requests(
                node@,
                hidden,
                old(self).page,
                old(self).tables@,
                *old(self).opts,
            ).len(),
            final(self).stats@ == plus(
                old(self).stats@,
                node_tally(
                    node@,
                    hidden,
                    old(self).page,
                    old(self).tables@,
                    *old(self).opts,
                    old(self).ahead(),
                ),
            ),
            consistent(final(self).stats@),
            document::nodes_view(final(out)@) == document::nodes_view(old(out)@) + node_result(
                node@,
                hidden,
                old(self).page,
                old(self).tables@,
                *old(self).opts,
                old(self).ahead(),
            ),
        decreases document::weight(node@), 0int,
    {
        let ghost n = node@;
        let ghost start = *self;
        proof {
            document::lemma_inside_weight(n);
            document::law_rewrap_undoes_peel(n);
        }
        if let Node::PageInfo { page_no, key } = node {
            self.page = page_no;
            proof {
                document::lemma_nodes_push(out@, node);
                assert(document::nodes_view(out@).push(n) == document::nodes_view(out@) + seq![n]);
                assert(plus(start.stats@, nothing()) == start.stats@);
            }
            out.push(Node::PageInfo { page_no, key });
            return ;
        }
        let (ws, bare) = document::peel(node);
        match bare {
            Node::Group { key, layer, children } => {
                let below = hidden || is_group_hiding(&ws, layer, self.opts.target);
                let walked = self.walk(children, below);
                let whole = document::rewrap(&ws, Node::Group { key, layer, children: walked });
                proof {
                    document::lemma_nodes_push(out@, whole);
                    assert(document::nodes_view(out@).push(whole@) == document::nodes_view(out@)
                        + seq![whole@]);
                }
                out.push(whole);
            },
            Node::Table { key, rows, location, cells } => {
                let kept = if self.opts.target == OutputTarget::DocLang {
                    self.walk_cells(cells)
                } else {
                    assert(plus(start.stats@, nothing()) == start.stats@);
                    cells
                };
                let whole = document::rewrap(
                    &ws,
                    Node::Table { key, rows, location, cells: kept },
                );
                proof {
                    document::lemma_nodes_push(out@, whole);
                    assert(document::nodes_view(out@).push(whole@) == document::nodes_view(out@)
                        + seq![whole@]);
                }
                out.push(whole);
            },
            Node::Picture { key, caption, caption_href, image } => {
                self.stats.pictures = self.stats.pictures + 1;
                let v = verdict_of(&image, &ws, hidden, self.page, self.tables, self.opts);
                let ghost outcome = outcome_views(start.outcomes@)[start.used as int];
                if v == Verdict::Read {
                    assert(start.ahead()[0] == outcome);
                    assert(outcome == outcome_view(start.outcomes@[start.used as int]));
                    let parts = ocr_parts(&self.outcomes[self.used], self.opts, &mut self.stats);
                    self.used = self.used + 1;
                    let keep = self.opts.keep_picture;
                    replace_picture(
                        &ws,
                        Node::Picture { key, caption, caption_href, image },
                        parts,
                        keep,
                        out,
                    );
                    proof {
                        lemma_replacement_splits(n, outcome, *start.opts);
                    }
                } else {
                    if v == Verdict::Structured {
                        self.stats.skipped_structured = self.stats.skipped_structured + 1;
                    } else if v == Verdict::Small {
                        self.stats.skipped_small = self.stats.skipped_small + 1;
                    }
                    let whole = document::rewrap(
                        &ws,
                        Node::Picture { key, caption, caption_href, image },
                    );
                    proof {
                        document::lemma_nodes_push(out@, whole);
                        assert(document::nodes_view(out@).push(whole@) == document::nodes_view(out@)
                            + seq![whole@]);
                    }
                    out.push(whole);
                }
            },
            other => {
                let whole = document::rewrap(&ws, other);
                proof {
                    document::lemma_nodes_push(out@, whole);
                    assert(document::nodes_view(out@).push(whole@) == document::nodes_view(out@)
                        + seq![whole@]);
                    assert(plus(start.stats@, nothing()) == start.stats@);
                }
                out.push(whole);
            },
        }
    }

    fn walk_cells(&mut self, cells: Vec<Vec<Node>>) -> (r: Vec<Vec<Node>>)
        requires
            old(self).ready(
                cell_requests(
                    document::cells_view(cells@),
                    old(self).page,
                    old(self).tables@,
                    *old(self).opts,
                ).len(),
                cell_tally(
                    document::cells_view(cells@),
                    old(self).page,
                    old(self).tables@,
                    *old(self).opts,
                    old(self).ahead(),
                ).pictures,
            ),
        ensures
            final(self).same_inputs(old(self)),
            final(self).page == old(self).page,
            final(self).used == old(self).used + cell_requests(
                document::cells_view(cells@),
                old(self).page,
                old(self).tables@,
                *old(self).opts,
            ).len(),
            final(self).stats@ == plus(
                old(self).stats@,
                cell_tally(
                    document::cells_view(cells@),
                    old(self).page,
                    old(self).tables@,
                    *old(self).opts,
                    old(self).ahead(),
                ),
            ),
            consistent(final(self).stats@),
            document::cells_view(r@) == cell_result(
                document::cells_view(cells@),
                old(self).page,
                old(self).tables@,
                *old(self).opts,
                old(self).ahead(),
            ),
        decreases document::cell_weights(document::cells_view(cells@)), 2int,
    {
        let mut out: Vec<Vec<Node>> = Vec::new();
        let ghost all = cells@;
        let ghost whole = document::cells_view(cells@);
        let ghost start = *self;
        let page = self.page;
        proof {
            assert(whole.skip(0) == whole);
            assert(document::cells_view(out@) =~= Seq::<Seq<NodeView>>::empty());
        }
        for cell in it: cells
            invariant
                it.seq() == all,
                all == cells@,
                whole == document::cells_view(all),
                document::cell_weights(whole.skip(it.index())) <= document::cell_weights(whole),
                start == *old(self),
                self.same_inputs(&start),
                self.page == page,
                page == start.page,
                consistent(self.stats@),
                self.used <= self.outcomes@.len(),
                start.used + cell_requests(whole, page, start.tables@, *start.opts).len()
                    == self.used + cell_requests(
                    whole.skip(it.index()),
                    page,
                    start.tables@,
                    *start.opts,
                ).len(),
                start.used + cell_requests(whole, page, start.tables@, *start.opts).len()
                    <= self.outcomes@.len(),
                plus(
                    start.stats@,
                    cell_tally(whole, page, start.tables@, *start.opts, start.ahead()),
                ) == plus(
                    self.stats@,
                    cell_tally(
                        whole.skip(it.index()),
                        page,
                        start.tables@,
                        *start.opts,
                        self.ahead(),
                    ),
                ),
                plus(
                    start.stats@,
                    cell_tally(whole, page, start.tables@, *start.opts, start.ahead()),
                ).pictures <= usize::MAX,
                cell_result(whole, page, start.tables@, *start.opts, start.ahead())
                    == document::cells_view(out@) + cell_result(
                    whole.skip(it.index()),
                    page,
                    start.tables@,
                    *start.opts,
                    self.ahead(),
                ),
        {
            let ghost i = it.index();
            let ghost here = *self;
            let ghost before = document::cells_view(out@);
            proof {
                document::lemma_cells_rest(all, i);
            }
            let ghost c = document::nodes_view(cell@);
            let walked = self.walk(cell, false);
            self.page = page;
            proof {
                let used = list_requests(c, false, page, start.tables@, *start.opts).len();
                assert(self.ahead() =~= here.ahead().skip(used as int));
                let mine = seq![
                    list_result(c, false, page, start.tables@, *start.opts, here.ahead()),
                ];
                let rest = cell_result(
                    whole.skip(i + 1),
                    page,
                    start.tables@,
                    *start.opts,
                    self.ahead(),
                );
                assert(document::cells_view(out@.push(walked)) =~= before + mine);
                assert(before + (mine + rest) =~= before + mine + rest);
            }
            out.push(walked);
        }
        proof {
            assert(whole.skip(all.len() as int).len() == 0);
            assert(document::cells_view(out@) + Seq::<Seq<NodeView>>::empty()
                =~= document::cells_view(out@));
        }
        out
    }
}

/// What `replace_picture` appends.
pub open spec fn placed(ws: Seq<Wrap>, picture: NodeView, parts: Option<Seq<NodeView>>, keep: bool) -> Seq<NodeView> {
    match parts {
        None => seq![document::rewrapped(ws, picture)],
        Some(parts) => if keep {
            seq![document::rewrapped(ws, picture)] + all_rewrapped(ws, parts)
        } else {
            match picture {
                NodeView::Picture { caption, caption_href, .. } => all_rewrapped(
                    ws,
                    caption_nodes(caption, caption_href) + parts,
                ),
                _ => seq![document::rewrapped(ws, picture)],
            }
        },
    }
}

proof fn lemma_replacement_splits(n: NodeView, outcome: Option<Outcome>, opts: PostOptions)
    ensures
        replacement(n, outcome, opts) == placed(
            document::wraps(n),
            document::inside(n),
            spliced(outcome, opts),
            opts.keep_picture,
        ),
{
    document::law_rewrap_undoes_peel(n);
}

/// Append a picture that was read, or what takes its place.
fn replace_picture(
    ws: &[Wrap],
    picture: Node,
    parts: Option<Vec<Node>>,
    keep: bool,
    out: &mut Vec<Node>,
)
    requires
        picture is Picture,
    ensures
        document::nodes_view(final(out)@) == document::nodes_view(old(out)@) + placed(
            ws@,
            picture@,
            match parts {
                Some(p) => Some(document::nodes_view(p@)),
                None => None,
            },
            keep,
        ),
{
    let parts = match parts {
        None => {
            let whole = document::rewrap(ws, picture);
            proof {
                document::lemma_nodes_push(out@, whole);
            }
            out.push(whole);
            return ;
        },
        Some(parts) => parts,
    };
    let ghost start = document::nodes_view(out@);
    let ghost shown = document::nodes_view(parts@);
    if keep {
        let whole = document::rewrap(ws, picture);
        proof {
            document::lemma_nodes_push(out@, whole);
        }
        out.push(whole);
        append_rewrapped(ws, parts, out);
        proof {
            assert(start.push(whole@) + all_rewrapped(ws@, shown) =~= start + (seq![whole@]
                + all_rewrapped(ws@, shown)));
        }
    } else if let Node::Picture { caption, caption_href, .. } = picture {
        let ghost cs = caption_nodes(text::opt_view(caption), text::opt_view(caption_href));
        let mut first: Vec<Node> = Vec::new();
        if let Some(c) = caption {
            if !text::is_blank_str(&c) {
                match caption_href {
                    Some(h) => {
                        first.push(Node::Caption { text: c, href: h });
                    },
                    None => {
                        first.push(Node::Paragraph { text: c });
                    },
                }
            }
        }
        assert(document::nodes_view(first@) =~= cs);
        append_rewrapped(ws, first, out);
        append_rewrapped(ws, parts, out);
        proof {
            assert(all_rewrapped(ws@, cs + shown) =~= all_rewrapped(ws@, cs) + all_rewrapped(
                ws@,
                shown,
            ));
            assert(start + all_rewrapped(ws@, cs) + all_rewrapped(ws@, shown) =~= start + (
            all_rewrapped(ws@, cs) + all_rewrapped(ws@, shown)));
        }
    }
}

fn append_rewrapped(ws: &[Wrap], nodes: Vec<Node>, out: &mut Vec<Node>)
    ensures
        document::nodes_view(final(out)@) == document::nodes_view(old(out)@) + all_rewrapped(
            ws@,
            document::nodes_view(nodes@),
        ),
{
    let ghost all = nodes@;
    let ghost start = document::nodes_view(out@);
    for node in it: nodes
        invariant
            it.seq() == all,
            all == nodes@,
            start == document::nodes_view(old(out)@),
            document::nodes_view(out@) == start + all_rewrapped(
                ws@,
                document::nodes_view(all).take(it.index()),
            ),
    {
        let ghost i = it.index();
        let whole = document::rewrap(ws, node);
        proof {
            document::lemma_nodes_push(out@, whole);
            assert(all_rewrapped(ws@, document::nodes_view(all).take(i + 1)) =~= all_rewrapped(
                ws@,
                document::nodes_view(all).take(i),
            ).push(whole@));
        }
        out.push(whole);
    }
    assert(document::nodes_view(all).take(all.len() as int) =~= document::nodes_view(all));
}

/// A document's nodes after the transform.
pub open spec fn transformed(
    nodes: Seq<NodeView>,
    opts: PostOptions,
    outcomes: Seq<Option<Outcome>>,
) -> Seq<NodeView> {
    list_result(nodes, false, 0, regions(nodes, opts), opts, outcomes)
}

/// What the transform of a document's nodes counts.
pub open spec fn counted(
    nodes: Seq<NodeView>,
    opts: PostOptions,
    outcomes: Seq<Option<Outcome>>,
) -> Tally {
    list_tally(nodes, false, 0, regions(nodes, opts), opts, outcomes)
}

/// How many pictures a list of nodes holds.
pub open spec fn list_pictures(nodes: Seq<NodeView>, opts: PostOptions) -> nat
    decreases document::weights(nodes), 1int,
{
    if nodes.len() == 0 {
        0
    } else {
        proof {
            document::lemma_inside_weight(nodes[0]);
        }
        node_pictures(nodes[0], opts) + list_pictures(nodes.skip(1), opts)
    }
}

/// How many pictures the rich cells of a table hold.
pub open spec fn cell_pictures(cells: Seq<Seq<NodeView>>, opts: PostOptions) -> nat
    decreases document::cell_weights(cells), 2int + cells.len(),
{
    if cells.len() == 0 {
        0
    } else {
        list_pictures(cells[0], opts) + cell_pictures(cells.skip(1), opts)
    }
}

/// How many pictures a node holds. Those in rich cells count where the output
/// shows them.
pub open spec fn node_pictures(n: NodeView, opts: PostOptions) -> nat
    decreases document::weight(n), 0int,
{
    proof {
        document::lemma_inside_weight(n);
    }
    match document::inside(n) {
        NodeView::Group { children, .. } => list_pictures(children, opts),
        NodeView::Table { cells, .. } => if opts.reads_hidden() {
            cell_pictures(cells, opts)
        } else {
            0
        },
        NodeView::Picture { .. } => 1,
        _ => 0,
    }
}

pub proof fn lemma_list_pictures(
    nodes: Seq<NodeView>,
    hidden: bool,
    page: usize,
    regions: Seq<(usize, [u16; 4])>,
    opts: PostOptions,
    outs: Seq<Option<Outcome>>,
)
    ensures
        list_tally(nodes, hidden, page, regions, opts, outs).pictures == list_pictures(nodes, opts),
    decreases document::weights(nodes), 1int,
{
    if nodes.len() > 0 {
        document::lemma_inside_weight(nodes[0]);
        let used = node_requests(nodes[0], hidden, page, regions, opts).len() as int;
        lemma_node_pictures(nodes[0], hidden, page, regions, opts, outs);
        lemma_list_pictures(
            nodes.skip(1),
            hidden,
            node_page(nodes[0], page),
            regions,
            opts,
            outs.skip(used),
        );
    }
}

proof fn lemma_cell_pictures(
    cells: Seq<Seq<NodeView>>,
    page: usize,
    regions: Seq<(usize, [u16; 4])>,
    opts: PostOptions,
    outs: Seq<Option<Outcome>>,
)
    ensures
        cell_tally(cells, page, regions, opts, outs).pictures == cell_pictures(cells, opts),
    decreases document::cell_weights(cells), 2int + cells.len(),
{
    if cells.len() > 0 {
        let used = list_requests(cells[0], false, page, regions, opts).len() as int;
        lemma_list_pictures(cells[0], false, page, regions, opts, outs);
        lemma_cell_pictures(cells.skip(1), page, regions, opts, outs.skip(used));
    }
}

pub proof fn lemma_node_pictures(
    n: NodeView,
    hidden: bool,
    page: usize,
    regions: Seq<(usize, [u16; 4])>,
    opts: PostOptions,
    outs: Seq<Option<Outcome>>,
)
    ensures
        node_tally(n, hidden, page, regions, opts, outs).pictures == node_pictures(n, opts),
    decreases document::weight(n), 0int,
{
    document::lemma_inside_weight(n);
    match document::inside(n) {
        NodeView::Group { layer, children, .. } => lemma_list_pictures(
            children,
            hidden || group_hides(document::wraps(n), layer, opts.target),
            page,
            regions,
            opts,
            outs,
        ),
        NodeView::Table { cells, .. } => lemma_cell_pictures(cells, page, regions, opts, outs),
        _ => {},
    }
}

/// Every picture is counted, whatever becomes of it.
pub proof fn law_every_picture_is_counted(
    nodes: Seq<NodeView>,
    opts: PostOptions,
    outcomes: Seq<Option<Outcome>>,
)
    ensures
        counted(nodes, opts, outcomes).pictures == list_pictures(nodes, opts),
{
    lemma_list_pictures(nodes, false, 0, regions(nodes, opts), opts, outcomes);
}

/// A count, or nothing where it is too large for a counter.
pub open spec fn fitting(r: Option<usize>, n: nat) -> bool {
    match r {
        Some(x) => x == n,
        None => n > usize::MAX,
    }
}

/// Count the pictures of a document's nodes; a count that no counter holds
/// gives nothing.
pub fn count_pictures(nodes: &Vec<Node>, opts: &PostOptions) -> (r: Option<usize>)
    ensures
        fitting(r, list_pictures(document::nodes_view(nodes@), *opts)),
    decreases document::weights(document::nodes_view(nodes@)), 1int,
{
    let mut n: usize = 0;
    let mut i: usize = 0;
    let ghost whole = document::nodes_view(nodes@);
    assert(whole.skip(0) == whole);
    while i < nodes.len()
        invariant
            i <= nodes@.len(),
            whole == document::nodes_view(nodes@),
            list_pictures(whole, *opts) == n + list_pictures(whole.skip(i as int), *opts),
            document::weights(whole.skip(i as int)) <= document::weights(whole),
        decreases nodes@.len() - i,
    {
        proof {
            document::lemma_nodes_rest(nodes@, i as int);
            document::lemma_inside_weight(nodes@[i as int]@);
        }
        let (_, bare) = document::peel_ref(&nodes[i]);
        let more: Option<usize> = match bare {
            Node::Group { children, .. } => count_pictures(children, opts),
            Node::Table { cells, .. } => if opts.target == OutputTarget::DocLang {
                count_cell_pictures(cells, opts)
            } else {
                Some(0)
            },
            Node::Picture { .. } => Some(1),
            _ => Some(0),
        };
        let ghost here = node_pictures(nodes@[i as int]@, *opts);
        assert(fitting(more, here));
        assert(list_pictures(whole.skip(i as int), *opts) == here + list_pictures(
            whole.skip(i + 1),
            *opts,
        ));
        match more {
            Some(m) => {
                if m > usize::MAX - n {
                    return None;
                }
                n += m;
            },
            None => return None,
        }
        i += 1;
    }
    Some(n)
}

fn count_cell_pictures(cells: &Vec<Vec<Node>>, opts: &PostOptions) -> (r: Option<usize>)
    ensures
        fitting(r, cell_pictures(document::cells_view(cells@), *opts)),
    decreases document::cell_weights(document::cells_view(cells@)), 2int,
{
    let mut n: usize = 0;
    let mut i: usize = 0;
    let ghost whole = document::cells_view(cells@);
    assert(whole.skip(0) == whole);
    while i < cells.len()
        invariant
            i <= cells@.len(),
            whole == document::cells_view(cells@),
            cell_pictures(whole, *opts) == n + cell_pictures(whole.skip(i as int), *opts),
            document::cell_weights(whole.skip(i as int)) <= document::cell_weights(whole),
        decreases cells@.len() - i,
    {
        proof {
            document::lemma_cells_rest(cells@, i as int);
        }
        match count_pictures(&cells[i], opts) {
            Some(m) => {
                if m > usize::MAX - n {
                    return None;
                }
                n += m;
            },
            None => return None,
        }
        i += 1;
    }
    Some(n)
}

/// Rewrite a list of nodes with one outcome for each image to read.
pub fn apply_nodes(nodes: Vec<Node>, opts: &PostOptions, outcomes: &[Option<OcrOutcome>]) -> (r: (
    Vec<Node>,
    OcrStats,
))
    requires
        outcomes@.len() == requests(document::nodes_view(nodes@), *opts).len(),
        list_pictures(document::nodes_view(nodes@), *opts) <= usize::MAX,
    ensures
        document::nodes_view(r.0@) == transformed(
            document::nodes_view(nodes@),
            *opts,
            outcome_views(outcomes@),
        ),
        r.1@ == counted(document::nodes_view(nodes@), *opts, outcome_views(outcomes@)),
{
    let tables = table_locations(&nodes, opts);
    let mut walk = Walk {
        tables: &tables,
        opts,
        outcomes,
        page: 0,
        used: 0,
        stats: OcrStats::default(),
    };
    assert(walk.ahead() =~= outcome_views(outcomes@));
    let ghost t = counted(document::nodes_view(nodes@), *opts, outcome_views(outcomes@));
    proof {
        law_every_picture_is_counted(
            document::nodes_view(nodes@),
            *opts,
            outcome_views(outcomes@),
        );
    }
    assert(plus(nothing(), t) == t);
    let out = walk.walk(nodes, false);
    (out, walk.stats)
}

} // verus!
