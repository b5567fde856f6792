//! Batches of files: where their output goes, which file is next, and how the
//! batch ends.

use vstd::prelude::*;

use crate::cli;
use crate::config::ImgOcrConfig;
use crate::conversion;
use crate::input;
use crate::input::InputFormat;
use crate::path_order;
use crate::paths;
use crate::text;

verus! {

broadcast use vstd::string::group_string_axioms;

/// A component of a pattern with a wildcard in it.
pub open spec fn is_wild(c: Seq<char>) -> bool {
    exists|i: int| 0 <= i < c.len() && (#[trigger] c[i] == '*' || c[i] == '?' || c[i] == '[')
}

fn wild(c: &[char]) -> (r: bool)
    ensures
        r == is_wild(c@),
{
    for i in 0..c.len()
        invariant
            forall|k: int| 0 <= k < i ==> #[trigger] c@[k] != '*' && c@[k] != '?' && c@[k] != '[',
    {
        if c[i] == '*' || c[i] == '?' || c[i] == '[' {
            assert(c@[i as int] == c@[i as int]);
            return true;
        }
    }
    false
}

/// How many components stand before the first with a wildcard.
pub open spec fn tame(cs: Seq<Seq<char>>) -> int
    decreases cs.len(),
{
    if cs.len() == 0 || is_wild(cs[0]) {
        0
    } else {
        1 + tame(cs.skip(1))
    }
}

/// The components of a pattern that no wildcard is in or before; of a pattern
/// without wildcards all but the last, which names the file.
pub open spec fn base(cs: Seq<Seq<char>>) -> Seq<Seq<char>> {
    let n = tame(cs);
    if n == cs.len() && n > 0 && !(n == 1 && cs[0] == seq!['/']) {
        cs.take(n - 1)
    } else {
        cs.take(n)
    }
}

/// The directory that a pattern's files stand under.
pub fn glob_base(pattern: &str) -> (r: String)
    ensures
        r@ == paths::path_of(base(paths::components(pattern@))),
{
    let cs = paths::components_of(pattern);
    let ghost all = text::views(cs@);
    let mut n: usize = 0;
    assert(all.skip(0) == all);
    while n < cs.len() && !wild(&cs[n])
        invariant
            n <= cs@.len(),
            all == text::views(cs@),
            tame(all) == n + tame(all.skip(n as int)),
        decreases cs@.len() - n,
    {
        assert(all.skip(n as int)[0] == cs@[n as int]@);
        assert(all.skip(n as int).skip(1) == all.skip(n + 1));
        n += 1;
    }
    proof {
        if n < cs@.len() {
            assert(all.skip(n as int)[0] == cs@[n as int]@);
        }
        assert(tame(all) == n);
    }
    let mut keep: usize = n;
    if n == cs.len() && n > 0 {
        let only_root = n == 1 && cs[0].len() == 1 && cs[0][0] == '/';
        assert(n == 1 ==> only_root == (all[0] == seq!['/'])) by {
            if only_root {
                assert(cs@[0]@ =~= seq!['/']);
            }
        }
        if !only_root {
            keep = n - 1;
        }
    }
    assert(all.subrange(0, keep as int) == base(all));
    paths::path_from(&cs, 0, keep)
}

/// The extension of a batch's output files.
pub open spec fn extension(to: Seq<char>) -> Seq<char> {
    if to == "json"@ {
        "json"@
    } else if to == "dclx"@ {
        "dclx"@
    } else if to == "chunks"@ {
        "chunks.json"@
    } else {
        "md"@
    }
}

fn extension_of(to: &str) -> (r: &'static str)
    ensures
        r@ == extension(to@),
{
    if text::same(to, "json") {
        "json"
    } else if text::same(to, "dclx") {
        "dclx"
    } else if text::same(to, "chunks") {
        "chunks.json"
    } else {
        "md"
    }
}

/// A file stands under a directory: its components begin with the
/// directory's.
pub open spec fn stands_under(file: Seq<Seq<char>>, dir: Seq<Seq<char>>) -> bool {
    dir.len() <= file.len() && file.take(dir.len() as int) == dir
}

/// The path of a file from a directory that it stands under, and else its
/// name.
pub open spec fn relative(file: Seq<char>, dir: Seq<char>) -> Seq<char> {
    let f = paths::components(file);
    let d = paths::components(dir);
    if stands_under(f, d) {
        paths::path_of(f.skip(d.len() as int))
    } else {
        match paths::file_name(file) {
            Some(name) => name,
            None => Seq::empty(),
        }
    }
}

fn relative_to(file: &str, dir: &str) -> (r: String)
    ensures
        r@ == relative(file@, dir@),
{
    let f = paths::components_of(file);
    let d = paths::components_of(dir);
    let ghost fs = text::views(f@);
    let ghost ds = text::views(d@);
    let mut under = d.len() <= f.len();
    let mut i: usize = 0;
    while under && i < d.len()
        invariant
            fs == text::views(f@),
            ds == text::views(d@),
            i <= d@.len(),
            under ==> d@.len() <= f@.len() && forall|k: int|
                0 <= k < i ==> #[trigger] ds[k] == fs[k],
            !under ==> !stands_under(fs, ds),
        decreases d@.len() - i,
    {
        assert(ds[i as int] == d@[i as int]@ && fs[i as int] == f@[i as int]@);
        if !text::same_chars(&f[i], &text::string_of(&d[i])) {
            assert(fs.take(ds.len() as int)[i as int] != ds[i as int]);
            under = false;
        }
        i += 1;
    }
    if under {
        assert(fs.take(ds.len() as int) =~= ds);
        assert(fs.subrange(ds.len() as int, fs.len() as int) == fs.skip(ds.len() as int));
        paths::path_from(&f, d.len(), f.len())
    } else {
        match paths::file_name_of(file) {
            Some(name) => name,
            None => String::new(),
        }
    }
}

/// Where the output of a file goes: to the same place under the output
/// directory, with the extension of the format.
pub fn batch_out_path(file: &str, dir: &str, output: &str, to: &str) -> (r: String)
    ensures
        r@ == paths::with_extension(
            paths::joined(output@, relative(file@, dir@)),
            extension(to@),
        ),
{
    let rel = relative_to(file, dir);
    paths::with_extension_of(&paths::join(output, &rel), extension_of(to))
}

/// The directory for the pictures of an output file, beside it.
pub open spec fn artifacts(out: Seq<char>) -> Seq<char> {
    crate::config::or_default(paths::stem(out), "document"@) + "_artifacts"@
}

/// The directory for the pictures of an output file, beside it.
pub fn artifact_dir(out: &str) -> (r: String)
    ensures
        r@ == artifacts(out@),
{
    match paths::stem_of(out) {
        Some(stem) => text::both(&stem, "_artifacts"),
        None => text::both("document", "_artifacts"),
    }
}

/// How many of a document's pages are converted.
pub open spec fn pages_in(total: int, window: Option<(usize, usize)>) -> int {
    match window {
        None => total,
        Some((first, last)) => {
            let end = if last < total {
                last + 1
            } else {
                total + 1
            };
            if end < first {
                0
            } else if end - first < total {
                end - first
            } else {
                total
            }
        },
    }
}

/// How many of a document's pages are converted.
pub fn batch_page_count(total: usize, window: Option<(usize, usize)>) -> (r: usize)
    requires
        total < usize::MAX,
    ensures
        r == pages_in(total as int, window),
{
    match window {
        None => total,
        Some((first, last)) => {
            let end: usize = if last < total {
                last + 1
            } else {
                total + 1
            };
            if end < first {
                0
            } else if end - first < total {
                end - first
            } else {
                total
            }
        },
    }
}

/// The pages that are counted are those of the document that stand in the
/// window.
pub proof fn law_pages_are_those_in_the_window(total: int, first: usize, last: usize)
    requires
        0 <= total,
        1 <= first,
    ensures
        vstd::set_lib::set_int_range(1, total + 1).filter(|p: int| first <= p <= last).len()
            == pages_in(total, Some((first, last))),
{
    let end = if last < total {
        last + 1
    } else {
        total + 1
    };
    let all = vstd::set_lib::set_int_range(1, total + 1).filter(|p: int| first <= p <= last);
    if first <= end {
        assert(all =~= vstd::set_lib::set_int_range(first as int, end));
        vstd::set_lib::lemma_int_range(first as int, end);
    } else {
        assert(all =~= Set::<int>::empty());
    }
}

/// The files of a directory that the converter reads, by their extensions.
pub open spec fn convertible(files: Seq<Seq<char>>) -> Seq<Seq<char>> {
    files.filter(|f: Seq<char>| input::suggested(f) is Some)
}

/// The files of a batch in order, or why there are none. In a directory only
/// those with a known extension count; those that match a pattern all do.
pub open spec fn selected(pattern: Seq<char>, files: Seq<Seq<char>>, directory: bool) -> Result<
    Seq<Seq<char>>,
    Seq<char>,
> {
    let kept = if directory {
        convertible(files)
    } else {
        files
    };
    if kept.len() > 0 {
        Ok(path_order::sorted(kept))
    } else if directory {
        Err("--input '"@ + pattern + "' contains no files with a convertible extension"@)
    } else {
        Err("--input '"@ + pattern + "' matches no files"@)
    }
}

/// Choose the files of a batch among those that were found, and sort them.
pub fn select_files(pattern: &str, files: Vec<String>, directory: bool) -> (r: Result<
    Vec<String>,
    String,
>)
    ensures
        match r {
            Ok(kept) => selected(pattern@, text::string_views(files@), directory) == Ok::<
                Seq<Seq<char>>,
                Seq<char>,
            >(text::string_views(kept@)),
            Err(e) => selected(pattern@, text::string_views(files@), directory) == Err::<
                Seq<Seq<char>>,
                Seq<char>,
            >(e@),
        },
{
    let ghost all = text::string_views(files@);
    if !directory {
        if files.len() == 0 {
            return Err(text::around("--input '", pattern, "' matches no files"));
        }
        return Ok(path_order::sort_paths(&files));
    }
    let ghost known = |f: Seq<char>| input::suggested(f) is Some;
    let mut kept: Vec<String> = Vec::new();
    assert(all.take(0).filter(known) == Seq::<Seq<char>>::empty()) by {
        reveal(Seq::filter);
    }
    for i in 0..files.len()
        invariant
            all == text::string_views(files@),
            known == (|f: Seq<char>| input::suggested(f) is Some),
            text::string_views(kept@) == all.take(i as int).filter(known),
    {
        let ghost before = text::string_views(kept@);
        assert(all.take(i + 1).drop_last() == all.take(i as int));
        assert(all.take(i + 1).last() == files@[i as int]@);
        assert(all.take(i + 1).filter(known) == (if known(files@[i as int]@) {
            before.push(files@[i as int]@)
        } else {
            before
        })) by {
            reveal(Seq::filter);
        }
        if input::extension_format(&files[i]).is_some() {
            kept.push(files[i].clone());
            assert(text::string_views(kept@) =~= before.push(files@[i as int]@));
        }
    }
    assert(all.take(all.len() as int) == all);
    if kept.len() == 0 {
        return Err(
            text::around(
                "--input '",
                pattern,
                "' contains no files with a convertible extension",
            ),
        );
    }
    Ok(path_order::sort_paths(&kept))
}

/// How a file of a batch is converted.
#[derive(Debug, Clone, Copy, PartialEq, Eq, Structural)]
pub enum BatchWay {
    /// It is a picture for a remote engine, and becomes a document of its own.
    Bypass,
    /// Its pages are read by a remote vision model.
    Vlm,
    /// Through the warm pipeline that the workers share.
    Pipeline,
    /// By the worker's own converter.
    Converter,
}

/// How a file of a batch is converted.
pub open spec fn way(vlm: bool, cfg: ImgOcrConfig, format: InputFormat) -> BatchWay {
    if vlm {
        BatchWay::Vlm
    } else if cli::bypasses(cfg, format) {
        BatchWay::Bypass
    } else if conversion::through_pipeline(format) {
        BatchWay::Pipeline
    } else {
        BatchWay::Converter
    }
}

/// Choose how a file of a batch is converted.
pub fn batch_way(vlm: bool, cfg: &ImgOcrConfig, format: InputFormat) -> (r: BatchWay)
    ensures
        r == way(vlm, *cfg, format),
{
    if vlm {
        BatchWay::Vlm
    } else if cli::is_bypass(cfg, format) {
        BatchWay::Bypass
    } else if format == InputFormat::Pdf || format == InputFormat::Image {
        BatchWay::Pipeline
    } else {
        BatchWay::Converter
    }
}

/// The line that announces a file.
pub open spec fn announced(file: Seq<char>, pages: Option<usize>) -> Seq<char> {
    match pages {
        Some(1) => "start: "@ + file + " (1 page)"@,
        Some(n) => "start: "@ + file + " ("@ + text::decimal(n as nat) + " pages)"@,
        None => "start: "@ + file,
    }
}

/// The line that announces a file.
pub fn start_line(file: &str, pages: Option<usize>) -> (r: String)
    ensures
        r@ == announced(file@, pages),
{
    let mut v = text::chars_of("start: ");
    text::append_str(&mut v, file);
    match pages {
        Some(n) => {
            if n == 1 {
                text::append_str(&mut v, " (1 page)");
            } else {
                text::append_str(&mut v, " (");
                text::append(&mut v, &text::decimal_of(n as u64));
                text::append_str(&mut v, " pages)");
            }
        },
        None => {},
    }
    text::string_of(&v)
}

/// How many workers convert a batch.
pub fn worker_count(jobs: usize, files: usize) -> (r: usize)
    ensures
        r == (if jobs == 0 || files == 0 {
            1
        } else if jobs < files {
            jobs
        } else {
            files
        }),
{
    let n: usize = if jobs < files {
        jobs
    } else {
        files
    };
    if n < 1 {
        1
    } else {
        n
    }
}

/// The words of an error show that the converter itself is missing something.
pub open spec fn is_global(error: Seq<char>) -> bool {
    text::occurs(error, "execution provider"@) || text::occurs(
        error,
        "pdfium library is not installed"@,
    ) || text::occurs(error, "model not found at"@)
}

/// Whether the words of an error show that the converter itself is missing
/// something.
pub fn global_batch_failure(error: &str) -> (r: bool)
    ensures
        r == is_global(error@),
{
    let v = text::chars_of(error);
    text::has(&v, "execution provider") || text::has(&v, "pdfium library is not installed")
        || text::has(&v, "model not found at")
}

/// A batch under way.
#[derive(Debug, Clone, Copy)]
pub struct Batch {
    /// How many files there are.
    pub total: usize,
    /// The next file.
    pub next: usize,
    pub succeeded: usize,
    pub failed: usize,
}

/// What happens in a batch.
pub enum Step {
    /// A worker takes the next file.
    Take,
    /// A file was converted.
    Converted,
    /// A file failed, with this error.
    Failed(Seq<char>),
}

impl Batch {
    /// Files are handed out in order, and each ends at most once.
    pub open spec fn well_formed(self) -> bool {
        self.succeeded + self.failed <= self.next <= self.total
    }

    /// Some file was handed out and has not ended.
    pub open spec fn busy(self) -> bool {
        self.succeeded + self.failed < self.next
    }

    /// A step can happen: there is a file to take, or one that is under way.
    pub open spec fn possible(self, step: Step) -> bool {
        match step {
            Step::Take => self.next < self.total,
            Step::Converted => self.busy(),
            Step::Failed(_) => self.busy(),
        }
    }

    /// The batch after a step.
    pub open spec fn stepped(self, step: Step) -> Batch {
        match step {
            Step::Take => Batch { next: (self.next + 1) as usize, ..self },
            Step::Converted => Batch { succeeded: (self.succeeded + 1) as usize, ..self },
            Step::Failed(_) => Batch { failed: (self.failed + 1) as usize, ..self },
        }
    }

    /// A batch before anything happened.
    pub open spec fn fresh(total: usize) -> Batch {
        Batch { total, next: 0, succeeded: 0, failed: 0 }
    }

    /// A batch of some files.
    pub fn new(total: usize) -> (r: Batch)
        ensures
            r == Batch::fresh(total),
            r.well_formed(),
    {
        Batch { total, next: 0, succeeded: 0, failed: 0 }
    }

    /// Hand out the next file; there is none only when all were handed out.
    pub fn take(&mut self) -> (r: Option<usize>)
        requires
            old(self).well_formed(),
        ensures
            final(self).well_formed(),
            if old(self).next == old(self).total {
                r is None && *final(self) == *old(self)
            } else {
                r == Some(old(self).next) && *final(self) == old(self).stepped(Step::Take)
            },
    {
        if self.next == self.total {
            return None;
        }
        let i: usize = self.next;
        self.next = i + 1;
        Some(i)
    }

    /// A file was converted.
    pub fn converted(&mut self)
        requires
            old(self).well_formed(),
            old(self).busy(),
        ensures
            final(self).well_formed(),
            *final(self) == old(self).stepped(Step::Converted),
    {
        self.succeeded = self.succeeded + 1;
    }

    /// A file failed, and the others go on. The result says whether the words
    /// of the error show that the converter itself is missing something.
    pub fn fail(&mut self, error: &str) -> (shared: bool)
        requires
            old(self).well_formed(),
            old(self).busy(),
        ensures
            final(self).well_formed(),
            shared == is_global(error@),
            *final(self) == (Batch { failed: (old(self).failed + 1) as usize, ..*old(self) }),
            *final(self) == old(self).stepped(Step::Failed(error@)),
    {
        self.failed = self.failed + 1;
        global_batch_failure(error)
    }

    /// How many files never ended.
    pub open spec fn skipped(self) -> int {
        self.total - self.succeeded - self.failed
    }

    /// The line that ends a batch.
    pub open spec fn line(self) -> Seq<char> {
        let front = "batch: "@ + text::decimal(self.succeeded as nat) + " converted, "@
            + text::decimal(self.failed as nat) + " failed"@;
        if self.skipped() > 0 {
            front + ", "@ + text::decimal(self.skipped() as nat) + " skipped"@
        } else {
            front
        }
    }

    /// The line that ends a batch.
    pub fn summary(&self) -> (r: String)
        requires
            self.well_formed(),
        ensures
            r@ == self.line(),
    {
        let mut v = text::chars_of("batch: ");
        text::append(&mut v, &text::decimal_of(self.succeeded as u64));
        text::append_str(&mut v, " converted, ");
        text::append(&mut v, &text::decimal_of(self.failed as u64));
        text::append_str(&mut v, " failed");
        let skipped: usize = self.total - self.succeeded - self.failed;
        if skipped > 0 {
            text::append_str(&mut v, ", ");
            text::append(&mut v, &text::decimal_of(skipped as u64));
            text::append_str(&mut v, " skipped");
        }
        text::string_of(&v)
    }

    /// The exit code of a batch: 1 where a file failed.
    pub open spec fn code(self) -> u8 {
        if self.failed > 0 {
            1
        } else {
            0
        }
    }

    /// The exit code of a batch.
    pub fn exit_code(&self) -> (r: u8)
        ensures
            r == self.code(),
    {
        if self.failed > 0 {
            1
        } else {
            0
        }
    }
}

/// When no file is left and none is under way, every file was converted or
/// failed, and none was skipped.
pub proof fn law_batches_end_complete(b: Batch)
    requires
        b.well_formed(),
        !b.busy(),
        b.next == b.total,
    ensures
        b.skipped() == 0,
        b.succeeded + b.failed == b.total,
{
}

/// A batch goes on after any failure: the files that were not handed out yet
/// still are.
pub proof fn law_a_failure_does_not_end_the_batch(b: Batch, error: Seq<char>)
    requires
        b.well_formed(),
        b.busy(),
    ensures
        ({
            let after = b.stepped(Step::Failed(error));
            &&& after.well_formed()
            &&& after.next == b.next
            &&& after.possible(Step::Take) == b.possible(Step::Take)
        }),
{
}

/// The steps can happen one after the other.
pub open spec fn playable(b: Batch, steps: Seq<Step>) -> bool
    decreases steps.len(),
{
    steps.len() > 0 ==> b.possible(steps[0]) && playable(b.stepped(steps[0]), steps.skip(1))
}

/// The batch after some steps.
pub open spec fn played(b: Batch, steps: Seq<Step>) -> Batch
    decreases steps.len(),
{
    if steps.len() == 0 {
        b
    } else {
        played(b.stepped(steps[0]), steps.skip(1))
    }
}

/// How many files are handed out in some steps.
pub open spec fn taken(steps: Seq<Step>) -> nat
    decreases steps.len(),
{
    if steps.len() == 0 {
        0
    } else {
        (if steps[0] is Take {
            1nat
        } else {
            0nat
        }) + taken(steps.skip(1))
    }
}

/// How many files fail in some steps.
pub open spec fn failures(steps: Seq<Step>) -> nat
    decreases steps.len(),
{
    if steps.len() == 0 {
        0
    } else {
        (if steps[0] is Failed {
            1nat
        } else {
            0nat
        }) + failures(steps.skip(1))
    }
}

proof fn lemma_played(b: Batch, steps: Seq<Step>)
    requires
        b.well_formed(),
        playable(b, steps),
    ensures
        played(b, steps).well_formed(),
        played(b, steps).total == b.total,
        played(b, steps).next == b.next + taken(steps),
        played(b, steps).failed == b.failed + failures(steps),
    decreases steps.len(),
{
    if steps.len() > 0 {
        lemma_played(b.stepped(steps[0]), steps.skip(1));
    }
}

/// However the workers interleave and whatever fails: as long as a batch is
/// not done something can happen, and when it is done every file was handed
/// out once, in order, and was converted or failed. It fails as a whole exactly
/// when some file failed.
pub proof fn law_every_file_is_converted_or_fails(total: usize, steps: Seq<Step>)
    requires
        playable(Batch::fresh(total), steps),
    ensures
        ({
            let b = played(Batch::fresh(total), steps);
            &&& b.well_formed()
            &&& b.next == taken(steps)
            &&& b.possible(Step::Take) || b.possible(Step::Converted) || (taken(steps) == total
                && b.succeeded + b.failed == total && b.skipped() == 0)
            &&& b.code() == 1 <==> failures(steps) > 0
            &&& b.code() == 0 <==> failures(steps) == 0
        }),
{
    lemma_played(Batch::fresh(total), steps);
}

/// Files at different places under a directory keep their places: the paths
/// from the directory differ.
pub proof fn law_places_are_kept(f: Seq<Seq<char>>, g: Seq<Seq<char>>, d: Seq<Seq<char>>)
    requires
        stands_under(f, d),
        stands_under(g, d),
        f.skip(d.len() as int) == g.skip(d.len() as int),
    ensures
        f == g,
{
    assert(f =~= f.take(d.len() as int) + f.skip(d.len() as int));
    assert(g =~= g.take(d.len() as int) + g.skip(d.len() as int));
}

} // verus!
