//! Where the files of a batch come from, in which order, and where they go.

use vstd::prelude::*;

use crate::batch;
use crate::batch::{Batch, Step};
use crate::cache_laws;
use crate::config::ImgOcrConfig;
use crate::input;
use crate::input::InputFormat;
use crate::path_order;
use crate::paths;
use crate::text;

verus! {

broadcast use vstd::string::group_string_axioms;

/// A name of a file or a directory in a path.
pub open spec fn is_name(name: Seq<char>) -> bool {
    &&& name.len() > 0
    &&& text::lacks(name, '/')
    &&& name != seq!['.']
    &&& name != seq!['.', '.']
}

proof fn lemma_split_below(s: Seq<char>, name: Seq<char>)
    requires
        text::lacks(name, '/'),
    ensures
        text::split(s + seq!['/'] + name, '/') == text::split(s, '/').push(name),
        text::split(s, '/').len() > 0,
    decreases s.len(),
{
    text::lemma_index_of(s, '/');
    let i = text::index_of(s, '/');
    let whole = s + seq!['/'] + name;
    if i < s.len() {
        let rest = s.skip(i + 1);
        lemma_split_below(rest, name);
        assert forall|k: int| 0 <= k < i implies whole[k] != '/' by {
            assert(whole[k] == s[k]);
        }
        assert(whole[i] == s[i]);
        text::lemma_index_of_is(whole, '/', i);
        assert(whole.take(i) =~= s.take(i));
        assert(whole.skip(i + 1) =~= rest + seq!['/'] + name);
        assert(seq![s.take(i)] + text::split(rest, '/').push(name) =~= text::split(s, '/').push(
            name,
        ));
    } else {
        let n = s.len() as int;
        assert forall|k: int| 0 <= k < n implies whole[k] != '/' by {
            assert(whole[k] == s[k]);
        }
        text::lemma_index_of_is(whole, '/', n);
        assert(whole.take(n) =~= s);
        assert(whole.skip(n + 1) =~= name);
        text::lemma_index_of_is(name, '/', name.len() as int);
        assert(text::split(name, '/') == seq![name]);
        assert(seq![s] + seq![name] =~= seq![s].push(name));
    }
}

proof fn lemma_names_push(parts: Seq<Seq<char>>, p: Seq<char>)
    ensures
        p.len() == 0 || p == seq!['.'] ==> paths::names(parts.push(p)) == paths::names(parts),
        p.len() > 0 && p != seq!['.'] ==> paths::names(parts.push(p)) == paths::names(parts).push(
            p,
        ),
{
    assert(parts.push(p).drop_last() =~= parts);
}

/// The components of a path below a directory are those of the directory and
/// the name.
pub proof fn law_components_below_a_directory(dir: Seq<char>, name: Seq<char>)
    requires
        is_name(name),
    ensures
        paths::components(paths::joined(dir, name)) == paths::components(dir).push(name),
{
    let path = paths::joined(dir, name);
    assert(name[0] != '/');
    let none = Seq::<char>::empty();
    if dir.len() == 0 {
        assert(path =~= name);
        assert(dir =~= none);
        text::lemma_index_of_is(name, '/', name.len() as int);
        text::lemma_index_of_is(none, '/', 0);
        assert(text::split(name, '/') == seq![name]);
        assert(text::split(none, '/') == seq![none]);
        lemma_names_push(seq![], name);
        lemma_names_push(seq![], none);
        assert(Seq::<Seq<char>>::empty().push(name) =~= seq![name]);
        assert(Seq::<Seq<char>>::empty().push(none) =~= seq![none]);
        assert(seq![name][0] == name);
        assert(seq![none][0] == none);
        assert(none.len() != seq!['.'].len());
        assert(paths::components(path) =~= paths::components(dir).push(name));
    } else if dir.last() == '/' {
        let front = dir.drop_last();
        assert(dir =~= front + seq!['/'] + none);
        assert(path =~= front + seq!['/'] + name);
        lemma_split_below(front, none);
        lemma_split_below(front, name);
        lemma_names_push(text::split(front, '/'), none);
        lemma_names_push(text::split(front, '/'), name);
        assert(path[0] == dir[0]);
        assert(text::split(path, '/')[0] == text::split(front, '/')[0]);
        assert(text::split(dir, '/')[0] == text::split(front, '/')[0]);
        assert(paths::components(path) =~= paths::components(dir).push(name));
    } else {
        assert(path =~= dir + seq!['/'] + name);
        lemma_split_below(dir, name);
        lemma_names_push(text::split(dir, '/'), name);
        assert(path[0] == dir[0]);
        assert(text::split(path, '/')[0] == text::split(dir, '/')[0]);
        assert(paths::components(path) =~= paths::components(dir).push(name));
    }
}

/// A file's place under a directory is its path from there: a name, or a
/// directory and a name.
pub proof fn law_places_under_a_directory(dir: Seq<char>, sub: Seq<char>, name: Seq<char>)
    requires
        is_name(name),
        is_name(sub),
    ensures
        batch::relative(paths::joined(dir, name), dir) == name,
        batch::relative(paths::joined(paths::joined(dir, sub), name), dir) == sub + seq!['/']
            + name,
{
    law_components_below_a_directory(dir, name);
    law_components_below_a_directory(dir, sub);
    law_components_below_a_directory(paths::joined(dir, sub), name);
    let d = paths::components(dir);
    let n = d.len() as int;
    let f = d.push(name);
    let g = d.push(sub).push(name);
    assert(f.take(n) =~= d);
    assert(g.take(n) =~= d);
    assert(f.skip(n) =~= seq![name]);
    assert(g.skip(n) =~= seq![sub, name]);
    lemma_path_of_one(name);
    lemma_path_of_one(sub);
    assert(seq![sub, name].drop_last() =~= seq![sub]);
    assert(paths::path_of(seq![sub, name]) == paths::joined(sub, name));
    assert(sub.last() == sub[sub.len() - 1]);
    assert(paths::joined(sub, name) =~= sub + seq!['/'] + name);
}

proof fn lemma_path_of_one(name: Seq<char>)
    requires
        is_name(name),
    ensures
        paths::path_of(seq![name]) == name,
{
    reveal_with_fuel(paths::path_of, 2);
    assert(seq![name].drop_last() =~= Seq::empty());
    assert(Seq::<char>::empty() + name =~= name);
    assert(name[0] != '/');
}

/// A file that does not stand under a directory keeps its name alone.
pub proof fn law_files_from_elsewhere_keep_their_names(
    dir: Seq<char>,
    from: Seq<char>,
    name: Seq<char>,
)
    requires
        is_name(name),
        !batch::stands_under(
            paths::components(paths::joined(from, name)),
            paths::components(dir),
        ),
    ensures
        batch::relative(paths::joined(from, name), dir) == name,
{
    cache_laws::law_names_below_a_directory(from, name);
}

/// The directory of a file is the one that it was put in.
pub proof fn law_the_parent_of_a_file(dir: Seq<char>, name: Seq<char>)
    requires
        is_name(name),
    ensures
        paths::parent(paths::joined(dir, name)) == Some(paths::path_of(paths::components(dir))),
{
    law_components_below_a_directory(dir, name);
    let d = paths::components(dir);
    assert(d.push(name).drop_last() =~= d);
    if d.push(name) == seq![seq!['/']] {
        assert(d.push(name).last() == seq!['/']);
        assert(name[0] == '/');
    }
}

/// A pattern's files stand under what comes before its first wildcard.
pub proof fn law_base_of_a_pattern(
    front: Seq<Seq<char>>,
    wild: Seq<char>,
    rest: Seq<Seq<char>>,
)
    requires
        forall|i: int| 0 <= i < front.len() ==> !batch::is_wild(#[trigger] front[i]),
        batch::is_wild(wild),
    ensures
        batch::base(front + seq![wild] + rest) == front,
    decreases front.len(),
{
    let cs = front + seq![wild] + rest;
    lemma_tame(front, seq![wild] + rest);
    assert(cs =~= front + (seq![wild] + rest));
    assert((seq![wild] + rest)[0] == wild);
    assert(batch::tame(seq![wild] + rest) == 0);
    assert(cs.take(front.len() as int) =~= front);
}

proof fn lemma_tame(front: Seq<Seq<char>>, rest: Seq<Seq<char>>)
    requires
        forall|i: int| 0 <= i < front.len() ==> !batch::is_wild(#[trigger] front[i]),
    ensures
        batch::tame(front + rest) == front.len() + batch::tame(rest),
    decreases front.len(),
{
    if front.len() == 0 {
        assert(front + rest =~= rest);
    } else {
        let next = front.skip(1);
        assert forall|i: int| 0 <= i < next.len() implies !batch::is_wild(#[trigger] next[i]) by {
            assert(next[i] == front[i + 1]);
        }
        lemma_tame(next, rest);
        assert((front + rest)[0] == front[0]);
        assert((front + rest).skip(1) =~= next + rest);
    }
}

/// A pattern without a wildcard names one file, which stands in its directory.
pub proof fn law_a_pattern_without_wildcards(dir: Seq<Seq<char>>, name: Seq<char>)
    requires
        forall|i: int| 0 <= i < dir.len() ==> !batch::is_wild(#[trigger] dir[i]),
        !batch::is_wild(name),
        name != seq!['/'],
    ensures
        batch::base(dir.push(name)) == dir,
{
    let cs = dir.push(name);
    assert forall|i: int| 0 <= i < cs.len() implies !batch::is_wild(#[trigger] cs[i]) by {
        if i < dir.len() {
            assert(cs[i] == dir[i]);
        }
    }
    lemma_tame(cs, seq![]);
    assert(cs + Seq::<Seq<char>>::empty() =~= cs);
    assert(batch::tame(Seq::<Seq<char>>::empty()) == 0);
    assert(cs.take(dir.len() as int) =~= dir);
}

/// A wildcard is a star, a question mark or an opening bracket.
pub proof fn law_wildcards(c: Seq<char>, d: Seq<char>, x: char)
    ensures
        x == '*' || x == '?' || x == '[' ==> batch::is_wild(c + seq![x] + d),
        batch::is_wild(c) ==> exists|i: int|
            0 <= i < c.len() && (#[trigger] c[i] == '*' || c[i] == '?' || c[i] == '['),
{
    let s = c + seq![x] + d;
    if x == '*' || x == '?' || x == '[' {
        assert(s[c.len() as int] == x);
    }
}

/// The files of a batch are those that were found, each as often as it was,
/// in the order of their paths; of a directory only those count whose
/// extension is known. There are none exactly where the batch is refused.
pub proof fn law_selected_files(
    pattern: Seq<char>,
    files: Seq<Seq<char>>,
    directory: bool,
    f: Seq<char>,
)
    ensures
        match batch::selected(pattern, files, directory) {
            Ok(v) => {
                &&& v.len() > 0
                &&& v.contains(f) <==> files.contains(f) && (directory ==> input::suggested(
                    f,
                ) is Some)
                &&& !directory ==> v.to_multiset() == files.to_multiset()
                &&& forall|i: int, j: int|
                    0 <= i < j < v.len() ==> #[trigger] v[i] == #[trigger] v[j]
                        || path_order::path_lt(v[i], v[j])
            },
            Err(_) => !(files.contains(f) && (directory ==> input::suggested(f) is Some)),
        },
{
    broadcast use vstd::seq_lib::group_to_multiset_ensures;

    let known = |f: Seq<char>| input::suggested(f) is Some;
    let kept = if directory {
        batch::convertible(files)
    } else {
        files
    };
    assert(kept.contains(f) <==> files.contains(f) && (directory ==> input::suggested(f) is Some))
        by {
        if directory {
            if kept.contains(f) {
                files.lemma_filter_contains_rev(known, f);
                let i = choose|i: int| 0 <= i < kept.len() && kept[i] == f;
                files.lemma_filter_pred(known, i);
            }
            if files.contains(f) && known(f) {
                let i = choose|i: int| 0 <= i < files.len() && files[i] == f;
                files.lemma_filter_contains(known, i);
            }
        }
    }
    path_order::law_sorted_paths_ascend(kept);
    if kept.len() > 0 {
        let v = path_order::sorted(kept);
        assert(v.contains(f) <==> kept.contains(f)) by {
            assert(v.to_multiset().count(f) == kept.to_multiset().count(f));
        }
        assert forall|i: int, j: int| 0 <= i < j < v.len() implies #[trigger] v[i]
            == #[trigger] v[j] || path_order::path_lt(v[i], v[j]) by {
            assert((path_order::path_leq())(v[i], v[j]));
        }
    } else {
        assert(!kept.contains(f));
    }
}

/// In a directory files come in the order of their names, by the characters;
/// and a directory comes before what is in it.
pub proof fn law_files_come_in_the_order_of_their_names(
    dir: Seq<char>,
    a: Seq<char>,
    b: Seq<char>,
)
    requires
        is_name(a),
        is_name(b),
        a != b,
    ensures
        path_order::path_lt(paths::joined(dir, a), paths::joined(dir, b)) <==> path_order::lex(
            path_order::char_lt(),
            a,
            b,
        ),
        path_order::path_lt(dir, paths::joined(dir, a)),
{
    law_components_below_a_directory(dir, a);
    law_components_below_a_directory(dir, b);
    let d = paths::components(dir);
    assert(path_order::rank(a) == 3) by {
        if a == seq!['/'] {
            assert(a[0] == '/');
        }
    }
    assert(path_order::rank(b) == 3) by {
        if b == seq!['/'] {
            assert(b[0] == '/');
        }
    }
    lemma_lex_push(path_order::component_lt(), d, a, b);
    if d.push(a) == d.push(b) {
        assert(d.push(a).last() == d.push(b).last());
    }
}

proof fn lemma_lex_push<T>(lt: spec_fn(T, T) -> bool, s: Seq<T>, a: T, b: T)
    requires
        a != b,
    ensures
        path_order::lex(lt, s.push(a), s.push(b)) <==> lt(a, b),
        path_order::lex(lt, s, s.push(a)),
    decreases s.len(),
{
    if s.len() > 0 {
        lemma_lex_push(lt, s.skip(1), a, b);
        assert(s.push(a).skip(1) =~= s.skip(1).push(a));
        assert(s.push(b).skip(1) =~= s.skip(1).push(b));
        assert(s.push(a)[0] == s[0] && s.push(b)[0] == s[0]);
    }
}

/// The first character in which two names differ decides which comes first; a
/// name comes before those that it begins.
pub proof fn law_the_first_difference_decides(
    p: Seq<char>,
    x: char,
    y: char,
    a: Seq<char>,
    b: Seq<char>,
)
    requires
        x < y,
    ensures
        path_order::lex(path_order::char_lt(), p + seq![x] + a, p + seq![y] + b),
        path_order::lex(path_order::char_lt(), p, p + seq![x] + a),
    decreases p.len(),
{
    let s = p + seq![x] + a;
    let t = p + seq![y] + b;
    if p.len() > 0 {
        law_the_first_difference_decides(p.skip(1), x, y, a, b);
        assert(s.skip(1) =~= p.skip(1) + seq![x] + a);
        assert(t.skip(1) =~= p.skip(1) + seq![y] + b);
        assert(s[0] == p[0] && t[0] == p[0]);
    } else {
        assert(s[0] == x && t[0] == y);
    }
}

/// Each step of a batch counts once: a file that is taken, converted or fails.
pub proof fn law_steps_are_counted(b: Batch, error: Seq<char>)
    requires
        b.next < usize::MAX,
        b.succeeded < usize::MAX,
        b.failed < usize::MAX,
    ensures
        b.stepped(Step::Take).next == b.next + 1,
        b.stepped(Step::Take).succeeded == b.succeeded,
        b.stepped(Step::Take).failed == b.failed,
        b.stepped(Step::Converted).succeeded == b.succeeded + 1,
        b.stepped(Step::Converted).failed == b.failed,
        b.stepped(Step::Converted).next == b.next,
        b.stepped(Step::Failed(error)).failed == b.failed + 1,
        b.stepped(Step::Failed(error)).succeeded == b.succeeded,
        b.stepped(Step::Failed(error)).next == b.next,
        b.stepped(Step::Take).total == b.total,
        b.stepped(Step::Converted).total == b.total,
        b.stepped(Step::Failed(error)).total == b.total,
{
}

/// Converted documents have the extension of their format.
pub proof fn law_extensions_of_formats(to: Seq<char>)
    ensures
        batch::extension("json"@) == "json"@,
        batch::extension("dclx"@) == "dclx"@,
        batch::extension("chunks"@) == "chunks.json"@,
        to != "json"@ && to != "dclx"@ && to != "chunks"@ ==> batch::extension(to) == "md"@,
{
    reveal_strlit("json");
    reveal_strlit("dclx");
    reveal_strlit("chunks");
    assert("json"@.len() == 4 && "dclx"@.len() == 4 && "chunks"@.len() == 6);
    assert("json"@[0] != "dclx"@[0]);
}

/// Without a window all pages are converted.
pub proof fn law_all_pages_without_a_window(total: int)
    ensures
        batch::pages_in(total, None) == total,
{
}

/// A file of a batch goes to the vision model where that is asked for, past the
/// converter where it is a picture for a remote engine, through the pipeline
/// where it is a PDF or another picture, and else through the converter.
pub proof fn law_how_a_file_is_converted(vlm: bool, cfg: ImgOcrConfig, format: InputFormat)
    ensures
        ({
            let w = batch::way(vlm, cfg, format);
            let past = format is Image && !(cfg.mode is Placeholder) && cfg.engines@.len() > 0 && !(
            cfg.engines@[0] is Local);
            &&& w is Vlm <==> vlm
            &&& w is Bypass <==> !vlm && past
            &&& w is Pipeline <==> !vlm && !past && (format is Pdf || format is Image)
            &&& w is Converter <==> !vlm && !(format is Pdf) && !(format is Image)
        }),
{
}

/// The pictures of an output file go beside it, under its stem.
pub proof fn law_where_pictures_go(dir: Seq<char>, stem: Seq<char>, ext: Seq<char>)
    requires
        stem.len() > 0,
        forall|i: int| 0 <= i < stem.len() ==> stem[i] != '/',
        forall|i: int| 0 <= i < ext.len() ==> ext[i] != '/' && ext[i] != '.',
        stem != seq!['.'] || ext.len() > 0,
    ensures
        batch::artifacts(paths::joined(dir, stem + seq!['.'] + ext)) == stem + "_artifacts"@,
{
    cache_laws::law_extensions_are_found(dir, stem, ext);
}

/// A converted file keeps its place and its stem: under the output directory
/// it stands where it stood under the input's, with the extension of its
/// format.
pub proof fn law_where_converted_files_go(
    dir: Seq<char>,
    sub: Seq<char>,
    stem: Seq<char>,
    ext: Seq<char>,
    output: Seq<char>,
    to: Seq<char>,
)
    requires
        is_name(sub),
        stem.len() > 0,
        forall|i: int| 0 <= i < stem.len() ==> stem[i] != '/',
        forall|i: int| 0 <= i < ext.len() ==> ext[i] != '/' && ext[i] != '.',
        stem != seq!['.'] || ext.len() > 0,
        output.len() > 0,
        output.last() != '/',
    ensures
        ({
            let file = paths::joined(paths::joined(dir, sub), stem + seq!['.'] + ext);
            paths::with_extension(
                paths::joined(output, batch::relative(file, dir)),
                batch::extension(to),
            ) == output + seq!['/'] + sub + seq!['/'] + stem + seq!['.'] + batch::extension(to)
        }),
{
    let name = stem + seq!['.'] + ext;
    let other = stem + seq!['.'] + batch::extension(to);
    assert(name[0] == stem[0] && other[0] == stem[0]);
    assert forall|i: int| 0 <= i < name.len() implies name[i] != '/' by {
        if i < stem.len() {
            assert(name[i] == stem[i]);
        } else if i > stem.len() {
            assert(name[i] == ext[i - stem.len() - 1]);
        }
    }
    assert(is_name(name)) by {
        assert(name.len() >= 2);
        if name == seq!['.', '.'] {
            assert(name.len() == 2);
            assert(stem.len() == 1 && ext.len() == 0);
            assert(stem[0] == name[0]);
            assert(stem =~= seq!['.']);
        }
    }
    law_places_under_a_directory(dir, sub, name);
    assert(sub[0] != '/');
    assert(sub.last() == sub[sub.len() - 1]);
    let below = paths::joined(output, sub);
    assert(below.last() == sub.last());
    let path = paths::joined(output, sub + seq!['/'] + name);
    assert((sub + seq!['/'] + name)[0] == sub[0]);
    assert(path =~= paths::joined(below, name));
    cache_laws::law_extensions_are_replaced(below, stem, ext, batch::extension(to));
    assert(paths::joined(below, other) =~= output + seq!['/'] + sub + seq!['/'] + stem + seq!['.']
        + batch::extension(to));
}

/// The line that ends a batch tells how many files were converted and how many
/// failed, and how many were skipped where some were.
pub proof fn law_the_last_line_of_a_batch(b: Batch)
    ensures
        ({
            let front = "batch: "@ + text::decimal(b.succeeded as nat) + " converted, "@
                + text::decimal(b.failed as nat) + " failed"@;
            &&& b.total == b.succeeded + b.failed ==> b.line() == front
            &&& b.total > b.succeeded + b.failed ==> b.line() == front + ", "@ + text::decimal(
                (b.total - b.succeeded - b.failed) as nat,
            ) + " skipped"@
        }),
        b.code() == 1 <==> b.failed > 0,
        b.code() == 0 <==> b.failed == 0,
{
}

} // verus!
