//! File paths as text, with `/` between the names.

use vstd::prelude::*;

use crate::text;

verus! {

/// A path below another; one that starts with `/` stands for itself.
pub open spec fn joined(dir: Seq<char>, name: Seq<char>) -> Seq<char> {
    if name.len() > 0 && name[0] == '/' {
        name
    } else if dir.len() == 0 || dir.last() == '/' {
        dir + name
    } else {
        dir.push('/') + name
    }
}

/// Put a path below another.
pub fn join(dir: &str, name: &str) -> (r: String)
    ensures
        r@ == joined(dir@, name@),
{
    let d = text::chars_of(dir);
    let n = text::chars_of(name);
    let mut out: Vec<char> = Vec::new();
    if !(n.len() > 0 && n[0] == '/') {
        text::append(&mut out, &d);
        assert(out@ =~= d@);
        if d.len() > 0 && d[d.len() - 1] != '/' {
            out.push('/');
        }
    }
    let ghost front = out@;
    text::append(&mut out, &n);
    assert(front.len() == 0 ==> front + n@ =~= n@);
    text::string_of(&out)
}

/// Position of the last occurrence of a character, -1 where there is none.
pub open spec fn last_of(s: Seq<char>, c: char) -> int
    decreases s.len(),
{
    if s.len() == 0 {
        -1
    } else if s.last() == c {
        s.len() - 1
    } else {
        last_of(s.drop_last(), c)
    }
}

/// The characters behind the last occurrence of a character.
fn after_last<'a>(v: &'a [char], c: char) -> (r: &'a [char])
    ensures
        -1 <= last_of(v@, c) < v@.len(),
        r@ == v@.skip(last_of(v@, c) + 1),
{
    let mut n: usize = v.len();
    assert(v@.take(n as int) == v@);
    while n > 0 && v[n - 1] != c
        invariant
            n <= v@.len(),
            last_of(v@, c) == last_of(v@.take(n as int), c),
        decreases n,
    {
        assert(v@.take(n as int).drop_last() == v@.take(n - 1));
        n -= 1;
    }
    vstd::slice::slice_subrange(v, n, v.len())
}

/// A path without the separators, and the names `.`, that end it.
pub open spec fn bare(path: Seq<char>) -> Seq<char>
    decreases path.len(),
{
    if path.len() > 0 && (path.last() == '/' || (path.len() > 1 && path.last() == '.' && path[path.len()
        - 2] == '/')) {
        bare(path.drop_last())
    } else {
        path
    }
}

fn bare_of<'a>(path: &'a [char]) -> (r: &'a [char])
    ensures
        r@ == bare(path@),
        r@ == path@.take(r@.len() as int),
{
    let mut n: usize = path.len();
    assert(path@.take(n as int) == path@);
    while n > 0 && (path[n - 1] == '/' || (n > 1 && path[n - 1] == '.' && path[n - 2] == '/'))
        invariant
            n <= path@.len(),
            bare(path@) == bare(path@.take(n as int)),
        decreases n,
    {
        assert(path@.take(n as int).drop_last() == path@.take(n - 1));
        n -= 1;
    }
    vstd::slice::slice_subrange(path, 0, n)
}

/// The last name of a path; `.` and `..` name no file.
pub open spec fn file_name(path: Seq<char>) -> Option<Seq<char>> {
    let name = bare(path).skip(last_of(bare(path), '/') + 1);
    if name.len() == 0 || name == seq!['.'] || name == seq!['.', '.'] {
        None
    } else {
        Some(name)
    }
}

fn file_name_in<'a>(path: &'a [char]) -> (r: Option<&'a [char]>)
    ensures
        match r {
            Some(name) => file_name(path@) == Some(name@) && name@.len() > 0 && name@.len() <= bare(
                path@,
            ).len() && name@ == bare(path@).skip(bare(path@).len() - name@.len()),
            None => file_name(path@) is None,
        },
{
    let b = bare_of(path);
    let name = after_last(b, '/');
    assert(name.len() == 1 && name[0] == '.' ==> name@ == seq!['.']);
    assert(name.len() == 2 && name[0] == '.' && name[1] == '.' ==> name@ == seq!['.', '.']);
    if name.len() == 0 || (name.len() == 1 && name[0] == '.') || (name.len() == 2 && name[0] == '.'
        && name[1] == '.') {
        None
    } else {
        Some(name)
    }
}

/// The last name of a path.
pub fn file_name_of(path: &str) -> (r: Option<String>)
    ensures
        text::opt_view(r) == file_name(path@),
{
    let p = text::chars_of(path);
    match file_name_in(&p) {
        Some(name) => Some(text::string_of(name)),
        None => None,
    }
}

/// The extension of a file name: what follows its last dot, unless that dot
/// is its first character.
pub open spec fn name_extension(name: Seq<char>) -> Option<Seq<char>> {
    if last_of(name, '.') > 0 {
        Some(name.skip(last_of(name, '.') + 1))
    } else {
        None
    }
}

/// A file name without its extension and the dot before it.
pub open spec fn name_stem(name: Seq<char>) -> Seq<char> {
    match name_extension(name) {
        Some(ext) => name.take(name.len() - ext.len() - 1),
        None => name,
    }
}

fn extension_in<'a>(name: &'a [char]) -> (r: Option<&'a [char]>)
    ensures
        match r {
            Some(ext) => name_extension(name@) == Some(ext@) && ext@.len() + 1 < name@.len(),
            None => name_extension(name@) is None,
        },
{
    let ext = after_last(name, '.');
    if name.len() - ext.len() > 1 {
        Some(ext)
    } else {
        None
    }
}

/// The extension of the file that a path names.
pub open spec fn extension(path: Seq<char>) -> Option<Seq<char>> {
    match file_name(path) {
        Some(name) => name_extension(name),
        None => None,
    }
}

/// The extension of the file that a path names.
pub fn extension_of(path: &str) -> (r: Option<String>)
    ensures
        text::opt_view(r) == extension(path@),
{
    let p = text::chars_of(path);
    match file_name_in(&p) {
        Some(name) => match extension_in(name) {
            Some(ext) => Some(text::string_of(ext)),
            None => None,
        },
        None => None,
    }
}

/// The name of the file that a path names, without its extension.
pub open spec fn stem(path: Seq<char>) -> Option<Seq<char>> {
    match file_name(path) {
        Some(name) => Some(name_stem(name)),
        None => None,
    }
}

/// The name of the file that a path names, without its extension.
pub fn stem_of(path: &str) -> (r: Option<String>)
    ensures
        text::opt_view(r) == stem(path@),
{
    let p = text::chars_of(path);
    match file_name_in(&p) {
        Some(name) => match extension_in(name) {
            Some(ext) => Some(
                text::string_of(vstd::slice::slice_subrange(name, 0, name.len() - ext.len() - 1)),
            ),
            None => Some(text::string_of(name)),
        },
        None => None,
    }
}

/// A path with the extension of its last name replaced, or put there.
pub open spec fn with_extension(path: Seq<char>, ext: Seq<char>) -> Seq<char> {
    match file_name(path) {
        Some(name) => bare(path).take(bare(path).len() - name.len() + name_stem(name).len()).push(
            '.',
        ) + ext,
        None => path,
    }
}

/// A path with the extension of its last name replaced, or put there.
pub fn with_extension_of(path: &str, ext: &str) -> (r: String)
    ensures
        r@ == with_extension(path@, ext@),
{
    let p = text::chars_of(path);
    match file_name_in(&p) {
        Some(name) => {
            let b = bare_of(&p);
            let front: usize = b.len() - name.len();
            let kept: usize = match extension_in(name) {
                Some(e) => name.len() - e.len() - 1,
                None => name.len(),
            };
            let mut out = text::to_vec(vstd::slice::slice_subrange(b, 0, front + kept));
            out.push('.');
            text::append_str(&mut out, ext);
            text::string_of(&out)
        },
        None => text::string_of(&p),
    }
}

/// The names of a path that count: not the empty ones, nor `.`.
pub open spec fn names(parts: Seq<Seq<char>>) -> Seq<Seq<char>>
    decreases parts.len(),
{
    if parts.len() == 0 {
        Seq::empty()
    } else if parts.last().len() == 0 || parts.last() == seq!['.'] {
        names(parts.drop_last())
    } else {
        names(parts.drop_last()).push(parts.last())
    }
}

/// What a path starts with: the root, or `.`.
pub open spec fn root(path: Seq<char>) -> Seq<Seq<char>> {
    if path.len() > 0 && path[0] == '/' {
        seq![seq!['/']]
    } else if text::split(path, '/')[0] == seq!['.'] {
        seq![seq!['.']]
    } else {
        Seq::empty()
    }
}

/// The components of a path.
pub open spec fn components(path: Seq<char>) -> Seq<Seq<char>> {
    root(path) + names(text::split(path, '/'))
}

/// The components of a path.
pub fn components_of(path: &str) -> (r: Vec<Vec<char>>)
    ensures
        text::views(r@) == components(path@),
{
    let p = text::chars_of(path);
    let parts = text::split_on(&p, '/');
    let ghost all = text::views(parts@);
    let mut r: Vec<Vec<char>> = Vec::new();
    assert(all[0] == parts@[0]@);
    if p.len() > 0 && p[0] == '/' {
        r.push(vec!['/']);
        assert(text::views(r@) == root(path@)) by {
            assert(r@[0]@ == seq!['/']);
        }
    } else if parts[0].len() == 1 && parts[0][0] == '.' {
        r.push(vec!['.']);
        assert(parts@[0]@ == seq!['.']);
        assert(text::views(r@) == root(path@)) by {
            assert(r@[0]@ == seq!['.']);
        }
    } else {
        assert(parts@[0]@ != seq!['.']);
        assert(text::views(r@) == root(path@));
    }
    let ghost front = text::views(r@);
    assert(front + names(all.take(0)) == front);
    for i in 0..parts.len()
        invariant
            all == text::views(parts@),
            text::views(r@) == front + names(all.take(i as int)),
    {
        assert(all.take(i + 1).drop_last() == all.take(i as int));
        assert(all.take(i + 1).last() == parts@[i as int]@);
        let part = &parts[i];
        let dot = part.len() == 1 && part[0] == '.';
        assert(dot == (part@ == seq!['.'])) by {
            if dot {
                assert(part@ =~= seq!['.']);
            }
        }
        if part.len() > 0 && !dot {
            let ghost before = text::views(r@);
            let ghost kept = names(all.take(i as int));
            r.push(text::to_vec(part));
            assert(text::views(r@) == before.push(part@));
            assert(front + kept.push(part@) == (front + kept).push(part@));
        }
    }
    assert(all.take(all.len() as int) == all);
    r
}

/// The path that components make.
pub open spec fn path_of(cs: Seq<Seq<char>>) -> Seq<char>
    decreases cs.len(),
{
    if cs.len() == 0 {
        Seq::empty()
    } else {
        joined(path_of(cs.drop_last()), cs.last())
    }
}

/// The path that some of the components make.
pub fn path_from(cs: &Vec<Vec<char>>, from: usize, to: usize) -> (r: String)
    requires
        from <= to <= cs@.len(),
    ensures
        r@ == path_of(text::views(cs@).subrange(from as int, to as int)),
{
    let ghost all = text::views(cs@).subrange(from as int, to as int);
    let mut r = String::new();
    let mut i: usize = from;
    assert(all.take(0).len() == 0);
    while i < to
        invariant
            from <= i <= to <= cs@.len(),
            all == text::views(cs@).subrange(from as int, to as int),
            r@ == path_of(all.take(i - from)),
        decreases to - i,
    {
        assert(all.take(i + 1 - from).drop_last() == all.take(i - from));
        assert(all.take(i + 1 - from).last() == cs@[i as int]@);
        r = join(&r, &text::string_of(&cs[i]));
        i += 1;
    }
    assert(all.take(to - from) == all);
    r
}

/// The directory that a path stands in; the root stands in none.
pub open spec fn parent(path: Seq<char>) -> Option<Seq<char>> {
    let cs = components(path);
    if cs.len() == 0 || cs == seq![seq!['/']] {
        None
    } else {
        Some(path_of(cs.drop_last()))
    }
}

/// The directory that a path stands in.
pub fn parent_of(path: &str) -> (r: Option<String>)
    ensures
        text::opt_view(r) == parent(path@),
{
    let cs = components_of(path);
    let ghost all = text::views(cs@);
    if cs.len() == 0 {
        return None;
    }
    let root = cs.len() == 1 && cs[0].len() == 1 && cs[0][0] == '/';
    assert(root == (all == seq![seq!['/']])) by {
        if root {
            assert(cs@[0]@ =~= seq!['/']);
            assert(all =~= seq![seq!['/']]);
        } else if all == seq![seq!['/']] {
            assert(all[0] == cs@[0]@);
        }
    }
    if root {
        return None;
    }
    assert(all.subrange(0, all.len() - 1) == all.drop_last());
    Some(path_from(&cs, 0, cs.len() - 1))
}

} // verus!
