//! What is kept of a result, where it is kept, and how paths are taken apart.

use vstd::prelude::*;

use crate::cache;
use crate::cache::Cached;
use crate::json;
use crate::json::JsonView;
use crate::paths;

verus! {

broadcast use vstd::string::group_string_axioms;

/// The value of a hexadecimal digit in lower case.
pub open spec fn digit_value(c: char) -> int {
    if '0' <= c && c <= '9' {
        c as int - '0' as int
    } else if 'a' <= c && c <= 'f' {
        c as int - 'a' as int + 10
    } else {
        -1
    }
}

/// Two hexadecimal digits stand for each byte, so that the bytes can be read
/// from them.
pub proof fn law_hexadecimal_digits(bytes: Seq<u8>, i: int)
    requires
        0 <= i < bytes.len(),
    ensures
        cache::hex(bytes).len() == 2 * bytes.len(),
        0 <= digit_value(cache::hex(bytes)[2 * i]) < 16,
        0 <= digit_value(cache::hex(bytes)[2 * i + 1]) < 16,
        16 * digit_value(cache::hex(bytes)[2 * i]) + digit_value(cache::hex(bytes)[2 * i + 1])
            == bytes[i],
{
    let h = cache::hex(bytes);
    let b = bytes[i] as int;
    assert((2 * i) % 2 == 0 && (2 * i) / 2 == i);
    assert((2 * i + 1) % 2 == 1 && (2 * i + 1) / 2 == i);
    assert(h[2 * i] == cache::hex_digit(b / 16));
    assert(h[2 * i + 1] == cache::hex_digit(b % 16));
    lemma_digit(b / 16);
    lemma_digit(b % 16);
}

proof fn lemma_digit(n: int)
    requires
        0 <= n < 16,
    ensures
        digit_value(cache::hex_digit(n)) == n,
{
    if n < 10 {
        assert((48 + n) as char as int == 48 + n);
    } else {
        assert((87 + n) as char as int == 87 + n);
    }
}

/// Different hashes have different keys.
pub proof fn law_keys_tell_hashes_apart(a: Seq<u8>, b: Seq<u8>)
    requires
        cache::hex(a) == cache::hex(b),
    ensures
        a == b,
{
    assert(cache::hex(a).len() == 2 * a.len());
    assert(cache::hex(b).len() == 2 * b.len());
    assert forall|i: int| 0 <= i < a.len() implies a[i] == b[i] by {
        law_hexadecimal_digits(a, i);
        law_hexadecimal_digits(b, i);
    }
    assert(a =~= b);
}

/// What is stored for a result is read as that result, with all its parts.
pub proof fn law_stored_results_come_back(e: Cached)
    ensures
        cache::entry_of(cache::entry_json(e)) matches Some(back) && back.text == e.text
            && back.grid == e.grid && back.engine == e.engine && back.created == e.created,
        json::member(cache::entry_json(e), "text"@) == Some(JsonView::Text(e.text)),
        json::member(cache::entry_json(e), "engine"@) == Some(JsonView::Text(e.engine)),
{
    cache::lemma_entry(e);
    reveal_strlit("text");
    reveal_strlit("engine");
    let m = cache::entry_json(e)->Object_0;
    reveal_with_fuel(json::member_of, 3);
    assert(m[0] == ("text"@, JsonView::Text(e.text)));
    assert(m.skip(1)[0] == ("engine"@, JsonView::Text(e.engine)));
    assert("text"@.len() != "engine"@.len());
}

/// A result without a text or without an engine is none; without a rendering
/// or a time it is one.
pub proof fn law_what_a_stored_result_needs(v: JsonView)
    ensures
        cache::entry_of(v) is Some <==> (json::member(v, "text"@) matches Some(JsonView::Text(t)))
            && (json::member(v, "engine"@) matches Some(JsonView::Text(e))),
        cache::entry_of(v) matches Some(r) ==> {
            &&& json::member(v, "text"@) == Some(JsonView::Text(r.text))
            &&& json::member(v, "engine"@) == Some(JsonView::Text(r.engine))
            &&& r.grid matches Some(g) ==> json::member(v, "grid"@) == Some(JsonView::Text(g))
            &&& json::member(v, "grid"@) is None ==> r.grid is None
            &&& json::member(v, "created"@) is None ==> r.created == 0
        },
{
}

/// A key without a slash has a file of its own, named like the key, in a
/// directory named like the first two characters of the key.
pub proof fn law_each_key_has_its_file(dir: Seq<char>, key: Seq<char>)
    requires
        key.len() >= 2,
        dir.len() > 0,
        dir.last() != '/',
        forall|i: int| 0 <= i < key.len() ==> key[i] != '/',
    ensures
        cache::entry_file(dir, key) == dir + seq!['/', key[0], key[1], '/'] + key + seq![
            '.',
            'j',
            's',
            'o',
            'n',
        ],
        paths::file_name(cache::entry_file(dir, key)) == Some(key + ".json"@),
{
    reveal_strlit(".json");
    let shard = key.take(2);
    assert(shard[0] == key[0] && shard[1] == key[1]);
    let inner = paths::joined(dir, shard);
    assert(inner == dir.push('/') + shard);
    assert(inner.last() == key[1]);
    let name = key + ".json"@;
    assert(name[0] == key[0]);
    let file = cache::entry_file(dir, key);
    assert(file == inner.push('/') + name);
    assert(file =~= dir + seq!['/', key[0], key[1], '/'] + key + seq!['.', 'j', 's', 'o', 'n']);
    assert forall|i: int| 0 <= i < name.len() implies name[i] != '/' by {
        if i < key.len() {
            assert(name[i] == key[i]);
        }
    }
    law_names_below_a_directory(inner, name);
}

/// The first place that the environment names is the one: a non-empty
/// directory for caches, then the home directory, then those of Windows.
pub proof fn law_where_caches_are(
    xdg: Option<Seq<char>>,
    home: Option<Seq<char>>,
    local: Option<Seq<char>>,
    profile: Option<Seq<char>>,
    dir: Seq<char>,
)
    requires
        dir.len() > 0,
    ensures
        cache::cache_base(Some(dir), home, local, profile) == Some(dir),
        cache::cache_base(Some(seq![]), home, local, profile) == cache::cache_base(
            None,
            home,
            local,
            profile,
        ),
        cache::cache_base(None, Some(dir), local, profile) == Some(paths::joined(dir, ".cache"@)),
        cache::cache_base(None, None, Some(dir), profile) == Some(dir),
        cache::cache_base(None, None, None, Some(dir)) == Some(paths::joined(dir, ".cache"@)),
        cache::cache_base(None, None, None, None) is None,
{
}

proof fn lemma_last_of(s: Seq<char>, c: char)
    ensures
        -1 <= paths::last_of(s, c) < s.len(),
        paths::last_of(s, c) >= 0 ==> s[paths::last_of(s, c)] == c,
        forall|k: int| paths::last_of(s, c) < k < s.len() ==> s[k] != c,
    decreases s.len(),
{
    if s.len() > 0 && s.last() != c {
        lemma_last_of(s.drop_last(), c);
        assert forall|k: int| paths::last_of(s, c) < k < s.len() implies s[k] != c by {
            if k < s.len() - 1 {
                assert(s.drop_last()[k] == s[k]);
            }
        }
    }
}

proof fn lemma_last_of_is(s: Seq<char>, c: char, i: int)
    requires
        -1 <= i < s.len(),
        i >= 0 ==> s[i] == c,
        forall|k: int| i < k < s.len() ==> s[k] != c,
    ensures
        paths::last_of(s, c) == i,
{
    lemma_last_of(s, c);
    let l = paths::last_of(s, c);
    if l < i {
        assert(s[i] != c);
    } else if l > i {
        assert(s[l] == c);
    }
}

/// A name below a directory: the path leads through the directory, and its
/// last name is the name. Slashes at the end of the directory count once.
pub proof fn law_names_below_a_directory(dir: Seq<char>, name: Seq<char>)
    requires
        name.len() > 0,
        forall|i: int| 0 <= i < name.len() ==> name[i] != '/',
        name != seq!['.'],
        name != seq!['.', '.'],
    ensures
        paths::file_name(paths::joined(dir, name)) == Some(name),
        paths::joined(dir, name).len() >= dir.len(),
        paths::joined(dir, name).take(dir.len() as int) == dir,
        dir.len() > 0 && dir.last() == '/' ==> paths::joined(dir, name) == dir + name,
        dir.len() > 0 && dir.last() != '/' ==> paths::joined(dir, name) == dir + seq!['/'] + name,
        paths::joined(seq![], name) == name,
{
    let path = paths::joined(dir, name);
    assert(name[0] != '/');
    assert(path.take(dir.len() as int) =~= dir);
    assert(dir.push('/') =~= dir + seq!['/']);
    assert(Seq::<char>::empty() + name =~= name);
    let at = path.len() - name.len();
    assert(path.skip(at) =~= name);
    assert(path.last() == name.last());
    assert(paths::bare(path) == path) by {
        if path.last() == '.' && path.len() > 1 && path[path.len() - 2] == '/' {
            if name.len() > 1 {
                assert(name[name.len() - 2] == path[path.len() - 2]);
            } else {
                assert(name =~= seq!['.']);
            }
        }
    }
    assert forall|k: int| at - 1 < k < path.len() implies path[k] != '/' by {
        assert(path[k] == name[k - at]);
    }
    if at > 0 {
        assert(path[at - 1] == '/');
    }
    lemma_last_of_is(path, '/', at - 1);
}

/// A path from the root stands for itself below any directory.
pub proof fn law_paths_from_the_root(dir: Seq<char>, path: Seq<char>)
    requires
        path.len() > 0,
        path[0] == '/',
    ensures
        paths::joined(dir, path) == path,
{
}

/// A name is its stem, a dot and its extension; a dot that begins a name ends
/// no stem.
pub proof fn law_stem_and_extension(name: Seq<char>)
    ensures
        match paths::name_extension(name) {
            Some(ext) => name == paths::name_stem(name) + seq!['.'] + ext && paths::name_stem(
                name,
            ).len() > 0 && forall|i: int| 0 <= i < ext.len() ==> ext[i] != '.',
            None => paths::name_stem(name) == name && forall|i: int|
                0 < i < name.len() ==> name[i] != '.',
        },
{
    lemma_last_of(name, '.');
    let l = paths::last_of(name, '.');
    if l > 0 {
        let ext = name.skip(l + 1);
        assert(name =~= name.take(l) + seq!['.'] + ext);
    }
}

/// The extension of a stem with an extension is that extension, in any
/// directory.
pub proof fn law_extensions_are_found(dir: Seq<char>, stem: Seq<char>, ext: Seq<char>)
    requires
        stem.len() > 0,
        forall|i: int| 0 <= i < stem.len() ==> stem[i] != '/',
        forall|i: int| 0 <= i < ext.len() ==> ext[i] != '/' && ext[i] != '.',
        stem != seq!['.'] || ext.len() > 0,
    ensures
        paths::extension(paths::joined(dir, stem + seq!['.'] + ext)) == Some(ext),
        paths::stem(paths::joined(dir, stem + seq!['.'] + ext)) == Some(stem),
{
    let name = stem + seq!['.'] + ext;
    assert forall|i: int| 0 <= i < name.len() implies name[i] != '/' by {
        if i < stem.len() {
            assert(name[i] == stem[i]);
        } else if i > stem.len() {
            assert(name[i] == ext[i - stem.len() - 1]);
        }
    }
    if name == seq!['.', '.'] {
        assert(stem.len() == 1 && ext.len() == 0);
        assert(stem[0] == name[0]);
        assert(stem =~= seq!['.']);
    }
    assert(name != seq!['.']) by {
        assert(name.len() >= 2);
    }
    law_names_below_a_directory(dir, name);
    let l = stem.len() as int;
    assert(name[l] == '.');
    assert forall|k: int| l < k < name.len() implies name[k] != '.' by {
        assert(name[k] == ext[k - l - 1]);
    }
    lemma_last_of_is(name, '.', l);
    assert(name.skip(l + 1) =~= ext);
    assert(name.take(l) =~= stem);
}

/// Another extension takes the place of the one that a file has; the directory
/// and the stem stay.
pub proof fn law_extensions_are_replaced(
    dir: Seq<char>,
    stem: Seq<char>,
    ext: Seq<char>,
    other: Seq<char>,
)
    requires
        stem.len() > 0,
        forall|i: int| 0 <= i < stem.len() ==> stem[i] != '/',
        forall|i: int| 0 <= i < ext.len() ==> ext[i] != '/' && ext[i] != '.',
        stem != seq!['.'] || ext.len() > 0,
    ensures
        paths::with_extension(paths::joined(dir, stem + seq!['.'] + ext), other) == paths::joined(
            dir,
            stem + seq!['.'] + other,
        ),
{
    law_extensions_are_found(dir, stem, ext);
    let name = stem + seq!['.'] + ext;
    let path = paths::joined(dir, name);
    assert(name[0] == stem[0]);
    assert(paths::file_name(path) == Some(name) && paths::bare(path) == path) by {
        assert forall|i: int| 0 <= i < name.len() implies name[i] != '/' by {
            if i < stem.len() {
                assert(name[i] == stem[i]);
            } else if i > stem.len() {
                assert(name[i] == ext[i - stem.len() - 1]);
            }
        }
        if name == seq!['.', '.'] {
            assert(stem[0] == name[0]);
            assert(stem =~= seq!['.']);
        }
        law_names_below_a_directory(dir, name);
        assert(path.last() == name.last());
        assert(path[path.len() - 2] == name[name.len() - 2]);
    }
    let at = path.len() - name.len();
    assert(paths::name_stem(name) == stem) by {
        assert(paths::stem(path) == Some(paths::name_stem(name)));
    }
    let want = paths::joined(dir, stem + seq!['.'] + other);
    assert((stem + seq!['.'] + other)[0] == stem[0]);
    assert(path.take(at + stem.len()).push('.') + other =~= want);
}

} // verus!
