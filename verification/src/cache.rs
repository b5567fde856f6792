//! The cache of OCR results: which file a result belongs in, and what the
//! file holds. Reading and writing files is the caller's work.
//!
//! The key of a result is a hash over the cache's schema, the version, the
//! engine, the engine's settings and the image. The settings come as a salt
//! that holds everything which changes what the engine returns.

use sha2::Digest;
use vstd::prelude::*;

use crate::bytes;
use crate::canonical;
use crate::json;
use crate::json::{Json, JsonView};
use crate::paths;
use crate::text;

verus! {

broadcast use vstd::string::group_string_axioms;

/// A cached result. The text may be empty: that there is none is a result.
#[derive(Debug, PartialEq, Eq)]
pub struct CachedOcr {
    pub text: String,
    /// The layout-preserving rendering, from an engine that gave one.
    pub grid: Option<String>,
    /// The engine that produced the text.
    pub engine: String,
    /// Seconds since the start of 1970 when the result was stored.
    pub created: u64,
}

/// The contents of a [`CachedOcr`].
pub struct Cached {
    pub text: Seq<char>,
    pub grid: Option<Seq<char>>,
    pub engine: Seq<char>,
    pub created: u64,
}

impl View for CachedOcr {
    type V = Cached;

    open spec fn view(&self) -> Cached {
        Cached {
            text: self.text@,
            grid: text::opt_view(self.grid),
            engine: self.engine@,
            created: self.created,
        }
    }
}

/// A cache in a directory, or one that is switched off and holds nothing.
#[derive(Debug)]
pub struct OcrCache {
    pub dir: Option<String>,
}

/// What SHA-256 makes of some bytes.
pub uninterp spec fn sha256(data: Seq<u8>) -> Seq<u8>;

/// `sha2::Sha256::digest` hashes bytes into 32 bytes.
#[verifier::external_body]
fn sha256_of(data: &[u8]) -> (r: Vec<u8>)
    ensures
        r@ == sha256(data@),
        r@.len() == 32,
{
    sha2::Sha256::digest(data).to_vec()
}

/// A digit of a hexadecimal number, in lower case.
pub open spec fn hex_digit(n: int) -> char {
    if n < 10 {
        (48 + n) as char
    } else {
        (87 + n) as char
    }
}

/// Bytes in hexadecimal digits, two each.
pub open spec fn hex(bytes: Seq<u8>) -> Seq<char> {
    Seq::new(
        2 * bytes.len(),
        |i: int|
            hex_digit(
                if i % 2 == 0 {
                    bytes[i / 2] as int / 16
                } else {
                    bytes[i / 2] as int % 16
                },
            ),
    )
}

/// What the key of a result is a hash of. A zero byte ends each field but the
/// last.
pub open spec fn key_input(engine: Seq<char>, salt: Seq<char>, image: Seq<u8>) -> Seq<u8> {
    vstd::utf8::encode_utf8("docmill-ocr-2"@).push(0) + vstd::utf8::encode_utf8("1.4.2"@).push(0)
        + vstd::utf8::encode_utf8(engine).push(0) + vstd::utf8::encode_utf8(salt).push(0) + image
}

/// The key of the result that an engine with some settings has for an image.
pub open spec fn key_of(engine: Seq<char>, salt: Seq<char>, image: Seq<u8>) -> Seq<char> {
    hex(sha256(key_input(engine, salt, image)))
}

/// A result as JSON.
pub open spec fn entry_json(e: Cached) -> JsonView {
    let m = seq![
        ("text"@, JsonView::Text(e.text)),
        ("engine"@, JsonView::Text(e.engine)),
        ("created"@, json::number(e.created)),
    ];
    JsonView::Object(
        match e.grid {
            Some(g) => m.push(("grid"@, JsonView::Text(g))),
            None => m,
        },
    )
}

/// The string that a member of a value is.
pub open spec fn string_member(v: JsonView, name: Seq<char>) -> Option<Seq<char>> {
    match json::member(v, name) {
        Some(m) => json::string(m),
        None => None,
    }
}

/// The result that a value stands for: there must be a text and an engine; a
/// rendering and a time are optional.
pub open spec fn entry_of(v: JsonView) -> Option<Cached> {
    match (string_member(v, "text"@), string_member(v, "engine"@)) {
        (Some(text), Some(engine)) => Some(
            Cached {
                text,
                engine,
                grid: string_member(v, "grid"@),
                created: match json::member(v, "created"@) {
                    Some(c) => match json::unsigned(c) {
                        Some(n) => n,
                        None => 0,
                    },
                    None => 0,
                },
            },
        ),
        _ => None,
    }
}

/// The result that a stored text stands for; a torn or corrupt text stands
/// for none.
pub open spec fn entry_read(text: Seq<char>) -> Option<Cached> {
    match json::json_parse(text) {
        Ok(v) => entry_of(v),
        Err(_) => None,
    }
}

/// Where a cache keeps the result for a key.
pub open spec fn entry_file(dir: Seq<char>, key: Seq<char>) -> Seq<char> {
    paths::joined(paths::joined(dir, key.take(2)), key + ".json"@)
}

/// A base directory for caches: a non-empty `XDG_CACHE_HOME`, else `.cache`
/// in `HOME`, else `LOCALAPPDATA`, else `.cache` in `USERPROFILE`.
pub open spec fn cache_base(
    xdg: Option<Seq<char>>,
    home: Option<Seq<char>>,
    local: Option<Seq<char>>,
    profile: Option<Seq<char>>,
) -> Option<Seq<char>> {
    if xdg is Some && xdg->0.len() > 0 {
        xdg
    } else if home is Some {
        Some(paths::joined(home->0, ".cache"@))
    } else if local is Some {
        local
    } else if profile is Some {
        Some(paths::joined(profile->0, ".cache"@))
    } else {
        None
    }
}

fn hex_char(n: u8) -> (r: char)
    requires
        n < 16,
    ensures
        r == hex_digit(n as int),
{
    if n < 10 {
        (48u8 + n) as char
    } else {
        (87u8 + n) as char
    }
}

fn hex_of(bytes: &Vec<u8>) -> (r: String)
    ensures
        r@ == hex(bytes@),
{
    let mut out: Vec<char> = Vec::new();
    let mut i: usize = 0;
    while i < bytes.len()
        invariant
            i <= bytes@.len(),
            out@.len() == 2 * i,
            forall|k: int| 0 <= k < out@.len() ==> #[trigger] out@[k] == hex(bytes@)[k],
        decreases bytes@.len() - i,
    {
        let b: u8 = bytes[i];
        out.push(hex_char(b / 16));
        out.push(hex_char(b % 16));
        i += 1;
    }
    assert(out@ =~= hex(bytes@));
    text::string_of(&out)
}

/// The SHA-256 hash of bytes in hexadecimal digits.
pub fn digest_hex(data: &[u8]) -> (r: String)
    ensures
        r@ == hex(sha256(data@)),
{
    let digest = sha256_of(data);
    hex_of(&digest)
}

fn append_bytes(out: &mut Vec<u8>, v: &[u8])
    ensures
        final(out)@ == old(out)@ + v@,
{
    let mut i: usize = 0;
    while i < v.len()
        invariant
            i <= v@.len(),
            out@ == old(out)@ + v@.take(i as int),
        decreases v@.len() - i,
    {
        out.push(v[i]);
        i += 1;
        assert(v@.take(i as int) =~= v@.take(i - 1).push(v@[i - 1]));
    }
    assert(v@.take(i as int) =~= v@);
}

fn append_field(out: &mut Vec<u8>, s: &str)
    ensures
        final(out)@ == old(out)@ + vstd::utf8::encode_utf8(s@).push(0),
{
    append_bytes(out, s.as_bytes());
    out.push(0);
    assert(out@ =~= old(out)@ + vstd::utf8::encode_utf8(s@).push(0));
}

impl OcrCache {
    /// A cache in a directory.
    pub fn new(dir: String) -> (r: OcrCache)
        ensures
            r.dir == Some(dir),
    {
        OcrCache { dir: Some(dir) }
    }

    /// A cache that holds nothing and keeps nothing.
    pub fn disabled() -> (r: OcrCache)
        ensures
            r.dir is None,
    {
        OcrCache { dir: None }
    }

    /// The default directory of the cache, from the values of the variables
    /// `XDG_CACHE_HOME`, `HOME`, `LOCALAPPDATA` and `USERPROFILE`.
    pub fn default_dir(
        xdg: Option<String>,
        home: Option<String>,
        local: Option<String>,
        profile: Option<String>,
    ) -> (r: Option<String>)
        ensures
            text::opt_view(r) == match cache_base(
                text::opt_view(xdg),
                text::opt_view(home),
                text::opt_view(local),
                text::opt_view(profile),
            ) {
                Some(base) => Some(paths::joined(base, "docmill"@)),
                None => None,
            },
    {
        let mut base: Option<String> = None;
        if let Some(x) = xdg {
            if text::chars_of(&x).len() > 0 {
                base = Some(x);
            }
        }
        if base.is_none() {
            base = match (home, local, profile) {
                (Some(h), _, _) => Some(paths::join(&h, ".cache")),
                (None, Some(l), _) => Some(l),
                (None, None, Some(p)) => Some(paths::join(&p, ".cache")),
                (None, None, None) => None,
            };
        }
        match base {
            Some(b) => Some(paths::join(&b, "docmill")),
            None => None,
        }
    }

    /// The key of the result that an engine with some settings has for an
    /// image.
    pub fn key(engine_id: &str, salt: &str, image: &[u8]) -> (r: String)
        ensures
            r@ == key_of(engine_id@, salt@, image@),
            r@.len() == 64,
            forall|i: int| 0 <= i < r@.len() ==> (#[trigger] r@[i]) < 128,
    {
        let mut input: Vec<u8> = Vec::new();
        append_field(&mut input, "docmill-ocr-2");
        append_field(&mut input, "1.4.2");
        append_field(&mut input, engine_id);
        append_field(&mut input, salt);
        append_bytes(&mut input, image);
        assert(input@ =~= key_input(engine_id@, salt@, image@));
        let digest = sha256_of(&input);
        hex_of(&digest)
    }

    /// The file that holds the result for a key. A disabled cache has none.
    pub fn entry_path(&self, key: &str) -> (r: Option<String>)
        requires
            key@.len() >= 2,
            key@[0] < 128,
            key@[1] < 128,
        ensures
            text::opt_view(r) == match self.dir {
                Some(d) => Some(entry_file(d@, key@)),
                None => None,
            },
    {
        match &self.dir {
            None => None,
            Some(d) => {
                let k = text::chars_of(key);
                let shard = text::string_of(vstd::slice::slice_subrange(&k, 0, 2));
                assert(shard@ =~= key@.take(2));
                let mut name: Vec<char> = text::to_vec(&k);
                text::append_str(&mut name, ".json");
                let inner = paths::join(d, &shard);
                Some(paths::join(&inner, &text::string_of(&name)))
            },
        }
    }

    /// The result that a stored text stands for. A disabled cache has none.
    pub fn get(&self, stored: &str) -> (r: Option<CachedOcr>)
        ensures
            match r {
                Some(e) => self.dir is Some && entry_read(stored@) == Some(e@),
                None => self.dir is None || entry_read(stored@) is None,
            },
    {
        if self.dir.is_none() {
            return None;
        }
        let v = match json::parse(stored) {
            Ok(v) => v,
            Err(_) => return None,
        };
        let text = match v.get("text") {
            Some(m) => match m.as_str() {
                Some(s) => s.to_owned(),
                None => return None,
            },
            None => return None,
        };
        let engine = match v.get("engine") {
            Some(m) => match m.as_str() {
                Some(s) => s.to_owned(),
                None => return None,
            },
            None => return None,
        };
        let grid = match v.get("grid") {
            Some(m) => match m.as_str() {
                Some(s) => Some(s.to_owned()),
                None => None,
            },
            None => None,
        };
        let created: u64 = match v.get("created") {
            Some(m) => match m.as_u64() {
                Some(n) => n,
                None => 0,
            },
            None => 0,
        };
        Some(CachedOcr { text, grid, engine, created })
    }

    /// The file for a result and the text to store there: one that stands for
    /// the result. A disabled cache keeps nothing.
    pub fn put(&self, key: &str, entry: &CachedOcr) -> (r: Option<(String, String)>)
        requires
            key@.len() >= 2,
            key@[0] < 128,
            key@[1] < 128,
        ensures
            match r {
                Some((path, body)) => self.dir is Some && path@ == entry_file(self.dir->0@, key@)
                    && body@ == json::json_text(entry_json(entry@)) && entry_read(body@) == Some(
                    entry@,
                ),
                None => self.dir is None,
            },
    {
        let path = match self.entry_path(key) {
            Some(p) => p,
            None => return None,
        };
        let mut m: Vec<(String, Json)> = Vec::new();
        m.push(("text".to_owned(), json::text_value(&entry.text)));
        m.push(("engine".to_owned(), json::text_value(&entry.engine)));
        m.push(("created".to_owned(), json::unsigned_number(entry.created)));
        if let Some(g) = &entry.grid {
            m.push(("grid".to_owned(), json::text_value(g)));
        }
        let j = Json::Object(m);
        proof {
            lemma_entry(entry@);
            assert(j@ == entry_json(entry@)) by {
                assert(json::members_view(m@) =~= entry_json(entry@)->Object_0);
            }
            assert(json::members_well_formed(m@));
        }
        let body = json::print(j);
        Some((path, body))
    }
}

/// What is stored for a result stands for it.
pub proof fn lemma_entry(e: Cached)
    ensures
        entry_of(entry_json(e)) == Some(e),
        json::flat(entry_json(e)),
        json::distinct(entry_json(e)->Object_0),
{
    reveal_strlit("text");
    reveal_strlit("engine");
    reveal_strlit("created");
    reveal_strlit("grid");
    let m = entry_json(e)->Object_0;
    assert("text"@.len() == 4 && "engine"@.len() == 6 && "created"@.len() == 7 && "grid"@.len()
        == 4);
    assert("text"@[0] != "grid"@[0]);
    assert(json::distinct(m)) by {
        assert forall|i: int, j: int| 0 <= i < m.len() && 0 <= j < m.len() && i != j implies (
        #[trigger] m[i]).0 != (#[trigger] m[j]).0 by {
            assert(m[0].0 == "text"@ && m[1].0 == "engine"@ && m[2].0 == "created"@);
        }
    }
    assert(m[0] == ("text"@, JsonView::Text(e.text)));
    assert(m.skip(1)[0] == m[1]);
    assert(m.skip(1).skip(1)[0] == m[2]);
    reveal_with_fuel(json::member_of, 6);
    assert(json::member_of(m, "text"@) == Some(JsonView::Text(e.text)));
    assert(json::member_of(m, "engine"@) == Some(JsonView::Text(e.engine)));
    assert(json::member_of(m, "created"@) == Some(json::number(e.created)));
    if e.grid is Some {
        assert(m.skip(1).skip(1).skip(1)[0] == m[3]);
        assert(json::member_of(m, "grid"@) == Some(JsonView::Text(e.grid->0)));
    } else {
        assert(m.skip(1).skip(1).skip(1).len() == 0);
        assert(json::member_of(m, "grid"@) is None);
    }
}

/// What a runner hashes into the key besides the engine's own settings: these
/// and the image's type, as canonical JSON.
pub open spec fn salt_json(engine_salt: Seq<char>, mimetype: Seq<char>) -> JsonView {
    JsonView::Object(
        seq![
            ("engine"@, JsonView::Text(engine_salt)),
            ("mimetype"@, JsonView::Text(mimetype)),
        ],
    )
}

/// The engine's settings and the image's type in one text.
pub open spec fn runner_salt(engine_salt: Seq<char>, mimetype: Seq<char>) -> Seq<char> {
    json::json_text(canonical::canonical(salt_json(engine_salt, mimetype)))
}

/// The key under which the runner keeps an engine's result for an image of
/// some type.
pub open spec fn runner_key(
    engine: Seq<char>,
    engine_salt: Seq<char>,
    mimetype: Seq<char>,
    image: Seq<u8>,
) -> Seq<char> {
    key_of(engine, runner_salt(engine_salt, mimetype), image)
}

/// A text stands for an engine's settings and an image's type: they can be
/// read in it.
pub open spec fn stands_for(salt: Seq<char>, engine_salt: Seq<char>, mimetype: Seq<char>) -> bool {
    json::json_parse(salt) matches Ok(v) && v == salt_json(engine_salt, mimetype)
}

/// A text stands for one engine's settings and one type alone, so that others
/// are hashed as another text.
pub proof fn law_settings_and_types_stay_apart(
    salt: Seq<char>,
    engine_salt: Seq<char>,
    mimetype: Seq<char>,
    engine_salt2: Seq<char>,
    mimetype2: Seq<char>,
)
    requires
        stands_for(salt, engine_salt, mimetype),
        stands_for(salt, engine_salt2, mimetype2),
    ensures
        engine_salt == engine_salt2,
        mimetype == mimetype2,
{
    let a = salt_json(engine_salt, mimetype)->Object_0;
    let b = salt_json(engine_salt2, mimetype2)->Object_0;
    assert(a[0].1 == b[0].1 && a[1].1 == b[1].1);
}

proof fn lemma_salt_is_canonical(engine_salt: Seq<char>, mimetype: Seq<char>)
    ensures
        canonical::canonical(salt_json(engine_salt, mimetype)) == salt_json(engine_salt, mimetype),
        json::flat(salt_json(engine_salt, mimetype)),
{
    reveal_strlit("engine");
    reveal_strlit("mimetype");
    let m = salt_json(engine_salt, mimetype)->Object_0;
    let c = canonical::canonical_members(m);
    assert(c =~= m);
    reveal_with_fuel(canonical::sorted, 3);
    reveal_with_fuel(canonical::inserted, 2);
    assert(canonical::before("engine"@, "mimetype"@));
    assert(!canonical::before("mimetype"@, "engine"@));
    assert(m.drop_last() =~= seq![m[0]]);
    assert(m.drop_last().drop_last() =~= Seq::empty());
    assert(canonical::sorted(m.drop_last()) =~= seq![m[0]]);
    assert(canonical::sorted(m) =~= m);
}

/// The engine's settings and the image's type in one text.
pub fn result_salt(engine_salt: &str, mimetype: &str) -> (r: String)
    ensures
        r@ == runner_salt(engine_salt@, mimetype@),
        stands_for(r@, engine_salt@, mimetype@),
{
    let mut m: Vec<(String, Json)> = Vec::new();
    m.push(("engine".to_owned(), json::text_value(engine_salt)));
    m.push(("mimetype".to_owned(), json::text_value(mimetype)));
    let j = Json::Object(m);
    proof {
        reveal_strlit("engine");
        reveal_strlit("mimetype");
        assert("engine"@.len() != "mimetype"@.len());
        assert(json::members_view(m@) =~= salt_json(engine_salt@, mimetype@)->Object_0);
        assert(json::members_well_formed(m@));
        lemma_salt_is_canonical(engine_salt@, mimetype@);
    }
    canonical::canonical_json(j)
}

/// The key under which the runner keeps an engine's result for an image of
/// some type.
pub fn result_key(engine_id: &str, engine_salt: &str, mimetype: &str, image: &[u8]) -> (r: String)
    ensures
        r@ == runner_key(engine_id@, engine_salt@, mimetype@, image@),
        stands_for(runner_salt(engine_salt@, mimetype@), engine_salt@, mimetype@),
        r@.len() == 64,
        forall|i: int| 0 <= i < r@.len() ==> (#[trigger] r@[i]) < 128,
{
    let salt = result_salt(engine_salt, mimetype);
    OcrCache::key(engine_id, &salt, image)
}

/// `SystemTime::elapsed` of the start of 1970, in whole seconds. The clock
/// decides what it gives; there is nothing when it stands before that time.
#[verifier::external_body]
fn since_epoch() -> (r: Option<u64>) {
    std::time::UNIX_EPOCH.elapsed().ok().map(|d| d.as_secs())
}

/// The seconds since the start of 1970 by the machine's clock, or 0 when it
/// stands before that time.
pub fn now_unix() -> (r: u64) {
    stamp(since_epoch())
}

/// The time that a result is stored with, from the whole seconds since the
/// start of 1970: 0 when the clock stands before that time.
pub fn stamp(seconds: Option<u64>) -> (r: u64)
    ensures
        r == match seconds {
            Some(s) => s,
            None => 0,
        },
{
    match seconds {
        Some(s) => s,
        None => 0,
    }
}

/// A text without the character that ends a field of a key.
pub open spec fn no_nul(s: Seq<char>) -> bool {
    forall|i: int| 0 <= i < s.len() ==> s[i] != '\0'
}

proof fn lemma_no_zero_byte(s: Seq<char>)
    requires
        no_nul(s),
    ensures
        forall|i: int|
            0 <= i < vstd::utf8::encode_utf8(s).len() ==> #[trigger] vstd::utf8::encode_utf8(s)[i]
                != 0,
{
    bytes::lemma_ascii_byte(s, 0);
}

/// Fields that end with a zero byte do not run into what follows.
proof fn lemma_fields(a: Seq<u8>, x: Seq<u8>, b: Seq<u8>, y: Seq<u8>)
    requires
        forall|i: int| 0 <= i < a.len() ==> a[i] != 0,
        forall|i: int| 0 <= i < b.len() ==> b[i] != 0,
        a.push(0) + x == b.push(0) + y,
    ensures
        a == b,
        x == y,
{
    let p = a.push(0) + x;
    let q = b.push(0) + y;
    if a.len() < b.len() {
        assert(p[a.len() as int] == 0);
        assert(q[a.len() as int] == b[a.len() as int]);
    } else if b.len() < a.len() {
        assert(q[b.len() as int] == 0);
        assert(p[b.len() as int] == a[b.len() as int]);
    }
    assert forall|i: int| 0 <= i < a.len() implies a[i] == b[i] by {
        assert(p[i] == a[i] && q[i] == b[i]);
    }
    assert(a =~= b);
    assert(x.len() == p.len() - a.len() - 1);
    assert(y.len() == q.len() - b.len() - 1);
    assert forall|i: int| 0 <= i < x.len() implies x[i] == y[i] by {
        assert(p[a.len() + 1 + i] == x[i]);
        assert(q[b.len() + 1 + i] == y[i]);
    }
    assert(x =~= y);
}

/// Every field of a key takes part and none runs into the next: two engines,
/// settings and images that differ are hashed as different bytes. Engine
/// names and settings hold no NUL character.
pub proof fn law_key_fields_stay_apart(
    engine: Seq<char>,
    salt: Seq<char>,
    image: Seq<u8>,
    engine2: Seq<char>,
    salt2: Seq<char>,
    image2: Seq<u8>,
)
    requires
        no_nul(engine),
        no_nul(salt),
        no_nul(engine2),
        no_nul(salt2),
        key_input(engine, salt, image) == key_input(engine2, salt2, image2),
    ensures
        engine == engine2,
        salt == salt2,
        image == image2,
{
    broadcast use vstd::utf8::encode_utf8_decode_utf8;

    lemma_no_zero_byte(engine);
    lemma_no_zero_byte(salt);
    lemma_no_zero_byte(engine2);
    lemma_no_zero_byte(salt2);
    let front = vstd::utf8::encode_utf8("docmill-ocr-2"@).push(0) + vstd::utf8::encode_utf8(
        "1.4.2"@,
    ).push(0);
    let e = vstd::utf8::encode_utf8(engine);
    let s = vstd::utf8::encode_utf8(salt);
    let e2 = vstd::utf8::encode_utf8(engine2);
    let s2 = vstd::utf8::encode_utf8(salt2);
    let rest = e.push(0) + (s.push(0) + image);
    let rest2 = e2.push(0) + (s2.push(0) + image2);
    assert(key_input(engine, salt, image) =~= front + rest);
    assert(key_input(engine2, salt2, image2) =~= front + rest2);
    assert(rest =~= (front + rest).skip(front.len() as int));
    assert(rest2 =~= (front + rest2).skip(front.len() as int));
    lemma_fields(e, s.push(0) + image, e2, s2.push(0) + image2);
    lemma_fields(s, image, s2, image2);
    assert(vstd::utf8::decode_utf8(e) == engine);
    assert(vstd::utf8::decode_utf8(e2) == engine2);
    assert(vstd::utf8::decode_utf8(s) == salt);
    assert(vstd::utf8::decode_utf8(s2) == salt2);
}

} // verus!
