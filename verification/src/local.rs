//! The local engine's decisions: which model files it uses, what identifies
//! them, which crops are worth reading and what is made of the texts. Running
//! the models is the caller's.

use vstd::prelude::*;

use crate::cache;
use crate::engine::OcrFailure;
use crate::paths;
use crate::text;

verus! {

broadcast use vstd::string::group_string_axioms;

/// The model files of one generation.
pub enum Models {
    /// A detector, a recogniser and its dictionary.
    V5 { det: String, rec: String, dict: String },
    /// A recogniser and its dictionary.
    V3 { rec: String, dict: String },
}

/// The contents of a [`Models`].
pub enum ModelFiles {
    V5 { det: Seq<char>, rec: Seq<char>, dict: Seq<char> },
    V3 { rec: Seq<char>, dict: Seq<char> },
}

impl View for Models {
    type V = ModelFiles;

    open spec fn view(&self) -> ModelFiles {
        match self {
            Models::V5 { det, rec, dict } => ModelFiles::V5 {
                det: det@,
                rec: rec@,
                dict: dict@,
            },
            Models::V3 { rec, dict } => ModelFiles::V3 { rec: rec@, dict: dict@ },
        }
    }
}

/// Which of the model files in the models directory exist.
#[derive(Debug, Clone, Copy)]
pub struct Present {
    pub v5: bool,
    /// The English pair of the older generation.
    pub english: bool,
    /// The multilingual pair of the older generation.
    pub multilingual: bool,
}

/// Paths that the environment gives: `DOCMILL_DET_ONNX`, `DOCMILL_REC_ONNX`
/// and `DOCMILL_DICT`, then `DOCLING_OCR_REC_ONNX` and `DOCLING_OCR_DICT`.
pub struct ModelEnv {
    pub det: Option<String>,
    pub rec: Option<String>,
    pub dict: Option<String>,
    pub old_rec: Option<String>,
    pub old_dict: Option<String>,
}

/// A value of the environment, if it is not blank.
pub open spec fn given(v: Option<Seq<char>>) -> Option<Seq<char>> {
    match v {
        Some(s) => if text::blank(s) {
            None
        } else {
            Some(s)
        },
        None => None,
    }
}

/// Chinese is asked for.
pub open spec fn wants_chinese(lang: Seq<char>) -> bool {
    text::lowercase(lang) == "ch"@
}

/// The English pair is asked for, missing, and replaced by the multilingual
/// one.
pub open spec fn falls_back(lang: Seq<char>, present: Present) -> bool {
    !wants_chinese(lang) && !present.english && present.multilingual
}

/// The value, or another.
pub open spec fn or_else(v: Option<Seq<char>>, other: Seq<char>) -> Seq<char> {
    match v {
        Some(s) => s,
        None => other,
    }
}

/// The model files for a language: those that the environment names, else the
/// newer generation where its files exist, else the older one.
pub open spec fn chosen(
    lang: Seq<char>,
    dir: Seq<char>,
    env: ModelEnv,
    present: Present,
) -> ModelFiles {
    let det = given(text::opt_view(env.det));
    let rec = given(text::opt_view(env.rec));
    let dict = given(text::opt_view(env.dict));
    if det is Some && rec is Some && dict is Some {
        ModelFiles::V5 { det: det->0, rec: rec->0, dict: dict->0 }
    } else if present.v5 {
        ModelFiles::V5 {
            det: paths::joined(dir, "ppocrv5_mobile_det.onnx"@),
            rec: paths::joined(dir, "ppocrv5_mobile_rec.onnx"@),
            dict: paths::joined(dir, "ppocrv5_dict.txt"@),
        }
    } else {
        let many = wants_chinese(lang) || falls_back(lang, present);
        ModelFiles::V3 {
            rec: or_else(
                text::opt_view(env.old_rec),
                paths::joined(
                    dir,
                    if many {
                        "ocr_rec.onnx"@
                    } else {
                        "ocr_rec_en.onnx"@
                    },
                ),
            ),
            dict: or_else(
                text::opt_view(env.old_dict),
                paths::joined(
                    dir,
                    if many {
                        "ppocr_keys_v1.txt"@
                    } else {
                        "en_dict.txt"@
                    },
                ),
            ),
        }
    }
}

fn given_of(v: &Option<String>) -> (r: Option<String>)
    ensures
        text::opt_view(r) == given(text::opt_view(*v)),
{
    match v {
        Some(s) => if text::is_blank_str(s) {
            None
        } else {
            Some(s.clone())
        },
        None => None,
    }
}

fn or_else_of(v: &Option<String>, other: String) -> (r: String)
    ensures
        r@ == or_else(text::opt_view(*v), other@),
{
    match v {
        Some(s) => s.clone(),
        None => other,
    }
}

/// Choose the model files for a language, and say whether the English ones
/// were missing and replaced.
pub fn resolve_models(lang: &str, dir: &str, env: &ModelEnv, present: Present) -> (r: (Models, bool))
    ensures
        r.0@ == chosen(lang@, dir@, *env, present),
        r.1 == (r.0 is V3 && falls_back(lang@, present)),
{
    let det = given_of(&env.det);
    let rec = given_of(&env.rec);
    let dict = given_of(&env.dict);
    if let (Some(det), Some(rec), Some(dict)) = (det, rec, dict) {
        return (Models::V5 { det, rec, dict }, false);
    }
    if present.v5 {
        return (
            Models::V5 {
                det: paths::join(dir, "ppocrv5_mobile_det.onnx"),
                rec: paths::join(dir, "ppocrv5_mobile_rec.onnx"),
                dict: paths::join(dir, "ppocrv5_dict.txt"),
            },
            false,
        );
    }
    let l = text::chars_of(lang);
    let chinese = text::same_chars(&text::lowered(&l), "ch");
    let fallback = !chinese && !present.english && present.multilingual;
    let (rec_name, dict_name) = if chinese || fallback {
        ("ocr_rec.onnx", "ppocr_keys_v1.txt")
    } else {
        ("ocr_rec_en.onnx", "en_dict.txt")
    };
    (
        Models::V3 {
            rec: or_else_of(&env.old_rec, paths::join(dir, rec_name)),
            dict: or_else_of(&env.old_dict, paths::join(dir, dict_name)),
        },
        fallback,
    )
}

/// What identifies a model file: a hash of its bytes and, where it keeps
/// weights in a file beside it, a hash of those.
pub open spec fn file_identity(content: Seq<u8>, weights: Option<Seq<u8>>) -> Seq<char> {
    let own = cache::hex(cache::sha256(content));
    match weights {
        Some(w) => own + "+"@ + cache::hex(cache::sha256(w)),
        None => own,
    }
}

/// Identify a model file by its bytes.
pub fn fingerprint(content: &[u8], weights: Option<&[u8]>) -> (r: String)
    ensures
        r@ == file_identity(
            content@,
            match weights {
                Some(w) => Some(w@),
                None => None,
            },
        ),
{
    let own = cache::digest_hex(content);
    match weights {
        Some(w) => {
            let mut v = text::chars_of(&own);
            text::append_str(&mut v, "+");
            text::append_str(&mut v, &cache::digest_hex(w));
            text::string_of(&v)
        },
        None => own,
    }
}

/// What decides the results of models: for the newer generation the identity
/// of its three files, for the older one the language and that of its two.
/// Results of the newer one carry a layout.
pub open spec fn model_salt(
    lang: Seq<char>,
    det: Option<Seq<char>>,
    rec: Seq<char>,
    dict: Seq<char>,
) -> Seq<char> {
    match det {
        Some(d) => "v5g|"@ + d + "|"@ + rec + "|"@ + dict,
        None => lang + "|"@ + rec + "|"@ + dict,
    }
}

/// What decides the results of models, from the identities of their files.
pub fn cache_salt(lang: &str, det: Option<&str>, rec: &str, dict: &str) -> (r: String)
    ensures
        r@ == model_salt(
            lang@,
            match det {
                Some(d) => Some(d@),
                None => None,
            },
            rec@,
            dict@,
        ),
{
    let mut v = match det {
        Some(d) => {
            let mut v = text::chars_of("v5g|");
            text::append_str(&mut v, d);
            v
        },
        None => text::chars_of(lang),
    };
    text::append_str(&mut v, "|");
    text::append_str(&mut v, rec);
    text::append_str(&mut v, "|");
    text::append_str(&mut v, dict);
    text::string_of(&v)
}

/// What stands before the first of a character, and what behind it, do not run
/// into each other.
proof fn lemma_parted(a: Seq<char>, x: Seq<char>, b: Seq<char>, y: Seq<char>, c: char)
    requires
        text::lacks(a, c),
        text::lacks(b, c),
        a.push(c) + x == b.push(c) + y,
    ensures
        a == b,
        x == y,
{
    let p = a.push(c) + x;
    let q = b.push(c) + y;
    if a.len() < b.len() {
        assert(p[a.len() as int] == c);
        assert(q[a.len() as int] == b[a.len() as int]);
    } else if b.len() < a.len() {
        assert(q[b.len() as int] == c);
        assert(p[b.len() as int] == a[b.len() as int]);
    }
    assert forall|i: int| 0 <= i < a.len() implies a[i] == b[i] by {
        assert(p[i] == a[i] && q[i] == b[i]);
    }
    assert(a =~= b);
    assert(x.len() == p.len() - a.len() - 1);
    assert(y.len() == q.len() - b.len() - 1);
    assert forall|i: int| 0 <= i < x.len() implies x[i] == y[i] by {
        assert(p[a.len() + 1 + i] == x[i]);
        assert(q[b.len() + 1 + i] == y[i]);
    }
    assert(x =~= y);
}

proof fn lemma_hex(a: Seq<u8>, b: Seq<u8>)
    ensures
        text::lacks(cache::hex(a), '|'),
        text::lacks(cache::hex(a), '+'),
        cache::hex(a) == cache::hex(b) ==> a == b,
{
    let (x, y) = (cache::hex(a), cache::hex(b));
    if x == y {
        assert(x.len() == y.len());
        assert forall|i: int| 0 <= i < a.len() implies a[i] == b[i] by {
            assert(x[2 * i] == y[2 * i]);
            assert(x[2 * i + 1] == y[2 * i + 1]);
            assert((2 * i) / 2 == i && (2 * i) % 2 == 0);
            assert((2 * i + 1) / 2 == i && (2 * i + 1) % 2 == 1);
            assert(a[i] as int / 16 == b[i] as int / 16);
            assert(a[i] as int % 16 == b[i] as int % 16);
        }
        assert(a =~= b);
    }
}

/// The hashes of a model file and of its weights.
pub open spec fn hashes(content: Seq<u8>, weights: Option<Seq<u8>>) -> (Seq<u8>, Option<Seq<u8>>) {
    (
        cache::sha256(content),
        match weights {
            Some(w) => Some(cache::sha256(w)),
            None => None,
        },
    )
}

proof fn lemma_identity(c: Seq<u8>, w: Option<Seq<u8>>, c2: Seq<u8>, w2: Option<Seq<u8>>)
    ensures
        text::lacks(file_identity(c, w), '|'),
        file_identity(c, w) == file_identity(c2, w2) ==> hashes(c, w) == hashes(c2, w2),
{
    reveal_strlit("+");
    let (own, own2) = (cache::hex(cache::sha256(c)), cache::hex(cache::sha256(c2)));
    lemma_hex(cache::sha256(c), cache::sha256(c2));
    lemma_hex(cache::sha256(c2), cache::sha256(c));
    let all = file_identity(c, w);
    let all2 = file_identity(c2, w2);
    if let Some(x) = w {
        lemma_hex(cache::sha256(x), cache::sha256(x));
        let rest = cache::hex(cache::sha256(x));
        assert(all =~= own.push('+') + rest);
        assert(all[own.len() as int] == '+');
        if let Some(y) = w2 {
            let rest2 = cache::hex(cache::sha256(y));
            lemma_hex(cache::sha256(x), cache::sha256(y));
            assert(all2 =~= own2.push('+') + rest2);
            if all == all2 {
                lemma_parted(own, rest, own2, rest2, '+');
            }
        }
    } else if let Some(y) = w2 {
        let rest2 = cache::hex(cache::sha256(y));
        assert(all2 =~= own2.push('+') + rest2);
        assert(all2[own2.len() as int] == '+');
    }
}

/// A model file: its bytes, and those of its weights where it keeps them
/// beside it.
pub struct ModelFile {
    pub content: Seq<u8>,
    pub weights: Option<Seq<u8>>,
}

impl ModelFile {
    pub open spec fn identity(self) -> Seq<char> {
        file_identity(self.content, self.weights)
    }

    pub open spec fn hashed(self) -> (Seq<u8>, Option<Seq<u8>>) {
        hashes(self.content, self.weights)
    }
}

/// The contents of every file take part in what decides the results of the
/// newer models: the same salt means the same hash of each file and of each
/// file's weights, so that a file with other bytes, as far as SHA-256 tells
/// them apart, gives another salt.
pub proof fn law_model_contents_take_part(
    lang: Seq<char>,
    det: ModelFile,
    rec: ModelFile,
    dict: ModelFile,
    det2: ModelFile,
    rec2: ModelFile,
    dict2: ModelFile,
)
    requires
        model_salt(lang, Some(det.identity()), rec.identity(), dict.identity()) == model_salt(
            lang,
            Some(det2.identity()),
            rec2.identity(),
            dict2.identity(),
        ),
    ensures
        det.hashed() == det2.hashed(),
        rec.hashed() == rec2.hashed(),
        dict.hashed() == dict2.hashed(),
{
    reveal_strlit("|");
    let (a, a2) = (det.identity(), det2.identity());
    let (b, b2) = (rec.identity(), rec2.identity());
    let (c, c2) = (dict.identity(), dict2.identity());
    lemma_identity(det.content, det.weights, det2.content, det2.weights);
    lemma_identity(det2.content, det2.weights, det.content, det.weights);
    lemma_identity(rec.content, rec.weights, rec2.content, rec2.weights);
    lemma_identity(rec2.content, rec2.weights, rec.content, rec.weights);
    lemma_identity(dict.content, dict.weights, dict2.content, dict2.weights);
    let front = "v5g|"@;
    let rest = a.push('|') + (b.push('|') + c);
    let rest2 = a2.push('|') + (b2.push('|') + c2);
    assert(model_salt(lang, Some(a), b, c) =~= front + rest);
    assert(model_salt(lang, Some(a2), b2, c2) =~= front + rest2);
    assert(rest =~= (front + rest).skip(front.len() as int));
    assert(rest2 =~= (front + rest2).skip(front.len() as int));
    lemma_parted(a, b.push('|') + c, a2, b2.push('|') + c2, '|');
    lemma_parted(b, c, b2, c2, '|');
}

/// The same for the older models, of one language.
pub proof fn law_older_model_contents_take_part(
    lang: Seq<char>,
    rec: ModelFile,
    dict: ModelFile,
    rec2: ModelFile,
    dict2: ModelFile,
)
    requires
        model_salt(lang, None, rec.identity(), dict.identity()) == model_salt(
            lang,
            None,
            rec2.identity(),
            dict2.identity(),
        ),
    ensures
        rec.hashed() == rec2.hashed(),
        dict.hashed() == dict2.hashed(),
{
    reveal_strlit("|");
    let (b, b2) = (rec.identity(), rec2.identity());
    let (c, c2) = (dict.identity(), dict2.identity());
    lemma_identity(rec.content, rec.weights, rec2.content, rec2.weights);
    lemma_identity(rec2.content, rec2.weights, rec.content, rec.weights);
    lemma_identity(dict.content, dict.weights, dict2.content, dict2.weights);
    let front = lang + "|"@;
    let rest = b.push('|') + c;
    let rest2 = b2.push('|') + c2;
    assert(model_salt(lang, None, b, c) =~= front + rest);
    assert(model_salt(lang, None, b2, c2) =~= front + rest2);
    assert(rest =~= (front + rest).skip(front.len() as int));
    assert(rest2 =~= (front + rest2).skip(front.len() as int));
    lemma_parted(b, c, b2, c2, '|');
}

/// Whether the models are loaded.
#[derive(Debug, Clone, Copy, PartialEq, Eq, Structural)]
pub enum LoadState {
    Unloaded,
    /// Loading failed once.
    Missing,
    Ready,
}

/// Before an image is read: load the models where that was not tried, and
/// fail where they could not be loaded. `loaded` is what loading gave, if it
/// was tried now.
pub fn load_gate(state: LoadState, loaded: Option<Result<(), String>>) -> (r: (
    LoadState,
    Option<OcrFailure>,
))
    requires
        state == LoadState::Unloaded ==> loaded is Some,
    ensures
        match state {
            LoadState::Ready => r.0 == LoadState::Ready && r.1 is None,
            LoadState::Missing => r.0 == LoadState::Missing && (r.1 matches Some(
                OcrFailure::Engine(m),
            ) && m@ == "recognition model unavailable"@),
            LoadState::Unloaded => match loaded->0 {
                Ok(_) => r.0 == LoadState::Ready && r.1 is None,
                Err(e) => r.0 == LoadState::Missing && r.1 == Some(OcrFailure::Engine(e)),
            },
        },
{
    match state {
        LoadState::Ready => (LoadState::Ready, None),
        LoadState::Missing => (
            LoadState::Missing,
            Some(OcrFailure::Engine("recognition model unavailable".to_owned())),
        ),
        LoadState::Unloaded => match loaded {
            Some(Ok(_)) => (LoadState::Ready, None),
            Some(Err(e)) => (LoadState::Missing, Some(OcrFailure::Engine(e))),
            None => (LoadState::Missing, None),
        },
    }
}

/// An image as red, green and blue bytes, row by row.
#[derive(Debug)]
pub struct Rgb {
    pub width: u32,
    pub height: u32,
    pub data: Vec<u8>,
}

/// What `image::load_from_memory` makes of an image file: its width and
/// height, or nothing where it cannot be decoded.
pub uninterp spec fn image_decoded(file: Seq<u8>) -> Option<(u32, u32)>;

/// Three bytes to a pixel.
pub open spec fn has_all_pixels(width: u32, height: u32, data: Seq<u8>) -> bool {
    data.len() == 3 * width * height
}

/// `image::load_from_memory` decodes an image file, `to_rgb8` turns it into
/// red, green and blue bytes, three to a pixel. Whether that works, and the
/// size, is a function of the file. What the bytes are is left open: decoders
/// choose their arithmetic by the processor. So is the message of an error:
/// decoders that work in several threads report the first that they meet.
#[verifier::external_body]
fn decode_file(file: &[u8]) -> (r: Result<Rgb, String>)
    ensures
        match r {
            Ok(p) => image_decoded(file@) == Some((p.width, p.height)) && has_all_pixels(
                p.width,
                p.height,
                p.data@,
            ),
            Err(_) => image_decoded(file@) is None,
        },
{
    match image::load_from_memory(file) {
        Ok(img) => {
            let rgb = img.to_rgb8();
            Ok(Rgb { width: rgb.width(), height: rgb.height(), data: rgb.into_raw() })
        },
        Err(e) => Err(e.to_string()),
    }
}

/// What decoding gave: the pixels as they are, or a failure that speaks of the
/// image, so that another engine may read it.
pub fn decoded(r: Result<Rgb, String>) -> (o: Result<Rgb, OcrFailure>)
    ensures
        match r {
            Ok(p) => o == Ok::<Rgb, OcrFailure>(p),
            Err(m) => o matches Err(OcrFailure::Image(e)) && e@ == "decode image: "@ + m@,
        },
{
    match r {
        Ok(p) => Ok(p),
        Err(m) => Err(OcrFailure::Image(text::both("decode image: ", &m))),
    }
}

/// Decode an image file; one that cannot be decoded is another engine's to
/// read.
pub fn decode_image(file: &[u8]) -> (r: Result<Rgb, OcrFailure>)
    ensures
        match image_decoded(file@) {
            Some(size) => r matches Ok(p) && (p.width, p.height) == size && has_all_pixels(
                p.width,
                p.height,
                p.data@,
            ),
            None => r matches Err(OcrFailure::Image(e)) && text::starts_with(
                e@,
                "decode image: "@,
            ),
        },
{
    let r = decode_file(file);
    assert forall|m: Seq<char>|
        text::starts_with(#[trigger] ("decode image: "@ + m), "decode image: "@) by {
        let front = "decode image: "@;
        assert((front + m).subrange(0, front.len() as int) =~= front);
    }
    decoded(r)
}

/// The width and height of an image file, or 0 and 0 where it cannot be
/// decoded.
pub open spec fn file_size(file: Seq<u8>) -> (u32, u32) {
    match image_decoded(file) {
        Some(size) => size,
        None => (0, 0),
    }
}

/// Measure an image file.
pub fn image_size(file: &[u8]) -> (r: (u32, u32))
    ensures
        r == file_size(file@),
{
    match decode_file(file) {
        Ok(p) => (p.width, p.height),
        Err(_) => (0, 0),
    }
}

/// Pixels with red and blue exchanged.
pub open spec fn swapped(data: Seq<u8>) -> Seq<u8> {
    Seq::new(
        data.len(),
        |i: int|
            if i % 3 == 0 && i + 2 < data.len() {
                data[i + 2]
            } else if i % 3 == 2 {
                data[i - 2]
            } else {
                data[i]
            },
    )
}

/// Exchange red and blue of every pixel.
pub fn to_bgr(data: &mut Vec<u8>)
    requires
        old(data)@.len() % 3 == 0,
    ensures
        final(data)@ == swapped(old(data)@),
{
    let n: usize = data.len();
    let ghost was = data@;
    let mut i: usize = 0;
    while i < n
        invariant
            i <= n,
            i % 3 == 0,
            n % 3 == 0,
            n == data@.len(),
            n == was.len(),
            forall|k: int| 0 <= k < i ==> #[trigger] data@[k] == swapped(was)[k],
            forall|k: int| i <= k < n ==> #[trigger] data@[k] == was[k],
        decreases n - i,
    {
        let a: u8 = data[i];
        let b: u8 = data[i + 2];
        data.set(i, b);
        data.set(i + 2, a);
        i += 3;
    }
    assert(data@ =~= swapped(was));
}

/// Exchanging red and blue twice changes nothing.
pub proof fn law_swapping_twice_changes_nothing(data: Seq<u8>)
    requires
        data.len() % 3 == 0,
    ensures
        swapped(swapped(data)) == data,
{
    assert(swapped(swapped(data)) =~= data);
}

/// A crop is worth reading: more than two pixels wide and high.
pub fn worth_reading(x0: u32, y0: u32, x1: u32, y1: u32) -> (r: bool)
    ensures
        r == (x1 > x0 + 2 && y1 > y0 + 2),
{
    x1 as u64 > x0 as u64 + 2 && y1 as u64 > y0 as u64 + 2
}

/// The positions of the texts that are not blank.
pub open spec fn legible(texts: Seq<Seq<char>>) -> Seq<usize>
    decreases texts.len(),
{
    if texts.len() == 0 {
        seq![]
    } else {
        let front = legible(texts.drop_last());
        if text::blank(texts.last()) {
            front
        } else {
            front.push((texts.len() - 1) as usize)
        }
    }
}

/// The texts at some positions, without the white space around them.
pub open spec fn picked(texts: Seq<Seq<char>>, at: Seq<usize>) -> Seq<Seq<char>> {
    at.map_values(|i: usize| text::trim(texts[i as int]))
}

/// What was recognised: the texts that are not blank, one to a line, and the
/// positions that they have.
pub fn recognised(texts: &Vec<String>) -> (r: (String, Vec<usize>))
    ensures
        r.1@ == legible(text::string_views(texts@)),
        r.0@ == text::join(
            picked(text::string_views(texts@), legible(text::string_views(texts@))),
            "\n"@,
        ),
{
    let ghost ts = text::string_views(texts@);
    let mut lines: Vec<Vec<char>> = Vec::new();
    let mut at: Vec<usize> = Vec::new();
    let mut i: usize = 0;
    assert(ts.take(0) =~= Seq::empty());
    assert(text::views(lines@) =~= picked(ts, at@));
    while i < texts.len()
        invariant
            i <= texts@.len(),
            ts == text::string_views(texts@),
            at@ == legible(ts.take(i as int)),
            text::views(lines@) == picked(ts, at@),
        decreases texts@.len() - i,
    {
        proof {
            assert(ts.take(i + 1).drop_last() =~= ts.take(i as int));
            assert(ts.take(i + 1).last() == texts@[i as int]@);
        }
        let v = text::chars_of(&texts[i]);
        if !text::is_blank(&v) {
            let ghost before = text::views(lines@);
            let ghost had = at@;
            let l = text::to_vec(text::trimmed(&v));
            lines.push(l);
            at.push(i);
            assert(text::views(lines@) =~= before.push(text::trim(ts[i as int])));
            assert(picked(ts, at@) =~= picked(ts, had).push(text::trim(ts[i as int])));
        }
        i += 1;
    }
    assert(ts.take(i as int) =~= ts);
    (text::string_of(&text::joined(&lines, "\n")), at)
}

} // verus!
