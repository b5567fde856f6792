//! What becomes of pixels, of the lines that are read, and which models read
//! them.

use vstd::prelude::*;

use crate::local;
use crate::local::{ModelEnv, ModelFiles, Present};
use crate::paths;
use crate::pixels;
use crate::recognition;
use crate::text;
use crate::text_laws;

verus! {

broadcast use vstd::string::group_string_axioms;

/// A part of an image shows the pixels that stand there: the pixel in column
/// `a` and row `b` of the part is that in column `x + a` and row `y + b` of
/// the image, with all its three bytes in order.
pub proof fn law_parts_show_their_pixels(
    data: Seq<u8>,
    width: int,
    x: int,
    y: int,
    w: int,
    h: int,
    a: int,
    b: int,
    c: int,
)
    requires
        0 <= a < w,
        0 <= b < h,
        0 <= c < 3,
    ensures
        pixels::part(data, width, x, y, w, h).len() == 3 * w * h,
        pixels::part(data, width, x, y, w, h)[3 * (b * w + a) + c] == data[3 * ((y + b) * width + (x
            + a)) + c],
{
    let i = 3 * (b * w + a) + c;
    let m = 3 * w;
    assert(i == b * m + (3 * a + c)) by (nonlinear_arith)
        requires
            i == 3 * (b * w + a) + c,
            m == 3 * w,
    ;
    assert(0 <= 3 * a + c < m);
    vstd::arithmetic::div_mod::lemma_fundamental_div_mod_converse(i, m, b, 3 * a + c);
    assert(0 <= i < 3 * w * h) by (nonlinear_arith)
        requires
            i == b * m + (3 * a + c),
            m == 3 * w,
            0 <= b < h,
            0 <= 3 * a + c < m,
    ;
    assert(3 * ((y + b) * width + x) + (3 * a + c) == 3 * ((y + b) * width + (x + a)) + c);
}

/// Dark becomes light and light dark: a byte and its complement make 255.
pub proof fn law_inverted_bytes(data: Seq<u8>, i: int)
    requires
        0 <= i < data.len(),
    ensures
        pixels::inverted(data).len() == data.len(),
        pixels::inverted(data)[i] + data[i] == 255,
{
}

/// The planes of an image hold the blue, then the green, then the red of its
/// pixels, each in the order of the pixels.
pub proof fn law_planes(data: Seq<u8>, n: int, k: int)
    requires
        0 <= k < n,
    ensures
        pixels::planes(data, n).len() == 3 * n,
        pixels::planes(data, n)[k] == data[3 * k + 2],
        pixels::planes(data, n)[n + k] == data[3 * k + 1],
        pixels::planes(data, n)[2 * n + k] == data[3 * k],
{
    vstd::arithmetic::div_mod::lemma_fundamental_div_mod_converse(k, n, 0, k);
    vstd::arithmetic::div_mod::lemma_fundamental_div_mod_converse(n + k, n, 1, k);
    vstd::arithmetic::div_mod::lemma_fundamental_div_mod_converse(2 * n + k, n, 2, k);
}

/// Red and blue change places in each pixel; green stays.
pub proof fn law_swapped_pixels(data: Seq<u8>, k: int)
    requires
        0 <= k,
        3 * k + 2 < data.len(),
    ensures
        local::swapped(data).len() == data.len(),
        local::swapped(data)[3 * k] == data[3 * k + 2],
        local::swapped(data)[3 * k + 1] == data[3 * k + 1],
        local::swapped(data)[3 * k + 2] == data[3 * k],
{
}

/// The first class is blank and the last a space; those between are the lines
/// of the dictionary.
pub proof fn law_classes(words: Seq<char>, i: int)
    requires
        0 <= i < text::lines(words).len(),
    ensures
        ({
            let c = recognition::classes(words);
            let n = text::lines(words).len() as int;
            &&& c.len() == n + 2
            &&& c[0].len() == 0
            &&& c[i + 1] == text::lines(words)[i]
            &&& c[n + 1] == seq![' ']
        }),
{
    reveal_strlit(" ");
    assert(" "@ =~= seq![' ']);
}

/// The texts that count are exactly those that are not blank, in their order.
pub proof fn law_legible_texts(texts: Seq<Seq<char>>)
    requires
        texts.len() <= usize::MAX,
    ensures
        forall|i: usize|
            i < texts.len() ==> (#[trigger] local::legible(texts).contains(i) <==> !text::blank(
                texts[i as int],
            )),
        forall|k: int|
            0 <= k < local::legible(texts).len() ==> (#[trigger] local::legible(texts)[k])
                < texts.len(),
        forall|j: int, k: int|
            0 <= j < k < local::legible(texts).len() ==> #[trigger] local::legible(texts)[j]
                < #[trigger] local::legible(texts)[k],
    decreases texts.len(),
{
    if texts.len() > 0 {
        let front = texts.drop_last();
        law_legible_texts(front);
        let f = local::legible(front);
        let all = local::legible(texts);
        let n = (texts.len() - 1) as usize;
        assert forall|i: usize| i < texts.len() implies (#[trigger] all.contains(i)
            <==> !text::blank(texts[i as int])) by {
            if i < n {
                assert(front[i as int] == texts[i as int]);
                assert(f.contains(i) <==> !text::blank(texts[i as int]));
                if f.contains(i) {
                    let k = choose|k: int| 0 <= k < f.len() && f[k] == i;
                    assert(all[k] == i);
                }
                if all.contains(i) {
                    let k = choose|k: int| 0 <= k < all.len() && all[k] == i;
                    assert(k < f.len());
                    assert(f[k] == i);
                }
            } else {
                if !text::blank(texts.last()) {
                    assert(all[f.len() as int] == n);
                } else if all.contains(i) {
                    let k = choose|k: int| 0 <= k < all.len() && all[k] == i;
                    assert(f[k] < front.len());
                }
            }
        }
        assert forall|k: int| 0 <= k < all.len() implies (#[trigger] all[k]) < texts.len() by {
            if k < f.len() {
                assert(all[k] == f[k]);
            }
        }
        assert forall|j: int, k: int| 0 <= j < k < all.len() implies #[trigger] all[j]
            < #[trigger] all[k] by {
            assert(all[j] == f[j]);
            if k < f.len() {
                assert(all[k] == f[k]);
            }
        }
    }
}

/// A text is picked without the white space around it.
pub proof fn law_picked_texts(texts: Seq<Seq<char>>, at: Seq<usize>, k: int)
    requires
        0 <= k < at.len(),
    ensures
        local::picked(texts, at).len() == at.len(),
        text_laws::is_trimmed(texts[at[k] as int], local::picked(texts, at)[k]),
{
    text_laws::law_trimming(texts[at[k] as int]);
}

/// Models that the environment names in full go before all others; else the
/// newer ones where they are; else the older ones, of which the multilingual
/// pair reads Chinese and stands in for a missing English pair.
pub proof fn law_which_models_read(
    lang: Seq<char>,
    dir: Seq<char>,
    env: ModelEnv,
    present: Present,
)
    ensures
        ({
            let named = env.det is Some && env.rec is Some && env.dict is Some && !text::blank(
                env.det->0@,
            ) && !text::blank(env.rec->0@) && !text::blank(env.dict->0@);
            let files = local::chosen(lang, dir, env, present);
            let many = text::lowercase(lang) == "ch"@ || (!present.english && present.multilingual);
            &&& named ==> files == (ModelFiles::V5 {
                det: env.det->0@,
                rec: env.rec->0@,
                dict: env.dict->0@,
            })
            &&& !named && present.v5 ==> files == (ModelFiles::V5 {
                det: paths::joined(dir, "ppocrv5_mobile_det.onnx"@),
                rec: paths::joined(dir, "ppocrv5_mobile_rec.onnx"@),
                dict: paths::joined(dir, "ppocrv5_dict.txt"@),
            })
            &&& !named && !present.v5 ==> files is V3
            &&& !named && !present.v5 && env.old_rec is None && env.old_dict is None && many
                ==> files == (ModelFiles::V3 {
                rec: paths::joined(dir, "ocr_rec.onnx"@),
                dict: paths::joined(dir, "ppocr_keys_v1.txt"@),
            })
            &&& !named && !present.v5 && env.old_rec is None && env.old_dict is None && !many
                ==> files == (ModelFiles::V3 {
                rec: paths::joined(dir, "ocr_rec_en.onnx"@),
                dict: paths::joined(dir, "en_dict.txt"@),
            })
            &&& !named && !present.v5 && env.old_rec is Some ==> files->V3_rec == env.old_rec->0@
            &&& !named && !present.v5 && env.old_dict is Some ==> files->V3_dict
                == env.old_dict->0@
        }),
{
}

} // verus!
