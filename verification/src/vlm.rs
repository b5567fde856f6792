//! The requests to an endpoint that speaks the OpenAI chat protocol, and the
//! reading of its answers.

use vstd::prelude::*;

use crate::base64;
use crate::canonical;
use crate::engine::{OcrFailure, OcrText};
use crate::json;
use crate::json::{Json, JsonView};
use crate::text;

verus! {

broadcast use vstd::string::group_string_axioms;

/// The instruction that goes with every image unless another is given.
pub open spec fn default_prompt() -> Seq<char> {
    "Transcribe all text visible in this image exactly as written, preserving line breaks. Output only the transcribed text, nothing else. If the image contains no text, output nothing."@
}

/// The most tokens that an answer may have.
pub const MAX_TOKENS: u64 = 4096;

/// An endpoint and what is asked of it. `extra_body` overrides members of
/// every request.
#[derive(Debug)]
pub struct OpenAiVlm {
    pub endpoint: String,
    pub model: String,
    pub prompt: String,
    pub api_key: Option<String>,
    pub timeout_secs: u64,
    pub max_retries: u32,
    pub extra_body: Vec<(String, Json)>,
}

/// A text without the slashes at its end.
pub open spec fn without_slashes(s: Seq<char>) -> Seq<char>
    decreases s.len(),
{
    if s.len() > 0 && s.last() == '/' {
        without_slashes(s.drop_last())
    } else {
        s
    }
}

/// Where the requests for an endpoint go: `/chat/completions` is appended
/// unless the endpoint ends in it.
pub open spec fn request_url(endpoint: Seq<char>) -> Seq<char> {
    let base = without_slashes(endpoint);
    if text::ends_with(base, "/chat/completions"@) {
        base
    } else {
        base + "/chat/completions"@
    }
}

/// An image file as a `data:` URI.
pub open spec fn data_uri(image: Seq<u8>, mimetype: Seq<char>) -> Seq<char> {
    "data:"@ + mimetype + ";base64,"@ + base64::base64(image)
}

/// An object with one member.
pub open spec fn one(name: Seq<char>, v: JsonView) -> JsonView {
    JsonView::Object(seq![(name, v)])
}

/// An object with two members.
pub open spec fn two(n1: Seq<char>, v1: JsonView, n2: Seq<char>, v2: JsonView) -> JsonView {
    JsonView::Object(seq![(n1, v1), (n2, v2)])
}

/// The message that shows the image and says what to do with it.
pub open spec fn message(prompt: Seq<char>, uri: Seq<char>) -> JsonView {
    two(
        "role"@,
        JsonView::Text("user"@),
        "content"@,
        JsonView::Array(
            seq![
                two("type"@, JsonView::Text("text"@), "text"@, JsonView::Text(prompt)),
                two(
                    "type"@,
                    JsonView::Text("image_url"@),
                    "image_url"@,
                    one("url"@, JsonView::Text(uri)),
                ),
            ],
        ),
    )
}

/// The members of a request before the overrides.
pub open spec fn base_members(model: Seq<char>, prompt: Seq<char>, uri: Seq<char>) -> Seq<
    (Seq<char>, JsonView),
> {
    seq![
        ("model"@, JsonView::Text(model)),
        ("temperature"@, json::number(0)),
        ("max_tokens"@, json::number(MAX_TOKENS)),
        ("messages"@, JsonView::Array(seq![message(prompt, uri)])),
    ]
}

/// A request: the members, with the overrides merged in.
pub open spec fn request(
    model: Seq<char>,
    prompt: Seq<char>,
    extra: Seq<(Seq<char>, JsonView)>,
    uri: Seq<char>,
) -> JsonView {
    JsonView::Object(json::merged(base_members(model, prompt, uri), extra))
}

/// What of an endpoint's settings decides its answers: where requests go, and
/// the request for an image without bytes.
pub open spec fn identity(
    endpoint: Seq<char>,
    model: Seq<char>,
    prompt: Seq<char>,
    extra: Seq<(Seq<char>, JsonView)>,
) -> JsonView {
    two(
        "endpoint"@,
        JsonView::Text(request_url(endpoint)),
        "body"@,
        request(model, prompt, extra, data_uri(seq![], "image/png"@)),
    )
}

/// The value of a member, or null.
pub open spec fn index(v: JsonView, name: Seq<char>) -> JsonView {
    match json::member(v, name) {
        Some(m) => m,
        None => JsonView::Null,
    }
}

/// The item at a position, or null.
pub open spec fn index_at(v: JsonView, i: int) -> JsonView {
    match json::item(v, i) {
        Some(m) => m,
        None => JsonView::Null,
    }
}

/// What an answer says: the content of its first choice.
pub open spec fn content(v: JsonView) -> Option<Seq<char>> {
    json::string(index(index(index_at(index(v, "choices"@), 0), "message"@), "content"@))
}

/// Read what an answer says out of its JSON.
pub fn content_of(v: &Json) -> (r: Result<String, String>)
    requires
        json::well_formed(*v),
    ensures
        match r {
            Ok(s) => content(v@) == Some(s@),
            Err(e) => content(v@) is None && e@ == "no choices[0].message.content in response"@,
        },
{
    if let Some(choices) = v.get("choices") {
        if let Some(first) = choices.at(0) {
            if let Some(message) = first.get("message") {
                if let Some(content) = message.get("content") {
                    if let Some(s) = content.as_str() {
                        return Ok(s.to_owned());
                    }
                }
            }
        }
    }
    Err("no choices[0].message.content in response".to_owned())
}

/// Read what an answer says, or why it says nothing.
pub fn parse_openai_response(body: &str) -> (r: Result<String, String>)
    ensures
        match json::json_parse(body@) {
            Ok(v) => match r {
                Ok(s) => content(v) == Some(s@),
                Err(e) => content(v) is None && e@
                    == "no choices[0].message.content in response"@,
            },
            Err(m) => r matches Err(e) && e@ == "malformed JSON response: "@ + m,
        },
{
    match json::parse(body) {
        Ok(v) => content_of(&v),
        Err(m) => {
            let mut e = text::chars_of("malformed JSON response: ");
            text::append_str(&mut e, &m);
            Err(text::string_of(&e))
        },
    }
}

fn object_one(name: &str, v: Json) -> (r: Json)
    requires
        json::well_formed(v),
    ensures
        r@ == one(name@, v@),
        json::well_formed(r),
{
    let mut m: Vec<(String, Json)> = Vec::new();
    let key = name.to_owned();
    m.push((key, v));
    assert(json::members_view(m@) =~= seq![(name@, v@)]);
    Json::Object(m)
}

fn object_two(n1: &str, v1: Json, n2: &str, v2: Json) -> (r: Json)
    requires
        json::well_formed(v1),
        json::well_formed(v2),
        n1@ != n2@,
    ensures
        r@ == two(n1@, v1@, n2@, v2@),
        json::well_formed(r),
{
    let mut m: Vec<(String, Json)> = Vec::new();
    let k1 = n1.to_owned();
    let k2 = n2.to_owned();
    m.push((k1, v1));
    m.push((k2, v2));
    assert(json::members_view(m@) =~= seq![(n1@, v1@), (n2@, v2@)]);
    Json::Object(m)
}

fn message_of(prompt: &str, uri: String) -> (r: Json)
    ensures
        r@ == message(prompt@, uri@),
        json::well_formed(r),
{
    proof {
        reveal_strlit("type");
        reveal_strlit("text");
        reveal_strlit("image_url");
        reveal_strlit("role");
        reveal_strlit("content");
        assert("type"@[1] != "text"@[1]);
        assert("type"@.len() != "image_url"@.len());
        assert("role"@.len() != "content"@.len());
    }
    let say = object_two("type", json::text_value("text"), "text", json::text_value(prompt));
    let show = object_two(
        "type",
        json::text_value("image_url"),
        "image_url",
        object_one("url", Json::Text(uri)),
    );
    let mut parts: Vec<Json> = Vec::new();
    parts.push(say);
    parts.push(show);
    proof {
        let want = seq![
            two("type"@, JsonView::Text("text"@), "text"@, JsonView::Text(prompt@)),
            two(
                "type"@,
                JsonView::Text("image_url"@),
                "image_url"@,
                one("url"@, JsonView::Text(uri@)),
            ),
        ];
        assert(json::list_view(parts@) =~= want);
        assert(json::all_well_formed(parts@));
    }
    object_two("role", json::text_value("user"), "content", Json::Array(parts))
}

/// The names of a request's members.
pub proof fn lemma_base_distinct(model: Seq<char>, prompt: Seq<char>, uri: Seq<char>)
    ensures
        json::distinct(base_members(model, prompt, uri)),
{
    reveal_strlit("model");
    reveal_strlit("temperature");
    reveal_strlit("max_tokens");
    reveal_strlit("messages");
    let m = base_members(model, prompt, uri);
    assert("model"@.len() == 5 && "temperature"@.len() == 11 && "max_tokens"@.len() == 10
        && "messages"@.len() == 8);
    assert(m[0].0 == "model"@ && m[1].0 == "temperature"@ && m[2].0 == "max_tokens"@ && m[3].0
        == "messages"@);
}

impl OpenAiVlm {
    /// The overrides as contents.
    pub open spec fn extra(&self) -> Seq<(Seq<char>, JsonView)> {
        json::members_view(self.extra_body@)
    }

    /// The overrides are the members of an object.
    pub open spec fn valid(&self) -> bool {
        json::distinct(self.extra()) && json::members_well_formed(self.extra_body@)
    }

    /// An endpoint with the default retries and no overrides.
    pub fn new(
        endpoint: String,
        model: String,
        prompt: Option<String>,
        api_key: Option<String>,
        timeout_secs: u64,
    ) -> (r: OpenAiVlm)
        ensures
            r.endpoint == endpoint,
            r.model == model,
            r.prompt@ == match prompt {
                Some(p) => p@,
                None => default_prompt(),
            },
            r.api_key == api_key,
            r.timeout_secs == timeout_secs,
            r.max_retries == 3,
            r.extra() == Seq::<(Seq<char>, JsonView)>::empty(),
            r.valid(),
    {
        let prompt = match prompt {
            Some(p) => p,
            None => "Transcribe all text visible in this image exactly as written, preserving line breaks. Output only the transcribed text, nothing else. If the image contains no text, output nothing.".to_owned(),
        };
        let extra_body: Vec<(String, Json)> = Vec::new();
        assert(json::members_view(extra_body@) =~= Seq::empty());
        OpenAiVlm { endpoint, model, prompt, api_key, timeout_secs, max_retries: 3, extra_body }
    }

    /// The endpoint with other retries and overrides.
    pub fn request_options(self, max_retries: u32, extra_body: Vec<(String, Json)>) -> (r: OpenAiVlm)
        ensures
            r.max_retries == max_retries,
            r.extra_body == extra_body,
            r.endpoint == self.endpoint,
            r.model == self.model,
            r.prompt == self.prompt,
            r.api_key == self.api_key,
            r.timeout_secs == self.timeout_secs,
    {
        OpenAiVlm {
            endpoint: self.endpoint,
            model: self.model,
            prompt: self.prompt,
            api_key: self.api_key,
            timeout_secs: self.timeout_secs,
            max_retries,
            extra_body,
        }
    }

    /// Where the requests go.
    pub fn url(&self) -> (r: String)
        ensures
            r@ == request_url(self.endpoint@),
    {
        let v = text::chars_of(&self.endpoint);
        let mut n: usize = v.len();
        assert(v@.take(n as int) =~= v@);
        while n > 0 && v[n - 1] == '/'
            invariant
                n <= v@.len(),
                without_slashes(v@) == without_slashes(v@.take(n as int)),
            decreases n,
        {
            assert(v@.take(n as int).drop_last() =~= v@.take(n - 1));
            n -= 1;
        }
        let base = vstd::slice::slice_subrange(v.as_slice(), 0, n);
        assert(base@ =~= v@.take(n as int));
        let mut out = text::to_vec(base);
        if !text::has_suffix(base, "/chat/completions") {
            text::append_str(&mut out, "/chat/completions");
        }
        text::string_of(&out)
    }

    fn request_of(&self, image: &[u8], mimetype: &str) -> (r: Json)
        requires
            self.valid(),
        ensures
            r@ == request(self.model@, self.prompt@, self.extra(), data_uri(image@, mimetype@)),
            json::well_formed(r),
    {
        let mut uri = text::chars_of("data:");
        text::append_str(&mut uri, mimetype);
        text::append_str(&mut uri, ";base64,");
        text::append_str(&mut uri, &base64::encode(image));
        let uri = text::string_of(&uri);
        let ghost u = data_uri(image@, mimetype@);
        let mut messages: Vec<Json> = Vec::new();
        messages.push(message_of(&self.prompt, uri));
        assert(json::list_view(messages@) =~= seq![message(self.prompt@, u)]);
        let mut m: Vec<(String, Json)> = Vec::new();
        m.push(("model".to_owned(), json::text_value(&self.model)));
        m.push(("temperature".to_owned(), json::unsigned_number(0)));
        m.push(("max_tokens".to_owned(), json::unsigned_number(MAX_TOKENS)));
        m.push(("messages".to_owned(), Json::Array(messages)));
        proof {
            assert(json::all_well_formed(messages@));
            assert(json::members_view(m@) =~= base_members(self.model@, self.prompt@, u));
            assert(json::members_well_formed(m@));
            lemma_base_distinct(self.model@, self.prompt@, u);
            json::lemma_merged(base_members(self.model@, self.prompt@, u), self.extra());
        }
        json::merge(&mut m, &self.extra_body);
        Json::Object(m)
    }

    /// The request for an image.
    pub fn body(&self, image: &[u8], mimetype: &str) -> (r: String)
        requires
            self.valid(),
        ensures
            r@ == json::json_text(
                request(self.model@, self.prompt@, self.extra(), data_uri(image@, mimetype@)),
            ),
    {
        json::print(self.request_of(image, mimetype))
    }

    /// What of the settings decides the answers, as canonical JSON.
    pub fn cache_salt(&self) -> (r: String)
        requires
            self.valid(),
        ensures
            r@ == json::json_text(
                canonical::canonical(
                    identity(self.endpoint@, self.model@, self.prompt@, self.extra()),
                ),
            ),
            json::tells(
                r@,
                canonical::canonical(
                    identity(self.endpoint@, self.model@, self.prompt@, self.extra()),
                ),
            ),
    {
        let none: Vec<u8> = Vec::new();
        proof {
            reveal_strlit("endpoint");
            reveal_strlit("body");
            assert("endpoint"@.len() != "body"@.len());
            assert(none@ =~= Seq::<u8>::empty());
        }
        let request = self.request_of(none.as_slice(), "image/png");
        let j = object_two("endpoint", Json::Text(self.url()), "body", request);
        canonical::canonical_json(j)
    }

    /// The `authorization` header of a request, where there is a key.
    pub fn authorization(&self) -> (r: Option<String>)
        ensures
            text::opt_view(r) == match self.api_key {
                Some(k) => Some("Bearer "@ + k@),
                None => None,
            },
    {
        match &self.api_key {
            Some(k) => {
                let mut v = text::chars_of("Bearer ");
                text::append_str(&mut v, k);
                Some(text::string_of(&v))
            },
            None => None,
        }
    }
}

/// What the engine makes of a successful answer: its content without the
/// white space around it, or a failure that may pass.
pub fn answer(body: &str) -> (r: Result<OcrText, OcrFailure>)
    ensures
        match json::json_parse(body@) {
            Ok(v) => match content(v) {
                Some(s) => r matches Ok(t) && t.text@ == text::trim(s) && t.grid is None,
                None => r matches Err(OcrFailure::Transient(e)) && e@
                    == "no choices[0].message.content in response"@,
            },
            Err(m) => r matches Err(OcrFailure::Transient(e)) && e@
                == "malformed JSON response: "@ + m,
        },
{
    match parse_openai_response(body) {
        Ok(s) => Ok(OcrText::plain(text::trim_str(&s))),
        Err(e) => Err(OcrFailure::Transient(e)),
    }
}

/// Neither the order of the overrides nor slashes at the end of the endpoint
/// nor anything else than the model, the prompt and the overrides changes what
/// decides the answers: not the key, the timeout or the retries.
pub proof fn law_identity_ignores_order_and_credentials(a: OpenAiVlm, b: OpenAiVlm)
    requires
        a.valid(),
        b.valid(),
        request_url(a.endpoint@) == request_url(b.endpoint@),
        a.model@ == b.model@,
        a.prompt@ == b.prompt@,
        canonical::same_members(
            canonical::canonical_members(a.extra()),
            canonical::canonical_members(b.extra()),
        ),
    ensures
        canonical::canonical(identity(a.endpoint@, a.model@, a.prompt@, a.extra()))
            == canonical::canonical(identity(b.endpoint@, b.model@, b.prompt@, b.extra())),
{
    let uri = data_uri(seq![], "image/png"@);
    lemma_base_distinct(a.model@, a.prompt@, uri);
    canonical::law_merge_order_is_immaterial(
        base_members(a.model@, a.prompt@, uri),
        a.extra(),
        b.extra(),
    );
    let x = identity(a.endpoint@, a.model@, a.prompt@, a.extra());
    let y = identity(b.endpoint@, b.model@, b.prompt@, b.extra());
    assert(canonical::canonical_members(x->Object_0) =~= canonical::canonical_members(
        y->Object_0,
    ));
}

/// The request for an image without bytes, which decides the answers.
pub open spec fn bare_request(e: OpenAiVlm) -> JsonView {
    request(e.model@, e.prompt@, e.extra(), data_uri(seq![], "image/png"@))
}

/// What decides the answers is where requests go and what they hold: it is the
/// same for two engines exactly when their requests go to the same URL and are
/// equal as JSON values, whatever the order of members. The key, the timeout
/// and the retries have no part in it.
pub proof fn law_identity_is_the_request(a: OpenAiVlm, b: OpenAiVlm)
    ensures
        canonical::canonical(identity(a.endpoint@, a.model@, a.prompt@, a.extra()))
            == canonical::canonical(identity(b.endpoint@, b.model@, b.prompt@, b.extra())) <==> (
        request_url(a.endpoint@) == request_url(b.endpoint@) && canonical::canonical(
            bare_request(a),
        ) == canonical::canonical(bare_request(b))),
{
    lemma_identity(request_url(a.endpoint@), bare_request(a));
    lemma_identity(request_url(b.endpoint@), bare_request(b));
    let x = canonical_identity(request_url(a.endpoint@), bare_request(a));
    let y = canonical_identity(request_url(b.endpoint@), bare_request(b));
    if JsonView::Object(x) == JsonView::Object(y) {
        assert(x[0].1 == y[0].1 && x[1].1 == y[1].1);
    }
}

/// Two engines have the same salt exactly when their requests go to the same
/// URL and are equal as JSON values.
pub proof fn law_salts_are_equal_for_equal_requests(
    a: OpenAiVlm,
    b: OpenAiVlm,
    salt_a: Seq<char>,
    salt_b: Seq<char>,
)
    requires
        json::tells(
            salt_a,
            canonical::canonical(identity(a.endpoint@, a.model@, a.prompt@, a.extra())),
        ),
        json::tells(
            salt_b,
            canonical::canonical(identity(b.endpoint@, b.model@, b.prompt@, b.extra())),
        ),
    ensures
        salt_a == salt_b <==> (request_url(a.endpoint@) == request_url(b.endpoint@)
            && canonical::canonical(bare_request(a)) == canonical::canonical(bare_request(b))),
{
    law_identity_is_the_request(a, b);
    let v = canonical::canonical(identity(a.endpoint@, a.model@, a.prompt@, a.extra()));
    let w = canonical::canonical(identity(b.endpoint@, b.model@, b.prompt@, b.extra()));
    if salt_a == salt_b {
        json::law_texts_tell_values_apart(salt_a, v, w);
    }
}

spec fn canonical_identity(url: Seq<char>, body: JsonView) -> Seq<(Seq<char>, JsonView)> {
    seq![("body"@, canonical::canonical(body)), ("endpoint"@, JsonView::Text(url))]
}

proof fn lemma_identity(url: Seq<char>, body: JsonView)
    ensures
        canonical::canonical(two("endpoint"@, JsonView::Text(url), "body"@, body))
            == JsonView::Object(canonical_identity(url, body)),
{
    reveal_strlit("endpoint");
    reveal_strlit("body");
    let m = two("endpoint"@, JsonView::Text(url), "body"@, body)->Object_0;
    let c = canonical::canonical_members(m);
    let want = canonical_identity(url, body);
    assert(c =~= seq![want[1], want[0]]);
    reveal_with_fuel(canonical::sorted, 3);
    reveal_with_fuel(canonical::inserted, 3);
    assert(canonical::before("body"@, "endpoint"@));
    assert(c.drop_last() =~= seq![want[1]]);
    assert(c.drop_last().drop_last() =~= Seq::empty());
    assert(canonical::sorted(c.drop_last()) =~= seq![want[1]]);
    assert(seq![want[1]].drop_last() =~= Seq::empty());
    assert(canonical::inserted(Seq::empty(), want[0]) =~= seq![want[0]]);
    assert(canonical::sorted(c) =~= want);
}

} // verus!
