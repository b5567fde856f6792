//! What the requests to a chat endpoint hold, and what of an answer is read.

use vstd::prelude::*;

use crate::base64;
use crate::json;
use crate::json::JsonView;
use crate::json_laws;
use crate::text;
use crate::vlm;

verus! {

broadcast use vstd::string::group_string_axioms;

proof fn lemma_one(name: Seq<char>, v: JsonView)
    ensures
        json::member(vlm::one(name, v), name) == Some(v),
{
    assert(seq![(name, v)][0] == (name, v));
}

proof fn lemma_two(n1: Seq<char>, v1: JsonView, n2: Seq<char>, v2: JsonView)
    requires
        n1 != n2,
    ensures
        json::member(vlm::two(n1, v1, n2, v2), n1) == Some(v1),
        json::member(vlm::two(n1, v1, n2, v2), n2) == Some(v2),
{
    reveal_with_fuel(json::member_of, 3);
    let m = seq![(n1, v1), (n2, v2)];
    assert(m[0] == (n1, v1));
    assert(m.skip(1)[0] == (n2, v2));
}

proof fn lemma_base(model: Seq<char>, prompt: Seq<char>, uri: Seq<char>)
    ensures
        ({
            let r = JsonView::Object(vlm::base_members(model, prompt, uri));
            &&& json::member(r, "model"@) == Some(JsonView::Text(model))
            &&& json::member(r, "temperature"@) == Some(json::number(0))
            &&& json::member(r, "max_tokens"@) == Some(json::number(4096))
            &&& json::member(r, "messages"@) == Some(
                JsonView::Array(seq![vlm::message(prompt, uri)]),
            )
        }),
{
    vlm::lemma_base_distinct(model, prompt, uri);
    let m = vlm::base_members(model, prompt, uri);
    let r = JsonView::Object(m);
    json_laws::law_members_are_found(m, "model"@);
    json_laws::law_members_are_found(m, "temperature"@);
    json_laws::law_members_are_found(m, "max_tokens"@);
    json_laws::law_members_are_found(m, "messages"@);
    assert(m[0] == ("model"@, JsonView::Text(model)));
    assert(m[1] == ("temperature"@, json::number(0)));
    assert(m[2] == ("max_tokens"@, json::number(4096)));
    assert(m[3] == ("messages"@, JsonView::Array(seq![vlm::message(prompt, uri)])));
    assert(json_laws::has(r, "model"@, m[0].1));
    assert(json_laws::has(r, "temperature"@, m[1].1));
    assert(json_laws::has(r, "max_tokens"@, m[2].1));
    assert(json_laws::has(r, "messages"@, m[3].1));
}

/// Without overrides a request names the model, asks for an answer of at most
/// so many tokens without chance, and holds one message of the user: first the
/// prompt as text, then the image as the URL.
pub proof fn law_requests_show_prompt_and_image(model: Seq<char>, prompt: Seq<char>, uri: Seq<char>)
    ensures
        ({
            let r = vlm::request(model, prompt, seq![], uri);
            let messages = json::member(r, "messages"@)->Some_0;
            let message = json::item(messages, 0)->Some_0;
            let content = json::member(message, "content"@)->Some_0;
            let say = json::item(content, 0)->Some_0;
            let show = json::item(content, 1)->Some_0;
            let image = json::member(show, "image_url"@)->Some_0;
            &&& json::member(r, "model"@) == Some(JsonView::Text(model))
            &&& json::unsigned(json::member(r, "temperature"@)->Some_0) == Some(0u64)
            &&& json::unsigned(json::member(r, "max_tokens"@)->Some_0) == Some(4096u64)
            &&& json::member(r, "messages"@) is Some
            &&& messages->Array_0.len() == 1
            &&& json::item(messages, 0) is Some
            &&& json::member(message, "role"@) == Some(JsonView::Text("user"@))
            &&& json::member(message, "content"@) is Some
            &&& content->Array_0.len() == 2
            &&& json::item(content, 0) is Some
            &&& json::item(content, 1) is Some
            &&& json::member(say, "type"@) == Some(JsonView::Text("text"@))
            &&& json::member(say, "text"@) == Some(JsonView::Text(prompt))
            &&& json::member(show, "type"@) == Some(JsonView::Text("image_url"@))
            &&& json::member(show, "image_url"@) is Some
            &&& json::member(image, "url"@) == Some(JsonView::Text(uri))
        }),
{
    lemma_base(model, prompt, uri);
    let r = vlm::request(model, prompt, seq![], uri);
    assert(r == JsonView::Object(vlm::base_members(model, prompt, uri)));
    reveal_strlit("type");
    reveal_strlit("text");
    reveal_strlit("image_url");
    reveal_strlit("role");
    reveal_strlit("content");
    assert("type"@[1] != "text"@[1]);
    assert("type"@.len() != "image_url"@.len());
    assert("role"@.len() != "content"@.len());
    let image = vlm::one("url"@, JsonView::Text(uri));
    let say = vlm::two("type"@, JsonView::Text("text"@), "text"@, JsonView::Text(prompt));
    let show = vlm::two("type"@, JsonView::Text("image_url"@), "image_url"@, image);
    let content = JsonView::Array(seq![say, show]);
    lemma_one("url"@, JsonView::Text(uri));
    lemma_two("type"@, JsonView::Text("text"@), "text"@, JsonView::Text(prompt));
    lemma_two("type"@, JsonView::Text("image_url"@), "image_url"@, image);
    lemma_two("role"@, JsonView::Text("user"@), "content"@, content);
    let message = vlm::message(prompt, uri);
    assert(message == vlm::two("role"@, JsonView::Text("user"@), "content"@, content));
    assert(json::item(JsonView::Array(seq![message]), 0) == Some(message));
    assert(json::item(content, 0) == Some(say));
    assert(json::item(content, 1) == Some(show));
}

/// An override takes the place of a member or is added to the others; a member
/// that is not overridden stays as it is without overrides.
pub proof fn law_overrides_replace_members(
    model: Seq<char>,
    prompt: Seq<char>,
    extra: Seq<(Seq<char>, JsonView)>,
    uri: Seq<char>,
    name: Seq<char>,
)
    requires
        json::distinct(extra),
    ensures
        forall|i: int|
            0 <= i < extra.len() && (#[trigger] extra[i]).0 == name ==> json::member(
                vlm::request(model, prompt, extra, uri),
                name,
            ) == Some(extra[i].1),
        (forall|i: int| 0 <= i < extra.len() ==> (#[trigger] extra[i]).0 != name) ==> json::member(
            vlm::request(model, prompt, extra, uri),
            name,
        ) == json::member(vlm::request(model, prompt, seq![], uri), name),
{
    vlm::lemma_base_distinct(model, prompt, uri);
    let m = vlm::base_members(model, prompt, uri);
    json_laws::law_merging(m, extra, name);
    json_laws::law_members_are_found(extra, name);
    assert(json::merged(m, Seq::empty()) == m);
    assert forall|i: int| 0 <= i < extra.len() && (#[trigger] extra[i]).0 == name implies json::member(
        vlm::request(model, prompt, extra, uri),
        name,
    ) == Some(extra[i].1) by {
        assert(extra[i] == (name, extra[i].1));
        assert(json_laws::has(JsonView::Object(extra), name, extra[i].1));
    }
}

/// A `data:` URI says the type of the image and then holds the image itself.
pub proof fn law_data_uris_hold_the_image(image: Seq<u8>, mimetype: Seq<char>)
    ensures
        ({
            let uri = vlm::data_uri(image, mimetype);
            let n = mimetype.len() as int;
            &&& uri.take(5) == seq!['d', 'a', 't', 'a', ':']
            &&& uri.subrange(5, 5 + n) == mimetype
            &&& uri.subrange(5 + n, 13 + n) == seq![';', 'b', 'a', 's', 'e', '6', '4', ',']
            &&& uri.skip(13 + n) == base64::base64(image)
        }),
{
    reveal_strlit("data:");
    reveal_strlit(";base64,");
    let uri = vlm::data_uri(image, mimetype);
    let n = mimetype.len() as int;
    assert(uri.take(5) =~= seq!['d', 'a', 't', 'a', ':']);
    assert(uri.subrange(5, 5 + n) =~= mimetype);
    assert(uri.subrange(5 + n, 13 + n) =~= seq![';', 'b', 'a', 's', 'e', '6', '4', ',']);
    assert(uri.skip(13 + n) =~= base64::base64(image));
}

/// An endpoint without the slashes at its end: nothing else goes.
pub proof fn law_only_slashes_go(endpoint: Seq<char>)
    ensures
        ({
            let base = vlm::without_slashes(endpoint);
            &&& base.len() <= endpoint.len()
            &&& base == endpoint.take(base.len() as int)
            &&& forall|k: int| base.len() <= k < endpoint.len() ==> #[trigger] endpoint[k] == '/'
            &&& base.len() > 0 ==> base.last() != '/'
        }),
    decreases endpoint.len(),
{
    if endpoint.len() > 0 && endpoint.last() == '/' {
        let front = endpoint.drop_last();
        law_only_slashes_go(front);
        let base = vlm::without_slashes(front);
        assert(base =~= endpoint.take(base.len() as int));
        assert forall|k: int| base.len() <= k < endpoint.len() implies #[trigger] endpoint[k]
            == '/' by {
            if k < front.len() {
                assert(front[k] == endpoint[k]);
            }
        }
    } else {
        assert(endpoint =~= endpoint.take(endpoint.len() as int));
    }
}

/// Requests go to the chat completions of the endpoint, whether it is given
/// with that path, without it, or with slashes at the end.
pub proof fn law_requests_go_to_chat_completions(base: Seq<char>)
    requires
        base.len() > 0 ==> base.last() != '/',
        !text::ends_with(base, "/chat/completions"@),
    ensures
        vlm::request_url(base) == base + "/chat/completions"@,
        vlm::request_url(base + "/chat/completions"@) == base + "/chat/completions"@,
        forall|e: Seq<char>| #[trigger] vlm::request_url(e.push('/')) == vlm::request_url(e),
{
    reveal_strlit("/chat/completions");
    let path = "/chat/completions"@;
    let full = base + path;
    assert(full.last() == 's');
    assert(vlm::without_slashes(full) == full);
    assert(full.skip(full.len() - path.len()) =~= path);
    assert(text::ends_with(full, path));
    assert(vlm::without_slashes(base) == base);
    assert forall|e: Seq<char>| #[trigger] vlm::request_url(e.push('/')) == vlm::request_url(e) by {
        assert(e.push('/').drop_last() =~= e);
        assert(vlm::without_slashes(e.push('/')) == vlm::without_slashes(e));
    }
}

/// What an answer says is the text under `choices`, its first item, `message`
/// and `content`. Without any of them it says nothing.
pub proof fn law_answers_say_their_content(v: JsonView, s: Seq<char>)
    ensures
        vlm::content(v) == Some(s) <==> {
            let choices = json::member(v, "choices"@);
            let first = json::item(choices->Some_0, 0);
            let message = json::member(first->Some_0, "message"@);
            let content = json::member(message->Some_0, "content"@);
            choices is Some && first is Some && message is Some && content == Some(
                JsonView::Text(s),
            )
        },
{
}

/// The answer that a model gives to a request is read as it was given.
pub proof fn law_given_answers_are_read(s: Seq<char>)
    ensures
        vlm::content(
            vlm::one(
                "choices"@,
                JsonView::Array(
                    seq![vlm::one("message"@, vlm::one("content"@, JsonView::Text(s)))],
                ),
            ),
        ) == Some(s),
{
    let content = vlm::one("content"@, JsonView::Text(s));
    let first = vlm::one("message"@, content);
    let choices = JsonView::Array(seq![first]);
    lemma_one("content"@, JsonView::Text(s));
    lemma_one("message"@, content);
    lemma_one("choices"@, choices);
    assert(json::item(choices, 0) == Some(first));
}

} // verus!
