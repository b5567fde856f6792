//! JSON values: the library's own type, on which its logic works, and the
//! passage from and to `serde_json`, which reads and writes the text.

use vstd::prelude::*;

use crate::text;

verus! {

broadcast use vstd::string::group_string_axioms;

/// A `serde_json` value, carried through as it is.
#[verifier::external_type_specification]
#[verifier::external_body]
pub struct ExValue(serde_json::Value);

/// A JSON value. An object's members keep their order. A number stays as the
/// parser made it.
#[derive(Debug)]
pub enum Json {
    Null,
    Bool(bool),
    Number(serde_json::Value),
    Text(String),
    Array(Vec<Json>),
    Object(Vec<(String, Json)>),
}

/// The contents of a JSON value. A number has the text that writes it and, if
/// it is a non-negative integer that fits, its value.
pub enum JsonView {
    Null,
    Bool(bool),
    Number { unsigned: Option<u64>, text: Seq<char> },
    Text(Seq<char>),
    Array(Seq<JsonView>),
    Object(Seq<(Seq<char>, JsonView)>),
}

/// What a `serde_json::Value` holds.
pub uninterp spec fn value_view(v: serde_json::Value) -> JsonView;

/// What `serde_json::from_str` reads in a text: a value, or the message of
/// the error.
pub uninterp spec fn json_parse(text: Seq<char>) -> Result<JsonView, Seq<char>>;

/// What `Value::to_string` writes.
pub uninterp spec fn json_text(v: JsonView) -> Seq<char>;

/// The contents of a list of values.
pub open spec fn list_view(s: Seq<Json>) -> Seq<JsonView>
    decreases s,
{
    Seq::new(
        s.len(),
        |i: int|
            if 0 <= i < s.len() {
                json_view(s[i])
            } else {
                arbitrary()
            },
    )
}

/// The contents of an object's members.
pub open spec fn members_view(s: Seq<(String, Json)>) -> Seq<(Seq<char>, JsonView)>
    decreases s,
{
    Seq::new(
        s.len(),
        |i: int|
            if 0 <= i < s.len() {
                (s[i].0@, json_view(s[i].1))
            } else {
                arbitrary()
            },
    )
}

/// The contents of a value.
pub open spec fn json_view(j: Json) -> JsonView
    decreases j,
{
    match j {
        Json::Null => JsonView::Null,
        Json::Bool(b) => JsonView::Bool(b),
        Json::Number(n) => value_view(n),
        Json::Text(s) => JsonView::Text(s@),
        Json::Array(v) => JsonView::Array(list_view(v@)),
        Json::Object(m) => JsonView::Object(members_view(m@)),
    }
}

impl View for Json {
    type V = JsonView;

    open spec fn view(&self) -> JsonView {
        json_view(*self)
    }
}

/// No two members have the same name.
pub open spec fn distinct<T>(m: Seq<(Seq<char>, T)>) -> bool {
    forall|i: int, j: int|
        0 <= i < m.len() && 0 <= j < m.len() && i != j ==> (#[trigger] m[i]).0 != (
        #[trigger] m[j]).0
}

/// In no object of a value do two members have the same name, and what stands
/// for a number is one.
pub open spec fn well_formed(j: Json) -> bool
    decreases j,
{
    match j {
        Json::Number(n) => value_view(n) is Number,
        Json::Array(v) => all_well_formed(v@),
        Json::Object(m) => distinct(members_view(m@)) && members_well_formed(m@),
        _ => true,
    }
}

pub open spec fn all_well_formed(s: Seq<Json>) -> bool
    decreases s,
{
    forall|i: int| 0 <= i < s.len() ==> well_formed(#[trigger] s[i])
}

pub open spec fn members_well_formed(s: Seq<(String, Json)>) -> bool
    decreases s,
{
    forall|i: int| 0 <= i < s.len() ==> well_formed((#[trigger] s[i]).1)
}

/// One layer of a `serde_json` value.
pub enum Layer {
    Null,
    Bool(bool),
    Number(serde_json::Value),
    Text(String),
    Array(Vec<serde_json::Value>),
    Object(Vec<(String, serde_json::Value)>),
}

/// The contents of the members of a layer.
pub open spec fn layer_members(m: Seq<(String, serde_json::Value)>) -> Seq<(Seq<char>, JsonView)> {
    m.map_values(|p: (String, serde_json::Value)| (p.0@, value_view(p.1)))
}

/// The contents of a layer.
pub open spec fn layer_view(l: Layer) -> JsonView {
    match l {
        Layer::Null => JsonView::Null,
        Layer::Bool(b) => JsonView::Bool(b),
        Layer::Number(n) => value_view(n),
        Layer::Text(s) => JsonView::Text(s@),
        Layer::Array(v) => JsonView::Array(v@.map_values(|x: serde_json::Value| value_view(x))),
        Layer::Object(m) => JsonView::Object(layer_members(m@)),
    }
}

/// Takes a `serde_json::Value` apart by its variants, moving the fields. An
/// array's items and an object's members come in the order in which
/// `serde_json` walks them, and no name comes twice in an object.
#[verifier::external_body]
fn open_value(v: serde_json::Value) -> (r: Layer)
    ensures
        layer_view(r) == value_view(v),
        r matches Layer::Number(n) ==> value_view(n) is Number,
        r matches Layer::Object(m) ==> distinct(layer_members(m@)),
{
    match v {
        serde_json::Value::Null => Layer::Null,
        serde_json::Value::Bool(b) => Layer::Bool(b),
        serde_json::Value::Number(n) => Layer::Number(serde_json::Value::Number(n)),
        serde_json::Value::String(s) => Layer::Text(s),
        serde_json::Value::Array(a) => Layer::Array(a),
        serde_json::Value::Object(m) => Layer::Object(m.into_iter().collect()),
    }
}

/// Builds a `serde_json::Value` from one layer. An object gets its members in
/// the order given: `serde_json` is built to keep it.
#[verifier::external_body]
fn close_value(l: Layer) -> (r: serde_json::Value)
    requires
        l matches Layer::Object(m) ==> distinct(layer_members(m@)),
    ensures
        value_view(r) == layer_view(l),
{
    match l {
        Layer::Null => serde_json::Value::Null,
        Layer::Bool(b) => serde_json::Value::Bool(b),
        Layer::Number(n) => n,
        Layer::Text(s) => serde_json::Value::String(s),
        Layer::Array(a) => serde_json::Value::Array(a),
        Layer::Object(m) => serde_json::Value::Object(m.into_iter().collect()),
    }
}

/// `Value::clone` of a `serde_json` value holds what the value holds.
#[verifier::external_body]
fn clone_value(v: &serde_json::Value) -> (r: serde_json::Value)
    ensures
        value_view(r) == value_view(*v),
{
    v.clone()
}

/// `Value::as_u64` gives the value of a non-negative integer that fits, and
/// nothing for any other value.
#[verifier::external_body]
fn value_unsigned(v: &serde_json::Value) -> (r: Option<u64>)
    ensures
        r == match value_view(*v) {
            JsonView::Number { unsigned, .. } => unsigned,
            _ => None,
        },
{
    v.as_u64()
}

/// `Value::from` makes a number of an unsigned integer; it is written in
/// decimal digits.
#[verifier::external_body]
fn value_of_unsigned(n: u64) -> (r: serde_json::Value)
    ensures
        value_view(r) == (JsonView::Number { unsigned: Some(n), text: text::decimal(n as nat) }),
{
    serde_json::Value::from(n)
}

/// `serde_json::from_str` reads a value in a text, or gives an error with its
/// message. What it reads is a function of the text.
#[verifier::external_body]
fn read_value(text: &str) -> (r: Result<serde_json::Value, String>)
    ensures
        match r {
            Ok(v) => json_parse(text@) matches Ok(x) && x == value_view(v),
            Err(e) => json_parse(text@) matches Err(x) && x == e@,
        },
{
    match serde_json::from_str(text) {
        Ok(v) => Ok(v),
        Err(e) => Err(e.to_string()),
    }
}

/// An object, each of whose members is a text or an unsigned integer.
pub open spec fn flat(v: JsonView) -> bool {
    v matches JsonView::Object(m) && distinct(m) && forall|i: int|
        0 <= i < m.len() ==> match (#[trigger] m[i]).1 {
            JsonView::Text(_) => true,
            JsonView::Number { unsigned: Some(n), text } => text == text::decimal(n as nat),
            _ => false,
        }
}

/// A text reads back as a value, if the value is flat.
pub open spec fn reads_back(text: Seq<char>, v: JsonView) -> bool {
    flat(v) ==> (json_parse(text) matches Ok(back) && back == v)
}

/// If a value is a number, this is the text that writes it.
pub open spec fn writes_number(text: Seq<char>, v: JsonView) -> bool {
    v matches JsonView::Number { text: t, .. } ==> t == text
}

/// No other value is written as this text.
pub open spec fn unambiguous(text: Seq<char>, v: JsonView) -> bool {
    forall|u: serde_json::Value| #[trigger]
        json_text(value_view(u)) == text ==> value_view(u) == v
}

/// A text is what a value is written as, and no other value is.
pub open spec fn tells(text: Seq<char>, v: JsonView) -> bool {
    &&& text == json_text(v)
    &&& exists|u: serde_json::Value| #[trigger] value_view(u) == v
    &&& unambiguous(text, v)
}

/// A text tells one value alone.
pub proof fn law_texts_tell_values_apart(text: Seq<char>, v: JsonView, w: JsonView)
    requires
        tells(text, v),
        tells(text, w),
    ensures
        v == w,
{
    let u = choose|u: serde_json::Value| #[trigger] value_view(u) == w;
    assert(json_text(value_view(u)) == text);
}

/// `Value::to_string` writes a value as JSON. What it writes is a function of
/// what the value holds: for a number, the number's text. `serde_json` reads a
/// flat object of texts and unsigned integers back as it was. Two values that
/// hold different things are written differently: texts stand in quotes with
/// their quotes escaped, integers and other numbers in their own digits, items
/// and members in brackets and in order.
#[verifier::external_body]
fn write_value(v: &serde_json::Value) -> (r: String)
    ensures
        r@ == json_text(value_view(*v)),
        reads_back(r@, value_view(*v)),
        writes_number(r@, value_view(*v)),
        unambiguous(r@, value_view(*v)),
{
    v.to_string()
}

pub proof fn lemma_item_smaller(v: JsonView, s: Seq<JsonView>, i: int)
    requires
        v == JsonView::Array(s),
        0 <= i < s.len(),
    ensures
        decreases_to!(v => s[i]),
{
    assert(decreases_to!(v => v->Array_0));
    assert(decreases_to!(s => s[i]));
}

pub proof fn lemma_member_smaller(v: JsonView, s: Seq<(Seq<char>, JsonView)>, i: int)
    requires
        v == JsonView::Object(s),
        0 <= i < s.len(),
    ensures
        decreases_to!(v => s[i].1),
{
    assert(decreases_to!(v => v->Object_0));
    assert(decreases_to!(s => s[i]));
    assert(decreases_to!(s[i] => s[i].1));
}

/// Turn a `serde_json` value into the library's type.
pub fn json_of(v: serde_json::Value) -> (r: Json)
    ensures
        r@ == value_view(v),
        well_formed(r),
    decreases value_view(v),
{
    match open_value(v) {
        Layer::Null => Json::Null,
        Layer::Bool(b) => Json::Bool(b),
        Layer::Number(n) => Json::Number(n),
        Layer::Text(s) => Json::Text(s),
        Layer::Array(a) => {
            let ghost all = a@;
            let ghost want = all.map_values(|x: serde_json::Value| value_view(x));
            let mut out: Vec<Json> = Vec::new();
            for x in it: a
                invariant
                    it.seq() == all,
                    want == all.map_values(|x: serde_json::Value| value_view(x)),
                    value_view(v) == JsonView::Array(want),
                    out@.len() == it.index(),
                    forall|i: int|
                        0 <= i < it.index() ==> (#[trigger] out@[i])@ == want[i] && well_formed(
                            out@[i],
                        ),
            {
                assert(want[it.index()] == value_view(x));
                proof {
                    lemma_item_smaller(value_view(v), want, it.index());
                }
                let j = json_of(x);
                out.push(j);
            }
            assert(list_view(out@) =~= want);
            Json::Array(out)
        },
        Layer::Object(m) => {
            let ghost all = m@;
            let ghost want = layer_members(all);
            let mut out: Vec<(String, Json)> = Vec::new();
            for p in it: m
                invariant
                    it.seq() == all,
                    want == layer_members(all),
                    value_view(v) == JsonView::Object(want),
                    out@.len() == it.index(),
                    forall|i: int|
                        0 <= i < it.index() ==> (#[trigger] out@[i]).0@ == want[i].0 && out@[i].1@
                            == want[i].1 && well_formed(out@[i].1),
            {
                assert(want[it.index()] == (p.0@, value_view(p.1)));
                proof {
                    lemma_member_smaller(value_view(v), want, it.index());
                }
                let j = json_of(p.1);
                out.push((p.0, j));
            }
            assert(members_view(out@) =~= want);
            Json::Object(out)
        },
    }
}

/// Turn a value into one of `serde_json`.
pub fn value_of(j: Json) -> (r: serde_json::Value)
    requires
        well_formed(j),
    ensures
        value_view(r) == j@,
    decreases j@,
{
    let layer = match j {
        Json::Null => Layer::Null,
        Json::Bool(b) => Layer::Bool(b),
        Json::Number(n) => Layer::Number(n),
        Json::Text(s) => Layer::Text(s),
        Json::Array(a) => {
            let ghost all = a@;
            let mut out: Vec<serde_json::Value> = Vec::new();
            for x in it: a
                invariant
                    it.seq() == all,
                    all == a@,
                    j == Json::Array(a),
                    all_well_formed(all),
                    out@.len() == it.index(),
                    forall|i: int|
                        0 <= i < it.index() ==> value_view(#[trigger] out@[i]) == all[i]@,
            {
                assert(well_formed(all[it.index()]));
                proof {
                    lemma_item_smaller(j@, list_view(all), it.index());
                }
                let v = value_of(x);
                out.push(v);
            }
            assert(out@.map_values(|x: serde_json::Value| value_view(x)) =~= list_view(all));
            Layer::Array(out)
        },
        Json::Object(m) => {
            let ghost all = m@;
            let mut out: Vec<(String, serde_json::Value)> = Vec::new();
            for p in it: m
                invariant
                    it.seq() == all,
                    all == m@,
                    j == Json::Object(m),
                    members_well_formed(all),
                    out@.len() == it.index(),
                    forall|i: int|
                        0 <= i < it.index() ==> (#[trigger] out@[i]).0@ == all[i].0@ && value_view(
                            out@[i].1,
                        ) == all[i].1@,
            {
                assert(well_formed(all[it.index()].1));
                proof {
                    lemma_member_smaller(j@, members_view(all), it.index());
                }
                let v = value_of(p.1);
                out.push((p.0, v));
            }
            assert(layer_members(out@) =~= members_view(all));
            Layer::Object(out)
        },
    };
    close_value(layer)
}

/// Read a JSON text.
pub fn parse(text: &str) -> (r: Result<Json, String>)
    ensures
        match r {
            Ok(j) => json_parse(text@) matches Ok(x) && x == j@ && well_formed(j),
            Err(e) => json_parse(text@) matches Err(x) && x == e@,
        },
{
    match read_value(text) {
        Ok(v) => Ok(json_of(v)),
        Err(e) => Err(e),
    }
}

/// Write a value as JSON.
pub fn print(j: Json) -> (r: String)
    requires
        well_formed(j),
    ensures
        r@ == json_text(j@),
        reads_back(r@, j@),
        tells(r@, j@),
{
    let v = value_of(j);
    let r = write_value(&v);
    assert(value_view(v) == j@);
    r
}

/// The number that an unsigned integer is.
pub open spec fn number(n: u64) -> JsonView {
    JsonView::Number { unsigned: Some(n), text: text::decimal(n as nat) }
}

/// The JSON number of an unsigned integer.
pub fn unsigned_number(n: u64) -> (r: Json)
    ensures
        r@ == number(n),
        well_formed(r),
{
    Json::Number(value_of_unsigned(n))
}

/// The JSON text of a string.
pub fn text_value(s: &str) -> (r: Json)
    ensures
        r@ == JsonView::Text(s@),
        well_formed(r),
{
    Json::Text(s.to_owned())
}

/// The member of an object with a name; in a value that is no object there is
/// none.
pub open spec fn member(v: JsonView, name: Seq<char>) -> Option<JsonView> {
    match v {
        JsonView::Object(m) => member_of(m, name),
        _ => None,
    }
}

pub open spec fn member_of(m: Seq<(Seq<char>, JsonView)>, name: Seq<char>) -> Option<JsonView>
    decreases m.len(),
{
    if m.len() == 0 {
        None
    } else if m[0].0 == name {
        Some(m[0].1)
    } else {
        member_of(m.skip(1), name)
    }
}

/// The item of an array at a position.
pub open spec fn item(v: JsonView, i: int) -> Option<JsonView> {
    match v {
        JsonView::Array(s) => if 0 <= i < s.len() {
            Some(s[i])
        } else {
            None
        },
        _ => None,
    }
}

/// The string that a value is.
pub open spec fn string(v: JsonView) -> Option<Seq<char>> {
    match v {
        JsonView::Text(s) => Some(s),
        _ => None,
    }
}

/// The unsigned integer that a value is.
pub open spec fn unsigned(v: JsonView) -> Option<u64> {
    match v {
        JsonView::Number { unsigned, .. } => unsigned,
        _ => None,
    }
}

/// The text that writes the number which a value is.
pub open spec fn written(v: JsonView) -> Option<Seq<char>> {
    match v {
        JsonView::Number { text, .. } => Some(text),
        _ => None,
    }
}

impl Json {
    /// The member with a name.
    pub fn get<'a>(&'a self, name: &str) -> (r: Option<&'a Json>)
        requires
            well_formed(*self),
        ensures
            match r {
                Some(j) => member(self@, name@) == Some(j@) && well_formed(*j),
                None => member(self@, name@) is None,
            },
    {
        match self {
            Json::Object(m) => {
                let mut i: usize = 0;
                let ghost all = members_view(m@);
                assert(all.skip(0) =~= all);
                while i < m.len()
                    invariant
                        i <= m@.len(),
                        all == members_view(m@),
                        self@ == JsonView::Object(all),
                        members_well_formed(m@),
                        member_of(all, name@) == member_of(all.skip(i as int), name@),
                    decreases m@.len() - i,
                {
                    assert(all.skip(i as int)[0] == (m@[i as int].0@, m@[i as int].1@));
                    assert(all.skip(i as int).skip(1) =~= all.skip(i + 1));
                    assert(well_formed(m@[i as int].1));
                    if text::same(&m[i].0, name) {
                        return Some(&m[i].1);
                    }
                    i += 1;
                }
                None
            },
            Json::Number(n) => {
                assert(value_view(*n) is Number);
                None
            },
            _ => None,
        }
    }

    /// The item at a position.
    pub fn at<'a>(&'a self, i: usize) -> (r: Option<&'a Json>)
        requires
            well_formed(*self),
        ensures
            match r {
                Some(j) => item(self@, i as int) == Some(j@) && well_formed(*j),
                None => item(self@, i as int) is None,
            },
    {
        match self {
            Json::Array(v) => {
                if i < v.len() {
                    assert(well_formed(v@[i as int]));
                    Some(&v[i])
                } else {
                    None
                }
            },
            Json::Number(n) => {
                assert(value_view(*n) is Number);
                None
            },
            _ => None,
        }
    }

    /// The string that this value is.
    pub fn as_str<'a>(&'a self) -> (r: Option<&'a str>)
        requires
            well_formed(*self),
        ensures
            match r {
                Some(s) => string(self@) == Some(s@),
                None => string(self@) is None,
            },
    {
        match self {
            Json::Text(s) => Some(s.as_str()),
            Json::Number(n) => {
                assert(value_view(*n) is Number);
                None
            },
            _ => None,
        }
    }

    /// The text of the number that this value is.
    pub fn number_text(&self) -> (r: Option<String>)
        requires
            well_formed(*self),
        ensures
            text::opt_view(r) == written(self@),
    {
        match self {
            Json::Number(n) => {
                assert(value_view(*n) is Number);
                Some(write_value(n))
            },
            _ => None,
        }
    }

    /// The unsigned integer that this value is.
    pub fn as_u64(&self) -> (r: Option<u64>)
        ensures
            r == unsigned(self@),
    {
        match self {
            Json::Number(n) => value_unsigned(n),
            _ => None,
        }
    }
}

/// A copy of a value.
pub fn copy(j: &Json) -> (r: Json)
    requires
        well_formed(*j),
    ensures
        r@ == j@,
        well_formed(r),
    decreases j@,
{
    match j {
        Json::Null => Json::Null,
        Json::Bool(b) => Json::Bool(*b),
        Json::Number(n) => Json::Number(clone_value(n)),
        Json::Text(s) => Json::Text(s.clone()),
        Json::Array(a) => {
            let mut out: Vec<Json> = Vec::new();
            let mut i: usize = 0;
            while i < a.len()
                invariant
                    i <= a@.len(),
                    *j == Json::Array(*a),
                    all_well_formed(a@),
                    out@.len() == i,
                    forall|k: int|
                        0 <= k < i ==> (#[trigger] out@[k])@ == a@[k]@ && well_formed(out@[k]),
                decreases a@.len() - i,
            {
                assert(well_formed(a@[i as int]));
                proof {
                    lemma_item_smaller(j@, list_view(a@), i as int);
                }
                let c = copy(&a[i]);
                out.push(c);
                i += 1;
            }
            assert(list_view(out@) =~= list_view(a@));
            Json::Array(out)
        },
        Json::Object(m) => {
            let mut out: Vec<(String, Json)> = Vec::new();
            let mut i: usize = 0;
            while i < m.len()
                invariant
                    i <= m@.len(),
                    *j == Json::Object(*m),
                    members_well_formed(m@),
                    out@.len() == i,
                    forall|k: int|
                        0 <= k < i ==> (#[trigger] out@[k]).0@ == m@[k].0@ && out@[k].1@ == m@[k].1@
                            && well_formed(out@[k].1),
                decreases m@.len() - i,
            {
                assert(well_formed(m@[i as int].1));
                proof {
                    lemma_member_smaller(j@, members_view(m@), i as int);
                }
                let c = copy(&m[i].1);
                out.push((m[i].0.clone(), c));
                i += 1;
            }
            assert(members_view(out@) =~= members_view(m@));
            Json::Object(out)
        },
    }
}


/// Members with one of them set: in its place, if there is one with that
/// name, else at the end.
pub open spec fn with_member(m: Seq<(Seq<char>, JsonView)>, name: Seq<char>, v: JsonView) -> Seq<
    (Seq<char>, JsonView),
>
    decreases m.len(),
{
    if m.len() == 0 {
        seq![(name, v)]
    } else if m[0].0 == name {
        seq![(name, v)] + m.skip(1)
    } else {
        seq![m[0]] + with_member(m.skip(1), name, v)
    }
}

/// Members with others set, one after the other.
pub open spec fn merged(m: Seq<(Seq<char>, JsonView)>, extra: Seq<(Seq<char>, JsonView)>) -> Seq<
    (Seq<char>, JsonView),
>
    decreases extra.len(),
{
    if extra.len() == 0 {
        m
    } else {
        let front = merged(m, extra.drop_last());
        with_member(front, extra.last().0, extra.last().1)
    }
}

pub proof fn lemma_with_member(m: Seq<(Seq<char>, JsonView)>, name: Seq<char>, v: JsonView)
    requires
        distinct(m),
    ensures
        distinct(with_member(m, name, v)),
        forall|x: (Seq<char>, JsonView)| #[trigger]
            with_member(m, name, v).contains(x) <==> x == (name, v) || (m.contains(x) && x.0
                != name),
    decreases m.len(),
{
    let w = with_member(m, name, v);
    if m.len() == 0 {
        assert(w[0] == (name, v));
    } else {
        let rest = m.skip(1);
        assert forall|i: int, j: int| 0 <= i < rest.len() && 0 <= j < rest.len() && i != j implies (
        #[trigger] rest[i]).0 != (#[trigger] rest[j]).0 by {
            assert(m[i + 1].0 != m[j + 1].0);
        }
        if m[0].0 == name {
            assert forall|i: int, j: int| 0 <= i < w.len() && 0 <= j < w.len() && i != j implies (
            #[trigger] w[i]).0 != (#[trigger] w[j]).0 by {
                assert(i > 0 ==> w[i] == m[i]);
                assert(j > 0 ==> w[j] == m[j]);
                assert(m[i].0 != m[j].0);
            }
            assert forall|x: (Seq<char>, JsonView)| #[trigger] w.contains(x) <==> x == (name, v)
                || (m.contains(x) && x.0 != name) by {
                if w.contains(x) {
                    let i = choose|i: int| 0 <= i < w.len() && w[i] == x;
                    if i > 0 {
                        assert(m[i] == x);
                        assert(m[0].0 != m[i].0);
                    }
                }
                if x == (name, v) {
                    assert(w[0] == x);
                }
                if m.contains(x) && x.0 != name {
                    let i = choose|i: int| 0 <= i < m.len() && m[i] == x;
                    assert(w[i] == x);
                }
            }
        } else {
            lemma_with_member(rest, name, v);
            let t = with_member(rest, name, v);
            assert(w =~= seq![m[0]] + t);
            assert forall|x: (Seq<char>, JsonView)| #[trigger] rest.contains(x) implies m.contains(
                x,
            ) && x.0 != m[0].0 by {
                let i = choose|i: int| 0 <= i < rest.len() && rest[i] == x;
                assert(m[i + 1] == x);
                assert(m[0].0 != m[i + 1].0);
            }
            assert forall|i: int, j: int| 0 <= i < w.len() && 0 <= j < w.len() && i != j implies (
            #[trigger] w[i]).0 != (#[trigger] w[j]).0 by {
                if i > 0 && j > 0 {
                    assert(w[i] == t[i - 1] && w[j] == t[j - 1]);
                } else {
                    let k = if i > 0 {
                        i
                    } else {
                        j
                    };
                    assert(w[k] == t[k - 1]);
                    assert(t.contains(t[k - 1]));
                }
            }
            assert forall|x: (Seq<char>, JsonView)| #[trigger] w.contains(x) <==> x == (name, v)
                || (m.contains(x) && x.0 != name) by {
                if w.contains(x) {
                    let i = choose|i: int| 0 <= i < w.len() && w[i] == x;
                    if i > 0 {
                        assert(t[i - 1] == x);
                        assert(t.contains(x));
                    } else {
                        assert(m[0] == x);
                    }
                }
                if x == (name, v) || (m.contains(x) && x.0 != name) {
                    if x == m[0] {
                        assert(w[0] == x);
                    } else {
                        if x != (name, v) {
                            let i = choose|i: int| 0 <= i < m.len() && m[i] == x;
                            assert(rest[i - 1] == x);
                        }
                        assert(t.contains(x));
                        let i = choose|i: int| 0 <= i < t.len() && t[i] == x;
                        assert(w[i + 1] == x);
                    }
                }
            }
        }
    }
}

/// A name stands among members.
pub open spec fn names(m: Seq<(Seq<char>, JsonView)>, name: Seq<char>) -> bool {
    exists|i: int| 0 <= i < m.len() && (#[trigger] m[i]).0 == name
}

/// Merging sets all the new members and keeps the others.
pub proof fn lemma_merged(m: Seq<(Seq<char>, JsonView)>, extra: Seq<(Seq<char>, JsonView)>)
    requires
        distinct(m),
        distinct(extra),
    ensures
        distinct(merged(m, extra)),
        forall|x: (Seq<char>, JsonView)| #[trigger]
            merged(m, extra).contains(x) <==> extra.contains(x) || (m.contains(x) && !names(
                extra,
                x.0,
            )),
    decreases extra.len(),
{
    if extra.len() > 0 {
        let front = extra.drop_last();
        let last = extra.last();
        assert forall|i: int, j: int|
            0 <= i < front.len() && 0 <= j < front.len() && i != j implies (#[trigger] front[i]).0
            != (#[trigger] front[j]).0 by {
            assert(extra[i].0 != extra[j].0);
        }
        lemma_merged(m, front);
        lemma_with_member(merged(m, front), last.0, last.1);
        let n = extra.len() - 1;
        assert forall|x: (Seq<char>, JsonView)| #[trigger]
            merged(m, extra).contains(x) <==> extra.contains(x) || (m.contains(x) && !names(
                extra,
                x.0,
            )) by {
            assert(merged(m, extra).contains(x) <==> x == last || (merged(m, front).contains(x)
                && x.0 != last.0));
            assert(names(extra, x.0) <==> names(front, x.0) || x.0 == last.0) by {
                if names(extra, x.0) {
                    let i = choose|i: int| 0 <= i < extra.len() && (#[trigger] extra[i]).0 == x.0;
                    if i < n {
                        assert(front[i].0 == x.0);
                    }
                }
                if names(front, x.0) {
                    let i = choose|i: int| 0 <= i < front.len() && (#[trigger] front[i]).0 == x.0;
                    assert(extra[i].0 == x.0);
                }
                if x.0 == last.0 {
                    assert(extra[n].0 == x.0);
                }
            }
            assert(extra.contains(x) <==> front.contains(x) || x == last) by {
                if extra.contains(x) {
                    let i = choose|i: int| 0 <= i < extra.len() && extra[i] == x;
                    if i < n {
                        assert(front[i] == x);
                    }
                }
                if front.contains(x) {
                    let i = choose|i: int| 0 <= i < front.len() && front[i] == x;
                    assert(extra[i] == x);
                }
                if x == last {
                    assert(extra[n] == x);
                }
            }
            if front.contains(x) {
                let i = choose|i: int| 0 <= i < front.len() && front[i] == x;
                assert(extra[i].0 != extra[n].0);
            }
        }
    } else {
        assert forall|x: (Seq<char>, JsonView)| #[trigger]
            merged(m, extra).contains(x) <==> extra.contains(x) || (m.contains(x) && !names(
                extra,
                x.0,
            )) by {}
    }
}

/// Set a member.
pub fn set_member(m: &mut Vec<(String, Json)>, name: &str, v: Json)
    requires
        well_formed(v),
        members_well_formed(old(m)@),
    ensures
        members_view(final(m)@) == with_member(members_view(old(m)@), name@, v@),
        members_well_formed(final(m)@),
{
    let ghost all = members_view(m@);
    let n: usize = m.len();
    let mut i: usize = 0;
    proof {
        assert(all.skip(0) =~= all);
        assert(all.take(0) =~= Seq::empty());
        assert(Seq::<(Seq<char>, JsonView)>::empty() + with_member(all, name@, v@) =~= with_member(
            all,
            name@,
            v@,
        ));
    }
    while i < n
        invariant
            i <= n,
            n == m@.len(),
            m@ == old(m)@,
            all == members_view(m@),
            well_formed(v),
            members_well_formed(m@),
            with_member(all, name@, v@) == all.take(i as int) + with_member(
                all.skip(i as int),
                name@,
                v@,
            ),
        decreases n - i,
    {
        assert(all.skip(i as int)[0] == (m@[i as int].0@, m@[i as int].1@));
        assert(all.skip(i as int).skip(1) =~= all.skip(i + 1));
        if text::same(&m[i].0, name) {
            let ghost q = (m@[i as int].0@, v@);
            let key = m[i].0.clone();
            let ghost fresh = (key, v);
            m.set(i, (key, v));
            proof {
                assert(members_view(m@) =~= all.update(i as int, q));
                assert(all.update(i as int, q) =~= all.take(i as int) + (seq![q] + all.skip(i + 1)));
                assert forall|k: int| 0 <= k < m@.len() implies well_formed(
                    (#[trigger] m@[k]).1,
                ) by {
                    if k != i {
                        assert(m@[k] == old(m)@[k]);
                    }
                }
            }
            return ;
        }
        proof {
            let rest = with_member(all.skip(i + 1), name@, v@);
            assert(all.take(i + 1) =~= all.take(i as int).push(all[i as int]));
            assert(all.take(i as int) + (seq![all[i as int]] + rest) =~= all.take(i + 1) + rest);
        }
        i += 1;
    }
    let key = name.to_owned();
    m.push((key, v));
    proof {
        assert(all.skip(n as int).len() == 0);
        assert(all.take(n as int) =~= all);
        assert(members_view(m@) =~= all + seq![(name@, v@)]);
        assert forall|k: int| 0 <= k < m@.len() implies well_formed((#[trigger] m@[k]).1) by {
            if k < n {
                assert(m@[k] == old(m)@[k]);
            }
        }
    }
}

/// Set members, one after the other.
pub fn merge(m: &mut Vec<(String, Json)>, extra: &Vec<(String, Json)>)
    requires
        members_well_formed(old(m)@),
        members_well_formed(extra@),
    ensures
        members_view(final(m)@) == merged(members_view(old(m)@), members_view(extra@)),
        members_well_formed(final(m)@),
{
    let ghost start = members_view(m@);
    let ghost all = members_view(extra@);
    let mut i: usize = 0;
    assert(all.take(0) =~= Seq::empty());
    while i < extra.len()
        invariant
            i <= extra@.len(),
            members_well_formed(m@),
            members_well_formed(extra@),
            all == members_view(extra@),
            start == members_view(old(m)@),
            members_view(m@) == merged(start, all.take(i as int)),
        decreases extra@.len() - i,
    {
        assert(well_formed(extra@[i as int].1));
        proof {
            assert(all.take(i + 1).drop_last() =~= all.take(i as int));
            assert(all.take(i + 1).last() == all[i as int]);
        }
        let v = copy(&extra[i].1);
        set_member(m, &extra[i].0, v);
        i += 1;
    }
    assert(all.take(i as int) =~= all);
}


/// Append copies of members.
pub fn copy_members(out: &mut Vec<(String, Json)>, m: &Vec<(String, Json)>)
    requires
        members_well_formed(old(out)@),
        members_well_formed(m@),
    ensures
        members_view(final(out)@) == members_view(old(out)@) + members_view(m@),
        members_well_formed(final(out)@),
{
    let ghost start = members_view(out@);
    let ghost all = members_view(m@);
    let mut i: usize = 0;
    assert(all.take(0) =~= Seq::empty());
    assert(start + Seq::<(Seq<char>, JsonView)>::empty() =~= start);
    while i < m.len()
        invariant
            i <= m@.len(),
            all == members_view(m@),
            members_well_formed(m@),
            members_well_formed(out@),
            members_view(out@) == start + all.take(i as int),
        decreases m@.len() - i,
    {
        assert(well_formed(m@[i as int].1));
        let ghost was = out@;
        let v = copy(&m[i].1);
        out.push((m[i].0.clone(), v));
        proof {
            assert(members_view(out@) =~= members_view(was).push(all[i as int]));
            assert(all.take(i + 1) =~= all.take(i as int).push(all[i as int]));
            assert(start + all.take(i as int).push(all[i as int]) =~= (start + all.take(
                i as int,
            )).push(all[i as int]));
            assert forall|k: int| 0 <= k < out@.len() implies well_formed((#[trigger] out@[k]).1) by {
                if k < was.len() {
                    assert(out@[k] == was[k]);
                }
            }
        }
        i += 1;
    }
    assert(all.take(i as int) =~= all);
}

} // verus!
