//! JSON values as plain data, and the bridge to the `serde_json` crate.

use vstd::prelude::*;

verus! {

/// What a JSON value holds.
pub enum JsonView {
    Null,
    Bool(bool),
    Unsigned(u64),
    Negative(i64),
    Single(u32),
    Double(u64),
    Text(Seq<char>),
    List(Seq<JsonView>),
    Object(Seq<(Seq<char>, JsonView)>),
}

/// One JSON value.
pub enum Json {
    Null,
    Bool(bool),
    /// An integer that is not negative.
    Unsigned(u64),
    /// An integer below zero.
    Negative(i64),
    /// The bits of a finite 32-bit floating-point number.
    Single(u32),
    /// The bits of a finite 64-bit floating-point number.
    Double(u64),
    Text(String),
    List(Vec<Json>),
    /// Named values, in the order of their names.
    Object(Vec<(String, Json)>),
}

/// What a JSON value holds.
pub open spec fn json_view(j: Json) -> JsonView
    decreases j,
{
    match j {
        Json::Null => JsonView::Null,
        Json::Bool(b) => JsonView::Bool(b),
        Json::Unsigned(v) => JsonView::Unsigned(v),
        Json::Negative(v) => JsonView::Negative(v),
        Json::Single(v) => JsonView::Single(v),
        Json::Double(v) => JsonView::Double(v),
        Json::Text(s) => JsonView::Text(s@),
        Json::List(l) => JsonView::List(json_list_view(l@)),
        Json::Object(o) => JsonView::Object(json_object_view(o@)),
    }
}

/// What the elements of a JSON list hold.
pub open spec fn json_list_view(l: Seq<Json>) -> Seq<JsonView>
    decreases l,
{
    Seq::new(
        l.len(),
        |i: int|
            if 0 <= i < l.len() {
                json_view(l[i])
            } else {
                JsonView::Null
            },
    )
}

/// What the entries of a JSON object hold.
pub open spec fn json_object_view(o: Seq<(String, Json)>) -> Seq<(Seq<char>, JsonView)>
    decreases o,
{
    Seq::new(
        o.len(),
        |i: int|
            if 0 <= i < o.len() {
                (o[i].0@, json_view(o[i].1))
            } else {
                (Seq::empty(), JsonView::Null)
            },
    )
}

impl View for Json {
    type V = JsonView;

    open spec fn view(&self) -> JsonView {
        json_view(*self)
    }
}

/// The value that an object has under a name: that of the first entry with the name.
pub open spec fn field(o: Seq<(Seq<char>, JsonView)>, name: Seq<char>) -> Option<JsonView>
    decreases o.len(),
{
    if o.len() == 0 {
        None
    } else if o[0].0 == name {
        Some(o[0].1)
    } else {
        field(o.skip(1), name)
    }
}

/// The value that a JSON value has under a name, which only an object can have.
pub open spec fn member(j: JsonView, name: Seq<char>) -> Option<JsonView> {
    match j {
        JsonView::Object(o) => field(o, name),
        _ => None,
    }
}

/// The text in an optional JSON value.
pub open spec fn as_text(j: Option<JsonView>) -> Option<Seq<char>> {
    match j {
        Some(JsonView::Text(s)) => Some(s),
        _ => None,
    }
}

/// The list in an optional JSON value.
pub open spec fn as_list(j: Option<JsonView>) -> Option<Seq<JsonView>> {
    match j {
        Some(JsonView::List(l)) => Some(l),
        _ => None,
    }
}

/// The integer in an optional JSON value, where it is not negative.
pub open spec fn as_u64(j: Option<JsonView>) -> Option<u64> {
    match j {
        Some(JsonView::Unsigned(v)) => Some(v),
        _ => None,
    }
}

/// The integer in an optional JSON value, where it fits in 64 bits with a sign.
pub open spec fn as_i64(j: Option<JsonView>) -> Option<i64> {
    match j {
        Some(JsonView::Unsigned(v)) => if v <= i64::MAX {
            Some(v as i64)
        } else {
            None
        },
        Some(JsonView::Negative(v)) => Some(v),
        _ => None,
    }
}

impl Json {
    /// The value under a name, which only an object can have.
    pub fn get(&self, name: &str) -> (r: Option<&Json>)
        ensures
            match r {
                Some(j) => member(self@, name@) == Some(j@),
                None => member(self@, name@) is None,
            },
    {
        match self {
            Json::Object(o) => {
                let ghost all = json_object_view(o@);
                let wanted: String = name.to_owned();
                let mut i: usize = 0;
                assert(all.skip(0) =~= all);
                while i < o.len()
                    invariant
                        *self == Json::Object(*o),
                        all == json_object_view(o@),
                        wanted@ == name@,
                        i <= o@.len(),
                        field(all, name@) == field(all.skip(i as int), name@),
                    decreases o@.len() - i,
                {
                    assert(all.skip(i as int)[0] == all[i as int]);
                    assert(all.skip(i as int).skip(1) =~= all.skip(i + 1));
                    if o[i].0 == wanted {
                        return Some(&o[i].1);
                    }
                    i += 1;
                }
                None
            },
            _ => None,
        }
    }

    /// The text under a name.
    pub fn get_text(&self, name: &str) -> (r: Option<&String>)
        ensures
            match r {
                Some(s) => as_text(member(self@, name@)) == Some(s@),
                None => as_text(member(self@, name@)) is None,
            },
    {
        match self.get(name) {
            Some(Json::Text(s)) => Some(s),
            _ => None,
        }
    }

    /// The list under a name.
    pub fn get_list(&self, name: &str) -> (r: Option<&Vec<Json>>)
        ensures
            match r {
                Some(l) => as_list(member(self@, name@)) == Some(json_list_view(l@)),
                None => as_list(member(self@, name@)) is None,
            },
    {
        match self.get(name) {
            Some(Json::List(l)) => Some(l),
            _ => None,
        }
    }

    /// The integer under a name, where it is not negative.
    pub fn get_u64(&self, name: &str) -> (r: Option<u64>)
        ensures
            r == as_u64(member(self@, name@)),
    {
        match self.get(name) {
            Some(Json::Unsigned(v)) => Some(*v),
            _ => None,
        }
    }

    /// The integer under a name, where it fits in 64 bits with a sign.
    pub fn get_i64(&self, name: &str) -> (r: Option<i64>)
        ensures
            r == as_i64(member(self@, name@)),
    {
        match self.get(name) {
            Some(j) => j.integer(),
            None => None,
        }
    }

    /// The integer in the value, where it fits in 64 bits with a sign.
    pub fn integer(&self) -> (r: Option<i64>)
        ensures
            r == as_i64(Some(self@)),
    {
        match self {
            Json::Unsigned(v) => if *v <= i64::MAX as u64 {
                Some(*v as i64)
            } else {
                None
            },
            Json::Negative(v) => Some(*v),
            _ => None,
        }
    }
}

/// Whether two texts first differ at an index, in favour of the first.
pub open spec fn text_differs_at(a: Seq<char>, b: Seq<char>, i: int) -> bool {
    &&& 0 <= i <= a.len()
    &&& i < b.len()
    &&& a.take(i) == b.take(i)
    &&& i < a.len() ==> (a[i] as u32) < (b[i] as u32)
}

/// Whether one text comes before another in the order of their code points.
pub open spec fn text_before(a: Seq<char>, b: Seq<char>) -> bool {
    exists|i: int| text_differs_at(a, b, i)
}

/// Whether names stand in ascending order.
pub open spec fn ascending_names(names: Seq<Seq<char>>) -> bool {
    forall|i: int| 0 <= i < names.len() - 1 ==> text_before(#[trigger] names[i], names[i + 1])
}

/// Whether a value is made of the kinds of value that a document of the library holds, nested no
/// deeper than the given depth: no fractions, and named values in the order of their names.
pub open spec fn is_document(t: JsonView, depth: nat) -> bool
    decreases depth,
{
    match t {
        JsonView::Single(_) => false,
        JsonView::Double(_) => false,
        JsonView::Negative(v) => v < 0,
        JsonView::List(l) => {
            &&& depth > 0
            &&& forall|i: int|
                0 <= i < l.len() ==> is_document(#[trigger] l[i], (depth - 1) as nat)
        },
        JsonView::Object(o) => {
            &&& depth > 0
            &&& ascending_names(o.map_values(|e: (Seq<char>, JsonView)| e.0))
            &&& forall|i: int|
                0 <= i < o.len() ==> is_document((#[trigger] o[i]).1, (depth - 1) as nat)
        },
        _ => true,
    }
}

/// A JSON value of the `serde_json` crate.
#[verifier::external_type_specification]
#[verifier::external_body]
pub struct ExValue(serde_json::Value);

/// What a `serde_json` value holds. The entries of an object stand in the order of their names.
pub uninterp spec fn value_tree(v: serde_json::Value) -> JsonView;

/// What `serde_json::from_str` makes of a text: a value, or the text of an error.
pub uninterp spec fn json_text(text: Seq<char>) -> Result<JsonView, Seq<char>>;

/// What `serde_json::to_string_pretty` makes of a value: a text, or the text of an error.
pub uninterp spec fn pretty_text(tree: JsonView) -> Result<Seq<char>, Seq<char>>;

/// Whether a text reads as a value.
pub open spec fn reads_as(text: Seq<char>, tree: JsonView) -> bool {
    json_text(text) == Ok::<JsonView, Seq<char>>(tree)
}

/// One level of a `serde_json` value.
pub enum ValueParts {
    Null,
    Bool(bool),
    Unsigned(u64),
    Negative(i64),
    Double(u64),
    Text(String),
    List(Vec<serde_json::Value>),
    Object(Vec<(String, serde_json::Value)>),
}

/// What the elements of a list of `serde_json` values hold.
pub open spec fn value_trees(l: Seq<serde_json::Value>) -> Seq<JsonView> {
    Seq::new(l.len(), |i: int| value_tree(l[i]))
}

/// What named `serde_json` values hold.
pub open spec fn field_trees(o: Seq<(String, serde_json::Value)>) -> Seq<(Seq<char>, JsonView)> {
    Seq::new(o.len(), |i: int| (o[i].0@, value_tree(o[i].1)))
}

/// What one level of a `serde_json` value holds.
pub open spec fn parts_tree(p: ValueParts) -> JsonView {
    match p {
        ValueParts::Null => JsonView::Null,
        ValueParts::Bool(b) => JsonView::Bool(b),
        ValueParts::Unsigned(v) => JsonView::Unsigned(v),
        ValueParts::Negative(v) => JsonView::Negative(v),
        ValueParts::Double(v) => JsonView::Double(v),
        ValueParts::Text(s) => JsonView::Text(s@),
        ValueParts::List(l) => JsonView::List(value_trees(l@)),
        ValueParts::Object(o) => JsonView::Object(field_trees(o@)),
    }
}

/// Takes a `serde_json::Value` apart by its variants; `Number::as_u64`, `as_i64` and `as_f64`
/// tell the kinds of number apart. The map of an object hands its entries out in the order of
/// their names.
#[verifier::external_body]
pub(crate) fn open_value(v: serde_json::Value) -> (r: ValueParts)
    ensures
        parts_tree(r) == value_tree(v),
{
    match v {
        serde_json::Value::Null => ValueParts::Null,
        serde_json::Value::Bool(b) => ValueParts::Bool(b),
        serde_json::Value::Number(n) => match (n.as_u64(), n.as_i64()) {
            (Some(u), _) => ValueParts::Unsigned(u),
            (None, Some(i)) => ValueParts::Negative(i),
            (None, None) => ValueParts::Double(n.as_f64().unwrap_or_default().to_bits()),
        },
        serde_json::Value::String(s) => ValueParts::Text(s),
        serde_json::Value::Array(a) => ValueParts::List(a),
        serde_json::Value::Object(m) => ValueParts::Object(m.into_iter().collect()),
    }
}

/// Puts a `serde_json::Value` together from its variants. Its map keeps entries in the order of
/// their names, so entries that come in that order stay as they are. Fractions are left out.
#[verifier::external_body]
pub(crate) fn build_value(p: ValueParts) -> (r: serde_json::Value)
    requires
        !(p is Double),
        p matches ValueParts::Negative(v) ==> v < 0,
        p matches ValueParts::Object(o) ==> ascending_names(
            o@.map_values(|e: (String, serde_json::Value)| e.0@),
        ),
    ensures
        value_tree(r) == parts_tree(p),
{
    match p {
        ValueParts::Null | ValueParts::Double(_) => serde_json::Value::Null,
        ValueParts::Bool(b) => serde_json::Value::Bool(b),
        ValueParts::Unsigned(v) => serde_json::Value::from(v),
        ValueParts::Negative(v) => serde_json::Value::from(v),
        ValueParts::Text(s) => serde_json::Value::String(s),
        ValueParts::List(l) => serde_json::Value::Array(l),
        ValueParts::Object(o) => serde_json::Value::Object(o.into_iter().collect()),
    }
}

/// `serde_json::from_str` to a `serde_json::Value`, with an error as its text.
#[verifier::external_body]
pub(crate) fn value_from_text(text: &str) -> (r: Result<serde_json::Value, String>)
    ensures
        match r {
            Ok(v) => json_text(text@) == Ok::<JsonView, Seq<char>>(value_tree(v)),
            Err(e) => json_text(text@) == Err::<JsonView, Seq<char>>(e@),
        },
{
    serde_json::from_str(text).map_err(|e: serde_json::Error| e.to_string())
}

/// `serde_json::to_string_pretty` on a `serde_json::Value`, with an error as its text. A
/// document is written, and `serde_json::from_str` reads the text back to the same value: it
/// follows nesting far deeper than the depth stated here.
#[verifier::external_body]
pub(crate) fn value_to_text(v: &serde_json::Value) -> (r: Result<String, String>)
    ensures
        match r {
            Ok(s) => pretty_text(value_tree(*v)) == Ok::<Seq<char>, Seq<char>>(s@),
            Err(e) => pretty_text(value_tree(*v)) == Err::<Seq<char>, Seq<char>>(e@),
        },
        is_document(value_tree(*v), 100) ==> r is Ok && reads_as(r->Ok_0@, value_tree(*v)),
{
    serde_json::to_string_pretty(v).map_err(|e: serde_json::Error| e.to_string())
}

/// The library's form of a `serde_json` value.
fn from_value(v: serde_json::Value) -> (r: Json)
    ensures
        r@ == value_tree(v),
    decreases value_tree(v),
{
    let ghost tree = value_tree(v);
    match open_value(v) {
        ValueParts::Null => Json::Null,
        ValueParts::Bool(b) => Json::Bool(b),
        ValueParts::Unsigned(u) => Json::Unsigned(u),
        ValueParts::Negative(i) => Json::Negative(i),
        ValueParts::Double(d) => Json::Double(d),
        ValueParts::Text(s) => Json::Text(s),
        ValueParts::List(l) => {
            let mut out: Vec<Json> = Vec::new();
            let ghost all = l@;
            for x in it: l.into_iter()
                invariant
                    it.seq() == all,
                    out@.len() == it.index(),
                    tree == value_tree(v),
                    tree == JsonView::List(value_trees(all)),
                    forall|k: int| 0 <= k < out@.len() ==> (#[trigger] out@[k])@ == value_tree(all[k]),
            {
                assert(value_trees(all)[it.index() as int] == value_tree(x));
                assert(decreases_to!(tree => tree->List_0));
                assert(decreases_to!(tree->List_0 => value_tree(x)));
                out.push(from_value(x));
            }
            assert(json_list_view(out@) =~= value_trees(all));
            Json::List(out)
        },
        ValueParts::Object(o) => {
            let mut out: Vec<(String, Json)> = Vec::new();
            let ghost all = o@;
            for x in it: o.into_iter()
                invariant
                    it.seq() == all,
                    out@.len() == it.index(),
                    tree == value_tree(v),
                    tree == JsonView::Object(field_trees(all)),
                    forall|k: int|
                        0 <= k < out@.len() ==> (#[trigger] out@[k]).0@ == all[k].0@ && out@[k].1@
                            == value_tree(all[k].1),
            {
                assert(field_trees(all)[it.index() as int].1 == value_tree(x.1));
                assert(decreases_to!(tree => tree->Object_0));
                assert(decreases_to!(tree->Object_0 => field_trees(all)[it.index() as int]));
                assert(decreases_to!(field_trees(all)[it.index() as int] => value_tree(x.1)));
                let (name, value) = x;
                out.push((name, from_value(value)));
            }
            assert(json_object_view(out@) =~= field_trees(all));
            Json::Object(out)
        },
    }
}

/// The `serde_json` form of a document.
fn to_value(j: Json, Ghost(depth): Ghost<nat>) -> (r: serde_json::Value)
    requires
        is_document(j@, depth),
    ensures
        value_tree(r) == j@,
    decreases j@,
{
    let ghost tree = j@;
    match j {
        Json::Null => build_value(ValueParts::Null),
        Json::Bool(b) => build_value(ValueParts::Bool(b)),
        Json::Unsigned(v) => build_value(ValueParts::Unsigned(v)),
        Json::Negative(v) => build_value(ValueParts::Negative(v)),
        Json::Single(_) => build_value(ValueParts::Null),
        Json::Double(_) => build_value(ValueParts::Null),
        Json::Text(s) => build_value(ValueParts::Text(s)),
        Json::List(l) => {
            let mut out: Vec<serde_json::Value> = Vec::new();
            let ghost all = l@;
            let ghost whole = json_list_view(all);
            for x in it: l.into_iter()
                invariant
                    it.seq() == all,
                    out@.len() == it.index(),
                    tree == j@,
                    tree == JsonView::List(whole),
                    whole == json_list_view(all),
                    is_document(tree, depth),
                    forall|k: int| 0 <= k < out@.len() ==> value_tree(#[trigger] out@[k]) == all[k]@,
            {
                let ghost i = it.index() as int;
                assert(x@ == whole[i]);
                assert(0 <= i < whole.len());
                assert(is_document((tree->List_0)[i], (depth - 1) as nat));
                assert(decreases_to!(tree => tree->List_0));
                assert(decreases_to!(tree->List_0 => x@));
                out.push(to_value(x, Ghost((depth - 1) as nat)));
            }
            assert(value_trees(out@) =~= whole);
            build_value(ValueParts::List(out))
        },
        Json::Object(o) => {
            let mut out: Vec<(String, serde_json::Value)> = Vec::new();
            let ghost all = o@;
            let ghost whole = json_object_view(all);
            for x in it: o.into_iter()
                invariant
                    it.seq() == all,
                    out@.len() == it.index(),
                    tree == j@,
                    tree == JsonView::Object(whole),
                    whole == json_object_view(all),
                    is_document(tree, depth),
                    forall|k: int|
                        0 <= k < out@.len() ==> (#[trigger] out@[k]).0@ == all[k].0@ && value_tree(
                            out@[k].1,
                        ) == all[k].1@,
            {
                let ghost i = it.index() as int;
                assert(x.1@ == whole[i].1);
                assert(is_document(whole[i].1, (depth - 1) as nat));
                assert(decreases_to!(tree => tree->Object_0));
                assert(decreases_to!(tree->Object_0 => whole[i]));
                assert(decreases_to!(whole[i] => x.1@));
                let (name, value) = x;
                out.push((name, to_value(value, Ghost((depth - 1) as nat))));
            }
            assert(field_trees(out@) =~= whole);
            assert(out@.map_values(|e: (String, serde_json::Value)| e.0@) =~= whole.map_values(
                |e: (Seq<char>, JsonView)| e.0,
            ));
            build_value(ValueParts::Object(out))
        },
    }
}

/// What a text holds as JSON: a value, or the text of an error.
pub fn parse_json(text: &str) -> (r: Result<Json, String>)
    ensures
        match r {
            Ok(j) => json_text(text@) == Ok::<JsonView, Seq<char>>(j@),
            Err(e) => json_text(text@) == Err::<JsonView, Seq<char>>(e@),
        },
{
    match value_from_text(text) {
        Ok(v) => Ok(from_value(v)),
        Err(e) => Err(e),
    }
}

/// The text of a document, indented. It reads as the document.
pub fn render_json(document: Json) -> (r: Result<String, String>)
    requires
        is_document(document@, 100),
    ensures
        match r {
            Ok(s) => pretty_text(document@) == Ok::<Seq<char>, Seq<char>>(s@) && reads_as(
                s@,
                document@,
            ),
            Err(_) => false,
        },
{
    value_to_text(&to_value(document, Ghost(100)))
}

/// What an object has under a name is what its first entry with the name holds, and nothing where
/// no entry has the name.
pub proof fn law_field(o: Seq<(Seq<char>, JsonView)>, name: Seq<char>)
    ensures
        match field(o, name) {
            Some(t) => exists|i: int|
                0 <= i < o.len() && #[trigger] o[i] == (name, t) && forall|j: int|
                    0 <= j < i ==> (#[trigger] o[j]).0 != name,
            None => forall|j: int| 0 <= j < o.len() ==> (#[trigger] o[j]).0 != name,
        },
    decreases o.len(),
{
    if o.len() > 0 {
        let rest = o.skip(1);
        law_field(rest, name);
        assert(forall|j: int| 0 < j < o.len() ==> #[trigger] o[j] == rest[j - 1]);
        if o[0].0 == name {
            assert(o[0] == (name, o[0].1));
        } else if let Some(t) = field(rest, name) {
            let i = choose|i: int|
                0 <= i < rest.len() && #[trigger] rest[i] == (name, t) && forall|j: int|
                    0 <= j < i ==> (#[trigger] rest[j]).0 != name;
            assert(o[i + 1] == (name, t));
        }
    }
}

/// The integers of JSON: a number from zero up is also one without a sign, a negative one is not, and
/// nothing else is an integer.
pub proof fn law_integers(u: u64, v: i64, j: JsonView)
    ensures
        as_u64(Some(JsonView::Unsigned(u))) == Some(u),
        as_u64(Some(JsonView::Negative(v))) is None,
        u <= i64::MAX ==> as_i64(Some(JsonView::Unsigned(u))) == Some(u as i64),
        u > i64::MAX ==> as_i64(Some(JsonView::Unsigned(u))) is None,
        as_i64(Some(JsonView::Negative(v))) == Some(v),
        !(j is Unsigned) && !(j is Negative) ==> as_i64(Some(j)) is None && as_u64(Some(j)) is None,
        as_i64(None) is None && as_u64(None) is None,
{
}

} // verus!
