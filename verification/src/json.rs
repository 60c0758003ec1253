//! JSON documents, as plain values.
use serde_json::Value;
use vstd::prelude::*;

verus! {

/// A value of `serde_json`.
#[verifier::external_type_specification]
#[verifier::external_body]
pub struct ExValue(Value);

/// A JSON value.
pub enum Json {
    Null,
    Flag(bool),
    /// A number, and its value where it is a non-negative integer of 64 bits.
    Number(Option<u64>),
    Text(Seq<char>),
    List(Seq<Json>),
    Object(Seq<(Seq<char>, Json)>),
}

/// The members of an object, as values.
pub type Members = Seq<(Seq<char>, Json)>;

/// The members of a document that is an object; none where it is anything else.
pub open spec fn members_of(doc: Json) -> Members {
    match doc {
        Json::Object(members) => members,
        _ => Seq::empty(),
    }
}

/// A JSON value, held.
#[derive(Debug)]
pub enum JsonField {
    Null,
    Flag(bool),
    /// A number, and its value where it is a non-negative integer of 64 bits.
    Number(Option<u64>),
    Text(String),
    List(Vec<JsonField>),
    Object(JsonObject),
}

/// The members of an object, held.
#[derive(Debug)]
pub struct JsonObject {
    pub members: Vec<(String, JsonField)>,
}

impl JsonField {
    /// The value that is held.
    pub open spec fn value(&self) -> Json
        decreases self,
    {
        match self {
            JsonField::Null => Json::Null,
            JsonField::Flag(b) => Json::Flag(*b),
            JsonField::Number(n) => Json::Number(*n),
            JsonField::Text(s) => Json::Text(s@),
            JsonField::List(l) => Json::List(
                Seq::new(
                    l@.len(),
                    |i: int|
                        if 0 <= i < l@.len() {
                            l@[i].value()
                        } else {
                            Json::Null
                        },
                ),
            ),
            JsonField::Object(o) => Json::Object(
                Seq::new(
                    o.members@.len(),
                    |i: int|
                        if 0 <= i < o.members@.len() {
                            (o.members@[i].0@, o.members@[i].1.value())
                        } else {
                            (Seq::empty(), Json::Null)
                        },
                ),
            ),
        }
    }
}

/// The values that fields hold.
pub open spec fn values(fields: Seq<JsonField>) -> Seq<Json> {
    Seq::new(fields.len(), |i: int| fields[i]@)
}

impl View for JsonField {
    type V = Json;

    open spec fn view(&self) -> Json {
        self.value()
    }
}

impl View for JsonObject {
    type V = Members;

    open spec fn view(&self) -> Members {
        Seq::new(
            self.members@.len(),
            |i: int| (self.members@[i].0@, self.members@[i].1@),
        )
    }
}

/// The first member called `key`.
pub open spec fn member(members: Members, key: Seq<char>) -> Option<Json>
    decreases members.len(),
{
    if members.len() == 0 {
        None
    } else if members[0].0 == key {
        Some(members[0].1)
    } else {
        member(members.drop_first(), key)
    }
}

/// The member called `key`, where it is a non-negative integer.
pub open spec fn uint_of(members: Members, key: Seq<char>) -> Option<u64> {
    match member(members, key) {
        Some(Json::Number(n)) => n,
        _ => None,
    }
}

/// The member called `key`, where it is text.
pub open spec fn text_of(members: Members, key: Seq<char>) -> Option<Seq<char>> {
    match member(members, key) {
        Some(Json::Text(s)) => Some(s),
        _ => None,
    }
}

/// The member called `key`, where it is true or false.
pub open spec fn flag_of(members: Members, key: Seq<char>) -> Option<bool> {
    match member(members, key) {
        Some(Json::Flag(b)) => Some(b),
        _ => None,
    }
}

/// The member called `key`, where it is a list.
pub open spec fn list_of(members: Members, key: Seq<char>) -> Option<Seq<Json>> {
    match member(members, key) {
        Some(Json::List(l)) => Some(l),
        _ => None,
    }
}

/// What a `serde_json::Value` holds.
pub uninterp spec fn json_tree(v: Value) -> Json;

/// What `serde_json::from_str` makes of a text: the document, or why it is none.
pub uninterp spec fn json_of_text(text: Seq<char>) -> std::result::Result<Json, Seq<char>>;

/// What `serde_json::from_slice` makes of bytes: the document, or why it is none.
pub uninterp spec fn json_of_bytes(bytes: Seq<u8>) -> std::result::Result<Json, Seq<char>>;

/// A `serde_json::Value` with what stands directly in it.
pub enum Node<'a> {
    Null,
    Flag(bool),
    Number(Option<u64>),
    Text(&'a str),
    List(Vec<&'a Value>),
    Object(Vec<(&'a str, &'a Value)>),
}

impl<'a> Node<'a> {
    /// The value that the node is the top of.
    pub open spec fn tree(&self) -> Json {
        match self {
            Node::Null => Json::Null,
            Node::Flag(b) => Json::Flag(*b),
            Node::Number(n) => Json::Number(*n),
            Node::Text(s) => Json::Text(s@),
            Node::List(l) => Json::List(Seq::new(l@.len(), |i: int| json_tree(*l@[i]))),
            Node::Object(o) => Json::Object(
                Seq::new(o@.len(), |i: int| (o@[i].0@, json_tree(*o@[i].1))),
            ),
        }
    }
}

/// The variant of a `serde_json::Value`, with the entries of an array and the
/// members of an object in their order. A number is taken by
/// `serde_json::Number::as_u64`. Claimed is that these are what the value holds.
#[verifier::external_body]
fn node_of(v: &Value) -> (r: Node<'_>)
    ensures
        r.tree() == json_tree(*v),
{
    match v {
        Value::Null => Node::Null,
        Value::Bool(b) => Node::Flag(*b),
        Value::Number(n) => Node::Number(n.as_u64()),
        Value::String(s) => Node::Text(s),
        Value::Array(a) => Node::List(a.iter().collect()),
        Value::Object(o) => Node::Object(o.iter().map(|(k, x)| (k.as_str(), x)).collect()),
    }
}

/// `serde_json::from_str` into a `serde_json::Value`, or the wording of the
/// error. Claimed is that the outcome depends on the text alone.
#[verifier::external_body]
fn value_of_text(text: &str) -> (r: std::result::Result<Value, String>)
    ensures
        match r {
            Ok(v) => json_of_text(text@) == Ok::<Json, Seq<char>>(json_tree(v)),
            Err(e) => json_of_text(text@) == Err::<Json, Seq<char>>(e@),
        },
{
    serde_json::from_str(text).map_err(|e| e.to_string())
}

/// `serde_json::from_slice` into a `serde_json::Value`, or the wording of the
/// error. Claimed is that the outcome depends on the bytes alone.
#[verifier::external_body]
pub(crate) fn value_of_bytes(bytes: &[u8]) -> (r: std::result::Result<Value, String>)
    ensures
        match r {
            Ok(v) => json_of_bytes(bytes@) == Ok::<Json, Seq<char>>(json_tree(v)),
            Err(e) => json_of_bytes(bytes@) == Err::<Json, Seq<char>>(e@),
        },
{
    serde_json::from_slice(bytes).map_err(|e| e.to_string())
}

/// What a `serde_json::Value` holds, as a value of its own.
pub(crate) fn hold(v: &Value) -> (r: JsonField)
    ensures
        r@ == json_tree(*v),
    decreases json_tree(*v),
{
    match node_of(v) {
        Node::Null => JsonField::Null,
        Node::Flag(b) => JsonField::Flag(b),
        Node::Number(n) => JsonField::Number(n),
        Node::Text(s) => JsonField::Text(String::from_str(s)),
        Node::List(l) => {
            let mut held: Vec<JsonField> = Vec::with_capacity(l.len());
            for i in 0..l.len()
                invariant
                    json_tree(*v) == Node::List(l).tree(),
                    held@.len() == i,
                    forall|j: int| 0 <= j < i ==> (#[trigger] held@[j])@ == json_tree(*l@[j]),
            {
                assert(json_tree(*v)->List_0[i as int] == json_tree(*l@[i as int]));
                held.push(hold(l[i]));
            }
            let r = JsonField::List(held);
            assert(r@->List_0 =~= json_tree(*v)->List_0);
            r
        },
        Node::Object(o) => {
            let mut held: Vec<(String, JsonField)> = Vec::with_capacity(o.len());
            for i in 0..o.len()
                invariant
                    json_tree(*v) == Node::Object(o).tree(),
                    held@.len() == i,
                    forall|j: int|
                        0 <= j < i ==> (#[trigger] held@[j]).0@ == o@[j].0@ && held@[j].1@
                            == json_tree(*o@[j].1),
            {
                let ghost entry = json_tree(*v)->Object_0[i as int];
                assert(entry == (o@[i as int].0@, json_tree(*o@[i as int].1)));
                assert(decreases_to!(entry => entry.1));
                held.push((String::from_str(o[i].0), hold(o[i].1)));
            }
            let r = JsonField::Object(JsonObject { members: held });
            assert(r@->Object_0 =~= json_tree(*v)->Object_0);
            r
        },
    }
}

/// The members of a document.
fn top(doc: JsonField) -> (r: JsonObject)
    ensures
        r@ == members_of(doc@),
{
    match doc {
        JsonField::Object(o) => {
            assert(o@ =~= members_of(doc@));
            o
        },
        _ => {
            let r = JsonObject { members: Vec::new() };
            assert(r@ =~= Seq::empty());
            r
        },
    }
}

/// The members of the document that a text is, or why it is none.
pub fn parse_text(text: &str) -> (r: std::result::Result<JsonObject, String>)
    ensures
        match r {
            Ok(o) => json_of_text(text@) is Ok && o@ == members_of(json_of_text(text@)->Ok_0),
            Err(e) => json_of_text(text@) == Err::<Json, Seq<char>>(e@),
        },
{
    match value_of_text(text) {
        Ok(v) => Ok(top(hold(&v))),
        Err(e) => Err(e),
    }
}

/// The members of the document that bytes are, or why they are none.
pub fn parse_bytes(bytes: &[u8]) -> (r: std::result::Result<JsonObject, String>)
    ensures
        match r {
            Ok(o) => json_of_bytes(bytes@) is Ok && o@ == members_of(json_of_bytes(bytes@)->Ok_0),
            Err(e) => json_of_bytes(bytes@) == Err::<Json, Seq<char>>(e@),
        },
{
    match value_of_bytes(bytes) {
        Ok(v) => Ok(top(hold(&v))),
        Err(e) => Err(e),
    }
}

proof fn lemma_member_found(members: Members, key: Seq<char>, i: int)
    requires
        0 <= i < members.len(),
        members[i].0 == key,
        forall|j: int| 0 <= j < i ==> (#[trigger] members[j]).0 != key,
    ensures
        member(members, key) == Some(members[i].1),
    decreases i,
{
    if i > 0 {
        let rest = members.drop_first();
        assert(members[0].0 != key);
        assert(rest[i - 1] == members[i]);
        assert forall|j: int| 0 <= j < i - 1 implies (#[trigger] rest[j]).0 != key by {
            assert(members[j + 1].0 != key);
        }
        lemma_member_found(rest, key, i - 1);
    }
}

proof fn lemma_member_missing(members: Members, key: Seq<char>)
    requires
        forall|j: int| 0 <= j < members.len() ==> (#[trigger] members[j]).0 != key,
    ensures
        member(members, key) is None,
    decreases members.len(),
{
    if members.len() > 0 {
        let rest = members.drop_first();
        assert(members[0].0 != key);
        assert forall|j: int| 0 <= j < rest.len() implies (#[trigger] rest[j]).0 != key by {
            assert(members[j + 1].0 != key);
        }
        lemma_member_missing(rest, key);
    }
}

impl JsonField {
    /// The entries of a list.
    pub fn entries(&self) -> (r: Option<&Vec<JsonField>>)
        ensures
            match r {
                Some(l) => self@ == Json::List(values(l@)),
                None => !(self@ is List),
            },
    {
        match self {
            JsonField::List(l) => {
                assert(self@->List_0 =~= values(l@));
                Some(l)
            },
            _ => None,
        }
    }

    /// The members of an object.
    pub fn object(&self) -> (r: Option<&JsonObject>)
        ensures
            match r {
                Some(o) => self@ == Json::Object(o@),
                None => !(self@ is Object),
            },
    {
        match self {
            JsonField::Object(o) => {
                assert(self@->Object_0 =~= o@);
                Some(o)
            },
            _ => None,
        }
    }
}

impl JsonObject {
    /// The member called `key`.
    pub fn get(&self, key: &str) -> (r: Option<&JsonField>)
        ensures
            match r {
                Some(f) => member(self@, key@) == Some(f@),
                None => member(self@, key@) is None,
            },
    {
        let wanted = String::from_str(key);
        let mut i: usize = 0;
        while i < self.members.len()
            invariant
                i <= self.members@.len(),
                wanted@ == key@,
                forall|j: int| 0 <= j < i ==> (#[trigger] self@[j]).0 != key@,
            decreases self.members.len() - i,
        {
            if self.members[i].0 == wanted {
                proof {
                    assert(self@[i as int].0 == key@);
                    lemma_member_found(self@, key@, i as int);
                }
                return Some(&self.members[i].1);
            }
            assert(self@[i as int].0 != key@);
            i = i + 1;
        }
        proof {
            lemma_member_missing(self@, key@);
        }
        None
    }

    /// The member called `key`, where it is a non-negative integer.
    pub fn uint(&self, key: &str) -> (r: Option<u64>)
        ensures
            r == uint_of(self@, key@),
    {
        match self.get(key) {
            Some(JsonField::Number(n)) => *n,
            _ => None,
        }
    }

    /// The member called `key`, where it is text.
    pub fn text(&self, key: &str) -> (r: Option<&str>)
        ensures
            match r {
                Some(s) => text_of(self@, key@) == Some(s@),
                None => text_of(self@, key@) is None,
            },
    {
        match self.get(key) {
            Some(JsonField::Text(s)) => Some(s.as_str()),
            _ => None,
        }
    }

    /// The member called `key`, where it is true or false.
    pub fn flag(&self, key: &str) -> (r: Option<bool>)
        ensures
            r == flag_of(self@, key@),
    {
        match self.get(key) {
            Some(JsonField::Flag(b)) => Some(*b),
            _ => None,
        }
    }

    /// The member called `key`, where it is a list.
    pub fn list(&self, key: &str) -> (r: Option<&Vec<JsonField>>)
        ensures
            match r {
                Some(l) => list_of(self@, key@) == Some(values(l@)),
                None => list_of(self@, key@) is None,
            },
    {
        match self.get(key) {
            Some(f) => f.entries(),
            None => None,
        }
    }
}

/// A member is found exactly where there is one of that name, and it is the first
/// of them.
pub proof fn law_a_member_is_found_by_its_name(members: Members, key: Seq<char>)
    ensures
        member(members, key) is Some <==> exists|i: int|
            0 <= i < members.len() && (#[trigger] members[i]).0 == key,
        member(members, key) is Some ==> exists|i: int|
            {
                &&& 0 <= i < members.len()
                &&& (#[trigger] members[i]).0 == key
                &&& Some(members[i].1) == member(members, key)
                &&& forall|j: int| 0 <= j < i ==> (#[trigger] members[j]).0 != key
            },
    decreases members.len(),
{
    if members.len() > 0 {
        let rest = members.drop_first();
        law_a_member_is_found_by_its_name(rest, key);
        if members[0].0 != key {
            if member(rest, key) is Some {
                let i = choose|i: int|
                    {
                        &&& 0 <= i < rest.len()
                        &&& (#[trigger] rest[i]).0 == key
                        &&& Some(rest[i].1) == member(rest, key)
                        &&& forall|j: int| 0 <= j < i ==> (#[trigger] rest[j]).0 != key
                    };
                assert(members[i + 1] == rest[i]);
                assert forall|j: int| 0 <= j < i + 1 implies (#[trigger] members[j]).0 != key by {
                    if j > 0 {
                        assert(rest[j - 1] == members[j]);
                    }
                }
            } else if exists|i: int| 0 <= i < members.len() && (#[trigger] members[i]).0 == key {
                let i = choose|i: int| 0 <= i < members.len() && (#[trigger] members[i]).0 == key;
                assert(rest[i - 1] == members[i]);
            }
        }
    }
}

/// A member that is not of the kind asked for is as good as none.
pub proof fn law_a_member_is_read_only_as_what_it_is(members: Members, key: Seq<char>)
    ensures
        uint_of(members, key) is Some <==> member(members, key) is Some && member(
            members,
            key,
        )->0 is Number && member(members, key)->0->Number_0 is Some,
        uint_of(members, key) matches Some(n) ==> member(members, key) == Some(
            Json::Number(Some(n)),
        ),
        text_of(members, key) is Some <==> member(members, key) is Some && member(
            members,
            key,
        )->0 is Text,
        text_of(members, key) matches Some(s) ==> member(members, key) == Some(Json::Text(s)),
        flag_of(members, key) is Some <==> member(members, key) is Some && member(
            members,
            key,
        )->0 is Flag,
        flag_of(members, key) matches Some(b) ==> member(members, key) == Some(Json::Flag(b)),
        list_of(members, key) is Some <==> member(members, key) is Some && member(
            members,
            key,
        )->0 is List,
        list_of(members, key) matches Some(l) ==> member(members, key) == Some(Json::List(l)),
{
}

} // verus!
