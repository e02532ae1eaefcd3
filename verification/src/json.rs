//! JSON values as the library handles them: what the API's streamed
//! messages carry and what tool calls take as arguments.
use vstd::prelude::*;

verus! {

/// A JSON number: a non-negative integer, a negative integer, or any other
/// number kept as its text.
#[derive(Debug)]
pub enum JsonNumber {
    PosInt(u64),
    NegInt(i64),
    Float(String),
}

/// A JSON value.
#[derive(Debug)]
pub enum JsonValue {
    Null,
    Bool(bool),
    Number(JsonNumber),
    String(String),
    Array(Vec<JsonValue>),
    Object(JsonObject),
}

/// A JSON object: keys with their values, in order. A lookup finds the
/// first entry with the key; `insert` never adds a second entry for a key.
#[derive(Debug)]
pub struct JsonObject {
    entries: Vec<(String, JsonValue)>,
}

/// What a JSON value denotes, with texts as character sequences and an
/// object as its entries in order.
pub enum JsonView {
    Null,
    Bool(bool),
    PosInt(u64),
    NegInt(i64),
    Float(Seq<char>),
    Str(Seq<char>),
    Array(Seq<JsonView>),
    Object(Seq<(Seq<char>, JsonView)>),
}

impl JsonValue {
    /// The value's meaning (see `JsonView`).
    pub open spec fn deep(self) -> JsonView
        decreases self,
    {
        match self {
            JsonValue::Null => JsonView::Null,
            JsonValue::Bool(b) => JsonView::Bool(b),
            JsonValue::Number(JsonNumber::PosInt(u)) => JsonView::PosInt(u),
            JsonValue::Number(JsonNumber::NegInt(i)) => JsonView::NegInt(i),
            JsonValue::Number(JsonNumber::Float(t)) => JsonView::Float(t@),
            JsonValue::String(s) => JsonView::Str(s@),
            JsonValue::Array(a) => JsonView::Array(values_deep(a@)),
            JsonValue::Object(o) => JsonView::Object(entries_deep(o.entries())),
        }
    }
}

/// The value of the first entry with the given key.
pub open spec fn lookup_view(es: Seq<(Seq<char>, JsonView)>, key: Seq<char>) -> Option<JsonView>
    decreases es.len(),
{
    if es.len() == 0 {
        None
    } else if es[0].0 == key {
        Some(es[0].1)
    } else {
        lookup_view(es.drop_first(), key)
    }
}

impl JsonView {
    /// The value of `key`, if this is an object that has it.
    pub open spec fn field(self, key: Seq<char>) -> Option<JsonView> {
        match self {
            JsonView::Object(es) => lookup_view(es, key),
            _ => None,
        }
    }

    /// The element at `i`, if this is an array that long.
    pub open spec fn element(self, i: int) -> Option<JsonView> {
        match self {
            JsonView::Array(a) => if 0 <= i < a.len() {
                Some(a[i])
            } else {
                None
            },
            _ => None,
        }
    }

    /// The text, if this is a string.
    pub open spec fn text(self) -> Option<Seq<char>> {
        match self {
            JsonView::Str(s) => Some(s),
            _ => None,
        }
    }

    /// The value, if this is a non-negative integer.
    pub open spec fn nat_value(self) -> Option<u64> {
        match self {
            JsonView::PosInt(u) => Some(u),
            _ => None,
        }
    }

    /// The elements, if this is an array.
    pub open spec fn items(self) -> Option<Seq<JsonView>> {
        match self {
            JsonView::Array(a) => Some(a),
            _ => None,
        }
    }
}

/// The text of a value that may be missing.
pub open spec fn view_text(v: Option<JsonView>) -> Option<Seq<char>> {
    match v {
        Some(j) => j.text(),
        None => None,
    }
}

/// The non-negative integer of a value that may be missing.
pub open spec fn view_u64(v: Option<JsonView>) -> Option<u64> {
    match v {
        Some(j) => j.nat_value(),
        None => None,
    }
}

/// The field `key` of a value that may be missing.
pub open spec fn view_field(v: Option<JsonView>, key: Seq<char>) -> Option<JsonView> {
    match v {
        Some(j) => j.field(key),
        None => None,
    }
}

/// Meanings of a sequence of values.
pub open spec fn values_deep(s: Seq<JsonValue>) -> Seq<JsonView>
    decreases s,
{
    if s.len() == 0 {
        Seq::empty()
    } else {
        seq![s[0].deep()] + values_deep(s.drop_first())
    }
}

/// Meanings of a sequence of object entries.
pub open spec fn entries_deep(s: Seq<(String, JsonValue)>) -> Seq<(Seq<char>, JsonView)>
    decreases s,
{
    if s.len() == 0 {
        Seq::empty()
    } else {
        seq![(s[0].0@, s[0].1.deep())] + entries_deep(s.drop_first())
    }
}

/// `values_deep` of a sequence grown by one value.
pub proof fn lemma_values_deep_push(s: Seq<JsonValue>, x: JsonValue)
    ensures
        values_deep(s.push(x)) == values_deep(s).push(x.deep()),
    decreases s.len(),
{
    if s.len() == 0 {
        assert(s.push(x).drop_first() =~= Seq::<JsonValue>::empty());
        assert(values_deep(s.push(x)) =~= seq![x.deep()] + values_deep(Seq::<JsonValue>::empty()));
        assert(values_deep(s.push(x)) =~= values_deep(s).push(x.deep()));
    } else {
        assert(s.push(x).drop_first() =~= s.drop_first().push(x));
        lemma_values_deep_push(s.drop_first(), x);
        assert(values_deep(s.push(x)) =~= values_deep(s).push(x.deep()));
    }
}

/// `entries_deep` of a sequence grown by one entry.
pub proof fn lemma_entries_deep_push(s: Seq<(String, JsonValue)>, e: (String, JsonValue))
    ensures
        entries_deep(s.push(e)) == entries_deep(s).push((e.0@, e.1.deep())),
    decreases s.len(),
{
    if s.len() == 0 {
        assert(s.push(e).drop_first() =~= Seq::<(String, JsonValue)>::empty());
        assert(entries_deep(s.push(e)) =~= seq![(e.0@, e.1.deep())] + entries_deep(
            Seq::<(String, JsonValue)>::empty(),
        ));
        assert(entries_deep(s.push(e)) =~= entries_deep(s).push((e.0@, e.1.deep())));
    } else {
        assert(s.push(e).drop_first() =~= s.drop_first().push(e));
        lemma_entries_deep_push(s.drop_first(), e);
        assert(entries_deep(s.push(e)) =~= entries_deep(s).push((e.0@, e.1.deep())));
    }
}

/// Meanings of a sequence of entries are those of each entry.
pub proof fn lemma_entries_deep_index(s: Seq<(String, JsonValue)>)
    ensures
        entries_deep(s).len() == s.len(),
        forall|i: int|
            0 <= i < s.len() ==> #[trigger] entries_deep(s)[i] == (s[i].0@, s[i].1.deep()),
    decreases s.len(),
{
    if s.len() > 0 {
        lemma_entries_deep_index(s.drop_first());
        assert forall|i: int| 0 <= i < s.len() implies #[trigger] entries_deep(s)[i] == (
            s[i].0@,
            s[i].1.deep(),
        ) by {
            if i > 0 {
                assert(s.drop_first()[i - 1] == s[i]);
            }
        }
    }
}

/// Meanings of a sequence of values are those of each value.
pub proof fn lemma_values_deep_index(s: Seq<JsonValue>)
    ensures
        values_deep(s).len() == s.len(),
        forall|i: int| 0 <= i < s.len() ==> #[trigger] values_deep(s)[i] == s[i].deep(),
    decreases s.len(),
{
    if s.len() > 0 {
        lemma_values_deep_index(s.drop_first());
        assert forall|i: int| 0 <= i < s.len() implies #[trigger] values_deep(s)[i] == s[i].deep() by {
            if i > 0 {
                assert(s.drop_first()[i - 1] == s[i]);
            }
        }
    }
}

/// A lookup among entries and among their meanings find the same value.
pub proof fn lemma_lookup_deep(entries: Seq<(String, JsonValue)>, key: Seq<char>)
    ensures
        match lookup(entries, key) {
            Some(x) => lookup_view(entries_deep(entries), key) == Some(x.deep()),
            None => lookup_view(entries_deep(entries), key) is None,
        },
    decreases entries.len(),
{
    if entries.len() > 0 {
        let d = entries_deep(entries);
        assert(d[0] == (entries[0].0@, entries[0].1.deep()));
        assert(d.drop_first() =~= entries_deep(entries.drop_first()));
        lemma_lookup_deep(entries.drop_first(), key);
    }
}

impl JsonValue {
    /// A copy of the value.
    pub fn copy(&self) -> (r: JsonValue)
        ensures
            r.deep() == self.deep(),
        decreases self,
    {
        match self {
            JsonValue::Null => JsonValue::Null,
            JsonValue::Bool(b) => JsonValue::Bool(*b),
            JsonValue::Number(JsonNumber::PosInt(u)) => JsonValue::Number(JsonNumber::PosInt(*u)),
            JsonValue::Number(JsonNumber::NegInt(i)) => JsonValue::Number(JsonNumber::NegInt(*i)),
            JsonValue::Number(JsonNumber::Float(t)) => JsonValue::Number(JsonNumber::Float(t.clone())),
            JsonValue::String(s) => JsonValue::String(s.clone()),
            JsonValue::Array(a) => JsonValue::Array(copy_values(a)),
            JsonValue::Object(o) => JsonValue::Object(o.copy()),
        }
    }
}

/// A copy of a vector of values.
pub fn copy_values(a: &Vec<JsonValue>) -> (r: Vec<JsonValue>)
    ensures
        values_deep(r@) == values_deep(a@),
    decreases a,
{
    let mut r: Vec<JsonValue> = Vec::new();
    let mut i: usize = 0;
    while i < a.len()
        invariant
            i <= a@.len(),
            values_deep(r@) == values_deep(a@.take(i as int)),
        decreases a@.len() - i,
    {
        proof {
            assert(decreases_to!(a => a@[i as int]));
        }
        let x = a[i].copy();
        proof {
            lemma_values_deep_push(r@, x);
            lemma_values_deep_push(a@.take(i as int), a@[i as int]);
            assert(a@.take(i + 1) =~= a@.take(i as int).push(a@[i as int]));
        }
        r.push(x);
        i += 1;
    }
    assert(a@.take(i as int) =~= a@);
    r
}

impl JsonObject {
    /// A copy of the object.
    pub fn copy(&self) -> (r: JsonObject)
        ensures
            entries_deep(r.entries()) == entries_deep(self.entries()),
        decreases self,
    {
        let mut v: Vec<(String, JsonValue)> = Vec::new();
        let mut i: usize = 0;
        while i < self.entries.len()
            invariant
                i <= self.entries@.len(),
                entries_deep(v@) == entries_deep(self.entries@.take(i as int)),
            decreases self.entries@.len() - i,
        {
            proof {
                assert(decreases_to!(self => self.entries@[i as int].1));
            }
            let k = self.entries[i].0.clone();
            let x = self.entries[i].1.copy();
            proof {
                lemma_entries_deep_push(v@, (k, x));
                lemma_entries_deep_push(self.entries@.take(i as int), self.entries@[i as int]);
                assert(self.entries@.take(i + 1) =~= self.entries@.take(i as int).push(
                    self.entries@[i as int],
                ));
            }
            v.push((k, x));
            i += 1;
        }
        assert(self.entries@.take(i as int) =~= self.entries@);
        JsonObject { entries: v }
    }
}

/// The value of the first entry with the given key.
pub open spec fn lookup(entries: Seq<(String, JsonValue)>, key: Seq<char>) -> Option<JsonValue>
    decreases entries.len(),
{
    if entries.len() == 0 {
        None
    } else if entries[0].0@ == key {
        Some(entries[0].1)
    } else {
        lookup(entries.drop_first(), key)
    }
}

/// Position of the first entry with the given key.
pub open spec fn key_index(entries: Seq<(String, JsonValue)>, key: Seq<char>) -> Option<int>
    decreases entries.len(),
{
    if entries.len() == 0 {
        None
    } else if entries[0].0@ == key {
        Some(0)
    } else {
        match key_index(entries.drop_first(), key) {
            Some(i) => Some(i + 1),
            None => None,
        }
    }
}

impl JsonObject {
    /// The entries in order.
    pub closed spec fn entries(&self) -> Seq<(String, JsonValue)> {
        self.entries@
    }

    /// The value of `key`.
    pub open spec fn get_spec(&self, key: Seq<char>) -> Option<JsonValue> {
        lookup(self.entries(), key)
    }

    /// An empty object.
    pub fn new() -> (o: JsonObject)
        ensures
            o.entries() == Seq::<(String, JsonValue)>::empty(),
    {
        JsonObject { entries: Vec::new() }
    }

    /// An object with the given entries, in order.
    pub fn from_entries(entries: Vec<(String, JsonValue)>) -> (o: JsonObject)
        ensures
            o.entries() == entries@,
    {
        JsonObject { entries }
    }

    /// The entries, in order.
    pub fn entry_list(&self) -> (r: &Vec<(String, JsonValue)>)
        ensures
            r@ == self.entries(),
    {
        &self.entries
    }

    /// Index of the entry with `key`.
    fn find(&self, key: &String) -> (r: Option<usize>)
        ensures
            match r {
                Some(i) => key_index(self.entries(), key@) == Some(i as int) && i < self.entries().len(),
                None => key_index(self.entries(), key@) is None,
            },
    {
        let mut i: usize = 0;
        assert(self.entries@.skip(0) =~= self.entries@);
        while i < self.entries.len()
            invariant
                i <= self.entries@.len(),
                forall|j: int| 0 <= j < i ==> (#[trigger] self.entries@[j]).0@ != key@,
                key_index(self.entries@, key@) == match key_index(self.entries@.skip(i as int), key@) {
                    Some(k) => Some(k + i),
                    None => None,
                },
            decreases self.entries@.len() - i,
        {
            if self.entries[i].0 == *key {
                return Some(i);
            }
            assert(self.entries@.skip(i as int).drop_first() =~= self.entries@.skip(i + 1));
            i += 1;
        }
        None
    }

    /// The value of `key`, if the object has it.
    pub fn get(&self, key: &str) -> (r: Option<&JsonValue>)
        ensures
            match r {
                Some(v) => self.get_spec(key@) == Some(*v),
                None => self.get_spec(key@) is None,
            },
    {
        let k = key.to_owned();
        proof {
            lemma_lookup_index(self.entries@, key@);
        }
        match self.find(&k) {
            Some(i) => Some(&self.entries[i].1),
            None => None,
        }
    }

    /// Sets the value of `key`: an existing entry keeps its place and takes
    /// the new value; a new key is added at the end.
    pub fn insert(&mut self, key: String, value: JsonValue)
        ensures
            final(self).get_spec(key@) == Some(value),
            forall|k: Seq<char>| k != key@ ==> final(self).get_spec(k) == old(self).get_spec(k),
            key_index(old(self).entries(), key@) is None ==> final(self).entries() == old(
                self,
            ).entries().push((key, value)),
            key_index(old(self).entries(), key@) matches Some(i) ==> final(self).entries() == old(
                self,
            ).entries().update(i, (key, value)),
    {
        proof {
            lemma_lookup_index(self.entries@, key@);
        }
        match self.find(&key) {
            Some(i) => {
                let ghost e = (key, value);
                proof {
                    lemma_key_index_facts(self.entries@, e.0@);
                }
                self.entries.set(i, (key, value));
                proof {
                    assert forall|k: Seq<char>| #[trigger] lookup(self.entries@, k) == if k == e.0@ {
                        Some(e.1)
                    } else {
                        lookup(old(self).entries@, k)
                    } by {
                        lemma_update_lookup(old(self).entries@, i as int, e, k);
                    }
                }
            },
            None => {
                let ghost e = (key, value);
                proof {
                    lemma_key_index_facts(self.entries@, e.0@);
                }
                self.entries.push((key, value));
                proof {
                    assert forall|k: Seq<char>| #[trigger] lookup(self.entries@, k) == if k == e.0@ {
                        Some(e.1)
                    } else {
                        lookup(old(self).entries@, k)
                    } by {
                        lemma_push_lookup(old(self).entries@, e, k);
                    }
                }
            },
        }
    }
}

/// `lookup` agrees with `key_index`.
pub proof fn lemma_lookup_index(entries: Seq<(String, JsonValue)>, key: Seq<char>)
    ensures
        match key_index(entries, key) {
            Some(i) => 0 <= i < entries.len() && lookup(entries, key) == Some(entries[i].1),
            None => lookup(entries, key) is None,
        },
    decreases entries.len(),
{
    if entries.len() > 0 && entries[0].0@ != key {
        lemma_lookup_index(entries.drop_first(), key);
    }
}

/// `key_index` finds the first entry with the key.
pub proof fn lemma_key_index_facts(entries: Seq<(String, JsonValue)>, key: Seq<char>)
    ensures
        match key_index(entries, key) {
            Some(i) => 0 <= i < entries.len() && entries[i].0@ == key && forall|j: int|
                0 <= j < i ==> (#[trigger] entries[j]).0@ != key,
            None => forall|j: int| 0 <= j < entries.len() ==> (#[trigger] entries[j]).0@ != key,
        },
    decreases entries.len(),
{
    if entries.len() > 0 && entries[0].0@ != key {
        lemma_key_index_facts(entries.drop_first(), key);
        let d = entries.drop_first();
        assert forall|j: int| 1 <= j < entries.len() implies entries[j] == d[j - 1] by {}
    }
}

/// Lookups after adding an entry whose key is new.
pub proof fn lemma_push_lookup(entries: Seq<(String, JsonValue)>, e: (String, JsonValue), k: Seq<char>)
    requires
        forall|j: int| 0 <= j < entries.len() ==> (#[trigger] entries[j]).0@ != e.0@,
    ensures
        lookup(entries.push(e), k) == if k == e.0@ {
            Some(e.1)
        } else {
            lookup(entries, k)
        },
    decreases entries.len(),
{
    if entries.len() > 0 {
        assert(entries.push(e).drop_first() =~= entries.drop_first().push(e));
        assert(entries.push(e)[0] == entries[0]);
        assert forall|j: int| 0 <= j < entries.drop_first().len() implies (
        #[trigger] entries.drop_first()[j]).0@ != e.0@ by {
            assert(entries.drop_first()[j] == entries[j + 1]);
        }
        lemma_push_lookup(entries.drop_first(), e, k);
    } else {
        assert(entries.push(e).drop_first() =~= Seq::<(String, JsonValue)>::empty());
        assert(entries.push(e)[0] == e);
        reveal_with_fuel(lookup, 2);
    }
}

/// Lookups after replacing the first entry with a key by an entry with the
/// same key.
pub proof fn lemma_update_lookup(
    entries: Seq<(String, JsonValue)>,
    i: int,
    e: (String, JsonValue),
    k: Seq<char>,
)
    requires
        0 <= i < entries.len(),
        entries[i].0@ == e.0@,
        forall|j: int| 0 <= j < i ==> (#[trigger] entries[j]).0@ != e.0@,
    ensures
        lookup(entries.update(i, e), k) == if k == e.0@ {
            Some(e.1)
        } else {
            lookup(entries, k)
        },
    decreases entries.len(),
{
    if i > 0 {
        assert(entries.update(i, e).drop_first() =~= entries.drop_first().update(i - 1, e));
        assert(entries.update(i, e)[0] == entries[0]);
        assert forall|j: int| 0 <= j < i - 1 implies (#[trigger] entries.drop_first()[j]).0@
            != e.0@ by {
            assert(entries.drop_first()[j] == entries[j + 1]);
        }
        lemma_update_lookup(entries.drop_first(), i - 1, e, k);
    } else {
        assert(entries.update(i, e).drop_first() =~= entries.drop_first());
        assert(entries.update(i, e)[0] == e);
    }
}

impl JsonValue {
    /// The text of a JSON string.
    pub open spec fn str_spec(&self) -> Option<Seq<char>> {
        match self {
            JsonValue::String(s) => Some(s@),
            _ => None,
        }
    }

    /// The value of `key`, if this is an object that has it.
    pub open spec fn field(self, key: Seq<char>) -> Option<JsonValue> {
        match self {
            JsonValue::Object(o) => o.get_spec(key),
            _ => None,
        }
    }

    /// The element at `i`, if this is an array that long.
    pub open spec fn element(self, i: int) -> Option<JsonValue> {
        match self {
            JsonValue::Array(a) => if 0 <= i < a@.len() {
                Some(a@[i])
            } else {
                None
            },
            _ => None,
        }
    }

    /// The value of a non-negative integer.
    pub open spec fn u64_spec(&self) -> Option<u64> {
        match self {
            JsonValue::Number(JsonNumber::PosInt(u)) => Some(*u),
            _ => None,
        }
    }

    /// The text, if the value is a JSON string.
    pub fn as_str(&self) -> (r: Option<&str>)
        ensures
            match r {
                Some(s) => self.str_spec() == Some(s@),
                None => self.str_spec() is None,
            },
            self.deep().text() == self.str_spec(),
    {
        match self {
            JsonValue::String(s) => Some(s.as_str()),
            _ => None,
        }
    }

    /// The value, if the value is a non-negative integer that fits `u64`.
    pub fn as_u64(&self) -> (r: Option<u64>)
        ensures
            r == self.u64_spec(),
            r == self.deep().nat_value(),
    {
        match self {
            JsonValue::Number(JsonNumber::PosInt(u)) => Some(*u),
            _ => None,
        }
    }

    /// The elements, if the value is an array.
    pub fn as_array(&self) -> (r: Option<&Vec<JsonValue>>)
        ensures
            match r {
                Some(a) => *self == JsonValue::Array(*a) && self.deep().items() == Some(values_deep(a@)),
                None => !(self is Array) && self.deep().items() is None,
            },
    {
        match self {
            JsonValue::Array(a) => Some(a),
            _ => None,
        }
    }

    /// The value of `key`, if the value is an object that has it.
    pub fn get(&self, key: &str) -> (r: Option<&JsonValue>)
        ensures
            match r {
                Some(v) => self.field(key@) == Some(*v) && self.deep().field(key@) == Some(v.deep()),
                None => self.field(key@) is None && self.deep().field(key@) is None,
            },
    {
        match self {
            JsonValue::Object(o) => {
                proof {
                    lemma_lookup_deep(o.entries(), key@);
                }
                o.get(key)
            },
            _ => None,
        }
    }

    /// The element at `index`, if the value is an array that long.
    pub fn get_index(&self, index: usize) -> (r: Option<&JsonValue>)
        ensures
            match r {
                Some(v) => self.element(index as int) == Some(*v) && self.deep().element(index as int)
                    == Some(v.deep()),
                None => self.element(index as int) is None && self.deep().element(index as int) is None,
            },
    {
        match self {
            JsonValue::Array(a) => {
                proof {
                    lemma_values_deep_index(a@);
                }
                if index < a.len() {
                    Some(&a[index])
                } else {
                    None
                }
            },
            _ => None,
        }
    }
}

/// The text of a value that may be missing.
pub open spec fn opt_str(v: Option<JsonValue>) -> Option<Seq<char>> {
    match v {
        Some(j) => j.str_spec(),
        None => None,
    }
}

/// The non-negative integer of a value that may be missing.
pub open spec fn opt_u64(v: Option<JsonValue>) -> Option<u64> {
    match v {
        Some(j) => j.u64_spec(),
        None => None,
    }
}

/// The field `key` of a value that may be missing.
pub open spec fn opt_field(v: Option<JsonValue>, key: Seq<char>) -> Option<JsonValue> {
    match v {
        Some(j) => j.field(key),
        None => None,
    }
}

/// `serde_json::Value`, a decoded JSON value.
#[verifier::external_type_specification]
#[verifier::external_body]
pub struct ExSerdeValue(serde_json::Value);

/// What `serde_json::from_str::<serde_json::Value>` decodes a text to, as
/// a JSON value: nothing when the text is not one JSON value.
pub uninterp spec fn json_of_text(text: Seq<char>) -> Option<JsonView>;

/// The text `serde_json::to_string` writes for a JSON value.
pub uninterp spec fn json_text_of(v: JsonView) -> Seq<char>;

/// Turns a `serde_json::Value` into the library's value, variant for
/// variant: an integer that fits `u64` or `i64` stays one, any other number
/// is kept as its text; an object keeps serde_json's order of its keys.
#[verifier::external_body]
fn value_from_serde(v: serde_json::Value) -> JsonValue {
    match v {
        serde_json::Value::Null => JsonValue::Null,
        serde_json::Value::Bool(b) => JsonValue::Bool(b),
        serde_json::Value::Number(n) => JsonValue::Number(match (n.as_u64(), n.as_i64()) {
            (Some(u), _) => JsonNumber::PosInt(u),
            (None, Some(i)) => JsonNumber::NegInt(i),
            _ => JsonNumber::Float(n.to_string()),
        }),
        serde_json::Value::String(s) => JsonValue::String(s),
        serde_json::Value::Array(a) => JsonValue::Array(a.into_iter().map(value_from_serde).collect()),
        serde_json::Value::Object(m) => JsonValue::Object(JsonObject::from_entries(
            m.into_iter().map(|(k, x)| (k, value_from_serde(x))).collect())),
    }
}

/// Turns the library's value into a `serde_json::Value`, variant for
/// variant; a number kept as text is read back as the JSON number it is
/// (`null` if it is none), and an object's entries go into serde_json's
/// map in order.
#[verifier::external_body]
fn value_to_serde(v: &JsonValue) -> serde_json::Value {
    match v {
        JsonValue::Null => serde_json::Value::Null,
        JsonValue::Bool(b) => serde_json::Value::Bool(*b),
        JsonValue::Number(JsonNumber::PosInt(u)) => serde_json::Value::from(*u),
        JsonValue::Number(JsonNumber::NegInt(i)) => serde_json::Value::from(*i),
        JsonValue::Number(JsonNumber::Float(t)) => serde_json::from_str(t).unwrap_or_default(),
        JsonValue::String(s) => serde_json::Value::String(s.clone()),
        JsonValue::Array(a) => serde_json::Value::Array(a.iter().map(value_to_serde).collect()),
        JsonValue::Object(o) => serde_json::Value::Object(
            o.entries.iter().map(|(k, x)| (k.clone(), value_to_serde(x))).collect()),
    }
}

/// `serde_json::from_str::<serde_json::Value>`: decodes a JSON text. What it
/// gives is a function of the text alone, named `json_of_text`; the JSON
/// grammar itself is serde_json's.
#[verifier::external_body]
fn decode_json(text: &str) -> (r: Option<JsonValue>)
    ensures
        match r {
            Some(v) => json_of_text(text@) == Some(v.deep()),
            None => json_of_text(text@) is None,
        },
{
    serde_json::from_str::<serde_json::Value>(text).ok().map(value_from_serde)
}

/// `serde_json::to_string` of a value: its JSON text, a function of the
/// value alone, named `json_text_of`. Writing a `serde_json::Value` does not
/// fail (its keys are strings and its numbers finite).
#[verifier::external_body]
fn encode_json(v: &JsonValue) -> (t: String)
    ensures
        t@ == json_text_of(v.deep()),
{
    serde_json::to_string(&value_to_serde(v)).unwrap_or_default()
}

/// The JSON text of an object's entries.
pub open spec fn object_text(o: JsonObject) -> Seq<char> {
    json_text_of(JsonView::Object(entries_deep(o.entries())))
}

/// The JSON text of an object (see `object_text`).
pub fn encode_object(o: &JsonObject) -> (t: String)
    ensures
        t@ == object_text(*o),
{
    let v = JsonValue::Object(o.copy());
    encode_json(&v)
}

/// What a text decodes to, if it is a JSON value.
pub fn decode_value(text: &str) -> (r: Option<JsonValue>)
    ensures
        match r {
            Some(v) => json_of_text(text@) == Some(v.deep()),
            None => json_of_text(text@) is None,
        },
{
    decode_json(text)
}

/// `o` is what `text` decodes to as an object: `None` when the text is not
/// a JSON object.
pub open spec fn decodes_to_object(text: Seq<char>, o: Option<JsonObject>) -> bool {
    match o {
        Some(obj) => json_of_text(text) == Some(JsonView::Object(entries_deep(obj.entries()))),
        None => !(json_of_text(text) matches Some(JsonView::Object(_))),
    }
}

/// What a text decodes to, if it is a JSON object.
pub fn decode_object(text: &str) -> (r: Option<JsonObject>)
    ensures
        decodes_to_object(text@, r),
{
    match decode_json(text) {
        Some(JsonValue::Object(o)) => Some(o),
        _ => None,
    }
}

} // verus!
