//! The tagged-metric data model: values, tags and fields, and the bag of them
//! that one poll produces.
use vstd::prelude::*;
use crate::number::{number_chars, Decimal};
use vstd::string::StrSliceExecFns;

verus! {

/// A scalar reading: text or a number.
#[derive(Clone, Debug)]
pub enum Value {
    String(String),
    Number(Decimal),
}

/// A value as the contracts see it: whether it is a number, and its text
/// (the string itself, or the number's canonical text).
pub type ValueView = (bool, Seq<char>);

impl View for Value {
    type V = ValueView;

    open spec fn view(&self) -> ValueView {
        match self {
            Value::String(s) => (false, s@),
            Value::Number(d) => (true, d@),
        }
    }
}

impl From<String> for Value {
    fn from(s: String) -> (r: Value) {
        Value::String(s)
    }
}

impl vstd::std_specs::convert::FromSpecImpl<String> for Value {
    open spec fn obeys_from_spec() -> bool {
        true
    }

    open spec fn from_spec(s: String) -> Value {
        Value::String(s)
    }
}

impl From<Decimal> for Value {
    fn from(d: Decimal) -> (r: Value) {
        Value::Number(d)
    }
}

impl vstd::std_specs::convert::FromSpecImpl<Decimal> for Value {
    open spec fn obeys_from_spec() -> bool {
        true
    }

    open spec fn from_spec(d: Decimal) -> Value {
        Value::Number(d)
    }
}

/// A named value: a tag is indexed by the backend, a field is not.
#[derive(Clone, Debug)]
pub enum Field {
    Tag(String, Value),
    Field(String, Value),
}

/// A field as the contracts see it: whether it is a tag, its name, its value.
pub type FieldView = (bool, Seq<char>, ValueView);

impl View for Field {
    type V = FieldView;

    open spec fn view(&self) -> FieldView {
        match self {
            Field::Tag(n, v) => (true, n@, v@),
            Field::Field(n, v) => (false, n@, v@),
        }
    }
}

impl Field {
    pub fn name(&self) -> (r: &str)
        ensures
            r@ == self@.1,
    {
        match self {
            Field::Tag(n, _) => n.as_str(),
            Field::Field(n, _) => n.as_str(),
        }
    }

    pub fn value(&self) -> (r: &Value)
        ensures
            r@ == self@.2,
    {
        match self {
            Field::Tag(_, v) => v,
            Field::Field(_, v) => v,
        }
    }
}

/// Index of the first entry named `name`, or `fs.len()` when there is none.
pub open spec fn first_named(fs: Seq<FieldView>, name: Seq<char>) -> int
    decreases fs.len(),
{
    if fs.len() == 0 {
        0
    } else if fs[0].1 == name {
        0
    } else {
        1 + first_named(fs.drop_first(), name)
    }
}

pub proof fn lemma_first_named(fs: Seq<FieldView>, name: Seq<char>)
    ensures
        0 <= first_named(fs, name) <= fs.len(),
        first_named(fs, name) < fs.len() ==> fs[first_named(fs, name)].1 == name,
        forall|k: int| 0 <= k < first_named(fs, name) ==> #[trigger] fs[k].1 != name,
    decreases fs.len(),
{
    if fs.len() > 0 && fs[0].1 != name {
        lemma_first_named(fs.drop_first(), name);
        assert forall|k: int| 0 <= k < first_named(fs, name) implies #[trigger] fs[k].1 != name by {
            if k > 0 {
                assert(fs[k] == fs.drop_first()[k - 1]);
            }
        }
    }
}

/// Every number among the entries has a number's text.
pub open spec fn numbers_plain(fs: Seq<FieldView>) -> bool {
    forall|k: int| 0 <= k < fs.len() ==> (#[trigger] fs[k]).2.0 ==> number_chars(fs[k].2.1)
}

/// The readings of one poll: tags and fields in the order they were added.
#[derive(Clone, Debug)]
pub struct PublishData {
    fields: Vec<Field>,
}

impl View for PublishData {
    type V = Seq<FieldView>;

    closed spec fn view(&self) -> Seq<FieldView> {
        self.fields@.map_values(|f: Field| f@)
    }
}

impl Default for PublishData {
    fn default() -> (r: PublishData)
        ensures
            r@ == Seq::<FieldView>::empty(),
    {
        PublishData::new()
    }
}

impl PublishData {
    pub open spec fn wf(&self) -> bool {
        numbers_plain(self@)
    }

    pub fn new() -> (r: PublishData)
        ensures
            r@ == Seq::<FieldView>::empty(),
            r.wf(),
    {
        let r = PublishData { fields: Vec::new() };
        assert(r@ =~= Seq::<FieldView>::empty());
        r
    }

    /// Appends a tag.
    pub fn tag(&mut self, name: &str, value: Value)
        ensures
            final(self)@ == old(self)@.push((true, name@, value@)),
            old(self).wf() ==> final(self).wf(),
    {
        proof {
            if let Value::Number(d) = &value {
                use_type_invariant(d);
            }
        }
        self.fields.push(Field::Tag(name.to_string(), value));
        assert(self@ =~= old(self)@.push((true, name@, value@)));
    }

    /// Appends a field.
    pub fn field(&mut self, name: &str, value: Value)
        ensures
            final(self)@ == old(self)@.push((false, name@, value@)),
            old(self).wf() ==> final(self).wf(),
    {
        proof {
            if let Value::Number(d) = &value {
                use_type_invariant(d);
            }
        }
        self.fields.push(Field::Field(name.to_string(), value));
        assert(self@ =~= old(self)@.push((false, name@, value@)));
    }

    pub fn len(&self) -> (r: usize)
        ensures
            r == self@.len(),
    {
        self.fields.len()
    }

    /// The entry at position `i`, in the order of insertion.
    pub fn entry(&self, i: usize) -> (r: &Field)
        requires
            i < self@.len(),
        ensures
            r@ == self@[i as int],
    {
        &self.fields[i]
    }

    /// The value of the first tag or field named `name`.
    pub fn get(&self, name: &str) -> (r: Option<&Value>)
        ensures
            first_named(self@, name@) < self@.len() ==> (r matches Some(v) && v@ == self@[first_named(self@, name@)].2),
            first_named(self@, name@) >= self@.len() ==> r is None,
    {
        proof {
            lemma_first_named(self@, name@);
        }
        let mut i: usize = 0;
        while i < self.fields.len()
            invariant
                0 <= i <= self@.len(),
                self@.len() == self.fields@.len(),
                i <= first_named(self@, name@),
                0 <= first_named(self@, name@) <= self@.len(),
                first_named(self@, name@) < self@.len() ==> self@[first_named(self@, name@)].1 == name@,
                forall|k: int| 0 <= k < first_named(self@, name@) ==> #[trigger] self@[k].1 != name@,
            decreases self.fields.len() - i,
        {
            let f = &self.fields[i];
            assert(f@ == self@[i as int]);
            if str_eq(f.name(), name) {
                return Some(f.value());
            }
            i = i + 1;
        }
        None
    }

    /// The value of the first tag or field named `name`, which must exist.
    pub fn index(&self, name: &str) -> (r: &Value)
        requires
            first_named(self@, name@) < self@.len(),
        ensures
            r@ == self@[first_named(self@, name@)].2,
    {
        self.get(name).unwrap()
    }
}

/// Character-wise equality of two strings.
pub fn str_eq(a: &str, b: &str) -> (r: bool)
    ensures
        r == (a@ == b@),
{
    let n = a.unicode_len();
    if n != b.unicode_len() {
        return false;
    }
    let mut i: usize = 0;
    while i < n
        invariant
            n == a@.len() == b@.len(),
            i <= n,
            a@.subrange(0, i as int) == b@.subrange(0, i as int),
        decreases n - i,
    {
        if a.get_char(i) != b.get_char(i) {
            return false;
        }
        assert(a@.subrange(0, i + 1) =~= a@.subrange(0, i as int).push(a@[i as int]));
        assert(b@.subrange(0, i + 1) =~= b@.subrange(0, i as int).push(b@[i as int]));
        i = i + 1;
    }
    assert(a@ =~= a@.subrange(0, n as int));
    assert(b@ =~= b@.subrange(0, n as int));
    true
}

} // verus!
