//! The header fields of a note.

use crate::text::same_text;
use vstd::prelude::*;

verus! {

/// A header value: a scalar, a list or a nested mapping.
#[derive(PartialEq, Debug)]
pub enum MetadataValue {
    Null,
    String(String),
    Integer(i64),
    /// A number with a fraction, as the bits of its IEEE 754 double.
    Float(u64),
    Boolean(bool),
    Array(Vec<MetadataValue>),
    Hash(Metadata),
}

/// The header of a note: fields by name. Where a name occurs more than
/// once, the last entry counts.
///
/// The entries are held as a list, so that a value can hold a header in
/// turn. `==` compares the lists entry by entry: two headers with the same
/// fields in another order are not `==`. What [`Metadata::get`] finds does
/// not depend on the order.
#[derive(PartialEq, Debug)]
pub struct Metadata(pub Vec<(String, MetadataValue)>);

/// The mathematical value of a [`MetadataValue`].
pub ghost enum ValueView {
    Null,
    Text(Seq<char>),
    Integer(i64),
    Float(u64),
    Boolean(bool),
    List(Seq<ValueView>),
    Mapping(Map<Seq<char>, ValueView>),
}

/// The fields that a list of entries defines, later entries first.
pub open spec fn fields_of(entries: Seq<(Seq<char>, ValueView)>) -> Map<Seq<char>, ValueView>
    decreases entries.len(),
{
    if entries.len() == 0 {
        Map::empty()
    } else {
        fields_of(entries.drop_last()).insert(entries.last().0, entries.last().1)
    }
}

impl View for MetadataValue {
    type V = ValueView;

    open spec fn view(&self) -> ValueView
        decreases self, 0nat,
    {
        match self {
            MetadataValue::Null => ValueView::Null,
            MetadataValue::String(text) => ValueView::Text(text@),
            MetadataValue::Integer(number) => ValueView::Integer(*number),
            MetadataValue::Float(bits) => ValueView::Float(*bits),
            MetadataValue::Boolean(flag) => ValueView::Boolean(*flag),
            MetadataValue::Array(items) => ValueView::List(
                Seq::new(
                    items@.len(),
                    |i: int|
                        if 0 <= i < items@.len() {
                            proof {
                                vstd::std_specs::vec::axiom_vec_index_decreases(*items, i);
                            }
                            items@[i].view()
                        } else {
                            ValueView::Null
                        },
                ),
            ),
            MetadataValue::Hash(fields) => ValueView::Mapping(fields.view()),
        }
    }
}

impl Metadata {
    /// The entries as mathematical values, in the order they are held.
    pub open spec fn entries(&self) -> Seq<(Seq<char>, ValueView)>
        decreases self, 0nat,
    {
        Seq::new(
            self.0@.len(),
            |i: int|
                if 0 <= i < self.0@.len() {
                    proof {
                        vstd::std_specs::vec::axiom_vec_index_decreases(self.0, i);
                    }
                    (self.0@[i].0@, self.0@[i].1.view())
                } else {
                    (Seq::empty(), ValueView::Null)
                },
        )
    }
}

impl View for Metadata {
    type V = Map<Seq<char>, ValueView>;

    open spec fn view(&self) -> Map<Seq<char>, ValueView>
        decreases self, 1nat,
    {
        fields_of(self.entries())
    }
}

/// The name of the header field that holds a note's title.
pub open spec fn title_key() -> Seq<char> {
    "title"@
}

/// What a header says of the title of its note.
pub ghost enum Title {
    /// The header has no `title` field.
    Absent,
    /// The `title` field holds this text.
    Text(Seq<char>),
    /// The `title` field holds something other than text.
    Malformed,
}

/// The title that the fields of a header give.
pub open spec fn title_of(fields: Map<Seq<char>, ValueView>) -> Title {
    if fields.contains_key(title_key()) {
        match fields[title_key()] {
            ValueView::Text(text) => Title::Text(text),
            _ => Title::Malformed,
        }
    } else {
        Title::Absent
    }
}

/// Entries behind position `from` that do not name `key` leave its field
/// as the entries before `from` define it.
proof fn lemma_fields_ignore_tail(entries: Seq<(Seq<char>, ValueView)>, from: int, key: Seq<char>)
    requires
        0 <= from <= entries.len(),
        forall|j: int| from <= j < entries.len() ==> entries[j].0 != key,
    ensures
        fields_of(entries).contains_key(key) == fields_of(entries.take(from)).contains_key(key),
        fields_of(entries).contains_key(key) ==> fields_of(entries)[key] == fields_of(
            entries.take(from),
        )[key],
    decreases entries.len() - from,
{
    if from == entries.len() {
        assert(entries.take(from) == entries);
    } else {
        lemma_fields_ignore_tail(entries.drop_last(), from, key);
        assert(entries.drop_last().take(from) == entries.take(from));
    }
}

impl Metadata {
    /// A header without fields.
    pub fn new() -> (fields: Metadata)
        ensures
            fields@ == Map::<Seq<char>, ValueView>::empty(),
    {
        let fields = Metadata(Vec::new());
        assert(fields.entries() == Seq::<(Seq<char>, ValueView)>::empty());
        fields
    }

    /// Sets the field `key` to `value`, in place of what it held.
    pub fn insert(&mut self, key: String, value: MetadataValue)
        ensures
            final(self)@ == old(self)@.insert(key@, value@),
    {
        let ghost before = self.entries();
        self.0.push((key, value));
        assert(self.entries().drop_last() == before);
    }

    /// The value of the field `key`, if the header has one.
    pub fn get(&self, key: &str) -> (value: Option<&MetadataValue>)
        ensures
            match value {
                Some(found) => self@.contains_key(key@) && self@[key@] == found@,
                None => !self@.contains_key(key@),
            },
    {
        let mut i: usize = self.0.len();
        while i > 0
            invariant
                i <= self.0.len(),
                forall|j: int| i <= j < self.0.len() ==> self.entries()[j].0 != key@,
            decreases i,
        {
            i = i - 1;
            if same_text(self.0[i].0.as_str(), key) {
                proof {
                    let upto = self.entries().take(i + 1);
                    lemma_fields_ignore_tail(self.entries(), i + 1, key@);
                    assert(upto.last() == self.entries()[i as int]);
                }
                return Some(&self.0[i].1);
            }
        }
        proof {
            lemma_fields_ignore_tail(self.entries(), 0, key@);
            assert(self.entries().take(0) == Seq::<(Seq<char>, ValueView)>::empty());
        }
        None
    }
}

} // verus!
