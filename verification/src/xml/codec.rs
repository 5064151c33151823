//! Attribute values as typed values: lengths, switches and plain text, and
//! the attribute list that a row of optional values is written as.
use crate::error::DecodeError;
use crate::rounded_float::{decimal_text, from_xml, from_xml_spec, lemma_read_written, to_xml};
use crate::text::{cow_clone, cow_str, option_text, str_eq};
use crate::xml::element::{
    find_attribute, lemma_find_attribute_concat, optional_attribute, AttributeView, Element,
    ElementView, NodeView,
};
use std::borrow::Cow;
use vstd::prelude::*;

verus! {

/// A name and the value to write under it, if there is one.
pub type Field = (Seq<char>, Option<Seq<char>>);

/// The attributes that `fields` are written as: one for each field with a
/// value, in order.
pub open spec fn written_attributes(fields: Seq<Field>) -> Seq<AttributeView>
    decreases fields.len(),
{
    if fields.len() == 0 {
        Seq::empty()
    } else {
        written_attributes(fields.drop_last()) + optional_attribute(
            fields.last().0,
            fields.last().1,
        )
    }
}

/// Whether no two of `fields` have the same name.
pub open spec fn distinct_names(fields: Seq<Field>) -> bool {
    forall|i: int, j: int|
        0 <= i < j < fields.len() ==> (#[trigger] fields[i]).0 != (#[trigger] fields[j]).0
}

/// The fields that a vector of names and optional values stands for.
pub open spec fn fields_view(fields: Seq<(&str, Option<Cow<'_, str>>)>) -> Seq<Field> {
    Seq::new(fields.len(), |i: int| (fields[i].0@, option_text(fields[i].1)))
}

/// No attribute is found under a name that none of the fields has.
pub proof fn lemma_written_attribute_absent(fields: Seq<Field>, name: Seq<char>)
    requires
        forall|i: int| 0 <= i < fields.len() ==> (#[trigger] fields[i]).0 != name,
    ensures
        find_attribute(written_attributes(fields), name) is None,
    decreases fields.len(),
{
    if fields.len() > 0 {
        let front = fields.drop_last();
        assert forall|i: int| 0 <= i < front.len() implies (#[trigger] front[i]).0 != name by {
            assert(front[i] == fields[i]);
        }
        lemma_written_attribute_absent(front, name);
        let tail = optional_attribute(fields.last().0, fields.last().1);
        lemma_find_attribute_concat(written_attributes(front), tail, name);
        assert(fields.last() == fields[fields.len() - 1]);
        assert(find_attribute(tail, name) is None) by {
            reveal_with_fuel(find_attribute, 2);
            if tail.len() > 0 {
                assert(tail.drop_first() =~= Seq::<AttributeView>::empty());
            }
        }
    }
}

/// Under the name of a field stands the value of that field, where no two
/// fields have the same name.
pub proof fn lemma_written_attribute(fields: Seq<Field>, k: int)
    requires
        distinct_names(fields),
        0 <= k < fields.len(),
    ensures
        find_attribute(written_attributes(fields), fields[k].0) == fields[k].1,
    decreases fields.len(),
{
    let front = fields.drop_last();
    let name = fields[k].0;
    let tail = optional_attribute(fields.last().0, fields.last().1);
    lemma_find_attribute_concat(written_attributes(front), tail, name);
    assert(fields.last() == fields[fields.len() - 1]);
    if k == fields.len() - 1 {
        assert forall|i: int| 0 <= i < front.len() implies (#[trigger] front[i]).0 != name by {
            assert(front[i] == fields[i]);
        }
        lemma_written_attribute_absent(front, name);
        if tail.len() > 0 {
            assert(tail.drop_first() =~= Seq::<AttributeView>::empty());
        }
    } else {
        assert forall|i: int, j: int| 0 <= i < j < front.len() implies (#[trigger] front[i]).0 != (
        #[trigger] front[j]).0 by {
            assert(front[i] == fields[i]);
            assert(front[j] == fields[j]);
        }
        assert(front[k] == fields[k]);
        lemma_written_attribute(front, k);
        assert(find_attribute(tail, name) is None) by {
            reveal_with_fuel(find_attribute, 2);
            if tail.len() > 0 {
                assert(tail.drop_first() =~= Seq::<AttributeView>::empty());
            }
        }
    }
}

/// How often an attribute named `name` stands in `attrs`.
pub open spec fn occurrences(attrs: Seq<AttributeView>, name: Seq<char>) -> nat
    decreases attrs.len(),
{
    if attrs.len() == 0 {
        0
    } else {
        occurrences(attrs.drop_last(), name) + if attrs.last().name == name {
            1nat
        } else {
            0nat
        }
    }
}

/// Whether one of `names` stands more than once in `attrs`.
pub open spec fn any_repeated(attrs: Seq<AttributeView>, names: Seq<Seq<char>>) -> bool {
    exists|i: int| 0 <= i < names.len() && occurrences(attrs, #[trigger] names[i]) >= 2
}

/// The names that a vector of strings stands for.
pub open spec fn names_view(names: Seq<&str>) -> Seq<Seq<char>> {
    Seq::new(names.len(), |i: int| names[i]@)
}

/// The occurrences in two lists written one after the other.
pub proof fn lemma_occurrences_concat(
    a: Seq<AttributeView>,
    b: Seq<AttributeView>,
    name: Seq<char>,
)
    ensures
        occurrences(a + b, name) == occurrences(a, name) + occurrences(b, name),
    decreases b.len(),
{
    if b.len() == 0 {
        assert(a + b =~= a);
    } else {
        assert((a + b).drop_last() =~= a + b.drop_last());
        assert((a + b).last() == b.last());
        lemma_occurrences_concat(a, b.drop_last(), name);
    }
}

/// A name that no two fields share stands at most once in what the fields
/// are written as.
pub proof fn lemma_written_occurrences(fields: Seq<Field>, name: Seq<char>)
    requires
        distinct_names(fields),
    ensures
        occurrences(written_attributes(fields), name) <= 1,
        (forall|i: int| 0 <= i < fields.len() ==> (#[trigger] fields[i]).0 != name)
            ==> occurrences(written_attributes(fields), name) == 0,
    decreases fields.len(),
{
    if fields.len() > 0 {
        let front = fields.drop_last();
        assert forall|i: int, j: int| 0 <= i < j < front.len() implies (#[trigger] front[i]).0 != (
        #[trigger] front[j]).0 by {
            assert(front[i] == fields[i]);
            assert(front[j] == fields[j]);
        }
        lemma_written_occurrences(front, name);
        let tail = optional_attribute(fields.last().0, fields.last().1);
        lemma_occurrences_concat(written_attributes(front), tail, name);
        assert(fields.last() == fields[fields.len() - 1]);
        reveal_with_fuel(occurrences, 2);
        if tail.len() > 0 {
            assert(tail.drop_last() =~= Seq::<AttributeView>::empty());
        }
        if fields.last().0 == name {
            assert forall|i: int| 0 <= i < front.len() implies (#[trigger] front[i]).0
                != name by {
                assert(front[i] == fields[i]);
            }
        } else {
            if forall|i: int| 0 <= i < fields.len() ==> (#[trigger] fields[i]).0 != name {
                assert forall|i: int| 0 <= i < front.len() implies (#[trigger] front[i]).0
                    != name by {
                    assert(front[i] == fields[i]);
                }
            }
        }
    }
}

/// No name stands twice in what fields with different names are written
/// as.
pub proof fn lemma_written_not_repeated(fields: Seq<Field>, names: Seq<Seq<char>>)
    requires
        distinct_names(fields),
    ensures
        !any_repeated(written_attributes(fields), names),
{
    assert forall|i: int| 0 <= i < names.len() implies occurrences(
        written_attributes(fields),
        #[trigger] names[i],
    ) < 2 by {
        lemma_written_occurrences(fields, names[i]);
    }
}

/// The literal that a switch is written as.
pub open spec fn bool_text(b: bool) -> Seq<char> {
    if b {
        "true"@
    } else {
        "false"@
    }
}

/// The switch that a literal stands for: on for `t`, `true`, `y`, `yes`,
/// `on` and `1`, off for `f`, `false`, `n`, `no`, `off` and `0`.
pub open spec fn bool_from_text(s: Seq<char>) -> Result<bool, DecodeError> {
    if s == "t"@ || s == "true"@ || s == "y"@ || s == "yes"@ || s == "on"@ || s == "1"@ {
        Ok(true)
    } else if s == "f"@ || s == "false"@ || s == "n"@ || s == "no"@ || s == "off"@ || s == "0"@ {
        Ok(false)
    } else {
        Err(DecodeError::UnknownEnumValue)
    }
}

/// The text that an optional length is written as.
pub open spec fn length_text(v: Option<isize>) -> Option<Seq<char>> {
    match v {
        Some(n) => Some(decimal_text(n as int)),
        None => None,
    }
}

/// The text that an optional switch is written as.
pub open spec fn switch_text(v: Option<bool>) -> Option<Seq<char>> {
    match v {
        Some(b) => Some(bool_text(b)),
        None => None,
    }
}

/// The length that an optional attribute value reads as.
pub open spec fn length_from(value: Option<Seq<char>>) -> Result<Option<isize>, DecodeError> {
    match value {
        Some(v) => match from_xml_spec(v) {
            Ok(n) => Ok(Some(n)),
            Err(e) => Err(e),
        },
        None => Ok(None),
    }
}

/// The switch that an optional attribute value reads as.
pub open spec fn switch_from(value: Option<Seq<char>>) -> Result<Option<bool>, DecodeError> {
    match value {
        Some(v) => match bool_from_text(v) {
            Ok(b) => Ok(Some(b)),
            Err(e) => Err(e),
        },
        None => Ok(None),
    }
}

/// A switch reads as it was written.
pub proof fn lemma_switch_written(v: Option<bool>)
    ensures
        switch_from(switch_text(v)) == Ok::<Option<bool>, DecodeError>(v),
{
    reveal_strlit("t");
    reveal_strlit("true");
    reveal_strlit("y");
    reveal_strlit("yes");
    reveal_strlit("on");
    reveal_strlit("1");
    reveal_strlit("f");
    reveal_strlit("false");
    reveal_strlit("n");
    reveal_strlit("no");
    reveal_strlit("off");
    reveal_strlit("0");
    if v == Some(false) {
        let s = "false"@;
        assert(s[0] == 'f');
        assert(s != "t"@ && s != "true"@ && s != "y"@ && s != "yes"@ && s != "on"@ && s != "1"@);
    }
}

/// A length reads as it was written.
pub proof fn lemma_length_written(v: Option<isize>)
    ensures
        length_from(length_text(v)) == Ok::<Option<isize>, DecodeError>(v),
{
    if let Some(n) = v {
        lemma_read_written(n);
    }
}

/// The decimal text of a length, as a value that owns its text.
pub fn length_value<'a>(n: isize) -> (r: Cow<'a, str>)
    ensures
        r@ == decimal_text(n as int),
{
    match to_xml(&n) {
        Ok(s) => Cow::Owned(s),
        Err(_) => Cow::Borrowed(""),
    }
}

/// The text of an optional length.
pub fn optional_length_value<'a>(v: Option<isize>) -> (r: Option<Cow<'a, str>>)
    ensures
        option_text(r) == length_text(v),
{
    match v {
        Some(n) => Some(length_value(n)),
        None => None,
    }
}

/// The text of an optional switch.
pub fn optional_switch_value<'a>(v: Option<bool>) -> (r: Option<Cow<'a, str>>)
    ensures
        option_text(r) == switch_text(v),
{
    match v {
        Some(true) => Some(Cow::Borrowed("true")),
        Some(false) => Some(Cow::Borrowed("false")),
        None => None,
    }
}

/// A second handle on an optional text.
pub fn optional_text_value<'a>(v: &Option<Cow<'a, str>>) -> (r: Option<Cow<'a, str>>)
    ensures
        option_text(r) == option_text(*v),
{
    match v {
        Some(c) => Some(cow_clone(c)),
        None => None,
    }
}

/// Reads a switch, as [`bool_from_text`] says.
pub fn read_switch(s: &str) -> (r: Result<bool, DecodeError>)
    ensures
        r == bool_from_text(s@),
{
    if str_eq(s, "t") || str_eq(s, "true") || str_eq(s, "y") || str_eq(s, "yes") || str_eq(
        s,
        "on",
    ) || str_eq(s, "1") {
        Ok(true)
    } else if str_eq(s, "f") || str_eq(s, "false") || str_eq(s, "n") || str_eq(s, "no")
        || str_eq(s, "off") || str_eq(s, "0") {
        Ok(false)
    } else {
        Err(DecodeError::UnknownEnumValue)
    }
}

impl<'a> Element<'a> {
    /// An element with the tag `tag` and the attributes that `fields` are
    /// written as.
    pub fn with_fields(tag: &'a str, fields: &Vec<(&'a str, Option<Cow<'a, str>>)>) -> (r: Self)
        ensures
            r@ == (ElementView {
                tag: tag@,
                attributes: written_attributes(fields_view(fields@)),
                children: Seq::empty(),
            }),
    {
        let mut e = Element::new(tag);
        let mut i: usize = 0;
        proof {
            assert(fields_view(fields@).take(0) =~= Seq::<Field>::empty());
        }
        while i < fields.len()
            invariant
                i <= fields.len(),
                e@.tag == tag@,
                e@.children == Seq::<NodeView>::empty(),
                e@.attributes == written_attributes(fields_view(fields@).take(i as int)),
            decreases fields.len() - i,
        {
            proof {
                let all = fields_view(fields@);
                assert(all.take(i as int + 1).drop_last() =~= all.take(i as int));
                assert(all.take(i as int + 1).last() == all[i as int]);
            }
            let field = &fields[i];
            e = e.with_attribute(field.0, optional_text_value(&field.1));
            i = i + 1;
        }
        proof {
            assert(fields_view(fields@).take(i as int) =~= fields_view(fields@));
        }
        e
    }

    /// How often an attribute named `name` stands in the element.
    pub fn occurrences(&self, name: &str) -> (r: usize)
        ensures
            r == occurrences(self@.attributes, name@),
    {
        let mut count: usize = 0;
        let mut i: usize = 0;
        proof {
            assert(self@.attributes.take(0) =~= Seq::<AttributeView>::empty());
        }
        while i < self.attributes.len()
            invariant
                i <= self.attributes.len(),
                count <= i,
                count == occurrences(self@.attributes.take(i as int), name@),
            decreases self.attributes.len() - i,
        {
            proof {
                let all = self@.attributes;
                assert(all.take(i as int + 1).drop_last() =~= all.take(i as int));
                assert(all.take(i as int + 1).last() == self.attributes@[i as int]@);
            }
            if str_eq(cow_str(&self.attributes[i].name), name) {
                count = count + 1;
            }
            i = i + 1;
        }
        proof {
            assert(self@.attributes.take(i as int) =~= self@.attributes);
        }
        count
    }

    /// Whether one of `names` stands more than once among the attributes of
    /// the element.
    pub fn any_repeated(&self, names: &Vec<&str>) -> (r: bool)
        ensures
            r == any_repeated(self@.attributes, names_view(names@)),
    {
        let mut i: usize = 0;
        while i < names.len()
            invariant
                i <= names.len(),
                forall|j: int|
                    0 <= j < i ==> occurrences(
                        self@.attributes,
                        #[trigger] names_view(names@)[j],
                    ) < 2,
            decreases names.len() - i,
        {
            if self.occurrences(names[i]) >= 2 {
                proof {
                    assert(names_view(names@)[i as int] == names@[i as int]@);
                }
                return true;
            }
            proof {
                assert(names_view(names@)[i as int] == names@[i as int]@);
            }
            i = i + 1;
        }
        false
    }

    /// A second handle on the value of the attribute `name`, where the
    /// element has one.
    pub fn text_attribute(&self, name: &str) -> (r: Option<Cow<'a, str>>)
        ensures
            option_text(r) == self@.attribute(name@),
    {
        match self.attribute(name) {
            Some(v) => Some(cow_clone(v)),
            None => None,
        }
    }

    /// The length under the attribute `name`, where the element has one.
    pub fn length_attribute(&self, name: &str) -> (r: Result<Option<isize>, DecodeError>)
        ensures
            r == length_from(self@.attribute(name@)),
    {
        match self.attribute(name) {
            Some(v) => match from_xml(cow_str(v)) {
                Ok(n) => Ok(Some(n)),
                Err(e) => Err(e),
            },
            None => Ok(None),
        }
    }

    /// The switch under the attribute `name`, where the element has one.
    pub fn switch_attribute(&self, name: &str) -> (r: Result<Option<bool>, DecodeError>)
        ensures
            r == switch_from(self@.attribute(name@)),
    {
        match self.attribute(name) {
            Some(v) => match read_switch(cow_str(v)) {
                Ok(b) => Ok(Some(b)),
                Err(e) => Err(e),
            },
            None => Ok(None),
        }
    }
}

} // verus!
