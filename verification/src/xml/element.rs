//! Elements, their attributes and their children.
use crate::error::DecodeError;
use crate::text::{
    chars_extend, chars_of, cow_clone, cow_str, option_text, str_eq, string_from_chars,
};
use std::borrow::Cow;
use vstd::prelude::*;

verus! {

/// An attribute of an element.
#[derive(Debug, PartialEq)]
pub struct Attribute<'a> {
    pub name: Cow<'a, str>,
    pub value: Cow<'a, str>,
}

/// What an [`Attribute`] holds.
pub struct AttributeView {
    pub name: Seq<char>,
    pub value: Seq<char>,
}

impl<'a> View for Attribute<'a> {
    type V = AttributeView;

    open spec fn view(&self) -> AttributeView {
        AttributeView { name: self.name@, value: self.value@ }
    }
}

/// A child of an element: an element or character data.
#[derive(Debug, PartialEq)]
pub enum Node<'a> {
    Element(Element<'a>),
    /// Character data, without escapes.
    Text(Cow<'a, str>),
    /// Character data as it stands in a text, escapes and all, where one of
    /// its escapes is not well-formed. It is kept as written, and is in the
    /// way only where the text of the element is asked for.
    Raw(Cow<'a, str>),
}

/// An element: its tag, its attributes in order, its children in order.
#[derive(Debug, PartialEq)]
pub struct Element<'a> {
    pub tag: Cow<'a, str>,
    pub attributes: Vec<Attribute<'a>>,
    pub children: Vec<Node<'a>>,
}

/// What a [`Node`] holds.
pub enum NodeView {
    Element(ElementView),
    Text(Seq<char>),
    Raw(Seq<char>),
}

/// What an [`Element`] holds.
pub struct ElementView {
    pub tag: Seq<char>,
    pub attributes: Seq<AttributeView>,
    pub children: Seq<NodeView>,
}

impl<'a> View for Node<'a> {
    type V = NodeView;

    open spec fn view(&self) -> NodeView
        decreases self,
    {
        match self {
            Node::Element(e) => NodeView::Element(e.view()),
            Node::Text(t) => NodeView::Text(t@),
            Node::Raw(t) => NodeView::Raw(t@),
        }
    }
}

impl<'a> View for Element<'a> {
    type V = ElementView;

    open spec fn view(&self) -> ElementView
        decreases self,
    {
        ElementView {
            tag: self.tag@,
            attributes: Seq::new(self.attributes@.len(), |i: int| self.attributes@[i]@),
            children: Seq::new(
                self.children@.len(),
                |i: int|
                    if 0 <= i < self.children@.len() {
                        self.children@[i].view()
                    } else {
                        NodeView::Text(Seq::empty())
                    },
            ),
        }
    }
}

/// The value of the first attribute of `attrs` that is named `name`.
pub open spec fn find_attribute(attrs: Seq<AttributeView>, name: Seq<char>) -> Option<Seq<char>>
    decreases attrs.len(),
{
    if attrs.len() == 0 {
        None
    } else if attrs[0].name == name {
        Some(attrs[0].value)
    } else {
        find_attribute(attrs.drop_first(), name)
    }
}

/// Whether `node` is an element with the tag `tag`.
pub open spec fn is_element(node: NodeView, tag: Seq<char>) -> bool {
    node matches NodeView::Element(e) && e.tag == tag
}

/// The last element of `nodes` that has the tag `tag`: where a child that
/// may stand once is repeated, the last one counts.
pub open spec fn find_child(nodes: Seq<NodeView>, tag: Seq<char>) -> Option<ElementView>
    decreases nodes.len(),
{
    if nodes.len() == 0 {
        None
    } else if is_element(nodes.last(), tag) {
        Some(nodes.last()->Element_0)
    } else {
        find_child(nodes.drop_last(), tag)
    }
}

/// Whether `nodes` are character data with well-formed escapes, all of
/// them.
pub open spec fn only_text(nodes: Seq<NodeView>) -> bool {
    forall|i: int| 0 <= i < nodes.len() ==> #[trigger] nodes[i] is Text
}

/// The character data of `nodes`, written one after the other. Elements
/// among them add nothing, nor does character data that cannot be read.
pub open spec fn nodes_text(nodes: Seq<NodeView>) -> Seq<char>
    decreases nodes.len(),
{
    if nodes.len() == 0 {
        Seq::empty()
    } else {
        nodes_text(nodes.drop_last()) + (match nodes.last() {
            NodeView::Text(t) => t,
            _ => Seq::empty(),
        })
    }
}

/// The attribute list that an optional value gives: one attribute where it
/// is present, none where it is not.
pub open spec fn optional_attribute(name: Seq<char>, value: Option<Seq<char>>) -> Seq<
    AttributeView,
> {
    match value {
        Some(v) => seq![AttributeView { name, value: v }],
        None => Seq::empty(),
    }
}

/// The child list that an optional element gives.
pub open spec fn optional_child(child: Option<ElementView>) -> Seq<NodeView> {
    match child {
        Some(e) => seq![NodeView::Element(e)],
        None => Seq::empty(),
    }
}

/// The elements `es` as children.
pub open spec fn element_nodes(es: Seq<ElementView>) -> Seq<NodeView> {
    Seq::new(es.len(), |i: int| NodeView::Element(es[i]))
}

/// What reading a list of children gives, where `f` says of an element
/// whether it belongs to the list and, if so, what it reads as: the items
/// in order, or the error of the first item that fails. Character data and
/// elements that do not belong are passed over.
pub open spec fn decode_children<T>(
    nodes: Seq<NodeView>,
    f: spec_fn(ElementView) -> Option<Result<T, DecodeError>>,
) -> Result<Seq<T>, DecodeError>
    decreases nodes.len(),
{
    if nodes.len() == 0 {
        Ok(Seq::empty())
    } else {
        match decode_children(nodes.drop_last(), f) {
            Err(e) => Err(e),
            Ok(front) => match nodes.last() {
                NodeView::Element(el) => match f(el) {
                    None => Ok(front),
                    Some(Ok(x)) => Ok(front.push(x)),
                    Some(Err(e)) => Err(e),
                },
                _ => Ok(front),
            },
        }
    }
}

/// Whether `r` is what `expected` says: the same error, or a value with the
/// expected view.
pub open spec fn decoded_as<T: View>(r: Result<T, DecodeError>, expected: Result<
    T::V,
    DecodeError,
>) -> bool {
    match (r, expected) {
        (Ok(x), Ok(v)) => x@ == v,
        (Err(a), Err(b)) => a == b,
        _ => false,
    }
}

impl ElementView {
    /// The value of the attribute `name`, where the element has one.
    pub open spec fn attribute(self, name: Seq<char>) -> Option<Seq<char>> {
        find_attribute(self.attributes, name)
    }

    /// The last child element with the tag `tag`.
    pub open spec fn child(self, tag: Seq<char>) -> Option<ElementView> {
        find_child(self.children, tag)
    }

    /// The character data directly below the element.
    pub open spec fn text(self) -> Seq<char> {
        nodes_text(self.children)
    }
}

/// An attribute is found in two lists written one after the other where it
/// is found in the first, else where it is found in the second.
pub proof fn lemma_find_attribute_concat(
    a: Seq<AttributeView>,
    b: Seq<AttributeView>,
    name: Seq<char>,
)
    ensures
        find_attribute(a + b, name) == (if find_attribute(a, name) is Some {
            find_attribute(a, name)
        } else {
            find_attribute(b, name)
        }),
    decreases a.len(),
{
    if a.len() == 0 {
        assert(a + b =~= b);
    } else {
        assert((a + b).drop_first() =~= a.drop_first() + b);
        lemma_find_attribute_concat(a.drop_first(), b, name);
    }
}

/// A child is found in two lists written one after the other where it is
/// found in the second, else where it is found in the first.
pub proof fn lemma_find_child_concat(a: Seq<NodeView>, b: Seq<NodeView>, tag: Seq<char>)
    ensures
        find_child(a + b, tag) == (if find_child(b, tag) is Some {
            find_child(b, tag)
        } else {
            find_child(a, tag)
        }),
    decreases b.len(),
{
    if b.len() == 0 {
        assert(a + b =~= a);
    } else {
        assert((a + b).drop_last() =~= a + b.drop_last());
        assert((a + b).last() == b.last());
        lemma_find_child_concat(a, b.drop_last(), tag);
    }
}

/// No child is found among nodes of which none is an element with the tag.
pub proof fn lemma_find_child_none(nodes: Seq<NodeView>, tag: Seq<char>)
    requires
        forall|i: int| 0 <= i < nodes.len() ==> !is_element(#[trigger] nodes[i], tag),
    ensures
        find_child(nodes, tag) is None,
    decreases nodes.len(),
{
    if nodes.len() > 0 {
        assert(!is_element(nodes[nodes.len() - 1], tag));
        assert forall|i: int| 0 <= i < nodes.drop_last().len() implies !is_element(
            #[trigger] nodes.drop_last()[i],
            tag,
        ) by {
            assert(nodes.drop_last()[i] == nodes[i]);
        }
        lemma_find_child_none(nodes.drop_last(), tag);
    }
}

/// Reading two lists of children written one after the other.
pub proof fn lemma_decode_children_concat<T>(
    a: Seq<NodeView>,
    b: Seq<NodeView>,
    f: spec_fn(ElementView) -> Option<Result<T, DecodeError>>,
)
    ensures
        decode_children(a + b, f) == (match decode_children(a, f) {
            Err(e) => Err(e),
            Ok(x) => match decode_children(b, f) {
                Ok(y) => Ok(x + y),
                Err(e) => Err(e),
            },
        }),
    decreases b.len(),
{
    if b.len() == 0 {
        assert(a + b =~= a);
        if let Ok(x) = decode_children(a, f) {
            assert(x + Seq::<T>::empty() =~= x);
        }
    } else {
        assert((a + b).drop_last() =~= a + b.drop_last());
        assert((a + b).last() == b.last());
        lemma_decode_children_concat(a, b.drop_last(), f);
        if let Ok(x) = decode_children(a, f) {
            if let Ok(y) = decode_children(b.drop_last(), f) {
                if let NodeView::Element(el) = b.last() {
                    if let Some(Ok(item)) = f(el) {
                        assert((x + y).push(item) =~= x + y.push(item));
                    }
                }
            }
        }
    }
}

/// Reading children of which none belongs to the list gives the empty list.
pub proof fn lemma_decode_children_none<T>(
    nodes: Seq<NodeView>,
    f: spec_fn(ElementView) -> Option<Result<T, DecodeError>>,
)
    requires
        forall|i: int|
            0 <= i < nodes.len() ==> ((#[trigger] nodes[i]) matches NodeView::Element(el) ==> f(
                el,
            ) is None),
    ensures
        decode_children(nodes, f) == Ok::<Seq<T>, DecodeError>(Seq::empty()),
    decreases nodes.len(),
{
    if nodes.len() > 0 {
        assert forall|i: int| 0 <= i < nodes.drop_last().len() implies ((
        #[trigger] nodes.drop_last()[i]) matches NodeView::Element(el) ==> f(el) is None) by {
            assert(nodes.drop_last()[i] == nodes[i]);
        }
        lemma_decode_children_none(nodes.drop_last(), f);
        assert(nodes.last() == nodes[nodes.len() - 1]);
    }
}

/// Reading the elements that a list of items was written as gives the
/// items back, where each of them alone reads as itself.
pub proof fn lemma_decode_children_written<T>(
    items: Seq<T>,
    written: Seq<ElementView>,
    f: spec_fn(ElementView) -> Option<Result<T, DecodeError>>,
)
    requires
        written.len() == items.len(),
        forall|i: int|
            0 <= i < items.len() ==> f(#[trigger] written[i]) == Some(
                Ok::<T, DecodeError>(items[i]),
            ),
    ensures
        decode_children(element_nodes(written), f) == Ok::<Seq<T>, DecodeError>(items),
    decreases items.len(),
{
    let nodes = element_nodes(written);
    if items.len() == 0 {
        assert(items =~= Seq::<T>::empty());
    } else {
        assert(nodes.drop_last() =~= element_nodes(written.drop_last()));
        assert forall|i: int| 0 <= i < items.drop_last().len() implies f(
            #[trigger] written.drop_last()[i],
        ) == Some(Ok::<T, DecodeError>(items.drop_last()[i])) by {
            assert(written.drop_last()[i] == written[i]);
        }
        lemma_decode_children_written(items.drop_last(), written.drop_last(), f);
        assert(nodes.last() == NodeView::Element(written[written.len() - 1]));
        assert(f(written[written.len() - 1]) == Some(Ok::<T, DecodeError>(items.last())));
        assert(items.drop_last().push(items.last()) =~= items);
    }
}

impl<'a> Clone for Attribute<'a> {
    fn clone(&self) -> (r: Self)
        ensures
            r@ == self@,
    {
        Attribute { name: cow_clone(&self.name), value: cow_clone(&self.value) }
    }
}

impl<'a> Clone for Node<'a> {
    fn clone(&self) -> (r: Self)
        ensures
            r@ == self@,
    {
        self.duplicate()
    }
}

impl<'a> Clone for Element<'a> {
    fn clone(&self) -> (r: Self)
        ensures
            r@ == self@,
    {
        self.duplicate()
    }
}

impl<'a> Node<'a> {
    /// A copy of the node and of all that is below it.
    pub fn duplicate(&self) -> (r: Self)
        ensures
            r@ == self@,
        decreases self,
    {
        match self {
            Node::Element(e) => Node::Element(e.duplicate()),
            Node::Text(t) => Node::Text(cow_clone(t)),
            Node::Raw(t) => Node::Raw(cow_clone(t)),
        }
    }
}

impl<'a> Element<'a> {
    /// A copy of the element and of all that is below it.
    pub fn duplicate(&self) -> (r: Self)
        ensures
            r@ == self@,
        decreases self,
    {
        let mut attributes: Vec<Attribute<'a>> = Vec::new();
        let mut i: usize = 0;
        while i < self.attributes.len()
            invariant
                i <= self.attributes.len(),
                attributes@.len() == i,
                forall|j: int| 0 <= j < i ==> (#[trigger] attributes@[j])@ == self.attributes@[j]@,
            decreases self.attributes.len() - i,
        {
            let a = &self.attributes[i];
            attributes.push(Attribute { name: cow_clone(&a.name), value: cow_clone(&a.value) });
            i = i + 1;
        }
        let mut children: Vec<Node<'a>> = Vec::new();
        let mut k: usize = 0;
        while k < self.children.len()
            invariant
                k <= self.children.len(),
                children@.len() == k,
                forall|j: int| 0 <= j < k ==> (#[trigger] children@[j])@ == self.children@[j]@,
            decreases self.children.len() - k,
        {
            children.push(self.children[k].duplicate());
            k = k + 1;
        }
        let r = Element { tag: cow_clone(&self.tag), attributes, children };
        proof {
            assert(r@.attributes =~= self@.attributes);
            assert(r@.children =~= self@.children);
        }
        r
    }

    /// An element with the tag `tag`, without attributes or children.
    pub fn new(tag: &'a str) -> (r: Self)
        ensures
            r@ == (ElementView { tag: tag@, attributes: Seq::empty(), children: Seq::empty() }),
    {
        let r = Element { tag: Cow::Borrowed(tag), attributes: Vec::new(), children: Vec::new() };
        proof {
            assert(r@.attributes =~= Seq::<AttributeView>::empty());
            assert(r@.children =~= Seq::<NodeView>::empty());
        }
        r
    }

    /// The element with one more attribute at the end, where `value` is
    /// present; the element as it is, where it is not.
    pub fn with_attribute(self, name: &'a str, value: Option<Cow<'a, str>>) -> (r: Self)
        ensures
            r@ == (ElementView {
                attributes: self@.attributes + optional_attribute(
                    name@,
                    option_text(value),
                ),
                ..self@
            }),
    {
        let mut e = self;
        match value {
            Some(v) => {
                e.attributes.push(Attribute { name: Cow::Borrowed(name), value: v });
            },
            None => {},
        }
        proof {
            assert(e@.attributes =~= self@.attributes + optional_attribute(
                name@,
                option_text(value),
            ));
            assert(e@.children =~= self@.children);
        }
        e
    }

    /// The element with one more child element at the end, where `child` is
    /// present; the element as it is, where it is not.
    pub fn with_child(self, child: Option<Element<'a>>) -> (r: Self)
        ensures
            r@ == (ElementView {
                children: self@.children + optional_child(
                    match child {
                        Some(c) => Some(c@),
                        None => None,
                    },
                ),
                ..self@
            }),
    {
        let mut e = self;
        match child {
            Some(c) => {
                e.children.push(Node::Element(c));
            },
            None => {},
        }
        proof {
            assert(e@.attributes =~= self@.attributes);
            assert(e@.children =~= self@.children + optional_child(
                match child {
                    Some(c) => Some(c@),
                    None => None,
                },
            ));
        }
        e
    }

    /// The element with `text` as one more child at the end.
    pub fn with_text(self, text: Cow<'a, str>) -> (r: Self)
        ensures
            r@ == (ElementView { children: self@.children.push(NodeView::Text(text@)), ..self@ }),
    {
        let mut e = self;
        e.children.push(Node::Text(text));
        proof {
            assert(e@.attributes =~= self@.attributes);
            assert(e@.children =~= self@.children.push(NodeView::Text(text@)));
        }
        e
    }

    /// Whether the element has the tag `tag`.
    pub fn has_tag(&self, tag: &str) -> (r: bool)
        ensures
            r == (self@.tag == tag@),
    {
        str_eq(cow_str(&self.tag), tag)
    }

    /// The value of the attribute `name`, where the element has one.
    pub fn attribute(&self, name: &str) -> (r: Option<&Cow<'a, str>>)
        ensures
            r is Some <==> self@.attribute(name@) is Some,
            r is Some ==> r->0@ == self@.attribute(name@)->0,
    {
        let mut i: usize = 0;
        proof {
            assert(self@.attributes.skip(0) =~= self@.attributes);
        }
        while i < self.attributes.len()
            invariant
                i <= self.attributes.len(),
                find_attribute(self@.attributes.skip(i as int), name@) == self@.attribute(name@),
            decreases self.attributes.len() - i,
        {
            proof {
                let rest = self@.attributes.skip(i as int);
                assert(rest[0] == self.attributes@[i as int]@);
                assert(rest.drop_first() =~= self@.attributes.skip(i + 1));
            }
            if str_eq(cow_str(&self.attributes[i].name), name) {
                return Some(&self.attributes[i].value);
            }
            i = i + 1;
        }
        None
    }

    /// The last child element with the tag `tag`.
    pub fn find_child(&self, tag: &str) -> (r: Option<&Element<'a>>)
        ensures
            r is Some <==> self@.child(tag@) is Some,
            r is Some ==> r->0@ == self@.child(tag@)->0,
    {
        let mut i: usize = self.children.len();
        proof {
            assert(self@.children.take(i as int) =~= self@.children);
        }
        while i > 0
            invariant
                i <= self.children.len(),
                find_child(self@.children.take(i as int), tag@) == self@.child(tag@),
            decreases i,
        {
            proof {
                let front = self@.children.take(i as int);
                assert(front.last() == self.children@[i - 1]@);
                assert(front.drop_last() =~= self@.children.take(i - 1));
            }
            match &self.children[i - 1] {
                Node::Element(e) => {
                    if e.has_tag(tag) {
                        return Some(e);
                    }
                },
                _ => {},
            }
            i = i - 1;
        }
        None
    }

    /// Reads the children with the tag `tag` with `read`, as
    /// [`single_decoded`] says, where `f` says what `read` gives.
    pub(crate) fn decode_single<T: View, F: Fn(&Element<'a>) -> Result<T, DecodeError>>(
        &self,
        tag: &str,
        read: F,
        Ghost(f): Ghost<spec_fn(ElementView) -> Result<T::V, DecodeError>>,
    ) -> (r: Result<Option<T>, DecodeError>)
        requires
            forall|c: &Element<'a>| call_requires(read, (c,)),
            forall|c: &Element<'a>, x: Result<T, DecodeError>|
                call_ensures(read, (c,), x) ==> decoded_as(x, f(c@)),
        ensures
            single_decoded_as(r, single_decoded(self@.children, tag@, f)),
    {
        let mut found: Option<T> = None;
        let mut i: usize = 0;
        proof {
            assert(self@.children.take(0) =~= Seq::<NodeView>::empty());
        }
        while i < self.children.len()
            invariant
                i <= self.children.len(),
                forall|c: &Element<'a>| call_requires(read, (c,)),
                forall|c: &Element<'a>, x: Result<T, DecodeError>|
                    call_ensures(read, (c,), x) ==> decoded_as(x, f(c@)),
                forall|j: int| 0 <= j < i ==> !fails_at(self@.children, tag@, f, j),
                single_decoded_as(
                    Ok::<Option<T>, DecodeError>(found),
                    optional_decoded(find_child(self@.children.take(i as int), tag@), f),
                ),
            decreases self.children.len() - i,
        {
            proof {
                let all = self@.children;
                assert(all.take(i as int + 1).drop_last() =~= all.take(i as int));
                assert(all.take(i as int + 1).last() == self.children@[i as int]@);
                assert(all[i as int] == self.children@[i as int]@);
            }
            match &self.children[i] {
                Node::Element(c) => {
                    if c.has_tag(tag) {
                        match read(c) {
                            Ok(x) => {
                                found = Some(x);
                            },
                            Err(x) => {
                                proof {
                                    lemma_single_decoded_fails(self@.children, tag@, f, i as int);
                                }
                                return Err(x);
                            },
                        }
                    }
                },
                _ => {},
            }
            i = i + 1;
        }
        proof {
            assert(self@.children.take(i as int) =~= self@.children);
        }
        Ok(found)
    }

    /// Reads the children with the tag `tag` with `read`, as
    /// [`single_decoded`] says, where `read` gives what `f` says.
    pub(crate) fn decode_single_value<T, F: Fn(&Element<'a>) -> Result<T, DecodeError>>(
        &self,
        tag: &str,
        read: F,
        Ghost(f): Ghost<spec_fn(ElementView) -> Result<T, DecodeError>>,
    ) -> (r: Result<Option<T>, DecodeError>)
        requires
            forall|c: &Element<'a>| call_requires(read, (c,)),
            forall|c: &Element<'a>, x: Result<T, DecodeError>|
                call_ensures(read, (c,), x) ==> x == f(c@),
        ensures
            r == single_decoded(self@.children, tag@, f),
    {
        let mut found: Option<T> = None;
        let mut i: usize = 0;
        proof {
            assert(self@.children.take(0) =~= Seq::<NodeView>::empty());
        }
        while i < self.children.len()
            invariant
                i <= self.children.len(),
                forall|c: &Element<'a>| call_requires(read, (c,)),
                forall|c: &Element<'a>, x: Result<T, DecodeError>|
                    call_ensures(read, (c,), x) ==> x == f(c@),
                forall|j: int| 0 <= j < i ==> !fails_at(self@.children, tag@, f, j),
                Ok::<Option<T>, DecodeError>(found) == optional_decoded(
                    find_child(self@.children.take(i as int), tag@),
                    f,
                ),
            decreases self.children.len() - i,
        {
            proof {
                let all = self@.children;
                assert(all.take(i as int + 1).drop_last() =~= all.take(i as int));
                assert(all.take(i as int + 1).last() == self.children@[i as int]@);
                assert(all[i as int] == self.children@[i as int]@);
            }
            match &self.children[i] {
                Node::Element(c) => {
                    if c.has_tag(tag) {
                        match read(c) {
                            Ok(x) => {
                                found = Some(x);
                            },
                            Err(x) => {
                                proof {
                                    lemma_single_decoded_fails(self@.children, tag@, f, i as int);
                                }
                                return Err(x);
                            },
                        }
                    }
                },
                _ => {},
            }
            i = i + 1;
        }
        proof {
            assert(self@.children.take(i as int) =~= self@.children);
        }
        Ok(found)
    }

    /// Whether the element holds nothing but character data with
    /// well-formed escapes.
    pub fn only_text(&self) -> (r: bool)
        ensures
            r == only_text(self@.children),
    {
        let mut i: usize = 0;
        while i < self.children.len()
            invariant
                i <= self.children.len(),
                forall|j: int| 0 <= j < i ==> #[trigger] self@.children[j] is Text,
            decreases self.children.len() - i,
        {
            match &self.children[i] {
                Node::Text(_) => {},
                _ => {
                    assert(!(self@.children[i as int] is Text));
                    return false;
                },
            }
            i = i + 1;
        }
        true
    }

    /// The character data directly below the element, in one piece. Where
    /// the element holds nothing but one piece of character data, that
    /// piece comes back as it is stored; else the pieces are copied.
    pub fn text(&self) -> (r: Cow<'a, str>)
        ensures
            r@ == self@.text(),
    {
        if self.children.len() == 1 {
            if let Node::Text(t) = &self.children[0] {
                proof {
                    assert(self@.children.drop_last() =~= Seq::<NodeView>::empty());
                    assert(self@.children.last() == NodeView::Text(t@));
                    reveal_with_fuel(nodes_text, 2);
                    assert(nodes_text(self@.children) =~= t@);
                }
                return cow_clone(t);
            }
        }
        let mut buf: Vec<char> = Vec::new();
        let mut i: usize = 0;
        while i < self.children.len()
            invariant
                i <= self.children.len(),
                buf@ == nodes_text(self@.children.take(i as int)),
            decreases self.children.len() - i,
        {
            proof {
                let all = self@.children;
                assert(all.take(i as int + 1).drop_last() =~= all.take(i as int));
                assert(all.take(i as int + 1).last() == self.children@[i as int]@);
            }
            match &self.children[i] {
                Node::Text(t) => {
                    let part = chars_of(cow_str(t));
                    chars_extend(&mut buf, &part);
                },
                _ => {
                    assert(buf@ + Seq::<char>::empty() =~= buf@);
                },
            }
            i = i + 1;
        }
        proof {
            assert(self@.children.take(i as int) =~= self@.children);
        }
        Cow::Owned(string_from_chars(&buf))
    }
}

/// What an optional child reads as, where `f` says what an element reads
/// as.
pub open spec fn optional_decoded<T>(
    child: Option<ElementView>,
    f: spec_fn(ElementView) -> Result<T, DecodeError>,
) -> Result<Option<T>, DecodeError> {
    match child {
        Some(el) => match f(el) {
            Ok(x) => Ok(Some(x)),
            Err(e) => Err(e),
        },
        None => Ok(None),
    }
}

/// Whether the child at `i` is an element with the tag `tag` that fails to
/// read, where `f` says what an element reads as.
pub open spec fn fails_at<T>(
    nodes: Seq<NodeView>,
    tag: Seq<char>,
    f: spec_fn(ElementView) -> Result<T, DecodeError>,
    i: int,
) -> bool {
    0 <= i < nodes.len() && is_element(nodes[i], tag) && f(nodes[i]->Element_0) is Err
}

/// Whether `i` is the place of the first child with the tag `tag` that
/// fails to read.
pub open spec fn fails_first_at<T>(
    nodes: Seq<NodeView>,
    tag: Seq<char>,
    f: spec_fn(ElementView) -> Result<T, DecodeError>,
    i: int,
) -> bool {
    fails_at(nodes, tag, f, i) && forall|j: int| 0 <= j < i ==> !fails_at(nodes, tag, f, j)
}

/// What the children with the tag `tag` read as, where the node takes one
/// such child: each of them is read, in order, and the first that fails
/// fails the whole; else the last one counts.
pub open spec fn single_decoded<T>(
    nodes: Seq<NodeView>,
    tag: Seq<char>,
    f: spec_fn(ElementView) -> Result<T, DecodeError>,
) -> Result<Option<T>, DecodeError> {
    if exists|i: int| fails_at(nodes, tag, f, i) {
        let first = choose|i: int| fails_first_at(nodes, tag, f, i);
        Err(f(nodes[first]->Element_0)->Err_0)
    } else {
        optional_decoded(find_child(nodes, tag), f)
    }
}

/// What was read of a child that may be absent, with `default` in the place
/// of an absent one.
pub open spec fn or_default<T>(read: Result<Option<T>, DecodeError>, default: T) -> Result<
    T,
    DecodeError,
> {
    match read {
        Err(x) => Err(x),
        Ok(Some(v)) => Ok(v),
        Ok(None) => Ok(default),
    }
}

/// Whether `r` is what `expected` says of a child that may be absent.
pub open spec fn single_decoded_as<T: View>(
    r: Result<Option<T>, DecodeError>,
    expected: Result<Option<T::V>, DecodeError>,
) -> bool {
    match (r, expected) {
        (Ok(Some(x)), Ok(Some(v))) => x@ == v,
        (Ok(None), Ok(None)) => true,
        (Err(a), Err(b)) => a == b,
        _ => false,
    }
}

/// Where the child at `i` is the first that fails, its error is what the
/// children read as.
pub proof fn lemma_single_decoded_fails<T>(
    nodes: Seq<NodeView>,
    tag: Seq<char>,
    f: spec_fn(ElementView) -> Result<T, DecodeError>,
    i: int,
)
    requires
        fails_first_at(nodes, tag, f, i),
    ensures
        single_decoded(nodes, tag, f) == Err::<Option<T>, DecodeError>(
            f(nodes[i]->Element_0)->Err_0,
        ),
{
    let first = choose|k: int| fails_first_at(nodes, tag, f, k);
    assert(fails_first_at(nodes, tag, f, first));
    if first < i {
        assert(!fails_at(nodes, tag, f, first));
    } else if first > i {
        assert(!fails_at(nodes, tag, f, i));
    }
}

/// The element that an optional value is written as, where `f` says what a
/// value is written as.
pub open spec fn optional_encoded<T>(value: Option<T>, f: spec_fn(T) -> ElementView) -> Option<
    ElementView,
> {
    match value {
        Some(x) => Some(f(x)),
        None => None,
    }
}

/// A child is found in the list of an optional element where the element is
/// there and has the tag.
pub proof fn lemma_find_optional_child(o: Option<ElementView>, tag: Seq<char>)
    ensures
        find_child(optional_child(o), tag) == (if o is Some && o->0.tag == tag {
            o
        } else {
            None
        }),
{
    reveal_with_fuel(find_child, 2);
    if o is Some {
        assert(optional_child(o).drop_last() =~= Seq::<NodeView>::empty());
    }
}

/// Whether `r` is what `expected` says of an element that may or may not
/// belong to a list.
pub open spec fn child_decoded_as<T: View>(
    r: Option<Result<T, DecodeError>>,
    expected: Option<Result<T::V, DecodeError>>,
) -> bool {
    match (r, expected) {
        (None, None) => true,
        (Some(a), Some(b)) => decoded_as(a, b),
        _ => false,
    }
}

/// Where the first `k` children fail to read, all of them fail alike.
pub proof fn lemma_decode_children_prefix_error<T>(
    nodes: Seq<NodeView>,
    k: int,
    f: spec_fn(ElementView) -> Option<Result<T, DecodeError>>,
)
    requires
        0 <= k <= nodes.len(),
        decode_children(nodes.take(k), f) is Err,
    ensures
        decode_children(nodes, f) == decode_children(nodes.take(k), f),
{
    assert(nodes =~= nodes.take(k) + nodes.skip(k));
    lemma_decode_children_concat(nodes.take(k), nodes.skip(k), f);
}

/// An element without attributes or children.
pub open spec fn empty_element(tag: Seq<char>) -> ElementView {
    ElementView { tag, attributes: Seq::empty(), children: Seq::empty() }
}

} // verus!
