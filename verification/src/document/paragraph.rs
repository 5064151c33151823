//! Paragraphs and their inline content.
use crate::document::run::{Run, RunContentView, RunView};
use crate::document::track_changes::{Deletion, DeletionView, Insertion, InsertionView};
use crate::error::{DecodeError, SubstitutionError};
use crate::formatting::paragraph_property::ParagraphProperty;
use crate::text::{
    concat, dictionary_view, join_leaves, leaf_views, lemma_texts_substituted_concat,
    texts_substituted,
};
use crate::xml::codec::names_view;
use crate::xml::element::{
    child_decoded_as, decode_children, decoded_as, element_nodes, is_element,
    lemma_decode_children_concat, lemma_decode_children_none, lemma_decode_children_prefix_error,
    lemma_decode_children_written, lemma_find_child_concat, lemma_find_child_none,
    lemma_find_optional_child, optional_child, optional_encoded, single_decoded, Element,
    ElementView, Node, NodeView,
};
use crate::xml::reader::{parse_as, parsed_as};
use crate::xml::writer::element_text;
use std::borrow::Cow;
use vstd::prelude::*;

verus! {

/// One entry of a paragraph: a run or a revision wrapper.
#[derive(Debug, PartialEq)]
pub enum ParagraphContent<'a> {
    /// A run (`w:r`).
    Run(Run<'a>),
    /// Inserted runs (`w:ins`).
    Insertion(Insertion<'a>),
    /// Deleted runs (`w:del`).
    Deletion(Deletion<'a>),
}

/// What a [`ParagraphContent`] holds.
pub enum ParagraphContentView {
    Run(RunView),
    Insertion(InsertionView),
    Deletion(DeletionView),
}

impl<'a> View for ParagraphContent<'a> {
    type V = ParagraphContentView;

    open spec fn view(&self) -> ParagraphContentView {
        match self {
            ParagraphContent::Run(r) => ParagraphContentView::Run(r@),
            ParagraphContent::Insertion(i) => ParagraphContentView::Insertion(i@),
            ParagraphContent::Deletion(d) => ParagraphContentView::Deletion(d@),
        }
    }
}

impl ParagraphContentView {
    /// The text leaves of the entry, in order. Text inside a revision
    /// wrapper is among them.
    pub open spec fn texts(self) -> Seq<Seq<char>> {
        match self {
            ParagraphContentView::Run(r) => r.texts(),
            ParagraphContentView::Insertion(i) => i.texts(),
            ParagraphContentView::Deletion(d) => d.texts(),
        }
    }

    /// The entry after `dict` was applied to each of its text leaves.
    pub open spec fn substituted(self, dict: Seq<(Seq<char>, Seq<char>)>) -> ParagraphContentView {
        match self {
            ParagraphContentView::Run(r) => ParagraphContentView::Run(r.substituted(dict)),
            ParagraphContentView::Insertion(i) => ParagraphContentView::Insertion(
                i.substituted(dict),
            ),
            ParagraphContentView::Deletion(d) => ParagraphContentView::Deletion(
                d.substituted(dict),
            ),
        }
    }
}

/// The text leaves of a sequence of paragraph entries, in order.
pub open spec fn paragraph_contents_texts(cs: Seq<ParagraphContentView>) -> Seq<Seq<char>>
    decreases cs.len(),
{
    if cs.len() == 0 {
        Seq::empty()
    } else {
        paragraph_contents_texts(cs.drop_last()) + cs.last().texts()
    }
}

/// A paragraph (`w:p`).
#[derive(Debug, PartialEq)]
pub struct Paragraph<'a> {
    /// Properties of the paragraph, where it has some.
    pub property: Option<ParagraphProperty>,
    /// Runs and revision wrappers, in order.
    pub content: Vec<ParagraphContent<'a>>,
}

/// What a [`Paragraph`] holds.
pub struct ParagraphView {
    pub property: Option<ParagraphProperty>,
    pub content: Seq<ParagraphContentView>,
}

impl<'a> View for Paragraph<'a> {
    type V = ParagraphView;

    open spec fn view(&self) -> ParagraphView {
        ParagraphView {
            property: self.property,
            content: paragraph_contents_view(self.content@),
        }
    }
}

impl ParagraphView {
    /// The text leaves of the paragraph, in order.
    pub open spec fn texts(self) -> Seq<Seq<char>> {
        paragraph_contents_texts(self.content)
    }

    /// The paragraph after `dict` was applied to each of its text leaves.
    pub open spec fn substituted(self, dict: Seq<(Seq<char>, Seq<char>)>) -> ParagraphView {
        ParagraphView {
            property: self.property,
            content: Seq::new(self.content.len(), |i: int| self.content[i].substituted(dict)),
        }
    }
}

impl<'a> ParagraphContent<'a> {
    /// Handles on the text leaves of the entry, in order.
    pub fn iter_text(&self) -> (r: Vec<&Cow<'a, str>>)
        ensures
            leaf_views(r@) == self@.texts(),
    {
        match self {
            ParagraphContent::Run(r) => r.iter_text(),
            ParagraphContent::Insertion(i) => i.iter_text(),
            ParagraphContent::Deletion(d) => d.iter_text(),
        }
    }

    /// Applies `dic` to every text leaf of the entry.
    pub fn replace_text(&mut self, dic: &[(&str, &str)]) -> (r: Result<(), SubstitutionError>)
        ensures
            r is Ok,
            final(self)@ == old(self)@.substituted(dictionary_view(dic@)),
            final(self).owns_texts(),
    {
        match self {
            ParagraphContent::Run(r) => r.replace_text(dic),
            ParagraphContent::Insertion(i) => i.replace_text(dic),
            ParagraphContent::Deletion(d) => d.replace_text(dic),
        }
    }
}

impl<'a> Default for Paragraph<'a> {
    fn default() -> (r: Self)
        ensures
            r@ == (ParagraphView { property: None, content: Seq::empty() }),
    {
        let r = Paragraph { property: None, content: Vec::new() };
        assert(r@.content =~= Seq::<ParagraphContentView>::empty());
        r
    }
}

impl<'a> Paragraph<'a> {
    /// Sets the properties of the paragraph.
    pub fn property(self, property: ParagraphProperty) -> (r: Self)
        ensures
            r@ == (ParagraphView { property: Some(property), content: self@.content }),
    {
        let r = Paragraph { property: Some(property), content: self.content };
        assert(r@.content =~= self@.content);
        r
    }

    /// Appends one entry to the paragraph.
    pub fn push(self, content: ParagraphContent<'a>) -> (r: Self)
        ensures
            r@ == (ParagraphView {
                property: self@.property,
                content: self@.content.push(content@),
            }),
    {
        let mut p = self;
        p.content.push(content);
        assert(p@.content =~= self@.content.push(content@));
        p
    }

    /// Appends a run that holds `text` alone.
    pub fn push_text(self, text: &'a str) -> (r: Self)
        ensures
            r@ == (ParagraphView {
                property: self@.property,
                content: self@.content.push(
                    ParagraphContentView::Run(
                        RunView {
                            content: seq![RunContentView::Text(text@)],
                        },
                    ),
                ),
            }),
    {
        let run = Run::default().push_text(text);
        assert(run@.content =~= seq![RunContentView::Text(text@)]);
        self.push(ParagraphContent::Run(run))
    }

    /// Handles on the text leaves of the paragraph, in order.
    pub fn iter_text(&self) -> (r: Vec<&Cow<'a, str>>)
        ensures
            leaf_views(r@) == self@.texts(),
    {
        let mut out: Vec<&Cow<'a, str>> = Vec::new();
        let mut i: usize = 0;
        assert(leaf_views(out@) =~= paragraph_contents_texts(self@.content.take(0)));
        while i < self.content.len()
            invariant
                i <= self.content.len(),
                leaf_views(out@) == paragraph_contents_texts(self@.content.take(i as int)),
            decreases self.content.len() - i,
        {
            proof {
                let all = self@.content;
                assert(all.take(i as int + 1).drop_last() =~= all.take(i as int));
                assert(all.take(i as int + 1).last() == self.content@[i as int]@);
            }
            let ghost before = out@;
            let mut part = self.content[i].iter_text();
            let ghost added = part@;
            out.append(&mut part);
            assert(leaf_views(out@) =~= leaf_views(before) + leaf_views(added));
            i = i + 1;
        }
        proof {
            assert(self@.content.take(i as int) =~= self@.content);
        }
        out
    }

    /// The text leaves of the paragraph, written one after the other.
    pub fn text(&self) -> (r: String)
        ensures
            r@ == concat(self@.texts()),
    {
        let leaves = self.iter_text();
        join_leaves(&leaves)
    }

    /// Applies `dic` to every text leaf of the paragraph.
    pub fn replace_text(&mut self, dic: &[(&str, &str)]) -> (r: Result<(), SubstitutionError>)
        ensures
            r is Ok,
            final(self)@ == old(self)@.substituted(dictionary_view(dic@)),
            final(self).owns_texts(),
    {
        let mut i: usize = 0;
        while i < self.content.len()
            invariant
                i <= self.content.len(),
                self.property == old(self).property,
                self.content@.len() == old(self).content@.len(),
                forall|j: int|
                    i <= j < self.content@.len() ==> self.content@[j] == old(self).content@[j],
                forall|j: int| 0 <= j < i ==> (#[trigger] self.content@[j]).owns_texts(),
                forall|j: int|
                    0 <= j < i ==> (#[trigger] self.content@[j])@
                        == old(self).content@[j]@.substituted(dictionary_view(dic@)),
            decreases self.content.len() - i,
        {
            let _ = self.content[i].replace_text(dic);
            i = i + 1;
        }
        proof {
            assert(self@.content =~= old(self)@.substituted(dictionary_view(dic@)).content);
        }
        Ok(())
    }
}

impl ParagraphContentView {
    /// The element that the entry is written as.
    pub open spec fn encoded(self) -> ElementView {
        match self {
            ParagraphContentView::Run(r) => r.encoded(),
            ParagraphContentView::Insertion(i) => i.encoded(),
            ParagraphContentView::Deletion(d) => d.encoded(),
        }
    }

    /// Whether an element with the tag `tag` is an entry of a paragraph.
    pub open spec fn belongs(tag: Seq<char>) -> bool {
        tag == "w:r"@ || tag == "w:ins"@ || tag == "w:del"@
    }

    /// The entry that an element reads as; its tag says which variant.
    pub open spec fn decoded(e: ElementView) -> Result<ParagraphContentView, DecodeError> {
        if e.tag == "w:r"@ {
            match RunView::decoded(e) {
                Ok(r) => Ok(ParagraphContentView::Run(r)),
                Err(x) => Err(x),
            }
        } else if e.tag == "w:ins"@ {
            match InsertionView::decoded(e) {
                Ok(i) => Ok(ParagraphContentView::Insertion(i)),
                Err(x) => Err(x),
            }
        } else if e.tag == "w:del"@ {
            match DeletionView::decoded(e) {
                Ok(d) => Ok(ParagraphContentView::Deletion(d)),
                Err(x) => Err(x),
            }
        } else {
            Err(DecodeError::UnexpectedTag)
        }
    }

    /// What a child of a paragraph reads as: an entry where its tag is that
    /// of one, nothing where it is not.
    pub open spec fn decoded_child(e: ElementView) -> Option<
        Result<ParagraphContentView, DecodeError>,
    > {
        if ParagraphContentView::belongs(e.tag) {
            Some(ParagraphContentView::decoded(e))
        } else {
            None
        }
    }

    /// An entry reads as it was written.
    pub proof fn lemma_decode_encode(self)
        ensures
            ParagraphContentView::decoded(self.encoded()) == Ok::<
                ParagraphContentView,
                DecodeError,
            >(self),
            ParagraphContentView::belongs(self.encoded().tag),
    {
        lemma_paragraph_tags();
        match self {
            ParagraphContentView::Run(r) => {
                r.lemma_decode_encode();
            },
            ParagraphContentView::Insertion(i) => {
                i.lemma_decode_encode();
            },
            ParagraphContentView::Deletion(d) => {
                d.lemma_decode_encode();
            },
        }
    }
}

/// The tags of a paragraph's children differ from each other.
pub proof fn lemma_paragraph_tags()
    ensures
        "w:r"@ != "w:ins"@,
        "w:r"@ != "w:del"@,
        "w:ins"@ != "w:del"@,
        !ParagraphContentView::belongs("w:pPr"@),
{
    reveal_strlit("w:r");
    reveal_strlit("w:ins");
    reveal_strlit("w:del");
    reveal_strlit("w:pPr");
    assert("w:r"@.len() == 3);
    assert("w:ins"@.len() == 5 && "w:ins"@[2] == 'i');
    assert("w:del"@.len() == 5 && "w:del"@[2] == 'd');
    assert("w:pPr"@.len() == 5 && "w:pPr"@[2] == 'p');
}

/// How the children of a paragraph are read.
pub open spec fn paragraph_content_reader() -> spec_fn(ElementView) -> Option<
    Result<ParagraphContentView, DecodeError>,
> {
    |c: ElementView| ParagraphContentView::decoded_child(c)
}

/// The views of a sequence of paragraph entries.
pub open spec fn paragraph_contents_view(cs: Seq<ParagraphContent<'_>>) -> Seq<
    ParagraphContentView,
> {
    Seq::new(cs.len(), |i: int| cs[i]@)
}

/// The elements that a sequence of paragraph entries is written as.
pub open spec fn paragraph_contents_encoded(cs: Seq<ParagraphContentView>) -> Seq<ElementView> {
    Seq::new(cs.len(), |i: int| cs[i].encoded())
}

impl ParagraphView {
    /// The element that the paragraph is written as: its properties first,
    /// where it has some, then one child for each entry.
    pub open spec fn encoded(self) -> ElementView {
        ElementView {
            tag: "w:p"@,
            attributes: Seq::empty(),
            children: optional_child(
                optional_encoded(self.property, |p: ParagraphProperty| p.encoded()),
            ) + element_nodes(paragraph_contents_encoded(self.content)),
        }
    }

    /// The paragraph that an element reads as. The element must have the
    /// tag `w:p`. Its properties are read first, then its entries in order;
    /// children that are neither are passed over, and what fails to read
    /// fails the paragraph.
    pub open spec fn decoded(e: ElementView) -> Result<ParagraphView, DecodeError> {
        if e.tag != "w:p"@ {
            Err(DecodeError::UnexpectedTag)
        } else {
            match single_decoded(
                e.children,
                "w:pPr"@,
                |c: ElementView| ParagraphProperty::decoded(c),
            ) {
                Err(x) => Err(x),
                Ok(property) => match decode_children(e.children, paragraph_content_reader()) {
                    Ok(content) => Ok(ParagraphView { property, content }),
                    Err(x) => Err(x),
                },
            }
        }
    }

    /// A paragraph reads as it was written.
    pub proof fn lemma_decode_encode(self)
        ensures
            ParagraphView::decoded(self.encoded()) == Ok::<ParagraphView, DecodeError>(self),
    {
        lemma_paragraph_tags();
        let first = optional_child(
            optional_encoded(self.property, |p: ParagraphProperty| p.encoded()),
        );
        let written = paragraph_contents_encoded(self.content);
        let rest = element_nodes(written);
        assert forall|i: int| 0 <= i < self.content.len() implies paragraph_content_reader()(
            #[trigger] written[i],
        ) == Some(Ok::<ParagraphContentView, DecodeError>(self.content[i])) by {
            self.content[i].lemma_decode_encode();
        }
        lemma_decode_children_written(self.content, written, paragraph_content_reader());
        lemma_decode_children_concat(first, rest, paragraph_content_reader());
        lemma_decode_children_none(first, paragraph_content_reader());
        assert(Seq::<ParagraphContentView>::empty() + self.content =~= self.content);
        lemma_find_child_concat(first, rest, "w:pPr"@);
        lemma_find_optional_child(
            optional_encoded(self.property, |p: ParagraphProperty| p.encoded()),
            "w:pPr"@,
        );
        assert forall|i: int| 0 <= i < rest.len() implies !is_element(
            #[trigger] rest[i],
            "w:pPr"@,
        ) by {
            self.content[i].lemma_decode_encode();
            assert(rest[i] == NodeView::Element(written[i]));
        }
        lemma_find_child_none(rest, "w:pPr"@);
        if let Some(p) = self.property {
            p.lemma_decode_encode();
        }
    }
}

impl<'a> ParagraphContent<'a> {
    /// Writes the entry as an element.
    pub fn encode(&self) -> (e: Element<'a>)
        ensures
            e@ == self@.encoded(),
    {
        match self {
            ParagraphContent::Run(r) => r.encode(),
            ParagraphContent::Insertion(i) => i.encode(),
            ParagraphContent::Deletion(d) => d.encode(),
        }
    }

    /// Reads an entry from an element.
    pub fn decode(e: &Element<'a>) -> (r: Result<ParagraphContent<'a>, DecodeError>)
        ensures
            decoded_as(r, ParagraphContentView::decoded(e@)),
    {
        if e.has_tag("w:r") {
            Ok(ParagraphContent::Run(Run::decode(e)?))
        } else if e.has_tag("w:ins") {
            Ok(ParagraphContent::Insertion(Insertion::decode(e)?))
        } else if e.has_tag("w:del") {
            Ok(ParagraphContent::Deletion(Deletion::decode(e)?))
        } else {
            Err(DecodeError::UnexpectedTag)
        }
    }

    /// Reads a child of a paragraph: an entry where its tag is that of one,
    /// nothing where it is not.
    pub fn decode_child(e: &Element<'a>) -> (r: Option<Result<ParagraphContent<'a>, DecodeError>>)
        ensures
            child_decoded_as(r, ParagraphContentView::decoded_child(e@)),
    {
        if e.has_tag("w:r") || e.has_tag("w:ins") || e.has_tag("w:del") {
            Some(ParagraphContent::decode(e))
        } else {
            None
        }
    }
}

/// Reads the entries of a paragraph from the children of `e`.
pub fn decode_paragraph_contents<'a>(e: &Element<'a>) -> (r: Result<
    Vec<ParagraphContent<'a>>,
    DecodeError,
>)
    ensures
        match decode_children(e@.children, paragraph_content_reader()) {
            Ok(content) => r is Ok && paragraph_contents_view(r->Ok_0@) == content,
            Err(x) => r == Err::<Vec<ParagraphContent<'a>>, DecodeError>(x),
        },
{
    let mut content: Vec<ParagraphContent<'a>> = Vec::new();
    let mut i: usize = 0;
    proof {
        assert(e@.children.take(0) =~= Seq::<NodeView>::empty());
        assert(paragraph_contents_view(content@) =~= Seq::<ParagraphContentView>::empty());
    }
    while i < e.children.len()
        invariant
            i <= e.children.len(),
            decode_children(e@.children.take(i as int), paragraph_content_reader()) == Ok::<
                Seq<ParagraphContentView>,
                DecodeError,
            >(paragraph_contents_view(content@)),
        decreases e.children.len() - i,
    {
        proof {
            let all = e@.children;
            assert(all.take(i as int + 1).drop_last() =~= all.take(i as int));
            assert(all.take(i as int + 1).last() == e.children@[i as int]@);
        }
        let ghost before = paragraph_contents_view(content@);
        match &e.children[i] {
            Node::Element(c) => match ParagraphContent::decode_child(c) {
                None => {},
                Some(Ok(x)) => {
                    content.push(x);
                    proof {
                        assert(paragraph_contents_view(content@) =~= before.push(x@));
                    }
                },
                Some(Err(x)) => {
                    proof {
                        lemma_decode_children_prefix_error(
                            e@.children,
                            i as int + 1,
                            paragraph_content_reader(),
                        );
                    }
                    return Err(x);
                },
            },
            _ => {},
        }
        i = i + 1;
    }
    proof {
        assert(e@.children.take(i as int) =~= e@.children);
    }
    Ok(content)
}

/// Appends the elements that `content` is written as to the children of `e`.
pub fn encode_paragraph_contents<'a>(e: Element<'a>, content: &Vec<ParagraphContent<'a>>) -> (r:
    Element<'a>)
    ensures
        r@ == (ElementView {
            children: e@.children + element_nodes(
                paragraph_contents_encoded(paragraph_contents_view(content@)),
            ),
            ..e@
        }),
{
    let mut e = e;
    let ghost start = e@;
    let ghost all = element_nodes(paragraph_contents_encoded(paragraph_contents_view(content@)));
    let mut i: usize = 0;
    proof {
        assert(start.children + all.take(0) =~= start.children);
    }
    while i < content.len()
        invariant
            i <= content.len(),
            all == element_nodes(paragraph_contents_encoded(paragraph_contents_view(content@))),
            all.len() == content.len(),
            e@.tag == start.tag,
            e@.attributes == start.attributes,
            e@.children == start.children + all.take(i as int),
        decreases content.len() - i,
    {
        let child = content[i].encode();
        proof {
            assert(start.children + all.take(i as int + 1) =~= (start.children + all.take(
                i as int,
            )) + seq![NodeView::Element(child@)]);
        }
        e = e.with_child(Some(child));
        i = i + 1;
    }
    proof {
        assert(all.take(i as int) =~= all);
    }
    e
}

impl<'a> Paragraph<'a> {
    /// Writes the paragraph as an element.
    pub fn encode(&self) -> (e: Element<'a>)
        ensures
            e@ == self@.encoded(),
    {
        let first: Option<Element<'a>> = match self.property {
            Some(p) => Some(p.encode()),
            None => None,
        };
        let e = encode_paragraph_contents(Element::new("w:p").with_child(first), &self.content);
        proof {
            assert(paragraph_contents_view(self.content@) =~= self@.content);
            assert(e@.children =~= self@.encoded().children);
        }
        e
    }

    /// Reads a paragraph from an element.
    pub fn decode(e: &Element<'a>) -> (r: Result<Paragraph<'a>, DecodeError>)
        ensures
            decoded_as(r, ParagraphView::decoded(e@)),
    {
        if !e.has_tag("w:p") {
            return Err(DecodeError::UnexpectedTag);
        }
        let property = e.decode_single_value(
            "w:pPr",
            ParagraphProperty::decode,
            Ghost(|c: ElementView| ParagraphProperty::decoded(c)),
        )?;
        let content = decode_paragraph_contents(e)?;
        let p = Paragraph { property, content };
        proof {
            assert(p@.content =~= paragraph_contents_view(p.content@));
        }
        Ok(p)
    }
}

impl<'a> ParagraphContent<'a> {
    /// Reads an entry of a paragraph from XML text: the first element of the
    /// text with one of the tags `w:r`, `w:ins` and `w:del` is read as
    /// [`ParagraphContent::decode`] reads an element. Whole elements with other
    /// tags before it are passed over.
    pub fn from_str(text: &'a str) -> (r: Result<ParagraphContent<'a>, DecodeError>)
        ensures
            decoded_as(
                r,
                match parsed_as(text@, seq!["w:r"@, "w:ins"@, "w:del"@]) {
                    Ok(e) => ParagraphContentView::decoded(e),
                    Err(x) => Err(x),
                },
            ),
    {
        let mut tags: Vec<&str> = Vec::new();
        tags.push("w:r");
        tags.push("w:ins");
        tags.push("w:del");
        proof {
            assert(names_view(tags@) =~= seq!["w:r"@, "w:ins"@, "w:del"@]);
        }
        match parse_as(text, &tags) {
            Ok(e) => ParagraphContent::decode(&e),
            Err(x) => Err(x),
        }
    }

    /// The XML text of the element that [`ParagraphContent::encode`] gives.
    pub fn to_string(&self) -> (r: String)
        ensures
            r@ == element_text(self@.encoded()),
    {
        self.encode().to_string()
    }
}

impl<'a> Paragraph<'a> {
    /// Reads a paragraph from XML text: the first element of the text with the
    /// tag `w:p` is read as [`Paragraph::decode`] reads an element. Whole
    /// elements with other tags before it are passed over.
    pub fn from_str(text: &'a str) -> (r: Result<Paragraph<'a>, DecodeError>)
        ensures
            decoded_as(
                r,
                match parsed_as(text@, seq!["w:p"@]) {
                    Ok(e) => ParagraphView::decoded(e),
                    Err(x) => Err(x),
                },
            ),
    {
        let mut tags: Vec<&str> = Vec::new();
        tags.push("w:p");
        proof {
            assert(names_view(tags@) =~= seq!["w:p"@]);
        }
        match parse_as(text, &tags) {
            Ok(e) => Paragraph::decode(&e),
            Err(x) => Err(x),
        }
    }

    /// The XML text of the element that [`Paragraph::encode`] gives.
    pub fn to_string(&self) -> (r: String)
        ensures
            r@ == element_text(self@.encoded()),
    {
        self.encode().to_string()
    }
}

impl ParagraphContentView {
    /// The entry with its text leaves replaced, in order, by `texts`.
    pub open spec fn with_texts(self, texts: Seq<Seq<char>>) -> ParagraphContentView {
        match self {
            ParagraphContentView::Run(r) => ParagraphContentView::Run(r.with_texts(texts)),
            ParagraphContentView::Insertion(i) => ParagraphContentView::Insertion(
                i.with_texts(texts),
            ),
            ParagraphContentView::Deletion(d) => ParagraphContentView::Deletion(
                d.with_texts(texts),
            ),
        }
    }
}

impl ParagraphView {
    /// The paragraph with its text leaves replaced, in order, by `texts`.
    pub open spec fn with_texts(self, texts: Seq<Seq<char>>) -> ParagraphView {
        ParagraphView {
            property: self.property,
            content: paragraph_contents_with_texts(self.content, texts),
        }
    }
}

impl<'a> ParagraphContent<'a> {
    /// Exclusive handles on the text leaves of the entry, in order. What is
    /// written through a handle is what the leaf holds afterwards; nothing else
    /// changes.
    pub fn iter_text_mut<'b>(&'b mut self) -> (r: Vec<&'b mut Cow<'a, str>>)
        ensures
            r@.len() == old(self)@.texts().len(),
            forall|i: int| 0 <= i < r@.len() ==> (*#[trigger] r@[i])@ == old(self)@.texts()[i],
            final(self)@ == old(self)@.with_texts(Seq::new(r@.len(), |i: int| (*final(r@[i]))@)),
    {
        match self {
            ParagraphContent::Run(r) => r.iter_text_mut(),
            ParagraphContent::Insertion(i) => i.iter_text_mut(),
            ParagraphContent::Deletion(d) => d.iter_text_mut(),
        }
    }
}

impl<'a> Paragraph<'a> {
    /// Exclusive handles on the text leaves of the paragraph, in order. What is
    /// written through a handle is what the leaf holds afterwards; nothing else
    /// changes.
    pub fn iter_text_mut<'b>(&'b mut self) -> (r: Vec<&'b mut Cow<'a, str>>)
        ensures
            r@.len() == old(self)@.texts().len(),
            forall|i: int| 0 <= i < r@.len() ==> (*#[trigger] r@[i])@ == old(self)@.texts()[i],
            final(self)@ == old(self)@.with_texts(Seq::new(r@.len(), |i: int| (*final(r@[i]))@)),
    {
        paragraph_contents_iter_text_mut(&mut self.content)
    }
}

/// The number of text leaves in the first `i` of `cs`.
pub open spec fn paragraph_contents_offset(cs: Seq<ParagraphContentView>, i: int) -> int {
    paragraph_contents_texts(cs.take(i)).len() as int
}

/// Entries of a paragraph with their text leaves replaced, in order, by `texts`: each
/// takes as many of `texts` as it has leaves.
pub open spec fn paragraph_contents_with_texts(
    cs: Seq<ParagraphContentView>,
    texts: Seq<Seq<char>>,
) -> Seq<ParagraphContentView>
{
    Seq::new(
        cs.len(),
        |i: int|
            cs[i].with_texts(
                texts.subrange(
                    paragraph_contents_offset(cs, i),
                    paragraph_contents_offset(cs, i + 1),
                ),
            ),
    )
}

/// The leaves of one more of `cs` follow those of the ones before it.
pub proof fn lemma_paragraph_contents_offset_step(cs: Seq<ParagraphContentView>, i: int)
    requires
        0 <= i < cs.len(),
    ensures
        paragraph_contents_texts(cs.take(i + 1)) == paragraph_contents_texts(cs.take(i))
            + cs[i].texts(),
        paragraph_contents_offset(cs, i + 1) == paragraph_contents_offset(cs, i)
            + cs[i].texts().len(),
        paragraph_contents_offset(cs, i) >= 0,
{
    assert(cs.take(i + 1).drop_last() =~= cs.take(i));
    assert(cs.take(i + 1).last() == cs[i]);
}

/// The more of `cs` are counted, the more leaves there are.
pub proof fn lemma_paragraph_contents_offset_monotonic(
    cs: Seq<ParagraphContentView>,
    i: int,
    j: int,
)
    requires
        0 <= i <= j <= cs.len(),
    ensures
        0 <= paragraph_contents_offset(cs, i) <= paragraph_contents_offset(cs, j),
    decreases j - i,
{
    if i < j {
        lemma_paragraph_contents_offset_step(cs, j - 1);
        lemma_paragraph_contents_offset_monotonic(cs, i, j - 1);
    }
}

/// Exclusive handles on the text leaves of `items`, in order. What is
/// written through a handle is what the leaf holds afterwards; nothing else
/// changes.
#[verifier::rlimit(100)]
pub fn paragraph_contents_iter_text_mut<'b, 'a>(
    items: &'b mut Vec<ParagraphContent<'a>>,
) -> (r: Vec<&'b mut Cow<'a, str>>)
    ensures
        r@.len() == paragraph_contents_texts(paragraph_contents_view(old(items)@)).len(),
        forall|i: int|
            0 <= i < r@.len() ==> (*#[trigger] r@[i])@ == paragraph_contents_texts(
                paragraph_contents_view(old(items)@),
            )[i],
        paragraph_contents_view(final(items)@) == paragraph_contents_with_texts(
            paragraph_contents_view(old(items)@),
            Seq::new(r@.len(), |i: int| (*final(r@[i]))@),
        ),
{
    let mut out: Vec<&'b mut Cow<'a, str>> = Vec::new();
    let ghost whole = *items;
    let ghost orig = items@;
    let ghost views = paragraph_contents_view(items@);
    let mut rest: &'b mut [ParagraphContent<'a>] = items.as_mut_slice();
    let ghost all = final(rest)@;
    proof {
        assert(views.take(0) =~= Seq::<ParagraphContentView>::empty());
        assert(orig.skip(0) =~= orig);
    }
    while rest.len() > 0
        invariant
            whole == *old(items),
            whole@ == orig,
            views == paragraph_contents_view(orig),
            rest@.len() <= orig.len(),
            rest@ == orig.skip(orig.len() - rest@.len()),
            out@.len() == paragraph_contents_offset(views, orig.len() - rest@.len()),
            forall|j: int|
                0 <= j < out@.len() ==> (*#[trigger] out@[j])@ == paragraph_contents_texts(
                    views.take(orig.len() - rest@.len()),
                )[j],
            all.len() == orig.len() - rest@.len() + final(rest)@.len(),
            forall|j: int|
                0 <= j < final(rest)@.len() ==> #[trigger] all[orig.len() - rest@.len() + j]
                    == final(rest)@[j],
            forall|idx: int|
                0 <= idx < orig.len() - rest@.len() ==> (#[trigger] all[idx])@
                    == views[idx].with_texts(
                    Seq::new(
                        out@.len(),
                        |j: int| (*final(out@[j]))@,
                    ).subrange(
                        paragraph_contents_offset(views, idx),
                        paragraph_contents_offset(views, idx + 1),
                    ),
                ),
        decreases rest.len(),
    {
        let ghost k = orig.len() - rest@.len();
        let ghost fr = final(rest)@;
        let ghost n0 = out@.len() as int;
        let ghost out0 = out@;
        let ghost fin0 = Seq::new(out@.len(), |j: int| (*final(out@[j]))@);
        proof {
            lemma_paragraph_contents_offset_step(views, k);
        }
        let (head, tail) = rest.split_at_mut(1);
        let ghost fh = final(head)@;
        let ghost ft = final(tail)@;
        assert(fr == fh + ft);
        assert(head@[0] == orig[k]);
        rest = tail;
        match head.first_mut() {
            Some(c) => {
                assert(fh.len() == 1);
                assert(fh[0] == *final(c));
                let mut part = c.iter_text_mut();
                let ghost part0 = part@;
                let ghost part_fin = Seq::new(part0.len(), |j: int| (*final(part0[j]))@);
                out.append(&mut part);
                let ghost fin = Seq::new(out@.len(), |j: int| (*final(out@[j]))@);
                proof {
                    assert(out@ =~= out0 + part0);
                    assert(fin =~= fin0 + part_fin);
                    assert(all[k + 0] == fr[0]);
                    assert forall|j: int| 0 <= j < ft.len() implies all[k + 1 + j] == ft[j] by {
                        assert(all[k + (1 + j)] == fr[1 + j]);
                    }
                    assert(out@ =~= out0 + part0);
                    assert(views[k] == orig[k]@);
                    assert(part0.len() == views[k].texts().len());
                    assert(fin.subrange(n0, n0 + part0.len()) =~= part_fin);
                    assert(all[k]@ == views[k].with_texts(
                        fin.subrange(
                            paragraph_contents_offset(views, k),
                            paragraph_contents_offset(views, k + 1),
                        ),
                    ));
                    assert forall|idx: int| 0 <= idx < k implies (#[trigger] all[idx])@
                        == views[idx].with_texts(
                        fin.subrange(
                            paragraph_contents_offset(views, idx),
                            paragraph_contents_offset(views, idx + 1),
                        ),
                    ) by {
                        lemma_paragraph_contents_offset_monotonic(views, idx + 1, k);
                        lemma_paragraph_contents_offset_monotonic(views, idx, idx + 1);
                        assert(fin.subrange(
                            paragraph_contents_offset(views, idx),
                            paragraph_contents_offset(views, idx + 1),
                        ) =~= fin0.subrange(
                            paragraph_contents_offset(views, idx),
                            paragraph_contents_offset(views, idx + 1),
                        ));
                    }
                }
            },
            None => {},
        }
    }
    proof {
        assert(views.take(orig.len() as int) =~= views);
        let fin = Seq::new(out@.len(), |j: int| (*final(out@[j]))@);
        let texts = Seq::new(out@.len(), |i: int| (*final(out@[i]))@);
        assert(texts =~= fin);
        assert(paragraph_contents_view(all) =~= paragraph_contents_with_texts(views, fin));
    }
    out
}

impl ParagraphContentView {
    /// Substitution and traversal agree: the text leaves of the entry after
    /// a substitution are its text leaves before, each with the dictionary
    /// applied, in the same order.
    pub proof fn lemma_substituted_texts(self, dict: Seq<(Seq<char>, Seq<char>)>)
        ensures
            self.substituted(dict).texts() == texts_substituted(self.texts(), dict),
    {
        match self {
            ParagraphContentView::Run(x) => {
                x.lemma_substituted_texts(dict);
            },
            ParagraphContentView::Insertion(x) => {
                x.lemma_substituted_texts(dict);
            },
            ParagraphContentView::Deletion(x) => {
                x.lemma_substituted_texts(dict);
            },
        }
    }
}

impl ParagraphView {
    /// The text leaves of the first `n` parts after a substitution are the
    /// substituted text leaves of the first `n` parts.
    pub proof fn lemma_substituted_texts_prefix(self, dict: Seq<(Seq<char>, Seq<char>)>, n: int)
        requires
            0 <= n <= self.content.len(),
        ensures
            paragraph_contents_texts(self.substituted(dict).content.take(n)) == texts_substituted(
                paragraph_contents_texts(self.content.take(n)),
                dict,
            ),
        decreases n,
    {
        let after = self.substituted(dict).content;
        if n == 0 {
            assert(after.take(0) =~= self.content.take(0));
            assert(paragraph_contents_texts(after.take(0)) =~= texts_substituted(
                paragraph_contents_texts(self.content.take(0)),
                dict,
            ));
        } else {
            self.lemma_substituted_texts_prefix(dict, n - 1);
            self.content[n - 1].lemma_substituted_texts(dict);
            assert(after.take(n).drop_last() =~= after.take(n - 1));
            assert(after.take(n).last() == self.content[n - 1].substituted(dict));
            assert(self.content.take(n).drop_last() =~= self.content.take(n - 1));
            assert(self.content.take(n).last() == self.content[n - 1]);
            lemma_texts_substituted_concat(
                paragraph_contents_texts(self.content.take(n - 1)),
                self.content[n - 1].texts(),
                dict,
            );
        }
    }

    /// Substitution and traversal agree: the text leaves of a paragraph after
    /// a substitution are its text leaves before, each with the dictionary
    /// applied, in the same order.
    pub proof fn lemma_substituted_texts(self, dict: Seq<(Seq<char>, Seq<char>)>)
        ensures
            self.substituted(dict).texts() == texts_substituted(self.texts(), dict),
    {
        self.lemma_substituted_texts_prefix(dict, self.content.len() as int);
        assert(self.content.take(self.content.len() as int) =~= self.content);
        let after = self.substituted(dict).content;
        assert(after.take(after.len() as int) =~= after);
    }
}

impl ParagraphContentView {
    /// What is put in place of the text leaves of the entry is what a
    /// traversal finds there afterwards, in the same order.
    pub proof fn lemma_with_texts(self, texts: Seq<Seq<char>>)
        requires
            texts.len() == self.texts().len(),
        ensures
            self.with_texts(texts).texts() == texts,
    {
        match self {
            ParagraphContentView::Run(x) => {
                x.lemma_with_texts(texts);
            },
            ParagraphContentView::Insertion(x) => {
                x.lemma_with_texts(texts);
            },
            ParagraphContentView::Deletion(x) => {
                x.lemma_with_texts(texts);
            },
        }
    }
}

impl ParagraphView {
    /// The text leaves of the first `n` parts after their leaves were
    /// replaced are the texts that took their place.
    #[verifier::rlimit(100)]
    pub proof fn lemma_with_texts_prefix(self, texts: Seq<Seq<char>>, n: int)
        requires
            texts.len() == self.texts().len(),
            0 <= n <= self.content.len(),
        ensures
            0 <= paragraph_contents_offset(self.content, n) <= texts.len(),
            paragraph_contents_texts(self.with_texts(texts).content.take(n)) == texts.take(
                paragraph_contents_offset(self.content, n),
            ),
        decreases n,
    {
        let cs = self.content;
        let after = self.with_texts(texts).content;
        assert(cs.take(cs.len() as int) =~= cs);
        lemma_paragraph_contents_offset_monotonic(cs, n, cs.len() as int);
        if n == 0 {
            assert(after.take(0) =~= cs.take(0));
            assert(paragraph_contents_texts(after.take(0)) =~= texts.take(
                paragraph_contents_offset(cs, 0),
            ));
        } else {
            self.lemma_with_texts_prefix(texts, n - 1);
            lemma_paragraph_contents_offset_step(cs, n - 1);
            let from = paragraph_contents_offset(cs, n - 1);
            let to = paragraph_contents_offset(cs, n);
            cs[n - 1].lemma_with_texts(texts.subrange(from, to));
            lemma_paragraph_contents_offset_step(after, n - 1);
            assert(after[n - 1] == cs[n - 1].with_texts(texts.subrange(from, to)));
            assert(after[n - 1].texts() == texts.subrange(from, to));
            assert(texts.take(from) + texts.subrange(from, to) =~= texts.take(to));
        }
    }

    /// What is put in place of the text leaves of a paragraph is what a
    /// traversal finds there afterwards, in the same order.
    pub proof fn lemma_with_texts(self, texts: Seq<Seq<char>>)
        requires
            texts.len() == self.texts().len(),
        ensures
            self.with_texts(texts).texts() == texts,
    {
        let cs = self.content;
        self.lemma_with_texts_prefix(texts, cs.len() as int);
        assert(cs.take(cs.len() as int) =~= cs);
        let after = self.with_texts(texts).content;
        assert(after.take(after.len() as int) =~= after);
        assert(texts.take(texts.len() as int) =~= texts);
    }
}

impl ParagraphContentView {
    /// What was read is in normal form: where an element reads as an entry of a paragraph,
    /// writing that and reading it again gives the same.
    pub proof fn lemma_decode_normalizes(e: ElementView)
        requires
            ParagraphContentView::decoded(e) is Ok,
        ensures
            ParagraphContentView::decoded(
                ParagraphContentView::decoded(e)->Ok_0.encoded(),
            ) == ParagraphContentView::decoded(e),
    {
        ParagraphContentView::decoded(e)->Ok_0.lemma_decode_encode();
    }
}

impl ParagraphView {
    /// What was read is in normal form: where an element reads as a paragraph,
    /// writing that and reading it again gives the same.
    pub proof fn lemma_decode_normalizes(e: ElementView)
        requires
            ParagraphView::decoded(e) is Ok,
        ensures
            ParagraphView::decoded(
                ParagraphView::decoded(e)->Ok_0.encoded(),
            ) == ParagraphView::decoded(e),
    {
        ParagraphView::decoded(e)->Ok_0.lemma_decode_encode();
    }
}

impl<'a> ParagraphContent<'a> {
    /// Whether every text leaf of the entry owns its text.
    pub open spec fn owns_texts(&self) -> bool
    {
        match self {
            ParagraphContent::Run(x) => x.owns_texts(),
            ParagraphContent::Insertion(x) => x.owns_texts(),
            ParagraphContent::Deletion(x) => x.owns_texts(),
        }
    }
}

/// Whether every text leaf of entries of a paragraph owns its text.
pub open spec fn paragraph_contents_own_texts(items: Seq<ParagraphContent<'_>>) -> bool
{
    forall|i: int| 0 <= i < items.len() ==> (#[trigger] items[i]).owns_texts()
}

impl<'a> Paragraph<'a> {
    /// Whether every text leaf of the paragraph owns its text.
    pub open spec fn owns_texts(&self) -> bool {
        paragraph_contents_own_texts(self.content@)
    }
}

impl<'a> Clone for ParagraphContent<'a> {
    fn clone(&self) -> (r: Self)
        ensures
            r@ == self@,
    {
        self.duplicate()
    }
}

impl<'a> ParagraphContent<'a> {
    /// A copy of the entry and of all that is below it. The copy holds what
    /// `self` holds.
    pub fn duplicate(&self) -> (r: Self)
        ensures
            r@ == self@,
    {
        match self {
            ParagraphContent::Run(x) => ParagraphContent::Run(x.duplicate()),
            ParagraphContent::Insertion(x) => ParagraphContent::Insertion(x.duplicate()),
            ParagraphContent::Deletion(x) => ParagraphContent::Deletion(x.duplicate()),
        }
    }
}

impl<'a> Clone for Paragraph<'a> {
    fn clone(&self) -> (r: Self)
        ensures
            r@ == self@,
    {
        self.duplicate()
    }
}

impl<'a> Paragraph<'a> {
    /// A copy of the paragraph and of all that is below it. The copy holds what
    /// `self` holds.
    pub fn duplicate(&self) -> (r: Self)
        ensures
            r@ == self@,
    {
        let mut content: Vec<ParagraphContent<'a>> = Vec::new();
        let mut i: usize = 0;
        while i < self.content.len()
            invariant
                i <= self.content.len(),
                content@.len() == i,
                forall|j: int| 0 <= j < i ==> (#[trigger] content@[j])@ == self.content@[j]@,
            decreases self.content.len() - i,
        {
            content.push(self.content[i].duplicate());
            i = i + 1;
        }
        let r = Paragraph { property: self.property, content };
        proof {
            assert(paragraph_contents_view(r.content@) =~= paragraph_contents_view(self.content@));
        }
        r
    }
}

} // verus!
