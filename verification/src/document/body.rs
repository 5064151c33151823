//! The document and its body.
use crate::document::paragraph::{Paragraph, ParagraphView};
use crate::document::table::{Table, TableView};
use crate::document::table_cell::lemma_cell_tags;
use crate::error::{DecodeError, SubstitutionError};
use crate::text::{dictionary_view, leaf_views, lemma_texts_substituted_concat, texts_substituted};
use crate::xml::codec::names_view;
use crate::xml::element::{
    child_decoded_as, decode_children, decoded_as, element_nodes,
    lemma_decode_children_prefix_error, lemma_decode_children_written, single_decoded, Element,
    ElementView, Node, NodeView,
};
use crate::xml::reader::{parse_as, parsed_as};
use crate::xml::writer::element_text;
use std::borrow::Cow;
use vstd::prelude::*;

verus! {

/// One block of a body: a paragraph or a table.
#[derive(Debug, PartialEq)]
pub enum BodyContent<'a> {
    /// A paragraph (`w:p`).
    Paragraph(Paragraph<'a>),
    /// A table (`w:tbl`).
    Table(Table<'a>),
}

/// What a [`BodyContent`] holds.
pub enum BodyContentView {
    Paragraph(ParagraphView),
    Table(TableView),
}

impl<'a> View for BodyContent<'a> {
    type V = BodyContentView;

    open spec fn view(&self) -> BodyContentView {
        match self {
            BodyContent::Paragraph(p) => BodyContentView::Paragraph(p@),
            BodyContent::Table(t) => BodyContentView::Table(t@),
        }
    }
}

impl BodyContentView {
    /// The text leaves of the block, in order.
    pub open spec fn texts(self) -> Seq<Seq<char>> {
        match self {
            BodyContentView::Paragraph(p) => p.texts(),
            BodyContentView::Table(t) => t.texts(),
        }
    }

    /// The block after `dict` was applied to each of its text leaves.
    pub open spec fn substituted(self, dict: Seq<(Seq<char>, Seq<char>)>) -> BodyContentView {
        match self {
            BodyContentView::Paragraph(p) => BodyContentView::Paragraph(p.substituted(dict)),
            BodyContentView::Table(t) => BodyContentView::Table(t.substituted(dict)),
        }
    }
}

/// The text leaves of a sequence of blocks, in order.
pub open spec fn body_contents_texts(cs: Seq<BodyContentView>) -> Seq<Seq<char>>
    decreases cs.len(),
{
    if cs.len() == 0 {
        Seq::empty()
    } else {
        body_contents_texts(cs.drop_last()) + cs.last().texts()
    }
}

/// The body of a document (`w:body`).
#[derive(Debug, PartialEq)]
pub struct Body<'a> {
    /// Paragraphs and tables, in order.
    pub content: Vec<BodyContent<'a>>,
}

/// What a [`Body`] holds.
pub struct BodyView {
    pub content: Seq<BodyContentView>,
}

impl<'a> View for Body<'a> {
    type V = BodyView;

    open spec fn view(&self) -> BodyView {
        BodyView { content: body_contents_view(self.content@) }
    }
}

impl BodyView {
    /// The text leaves of the body, in order.
    pub open spec fn texts(self) -> Seq<Seq<char>> {
        body_contents_texts(self.content)
    }

    /// The body after `dict` was applied to each of its text leaves.
    pub open spec fn substituted(self, dict: Seq<(Seq<char>, Seq<char>)>) -> BodyView {
        BodyView {
            content: Seq::new(self.content.len(), |i: int| self.content[i].substituted(dict)),
        }
    }
}

/// A document (`w:document`).
#[derive(Debug, PartialEq)]
pub struct Document<'a> {
    pub body: Body<'a>,
}

/// What a [`Document`] holds.
pub struct DocumentView {
    pub body: BodyView,
}

impl<'a> View for Document<'a> {
    type V = DocumentView;

    open spec fn view(&self) -> DocumentView {
        DocumentView { body: self.body@ }
    }
}

impl DocumentView {
    /// The text leaves of the document, in order.
    pub open spec fn texts(self) -> Seq<Seq<char>> {
        self.body.texts()
    }

    /// The document after `dict` was applied to each of its text leaves.
    pub open spec fn substituted(self, dict: Seq<(Seq<char>, Seq<char>)>) -> DocumentView {
        DocumentView { body: self.body.substituted(dict) }
    }
}

impl<'a> BodyContent<'a> {
    /// Handles on the text leaves of the block, in order.
    pub fn iter_text(&self) -> (r: Vec<&Cow<'a, str>>)
        ensures
            leaf_views(r@) == self@.texts(),
    {
        match self {
            BodyContent::Paragraph(p) => p.iter_text(),
            BodyContent::Table(t) => t.iter_text(),
        }
    }

    /// Applies `dic` to every text leaf of the block.
    pub fn replace_text(&mut self, dic: &[(&str, &str)]) -> (r: Result<(), SubstitutionError>)
        ensures
            r is Ok,
            final(self)@ == old(self)@.substituted(dictionary_view(dic@)),
            final(self).owns_texts(),
    {
        match self {
            BodyContent::Paragraph(p) => p.replace_text(dic),
            BodyContent::Table(t) => t.replace_text(dic),
        }
    }
}

impl<'a> Default for Body<'a> {
    fn default() -> (r: Self)
        ensures
            r@ == (BodyView { content: Seq::empty() }),
    {
        let r = Body { content: Vec::new() };
        assert(r@.content =~= Seq::<BodyContentView>::empty());
        r
    }
}

impl<'a> Default for Document<'a> {
    fn default() -> (r: Self)
        ensures
            r@ == (DocumentView { body: BodyView { content: Seq::empty() } }),
    {
        Document { body: Body::default() }
    }
}

impl<'a> Body<'a> {
    /// Appends a block to the body.
    pub fn push(self, content: BodyContent<'a>) -> (r: Self)
        ensures
            r@ == (BodyView { content: self@.content.push(content@) }),
    {
        let mut b = self;
        b.content.push(content);
        assert(b@.content =~= self@.content.push(content@));
        b
    }

    /// Handles on the text leaves of the body, in order.
    pub fn iter_text(&self) -> (r: Vec<&Cow<'a, str>>)
        ensures
            leaf_views(r@) == self@.texts(),
    {
        let mut out: Vec<&Cow<'a, str>> = Vec::new();
        let mut i: usize = 0;
        assert(leaf_views(out@) =~= body_contents_texts(self@.content.take(0)));
        while i < self.content.len()
            invariant
                i <= self.content.len(),
                leaf_views(out@) == body_contents_texts(self@.content.take(i as int)),
            decreases self.content.len() - i,
        {
            proof {
                let all = self@.content;
                assert(all.take(i as int + 1).drop_last() =~= all.take(i as int));
                assert(all.take(i as int + 1).last() == self.content@[i as int]@);
            }
            let ghost before = out@;
            let mut part = self.content[i].iter_text();
            let ghost added = part@;
            out.append(&mut part);
            assert(leaf_views(out@) =~= leaf_views(before) + leaf_views(added));
            i = i + 1;
        }
        proof {
            assert(self@.content.take(i as int) =~= self@.content);
        }
        out
    }

    /// Applies `dic` to every text leaf of the body.
    pub fn replace_text(&mut self, dic: &[(&str, &str)]) -> (r: Result<(), SubstitutionError>)
        ensures
            r is Ok,
            final(self)@ == old(self)@.substituted(dictionary_view(dic@)),
            final(self).owns_texts(),
    {
        let mut i: usize = 0;
        while i < self.content.len()
            invariant
                i <= self.content.len(),
                self.content@.len() == old(self).content@.len(),
                forall|j: int|
                    i <= j < self.content@.len() ==> self.content@[j] == old(self).content@[j],
                forall|j: int| 0 <= j < i ==> (#[trigger] self.content@[j]).owns_texts(),
                forall|j: int|
                    0 <= j < i ==> (#[trigger] self.content@[j])@
                        == old(self).content@[j]@.substituted(dictionary_view(dic@)),
            decreases self.content.len() - i,
        {
            let _ = self.content[i].replace_text(dic);
            i = i + 1;
        }
        proof {
            assert(self@.content =~= old(self)@.substituted(dictionary_view(dic@)).content);
        }
        Ok(())
    }
}

impl<'a> Document<'a> {
    /// Appends a block to the body of the document.
    pub fn push(self, content: BodyContent<'a>) -> (r: Self)
        ensures
            r@ == (DocumentView { body: BodyView { content: self@.body.content.push(content@) } }),
    {
        Document { body: self.body.push(content) }
    }

    /// Handles on the text leaves of the document, in order.
    pub fn iter_text(&self) -> (r: Vec<&Cow<'a, str>>)
        ensures
            leaf_views(r@) == self@.texts(),
    {
        self.body.iter_text()
    }

    /// Applies `dic` to every text leaf of the document.
    pub fn replace_text(&mut self, dic: &[(&str, &str)]) -> (r: Result<(), SubstitutionError>)
        ensures
            r is Ok,
            final(self)@ == old(self)@.substituted(dictionary_view(dic@)),
            final(self).owns_texts(),
    {
        self.body.replace_text(dic)
    }
}

impl BodyContentView {
    /// The element that the block is written as.
    pub open spec fn encoded(self) -> ElementView {
        match self {
            BodyContentView::Paragraph(p) => p.encoded(),
            BodyContentView::Table(t) => t.encoded(),
        }
    }

    /// Whether an element with the tag `tag` is a block of a body.
    pub open spec fn belongs(tag: Seq<char>) -> bool {
        tag == "w:p"@ || tag == "w:tbl"@
    }

    /// The block that an element reads as; its tag says which variant.
    pub open spec fn decoded(e: ElementView) -> Result<BodyContentView, DecodeError> {
        if e.tag == "w:p"@ {
            match ParagraphView::decoded(e) {
                Ok(p) => Ok(BodyContentView::Paragraph(p)),
                Err(x) => Err(x),
            }
        } else if e.tag == "w:tbl"@ {
            match TableView::decoded(e) {
                Ok(t) => Ok(BodyContentView::Table(t)),
                Err(x) => Err(x),
            }
        } else {
            Err(DecodeError::UnexpectedTag)
        }
    }

    /// What a child of a body reads as: a block where its tag is that of
    /// one, nothing where it is not.
    pub open spec fn decoded_child(e: ElementView) -> Option<Result<BodyContentView, DecodeError>> {
        if BodyContentView::belongs(e.tag) {
            Some(BodyContentView::decoded(e))
        } else {
            None
        }
    }

    /// A block reads as it was written.
    pub proof fn lemma_decode_encode(self)
        ensures
            BodyContentView::decoded(self.encoded()) == Ok::<BodyContentView, DecodeError>(self),
            BodyContentView::belongs(self.encoded().tag),
    {
        lemma_cell_tags();
        match self {
            BodyContentView::Paragraph(p) => {
                p.lemma_decode_encode();
            },
            BodyContentView::Table(t) => {
                t.lemma_decode_encode();
            },
        }
    }
}

/// How the children of a body are read.
pub open spec fn body_content_reader() -> spec_fn(ElementView) -> Option<
    Result<BodyContentView, DecodeError>,
> {
    |c: ElementView| BodyContentView::decoded_child(c)
}

/// The views of a sequence of blocks.
pub open spec fn body_contents_view(cs: Seq<BodyContent<'_>>) -> Seq<BodyContentView> {
    Seq::new(cs.len(), |i: int| cs[i]@)
}

/// The elements that a sequence of blocks is written as.
pub open spec fn body_contents_encoded(cs: Seq<BodyContentView>) -> Seq<ElementView> {
    Seq::new(cs.len(), |i: int| cs[i].encoded())
}

impl BodyView {
    /// The element that the body is written as: one child for each block.
    pub open spec fn encoded(self) -> ElementView {
        ElementView {
            tag: "w:body"@,
            attributes: Seq::empty(),
            children: element_nodes(body_contents_encoded(self.content)),
        }
    }

    /// The body that an element reads as. The element must have the tag
    /// `w:body`; children that are no blocks are passed over, and a block
    /// that fails to read fails the body.
    pub open spec fn decoded(e: ElementView) -> Result<BodyView, DecodeError> {
        if e.tag != "w:body"@ {
            Err(DecodeError::UnexpectedTag)
        } else {
            match decode_children(e.children, body_content_reader()) {
                Ok(content) => Ok(BodyView { content }),
                Err(x) => Err(x),
            }
        }
    }

    /// A body reads as it was written.
    pub proof fn lemma_decode_encode(self)
        ensures
            BodyView::decoded(self.encoded()) == Ok::<BodyView, DecodeError>(self),
    {
        let written = body_contents_encoded(self.content);
        assert forall|i: int| 0 <= i < self.content.len() implies body_content_reader()(
            #[trigger] written[i],
        ) == Some(Ok::<BodyContentView, DecodeError>(self.content[i])) by {
            self.content[i].lemma_decode_encode();
        }
        lemma_decode_children_written(self.content, written, body_content_reader());
    }
}

impl DocumentView {
    /// The element that the document is written as: its body is its one
    /// child.
    pub open spec fn encoded(self) -> ElementView {
        ElementView {
            tag: "w:document"@,
            attributes: Seq::empty(),
            children: seq![NodeView::Element(self.body.encoded())],
        }
    }

    /// The document that an element reads as. The element must have the
    /// tag `w:document`; where it holds no body, the body is empty, and
    /// where it holds several, each is read and the last one counts.
    pub open spec fn decoded(e: ElementView) -> Result<DocumentView, DecodeError> {
        if e.tag != "w:document"@ {
            Err(DecodeError::UnexpectedTag)
        } else {
            match single_decoded(e.children, "w:body"@, |c: ElementView| BodyView::decoded(c)) {
                Err(x) => Err(x),
                Ok(Some(body)) => Ok(DocumentView { body }),
                Ok(None) => Ok(DocumentView { body: BodyView { content: Seq::empty() } }),
            }
        }
    }

    /// A document reads as it was written.
    pub proof fn lemma_decode_encode(self)
        ensures
            DocumentView::decoded(self.encoded()) == Ok::<DocumentView, DecodeError>(self),
    {
        self.body.lemma_decode_encode();
        let nodes = seq![NodeView::Element(self.body.encoded())];
        assert(nodes[0] == NodeView::Element(self.body.encoded()));
    }
}

impl<'a> BodyContent<'a> {
    /// Writes the block as an element.
    pub fn encode(&self) -> (e: Element<'a>)
        ensures
            e@ == self@.encoded(),
    {
        match self {
            BodyContent::Paragraph(p) => p.encode(),
            BodyContent::Table(t) => t.encode(),
        }
    }

    /// Reads a block from an element.
    pub fn decode(e: &Element<'a>) -> (r: Result<BodyContent<'a>, DecodeError>)
        ensures
            decoded_as(r, BodyContentView::decoded(e@)),
    {
        if e.has_tag("w:p") {
            Ok(BodyContent::Paragraph(Paragraph::decode(e)?))
        } else if e.has_tag("w:tbl") {
            Ok(BodyContent::Table(Table::decode(e)?))
        } else {
            Err(DecodeError::UnexpectedTag)
        }
    }

    /// Reads a child of a body: a block where its tag is that of one,
    /// nothing where it is not.
    pub fn decode_child(e: &Element<'a>) -> (r: Option<Result<BodyContent<'a>, DecodeError>>)
        ensures
            child_decoded_as(r, BodyContentView::decoded_child(e@)),
    {
        if e.has_tag("w:p") || e.has_tag("w:tbl") {
            Some(BodyContent::decode(e))
        } else {
            None
        }
    }
}

/// Reads the blocks of a body from the children of `e`.
pub fn decode_body_contents<'a>(e: &Element<'a>) -> (r: Result<Vec<BodyContent<'a>>, DecodeError>)
    ensures
        match decode_children(e@.children, body_content_reader()) {
            Ok(content) => r is Ok && body_contents_view(r->Ok_0@) == content,
            Err(x) => r == Err::<Vec<BodyContent<'a>>, DecodeError>(x),
        },
{
    let mut content: Vec<BodyContent<'a>> = Vec::new();
    let mut i: usize = 0;
    proof {
        assert(e@.children.take(0) =~= Seq::<NodeView>::empty());
        assert(body_contents_view(content@) =~= Seq::<BodyContentView>::empty());
    }
    while i < e.children.len()
        invariant
            i <= e.children.len(),
            decode_children(e@.children.take(i as int), body_content_reader()) == Ok::<
                Seq<BodyContentView>,
                DecodeError,
            >(body_contents_view(content@)),
        decreases e.children.len() - i,
    {
        proof {
            let all = e@.children;
            assert(all.take(i as int + 1).drop_last() =~= all.take(i as int));
            assert(all.take(i as int + 1).last() == e.children@[i as int]@);
        }
        let ghost before = body_contents_view(content@);
        match &e.children[i] {
            Node::Element(c) => match BodyContent::decode_child(c) {
                None => {},
                Some(Ok(x)) => {
                    content.push(x);
                    proof {
                        assert(body_contents_view(content@) =~= before.push(x@));
                    }
                },
                Some(Err(x)) => {
                    proof {
                        lemma_decode_children_prefix_error(
                            e@.children,
                            i as int + 1,
                            body_content_reader(),
                        );
                    }
                    return Err(x);
                },
            },
            _ => {},
        }
        i = i + 1;
    }
    proof {
        assert(e@.children.take(i as int) =~= e@.children);
    }
    Ok(content)
}

/// Appends the elements that `content` is written as to the children of `e`.
pub fn encode_body_contents<'a>(e: Element<'a>, content: &Vec<BodyContent<'a>>) -> (r: Element<
    'a,
>)
    ensures
        r@ == (ElementView {
            children: e@.children + element_nodes(
                body_contents_encoded(body_contents_view(content@)),
            ),
            ..e@
        }),
{
    let mut e = e;
    let ghost start = e@;
    let ghost all = element_nodes(body_contents_encoded(body_contents_view(content@)));
    let mut i: usize = 0;
    proof {
        assert(start.children + all.take(0) =~= start.children);
    }
    while i < content.len()
        invariant
            i <= content.len(),
            all == element_nodes(body_contents_encoded(body_contents_view(content@))),
            all.len() == content.len(),
            e@.tag == start.tag,
            e@.attributes == start.attributes,
            e@.children == start.children + all.take(i as int),
        decreases content.len() - i,
    {
        let child = content[i].encode();
        proof {
            assert(start.children + all.take(i as int + 1) =~= (start.children + all.take(
                i as int,
            )) + seq![NodeView::Element(child@)]);
        }
        e = e.with_child(Some(child));
        i = i + 1;
    }
    proof {
        assert(all.take(i as int) =~= all);
    }
    e
}

impl<'a> Body<'a> {
    /// Writes the body as an element.
    pub fn encode(&self) -> (e: Element<'a>)
        ensures
            e@ == self@.encoded(),
    {
        let e = encode_body_contents(Element::new("w:body"), &self.content);
        proof {
            assert(body_contents_view(self.content@) =~= self@.content);
            assert(e@.children =~= self@.encoded().children);
        }
        e
    }

    /// Reads a body from an element.
    pub fn decode(e: &Element<'a>) -> (r: Result<Body<'a>, DecodeError>)
        ensures
            decoded_as(r, BodyView::decoded(e@)),
    {
        if !e.has_tag("w:body") {
            return Err(DecodeError::UnexpectedTag);
        }
        let content = decode_body_contents(e)?;
        let body = Body { content };
        proof {
            assert(body@.content =~= body_contents_view(body.content@));
        }
        Ok(body)
    }
}

impl<'a> Document<'a> {
    /// Writes the document as an element.
    pub fn encode(&self) -> (e: Element<'a>)
        ensures
            e@ == self@.encoded(),
    {
        let e = Element::new("w:document").with_child(Some(self.body.encode()));
        proof {
            assert(e@.children =~= self@.encoded().children);
        }
        e
    }

    /// Reads a document from an element.
    pub fn decode(e: &Element<'a>) -> (r: Result<Document<'a>, DecodeError>)
        ensures
            decoded_as(r, DocumentView::decoded(e@)),
    {
        if !e.has_tag("w:document") {
            return Err(DecodeError::UnexpectedTag);
        }
        match e.decode_single(
            "w:body",
            Body::decode,
            Ghost(|c: ElementView| BodyView::decoded(c)),
        )? {
            Some(body) => Ok(Document { body }),
            None => Ok(Document::default()),
        }
    }
}

impl<'a> BodyContent<'a> {
    /// Reads a block from XML text: the first element of the text with one of
    /// the tags `w:p` and `w:tbl` is read as [`BodyContent::decode`] reads an
    /// element. Whole elements with other tags before it are passed over.
    pub fn from_str(text: &'a str) -> (r: Result<BodyContent<'a>, DecodeError>)
        ensures
            decoded_as(
                r,
                match parsed_as(text@, seq!["w:p"@, "w:tbl"@]) {
                    Ok(e) => BodyContentView::decoded(e),
                    Err(x) => Err(x),
                },
            ),
    {
        let mut tags: Vec<&str> = Vec::new();
        tags.push("w:p");
        tags.push("w:tbl");
        proof {
            assert(names_view(tags@) =~= seq!["w:p"@, "w:tbl"@]);
        }
        match parse_as(text, &tags) {
            Ok(e) => BodyContent::decode(&e),
            Err(x) => Err(x),
        }
    }

    /// The XML text of the element that [`BodyContent::encode`] gives.
    pub fn to_string(&self) -> (r: String)
        ensures
            r@ == element_text(self@.encoded()),
    {
        self.encode().to_string()
    }
}

impl<'a> Body<'a> {
    /// Reads a body from XML text: the first element of the text with the tag
    /// `w:body` is read as [`Body::decode`] reads an element. Whole elements
    /// with other tags before it are passed over.
    pub fn from_str(text: &'a str) -> (r: Result<Body<'a>, DecodeError>)
        ensures
            decoded_as(
                r,
                match parsed_as(text@, seq!["w:body"@]) {
                    Ok(e) => BodyView::decoded(e),
                    Err(x) => Err(x),
                },
            ),
    {
        let mut tags: Vec<&str> = Vec::new();
        tags.push("w:body");
        proof {
            assert(names_view(tags@) =~= seq!["w:body"@]);
        }
        match parse_as(text, &tags) {
            Ok(e) => Body::decode(&e),
            Err(x) => Err(x),
        }
    }

    /// The XML text of the element that [`Body::encode`] gives.
    pub fn to_string(&self) -> (r: String)
        ensures
            r@ == element_text(self@.encoded()),
    {
        self.encode().to_string()
    }
}

impl<'a> Document<'a> {
    /// Reads a document from XML text: the first element of the text with the
    /// tag `w:document` is read as [`Document::decode`] reads an element. Whole
    /// elements with other tags before it are passed over.
    pub fn from_str(text: &'a str) -> (r: Result<Document<'a>, DecodeError>)
        ensures
            decoded_as(
                r,
                match parsed_as(text@, seq!["w:document"@]) {
                    Ok(e) => DocumentView::decoded(e),
                    Err(x) => Err(x),
                },
            ),
    {
        let mut tags: Vec<&str> = Vec::new();
        tags.push("w:document");
        proof {
            assert(names_view(tags@) =~= seq!["w:document"@]);
        }
        match parse_as(text, &tags) {
            Ok(e) => Document::decode(&e),
            Err(x) => Err(x),
        }
    }

    /// The XML text of the element that [`Document::encode`] gives.
    pub fn to_string(&self) -> (r: String)
        ensures
            r@ == element_text(self@.encoded()),
    {
        self.encode().to_string()
    }
}

impl BodyContentView {
    /// The block with its text leaves replaced, in order, by `texts`.
    pub open spec fn with_texts(self, texts: Seq<Seq<char>>) -> BodyContentView {
        match self {
            BodyContentView::Paragraph(p) => BodyContentView::Paragraph(p.with_texts(texts)),
            BodyContentView::Table(t) => BodyContentView::Table(t.with_texts(texts)),
        }
    }
}

impl BodyView {
    /// The body with its text leaves replaced, in order, by `texts`.
    pub open spec fn with_texts(self, texts: Seq<Seq<char>>) -> BodyView {
        BodyView { content: body_contents_with_texts(self.content, texts) }
    }
}

impl DocumentView {
    /// The document with its text leaves replaced, in order, by `texts`.
    pub open spec fn with_texts(self, texts: Seq<Seq<char>>) -> DocumentView {
        DocumentView { body: self.body.with_texts(texts) }
    }
}

impl<'a> BodyContent<'a> {
    /// Exclusive handles on the text leaves of the block, in order. What is
    /// written through a handle is what the leaf holds afterwards; nothing else
    /// changes.
    pub fn iter_text_mut<'b>(&'b mut self) -> (r: Vec<&'b mut Cow<'a, str>>)
        ensures
            r@.len() == old(self)@.texts().len(),
            forall|i: int| 0 <= i < r@.len() ==> (*#[trigger] r@[i])@ == old(self)@.texts()[i],
            final(self)@ == old(self)@.with_texts(Seq::new(r@.len(), |i: int| (*final(r@[i]))@)),
    {
        match self {
            BodyContent::Paragraph(p) => p.iter_text_mut(),
            BodyContent::Table(t) => t.iter_text_mut(),
        }
    }
}

impl<'a> Body<'a> {
    /// Exclusive handles on the text leaves of the body, in order. What is
    /// written through a handle is what the leaf holds afterwards; nothing else
    /// changes.
    pub fn iter_text_mut<'b>(&'b mut self) -> (r: Vec<&'b mut Cow<'a, str>>)
        ensures
            r@.len() == old(self)@.texts().len(),
            forall|i: int| 0 <= i < r@.len() ==> (*#[trigger] r@[i])@ == old(self)@.texts()[i],
            final(self)@ == old(self)@.with_texts(Seq::new(r@.len(), |i: int| (*final(r@[i]))@)),
    {
        body_contents_iter_text_mut(&mut self.content)
    }
}

impl<'a> Document<'a> {
    /// Exclusive handles on the text leaves of the document, in order. What is
    /// written through a handle is what the leaf holds afterwards; nothing else
    /// changes.
    pub fn iter_text_mut<'b>(&'b mut self) -> (r: Vec<&'b mut Cow<'a, str>>)
        ensures
            r@.len() == old(self)@.texts().len(),
            forall|i: int| 0 <= i < r@.len() ==> (*#[trigger] r@[i])@ == old(self)@.texts()[i],
            final(self)@ == old(self)@.with_texts(Seq::new(r@.len(), |i: int| (*final(r@[i]))@)),
    {
        self.body.iter_text_mut()
    }
}

/// The number of text leaves in the first `i` of `cs`.
pub open spec fn body_contents_offset(cs: Seq<BodyContentView>, i: int) -> int {
    body_contents_texts(cs.take(i)).len() as int
}

/// Blocks of a body with their text leaves replaced, in order, by `texts`: each
/// takes as many of `texts` as it has leaves.
pub open spec fn body_contents_with_texts(
    cs: Seq<BodyContentView>,
    texts: Seq<Seq<char>>,
) -> Seq<BodyContentView>
{
    Seq::new(
        cs.len(),
        |i: int|
            cs[i].with_texts(
                texts.subrange(body_contents_offset(cs, i), body_contents_offset(cs, i + 1)),
            ),
    )
}

/// The leaves of one more of `cs` follow those of the ones before it.
pub proof fn lemma_body_contents_offset_step(cs: Seq<BodyContentView>, i: int)
    requires
        0 <= i < cs.len(),
    ensures
        body_contents_texts(cs.take(i + 1)) == body_contents_texts(cs.take(i)) + cs[i].texts(),
        body_contents_offset(cs, i + 1) == body_contents_offset(cs, i) + cs[i].texts().len(),
        body_contents_offset(cs, i) >= 0,
{
    assert(cs.take(i + 1).drop_last() =~= cs.take(i));
    assert(cs.take(i + 1).last() == cs[i]);
}

/// The more of `cs` are counted, the more leaves there are.
pub proof fn lemma_body_contents_offset_monotonic(cs: Seq<BodyContentView>, i: int, j: int)
    requires
        0 <= i <= j <= cs.len(),
    ensures
        0 <= body_contents_offset(cs, i) <= body_contents_offset(cs, j),
    decreases j - i,
{
    if i < j {
        lemma_body_contents_offset_step(cs, j - 1);
        lemma_body_contents_offset_monotonic(cs, i, j - 1);
    }
}

/// Exclusive handles on the text leaves of `items`, in order. What is
/// written through a handle is what the leaf holds afterwards; nothing else
/// changes.
#[verifier::rlimit(100)]
pub fn body_contents_iter_text_mut<'b, 'a>(
    items: &'b mut Vec<BodyContent<'a>>,
) -> (r: Vec<&'b mut Cow<'a, str>>)
    ensures
        r@.len() == body_contents_texts(body_contents_view(old(items)@)).len(),
        forall|i: int|
            0 <= i < r@.len() ==> (*#[trigger] r@[i])@ == body_contents_texts(
                body_contents_view(old(items)@),
            )[i],
        body_contents_view(final(items)@) == body_contents_with_texts(
            body_contents_view(old(items)@),
            Seq::new(r@.len(), |i: int| (*final(r@[i]))@),
        ),
{
    let mut out: Vec<&'b mut Cow<'a, str>> = Vec::new();
    let ghost whole = *items;
    let ghost orig = items@;
    let ghost views = body_contents_view(items@);
    let mut rest: &'b mut [BodyContent<'a>] = items.as_mut_slice();
    let ghost all = final(rest)@;
    proof {
        assert(views.take(0) =~= Seq::<BodyContentView>::empty());
        assert(orig.skip(0) =~= orig);
    }
    while rest.len() > 0
        invariant
            whole == *old(items),
            whole@ == orig,
            views == body_contents_view(orig),
            rest@.len() <= orig.len(),
            rest@ == orig.skip(orig.len() - rest@.len()),
            out@.len() == body_contents_offset(views, orig.len() - rest@.len()),
            forall|j: int|
                0 <= j < out@.len() ==> (*#[trigger] out@[j])@ == body_contents_texts(
                    views.take(orig.len() - rest@.len()),
                )[j],
            all.len() == orig.len() - rest@.len() + final(rest)@.len(),
            forall|j: int|
                0 <= j < final(rest)@.len() ==> #[trigger] all[orig.len() - rest@.len() + j]
                    == final(rest)@[j],
            forall|idx: int|
                0 <= idx < orig.len() - rest@.len() ==> (#[trigger] all[idx])@
                    == views[idx].with_texts(
                    Seq::new(
                        out@.len(),
                        |j: int| (*final(out@[j]))@,
                    ).subrange(
                        body_contents_offset(views, idx),
                        body_contents_offset(views, idx + 1),
                    ),
                ),
        decreases rest.len(),
    {
        let ghost k = orig.len() - rest@.len();
        let ghost fr = final(rest)@;
        let ghost n0 = out@.len() as int;
        let ghost out0 = out@;
        let ghost fin0 = Seq::new(out@.len(), |j: int| (*final(out@[j]))@);
        proof {
            lemma_body_contents_offset_step(views, k);
        }
        let (head, tail) = rest.split_at_mut(1);
        let ghost fh = final(head)@;
        let ghost ft = final(tail)@;
        assert(fr == fh + ft);
        assert(head@[0] == orig[k]);
        rest = tail;
        match head.first_mut() {
            Some(c) => {
                assert(fh.len() == 1);
                assert(fh[0] == *final(c));
                let mut part = c.iter_text_mut();
                let ghost part0 = part@;
                let ghost part_fin = Seq::new(part0.len(), |j: int| (*final(part0[j]))@);
                out.append(&mut part);
                let ghost fin = Seq::new(out@.len(), |j: int| (*final(out@[j]))@);
                proof {
                    assert(out@ =~= out0 + part0);
                    assert(fin =~= fin0 + part_fin);
                    assert(all[k + 0] == fr[0]);
                    assert forall|j: int| 0 <= j < ft.len() implies all[k + 1 + j] == ft[j] by {
                        assert(all[k + (1 + j)] == fr[1 + j]);
                    }
                    assert(out@ =~= out0 + part0);
                    assert(views[k] == orig[k]@);
                    assert(part0.len() == views[k].texts().len());
                    assert(fin.subrange(n0, n0 + part0.len()) =~= part_fin);
                    assert(all[k]@ == views[k].with_texts(
                        fin.subrange(
                            body_contents_offset(views, k),
                            body_contents_offset(views, k + 1),
                        ),
                    ));
                    assert forall|idx: int| 0 <= idx < k implies (#[trigger] all[idx])@
                        == views[idx].with_texts(
                        fin.subrange(
                            body_contents_offset(views, idx),
                            body_contents_offset(views, idx + 1),
                        ),
                    ) by {
                        lemma_body_contents_offset_monotonic(views, idx + 1, k);
                        lemma_body_contents_offset_monotonic(views, idx, idx + 1);
                        assert(fin.subrange(
                            body_contents_offset(views, idx),
                            body_contents_offset(views, idx + 1),
                        ) =~= fin0.subrange(
                            body_contents_offset(views, idx),
                            body_contents_offset(views, idx + 1),
                        ));
                    }
                }
            },
            None => {},
        }
    }
    proof {
        assert(views.take(orig.len() as int) =~= views);
        let fin = Seq::new(out@.len(), |j: int| (*final(out@[j]))@);
        let texts = Seq::new(out@.len(), |i: int| (*final(out@[i]))@);
        assert(texts =~= fin);
        assert(body_contents_view(all) =~= body_contents_with_texts(views, fin));
    }
    out
}

impl BodyContentView {
    /// Substitution and traversal agree: the text leaves of the entry after
    /// a substitution are its text leaves before, each with the dictionary
    /// applied, in the same order.
    pub proof fn lemma_substituted_texts(self, dict: Seq<(Seq<char>, Seq<char>)>)
        ensures
            self.substituted(dict).texts() == texts_substituted(self.texts(), dict),
    {
        match self {
            BodyContentView::Paragraph(x) => {
                x.lemma_substituted_texts(dict);
            },
            BodyContentView::Table(x) => {
                x.lemma_substituted_texts(dict);
            },
        }
    }
}

impl BodyView {
    /// The text leaves of the first `n` parts after a substitution are the
    /// substituted text leaves of the first `n` parts.
    pub proof fn lemma_substituted_texts_prefix(self, dict: Seq<(Seq<char>, Seq<char>)>, n: int)
        requires
            0 <= n <= self.content.len(),
        ensures
            body_contents_texts(self.substituted(dict).content.take(n)) == texts_substituted(
                body_contents_texts(self.content.take(n)),
                dict,
            ),
        decreases n,
    {
        let after = self.substituted(dict).content;
        if n == 0 {
            assert(after.take(0) =~= self.content.take(0));
            assert(body_contents_texts(after.take(0)) =~= texts_substituted(
                body_contents_texts(self.content.take(0)),
                dict,
            ));
        } else {
            self.lemma_substituted_texts_prefix(dict, n - 1);
            self.content[n - 1].lemma_substituted_texts(dict);
            assert(after.take(n).drop_last() =~= after.take(n - 1));
            assert(after.take(n).last() == self.content[n - 1].substituted(dict));
            assert(self.content.take(n).drop_last() =~= self.content.take(n - 1));
            assert(self.content.take(n).last() == self.content[n - 1]);
            lemma_texts_substituted_concat(
                body_contents_texts(self.content.take(n - 1)),
                self.content[n - 1].texts(),
                dict,
            );
        }
    }

    /// Substitution and traversal agree: the text leaves of a body after
    /// a substitution are its text leaves before, each with the dictionary
    /// applied, in the same order.
    pub proof fn lemma_substituted_texts(self, dict: Seq<(Seq<char>, Seq<char>)>)
        ensures
            self.substituted(dict).texts() == texts_substituted(self.texts(), dict),
    {
        self.lemma_substituted_texts_prefix(dict, self.content.len() as int);
        assert(self.content.take(self.content.len() as int) =~= self.content);
        let after = self.substituted(dict).content;
        assert(after.take(after.len() as int) =~= after);
    }
}

impl DocumentView {
    /// Substitution and traversal agree: the text leaves of a document
    /// after a substitution are its text leaves before, each with the
    /// dictionary applied, in the same order.
    pub proof fn lemma_substituted_texts(self, dict: Seq<(Seq<char>, Seq<char>)>)
        ensures
            self.substituted(dict).texts() == texts_substituted(self.texts(), dict),
    {
        self.body.lemma_substituted_texts(dict);
    }
}

impl BodyContentView {
    /// What is put in place of the text leaves of the entry is what a
    /// traversal finds there afterwards, in the same order.
    pub proof fn lemma_with_texts(self, texts: Seq<Seq<char>>)
        requires
            texts.len() == self.texts().len(),
        ensures
            self.with_texts(texts).texts() == texts,
    {
        match self {
            BodyContentView::Paragraph(x) => {
                x.lemma_with_texts(texts);
            },
            BodyContentView::Table(x) => {
                x.lemma_with_texts(texts);
            },
        }
    }
}

impl BodyView {
    /// The text leaves of the first `n` parts after their leaves were
    /// replaced are the texts that took their place.
    #[verifier::rlimit(100)]
    pub proof fn lemma_with_texts_prefix(self, texts: Seq<Seq<char>>, n: int)
        requires
            texts.len() == self.texts().len(),
            0 <= n <= self.content.len(),
        ensures
            0 <= body_contents_offset(self.content, n) <= texts.len(),
            body_contents_texts(self.with_texts(texts).content.take(n)) == texts.take(
                body_contents_offset(self.content, n),
            ),
        decreases n,
    {
        let cs = self.content;
        let after = self.with_texts(texts).content;
        assert(cs.take(cs.len() as int) =~= cs);
        lemma_body_contents_offset_monotonic(cs, n, cs.len() as int);
        if n == 0 {
            assert(after.take(0) =~= cs.take(0));
            assert(body_contents_texts(after.take(0)) =~= texts.take(body_contents_offset(cs, 0)));
        } else {
            self.lemma_with_texts_prefix(texts, n - 1);
            lemma_body_contents_offset_step(cs, n - 1);
            let from = body_contents_offset(cs, n - 1);
            let to = body_contents_offset(cs, n);
            cs[n - 1].lemma_with_texts(texts.subrange(from, to));
            lemma_body_contents_offset_step(after, n - 1);
            assert(after[n - 1] == cs[n - 1].with_texts(texts.subrange(from, to)));
            assert(after[n - 1].texts() == texts.subrange(from, to));
            assert(texts.take(from) + texts.subrange(from, to) =~= texts.take(to));
        }
    }

    /// What is put in place of the text leaves of a body is what a
    /// traversal finds there afterwards, in the same order.
    pub proof fn lemma_with_texts(self, texts: Seq<Seq<char>>)
        requires
            texts.len() == self.texts().len(),
        ensures
            self.with_texts(texts).texts() == texts,
    {
        let cs = self.content;
        self.lemma_with_texts_prefix(texts, cs.len() as int);
        assert(cs.take(cs.len() as int) =~= cs);
        let after = self.with_texts(texts).content;
        assert(after.take(after.len() as int) =~= after);
        assert(texts.take(texts.len() as int) =~= texts);
    }
}

impl BodyContentView {
    /// What was read is in normal form: where an element reads as a block,
    /// writing that and reading it again gives the same.
    pub proof fn lemma_decode_normalizes(e: ElementView)
        requires
            BodyContentView::decoded(e) is Ok,
        ensures
            BodyContentView::decoded(
                BodyContentView::decoded(e)->Ok_0.encoded(),
            ) == BodyContentView::decoded(e),
    {
        BodyContentView::decoded(e)->Ok_0.lemma_decode_encode();
    }
}

impl BodyView {
    /// What was read is in normal form: where an element reads as a body,
    /// writing that and reading it again gives the same.
    pub proof fn lemma_decode_normalizes(e: ElementView)
        requires
            BodyView::decoded(e) is Ok,
        ensures
            BodyView::decoded(BodyView::decoded(e)->Ok_0.encoded()) == BodyView::decoded(e),
    {
        BodyView::decoded(e)->Ok_0.lemma_decode_encode();
    }
}

impl DocumentView {
    /// What was read is in normal form: where an element reads as a document,
    /// writing that and reading it again gives the same.
    pub proof fn lemma_decode_normalizes(e: ElementView)
        requires
            DocumentView::decoded(e) is Ok,
        ensures
            DocumentView::decoded(
                DocumentView::decoded(e)->Ok_0.encoded(),
            ) == DocumentView::decoded(e),
    {
        DocumentView::decoded(e)->Ok_0.lemma_decode_encode();
    }
}

impl DocumentView {
    /// What is put in place of the text leaves of a document is what a
    /// traversal finds there afterwards, in the same order.
    pub proof fn lemma_with_texts(self, texts: Seq<Seq<char>>)
        requires
            texts.len() == self.texts().len(),
        ensures
            self.with_texts(texts).texts() == texts,
    {
        self.body.lemma_with_texts(texts);
    }
}

impl<'a> BodyContent<'a> {
    /// Whether every text leaf of the entry owns its text.
    pub open spec fn owns_texts(&self) -> bool
    {
        match self {
            BodyContent::Paragraph(x) => x.owns_texts(),
            BodyContent::Table(x) => x.owns_texts(),
        }
    }
}

/// Whether every text leaf of blocks owns its text.
pub open spec fn body_contents_own_texts(items: Seq<BodyContent<'_>>) -> bool
{
    forall|i: int| 0 <= i < items.len() ==> (#[trigger] items[i]).owns_texts()
}

impl<'a> Body<'a> {
    /// Whether every text leaf of the body owns its text.
    pub open spec fn owns_texts(&self) -> bool {
        body_contents_own_texts(self.content@)
    }
}

impl<'a> Document<'a> {
    /// Whether every text leaf of the document owns its text.
    pub open spec fn owns_texts(&self) -> bool {
        self.body.owns_texts()
    }
}

impl<'a> Clone for BodyContent<'a> {
    fn clone(&self) -> (r: Self)
        ensures
            r@ == self@,
    {
        self.duplicate()
    }
}

impl<'a> BodyContent<'a> {
    /// A copy of the block and of all that is below it. The copy holds what
    /// `self` holds.
    pub fn duplicate(&self) -> (r: Self)
        ensures
            r@ == self@,
    {
        match self {
            BodyContent::Paragraph(x) => BodyContent::Paragraph(x.duplicate()),
            BodyContent::Table(x) => BodyContent::Table(x.duplicate()),
        }
    }
}

impl<'a> Clone for Body<'a> {
    fn clone(&self) -> (r: Self)
        ensures
            r@ == self@,
    {
        self.duplicate()
    }
}

impl<'a> Body<'a> {
    /// A copy of the body and of all that is below it. The copy holds what
    /// `self` holds.
    pub fn duplicate(&self) -> (r: Self)
        ensures
            r@ == self@,
    {
        let mut content: Vec<BodyContent<'a>> = Vec::new();
        let mut i: usize = 0;
        while i < self.content.len()
            invariant
                i <= self.content.len(),
                content@.len() == i,
                forall|j: int| 0 <= j < i ==> (#[trigger] content@[j])@ == self.content@[j]@,
            decreases self.content.len() - i,
        {
            content.push(self.content[i].duplicate());
            i = i + 1;
        }
        let r = Body { content };
        proof {
            assert(body_contents_view(r.content@) =~= body_contents_view(self.content@));
        }
        r
    }
}

impl<'a> Clone for Document<'a> {
    fn clone(&self) -> (r: Self)
        ensures
            r@ == self@,
    {
        self.duplicate()
    }
}

impl<'a> Document<'a> {
    /// A copy of the document and of all that is below it. The copy holds what
    /// `self` holds.
    pub fn duplicate(&self) -> (r: Self)
        ensures
            r@ == self@,
    {
        Document { body: self.body.duplicate() }
    }
}

} // verus!
