//! Legacy drawing containers, modelled just deep enough to reach the
//! relationship id of an embedded image.
use crate::error::DecodeError;
use crate::text::option_text;
use crate::xml::codec::{
    any_repeated, fields_view, lemma_written_attribute, lemma_written_not_repeated, names_view,
    optional_text_value, written_attributes, Field,
};
use crate::xml::element::{
    decoded_as, lemma_find_child_concat, lemma_find_optional_child, optional_child,
    optional_encoded, single_decoded, Element, ElementView,
};
use crate::xml::reader::{parse_as, parsed_as};
use crate::xml::writer::element_text;
use std::borrow::Cow;
use vstd::prelude::*;

verus! {

/// Image reference of a legacy drawing (`v:imagedata`).
#[derive(Debug, PartialEq)]
pub struct ImageData<'a> {
    /// Relationship id of the image part (`r:id`). The part itself is
    /// resolved elsewhere; this node never owns it.
    pub id: Option<Cow<'a, str>>,
    /// Title of the image (`o:title`).
    pub title: Option<Cow<'a, str>>,
}

/// What an [`ImageData`] holds.
pub struct ImageDataView {
    pub id: Option<Seq<char>>,
    pub title: Option<Seq<char>>,
}

impl<'a> View for ImageData<'a> {
    type V = ImageDataView;

    open spec fn view(&self) -> ImageDataView {
        ImageDataView { id: option_text(self.id), title: option_text(self.title) }
    }
}

/// Rectangle of a legacy drawing (`v:rect`).
#[derive(Debug, PartialEq)]
pub struct Rect<'a> {
    pub image_data: Option<ImageData<'a>>,
}

/// What a [`Rect`] holds.
pub struct RectView {
    pub image_data: Option<ImageDataView>,
}

/// The view of an optional image reference.
pub open spec fn option_image_data(o: Option<ImageData<'_>>) -> Option<ImageDataView> {
    match o {
        Some(d) => Some(d@),
        None => None,
    }
}

impl<'a> View for Rect<'a> {
    type V = RectView;

    open spec fn view(&self) -> RectView {
        RectView { image_data: option_image_data(self.image_data) }
    }
}

/// Shape of a legacy drawing (`v:shape`).
#[derive(Debug, PartialEq)]
pub struct Shape<'a> {
    pub id: Option<Cow<'a, str>>,
    pub style: Option<Cow<'a, str>>,
    pub image_data: Option<ImageData<'a>>,
}

/// What a [`Shape`] holds.
pub struct ShapeView {
    pub id: Option<Seq<char>>,
    pub style: Option<Seq<char>>,
    pub image_data: Option<ImageDataView>,
}

impl<'a> View for Shape<'a> {
    type V = ShapeView;

    open spec fn view(&self) -> ShapeView {
        ShapeView {
            id: option_text(self.id),
            style: option_text(self.style),
            image_data: option_image_data(self.image_data),
        }
    }
}

/// Legacy drawing container (`w:pict`).
#[derive(Debug, PartialEq)]
pub struct Pict<'a> {
    pub shape: Option<Shape<'a>>,
    pub rect: Option<Rect<'a>>,
}

/// What a [`Pict`] holds.
pub struct PictView {
    pub shape: Option<ShapeView>,
    pub rect: Option<RectView>,
}

impl<'a> View for Pict<'a> {
    type V = PictView;

    open spec fn view(&self) -> PictView {
        PictView {
            shape: match self.shape {
                Some(s) => Some(s@),
                None => None,
            },
            rect: match self.rect {
                Some(r) => Some(r@),
                None => None,
            },
        }
    }
}

impl PictView {
    /// The relationship id that the drawing leads to: that of the shape's
    /// image where the shape has one, else that of the rectangle's image.
    pub open spec fn image_id(self) -> Option<Seq<char>> {
        if self.shape is Some && self.shape->0.image_data is Some
            && self.shape->0.image_data->0.id is Some {
            self.shape->0.image_data->0.id
        } else if self.rect is Some && self.rect->0.image_data is Some {
            self.rect->0.image_data->0.id
        } else {
            None
        }
    }
}

impl<'a> Default for ImageData<'a> {
    fn default() -> (r: Self)
        ensures
            r@ == (ImageDataView { id: None, title: None }),
    {
        ImageData { id: None, title: None }
    }
}

impl<'a> Default for Rect<'a> {
    fn default() -> (r: Self)
        ensures
            r@ == (RectView { image_data: None }),
    {
        Rect { image_data: None }
    }
}

impl<'a> Default for Shape<'a> {
    fn default() -> (r: Self)
        ensures
            r@ == (ShapeView { id: None, style: None, image_data: None }),
    {
        Shape { id: None, style: None, image_data: None }
    }
}

impl<'a> Default for Pict<'a> {
    fn default() -> (r: Self)
        ensures
            r@ == (PictView { shape: None, rect: None }),
    {
        Pict { shape: None, rect: None }
    }
}

impl<'a> ImageData<'a> {
    /// The relationship id of the image, where it has one.
    pub fn relationship_id(&self) -> (r: Option<&Cow<'a, str>>)
        ensures
            r is Some <==> self@.id is Some,
            r is Some ==> r->0@ == self@.id->0,
    {
        match &self.id {
            Some(id) => Some(id),
            None => None,
        }
    }
}

impl<'a> Pict<'a> {
    /// The relationship id that the drawing leads to, as
    /// [`PictView::image_id`] says.
    pub fn image_id(&self) -> (r: Option<&Cow<'a, str>>)
        ensures
            r is Some <==> self@.image_id() is Some,
            r is Some ==> r->0@ == self@.image_id()->0,
    {
        if let Some(shape) = &self.shape {
            if let Some(data) = &shape.image_data {
                if let Some(id) = data.relationship_id() {
                    return Some(id);
                }
            }
        }
        if let Some(rect) = &self.rect {
            if let Some(data) = &rect.image_data {
                return data.relationship_id();
            }
        }
        None
    }
}

impl ImageDataView {
    /// The names of the fields and the texts that they are written as.
    pub open spec fn fields(self) -> Seq<Field> {
        seq![("r:id"@, self.id), ("o:title"@, self.title)]
    }

    /// The element that the image reference is written as.
    pub open spec fn encoded(self) -> ElementView {
        ElementView {
            tag: "v:imagedata"@,
            attributes: written_attributes(self.fields()),
            children: Seq::empty(),
        }
    }

    /// The image reference that an element reads as. The element must have
    /// the tag `v:imagedata`; both attributes may be absent.
    /// Where one of the attributes that are read stands twice, the element
    /// is refused.
    pub open spec fn decoded(e: ElementView) -> Result<ImageDataView, DecodeError> {
        if e.tag != "v:imagedata"@ {
            Err(DecodeError::UnexpectedTag)
        } else if any_repeated(e.attributes, seq!["r:id"@, "o:title"@]) {
            Err(DecodeError::DuplicateAttribute)
        } else {
            Ok(ImageDataView { id: e.attribute("r:id"@), title: e.attribute("o:title"@) })
        }
    }

    /// An image reference reads as it was written.
    pub proof fn lemma_decode_encode(self)
        ensures
            ImageDataView::decoded(self.encoded()) == Ok::<ImageDataView, DecodeError>(self),
    {
        assert(!any_repeated(self.encoded().attributes, seq!["r:id"@, "o:title"@])) by {
            reveal_strlit("r:id");
            reveal_strlit("o:title");
            assert("r:id"@.len() == 4);
            assert("o:title"@.len() == 7);
            lemma_written_not_repeated(
                self.fields(),
                seq!["r:id"@, "o:title"@],
            );
        }
        reveal_strlit("r:id");
        reveal_strlit("o:title");
        assert("r:id"@.len() == 4);
        assert("o:title"@.len() == 7);
        lemma_written_attribute(self.fields(), 0);
        lemma_written_attribute(self.fields(), 1);
    }
}

impl RectView {
    /// The element that the rectangle is written as.
    pub open spec fn encoded(self) -> ElementView {
        ElementView {
            tag: "v:rect"@,
            attributes: Seq::empty(),
            children: optional_child(
                optional_encoded(self.image_data, |d: ImageDataView| d.encoded()),
            ),
        }
    }

    /// The rectangle that an element reads as. The element must have the
    /// tag `v:rect`; the image reference may be absent.
    pub open spec fn decoded(e: ElementView) -> Result<RectView, DecodeError> {
        if e.tag != "v:rect"@ {
            Err(DecodeError::UnexpectedTag)
        } else {
            match single_decoded(
                e.children,
                "v:imagedata"@,
                |c: ElementView| ImageDataView::decoded(c),
            ) {
                Err(x) => Err(x),
                Ok(image_data) => Ok(RectView { image_data }),
            }
        }
    }

    /// A rectangle reads as it was written.
    pub proof fn lemma_decode_encode(self)
        ensures
            RectView::decoded(self.encoded()) == Ok::<RectView, DecodeError>(self),
    {
        let first = optional_encoded(self.image_data, |d: ImageDataView| d.encoded());
        lemma_find_optional_child(first, "v:imagedata"@);
        if let Some(d) = self.image_data {
            d.lemma_decode_encode();
        }
    }
}

impl ShapeView {
    /// The names of the fields and the texts that they are written as.
    pub open spec fn fields(self) -> Seq<Field> {
        seq![("id"@, self.id), ("style"@, self.style)]
    }

    /// The element that the shape is written as.
    pub open spec fn encoded(self) -> ElementView {
        ElementView {
            tag: "v:shape"@,
            attributes: written_attributes(self.fields()),
            children: optional_child(
                optional_encoded(self.image_data, |d: ImageDataView| d.encoded()),
            ),
        }
    }

    /// The shape that an element reads as. The element must have the tag
    /// `v:shape`; attributes and image reference may be absent.
    /// Where one of the attributes that are read stands twice, the element
    /// is refused.
    pub open spec fn decoded(e: ElementView) -> Result<ShapeView, DecodeError> {
        if e.tag != "v:shape"@ {
            Err(DecodeError::UnexpectedTag)
        } else if any_repeated(e.attributes, seq!["id"@, "style"@]) {
            Err(DecodeError::DuplicateAttribute)
        } else {
            match single_decoded(
                e.children,
                "v:imagedata"@,
                |c: ElementView| ImageDataView::decoded(c),
            ) {
                Err(x) => Err(x),
                Ok(image_data) => Ok(
                    ShapeView { id: e.attribute("id"@), style: e.attribute("style"@), image_data },
                ),
            }
        }
    }

    /// A shape reads as it was written.
    pub proof fn lemma_decode_encode(self)
        ensures
            ShapeView::decoded(self.encoded()) == Ok::<ShapeView, DecodeError>(self),
    {
        assert(!any_repeated(self.encoded().attributes, seq!["id"@, "style"@])) by {
            reveal_strlit("id");
            reveal_strlit("style");
            assert("id"@.len() == 2);
            assert("style"@.len() == 5);
            lemma_written_not_repeated(
                self.fields(),
                seq!["id"@, "style"@],
            );
        }
        reveal_strlit("id");
        reveal_strlit("style");
        assert("id"@.len() == 2);
        assert("style"@.len() == 5);
        lemma_written_attribute(self.fields(), 0);
        lemma_written_attribute(self.fields(), 1);
        let first = optional_encoded(self.image_data, |d: ImageDataView| d.encoded());
        lemma_find_optional_child(first, "v:imagedata"@);
        if let Some(d) = self.image_data {
            d.lemma_decode_encode();
        }
    }
}

impl PictView {
    /// The element that the drawing is written as.
    pub open spec fn encoded(self) -> ElementView {
        ElementView {
            tag: "w:pict"@,
            attributes: Seq::empty(),
            children: optional_child(optional_encoded(self.shape, |s: ShapeView| s.encoded()))
                + optional_child(optional_encoded(self.rect, |r: RectView| r.encoded())),
        }
    }

    /// The drawing that an element reads as. The element must have the tag
    /// `w:pict`; shape and rectangle may be absent, and whatever else the
    /// element holds is passed over.
    pub open spec fn decoded(e: ElementView) -> Result<PictView, DecodeError> {
        if e.tag != "w:pict"@ {
            Err(DecodeError::UnexpectedTag)
        } else {
            match single_decoded(e.children, "v:shape"@, |c: ElementView| ShapeView::decoded(c)) {
                Err(x) => Err(x),
                Ok(shape) => match single_decoded(
                    e.children,
                    "v:rect"@,
                    |c: ElementView| RectView::decoded(c),
                ) {
                    Err(x) => Err(x),
                    Ok(rect) => Ok(PictView { shape, rect }),
                },
            }
        }
    }

    /// A drawing reads as it was written.
    pub proof fn lemma_decode_encode(self)
        ensures
            PictView::decoded(self.encoded()) == Ok::<PictView, DecodeError>(self),
    {
        reveal_strlit("v:shape");
        reveal_strlit("v:rect");
        assert("v:shape"@.len() == 7);
        assert("v:rect"@.len() == 6);
        let first = optional_encoded(self.shape, |s: ShapeView| s.encoded());
        let second = optional_encoded(self.rect, |r: RectView| r.encoded());
        lemma_find_child_concat(optional_child(first), optional_child(second), "v:shape"@);
        lemma_find_child_concat(optional_child(first), optional_child(second), "v:rect"@);
        lemma_find_optional_child(first, "v:shape"@);
        lemma_find_optional_child(first, "v:rect"@);
        lemma_find_optional_child(second, "v:shape"@);
        lemma_find_optional_child(second, "v:rect"@);
        if let Some(s) = self.shape {
            s.lemma_decode_encode();
        }
        if let Some(r) = self.rect {
            r.lemma_decode_encode();
        }
    }
}

impl<'a> ImageData<'a> {
    /// Writes the image reference as an element.
    pub fn encode(&self) -> (e: Element<'a>)
        ensures
            e@ == self@.encoded(),
    {
        let mut fields: Vec<(&'a str, Option<Cow<'a, str>>)> = Vec::new();
        fields.push(("r:id", optional_text_value(&self.id)));
        fields.push(("o:title", optional_text_value(&self.title)));
        proof {
            assert(fields_view(fields@) =~= self@.fields());
        }
        Element::with_fields("v:imagedata", &fields)
    }

    /// Reads an image reference from an element.
    pub fn decode(e: &Element<'a>) -> (r: Result<ImageData<'a>, DecodeError>)
        ensures
            decoded_as(r, ImageDataView::decoded(e@)),
    {
        if !e.has_tag("v:imagedata") {
            return Err(DecodeError::UnexpectedTag);
        }
        let mut names: Vec<&str> = Vec::new();
        names.push("r:id");
        names.push("o:title");
        proof {
            assert(names_view(names@) =~= seq!["r:id"@, "o:title"@]);
        }
        if e.any_repeated(&names) {
            return Err(DecodeError::DuplicateAttribute);
        }
        Ok(ImageData { id: e.text_attribute("r:id"), title: e.text_attribute("o:title") })
    }
}

impl<'a> Rect<'a> {
    /// Writes the rectangle as an element.
    pub fn encode(&self) -> (e: Element<'a>)
        ensures
            e@ == self@.encoded(),
    {
        let first: Option<Element<'a>> = match &self.image_data {
            Some(d) => Some(d.encode()),
            None => None,
        };
        let e = Element::new("v:rect").with_child(first);
        proof {
            assert(e@.children =~= self@.encoded().children);
        }
        e
    }

    /// Reads a rectangle from an element.
    pub fn decode(e: &Element<'a>) -> (r: Result<Rect<'a>, DecodeError>)
        ensures
            decoded_as(r, RectView::decoded(e@)),
    {
        if !e.has_tag("v:rect") {
            return Err(DecodeError::UnexpectedTag);
        }
        let image_data = e.decode_single(
            "v:imagedata",
            ImageData::decode,
            Ghost(|c: ElementView| ImageDataView::decoded(c)),
        )?;
        Ok(Rect { image_data })
    }
}

impl<'a> Shape<'a> {
    /// Writes the shape as an element.
    pub fn encode(&self) -> (e: Element<'a>)
        ensures
            e@ == self@.encoded(),
    {
        let mut fields: Vec<(&'a str, Option<Cow<'a, str>>)> = Vec::new();
        fields.push(("id", optional_text_value(&self.id)));
        fields.push(("style", optional_text_value(&self.style)));
        proof {
            assert(fields_view(fields@) =~= self@.fields());
        }
        let first: Option<Element<'a>> = match &self.image_data {
            Some(d) => Some(d.encode()),
            None => None,
        };
        let e = Element::with_fields("v:shape", &fields).with_child(first);
        proof {
            assert(e@.children =~= self@.encoded().children);
        }
        e
    }

    /// Reads a shape from an element.
    pub fn decode(e: &Element<'a>) -> (r: Result<Shape<'a>, DecodeError>)
        ensures
            decoded_as(r, ShapeView::decoded(e@)),
    {
        if !e.has_tag("v:shape") {
            return Err(DecodeError::UnexpectedTag);
        }
        let mut names: Vec<&str> = Vec::new();
        names.push("id");
        names.push("style");
        proof {
            assert(names_view(names@) =~= seq!["id"@, "style"@]);
        }
        if e.any_repeated(&names) {
            return Err(DecodeError::DuplicateAttribute);
        }
        let image_data = e.decode_single(
            "v:imagedata",
            ImageData::decode,
            Ghost(|c: ElementView| ImageDataView::decoded(c)),
        )?;
        Ok(Shape { id: e.text_attribute("id"), style: e.text_attribute("style"), image_data })
    }
}

impl<'a> Pict<'a> {
    /// Writes the drawing as an element.
    pub fn encode(&self) -> (e: Element<'a>)
        ensures
            e@ == self@.encoded(),
    {
        let first: Option<Element<'a>> = match &self.shape {
            Some(s) => Some(s.encode()),
            None => None,
        };
        let second: Option<Element<'a>> = match &self.rect {
            Some(r) => Some(r.encode()),
            None => None,
        };
        let e = Element::new("w:pict").with_child(first).with_child(second);
        proof {
            assert(e@.children =~= self@.encoded().children);
        }
        e
    }

    /// Reads a drawing from an element.
    pub fn decode(e: &Element<'a>) -> (r: Result<Pict<'a>, DecodeError>)
        ensures
            decoded_as(r, PictView::decoded(e@)),
    {
        if !e.has_tag("w:pict") {
            return Err(DecodeError::UnexpectedTag);
        }
        let shape = e.decode_single(
            "v:shape",
            Shape::decode,
            Ghost(|c: ElementView| ShapeView::decoded(c)),
        )?;
        let rect = e.decode_single(
            "v:rect",
            Rect::decode,
            Ghost(|c: ElementView| RectView::decoded(c)),
        )?;
        Ok(Pict { shape, rect })
    }
}

impl<'a> ImageData<'a> {
    /// Reads an image reference from XML text: the first element of the text
    /// with the tag `v:imagedata` is read as [`ImageData::decode`] reads an
    /// element. Whole elements with other tags before it are passed over.
    pub fn from_str(text: &'a str) -> (r: Result<ImageData<'a>, DecodeError>)
        ensures
            decoded_as(
                r,
                match parsed_as(text@, seq!["v:imagedata"@]) {
                    Ok(e) => ImageDataView::decoded(e),
                    Err(x) => Err(x),
                },
            ),
    {
        let mut tags: Vec<&str> = Vec::new();
        tags.push("v:imagedata");
        proof {
            assert(names_view(tags@) =~= seq!["v:imagedata"@]);
        }
        match parse_as(text, &tags) {
            Ok(e) => ImageData::decode(&e),
            Err(x) => Err(x),
        }
    }

    /// The XML text of the element that [`ImageData::encode`] gives.
    pub fn to_string(&self) -> (r: String)
        ensures
            r@ == element_text(self@.encoded()),
    {
        self.encode().to_string()
    }
}

impl<'a> Rect<'a> {
    /// Reads a rectangle from XML text: the first element of the text with the
    /// tag `v:rect` is read as [`Rect::decode`] reads an element. Whole
    /// elements with other tags before it are passed over.
    pub fn from_str(text: &'a str) -> (r: Result<Rect<'a>, DecodeError>)
        ensures
            decoded_as(
                r,
                match parsed_as(text@, seq!["v:rect"@]) {
                    Ok(e) => RectView::decoded(e),
                    Err(x) => Err(x),
                },
            ),
    {
        let mut tags: Vec<&str> = Vec::new();
        tags.push("v:rect");
        proof {
            assert(names_view(tags@) =~= seq!["v:rect"@]);
        }
        match parse_as(text, &tags) {
            Ok(e) => Rect::decode(&e),
            Err(x) => Err(x),
        }
    }

    /// The XML text of the element that [`Rect::encode`] gives.
    pub fn to_string(&self) -> (r: String)
        ensures
            r@ == element_text(self@.encoded()),
    {
        self.encode().to_string()
    }
}

impl<'a> Shape<'a> {
    /// Reads a shape from XML text: the first element of the text with the tag
    /// `v:shape` is read as [`Shape::decode`] reads an element. Whole elements
    /// with other tags before it are passed over.
    pub fn from_str(text: &'a str) -> (r: Result<Shape<'a>, DecodeError>)
        ensures
            decoded_as(
                r,
                match parsed_as(text@, seq!["v:shape"@]) {
                    Ok(e) => ShapeView::decoded(e),
                    Err(x) => Err(x),
                },
            ),
    {
        let mut tags: Vec<&str> = Vec::new();
        tags.push("v:shape");
        proof {
            assert(names_view(tags@) =~= seq!["v:shape"@]);
        }
        match parse_as(text, &tags) {
            Ok(e) => Shape::decode(&e),
            Err(x) => Err(x),
        }
    }

    /// The XML text of the element that [`Shape::encode`] gives.
    pub fn to_string(&self) -> (r: String)
        ensures
            r@ == element_text(self@.encoded()),
    {
        self.encode().to_string()
    }
}

impl<'a> Pict<'a> {
    /// Reads a drawing from XML text: the first element of the text with the
    /// tag `w:pict` is read as [`Pict::decode`] reads an element. Whole
    /// elements with other tags before it are passed over.
    pub fn from_str(text: &'a str) -> (r: Result<Pict<'a>, DecodeError>)
        ensures
            decoded_as(
                r,
                match parsed_as(text@, seq!["w:pict"@]) {
                    Ok(e) => PictView::decoded(e),
                    Err(x) => Err(x),
                },
            ),
    {
        let mut tags: Vec<&str> = Vec::new();
        tags.push("w:pict");
        proof {
            assert(names_view(tags@) =~= seq!["w:pict"@]);
        }
        match parse_as(text, &tags) {
            Ok(e) => Pict::decode(&e),
            Err(x) => Err(x),
        }
    }

    /// The XML text of the element that [`Pict::encode`] gives.
    pub fn to_string(&self) -> (r: String)
        ensures
            r@ == element_text(self@.encoded()),
    {
        self.encode().to_string()
    }
}

impl ImageDataView {
    /// What was read is in normal form: where an element reads as an image reference,
    /// writing that and reading it again gives the same.
    pub proof fn lemma_decode_normalizes(e: ElementView)
        requires
            ImageDataView::decoded(e) is Ok,
        ensures
            ImageDataView::decoded(
                ImageDataView::decoded(e)->Ok_0.encoded(),
            ) == ImageDataView::decoded(e),
    {
        ImageDataView::decoded(e)->Ok_0.lemma_decode_encode();
    }
}

impl RectView {
    /// What was read is in normal form: where an element reads as a rectangle,
    /// writing that and reading it again gives the same.
    pub proof fn lemma_decode_normalizes(e: ElementView)
        requires
            RectView::decoded(e) is Ok,
        ensures
            RectView::decoded(RectView::decoded(e)->Ok_0.encoded()) == RectView::decoded(e),
    {
        RectView::decoded(e)->Ok_0.lemma_decode_encode();
    }
}

impl ShapeView {
    /// What was read is in normal form: where an element reads as a shape,
    /// writing that and reading it again gives the same.
    pub proof fn lemma_decode_normalizes(e: ElementView)
        requires
            ShapeView::decoded(e) is Ok,
        ensures
            ShapeView::decoded(ShapeView::decoded(e)->Ok_0.encoded()) == ShapeView::decoded(e),
    {
        ShapeView::decoded(e)->Ok_0.lemma_decode_encode();
    }
}

impl PictView {
    /// What was read is in normal form: where an element reads as a drawing,
    /// writing that and reading it again gives the same.
    pub proof fn lemma_decode_normalizes(e: ElementView)
        requires
            PictView::decoded(e) is Ok,
        ensures
            PictView::decoded(PictView::decoded(e)->Ok_0.encoded()) == PictView::decoded(e),
    {
        PictView::decoded(e)->Ok_0.lemma_decode_encode();
    }
}

impl<'a> Clone for ImageData<'a> {
    fn clone(&self) -> (r: Self)
        ensures
            r@ == self@,
    {
        self.duplicate()
    }
}

impl<'a> ImageData<'a> {
    /// A copy of the image reference and of all that is below it. The copy holds what
    /// `self` holds.
    pub fn duplicate(&self) -> (r: Self)
        ensures
            r@ == self@,
    {
        ImageData {
            id: optional_text_value(&self.id),
            title: optional_text_value(&self.title),
        }
    }
}

impl<'a> Clone for Rect<'a> {
    fn clone(&self) -> (r: Self)
        ensures
            r@ == self@,
    {
        self.duplicate()
    }
}

impl<'a> Rect<'a> {
    /// A copy of the rectangle and of all that is below it. The copy holds what
    /// `self` holds.
    pub fn duplicate(&self) -> (r: Self)
        ensures
            r@ == self@,
    {
        let image_data = match &self.image_data {
            Some(x) => Some(x.duplicate()),
            None => None,
        };
        Rect { image_data }
    }
}

impl<'a> Clone for Shape<'a> {
    fn clone(&self) -> (r: Self)
        ensures
            r@ == self@,
    {
        self.duplicate()
    }
}

impl<'a> Shape<'a> {
    /// A copy of the shape and of all that is below it. The copy holds what
    /// `self` holds.
    pub fn duplicate(&self) -> (r: Self)
        ensures
            r@ == self@,
    {
        let image_data = match &self.image_data {
            Some(x) => Some(x.duplicate()),
            None => None,
        };
        Shape {
            id: optional_text_value(&self.id),
            style: optional_text_value(&self.style),
            image_data,
        }
    }
}

impl<'a> Clone for Pict<'a> {
    fn clone(&self) -> (r: Self)
        ensures
            r@ == self@,
    {
        self.duplicate()
    }
}

impl<'a> Pict<'a> {
    /// A copy of the drawing and of all that is below it. The copy holds what
    /// `self` holds.
    pub fn duplicate(&self) -> (r: Self)
        ensures
            r@ == self@,
    {
        let shape = match &self.shape {
            Some(x) => Some(x.duplicate()),
            None => None,
        };
        let rect = match &self.rect {
            Some(x) => Some(x.duplicate()),
            None => None,
        };
        Pict { shape, rect }
    }
}

} // verus!
