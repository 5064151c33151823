//! From XML text to an element. The text is cut into tokens by the reader
//! of `hard_xml`; what the tokens mean as a tree is decided here.
use crate::error::DecodeError;
use crate::grammar::{holds_text, holds_text_only, reads, reads_child};
use crate::text::str_eq;
use crate::xml::codec::names_view;
use crate::xml::element::{
    decoded_as, Attribute, AttributeView, Element, ElementView, Node, NodeView,
};
use hard_xml::{XmlError, XmlReader};
use hard_xml::xmlparser::{ElementEnd, Token};
use std::borrow::Cow;
use vstd::prelude::*;

verus! {

/// The reader of `hard_xml`: a text and a position in its tokens.
#[verifier::external_type_specification]
#[verifier::external_body]
pub struct ExXmlReader<'a>(XmlReader<'a>);

/// The error type of `hard_xml`.
#[verifier::external_type_specification]
#[verifier::external_body]
pub struct ExXmlError(XmlError);

/// A token as the reader hands it out.
pub enum XmlToken {
    /// The start of an element, with its qualified name: `<w:p`.
    Start(Seq<char>),
    /// An attribute, with its qualified name and its value as written,
    /// escapes and all: `w:val="1"`.
    Attribute(Seq<char>, Seq<char>),
    /// The end of a start tag behind which children follow: `>`.
    Open,
    /// The end of a start tag of an element without children: `/>`.
    Empty,
    /// An end tag, with its qualified name: `</w:p>`.
    Close(Seq<char>),
    /// Character data as written, escapes and all.
    Text(Seq<char>),
    /// The content of a CDATA section.
    Cdata(Seq<char>),
    /// A declaration, a comment, a processing instruction or a part of a
    /// document type definition.
    Other,
    /// A place where the text is not XML.
    Invalid,
}

/// The kind of a token.
#[derive(Debug, Clone, Copy, PartialEq, Eq, Structural)]
pub enum TokenKind {
    Start,
    Attribute,
    Open,
    Empty,
    Close,
    Text,
    Cdata,
    Other,
    Invalid,
}

/// The kind of `token`.
pub open spec fn token_kind(token: XmlToken) -> TokenKind {
    match token {
        XmlToken::Start(_) => TokenKind::Start,
        XmlToken::Attribute(_, _) => TokenKind::Attribute,
        XmlToken::Open => TokenKind::Open,
        XmlToken::Empty => TokenKind::Empty,
        XmlToken::Close(_) => TokenKind::Close,
        XmlToken::Text(_) => TokenKind::Text,
        XmlToken::Cdata(_) => TokenKind::Cdata,
        XmlToken::Other => TokenKind::Other,
        XmlToken::Invalid => TokenKind::Invalid,
    }
}

/// The tokens that `hard_xml` cuts the text `text` into.
pub uninterp spec fn xml_tokens(text: Seq<char>) -> Seq<XmlToken>;

/// The tokens that `reader` has yet to hand out.
pub uninterp spec fn reader_tokens(reader: XmlReader<'_>) -> Seq<XmlToken>;

/// What `hard_xml` makes of the escapes in `raw`: the text without them, or
/// nothing where an escape is not well-formed.
pub uninterp spec fn xml_unescaped(raw: Seq<char>) -> Option<Seq<char>>;

/// `XmlReader::new` of `hard_xml`: a reader at the start of `text`. It has
/// all the tokens of `text` yet to hand out.
#[verifier::external_body]
fn open_reader<'a>(text: &'a str) -> (reader: XmlReader<'a>)
    ensures
        reader_tokens(reader) == xml_tokens(text@),
{
    XmlReader::new(text)
}

/// `XmlReader::peek` of `hard_xml`: the kind of the next token, which stays
/// where it is; nothing where no token is left.
#[verifier::external_body]
fn peek_kind<'a>(reader: &mut XmlReader<'a>) -> (r: Option<TokenKind>)
    ensures
        reader_tokens(*final(reader)) == reader_tokens(*old(reader)),
        r is None <==> reader_tokens(*old(reader)).len() == 0,
        r is Some ==> r->0 == token_kind(reader_tokens(*old(reader))[0]),
{
    let token = match reader.peek()? {
        Ok(token) => token,
        Err(_) => return Some(TokenKind::Invalid),
    };
    Some(match token {
        Token::ElementStart { .. } => TokenKind::Start,
        Token::Attribute { .. } => TokenKind::Attribute,
        Token::ElementEnd { end: ElementEnd::Open, .. } => TokenKind::Open,
        Token::ElementEnd { end: ElementEnd::Empty, .. } => TokenKind::Empty,
        Token::ElementEnd { .. } => TokenKind::Close,
        Token::Text { .. } => TokenKind::Text,
        Token::Cdata { .. } => TokenKind::Cdata,
        _ => TokenKind::Other,
    })
}

/// `XmlReader::next` of `hard_xml`: takes the next token, if one is left,
/// and hands out its text where it is character data or a CDATA section.
#[verifier::external_body]
fn next_text<'a>(reader: &mut XmlReader<'a>) -> (r: Option<&'a str>)
    ensures
        reader_tokens(*old(reader)).len() == 0 ==> r is None && reader_tokens(*final(reader))
            == reader_tokens(*old(reader)),
        reader_tokens(*old(reader)).len() > 0 ==> reader_tokens(*final(reader)) == reader_tokens(
            *old(reader),
        ).drop_first() && (match reader_tokens(*old(reader))[0] {
            XmlToken::Text(raw) => r is Some && r->0@ == raw,
            XmlToken::Cdata(text) => r is Some && r->0@ == text,
            _ => r is None,
        }),
{
    match reader.next() {
        Some(Ok(Token::Text { text })) => Some(text.as_str()),
        Some(Ok(Token::Cdata { text, .. })) => Some(text.as_str()),
        _ => None,
    }
}

/// `XmlReader::find_attribute` of `hard_xml`, at an attribute: takes the
/// attribute and hands out its name and its value without escapes, or fails
/// where an escape in the value is not well-formed.
#[verifier::external_body]
fn find_attribute<'a>(reader: &mut XmlReader<'a>) -> (r: Result<
    Option<(&'a str, Cow<'a, str>)>,
    XmlError,
>)
    requires
        reader_tokens(*old(reader)).len() > 0,
        reader_tokens(*old(reader))[0] is Attribute,
    ensures
        match xml_unescaped(reader_tokens(*old(reader))[0]->Attribute_1) {
            Some(value) => {
                &&& r matches Ok(Some(found))
                &&& found.0@ == reader_tokens(*old(reader))[0]->Attribute_0
                &&& found.1@ == value
                &&& reader_tokens(*final(reader)) == reader_tokens(*old(reader)).drop_first()
            },
            None => r is Err,
        },
{
    reader.find_attribute()
}

/// `XmlReader::find_element_start` of `hard_xml`, at the start of an
/// element or at an end tag. At a start, the name of the element comes
/// back and the token stays. At an end tag with the name `end_tag`, the
/// token is taken and nothing comes back; at one with another name, the
/// call fails.
#[verifier::external_body]
fn find_element_start<'a>(reader: &mut XmlReader<'a>, end_tag: Option<&str>) -> (r: Result<
    Option<&'a str>,
    XmlError,
>)
    requires
        reader_tokens(*old(reader)).len() > 0,
        reader_tokens(*old(reader))[0] is Start || (reader_tokens(*old(reader))[0] is Close
            && end_tag is Some),
    ensures
        match reader_tokens(*old(reader))[0] {
            XmlToken::Start(tag) => {
                &&& r matches Ok(Some(found))
                &&& found@ == tag
                &&& reader_tokens(*final(reader)) == reader_tokens(*old(reader))
            },
            XmlToken::Close(tag) => if tag == end_tag->0@ {
                &&& r matches Ok(None)
                &&& reader_tokens(*final(reader)) == reader_tokens(*old(reader)).drop_first()
            } else {
                r is Err
            },
            _ => true,
        },
{
    reader.find_element_start(end_tag)
}

/// `xml_unescape` of `hard_xml`: `raw` without its escapes, or a failure
/// where an escape is not well-formed.
#[verifier::external_body]
fn unescape<'a>(raw: &'a str) -> (r: Result<Cow<'a, str>, XmlError>)
    ensures
        match xml_unescaped(raw@) {
            Some(text) => r is Ok && r->Ok_0@ == text,
            None => r is Err,
        },
{
    hard_xml::utils::xml_unescape(raw)
}

/// Where `ts` holds the tokens behind the start token of an element named
/// `tag`: the tokens behind the end of that element as `hard_xml` finds it,
/// or nothing where it finds none.
pub uninterp spec fn tokens_behind_element(ts: Seq<XmlToken>, tag: Seq<char>) -> Option<
    Seq<XmlToken>,
>;

/// `XmlReader::read_to_end` of `hard_xml`, behind the start token of an
/// element named `tag`: takes tokens up to and with the end of that
/// element, or fails where it finds no such end. It takes tokens only, so
/// none is left that was not there before.
#[verifier::external_body]
fn skip_element<'a>(reader: &mut XmlReader<'a>, tag: &str) -> (r: Result<(), XmlError>)
    ensures
        reader_tokens(*final(reader)).len() <= reader_tokens(*old(reader)).len(),
        match tokens_behind_element(reader_tokens(*old(reader)), tag@) {
            Some(rest) => r is Ok && reader_tokens(*final(reader)) == rest,
            None => r is Err,
        },
{
    reader.read_to_end(tag)
}

/// What was read so far, put in front of what the rest reads as.
pub open spec fn prepend<T>(front: Seq<T>, rest: Option<(Seq<T>, Seq<XmlToken>)>) -> Option<
    (Seq<T>, Seq<XmlToken>),
> {
    match rest {
        Some((more, after)) => Some((front + more, after)),
        None => None,
    }
}

/// The attributes that `ts` starts with, and the tokens behind them.
/// Nothing where the value of one has an escape that is not well-formed.
pub open spec fn parse_attributes(ts: Seq<XmlToken>) -> Option<(Seq<AttributeView>, Seq<XmlToken>)>
    decreases ts.len(),
{
    if ts.len() > 0 && ts[0] is Attribute {
        match xml_unescaped(ts[0]->Attribute_1) {
            Some(value) => prepend(
                seq![AttributeView { name: ts[0]->Attribute_0, value }],
                parse_attributes(ts.drop_first()),
            ),
            None => None,
        }
    } else {
        Some((Seq::empty(), ts))
    }
}

/// The element that `ts` starts with, and the tokens behind it: a start,
/// attributes, and then either the end of an element without children, or
/// children up to the end tag, read as [`parse_children`] says.
pub open spec fn parse_element(ts: Seq<XmlToken>, whole: bool) -> Option<
    (ElementView, Seq<XmlToken>),
>
    decreases ts.len(), 0int,
{
    if ts.len() > 0 && ts[0] is Start {
        match parse_attributes(ts.drop_first()) {
            None => None,
            Some((attributes, rest)) => if rest.len() == 0 || rest.len() >= ts.len() {
                None
            } else if rest[0] is Empty {
                Some(
                    (
                        ElementView { tag: ts[0]->Start_0, attributes, children: Seq::empty() },
                        rest.drop_first(),
                    ),
                )
            } else if rest[0] is Open {
                match parse_children(rest.drop_first(), ts[0]->Start_0, whole) {
                    Some((children, after)) => Some(
                        (ElementView { tag: ts[0]->Start_0, attributes, children }, after),
                    ),
                    None => None,
                }
            } else {
                None
            },
        }
    } else {
        None
    }
}

/// The children that `ts` starts with, up to the end tag of the element
/// `tag`, and the tokens behind that end tag. Character data loses its
/// escapes, or is kept as written where an escape is not well-formed; a
/// CDATA section is character data as it stands; comments and the like are
/// passed over. With `whole`, every child element is read. Without it,
/// only a child that the element reads, as [`reads`] says, is read; any
/// other is passed over up to its end as `hard_xml` finds it, whatever it
/// holds, and is no child of the result; and an element that holds text
/// takes no comment.
pub open spec fn parse_children(ts: Seq<XmlToken>, tag: Seq<char>, whole: bool) -> Option<
    (Seq<NodeView>, Seq<XmlToken>),
>
    decreases ts.len(), 1int,
{
    if ts.len() == 0 {
        None
    } else {
        match ts[0] {
            XmlToken::Close(t) => if t == tag {
                Some((Seq::empty(), ts.drop_first()))
            } else {
                None
            },
            XmlToken::Start(child) => if whole || reads(tag, child) {
                match parse_element(ts, whole) {
                    Some((el, rest)) => if rest.len() >= ts.len() {
                        None
                    } else {
                        prepend(seq![NodeView::Element(el)], parse_children(rest, tag, whole))
                    },
                    None => None,
                }
            } else {
                match tokens_behind_element(ts.drop_first(), child) {
                    Some(rest) => if rest.len() >= ts.len() {
                        None
                    } else {
                        parse_children(rest, tag, whole)
                    },
                    None => None,
                }
            },
            XmlToken::Text(raw) => prepend(
                seq![
                    match xml_unescaped(raw) {
                        Some(text) => NodeView::Text(text),
                        None => NodeView::Raw(raw),
                    },
                ],
                parse_children(ts.drop_first(), tag, whole),
            ),
            XmlToken::Cdata(text) => prepend(
                seq![NodeView::Text(text)],
                parse_children(ts.drop_first(), tag, whole),
            ),
            XmlToken::Other => if whole || !holds_text(tag) {
                parse_children(ts.drop_first(), tag, whole)
            } else {
                None
            },
            _ => None,
        }
    }
}

/// The element that the tokens of a document hold: the first element behind
/// declarations, comments and the like, with all that is below it. What
/// follows the element is not looked at.
pub open spec fn parse_document(ts: Seq<XmlToken>) -> Option<ElementView>
    decreases ts.len(),
{
    if ts.len() == 0 {
        None
    } else if ts[0] is Other {
        parse_document(ts.drop_first())
    } else {
        match parse_element(ts, true) {
            Some((el, _)) => Some(el),
            None => None,
        }
    }
}

/// What reading the text `text` as a document gives.
pub open spec fn parsed(text: Seq<char>) -> Result<ElementView, DecodeError> {
    match parse_document(xml_tokens(text)) {
        Some(el) => Ok(el),
        None => Err(DecodeError::Malformed),
    }
}

/// The element that the tokens of a document hold for a reader that looks
/// for one of `tags`: the first element with such a tag that stands behind
/// declarations, comments and whole elements with other tags, with the
/// children that the nodes of the content tree read. What follows the
/// element is not looked at.
pub open spec fn parse_document_as(ts: Seq<XmlToken>, tags: Seq<Seq<char>>) -> Option<ElementView>
    decreases ts.len(),
{
    if ts.len() == 0 {
        None
    } else if ts[0] is Other {
        parse_document_as(ts.drop_first(), tags)
    } else if ts[0] is Start {
        if tags.contains(ts[0]->Start_0) {
            match parse_element(ts, false) {
                Some((el, _)) => Some(el),
                None => None,
            }
        } else {
            match tokens_behind_element(ts.drop_first(), ts[0]->Start_0) {
                Some(rest) => if rest.len() < ts.len() {
                    parse_document_as(rest, tags)
                } else {
                    None
                },
                None => None,
            }
        }
    } else {
        None
    }
}

/// What reading the text `text` as a document with an element of one of
/// `tags` gives.
pub open spec fn parsed_as(text: Seq<char>, tags: Seq<Seq<char>>) -> Result<
    ElementView,
    DecodeError,
> {
    match parse_document_as(xml_tokens(text), tags) {
        Some(el) => Ok(el),
        None => Err(DecodeError::Malformed),
    }
}

/// The views of a sequence of attributes.
pub open spec fn attributes_view(s: Seq<Attribute<'_>>) -> Seq<AttributeView> {
    Seq::new(s.len(), |i: int| s[i]@)
}

/// The views of a sequence of nodes.
pub open spec fn nodes_view(s: Seq<Node<'_>>) -> Seq<NodeView> {
    Seq::new(s.len(), |i: int| s[i]@)
}

/// One more item read is one more item in front.
pub proof fn lemma_prepend_push<T>(front: Seq<T>, x: T, rest: Option<(Seq<T>, Seq<XmlToken>)>)
    ensures
        prepend(front, prepend(seq![x], rest)) == prepend(front.push(x), rest),
{
    if let Some((more, after)) = rest {
        assert(front + (seq![x] + more) =~= front.push(x) + more);
    }
}

/// Reads the attributes that the reader stands at.
fn read_attributes<'a>(reader: &mut XmlReader<'a>) -> (r: Result<Vec<Attribute<'a>>, DecodeError>)
    ensures
        match parse_attributes(reader_tokens(*old(reader))) {
            Some((attributes, rest)) => {
                &&& r is Ok
                &&& attributes_view(r->Ok_0@) == attributes
                &&& reader_tokens(*final(reader)) == rest
                &&& rest.len() <= reader_tokens(*old(reader)).len()
            },
            None => r == Err::<Vec<Attribute<'a>>, DecodeError>(DecodeError::Malformed),
        },
{
    let mut attributes: Vec<Attribute<'a>> = Vec::new();
    let ghost start = reader_tokens(*reader);
    proof {
        assert(attributes_view(attributes@) =~= Seq::<AttributeView>::empty());
        let rest = parse_attributes(start);
        if let Some((more, after)) = rest {
            assert(Seq::<AttributeView>::empty() + more =~= more);
        }
    }
    loop
        invariant
            start == reader_tokens(*old(reader)),
            reader_tokens(*reader).len() <= start.len(),
            parse_attributes(start) == prepend(
                attributes_view(attributes@),
                parse_attributes(reader_tokens(*reader)),
            ),
        decreases reader_tokens(*reader).len(),
    {
        let ghost cur = reader_tokens(*reader);
        let ghost before = attributes_view(attributes@);
        match peek_kind(reader) {
            Some(TokenKind::Attribute) => match find_attribute(reader) {
                Ok(Some(found)) => {
                    let ghost item = AttributeView { name: found.0@, value: found.1@ };
                    attributes.push(Attribute { name: Cow::Borrowed(found.0), value: found.1 });
                    proof {
                        assert(attributes_view(attributes@) =~= before.push(item));
                        lemma_prepend_push(before, item, parse_attributes(cur.drop_first()));
                    }
                },
                _ => {
                    return Err(DecodeError::Malformed);
                },
            },
            _ => {
                proof {
                    assert(before + Seq::<AttributeView>::empty() =~= before);
                }
                return Ok(attributes);
            },
        }
    }
}

/// Reads the element that the reader stands at.
fn read_element<'a>(reader: &mut XmlReader<'a>, whole: bool) -> (r: Result<
    Element<'a>,
    DecodeError,
>)
    requires
        reader_tokens(*old(reader)).len() > 0,
        reader_tokens(*old(reader))[0] is Start,
    ensures
        match parse_element(reader_tokens(*old(reader)), whole) {
            Some((el, rest)) => {
                &&& r is Ok
                &&& r->Ok_0@ == el
                &&& reader_tokens(*final(reader)) == rest
                &&& rest.len() < reader_tokens(*old(reader)).len()
            },
            None => r == Err::<Element<'a>, DecodeError>(DecodeError::Malformed),
        },
    decreases reader_tokens(*old(reader)).len(), 0int,
{
    let tag = match find_element_start(reader, None) {
        Ok(Some(tag)) => tag,
        _ => {
            return Err(DecodeError::Malformed);
        },
    };
    let _ = next_text(reader);
    let attributes = read_attributes(reader)?;
    match peek_kind(reader) {
        Some(TokenKind::Empty) => {
            let _ = next_text(reader);
            let e = Element { tag: Cow::Borrowed(tag), attributes, children: Vec::new() };
            proof {
                assert(e@.attributes =~= attributes_view(e.attributes@));
                assert(e@.children =~= Seq::<NodeView>::empty());
            }
            Ok(e)
        },
        Some(TokenKind::Open) => {
            let _ = next_text(reader);
            let children = read_children(reader, tag, whole)?;
            let e = Element { tag: Cow::Borrowed(tag), attributes, children };
            proof {
                assert(e@.attributes =~= attributes_view(e.attributes@));
                assert(e@.children =~= nodes_view(e.children@));
            }
            Ok(e)
        },
        _ => Err(DecodeError::Malformed),
    }
}

/// Reads the children that the reader stands at, up to and with the end tag
/// of the element `tag`.
fn read_children<'a>(reader: &mut XmlReader<'a>, tag: &str, whole: bool) -> (r: Result<
    Vec<Node<'a>>,
    DecodeError,
>)
    ensures
        match parse_children(reader_tokens(*old(reader)), tag@, whole) {
            Some((nodes, rest)) => {
                &&& r is Ok
                &&& nodes_view(r->Ok_0@) == nodes
                &&& reader_tokens(*final(reader)) == rest
                &&& rest.len() < reader_tokens(*old(reader)).len()
            },
            None => r == Err::<Vec<Node<'a>>, DecodeError>(DecodeError::Malformed),
        },
    decreases reader_tokens(*old(reader)).len(), 1int,
{
    let mut nodes: Vec<Node<'a>> = Vec::new();
    let ghost start = reader_tokens(*reader);
    proof {
        assert(nodes_view(nodes@) =~= Seq::<NodeView>::empty());
        if let Some((more, after)) = parse_children(start, tag@, whole) {
            assert(Seq::<NodeView>::empty() + more =~= more);
        }
    }
    loop
        invariant
            start == reader_tokens(*old(reader)),
            reader_tokens(*reader).len() <= start.len(),
            parse_children(start, tag@, whole) == prepend(
                nodes_view(nodes@),
                parse_children(reader_tokens(*reader), tag@, whole),
            ),
        decreases reader_tokens(*reader).len(),
    {
        let ghost cur = reader_tokens(*reader);
        let ghost before = nodes_view(nodes@);
        match peek_kind(reader) {
            Some(TokenKind::Close) => {
                match find_element_start(reader, Some(tag)) {
                    Ok(None) => {
                        proof {
                            assert(before + Seq::<NodeView>::empty() =~= before);
                        }
                        return Ok(nodes);
                    },
                    _ => {
                        return Err(DecodeError::Malformed);
                    },
                }
            },
            Some(TokenKind::Start) => {
                let child = match find_element_start(reader, None) {
                    Ok(Some(child)) => child,
                    _ => {
                        return Err(DecodeError::Malformed);
                    },
                };
                if whole || reads_child(tag, child) {
                    match read_element(reader, whole) {
                        Ok(el) => {
                            let ghost item = NodeView::Element(el@);
                            nodes.push(Node::Element(el));
                            proof {
                                assert(nodes_view(nodes@) =~= before.push(item));
                                lemma_prepend_push(
                                    before,
                                    item,
                                    parse_children(reader_tokens(*reader), tag@, whole),
                                );
                            }
                        },
                        Err(_) => {
                            return Err(DecodeError::Malformed);
                        },
                    }
                } else {
                    let _ = next_text(reader);
                    match skip_element(reader, child) {
                        Ok(()) => {},
                        Err(_) => {
                            return Err(DecodeError::Malformed);
                        },
                    }
                }
            },
            Some(TokenKind::Text) => {
                match next_text(reader) {
                    Some(raw) => match unescape(raw) {
                        Ok(text) => {
                            let ghost item = NodeView::Text(text@);
                            nodes.push(Node::Text(text));
                            proof {
                                assert(nodes_view(nodes@) =~= before.push(item));
                                lemma_prepend_push(
                                    before,
                                    item,
                                    parse_children(cur.drop_first(), tag@, whole),
                                );
                            }
                        },
                        Err(_) => {
                            let ghost item = NodeView::Raw(raw@);
                            nodes.push(Node::Raw(Cow::Borrowed(raw)));
                            proof {
                                assert(nodes_view(nodes@) =~= before.push(item));
                                lemma_prepend_push(
                                    before,
                                    item,
                                    parse_children(cur.drop_first(), tag@, whole),
                                );
                            }
                        },
                    },
                    None => {
                        return Err(DecodeError::Malformed);
                    },
                }
            },
            Some(TokenKind::Cdata) => {
                match next_text(reader) {
                    Some(text) => {
                        let ghost item = NodeView::Text(text@);
                        nodes.push(Node::Text(Cow::Borrowed(text)));
                        proof {
                            assert(nodes_view(nodes@) =~= before.push(item));
                            lemma_prepend_push(
                                before,
                                item,
                                parse_children(cur.drop_first(), tag@, whole),
                            );
                        }
                    },
                    None => {
                        return Err(DecodeError::Malformed);
                    },
                }
            },
            Some(TokenKind::Other) => {
                if !whole && holds_text_only(tag) {
                    return Err(DecodeError::Malformed);
                }
                let _ = next_text(reader);
            },
            _ => {
                return Err(DecodeError::Malformed);
            },
        }
    }
}

/// Reads the text of a document as an element, as [`parsed`] says: the first
/// element of the text with all that is below it, or `Malformed` where the
/// text holds no element or is not well-formed.
pub fn parse<'a>(text: &'a str) -> (r: Result<Element<'a>, DecodeError>)
    ensures
        decoded_as(r, parsed(text@)),
{
    let mut reader = open_reader(text);
    let ghost start = reader_tokens(reader);
    loop
        invariant
            parse_document(reader_tokens(reader)) == parse_document(xml_tokens(text@)),
        decreases reader_tokens(reader).len(),
    {
        match peek_kind(&mut reader) {
            Some(TokenKind::Other) => {
                let _ = next_text(&mut reader);
            },
            Some(TokenKind::Start) => {
                return read_element(&mut reader, true);
            },
            _ => {
                return Err(DecodeError::Malformed);
            },
        }
    }
}

/// Whether `tag` is one of `tags`.
pub fn one_of(tag: &str, tags: &Vec<&str>) -> (r: bool)
    ensures
        r == names_view(tags@).contains(tag@),
{
    let mut i: usize = 0;
    while i < tags.len()
        invariant
            i <= tags.len(),
            forall|j: int| 0 <= j < i ==> #[trigger] names_view(tags@)[j] != tag@,
        decreases tags.len() - i,
    {
        proof {
            assert(names_view(tags@)[i as int] == tags@[i as int]@);
        }
        if str_eq(tags[i], tag) {
            return true;
        }
        i = i + 1;
    }
    false
}

/// Reads the text of a document as an element with one of `tags`, as
/// [`parsed_as`] says: the first such element, with the children that the
/// nodes of the content tree read. Whole elements with other tags that
/// stand before it are passed over, and so are children that no node
/// reads. `Malformed` where the text holds no such element or is not
/// well-formed up to the end of the element.
pub fn parse_as<'a>(text: &'a str, tags: &Vec<&str>) -> (r: Result<Element<'a>, DecodeError>)
    ensures
        decoded_as(r, parsed_as(text@, names_view(tags@))),
{
    let mut reader = open_reader(text);
    loop
        invariant
            parse_document_as(reader_tokens(reader), names_view(tags@)) == parse_document_as(
                xml_tokens(text@),
                names_view(tags@),
            ),
        decreases reader_tokens(reader).len(),
    {
        match peek_kind(&mut reader) {
            Some(TokenKind::Other) => {
                let _ = next_text(&mut reader);
            },
            Some(TokenKind::Start) => {
                let tag = match find_element_start(&mut reader, None) {
                    Ok(Some(tag)) => tag,
                    _ => {
                        return Err(DecodeError::Malformed);
                    },
                };
                if one_of(tag, tags) {
                    return read_element(&mut reader, false);
                }
                let _ = next_text(&mut reader);
                match skip_element(&mut reader, tag) {
                    Ok(()) => {},
                    Err(_) => {
                        return Err(DecodeError::Malformed);
                    },
                }
            },
            _ => {
                return Err(DecodeError::Malformed);
            },
        }
    }
}

} // verus!
