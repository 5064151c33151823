//! Runs and their content leaves.
use crate::document::pict::{Pict, PictView};
use crate::error::{DecodeError, SubstitutionError};
use crate::text::{
    apply_dictionary, concat, cow_clone, cow_str, dictionary_view, join_leaves, leaf_views,
    lemma_texts_substituted_concat, substitute, texts_substituted,
};
use crate::xml::codec::names_view;
use crate::xml::element::{
    child_decoded_as, decode_children, decoded_as, element_nodes, empty_element,
    lemma_decode_children_prefix_error, lemma_decode_children_written, nodes_text, only_text,
    AttributeView, Element, ElementView, Node, NodeView,
};
use crate::xml::reader::{parse_as, parsed_as};
use crate::xml::writer::element_text;
use std::borrow::Cow;
use vstd::prelude::*;

verus! {

/// Literal text of a run (`w:t`).
#[derive(Debug, PartialEq)]
pub struct Text<'a> {
    pub text: Cow<'a, str>,
}

impl<'a> View for Text<'a> {
    type V = Seq<char>;

    open spec fn view(&self) -> Seq<char> {
        self.text@
    }
}

/// Text that a tracked deletion took out (`w:delText`).
#[derive(Debug, PartialEq)]
pub struct DelText<'a> {
    pub text: Cow<'a, str>,
}

impl<'a> View for DelText<'a> {
    type V = Seq<char>;

    open spec fn view(&self) -> Seq<char> {
        self.text@
    }
}

/// One content leaf of a run: literal text or a structural marker.
#[derive(Debug, PartialEq)]
pub enum RunContent<'a> {
    /// Literal text (`w:t`).
    Text(Text<'a>),
    /// Deleted text (`w:delText`).
    DelText(DelText<'a>),
    /// Tab stop (`w:tab`).
    Tab,
    /// Line break (`w:br`).
    Break,
    /// Legacy drawing (`w:pict`).
    Pict(Pict<'a>),
}

/// What a [`RunContent`] holds.
pub enum RunContentView {
    Text(Seq<char>),
    DelText(Seq<char>),
    Tab,
    Break,
    Pict(PictView),
}

impl<'a> View for RunContent<'a> {
    type V = RunContentView;

    open spec fn view(&self) -> RunContentView {
        match self {
            RunContent::Text(t) => RunContentView::Text(t@),
            RunContent::DelText(t) => RunContentView::DelText(t@),
            RunContent::Tab => RunContentView::Tab,
            RunContent::Break => RunContentView::Break,
            RunContent::Pict(p) => RunContentView::Pict(p@),
        }
    }
}

impl RunContentView {
    /// The text leaves of the entry: its text where it is literal text.
    /// Deleted text is no text leaf.
    pub open spec fn texts(self) -> Seq<Seq<char>> {
        match self {
            RunContentView::Text(t) => seq![t],
            _ => Seq::empty(),
        }
    }

    /// The deleted text of the entry, where it holds some.
    pub open spec fn deleted_texts(self) -> Seq<Seq<char>> {
        match self {
            RunContentView::DelText(t) => seq![t],
            _ => Seq::empty(),
        }
    }

    /// The entry after `dict` was applied to its text leaf.
    pub open spec fn substituted(self, dict: Seq<(Seq<char>, Seq<char>)>) -> RunContentView {
        match self {
            RunContentView::Text(t) => RunContentView::Text(apply_dictionary(t, dict)),
            other => other,
        }
    }
}

/// The text leaves of a sequence of run entries, in order.
pub open spec fn run_contents_texts(cs: Seq<RunContentView>) -> Seq<Seq<char>>
    decreases cs.len(),
{
    if cs.len() == 0 {
        Seq::empty()
    } else {
        run_contents_texts(cs.drop_last()) + cs.last().texts()
    }
}

/// The deleted texts of a sequence of run entries, in order.
pub open spec fn run_contents_deleted_texts(cs: Seq<RunContentView>) -> Seq<Seq<char>>
    decreases cs.len(),
{
    if cs.len() == 0 {
        Seq::empty()
    } else {
        run_contents_deleted_texts(cs.drop_last()) + cs.last().deleted_texts()
    }
}

/// The smallest styled span of inline content (`w:r`).
#[derive(Debug, PartialEq)]
pub struct Run<'a> {
    pub content: Vec<RunContent<'a>>,
}

/// What a [`Run`] holds.
pub struct RunView {
    pub content: Seq<RunContentView>,
}

impl<'a> View for Run<'a> {
    type V = RunView;

    open spec fn view(&self) -> RunView {
        RunView { content: run_contents_view(self.content@) }
    }
}

impl RunView {
    /// The text leaves of the run, in order.
    pub open spec fn texts(self) -> Seq<Seq<char>> {
        run_contents_texts(self.content)
    }

    /// The deleted texts of the run, in order.
    pub open spec fn deleted_texts(self) -> Seq<Seq<char>> {
        run_contents_deleted_texts(self.content)
    }

    /// The run after `dict` was applied to each of its text leaves.
    pub open spec fn substituted(self, dict: Seq<(Seq<char>, Seq<char>)>) -> RunView {
        RunView {
            content: Seq::new(self.content.len(), |i: int| self.content[i].substituted(dict)),
        }
    }
}

/// The views of a sequence of runs.
pub open spec fn runs_view(runs: Seq<Run<'_>>) -> Seq<RunView> {
    Seq::new(runs.len(), |i: int| runs[i]@)
}

/// The text leaves of a sequence of runs, in order.
pub open spec fn runs_texts(runs: Seq<RunView>) -> Seq<Seq<char>>
    decreases runs.len(),
{
    if runs.len() == 0 {
        Seq::empty()
    } else {
        runs_texts(runs.drop_last()) + runs.last().texts()
    }
}

/// The deleted texts of a sequence of runs, in order.
pub open spec fn runs_deleted_texts(runs: Seq<RunView>) -> Seq<Seq<char>>
    decreases runs.len(),
{
    if runs.len() == 0 {
        Seq::empty()
    } else {
        runs_deleted_texts(runs.drop_last()) + runs.last().deleted_texts()
    }
}

/// A sequence of runs after `dict` was applied to each text leaf.
pub open spec fn runs_substituted(runs: Seq<RunView>, dict: Seq<(Seq<char>, Seq<char>)>) -> Seq<
    RunView,
> {
    Seq::new(runs.len(), |i: int| runs[i].substituted(dict))
}

impl<'a> Default for Run<'a> {
    fn default() -> (r: Self)
        ensures
            r@.content == Seq::<RunContentView>::empty(),
    {
        let r = Run { content: Vec::new() };
        assert(r@.content =~= Seq::<RunContentView>::empty());
        r
    }
}

impl<'a> Run<'a> {
    /// Appends one entry to the run.
    pub fn push(self, content: RunContent<'a>) -> (r: Self)
        ensures
            r@.content == self@.content.push(content@),
    {
        let mut run = self;
        run.content.push(content);
        assert(run@.content =~= self@.content.push(content@));
        run
    }

    /// Appends literal text to the run.
    pub fn push_text(self, text: &'a str) -> (r: Self)
        ensures
            r@.content == self@.content.push(RunContentView::Text(text@)),
    {
        self.push(RunContent::Text(Text { text: Cow::Borrowed(text) }))
    }

    /// Appends a line break to the run.
    pub fn push_break(self) -> (r: Self)
        ensures
            r@.content == self@.content.push(RunContentView::Break),
    {
        self.push(RunContent::Break)
    }

    /// Handles on the text leaves of the run, in order.
    pub fn iter_text(&self) -> (r: Vec<&Cow<'a, str>>)
        ensures
            leaf_views(r@) == self@.texts(),
    {
        let mut out: Vec<&Cow<'a, str>> = Vec::new();
        let mut i: usize = 0;
        assert(leaf_views(out@) =~= run_contents_texts(self@.content.take(0)));
        while i < self.content.len()
            invariant
                i <= self.content.len(),
                leaf_views(out@) == run_contents_texts(self@.content.take(i as int)),
            decreases self.content.len() - i,
        {
            proof {
                let all = self@.content;
                assert(all.take(i as int + 1).drop_last() =~= all.take(i as int));
                assert(all.take(i as int + 1).last() == self.content@[i as int]@);
            }
            let ghost before = out@;
            match &self.content[i] {
                RunContent::Text(t) => {
                    out.push(&t.text);
                    assert(leaf_views(out@) =~= leaf_views(before) + seq![t.text@]);
                },
                _ => {
                    assert(leaf_views(out@) =~= leaf_views(before) + Seq::<Seq<char>>::empty());
                },
            }
            i = i + 1;
        }
        proof {
            assert(self@.content.take(i as int) =~= self@.content);
        }
        out
    }

    /// Handles on the deleted texts of the run, in order.
    pub fn iter_deleted_text(&self) -> (r: Vec<&Cow<'a, str>>)
        ensures
            leaf_views(r@) == self@.deleted_texts(),
    {
        let mut out: Vec<&Cow<'a, str>> = Vec::new();
        let mut i: usize = 0;
        assert(leaf_views(out@) =~= run_contents_deleted_texts(self@.content.take(0)));
        while i < self.content.len()
            invariant
                i <= self.content.len(),
                leaf_views(out@) == run_contents_deleted_texts(self@.content.take(i as int)),
            decreases self.content.len() - i,
        {
            proof {
                let all = self@.content;
                assert(all.take(i as int + 1).drop_last() =~= all.take(i as int));
                assert(all.take(i as int + 1).last() == self.content@[i as int]@);
            }
            let ghost before = out@;
            match &self.content[i] {
                RunContent::DelText(t) => {
                    out.push(&t.text);
                    assert(leaf_views(out@) =~= leaf_views(before) + seq![t.text@]);
                },
                _ => {
                    assert(leaf_views(out@) =~= leaf_views(before) + Seq::<Seq<char>>::empty());
                },
            }
            i = i + 1;
        }
        proof {
            assert(self@.content.take(i as int) =~= self@.content);
        }
        out
    }

    /// The text leaves of the run, written one after the other.
    pub fn text(&self) -> (r: String)
        ensures
            r@ == concat(self@.texts()),
    {
        let leaves = self.iter_text();
        join_leaves(&leaves)
    }

    /// Applies `dic` to every text leaf of the run. Each leaf is replaced
    /// wholesale and owns its text afterwards. The storage of a leaf cannot
    /// refuse, so the call always succeeds.
    pub fn replace_text(&mut self, dic: &[(&str, &str)]) -> (r: Result<(), SubstitutionError>)
        ensures
            r is Ok,
            final(self)@ == old(self)@.substituted(dictionary_view(dic@)),
            final(self).owns_texts(),
    {
        let mut i: usize = 0;
        while i < self.content.len()
            invariant
                i <= self.content.len(),
                self.content@.len() == old(self).content@.len(),
                forall|j: int|
                    i <= j < self.content@.len() ==> self.content@[j] == old(self).content@[j],
                forall|j: int| 0 <= j < i ==> (#[trigger] self.content@[j]).owns_texts(),
                forall|j: int|
                    0 <= j < i ==> (#[trigger] self.content@[j])@
                        == old(self).content@[j]@.substituted(dictionary_view(dic@)),
            decreases self.content.len() - i,
        {
            match &mut self.content[i] {
                RunContent::Text(t) => {
                    let next = substitute(cow_str(&t.text), dic);
                    t.text = Cow::Owned(next);
                },
                _ => {},
            }
            i = i + 1;
        }
        proof {
            assert(self@.content =~= old(self)@.substituted(dictionary_view(dic@)).content);
        }
        Ok(())
    }
}

/// The element that literal text is written as.
pub open spec fn text_encoded(t: Seq<char>) -> ElementView {
    ElementView { tag: "w:t"@, attributes: Seq::empty(), children: seq![NodeView::Text(t)] }
}

/// The literal text that an element reads as: its character data. The
/// element must have the tag `w:t`, and hold nothing but character data
/// with well-formed escapes.
pub open spec fn text_decoded(e: ElementView) -> Result<Seq<char>, DecodeError> {
    if e.tag != "w:t"@ {
        Err(DecodeError::UnexpectedTag)
    } else if !only_text(e.children) {
        Err(DecodeError::Malformed)
    } else {
        Ok(e.text())
    }
}

/// The element that deleted text is written as.
pub open spec fn deleted_text_encoded(t: Seq<char>) -> ElementView {
    ElementView { tag: "w:delText"@, attributes: Seq::empty(), children: seq![NodeView::Text(t)] }
}

/// The deleted text that an element reads as: its character data. The
/// element must have the tag `w:delText`, and hold nothing but character
/// data with well-formed escapes.
pub open spec fn deleted_text_decoded(e: ElementView) -> Result<Seq<char>, DecodeError> {
    if e.tag != "w:delText"@ {
        Err(DecodeError::UnexpectedTag)
    } else if !only_text(e.children) {
        Err(DecodeError::Malformed)
    } else {
        Ok(e.text())
    }
}

/// Text reads as it was written, literal or deleted.
pub proof fn lemma_text_written(t: Seq<char>)
    ensures
        text_decoded(text_encoded(t)) == Ok::<Seq<char>, DecodeError>(t),
        deleted_text_decoded(deleted_text_encoded(t)) == Ok::<Seq<char>, DecodeError>(t),
{
    let nodes = seq![NodeView::Text(t)];
    reveal_with_fuel(nodes_text, 2);
    assert(nodes.drop_last() =~= Seq::<NodeView>::empty());
    assert(nodes_text(nodes) =~= t);
}

impl<'a> Text<'a> {
    /// Writes the text as an element.
    pub fn encode(&self) -> (e: Element<'a>)
        ensures
            e@ == text_encoded(self@),
    {
        let e = Element::new("w:t").with_text(cow_clone(&self.text));
        proof {
            assert(e@.children =~= seq![NodeView::Text(self@)]);
        }
        e
    }

    /// Reads text from an element.
    pub fn decode(e: &Element<'a>) -> (r: Result<Text<'a>, DecodeError>)
        ensures
            decoded_as(r, text_decoded(e@)),
    {
        if !e.has_tag("w:t") {
            return Err(DecodeError::UnexpectedTag);
        }
        if !e.only_text() {
            return Err(DecodeError::Malformed);
        }
        Ok(Text { text: e.text() })
    }
}

impl<'a> DelText<'a> {
    /// Writes the deleted text as an element.
    pub fn encode(&self) -> (e: Element<'a>)
        ensures
            e@ == deleted_text_encoded(self@),
    {
        let e = Element::new("w:delText").with_text(cow_clone(&self.text));
        proof {
            assert(e@.children =~= seq![NodeView::Text(self@)]);
        }
        e
    }

    /// Reads deleted text from an element.
    pub fn decode(e: &Element<'a>) -> (r: Result<DelText<'a>, DecodeError>)
        ensures
            decoded_as(r, deleted_text_decoded(e@)),
    {
        if !e.has_tag("w:delText") {
            return Err(DecodeError::UnexpectedTag);
        }
        if !e.only_text() {
            return Err(DecodeError::Malformed);
        }
        Ok(DelText { text: e.text() })
    }
}

impl RunContentView {
    /// The element that the entry is written as.
    pub open spec fn encoded(self) -> ElementView {
        match self {
            RunContentView::Text(t) => text_encoded(t),
            RunContentView::DelText(t) => deleted_text_encoded(t),
            RunContentView::Tab => empty_element("w:tab"@),
            RunContentView::Break => empty_element("w:br"@),
            RunContentView::Pict(p) => p.encoded(),
        }
    }

    /// Whether an element with the tag `tag` is an entry of a run.
    pub open spec fn belongs(tag: Seq<char>) -> bool {
        tag == "w:t"@ || tag == "w:delText"@ || tag == "w:tab"@ || tag == "w:br"@ || tag
            == "w:pict"@
    }

    /// The entry that an element reads as; its tag says which variant.
    pub open spec fn decoded(e: ElementView) -> Result<RunContentView, DecodeError> {
        if e.tag == "w:t"@ {
            match text_decoded(e) {
                Ok(t) => Ok(RunContentView::Text(t)),
                Err(x) => Err(x),
            }
        } else if e.tag == "w:delText"@ {
            match deleted_text_decoded(e) {
                Ok(t) => Ok(RunContentView::DelText(t)),
                Err(x) => Err(x),
            }
        } else if e.tag == "w:tab"@ {
            Ok(RunContentView::Tab)
        } else if e.tag == "w:br"@ {
            Ok(RunContentView::Break)
        } else if e.tag == "w:pict"@ {
            match PictView::decoded(e) {
                Ok(p) => Ok(RunContentView::Pict(p)),
                Err(x) => Err(x),
            }
        } else {
            Err(DecodeError::UnexpectedTag)
        }
    }

    /// What a child of a run reads as: an entry where its tag is that of
    /// one, nothing where it is not.
    pub open spec fn decoded_child(e: ElementView) -> Option<Result<RunContentView, DecodeError>> {
        if RunContentView::belongs(e.tag) {
            Some(RunContentView::decoded(e))
        } else {
            None
        }
    }

    /// An entry reads as it was written.
    pub proof fn lemma_decode_encode(self)
        ensures
            RunContentView::decoded(self.encoded()) == Ok::<RunContentView, DecodeError>(self),
            RunContentView::belongs(self.encoded().tag),
    {
        reveal_strlit("w:t");
        reveal_strlit("w:delText");
        reveal_strlit("w:tab");
        reveal_strlit("w:br");
        reveal_strlit("w:pict");
        assert("w:t"@.len() == 3);
        assert("w:delText"@.len() == 9);
        assert("w:tab"@.len() == 5);
        assert("w:br"@.len() == 4);
        assert("w:pict"@.len() == 6);
        match self {
            RunContentView::Text(t) => {
                lemma_text_written(t);
            },
            RunContentView::DelText(t) => {
                lemma_text_written(t);
            },
            RunContentView::Pict(p) => {
                p.lemma_decode_encode();
            },
            _ => {},
        }
    }
}

/// How the children of a run are read.
pub open spec fn run_content_reader() -> spec_fn(ElementView) -> Option<
    Result<RunContentView, DecodeError>,
> {
    |c: ElementView| RunContentView::decoded_child(c)
}

/// The views of a sequence of run entries.
pub open spec fn run_contents_view(cs: Seq<RunContent<'_>>) -> Seq<RunContentView> {
    Seq::new(cs.len(), |i: int| cs[i]@)
}

/// The elements that a sequence of run entries is written as.
pub open spec fn run_contents_encoded(cs: Seq<RunContentView>) -> Seq<ElementView> {
    Seq::new(cs.len(), |i: int| cs[i].encoded())
}

impl RunView {
    /// The element that the run is written as: one child for each entry.
    pub open spec fn encoded(self) -> ElementView {
        ElementView {
            tag: "w:r"@,
            attributes: Seq::empty(),
            children: element_nodes(run_contents_encoded(self.content)),
        }
    }

    /// The run that an element reads as. The element must have the tag
    /// `w:r`; children that are no entries of a run are passed over, and an
    /// entry that fails to read fails the run.
    pub open spec fn decoded(e: ElementView) -> Result<RunView, DecodeError> {
        if e.tag != "w:r"@ {
            Err(DecodeError::UnexpectedTag)
        } else {
            match decode_children(e.children, run_content_reader()) {
                Ok(content) => Ok(RunView { content }),
                Err(x) => Err(x),
            }
        }
    }

    /// A run reads as it was written.
    pub proof fn lemma_decode_encode(self)
        ensures
            RunView::decoded(self.encoded()) == Ok::<RunView, DecodeError>(self),
    {
        let written = run_contents_encoded(self.content);
        assert forall|i: int| 0 <= i < self.content.len() implies run_content_reader()(
            #[trigger] written[i],
        ) == Some(Ok::<RunContentView, DecodeError>(self.content[i])) by {
            self.content[i].lemma_decode_encode();
        }
        lemma_decode_children_written(self.content, written, run_content_reader());
    }
}

impl<'a> RunContent<'a> {
    /// Writes the entry as an element.
    pub fn encode(&self) -> (e: Element<'a>)
        ensures
            e@ == self@.encoded(),
    {
        match self {
            RunContent::Text(t) => t.encode(),
            RunContent::DelText(t) => t.encode(),
            RunContent::Tab => Element::new("w:tab"),
            RunContent::Break => Element::new("w:br"),
            RunContent::Pict(p) => p.encode(),
        }
    }

    /// Reads an entry from an element.
    pub fn decode(e: &Element<'a>) -> (r: Result<RunContent<'a>, DecodeError>)
        ensures
            decoded_as(r, RunContentView::decoded(e@)),
    {
        if e.has_tag("w:t") {
            Ok(RunContent::Text(Text::decode(e)?))
        } else if e.has_tag("w:delText") {
            Ok(RunContent::DelText(DelText::decode(e)?))
        } else if e.has_tag("w:tab") {
            Ok(RunContent::Tab)
        } else if e.has_tag("w:br") {
            Ok(RunContent::Break)
        } else if e.has_tag("w:pict") {
            Ok(RunContent::Pict(Pict::decode(e)?))
        } else {
            Err(DecodeError::UnexpectedTag)
        }
    }

    /// Reads a child of a run: an entry where its tag is that of one,
    /// nothing where it is not.
    pub fn decode_child(e: &Element<'a>) -> (r: Option<Result<RunContent<'a>, DecodeError>>)
        ensures
            child_decoded_as(r, RunContentView::decoded_child(e@)),
    {
        if e.has_tag("w:t") || e.has_tag("w:delText") || e.has_tag("w:tab") || e.has_tag("w:br")
            || e.has_tag("w:pict") {
            Some(RunContent::decode(e))
        } else {
            None
        }
    }
}

impl<'a> Run<'a> {
    /// Writes the run as an element.
    pub fn encode(&self) -> (e: Element<'a>)
        ensures
            e@ == self@.encoded(),
    {
        let mut e = Element::new("w:r");
        let mut i: usize = 0;
        let ghost all = element_nodes(run_contents_encoded(self@.content));
        proof {
            assert(all.take(0) =~= Seq::<NodeView>::empty());
        }
        while i < self.content.len()
            invariant
                i <= self.content.len(),
                all == element_nodes(run_contents_encoded(self@.content)),
                e@.tag == "w:r"@,
                e@.attributes == Seq::<AttributeView>::empty(),
                e@.children == all.take(i as int),
            decreases self.content.len() - i,
        {
            let child = self.content[i].encode();
            proof {
                assert(all.take(i as int + 1) =~= all.take(i as int) + seq![
                    NodeView::Element(child@),
                ]);
            }
            e = e.with_child(Some(child));
            i = i + 1;
        }
        proof {
            assert(all.take(i as int) =~= all);
        }
        e
    }

    /// Reads a run from an element.
    pub fn decode(e: &Element<'a>) -> (r: Result<Run<'a>, DecodeError>)
        ensures
            decoded_as(r, RunView::decoded(e@)),
    {
        if !e.has_tag("w:r") {
            return Err(DecodeError::UnexpectedTag);
        }
        let mut content: Vec<RunContent<'a>> = Vec::new();
        let mut i: usize = 0;
        proof {
            assert(e@.children.take(0) =~= Seq::<NodeView>::empty());
            assert(run_contents_view(content@) =~= Seq::<RunContentView>::empty());
        }
        while i < e.children.len()
            invariant
                i <= e.children.len(),
                e@.tag == "w:r"@,
                decode_children(e@.children.take(i as int), run_content_reader()) == Ok::<
                    Seq<RunContentView>,
                    DecodeError,
                >(run_contents_view(content@)),
            decreases e.children.len() - i,
        {
            proof {
                let all = e@.children;
                assert(all.take(i as int + 1).drop_last() =~= all.take(i as int));
                assert(all.take(i as int + 1).last() == e.children@[i as int]@);
            }
            let ghost before = run_contents_view(content@);
            match &e.children[i] {
                Node::Element(c) => match RunContent::decode_child(c) {
                    None => {},
                    Some(Ok(x)) => {
                        content.push(x);
                        proof {
                            assert(run_contents_view(content@) =~= before.push(x@));
                        }
                    },
                    Some(Err(x)) => {
                        proof {
                            lemma_decode_children_prefix_error(
                                e@.children,
                                i as int + 1,
                                run_content_reader(),
                            );
                        }
                        return Err(x);
                    },
                },
                _ => {},
            }
            i = i + 1;
        }
        proof {
            assert(e@.children.take(i as int) =~= e@.children);
        }
        let run = Run { content };
        proof {
            assert(run@.content =~= run_contents_view(run.content@));
        }
        Ok(run)
    }
}

/// How the runs below a revision wrapper are read: an element with the tag
/// `w:r` is a run, any other child is passed over.
pub open spec fn run_reader() -> spec_fn(ElementView) -> Option<Result<RunView, DecodeError>> {
    |c: ElementView|
        if c.tag == "w:r"@ {
            Some(RunView::decoded(c))
        } else {
            None
        }
}

/// The elements that a sequence of runs is written as.
pub open spec fn runs_encoded(runs: Seq<RunView>) -> Seq<ElementView> {
    Seq::new(runs.len(), |i: int| runs[i].encoded())
}

/// Runs read as they were written.
pub proof fn lemma_runs_written(runs: Seq<RunView>)
    ensures
        decode_children(element_nodes(runs_encoded(runs)), run_reader()) == Ok::<
            Seq<RunView>,
            DecodeError,
        >(runs),
{
    let written = runs_encoded(runs);
    assert forall|i: int| 0 <= i < runs.len() implies run_reader()(#[trigger] written[i]) == Some(
        Ok::<RunView, DecodeError>(runs[i]),
    ) by {
        runs[i].lemma_decode_encode();
    }
    lemma_decode_children_written(runs, written, run_reader());
}

/// Reads a child of a revision wrapper: a run where its tag is `w:r`,
/// nothing where it is not.
pub fn decode_run_child<'a>(e: &Element<'a>) -> (r: Option<Result<Run<'a>, DecodeError>>)
    ensures
        child_decoded_as(r, run_reader()(e@)),
{
    if e.has_tag("w:r") {
        Some(Run::decode(e))
    } else {
        None
    }
}

/// Reads the runs below an element, as [`run_reader`] says.
pub fn decode_runs<'a>(e: &Element<'a>) -> (r: Result<Vec<Run<'a>>, DecodeError>)
    ensures
        match decode_children(e@.children, run_reader()) {
            Ok(runs) => r is Ok && runs_view(r->Ok_0@) == runs,
            Err(x) => r == Err::<Vec<Run<'a>>, DecodeError>(x),
        },
{
    let mut runs: Vec<Run<'a>> = Vec::new();
    let mut i: usize = 0;
    proof {
        assert(e@.children.take(0) =~= Seq::<NodeView>::empty());
        assert(runs_view(runs@) =~= Seq::<RunView>::empty());
    }
    while i < e.children.len()
        invariant
            i <= e.children.len(),
            decode_children(e@.children.take(i as int), run_reader()) == Ok::<
                Seq<RunView>,
                DecodeError,
            >(runs_view(runs@)),
        decreases e.children.len() - i,
    {
        proof {
            let all = e@.children;
            assert(all.take(i as int + 1).drop_last() =~= all.take(i as int));
            assert(all.take(i as int + 1).last() == e.children@[i as int]@);
        }
        let ghost before = runs_view(runs@);
        match &e.children[i] {
            Node::Element(c) => match decode_run_child(c) {
                None => {},
                Some(Ok(x)) => {
                    runs.push(x);
                    proof {
                        assert(runs_view(runs@) =~= before.push(x@));
                    }
                },
                Some(Err(x)) => {
                    proof {
                        lemma_decode_children_prefix_error(e@.children, i as int + 1, run_reader());
                    }
                    return Err(x);
                },
            },
            _ => {},
        }
        i = i + 1;
    }
    proof {
        assert(e@.children.take(i as int) =~= e@.children);
    }
    Ok(runs)
}

/// Appends the elements that `runs` are written as to the children of `e`.
pub fn encode_runs<'a>(e: Element<'a>, runs: &Vec<Run<'a>>) -> (r: Element<'a>)
    ensures
        r@ == (ElementView {
            children: e@.children + element_nodes(runs_encoded(runs_view(runs@))),
            ..e@
        }),
{
    let mut e = e;
    let ghost start = e@;
    let ghost all = element_nodes(runs_encoded(runs_view(runs@)));
    let mut i: usize = 0;
    proof {
        assert(start.children + all.take(0) =~= start.children);
    }
    while i < runs.len()
        invariant
            i <= runs.len(),
            all == element_nodes(runs_encoded(runs_view(runs@))),
            all.len() == runs.len(),
            e@.tag == start.tag,
            e@.attributes == start.attributes,
            e@.children == start.children + all.take(i as int),
        decreases runs.len() - i,
    {
        let child = runs[i].encode();
        proof {
            assert(start.children + all.take(i as int + 1) =~= (start.children + all.take(
                i as int,
            )) + seq![NodeView::Element(child@)]);
        }
        e = e.with_child(Some(child));
        i = i + 1;
    }
    proof {
        assert(all.take(i as int) =~= all);
    }
    e
}

impl<'a> Text<'a> {
    /// Reads literal text from XML text: the first element of the text with the
    /// tag `w:t` is read as [`Text::decode`] reads an element. Whole elements
    /// with other tags before it are passed over.
    pub fn from_str(text: &'a str) -> (r: Result<Text<'a>, DecodeError>)
        ensures
            decoded_as(
                r,
                match parsed_as(text@, seq!["w:t"@]) {
                    Ok(e) => text_decoded(e),
                    Err(x) => Err(x),
                },
            ),
    {
        let mut tags: Vec<&str> = Vec::new();
        tags.push("w:t");
        proof {
            assert(names_view(tags@) =~= seq!["w:t"@]);
        }
        match parse_as(text, &tags) {
            Ok(e) => Text::decode(&e),
            Err(x) => Err(x),
        }
    }

    /// The XML text of the element that [`Text::encode`] gives.
    pub fn to_string(&self) -> (r: String)
        ensures
            r@ == element_text(text_encoded(self@)),
    {
        self.encode().to_string()
    }
}

impl<'a> DelText<'a> {
    /// Reads deleted text from XML text: the first element of the text with the
    /// tag `w:delText` is read as [`DelText::decode`] reads an element. Whole
    /// elements with other tags before it are passed over.
    pub fn from_str(text: &'a str) -> (r: Result<DelText<'a>, DecodeError>)
        ensures
            decoded_as(
                r,
                match parsed_as(text@, seq!["w:delText"@]) {
                    Ok(e) => deleted_text_decoded(e),
                    Err(x) => Err(x),
                },
            ),
    {
        let mut tags: Vec<&str> = Vec::new();
        tags.push("w:delText");
        proof {
            assert(names_view(tags@) =~= seq!["w:delText"@]);
        }
        match parse_as(text, &tags) {
            Ok(e) => DelText::decode(&e),
            Err(x) => Err(x),
        }
    }

    /// The XML text of the element that [`DelText::encode`] gives.
    pub fn to_string(&self) -> (r: String)
        ensures
            r@ == element_text(deleted_text_encoded(self@)),
    {
        self.encode().to_string()
    }
}

impl<'a> RunContent<'a> {
    /// Reads an entry of a run from XML text: the first element of the text
    /// with one of the tags `w:t`, `w:delText`, `w:tab`, `w:br` and `w:pict` is
    /// read as [`RunContent::decode`] reads an element. Whole elements with
    /// other tags before it are passed over.
    pub fn from_str(text: &'a str) -> (r: Result<RunContent<'a>, DecodeError>)
        ensures
            decoded_as(
                r,
                match parsed_as(text@, seq!["w:t"@, "w:delText"@, "w:tab"@, "w:br"@, "w:pict"@]) {
                    Ok(e) => RunContentView::decoded(e),
                    Err(x) => Err(x),
                },
            ),
    {
        let mut tags: Vec<&str> = Vec::new();
        tags.push("w:t");
        tags.push("w:delText");
        tags.push("w:tab");
        tags.push("w:br");
        tags.push("w:pict");
        proof {
            assert(names_view(tags@) =~= seq!["w:t"@, "w:delText"@, "w:tab"@, "w:br"@, "w:pict"@]);
        }
        match parse_as(text, &tags) {
            Ok(e) => RunContent::decode(&e),
            Err(x) => Err(x),
        }
    }

    /// The XML text of the element that [`RunContent::encode`] gives.
    pub fn to_string(&self) -> (r: String)
        ensures
            r@ == element_text(self@.encoded()),
    {
        self.encode().to_string()
    }
}

impl<'a> Run<'a> {
    /// Reads a run from XML text: the first element of the text with the tag
    /// `w:r` is read as [`Run::decode`] reads an element. Whole elements with
    /// other tags before it are passed over.
    pub fn from_str(text: &'a str) -> (r: Result<Run<'a>, DecodeError>)
        ensures
            decoded_as(
                r,
                match parsed_as(text@, seq!["w:r"@]) {
                    Ok(e) => RunView::decoded(e),
                    Err(x) => Err(x),
                },
            ),
    {
        let mut tags: Vec<&str> = Vec::new();
        tags.push("w:r");
        proof {
            assert(names_view(tags@) =~= seq!["w:r"@]);
        }
        match parse_as(text, &tags) {
            Ok(e) => Run::decode(&e),
            Err(x) => Err(x),
        }
    }

    /// The XML text of the element that [`Run::encode`] gives.
    pub fn to_string(&self) -> (r: String)
        ensures
            r@ == element_text(self@.encoded()),
    {
        self.encode().to_string()
    }
}

impl RunContentView {
    /// The entry with its text leaf, if it has one, replaced by the first
    /// of `texts`.
    pub open spec fn with_texts(self, texts: Seq<Seq<char>>) -> RunContentView {
        match self {
            RunContentView::Text(_) => RunContentView::Text(texts[0]),
            other => other,
        }
    }
}

impl RunView {
    /// The run with its text leaves replaced, in order, by `texts`.
    pub open spec fn with_texts(self, texts: Seq<Seq<char>>) -> RunView {
        RunView { content: run_contents_with_texts(self.content, texts) }
    }
}

impl<'a> RunContent<'a> {
    /// An exclusive handle on the text leaf of the entry, if it has one. What
    /// is written through a handle is what the leaf holds afterwards; nothing
    /// else changes.
    pub fn iter_text_mut<'b>(&'b mut self) -> (r: Vec<&'b mut Cow<'a, str>>)
        ensures
            r@.len() == old(self)@.texts().len(),
            forall|i: int| 0 <= i < r@.len() ==> (*#[trigger] r@[i])@ == old(self)@.texts()[i],
            final(self)@ == old(self)@.with_texts(Seq::new(r@.len(), |i: int| (*final(r@[i]))@)),
    {
        let mut out: Vec<&'b mut Cow<'a, str>> = Vec::new();
        match self {
            RunContent::Text(t) => {
                out.push(&mut t.text);
            },
            _ => {},
        }
        out
    }
}

impl<'a> Run<'a> {
    /// Exclusive handles on the text leaves of the run, in order. What is
    /// written through a handle is what the leaf holds afterwards; nothing else
    /// changes.
    pub fn iter_text_mut<'b>(&'b mut self) -> (r: Vec<&'b mut Cow<'a, str>>)
        ensures
            r@.len() == old(self)@.texts().len(),
            forall|i: int| 0 <= i < r@.len() ==> (*#[trigger] r@[i])@ == old(self)@.texts()[i],
            final(self)@ == old(self)@.with_texts(Seq::new(r@.len(), |i: int| (*final(r@[i]))@)),
    {
        run_contents_iter_text_mut(&mut self.content)
    }
}

/// The number of text leaves in the first `i` of `cs`.
pub open spec fn run_contents_offset(cs: Seq<RunContentView>, i: int) -> int {
    run_contents_texts(cs.take(i)).len() as int
}

/// Entries of a run with their text leaves replaced, in order, by `texts`: each
/// takes as many of `texts` as it has leaves.
pub open spec fn run_contents_with_texts(
    cs: Seq<RunContentView>,
    texts: Seq<Seq<char>>,
) -> Seq<RunContentView>
{
    Seq::new(
        cs.len(),
        |i: int|
            cs[i].with_texts(
                texts.subrange(run_contents_offset(cs, i), run_contents_offset(cs, i + 1)),
            ),
    )
}

/// The leaves of one more of `cs` follow those of the ones before it.
pub proof fn lemma_run_contents_offset_step(cs: Seq<RunContentView>, i: int)
    requires
        0 <= i < cs.len(),
    ensures
        run_contents_texts(cs.take(i + 1)) == run_contents_texts(cs.take(i)) + cs[i].texts(),
        run_contents_offset(cs, i + 1) == run_contents_offset(cs, i) + cs[i].texts().len(),
        run_contents_offset(cs, i) >= 0,
{
    assert(cs.take(i + 1).drop_last() =~= cs.take(i));
    assert(cs.take(i + 1).last() == cs[i]);
}

/// The more of `cs` are counted, the more leaves there are.
pub proof fn lemma_run_contents_offset_monotonic(cs: Seq<RunContentView>, i: int, j: int)
    requires
        0 <= i <= j <= cs.len(),
    ensures
        0 <= run_contents_offset(cs, i) <= run_contents_offset(cs, j),
    decreases j - i,
{
    if i < j {
        lemma_run_contents_offset_step(cs, j - 1);
        lemma_run_contents_offset_monotonic(cs, i, j - 1);
    }
}

/// Exclusive handles on the text leaves of `items`, in order. What is
/// written through a handle is what the leaf holds afterwards; nothing else
/// changes.
#[verifier::rlimit(100)]
pub fn run_contents_iter_text_mut<'b, 'a>(
    items: &'b mut Vec<RunContent<'a>>,
) -> (r: Vec<&'b mut Cow<'a, str>>)
    ensures
        r@.len() == run_contents_texts(run_contents_view(old(items)@)).len(),
        forall|i: int|
            0 <= i < r@.len() ==> (*#[trigger] r@[i])@ == run_contents_texts(
                run_contents_view(old(items)@),
            )[i],
        run_contents_view(final(items)@) == run_contents_with_texts(
            run_contents_view(old(items)@),
            Seq::new(r@.len(), |i: int| (*final(r@[i]))@),
        ),
{
    let mut out: Vec<&'b mut Cow<'a, str>> = Vec::new();
    let ghost whole = *items;
    let ghost orig = items@;
    let ghost views = run_contents_view(items@);
    let mut rest: &'b mut [RunContent<'a>] = items.as_mut_slice();
    let ghost all = final(rest)@;
    proof {
        assert(views.take(0) =~= Seq::<RunContentView>::empty());
        assert(orig.skip(0) =~= orig);
    }
    while rest.len() > 0
        invariant
            whole == *old(items),
            whole@ == orig,
            views == run_contents_view(orig),
            rest@.len() <= orig.len(),
            rest@ == orig.skip(orig.len() - rest@.len()),
            out@.len() == run_contents_offset(views, orig.len() - rest@.len()),
            forall|j: int|
                0 <= j < out@.len() ==> (*#[trigger] out@[j])@ == run_contents_texts(
                    views.take(orig.len() - rest@.len()),
                )[j],
            all.len() == orig.len() - rest@.len() + final(rest)@.len(),
            forall|j: int|
                0 <= j < final(rest)@.len() ==> #[trigger] all[orig.len() - rest@.len() + j]
                    == final(rest)@[j],
            forall|idx: int|
                0 <= idx < orig.len() - rest@.len() ==> (#[trigger] all[idx])@
                    == views[idx].with_texts(
                    Seq::new(
                        out@.len(),
                        |j: int| (*final(out@[j]))@,
                    ).subrange(
                        run_contents_offset(views, idx),
                        run_contents_offset(views, idx + 1),
                    ),
                ),
        decreases rest.len(),
    {
        let ghost k = orig.len() - rest@.len();
        let ghost fr = final(rest)@;
        let ghost n0 = out@.len() as int;
        let ghost out0 = out@;
        let ghost fin0 = Seq::new(out@.len(), |j: int| (*final(out@[j]))@);
        proof {
            lemma_run_contents_offset_step(views, k);
        }
        let (head, tail) = rest.split_at_mut(1);
        let ghost fh = final(head)@;
        let ghost ft = final(tail)@;
        assert(fr == fh + ft);
        assert(head@[0] == orig[k]);
        rest = tail;
        match head.first_mut() {
            Some(c) => {
                assert(fh.len() == 1);
                assert(fh[0] == *final(c));
                let mut part = c.iter_text_mut();
                let ghost part0 = part@;
                let ghost part_fin = Seq::new(part0.len(), |j: int| (*final(part0[j]))@);
                out.append(&mut part);
                let ghost fin = Seq::new(out@.len(), |j: int| (*final(out@[j]))@);
                proof {
                    assert(out@ =~= out0 + part0);
                    assert(fin =~= fin0 + part_fin);
                    assert(all[k + 0] == fr[0]);
                    assert forall|j: int| 0 <= j < ft.len() implies all[k + 1 + j] == ft[j] by {
                        assert(all[k + (1 + j)] == fr[1 + j]);
                    }
                    assert(out@ =~= out0 + part0);
                    assert(views[k] == orig[k]@);
                    assert(part0.len() == views[k].texts().len());
                    assert(fin.subrange(n0, n0 + part0.len()) =~= part_fin);
                    assert(all[k]@ == views[k].with_texts(
                        fin.subrange(
                            run_contents_offset(views, k),
                            run_contents_offset(views, k + 1),
                        ),
                    ));
                    assert forall|idx: int| 0 <= idx < k implies (#[trigger] all[idx])@
                        == views[idx].with_texts(
                        fin.subrange(
                            run_contents_offset(views, idx),
                            run_contents_offset(views, idx + 1),
                        ),
                    ) by {
                        lemma_run_contents_offset_monotonic(views, idx + 1, k);
                        lemma_run_contents_offset_monotonic(views, idx, idx + 1);
                        assert(fin.subrange(
                            run_contents_offset(views, idx),
                            run_contents_offset(views, idx + 1),
                        ) =~= fin0.subrange(
                            run_contents_offset(views, idx),
                            run_contents_offset(views, idx + 1),
                        ));
                    }
                }
            },
            None => {},
        }
    }
    proof {
        assert(views.take(orig.len() as int) =~= views);
        let fin = Seq::new(out@.len(), |j: int| (*final(out@[j]))@);
        let texts = Seq::new(out@.len(), |i: int| (*final(out@[i]))@);
        assert(texts =~= fin);
        assert(run_contents_view(all) =~= run_contents_with_texts(views, fin));
    }
    out
}

/// The number of text leaves in the first `i` of `cs`.
pub open spec fn runs_offset(cs: Seq<RunView>, i: int) -> int {
    runs_texts(cs.take(i)).len() as int
}

/// Runs with their text leaves replaced, in order, by `texts`: each
/// takes as many of `texts` as it has leaves.
pub open spec fn runs_with_texts(cs: Seq<RunView>, texts: Seq<Seq<char>>) -> Seq<RunView>
{
    Seq::new(
        cs.len(),
        |i: int|
            cs[i].with_texts(
                texts.subrange(runs_offset(cs, i), runs_offset(cs, i + 1)),
            ),
    )
}

/// The leaves of one more of `cs` follow those of the ones before it.
pub proof fn lemma_runs_offset_step(cs: Seq<RunView>, i: int)
    requires
        0 <= i < cs.len(),
    ensures
        runs_texts(cs.take(i + 1)) == runs_texts(cs.take(i)) + cs[i].texts(),
        runs_offset(cs, i + 1) == runs_offset(cs, i) + cs[i].texts().len(),
        runs_offset(cs, i) >= 0,
{
    assert(cs.take(i + 1).drop_last() =~= cs.take(i));
    assert(cs.take(i + 1).last() == cs[i]);
}

/// The more of `cs` are counted, the more leaves there are.
pub proof fn lemma_runs_offset_monotonic(cs: Seq<RunView>, i: int, j: int)
    requires
        0 <= i <= j <= cs.len(),
    ensures
        0 <= runs_offset(cs, i) <= runs_offset(cs, j),
    decreases j - i,
{
    if i < j {
        lemma_runs_offset_step(cs, j - 1);
        lemma_runs_offset_monotonic(cs, i, j - 1);
    }
}

/// Exclusive handles on the text leaves of `items`, in order. What is
/// written through a handle is what the leaf holds afterwards; nothing else
/// changes.
#[verifier::rlimit(100)]
pub fn runs_iter_text_mut<'b, 'a>(items: &'b mut Vec<Run<'a>>) -> (r: Vec<&'b mut Cow<'a, str>>)
    ensures
        r@.len() == runs_texts(runs_view(old(items)@)).len(),
        forall|i: int|
            0 <= i < r@.len() ==> (*#[trigger] r@[i])@ == runs_texts(runs_view(old(items)@))[i],
        runs_view(final(items)@) == runs_with_texts(
            runs_view(old(items)@),
            Seq::new(r@.len(), |i: int| (*final(r@[i]))@),
        ),
{
    let mut out: Vec<&'b mut Cow<'a, str>> = Vec::new();
    let ghost whole = *items;
    let ghost orig = items@;
    let ghost views = runs_view(items@);
    let mut rest: &'b mut [Run<'a>] = items.as_mut_slice();
    let ghost all = final(rest)@;
    proof {
        assert(views.take(0) =~= Seq::<RunView>::empty());
        assert(orig.skip(0) =~= orig);
    }
    while rest.len() > 0
        invariant
            whole == *old(items),
            whole@ == orig,
            views == runs_view(orig),
            rest@.len() <= orig.len(),
            rest@ == orig.skip(orig.len() - rest@.len()),
            out@.len() == runs_offset(views, orig.len() - rest@.len()),
            forall|j: int|
                0 <= j < out@.len() ==> (*#[trigger] out@[j])@ == runs_texts(
                    views.take(orig.len() - rest@.len()),
                )[j],
            all.len() == orig.len() - rest@.len() + final(rest)@.len(),
            forall|j: int|
                0 <= j < final(rest)@.len() ==> #[trigger] all[orig.len() - rest@.len() + j]
                    == final(rest)@[j],
            forall|idx: int|
                0 <= idx < orig.len() - rest@.len() ==> (#[trigger] all[idx])@
                    == views[idx].with_texts(
                    Seq::new(
                        out@.len(),
                        |j: int| (*final(out@[j]))@,
                    ).subrange(
                        runs_offset(views, idx),
                        runs_offset(views, idx + 1),
                    ),
                ),
        decreases rest.len(),
    {
        let ghost k = orig.len() - rest@.len();
        let ghost fr = final(rest)@;
        let ghost n0 = out@.len() as int;
        let ghost out0 = out@;
        let ghost fin0 = Seq::new(out@.len(), |j: int| (*final(out@[j]))@);
        proof {
            lemma_runs_offset_step(views, k);
        }
        let (head, tail) = rest.split_at_mut(1);
        let ghost fh = final(head)@;
        let ghost ft = final(tail)@;
        assert(fr == fh + ft);
        assert(head@[0] == orig[k]);
        rest = tail;
        match head.first_mut() {
            Some(c) => {
                assert(fh.len() == 1);
                assert(fh[0] == *final(c));
                let mut part = c.iter_text_mut();
                let ghost part0 = part@;
                let ghost part_fin = Seq::new(part0.len(), |j: int| (*final(part0[j]))@);
                out.append(&mut part);
                let ghost fin = Seq::new(out@.len(), |j: int| (*final(out@[j]))@);
                proof {
                    assert(out@ =~= out0 + part0);
                    assert(fin =~= fin0 + part_fin);
                    assert(all[k + 0] == fr[0]);
                    assert forall|j: int| 0 <= j < ft.len() implies all[k + 1 + j] == ft[j] by {
                        assert(all[k + (1 + j)] == fr[1 + j]);
                    }
                    assert(out@ =~= out0 + part0);
                    assert(views[k] == orig[k]@);
                    assert(part0.len() == views[k].texts().len());
                    assert(fin.subrange(n0, n0 + part0.len()) =~= part_fin);
                    assert(all[k]@ == views[k].with_texts(
                        fin.subrange(runs_offset(views, k), runs_offset(views, k + 1)),
                    ));
                    assert forall|idx: int| 0 <= idx < k implies (#[trigger] all[idx])@
                        == views[idx].with_texts(
                        fin.subrange(runs_offset(views, idx), runs_offset(views, idx + 1)),
                    ) by {
                        lemma_runs_offset_monotonic(views, idx + 1, k);
                        lemma_runs_offset_monotonic(views, idx, idx + 1);
                        assert(fin.subrange(
                            runs_offset(views, idx),
                            runs_offset(views, idx + 1),
                        ) =~= fin0.subrange(
                            runs_offset(views, idx),
                            runs_offset(views, idx + 1),
                        ));
                    }
                }
            },
            None => {},
        }
    }
    proof {
        assert(views.take(orig.len() as int) =~= views);
        let fin = Seq::new(out@.len(), |j: int| (*final(out@[j]))@);
        let texts = Seq::new(out@.len(), |i: int| (*final(out@[i]))@);
        assert(texts =~= fin);
        assert(runs_view(all) =~= runs_with_texts(views, fin));
    }
    out
}

impl RunContentView {
    /// Substitution and traversal agree: the text leaf of the entry after a
    /// substitution is its text leaf before with the dictionary applied.
    pub proof fn lemma_substituted_texts(self, dict: Seq<(Seq<char>, Seq<char>)>)
        ensures
            self.substituted(dict).texts() == texts_substituted(self.texts(), dict),
    {
        assert(self.substituted(dict).texts() =~= texts_substituted(self.texts(), dict));
    }
}

impl RunView {
    /// The text leaves of the first `n` parts after a substitution are the
    /// substituted text leaves of the first `n` parts.
    pub proof fn lemma_substituted_texts_prefix(self, dict: Seq<(Seq<char>, Seq<char>)>, n: int)
        requires
            0 <= n <= self.content.len(),
        ensures
            run_contents_texts(self.substituted(dict).content.take(n)) == texts_substituted(
                run_contents_texts(self.content.take(n)),
                dict,
            ),
        decreases n,
    {
        let after = self.substituted(dict).content;
        if n == 0 {
            assert(after.take(0) =~= self.content.take(0));
            assert(run_contents_texts(after.take(0)) =~= texts_substituted(
                run_contents_texts(self.content.take(0)),
                dict,
            ));
        } else {
            self.lemma_substituted_texts_prefix(dict, n - 1);
            self.content[n - 1].lemma_substituted_texts(dict);
            assert(after.take(n).drop_last() =~= after.take(n - 1));
            assert(after.take(n).last() == self.content[n - 1].substituted(dict));
            assert(self.content.take(n).drop_last() =~= self.content.take(n - 1));
            assert(self.content.take(n).last() == self.content[n - 1]);
            lemma_texts_substituted_concat(
                run_contents_texts(self.content.take(n - 1)),
                self.content[n - 1].texts(),
                dict,
            );
        }
    }

    /// Substitution and traversal agree: the text leaves of a run after
    /// a substitution are its text leaves before, each with the dictionary
    /// applied, in the same order.
    pub proof fn lemma_substituted_texts(self, dict: Seq<(Seq<char>, Seq<char>)>)
        ensures
            self.substituted(dict).texts() == texts_substituted(self.texts(), dict),
    {
        self.lemma_substituted_texts_prefix(dict, self.content.len() as int);
        assert(self.content.take(self.content.len() as int) =~= self.content);
        let after = self.substituted(dict).content;
        assert(after.take(after.len() as int) =~= after);
    }
}

impl RunContentView {
    /// What is put in place of the text leaf of the entry is what a
    /// traversal finds there afterwards.
    pub proof fn lemma_with_texts(self, texts: Seq<Seq<char>>)
        requires
            texts.len() == self.texts().len(),
        ensures
            self.with_texts(texts).texts() == texts,
    {
        assert(self.with_texts(texts).texts() =~= texts);
    }
}

impl RunView {
    /// The text leaves of the first `n` parts after their leaves were
    /// replaced are the texts that took their place.
    #[verifier::rlimit(100)]
    pub proof fn lemma_with_texts_prefix(self, texts: Seq<Seq<char>>, n: int)
        requires
            texts.len() == self.texts().len(),
            0 <= n <= self.content.len(),
        ensures
            0 <= run_contents_offset(self.content, n) <= texts.len(),
            run_contents_texts(self.with_texts(texts).content.take(n)) == texts.take(
                run_contents_offset(self.content, n),
            ),
        decreases n,
    {
        let cs = self.content;
        let after = self.with_texts(texts).content;
        assert(cs.take(cs.len() as int) =~= cs);
        lemma_run_contents_offset_monotonic(cs, n, cs.len() as int);
        if n == 0 {
            assert(after.take(0) =~= cs.take(0));
            assert(run_contents_texts(after.take(0)) =~= texts.take(run_contents_offset(cs, 0)));
        } else {
            self.lemma_with_texts_prefix(texts, n - 1);
            lemma_run_contents_offset_step(cs, n - 1);
            let from = run_contents_offset(cs, n - 1);
            let to = run_contents_offset(cs, n);
            cs[n - 1].lemma_with_texts(texts.subrange(from, to));
            lemma_run_contents_offset_step(after, n - 1);
            assert(after[n - 1] == cs[n - 1].with_texts(texts.subrange(from, to)));
            assert(after[n - 1].texts() == texts.subrange(from, to));
            assert(texts.take(from) + texts.subrange(from, to) =~= texts.take(to));
        }
    }

    /// What is put in place of the text leaves of a run is what a
    /// traversal finds there afterwards, in the same order.
    pub proof fn lemma_with_texts(self, texts: Seq<Seq<char>>)
        requires
            texts.len() == self.texts().len(),
        ensures
            self.with_texts(texts).texts() == texts,
    {
        let cs = self.content;
        self.lemma_with_texts_prefix(texts, cs.len() as int);
        assert(cs.take(cs.len() as int) =~= cs);
        let after = self.with_texts(texts).content;
        assert(after.take(after.len() as int) =~= after);
        assert(texts.take(texts.len() as int) =~= texts);
    }
}

impl RunContentView {
    /// What was read is in normal form: where an element reads as an entry of a run,
    /// writing that and reading it again gives the same.
    pub proof fn lemma_decode_normalizes(e: ElementView)
        requires
            RunContentView::decoded(e) is Ok,
        ensures
            RunContentView::decoded(
                RunContentView::decoded(e)->Ok_0.encoded(),
            ) == RunContentView::decoded(e),
    {
        RunContentView::decoded(e)->Ok_0.lemma_decode_encode();
    }
}

impl RunView {
    /// What was read is in normal form: where an element reads as a run,
    /// writing that and reading it again gives the same.
    pub proof fn lemma_decode_normalizes(e: ElementView)
        requires
            RunView::decoded(e) is Ok,
        ensures
            RunView::decoded(RunView::decoded(e)->Ok_0.encoded()) == RunView::decoded(e),
    {
        RunView::decoded(e)->Ok_0.lemma_decode_encode();
    }
}

impl<'a> RunContent<'a> {
    /// Whether the text leaf of the entry, if it has one, owns its text.
    pub open spec fn owns_texts(&self) -> bool {
        self matches RunContent::Text(t) ==> t.text is Owned
    }
}

/// Whether every text leaf of entries of a run owns its text.
pub open spec fn run_contents_own_texts(items: Seq<RunContent<'_>>) -> bool
{
    forall|i: int| 0 <= i < items.len() ==> (#[trigger] items[i]).owns_texts()
}

impl<'a> Run<'a> {
    /// Whether every text leaf of the run owns its text.
    pub open spec fn owns_texts(&self) -> bool {
        run_contents_own_texts(self.content@)
    }
}

/// Whether every text leaf of runs owns its text.
pub open spec fn runs_own_texts(items: Seq<Run<'_>>) -> bool
{
    forall|i: int| 0 <= i < items.len() ==> (#[trigger] items[i]).owns_texts()
}

impl<'a> Clone for Text<'a> {
    fn clone(&self) -> (r: Self)
        ensures
            r@ == self@,
    {
        self.duplicate()
    }
}

impl<'a> Text<'a> {
    /// A copy of the text and of all that is below it. The copy holds what
    /// `self` holds.
    pub fn duplicate(&self) -> (r: Self)
        ensures
            r@ == self@,
    {
        Text { text: cow_clone(&self.text) }
    }
}

impl<'a> Clone for DelText<'a> {
    fn clone(&self) -> (r: Self)
        ensures
            r@ == self@,
    {
        self.duplicate()
    }
}

impl<'a> DelText<'a> {
    /// A copy of the deleted text and of all that is below it. The copy holds what
    /// `self` holds.
    pub fn duplicate(&self) -> (r: Self)
        ensures
            r@ == self@,
    {
        DelText { text: cow_clone(&self.text) }
    }
}

impl<'a> Clone for RunContent<'a> {
    fn clone(&self) -> (r: Self)
        ensures
            r@ == self@,
    {
        self.duplicate()
    }
}

impl<'a> RunContent<'a> {
    /// A copy of the entry and of all that is below it. The copy holds what
    /// `self` holds.
    pub fn duplicate(&self) -> (r: Self)
        ensures
            r@ == self@,
    {
        match self {
            RunContent::Text(x) => RunContent::Text(x.duplicate()),
            RunContent::DelText(x) => RunContent::DelText(x.duplicate()),
            RunContent::Tab => RunContent::Tab,
            RunContent::Break => RunContent::Break,
            RunContent::Pict(x) => RunContent::Pict(x.duplicate()),
        }
    }
}

impl<'a> Clone for Run<'a> {
    fn clone(&self) -> (r: Self)
        ensures
            r@ == self@,
    {
        self.duplicate()
    }
}

impl<'a> Run<'a> {
    /// A copy of the run and of all that is below it. The copy holds what
    /// `self` holds.
    pub fn duplicate(&self) -> (r: Self)
        ensures
            r@ == self@,
    {
        let mut content: Vec<RunContent<'a>> = Vec::new();
        let mut i: usize = 0;
        while i < self.content.len()
            invariant
                i <= self.content.len(),
                content@.len() == i,
                forall|j: int| 0 <= j < i ==> (#[trigger] content@[j])@ == self.content@[j]@,
            decreases self.content.len() - i,
        {
            content.push(self.content[i].duplicate());
            i = i + 1;
        }
        let r = Run { content };
        proof {
            assert(run_contents_view(r.content@) =~= run_contents_view(self.content@));
        }
        r
    }
}

} // verus!
