//! Revision wrappers: runs that a tracked change inserted or deleted.
use crate::document::run::{
    decode_runs, encode_runs, lemma_runs_offset_monotonic, lemma_runs_offset_step,
    lemma_runs_written, run_reader, runs_deleted_texts, runs_encoded, runs_iter_text_mut,
    runs_offset, runs_own_texts, runs_substituted, runs_texts, runs_view, runs_with_texts, Run,
    RunView,
};
use crate::error::{DecodeError, SubstitutionError};
use crate::text::{
    concat, dictionary_view, join_leaves, leaf_views, lemma_texts_substituted_concat, option_text,
    texts_substituted,
};
use crate::xml::codec::{
    any_repeated, distinct_names, fields_view, lemma_written_attribute, lemma_written_not_repeated,
    names_view, optional_text_value, written_attributes, Field,
};
use crate::xml::element::{decode_children, decoded_as, element_nodes, Element, ElementView};
use crate::xml::reader::{parse_as, parsed_as};
use crate::xml::writer::element_text;
use std::borrow::Cow;
use vstd::prelude::*;

verus! {

/// Runs that a tracked change inserted (`w:ins`).
#[derive(Debug, PartialEq)]
pub struct Insertion<'a> {
    /// Identifier of the revision.
    pub id: Option<Cow<'a, str>>,
    /// Author of the revision.
    pub author: Option<Cow<'a, str>>,
    /// Date and time of the revision.
    pub date: Option<Cow<'a, str>>,
    /// The inserted runs.
    pub runs: Vec<Run<'a>>,
}

/// What an [`Insertion`] holds.
pub struct InsertionView {
    pub id: Option<Seq<char>>,
    pub author: Option<Seq<char>>,
    pub date: Option<Seq<char>>,
    pub runs: Seq<RunView>,
}

impl<'a> View for Insertion<'a> {
    type V = InsertionView;

    open spec fn view(&self) -> InsertionView {
        InsertionView {
            id: option_text(self.id),
            author: option_text(self.author),
            date: option_text(self.date),
            runs: runs_view(self.runs@),
        }
    }
}

impl InsertionView {
    /// The text leaves of the inserted runs, in order.
    pub open spec fn texts(self) -> Seq<Seq<char>> {
        runs_texts(self.runs)
    }

    /// The insertion after `dict` was applied to each of its text leaves.
    pub open spec fn substituted(self, dict: Seq<(Seq<char>, Seq<char>)>) -> InsertionView {
        InsertionView { runs: runs_substituted(self.runs, dict), ..self }
    }
}

/// Runs that a tracked change deleted (`w:del`). What was deleted stands in
/// the deleted-text entries of the runs.
#[derive(Debug, PartialEq)]
pub struct Deletion<'a> {
    /// Identifier of the revision.
    pub id: Option<Cow<'a, str>>,
    /// Author of the revision.
    pub author: Option<Cow<'a, str>>,
    /// Date and time of the revision.
    pub date: Option<Cow<'a, str>>,
    /// The deleted runs.
    pub runs: Vec<Run<'a>>,
}

/// What a [`Deletion`] holds.
pub struct DeletionView {
    pub id: Option<Seq<char>>,
    pub author: Option<Seq<char>>,
    pub date: Option<Seq<char>>,
    pub runs: Seq<RunView>,
}

impl<'a> View for Deletion<'a> {
    type V = DeletionView;

    open spec fn view(&self) -> DeletionView {
        DeletionView {
            id: option_text(self.id),
            author: option_text(self.author),
            date: option_text(self.date),
            runs: runs_view(self.runs@),
        }
    }
}

impl DeletionView {
    /// The text leaves of the deleted runs, in order. Deleted text is not
    /// among them.
    pub open spec fn texts(self) -> Seq<Seq<char>> {
        runs_texts(self.runs)
    }

    /// The deleted texts of the runs, in order.
    pub open spec fn deleted_texts(self) -> Seq<Seq<char>> {
        runs_deleted_texts(self.runs)
    }

    /// The deletion after `dict` was applied to each of its text leaves.
    pub open spec fn substituted(self, dict: Seq<(Seq<char>, Seq<char>)>) -> DeletionView {
        DeletionView { runs: runs_substituted(self.runs, dict), ..self }
    }
}

/// Handles on the text leaves of `runs`, in order.
pub fn runs_iter_text<'b, 'a>(runs: &'b Vec<Run<'a>>) -> (r: Vec<&'b Cow<'a, str>>)
    ensures
        leaf_views(r@) == runs_texts(runs_view(runs@)),
{
    let mut out: Vec<&'b Cow<'a, str>> = Vec::new();
    let mut i: usize = 0;
    assert(leaf_views(out@) =~= runs_texts(runs_view(runs@).take(0)));
    while i < runs.len()
        invariant
            i <= runs.len(),
            leaf_views(out@) == runs_texts(runs_view(runs@).take(i as int)),
        decreases runs.len() - i,
    {
        proof {
            let all = runs_view(runs@);
            assert(all.take(i as int + 1).drop_last() =~= all.take(i as int));
            assert(all.take(i as int + 1).last() == runs@[i as int]@);
        }
        let ghost before = out@;
        let mut part = runs[i].iter_text();
        let ghost added = part@;
        out.append(&mut part);
        assert(leaf_views(out@) =~= leaf_views(before) + leaf_views(added));
        i = i + 1;
    }
    proof {
        assert(runs_view(runs@).take(i as int) =~= runs_view(runs@));
    }
    out
}

/// Handles on the deleted texts of `runs`, in order.
pub fn runs_iter_deleted_text<'b, 'a>(runs: &'b Vec<Run<'a>>) -> (r: Vec<&'b Cow<'a, str>>)
    ensures
        leaf_views(r@) == runs_deleted_texts(runs_view(runs@)),
{
    let mut out: Vec<&'b Cow<'a, str>> = Vec::new();
    let mut i: usize = 0;
    assert(leaf_views(out@) =~= runs_deleted_texts(runs_view(runs@).take(0)));
    while i < runs.len()
        invariant
            i <= runs.len(),
            leaf_views(out@) == runs_deleted_texts(runs_view(runs@).take(i as int)),
        decreases runs.len() - i,
    {
        proof {
            let all = runs_view(runs@);
            assert(all.take(i as int + 1).drop_last() =~= all.take(i as int));
            assert(all.take(i as int + 1).last() == runs@[i as int]@);
        }
        let ghost before = out@;
        let mut part = runs[i].iter_deleted_text();
        let ghost added = part@;
        out.append(&mut part);
        assert(leaf_views(out@) =~= leaf_views(before) + leaf_views(added));
        i = i + 1;
    }
    proof {
        assert(runs_view(runs@).take(i as int) =~= runs_view(runs@));
    }
    out
}

/// Applies `dic` to every text leaf of `runs`.
pub fn runs_replace_text(runs: &mut Vec<Run<'_>>, dic: &[(&str, &str)]) -> (r: Result<
    (),
    SubstitutionError,
>)
    ensures
        r is Ok,
        runs_view(final(runs)@) == runs_substituted(runs_view(old(runs)@), dictionary_view(dic@)),
        runs_own_texts(final(runs)@),
{
    let mut i: usize = 0;
    while i < runs.len()
        invariant
            i <= runs.len(),
            runs@.len() == old(runs)@.len(),
            forall|j: int| i <= j < runs@.len() ==> runs@[j] == old(runs)@[j],
            forall|j: int| 0 <= j < i ==> (#[trigger] runs@[j]).owns_texts(),
            forall|j: int|
                0 <= j < i ==> (#[trigger] runs@[j])@ == old(runs)@[j]@.substituted(
                    dictionary_view(dic@),
                ),
        decreases runs.len() - i,
    {
        let _ = runs[i].replace_text(dic);
        i = i + 1;
    }
    proof {
        assert(runs_view(runs@) =~= runs_substituted(
            runs_view(old(runs)@),
            dictionary_view(dic@),
        ));
    }
    Ok(())
}

impl<'a> Default for Insertion<'a> {
    fn default() -> (r: Self)
        ensures
            r@ == (InsertionView { id: None, author: None, date: None, runs: Seq::empty() }),
    {
        let r = Insertion { id: None, author: None, date: None, runs: Vec::new() };
        assert(r@.runs =~= Seq::<RunView>::empty());
        r
    }
}

impl<'a> Default for Deletion<'a> {
    fn default() -> (r: Self)
        ensures
            r@ == (DeletionView { id: None, author: None, date: None, runs: Seq::empty() }),
    {
        let r = Deletion { id: None, author: None, date: None, runs: Vec::new() };
        assert(r@.runs =~= Seq::<RunView>::empty());
        r
    }
}

impl<'a> Insertion<'a> {
    /// Handles on the text leaves of the inserted runs, in order.
    pub fn iter_text(&self) -> (r: Vec<&Cow<'a, str>>)
        ensures
            leaf_views(r@) == self@.texts(),
    {
        runs_iter_text(&self.runs)
    }

    /// All inserted text: the text leaves of the runs, written one after
    /// the other.
    pub fn text(&self) -> (r: String)
        ensures
            r@ == concat(self@.texts()),
    {
        let leaves = self.iter_text();
        join_leaves(&leaves)
    }

    /// Applies `dic` to every text leaf of the inserted runs.
    pub fn replace_text(&mut self, dic: &[(&str, &str)]) -> (r: Result<(), SubstitutionError>)
        ensures
            r is Ok,
            final(self)@ == old(self)@.substituted(dictionary_view(dic@)),
            final(self).owns_texts(),
    {
        runs_replace_text(&mut self.runs, dic)
    }
}

impl<'a> Deletion<'a> {
    /// Handles on the text leaves of the deleted runs, in order.
    pub fn iter_text(&self) -> (r: Vec<&Cow<'a, str>>)
        ensures
            leaf_views(r@) == self@.texts(),
    {
        runs_iter_text(&self.runs)
    }

    /// All deleted text: the deleted-text entries of the runs, written one
    /// after the other.
    pub fn text(&self) -> (r: String)
        ensures
            r@ == concat(self@.deleted_texts()),
    {
        let leaves = runs_iter_deleted_text(&self.runs);
        join_leaves(&leaves)
    }

    /// Applies `dic` to every text leaf of the deleted runs. Deleted text
    /// stays as it is.
    pub fn replace_text(&mut self, dic: &[(&str, &str)]) -> (r: Result<(), SubstitutionError>)
        ensures
            r is Ok,
            final(self)@ == old(self)@.substituted(dictionary_view(dic@)),
            final(self).owns_texts(),
    {
        runs_replace_text(&mut self.runs, dic)
    }
}

impl InsertionView {
    /// The names of the fields and the texts that they are written as.
    pub open spec fn fields(self) -> Seq<Field> {
        seq![("w:id"@, self.id), ("w:author"@, self.author), ("w:date"@, self.date)]
    }

    /// The element that the insertion is written as: one attribute for each
    /// field that is present, one child for each run.
    pub open spec fn encoded(self) -> ElementView {
        ElementView {
            tag: "w:ins"@,
            attributes: written_attributes(self.fields()),
            children: element_nodes(runs_encoded(self.runs)),
        }
    }

    /// The insertion that an element reads as. The element must have the tag
    /// `w:ins`; children other than runs are passed over, and a run that
    /// fails to read fails the whole.
    /// Where one of the attributes that are read stands twice, the element
    /// is refused.
    pub open spec fn decoded(e: ElementView) -> Result<InsertionView, DecodeError> {
        if e.tag != "w:ins"@ {
            Err(DecodeError::UnexpectedTag)
        } else if any_repeated(e.attributes, seq!["w:id"@, "w:author"@, "w:date"@]) {
            Err(DecodeError::DuplicateAttribute)
        } else {
            match decode_children(e.children, run_reader()) {
                Ok(runs) => Ok(
                    InsertionView {
                        id: e.attribute("w:id"@),
                        author: e.attribute("w:author"@),
                        date: e.attribute("w:date"@),
                        runs,
                    },
                ),
                Err(x) => Err(x),
            }
        }
    }

    /// No two fields are written under the same name.
    pub proof fn lemma_distinct_names(self)
        ensures
            distinct_names(self.fields()),
    {
        reveal_strlit("w:id");
        reveal_strlit("w:author");
        reveal_strlit("w:date");
        assert("w:id"@.len() == 4);
        assert("w:author"@.len() == 8);
        assert("w:date"@.len() == 6);
    }

    /// The insertion reads as it was written.
    pub proof fn lemma_decode_encode(self)
        ensures
            InsertionView::decoded(self.encoded()) == Ok::<InsertionView, DecodeError>(self),
    {
        assert(!any_repeated(self.encoded().attributes, seq!["w:id"@, "w:author"@, "w:date"@])) by {
            self.lemma_distinct_names();
            lemma_written_not_repeated(
                self.fields(),
                seq!["w:id"@, "w:author"@, "w:date"@],
            );
        }
        self.lemma_distinct_names();
        lemma_written_attribute(self.fields(), 0);
        lemma_written_attribute(self.fields(), 1);
        lemma_written_attribute(self.fields(), 2);
        lemma_runs_written(self.runs);
    }
}

impl<'a> Insertion<'a> {
    /// Writes the insertion as an element.
    pub fn encode(&self) -> (e: Element<'a>)
        ensures
            e@ == self@.encoded(),
    {
        let mut fields: Vec<(&'a str, Option<Cow<'a, str>>)> = Vec::new();
        fields.push(("w:id", optional_text_value(&self.id)));
        fields.push(("w:author", optional_text_value(&self.author)));
        fields.push(("w:date", optional_text_value(&self.date)));
        proof {
            assert(fields_view(fields@) =~= self@.fields());
        }
        let e = encode_runs(Element::with_fields("w:ins", &fields), &self.runs);
        proof {
            assert(e@.children =~= self@.encoded().children);
        }
        e
    }

    /// Reads the insertion from an element.
    pub fn decode(e: &Element<'a>) -> (r: Result<Insertion<'a>, DecodeError>)
        ensures
            decoded_as(r, InsertionView::decoded(e@)),
    {
        if !e.has_tag("w:ins") {
            return Err(DecodeError::UnexpectedTag);
        }
        let mut names: Vec<&str> = Vec::new();
        names.push("w:id");
        names.push("w:author");
        names.push("w:date");
        proof {
            assert(names_view(names@) =~= seq!["w:id"@, "w:author"@, "w:date"@]);
        }
        if e.any_repeated(&names) {
            return Err(DecodeError::DuplicateAttribute);
        }
        let runs = decode_runs(e)?;
        Ok(
            Insertion {
                id: e.text_attribute("w:id"),
                author: e.text_attribute("w:author"),
                date: e.text_attribute("w:date"),
                runs,
            },
        )
    }
}

impl DeletionView {
    /// The names of the fields and the texts that they are written as.
    pub open spec fn fields(self) -> Seq<Field> {
        seq![("w:id"@, self.id), ("w:author"@, self.author), ("w:date"@, self.date)]
    }

    /// The element that the deletion is written as: one attribute for each
    /// field that is present, one child for each run.
    pub open spec fn encoded(self) -> ElementView {
        ElementView {
            tag: "w:del"@,
            attributes: written_attributes(self.fields()),
            children: element_nodes(runs_encoded(self.runs)),
        }
    }

    /// The deletion that an element reads as. The element must have the tag
    /// `w:del`; children other than runs are passed over, and a run that
    /// fails to read fails the whole.
    /// Where one of the attributes that are read stands twice, the element
    /// is refused.
    pub open spec fn decoded(e: ElementView) -> Result<DeletionView, DecodeError> {
        if e.tag != "w:del"@ {
            Err(DecodeError::UnexpectedTag)
        } else if any_repeated(e.attributes, seq!["w:id"@, "w:author"@, "w:date"@]) {
            Err(DecodeError::DuplicateAttribute)
        } else {
            match decode_children(e.children, run_reader()) {
                Ok(runs) => Ok(
                    DeletionView {
                        id: e.attribute("w:id"@),
                        author: e.attribute("w:author"@),
                        date: e.attribute("w:date"@),
                        runs,
                    },
                ),
                Err(x) => Err(x),
            }
        }
    }

    /// No two fields are written under the same name.
    pub proof fn lemma_distinct_names(self)
        ensures
            distinct_names(self.fields()),
    {
        reveal_strlit("w:id");
        reveal_strlit("w:author");
        reveal_strlit("w:date");
        assert("w:id"@.len() == 4);
        assert("w:author"@.len() == 8);
        assert("w:date"@.len() == 6);
    }

    /// The deletion reads as it was written.
    pub proof fn lemma_decode_encode(self)
        ensures
            DeletionView::decoded(self.encoded()) == Ok::<DeletionView, DecodeError>(self),
    {
        assert(!any_repeated(self.encoded().attributes, seq!["w:id"@, "w:author"@, "w:date"@])) by {
            self.lemma_distinct_names();
            lemma_written_not_repeated(
                self.fields(),
                seq!["w:id"@, "w:author"@, "w:date"@],
            );
        }
        self.lemma_distinct_names();
        lemma_written_attribute(self.fields(), 0);
        lemma_written_attribute(self.fields(), 1);
        lemma_written_attribute(self.fields(), 2);
        lemma_runs_written(self.runs);
    }
}

impl<'a> Deletion<'a> {
    /// Writes the deletion as an element.
    pub fn encode(&self) -> (e: Element<'a>)
        ensures
            e@ == self@.encoded(),
    {
        let mut fields: Vec<(&'a str, Option<Cow<'a, str>>)> = Vec::new();
        fields.push(("w:id", optional_text_value(&self.id)));
        fields.push(("w:author", optional_text_value(&self.author)));
        fields.push(("w:date", optional_text_value(&self.date)));
        proof {
            assert(fields_view(fields@) =~= self@.fields());
        }
        let e = encode_runs(Element::with_fields("w:del", &fields), &self.runs);
        proof {
            assert(e@.children =~= self@.encoded().children);
        }
        e
    }

    /// Reads the deletion from an element.
    pub fn decode(e: &Element<'a>) -> (r: Result<Deletion<'a>, DecodeError>)
        ensures
            decoded_as(r, DeletionView::decoded(e@)),
    {
        if !e.has_tag("w:del") {
            return Err(DecodeError::UnexpectedTag);
        }
        let mut names: Vec<&str> = Vec::new();
        names.push("w:id");
        names.push("w:author");
        names.push("w:date");
        proof {
            assert(names_view(names@) =~= seq!["w:id"@, "w:author"@, "w:date"@]);
        }
        if e.any_repeated(&names) {
            return Err(DecodeError::DuplicateAttribute);
        }
        let runs = decode_runs(e)?;
        Ok(
            Deletion {
                id: e.text_attribute("w:id"),
                author: e.text_attribute("w:author"),
                date: e.text_attribute("w:date"),
                runs,
            },
        )
    }
}

impl<'a> Insertion<'a> {
    /// Reads an insertion from XML text: the first element of the text with the
    /// tag `w:ins` is read as [`Insertion::decode`] reads an element. Whole
    /// elements with other tags before it are passed over.
    pub fn from_str(text: &'a str) -> (r: Result<Insertion<'a>, DecodeError>)
        ensures
            decoded_as(
                r,
                match parsed_as(text@, seq!["w:ins"@]) {
                    Ok(e) => InsertionView::decoded(e),
                    Err(x) => Err(x),
                },
            ),
    {
        let mut tags: Vec<&str> = Vec::new();
        tags.push("w:ins");
        proof {
            assert(names_view(tags@) =~= seq!["w:ins"@]);
        }
        match parse_as(text, &tags) {
            Ok(e) => Insertion::decode(&e),
            Err(x) => Err(x),
        }
    }

    /// The XML text of the element that [`Insertion::encode`] gives.
    pub fn to_string(&self) -> (r: String)
        ensures
            r@ == element_text(self@.encoded()),
    {
        self.encode().to_string()
    }
}

impl<'a> Deletion<'a> {
    /// Reads a deletion from XML text: the first element of the text with the
    /// tag `w:del` is read as [`Deletion::decode`] reads an element. Whole
    /// elements with other tags before it are passed over.
    pub fn from_str(text: &'a str) -> (r: Result<Deletion<'a>, DecodeError>)
        ensures
            decoded_as(
                r,
                match parsed_as(text@, seq!["w:del"@]) {
                    Ok(e) => DeletionView::decoded(e),
                    Err(x) => Err(x),
                },
            ),
    {
        let mut tags: Vec<&str> = Vec::new();
        tags.push("w:del");
        proof {
            assert(names_view(tags@) =~= seq!["w:del"@]);
        }
        match parse_as(text, &tags) {
            Ok(e) => Deletion::decode(&e),
            Err(x) => Err(x),
        }
    }

    /// The XML text of the element that [`Deletion::encode`] gives.
    pub fn to_string(&self) -> (r: String)
        ensures
            r@ == element_text(self@.encoded()),
    {
        self.encode().to_string()
    }
}

impl InsertionView {
    /// The insertion with its text leaves replaced, in order, by `texts`.
    pub open spec fn with_texts(self, texts: Seq<Seq<char>>) -> InsertionView {
        InsertionView { runs: runs_with_texts(self.runs, texts), ..self }
    }
}

impl DeletionView {
    /// The deletion with its text leaves replaced, in order, by `texts`.
    pub open spec fn with_texts(self, texts: Seq<Seq<char>>) -> DeletionView {
        DeletionView { runs: runs_with_texts(self.runs, texts), ..self }
    }
}

impl<'a> Insertion<'a> {
    /// Exclusive handles on the text leaves of the inserted runs, in order.
    /// What is written through a handle is what the leaf holds afterwards;
    /// nothing else changes.
    pub fn iter_text_mut<'b>(&'b mut self) -> (r: Vec<&'b mut Cow<'a, str>>)
        ensures
            r@.len() == old(self)@.texts().len(),
            forall|i: int| 0 <= i < r@.len() ==> (*#[trigger] r@[i])@ == old(self)@.texts()[i],
            final(self)@ == old(self)@.with_texts(Seq::new(r@.len(), |i: int| (*final(r@[i]))@)),
    {
        runs_iter_text_mut(&mut self.runs)
    }
}

impl<'a> Deletion<'a> {
    /// Exclusive handles on the text leaves of the deleted runs, in order. What
    /// is written through a handle is what the leaf holds afterwards; nothing
    /// else changes.
    pub fn iter_text_mut<'b>(&'b mut self) -> (r: Vec<&'b mut Cow<'a, str>>)
        ensures
            r@.len() == old(self)@.texts().len(),
            forall|i: int| 0 <= i < r@.len() ==> (*#[trigger] r@[i])@ == old(self)@.texts()[i],
            final(self)@ == old(self)@.with_texts(Seq::new(r@.len(), |i: int| (*final(r@[i]))@)),
    {
        runs_iter_text_mut(&mut self.runs)
    }
}

impl InsertionView {
    /// The text leaves of the first `n` parts after a substitution are the
    /// substituted text leaves of the first `n` parts.
    pub proof fn lemma_substituted_texts_prefix(self, dict: Seq<(Seq<char>, Seq<char>)>, n: int)
        requires
            0 <= n <= self.runs.len(),
        ensures
            runs_texts(self.substituted(dict).runs.take(n)) == texts_substituted(
                runs_texts(self.runs.take(n)),
                dict,
            ),
        decreases n,
    {
        let after = self.substituted(dict).runs;
        if n == 0 {
            assert(after.take(0) =~= self.runs.take(0));
            assert(runs_texts(after.take(0)) =~= texts_substituted(
                runs_texts(self.runs.take(0)),
                dict,
            ));
        } else {
            self.lemma_substituted_texts_prefix(dict, n - 1);
            self.runs[n - 1].lemma_substituted_texts(dict);
            assert(after.take(n).drop_last() =~= after.take(n - 1));
            assert(after.take(n).last() == self.runs[n - 1].substituted(dict));
            assert(self.runs.take(n).drop_last() =~= self.runs.take(n - 1));
            assert(self.runs.take(n).last() == self.runs[n - 1]);
            lemma_texts_substituted_concat(
                runs_texts(self.runs.take(n - 1)),
                self.runs[n - 1].texts(),
                dict,
            );
        }
    }

    /// Substitution and traversal agree: the text leaves of an insertion after
    /// a substitution are its text leaves before, each with the dictionary
    /// applied, in the same order.
    pub proof fn lemma_substituted_texts(self, dict: Seq<(Seq<char>, Seq<char>)>)
        ensures
            self.substituted(dict).texts() == texts_substituted(self.texts(), dict),
    {
        self.lemma_substituted_texts_prefix(dict, self.runs.len() as int);
        assert(self.runs.take(self.runs.len() as int) =~= self.runs);
        let after = self.substituted(dict).runs;
        assert(after.take(after.len() as int) =~= after);
    }
}

impl DeletionView {
    /// The text leaves of the first `n` parts after a substitution are the
    /// substituted text leaves of the first `n` parts.
    pub proof fn lemma_substituted_texts_prefix(self, dict: Seq<(Seq<char>, Seq<char>)>, n: int)
        requires
            0 <= n <= self.runs.len(),
        ensures
            runs_texts(self.substituted(dict).runs.take(n)) == texts_substituted(
                runs_texts(self.runs.take(n)),
                dict,
            ),
        decreases n,
    {
        let after = self.substituted(dict).runs;
        if n == 0 {
            assert(after.take(0) =~= self.runs.take(0));
            assert(runs_texts(after.take(0)) =~= texts_substituted(
                runs_texts(self.runs.take(0)),
                dict,
            ));
        } else {
            self.lemma_substituted_texts_prefix(dict, n - 1);
            self.runs[n - 1].lemma_substituted_texts(dict);
            assert(after.take(n).drop_last() =~= after.take(n - 1));
            assert(after.take(n).last() == self.runs[n - 1].substituted(dict));
            assert(self.runs.take(n).drop_last() =~= self.runs.take(n - 1));
            assert(self.runs.take(n).last() == self.runs[n - 1]);
            lemma_texts_substituted_concat(
                runs_texts(self.runs.take(n - 1)),
                self.runs[n - 1].texts(),
                dict,
            );
        }
    }

    /// Substitution and traversal agree: the text leaves of a deletion after
    /// a substitution are its text leaves before, each with the dictionary
    /// applied, in the same order.
    pub proof fn lemma_substituted_texts(self, dict: Seq<(Seq<char>, Seq<char>)>)
        ensures
            self.substituted(dict).texts() == texts_substituted(self.texts(), dict),
    {
        self.lemma_substituted_texts_prefix(dict, self.runs.len() as int);
        assert(self.runs.take(self.runs.len() as int) =~= self.runs);
        let after = self.substituted(dict).runs;
        assert(after.take(after.len() as int) =~= after);
    }
}

impl InsertionView {
    /// The text leaves of the first `n` parts after their leaves were
    /// replaced are the texts that took their place.
    #[verifier::rlimit(100)]
    pub proof fn lemma_with_texts_prefix(self, texts: Seq<Seq<char>>, n: int)
        requires
            texts.len() == self.texts().len(),
            0 <= n <= self.runs.len(),
        ensures
            0 <= runs_offset(self.runs, n) <= texts.len(),
            runs_texts(self.with_texts(texts).runs.take(n)) == texts.take(
                runs_offset(self.runs, n),
            ),
        decreases n,
    {
        let cs = self.runs;
        let after = self.with_texts(texts).runs;
        assert(cs.take(cs.len() as int) =~= cs);
        lemma_runs_offset_monotonic(cs, n, cs.len() as int);
        if n == 0 {
            assert(after.take(0) =~= cs.take(0));
            assert(runs_texts(after.take(0)) =~= texts.take(runs_offset(cs, 0)));
        } else {
            self.lemma_with_texts_prefix(texts, n - 1);
            lemma_runs_offset_step(cs, n - 1);
            let from = runs_offset(cs, n - 1);
            let to = runs_offset(cs, n);
            cs[n - 1].lemma_with_texts(texts.subrange(from, to));
            lemma_runs_offset_step(after, n - 1);
            assert(after[n - 1] == cs[n - 1].with_texts(texts.subrange(from, to)));
            assert(after[n - 1].texts() == texts.subrange(from, to));
            assert(texts.take(from) + texts.subrange(from, to) =~= texts.take(to));
        }
    }

    /// What is put in place of the text leaves of an insertion is what a
    /// traversal finds there afterwards, in the same order.
    pub proof fn lemma_with_texts(self, texts: Seq<Seq<char>>)
        requires
            texts.len() == self.texts().len(),
        ensures
            self.with_texts(texts).texts() == texts,
    {
        let cs = self.runs;
        self.lemma_with_texts_prefix(texts, cs.len() as int);
        assert(cs.take(cs.len() as int) =~= cs);
        let after = self.with_texts(texts).runs;
        assert(after.take(after.len() as int) =~= after);
        assert(texts.take(texts.len() as int) =~= texts);
    }
}

impl DeletionView {
    /// The text leaves of the first `n` parts after their leaves were
    /// replaced are the texts that took their place.
    #[verifier::rlimit(100)]
    pub proof fn lemma_with_texts_prefix(self, texts: Seq<Seq<char>>, n: int)
        requires
            texts.len() == self.texts().len(),
            0 <= n <= self.runs.len(),
        ensures
            0 <= runs_offset(self.runs, n) <= texts.len(),
            runs_texts(self.with_texts(texts).runs.take(n)) == texts.take(
                runs_offset(self.runs, n),
            ),
        decreases n,
    {
        let cs = self.runs;
        let after = self.with_texts(texts).runs;
        assert(cs.take(cs.len() as int) =~= cs);
        lemma_runs_offset_monotonic(cs, n, cs.len() as int);
        if n == 0 {
            assert(after.take(0) =~= cs.take(0));
            assert(runs_texts(after.take(0)) =~= texts.take(runs_offset(cs, 0)));
        } else {
            self.lemma_with_texts_prefix(texts, n - 1);
            lemma_runs_offset_step(cs, n - 1);
            let from = runs_offset(cs, n - 1);
            let to = runs_offset(cs, n);
            cs[n - 1].lemma_with_texts(texts.subrange(from, to));
            lemma_runs_offset_step(after, n - 1);
            assert(after[n - 1] == cs[n - 1].with_texts(texts.subrange(from, to)));
            assert(after[n - 1].texts() == texts.subrange(from, to));
            assert(texts.take(from) + texts.subrange(from, to) =~= texts.take(to));
        }
    }

    /// What is put in place of the text leaves of a deletion is what a
    /// traversal finds there afterwards, in the same order.
    pub proof fn lemma_with_texts(self, texts: Seq<Seq<char>>)
        requires
            texts.len() == self.texts().len(),
        ensures
            self.with_texts(texts).texts() == texts,
    {
        let cs = self.runs;
        self.lemma_with_texts_prefix(texts, cs.len() as int);
        assert(cs.take(cs.len() as int) =~= cs);
        let after = self.with_texts(texts).runs;
        assert(after.take(after.len() as int) =~= after);
        assert(texts.take(texts.len() as int) =~= texts);
    }
}

impl InsertionView {
    /// What was read is in normal form: where an element reads as an insertion,
    /// writing that and reading it again gives the same.
    pub proof fn lemma_decode_normalizes(e: ElementView)
        requires
            InsertionView::decoded(e) is Ok,
        ensures
            InsertionView::decoded(
                InsertionView::decoded(e)->Ok_0.encoded(),
            ) == InsertionView::decoded(e),
    {
        InsertionView::decoded(e)->Ok_0.lemma_decode_encode();
    }
}

impl DeletionView {
    /// What was read is in normal form: where an element reads as a deletion,
    /// writing that and reading it again gives the same.
    pub proof fn lemma_decode_normalizes(e: ElementView)
        requires
            DeletionView::decoded(e) is Ok,
        ensures
            DeletionView::decoded(
                DeletionView::decoded(e)->Ok_0.encoded(),
            ) == DeletionView::decoded(e),
    {
        DeletionView::decoded(e)->Ok_0.lemma_decode_encode();
    }
}

impl<'a> Insertion<'a> {
    /// Whether every text leaf of the insertion owns its text.
    pub open spec fn owns_texts(&self) -> bool {
        runs_own_texts(self.runs@)
    }
}

impl<'a> Deletion<'a> {
    /// Whether every text leaf of the deletion owns its text.
    pub open spec fn owns_texts(&self) -> bool {
        runs_own_texts(self.runs@)
    }
}

impl<'a> Clone for Insertion<'a> {
    fn clone(&self) -> (r: Self)
        ensures
            r@ == self@,
    {
        self.duplicate()
    }
}

impl<'a> Insertion<'a> {
    /// A copy of the insertion and of all that is below it. The copy holds what
    /// `self` holds.
    pub fn duplicate(&self) -> (r: Self)
        ensures
            r@ == self@,
    {
        let mut runs: Vec<Run<'a>> = Vec::new();
        let mut i: usize = 0;
        while i < self.runs.len()
            invariant
                i <= self.runs.len(),
                runs@.len() == i,
                forall|j: int| 0 <= j < i ==> (#[trigger] runs@[j])@ == self.runs@[j]@,
            decreases self.runs.len() - i,
        {
            runs.push(self.runs[i].duplicate());
            i = i + 1;
        }
        let r = Insertion {
            id: optional_text_value(&self.id),
            author: optional_text_value(&self.author),
            date: optional_text_value(&self.date),
            runs,
        };
        proof {
            assert(runs_view(r.runs@) =~= runs_view(self.runs@));
        }
        r
    }
}

impl<'a> Clone for Deletion<'a> {
    fn clone(&self) -> (r: Self)
        ensures
            r@ == self@,
    {
        self.duplicate()
    }
}

impl<'a> Deletion<'a> {
    /// A copy of the deletion and of all that is below it. The copy holds what
    /// `self` holds.
    pub fn duplicate(&self) -> (r: Self)
        ensures
            r@ == self@,
    {
        let mut runs: Vec<Run<'a>> = Vec::new();
        let mut i: usize = 0;
        while i < self.runs.len()
            invariant
                i <= self.runs.len(),
                runs@.len() == i,
                forall|j: int| 0 <= j < i ==> (#[trigger] runs@[j])@ == self.runs@[j]@,
            decreases self.runs.len() - i,
        {
            runs.push(self.runs[i].duplicate());
            i = i + 1;
        }
        let r = Deletion {
            id: optional_text_value(&self.id),
            author: optional_text_value(&self.author),
            date: optional_text_value(&self.date),
            runs,
        };
        proof {
            assert(runs_view(r.runs@) =~= runs_view(self.runs@));
        }
        r
    }
}

} // verus!
