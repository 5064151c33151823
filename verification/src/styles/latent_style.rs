//! Exceptions to the defaults of latent styles.
use crate::error::DecodeError;
use crate::text::option_text;
use crate::xml::codec::{
    any_repeated, distinct_names, fields_view, lemma_length_written, lemma_switch_written,
    lemma_written_attribute, lemma_written_not_repeated, length_from, length_text, names_view,
    optional_length_value, optional_switch_value, optional_text_value, switch_from, switch_text,
    written_attributes, Field,
};
use crate::xml::element::{decoded_as, Element, ElementView};
use crate::xml::reader::{parse_as, parsed_as};
use crate::xml::writer::element_text;
use std::borrow::Cow;
use vstd::prelude::*;

verus! {

/// Exception for one latent style (`w:lsdException`).
#[derive(Debug, PartialEq)]
pub struct LatentStyle<'a> {
    /// Name of the style (`w:name`).
    pub name: Option<Cow<'a, str>>,
    pub locked: Option<bool>,
    /// Priority in the user interface (`w:uiPriority`).
    pub priority: Option<isize>,
    pub semi_hidden: Option<bool>,
    pub unhiden_when_used: Option<bool>,
    pub q_format: Option<bool>,
}

/// What a [`LatentStyle`] holds.
pub struct LatentStyleView {
    pub name: Option<Seq<char>>,
    pub locked: Option<bool>,
    pub priority: Option<isize>,
    pub semi_hidden: Option<bool>,
    pub unhiden_when_used: Option<bool>,
    pub q_format: Option<bool>,
}

impl<'a> View for LatentStyle<'a> {
    type V = LatentStyleView;

    open spec fn view(&self) -> LatentStyleView {
        LatentStyleView {
            name: option_text(self.name),
            locked: self.locked,
            priority: self.priority,
            semi_hidden: self.semi_hidden,
            unhiden_when_used: self.unhiden_when_used,
            q_format: self.q_format,
        }
    }
}

impl LatentStyleView {
    /// The names of the fields and the texts that they are written as.
    pub open spec fn fields(self) -> Seq<Field> {
        seq![
            ("w:name"@, self.name),
            ("w:locked"@, switch_text(self.locked)),
            ("w:uiPriority"@, length_text(self.priority)),
            ("w:semiHidden"@, switch_text(self.semi_hidden)),
            ("w:unhideWhenUsed"@, switch_text(self.unhiden_when_used)),
            ("w:qFormat"@, switch_text(self.q_format)),
        ]
    }

    /// The element that the exception is written as: one attribute for each
    /// field that is present.
    pub open spec fn encoded(self) -> ElementView {
        ElementView {
            tag: "w:lsdException"@,
            attributes: written_attributes(self.fields()),
            children: Seq::empty(),
        }
    }

    /// The exception that an element reads as. The element must have the
    /// tag `w:lsdException`; the first field that fails to read decides the
    /// error.
    /// Where one of the attributes that are read stands twice, the element
    /// is refused.
    pub open spec fn decoded(e: ElementView) -> Result<LatentStyleView, DecodeError> {
        let locked = switch_from(e.attribute("w:locked"@));
        let priority = length_from(e.attribute("w:uiPriority"@));
        let semi_hidden = switch_from(e.attribute("w:semiHidden"@));
        let unhiden_when_used = switch_from(e.attribute("w:unhideWhenUsed"@));
        let q_format = switch_from(e.attribute("w:qFormat"@));
        if e.tag != "w:lsdException"@ {
            Err(DecodeError::UnexpectedTag)
        } else if any_repeated(
            e.attributes,
            seq![
                "w:name"@,
                "w:locked"@,
                "w:uiPriority"@,
                "w:semiHidden"@,
                "w:unhideWhenUsed"@,
                "w:qFormat"@,
            ],
        ) {
            Err(DecodeError::DuplicateAttribute)
        } else if locked is Err {
            Err(locked->Err_0)
        } else if priority is Err {
            Err(priority->Err_0)
        } else if semi_hidden is Err {
            Err(semi_hidden->Err_0)
        } else if unhiden_when_used is Err {
            Err(unhiden_when_used->Err_0)
        } else if q_format is Err {
            Err(q_format->Err_0)
        } else {
            Ok(
                LatentStyleView {
                    name: e.attribute("w:name"@),
                    locked: locked->Ok_0,
                    priority: priority->Ok_0,
                    semi_hidden: semi_hidden->Ok_0,
                    unhiden_when_used: unhiden_when_used->Ok_0,
                    q_format: q_format->Ok_0,
                },
            )
        }
    }

    /// No two fields are written under the same name.
    pub proof fn lemma_distinct_names(self)
        ensures
            distinct_names(self.fields()),
    {
        reveal_strlit("w:name");
        reveal_strlit("w:locked");
        reveal_strlit("w:uiPriority");
        reveal_strlit("w:semiHidden");
        reveal_strlit("w:unhideWhenUsed");
        reveal_strlit("w:qFormat");
        assert("w:name"@.len() == 6);
        assert("w:locked"@.len() == 8);
        assert("w:uiPriority"@.len() == 12 && "w:uiPriority"@[2] == 'u');
        assert("w:semiHidden"@.len() == 12 && "w:semiHidden"@[2] == 's');
        assert("w:unhideWhenUsed"@.len() == 16);
        assert("w:qFormat"@.len() == 9);
    }

    /// An exception reads as it was written.
    pub proof fn lemma_decode_encode(self)
        ensures
            LatentStyleView::decoded(self.encoded()) == Ok::<LatentStyleView, DecodeError>(self),
    {
        assert(!any_repeated(self.encoded().attributes, seq![
                "w:name"@,
                "w:locked"@,
                "w:uiPriority"@,
                "w:semiHidden"@,
                "w:unhideWhenUsed"@,
                "w:qFormat"@,
            ])) by {
            self.lemma_distinct_names();
            lemma_written_not_repeated(
                self.fields(),
                seq![
                    "w:name"@,
                    "w:locked"@,
                    "w:uiPriority"@,
                    "w:semiHidden"@,
                    "w:unhideWhenUsed"@,
                    "w:qFormat"@,
                ],
            );
        }
        self.lemma_distinct_names();
        lemma_written_attribute(self.fields(), 0);
        lemma_written_attribute(self.fields(), 1);
        lemma_written_attribute(self.fields(), 2);
        lemma_written_attribute(self.fields(), 3);
        lemma_written_attribute(self.fields(), 4);
        lemma_written_attribute(self.fields(), 5);
        lemma_switch_written(self.locked);
        lemma_length_written(self.priority);
        lemma_switch_written(self.semi_hidden);
        lemma_switch_written(self.unhiden_when_used);
        lemma_switch_written(self.q_format);
    }
}

impl<'a> LatentStyle<'a> {
    /// Writes the exception as an element.
    pub fn encode(&self) -> (e: Element<'a>)
        ensures
            e@ == self@.encoded(),
    {
        let mut fields: Vec<(&'a str, Option<Cow<'a, str>>)> = Vec::new();
        fields.push(("w:name", optional_text_value(&self.name)));
        fields.push(("w:locked", optional_switch_value(self.locked)));
        fields.push(("w:uiPriority", optional_length_value(self.priority)));
        fields.push(("w:semiHidden", optional_switch_value(self.semi_hidden)));
        fields.push(("w:unhideWhenUsed", optional_switch_value(self.unhiden_when_used)));
        fields.push(("w:qFormat", optional_switch_value(self.q_format)));
        proof {
            assert(fields_view(fields@) =~= self@.fields());
        }
        Element::with_fields("w:lsdException", &fields)
    }

    /// Reads an exception from an element.
    pub fn decode(e: &Element<'a>) -> (r: Result<LatentStyle<'a>, DecodeError>)
        ensures
            decoded_as(r, LatentStyleView::decoded(e@)),
    {
        if !e.has_tag("w:lsdException") {
            return Err(DecodeError::UnexpectedTag);
        }
        let mut names: Vec<&str> = Vec::new();
        names.push("w:name");
        names.push("w:locked");
        names.push("w:uiPriority");
        names.push("w:semiHidden");
        names.push("w:unhideWhenUsed");
        names.push("w:qFormat");
        proof {
            assert(names_view(names@) =~= seq![
                "w:name"@,
                "w:locked"@,
                "w:uiPriority"@,
                "w:semiHidden"@,
                "w:unhideWhenUsed"@,
                "w:qFormat"@,
            ]);
        }
        if e.any_repeated(&names) {
            return Err(DecodeError::DuplicateAttribute);
        }
        let locked = e.switch_attribute("w:locked")?;
        let priority = e.length_attribute("w:uiPriority")?;
        let semi_hidden = e.switch_attribute("w:semiHidden")?;
        let unhiden_when_used = e.switch_attribute("w:unhideWhenUsed")?;
        let q_format = e.switch_attribute("w:qFormat")?;
        Ok(
            LatentStyle {
                name: e.text_attribute("w:name"),
                locked,
                priority,
                semi_hidden,
                unhiden_when_used,
                q_format,
            },
        )
    }
}

impl<'a> LatentStyle<'a> {
    /// Reads an exception from XML text: the first element of the text with the
    /// tag `w:lsdException` is read as [`LatentStyle::decode`] reads an
    /// element. Whole elements with other tags before it are passed over.
    pub fn from_str(text: &'a str) -> (r: Result<LatentStyle<'a>, DecodeError>)
        ensures
            decoded_as(
                r,
                match parsed_as(text@, seq!["w:lsdException"@]) {
                    Ok(e) => LatentStyleView::decoded(e),
                    Err(x) => Err(x),
                },
            ),
    {
        let mut tags: Vec<&str> = Vec::new();
        tags.push("w:lsdException");
        proof {
            assert(names_view(tags@) =~= seq!["w:lsdException"@]);
        }
        match parse_as(text, &tags) {
            Ok(e) => LatentStyle::decode(&e),
            Err(x) => Err(x),
        }
    }

    /// The XML text of the element that [`LatentStyle::encode`] gives.
    pub fn to_string(&self) -> (r: String)
        ensures
            r@ == element_text(self@.encoded()),
    {
        self.encode().to_string()
    }
}

impl LatentStyleView {
    /// What was read is in normal form: where an element reads as an exception,
    /// writing that and reading it again gives the same.
    pub proof fn lemma_decode_normalizes(e: ElementView)
        requires
            LatentStyleView::decoded(e) is Ok,
        ensures
            LatentStyleView::decoded(
                LatentStyleView::decoded(e)->Ok_0.encoded(),
            ) == LatentStyleView::decoded(e),
    {
        LatentStyleView::decoded(e)->Ok_0.lemma_decode_encode();
    }
}

impl<'a> Clone for LatentStyle<'a> {
    fn clone(&self) -> (r: Self)
        ensures
            r@ == self@,
    {
        self.duplicate()
    }
}

impl<'a> LatentStyle<'a> {
    /// A copy of the exception and of all that is below it. The copy holds what
    /// `self` holds.
    pub fn duplicate(&self) -> (r: Self)
        ensures
            r@ == self@,
    {
        LatentStyle {
            name: optional_text_value(&self.name),
            locked: self.locked,
            priority: self.priority,
            semi_hidden: self.semi_hidden,
            unhiden_when_used: self.unhiden_when_used,
            q_format: self.q_format,
        }
    }
}

} // verus!
