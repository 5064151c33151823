//! Which children the nodes of the content tree read.
use crate::text::str_eq;
use vstd::prelude::*;

verus! {

/// Whether a node that is stored under the tag `tag` holds text: character
/// data and nothing else.
pub open spec fn holds_text(tag: Seq<char>) -> bool {
    tag == "w:t"@ || tag == "w:delText"@
}

/// Whether a node that is stored under the tag `parent` reads a child with
/// the tag `child`. An element that holds text reads whatever it holds; an
/// element that is not named here reads no child.
pub open spec fn reads(parent: Seq<char>, child: Seq<char>) -> bool {
    if holds_text(parent) {
        true
    } else if parent == "w:document"@ {
        child == "w:body"@
    } else if parent == "w:body"@ {
        child == "w:p"@ || child == "w:tbl"@
    } else if parent == "w:p"@ {
        child == "w:pPr"@ || child == "w:r"@ || child == "w:ins"@ || child == "w:del"@
    } else if parent == "w:pPr"@ {
        child == "w:sectPr"@
    } else if parent == "w:sectPr"@ {
        child == "w:pgMar"@ || child == "w:cols"@
    } else if parent == "w:r"@ {
        child == "w:t"@ || child == "w:delText"@ || child == "w:tab"@ || child == "w:br"@ || child
            == "w:pict"@
    } else if parent == "w:ins"@ || parent == "w:del"@ {
        child == "w:r"@
    } else if parent == "w:pict"@ {
        child == "v:shape"@ || child == "v:rect"@
    } else if parent == "v:shape"@ || parent == "v:rect"@ {
        child == "v:imagedata"@
    } else if parent == "w:tbl"@ {
        child == "w:tblPr"@ || child == "w:tblGrid"@ || child == "w:tr"@
    } else if parent == "w:tblGrid"@ {
        child == "w:gridCol"@
    } else if parent == "w:tr"@ {
        child == "w:tc"@
    } else if parent == "w:tc"@ {
        child == "w:tcPr"@ || child == "w:p"@ || child == "w:tbl"@
    } else if parent == "w:tcPr"@ {
        child == "w:gridSpan"@ || child == "w:vMerge"@ || child == "w:vAlign"@
    } else {
        false
    }
}

/// Whether a node that is stored under the tag `tag` holds text.
pub fn holds_text_only(tag: &str) -> (r: bool)
    ensures
        r == holds_text(tag@),
{
    str_eq(tag, "w:t") || str_eq(tag, "w:delText")
}

/// Whether a node that is stored under the tag `parent` reads a child with
/// the tag `child`.
pub fn reads_child(parent: &str, child: &str) -> (r: bool)
    ensures
        r == reads(parent@, child@),
{
    if holds_text_only(parent) {
        true
    } else if str_eq(parent, "w:document") {
        str_eq(child, "w:body")
    } else if str_eq(parent, "w:body") {
        str_eq(child, "w:p") || str_eq(child, "w:tbl")
    } else if str_eq(parent, "w:p") {
        str_eq(child, "w:pPr") || str_eq(child, "w:r") || str_eq(child, "w:ins") || str_eq(
            child,
            "w:del",
        )
    } else if str_eq(parent, "w:pPr") {
        str_eq(child, "w:sectPr")
    } else if str_eq(parent, "w:sectPr") {
        str_eq(child, "w:pgMar") || str_eq(child, "w:cols")
    } else if str_eq(parent, "w:r") {
        str_eq(child, "w:t") || str_eq(child, "w:delText") || str_eq(child, "w:tab") || str_eq(
            child,
            "w:br",
        ) || str_eq(child, "w:pict")
    } else if str_eq(parent, "w:ins") || str_eq(parent, "w:del") {
        str_eq(child, "w:r")
    } else if str_eq(parent, "w:pict") {
        str_eq(child, "v:shape") || str_eq(child, "v:rect")
    } else if str_eq(parent, "v:shape") || str_eq(parent, "v:rect") {
        str_eq(child, "v:imagedata")
    } else if str_eq(parent, "w:tbl") {
        str_eq(child, "w:tblPr") || str_eq(child, "w:tblGrid") || str_eq(child, "w:tr")
    } else if str_eq(parent, "w:tblGrid") {
        str_eq(child, "w:gridCol")
    } else if str_eq(parent, "w:tr") {
        str_eq(child, "w:tc")
    } else if str_eq(parent, "w:tc") {
        str_eq(child, "w:tcPr") || str_eq(child, "w:p") || str_eq(child, "w:tbl")
    } else if str_eq(parent, "w:tcPr") {
        str_eq(child, "w:gridSpan") || str_eq(child, "w:vMerge") || str_eq(child, "w:vAlign")
    } else {
        false
    }
}

} // verus!
