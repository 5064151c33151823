//! From an element to XML text.
use crate::text::{chars_extend, chars_of, cow_str, string_from_chars};
use crate::xml::element::{AttributeView, Element, ElementView, Node, NodeView};
use vstd::prelude::*;

verus! {

/// What a character of a value or of character data is written as: its
/// escape where it is one of `<`, `>`, `&`, `'` and `"`, else itself.
pub open spec fn escaped_char(c: char) -> Seq<char> {
    if c == '<' {
        seq!['&', 'l', 't', ';']
    } else if c == '>' {
        seq!['&', 'g', 't', ';']
    } else if c == '&' {
        seq!['&', 'a', 'm', 'p', ';']
    } else if c == '\'' {
        seq!['&', 'a', 'p', 'o', 's', ';']
    } else if c == '"' {
        seq!['&', 'q', 'u', 'o', 't', ';']
    } else {
        seq![c]
    }
}

/// `s` with each character written as [`escaped_char`] says.
pub open spec fn escaped(s: Seq<char>) -> Seq<char>
    decreases s.len(),
{
    if s.len() == 0 {
        Seq::empty()
    } else {
        escaped(s.drop_last()) + escaped_char(s.last())
    }
}

/// The text of an attribute: a space, the name, and the escaped value in
/// double quotes behind `=`.
pub open spec fn attribute_text(a: AttributeView) -> Seq<char> {
    seq![' '] + a.name + seq!['=', '"'] + escaped(a.value) + seq!['"']
}

/// The texts of attributes, one after the other.
pub open spec fn attributes_text(attrs: Seq<AttributeView>) -> Seq<char>
    decreases attrs.len(),
{
    if attrs.len() == 0 {
        Seq::empty()
    } else {
        attributes_text(attrs.drop_last()) + attribute_text(attrs.last())
    }
}

/// The text of a child: that of an element, or escaped character data;
/// character data that was kept as written is written as it is.
pub open spec fn node_text(node: NodeView) -> Seq<char>
    decreases node,
{
    match node {
        NodeView::Element(e) => element_text(e),
        NodeView::Text(t) => escaped(t),
        NodeView::Raw(t) => t,
    }
}

/// The texts of children, one after the other.
pub open spec fn children_text(nodes: Seq<NodeView>) -> Seq<char>
    decreases nodes,
{
    if nodes.len() == 0 {
        Seq::empty()
    } else {
        children_text(nodes.drop_last()) + node_text(nodes.last())
    }
}

/// The text of an element: `<`, the tag and the attributes, and then `/>`
/// where the element has no children, else `>`, the children, and the end
/// tag.
pub open spec fn element_text(e: ElementView) -> Seq<char>
    decreases e,
{
    seq!['<'] + e.tag + attributes_text(e.attributes) + (if e.children.len() == 0 {
        seq!['/', '>']
    } else {
        seq!['>'] + children_text(e.children) + seq!['<', '/'] + e.tag + seq!['>']
    })
}

/// Appends the escaped text of `s` to `out`.
pub fn write_escaped(out: &mut Vec<char>, s: &str)
    ensures
        final(out)@ == old(out)@ + escaped(s@),
{
    let v = chars_of(s);
    let mut i: usize = 0;
    proof {
        assert(v@.take(0) =~= Seq::<char>::empty());
        assert(out@ =~= old(out)@ + escaped(v@.take(0)));
    }
    while i < v.len()
        invariant
            i <= v.len(),
            out@ == old(out)@ + escaped(v@.take(i as int)),
        decreases v.len() - i,
    {
        let c = v[i];
        let ghost before = out@;
        proof {
            assert(v@.take(i as int + 1).drop_last() =~= v@.take(i as int));
            assert(v@.take(i as int + 1).last() == c);
        }
        if c == '<' {
            out.push('&');
            out.push('l');
            out.push('t');
            out.push(';');
        } else if c == '>' {
            out.push('&');
            out.push('g');
            out.push('t');
            out.push(';');
        } else if c == '&' {
            out.push('&');
            out.push('a');
            out.push('m');
            out.push('p');
            out.push(';');
        } else if c == '\'' {
            out.push('&');
            out.push('a');
            out.push('p');
            out.push('o');
            out.push('s');
            out.push(';');
        } else if c == '"' {
            out.push('&');
            out.push('q');
            out.push('u');
            out.push('o');
            out.push('t');
            out.push(';');
        } else {
            out.push(c);
        }
        proof {
            assert(out@ =~= before + escaped_char(c));
            assert(out@ =~= old(out)@ + (escaped(v@.take(i as int)) + escaped_char(c)));
        }
        i = i + 1;
    }
    proof {
        assert(v@.take(i as int) =~= v@);
    }
}

/// Appends the characters of `s` to `out`.
pub fn write_str(out: &mut Vec<char>, s: &str)
    ensures
        final(out)@ == old(out)@ + s@,
{
    let v = chars_of(s);
    chars_extend(out, &v);
}

impl<'a> Element<'a> {
    /// Appends the text of the element to `out`.
    pub fn write(&self, out: &mut Vec<char>)
        ensures
            final(out)@ == old(out)@ + element_text(self@),
        decreases self,
    {
        out.push('<');
        write_str(out, cow_str(&self.tag));
        let ghost head = out@;
        let mut i: usize = 0;
        proof {
            assert(self@.attributes.take(0) =~= Seq::<AttributeView>::empty());
            assert(out@ =~= head + attributes_text(self@.attributes.take(0)));
        }
        while i < self.attributes.len()
            invariant
                i <= self.attributes.len(),
                out@ == head + attributes_text(self@.attributes.take(i as int)),
            decreases self.attributes.len() - i,
        {
            proof {
                let all = self@.attributes;
                assert(all.take(i as int + 1).drop_last() =~= all.take(i as int));
                assert(all.take(i as int + 1).last() == self.attributes@[i as int]@);
            }
            let ghost before = out@;
            let a = &self.attributes[i];
            out.push(' ');
            write_str(out, cow_str(&a.name));
            out.push('=');
            out.push('"');
            write_escaped(out, cow_str(&a.value));
            out.push('"');
            proof {
                assert(out@ =~= before + attribute_text(a@));
                assert(out@ =~= head + (attributes_text(self@.attributes.take(i as int))
                    + attribute_text(a@)));
            }
            i = i + 1;
        }
        proof {
            assert(self@.attributes.take(i as int) =~= self@.attributes);
        }
        let ghost opened = out@;
        if self.children.len() == 0 {
            out.push('/');
            out.push('>');
            proof {
                assert(out@ =~= old(out)@ + element_text(self@));
            }
        } else {
            out.push('>');
            let ghost inner = out@;
            let mut k: usize = 0;
            proof {
                assert(self@.children.take(0) =~= Seq::<NodeView>::empty());
                assert(out@ =~= inner + children_text(self@.children.take(0)));
            }
            while k < self.children.len()
                invariant
                    k <= self.children.len(),
                    out@ == inner + children_text(self@.children.take(k as int)),
                decreases self.children.len() - k,
            {
                proof {
                    let all = self@.children;
                    assert(all.take(k as int + 1).drop_last() =~= all.take(k as int));
                    assert(all.take(k as int + 1).last() == self.children@[k as int]@);
                }
                let ghost before = out@;
                match &self.children[k] {
                    Node::Element(e) => {
                        e.write(out);
                    },
                    Node::Text(t) => {
                        write_escaped(out, cow_str(t));
                    },
                    Node::Raw(t) => {
                        write_str(out, cow_str(t));
                    },
                }
                proof {
                    assert(out@ =~= before + node_text(self.children@[k as int]@));
                    assert(out@ =~= inner + (children_text(self@.children.take(k as int))
                        + node_text(self.children@[k as int]@)));
                }
                k = k + 1;
            }
            proof {
                assert(self@.children.take(k as int) =~= self@.children);
            }
            out.push('<');
            out.push('/');
            write_str(out, cow_str(&self.tag));
            out.push('>');
            proof {
                assert(out@ =~= old(out)@ + element_text(self@));
            }
        }
    }

    /// The text of the element, as [`element_text`] says.
    pub fn to_string(&self) -> (r: String)
        ensures
            r@ == element_text(self@),
    {
        let mut out: Vec<char> = Vec::new();
        self.write(&mut out);
        proof {
            assert(Seq::<char>::empty() + element_text(self@) =~= element_text(self@));
        }
        string_from_chars(&out)
    }
}

} // verus!
