//! Strings as sequences of characters: comparison, trimming, and literal
//! substring replacement.
use std::borrow::Cow;
use vstd::prelude::*;

verus! {

/// Builds a string from its characters.
///
/// Calls `String::from_iter` of the standard library on the vector; the
/// result holds exactly the characters of `v`, in order.
#[verifier::external_body]
pub(crate) fn string_from_chars(v: &Vec<char>) -> (r: String)
    ensures
        r@ == v@,
{
    String::from_iter(v)
}

/// The characters of `s`, in order.
pub fn chars_of(s: &str) -> (r: Vec<char>)
    ensures
        r@ == s@,
{
    let mut v: Vec<char> = Vec::new();
    for c in it: s.chars()
        invariant
            v@ == it.seq().take(it.index() as int),
            it.seq() == s@,
    {
        v.push(c);
    }
    v
}

/// Whether two vectors hold the same characters.
pub fn chars_eq(a: &Vec<char>, b: &Vec<char>) -> (r: bool)
    ensures
        r == (a@ == b@),
{
    if a.len() != b.len() {
        return false;
    }
    let mut i: usize = 0;
    while i < a.len()
        invariant
            i <= a.len(),
            a.len() == b.len(),
            a@.take(i as int) == b@.take(i as int),
        decreases a.len() - i,
    {
        if a[i] != b[i] {
            return false;
        }
        proof {
            assert(a@.take(i as int + 1) =~= a@.take(i as int).push(a@[i as int]));
            assert(b@.take(i as int + 1) =~= b@.take(i as int).push(b@[i as int]));
        }
        i = i + 1;
    }
    proof {
        assert(a@.take(i as int) =~= a@);
        assert(b@.take(i as int) =~= b@);
    }
    true
}

/// Whether two strings hold the same characters.
pub fn str_eq(a: &str, b: &str) -> (r: bool)
    ensures
        r == (a@ == b@),
{
    let va = chars_of(a);
    let vb = chars_of(b);
    chars_eq(&va, &vb)
}

/// The string slice that a text leaf holds, borrowed or owned.
pub fn cow_str<'b, 'a>(c: &'b Cow<'a, str>) -> (r: &'b str)
    ensures
        r@ == c@,
{
    match c {
        Cow::Borrowed(b) => b,
        Cow::Owned(o) => o.as_str(),
    }
}

/// A second handle on the text of `c`: a borrowed text stays borrowed from
/// the same buffer, an owned one is copied.
pub fn cow_clone<'a>(c: &Cow<'a, str>) -> (r: Cow<'a, str>)
    ensures
        r@ == c@,
        r is Borrowed <==> *c is Borrowed,
{
    match c {
        Cow::Borrowed(b) => Cow::Borrowed(*b),
        Cow::Owned(o) => Cow::Owned(o.clone()),
    }
}

/// The text of an optional attribute, where it is present.
pub open spec fn option_text(o: Option<Cow<'_, str>>) -> Option<Seq<char>> {
    match o {
        Some(c) => Some(c@),
        None => None,
    }
}

/// The texts that a vector of leaf handles points at, in order.
pub open spec fn leaf_views(leaves: Seq<&Cow<'_, str>>) -> Seq<Seq<char>> {
    Seq::new(leaves.len(), |i: int| leaves[i]@)
}

/// The texts of `parts` written one after the other.
pub open spec fn concat(parts: Seq<Seq<char>>) -> Seq<char>
    decreases parts.len(),
{
    if parts.len() == 0 {
        Seq::empty()
    } else {
        concat(parts.drop_last()) + parts.last()
    }
}

/// Writes the texts behind `leaves` one after the other into one string.
pub fn join_leaves(leaves: &Vec<&Cow<'_, str>>) -> (r: String)
    ensures
        r@ == concat(leaf_views(leaves@)),
{
    let mut buf: Vec<char> = Vec::new();
    let mut i: usize = 0;
    while i < leaves.len()
        invariant
            i <= leaves.len(),
            buf@ == concat(leaf_views(leaves@).take(i as int)),
        decreases leaves.len() - i,
    {
        let part = chars_of(cow_str(leaves[i]));
        proof {
            let all = leaf_views(leaves@);
            assert(all.take(i as int + 1).drop_last() =~= all.take(i as int));
            assert(all.take(i as int + 1).last() == part@);
        }
        chars_extend(&mut buf, &part);
        i = i + 1;
    }
    proof {
        assert(leaf_views(leaves@).take(i as int) =~= leaf_views(leaves@));
    }
    string_from_chars(&buf)
}

/// Whether `c` is white space: a character with the Unicode property
/// `White_Space`.
pub open spec fn is_whitespace(c: char) -> bool {
    let n = c as u32;
    ||| 0x09 <= n <= 0x0D
    ||| n == 0x20
    ||| n == 0x85
    ||| n == 0xA0
    ||| n == 0x1680
    ||| 0x2000 <= n <= 0x200A
    ||| n == 0x2028
    ||| n == 0x2029
    ||| n == 0x202F
    ||| n == 0x205F
    ||| n == 0x3000
}

/// `s` without the white space at its start.
pub open spec fn trim_start(s: Seq<char>) -> Seq<char>
    decreases s.len(),
{
    if s.len() > 0 && is_whitespace(s[0]) {
        trim_start(s.drop_first())
    } else {
        s
    }
}

/// `s` without the white space at its end.
pub open spec fn trim_end(s: Seq<char>) -> Seq<char>
    decreases s.len(),
{
    if s.len() > 0 && is_whitespace(s.last()) {
        trim_end(s.drop_last())
    } else {
        s
    }
}

/// `s` without the white space at its start and at its end.
pub open spec fn trim(s: Seq<char>) -> Seq<char> {
    trim_end(trim_start(s))
}

/// Whether `s` ends with `suffix`.
pub open spec fn ends_with(s: Seq<char>, suffix: Seq<char>) -> bool {
    &&& suffix.len() <= s.len()
    &&& s.subrange(s.len() - suffix.len(), s.len() as int) == suffix
}

/// Whether `c` is white space.
pub fn char_is_whitespace(c: char) -> (r: bool)
    ensures
        r == is_whitespace(c),
{
    let n: u32 = c as u32;
    (0x09 <= n && n <= 0x0D) || n == 0x20 || n == 0x85 || n == 0xA0 || n == 0x1680 || (0x2000 <= n
        && n <= 0x200A) || n == 0x2028 || n == 0x2029 || n == 0x202F || n == 0x205F || n
        == 0x3000
}

/// The bounds of the part of `v[lo..hi]` that is left when the white space
/// at both ends is taken away.
pub fn trim_range(v: &Vec<char>, lo: usize, hi: usize) -> (r: (usize, usize))
    requires
        lo <= hi <= v.len(),
    ensures
        lo <= r.0 <= r.1 <= hi,
        v@.subrange(r.0 as int, r.1 as int) == trim(v@.subrange(lo as int, hi as int)),
{
    let mut a: usize = lo;
    while a < hi && char_is_whitespace(v[a])
        invariant
            lo <= a <= hi <= v.len(),
            trim_start(v@.subrange(a as int, hi as int)) == trim_start(
                v@.subrange(lo as int, hi as int),
            ),
        decreases hi - a,
    {
        proof {
            assert(v@.subrange(a as int, hi as int).drop_first() =~= v@.subrange(
                a + 1,
                hi as int,
            ));
        }
        a = a + 1;
    }
    let mut b: usize = hi;
    while a < b && char_is_whitespace(v[b - 1])
        invariant
            a <= b <= hi <= v.len(),
            trim_end(v@.subrange(a as int, b as int)) == trim_end(
                v@.subrange(a as int, hi as int),
            ),
        decreases b - a,
    {
        proof {
            assert(v@.subrange(a as int, b as int).drop_last() =~= v@.subrange(
                a as int,
                b - 1,
            ));
        }
        b = b - 1;
    }
    (a, b)
}

/// Whether `v[lo..hi]` ends with `suffix`.
pub fn range_ends_with(v: &Vec<char>, lo: usize, hi: usize, suffix: &Vec<char>) -> (r: bool)
    requires
        lo <= hi <= v.len(),
    ensures
        r == ends_with(v@.subrange(lo as int, hi as int), suffix@),
{
    if suffix.len() > hi - lo {
        return false;
    }
    let start: usize = hi - suffix.len();
    let found = chars_occur_at(v, suffix, start);
    proof {
        let t = v@.subrange(lo as int, hi as int);
        assert(t.subrange(t.len() - suffix@.len(), t.len() as int) =~= v@.subrange(
            start as int,
            start + suffix@.len(),
        ));
    }
    found
}

/// Whether `pat` stands in `s` at position `i`.
pub open spec fn occurs_at(s: Seq<char>, pat: Seq<char>, i: int) -> bool {
    &&& 0 <= i
    &&& i + pat.len() <= s.len()
    &&& s.subrange(i, i + pat.len()) == pat
}

/// `s` with every occurrence of `from` replaced by `to`.
///
/// Occurrences are found from left to right and do not overlap; what has
/// been put in place of one is not searched again. An empty `from` occurs
/// before every character and at the end.
pub open spec fn replace_all(s: Seq<char>, from: Seq<char>, to: Seq<char>) -> Seq<char>
    decreases s.len(),
{
    if from.len() == 0 {
        if s.len() == 0 {
            to
        } else {
            to + seq![s[0]] + replace_all(s.drop_first(), from, to)
        }
    } else if s.len() < from.len() {
        s
    } else if s.subrange(0, from.len() as int) == from {
        to + replace_all(s.subrange(from.len() as int, s.len() as int), from, to)
    } else {
        seq![s[0]] + replace_all(s.drop_first(), from, to)
    }
}

/// `s` after each entry of `dict`, taken in order, has replaced its first
/// component by its second. A later entry sees what the earlier ones wrote.
pub open spec fn apply_dictionary(s: Seq<char>, dict: Seq<(Seq<char>, Seq<char>)>) -> Seq<char>
    decreases dict.len(),
{
    if dict.len() == 0 {
        s
    } else {
        apply_dictionary(replace_all(s, dict[0].0, dict[0].1), dict.drop_first())
    }
}

/// Each text of `texts` after `dict` was applied to it.
pub open spec fn texts_substituted(texts: Seq<Seq<char>>, dict: Seq<(Seq<char>, Seq<char>)>) -> Seq<
    Seq<char>,
> {
    Seq::new(texts.len(), |i: int| apply_dictionary(texts[i], dict))
}

/// The dictionary that a slice of string pairs stands for.
pub open spec fn dictionary_view(dic: Seq<(&str, &str)>) -> Seq<(Seq<char>, Seq<char>)> {
    Seq::new(dic.len(), |i: int| (dic[i].0@, dic[i].1@))
}

/// Whether `pat` stands in `s` at position `i`.
pub fn chars_occur_at(s: &Vec<char>, pat: &Vec<char>, i: usize) -> (r: bool)
    requires
        i <= s.len(),
    ensures
        r == occurs_at(s@, pat@, i as int),
{
    if pat.len() > s.len() - i {
        return false;
    }
    let mut k: usize = 0;
    while k < pat.len()
        invariant
            k <= pat.len(),
            i + pat.len() <= s.len(),
            s@.subrange(i as int, i + k) == pat@.take(k as int),
        decreases pat.len() - k,
    {
        if s[i + k] != pat[k] {
            proof {
                assert(s@.subrange(i as int, i + pat.len())[k as int] == s@[i + k]);
            }
            return false;
        }
        proof {
            assert(s@.subrange(i as int, i + k + 1) =~= s@.subrange(i as int, i + k).push(
                s@[i + k],
            ));
            assert(pat@.take(k as int + 1) =~= pat@.take(k as int).push(pat@[k as int]));
        }
        k = k + 1;
    }
    proof {
        assert(pat@.take(k as int) =~= pat@);
    }
    true
}

/// Appends the characters of `src` to `dst`.
pub fn chars_extend(dst: &mut Vec<char>, src: &Vec<char>)
    ensures
        final(dst)@ == old(dst)@ + src@,
{
    let mut k: usize = 0;
    while k < src.len()
        invariant
            k <= src.len(),
            dst@ == old(dst)@ + src@.take(k as int),
        decreases src.len() - k,
    {
        dst.push(src[k]);
        proof {
            assert(src@.take(k as int + 1) =~= src@.take(k as int).push(src@[k as int]));
        }
        k = k + 1;
    }
    proof {
        assert(src@.take(k as int) =~= src@);
    }
}

/// Replaces every occurrence of `from` in `s` by `to`.
pub fn chars_replace(s: &Vec<char>, from: &Vec<char>, to: &Vec<char>) -> (r: Vec<char>)
    ensures
        r@ == replace_all(s@, from@, to@),
{
    let mut out: Vec<char> = Vec::new();
    let mut i: usize = 0;
    let n: usize = s.len();
    proof {
        assert(s@.subrange(0, n as int) =~= s@);
        assert(out@ + replace_all(s@, from@, to@) =~= replace_all(s@, from@, to@));
    }
    while i < n
        invariant
            i <= n,
            n == s.len(),
            out@ + replace_all(s@.subrange(i as int, n as int), from@, to@) == replace_all(
                s@,
                from@,
                to@,
            ),
        decreases n - i,
    {
        let ghost rest = s@.subrange(i as int, n as int);
        let ghost before = out@;
        if from.len() == 0 {
            chars_extend(&mut out, to);
            out.push(s[i]);
            proof {
                assert(rest.drop_first() =~= s@.subrange(i + 1, n as int));
                assert(out@ + replace_all(rest.drop_first(), from@, to@) =~= before + (to@
                    + seq![rest[0]] + replace_all(rest.drop_first(), from@, to@)));
            }
            i = i + 1;
        } else if chars_occur_at(s, from, i) {
            chars_extend(&mut out, to);
            proof {
                let m = from@.len() as int;
                assert(rest.subrange(0, m) =~= s@.subrange(i as int, i + m));
                assert(rest.subrange(m, rest.len() as int) =~= s@.subrange(i + m, n as int));
                assert(out@ + replace_all(rest.subrange(m, rest.len() as int), from@, to@)
                    =~= before + (to@ + replace_all(
                    rest.subrange(m, rest.len() as int),
                    from@,
                    to@,
                )));
            }
            i = i + from.len();
        } else {
            out.push(s[i]);
            proof {
                let m = from@.len() as int;
                if rest.len() >= m {
                    assert(rest.subrange(0, m) =~= s@.subrange(i as int, i + m));
                    assert(rest.drop_first() =~= s@.subrange(i + 1, n as int));
                    assert(out@ + replace_all(rest.drop_first(), from@, to@) =~= before + (
                    seq![rest[0]] + replace_all(rest.drop_first(), from@, to@)));
                } else {
                    // A tail shorter than the pattern is copied character by character.
                    lemma_replace_short(rest, from@, to@);
                    lemma_replace_short(rest.drop_first(), from@, to@);
                    assert(rest.drop_first() =~= s@.subrange(i + 1, n as int));
                    assert(out@ + rest.drop_first() =~= before + rest);
                }
            }
            i = i + 1;
        }
    }
    proof {
        assert(s@.subrange(n as int, n as int) =~= Seq::<char>::empty());
    }
    if from.len() == 0 {
        chars_extend(&mut out, to);
    }
    proof {
        let tail = replace_all(Seq::<char>::empty(), from@, to@);
        if from@.len() == 0 {
            assert(tail == to@);
        } else {
            assert(tail =~= Seq::<char>::empty());
            assert(out@ + tail =~= out@);
        }
    }
    out
}

/// A text shorter than the pattern holds no occurrence of it.
pub proof fn lemma_replace_short(s: Seq<char>, from: Seq<char>, to: Seq<char>)
    requires
        s.len() < from.len(),
    ensures
        replace_all(s, from, to) == s,
{
}

/// Replaces every occurrence of `from` in `s` by `to`, as
/// [`replace_all`] says.
pub fn replace(s: &str, from: &str, to: &str) -> (r: String)
    ensures
        r@ == replace_all(s@, from@, to@),
{
    let vs = chars_of(s);
    let vf = chars_of(from);
    let vt = chars_of(to);
    let out = chars_replace(&vs, &vf, &vt);
    string_from_chars(&out)
}

/// Applies the entries of `dic` to `s`, in order, as [`apply_dictionary`]
/// says.
pub fn substitute(s: &str, dic: &[(&str, &str)]) -> (r: String)
    ensures
        r@ == apply_dictionary(s@, dictionary_view(dic@)),
{
    let mut cur: Vec<char> = chars_of(s);
    let mut i: usize = 0;
    proof {
        let d = dictionary_view(dic@);
        assert(d.subrange(0, dic@.len() as int) =~= d);
    }
    while i < dic.len()
        invariant
            i <= dic.len(),
            apply_dictionary(cur@, dictionary_view(dic@).subrange(i as int, dic@.len() as int))
                == apply_dictionary(s@, dictionary_view(dic@)),
        decreases dic.len() - i,
    {
        let from = chars_of(dic[i].0);
        let to = chars_of(dic[i].1);
        let next = chars_replace(&cur, &from, &to);
        proof {
            let d = dictionary_view(dic@);
            let rest = d.subrange(i as int, dic@.len() as int);
            assert(rest[0] == d[i as int]);
            assert(rest.drop_first() =~= d.subrange(i + 1, dic@.len() as int));
        }
        cur = next;
        i = i + 1;
    }
    string_from_chars(&cur)
}

/// Applying a dictionary to each of two rows of texts written one after the
/// other.
pub proof fn lemma_texts_substituted_concat(
    a: Seq<Seq<char>>,
    b: Seq<Seq<char>>,
    dict: Seq<(Seq<char>, Seq<char>)>,
)
    ensures
        texts_substituted(a + b, dict) == texts_substituted(a, dict) + texts_substituted(b, dict),
{
    assert(texts_substituted(a + b, dict) =~= texts_substituted(a, dict) + texts_substituted(
        b,
        dict,
    ));
}

} // verus!
