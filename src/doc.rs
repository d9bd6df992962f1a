//! Documents, their identities and the text that the index reads from them.

use vstd::prelude::*;
use vstd::string::StringExecFns;
use vstd::utf8::encode_utf8;

use crate::gram::bytes_view;
use crate::hash::{hex_chars, DocHash};

verus! {

/// The identity of a document: assigned in sequence by the library and never
/// reused.
#[derive(Clone, Copy, PartialEq, Eq, Structural, Debug, Hash)]
pub struct DocId(pub usize);

/// A stored document's metadata.
#[derive(Clone, Debug)]
pub struct Doc {
    pub title: String,
    pub authors: Vec<String>,
    pub keywords: Vec<String>,
    /// The file's extension, lower-cased when the document is stored.
    pub extension: String,
    /// False once the document has been removed.
    pub show: bool,
    /// The content hash of the document's file.
    pub hash: DocHash,
}

/// A document's metadata as values.
pub struct DocView {
    pub title: Seq<char>,
    pub authors: Seq<Seq<char>>,
    pub keywords: Seq<Seq<char>>,
    pub extension: Seq<char>,
    pub show: bool,
    pub hash: Seq<u8>,
}

pub open spec fn strings_view(v: Seq<String>) -> Seq<Seq<char>> {
    v.map_values(|s: String| s@)
}

impl View for Doc {
    type V = DocView;

    open spec fn view(&self) -> DocView {
        DocView {
            title: self.title@,
            authors: strings_view(self.authors@),
            keywords: strings_view(self.keywords@),
            extension: self.extension@,
            show: self.show,
            hash: self.hash.0@,
        }
    }
}

/// What `str::to_lowercase` returns for the given characters.
pub uninterp spec fn lower_of(s: Seq<char>) -> Seq<char>;

/// Relies on `str::to_lowercase`: the result depends on the characters alone.
#[verifier::external_body]
pub(crate) fn lowercase(s: &str) -> (r: String)
    ensures
        r@ == lower_of(s@),
{
    s.to_lowercase()
}

/// The bytes that the index reads from a text: its lower-cased form in UTF-8.
pub open spec fn index_bytes(s: Seq<char>) -> Seq<u8> {
    encode_utf8(lower_of(s))
}

/// The bytes that the index reads from each of `ts`.
pub open spec fn texts_bytes(ts: Seq<Seq<char>>) -> Seq<Seq<u8>> {
    ts.map_values(|s: Seq<char>| index_bytes(s))
}

/// The lower-cased UTF-8 bytes of `s`.
pub fn lowercase_bytes(s: &str) -> (r: Vec<u8>)
    ensures
        r@ == index_bytes(s@),
{
    let lower = lowercase(s);
    let bytes = lower.as_str().as_bytes();
    vstd::slice::slice_to_vec(bytes)
}

/// The lower-cased UTF-8 bytes of each of `texts`.
pub fn lowercase_all(texts: &Vec<String>) -> (r: Vec<Vec<u8>>)
    ensures
        bytes_view(r@) == texts_bytes(strings_view(texts@)),
{
    let mut r: Vec<Vec<u8>> = Vec::new();
    let mut i: usize = 0;
    while i < texts.len()
        invariant
            i <= texts@.len(),
            r@.len() == i,
            forall|j: int| 0 <= j < i ==> (#[trigger] r@[j])@ == index_bytes(texts@[j]@),
        decreases texts@.len() - i,
    {
        r.push(lowercase_bytes(texts[i].as_str()));
        i = i + 1;
    }
    assert(bytes_view(r@) =~= texts_bytes(strings_view(texts@)));
    r
}

/// The texts `parts` with `sep` between each two.
pub open spec fn joined(parts: Seq<Seq<char>>, sep: Seq<char>) -> Seq<char>
    decreases parts.len(),
{
    if parts.len() == 0 {
        Seq::empty()
    } else if parts.len() == 1 {
        parts[0]
    } else {
        joined(parts.drop_last(), sep) + sep + parts.last()
    }
}

/// The texts `parts` with `sep` between each two.
pub fn join(parts: &Vec<String>, sep: &str) -> (r: String)
    ensures
        r@ == joined(strings_view(parts@), sep@),
{
    let ghost ps = strings_view(parts@);
    let mut r = String::new();
    let mut i: usize = 0;
    while i < parts.len()
        invariant
            i <= parts@.len(),
            ps == strings_view(parts@),
            r@ == joined(ps.subrange(0, i as int), sep@),
        decreases parts@.len() - i,
    {
        let ghost before = r@;
        if i > 0 {
            r.append(sep);
        }
        r.append(parts[i].as_str());
        proof {
            let next = ps.subrange(0, i + 1);
            assert(next.drop_last() =~= ps.subrange(0, i as int));
            if i == 0 {
                assert(r@ =~= next[0]);
            } else {
                assert(r@ =~= joined(next.drop_last(), sep@) + sep@ + next.last());
            }
        }
        i = i + 1;
    }
    proof {
        assert(ps.subrange(0, parts@.len() as int) =~= ps);
    }
    r
}

/// The value of the decimal digits `d`.
pub open spec fn decimal_value(d: Seq<u8>) -> nat
    decreases d.len(),
{
    if d.len() == 0 {
        0
    } else {
        decimal_value(d.drop_last()) * 10 + (d.last() - 48) as nat
    }
}

pub open spec fn all_decimal_digits(d: Seq<u8>) -> bool {
    forall|i: int| 0 <= i < d.len() ==> 48 <= #[trigger] d[i] <= 57
}

/// The digits of a decimal identity: the text without one leading `+`.
pub open spec fn identity_digits(t: Seq<u8>) -> Seq<u8> {
    if t.len() > 0 && t[0] == 43 {
        t.drop_first()
    } else {
        t
    }
}

/// The identity that the decimal text `t` spells (one leading `+` allowed),
/// if it spells one that fits.
pub open spec fn parsed_identity(t: Seq<u8>) -> Option<DocId> {
    let d = identity_digits(t);
    if d.len() > 0 && all_decimal_digits(d) && decimal_value(d) <= usize::MAX {
        Some(DocId(decimal_value(d) as usize))
    } else {
        None
    }
}

proof fn lemma_decimal_value_grows(d: Seq<u8>, k: int)
    requires
        all_decimal_digits(d),
        0 <= k <= d.len(),
    ensures
        decimal_value(d.subrange(0, k)) <= decimal_value(d),
    decreases d.len() - k,
{
    if k < d.len() {
        lemma_decimal_value_grows(d, k + 1);
        assert(d.subrange(0, k + 1).drop_last() =~= d.subrange(0, k));
    } else {
        assert(d.subrange(0, k) =~= d);
    }
}

impl DocId {
    /// The identity that the decimal text `text` spells.
    pub fn parse(text: &str) -> (r: Option<DocId>)
        ensures
            r == parsed_identity(encode_utf8(text@)),
    {
        let t = text.as_bytes();
        let ghost d = identity_digits(t@);
        let start: usize = if t.len() > 0 && t[0] == 43 {
            1
        } else {
            0
        };
        proof {
            assert(d =~= t@.subrange(start as int, t@.len() as int));
        }
        if t.len() == start {
            return None;
        }
        let mut value: usize = 0;
        let mut i: usize = start;
        while i < t.len()
            invariant
                start <= i <= t@.len(),
                t@ == encode_utf8(text@),
                d == identity_digits(t@),
                d =~= t@.subrange(start as int, t@.len() as int),
                all_decimal_digits(d.subrange(0, i - start)),
                value == decimal_value(d.subrange(0, i - start)),
            decreases t@.len() - i,
        {
            let c = t[i];
            proof {
                assert(d.subrange(0, i - start + 1).drop_last() =~= d.subrange(0, i - start));
                assert(d[i - start] == c);
            }
            if c < 48 || c > 57 {
                return None;
            }
            if value > (usize::MAX - (c - 48) as usize) / 10 {
                proof {
                    let dg = (c - 48) as int;
                    assert(value * 10 + dg > usize::MAX) by (nonlinear_arith)
                        requires
                            value > (usize::MAX - dg) / 10,
                            0 <= dg <= 9,
                    ;
                    assert(decimal_value(d.subrange(0, i - start + 1)) > usize::MAX);
                    if all_decimal_digits(d) {
                        lemma_decimal_value_grows(d, i - start + 1);
                    }
                }
                return None;
            }
            value = value * 10 + (c - 48) as usize;
            i = i + 1;
            proof {
                assert(all_decimal_digits(d.subrange(0, i - start)));
            }
        }
        proof {
            assert(d.subrange(0, i - start) =~= d);
        }
        Some(DocId(value))
    }
}

impl Doc {
    /// The name of the document's file in storage: the hexadecimal content
    /// hash, a dot, and the extension.
    pub fn filename(&self) -> (r: String)
        ensures
            r@ == hex_chars(self.hash.0@) + seq!['.'] + self.extension@,
    {
        let mut name = self.hash.to_hex();
        proof {
            reveal_strlit(".");
        }
        name.append(".");
        name.append(self.extension.as_str());
        name
    }
}

} // verus!
