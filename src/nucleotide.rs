//! Character-level helpers on nucleotide sequences.

use vstd::prelude::*;

verus! {

broadcast use vstd::string::group_string_axioms;

/// Relies on `String::push`: appends the given character to the end of the string.
#[verifier::external_body]
pub(crate) fn push_char(s: &mut String, c: char)
    ensures
        final(s)@ == old(s)@.push(c),
{
    s.push(c)
}

/// The characters of `s`, in order.
pub fn chars_of(s: &str) -> (v: Vec<char>)
    ensures
        v@ == s@,
{
    let mut v: Vec<char> = Vec::new();
    for c in it: s.chars()
        invariant
            v@ == it.seq().take(it.index() as int),
    {
        v.push(c);
    }
    v
}

/// The Watson-Crick partner of a base; anything outside `A`, `C`, `G`, `T` becomes `N`.
pub open spec fn complement(c: char) -> char {
    if c == 'A' {
        'T'
    } else if c == 'T' {
        'A'
    } else if c == 'G' {
        'C'
    } else if c == 'C' {
        'G'
    } else {
        'N'
    }
}

/// The sequence read back to front.
pub open spec fn reversed(s: Seq<char>) -> Seq<char> {
    Seq::new(s.len(), |i: int| s[s.len() - 1 - i])
}

/// The reverse complement: read back to front, each base replaced by its partner.
pub open spec fn reverse_complement(s: Seq<char>) -> Seq<char> {
    Seq::new(s.len(), |i: int| complement(s[s.len() - 1 - i]))
}

/// Executable form of `complement`.
pub fn complement_base(c: char) -> (r: char)
    ensures
        r == complement(c),
{
    match c {
        'A' => 'T',
        'G' => 'C',
        'T' => 'A',
        'C' => 'G',
        _ => 'N',
    }
}

/// The reverse complement of `nucleotide`.
pub fn revcomp(nucleotide: &str) -> (r: String)
    ensures
        r@ == reverse_complement(nucleotide@),
{
    let v = chars_of(nucleotide);
    let mut r = String::new();
    let mut i: usize = v.len();
    while i > 0
        invariant
            v@ == nucleotide@,
            i <= v.len(),
            r@ =~= reverse_complement(v@).take(v.len() - i),
        decreases i,
    {
        i = i - 1;
        let x = complement_base(v[i]);
        push_char(&mut r, x);
    }
    r
}

/// The characters of `dinuc` in reverse order (`"AG"` gives `"GA"`).
pub fn flip_dinuc(dinuc: &str) -> (r: String)
    ensures
        r@ == reversed(dinuc@),
{
    let v = chars_of(dinuc);
    let mut r = String::new();
    let mut i: usize = v.len();
    while i > 0
        invariant
            v@ == dinuc@,
            i <= v.len(),
            r@ =~= reversed(v@).take(v.len() - i),
        decreases i,
    {
        i = i - 1;
        push_char(&mut r, v[i]);
    }
    r
}

} // verus!
