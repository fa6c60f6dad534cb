//! Removal of immediately repeated alternating two-character windows.

use crate::nucleotide::{chars_of, push_char};
use vstd::prelude::*;

verus! {

/// Number of complete two-character windows in `s`; a trailing odd character is not one.
pub open spec fn window_count(s: Seq<char>) -> nat {
    s.len() / 2
}

/// The `k`-th window of `s`: the characters at positions `2k` and `2k + 1`.
pub open spec fn window(s: Seq<char>, k: int) -> Seq<char> {
    s.subrange(2 * k, 2 * k + 2)
}

/// Window `k` repeats the window just before it, and is a genuine alternating unit
/// (its two characters differ). The first window never repeats: the sentinel
/// before it is `AA`, whose characters are equal.
pub open spec fn is_repeat(s: Seq<char>, k: int) -> bool {
    &&& 1 <= k
    &&& s[2 * k] == s[2 * k - 2]
    &&& s[2 * k + 1] == s[2 * k - 1]
    &&& s[2 * k] != s[2 * k + 1]
}

/// The collapse of the first `n` windows of `s`: each window that is not a repeat, in order.
pub open spec fn collapse_prefix(s: Seq<char>, n: nat) -> Seq<char>
    decreases n,
{
    if n == 0 {
        Seq::empty()
    } else {
        let rest = collapse_prefix(s, (n - 1) as nat);
        if is_repeat(s, n - 1) {
            rest
        } else {
            rest + window(s, n - 1)
        }
    }
}

/// The collapse of the whole sequence.
pub open spec fn collapsed(s: Seq<char>) -> Seq<char> {
    collapse_prefix(s, window_count(s))
}

/// `s` holds no repeated alternating window.
pub open spec fn has_no_repeats(s: Seq<char>) -> bool {
    forall|k: int| 0 <= k < window_count(s) ==> !#[trigger] is_repeat(s, k)
}

/// Removes every window that repeats the immediately preceding window as an
/// alternating two-character unit; a trailing odd character is dropped.
pub fn collapse_dinuct(fastq_entry: &str) -> (r: String)
    ensures
        r@ == collapsed(fastq_entry@),
        r@.len() % 2 == 0,
        r@.len() <= 2 * window_count(fastq_entry@),
{
    let v = chars_of(fastq_entry);
    let mut new_str = String::new();
    let mut prev_c1: char = 'A';
    let mut prev_c2: char = 'A';
    let n: usize = v.len() / 2;
    let mut k: usize = 0;
    while k < n
        invariant
            v@ == fastq_entry@,
            n == window_count(v@),
            2 * n <= v.len(),
            k <= n,
            new_str@ == collapse_prefix(v@, k as nat),
            k == 0 ==> prev_c1 == 'A' && prev_c2 == 'A',
            k > 0 ==> prev_c1 == v@[2 * k - 2] && prev_c2 == v@[2 * k - 1],
        decreases n - k,
    {
        let c1 = v[2 * k];
        let c2 = v[2 * k + 1];
        let should_collapse = c1 == prev_c1 && c2 == prev_c2 && c1 != c2;
        prev_c1 = c1;
        prev_c2 = c2;
        if !should_collapse {
            push_char(&mut new_str, c1);
            push_char(&mut new_str, c2);
        }
        proof {
            assert(should_collapse == is_repeat(v@, k as int));
            if !should_collapse {
                assert(window(v@, k as int) =~= seq![c1, c2]);
            }
        }
        k = k + 1;
    }
    proof {
        lemma_collapse_prefix_len(v@, n as nat);
    }
    new_str
}

/// The collapse of `n` windows has even length and at most `2n` characters.
pub proof fn lemma_collapse_prefix_len(s: Seq<char>, n: nat)
    requires
        2 * n <= s.len(),
    ensures
        collapse_prefix(s, n).len() % 2 == 0,
        collapse_prefix(s, n).len() <= 2 * n,
    decreases n,
{
    if n > 0 {
        lemma_collapse_prefix_len(s, (n - 1) as nat);
    }
}

/// Collapsing never lengthens a sequence: the result has even length and at most
/// as many characters as the input rounded down to even.
pub proof fn lemma_collapse_never_grows(s: Seq<char>)
    ensures
        collapsed(s).len() % 2 == 0,
        collapsed(s).len() <= 2 * window_count(s),
        2 * window_count(s) <= s.len(),
{
    lemma_collapse_prefix_len(s, window_count(s));
}

/// Without repeats, the first `n` windows are kept as they stand.
proof fn lemma_collapse_prefix_keeps_all(s: Seq<char>, n: nat)
    requires
        n <= window_count(s),
        has_no_repeats(s),
    ensures
        collapse_prefix(s, n) =~= s.take(2 * n as int),
    decreases n,
{
    if n > 0 {
        lemma_collapse_prefix_keeps_all(s, (n - 1) as nat);
        assert(!is_repeat(s, n - 1));
    }
}

/// A sequence of even length with no repeated alternating window is its own collapse.
pub proof fn lemma_collapse_identity(s: Seq<char>)
    requires
        s.len() % 2 == 0,
        has_no_repeats(s),
    ensures
        collapsed(s) == s,
{
    lemma_collapse_prefix_keeps_all(s, window_count(s));
    assert(s.take(2 * window_count(s) as int) =~= s);
}

/// The collapse of `n >= 1` windows ends with window `n - 1` of `s`: a dropped window
/// equals the one before it.
proof fn lemma_collapse_prefix_last(s: Seq<char>, n: nat)
    requires
        1 <= n <= window_count(s),
    ensures
        collapse_prefix(s, n).len() >= 2,
        collapse_prefix(s, n)[collapse_prefix(s, n).len() - 2] == s[2 * n - 2],
        collapse_prefix(s, n)[collapse_prefix(s, n).len() - 1] == s[2 * n - 1],
    decreases n,
{
    if is_repeat(s, n - 1) {
        lemma_collapse_prefix_last(s, (n - 1) as nat);
    }
}

/// The collapse of the first `n` windows holds no repeated alternating window.
proof fn lemma_collapse_prefix_no_repeats(s: Seq<char>, n: nat)
    requires
        n <= window_count(s),
    ensures
        has_no_repeats(collapse_prefix(s, n)),
    decreases n,
{
    if n > 0 {
        let m = (n - 1) as nat;
        lemma_collapse_prefix_no_repeats(s, m);
        lemma_collapse_prefix_len(s, m);
        let rest = collapse_prefix(s, m);
        if !is_repeat(s, n - 1) {
            let c = rest + window(s, n - 1);
            let j = rest.len() / 2;
            assert forall|k: int| 0 <= k < window_count(c) implies !#[trigger] is_repeat(c, k) by {
                if k < j {
                    assert(c[2 * k] == rest[2 * k]);
                    assert(c[2 * k + 1] == rest[2 * k + 1]);
                    assert(!is_repeat(rest, k));
                } else if k >= 1 {
                    assert(k == j);
                    lemma_collapse_prefix_last(s, m);
                }
            }
        }
    }
}

/// Collapsing a collapsed sequence changes nothing.
pub proof fn lemma_collapse_idempotent(s: Seq<char>)
    ensures
        collapsed(collapsed(s)) == collapsed(s),
{
    lemma_collapse_prefix_len(s, window_count(s));
    lemma_collapse_prefix_no_repeats(s, window_count(s));
    lemma_collapse_identity(collapsed(s));
}

} // verus!
