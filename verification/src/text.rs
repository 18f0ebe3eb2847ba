//! Text comparisons the rest of the library is stated over.

use vstd::prelude::*;

verus! {

/// Whether two texts hold the same characters.
pub fn same_text(a: &str, b: &str) -> (same: bool)
    ensures
        same == (a@ == b@),
{
    let n = a.unicode_len();
    if n != b.unicode_len() {
        return false;
    }
    let mut i: usize = 0;
    while i < n
        invariant
            n == a@.len(),
            n == b@.len(),
            i <= n,
            forall|j: int| 0 <= j < i ==> a@[j] == b@[j],
        decreases n - i,
    {
        if a.get_char(i) != b.get_char(i) {
            return false;
        }
        i += 1;
    }
    assert(a@ =~= b@);
    true
}


/// `needle` sits in `text` starting at `at`.
pub open spec fn occurs_at(text: Seq<char>, needle: Seq<char>, at: int) -> bool {
    0 <= at && at + needle.len() <= text.len() && text.subrange(at, at + needle.len()) == needle
}

pub open spec fn contains_text(text: Seq<char>, needle: Seq<char>) -> bool {
    exists|at: int| occurs_at(text, needle, at)
}

/// Whether `needle` occurs anywhere in `text`; the empty text occurs in every text.
pub fn text_contains(text: &str, needle: &str) -> (found: bool)
    ensures
        found == contains_text(text@, needle@),
{
    let n = text.unicode_len();
    let m = needle.unicode_len();
    if m > n {
        assert forall|at: int| !occurs_at(text@, needle@, at) by {}
        return false;
    }
    if m == 0 {
        assert(text@.subrange(0, 0) =~= needle@);
        assert(occurs_at(text@, needle@, 0));
        return true;
    }
    let mut at: usize = 0;
    while at <= n - m
        invariant
            n == text@.len(),
            m == needle@.len(),
            0 < m <= n,
            at <= n - m + 1,
            forall|b: int| 0 <= b < at ==> !occurs_at(text@, needle@, b),
        decreases n - m + 1 - at,
    {
        let mut k: usize = 0;
        let mut same = true;
        while k < m
            invariant
                n == text@.len(),
                m == needle@.len(),
                at + m <= n,
                k <= m,
                same ==> forall|j: int| 0 <= j < k ==> text@[at + j] == needle@[j],
                !same ==> !occurs_at(text@, needle@, at as int),
            decreases m - k,
        {
            if same && text.get_char(at + k) != needle.get_char(k) {
                same = false;
                assert(text@.subrange(at as int, at + m)[k as int] == text@[at + k]);
            }
            k += 1;
        }
        if same {
            assert(text@.subrange(at as int, at + m) =~= needle@);
            assert(occurs_at(text@, needle@, at as int));
            return true;
        }
        at += 1;
    }
    assert forall|b: int| !occurs_at(text@, needle@, b) by {}
    false
}


/// Lexicographic comparison by character: -1, 0 or 1. A proper prefix comes first.
/// Character order is code point order, which is the byte order of the texts' UTF-8.
pub open spec fn text_order(a: Seq<char>, b: Seq<char>) -> i8
    decreases a.len(),
{
    if a.len() == 0 {
        if b.len() == 0 {
            0
        } else {
            -1i8
        }
    } else if b.len() == 0 {
        1
    } else if a[0] < b[0] {
        -1i8
    } else if a[0] > b[0] {
        1
    } else {
        text_order(a.drop_first(), b.drop_first())
    }
}

/// `text_order` is zero exactly on equal texts.
pub proof fn lemma_text_order_equal(a: Seq<char>, b: Seq<char>)
    ensures
        (text_order(a, b) == 0) == (a == b),
    decreases a.len(),
{
    if a.len() == 0 && b.len() == 0 {
        assert(a =~= b);
    }
    if a.len() > 0 && b.len() > 0 && a[0] == b[0] {
        lemma_text_order_equal(a.drop_first(), b.drop_first());
        if a.drop_first() == b.drop_first() {
            assert(a =~= seq![a[0]] + a.drop_first());
            assert(b =~= seq![b[0]] + b.drop_first());
        }
        if a == b {
            assert(a.drop_first() =~= b.drop_first());
        }
    }
}

/// Swapping the texts swaps the order.
pub proof fn lemma_text_order_swap(a: Seq<char>, b: Seq<char>)
    ensures
        text_order(a, b) == -text_order(b, a),
    decreases a.len(),
{
    if a.len() > 0 && b.len() > 0 && a[0] == b[0] {
        lemma_text_order_swap(a.drop_first(), b.drop_first());
    }
}

/// Coming before or with is transitive, and stays strict when either step is.
pub proof fn lemma_text_order_chain(a: Seq<char>, b: Seq<char>, c: Seq<char>)
    requires
        text_order(a, b) <= 0,
        text_order(b, c) <= 0,
    ensures
        text_order(a, c) <= 0,
        text_order(a, b) < 0 || text_order(b, c) < 0 ==> text_order(a, c) < 0,
    decreases a.len(),
{
    if a.len() > 0 && b.len() > 0 && c.len() > 0 && a[0] == b[0] && b[0] == c[0] {
        lemma_text_order_chain(a.drop_first(), b.drop_first(), c.drop_first());
    }
}

proof fn lemma_text_order_skip(a: Seq<char>, b: Seq<char>, i: int)
    requires
        0 <= i < a.len(),
        i < b.len(),
        a[i] == b[i],
    ensures
        text_order(a.skip(i), b.skip(i)) == text_order(a.skip(i + 1), b.skip(i + 1)),
{
    assert(a.skip(i).drop_first() =~= a.skip(i + 1));
    assert(b.skip(i).drop_first() =~= b.skip(i + 1));
}

/// Compares two texts the way `text_order` says.
pub fn compare_text(a: &str, b: &str) -> (order: i8)
    ensures
        order == text_order(a@, b@),
{
    let n = a.unicode_len();
    let m = b.unicode_len();
    let mut i: usize = 0;
    assert(a@.skip(0) =~= a@);
    assert(b@.skip(0) =~= b@);
    while i < n && i < m
        invariant
            n == a@.len(),
            m == b@.len(),
            i <= n,
            i <= m,
            text_order(a@, b@) == text_order(a@.skip(i as int), b@.skip(i as int)),
        decreases n - i,
    {
        let x = a.get_char(i);
        let y = b.get_char(i);
        if x < y {
            return -1;
        }
        if x > y {
            return 1;
        }
        assert(x == y);
        proof {
            lemma_text_order_skip(a@, b@, i as int);
        }
        i += 1;
    }
    if i == n {
        if i == m {
            0
        } else {
            -1
        }
    } else {
        1
    }
}

/// Comparison of optional texts: nothing comes first.
pub open spec fn opt_text_order(a: Option<Seq<char>>, b: Option<Seq<char>>) -> i8 {
    match (a, b) {
        (None, None) => 0,
        (None, Some(_)) => -1i8,
        (Some(_), None) => 1,
        (Some(x), Some(y)) => text_order(x, y),
    }
}

/// The order on optional texts is zero exactly on equal ones, swaps with its
/// arguments, and chains.
pub proof fn lemma_opt_text_order(a: Option<Seq<char>>, b: Option<Seq<char>>, c: Option<Seq<char>>)
    ensures
        (opt_text_order(a, b) == 0) == (a == b),
        opt_text_order(a, b) == -opt_text_order(b, a),
        opt_text_order(a, b) <= 0 && opt_text_order(b, c) <= 0 ==> opt_text_order(a, c) <= 0,
        opt_text_order(a, b) <= 0 && opt_text_order(b, c) <= 0 && (opt_text_order(a, b) < 0 || opt_text_order(b, c)
            < 0) ==> opt_text_order(a, c) < 0,
{
    match (a, b) {
        (Some(x), Some(y)) => {
            lemma_text_order_equal(x, y);
            lemma_text_order_swap(x, y);
        },
        _ => {},
    }
    match (a, b, c) {
        (Some(x), Some(y), Some(z)) => {
            if text_order(x, y) <= 0 && text_order(y, z) <= 0 {
                lemma_text_order_chain(x, y, z);
            }
        },
        _ => {},
    }
}

pub open spec fn opt_view(text: Option<String>) -> Option<Seq<char>> {
    match text {
        Some(text) => Some(text@),
        None => None,
    }
}

pub fn compare_opt_text(a: &Option<String>, b: &Option<String>) -> (order: i8)
    ensures
        order == opt_text_order(opt_view(*a), opt_view(*b)),
{
    match (a, b) {
        (None, None) => 0,
        (None, Some(_)) => -1,
        (Some(_), None) => 1,
        (Some(x), Some(y)) => compare_text(x.as_str(), y.as_str()),
    }
}

/// Whether two optional texts are both absent or hold the same characters.
pub fn same_opt_text(a: &Option<String>, b: &Option<String>) -> (same: bool)
    ensures
        same == (opt_view(*a) == opt_view(*b)),
{
    match (a, b) {
        (None, None) => true,
        (Some(x), Some(y)) => same_text(x.as_str(), y.as_str()),
        _ => false,
    }
}

/// `String::push`, which std documents as appending the character to the end of
/// the string. Nothing else is claimed of it.
#[verifier::external_body]
pub fn push_char(text: &mut String, c: char)
    ensures
        final(text)@ == old(text)@.push(c),
{
    text.push(c);
}

/// Appends a whole text, character by character.
pub fn push_text(out: &mut String, text: &str)
    ensures
        final(out)@ == old(out)@ + text@,
{
    let ghost start = out@;
    let n = text.unicode_len();
    let mut i: usize = 0;
    while i < n
        invariant
            i <= n,
            n == text@.len(),
            out@ == start + text@.take(i as int),
        decreases n - i,
    {
        push_char(out, text.get_char(i));
        assert(text@.take(i + 1) =~= text@.take(i as int).push(text@[i as int]));
        assert(out@ =~= start + text@.take(i + 1));
        i += 1;
    }
    assert(text@.take(n as int) =~= text@);
}

} // verus!
