//! Character-level word relations.
//!
//! The whole engine rests on one relation between words: two words are
//! neighbors when they have the same length and differ in exactly one
//! character position. This module defines that relation as a spec function
//! and provides verified executable checks for it and for word equality.

use vstd::prelude::*;

verus! {

/// The number of positions at which two equal-length character sequences
/// differ, counted over the first `n` positions.
pub open spec fn diff_count_upto(a: Seq<char>, b: Seq<char>, n: int) -> int
    decreases n,
{
    if n <= 0 {
        0
    } else {
        diff_count_upto(a, b, n - 1) + if a[n - 1] == b[n - 1] {
            0int
        } else {
            1int
        }
    }
}

/// The number of positions at which two equal-length character sequences differ.
pub open spec fn diff_count(a: Seq<char>, b: Seq<char>) -> int {
    diff_count_upto(a, b, a.len() as int)
}

/// Two words are one letter apart when they have equal length and differ in
/// exactly one character position. This is the adjacency relation of the
/// word graph and the relation checked by puzzle verification.
pub open spec fn one_letter_apart(a: Seq<char>, b: Seq<char>) -> bool {
    a.len() == b.len() && diff_count(a, b) == 1
}

/// Returns true exactly when the two strings hold the same characters.
pub fn str_eq(a: &str, b: &str) -> (r: bool)
    ensures
        r == (a@ == b@),
{
    let a_len = a.unicode_len();
    let b_len = b.unicode_len();
    if a_len != b_len {
        assert(a@ != b@);
        return false;
    }
    let mut i: usize = 0;
    while i < a_len
        invariant
            i <= a_len,
            a_len == a@.len(),
            a_len == b@.len(),
            forall|k: int| 0 <= k < i ==> a@[k] == b@[k],
        decreases a_len - i,
    {
        if a.get_char(i) != b.get_char(i) {
            assert(a@ != b@);
            return false;
        }
        i += 1;
    }
    proof {
        assert(a@ =~= b@);
    }
    true
}

/// What `char::is_whitespace` holds of a character.
pub uninterp spec fn is_ws(c: char) -> bool;

/// Relies on char::is_whitespace: whether the character has the Unicode
/// white-space property, a fact of the character alone.
#[verifier::external_body]
fn char_is_whitespace(c: char) -> (r: bool)
    ensures
        r == is_ws(c),
{
    c.is_whitespace()
}

/// What `str::to_lowercase` returns for a given character sequence.
pub uninterp spec fn lower_of(s: Seq<char>) -> Seq<char>;

/// Relies on str::to_lowercase: the result depends on the characters alone.
#[verifier::external_body]
pub(crate) fn to_lowercase(s: &str) -> (r: String)
    ensures
        r@ == lower_of(s@),
{
    s.to_lowercase()
}

/// The pieces of a character sequence split at every comma. Splitting the
/// empty sequence gives one empty piece; every comma separates two pieces.
pub open spec fn split_commas(s: Seq<char>) -> Seq<Seq<char>>
    decreases s.len(),
{
    if s.len() == 0 {
        seq![Seq::<char>::empty()]
    } else if s[0] == ',' {
        seq![Seq::<char>::empty()] + split_commas(s.subrange(1, s.len() as int))
    } else {
        let rest = split_commas(s.subrange(1, s.len() as int));
        seq![seq![s[0]] + rest[0]] + rest.subrange(1, rest.len() as int)
    }
}

pub proof fn lemma_split_commas_len(s: Seq<char>)
    ensures
        split_commas(s).len() >= 1,
    decreases s.len(),
{
    if s.len() > 0 {
        lemma_split_commas_len(s.subrange(1, s.len() as int));
    }
}

proof fn lemma_split_no_comma(s: Seq<char>)
    requires
        forall|i: int| 0 <= i < s.len() ==> s[i] != ',',
    ensures
        split_commas(s) == seq![s],
    decreases s.len(),
{
    if s.len() == 0 {
        assert(split_commas(s) =~~= seq![s]);
    } else {
        let tail = s.subrange(1, s.len() as int);
        lemma_split_no_comma(tail);
        lemma_split_commas_len(tail);
        let rest = split_commas(tail);
        assert(rest == seq![tail]);
        assert(seq![s[0]] + tail =~= s);
        assert(rest.subrange(1, rest.len() as int) =~= Seq::<Seq<char>>::empty());
        assert(split_commas(s) =~~= seq![s]);
    }
}

proof fn lemma_split_at_comma(s: Seq<char>, k: int)
    requires
        0 <= k < s.len(),
        s[k] == ',',
        forall|i: int| 0 <= i < k ==> s[i] != ',',
    ensures
        split_commas(s) == seq![s.subrange(0, k)] + split_commas(
            s.subrange(k + 1, s.len() as int),
        ),
    decreases k,
{
    let tail = s.subrange(1, s.len() as int);
    if k == 0 {
        assert(s.subrange(0, 0) =~= Seq::<char>::empty());
        assert(s.subrange(1, s.len() as int) =~= tail);
        assert(split_commas(s) =~~= seq![s.subrange(0, 0)] + split_commas(
            s.subrange(1, s.len() as int),
        ));
    } else {
        assert(s[0] != ',');
        assert(tail[k - 1] == ',');
        lemma_split_at_comma(tail, k - 1);
        lemma_split_commas_len(tail);
        let rest = split_commas(tail);
        assert(tail.subrange(0, k - 1) =~= s.subrange(1, k));
        assert(tail.subrange(k, tail.len() as int) =~= s.subrange(k + 1, s.len() as int));
        assert(rest[0] == s.subrange(1, k));
        assert(seq![s[0]] + s.subrange(1, k) =~= s.subrange(0, k));
        assert(rest.subrange(1, rest.len() as int) =~= split_commas(
            s.subrange(k + 1, s.len() as int),
        ));
        assert(split_commas(s) =~~= seq![s.subrange(0, k)] + split_commas(
            s.subrange(k + 1, s.len() as int),
        ));
    }
}

/// Splits a string at every comma.
pub fn split_commas_exec(s: &str) -> (r: Vec<String>)
    ensures
        r.deep_view() == split_commas(s@),
{
    let len = s.unicode_len();
    let mut tokens: Vec<String> = Vec::new();
    let mut p: usize = 0;
    let mut done: bool = false;
    proof {
        assert(tokens.deep_view() =~= Seq::<Seq<char>>::empty());
        assert(s@.subrange(0, len as int) =~= s@);
        assert(tokens.deep_view() + split_commas(s@) =~= split_commas(s@));
    }
    while !done
        invariant
            p <= len,
            len == s@.len(),
            !done ==> split_commas(s@) == tokens.deep_view() + split_commas(
                s@.subrange(p as int, len as int),
            ),
            done ==> tokens.deep_view() == split_commas(s@),
        decreases (if done { 0int } else { 1int }), len - p,
    {
        let ghost pre = tokens.deep_view();
        let mut j: usize = p;
        let mut found: bool = false;
        while j < len && !found
            invariant
                p <= j <= len,
                len == s@.len(),
                forall|i: int| p <= i < j ==> s@[i] != ',',
                found ==> j < len && s@[j as int] == ',',
            decreases 2 * (len - j) + (if found { 0int } else { 1int }),
        {
            if s.get_char(j) == ',' {
                found = true;
            } else {
                j += 1;
            }
        }
        let piece = s.substring_char(p, j);
        tokens.push(piece.to_owned());
        proof {
            let t = s@.subrange(p as int, len as int);
            assert(tokens.deep_view() =~= pre.push(s@.subrange(p as int, j as int)));
            if found {
                assert(t[j - p] == s@[j as int]);
                assert forall|i: int| 0 <= i < j - p implies t[i] != ',' by {
                    assert(t[i] == s@[i + p]);
                }
                lemma_split_at_comma(t, j - p);
                assert(t.subrange(0, j - p) =~= s@.subrange(p as int, j as int));
                assert(t.subrange(j - p + 1, t.len() as int) =~= s@.subrange(
                    j + 1,
                    len as int,
                ));
                assert(split_commas(s@) =~~= tokens.deep_view() + split_commas(
                    s@.subrange(j + 1, len as int),
                ));
            } else {
                assert(j == len);
                assert forall|i: int| 0 <= i < t.len() implies t[i] != ',' by {
                    assert(t[i] == s@[i + p]);
                }
                lemma_split_no_comma(t);
                assert(t =~= s@.subrange(p as int, j as int));
                assert(split_commas(s@) =~~= tokens.deep_view());
            }
        }
        if found {
            p = j + 1;
        } else {
            done = true;
        }
    }
    tokens
}

/// The sequence with its leading white-space characters removed.
pub open spec fn trim_start_spec(s: Seq<char>) -> Seq<char>
    decreases s.len(),
{
    if s.len() > 0 && is_ws(s[0]) {
        trim_start_spec(s.subrange(1, s.len() as int))
    } else {
        s
    }
}

/// The sequence with its trailing white-space characters removed.
pub open spec fn trim_end_spec(s: Seq<char>) -> Seq<char>
    decreases s.len(),
{
    if s.len() > 0 && is_ws(s[s.len() - 1]) {
        trim_end_spec(s.drop_last())
    } else {
        s
    }
}

/// The sequence with white space removed from both ends, as `str::trim` does.
pub open spec fn trim_spec(s: Seq<char>) -> Seq<char> {
    trim_end_spec(trim_start_spec(s))
}

proof fn lemma_trim_start_at(s: Seq<char>, a: int)
    requires
        0 <= a <= s.len(),
        forall|i: int| 0 <= i < a ==> is_ws(s[i]),
        a < s.len() ==> !is_ws(s[a]),
    ensures
        trim_start_spec(s) == s.subrange(a, s.len() as int),
    decreases a,
{
    if a == 0 {
        assert(s.subrange(0, s.len() as int) =~= s);
    } else {
        let tail = s.subrange(1, s.len() as int);
        assert(is_ws(s[0]));
        assert forall|i: int| 0 <= i < a - 1 implies is_ws(tail[i]) by {
            assert(tail[i] == s[i + 1]);
        }
        lemma_trim_start_at(tail, a - 1);
        assert(tail.subrange(a - 1, tail.len() as int) =~= s.subrange(a, s.len() as int));
    }
}

proof fn lemma_trim_end_at(s: Seq<char>, b: int)
    requires
        0 <= b <= s.len(),
        forall|i: int| b <= i < s.len() ==> is_ws(s[i]),
        b > 0 ==> !is_ws(s[b - 1]),
    ensures
        trim_end_spec(s) == s.subrange(0, b),
    decreases s.len() - b,
{
    if b == s.len() {
        assert(s.subrange(0, b) =~= s);
    } else {
        assert(is_ws(s[s.len() - 1]));
        let front = s.drop_last();
        assert(front =~= s.subrange(0, s.len() - 1));
        assert forall|i: int| b <= i < front.len() implies is_ws(front[i]) by {
            assert(front[i] == s[i]);
        }
        lemma_trim_end_at(front, b);
        assert(front.subrange(0, b) =~= s.subrange(0, b));
    }
}

/// Removes white space from both ends of a string.
pub fn trim_exec(s: &str) -> (r: String)
    ensures
        r@ == trim_spec(s@),
{
    let len = s.unicode_len();
    let mut a: usize = 0;
    while a < len && char_is_whitespace(s.get_char(a))
        invariant
            a <= len,
            len == s@.len(),
            forall|i: int| 0 <= i < a ==> is_ws(s@[i]),
        decreases len - a,
    {
        a += 1;
    }
    let mut b: usize = len;
    while b > a && char_is_whitespace(s.get_char(b - 1))
        invariant
            a <= b <= len,
            len == s@.len(),
            forall|i: int| b <= i < len ==> is_ws(s@[i]),
        decreases b,
    {
        b -= 1;
    }
    let piece = s.substring_char(a, b);
    let out = piece.to_owned();
    proof {
        lemma_trim_start_at(s@, a as int);
        let t = s@.subrange(a as int, len as int);
        assert forall|i: int| b - a <= i < t.len() implies is_ws(t[i]) by {
            assert(t[i] == s@[i + a]);
        }
        if b > a {
            assert(t[b - a - 1] == s@[b - 1]);
        }
        lemma_trim_end_at(t, b - a);
        assert(t.subrange(0, b - a) =~= s@.subrange(a as int, b as int));
    }
    out
}

/// Returns true exactly when the two words are neighbors: equal length and
/// exactly one differing character position.
pub fn are_neighbors_chars(a: &str, b: &str) -> (r: bool)
    ensures
        r == one_letter_apart(a@, b@),
{
    let a_len = a.unicode_len();
    let b_len = b.unicode_len();
    if a_len != b_len {
        return false;
    }
    let mut diffs: usize = 0;
    let mut i: usize = 0;
    while i < a_len
        invariant
            i <= a_len,
            a_len == a@.len(),
            a_len == b@.len(),
            diffs == diff_count_upto(a@, b@, i as int),
            diffs <= i,
        decreases a_len - i,
    {
        if a.get_char(i) != b.get_char(i) {
            diffs += 1;
        }
        i += 1;
    }
    diffs == 1
}

} // verus!
