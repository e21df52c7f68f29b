//! Reading a cluster identifier out of a resource name.
//!
//! A cluster's resource name ends in `.../cluster/<identifier>`; the
//! identifier is everything after the last `/`.  A name without any `/`
//! is returned whole.

use vstd::prelude::*;
use vstd::string::StrSliceExecFns;

verus! {

/// The characters of `s` after the last occurrence of `c`; all of `s`
/// when `c` does not occur.
pub open spec fn after_last(s: Seq<char>, c: char) -> Seq<char>
    decreases s.len(),
{
    if s.len() == 0 {
        s
    } else if s.last() == c {
        Seq::<char>::empty()
    } else {
        after_last(s.drop_last(), c) + seq![s.last()]
    }
}

/// Without an occurrence, the suffix is the whole string.
proof fn lemma_after_last_absent(s: Seq<char>, c: char)
    requires
        forall|j: int| 0 <= j < s.len() ==> s[j] != c,
    ensures
        after_last(s, c) == s,
    decreases s.len(),
{
    if s.len() > 0 {
        lemma_after_last_absent(s.drop_last(), c);
        assert(after_last(s, c) =~= s);
    }
}

/// With the last occurrence at `i`, the suffix starts right behind it.
proof fn lemma_after_last_found(s: Seq<char>, c: char, i: int)
    requires
        0 <= i < s.len(),
        s[i] == c,
        forall|j: int| i < j < s.len() ==> s[j] != c,
    ensures
        after_last(s, c) == s.subrange(i + 1, s.len() as int),
    decreases s.len(),
{
    if i == s.len() - 1 {
        assert(after_last(s, c) =~= s.subrange(i + 1, s.len() as int));
    } else {
        assert(s.last() != c);
        lemma_after_last_found(s.drop_last(), c, i);
        assert(s.drop_last().subrange(i + 1, s.len() - 1) =~= s.subrange(i + 1, s.len() - 1));
        assert(after_last(s, c) =~= s.subrange(i + 1, s.len() as int));
    }
}

/// The identifier at the end of a cluster resource name: everything
/// after the last `/`, or the whole name when it has none.
pub fn cluster_id_from_arn(arn: &str) -> (r: String)
    ensures
        r@ == after_last(arn@, '/'),
{
    let n = arn.unicode_len();
    let mut start: usize = 0;
    let mut i: usize = 0;
    while i < n
        invariant
            0 <= start <= i <= n,
            n == arn@.len(),
            (start == 0 && forall|j: int| 0 <= j < i ==> arn@[j] != '/') || (start >= 1
                && arn@[start - 1] == '/' && forall|j: int| start <= j < i ==> arn@[j] != '/'),
        decreases n - i,
    {
        if arn.get_char(i) == '/' {
            start = i + 1;
        }
        i = i + 1;
    }
    proof {
        if start == 0 {
            lemma_after_last_absent(arn@, '/');
        } else {
            lemma_after_last_found(arn@, '/', start - 1);
        }
    }
    let tail = arn.substring_char(start, n);
    tail.to_owned()
}

} // verus!
