//! Path handling and long-name validation.
//!
//! Paths are `/`-separated; leading and trailing slashes are trimmed at
//! each hop, and `split_path` peels off the topmost component.
use vstd::prelude::*;
use crate::Error;

verus! {

/// The characters of a string as a vector.
pub fn chars_of(s: &str) -> (r: Vec<char>)
    ensures
        r@ == s@,
{
    let n = s.unicode_len();
    let mut r: Vec<char> = Vec::new();
    let mut i: usize = 0;
    while i < n
        invariant
            i <= n,
            n == s@.len(),
            r@ == s@.subrange(0, i as int),
        decreases n - i,
    {
        r.push(s.get_char(i));
        i = i + 1;
    }
    proof {
        assert(r@ =~= s@);
    }
    r
}

/// Number of leading slashes.
pub open spec fn count_leading(s: Seq<char>) -> int
    decreases s.len(),
{
    if s.len() == 0 {
        0
    } else if s[0] as u32 == 47 {
        1 + count_leading(s.drop_first())
    } else {
        0
    }
}

/// Number of trailing slashes.
pub open spec fn count_trailing(s: Seq<char>) -> int
    decreases s.len(),
{
    if s.len() == 0 {
        0
    } else if s.last() as u32 == 47 {
        1 + count_trailing(s.drop_last())
    } else {
        0
    }
}

/// Index of the first slash, or -1 when there is none.
pub open spec fn first_slash(s: Seq<char>) -> int
    decreases s.len(),
{
    if s.len() == 0 {
        -1
    } else if s[0] as u32 == 47 {
        0
    } else if first_slash(s.drop_first()) == -1 {
        -1
    } else {
        1 + first_slash(s.drop_first())
    }
}

/// The path with leading and trailing slashes removed.
pub open spec fn trimmed(s: Seq<char>) -> Seq<char> {
    if count_leading(s) == s.len() {
        Seq::empty()
    } else {
        s.subrange(count_leading(s), s.len() - count_trailing(s))
    }
}

/// The topmost component of a path and the remainder, if any: the trimmed
/// path up to its first interior slash, and what follows that slash.
pub open spec fn split_path_spec(s: Seq<char>) -> (Seq<char>, Option<Seq<char>>) {
    let t = trimmed(s);
    let i = first_slash(t);
    if i == -1 {
        (t, None)
    } else {
        (t.take(i), Some(t.skip(i + 1)))
    }
}

proof fn lemma_first_slash_at(t: Seq<char>, k: int)
    requires
        0 <= k <= t.len(),
        forall|j: int| 0 <= j < k ==> (t[j] as u32) != 47,
        k < t.len() ==> t[k] as u32 == 47,
    ensures
        k < t.len() ==> first_slash(t) == k,
        k == t.len() ==> first_slash(t) == -1,
    decreases k, t.len(),
{
    if k > 0 {
        assert(t[0] as u32 != 47);
        assert(forall|j: int| 0 <= j < k - 1 ==> (t.drop_first()[j] as u32) != 47);
        lemma_first_slash_at(t.drop_first(), k - 1);
    }
}

proof fn lemma_count_bounds(s: Seq<char>)
    ensures
        0 <= count_leading(s) <= s.len(),
        0 <= count_trailing(s) <= s.len(),
    decreases s.len(),
{
    if s.len() > 0 {
        lemma_count_bounds(s.drop_first());
        lemma_count_bounds(s.drop_last());
    }
}

proof fn lemma_first_slash_bounds(s: Seq<char>)
    ensures
        -1 <= first_slash(s) < s.len(),
    decreases s.len(),
{
    if s.len() > 0 {
        lemma_first_slash_bounds(s.drop_first());
    }
}

proof fn lemma_nonslash_at_lead(s: Seq<char>)
    requires
        count_leading(s) < s.len(),
    ensures
        (s[count_leading(s)] as u32) != 47,
    decreases s.len(),
{
    lemma_count_bounds(s);
    if s.len() > 0 && s[0] as u32 == 47 {
        lemma_nonslash_at_lead(s.drop_first());
        lemma_count_bounds(s.drop_first());
        assert(count_leading(s) == 1 + count_leading(s.drop_first()));
        assert(s.drop_first()[count_leading(s.drop_first())] == s[1 + count_leading(
            s.drop_first(),
        )]);
    }
}

proof fn lemma_trailing_limited(s: Seq<char>, p: int)
    requires
        0 <= p < s.len(),
        (s[p] as u32) != 47,
    ensures
        count_trailing(s) <= s.len() - 1 - p,
    decreases s.len(),
{
    if s.last() as u32 == 47 {
        assert(p < s.len() - 1);
        lemma_trailing_limited(s.drop_last(), p);
    }
}

/// A path's remainder, when there is one, is shorter than the path.
pub proof fn lemma_split_rest_len(s: Seq<char>)
    ensures
        split_path_spec(s).1 matches Some(rp) ==> rp.len() < s.len(),
{
    lemma_count_bounds(s);
    let t = trimmed(s);
    lemma_first_slash_bounds(t);
    if count_leading(s) < s.len() {
        lemma_nonslash_at_lead(s);
        lemma_trailing_limited(s, count_leading(s));
    }
}

/// Split a path into its topmost component and the rest: slashes at either
/// end are trimmed first, then the component runs up to the first interior
/// slash; the rest, when present, is everything after that slash.
pub fn split_path<'a>(path: &'a str) -> (r: (&'a str, Option<&'a str>))
    ensures
        r.0@ == split_path_spec(path@).0,
        (r.1 is Some) == (split_path_spec(path@).1 is Some),
        r.1 is Some ==> r.1->0@ == split_path_spec(path@).1->0,
        r.1 is Some ==> r.1->0@.len() < path@.len(),
{
    let ghost s = path@;
    let n = path.unicode_len();
    let mut start: usize = 0;
    proof {
        assert(s.skip(0) =~= s);
    }
    while start < n && path.get_char(start) as u32 == 47
        invariant
            s == path@,
            0 <= start <= n,
            n == s.len(),
            count_leading(s) == start + count_leading(s.skip(start as int)),
        decreases n - start,
    {
        proof {
            assert(s.skip(start as int)[0] == s[start as int]);
            assert(s.skip(start as int).drop_first() =~= s.skip(start + 1));
        }
        start = start + 1;
    }
    proof {
        if start < n {
            assert(s.skip(start as int)[0] == s[start as int]);
            assert(count_leading(s.skip(start as int)) == 0);
        } else {
            assert(s.skip(start as int) =~= Seq::<char>::empty());
        }
        assert(count_leading(s) == start);
    }
    if start == n {
        // the path is nothing but slashes: the component is empty
        let comp = path.substring_char(n, n);
        proof {
            assert(trimmed(s) =~= Seq::<char>::empty());
            assert(comp@ =~= Seq::<char>::empty());
        }
        return (comp, None);
    }
    let mut end: usize = n;
    proof {
        assert(s.take(n as int) =~= s);
    }
    while end > start && path.get_char(end - 1) as u32 == 47
        invariant
            s == path@,
            start < end <= n,
            n == s.len(),
            count_leading(s) == start,
            start < n,
            s[start as int] as u32 != 47,
            count_trailing(s) == (n - end) + count_trailing(s.take(end as int)),
        decreases end,
    {
        proof {
            assert(s.take(end as int).last() == s[end - 1]);
            assert(s.take(end as int).drop_last() =~= s.take(end - 1));
            assert(end - 1 > start);
        }
        end = end - 1;
    }
    proof {
        assert(end > start);
        assert(s.take(end as int).last() == s[end - 1]);
        assert(s[end - 1] as u32 != 47);
        assert(count_trailing(s.take(end as int)) == 0);
        assert(count_trailing(s) == n - end);
        assert(trimmed(s) =~= s.subrange(start as int, end as int));
    }
    let ghost t = trimmed(s);
    let mut i: usize = start;
    while i < end && path.get_char(i) as u32 != 47
        invariant
            s == path@,
            start <= i <= end <= n,
            n == s.len(),
            t == trimmed(s),
            t =~= s.subrange(start as int, end as int),
            forall|j: int| 0 <= j < i - start ==> (t[j] as u32) != 47,
        decreases end - i,
    {
        i = i + 1;
    }
    proof {
        if i < end {
            assert(t[i - start] == s[i as int]);
            lemma_first_slash_at(t, i - start);
        } else {
            lemma_first_slash_at(t, t.len() as int);
        }
    }
    let comp = path.substring_char(start, i);
    proof {
        if i < end {
            assert(comp@ =~= t.take(i - start));
        } else {
            assert(comp@ =~= t);
        }
    }
    if i < end {
        let rest = path.substring_char(i + 1, end);
        proof {
            assert(rest@ =~= t.skip(i + 1 - start));
        }
        (comp, Some(rest))
    } else {
        (comp, None)
    }
}

/// A character accepted in a long name: letters, digits, any code point
/// from `U+0080` through `U+FFFF`, and the FAT long-name punctuation set.
pub open spec fn allowed_lfn_char(c: char) -> bool {
    ||| 65 <= c as u32 <= 90
    ||| 97 <= c as u32 <= 122
    ||| 48 <= c as u32 <= 57
    ||| 128 <= c as u32 <= 65535
    ||| c as u32 == 36
    ||| c as u32 == 37
    ||| c as u32 == 39
    ||| c as u32 == 45
    ||| c as u32 == 95
    ||| c as u32 == 64
    ||| c as u32 == 126
    ||| c as u32 == 96
    ||| c as u32 == 33
    ||| c as u32 == 40
    ||| c as u32 == 41
    ||| c as u32 == 123
    ||| c as u32 == 125
    ||| c as u32 == 46
    ||| c as u32 == 32
    ||| c as u32 == 43
    ||| c as u32 == 44
    ||| c as u32 == 59
    ||| c as u32 == 61
    ||| c as u32 == 91
    ||| c as u32 == 93
}

/// A valid long name: not empty, at most 255 code points, every character
/// allowed.
pub open spec fn valid_long_name(s: Seq<char>) -> bool {
    &&& 1 <= s.len() <= 255
    &&& forall|i: int| 0 <= i < s.len() ==> allowed_lfn_char(#[trigger] s[i])
}

/// Check a long name: empty names, names over 255 code points and names
/// with a character outside the allowed set are rejected.
pub fn validate_long_name(name: &Vec<char>) -> (r: Result<(), Error>)
    ensures
        (r is Ok) == valid_long_name(name@),
        r is Err ==> r->Err_0 == Error::InvalidInput,
{
    if name.len() == 0 {
        return Err(Error::InvalidInput);
    }
    if name.len() > 255 {
        return Err(Error::InvalidInput);
    }
    let mut i: usize = 0;
    while i < name.len()
        invariant
            i <= name@.len(),
            forall|j: int| 0 <= j < i ==> allowed_lfn_char(#[trigger] name@[j]),
        decreases name@.len() - i,
    {
        let x = name[i] as u32;
        let ok: bool = (x >= 65 && x <= 90) || (x >= 97 && x <= 122) || (x >= 48 && x <= 57) || (x
            >= 128 && x <= 65535) || x == 36 || x == 37 || x == 39 || x == 45 || x == 95 || x == 64
            || x == 126 || x == 96 || x == 33 || x == 40 || x == 41 || x == 123 || x == 125 || x
            == 46 || x == 32 || x == 43 || x == 44 || x == 59 || x == 61 || x == 91 || x == 93;
        if !ok {
            return Err(Error::InvalidInput);
        }
        i = i + 1;
    }
    Ok(())
}

} // verus!
