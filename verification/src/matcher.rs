//! Path-pattern matching on extracted text.
//!
//! A match is the shortest run of path characters (no whitespace, no colon)
//! that is immediately followed by a literal dot and a fixed two-letter
//! extension token. The prefix may be empty, so a bare `.xx` suffix matches
//! on its own. Matching is leftmost-first and matches never overlap: after a
//! match is taken, the search resumes at its end.

use vstd::prelude::*;

verus! {

/// The dot that introduces the extension suffix.
pub const DOT: u8 = 0x2e;

/// The space byte written over redacted spans.
pub const SPACE: u8 = 0x20;

/// First letter of the default extension token (`r`).
pub const EXT_FIRST: u8 = 0x72;

/// Second letter of the default extension token (`s`).
pub const EXT_SECOND: u8 = 0x73;

/// A byte that may appear in the path prefix of a match: anything that is
/// neither ASCII whitespace (space, tab, line feed, vertical tab, form
/// feed, carriage return) nor a colon.
pub open spec fn is_path_byte(b: u8) -> bool {
    b != 0x20 && b != 0x09 && b != 0x0a && b != 0x0b && b != 0x0c && b != 0x0d && b != 0x3a
}

/// The extension suffix `.` `e1` `e2` starts at position `q` of `t`.
pub open spec fn suffix_at(t: Seq<u8>, e1: u8, e2: u8, q: int) -> bool {
    &&& 0 <= q
    &&& q + 3 <= t.len()
    &&& t[q] == DOT
    &&& t[q + 1] == e1
    &&& t[q + 2] == e2
}

/// The position of the first extension suffix at or after `c`, if any.
pub open spec fn first_suffix(t: Seq<u8>, e1: u8, e2: u8, c: int) -> Option<int>
    decreases t.len() - c when 0 <= c
{
    if c + 3 > t.len() {
        None
    } else if suffix_at(t, e1, e2, c) {
        Some(c)
    } else {
        first_suffix(t, e1, e2, c + 1)
    }
}

/// The start of the match whose suffix begins at `q`: the smallest position
/// `p` in `[c, q]` such that the bytes of `[p, q)` are all path bytes.
pub open spec fn match_start(t: Seq<u8>, c: int, q: int) -> int
    decreases q - c when c <= q
{
    if q <= c {
        c
    } else if is_path_byte(t[q - 1]) {
        match_start(t, c, q - 1)
    } else {
        q
    }
}

/// All pattern matches of `t` at or after cursor `c`, as half-open ranges,
/// leftmost first. Each match runs from the longest stretch of path bytes
/// before its suffix (non-greedy: the suffix is the first one available)
/// through the end of the suffix.
pub open spec fn matches_from(t: Seq<u8>, e1: u8, e2: u8, c: int) -> Seq<(int, int)>
    decreases t.len() - c when 0 <= c
    via matches_from_decreases
{
    match first_suffix(t, e1, e2, c) {
        None => Seq::empty(),
        Some(q) => seq![(match_start(t, c, q), q + 3)] + matches_from(t, e1, e2, q + 3),
    }
}

/// All pattern matches of `t` under the extension token `e1 e2`.
pub open spec fn path_matches(t: Seq<u8>, e1: u8, e2: u8) -> Seq<(int, int)> {
    matches_from(t, e1, e2, 0)
}

/// The first suffix at or after `c` lies in `[c, t.len() - 3]`.
pub proof fn lemma_first_suffix_in_range(t: Seq<u8>, e1: u8, e2: u8, c: int)
    requires
        0 <= c,
        first_suffix(t, e1, e2, c) is Some,
    ensures
        c <= first_suffix(t, e1, e2, c)->Some_0,
        suffix_at(t, e1, e2, first_suffix(t, e1, e2, c)->Some_0),
    decreases t.len() - c,
{
    if c + 3 > t.len() {
    } else if suffix_at(t, e1, e2, c) {
    } else {
        lemma_first_suffix_in_range(t, e1, e2, c + 1);
    }
}

#[via_fn]
proof fn matches_from_decreases(t: Seq<u8>, e1: u8, e2: u8, c: int) {
    match first_suffix(t, e1, e2, c) {
        None => {},
        Some(q) => {
            lemma_first_suffix_in_range(t, e1, e2, c);
        },
    }
}

/// When a suffix sits at `q`, the first suffix at or after `c <= q` exists
/// and lies at or before `q`.
pub proof fn lemma_first_suffix_first(t: Seq<u8>, e1: u8, e2: u8, c: int, q: int)
    requires
        0 <= c <= q,
        suffix_at(t, e1, e2, q),
    ensures
        first_suffix(t, e1, e2, c) is Some,
        first_suffix(t, e1, e2, c)->Some_0 <= q,
    decreases q - c,
{
    if !suffix_at(t, e1, e2, c) && c < q {
        lemma_first_suffix_first(t, e1, e2, c + 1, q);
    }
}

/// When no position carries a suffix, there is no first suffix.
proof fn lemma_first_suffix_none(t: Seq<u8>, e1: u8, e2: u8, c: int)
    requires
        0 <= c,
        forall|q: int| !suffix_at(t, e1, e2, q),
    ensures
        first_suffix(t, e1, e2, c) is None,
    decreases t.len() - c,
{
    if c + 3 <= t.len() {
        lemma_first_suffix_none(t, e1, e2, c + 1);
    }
}

/// Text without any extension suffix has no matches at all.
pub proof fn lemma_no_suffix_no_match(t: Seq<u8>, e1: u8, e2: u8, c: int)
    requires
        0 <= c,
        forall|q: int| !suffix_at(t, e1, e2, q),
    ensures
        matches_from(t, e1, e2, c) == Seq::<(int, int)>::empty(),
{
    lemma_first_suffix_none(t, e1, e2, c);
}

/// The start of a match stays between the cursor and its suffix, the bytes
/// between the start and the suffix are path bytes, and the start is
/// maximal to the left.
pub proof fn lemma_match_start_props(t: Seq<u8>, c: int, q: int)
    requires
        c <= q,
    ensures
        c <= match_start(t, c, q) <= q,
        forall|j: int| match_start(t, c, q) <= j < q ==> is_path_byte(t[j]),
        match_start(t, c, q) == c || !is_path_byte(t[match_start(t, c, q) - 1]),
    decreases q - c,
{
    if q <= c {
    } else if is_path_byte(t[q - 1]) {
        lemma_match_start_props(t, c, q - 1);
    }
}

/// Every match lies between the cursor and the end of the text, and
/// matches are ordered and disjoint.
pub proof fn lemma_matches_from_sound(t: Seq<u8>, e1: u8, e2: u8, c: int)
    requires
        0 <= c,
    ensures
        forall|k: int|
            #![trigger matches_from(t, e1, e2, c)[k]]
            0 <= k < matches_from(t, e1, e2, c).len() ==> {
                let mm = matches_from(t, e1, e2, c)[k];
                c <= mm.0 < mm.1 <= t.len()
            },
        forall|k1: int, k2: int|
            0 <= k1 < k2 < matches_from(t, e1, e2, c).len()
                ==> matches_from(t, e1, e2, c)[k1].1 <= matches_from(t, e1, e2, c)[k2].0,
    decreases t.len() - c,
{
    let whole = matches_from(t, e1, e2, c);
    match first_suffix(t, e1, e2, c) {
        None => {
            assert(whole.len() == 0);
        },
        Some(q) => {
            lemma_first_suffix_in_range(t, e1, e2, c);
            lemma_match_start_props(t, c, q);
            let p = match_start(t, c, q);
            lemma_matches_from_sound(t, e1, e2, q + 3);
            let rest = matches_from(t, e1, e2, q + 3);
            assert(whole == seq![(p, q + 3)] + rest);
            assert forall|k: int|
                0 <= k < whole.len() implies {
                    let mm = #[trigger] whole[k];
                    c <= mm.0 < mm.1 <= t.len()
                } by {
                if k == 0 {
                    assert(whole[k] == (p, q + 3));
                } else {
                    assert(whole[k] == rest[k - 1]);
                }
            }
            assert forall|k1: int, k2: int|
                0 <= k1 < k2 < whole.len() implies whole[k1].1 <= whole[k2].0 by {
                assert(whole[k2] == rest[k2 - 1]);
                if k1 == 0 {
                    assert(whole[k1] == (p, q + 3));
                } else {
                    assert(whole[k1] == rest[k1 - 1]);
                }
            }
        },
    }
}

/// Every position that carries a suffix at or after the cursor lies inside
/// some match: redaction wipes at least the dot of every suffix.
pub proof fn lemma_suffix_covered(t: Seq<u8>, e1: u8, e2: u8, c: int, q: int)
    requires
        0 <= c <= q,
        suffix_at(t, e1, e2, q),
    ensures
        exists|k: int|
            0 <= k < matches_from(t, e1, e2, c).len()
                && (#[trigger] matches_from(t, e1, e2, c)[k]).0 <= q
                && q < matches_from(t, e1, e2, c)[k].1,
    decreases t.len() - c,
{
    let whole = matches_from(t, e1, e2, c);
    lemma_first_suffix_first(t, e1, e2, c, q);
    let q0 = first_suffix(t, e1, e2, c)->Some_0;
    lemma_first_suffix_in_range(t, e1, e2, c);
    lemma_match_start_props(t, c, q0);
    let p = match_start(t, c, q0);
    let rest = matches_from(t, e1, e2, q0 + 3);
    assert(whole == seq![(p, q0 + 3)] + rest);
    if q < q0 + 3 {
        assert(whole[0] == (p, q0 + 3));
        assert(whole[0].0 <= q < whole[0].1);
    } else {
        lemma_suffix_covered(t, e1, e2, q0 + 3, q);
        let k = choose|k: int|
            0 <= k < rest.len() && (#[trigger] rest[k]).0 <= q && q < rest[k].1;
        assert(whole[k + 1] == rest[k]);
        assert(whole[k + 1].0 <= q < whole[k + 1].1);
    }
}

/// Executable test for `is_path_byte`.
pub fn path_byte(b: u8) -> (r: bool)
    ensures
        r == is_path_byte(b),
{
    !(b == 0x20 || b == 0x09 || b == 0x0a || b == 0x0b || b == 0x0c || b == 0x0d || b == 0x3a)
}

/// Finds every match of the path pattern in `text` under the extension
/// token `e1 e2`, as `(start, end)` byte ranges, leftmost first.
pub fn find_path_matches(text: &[u8], ext1: u8, ext2: u8) -> (r: Vec<(usize, usize)>)
    ensures
        crate::extract::ranges_view(r@) == path_matches(text@, ext1, ext2),
{
    let ghost t = text@;
    let n = text.len();
    let mut r: Vec<(usize, usize)> = Vec::new();
    proof {
        assert(crate::extract::ranges_view(r@) + matches_from(t, ext1, ext2, 0) =~= path_matches(
            t,
            ext1,
            ext2,
        ));
    }
    if n < 3 {
        proof {
            assert(first_suffix(t, ext1, ext2, 0) is None);
            assert(crate::extract::ranges_view(r@) =~= path_matches(t, ext1, ext2));
        }
        return r;
    }
    let mut c: usize = 0;
    while c <= n - 3
        invariant
            t == text@,
            n == t.len(),
            3 <= n,
            c <= n,
            crate::extract::ranges_view(r@) + matches_from(t, ext1, ext2, c as int)
                == path_matches(t, ext1, ext2),
        decreases n - c,
    {
        let mut q = c;
        let mut found = false;
        while !found && q <= n - 3
            invariant
                t == text@,
                n == t.len(),
                3 <= n,
                c <= q <= n,
                !found ==> first_suffix(t, ext1, ext2, c as int) == first_suffix(
                    t,
                    ext1,
                    ext2,
                    q as int,
                ),
                found ==> q + 3 <= n && suffix_at(t, ext1, ext2, q as int) && first_suffix(
                    t,
                    ext1,
                    ext2,
                    c as int,
                ) == Some(q as int),
            decreases n - q, (if found { 0int } else { 1int }),
        {
            if text[q] == DOT && text[q + 1] == ext1 && text[q + 2] == ext2 {
                found = true;
                assert(suffix_at(t, ext1, ext2, q as int));
            } else {
                assert(!suffix_at(t, ext1, ext2, q as int));
                assert(first_suffix(t, ext1, ext2, q as int) == first_suffix(
                    t,
                    ext1,
                    ext2,
                    q as int + 1,
                ));
                q = q + 1;
            }
        }
        if !found {
            proof {
                assert(first_suffix(t, ext1, ext2, q as int) is None);
                assert(matches_from(t, ext1, ext2, c as int) =~= Seq::<(int, int)>::empty());
                assert(crate::extract::ranges_view(r@) + matches_from(t, ext1, ext2, n as int)
                    =~= path_matches(t, ext1, ext2));
            }
            c = n;
        } else {
            let mut p = q;
            while p > c && path_byte(text[p - 1])
                invariant
                    t == text@,
                    n == t.len(),
                    c <= p <= q <= n,
                    match_start(t, c as int, q as int) == match_start(t, c as int, p as int),
                decreases p,
            {
                p = p - 1;
            }
            proof {
                assert(match_start(t, c as int, p as int) == p as int);
                assert(matches_from(t, ext1, ext2, c as int) == seq![(p as int, q as int + 3)]
                    + matches_from(t, ext1, ext2, q as int + 3));
            }
            let ghost old_r = r@;
            r.push((p, q + 3));
            proof {
                assert(crate::extract::ranges_view(r@) =~= crate::extract::ranges_view(old_r)
                    + seq![(p as int, q as int + 3)]);
                assert(crate::extract::ranges_view(r@) + matches_from(t, ext1, ext2, q as int + 3)
                    =~= path_matches(t, ext1, ext2));
            }
            c = q + 3;
        }
    }
    proof {
        assert(first_suffix(t, ext1, ext2, c as int) is None);
        assert(matches_from(t, ext1, ext2, c as int) =~= Seq::<(int, int)>::empty());
        assert(crate::extract::ranges_view(r@) =~= path_matches(t, ext1, ext2));
    }
    r
}

} // verus!
