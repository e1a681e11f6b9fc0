//! String extraction: maximal runs of printable bytes in a buffer.
//!
//! A run is a maximal stretch of printable-ASCII-or-space bytes. A run is
//! emitted only when it is closed by a disqualifying byte inside the buffer
//! (a run that reaches the end of the buffer is dropped) and its length is
//! at least the caller's threshold.

use vstd::prelude::*;

verus! {

/// A byte that may appear inside an extracted string: a printable ASCII
/// graphic character (`0x21..=0x7e`) or the space character (`0x20`).
pub open spec fn is_run_byte(b: u8) -> bool {
    0x20 <= b && b <= 0x7e
}

/// The index of the first disqualifying byte at or after `c`, or the buffer
/// length when the bytes from `c` onward are all qualifying.
pub open spec fn run_end(data: Seq<u8>, c: int) -> int
    decreases data.len() - c when 0 <= c <= data.len()
{
    if c >= data.len() {
        data.len() as int
    } else if is_run_byte(data[c]) {
        run_end(data, c + 1)
    } else {
        c
    }
}

/// `run_end` stays within `[c, data.len()]` and the bytes it skips are all
/// qualifying; the byte at the returned index, if any, is disqualifying.
pub proof fn lemma_run_end_bounds(data: Seq<u8>, c: int)
    requires
        0 <= c <= data.len(),
    ensures
        c <= run_end(data, c) <= data.len(),
        forall|j: int| c <= j < run_end(data, c) ==> is_run_byte(data[j]),
        run_end(data, c) < data.len() ==> !is_run_byte(data[run_end(data, c)]),
    decreases data.len() - c,
{
    if c >= data.len() {
    } else if is_run_byte(data[c]) {
        lemma_run_end_bounds(data, c + 1);
    }
}

/// The emitted runs of `data` whose start lies at or after cursor `c`, as
/// half-open ranges `(start, end)`, in increasing order. A run is emitted
/// when it is closed by a disqualifying byte (so `end < data.len()`) and
/// spans at least `min_len` bytes.
pub open spec fn runs_from(data: Seq<u8>, min_len: int, c: int) -> Seq<(int, int)>
    decreases data.len() - c when 0 <= c <= data.len()
    via runs_from_decreases
{
    if c >= data.len() {
        Seq::empty()
    } else if !is_run_byte(data[c]) {
        runs_from(data, min_len, c + 1)
    } else {
        let e = run_end(data, c);
        if e == data.len() {
            Seq::empty()
        } else if e - c >= min_len {
            seq![(c, e)] + runs_from(data, min_len, e + 1)
        } else {
            runs_from(data, min_len, e + 1)
        }
    }
}

#[via_fn]
proof fn runs_from_decreases(data: Seq<u8>, min_len: int, c: int) {
    if 0 <= c && c < data.len() && is_run_byte(data[c]) {
        lemma_run_end_bounds(data, c);
    }
}

/// All emitted runs of `data` under threshold `min_len`.
pub open spec fn runs(data: Seq<u8>, min_len: int) -> Seq<(int, int)> {
    runs_from(data, min_len, 0)
}

/// The decoded text of the byte range `[s, e)` of `data`: one character per
/// byte, with the same code point.
pub open spec fn run_text(data: Seq<u8>, s: int, e: int) -> Seq<char> {
    data.subrange(s, e).map_values(|b: u8| b as char)
}

/// The view of an extracted range list as mathematical pairs.
pub open spec fn ranges_view(r: Seq<(usize, usize)>) -> Seq<(int, int)> {
    r.map_values(|p: (usize, usize)| (p.0 as int, p.1 as int))
}

/// `(s, e)` is a run that the extractor emits for `data` under threshold
/// `min_len`: a maximal stretch of qualifying bytes, closed by a
/// disqualifying byte inside the buffer, at least `min_len` bytes long.
pub open spec fn is_emitted_run(data: Seq<u8>, min_len: int, s: int, e: int) -> bool {
    &&& 0 <= s < e < data.len()
    &&& e - s >= min_len
    &&& forall|j: int| s <= j < e ==> is_run_byte(data[j])
    &&& !is_run_byte(data[e])
    &&& (s == 0 || !is_run_byte(data[s - 1]))
}

/// When the bytes of `[s, e)` are qualifying and `e` sits at the buffer end
/// or on a disqualifying byte, the run that opens at `s` closes at `e`.
pub proof fn lemma_run_end_eq(data: Seq<u8>, s: int, e: int)
    requires
        0 <= s <= e <= data.len(),
        forall|j: int| s <= j < e ==> is_run_byte(data[j]),
        e == data.len() || !is_run_byte(data[e]),
    ensures
        run_end(data, s) == e,
    decreases e - s,
{
    if s < e {
        lemma_run_end_eq(data, s + 1, e);
    }
}

/// Every entry of `runs_from` is an emitted run, entries start at or after
/// the cursor, and entries are ordered and disjoint.
pub proof fn lemma_runs_from_sound(data: Seq<u8>, min_len: int, c: int)
    requires
        0 <= c <= data.len(),
        c == 0 || !is_run_byte(data[c - 1]),
    ensures
        forall|k: int|
            #![trigger runs_from(data, min_len, c)[k]]
            0 <= k < runs_from(data, min_len, c).len() ==> {
                let r = runs_from(data, min_len, c)[k];
                is_emitted_run(data, min_len, r.0, r.1) && c <= r.0
            },
        forall|k1: int, k2: int|
            0 <= k1 < k2 < runs_from(data, min_len, c).len()
                ==> runs_from(data, min_len, c)[k1].1 < runs_from(data, min_len, c)[k2].0,
    decreases data.len() - c,
{
    let whole = runs_from(data, min_len, c);
    if c >= data.len() {
        assert(whole.len() == 0);
    } else if !is_run_byte(data[c]) {
        lemma_runs_from_sound(data, min_len, c + 1);
        assert(whole == runs_from(data, min_len, c + 1));
    } else {
        lemma_run_end_bounds(data, c);
        let e = run_end(data, c);
        assert(e > c) by {
            if e == c {
                assert(!is_run_byte(data[c]));
            }
        }
        if e == data.len() {
            assert(whole.len() == 0);
        } else {
            lemma_runs_from_sound(data, min_len, e + 1);
            let rest = runs_from(data, min_len, e + 1);
            if e - c >= min_len {
                assert(whole == seq![(c, e)] + rest);
                assert(is_emitted_run(data, min_len, c, e));
                assert forall|k: int|
                    0 <= k < whole.len() implies {
                        let r = #[trigger] whole[k];
                        is_emitted_run(data, min_len, r.0, r.1) && c <= r.0
                    } by {
                    if k == 0 {
                        assert(whole[k] == (c, e));
                    } else {
                        assert(whole[k] == rest[k - 1]);
                    }
                }
                assert forall|k1: int, k2: int|
                    0 <= k1 < k2 < whole.len() implies whole[k1].1 < whole[k2].0 by {
                    assert(whole[k2] == rest[k2 - 1]);
                    if k1 == 0 {
                        assert(whole[k1] == (c, e));
                    } else {
                        assert(whole[k1] == rest[k1 - 1]);
                    }
                }
            } else {
                assert(whole == rest);
            }
        }
    }
}

/// Every emitted run that starts at or after the cursor appears in
/// `runs_from`.
pub proof fn lemma_runs_from_complete(data: Seq<u8>, min_len: int, c: int, s: int, e: int)
    requires
        0 <= c <= data.len(),
        c == 0 || !is_run_byte(data[c - 1]),
        is_emitted_run(data, min_len, s, e),
        c <= s,
    ensures
        runs_from(data, min_len, c).contains((s, e)),
    decreases data.len() - c,
{
    if !is_run_byte(data[c]) {
        lemma_runs_from_complete(data, min_len, c + 1, s, e);
        assert(runs_from(data, min_len, c) == runs_from(data, min_len, c + 1));
    } else {
        lemma_run_end_bounds(data, c);
        let e0 = run_end(data, c);
        if s == c {
            lemma_run_end_eq(data, c, e);
            assert(runs_from(data, min_len, c)[0] == (s, e));
        } else {
            assert(!is_run_byte(data[s - 1]));
            assert(s - 1 >= e0) by {
                if s - 1 < e0 {
                    assert(is_run_byte(data[s - 1]));
                }
            }
            assert(e0 < data.len()) by {
                if e0 == data.len() {
                    assert(s < data.len());
                }
            }
            lemma_runs_from_complete(data, min_len, e0 + 1, s, e);
            if e0 - c >= min_len {
                let rest = runs_from(data, min_len, e0 + 1);
                let k = choose|k: int| 0 <= k < rest.len() && rest[k] == (s, e);
                assert(runs_from(data, min_len, c)[k + 1] == (s, e));
            }
        }
    }
}

/// A maximal stretch of qualifying bytes closed by a disqualifying byte is
/// extracted exactly when its length reaches the threshold.
pub proof fn lemma_extraction_threshold(data: Seq<u8>, min_len: int, s: int, e: int)
    requires
        0 <= s < e < data.len(),
        forall|j: int| s <= j < e ==> is_run_byte(data[j]),
        !is_run_byte(data[e]),
        s == 0 || !is_run_byte(data[s - 1]),
    ensures
        runs(data, min_len).contains((s, e)) <==> e - s >= min_len,
{
    if e - s >= min_len {
        lemma_runs_from_complete(data, min_len, 0, s, e);
    }
    if runs(data, min_len).contains((s, e)) {
        lemma_runs_from_sound(data, min_len, 0);
        let k = choose|k: int|
            0 <= k < runs(data, min_len).len() && runs(data, min_len)[k] == (s, e);
        assert(is_emitted_run(data, min_len, runs(data, min_len)[k].0, runs(data, min_len)[k].1));
    }
}

/// A qualifying stretch that reaches the end of the buffer is never
/// extracted: every extracted run ends strictly before it starts.
pub proof fn lemma_trailing_run_dropped(data: Seq<u8>, min_len: int, s: int)
    requires
        0 <= s < data.len(),
        forall|j: int| s <= j < data.len() ==> is_run_byte(data[j]),
    ensures
        forall|k: int|
            #![trigger runs(data, min_len)[k]]
            0 <= k < runs(data, min_len).len() ==> runs(data, min_len)[k].1 < s,
{
    lemma_runs_from_sound(data, min_len, 0);
    assert forall|k: int|
        0 <= k < runs(data, min_len).len() implies (#[trigger] runs(data, min_len)[k]).1 < s by {
        let r = runs(data, min_len)[k];
        assert(is_emitted_run(data, min_len, r.0, r.1));
        if r.1 >= s {
            assert(is_run_byte(data[r.1]));
        }
    }
}

/// `run_end` depends only on which positions hold qualifying bytes.
proof fn lemma_run_end_respects(d1: Seq<u8>, d2: Seq<u8>, c: int)
    requires
        d1.len() == d2.len(),
        0 <= c <= d1.len(),
        forall|i: int| 0 <= i < d1.len() ==> is_run_byte(d1[i]) == is_run_byte(d2[i]),
    ensures
        run_end(d1, c) == run_end(d2, c),
    decreases d1.len() - c,
{
    if c < d1.len() && is_run_byte(d1[c]) {
        lemma_run_end_respects(d1, d2, c + 1);
    }
}

/// The extracted runs depend only on which positions hold qualifying
/// bytes, not on the bytes themselves.
pub proof fn lemma_runs_respect_run_bytes(d1: Seq<u8>, d2: Seq<u8>, min_len: int, c: int)
    requires
        d1.len() == d2.len(),
        0 <= c <= d1.len(),
        forall|i: int| 0 <= i < d1.len() ==> is_run_byte(d1[i]) == is_run_byte(d2[i]),
    ensures
        runs_from(d1, min_len, c) == runs_from(d2, min_len, c),
    decreases d1.len() - c,
{
    if c >= d1.len() {
    } else if !is_run_byte(d1[c]) {
        lemma_runs_respect_run_bytes(d1, d2, min_len, c + 1);
    } else {
        lemma_run_end_respects(d1, d2, c);
        lemma_run_end_bounds(d1, c);
        let e = run_end(d1, c);
        assert(e > c) by {
            if e == c {
                assert(!is_run_byte(d1[c]));
            }
        }
        if e < d1.len() {
            lemma_runs_respect_run_bytes(d1, d2, min_len, e + 1);
        }
    }
}

/// Executable test for `is_run_byte`.
pub fn run_byte(b: u8) -> (r: bool)
    ensures
        r == is_run_byte(b),
{
    0x20 <= b && b <= 0x7e
}

/// Scans `data` and returns every emitted run as a `(start, end)` range:
/// each maximal stretch of printable-or-space bytes that is closed by a
/// disqualifying byte inside the buffer and is at least `min_len` bytes
/// long. A qualifying stretch that reaches the end of the buffer is never
/// returned.
pub fn extract_runs(data: &[u8], min_len: usize) -> (r: Vec<(usize, usize)>)
    ensures
        ranges_view(r@) == runs(data@, min_len as int),
{
    let ghost d = data@;
    let ghost m = min_len as int;
    let mut r: Vec<(usize, usize)> = Vec::new();
    let mut start: Option<usize> = None;
    let mut i: usize = 0;
    assert(ranges_view(r@) + runs_from(d, m, 0) =~= runs(d, m));
    while i < data.len()
        invariant
            d == data@,
            m == min_len as int,
            i <= data.len(),
            match start {
                None => {
                    &&& ranges_view(r@) + runs_from(d, m, i as int) == runs(d, m)
                    &&& (i == 0 || !is_run_byte(d[i as int - 1]))
                },
                Some(s) => {
                    &&& ranges_view(r@) + runs_from(d, m, s as int) == runs(d, m)
                    &&& s < i
                    &&& (s == 0 || !is_run_byte(d[s as int - 1]))
                    &&& (forall|j: int| s <= j < i ==> is_run_byte(d[j]))
                },
            },
        decreases data.len() - i,
    {
        let b = data[i];
        if run_byte(b) {
            if start.is_none() {
                start = Some(i);
            }
        } else {
            if let Some(s) = start {
                proof {
                    lemma_run_end_eq(d, s as int, i as int);
                }
                if i - s >= min_len {
                    let ghost old_r = r@;
                    r.push((s, i));
                    proof {
                        assert(ranges_view(r@) =~= ranges_view(old_r) + seq![(s as int, i as int)]);
                        assert(ranges_view(r@) + runs_from(d, m, i as int + 1) =~= runs(d, m));
                    }
                } else {
                    assert(runs_from(d, m, s as int) == runs_from(d, m, i as int + 1));
                }
                start = None;
            }
        }
        i = i + 1;
    }
    proof {
        match start {
            None => {
                assert(runs_from(d, m, i as int) =~= Seq::<(int, int)>::empty());
            },
            Some(s) => {
                lemma_run_end_eq(d, s as int, d.len() as int);
            },
        }
        assert(ranges_view(r@) =~= ranges_view(r@) + Seq::<(int, int)>::empty());
    }
    r
}

/// Relies on `core::str::from_utf8`: every sequence of bytes below `0x80`
/// is valid UTF-8 and decodes to one character per byte, with the same
/// code point.
#[verifier::external_body]
fn ascii_to_string(bytes: &[u8]) -> (r: String)
    requires
        forall|j: int| 0 <= j < bytes@.len() ==> bytes@[j] < 0x80,
    ensures
        r@ == bytes@.map_values(|b: u8| b as char),
{
    match core::str::from_utf8(bytes) {
        Ok(s) => s.to_string(),
        Err(_) => String::new(),
    }
}

/// Extracts the printable strings of `data` whose length is at least
/// `min_len`, each paired with the offset where it begins. The entries
/// correspond one to one, in order, to the emitted runs of `data`:
/// decoding a run can never fail, since every byte of a run is printable
/// ASCII or a space.
pub fn extract_strings(data: &[u8], min_len: usize) -> (r: Vec<(usize, String)>)
    ensures
        r@.len() == runs(data@, min_len as int).len(),
        forall|k: int| 0 <= k < r@.len() ==> {
            &&& r@[k].0 == runs(data@, min_len as int)[k].0
            &&& r@[k].1@ == run_text(
                data@,
                runs(data@, min_len as int)[k].0,
                runs(data@, min_len as int)[k].1,
            )
        },
{
    let ghost d = data@;
    let ghost m = min_len as int;
    let rs = extract_runs(data, min_len);
    proof {
        lemma_runs_from_sound(d, m, 0);
    }
    let mut r: Vec<(usize, String)> = Vec::new();
    let mut k: usize = 0;
    while k < rs.len()
        invariant
            d == data@,
            m == min_len as int,
            ranges_view(rs@) == runs(d, m),
            forall|k2: int|
                #![trigger runs(d, m)[k2]]
                0 <= k2 < runs(d, m).len() ==> {
                    let q = runs(d, m)[k2];
                    is_emitted_run(d, m, q.0, q.1)
                },
            k <= rs.len(),
            r@.len() == k,
            forall|k2: int| 0 <= k2 < k ==> {
                &&& r@[k2].0 == runs(d, m)[k2].0
                &&& r@[k2].1@ == run_text(d, runs(d, m)[k2].0, runs(d, m)[k2].1)
            },
        decreases rs.len() - k,
    {
        let (s, e) = rs[k];
        assert(runs(d, m)[k as int] == (s as int, e as int));
        assert(is_emitted_run(d, m, s as int, e as int));
        let piece = &data[s..e];
        let text = ascii_to_string(piece);
        assert(text@ =~= run_text(d, s as int, e as int));
        r.push((s, text));
        k = k + 1;
    }
    r
}

} // verus!
