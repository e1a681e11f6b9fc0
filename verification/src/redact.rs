//! Redaction: overwriting every path-pattern match with spaces.
//!
//! The pipeline extracts the printable runs of a buffer, finds the path
//! matches inside each run's text, translates them back to absolute buffer
//! positions, and overwrites the matched bytes of a fresh copy of the
//! buffer with spaces. The copy keeps the buffer's length, and every byte
//! outside a matched span is left exactly as it was.

use crate::extract::{
    extract_runs, is_emitted_run, is_run_byte, lemma_runs_from_sound, lemma_runs_respect_run_bytes,
    ranges_view, runs,
};
use crate::matcher::{
    find_path_matches, lemma_matches_from_sound, lemma_no_suffix_no_match, lemma_suffix_covered,
    path_matches, suffix_at, DOT, EXT_FIRST, EXT_SECOND, SPACE,
};
use vstd::prelude::*;
use vstd::slice::slice_to_vec;

verus! {

/// Position `i` of the buffer falls inside one of the first `jlim`
/// translated matches of the run `(s, e)`.
pub open spec fn covered_by_run_before(
    data: Seq<u8>,
    e1: u8,
    e2: u8,
    s: int,
    e: int,
    i: int,
    jlim: int,
) -> bool {
    exists|j: int|
        0 <= j < jlim && j < path_matches(data.subrange(s, e), e1, e2).len() && s + (
        #[trigger] path_matches(data.subrange(s, e), e1, e2)[j]).0 <= i && i < s + path_matches(
            data.subrange(s, e),
            e1,
            e2,
        )[j].1
}

/// Position `i` of the buffer falls inside some translated match of the
/// run `(s, e)`.
pub open spec fn covered_by_run(data: Seq<u8>, e1: u8, e2: u8, s: int, e: int, i: int) -> bool {
    covered_by_run_before(
        data,
        e1,
        e2,
        s,
        e,
        i,
        path_matches(data.subrange(s, e), e1, e2).len() as int,
    )
}

/// Position `i` of the buffer falls inside a translated match of one of
/// the first `klim` extracted runs.
pub open spec fn redacted_before(
    data: Seq<u8>,
    min_len: int,
    e1: u8,
    e2: u8,
    i: int,
    klim: int,
) -> bool {
    exists|k: int|
        0 <= k < klim && k < runs(data, min_len).len() && covered_by_run(
            data,
            e1,
            e2,
            (#[trigger] runs(data, min_len)[k]).0,
            runs(data, min_len)[k].1,
            i,
        )
}

/// Position `i` of the buffer is redacted: it falls inside a translated
/// path match of some extracted run.
pub open spec fn redacted_at(data: Seq<u8>, min_len: int, e1: u8, e2: u8, i: int) -> bool {
    redacted_before(data, min_len, e1, e2, i, runs(data, min_len).len() as int)
}

/// The sanitized buffer: every redacted position becomes a space, every
/// other byte is unchanged, and the length is kept.
pub open spec fn sanitize_spec(data: Seq<u8>, min_len: int, e1: u8, e2: u8) -> Seq<u8> {
    Seq::new(
        data.len(),
        |i: int|
            if redacted_at(data, min_len, e1, e2, i) {
                SPACE
            } else {
                data[i]
            },
    )
}

proof fn lemma_covered_step(data: Seq<u8>, e1: u8, e2: u8, s: int, e: int, i: int, jlim: int)
    requires
        0 <= jlim,
    ensures
        covered_by_run_before(data, e1, e2, s, e, i, jlim + 1) <==> (covered_by_run_before(
            data,
            e1,
            e2,
            s,
            e,
            i,
            jlim,
        ) || (jlim < path_matches(data.subrange(s, e), e1, e2).len() && s + path_matches(
            data.subrange(s, e),
            e1,
            e2,
        )[jlim].0 <= i < s + path_matches(data.subrange(s, e), e1, e2)[jlim].1)),
{
    let ms = path_matches(data.subrange(s, e), e1, e2);
    if covered_by_run_before(data, e1, e2, s, e, i, jlim + 1) {
        let j = choose|j: int|
            0 <= j < jlim + 1 && j < ms.len() && s + (#[trigger] ms[j]).0 <= i && i < s + ms[j].1;
        if j < jlim {
            assert(covered_by_run_before(data, e1, e2, s, e, i, jlim));
        }
    }
    if covered_by_run_before(data, e1, e2, s, e, i, jlim) {
        let j = choose|j: int|
            0 <= j < jlim && j < ms.len() && s + (#[trigger] ms[j]).0 <= i && i < s + ms[j].1;
        assert(0 <= j < jlim + 1 && j < ms.len() && s + ms[j].0 <= i && i < s + ms[j].1);
    }
}

proof fn lemma_redacted_step(data: Seq<u8>, min_len: int, e1: u8, e2: u8, i: int, klim: int)
    requires
        0 <= klim < runs(data, min_len).len(),
    ensures
        redacted_before(data, min_len, e1, e2, i, klim + 1) <==> (redacted_before(
            data,
            min_len,
            e1,
            e2,
            i,
            klim,
        ) || covered_by_run(
            data,
            e1,
            e2,
            runs(data, min_len)[klim].0,
            runs(data, min_len)[klim].1,
            i,
        )),
{
    let rs = runs(data, min_len);
    if redacted_before(data, min_len, e1, e2, i, klim + 1) {
        let k = choose|k: int|
            0 <= k < klim + 1 && k < rs.len() && covered_by_run(
                data,
                e1,
                e2,
                (#[trigger] rs[k]).0,
                rs[k].1,
                i,
            );
        if k < klim {
            assert(redacted_before(data, min_len, e1, e2, i, klim));
        }
    }
    if redacted_before(data, min_len, e1, e2, i, klim) {
        let k = choose|k: int|
            0 <= k < klim && k < rs.len() && covered_by_run(
                data,
                e1,
                e2,
                (#[trigger] rs[k]).0,
                rs[k].1,
                i,
            );
        assert(0 <= k < klim + 1 && k < rs.len() && covered_by_run(
            data,
            e1,
            e2,
            rs[k].0,
            rs[k].1,
            i,
        ));
    }
}

/// Copies `data`, overwrites every match of the path pattern under the
/// extension token `ext1 ext2` inside every extracted string with spaces,
/// and returns the copy. The result has the length of `data`, redacted
/// positions hold a space, and every other byte is unchanged.
pub fn sanitize_with(data: &[u8], min_len: usize, ext1: u8, ext2: u8) -> (out: Vec<u8>)
    ensures
        out@ == sanitize_spec(data@, min_len as int, ext1, ext2),
        out@.len() == data@.len(),
{
    let ghost d = data@;
    let ghost m = min_len as int;
    let mut out: Vec<u8> = slice_to_vec(data);
    let rs = extract_runs(data, min_len);
    proof {
        lemma_runs_from_sound(d, m, 0);
    }
    let mut k: usize = 0;
    while k < rs.len()
        invariant
            d == data@,
            m == min_len as int,
            ranges_view(rs@) == runs(d, m),
            forall|k2: int|
                #![trigger runs(d, m)[k2]]
                0 <= k2 < runs(d, m).len() ==> {
                    let q = runs(d, m)[k2];
                    is_emitted_run(d, m, q.0, q.1)
                },
            k <= rs.len(),
            out@.len() == d.len(),
            forall|i: int|
                0 <= i < d.len() ==> out@[i] == (if redacted_before(d, m, ext1, ext2, i, k as int) {
                    SPACE
                } else {
                    d[i]
                }),
        decreases rs.len() - k,
    {
        let (s, e) = rs[k];
        assert(runs(d, m)[k as int] == (s as int, e as int));
        assert(is_emitted_run(d, m, s as int, e as int));
        let text = &data[s..e];
        let ghost ts = d.subrange(s as int, e as int);
        let ms = find_path_matches(text, ext1, ext2);
        proof {
            lemma_matches_from_sound(ts, ext1, ext2, 0);
        }
        let ghost msv = path_matches(ts, ext1, ext2);
        let mut j: usize = 0;
        while j < ms.len()
            invariant
                d == data@,
                m == min_len as int,
                ranges_view(rs@) == runs(d, m),
                k < runs(d, m).len(),
                runs(d, m)[k as int] == (s as int, e as int),
                is_emitted_run(d, m, s as int, e as int),
                ts == d.subrange(s as int, e as int),
                msv == path_matches(ts, ext1, ext2),
                ranges_view(ms@) == msv,
                forall|j2: int|
                    #![trigger msv[j2]]
                    0 <= j2 < msv.len() ==> 0 <= msv[j2].0 < msv[j2].1 <= ts.len(),
                j <= ms.len(),
                out@.len() == d.len(),
                forall|i: int|
                    0 <= i < d.len() ==> out@[i] == (if redacted_before(d, m, ext1, ext2, i, k as int)
                        || covered_by_run_before(
                        d,
                        ext1,
                        ext2,
                        s as int,
                        e as int,
                        i,
                        j as int,
                    ) {
                        SPACE
                    } else {
                        d[i]
                    }),
            decreases ms.len() - j,
        {
            let (ma, mb) = ms[j];
            assert(msv[j as int] == (ma as int, mb as int));
            let a = s + ma;
            let b = s + mb;
            assert(b <= e);
            if b <= out.len() {
                let mut i = a;
                while i < b
                    invariant
                        d == data@,
                        m == min_len as int,
                        a <= i <= b,
                        b <= d.len(),
                        out@.len() == d.len(),
                        forall|i2: int|
                            0 <= i2 < d.len() ==> out@[i2] == (if redacted_before(
                                d,
                                m,
                                ext1,
                                ext2,
                                i2,
                                k as int,
                            ) || covered_by_run_before(
                                d,
                                ext1,
                                ext2,
                                s as int,
                                e as int,
                                i2,
                                j as int,
                            ) || (a <= i2 < i) {
                                SPACE
                            } else {
                                d[i2]
                            }),
                    decreases b - i,
                {
                    out[i] = SPACE;
                    i = i + 1;
                }
            }
            proof {
                assert forall|i2: int| 0 <= i2 < d.len() implies out@[i2] == (if redacted_before(
                    d,
                    m,
                    ext1,
                    ext2,
                    i2,
                    k as int,
                ) || covered_by_run_before(
                    d,
                    ext1,
                    ext2,
                    s as int,
                    e as int,
                    i2,
                    j as int + 1,
                ) {
                    SPACE
                } else {
                    d[i2]
                }) by {
                    lemma_covered_step(d, ext1, ext2, s as int, e as int, i2, j as int);
                }
            }
            j = j + 1;
        }
        proof {
            assert forall|i2: int| 0 <= i2 < d.len() implies out@[i2] == (if redacted_before(
                d,
                m,
                ext1,
                ext2,
                i2,
                k as int + 1,
            ) {
                SPACE
            } else {
                d[i2]
            }) by {
                lemma_redacted_step(d, m, ext1, ext2, i2, k as int);
            }
        }
        k = k + 1;
    }
    proof {
        assert(out@ =~= sanitize_spec(d, m, ext1, ext2));
    }
    out
}

/// A redacted position always lies inside an extracted string, on a
/// qualifying byte of the input.
pub proof fn lemma_redacted_within_string(data: Seq<u8>, min_len: int, e1: u8, e2: u8, i: int)
    requires
        redacted_at(data, min_len, e1, e2, i),
    ensures
        0 <= i < data.len(),
        is_run_byte(data[i]),
{
    lemma_runs_from_sound(data, min_len, 0);
    let rs = runs(data, min_len);
    let k = choose|k: int|
        0 <= k < rs.len() && k < rs.len() && covered_by_run(
            data,
            e1,
            e2,
            (#[trigger] rs[k]).0,
            rs[k].1,
            i,
        );
    let s = rs[k].0;
    let e = rs[k].1;
    assert(is_emitted_run(data, min_len, s, e));
    let ms = path_matches(data.subrange(s, e), e1, e2);
    let j = choose|j: int|
        0 <= j < ms.len() && s + (#[trigger] ms[j]).0 <= i && i < s + ms[j].1;
    lemma_matches_from_sound(data.subrange(s, e), e1, e2, 0);
    assert(0 <= ms[j].0 && ms[j].1 <= e - s);
    assert(s <= i < e);
}

/// A disqualifying byte is never redacted: a path-like string that an
/// intervening non-printable byte splits into two extracted strings is
/// never wiped as one match, since the byte between the two pieces is
/// left exactly as it was.
pub proof fn lemma_nonprintable_never_redacted(data: Seq<u8>, min_len: int, e1: u8, e2: u8, i: int)
    requires
        0 <= i < data.len(),
        !is_run_byte(data[i]),
    ensures
        !redacted_at(data, min_len, e1, e2, i),
        sanitize_spec(data, min_len, e1, e2)[i] == data[i],
{
    if redacted_at(data, min_len, e1, e2, i) {
        lemma_redacted_within_string(data, min_len, e1, e2, i);
    }
}

/// Bytes outside every matched span are byte-for-byte identical between
/// the input and the sanitized output.
pub proof fn lemma_nonmatched_bytes_preserved(data: Seq<u8>, min_len: int, e1: u8, e2: u8, i: int)
    requires
        0 <= i < data.len(),
        !redacted_at(data, min_len, e1, e2, i),
    ensures
        sanitize_spec(data, min_len, e1, e2)[i] == data[i],
{
}

/// Sanitizing is idempotent whenever neither extension letter is the
/// space character: a second pass over an already sanitized buffer
/// changes nothing, because every extension suffix of the input lost at
/// least its dot to a space, and spaces cannot take part in a new suffix.
pub proof fn lemma_sanitize_idempotent(data: Seq<u8>, min_len: int, e1: u8, e2: u8)
    requires
        e1 != SPACE,
        e2 != SPACE,
    ensures
        sanitize_spec(sanitize_spec(data, min_len, e1, e2), min_len, e1, e2) == sanitize_spec(
            data,
            min_len,
            e1,
            e2,
        ),
{
    let d = data;
    let d2 = sanitize_spec(d, min_len, e1, e2);
    assert(d2.len() == d.len());
    assert forall|i: int| 0 <= i < d.len() implies is_run_byte(d2[i]) == is_run_byte(d[i]) by {
        if redacted_at(d, min_len, e1, e2, i) {
            lemma_redacted_within_string(d, min_len, e1, e2, i);
            assert(d2[i] == SPACE);
        } else {
            assert(d2[i] == d[i]);
        }
    }
    lemma_runs_respect_run_bytes(d, d2, min_len, 0);
    let rs = runs(d, min_len);
    assert(runs(d2, min_len) == rs);
    lemma_runs_from_sound(d, min_len, 0);
    assert forall|k: int|
        0 <= k < rs.len() implies path_matches(
        d2.subrange((#[trigger] rs[k]).0, rs[k].1),
        e1,
        e2,
    ) == Seq::<(int, int)>::empty() by {
        let s = rs[k].0;
        let e = rs[k].1;
        assert(is_emitted_run(d, min_len, s, e));
        let t = d.subrange(s, e);
        let t2 = d2.subrange(s, e);
        assert forall|q: int| !suffix_at(t2, e1, e2, q) by {
            if suffix_at(t2, e1, e2, q) {
                assert(t2[q] == d2[s + q] && t2[q + 1] == d2[s + q + 1] && t2[q + 2] == d2[s + q
                    + 2]);
                assert(d2[s + q] == DOT);
                assert(!redacted_at(d, min_len, e1, e2, s + q));
                assert(d[s + q] == DOT);
                assert(d[s + q + 1] == e1 && d[s + q + 2] == e2) by {
                    if redacted_at(d, min_len, e1, e2, s + q + 1) {
                        assert(d2[s + q + 1] == SPACE);
                    }
                    if redacted_at(d, min_len, e1, e2, s + q + 2) {
                        assert(d2[s + q + 2] == SPACE);
                    }
                }
                assert(suffix_at(t, e1, e2, q));
                lemma_suffix_covered(t, e1, e2, 0, q);
                let j = choose|j: int|
                    0 <= j < path_matches(t, e1, e2).len() && (#[trigger] path_matches(
                        t,
                        e1,
                        e2,
                    )[j]).0 <= q && q < path_matches(t, e1, e2)[j].1;
                assert(covered_by_run(d, e1, e2, s, e, s + q));
                assert(redacted_at(d, min_len, e1, e2, s + q));
                assert(d2[s + q] == SPACE);
            }
        }
        lemma_no_suffix_no_match(t2, e1, e2, 0);
    }
    assert forall|i: int| !redacted_at(d2, min_len, e1, e2, i) by {
        if redacted_at(d2, min_len, e1, e2, i) {
            let rs2 = runs(d2, min_len);
            let k = choose|k: int|
                0 <= k < rs2.len() && covered_by_run(
                    d2,
                    e1,
                    e2,
                    (#[trigger] rs2[k]).0,
                    rs2[k].1,
                    i,
                );
            let ms2 = path_matches(d2.subrange(rs2[k].0, rs2[k].1), e1, e2);
            let j = choose|j: int|
                0 <= j < ms2.len() && rs2[k].0 + (#[trigger] ms2[j]).0 <= i && i < rs2[k].0
                    + ms2[j].1;
            assert(ms2.len() == 0);
        }
    }
    assert(sanitize_spec(d2, min_len, e1, e2) =~= d2);
}

/// Sanitizing under the default extension token is idempotent: running
/// the redaction step on its own output changes nothing.
pub proof fn lemma_sanitize_default_idempotent(data: Seq<u8>, min_len: int)
    ensures
        sanitize_spec(
            sanitize_spec(data, min_len, EXT_FIRST, EXT_SECOND),
            min_len,
            EXT_FIRST,
            EXT_SECOND,
        ) == sanitize_spec(data, min_len, EXT_FIRST, EXT_SECOND),
{
    lemma_sanitize_idempotent(data, min_len, EXT_FIRST, EXT_SECOND);
}

/// Copies `data` and redacts every path match under the default extension
/// token.
pub fn sanitize(data: &[u8], min_len: usize) -> (out: Vec<u8>)
    ensures
        out@ == sanitize_spec(data@, min_len as int, EXT_FIRST, EXT_SECOND),
        out@.len() == data@.len(),
{
    sanitize_with(data, min_len, EXT_FIRST, EXT_SECOND)
}

} // verus!
