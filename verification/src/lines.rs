//! Splitting newly read bytes into complete lines.
//!
//! A line is complete only when its terminator byte has been read; a trailing
//! fragment without a terminator is not consumed, so the same bytes are seen
//! again on the next read once the rest arrives.

use vstd::prelude::*;

verus! {

/// The line terminator byte, `\n`.
pub const NL: u8 = 10;

/// Index of the first line terminator of `s`, or `s.len()` if `s` holds none.
pub open spec fn first_nl(s: Seq<u8>) -> int
    decreases s.len(),
{
    if s.len() == 0 {
        0
    } else if s[0] == NL {
        0
    } else {
        1 + first_nl(s.skip(1))
    }
}

/// The complete (terminator-ended) lines of `s`, in order, each without its
/// terminator.
pub open spec fn lines_of(s: Seq<u8>) -> Seq<Seq<u8>>
    decreases s.len(),
{
    let k = first_nl(s);
    if 0 <= k && k < s.len() {
        seq![s.take(k)] + lines_of(s.skip(k + 1))
    } else {
        Seq::<Seq<u8>>::empty()
    }
}

/// How many leading bytes of `s` belong to complete lines: the position just
/// after the last line terminator, or 0 if there is none.
pub open spec fn consumed_len(s: Seq<u8>) -> int
    decreases s.len(),
{
    let k = first_nl(s);
    if 0 <= k && k < s.len() {
        k + 1 + consumed_len(s.skip(k + 1))
    } else {
        0
    }
}

/// `first_nl` is a position in `[0, s.len()]`; it points at the first
/// terminator when one exists, and at `s.len()` exactly when none does.
pub proof fn lemma_first_nl_bounds(s: Seq<u8>)
    ensures
        0 <= first_nl(s) <= s.len(),
        first_nl(s) < s.len() ==> s[first_nl(s)] == NL,
        forall|i: int| 0 <= i < first_nl(s) ==> s[i] != NL,
    decreases s.len(),
{
    if s.len() == 0 {
    } else if s[0] == NL {
    } else {
        lemma_first_nl_bounds(s.skip(1));
        assert forall|i: int| 0 <= i < first_nl(s) implies s[i] != NL by {
            if i > 0 {
                assert(s.skip(1)[i - 1] == s[i]);
            }
        }
    }
}

/// The position of the first terminator is determined by any witness: a
/// terminator at `j` with none before it pins `first_nl(s)` to `j`.
pub proof fn lemma_first_nl_at(s: Seq<u8>, j: int)
    requires
        0 <= j < s.len(),
        s[j] == NL,
        forall|i: int| 0 <= i < j ==> s[i] != NL,
    ensures
        first_nl(s) == j,
{
    lemma_first_nl_bounds(s);
    if first_nl(s) < j {
        assert(s[first_nl(s)] != NL);
    }
    if first_nl(s) > j {
        assert(s[j] != NL);
    }
}

/// A sequence without any terminator has no complete line and no consumed
/// prefix.
pub proof fn lemma_no_nl(s: Seq<u8>)
    requires
        forall|i: int| 0 <= i < s.len() ==> s[i] != NL,
    ensures
        first_nl(s) == s.len(),
        lines_of(s) == Seq::<Seq<u8>>::empty(),
        consumed_len(s) == 0,
{
    lemma_first_nl_bounds(s);
    if first_nl(s) < s.len() {
        assert(s[first_nl(s)] != NL);
    }
}

/// Unfolds `lines_of` and `consumed_len` at a known first terminator: the
/// first line is the bytes before `j`, and the rest come from after `j`.
pub proof fn lemma_split_at(s: Seq<u8>, j: int)
    requires
        0 <= j < s.len(),
        s[j] == NL,
        forall|i: int| 0 <= i < j ==> s[i] != NL,
    ensures
        lines_of(s) == seq![s.take(j)] + lines_of(s.skip(j + 1)),
        consumed_len(s) == j + 1 + consumed_len(s.skip(j + 1)),
{
    lemma_first_nl_at(s, j);
}

/// Appending bytes does not disturb an existing first terminator.
pub proof fn lemma_first_nl_append(s: Seq<u8>, t: Seq<u8>)
    requires
        first_nl(s) < s.len(),
    ensures
        first_nl(s + t) == first_nl(s),
{
    lemma_first_nl_bounds(s);
    let k = first_nl(s);
    assert((s + t)[k] == NL);
    assert forall|i: int| 0 <= i < k implies (s + t)[i] != NL by {
        assert((s + t)[i] == s[i]);
    }
    lemma_first_nl_at(s + t, k);
}

/// The consumed prefix ends exactly at a terminator, and the unconsumed tail
/// holds none: a partial trailing line is never consumed.
pub proof fn lemma_consumed_shape(s: Seq<u8>)
    ensures
        0 <= consumed_len(s) <= s.len(),
        forall|i: int| consumed_len(s) <= i < s.len() ==> s[i] != NL,
        consumed_len(s) > 0 ==> s[consumed_len(s) - 1] == NL,
    decreases s.len(),
{
    lemma_first_nl_bounds(s);
    let k = first_nl(s);
    if 0 <= k && k < s.len() {
        let rest = s.skip(k + 1);
        lemma_consumed_shape(rest);
        assert forall|i: int| consumed_len(s) <= i < s.len() implies s[i] != NL by {
            assert(rest[i - (k + 1)] == s[i]);
        }
        if consumed_len(rest) > 0 {
            assert(s[consumed_len(s) - 1] == rest[consumed_len(rest) - 1]);
        }
    }
}

/// No yielded line contains a terminator byte.
pub proof fn lemma_lines_have_no_nl(s: Seq<u8>)
    ensures
        forall|j: int, i: int|
            0 <= j < lines_of(s).len() && 0 <= i < lines_of(s)[j].len()
                ==> lines_of(s)[j][i] != NL,
    decreases s.len(),
{
    lemma_first_nl_bounds(s);
    let k = first_nl(s);
    if 0 <= k && k < s.len() {
        lemma_lines_have_no_nl(s.skip(k + 1));
        assert forall|j: int, i: int|
            0 <= j < lines_of(s).len() && 0 <= i < lines_of(s)[j].len()
                implies lines_of(s)[j][i] != NL by {
            if j == 0 {
                assert(lines_of(s)[0] == s.take(k));
                assert(s.take(k)[i] == s[i]);
            } else {
                assert(lines_of(s)[j] == lines_of(s.skip(k + 1))[j - 1]);
            }
        }
    }
}

/// No loss and no duplication across drains: draining `s` yields its complete
/// lines and consumes exactly its terminated prefix; after `t` is appended, a
/// drain of the unconsumed tail followed by `t` yields precisely the missing
/// lines, so the two drains together yield the lines of `s + t`, each exactly
/// once and in order.
pub proof fn lemma_no_loss(s: Seq<u8>, t: Seq<u8>)
    ensures
        lines_of(s + t) == lines_of(s) + lines_of(s.skip(consumed_len(s)) + t),
        consumed_len(s + t) == consumed_len(s) + consumed_len(
            s.skip(consumed_len(s)) + t,
        ),
    decreases s.len(),
{
    lemma_first_nl_bounds(s);
    let k = first_nl(s);
    if k == s.len() {
        assert(s.skip(0) + t =~= s + t);
    } else {
        let s2 = s.skip(k + 1);
        lemma_first_nl_append(s, t);
        assert((s + t).take(k) =~= s.take(k));
        assert((s + t).skip(k + 1) =~= s2 + t);
        lemma_no_loss(s2, t);
        lemma_consumed_shape(s2);
        assert(s.skip(consumed_len(s)) =~= s2.skip(consumed_len(s2)));
        assert(lines_of(s + t) =~= lines_of(s) + lines_of(
            s.skip(consumed_len(s)) + t,
        ));
    }
}

/// Partial-line safety, completion half: `s` ends in an unterminated
/// fragment, which a drain of `s` leaves unconsumed (`lemma_consumed_shape`).
/// Once appended bytes `t` bring a terminator, the next drain — which re-reads
/// the fragment followed by `t` — yields as its first line exactly that
/// fragment extended by the bytes of `t` before its first terminator: the
/// once-partial line comes out whole, exactly once.
pub proof fn lemma_partial_line_completion(s: Seq<u8>, t: Seq<u8>)
    requires
        consumed_len(s) < s.len(),
        first_nl(t) < t.len(),
    ensures
        lines_of(s.skip(consumed_len(s)) + t).len() > 0,
        lines_of(s.skip(consumed_len(s)) + t)[0] == s.skip(consumed_len(s))
            + t.take(first_nl(t)),
        lines_of(s) + lines_of(s.skip(consumed_len(s)) + t) == lines_of(s + t),
{
    lemma_consumed_shape(s);
    lemma_first_nl_bounds(t);
    let u = s.skip(consumed_len(s));
    let k = u.len() + first_nl(t);
    assert((u + t)[k] == t[first_nl(t)]);
    assert forall|i: int| 0 <= i < k implies (u + t)[i] != NL by {
        if i < u.len() {
            assert(u[i] == s[consumed_len(s) + i]);
        } else {
            assert((u + t)[i] == t[i - u.len()]);
        }
    }
    lemma_first_nl_at(u + t, k);
    assert((u + t).take(k) =~= u + t.take(first_nl(t)));
    lemma_no_loss(s, t);
}

/// The bytes of all appended chunks, in order.
pub open spec fn concat_of(chunks: Seq<Seq<u8>>) -> Seq<u8>
    decreases chunks.len(),
{
    if chunks.len() == 0 {
        Seq::<u8>::empty()
    } else {
        concat_of(chunks.drop_last()) + chunks.last()
    }
}

/// The unconsumed tail left after draining the chunks one at a time: each
/// drain sees the previous tail followed by the newly appended chunk, and
/// leaves its unterminated remainder for the next.
pub open spec fn tail_after(chunks: Seq<Seq<u8>>) -> Seq<u8>
    decreases chunks.len(),
{
    if chunks.len() == 0 {
        Seq::<u8>::empty()
    } else {
        let s = tail_after(chunks.drop_last()) + chunks.last();
        s.skip(consumed_len(s))
    }
}

/// All lines yielded across the successive drains, concatenated in order.
pub open spec fn yielded_lines(chunks: Seq<Seq<u8>>) -> Seq<Seq<u8>>
    decreases chunks.len(),
{
    if chunks.len() == 0 {
        Seq::<Seq<u8>>::empty()
    } else {
        yielded_lines(chunks.drop_last()) + lines_of(
            tail_after(chunks.drop_last()) + chunks.last(),
        )
    }
}

/// No loss across arbitrarily many drains: however the appended bytes are
/// split into chunks — including splits in the middle of a line — the lines
/// yielded across all the drains are exactly the complete lines of the whole
/// appended byte sequence, in order, each exactly once; and what remains
/// unconsumed is exactly the unterminated tail of the whole.
pub proof fn lemma_no_loss_many(chunks: Seq<Seq<u8>>)
    ensures
        yielded_lines(chunks) == lines_of(concat_of(chunks)),
        tail_after(chunks) == concat_of(chunks).skip(consumed_len(concat_of(chunks))),
    decreases chunks.len(),
{
    if chunks.len() == 0 {
        lemma_no_nl(concat_of(chunks));
        assert(tail_after(chunks) =~= concat_of(chunks).skip(
            consumed_len(concat_of(chunks)),
        ));
    } else {
        let c = chunks.drop_last();
        let x = chunks.last();
        let s = concat_of(c);
        lemma_no_loss_many(c);
        lemma_no_loss(s, x);
        lemma_consumed_shape(s);
        lemma_consumed_shape(s + x);
        lemma_consumed_shape(tail_after(c) + x);
        assert(tail_after(c) + x =~= (s + x).skip(consumed_len(s)));
        let u = tail_after(c) + x;
        assert(tail_after(chunks) == u.skip(consumed_len(u)));
        assert(u.skip(consumed_len(u)) =~= (s + x).skip(
            consumed_len(s) + consumed_len(u),
        ));
        assert(concat_of(chunks) == s + x);
    }
}

/// The views of a sequence of byte vectors.
pub open spec fn views_of(ls: Seq<Vec<u8>>) -> Seq<Seq<u8>> {
    ls.map_values(|l: Vec<u8>| l@)
}

/// Splits `bytes` into its complete lines. Returns the lines, each without
/// its terminator, and the number of leading bytes they cover; a trailing
/// fragment without a terminator is left out of both.
pub fn split_lines(bytes: &Vec<u8>) -> (r: (Vec<Vec<u8>>, usize))
    ensures
        views_of(r.0@) == lines_of(bytes@),
        r.1 == consumed_len(bytes@),
{
    let n = bytes.len();
    let mut out: Vec<Vec<u8>> = Vec::new();
    let mut cur: Vec<u8> = Vec::new();
    let mut consumed: usize = 0;
    let mut i: usize = 0;
    proof {
        assert(bytes@.skip(0) =~= bytes@);
        assert(views_of(out@) =~= Seq::<Seq<u8>>::empty());
    }
    while i < n
        invariant
            n == bytes@.len(),
            0 <= consumed <= i <= n,
            cur@ == bytes@.subrange(consumed as int, i as int),
            forall|j: int| consumed <= j < i ==> bytes@[j] != NL,
            lines_of(bytes@) == views_of(out@) + lines_of(
                bytes@.skip(consumed as int),
            ),
            consumed_len(bytes@) == consumed + consumed_len(
                bytes@.skip(consumed as int),
            ),
        decreases n - i,
    {
        let b = bytes[i];
        if b == NL {
            proof {
                let rest = bytes@.skip(consumed as int);
                let j = i - consumed;
                assert(rest[j] == bytes@[i as int]);
                assert forall|m: int| 0 <= m < j implies rest[m] != NL by {
                    assert(rest[m] == bytes@[consumed + m]);
                }
                lemma_split_at(rest, j);
                assert(rest.take(j) =~= cur@);
                assert(rest.skip(j + 1) =~= bytes@.skip(i + 1));
                assert(views_of(out@.push(cur)) =~= views_of(out@).push(cur@));
            }
            out.push(cur);
            cur = Vec::new();
            consumed = i + 1;
            proof {
                assert(views_of(out@) + lines_of(bytes@.skip(consumed as int))
                    =~= lines_of(bytes@));
            }
        } else {
            cur.push(b);
            proof {
                assert(cur@ =~= bytes@.subrange(consumed as int, i + 1));
            }
        }
        i = i + 1;
    }
    proof {
        let rest = bytes@.skip(consumed as int);
        assert forall|m: int| 0 <= m < rest.len() implies rest[m] != NL by {
            assert(rest[m] == bytes@[consumed + m]);
        }
        lemma_no_nl(rest);
        assert(views_of(out@) =~= lines_of(bytes@));
    }
    (out, consumed)
}

} // verus!
