//! Detection of the status payload that marks the start of a match.
//!
//! The watched log's relevant line carries, at a fixed byte window of the
//! line, the literal payload
//! `Matchmaking Status: {"state":"StartingGame","idle":{"timestamp":"","state":""},`.
//! A line is a match if and only if that exact payload occupies that exact
//! window; the comparison is byte-for-byte, case-sensitive, with no
//! normalization. A line too short to reach the window is never a match.

use vstd::prelude::*;

verus! {

/// First byte of the payload window within a line.
pub const WINDOW_START: usize = 150;

/// One past the last byte of the payload window within a line.
pub const WINDOW_END: usize = 229;

/// The payload bytes that declare a started match, as they appear in the log.
pub open spec fn payload() -> Seq<u8> {
    seq![77u8, 97u8, 116u8, 99u8, 104u8, 109u8, 97u8, 107u8, 105u8, 110u8,
    103u8, 32u8, 83u8, 116u8, 97u8, 116u8, 117u8, 115u8, 58u8, 32u8, 123u8,
    34u8, 115u8, 116u8, 97u8, 116u8, 101u8, 34u8, 58u8, 34u8, 83u8, 116u8, 97u8,
    114u8, 116u8, 105u8, 110u8, 103u8, 71u8, 97u8, 109u8, 101u8, 34u8, 44u8,
    34u8, 105u8, 100u8, 108u8, 101u8, 34u8, 58u8, 123u8, 34u8, 116u8, 105u8,
    109u8, 101u8, 115u8, 116u8, 97u8, 109u8, 112u8, 34u8, 58u8, 34u8, 34u8,
    44u8, 34u8, 115u8, 116u8, 97u8, 116u8, 101u8, 34u8, 58u8, 34u8, 34u8, 125u8,
    44u8]
}

/// A line matches exactly when it reaches past the window and the window
/// holds the payload byte-for-byte.
pub open spec fn line_matches(s: Seq<u8>) -> bool {
    s.len() >= WINDOW_END && s.subrange(WINDOW_START as int, WINDOW_END as int)
        == payload()
}

/// The payload as a runtime value, for byte-wise comparison.
fn payload_vec() -> (r: Vec<u8>)
    ensures
        r@ == payload(),
{
    let r: Vec<u8> = vec![77u8, 97u8, 116u8, 99u8, 104u8, 109u8, 97u8, 107u8, 105u8, 110u8,
    103u8, 32u8, 83u8, 116u8, 97u8, 116u8, 117u8, 115u8, 58u8, 32u8, 123u8,
    34u8, 115u8, 116u8, 97u8, 116u8, 101u8, 34u8, 58u8, 34u8, 83u8, 116u8, 97u8,
    114u8, 116u8, 105u8, 110u8, 103u8, 71u8, 97u8, 109u8, 101u8, 34u8, 44u8,
    34u8, 105u8, 100u8, 108u8, 101u8, 34u8, 58u8, 123u8, 34u8, 116u8, 105u8,
    109u8, 101u8, 115u8, 116u8, 97u8, 109u8, 112u8, 34u8, 58u8, 34u8, 34u8,
    44u8, 34u8, 115u8, 116u8, 97u8, 116u8, 101u8, 34u8, 58u8, 34u8, 34u8, 125u8,
    44u8];
    proof {
        assert(r@ =~= payload());
    }
    r
}

/// Reports whether `line` is a match-start line: true if and only if the
/// bytes of the fixed window equal the payload exactly. A short or differing
/// line yields false, never a failure.
pub fn is_match(line: &Vec<u8>) -> (r: bool)
    ensures
        r == line_matches(line@),
{
    if line.len() < WINDOW_END {
        return false;
    }
    let p = payload_vec();
    let mut i: usize = 0;
    while i < WINDOW_END - WINDOW_START
        invariant
            line@.len() >= WINDOW_END,
            p@ == payload(),
            0 <= i <= WINDOW_END - WINDOW_START,
            forall|j: int| 0 <= j < i ==> line@[WINDOW_START + j] == payload()[j],
        decreases WINDOW_END - WINDOW_START - i,
    {
        if line[WINDOW_START + i] != p[i] {
            proof {
                assert(line@.subrange(WINDOW_START as int, WINDOW_END as int)[i as int]
                    != payload()[i as int]);
            }
            return false;
        }
        i = i + 1;
    }
    proof {
        assert(line@.subrange(WINDOW_START as int, WINDOW_END as int) =~= payload());
    }
    true
}

/// The subsequence of matching lines, in order: one planned notification
/// dispatch per matching line.
pub open spec fn matching_of(ls: Seq<Seq<u8>>) -> Seq<Seq<u8>>
    decreases ls.len(),
{
    if ls.len() == 0 {
        Seq::<Seq<u8>>::empty()
    } else if line_matches(ls.last()) {
        matching_of(ls.drop_last()).push(ls.last())
    } else {
        matching_of(ls.drop_last())
    }
}

/// How many of the lines match.
pub open spec fn match_count(ls: Seq<Seq<u8>>) -> int
    decreases ls.len(),
{
    if ls.len() == 0 {
        0
    } else if line_matches(ls.last()) {
        match_count(ls.drop_last()) + 1
    } else {
        match_count(ls.drop_last())
    }
}

/// Builds the notification plan for a batch of drained lines: the matching
/// lines, in order, one entry per dispatch to perform.
pub fn plan_notifications(lines: &Vec<Vec<u8>>) -> (plan: Vec<Vec<u8>>)
    ensures
        crate::lines::views_of(plan@) == matching_of(crate::lines::views_of(lines@)),
{
    let mut plan: Vec<Vec<u8>> = Vec::new();
    let n = lines.len();
    let mut i: usize = 0;
    proof {
        assert(crate::lines::views_of(plan@) =~= matching_of(
            crate::lines::views_of(lines@).take(0),
        ));
    }
    while i < n
        invariant
            n == lines@.len(),
            0 <= i <= n,
            crate::lines::views_of(plan@) == matching_of(
                crate::lines::views_of(lines@).take(i as int),
            ),
        decreases n - i,
    {
        let ghost all = crate::lines::views_of(lines@);
        proof {
            assert(all.take(i + 1).drop_last() =~= all.take(i as int));
            assert(all.take(i + 1).last() == all[i as int]);
        }
        if is_match(&lines[i]) {
            let l = lines[i].clone();
            proof {
                assert(l@ == lines@[i as int]@);
            }
            plan.push(l);
            proof {
                assert(crate::lines::views_of(plan@) =~= matching_of(
                    all.take(i as int),
                ).push(all[i as int]));
            }
        }
        i = i + 1;
    }
    proof {
        assert(crate::lines::views_of(lines@).take(n as int) =~= crate::lines::views_of(
            lines@,
        ));
    }
    plan
}

/// Notification cardinality: the plan holds exactly one dispatch per matching
/// line — its length is the number of matching lines — and a run of
/// consecutive matching lines yields exactly one dispatch each.
pub proof fn lemma_notification_cardinality(ls: Seq<Seq<u8>>)
    ensures
        matching_of(ls).len() == match_count(ls),
        0 <= match_count(ls) <= ls.len(),
        (forall|i: int| 0 <= i < ls.len() ==> line_matches(ls[i])) ==> matching_of(
            ls,
        ) == ls,
    decreases ls.len(),
{
    if ls.len() == 0 {
        assert(matching_of(ls) =~= ls);
    } else {
        lemma_notification_cardinality(ls.drop_last());
        if forall|i: int| 0 <= i < ls.len() ==> line_matches(ls[i]) {
            assert(forall|i: int|
                0 <= i < ls.drop_last().len() ==> line_matches(
                    #[trigger] ls.drop_last()[i],
                ));
            assert(line_matches(ls.last()));
            assert(matching_of(ls) =~= ls);
        }
    }
}

} // verus!

