//! The scan that locates the game's Steam library folder.
//!
//! Steam's library index is a text file of key/value lines: each relevant
//! line, once surrounding whitespace and all quote characters are removed,
//! holds a key, a double-tab delimiter, and a value. The scan remembers the
//! value of the latest `path` key and stops as soon as it sees the game's
//! application id as a key: the remembered path is then the library folder
//! holding the game. Reading the index file from disk stays with the caller;
//! this module works on the lines as byte values.

use vstd::prelude::*;

use crate::lines::views_of;

verus! {

/// The tab byte; two in a row separate a key from its value.
pub const TAB: u8 = 9;

/// The double-quote byte, stripped before a line is interpreted.
pub const QUOTE: u8 = 34;

/// ASCII whitespace, as trimmed from the ends of a line.
pub open spec fn is_ws(b: u8) -> bool {
    b == 32 || b == 9 || b == 13 || b == 10
}

/// `s` without its leading whitespace.
pub open spec fn trim_front(s: Seq<u8>) -> Seq<u8>
    decreases s.len(),
{
    if s.len() == 0 {
        s
    } else if is_ws(s[0]) {
        trim_front(s.skip(1))
    } else {
        s
    }
}

/// `s` without its trailing whitespace.
pub open spec fn trim_back(s: Seq<u8>) -> Seq<u8>
    decreases s.len(),
{
    if s.len() == 0 {
        s
    } else if is_ws(s.last()) {
        trim_back(s.drop_last())
    } else {
        s
    }
}

/// `s` without any quote bytes.
pub open spec fn unquote(s: Seq<u8>) -> Seq<u8>
    decreases s.len(),
{
    if s.len() == 0 {
        s
    } else if s[0] == QUOTE {
        unquote(s.skip(1))
    } else {
        seq![s[0]] + unquote(s.skip(1))
    }
}

/// A line as the scan interprets it: trimmed at both ends, quotes removed.
pub open spec fn clean_of(s: Seq<u8>) -> Seq<u8> {
    unquote(trim_back(trim_front(s)))
}

/// Index of the first double-tab delimiter of `s`, or -1 if there is none.
pub open spec fn delim_pos(s: Seq<u8>) -> int
    decreases s.len(),
{
    if s.len() < 2 {
        -1
    } else if s[0] == TAB && s[1] == TAB {
        0
    } else if delim_pos(s.skip(1)) < 0 {
        -1
    } else {
        1 + delim_pos(s.skip(1))
    }
}

/// The key of a cleaned line: the bytes before the first delimiter, or
/// nothing when the line has no delimiter.
pub open spec fn key_of(c: Seq<u8>) -> Seq<u8> {
    if delim_pos(c) >= 0 {
        c.take(delim_pos(c))
    } else {
        Seq::<u8>::empty()
    }
}

/// The value of a cleaned line: the bytes after the first delimiter.
pub open spec fn value_of(c: Seq<u8>) -> Seq<u8> {
    c.skip(delim_pos(c) + 2)
}

/// The key naming a library folder's path.
pub open spec fn path_key() -> Seq<u8> {
    seq![112u8, 97u8, 116u8, 104u8]
}

/// The key naming the game inside a library folder: its application id.
pub open spec fn app_id_key() -> Seq<u8> {
    seq![49u8, 56u8, 54u8, 57u8, 53u8, 57u8, 48u8]
}

/// The scan over the remaining lines, carrying the latest `path` value seen
/// so far: a `path` key replaces it, the application id key ends the scan
/// with it, and every other line leaves it untouched.
pub open spec fn scan_from(ls: Seq<Seq<u8>>, acc: Seq<u8>) -> Seq<u8>
    decreases ls.len(),
{
    if ls.len() == 0 {
        acc
    } else {
        let c = clean_of(ls[0]);
        if key_of(c) == path_key() {
            scan_from(ls.skip(1), value_of(c))
        } else if key_of(c) == app_id_key() {
            acc
        } else {
            scan_from(ls.skip(1), acc)
        }
    }
}

/// The library folder the whole index designates for the game.
pub open spec fn library_path_of(ls: Seq<Seq<u8>>) -> Seq<u8> {
    scan_from(ls, Seq::<u8>::empty())
}

/// A whitespace run of length `a` pins `trim_front` to dropping exactly `a`
/// bytes.
proof fn lemma_trim_front_at(s: Seq<u8>, a: int)
    requires
        0 <= a <= s.len(),
        forall|i: int| 0 <= i < a ==> is_ws(s[i]),
        a < s.len() ==> !is_ws(s[a]),
    ensures
        trim_front(s) == s.skip(a),
    decreases a,
{
    if a == 0 {
        assert(s.skip(0) =~= s);
    } else {
        lemma_trim_front_at(s.skip(1), a - 1);
        assert(s.skip(1).skip(a - 1) =~= s.skip(a));
    }
}

/// A trailing whitespace run from `b` on pins `trim_back` to keeping exactly
/// the first `b` bytes.
proof fn lemma_trim_back_at(s: Seq<u8>, b: int)
    requires
        0 <= b <= s.len(),
        forall|i: int| b <= i < s.len() ==> is_ws(s[i]),
        b > 0 ==> !is_ws(s[b - 1]),
    ensures
        trim_back(s) == s.take(b),
    decreases s.len(),
{
    if b == s.len() {
        assert(s.take(b) =~= s);
    } else {
        lemma_trim_back_at(s.drop_last(), b);
        assert(s.drop_last().take(b) =~= s.take(b));
    }
}

/// `delim_pos` is -1 exactly when no double tab occurs; otherwise it is the
/// first position of one.
proof fn lemma_delim_pos_facts(s: Seq<u8>)
    ensures
        delim_pos(s) == -1 || (0 <= delim_pos(s) && delim_pos(s) + 2 <= s.len()),
        delim_pos(s) >= 0 ==> s[delim_pos(s)] == TAB && s[delim_pos(s) + 1] == TAB,
        forall|i: int|
            0 <= i < delim_pos(s) ==> !((#[trigger] s[i]) == TAB && s[i + 1] == TAB),
        delim_pos(s) < 0 ==> forall|i: int|
            0 <= i && i + 1 < s.len() ==> !((#[trigger] s[i]) == TAB && s[i + 1] == TAB),
    decreases s.len(),
{
    if s.len() < 2 {
    } else if s[0] == TAB && s[1] == TAB {
    } else {
        let t = s.skip(1);
        lemma_delim_pos_facts(t);
        assert(forall|i: int| 0 <= i < t.len() ==> #[trigger] t[i] == s[i + 1]);
        let dp = delim_pos(t);
        if dp < 0 {
            assert forall|i: int|
                0 <= i && i + 1 < s.len() implies !((#[trigger] s[i]) == TAB && s[i + 1]
                == TAB) by {
                if i > 0 {
                    assert(t[i - 1] == s[i]);
                    assert(t[i] == s[i + 1]);
                }
            }
        } else {
            assert(delim_pos(s) == 1 + dp);
            assert(s[1 + dp] == t[dp]);
            assert(s[1 + dp + 1] == t[dp + 1]);
            assert forall|i: int|
                0 <= i < delim_pos(s) implies !((#[trigger] s[i]) == TAB && s[i + 1]
                == TAB) by {
                if i > 0 {
                    assert(t[i - 1] == s[i]);
                    assert(t[i] == s[i + 1]);
                }
            }
        }
    }
}

/// A witness pins `delim_pos`: a double tab at `j` with none earlier.
proof fn lemma_delim_at(s: Seq<u8>, j: int)
    requires
        0 <= j,
        j + 1 < s.len(),
        s[j] == TAB && s[j + 1] == TAB,
        forall|i: int| 0 <= i < j ==> !((#[trigger] s[i]) == TAB && s[i + 1] == TAB),
    ensures
        delim_pos(s) == j,
{
    lemma_delim_pos_facts(s);
}

/// Whether `b` counts as ASCII whitespace.
fn ws(b: u8) -> (r: bool)
    ensures
        r == is_ws(b),
{
    b == 32 || b == 9 || b == 13 || b == 10
}

/// Trims whitespace from both ends of `line` and strips every quote byte:
/// the line as the scan interprets it.
pub fn clean_line(line: &Vec<u8>) -> (r: Vec<u8>)
    ensures
        r@ == clean_of(line@),
{
    let n = line.len();
    let mut a: usize = 0;
    while a < n && ws(line[a])
        invariant
            n == line@.len(),
            0 <= a <= n,
            forall|i: int| 0 <= i < a ==> is_ws(line@[i]),
        decreases n - a,
    {
        a = a + 1;
    }
    let mut b: usize = n;
    while b > a && ws(line[b - 1])
        invariant
            n == line@.len(),
            a <= b <= n,
            forall|i: int| b <= i < n ==> is_ws(line@[i]),
        decreases b,
    {
        b = b - 1;
    }
    proof {
        lemma_trim_front_at(line@, a as int);
        let t = line@.skip(a as int);
        assert(forall|i: int| b - a <= i < t.len() ==> is_ws(t[i]));
        lemma_trim_back_at(t, b - a);
        assert(t.take(b - a) =~= line@.subrange(a as int, b as int));
    }
    let ghost trimmed = line@.subrange(a as int, b as int);
    let mut r: Vec<u8> = Vec::new();
    let mut i: usize = a;
    proof {
        assert(trimmed.skip(0) =~= trimmed);
    }
    while i < b
        invariant
            a <= i <= b <= n,
            n == line@.len(),
            trimmed == line@.subrange(a as int, b as int),
            unquote(trimmed) == r@ + unquote(trimmed.skip(i - a)),
        decreases b - i,
    {
        let ghost rest = trimmed.skip(i - a);
        proof {
            assert(rest[0] == line@[i as int]);
            assert(rest.skip(1) =~= trimmed.skip(i + 1 - a));
        }
        let c = line[i];
        if c != QUOTE {
            r.push(c);
            proof {
                assert(seq![rest[0]] + unquote(rest.skip(1)) == unquote(rest));
                assert(r@ =~= (r@.drop_last() + seq![rest[0]]));
            }
        }
        i = i + 1;
    }
    proof {
        assert(trimmed.skip(b - a) =~= Seq::<u8>::empty());
        assert(r@ =~= unquote(trimmed));
    }
    r
}

/// Whether two byte vectors hold the same bytes.
fn bytes_eq(x: &Vec<u8>, y: &Vec<u8>) -> (r: bool)
    ensures
        r == (x@ == y@),
{
    if x.len() != y.len() {
        return false;
    }
    let mut i: usize = 0;
    while i < x.len()
        invariant
            x@.len() == y@.len(),
            0 <= i <= x@.len(),
            forall|j: int| 0 <= j < i ==> x@[j] == y@[j],
        decreases x@.len() - i,
    {
        if x[i] != y[i] {
            return false;
        }
        i = i + 1;
    }
    proof {
        assert(x@ =~= y@);
    }
    true
}

/// The position just past the first double-tab delimiter of `c`, or `None`
/// when `c` has no delimiter.
fn find_delim(c: &Vec<u8>) -> (r: Option<usize>)
    ensures
        match r {
            Some(p) => delim_pos(c@) == p - 2 && 2 <= p <= c@.len(),
            None => delim_pos(c@) < 0,
        },
{
    if c.len() < 2 {
        proof {
            lemma_delim_pos_facts(c@);
        }
        return None;
    }
    let mut i: usize = 0;
    while i < c.len() - 1
        invariant
            c@.len() >= 2,
            0 <= i <= c@.len() - 1,
            forall|j: int| 0 <= j < i ==> !((#[trigger] c@[j]) == TAB && c@[j + 1] == TAB),
        decreases c@.len() - i,
    {
        if c[i] == TAB && c[i + 1] == TAB {
            proof {
                lemma_delim_at(c@, i as int);
            }
            return Some(i + 2);
        }
        i = i + 1;
    }
    proof {
        lemma_delim_pos_facts(c@);
        if delim_pos(c@) >= 0 {
            let p = delim_pos(c@);
            assert(!(c@[p] == TAB && c@[p + 1] == TAB));
        }
    }
    None
}

/// The `path` key as a runtime value.
fn path_key_vec() -> (r: Vec<u8>)
    ensures
        r@ == path_key(),
{
    let r: Vec<u8> = vec![112u8, 97u8, 116u8, 104u8];
    proof {
        assert(r@ =~= path_key());
    }
    r
}

/// The application id key as a runtime value.
fn app_id_key_vec() -> (r: Vec<u8>)
    ensures
        r@ == app_id_key(),
{
    let r: Vec<u8> = vec![49u8, 56u8, 54u8, 57u8, 53u8, 57u8, 48u8];
    proof {
        assert(r@ =~= app_id_key());
    }
    r
}

/// Scans the index's lines and returns the library folder designated for the
/// game: the value of the last `path` key seen before the application id key
/// ends the scan, or of the last `path` key of the file if the id never
/// appears, or nothing if no `path` key precedes the stop.
pub fn scan_library_folders(lines: &Vec<Vec<u8>>) -> (r: Vec<u8>)
    ensures
        r@ == library_path_of(views_of(lines@)),
{
    let ghost all = views_of(lines@);
    let path_k = path_key_vec();
    let app_k = app_id_key_vec();
    let mut acc: Vec<u8> = Vec::new();
    let n = lines.len();
    let mut i: usize = 0;
    proof {
        assert(all.skip(0) =~= all);
    }
    while i < n
        invariant
            n == lines@.len(),
            all == views_of(lines@),
            0 <= i <= n,
            path_k@ == path_key(),
            app_k@ == app_id_key(),
            library_path_of(all) == scan_from(all.skip(i as int), acc@),
        decreases n - i,
    {
        let ghost rest = all.skip(i as int);
        proof {
            assert(rest[0] == all[i as int]);
            assert(rest.skip(1) =~= all.skip(i + 1));
        }
        let c = clean_line(&lines[i]);
        let mut key: Vec<u8> = Vec::new();
        let mut value: Vec<u8> = Vec::new();
        let mut has_delim = false;
        match find_delim(&c) {
            Some(p) => {
                has_delim = true;
                let mut j: usize = 0;
                while j < p - 2
                    invariant
                        c@.len() >= p >= 2,
                        0 <= j <= p - 2,
                        p - 2 == delim_pos(c@),
                        key@ == c@.subrange(0, j as int),
                    decreases p - 2 - j,
                {
                    key.push(c[j]);
                    proof {
                        assert(key@ =~= c@.subrange(0, j + 1));
                    }
                    j = j + 1;
                }
                let mut m: usize = p;
                while m < c.len()
                    invariant
                        c@.len() >= p >= 2,
                        p <= m <= c@.len(),
                        value@ == c@.subrange(p as int, m as int),
                    decreases c@.len() - m,
                {
                    value.push(c[m]);
                    proof {
                        assert(value@ =~= c@.subrange(p as int, m + 1));
                    }
                    m = m + 1;
                }
                proof {
                    assert(key@ =~= key_of(c@));
                    assert(value@ =~= value_of(c@));
                }
            },
            None => {
                proof {
                    assert(key@ =~= key_of(c@));
                }
            },
        }
        if has_delim && bytes_eq(&key, &path_k) {
            acc = value;
        } else if has_delim && bytes_eq(&key, &app_k) {
            proof {
                assert(key_of(clean_of(rest[0])) == app_id_key());
                assert(key_of(clean_of(rest[0])) != path_key());
            }
            return acc;
        } else {
            proof {
                assert(key_of(clean_of(rest[0])) != path_key());
                assert(key_of(clean_of(rest[0])) != app_id_key());
            }
        }
        i = i + 1;
    }
    proof {
        assert(all.skip(n as int) =~= Seq::<Seq<u8>>::empty());
    }
    acc
}

} // verus!
