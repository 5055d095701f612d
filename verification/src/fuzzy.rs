//! Fuzzy name search.
//!
//! Query and candidates are normalized (ASCII-lowercased, whitespace runs
//! collapsed to single spaces) and scored as
//! `0.7 * JaroWinkler + 0.3 * NormalizedLevenshtein + 0.05 * word hits`,
//! carried out in exact rational arithmetic over the UTF-8 bytes.  The
//! highest-scoring candidate wins; ties go to the earlier candidate.

use crate::unicode::views_of;
use vstd::prelude::*;
use vstd::string::StringSliceAdditionalSpecFns;

verus! {

/// ASCII uppercase letters mapped to lowercase; all other bytes kept.
pub open spec fn lower_byte(x: u8) -> u8 {
    if 65 <= x <= 90 {
        (x + 32) as u8
    } else {
        x
    }
}

/// An ASCII whitespace byte.
pub open spec fn is_space_byte(x: u8) -> bool {
    x == 32 || (9 <= x <= 13)
}

/// One step of whitespace collapsing: `acc` is the output so far, `pending`
/// records whether a space run separates it from the next word.
pub open spec fn collapse_from(s: Seq<u8>, i: int, acc: Seq<u8>, pending: bool) -> Seq<u8>
    decreases s.len() - i,
    when 0 <= i <= s.len()
{
    if i >= s.len() {
        acc
    } else if is_space_byte(s[i]) {
        collapse_from(s, i + 1, acc, true)
    } else {
        let acc2 = if pending && acc.len() > 0 {
            acc + seq![32u8, s[i]]
        } else {
            acc + seq![s[i]]
        };
        collapse_from(s, i + 1, acc2, false)
    }
}

/// The normalized form of a byte string: ASCII-lowercased, whitespace runs
/// collapsed to single spaces, outer whitespace dropped.
pub open spec fn norm_bytes(s: Seq<u8>) -> Seq<u8> {
    collapse_from(s.map_values(|x: u8| lower_byte(x)), 0, Seq::empty(), false)
}

/// Splitting a normalized string at spaces; `cur` is the word being read,
/// `acc` the words already read.
pub open spec fn split_from(s: Seq<u8>, i: int, cur: Seq<u8>, acc: Seq<Seq<u8>>) -> Seq<Seq<u8>>
    decreases s.len() - i,
    when 0 <= i <= s.len()
{
    if i >= s.len() {
        if cur.len() > 0 {
            acc.push(cur)
        } else {
            acc
        }
    } else if s[i] == 32 {
        if cur.len() > 0 {
            split_from(s, i + 1, Seq::empty(), acc.push(cur))
        } else {
            split_from(s, i + 1, Seq::empty(), acc)
        }
    } else {
        split_from(s, i + 1, cur.push(s[i]), acc)
    }
}

/// The words of a normalized string.
pub open spec fn words_of(s: Seq<u8>) -> Seq<Seq<u8>> {
    split_from(s, 0, Seq::empty(), Seq::empty())
}

/// `n` occurs in `h` starting at `p`.
pub open spec fn occurs_at(h: Seq<u8>, n: Seq<u8>, p: int) -> bool {
    0 <= p && p + n.len() <= h.len() && h.subrange(p, p + n.len()) == n
}

/// `n` is a contiguous substring of `h`.
pub open spec fn contains_seq(h: Seq<u8>, n: Seq<u8>) -> bool {
    exists|p: int| occurs_at(h, n, p)
}

/// Normalizes a string to its scored byte form.
pub fn normalize(s: &str) -> (v: Vec<u8>)
    ensures
        v@ == norm_bytes(s.spec_bytes()),
{
    let b = s.as_bytes();
    let n = b.len();
    let ghost lowered = b@.map_values(|x: u8| lower_byte(x));
    let mut acc: Vec<u8> = Vec::new();
    let mut pending = false;
    let mut i: usize = 0;
    while i < n
        invariant
            n == b@.len(),
            i <= n,
            lowered == b@.map_values(|x: u8| lower_byte(x)),
            norm_bytes(b@) == collapse_from(lowered, i as int, acc@, pending),
        decreases n - i,
    {
        let x = b[i];
        let lx: u8 = if 65 <= x && x <= 90 {
            x + 32
        } else {
            x
        };
        proof {
            assert(lowered[i as int] == lower_byte(b@[i as int]));
        }
        if lx == 32 || (9 <= lx && lx <= 13) {
            proof {
                assert(is_space_byte(lowered[i as int]));
            }
            pending = true;
        } else {
            proof {
                assert(!is_space_byte(lowered[i as int]));
            }
            let ghost old_acc = acc@;
            if pending && acc.len() > 0 {
                acc.push(32);
                acc.push(lx);
                proof {
                    assert(acc@ =~= old_acc + seq![32u8, lowered[i as int]]);
                }
            } else {
                acc.push(lx);
                proof {
                    assert(acc@ =~= old_acc + seq![lowered[i as int]]);
                }
            }
            pending = false;
        }
        i += 1;
    }
    acc
}

/// Splits a normalized byte string into its words.
pub fn split_words(s: &Vec<u8>) -> (ws: Vec<Vec<u8>>)
    ensures
        ws@.map_values(|w: Vec<u8>| w@) == words_of(s@),
{
    let n = s.len();
    let mut acc: Vec<Vec<u8>> = Vec::new();
    let mut cur: Vec<u8> = Vec::new();
    let mut i: usize = 0;
    proof {
        assert(acc@.map_values(|w: Vec<u8>| w@) =~= Seq::<Seq<u8>>::empty());
        assert(cur@ =~= Seq::<u8>::empty());
    }
    while i < n
        invariant
            n == s@.len(),
            i <= n,
            words_of(s@) == split_from(s@, i as int, cur@, acc@.map_values(|w: Vec<u8>| w@)),
        decreases n - i,
    {
        if s[i] == 32 {
            if cur.len() > 0 {
                let ghost old_acc = acc@;
                let done = cur;
                acc.push(done);
                cur = Vec::new();
                proof {
                    assert(acc@.map_values(|w: Vec<u8>| w@) =~= old_acc.map_values(
                        |w: Vec<u8>| w@,
                    ).push(done@));
                    assert(cur@ =~= Seq::<u8>::empty());
                }
            } else {
                proof {
                    assert(cur@ =~= Seq::<u8>::empty());
                }
            }
        } else {
            let ghost old_cur = cur@;
            cur.push(s[i]);
            proof {
                assert(cur@ =~= old_cur.push(s@[i as int]));
            }
        }
        i += 1;
    }
    if cur.len() > 0 {
        let ghost old_acc = acc@;
        let done = cur;
        acc.push(done);
        proof {
            assert(acc@.map_values(|w: Vec<u8>| w@) =~= old_acc.map_values(|w: Vec<u8>| w@).push(
                done@,
            ));
        }
        acc
    } else {
        acc
    }
}

/// Naive substring search.
pub fn contains_bytes(h: &Vec<u8>, n: &Vec<u8>) -> (r: bool)
    ensures
        r == contains_seq(h@, n@),
{
    let hn = h.len();
    let nn = n.len();
    if nn > hn {
        proof {
            assert(forall|p: int| !occurs_at(h@, n@, p));
        }
        return false;
    }
    let mut p: usize = 0;
    while p <= hn - nn
        invariant
            hn == h@.len(),
            nn == n@.len(),
            nn <= hn,
            p <= hn - nn + 1,
            forall|q: int| 0 <= q < p ==> !occurs_at(h@, n@, q),
        decreases hn + 1 - p,
    {
        let mut k: usize = 0;
        while k < nn && h[p + k] == n[k]
            invariant
                hn == h@.len(),
                nn == n@.len(),
                p + nn <= hn,
                k <= nn,
                forall|j: int| 0 <= j < k ==> h@[p + j] == n@[j],
            decreases nn - k,
        {
            k += 1;
        }
        if k == nn {
            proof {
                assert(h@.subrange(p as int, p + nn) =~= n@);
                assert(occurs_at(h@, n@, p as int));
            }
            return true;
        }
        proof {
            assert(h@.subrange(p as int, p + nn) != n@) by {
                assert(h@.subrange(p as int, p + nn)[k as int] == h@[p + k]);
            }
            assert(!occurs_at(h@, n@, p as int));
        }
        p += 1;
    }
    proof {
        assert forall|q: int| !occurs_at(h@, n@, q) by {
            if 0 <= q && q + n@.len() <= h@.len() {
                assert(q < p);
            }
        }
    }
    false
}

} // verus!

verus! {

/// The edit distance between the first `i` bytes of `a` and the first `j`
/// bytes of `b`: the least number of insertions, deletions and
/// substitutions turning one into the other.
pub open spec fn lev(a: Seq<u8>, b: Seq<u8>, i: int, j: int) -> int
    decreases i + j,
    when 0 <= i <= a.len() && 0 <= j <= b.len()
{
    if i == 0 {
        j
    } else if j == 0 {
        i
    } else {
        let cost: int = if a[i - 1] == b[j - 1] {
            0
        } else {
            1
        };
        lev_min3(lev(a, b, i - 1, j) + 1, lev(a, b, i, j - 1) + 1, lev(a, b, i - 1, j - 1) + cost)
    }
}

pub open spec fn lev_min3(x: int, y: int, z: int) -> int {
    if x <= y && x <= z {
        x
    } else if y <= z {
        y
    } else {
        z
    }
}

/// The edit distance is nonnegative and never exceeds the longer length.
pub proof fn lemma_lev_bound(a: Seq<u8>, b: Seq<u8>, i: int, j: int)
    requires
        0 <= i <= a.len(),
        0 <= j <= b.len(),
    ensures
        lev(a, b, i, j) >= 0,
        lev(a, b, i, j) <= if i >= j {
            i
        } else {
            j
        },
    decreases i + j,
{
    if i > 0 && j > 0 {
        lemma_lev_bound(a, b, i - 1, j);
        lemma_lev_bound(a, b, i, j - 1);
        lemma_lev_bound(a, b, i - 1, j - 1);
    }
}

/// The edit distance between two byte strings, by the usual row-by-row
/// dynamic program.
pub fn levenshtein(a: &Vec<u8>, b: &Vec<u8>) -> (d: usize)
    requires
        a@.len() + b@.len() < usize::MAX,
    ensures
        d == lev(a@, b@, a@.len() as int, b@.len() as int),
{
    let la = a.len();
    let lb = b.len();
    let mut prev: Vec<usize> = Vec::new();
    let mut j: usize = 0;
    while j <= lb
        invariant
            la == a@.len(),
            lb == b@.len(),
            la + lb < usize::MAX,
            j <= lb + 1,
            prev@.len() == j,
            forall|k: int| 0 <= k < j ==> prev@[k] == lev(a@, b@, 0, k),
        decreases lb + 1 - j,
    {
        prev.push(j);
        j += 1;
    }
    let mut i: usize = 1;
    while i <= la
        invariant
            la == a@.len(),
            lb == b@.len(),
            la + lb < usize::MAX,
            1 <= i <= la + 1,
            prev@.len() == lb + 1,
            forall|k: int| 0 <= k <= lb ==> prev@[k] == lev(a@, b@, i - 1, k),
        decreases la + 1 - i,
    {
        let mut cur: Vec<usize> = Vec::new();
        cur.push(i);
        let mut k: usize = 1;
        while k <= lb
            invariant
                la == a@.len(),
                lb == b@.len(),
                la + lb < usize::MAX,
                1 <= i <= la,
                1 <= k <= lb + 1,
                prev@.len() == lb + 1,
                forall|q: int| 0 <= q <= lb ==> prev@[q] == lev(a@, b@, i - 1, q),
                cur@.len() == k,
                forall|q: int| 0 <= q < k ==> cur@[q] == lev(a@, b@, i as int, q),
            decreases lb + 1 - k,
        {
            proof {
                lemma_lev_bound(a@, b@, i as int, k - 1);
                lemma_lev_bound(a@, b@, i - 1, k as int);
                lemma_lev_bound(a@, b@, i - 1, k - 1);
            }
            let cost: usize = if a[i - 1] == b[k - 1] {
                0
            } else {
                1
            };
            let x = prev[k] + 1;
            let y = cur[k - 1] + 1;
            let z = prev[k - 1] + cost;
            let m = if x <= y && x <= z {
                x
            } else if y <= z {
                y
            } else {
                z
            };
            cur.push(m);
            k += 1;
        }
        prev = cur;
        i += 1;
    }
    prev[lb]
}

} // verus!

verus! {

/// The Jaro match window half-width: half the longer length, less one.
pub open spec fn jaro_sr(la: int, lb: int) -> int {
    let mx = if la >= lb {
        la
    } else {
        lb
    };
    if mx / 2 >= 1 {
        mx / 2 - 1
    } else {
        0
    }
}

/// The lower end of the window around position `i`.
pub open spec fn win_lo(i: int, sr: int) -> int {
    if i > sr {
        i - sr
    } else {
        0
    }
}

/// The upper end of the window around position `i`.
pub open spec fn win_hi(i: int, sr: int, lb: int) -> int {
    if lb <= i + sr + 1 {
        lb
    } else {
        i + sr + 1
    }
}

/// The first not-yet-matched position in `lo ..= hi - 1` holding `ch`.
pub open spec fn find_unmatched(b: Seq<u8>, bf: Seq<bool>, ch: u8, lo: int, hi: int) -> Option<
    int,
>
    decreases hi - lo,
    when hi <= b.len()
{
    if lo >= hi {
        None
    } else if !bf[lo] && b[lo] == ch {
        Some(lo)
    } else {
        find_unmatched(b, bf, ch, lo + 1, hi)
    }
}

proof fn lemma_find_unmatched_range(b: Seq<u8>, bf: Seq<bool>, ch: u8, lo: int, hi: int)
    requires
        0 <= lo,
        hi <= b.len(),
        bf.len() == b.len(),
    ensures
        find_unmatched(b, bf, ch, lo, hi) matches Some(j) ==> lo <= j < hi && !bf[j] && b[j]
            == ch,
    decreases hi - lo,
{
    if lo >= hi {
    } else if !bf[lo] && b[lo] == ch {
    } else {
        lemma_find_unmatched_range(b, bf, ch, lo + 1, hi);
    }
}

/// The greedy matching state after the first `i` query bytes: the matched
/// query bytes in query order, and the flags of the matched candidate
/// positions.
pub open spec fn jaro_state(a: Seq<u8>, b: Seq<u8>, i: int) -> (Seq<u8>, Seq<bool>)
    decreases i,
    when 0 <= i <= a.len()
{
    if i <= 0 {
        (Seq::empty(), Seq::new(b.len(), |k: int| false))
    } else {
        let st = jaro_state(a, b, i - 1);
        let sr = jaro_sr(a.len() as int, b.len() as int);
        match find_unmatched(
            b,
            st.1,
            a[i - 1],
            win_lo(i - 1, sr),
            win_hi(i - 1, sr, b.len() as int),
        ) {
            Some(j) => (st.0.push(a[i - 1]), st.1.update(j, true)),
            None => st,
        }
    }
}

/// The matched candidate bytes from position `j` on, in candidate order.
pub open spec fn matched_in_b(b: Seq<u8>, bf: Seq<bool>, j: int) -> Seq<u8>
    decreases b.len() - j,
    when 0 <= j <= b.len()
{
    if j >= b.len() {
        Seq::empty()
    } else if bf[j] {
        seq![b[j]] + matched_in_b(b, bf, j + 1)
    } else {
        matched_in_b(b, bf, j + 1)
    }
}

proof fn lemma_matched_in_b_update(b: Seq<u8>, bf: Seq<bool>, j: int, k: int)
    requires
        bf.len() == b.len(),
        0 <= j < b.len(),
        !bf[j],
        0 <= k <= b.len(),
    ensures
        matched_in_b(b, bf.update(j, true), k).len() == matched_in_b(b, bf, k).len() + if k <= j {
            1int
        } else {
            0
        },
    decreases b.len() - k,
{
    if k < b.len() {
        lemma_matched_in_b_update(b, bf, j, k + 1);
        if k != j {
            assert(bf.update(j, true)[k] == bf[k]);
        }
    }
}

proof fn lemma_matched_in_b_len(b: Seq<u8>, bf: Seq<bool>, k: int)
    requires
        bf.len() == b.len(),
        0 <= k <= b.len(),
    ensures
        0 <= matched_in_b(b, bf, k).len() <= b.len() - k,
    decreases b.len() - k,
{
    if k < b.len() {
        lemma_matched_in_b_len(b, bf, k + 1);
    }
}

/// The two matched strands have the same length: every step matches one
/// query byte with one candidate position, or none.
proof fn lemma_jaro_state_len(a: Seq<u8>, b: Seq<u8>, i: int)
    requires
        0 <= i <= a.len(),
    ensures
        jaro_state(a, b, i).1.len() == b.len(),
        jaro_state(a, b, i).0.len() <= i,
        matched_in_b(b, jaro_state(a, b, i).1, 0).len() == jaro_state(a, b, i).0.len(),
    decreases i,
{
    if i <= 0 {
        lemma_matched_all_false(b, Seq::new(b.len(), |k: int| false), 0);
    } else {
        lemma_jaro_state_len(a, b, i - 1);
        let st = jaro_state(a, b, i - 1);
        let sr = jaro_sr(a.len() as int, b.len() as int);
        let lo = win_lo(i - 1, sr);
        let hi = win_hi(i - 1, sr, b.len() as int);
        lemma_find_unmatched_range(b, st.1, a[i - 1], lo, hi);
        match find_unmatched(b, st.1, a[i - 1], lo, hi) {
            Some(j) => {
                lemma_matched_in_b_update(b, st.1, j, 0);
            },
            None => {},
        }
    }
}

proof fn lemma_matched_all_false(b: Seq<u8>, bf: Seq<bool>, k: int)
    requires
        bf.len() == b.len(),
        forall|q: int| 0 <= q < bf.len() ==> !bf[q],
        0 <= k <= b.len(),
    ensures
        matched_in_b(b, bf, k).len() == 0,
    decreases b.len() - k,
{
    if k < b.len() {
        lemma_matched_all_false(b, bf, k + 1);
    }
}

/// The number of positions where the two matched strands differ.
pub open spec fn mismatches(x: Seq<u8>, y: Seq<u8>) -> int
    decreases x.len(),
{
    if x.len() == 0 || y.len() == 0 {
        0
    } else {
        (if x[0] != y[0] {
            1int
        } else {
            0
        }) + mismatches(x.drop_first(), y.drop_first())
    }
}

proof fn lemma_mismatches_bound(x: Seq<u8>, y: Seq<u8>)
    ensures
        0 <= mismatches(x, y) <= x.len(),
    decreases x.len(),
{
    if x.len() != 0 && y.len() != 0 {
        lemma_mismatches_bound(x.drop_first(), y.drop_first());
    }
}

/// The Jaro similarity of two byte strings as an exact fraction: the mean
/// of the matched share of each string and the in-order share of the
/// matches.
pub open spec fn jaro_pair(a: Seq<u8>, b: Seq<u8>) -> (int, int) {
    if a.len() == 0 && b.len() == 0 {
        (1, 1)
    } else if a.len() == 0 || b.len() == 0 {
        (0, 1)
    } else {
        let st = jaro_state(a, b, a.len() as int);
        let m = st.0.len() as int;
        if m == 0 {
            (0, 1)
        } else {
            let t = mismatches(st.0, matched_in_b(b, st.1, 0)) / 2;
            (
                m * m * b.len() + m * m * a.len() + (m - t) * a.len() * b.len(),
                3 * a.len() * b.len() * m,
            )
        }
    }
}

/// Computes the Jaro fraction.  The result is between zero and one, with a
/// positive denominator.
pub fn jaro_frac(a: &Vec<u8>, b: &Vec<u8>) -> (r: (u64, u64))
    requires
        a@.len() <= 512,
        b@.len() <= 512,
    ensures
        (r.0 as int, r.1 as int) == jaro_pair(a@, b@),
        1 <= r.1 <= 402653184,
        r.0 <= r.1,
{
    let la = a.len();
    let lb = b.len();
    if la == 0 && lb == 0 {
        return (1, 1);
    }
    if la == 0 || lb == 0 {
        return (0, 1);
    }
    let mx = if la >= lb {
        la
    } else {
        lb
    };
    let sr: usize = if mx / 2 >= 1 {
        mx / 2 - 1
    } else {
        0
    };
    let mut bf: Vec<bool> = Vec::new();
    let mut k: usize = 0;
    while k < lb
        invariant
            lb == b@.len(),
            k <= lb,
            bf@.len() == k,
            forall|q: int| 0 <= q < k ==> !bf@[q],
        decreases lb - k,
    {
        bf.push(false);
        k += 1;
    }
    let mut ma: Vec<u8> = Vec::new();
    let mut i: usize = 0;
    proof {
        assert(bf@ =~= Seq::new(b@.len(), |q: int| false));
        assert(ma@ =~= jaro_state(a@, b@, 0).0);
        assert(bf@ =~= jaro_state(a@, b@, 0).1);
    }
    while i < la
        invariant
            la == a@.len(),
            lb == b@.len(),
            la <= 512,
            lb <= 512,
            sr == jaro_sr(la as int, lb as int),
            i <= la,
            ma@ == jaro_state(a@, b@, i as int).0,
            bf@ == jaro_state(a@, b@, i as int).1,
        decreases la - i,
    {
        proof {
            lemma_jaro_state_len(a@, b@, i as int);
        }
        let lo: usize = if i > sr {
            i - sr
        } else {
            0
        };
        let hi: usize = if lb <= i + sr + 1 {
            lb
        } else {
            i + sr + 1
        };
        let ch = a[i];
        let mut j: usize = lo;
        let mut hit: bool = false;
        while j < hi
            invariant_except_break
                !hit,
            invariant
                lb == b@.len(),
                bf@.len() == lb,
                lo <= j,
                hi <= lb,
                i < la,
                la == a@.len(),
                ch == a@[i as int],
                find_unmatched(b@, bf@, ch, lo as int, hi as int) == find_unmatched(
                    b@,
                    bf@,
                    ch,
                    j as int,
                    hi as int,
                ),
            ensures
                hit ==> j < hi && find_unmatched(b@, bf@, ch, lo as int, hi as int) == Some(
                    j as int,
                ),
                !hit ==> find_unmatched(b@, bf@, ch, lo as int, hi as int) is None,
            decreases hi - j,
        {
            if !bf[j] && b[j] == ch {
                hit = true;
                break;
            }
            j += 1;
        }
        if hit {
            ma.push(ch);
            bf.set(j, true);
        }
        i += 1;
    }
    proof {
        lemma_jaro_state_len(a@, b@, la as int);
    }
    let m = ma.len();
    if m == 0 {
        return (0, 1);
    }
    let mut mb: Vec<u8> = Vec::new();
    let mut q: usize = 0;
    proof {
        assert(matched_in_b(b@, bf@, 0) =~= mb@ + matched_in_b(b@, bf@, 0));
    }
    while q < lb
        invariant
            lb == b@.len(),
            bf@.len() == lb,
            q <= lb,
            matched_in_b(b@, bf@, 0) == mb@ + matched_in_b(b@, bf@, q as int),
        decreases lb - q,
    {
        let ghost old_mb = mb@;
        if bf[q] {
            mb.push(b[q]);
            proof {
                assert(matched_in_b(b@, bf@, q as int) == seq![b@[q as int]] + matched_in_b(
                    b@,
                    bf@,
                    q + 1,
                ));
                assert(matched_in_b(b@, bf@, 0) =~= mb@ + matched_in_b(b@, bf@, q + 1));
            }
        } else {
            proof {
                assert(matched_in_b(b@, bf@, q as int) == matched_in_b(b@, bf@, q + 1));
            }
        }
        q += 1;
    }
    proof {
        assert(matched_in_b(b@, bf@, lb as int) =~= Seq::<u8>::empty());
        assert(matched_in_b(b@, bf@, 0) =~= mb@);
    }
    let mut cnt: usize = 0;
    let mut w: usize = 0;
    let lim = if ma.len() <= mb.len() {
        ma.len()
    } else {
        mb.len()
    };
    proof {
        assert(ma@.skip(0) =~= ma@);
        assert(mb@.skip(0) =~= mb@);
    }
    while w < lim
        invariant
            lim <= ma@.len(),
            lim <= mb@.len(),
            w <= lim,
            lim == if ma@.len() <= mb@.len() {
                ma@.len() as int
            } else {
                mb@.len() as int
            },
            cnt <= w,
            mismatches(ma@, mb@) == cnt + mismatches(ma@.skip(w as int), mb@.skip(w as int)),
        decreases lim - w,
    {
        proof {
            let sx = ma@.skip(w as int);
            let sy = mb@.skip(w as int);
            assert(sx[0] == ma@[w as int] && sy[0] == mb@[w as int]);
            assert(sx.drop_first() =~= ma@.skip(w + 1));
            assert(sy.drop_first() =~= mb@.skip(w + 1));
        }
        if ma[w] != mb[w] {
            cnt += 1;
        }
        w += 1;
    }
    proof {
        if ma@.len() <= mb@.len() {
            assert(ma@.skip(lim as int).len() == 0);
        } else {
            assert(mb@.skip(lim as int).len() == 0);
        }
        assert(mismatches(ma@.skip(lim as int), mb@.skip(lim as int)) == 0);
        lemma_mismatches_bound(ma@, mb@);
    }
    let t = cnt / 2;
    proof {
        lemma_matched_in_b_len(b@, bf@, 0);
        assert(mb@.len() == m);
        assert(cnt == mismatches(ma@, mb@));
        assert(t == mismatches(ma@, mb@) / 2);
        assert(t <= m);
        assert(m <= la);
        assert(m <= lb);
        assert(m * m <= 512 * 512) by (nonlinear_arith)
            requires
                0 <= m <= 512,
        ;
        assert(m * m * (lb as int) <= 262144 * 512) by (nonlinear_arith)
            requires
                0 <= m * m <= 262144,
                0 <= lb <= 512,
        ;
        assert(m * m * (la as int) <= 262144 * 512) by (nonlinear_arith)
            requires
                0 <= m * m <= 262144,
                0 <= la <= 512,
        ;
        assert((la as int) * (lb as int) <= 262144) by (nonlinear_arith)
            requires
                0 <= la <= 512,
                0 <= lb <= 512,
        ;
        assert(0 <= (m - t) * ((la as int) * (lb as int)) <= 512 * 262144) by (nonlinear_arith)
            requires
                0 <= m - t <= 512,
                0 <= (la as int) * (lb as int) <= 262144,
        ;
        assert((m - t) * ((la as int) * (lb as int)) == (m - t) * (la as int) * (lb as int))
            by (nonlinear_arith);
        assert(3 * ((la as int) * (lb as int)) * m <= 3 * 262144 * 512) by (nonlinear_arith)
            requires
                0 <= (la as int) * (lb as int) <= 262144,
                0 <= m <= 512,
        ;
        assert(3 * ((la as int) * (lb as int)) * m == 3 * (la as int) * (lb as int) * m)
            by (nonlinear_arith);
        assert(1 * 1 * 1 <= (la as int) * (lb as int) * m) by (nonlinear_arith)
            requires
                1 <= la,
                1 <= lb,
                1 <= m,
        ;
        assert(m * m * (lb as int) + m * m * (la as int) + (m - t) * (la as int) * (lb as int)
            <= 3 * (la as int) * (lb as int) * m) by (nonlinear_arith)
            requires
                1 <= m <= la,
                m <= lb,
                0 <= t <= m,
                la <= 512,
                lb <= 512,
        ;
        assert(0 <= (m - t) * (la as int) <= 262144) by (nonlinear_arith)
            requires
                0 <= m - t <= 512,
                0 <= la <= 512,
        ;
        assert(0 <= (m - t) * (la as int) * (lb as int) <= 262144 * 512) by (nonlinear_arith)
            requires
                0 <= (m - t) * (la as int) <= 262144,
                0 <= lb <= 512,
        ;
        assert(0 <= 3 * (la as int) * (lb as int) <= 786432) by (nonlinear_arith)
            requires
                0 <= la <= 512,
                0 <= lb <= 512,
        ;
        assert(0 <= 3 * (la as int) * (lb as int) * (m as int) <= 786432 * 512)
            by (nonlinear_arith)
            requires
                0 <= 3 * (la as int) * (lb as int) <= 786432,
                0 <= m <= 512,
        ;
        assert(3 * (la as int) * (lb as int) * (m as int) >= 1) by (nonlinear_arith)
            requires
                1 <= la,
                1 <= lb,
                1 <= m,
        ;
    }
    let jn: u64 = (m as u64) * (m as u64) * (lb as u64) + (m as u64) * (m as u64) * (la as u64) + ((
    m - t) as u64) * (la as u64) * (lb as u64);
    let jd: u64 = 3 * (la as u64) * (lb as u64) * (m as u64);
    (jn, jd)
}

} // verus!

verus! {

/// The length of the common prefix of `a` and `b`, capped at four.
pub open spec fn common_prefix4(a: Seq<u8>, b: Seq<u8>, i: int) -> int
    decreases 4 - i,
    when 0 <= i <= 4
{
    if i >= 4 || i >= a.len() || i >= b.len() || a[i] != b[i] {
        i
    } else {
        common_prefix4(a, b, i + 1)
    }
}

/// The Jaro-Winkler fraction: for close strings (Jaro above 0.7), a tenth
/// of the remaining distance per shared prefix byte, up to four, is
/// credited.
pub open spec fn winkler_pair(a: Seq<u8>, b: Seq<u8>) -> (int, int) {
    let j = jaro_pair(a, b);
    if 10 * j.0 > 7 * j.1 {
        let l = common_prefix4(a, b, 0);
        ((10 - l) * j.0 + l * j.1, 10 * j.1)
    } else {
        j
    }
}

/// The normalized Levenshtein similarity: one minus the edit distance over
/// the longer length; two empty strings count as identical.
pub open spec fn nlev_pair(a: Seq<u8>, b: Seq<u8>) -> (int, int) {
    if a.len() == 0 && b.len() == 0 {
        (1, 1)
    } else {
        let mx = if a.len() >= b.len() {
            a.len() as int
        } else {
            b.len() as int
        };
        (mx - lev(a, b, a.len() as int, b.len() as int), mx)
    }
}

/// How many of the query words occur in the candidate.
pub open spec fn word_hits(ws: Seq<Seq<u8>>, c: Seq<u8>, k: int) -> int
    decreases ws.len() - k,
    when 0 <= k <= ws.len()
{
    if k >= ws.len() {
        0
    } else {
        (if contains_seq(c, ws[k]) {
            1int
        } else {
            0
        }) + word_hits(ws, c, k + 1)
    }
}

proof fn lemma_word_hits_bound(ws: Seq<Seq<u8>>, c: Seq<u8>, k: int)
    requires
        0 <= k <= ws.len(),
    ensures
        0 <= word_hits(ws, c, k) <= ws.len() - k,
    decreases ws.len() - k,
{
    if k < ws.len() {
        lemma_word_hits_bound(ws, c, k + 1);
    }
}

/// Splitting yields at most one word per remaining byte, plus the pending
/// word.
proof fn lemma_split_count(s: Seq<u8>, i: int, cur: Seq<u8>, acc: Seq<Seq<u8>>)
    requires
        0 <= i <= s.len(),
    ensures
        split_from(s, i, cur, acc).len() <= acc.len() + (s.len() - i) + 1,
    decreases s.len() - i,
{
    if i < s.len() {
        if s[i] == 32 {
            if cur.len() > 0 {
                lemma_split_count(s, i + 1, Seq::empty(), acc.push(cur));
            } else {
                lemma_split_count(s, i + 1, Seq::empty(), acc);
            }
        } else {
            lemma_split_count(s, i + 1, cur.push(s[i]), acc);
        }
    }
}

/// The score of a candidate against a normalized query, as an exact
/// fraction: `0.7 * JaroWinkler + 0.3 * NormalizedLevenshtein + 0.05 *
/// word hits`, all over the normalized forms.  A candidate whose
/// normalized form exceeds 512 bytes scores zero.
pub open spec fn score_pair(qn: Seq<u8>, cand: Seq<u8>) -> (int, int) {
    let cn = norm_bytes(cand);
    if cn.len() > 512 {
        (0, 1)
    } else {
        let wk = winkler_pair(qn, cn);
        let nl = nlev_pair(qn, cn);
        let w = word_hits(words_of(qn), cn, 0);
        (14 * wk.0 * nl.1 + 6 * wk.1 * nl.0 + w * wk.1 * nl.1, 20 * wk.1 * nl.1)
    }
}

/// Strictly-better comparison of two score fractions.
pub open spec fn better_score(an: int, ad: int, bn: int, bd: int) -> bool {
    an * bd > bn * ad
}

/// The index of the best-scoring item among the first `j`, earliest first
/// on ties.
pub open spec fn best_of(items: Seq<Seq<u8>>, qn: Seq<u8>, j: int) -> Option<int>
    decreases j,
    when j <= items.len()
{
    if j <= 0 {
        None
    } else {
        let s = score_pair(qn, items[j - 1]);
        match best_of(items, qn, j - 1) {
            None => Some(j - 1),
            Some(p) => {
                let sp = score_pair(qn, items[p]);
                if better_score(s.0, s.1, sp.0, sp.1) {
                    Some(j - 1)
                } else {
                    Some(p)
                }
            },
        }
    }
}

proof fn lemma_best_of_range(items: Seq<Seq<u8>>, qn: Seq<u8>, j: int)
    requires
        0 <= j <= items.len(),
    ensures
        best_of(items, qn, j) is Some <==> j > 0,
        best_of(items, qn, j) matches Some(p) ==> 0 <= p < j,
    decreases j,
{
    if j > 0 {
        lemma_best_of_range(items, qn, j - 1);
    }
}

/// Scores one candidate.  The numerator and denominator fit comfortably in
/// 64 bits; the denominator is positive.
fn score_frac(qn: &Vec<u8>, qws: &Vec<Vec<u8>>, cand: &str) -> (r: (u64, u64))
    requires
        qn@.len() <= 512,
        qws@.len() <= 513,
        qws@.map_values(|w: Vec<u8>| w@) == words_of(qn@),
    ensures
        (r.0 as int, r.1 as int) == score_pair(qn@, cand.spec_bytes()),
        1 <= r.1,
{
    let cn = normalize(cand);
    if cn.len() > 512 {
        return (0, 1);
    }
    let (jn, jd) = jaro_frac(qn, &cn);
    let mut l: u64 = 0;
    let lim: usize = if qn.len() <= cn.len() {
        if qn.len() <= 4 {
            qn.len()
        } else {
            4
        }
    } else {
        if cn.len() <= 4 {
            cn.len()
        } else {
            4
        }
    };
    while (l as usize) < lim && qn[l as usize] == cn[l as usize]
        invariant
            qn@.len() <= 512,
            cn@.len() <= 512,
            lim <= 4,
            lim <= qn@.len(),
            lim <= cn@.len(),
            (lim == 4 || lim == qn@.len() || lim == cn@.len()),
            l <= lim,
            common_prefix4(qn@, cn@, 0) == common_prefix4(qn@, cn@, l as int),
        decreases lim - l,
    {
        l += 1;
    }
    proof {
        assert(common_prefix4(qn@, cn@, l as int) == l as int);
    }
    let (wn, wd): (u64, u64) = if 10 * jn > 7 * jd {
        proof {
            assert((10 - l) * jn <= 10 * jd) by (nonlinear_arith)
                requires
                    0 <= l <= 4,
                    jn <= jd,
                    jd <= 402653184,
            ;
            assert(l * jd <= 4 * jd) by (nonlinear_arith)
                requires
                    0 <= l <= 4,
                    0 <= jd,
            ;
            assert((10 - l) * jn + l * jd <= 10 * jd) by (nonlinear_arith)
                requires
                    0 <= l <= 4,
                    0 <= jn <= jd,
            ;
        }
        ((10 - l) * jn + l * jd, 10 * jd)
    } else {
        (jn, jd)
    };
    proof {
        assert(wn <= wd && 1 <= wd <= 4026531840);
    }
    let d = levenshtein(qn, &cn);
    proof {
        lemma_lev_bound(qn@, cn@, qn@.len() as int, cn@.len() as int);
    }
    let mx: usize = if qn.len() >= cn.len() {
        qn.len()
    } else {
        cn.len()
    };
    let (nn, nd): (u64, u64) = if qn.len() == 0 && cn.len() == 0 {
        (1, 1)
    } else {
        ((mx - d) as u64, mx as u64)
    };
    proof {
        assert(nn <= nd && 1 <= nd <= 512);
    }
    let nw = qws.len();
    let mut w: u64 = 0;
    let mut k: usize = 0;
    while k < nw
        invariant
            nw == qws@.len(),
            k <= nw,
            w <= k,
            qws@.map_values(|x: Vec<u8>| x@) == words_of(qn@),
            word_hits(words_of(qn@), cn@, 0) == w + word_hits(words_of(qn@), cn@, k as int),
        decreases nw - k,
    {
        proof {
            assert(words_of(qn@)[k as int] == qws@[k as int]@);
        }
        if contains_bytes(&cn, &qws[k]) {
            w += 1;
        }
        proof {
            assert(word_hits(words_of(qn@), cn@, k as int) == (if contains_seq(
                cn@,
                words_of(qn@)[k as int],
            ) {
                1int
            } else {
                0
            }) + word_hits(words_of(qn@), cn@, k + 1));
        }
        k += 1;
    }
    proof {
        assert(word_hits(words_of(qn@), cn@, nw as int) == 0);
        assert(w <= 513);
        assert(14 * wn * nd <= 14 * 4026531840 * 512) by (nonlinear_arith)
            requires
                0 <= wn <= 4026531840,
                0 <= nd <= 512,
        ;
        assert(6 * wd * nn <= 6 * 4026531840 * 512) by (nonlinear_arith)
            requires
                0 <= wd <= 4026531840,
                0 <= nn <= 512,
        ;
        assert(w * wd * nd <= 513 * 4026531840 * 512) by (nonlinear_arith)
            requires
                0 <= w <= 513,
                0 <= wd <= 4026531840,
                0 <= nd <= 512,
        ;
        assert(20 * wd * nd <= 20 * 4026531840 * 512) by (nonlinear_arith)
            requires
                0 <= wd <= 4026531840,
                0 <= nd <= 512,
        ;
        assert(1 <= 20 * wd * nd) by (nonlinear_arith)
            requires
                1 <= wd,
                1 <= nd,
        ;
        assert(w * wd <= 513 * 4026531840) by (nonlinear_arith)
            requires
                0 <= w <= 513,
                0 <= wd <= 4026531840,
        ;
    }
    let sn: u64 = 14 * wn * nd + 6 * wd * nn + w * wd * nd;
    let sd: u64 = 20 * wd * nd;
    (sn, sd)
}

/// The best fuzzy match for `query` among `items`: the candidate with the
/// highest score, the earliest on ties.  A non-empty candidate list always
/// yields a match; a query over 512 bytes yields none.
pub fn fuzzy_search<'a>(items: &[&'a str], query: &str) -> (r: Option<&'a str>)
    ensures
        query.spec_bytes().len() > 512 ==> r is None,
        query.spec_bytes().len() <= 512 ==> {
            &&& (r is Some <==> items@.len() > 0)
            &&& (r matches Some(s) ==> {
                let b = best_of(views_of(items@), norm_bytes(query.spec_bytes()), items@.len() as int);
                &&& b matches Some(p)
                &&& 0 <= b->0 < items@.len()
                &&& s == items@[b->0]
            })
        },
{
    let qb = query.as_bytes();
    if qb.len() > 512 {
        return None;
    }
    let qn = normalize(query);
    proof {
        lemma_norm_len(query.spec_bytes());
        lemma_split_count(qn@, 0, Seq::empty(), Seq::empty());
    }
    let qws = split_words(&qn);
    let n = items.len();
    let ghost views = views_of(items@);
    let mut best_n: u64 = 0;
    let mut best_d: u64 = 1;
    let mut best_idx: usize = 0;
    let mut have = false;
    let mut i: usize = 0;
    while i < n
        invariant
            n == items@.len(),
            i <= n,
            views == views_of(items@),
            qn@ == norm_bytes(query.spec_bytes()),
            qn@.len() <= 512,
            qws@.len() <= 513,
            qws@.map_values(|w: Vec<u8>| w@) == words_of(qn@),
            have <==> i > 0,
            have ==> best_idx < i && best_of(views, qn@, i as int) == Some(best_idx as int),
            !have ==> best_of(views, qn@, i as int) is None,
            have ==> (best_n as int, best_d as int) == score_pair(qn@, views[best_idx as int]),
            best_d >= 1,
        decreases n - i,
    {
        let (sn, sd) = score_frac(&qn, &qws, items[i]);
        proof {
            assert(views[i as int] == items@[i as int].spec_bytes());
        }
        proof {
            lemma_u64_mul_fits(sn as int, best_d as int);
            lemma_u64_mul_fits(best_n as int, sd as int);
        }
        if !have || (sn as u128) * (best_d as u128) > (best_n as u128) * (sd as u128) {
            best_n = sn;
            best_d = sd;
            best_idx = i;
            have = true;
        }
        i += 1;
    }
    if have {
        proof {
            lemma_best_of_range(views, qn@, n as int);
        }
        Some(items[best_idx])
    } else {
        None
    }
}

/// The product of two 64-bit values fits in 128 bits.
proof fn lemma_u64_mul_fits(x: int, y: int)
    requires
        0 <= x <= 0xffff_ffff_ffff_ffff,
        0 <= y <= 0xffff_ffff_ffff_ffff,
    ensures
        0 <= x * y < 0x1_0000_0000_0000_0000_0000_0000_0000_0000,
{
    assert(x * y <= 0xffff_ffff_ffff_ffff * 0xffff_ffff_ffff_ffff) by (nonlinear_arith)
        requires
            0 <= x <= 0xffff_ffff_ffff_ffff,
            0 <= y <= 0xffff_ffff_ffff_ffff,
    ;
}

/// Normalization never lengthens a string.
proof fn lemma_norm_len(s: Seq<u8>)
    ensures
        norm_bytes(s).len() <= s.len(),
{
    lemma_collapse_len(s.map_values(|x: u8| lower_byte(x)), 0, Seq::empty(), false);
}

proof fn lemma_collapse_len(s: Seq<u8>, i: int, acc: Seq<u8>, pending: bool)
    requires
        0 <= i <= s.len(),
    ensures
        collapse_from(s, i, acc, pending).len() <= acc.len() + (s.len() - i) + if pending {
            1int
        } else {
            0
        },
    decreases s.len() - i,
{
    if i < s.len() {
        if is_space_byte(s[i]) {
            lemma_collapse_len(s, i + 1, acc, true);
        } else {
            if pending && acc.len() > 0 {
                lemma_collapse_len(s, i + 1, acc + seq![32u8, s[i]], false);
            } else {
                lemma_collapse_len(s, i + 1, acc + seq![s[i]], false);
            }
        }
    }
}

/// The UTF-8 bytes of each owned string in turn.
pub open spec fn string_views(v: Seq<String>) -> Seq<Seq<u8>> {
    v.map_values(|s: String| vstd::utf8::encode_utf8(s@))
}

/// The best fuzzy match among owned strings, by the same scoring as
/// [`fuzzy_search`].
pub fn fuzzy_search_strings<'a>(items: &'a [String], query: &str) -> (r: Option<&'a str>)
    ensures
        query.spec_bytes().len() > 512 ==> r is None,
        query.spec_bytes().len() <= 512 ==> {
            &&& (r is Some <==> items@.len() > 0)
            &&& (r matches Some(s) ==> {
                let b = best_of(
                    string_views(items@),
                    norm_bytes(query.spec_bytes()),
                    items@.len() as int,
                );
                &&& b matches Some(p)
                &&& 0 <= b->0 < items@.len()
                &&& s@ == items@[b->0]@
            })
        },
{
    let n = items.len();
    let mut refs: Vec<&str> = Vec::new();
    let mut i: usize = 0;
    while i < n
        invariant
            n == items@.len(),
            i <= n,
            refs@.len() == i,
            forall|j: int| 0 <= j < i ==> refs@[j]@ == items@[j]@,
            views_of(refs@) =~= string_views(items@).take(i as int),
        decreases n - i,
    {
        let ghost old_refs = refs@;
        refs.push(items[i].as_str());
        proof {
            assert(views_of(refs@) =~= views_of(old_refs).push(refs@[i as int].spec_bytes()));
            assert(views_of(refs@) =~= string_views(items@).take(i + 1));
        }
        i += 1;
    }
    proof {
        assert(string_views(items@).take(n as int) =~= string_views(items@));
        assert(views_of(refs@) == string_views(items@));
    }
    fuzzy_search(refs.as_slice(), query)
}

} // verus!
