//! Edit-distance based fuzzy matching, used to propose corrections whenever
//! a name lookup fails.
use vstd::prelude::*;

use crate::text::chars_of;

verus! {

pub open spec fn nat_min(a: nat, b: nat) -> nat {
    if a <= b {
        a
    } else {
        b
    }
}

/// The Levenshtein edit distance: the least number of single-character
/// insertions, deletions and substitutions turning `a` into `b`.
pub open spec fn spec_levenshtein(a: Seq<char>, b: Seq<char>) -> nat
    decreases a.len(), b.len(),
{
    if a.len() == 0 {
        b.len()
    } else if b.len() == 0 {
        a.len()
    } else {
        let cost: nat = if a.last() == b.last() {
            0
        } else {
            1
        };
        nat_min(
            nat_min(
                spec_levenshtein(a.drop_last(), b) + 1,
                spec_levenshtein(a, b.drop_last()) + 1,
            ),
            spec_levenshtein(a.drop_last(), b.drop_last()) + cost,
        )
    }
}

/// The distance never exceeds the longer length.
pub proof fn lemma_levenshtein_le_max(a: Seq<char>, b: Seq<char>)
    ensures
        spec_levenshtein(a, b) <= if a.len() >= b.len() {
            a.len()
        } else {
            b.len()
        },
    decreases a.len(), b.len(),
{
    if a.len() == 0 || b.len() == 0 {
    } else {
        lemma_levenshtein_le_max(a.drop_last(), b.drop_last());
    }
}

/// Law: the Levenshtein distance is symmetric.
pub proof fn lemma_levenshtein_symmetric(a: Seq<char>, b: Seq<char>)
    ensures
        spec_levenshtein(a, b) == spec_levenshtein(b, a),
    decreases a.len() + b.len(),
{
    if a.len() == 0 || b.len() == 0 {
    } else {
        lemma_levenshtein_symmetric(a.drop_last(), b);
        lemma_levenshtein_symmetric(a, b.drop_last());
        lemma_levenshtein_symmetric(a.drop_last(), b.drop_last());
    }
}

/// Law: the Levenshtein distance is zero exactly when the two sequences are
/// equal.
pub proof fn lemma_levenshtein_zero_iff_equal(a: Seq<char>, b: Seq<char>)
    ensures
        spec_levenshtein(a, b) == 0 <==> a == b,
    decreases a.len(),
{
    if a.len() == 0 {
        if b.len() == 0 {
            assert(a =~= b);
        }
    } else if b.len() == 0 {
    } else {
        lemma_levenshtein_zero_iff_equal(a.drop_last(), b.drop_last());
        if a == b {
            assert(a.drop_last() =~= b.drop_last());
            assert(a.last() == b.last());
            assert(spec_levenshtein(a.drop_last(), b.drop_last()) == 0);
            assert(spec_levenshtein(a, b) == 0);
        }
        if spec_levenshtein(a, b) == 0 {
            assert(spec_levenshtein(a.drop_last(), b.drop_last()) == 0 && a.last() == b.last());
            assert(a =~= a.drop_last().push(a.last()));
            assert(b =~= b.drop_last().push(b.last()));
            assert(a == b);
        }
    }
}

/// Computes the Levenshtein distance by the classic dynamic programming
/// recurrence, row by row.
pub fn levenshtein_distance(s1: &str, s2: &str) -> (r: usize)
    ensures
        r as nat == spec_levenshtein(s1@, s2@),
{
    let a = chars_of(s1);
    let b = chars_of(s2);
    let m = a.len();
    let n = b.len();
    if m == 0 {
        assert(b@.len() == n);
        return n;
    }
    if n == 0 {
        return m;
    }
    // Row 0: the distance from the empty prefix of `a` to each prefix of `b`.
    let mut prev: Vec<usize> = Vec::new();
    prev.push(0);
    assert(a@.take(0) =~= Seq::<char>::empty());
    assert(b@.take(0) =~= Seq::<char>::empty());
    let mut j: usize = 0;
    while j < n
        invariant
            0 <= j <= n,
            n == b@.len(),
            prev@.len() == j + 1,
            forall|c: int|
                0 <= c <= j ==> #[trigger] prev@[c] as nat == spec_levenshtein(
                    a@.take(0),
                    b@.take(c),
                ),
        decreases n - j,
    {
        assert(b@.take(j + 1).len() == j + 1);
        prev.push(j + 1);
        j += 1;
    }
    let mut i: usize = 0;
    while i < m
        invariant
            0 <= i <= m,
            m == a@.len(),
            n == b@.len(),
            1 <= n,
            prev@.len() == n + 1,
            forall|c: int|
                0 <= c <= n ==> #[trigger] prev@[c] as nat == spec_levenshtein(
                    a@.take(i as int),
                    b@.take(c),
                ),
        decreases m - i,
    {
        let mut cur: Vec<usize> = Vec::new();
        cur.push(i + 1);
        assert(b@.take(0) =~= Seq::<char>::empty());
        assert(a@.take(i + 1).len() == i + 1);
        let mut j: usize = 0;
        while j < n
            invariant
                0 <= j <= n,
                0 <= i < m,
                m == a@.len(),
                n == b@.len(),
                prev@.len() == n + 1,
                forall|c: int|
                    0 <= c <= n ==> #[trigger] prev@[c] as nat == spec_levenshtein(
                        a@.take(i as int),
                        b@.take(c),
                    ),
                cur@.len() == j + 1,
                forall|c: int|
                    0 <= c <= j ==> #[trigger] cur@[c] as nat == spec_levenshtein(
                        a@.take(i + 1),
                        b@.take(c),
                    ),
            decreases n - j,
        {
            proof {
                lemma_levenshtein_le_max(a@.take(i as int), b@.take(j as int));
                lemma_levenshtein_le_max(a@.take(i as int), b@.take(j + 1));
                lemma_levenshtein_le_max(a@.take(i + 1), b@.take(j as int));
            }
            let cost: usize = if a[i] == b[j] {
                0
            } else {
                1
            };
            let mut best = prev[j] + cost;
            let d = prev[j + 1];
            if d < best {
                best = d + 1;
            }
            let e = cur[j];
            if e < best {
                best = e + 1;
            }
            proof {
                let ap = a@.take(i + 1);
                let bp = b@.take(j + 1);
                assert(ap.drop_last() =~= a@.take(i as int));
                assert(bp.drop_last() =~= b@.take(j as int));
                assert(ap.last() == a@[i as int]);
                assert(bp.last() == b@[j as int]);
            }
            cur.push(best);
            j += 1;
        }
        prev = cur;
        i += 1;
    }
    assert(a@.take(m as int) =~= a@);
    assert(b@.take(n as int) =~= b@);
    prev[n]
}

// ---------------------------------------------------------------------------
// Edit scripts: the operational reading of the distance
// ---------------------------------------------------------------------------
/// One elementary edit: deleting, inserting or substituting a single
/// character, anywhere.
pub open spec fn spec_one_edit(a: Seq<char>, b: Seq<char>) -> bool {
    ||| (exists|i: int| 0 <= i < a.len() && b == a.remove(i))
    ||| (exists|i: int, c: char| 0 <= i <= a.len() && b == a.insert(i, c))
    ||| (exists|i: int, c: char| 0 <= i < a.len() && b == a.update(i, c))
}

/// Whether `b` can be reached from `a` in at most `n` elementary edits.
pub open spec fn spec_reachable(a: Seq<char>, b: Seq<char>, n: nat) -> bool
    decreases n,
{
    if a == b {
        true
    } else if n == 0 {
        false
    } else {
        exists|s: Seq<char>| spec_one_edit(a, s) && spec_reachable(s, b, (n - 1) as nat)
    }
}

proof fn lemma_reachable_mono(a: Seq<char>, b: Seq<char>, n: nat, m: nat)
    requires
        spec_reachable(a, b, n),
        n <= m,
    ensures
        spec_reachable(a, b, m),
    decreases n,
{
    if a == b {
    } else {
        let s = choose|s: Seq<char>|
            spec_one_edit(a, s) && spec_reachable(s, b, (n - 1) as nat);
        lemma_reachable_mono(s, b, (n - 1) as nat, (m - 1) as nat);
    }
}

proof fn lemma_reachable_append(a: Seq<char>, m: Seq<char>, b: Seq<char>, n: nat)
    requires
        spec_reachable(a, m, n),
        spec_one_edit(m, b),
    ensures
        spec_reachable(a, b, n + 1),
    decreases n,
{
    if a == m {
        assert(spec_one_edit(a, b) && spec_reachable(b, b, n));
    } else {
        let s = choose|s: Seq<char>|
            spec_one_edit(a, s) && spec_reachable(s, m, (n - 1) as nat);
        lemma_reachable_append(s, m, b, (n - 1) as nat);
    }
}

proof fn lemma_reachable_concat(a: Seq<char>, b: Seq<char>, c: Seq<char>, n: nat, m: nat)
    requires
        spec_reachable(a, b, n),
        spec_reachable(b, c, m),
    ensures
        spec_reachable(a, c, n + m),
    decreases n,
{
    if a == b {
        lemma_reachable_mono(b, c, m, n + m);
    } else {
        let s = choose|s: Seq<char>|
            spec_one_edit(a, s) && spec_reachable(s, b, (n - 1) as nat);
        lemma_reachable_concat(s, b, c, (n - 1) as nat, m);
        assert(spec_one_edit(a, s) && spec_reachable(s, c, ((n + m) - 1) as nat));
    }
}

/// An edit inside two sequences lifts to the sequences with one more
/// matching character at the end.
proof fn lemma_one_edit_push(a: Seq<char>, s: Seq<char>, x: char)
    requires
        spec_one_edit(a, s),
    ensures
        spec_one_edit(a.push(x), s.push(x)),
{
    if exists|i: int| 0 <= i < a.len() && s == a.remove(i) {
        let i = choose|i: int| 0 <= i < a.len() && s == a.remove(i);
        assert(s.push(x) =~= a.push(x).remove(i));
    } else if exists|i: int, c: char| 0 <= i <= a.len() && s == a.insert(i, c) {
        let (i, c) = choose|i: int, c: char| 0 <= i <= a.len() && s == a.insert(i, c);
        assert(s.push(x) =~= a.push(x).insert(i, c));
    } else {
        let (i, c) = choose|i: int, c: char| 0 <= i < a.len() && s == a.update(i, c);
        assert(s.push(x) =~= a.push(x).update(i, c));
    }
}

proof fn lemma_reachable_push(a: Seq<char>, b: Seq<char>, x: char, n: nat)
    requires
        spec_reachable(a, b, n),
    ensures
        spec_reachable(a.push(x), b.push(x), n),
    decreases n,
{
    if a == b {
    } else {
        let s = choose|s: Seq<char>|
            spec_one_edit(a, s) && spec_reachable(s, b, (n - 1) as nat);
        lemma_one_edit_push(a, s, x);
        lemma_reachable_push(s, b, x, (n - 1) as nat);
        assert(spec_one_edit(a.push(x), s.push(x)) && spec_reachable(
            s.push(x),
            b.push(x),
            (n - 1) as nat,
        ));
    }
}

proof fn lemma_reach_from_empty(b: Seq<char>)
    ensures
        spec_reachable(Seq::empty(), b, b.len()),
    decreases b.len(),
{
    if b.len() == 0 {
        assert(Seq::<char>::empty() =~= b);
    } else {
        lemma_reach_from_empty(b.drop_last());
        assert(b.drop_last().insert(b.drop_last().len() as int, b.last()) =~= b);
        assert(spec_one_edit(b.drop_last(), b));
        lemma_reachable_append(Seq::empty(), b.drop_last(), b, (b.len() - 1) as nat);
    }
}

proof fn lemma_reach_to_empty(a: Seq<char>)
    ensures
        spec_reachable(a, Seq::empty(), a.len()),
    decreases a.len(),
{
    if a.len() == 0 {
        assert(a =~= Seq::<char>::empty());
    } else {
        lemma_reach_to_empty(a.drop_last());
        assert(a.remove(a.len() - 1) =~= a.drop_last());
        assert(spec_one_edit(a, a.drop_last()));
        assert(a != Seq::<char>::empty());
        assert(spec_one_edit(a, a.drop_last()) && spec_reachable(
            a.drop_last(),
            Seq::empty(),
            (a.len() - 1) as nat,
        ));
    }
}

/// The distance is realised by some script: `b` is reachable from `a`
/// within `spec_levenshtein(a, b)` edits.
proof fn lemma_levenshtein_realizable(a: Seq<char>, b: Seq<char>)
    ensures
        spec_reachable(a, b, spec_levenshtein(a, b)),
    decreases a.len(), b.len(),
{
    if a.len() == 0 {
        assert(a =~= Seq::<char>::empty());
        lemma_reach_from_empty(b);
    } else if b.len() == 0 {
        assert(b =~= Seq::<char>::empty());
        lemma_reach_to_empty(a);
    } else {
        let lab = spec_levenshtein(a, b);
        let del = spec_levenshtein(a.drop_last(), b) + 1;
        let ins = spec_levenshtein(a, b.drop_last()) + 1;
        let lsub = spec_levenshtein(a.drop_last(), b.drop_last());
        if lab == lsub + (if a.last() == b.last() {
            0nat
        } else {
            1nat
        }) {
            lemma_levenshtein_realizable(a.drop_last(), b.drop_last());
            lemma_reachable_push(a.drop_last(), b.drop_last(), a.last(), lsub);
            assert(a.drop_last().push(a.last()) =~= a);
            if a.last() == b.last() {
                assert(b.drop_last().push(a.last()) =~= b);
            } else {
                let mid = b.drop_last().push(a.last());
                assert(mid.update(mid.len() - 1, b.last()) =~= b);
                assert(spec_one_edit(mid, b));
                lemma_reachable_append(a, mid, b, lsub);
            }
        } else if lab == del {
            lemma_levenshtein_realizable(a.drop_last(), b);
            assert(a.remove(a.len() - 1) =~= a.drop_last());
            assert(spec_one_edit(a, a.drop_last()));
            if a != b {
                assert(spec_one_edit(a, a.drop_last()) && spec_reachable(
                    a.drop_last(),
                    b,
                    (lab - 1) as nat,
                ));
            }
        } else {
            assert(lab == ins);
            lemma_levenshtein_realizable(a, b.drop_last());
            assert(b.drop_last().insert(b.drop_last().len() as int, b.last()) =~= b);
            assert(spec_one_edit(b.drop_last(), b));
            lemma_reachable_append(a, b.drop_last(), b, spec_levenshtein(a, b.drop_last()));
        }
    }
}

/// The distance is at least the difference in lengths.
proof fn lemma_lev_ge_diff(a: Seq<char>, b: Seq<char>)
    ensures
        spec_levenshtein(a, b) + a.len() >= b.len(),
        spec_levenshtein(a, b) + b.len() >= a.len(),
    decreases a.len(), b.len(),
{
    if a.len() == 0 || b.len() == 0 {
    } else {
        lemma_lev_ge_diff(a.drop_last(), b);
        lemma_lev_ge_diff(a, b.drop_last());
        lemma_lev_ge_diff(a.drop_last(), b.drop_last());
    }
}

/// Deleting the last character costs at most one edit of distance.
proof fn lemma_del_last_bound(a: Seq<char>, b: Seq<char>)
    requires
        a.len() > 0,
    ensures
        spec_levenshtein(a, b) <= 1 + spec_levenshtein(a.drop_last(), b),
{
    if b.len() == 0 {
    } else {
    }
}

/// Appending a character costs at most one edit of distance.
proof fn lemma_push_bound(a: Seq<char>, c: char, b: Seq<char>)
    ensures
        spec_levenshtein(a, b) <= 1 + spec_levenshtein(a.push(c), b),
    decreases b.len(),
{
    let s = a.push(c);
    assert(s.drop_last() =~= a);
    assert(s.last() == c);
    if b.len() == 0 {
    } else {
        lemma_push_bound(a, c, b.drop_last());
        if a.len() == 0 {
            lemma_lev_ge_diff(s, b);
        } else {
        }
    }
}

/// Replacing the last character costs at most one edit of distance.
proof fn lemma_sub_last_bound(a: Seq<char>, c: char, b: Seq<char>)
    requires
        a.len() > 0,
    ensures
        spec_levenshtein(a, b) <= 1 + spec_levenshtein(a.drop_last().push(c), b),
    decreases b.len(),
{
    let s = a.drop_last().push(c);
    assert(s.drop_last() =~= a.drop_last());
    assert(s.last() == c);
    assert(s.len() == a.len());
    if b.len() == 0 {
    } else {
        lemma_sub_last_bound(a, c, b.drop_last());
    }
}

/// One elementary edit changes the distance to any third sequence by at
/// most one.
proof fn lemma_one_edit_bound(a: Seq<char>, s: Seq<char>, b: Seq<char>)
    requires
        spec_one_edit(a, s),
    ensures
        spec_levenshtein(a, b) <= 1 + spec_levenshtein(s, b),
    decreases a.len() + b.len(),
{
    if exists|i: int| 0 <= i < a.len() && s == a.remove(i) {
        let i = choose|i: int| 0 <= i < a.len() && s == a.remove(i);
        assert(s.len() == a.len() - 1);
        if i == a.len() - 1 {
            assert(s =~= a.drop_last());
            lemma_del_last_bound(a, b);
        } else {
            assert(s.last() == a.last());
            assert(s.drop_last() =~= a.drop_last().remove(i));
            assert(spec_one_edit(a.drop_last(), s.drop_last()));
            if b.len() == 0 {
            } else {
                lemma_one_edit_bound(a.drop_last(), s.drop_last(), b);
                lemma_one_edit_bound(a, s, b.drop_last());
                lemma_one_edit_bound(a.drop_last(), s.drop_last(), b.drop_last());
            }
        }
    } else if exists|i: int, c: char| 0 <= i <= a.len() && s == a.insert(i, c) {
        let (i, c) = choose|i: int, c: char| 0 <= i <= a.len() && s == a.insert(i, c);
        assert(s.len() == a.len() + 1);
        if i == a.len() {
            assert(s =~= a.push(c));
            lemma_push_bound(a, c, b);
        } else {
            assert(s.last() == a.last());
            assert(s.drop_last() =~= a.drop_last().insert(i, c));
            assert(spec_one_edit(a.drop_last(), s.drop_last()));
            if b.len() == 0 {
            } else {
                lemma_one_edit_bound(a.drop_last(), s.drop_last(), b);
                lemma_one_edit_bound(a, s, b.drop_last());
                lemma_one_edit_bound(a.drop_last(), s.drop_last(), b.drop_last());
            }
        }
    } else {
        let (i, c) = choose|i: int, c: char| 0 <= i < a.len() && s == a.update(i, c);
        assert(s.len() == a.len());
        if i == a.len() - 1 {
            assert(s =~= a.drop_last().push(c));
            lemma_sub_last_bound(a, c, b);
        } else {
            assert(s.last() == a.last());
            assert(s.drop_last() =~= a.drop_last().update(i, c));
            assert(spec_one_edit(a.drop_last(), s.drop_last()));
            if b.len() == 0 {
            } else {
                lemma_one_edit_bound(a.drop_last(), s.drop_last(), b);
                lemma_one_edit_bound(a, s, b.drop_last());
                lemma_one_edit_bound(a.drop_last(), s.drop_last(), b.drop_last());
            }
        }
    }
}

/// No script beats the distance: whatever reaches `b` from `a` in `n`
/// edits shows the distance is at most `n`.
proof fn lemma_reachable_bound(a: Seq<char>, b: Seq<char>, n: nat)
    requires
        spec_reachable(a, b, n),
    ensures
        spec_levenshtein(a, b) <= n,
    decreases n,
{
    if a == b {
        lemma_levenshtein_zero_iff_equal(a, b);
    } else {
        let s = choose|s: Seq<char>|
            spec_one_edit(a, s) && spec_reachable(s, b, (n - 1) as nat);
        lemma_reachable_bound(s, b, (n - 1) as nat);
        lemma_one_edit_bound(a, s, b);
    }
}

/// Law: the Levenshtein distance satisfies the triangle inequality.
pub proof fn lemma_levenshtein_triangle(a: Seq<char>, b: Seq<char>, c: Seq<char>)
    ensures
        spec_levenshtein(a, c) <= spec_levenshtein(a, b) + spec_levenshtein(b, c),
{
    lemma_levenshtein_realizable(a, b);
    lemma_levenshtein_realizable(b, c);
    lemma_reachable_concat(a, b, c, spec_levenshtein(a, b), spec_levenshtein(b, c));
    lemma_reachable_bound(a, c, spec_levenshtein(a, b) + spec_levenshtein(b, c));
}

// ---------------------------------------------------------------------------
// Sorting candidates by distance
// ---------------------------------------------------------------------------
/// Inserts `p` after every element whose distance is at most `p.1`, keeping
/// the relative order of equal distances.
pub open spec fn spec_insert_by_dist(s: Seq<(Seq<char>, nat)>, p: (Seq<char>, nat)) -> Seq<
    (Seq<char>, nat),
>
    decreases s.len(),
{
    if s.len() == 0 {
        seq![p]
    } else if s.last().1 <= p.1 {
        s.push(p)
    } else {
        spec_insert_by_dist(s.drop_last(), p).push(s.last())
    }
}

/// Stable insertion sort, ascending by distance.
pub open spec fn spec_sort_by_dist(s: Seq<(Seq<char>, nat)>) -> Seq<(Seq<char>, nat)>
    decreases s.len(),
{
    if s.len() == 0 {
        Seq::empty()
    } else {
        spec_insert_by_dist(spec_sort_by_dist(s.drop_last()), s.last())
    }
}

pub open spec fn spec_dist_pairs(target: Seq<char>, cands: Seq<Seq<char>>) -> Seq<
    (Seq<char>, nat),
> {
    cands.map_values(|c: Seq<char>| (c, spec_levenshtein(target, c)))
}

/// The names of the pairs within the distance threshold of three, in order.
pub open spec fn spec_shortlist(s: Seq<(Seq<char>, nat)>) -> Seq<Seq<char>> {
    s.filter(|p: (Seq<char>, nat)| p.1 <= 3).map_values(|p: (Seq<char>, nat)| p.0)
}

/// What `find_similar_strings` returns: the candidates sorted stably by
/// ascending distance to the target, cut to the first `max` entries, with
/// every entry farther than the threshold of three dropped.
pub open spec fn spec_suggestions(target: Seq<char>, cands: Seq<Seq<char>>, max: nat) -> Seq<
    Seq<char>,
> {
    let sorted = spec_sort_by_dist(spec_dist_pairs(target, cands));
    let taken = if sorted.len() <= max {
        sorted
    } else {
        sorted.take(max as int)
    };
    spec_shortlist(taken)
}

pub open spec fn pair_views(s: Seq<(String, usize)>) -> Seq<(Seq<char>, nat)> {
    s.map_values(|p: (String, usize)| (p.0@, p.1 as nat))
}

/// Finds the `max_suggestions` candidates closest to `target` by Levenshtein
/// distance, closest first, ties in the order they were supplied; candidates
/// at distance greater than three are never returned.
pub fn find_similar_strings(target: &str, candidates: &[String], max_suggestions: usize) -> (r:
    Vec<String>)
    ensures
        r.deep_view() == spec_suggestions(target@, candidates.deep_view(), max_suggestions as nat),
{
    let ghost cands: Seq<Seq<char>> = candidates.deep_view();
    let ghost pairs: Seq<(Seq<char>, nat)> = spec_dist_pairs(target@, cands);
    let mut sorted: Vec<(String, usize)> = Vec::new();
    let mut i: usize = 0;
    while i < candidates.len()
        invariant
            0 <= i <= candidates.len(),
            cands == candidates.deep_view(),
            cands.len() == candidates.len(),
            pairs == spec_dist_pairs(target@, cands),
            pair_views(sorted@) == spec_sort_by_dist(pairs.take(i as int)),
        decreases candidates.len() - i,
    {
        let cand = &candidates[i];
        assert(cand@ == cands[i as int]);
        let d = levenshtein_distance(target, cand.as_str());
        let ghost s = pair_views(sorted@);
        let ghost p: (Seq<char>, nat) = (cand@, d as nat);
        let mut k = sorted.len();
        assert(s.take(k as int) =~= s);
        assert(s.skip(k as int) =~= Seq::<(Seq<char>, nat)>::empty());
        assert(spec_insert_by_dist(s, p) =~= spec_insert_by_dist(s.take(k as int), p) + s.skip(
            k as int,
        ));
        while k > 0 && sorted[k - 1].1 > d
            invariant
                0 <= k <= sorted.len(),
                s == pair_views(sorted@),
                s.len() == sorted.len(),
                p == (cand@, d as nat),
                spec_insert_by_dist(s, p) == spec_insert_by_dist(s.take(k as int), p) + s.skip(
                    k as int,
                ),
            decreases k,
        {
            proof {
                let t = s.take(k as int);
                assert(t.last() == s[k - 1]);
                assert(s[k - 1].1 == sorted@[k - 1].1 as nat);
                assert(t.drop_last() =~= s.take(k - 1));
                assert(spec_insert_by_dist(t, p) == spec_insert_by_dist(s.take(k - 1), p).push(
                    s[k - 1],
                ));
                assert(spec_insert_by_dist(s.take(k - 1), p).push(s[k - 1]) + s.skip(k as int)
                    =~= spec_insert_by_dist(s.take(k - 1), p) + s.skip(k - 1));
            }
            k -= 1;
        }
        proof {
            let t = s.take(k as int);
            if k > 0 {
                assert(t.last() == s[k - 1]);
                assert(s[k - 1].1 == sorted@[k - 1].1 as nat);
            }
            assert(spec_insert_by_dist(t, p) =~= t.push(p));
            assert(spec_insert_by_dist(s, p) == s.take(k as int).push(p) + s.skip(k as int));
        }
        let cloned_cand = cand.clone();
        sorted.insert(k, (cloned_cand, d));
        proof {
            assert(pair_views(sorted@) =~= spec_insert_by_dist(s, p));
            assert(pairs.take(i + 1).drop_last() =~= pairs.take(i as int));
            assert(pairs.take(i + 1).last() == pairs[i as int]);
            assert(pairs[i as int] == p);
            assert(pair_views(sorted@) == spec_sort_by_dist(pairs.take(i + 1)));
        }
        i += 1;
    }
    assert(pairs.take(candidates.len() as int) =~= pairs);
    let ghost full: Seq<(Seq<char>, nat)> = spec_sort_by_dist(pairs);
    assert(pair_views(sorted@) == full);
    let ghost taken: Seq<(Seq<char>, nat)> = if full.len() <= max_suggestions as nat {
        full
    } else {
        full.take(max_suggestions as int)
    };
    let mut out: Vec<String> = Vec::new();
    let mut i: usize = 0;
    while i < sorted.len() && i < max_suggestions
        invariant
            0 <= i <= sorted.len(),
            pair_views(sorted@) == full,
            full.len() == sorted.len(),
            i <= max_suggestions,
            out.deep_view() == spec_shortlist(full.take(i as int)),
        decreases sorted.len() - i,
    {
        if sorted[i].1 <= 3 {
            let c = sorted[i].0.clone();
            out.push(c);
        }
        proof {
            reveal(Seq::filter);
            let t0 = full.take(i as int);
            let t1 = full.take(i + 1);
            assert(t1.drop_last() =~= t0);
            assert(t1.last() == full[i as int]);
            assert(full[i as int].1 == sorted@[i as int].1 as nat);
            assert(full[i as int].0 == sorted@[i as int].0@);
            if sorted@[i as int].1 <= 3 {
                assert(spec_shortlist(t1) =~= spec_shortlist(t0).push(full[i as int].0));
            } else {
                assert(spec_shortlist(t1) =~= spec_shortlist(t0));
            }
            assert(out.deep_view() =~= spec_shortlist(t1));
        }
        i += 1;
    }
    proof {
        if sorted.len() <= max_suggestions {
            assert(full.take(sorted.len() as int) =~= full);
            assert(full.take(i as int) == taken);
        } else {
            assert(i == max_suggestions);
            assert(full.take(i as int) == taken);
        }
    }
    out
}

} // verus!
