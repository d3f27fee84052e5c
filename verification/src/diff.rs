//! Line diff engine: computes the contiguous changed block between two
//! texts at line granularity, in the style of the classic gestalt pattern
//! matching sequence matcher (no junk heuristic).

use vstd::prelude::*;
use vstd::string::StrSliceExecFns;

use crate::helpers::split_str;
use crate::textspec::{spec_lines, spec_split};

verus! {

/// Represents a changed block with line numbers (1-based).
#[derive(Debug, Clone, PartialEq, Eq)]
pub struct ChangedBlock {
    /// Start line in the old text (1-based).
    pub start_before: usize,
    /// End line in the old text (1-based, inclusive; `end_before <
    /// start_before` encodes a pure insertion before `start_before`).
    pub end_before: usize,
    /// Start line in the new text (1-based).
    pub start_after: usize,
    /// End line in the new text (1-based, inclusive).
    pub end_after: usize,
    /// The replacement lines from the new text.
    pub replacement_lines: Vec<String>,
}

/// A matching block: lines `a[i .. i + n]` equal lines `b[j .. j + n]`.
#[derive(Debug, Clone, Copy)]
struct MatchBlock {
    i: usize,
    j: usize,
    n: usize,
}

/// `a[i .. i + n]` equals `b[j .. j + n]`, inside the window
/// `[alo, ahi) x [blo, bhi)`.
pub open spec fn is_match(
    a: Seq<Seq<char>>,
    b: Seq<Seq<char>>,
    alo: int,
    ahi: int,
    blo: int,
    bhi: int,
    i: int,
    j: int,
    n: int,
) -> bool {
    &&& 0 <= n
    &&& alo <= i
    &&& i + n <= ahi
    &&& blo <= j
    &&& j + n <= bhi
    &&& forall|k: int| 0 <= k < n ==> a[i + k] == #[trigger] b[j + k]
}

/// Length of the longest common run of equal lines ending at `(i, j)`,
/// clamped to start no earlier than `(alo, blo)`.
spec fn run_len(a: Seq<Seq<char>>, b: Seq<Seq<char>>, alo: int, blo: int, i: int, j: int) -> int
    decreases (i - alo) + (j - blo),
{
    if i < alo || j < blo || i >= a.len() || j >= b.len() {
        0
    } else if a[i] != b[j] {
        0
    } else if i == alo || j == blo {
        1
    } else {
        run_len(a, b, alo, blo, i - 1, j - 1) + 1
    }
}

/// A run is never longer than its distance from the window edges.
proof fn lemma_run_len_bounds(a: Seq<Seq<char>>, b: Seq<Seq<char>>, alo: int, blo: int, i: int, j: int)
    ensures
        run_len(a, b, alo, blo, i, j) >= 0,
        i >= alo ==> run_len(a, b, alo, blo, i, j) <= i - alo + 1,
        j >= blo ==> run_len(a, b, alo, blo, i, j) <= j - blo + 1,
    decreases (i - alo) + (j - blo),
{
    if !(i < alo || j < blo || i >= a.len() || j >= b.len()) && a[i] == b[j] && i != alo && j
        != blo {
        lemma_run_len_bounds(a, b, alo, blo, i - 1, j - 1);
    }
}

/// Every match of length `n` ending at `(i + n - 1, j + n - 1)` witnesses a
/// run at least that long.
proof fn lemma_match_run(
    a: Seq<Seq<char>>,
    b: Seq<Seq<char>>,
    alo: int,
    ahi: int,
    blo: int,
    bhi: int,
    i: int,
    j: int,
    n: int,
)
    requires
        is_match(a, b, alo, ahi, blo, bhi, i, j, n),
        n >= 1,
        ahi <= a.len(),
        bhi <= b.len(),
    ensures
        run_len(a, b, alo, blo, i + n - 1, j + n - 1) >= n,
    decreases n,
{
    assert(a[i + (n - 1)] == b[j + (n - 1)]);
    lemma_run_len_bounds(a, b, alo, blo, i + n - 2, j + n - 2);
    if n >= 2 {
        assert(is_match(a, b, alo, ahi, blo, bhi, i, j, n - 1));
        lemma_match_run(a, b, alo, ahi, blo, bhi, i, j, n - 1);
    }
}

/// Every positive run yields a match of that length ending where the run
/// ends.
proof fn lemma_run_match(
    a: Seq<Seq<char>>,
    b: Seq<Seq<char>>,
    alo: int,
    ahi: int,
    blo: int,
    bhi: int,
    i: int,
    j: int,
)
    requires
        alo <= i < ahi <= a.len(),
        blo <= j < bhi <= b.len(),
        run_len(a, b, alo, blo, i, j) >= 1,
    ensures
        is_match(
            a,
            b,
            alo,
            ahi,
            blo,
            bhi,
            i + 1 - run_len(a, b, alo, blo, i, j),
            j + 1 - run_len(a, b, alo, blo, i, j),
            run_len(a, b, alo, blo, i, j),
        ),
    decreases (i - alo) + (j - blo),
{
    let r = run_len(a, b, alo, blo, i, j);
    lemma_run_len_bounds(a, b, alo, blo, i, j);
    if r >= 2 {
        lemma_run_match(a, b, alo, ahi, blo, bhi, i - 1, j - 1);
        let r1 = run_len(a, b, alo, blo, i - 1, j - 1);
        assert(r1 == r - 1);
        assert forall|k: int| 0 <= k < r implies a[i + 1 - r + k] == #[trigger] b[j + 1 - r + k] by {
            if k < r - 1 {
                assert(a[(i - 1) + 1 - r1 + k] == b[(j - 1) + 1 - r1 + k]);
            }
        }
    }
}

/// What the matcher returns for a window: a maximal match, leftmost on the
/// old side and then on the new side among maximal ones, degenerating to
/// the window origin when no lines match.
pub open spec fn lm_props(
    a: Seq<Seq<char>>,
    b: Seq<Seq<char>>,
    alo: int,
    ahi: int,
    blo: int,
    bhi: int,
    t: (int, int, int),
) -> bool {
    &&& is_match(a, b, alo, ahi, blo, bhi, t.0, t.1, t.2)
    &&& forall|i: int, j: int, n: int| is_match(a, b, alo, ahi, blo, bhi, i, j, n) ==> n <= t.2
    &&& forall|i: int, j: int, n: int|
        #![trigger is_match(a, b, alo, ahi, blo, bhi, i, j, n)]
        is_match(a, b, alo, ahi, blo, bhi, i, j, n) && n == t.2 && n > 0 ==> t.0 <= i && (t.0
            == i ==> t.1 <= j)
    &&& (t.2 == 0 ==> t.0 == alo && t.1 == blo)
}

/// The matcher's characterization admits exactly one triple.
proof fn lemma_lm_unique(
    a: Seq<Seq<char>>,
    b: Seq<Seq<char>>,
    alo: int,
    ahi: int,
    blo: int,
    bhi: int,
    t1: (int, int, int),
    t2: (int, int, int),
)
    requires
        lm_props(a, b, alo, ahi, blo, bhi, t1),
        lm_props(a, b, alo, ahi, blo, bhi, t2),
    ensures
        t1 == t2,
{
    assert(t1.2 <= t2.2 && t2.2 <= t1.2);
    if t1.2 > 0 {
        assert(t1.0 <= t2.0 && t2.0 <= t1.0);
        assert(t1.1 <= t2.1 && t2.1 <= t1.1);
    }
}

/// The leftmost longest match of a window.
pub open spec fn spec_longest_match(
    a: Seq<Seq<char>>,
    b: Seq<Seq<char>>,
    alo: int,
    ahi: int,
    blo: int,
    bhi: int,
) -> (int, int, int) {
    choose|t: (int, int, int)| lm_props(a, b, alo, ahi, blo, bhi, t)
}

/// The matching blocks of a window, in order: the leftmost longest match
/// splits the window and the two sides are decomposed in turn.
pub open spec fn spec_matching_blocks(
    a: Seq<Seq<char>>,
    b: Seq<Seq<char>>,
    alo: int,
    ahi: int,
    blo: int,
    bhi: int,
) -> Seq<(int, int, int)>
    decreases ahi - alo + bhi - blo,
{
    let m = spec_longest_match(a, b, alo, ahi, blo, bhi);
    if !(alo <= ahi && blo <= bhi && alo <= m.0 && m.0 + m.2 <= ahi && blo <= m.1 && m.1 + m.2
        <= bhi && m.2 >= 1) {
        Seq::empty()
    } else {
        (if alo < m.0 && blo < m.1 {
            spec_matching_blocks(a, b, alo, m.0, blo, m.1)
        } else {
            Seq::empty()
        }) + seq![m] + (if m.0 + m.2 < ahi && m.1 + m.2 < bhi {
            spec_matching_blocks(a, b, m.0 + m.2, ahi, m.1 + m.2, bhi)
        } else {
            Seq::empty()
        })
    }
}

/// Find the longest matching block of lines within the given window: the
/// returned block is a match, and no match in the window is longer.
fn find_longest_match(
    a: &Vec<String>,
    b: &Vec<String>,
    alo: usize,
    ahi: usize,
    blo: usize,
    bhi: usize,
) -> (m: MatchBlock)
    requires
        alo <= ahi <= a@.len(),
        blo <= bhi <= b@.len(),
    ensures
        is_match(
            a.deep_view(),
            b.deep_view(),
            alo as int,
            ahi as int,
            blo as int,
            bhi as int,
            m.i as int,
            m.j as int,
            m.n as int,
        ),
        forall|i: int, j: int, n: int|
            is_match(
                a.deep_view(),
                b.deep_view(),
                alo as int,
                ahi as int,
                blo as int,
                bhi as int,
                i,
                j,
                n,
            ) ==> n <= m.n,
        forall|i: int, j: int, n: int|
            #![trigger is_match(a.deep_view(), b.deep_view(), alo as int, ahi as int, blo as int, bhi as int, i, j, n)]
            is_match(
                a.deep_view(),
                b.deep_view(),
                alo as int,
                ahi as int,
                blo as int,
                bhi as int,
                i,
                j,
                n,
            ) && n == m.n && n > 0 ==> m.i <= i && (m.i == i ==> m.j <= j),
        m.n == 0 ==> m.i == alo && m.j == blo,
        lm_props(
            a.deep_view(),
            b.deep_view(),
            alo as int,
            ahi as int,
            blo as int,
            bhi as int,
            (m.i as int, m.j as int, m.n as int),
        ),
{
    let ghost av = a.deep_view();
    let ghost bv = b.deep_view();
    proof {
        assert(av.len() == a@.len());
        assert(bv.len() == b@.len());
    }
    let mut besti = alo;
    let mut bestj = blo;
    let mut bestsize: usize = 0;

    let mut j2len: Vec<usize> = Vec::new();
    let mut z: usize = 0;
    while z < bhi
        invariant
            z <= bhi,
            j2len@.len() == z,
            forall|jj: int| 0 <= jj < z ==> j2len@[jj] == 0,
        decreases bhi - z,
    {
        j2len.push(0);
        z = z + 1;
    }

    let mut i = alo;
    while i < ahi
        invariant
            alo <= i <= ahi <= a@.len(),
            blo <= bhi <= b@.len(),
            av == a.deep_view(),
            bv == b.deep_view(),
            av.len() == a@.len(),
            bv.len() == b@.len(),
            j2len@.len() == bhi,
            forall|jj: int|
                blo <= jj < bhi ==> j2len@[jj] == run_len(av, bv, alo as int, blo as int, i - 1, jj),
            bestsize == 0 ==> besti == alo && bestj == blo,
            is_match(
                av,
                bv,
                alo as int,
                ahi as int,
                blo as int,
                bhi as int,
                besti as int,
                bestj as int,
                bestsize as int,
            ),
            forall|ie: int, je: int|
                alo <= ie < i && blo <= je < bhi ==> run_len(av, bv, alo as int, blo as int, ie, je)
                    <= bestsize,
            bestsize > 0 ==> besti + bestsize - 1 < i,
            forall|ie: int, je: int|
                alo <= ie < i && blo <= je < bhi && run_len(av, bv, alo as int, blo as int, ie, je)
                    == bestsize && bestsize > 0 ==> besti + bestsize - 1 < ie || (besti + bestsize
                    - 1 == ie && bestj + bestsize - 1 <= je),
        decreases ahi - i,
    {
        let mut newrow: Vec<usize> = Vec::new();
        let mut z2: usize = 0;
        while z2 < blo
            invariant
                z2 <= blo,
                newrow@.len() == z2,
            decreases blo - z2,
        {
            newrow.push(0);
            z2 = z2 + 1;
        }
        let mut j = blo;
        while j < bhi
            invariant
                alo <= i < ahi <= a@.len(),
                blo <= j <= bhi <= b@.len(),
                av == a.deep_view(),
                bv == b.deep_view(),
                av.len() == a@.len(),
                bv.len() == b@.len(),
                j2len@.len() == bhi,
                newrow@.len() == j,
                forall|jj: int|
                    blo <= jj < bhi ==> j2len@[jj] == run_len(
                        av,
                        bv,
                        alo as int,
                        blo as int,
                        i - 1,
                        jj,
                    ),
                forall|jj: int|
                    blo <= jj < j ==> newrow@[jj] == run_len(av, bv, alo as int, blo as int, i as int, jj),
                bestsize == 0 ==> besti == alo && bestj == blo,
                is_match(
                    av,
                    bv,
                    alo as int,
                    ahi as int,
                    blo as int,
                    bhi as int,
                    besti as int,
                    bestj as int,
                    bestsize as int,
                ),
                forall|ie: int, je: int|
                    alo <= ie < i && blo <= je < bhi ==> run_len(
                        av,
                        bv,
                        alo as int,
                        blo as int,
                        ie,
                        je,
                    ) <= bestsize,
                forall|je: int|
                    blo <= je < j ==> run_len(av, bv, alo as int, blo as int, i as int, je)
                        <= bestsize,
                bestsize > 0 ==> besti + bestsize - 1 < i || (besti + bestsize - 1 == i && bestj
                    + bestsize - 1 < j),
                forall|ie: int, je: int|
                    alo <= ie < i && blo <= je < bhi && run_len(
                        av,
                        bv,
                        alo as int,
                        blo as int,
                        ie,
                        je,
                    ) == bestsize && bestsize > 0 ==> besti + bestsize - 1 < ie || (besti
                    + bestsize - 1 == ie && bestj + bestsize - 1 <= je),
                forall|je: int|
                    blo <= je < j && run_len(av, bv, alo as int, blo as int, i as int, je)
                        == bestsize && bestsize > 0 ==> besti + bestsize - 1 < i || (besti
                        + bestsize - 1 == i && bestj + bestsize - 1 <= je),
            decreases bhi - j,
        {
            proof {
                assert(av[i as int] == a@[i as int]@);
                assert(bv[j as int] == b@[j as int]@);
            }
            let eq = a[i].eq(&b[j]);
            let k: usize = if eq {
                if j > blo {
                    proof {
                        lemma_run_len_bounds(av, bv, alo as int, blo as int, i - 1, j - 1);
                    }
                    j2len[j - 1] + 1
                } else {
                    1
                }
            } else {
                0
            };
            proof {
                assert(k == run_len(av, bv, alo as int, blo as int, i as int, j as int));
            }
            newrow.push(k);
            if k > bestsize {
                besti = i + 1 - k;
                bestj = j + 1 - k;
                bestsize = k;
                proof {
                    lemma_run_match(
                        av,
                        bv,
                        alo as int,
                        ahi as int,
                        blo as int,
                        bhi as int,
                        i as int,
                        j as int,
                    );
                }
            }
            j = j + 1;
        }
        j2len = newrow;
        i = i + 1;
    }
    proof {
        assert forall|mi: int, mj: int, mn: int|
            is_match(av, bv, alo as int, ahi as int, blo as int, bhi as int, mi, mj, mn)
            implies mn <= bestsize by {
            if mn >= 1 {
                lemma_match_run(av, bv, alo as int, ahi as int, blo as int, bhi as int, mi, mj, mn);
                assert(run_len(av, bv, alo as int, blo as int, mi + mn - 1, mj + mn - 1)
                    <= bestsize);
            }
        }
        assert forall|mi: int, mj: int, mn: int|
            #![trigger is_match(av, bv, alo as int, ahi as int, blo as int, bhi as int, mi, mj, mn)]
            is_match(av, bv, alo as int, ahi as int, blo as int, bhi as int, mi, mj, mn) && mn
            == bestsize && mn > 0 implies besti <= mi && (besti == mi ==> bestj <= mj) by {
            lemma_match_run(av, bv, alo as int, ahi as int, blo as int, bhi as int, mi, mj, mn);
            lemma_run_len_bounds(av, bv, alo as int, blo as int, mi + mn - 1, mj + mn - 1);
            assert(run_len(av, bv, alo as int, blo as int, mi + mn - 1, mj + mn - 1)
                == bestsize);
        }
    }

    // The two extension passes of the classic matcher cannot fire here: the
    // dynamic program already found a longest match, which an extension
    // would exceed.
    while besti > alo && bestj > blo && a[besti - 1].eq(&b[bestj - 1])
        invariant
            alo <= besti,
            blo <= bestj,
            bestsize == 0 ==> besti == alo && bestj == blo,
            besti + bestsize <= ahi <= a@.len(),
            bestj + bestsize <= bhi <= b@.len(),
            av == a.deep_view(),
            bv == b.deep_view(),
            is_match(
                av,
                bv,
                alo as int,
                ahi as int,
                blo as int,
                bhi as int,
                besti as int,
                bestj as int,
                bestsize as int,
            ),
            forall|mi: int, mj: int, mn: int|
                is_match(av, bv, alo as int, ahi as int, blo as int, bhi as int, mi, mj, mn)
                    ==> mn <= bestsize,
            forall|mi: int, mj: int, mn: int|
                #![trigger is_match(av, bv, alo as int, ahi as int, blo as int, bhi as int, mi, mj, mn)]
                is_match(av, bv, alo as int, ahi as int, blo as int, bhi as int, mi, mj, mn)
                    && mn == bestsize && mn > 0 ==> besti <= mi && (besti == mi ==> bestj <= mj),
        decreases besti,
    {
        proof {
            assert(av[besti - 1] == a@[besti - 1]@);
            assert(bv[bestj - 1] == b@[bestj - 1]@);
            assert forall|k: int| 0 <= k < bestsize + 1 implies av[besti - 1 + k]
                == #[trigger] bv[bestj - 1 + k] by {
                if k >= 1 {
                    assert(av[besti as int + (k - 1)] == bv[bestj as int + (k - 1)]);
                }
            }
            assert(is_match(
                av,
                bv,
                alo as int,
                ahi as int,
                blo as int,
                bhi as int,
                besti - 1,
                bestj - 1,
                bestsize + 1,
            ));
            assert(false);
        }
        besti = besti - 1;
        bestj = bestj - 1;
        bestsize = bestsize + 1;
    }
    while besti + bestsize < ahi && bestj + bestsize < bhi && a[besti + bestsize].eq(
        &b[bestj + bestsize],
    )
        invariant
            alo <= besti,
            blo <= bestj,
            besti + bestsize <= ahi <= a@.len(),
            bestj + bestsize <= bhi <= b@.len(),
            av == a.deep_view(),
            bv == b.deep_view(),
            bestsize == 0 ==> besti == alo && bestj == blo,
            is_match(
                av,
                bv,
                alo as int,
                ahi as int,
                blo as int,
                bhi as int,
                besti as int,
                bestj as int,
                bestsize as int,
            ),
            forall|mi: int, mj: int, mn: int|
                is_match(av, bv, alo as int, ahi as int, blo as int, bhi as int, mi, mj, mn)
                    ==> mn <= bestsize,
            forall|mi: int, mj: int, mn: int|
                #![trigger is_match(av, bv, alo as int, ahi as int, blo as int, bhi as int, mi, mj, mn)]
                is_match(av, bv, alo as int, ahi as int, blo as int, bhi as int, mi, mj, mn)
                    && mn == bestsize && mn > 0 ==> besti <= mi && (besti == mi ==> bestj <= mj),
        decreases ahi - besti - bestsize,
    {
        proof {
            assert(av[besti + bestsize] == a@[besti + bestsize]@);
            assert(bv[bestj + bestsize] == b@[bestj + bestsize]@);
            assert forall|k: int| 0 <= k < bestsize + 1 implies av[besti + k]
                == #[trigger] bv[bestj + k] by {
            }
            assert(is_match(
                av,
                bv,
                alo as int,
                ahi as int,
                blo as int,
                bhi as int,
                besti as int,
                bestj as int,
                bestsize + 1,
            ));
            assert(false);
        }
        bestsize = bestsize + 1;
    }

    MatchBlock { i: besti, j: bestj, n: bestsize }
}

/// The window contents are equal line for line.
pub open spec fn window_eq(
    a: Seq<Seq<char>>,
    b: Seq<Seq<char>>,
    alo: int,
    ahi: int,
    blo: int,
    bhi: int,
) -> bool {
    &&& ahi - alo == bhi - blo
    &&& forall|k: int| 0 <= k < ahi - alo ==> a[alo + k] == #[trigger] b[blo + k]
}

/// A strictly ordered chain of non-empty matching blocks inside the window.
spec fn blocks_ok(
    a: Seq<Seq<char>>,
    b: Seq<Seq<char>>,
    alo: int,
    ahi: int,
    blo: int,
    bhi: int,
    r: Seq<MatchBlock>,
) -> bool {
    &&& forall|k: int|
        0 <= k < r.len() ==> (#[trigger] r[k]).n >= 1 && is_match(
            a,
            b,
            alo,
            ahi,
            blo,
            bhi,
            r[k].i as int,
            r[k].j as int,
            r[k].n as int,
        )
    &&& forall|k: int|
        #![trigger r[k], r[k + 1]]
        0 <= k < r.len() - 1 ==> r[k].i + r[k].n <= r[k + 1].i && r[k].j + r[k].n <= r[k + 1].j
            && (r[k].i + r[k].n < r[k + 1].i || r[k].j + r[k].n < r[k + 1].j)
}

/// Instantiate the ordering chain of a block list at one position.
proof fn lemma_blocks_adjacent(r: Seq<MatchBlock>, k: int)
    requires
        0 <= k < r.len() - 1,
        forall|kk: int|
            #![trigger r[kk], r[kk + 1]]
            0 <= kk < r.len() - 1 ==> r[kk].i + r[kk].n <= r[kk + 1].i && r[kk].j + r[kk].n
                <= r[kk + 1].j && (r[kk].i + r[kk].n < r[kk + 1].i || r[kk].j + r[kk].n < r[kk
                + 1].j),
    ensures
        r[k].i + r[k].n <= r[k + 1].i,
        r[k].j + r[k].n <= r[k + 1].j,
        r[k].i + r[k].n < r[k + 1].i || r[k].j + r[k].n < r[k + 1].j,
{
    let x = r[k];
    let y = r[k + 1];
}

/// Instantiate the contiguity chain of an opcode list at one position.
proof fn lemma_ops_adjacent(ops: Seq<Opcode>, k: int)
    requires
        0 <= k < ops.len() - 1,
        forall|kk: int|
            #![trigger ops[kk], ops[kk + 1]]
            0 <= kk < ops.len() - 1 ==> ops[kk].i2 == ops[kk + 1].i1 && ops[kk].j2 == ops[kk
                + 1].j1,
    ensures
        ops[k].i2 == ops[k + 1].i1,
        ops[k].j2 == ops[k + 1].j1,
{
    let x = ops[k];
    let y = ops[k + 1];
}

/// Recursively collect the matching blocks of the window, in order: the
/// longest match splits the window, and the two sides are processed in turn.
fn matching_blocks_rec(
    a: &Vec<String>,
    b: &Vec<String>,
    alo: usize,
    ahi: usize,
    blo: usize,
    bhi: usize,
) -> (r: Vec<MatchBlock>)
    requires
        alo <= ahi <= a@.len(),
        blo <= bhi <= b@.len(),
    ensures
        blocks_ok(
            a.deep_view(),
            b.deep_view(),
            alo as int,
            ahi as int,
            blo as int,
            bhi as int,
            r@,
        ),
        window_eq(a.deep_view(), b.deep_view(), alo as int, ahi as int, blo as int, bhi as int)
            ==> (r@.len() <= 1 && (ahi > alo ==> r@.len() == 1) && (r@.len() == 1 ==> r@[0].i
            == alo && r@[0].j == blo && r@[0].n == ahi - alo)),
        r@.map_values(|mb: MatchBlock| (mb.i as int, mb.j as int, mb.n as int))
            == spec_matching_blocks(
            a.deep_view(),
            b.deep_view(),
            alo as int,
            ahi as int,
            blo as int,
            bhi as int,
        ),
    decreases (ahi - alo) + (bhi - blo),
{
    let ghost av = a.deep_view();
    let ghost bv = b.deep_view();
    let m = find_longest_match(a, b, alo, ahi, blo, bhi);
    proof {
        if window_eq(av, bv, alo as int, ahi as int, blo as int, bhi as int) {
            assert(is_match(
                av,
                bv,
                alo as int,
                ahi as int,
                blo as int,
                bhi as int,
                alo as int,
                blo as int,
                ahi - alo,
            ));
            assert(m.n >= ahi - alo);
            assert(m.n == ahi - alo && m.i == alo && m.j == blo);
        }
    }
    proof {
        let mt = (m.i as int, m.j as int, m.n as int);
        let st = spec_longest_match(av, bv, alo as int, ahi as int, blo as int, bhi as int);
        assert(lm_props(av, bv, alo as int, ahi as int, blo as int, bhi as int, st));
        lemma_lm_unique(av, bv, alo as int, ahi as int, blo as int, bhi as int, mt, st);
        assert(st == mt);
    }
    if m.n == 0 {
        let r: Vec<MatchBlock> = Vec::new();
        proof {
            assert(r@.map_values(|mb: MatchBlock| (mb.i as int, mb.j as int, mb.n as int))
                =~= Seq::<(int, int, int)>::empty());
            assert(spec_matching_blocks(av, bv, alo as int, ahi as int, blo as int, bhi as int)
                =~= Seq::<(int, int, int)>::empty());
        }
        return r;
    }
    let ghost f = |mb: MatchBlock| (mb.i as int, mb.j as int, mb.n as int);
    let ghost sleft: Seq<(int, int, int)> = if alo < m.i && blo < m.j {
        spec_matching_blocks(av, bv, alo as int, m.i as int, blo as int, m.j as int)
    } else {
        Seq::empty()
    };
    let ghost sright: Seq<(int, int, int)> = if m.i + m.n < ahi && m.j + m.n < bhi {
        spec_matching_blocks(av, bv, m.i + m.n, ahi as int, m.j + m.n, bhi as int)
    } else {
        Seq::empty()
    };
    proof {
        assert(spec_matching_blocks(av, bv, alo as int, ahi as int, blo as int, bhi as int)
            == sleft + seq![(m.i as int, m.j as int, m.n as int)] + sright);
    }
    let mut result: Vec<MatchBlock> = Vec::new();
    if alo < m.i && blo < m.j {
        result = matching_blocks_rec(a, b, alo, m.i, blo, m.j);
    }
    let ghost left = result@;
    proof {
        assert forall|k: int| 0 <= k < left.len() implies (#[trigger] left[k]).n >= 1 && is_match(
            av,
            bv,
            alo as int,
            ahi as int,
            blo as int,
            bhi as int,
            left[k].i as int,
            left[k].j as int,
            left[k].n as int,
        ) by {
            assert(left[k].n >= 1);
        }
    }
    result.push(m);
    proof {
        assert(result@.map_values(|mb: MatchBlock| (mb.i as int, mb.j as int, mb.n as int))
            =~= sleft + seq![(m.i as int, m.j as int, m.n as int)] + Seq::<(
            int,
            int,
            int,
        )>::empty());
        let mid0 = result@;
        assert forall|k: int|
            #![trigger mid0[k], mid0[k + 1]]
            0 <= k < mid0.len() - 1 implies mid0[k].i + mid0[k].n <= mid0[k + 1].i && mid0[k].j
            + mid0[k].n <= mid0[k + 1].j && (mid0[k].i + mid0[k].n < mid0[k + 1].i || mid0[k].j
            + mid0[k].n < mid0[k + 1].j) by {
            if k + 1 < left.len() {
                assert(mid0[k] == left[k] && mid0[k + 1] == left[k + 1]);
                lemma_blocks_adjacent(left, k);
            } else {
                assert(mid0[k] == left[k] && mid0[k + 1] == m);
                assert(is_match(
                    av,
                    bv,
                    alo as int,
                    m.i as int,
                    blo as int,
                    m.j as int,
                    left[k].i as int,
                    left[k].j as int,
                    left[k].n as int,
                ));
                if left[k].i + left[k].n == m.i && left[k].j + left[k].n == m.j {
                    let lb = left[k];
                    assert forall|t: int| 0 <= t < lb.n + m.n implies av[lb.i + t]
                        == #[trigger] bv[lb.j + t] by {
                        if t >= lb.n {
                            assert(av[m.i + (t - lb.n)] == bv[m.j + (t - lb.n)]);
                        }
                    }
                    assert(is_match(
                        av,
                        bv,
                        alo as int,
                        ahi as int,
                        blo as int,
                        bhi as int,
                        lb.i as int,
                        lb.j as int,
                        lb.n + m.n,
                    ));
                    assert(false);
                }
            }
        }
    }
    if m.i + m.n < ahi && m.j + m.n < bhi {
        let mut right = matching_blocks_rec(a, b, m.i + m.n, ahi, m.j + m.n, bhi);
        let ghost rightv = right@;
        let ghost mid = result@;
        result.append(&mut right);
        proof {
            assert(result@ =~= mid + rightv);
            assert(result@.map_values(|mb: MatchBlock| (mb.i as int, mb.j as int, mb.n as int))
                =~= sleft + seq![(m.i as int, m.j as int, m.n as int)] + sright);
            assert forall|k: int|
                0 <= k < result@.len() implies (#[trigger] result@[k]).n >= 1 && is_match(
                av,
                bv,
                alo as int,
                ahi as int,
                blo as int,
                bhi as int,
                result@[k].i as int,
                result@[k].j as int,
                result@[k].n as int,
            ) by {
                if k < mid.len() {
                    assert(result@[k] == mid[k]);
                } else {
                    assert(result@[k] == rightv[k - mid.len()]);
                    assert(is_match(
                        av,
                        bv,
                        m.i + m.n,
                        ahi as int,
                        m.j + m.n,
                        bhi as int,
                        rightv[k - mid.len()].i as int,
                        rightv[k - mid.len()].j as int,
                        rightv[k - mid.len()].n as int,
                    ));
                }
            }
            assert forall|k: int|
                #![trigger result@[k], result@[k + 1]]
                0 <= k < result@.len() - 1 implies result@[k].i + result@[k].n
                <= result@[k + 1].i && result@[k].j + result@[k].n <= result@[k + 1].j && (
            result@[k].i + result@[k].n < result@[k + 1].i || result@[k].j + result@[k].n
                < result@[k + 1].j) by {
                if k + 1 < mid.len() {
                    assert(result@[k] == mid[k] && result@[k + 1] == mid[k + 1]);
                    if k + 1 < left.len() {
                        assert(mid[k] == left[k] && mid[k + 1] == left[k + 1]);
                        lemma_blocks_adjacent(left, k);
                    } else {
                        assert(mid[k] == left[k] && mid[k + 1] == m);
                        assert(is_match(
                            av,
                            bv,
                            alo as int,
                            m.i as int,
                            blo as int,
                            m.j as int,
                            left[k].i as int,
                            left[k].j as int,
                            left[k].n as int,
                        ));
                        if left[k].i + left[k].n == m.i && left[k].j + left[k].n == m.j {
                            // an abutting block would extend the longest match
                            let lb = left[k];
                            assert forall|t: int| 0 <= t < lb.n + m.n implies av[lb.i + t]
                                == #[trigger] bv[lb.j + t] by {
                                if t >= lb.n {
                                    assert(av[m.i + (t - lb.n)] == bv[m.j + (t - lb.n)]);
                                }
                            }
                            assert(is_match(
                                av,
                                bv,
                                alo as int,
                                ahi as int,
                                blo as int,
                                bhi as int,
                                lb.i as int,
                                lb.j as int,
                                lb.n + m.n,
                            ));
                            assert(false);
                        }
                    }
                } else if k + 1 == mid.len() {
                    assert(result@[k] == m);
                    assert(result@[k + 1] == rightv[0]);
                    assert(is_match(
                        av,
                        bv,
                        m.i + m.n,
                        ahi as int,
                        m.j + m.n,
                        bhi as int,
                        rightv[0].i as int,
                        rightv[0].j as int,
                        rightv[0].n as int,
                    ));
                    if m.i + m.n == rightv[0].i && m.j + m.n == rightv[0].j {
                        // an abutting block would extend the longest match
                        let rb = rightv[0];
                        assert forall|t: int| 0 <= t < m.n + rb.n implies av[m.i + t]
                            == #[trigger] bv[m.j + t] by {
                            if t >= m.n {
                                assert(av[rb.i + (t - m.n)] == bv[rb.j + (t - m.n)]);
                            }
                        }
                        assert(is_match(
                            av,
                            bv,
                            alo as int,
                            ahi as int,
                            blo as int,
                            bhi as int,
                            m.i as int,
                            m.j as int,
                            m.n + rb.n,
                        ));
                        assert(false);
                    }
                } else {
                    assert(result@[k] == rightv[k - mid.len()]);
                    assert(result@[k + 1] == rightv[(k - mid.len()) + 1]);
                    lemma_blocks_adjacent(rightv, k - mid.len());
                }
            }
        }
    }
    result
}

/// Opcode tag indicating the type of operation.
#[derive(Debug, Clone, Copy, PartialEq, Eq, Structural)]
pub enum OpTag {
    Replace,
    Delete,
    Insert,
    Equal,
}

/// An opcode: turn `a[i1 .. i2]` into `b[j1 .. j2]`.
#[derive(Debug, Clone, Copy)]
struct Opcode {
    tag: OpTag,
    i1: usize,
    i2: usize,
    j1: usize,
    j2: usize,
}

/// Shape of a single opcode: its ranges lie inside the two sequences, an
/// `Equal` opcode relates equal slices, and the other tags have the
/// corresponding non-empty sides.
#[verifier::opaque]
spec fn op_ok(a: Seq<Seq<char>>, b: Seq<Seq<char>>, op: Opcode) -> bool {
    &&& op.i1 <= op.i2 <= a.len()
    &&& op.j1 <= op.j2 <= b.len()
    &&& (op.tag is Equal ==> op.i2 - op.i1 == op.j2 - op.j1 && op.i1 < op.i2 && (forall|t: int|
        0 <= t < op.i2 - op.i1 ==> a[op.i1 + t] == #[trigger] b[op.j1 + t]))
    &&& (op.tag is Replace ==> op.i1 < op.i2 && op.j1 < op.j2)
    &&& (op.tag is Delete ==> op.i1 < op.i2 && op.j1 == op.j2)
    &&& (op.tag is Insert ==> op.i1 == op.i2 && op.j1 < op.j2)
}

/// The opcodes form a contiguous cover of both sequences.
spec fn ops_wf(ops: Seq<Opcode>, la: int, lb: int) -> bool {
    if ops.len() == 0 {
        la == 0 && lb == 0
    } else {
        &&& ops[0].i1 == 0
        &&& ops[0].j1 == 0
        &&& ops.last().i2 == la
        &&& ops.last().j2 == lb
        &&& forall|k: int|
            #![trigger ops[k], ops[k + 1]]
            0 <= k < ops.len() - 1 ==> ops[k].i2 == ops[k + 1].i1 && ops[k].j2 == ops[k + 1].j1
    }
}

/// The non-equal opcode a cover gap produces, if any.
pub open spec fn spec_gap_ops(i: int, j: int, mi: int, mj: int) -> Seq<(OpTag, int, int, int, int)> {
    if i < mi && j < mj {
        seq![(OpTag::Replace, i, mi, j, mj)]
    } else if i < mi {
        seq![(OpTag::Delete, i, mi, j, mj)]
    } else if j < mj {
        seq![(OpTag::Insert, i, mi, j, mj)]
    } else {
        Seq::empty()
    }
}

/// The opcodes derived from a block list, given the cover position reached
/// so far; the zero-length sentinel at `(la, lb)` closes the cover.
pub open spec fn spec_opcodes_from(
    blocks: Seq<(int, int, int)>,
    i: int,
    j: int,
    la: int,
    lb: int,
) -> Seq<(OpTag, int, int, int, int)>
    decreases blocks.len(),
{
    if blocks.len() == 0 {
        spec_gap_ops(i, j, la, lb)
    } else {
        let m = blocks[0];
        spec_gap_ops(i, j, m.0, m.1) + (if m.2 > 0 {
            seq![(OpTag::Equal, m.0, m.0 + m.2, m.1, m.1 + m.2)]
        } else {
            Seq::empty()
        }) + spec_opcodes_from(blocks.skip(1), m.0 + m.2, m.1 + m.2, la, lb)
    }
}

/// The opcode sequence of the matcher over two line sequences.
pub open spec fn spec_opcodes(a: Seq<Seq<char>>, b: Seq<Seq<char>>) -> Seq<(OpTag, int, int, int, int)> {
    spec_opcodes_from(
        spec_matching_blocks(a, b, 0, a.len() as int, 0, b.len() as int),
        0,
        0,
        a.len() as int,
        b.len() as int,
    )
}

/// View of an opcode as its spec-level tuple.
spec fn op_tuple(op: Opcode) -> (OpTag, int, int, int, int) {
    (op.tag, op.i1 as int, op.i2 as int, op.j1 as int, op.j2 as int)
}

/// Opcodes describing how to turn the lines of `a` into the lines of `b`.
#[verifier::rlimit(60)]
fn get_opcodes(a: &Vec<String>, b: &Vec<String>) -> (ops: Vec<Opcode>)
    ensures
        ops_wf(ops@, a.deep_view().len() as int, b.deep_view().len() as int),
        forall|k: int| 0 <= k < ops@.len() ==> op_ok(a.deep_view(), b.deep_view(), #[trigger] ops@[k]),
        forall|k: int|
            #![trigger ops@[k], ops@[k + 1]]
            0 <= k < ops@.len() - 1 ==> !(ops@[k].tag is Equal && ops@[k + 1].tag is Equal),
        ops@.map_values(|op: Opcode| op_tuple(op)) == spec_opcodes(a.deep_view(), b.deep_view()),
        window_eq(
            a.deep_view(),
            b.deep_view(),
            0,
            a.deep_view().len() as int,
            0,
            b.deep_view().len() as int,
        ) ==> forall|k: int| 0 <= k < ops@.len() ==> (#[trigger] ops@[k]).tag is Equal,
{
    let ghost av = a.deep_view();
    let ghost bv = b.deep_view();
    let la = a.len();
    let lb = b.len();
    proof {
        assert(av.len() == a@.len());
        assert(bv.len() == b@.len());
    }
    let ghost weq = window_eq(av, bv, 0, la as int, 0, lb as int);
    let blocks = matching_blocks_rec(a, b, 0, la, 0, lb);
    let ghost sblocks = spec_matching_blocks(av, bv, 0, la as int, 0, lb as int);
    let nb = blocks.len();
    let mut ops: Vec<Opcode> = Vec::new();
    let mut i: usize = 0;
    let mut j: usize = 0;
    let mut t: usize = 0;
    proof {
        assert(sblocks.skip(0) =~~= sblocks);
        assert(ops@.map_values(|op: Opcode| op_tuple(op)) =~~= Seq::<(
            OpTag,
            int,
            int,
            int,
            int,
        )>::empty());
    }
    while t < nb
        invariant
            t <= nb,
            nb == blocks@.len(),
            av == a.deep_view(),
            bv == b.deep_view(),
            la == av.len(),
            lb == bv.len(),
            la == a@.len(),
            lb == b@.len(),
            weq == window_eq(av, bv, 0, la as int, 0, lb as int),
            blocks_ok(av, bv, 0, la as int, 0, lb as int, blocks@),
            weq ==> (blocks@.len() <= 1 && (la > 0 ==> blocks@.len() == 1) && (blocks@.len() == 1
                ==> blocks@[0].i == 0 && blocks@[0].j == 0 && blocks@[0].n == la)),
            i <= la,
            j <= lb,
            t == 0 ==> i == 0 && j == 0,
            t >= 1 ==> i == blocks@[t - 1].i + blocks@[t - 1].n && j == blocks@[t - 1].j
                + blocks@[t - 1].n,
            forall|k: int| 0 <= k < ops@.len() ==> op_ok(av, bv, #[trigger] ops@[k]),
            ops@.len() == 0 ==> i == 0 && j == 0,
            ops@.len() > 0 ==> ops@[0].i1 == 0 && ops@[0].j1 == 0 && ops@.last().i2 == i
                && ops@.last().j2 == j,
            forall|k: int|
                #![trigger ops@[k], ops@[k + 1]]
                0 <= k < ops@.len() - 1 ==> ops@[k].i2 == ops@[k + 1].i1 && ops@[k].j2 == ops@[k
                    + 1].j1,
            t == 0 ==> ops@.len() == 0,
            forall|k: int|
                #![trigger ops@[k], ops@[k + 1]]
                0 <= k < ops@.len() - 1 ==> !(ops@[k].tag is Equal && ops@[k + 1].tag
                    is Equal),
            sblocks == spec_matching_blocks(av, bv, 0, la as int, 0, lb as int),
            sblocks == blocks@.map_values(|mb: MatchBlock| (mb.i as int, mb.j as int, mb.n as int)),
            spec_opcodes(av, bv) == ops@.map_values(|op: Opcode| op_tuple(op))
                + spec_opcodes_from(sblocks.skip(t as int), i as int, j as int, la as int, lb as int),
            weq ==> forall|k: int| 0 <= k < ops@.len() ==> (#[trigger] ops@[k]).tag is Equal,
            weq ==> i == j && i == (if t == 0 { 0int } else { la as int }),
        decreases nb - t,
    {
        let blk = blocks[t];
        let mi = blk.i;
        let mj = blk.j;
        let mn = blk.n;
        proof {
            reveal(op_ok);
            assert(blocks@[t as int].n >= 1);
            if t >= 1 {
                lemma_blocks_adjacent(blocks@, t - 1);
                assert(blocks@[(t - 1) + 1] == blocks@[t as int]);
            }
            assert(is_match(av, bv, 0, la as int, 0, lb as int, mi as int, mj as int, mn as int));
        }
        let ghost ops0 = ops@;
        let ghost pushed_gap = i < mi || j < mj;
        if i < mi && j < mj {
            ops.push(Opcode { tag: OpTag::Replace, i1: i, i2: mi, j1: j, j2: mj });
        } else if i < mi {
            ops.push(Opcode { tag: OpTag::Delete, i1: i, i2: mi, j1: j, j2: mj });
        } else if j < mj {
            ops.push(Opcode { tag: OpTag::Insert, i1: i, i2: mi, j1: j, j2: mj });
        }
        if mn > 0 {
            ops.push(Opcode { tag: OpTag::Equal, i1: mi, i2: mi + mn, j1: mj, j2: mj + mn });
        }
        proof {
            if !pushed_gap && t >= 1 && ops0.len() > 0 {
                // no gap before this block: the previous block would abut it
                lemma_blocks_adjacent(blocks@, t - 1);
            }
            assert forall|k: int|
                #![trigger ops@[k], ops@[k + 1]]
                0 <= k < ops@.len() - 1 implies !(ops@[k].tag is Equal && ops@[k + 1].tag
                is Equal) by {
                if k + 1 < ops0.len() {
                    assert(ops@[k] == ops0[k] && ops@[k + 1] == ops0[k + 1]);
                }
            }
            assert(sblocks.skip(t as int)[0] == (mi as int, mj as int, mn as int));
            assert(sblocks.skip(t as int).skip(1) =~~= sblocks.skip(t as int + 1));
            assert(ops@.map_values(|op: Opcode| op_tuple(op)) =~~= ops0.map_values(
                |op: Opcode| op_tuple(op),
            ) + spec_gap_ops(i as int, j as int, mi as int, mj as int) + (if mn > 0 {
                seq![(OpTag::Equal, mi as int, mi + mn as int, mj as int, mj + mn as int)]
            } else {
                Seq::<(OpTag, int, int, int, int)>::empty()
            }));
        }
        i = mi + mn;
        j = mj + mn;
        t = t + 1;
    }
    proof {
        reveal(op_ok);
    }
    // The trailing zero-length sentinel block closes the cover at the full
    // lengths of the two line sequences.
    if i < la && j < lb {
        ops.push(Opcode { tag: OpTag::Replace, i1: i, i2: la, j1: j, j2: lb });
    } else if i < la {
        ops.push(Opcode { tag: OpTag::Delete, i1: i, i2: la, j1: j, j2: lb });
    } else if j < lb {
        ops.push(Opcode { tag: OpTag::Insert, i1: i, i2: la, j1: j, j2: lb });
    }
    proof {
        assert(sblocks.skip(nb as int) =~~= Seq::<(int, int, int)>::empty());
        assert(ops@.map_values(|op: Opcode| op_tuple(op)) =~~= spec_opcodes(av, bv));
        if weq {
            if nb == 0 {
                assert(la == 0 && i == la && j == lb);
            } else {
                assert(i == la && j == la && lb == la);
            }
        }
    }
    ops
}

/// Split into lines as `cat` sees them: LF-separated, with a terminal LF not
/// adding an extra empty line.
pub(crate) fn lines_vec(s: &str) -> (r: Vec<String>)
    ensures
        r.deep_view() == spec_lines(s@),
{
    let mut parts = split_str(s, '\n');
    proof {
        crate::textspec::lemma_split_len_pos(s@, '\n');
        assert(parts.deep_view().len() == parts@.len());
    }
    let np = parts.len();
    if parts[np - 1].as_str().is_empty() {
        let ghost dv0 = parts.deep_view();
        parts.pop();
        proof {
            assert(dv0.last() == dv0[np - 1]);
            assert(parts.deep_view() =~~= dv0.drop_last());
        }
    }
    parts
}

/// An all-`Equal` prefix of a well-formed cover advances both sides in
/// lockstep over equal lines.
proof fn lemma_equal_prefix(a: Seq<Seq<char>>, b: Seq<Seq<char>>, ops: Seq<Opcode>, t: int)
    requires
        1 <= t <= ops.len(),
        ops[0].i1 == 0 && ops[0].j1 == 0,
        forall|k: int|
            #![trigger ops[k], ops[k + 1]]
            0 <= k < ops.len() - 1 ==> ops[k].i2 == ops[k + 1].i1 && ops[k].j2 == ops[k + 1].j1,
        forall|k: int| 0 <= k < ops.len() ==> op_ok(a, b, #[trigger] ops[k]),
        forall|k: int| 0 <= k < t ==> (#[trigger] ops[k]).tag is Equal,
    ensures
        ops[t - 1].i2 == ops[t - 1].j2,
        a.subrange(0, ops[t - 1].i2 as int) == b.subrange(0, ops[t - 1].j2 as int),
    decreases t,
{
    reveal(op_ok);
    assert(op_ok(a, b, ops[t - 1]));
    let e = ops[t - 1].i2 as int;
    if t == 1 {
        assert(a.subrange(0, e) =~= b.subrange(0, e)) by {
            assert forall|x: int| 0 <= x < e implies a.subrange(0, e)[x] == b.subrange(
                0,
                e,
            )[x] by {
                assert(a[ops[0].i1 + x] == b[ops[0].j1 + x]);
            }
        }
    } else {
        lemma_equal_prefix(a, b, ops, t - 1);
        let p = ops[t - 2].i2 as int;
        lemma_ops_adjacent(ops, t - 2);
        assert(ops[(t - 2) + 1] == ops[t - 1]);
        assert(a.subrange(p, e) =~= b.subrange(p, e)) by {
            assert forall|x: int| 0 <= x < e - p implies a.subrange(p, e)[x] == b.subrange(
                p,
                e,
            )[x] by {
                assert(a[ops[t - 1].i1 + x] == b[ops[t - 1].j1 + x]);
            }
        }
        assert(a.subrange(0, e) =~= a.subrange(0, p) + a.subrange(p, e));
        assert(b.subrange(0, e) =~= b.subrange(0, p) + b.subrange(p, e));
    }
}

/// An all-`Equal` suffix of a well-formed cover leaves both tails equal.
proof fn lemma_equal_suffix(
    a: Seq<Seq<char>>,
    b: Seq<Seq<char>>,
    ops: Seq<Opcode>,
    t: int,
    la: int,
    lb: int,
)
    requires
        0 <= t < ops.len(),
        ops_wf(ops, la, lb),
        forall|k: int| 0 <= k < ops.len() ==> op_ok(a, b, #[trigger] ops[k]),
        forall|k: int| t <= k < ops.len() ==> (#[trigger] ops[k]).tag is Equal,
        la <= a.len(),
        lb <= b.len(),
    ensures
        la - ops[t].i1 == lb - ops[t].j1,
        a.subrange(ops[t].i1 as int, la) == b.subrange(ops[t].j1 as int, lb),
    decreases ops.len() - t,
{
    reveal(op_ok);
    assert(op_ok(a, b, ops[t]));
    let p1 = ops[t].i1 as int;
    let q1 = ops[t].j1 as int;
    let p2 = ops[t].i2 as int;
    let q2 = ops[t].j2 as int;
    assert(a.subrange(p1, p2) =~= b.subrange(q1, q2)) by {
        assert forall|x: int| 0 <= x < p2 - p1 implies a.subrange(p1, p2)[x] == b.subrange(
            q1,
            q2,
        )[x] by {
            if ops[t].tag is Equal {
                assert(a[ops[t].i1 + x] == b[ops[t].j1 + x]);
            }
        }
    }
    if t == ops.len() - 1 {
        assert(p2 == la && q2 == lb);
    } else {
        lemma_equal_suffix(a, b, ops, t + 1, la, lb);
        lemma_ops_adjacent(ops, t);
        lemma_ops_chain(a, b, ops, t + 1, ops.len() - 1);
        assert(op_ok(a, b, ops[ops.len() - 1]));
        assert(p2 <= la && q2 <= lb);
        assert(a.subrange(p1, la) =~= a.subrange(p1, p2) + a.subrange(p2, la));
        assert(b.subrange(q1, lb) =~= b.subrange(q1, q2) + b.subrange(q2, lb));
    }
}

/// Starts of a well-formed cover are monotone.
proof fn lemma_ops_chain(
    a: Seq<Seq<char>>,
    b: Seq<Seq<char>>,
    ops: Seq<Opcode>,
    k1: int,
    k2: int,
)
    requires
        0 <= k1 <= k2 < ops.len(),
        forall|k: int|
            #![trigger ops[k], ops[k + 1]]
            0 <= k < ops.len() - 1 ==> ops[k].i2 == ops[k + 1].i1 && ops[k].j2 == ops[k + 1].j1,
        forall|k: int| 0 <= k < ops.len() ==> op_ok(a, b, #[trigger] ops[k]),
    ensures
        ops[k1].i1 <= ops[k2].i1,
        ops[k1].j1 <= ops[k2].j1,
    decreases k2 - k1,
{
    reveal(op_ok);
    if k1 < k2 {
        assert(op_ok(a, b, ops[k1]));
        lemma_ops_adjacent(ops, k1);
        lemma_ops_chain(a, b, ops, k1 + 1, k2);
    }
}


/// Index of the first non-`Equal` opcode.
pub open spec fn spec_first_ne(ops: Seq<(OpTag, int, int, int, int)>) -> Option<int>
    decreases ops.len(),
{
    if ops.len() == 0 {
        None
    } else if !(ops[0].0 is Equal) {
        Some(0)
    } else {
        match spec_first_ne(ops.skip(1)) {
            Some(k) => Some(k + 1),
            None => None,
        }
    }
}

/// Index of the last non-`Equal` opcode.
pub open spec fn spec_last_ne(ops: Seq<(OpTag, int, int, int, int)>) -> Option<int>
    decreases ops.len(),
{
    if ops.len() == 0 {
        None
    } else if !(ops.last().0 is Equal) {
        Some(ops.len() - 1)
    } else {
        spec_last_ne(ops.drop_last())
    }
}

/// Characterization of [`spec_first_ne`]: the minimal non-`Equal` index.
proof fn lemma_first_ne(ops: Seq<(OpTag, int, int, int, int)>)
    ensures
        match spec_first_ne(ops) {
            Some(k) => 0 <= k < ops.len() && !(ops[k].0 is Equal) && (forall|t: int|
                0 <= t < k ==> (#[trigger] ops[t]).0 is Equal),
            None => forall|t: int| 0 <= t < ops.len() ==> (#[trigger] ops[t]).0 is Equal,
        },
    decreases ops.len(),
{
    if ops.len() > 0 && ops[0].0 is Equal {
        lemma_first_ne(ops.skip(1));
        assert(forall|t: int| 0 <= t < ops.skip(1).len() ==> #[trigger] ops.skip(1)[t] == ops[t
            + 1]);
        match spec_first_ne(ops.skip(1)) {
            Some(k) => {
                assert forall|t: int| 0 <= t < k + 1 implies (#[trigger] ops[t]).0 is Equal by {
                    if t > 0 {
                        assert(ops.skip(1)[t - 1] == ops[t]);
                    }
                }
            },
            None => {
                assert forall|t: int| 0 <= t < ops.len() implies (#[trigger] ops[t]).0
                    is Equal by {
                    if t > 0 {
                        assert(ops.skip(1)[t - 1] == ops[t]);
                    }
                }
            },
        }
    }
}

/// Characterization of [`spec_last_ne`]: the maximal non-`Equal` index.
proof fn lemma_last_ne(ops: Seq<(OpTag, int, int, int, int)>)
    ensures
        match spec_last_ne(ops) {
            Some(k) => 0 <= k < ops.len() && !(ops[k].0 is Equal) && (forall|t: int|
                k < t < ops.len() ==> (#[trigger] ops[t]).0 is Equal),
            None => forall|t: int| 0 <= t < ops.len() ==> (#[trigger] ops[t]).0 is Equal,
        },
    decreases ops.len(),
{
    if ops.len() > 0 && ops.last().0 is Equal {
        lemma_last_ne(ops.drop_last());
        assert(forall|t: int|
            0 <= t < ops.drop_last().len() ==> #[trigger] ops.drop_last()[t] == ops[t]);
        match spec_last_ne(ops.drop_last()) {
            Some(k) => {
                assert forall|t: int| k < t < ops.len() implies (#[trigger] ops[t]).0
                    is Equal by {
                    if t < ops.len() - 1 {
                        assert(ops.drop_last()[t] == ops[t]);
                    } else {
                        assert(ops[t] == ops.last());
                    }
                }
            },
            None => {
                assert forall|t: int| 0 <= t < ops.len() implies (#[trigger] ops[t]).0
                    is Equal by {
                    if t < ops.len() - 1 {
                        assert(ops.drop_last()[t] == ops[t]);
                    } else {
                        assert(ops[t] == ops.last());
                    }
                }
            },
        }
    }
}

/// The changed block the matcher reports: the outer interval of its
/// non-`Equal` opcodes, in 1-based coordinates, or `None` when every opcode
/// is `Equal`.
pub open spec fn spec_changed_block(a: Seq<Seq<char>>, b: Seq<Seq<char>>) -> Option<(
    int,
    int,
    int,
    int,
)> {
    let ops = spec_opcodes(a, b);
    match spec_first_ne(ops) {
        Some(f) => {
            let l = spec_last_ne(ops)->0;
            Some((ops[f].1 + 1, ops[l].2, ops[f].3 + 1, ops[l].4))
        },
        None => None,
    }
}

/// What a successful diff means: the block's 1-based coordinates lie in
/// range, and replacing lines `start_before ..= end_before` of the old
/// lines with the replacement yields the new lines exactly.
pub open spec fn diff_block_ok(av: Seq<Seq<char>>, bv: Seq<Seq<char>>, cb: ChangedBlock) -> bool {
    &&& 1 <= cb.start_before <= av.len() + 1
    &&& cb.end_before <= av.len()
    &&& cb.start_before <= cb.end_before + 1
    &&& 1 <= cb.start_after <= bv.len() + 1
    &&& cb.end_after <= bv.len()
    &&& cb.start_after <= cb.end_after + 1
    &&& cb.replacement_lines.deep_view() == bv.subrange(cb.start_after - 1, cb.end_after as int)
    &&& bv == av.subrange(0, cb.start_before - 1) + cb.replacement_lines.deep_view()
        + av.subrange(cb.end_before as int, av.len() as int)
}

/// Compute the contiguous changed block between two texts.
///
/// Works at line granularity (LF-separated, `cat`-style). On success the
/// returned block carries 1-based inclusive line coordinates and the
/// replacement lines: replacing lines `start_before ..= end_before` of the
/// old text with `replacement_lines` yields the new text's lines exactly
/// (`end_before < start_before` encodes a pure insertion before line
/// `start_before`). The error is returned exactly when the two texts have
/// equal lines. The line counts must lie below `usize::MAX`, a machine
/// limit.
#[verifier::rlimit(80)]
pub fn compute_changed_block_lines(before: &str, after: &str) -> (r: Result<
    ChangedBlock,
    &'static str,
>)
    requires
        spec_lines(before@).len() < usize::MAX,
        spec_lines(after@).len() < usize::MAX,
    ensures
        r is Err <==> spec_lines(before@) == spec_lines(after@),
        r is Ok ==> diff_block_ok(spec_lines(before@), spec_lines(after@), r->Ok_0),
        r is Ok ==> ({
            let sb = spec_changed_block(spec_lines(before@), spec_lines(after@));
            &&& sb is Some
            &&& ({
                let blk = sb->0;
                &&& r->Ok_0.start_before == blk.0
                &&& r->Ok_0.end_before == blk.1
                &&& r->Ok_0.start_after == blk.2
                &&& r->Ok_0.end_after == blk.3
            })
        }),
{
    let before_lines = lines_vec(before);
    let after_lines = lines_vec(after);
    let ghost av = before_lines.deep_view();
    let ghost bv = after_lines.deep_view();
    let la = before_lines.len();
    let lb = after_lines.len();
    proof {
        assert(av.len() == before_lines@.len());
        assert(bv.len() == after_lines@.len());
    }
    let ops = get_opcodes(&before_lines, &after_lines);
    let no = ops.len();

    // Find the first and last non-equal opcodes.
    let mut fi: usize = 0;
    let mut found_first = false;
    let mut li: usize = 0;
    let mut t: usize = 0;
    while t < no
        invariant
            t <= no,
            no == ops@.len(),
            !found_first ==> forall|k: int| 0 <= k < t ==> (#[trigger] ops@[k]).tag is Equal,
            found_first ==> fi < t && !(ops@[fi as int].tag is Equal) && (forall|k: int|
                0 <= k < fi ==> (#[trigger] ops@[k]).tag is Equal),
            found_first ==> li < t && !(ops@[li as int].tag is Equal) && (forall|k: int|
                li < k < t ==> (#[trigger] ops@[k]).tag is Equal),
        decreases no - t,
    {
        let is_eq = matches!(ops[t].tag, OpTag::Equal);
        if !is_eq {
            if !found_first {
                fi = t;
                found_first = true;
            }
            li = t;
        }
        t = t + 1;
    }

    if !found_first {
        proof {
            if no == 0 {
                assert(av.len() == 0 && bv.len() == 0);
                assert(av =~~= bv);
            } else {
                lemma_equal_prefix(av, bv, ops@, no as int);
                assert(ops@[no - 1].i2 == la && ops@[no - 1].j2 == lb);
                assert(av.subrange(0, la as int) =~= av);
                assert(bv.subrange(0, lb as int) =~= bv);
                assert(av =~~= bv);
            }
        }
        return Err("Opcode list cannot be empty! Likely a bug in the diff computation.");
    }

    let f = ops[fi];
    let l = ops[li];
    proof {
        reveal(op_ok);
        lemma_ops_chain(av, bv, ops@, fi as int, li as int);
        assert(op_ok(av, bv, ops@[fi as int]));
        assert(op_ok(av, bv, ops@[li as int]));
        // the two texts differ in lines
        if av == bv {
            assert(window_eq(av, bv, 0, av.len() as int, 0, bv.len() as int));
            assert(ops@[fi as int].tag is Equal);
        }
    }

    let start_before = f.i1 + 1;
    let end_before = l.i2;
    let start_after = f.j1 + 1;
    let end_after = l.j2;

    let mut replacement_lines: Vec<String> = Vec::new();
    let mut x = f.j1;
    while x < l.j2
        invariant
            f.j1 <= x <= l.j2 <= lb,
            lb == after_lines@.len(),
            bv == after_lines.deep_view(),
            replacement_lines.deep_view() =~~= bv.subrange(f.j1 as int, x as int),
        decreases l.j2 - x,
    {
        let ghost rl0 = replacement_lines.deep_view();
        replacement_lines.push(after_lines[x].clone());
        proof {
            assert(replacement_lines.deep_view() =~~= rl0.push(bv[x as int]));
            assert(bv.subrange(f.j1 as int, x as int + 1) =~~= bv.subrange(
                f.j1 as int,
                x as int,
            ).push(bv[x as int]));
        }
        x = x + 1;
    }

    proof {
        reveal(op_ok);
        // All opcodes before the first and after the last non-equal one are
        // `Equal`, so the prefixes and suffixes of the two line sequences
        // agree; the replacement spans everything in between.
        if fi > 0 {
            lemma_equal_prefix(av, bv, ops@, fi as int);
            lemma_ops_adjacent(ops@, fi - 1);
            assert(ops@[(fi - 1) + 1] == ops@[fi as int]);
        }
        assert(f.i1 == f.j1);
        assert(av.subrange(0, f.i1 as int) == bv.subrange(0, f.j1 as int));
        if (li as int) < ops@.len() - 1 {
            lemma_equal_suffix(av, bv, ops@, li as int + 1, la as int, lb as int);
            lemma_ops_adjacent(ops@, li as int);
            assert(ops@[li as int + 1] == ops@[(li as int) + 1]);
        } else {
            assert(l.i2 == la && l.j2 == lb);
            assert(av.subrange(l.i2 as int, la as int) =~= bv.subrange(l.j2 as int, lb as int));
        }
        assert(la - l.i2 == lb - l.j2);
        assert(av.subrange(l.i2 as int, la as int) == bv.subrange(l.j2 as int, lb as int));
        assert(bv =~~= bv.subrange(0, f.j1 as int) + bv.subrange(f.j1 as int, l.j2 as int)
            + bv.subrange(l.j2 as int, lb as int));
        assert(bv =~~= av.subrange(0, f.i1 as int) + bv.subrange(f.j1 as int, l.j2 as int)
            + av.subrange(l.i2 as int, la as int));
        // the scanned first/last non-equal indices are the ones the
        // deterministic opcode spec reports
        let sops = spec_opcodes(av, bv);
        let mapped = ops@.map_values(|op: Opcode| op_tuple(op));
        assert(mapped == sops);
        lemma_first_ne(sops);
        lemma_last_ne(sops);
        assert(mapped[fi as int] == op_tuple(ops@[fi as int]));
        assert(mapped[li as int] == op_tuple(ops@[li as int]));
        match spec_first_ne(sops) {
            Some(k) => {
                assert(mapped[k] == op_tuple(ops@[k]));
                if k < fi {
                    assert(ops@[k].tag is Equal);
                    assert(false);
                } else if k > fi {
                    assert(sops[fi as int].0 is Equal);
                    assert(false);
                }
            },
            None => {
                assert(sops[fi as int].0 is Equal);
                assert(false);
            },
        }
        assert(spec_first_ne(sops) == Some(fi as int));
        match spec_last_ne(sops) {
            Some(k) => {
                assert(mapped[k] == op_tuple(ops@[k]));
                if k > li {
                    assert(ops@[k].tag is Equal);
                    assert(false);
                } else if k < li {
                    assert(sops[li as int].0 is Equal);
                    assert(false);
                }
            },
            None => {
                assert(sops[li as int].0 is Equal);
                assert(false);
            },
        }
        assert(spec_last_ne(sops) == Some(li as int));
    }

    Ok(ChangedBlock { start_before, end_before, start_after, end_after, replacement_lines })
}

} // verus!
