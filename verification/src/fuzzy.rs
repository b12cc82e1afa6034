//! Edit distance and the similarity score derived from it.
use vstd::prelude::*;

verus! {

pub open spec fn min_of(x: int, y: int) -> int {
    if x <= y {
        x
    } else {
        y
    }
}

pub open spec fn max_of(x: int, y: int) -> int {
    if x >= y {
        x
    } else {
        y
    }
}

/// The Levenshtein distance: the fewest single-character insertions,
/// deletions and substitutions that turn `a` into `b`.
pub open spec fn edit_distance(a: Seq<char>, b: Seq<char>) -> int
    decreases a.len() + b.len(),
{
    if a.len() == 0 {
        b.len() as int
    } else if b.len() == 0 {
        a.len() as int
    } else {
        min_of(
            min_of(edit_distance(a.drop_last(), b) + 1, edit_distance(a, b.drop_last()) + 1),
            edit_distance(a.drop_last(), b.drop_last()) + (if a.last() == b.last() {
                0int
            } else {
                1int
            }),
        )
    }
}

/// Similarity in thousandths: how much of the longer text survives the edits,
/// `(longest - distance) * 1000 / longest`, rounded down; 0 when either text
/// is empty.
pub open spec fn similarity_of(a: Seq<char>, b: Seq<char>) -> int {
    if a.len() == 0 || b.len() == 0 {
        0
    } else {
        let distance = edit_distance(a, b);
        let longest = max_of(a.len() as int, b.len() as int);
        if distance > longest {
            0
        } else {
            (longest - distance) * 1000 / longest
        }
    }
}

/// The distance never exceeds the longer length, and is never negative.
pub proof fn lemma_edit_distance_bounds(a: Seq<char>, b: Seq<char>)
    ensures
        0 <= edit_distance(a, b) <= max_of(a.len() as int, b.len() as int),
    decreases a.len() + b.len(),
{
    if a.len() > 0 && b.len() > 0 {
        lemma_edit_distance_bounds(a.drop_last(), b.drop_last());
        lemma_edit_distance_bounds(a.drop_last(), b);
        lemma_edit_distance_bounds(a, b.drop_last());
    }
}

proof fn lemma_distance_step(a: Seq<char>, b: Seq<char>, i: int, j: int)
    requires
        0 <= i < a.len(),
        0 <= j < b.len(),
    ensures
        edit_distance(a.take(i + 1), b.take(j + 1)) == min_of(
            min_of(
                edit_distance(a.take(i), b.take(j + 1)) + 1,
                edit_distance(a.take(i + 1), b.take(j)) + 1,
            ),
            edit_distance(a.take(i), b.take(j)) + (if a[i] == b[j] {
                0int
            } else {
                1int
            }),
        ),
{
    assert(a.take(i + 1).drop_last() =~= a.take(i));
    assert(b.take(j + 1).drop_last() =~= b.take(j));
}

/// The Levenshtein distance between two character sequences.
pub(crate) fn levenshtein(a: &Vec<char>, b: &Vec<char>) -> (d: usize)
    ensures
        d == edit_distance(a@, b@),
{
    let la = a.len();
    let lb = b.len();
    let mut previous: Vec<usize> = Vec::new();
    let mut j: usize = 0;
    loop
        invariant_except_break
            j <= lb,
            previous.len() == j,
            forall|k: int| 0 <= k < j ==> previous@[k] == edit_distance(a@.take(0), b@.take(k)),
        invariant
            lb == b@.len(),
        ensures
            previous.len() == lb + 1,
            forall|k: int| 0 <= k <= lb ==> previous@[k] == edit_distance(a@.take(0), b@.take(k)),
        decreases lb - j,
    {
        assert(a@.take(0).len() == 0);
        previous.push(j);
        if j == lb {
            break ;
        }
        j += 1;
    }
    let mut i: usize = 0;
    while i < la
        invariant
            i <= la,
            la == a@.len(),
            lb == b@.len(),
            previous.len() == lb + 1,
            forall|k: int|
                0 <= k <= lb ==> #[trigger] previous@[k] == edit_distance(a@.take(i as int), b@.take(k)),
        decreases la - i,
    {
        let mut current: Vec<usize> = Vec::new();
        proof {
            assert(b@.take(0).len() == 0);
            assert(a@.take(i + 1).len() == i + 1);
        }
        current.push(i + 1);
        let mut j: usize = 0;
        while j < lb
            invariant
                i < la,
                j <= lb,
                la == a@.len(),
                lb == b@.len(),
                previous.len() == lb + 1,
                forall|k: int|
                    0 <= k <= lb ==> #[trigger] previous@[k] == edit_distance(
                        a@.take(i as int),
                        b@.take(k),
                    ),
                current.len() == j + 1,
                forall|k: int|
                    0 <= k <= j ==> #[trigger] current@[k] == edit_distance(
                        a@.take(i + 1),
                        b@.take(k),
                    ),
            decreases lb - j,
        {
            proof {
                lemma_distance_step(a@, b@, i as int, j as int);
                lemma_edit_distance_bounds(a@.take(i as int), b@.take(j as int));
                assert(previous@[j as int] == edit_distance(a@.take(i as int), b@.take(j as int)));
                assert(previous@[j + 1] == edit_distance(a@.take(i as int), b@.take(j + 1)));
                assert(current@[j as int] == edit_distance(a@.take(i + 1), b@.take(j as int)));
            }
            let cost: usize = if a[i] == b[j] {
                0
            } else {
                1
            };
            let insert_or_delete = if current[j] < previous[j + 1] {
                current[j]
            } else {
                previous[j + 1]
            };
            let substitute = previous[j] + cost;
            let value = if insert_or_delete < substitute {
                insert_or_delete + 1
            } else {
                substitute
            };
            current.push(value);
            j += 1;
        }
        previous = current;
        i += 1;
    }
    proof {
        assert(a@.take(la as int) =~= a@);
        assert(b@.take(lb as int) =~= b@);
    }
    previous[lb]
}

proof fn lemma_similarity_bound(longest: int, distance: int)
    requires
        0 < longest,
        0 <= distance <= longest,
    ensures
        0 <= (longest - distance) * 1000 / longest <= 1000,
{
    assert(0 <= (longest - distance) * 1000) by (nonlinear_arith)
        requires
            0 <= distance <= longest,
    ;
    assert((longest - distance) * 1000 <= longest * 1000) by (nonlinear_arith)
        requires
            0 <= distance <= longest,
    ;
    assert((longest - distance) * 1000 / longest <= longest * 1000 / longest) by (nonlinear_arith)
        requires
            (longest - distance) * 1000 <= longest * 1000,
            0 < longest,
    ;
    assert(longest * 1000 / longest == 1000) by (nonlinear_arith)
        requires
            0 < longest,
    ;
    assert(0 <= (longest - distance) * 1000 / longest) by (nonlinear_arith)
        requires
            0 <= (longest - distance) * 1000,
            0 < longest,
    ;
}

/// The edit distance is symmetric.
pub proof fn law_edit_distance_symmetric(a: Seq<char>, b: Seq<char>)
    ensures
        edit_distance(a, b) == edit_distance(b, a),
    decreases a.len() + b.len(),
{
    if a.len() > 0 && b.len() > 0 {
        law_edit_distance_symmetric(a.drop_last(), b);
        law_edit_distance_symmetric(a, b.drop_last());
        law_edit_distance_symmetric(a.drop_last(), b.drop_last());
    }
}

/// The edit distance is at least the difference of the lengths.
pub proof fn law_edit_distance_length_gap(a: Seq<char>, b: Seq<char>)
    ensures
        a.len() - b.len() <= edit_distance(a, b),
        b.len() - a.len() <= edit_distance(a, b),
    decreases a.len() + b.len(),
{
    if a.len() > 0 && b.len() > 0 {
        law_edit_distance_length_gap(a.drop_last(), b);
        law_edit_distance_length_gap(a, b.drop_last());
        law_edit_distance_length_gap(a.drop_last(), b.drop_last());
    }
}

/// The edit distance is zero exactly between equal texts.
pub proof fn law_edit_distance_zero_iff_equal(a: Seq<char>, b: Seq<char>)
    ensures
        (edit_distance(a, b) == 0) == (a == b),
    decreases a.len() + b.len(),
{
    lemma_edit_distance_bounds(a, b);
    if a.len() > 0 && b.len() > 0 {
        law_edit_distance_zero_iff_equal(a.drop_last(), b.drop_last());
        lemma_edit_distance_bounds(a.drop_last(), b);
        lemma_edit_distance_bounds(a, b.drop_last());
        lemma_edit_distance_bounds(a.drop_last(), b.drop_last());
        if a == b {
            assert(a.drop_last() == b.drop_last());
        }
        if edit_distance(a, b) == 0 {
            assert(a.drop_last() =~= b.drop_last());
            assert(a =~= a.drop_last().push(a.last()));
            assert(b =~= b.drop_last().push(b.last()));
        }
    } else if a.len() == 0 && b.len() == 0 {
        assert(a =~= b);
    }
}

/// The edit distance obeys the triangle inequality.
pub proof fn law_edit_distance_triangle(a: Seq<char>, b: Seq<char>, c: Seq<char>)
    ensures
        edit_distance(a, c) <= edit_distance(a, b) + edit_distance(b, c),
    decreases a.len() + b.len() + c.len(),
{
    lemma_edit_distance_bounds(a, b);
    lemma_edit_distance_bounds(b, c);
    lemma_edit_distance_bounds(a, c);
    if a.len() == 0 {
        law_edit_distance_length_gap(b, c);
    } else if c.len() == 0 {
        law_edit_distance_length_gap(a, b);
    } else if b.len() == 0 {
    } else {
        let a1 = a.drop_last();
        let b1 = b.drop_last();
        let c1 = c.drop_last();
        let dab = edit_distance(a, b);
        let dbc = edit_distance(b, c);
        if dab == edit_distance(a1, b) + 1 {
            law_edit_distance_triangle(a1, b, c);
        } else if dbc == edit_distance(b, c1) + 1 {
            law_edit_distance_triangle(a, b, c1);
        } else if dab == edit_distance(a, b1) + 1 {
            if dbc == edit_distance(b1, c) + 1 {
                law_edit_distance_triangle(a, b1, c);
            } else {
                law_edit_distance_triangle(a, b1, c1);
            }
        } else {
            if dbc == edit_distance(b1, c) + 1 {
                law_edit_distance_triangle(a1, b1, c);
            } else {
                law_edit_distance_triangle(a1, b1, c1);
            }
        }
    }
}

/// Similarity is symmetric.
pub proof fn law_similarity_symmetric(a: Seq<char>, b: Seq<char>)
    ensures
        similarity_of(a, b) == similarity_of(b, a),
{
    law_edit_distance_symmetric(a, b);
}

/// Two non-empty texts are fully similar exactly when they are equal.
pub proof fn law_similarity_full_iff_equal(a: Seq<char>, b: Seq<char>)
    requires
        a.len() > 0,
        b.len() > 0,
    ensures
        (similarity_of(a, b) == 1000) == (a == b),
{
    lemma_edit_distance_bounds(a, b);
    law_edit_distance_zero_iff_equal(a, b);
    let d = edit_distance(a, b);
    let m = max_of(a.len() as int, b.len() as int);
    if d == 0 {
        assert((m - d) * 1000 / m == 1000) by (nonlinear_arith)
            requires
                d == 0,
                m > 0,
        ;
    } else {
        assert((m - d) * 1000 / m < 1000) by (nonlinear_arith)
            requires
                0 < d <= m,
        ;
    }
}

/// Similarity lies between 0 and 1000.
pub proof fn lemma_similarity_range(a: Seq<char>, b: Seq<char>)
    ensures
        0 <= similarity_of(a, b) <= 1000,
{
    if a.len() > 0 && b.len() > 0 {
        lemma_edit_distance_bounds(a, b);
        lemma_similarity_bound(max_of(a.len() as int, b.len() as int), edit_distance(a, b));
    }
}

/// Similarity of two character sequences in thousandths (0 to 1000).
pub(crate) fn similarity(a: &Vec<char>, b: &Vec<char>) -> (s: u32)
    ensures
        s == similarity_of(a@, b@),
        s <= 1000,
{
    if a.len() == 0 || b.len() == 0 {
        return 0;
    }
    let distance = levenshtein(a, b);
    let longest = if a.len() >= b.len() {
        a.len()
    } else {
        b.len()
    };
    proof {
        lemma_edit_distance_bounds(a@, b@);
    }
    if distance > longest {
        return 0;
    }
    proof {
        lemma_similarity_bound(longest as int, distance as int);
    }
    let kept = (longest - distance) as u128;
    let scaled = kept * 1000 / (longest as u128);
    scaled as u32
}

} // verus!
