//! Levenshtein distance between two strings, the dynamic-programming matrix
//! behind it, and the sequence of edit operations read back from that matrix.
//!
//! Strings are compared as sequences of Unicode scalar values: a character
//! that takes several bytes counts as one edit unit.
use vstd::prelude::*;

verus! {

/// Cost of aligning two characters: nothing when they are equal, one edit otherwise.
pub open spec fn char_cost(x: char, y: char) -> nat {
    if x == y {
        0
    } else {
        1
    }
}

pub open spec fn min3(x: nat, y: nat, z: nat) -> nat {
    if x <= y && x <= z {
        x
    } else if y <= z {
        y
    } else {
        z
    }
}

/// The least number of insertions, deletions and substitutions that turn the
/// first `i` characters of `a` into the first `j` characters of `b`.
pub open spec fn lev(a: Seq<char>, b: Seq<char>, i: nat, j: nat) -> nat
    decreases i + j,
{
    if i == 0 {
        j
    } else if j == 0 {
        i
    } else {
        min3(
            lev(a, b, (i - 1) as nat, j) + 1,
            lev(a, b, i, (j - 1) as nat) + 1,
            lev(a, b, (i - 1) as nat, (j - 1) as nat) + char_cost(a[i - 1], b[j - 1]),
        )
    }
}

/// The edit distance between two whole strings.
pub open spec fn edit_distance(a: Seq<char>, b: Seq<char>) -> nat {
    lev(a, b, a.len(), b.len())
}

pub open spec fn max_len(a: Seq<char>, b: Seq<char>) -> nat {
    if a.len() >= b.len() {
        a.len()
    } else {
        b.len()
    }
}

/// Row `i` of the matrix of `a` against `b`: the distances of `a[..i]` to every prefix of `b`.
pub open spec fn is_lev_row(row: Seq<usize>, a: Seq<char>, b: Seq<char>, i: nat) -> bool {
    &&& row.len() == b.len() + 1
    &&& forall|j: int| 0 <= j <= b.len() ==> #[trigger] row[j] == lev(a, b, i, j as nat)
}

/// The first `n` rows of `m` are those of the matrix of `a` against `b`.
pub open spec fn lev_rows(m: Seq<Vec<usize>>, a: Seq<char>, b: Seq<char>, n: nat) -> bool {
    &&& n <= m.len()
    &&& forall|i: int| 0 <= i < n ==> is_lev_row(#[trigger] m[i]@, a, b, i as nat)
}

/// `m` is the whole matrix of `a` against `b`: `len(a) + 1` rows of `len(b) + 1`
/// cells, cell `(i, j)` holding `lev(a, b, i, j)`.
pub open spec fn is_lev_matrix(m: Seq<Vec<usize>>, a: Seq<char>, b: Seq<char>) -> bool {
    &&& m.len() == a.len() + 1
    &&& lev_rows(m, a, b, m.len())
}

/// The similarity of two strings as an exact fraction: the share of the longer
/// string that needs no edit. Two empty strings have similarity 0.
pub struct Ratio {
    pub numerator: usize,
    pub denominator: usize,
}

pub open spec fn similarity_numerator(a: Seq<char>, b: Seq<char>) -> int {
    if max_len(a, b) == 0 {
        0
    } else {
        max_len(a, b) - edit_distance(a, b)
    }
}

pub open spec fn similarity_denominator(a: Seq<char>, b: Seq<char>) -> int {
    if max_len(a, b) == 0 {
        1
    } else {
        max_len(a, b) as int
    }
}

/// `r` is the similarity of `a` and `b`.
pub open spec fn is_similarity(r: Ratio, a: Seq<char>, b: Seq<char>) -> bool {
    &&& r.numerator == similarity_numerator(a, b)
    &&& r.denominator == similarity_denominator(a, b)
}

/// A distance never exceeds the length of the longer prefix.
pub proof fn lemma_lev_at_most_longer(a: Seq<char>, b: Seq<char>, i: nat, j: nat)
    ensures
        lev(a, b, i, j) <= if i >= j { i } else { j },
    decreases i + j,
{
    if i > 0 && j > 0 {
        lemma_lev_at_most_longer(a, b, (i - 1) as nat, (j - 1) as nat);
    }
}

/// Distance is symmetric, prefix by prefix.
pub proof fn lemma_lev_symmetric(a: Seq<char>, b: Seq<char>, i: nat, j: nat)
    ensures
        lev(a, b, i, j) == lev(b, a, j, i),
    decreases i + j,
{
    if i > 0 && j > 0 {
        lemma_lev_symmetric(a, b, (i - 1) as nat, j);
        lemma_lev_symmetric(a, b, i, (j - 1) as nat);
        lemma_lev_symmetric(a, b, (i - 1) as nat, (j - 1) as nat);
    }
}

/// A prefix is at distance zero from itself.
pub proof fn lemma_lev_self(a: Seq<char>, i: nat)
    ensures
        lev(a, a, i, i) == 0,
    decreases i,
{
    if i > 0 {
        lemma_lev_self(a, (i - 1) as nat);
    }
}

/// Distance is symmetric, and every string is at distance zero from itself.
pub proof fn lemma_distance_symmetric(a: Seq<char>, b: Seq<char>)
    ensures
        edit_distance(a, b) == edit_distance(b, a),
        edit_distance(a, a) == 0,
{
    lemma_lev_symmetric(a, b, a.len(), b.len());
    lemma_lev_self(a, a.len());
}

/// Similarity lies between 0 and 1, and is 1 for a non-empty string compared
/// with itself.
pub proof fn lemma_similarity_bounds(a: Seq<char>, b: Seq<char>)
    ensures
        0 <= similarity_numerator(a, b) <= similarity_denominator(a, b),
        similarity_denominator(a, b) > 0,
        a.len() > 0 ==> similarity_numerator(a, a) == similarity_denominator(a, a),
{
    lemma_lev_at_most_longer(a, b, a.len(), b.len());
    lemma_lev_self(a, a.len());
}

/// No cell of a matrix exceeds the length of the longer string.
pub proof fn lemma_cells_bounded(m: Seq<Vec<usize>>, a: Seq<char>, b: Seq<char>)
    requires
        is_lev_matrix(m, a, b),
    ensures
        forall|x: int, y: int|
            0 <= x <= a.len() && 0 <= y <= b.len() ==> #[trigger] m[x]@[y] <= max_len(a, b),
{
    assert forall|x: int, y: int| 0 <= x <= a.len() && 0 <= y <= b.len() implies #[trigger] m[
        x]@[y] <= max_len(a, b) by {
        lemma_lev_at_most_longer(a, b, x as nat, y as nat);
        assert(is_lev_row(m[x]@, a, b, x as nat));
    }
}

/// The characters of a string, in order.
pub fn chars_of(s: &str) -> (r: Vec<char>)
    ensures
        r@ == s@,
{
    let mut r: Vec<char> = Vec::new();
    for c in it: s.chars()
        invariant
            r@ == it.seq().take(it.index() as int),
            it.seq() == s@,
    {
        r.push(c);
    }
    r
}

/// Row `i` of the matrix, computed from row `i - 1`.
pub fn next_row(a: &Vec<char>, b: &Vec<char>, prev: &Vec<usize>, i: usize) -> (row: Vec<usize>)
    requires
        1 <= i <= a@.len(),
        a@.len() < usize::MAX,
        b@.len() < usize::MAX,
        is_lev_row(prev@, a@, b@, (i - 1) as nat),
    ensures
        is_lev_row(row@, a@, b@, i as nat),
{
    let mut row: Vec<usize> = Vec::new();
    row.push(i);
    let ai = a[i - 1];
    let mut j: usize = 1;
    while j <= b.len()
        invariant
            1 <= i <= a@.len(),
            a@.len() < usize::MAX,
            b@.len() < usize::MAX,
            is_lev_row(prev@, a@, b@, (i - 1) as nat),
            ai == a@[i - 1],
            1 <= j <= b@.len() + 1,
            row@.len() == j,
            forall|k: int| 0 <= k < j ==> #[trigger] row@[k] == lev(a@, b@, i as nat, k as nat),
        decreases b@.len() + 1 - j,
    {
        proof {
            lemma_lev_at_most_longer(a@, b@, (i - 1) as nat, j as nat);
            lemma_lev_at_most_longer(a@, b@, i as nat, (j - 1) as nat);
            lemma_lev_at_most_longer(a@, b@, (i - 1) as nat, (j - 1) as nat);
        }
        let cost: usize = if ai == b[j - 1] {
            0
        } else {
            1
        };
        let up = prev[j] + 1;
        let left = row[j - 1] + 1;
        let diag = prev[j - 1] + cost;
        let best = if up <= left && up <= diag {
            up
        } else if left <= diag {
            left
        } else {
            diag
        };
        row.push(best);
        j = j + 1;
    }
    row
}

/// The first row of the matrix: the distances of the empty prefix.
fn first_row(b: &Vec<char>) -> (row: Vec<usize>)
    requires
        b@.len() < usize::MAX,
    ensures
        forall|a: Seq<char>| is_lev_row(row@, a, b@, 0),
{
    let mut row: Vec<usize> = Vec::new();
    let mut j: usize = 0;
    while j <= b.len()
        invariant
            b@.len() < usize::MAX,
            j <= b@.len() + 1,
            row@.len() == j,
            forall|k: int| 0 <= k < j ==> #[trigger] row@[k] == k,
        decreases b@.len() + 1 - j,
    {
        row.push(j);
        j = j + 1;
    }
    row
}

/// The matrix of `a` against `b`, built row by row.
pub fn matrix_of(a: &Vec<char>, b: &Vec<char>) -> (m: Vec<Vec<usize>>)
    requires
        a@.len() < usize::MAX,
        b@.len() < usize::MAX,
    ensures
        is_lev_matrix(m@, a@, b@),
{
    let mut m: Vec<Vec<usize>> = Vec::new();
    m.push(first_row(b));
    let mut i: usize = 1;
    while i <= a.len()
        invariant
            a@.len() < usize::MAX,
            b@.len() < usize::MAX,
            1 <= i <= a@.len() + 1,
            m@.len() == i,
            lev_rows(m@, a@, b@, i as nat),
        decreases a@.len() + 1 - i,
    {
        let row = next_row(a, b, &m[i - 1], i);
        m.push(row);
        i = i + 1;
    }
    m
}

/// The matrix of edit distances between the prefixes of `a` (rows) and of `b`
/// (columns).
pub fn levenshtein_matrix(a: &str, b: &str) -> (m: Vec<Vec<usize>>)
    requires
        a@.len() < usize::MAX,
        b@.len() < usize::MAX,
    ensures
        is_lev_matrix(m@, a@, b@),
{
    let a = chars_of(a);
    let b = chars_of(b);
    matrix_of(&a, &b)
}

/// The edit distance between `a` and `b`.
pub fn levenshtein_distance(a: &str, b: &str) -> (r: usize)
    requires
        a@.len() < usize::MAX,
        b@.len() < usize::MAX,
    ensures
        r == edit_distance(a@, b@),
{
    let a = chars_of(a);
    let b = chars_of(b);
    let m = matrix_of(&a, &b);
    m[a.len()][b.len()]
}

/// The similarity of `a` and `b` read off the last cell of their matrix.
pub fn similarity_from_matrix(m: &Vec<Vec<usize>>, a: &Vec<char>, b: &Vec<char>) -> (r: Ratio)
    requires
        is_lev_matrix(m@, a@, b@),
    ensures
        is_similarity(r, a@, b@),
{
    let distance = m[a.len()][b.len()];
    let longest = if a.len() >= b.len() {
        a.len()
    } else {
        b.len()
    };
    proof {
        lemma_lev_at_most_longer(a@, b@, a@.len(), b@.len());
    }
    if longest == 0 {
        Ratio { numerator: 0, denominator: 1 }
    } else {
        Ratio { numerator: longest - distance, denominator: longest }
    }
}

/// The similarity of `a` and `b`: `(longest - distance) / longest`, where
/// `longest` is the length of the longer string; 0 when both are empty.
pub fn levenshtein_similarity(a: &str, b: &str) -> (r: Ratio)
    requires
        a@.len() < usize::MAX,
        b@.len() < usize::MAX,
    ensures
        is_similarity(r, a@, b@),
{
    let a = chars_of(a);
    let b = chars_of(b);
    let m = matrix_of(&a, &b);
    similarity_from_matrix(&m, &a, &b)
}

/// One step of an edit script, with run lengths: a run of insertions, a run of
/// deletions, one substitution of one character for one character, or a run of
/// characters kept as they are. The backtrace passes matching characters
/// without recording them, so the scripts it builds hold no `NoOp`; a `NoOp`
/// costs nothing in the weighted cost.
#[derive(Clone, Copy, Debug, PartialEq, Eq, Structural)]
pub enum EditOperation {
    Insert(usize),
    Delete(usize),
    Substitute(usize, usize),
    NoOp(usize),
}

/// How many deletions in a row the backtrace takes from cell `(i, j)`.
pub open spec fn deletion_run(a: Seq<char>, b: Seq<char>, i: nat, j: nat) -> nat
    decreases i,
{
    if i > 0 && lev(a, b, i, j) == lev(a, b, (i - 1) as nat, j) + 1 {
        1 + deletion_run(a, b, (i - 1) as nat, j)
    } else {
        0
    }
}

/// How many insertions in a row the backtrace takes from cell `(i, j)`.
pub open spec fn insertion_run(a: Seq<char>, b: Seq<char>, i: nat, j: nat) -> nat
    decreases j,
{
    if j > 0 && lev(a, b, i, j) == lev(a, b, i, (j - 1) as nat) + 1 {
        1 + insertion_run(a, b, i, (j - 1) as nat)
    } else {
        0
    }
}

pub proof fn lemma_deletion_run_bound(a: Seq<char>, b: Seq<char>, i: nat, j: nat)
    ensures
        deletion_run(a, b, i, j) <= i,
    decreases i,
{
    if i > 0 {
        lemma_deletion_run_bound(a, b, (i - 1) as nat, j);
    }
}

pub proof fn lemma_insertion_run_bound(a: Seq<char>, b: Seq<char>, i: nat, j: nat)
    ensures
        insertion_run(a, b, i, j) <= j,
    decreases j,
{
    if j > 0 {
        lemma_insertion_run_bound(a, b, i, (j - 1) as nat);
    }
}

/// The operations met when walking the matrix back from cell `(i, j)` to
/// `(0, 0)`, in the order they are met. A matching pair of characters is
/// passed diagonally at no cost; otherwise a substitution is preferred, then a
/// run of deletions, then a run of insertions, whichever the cell's value
/// allows.
pub open spec fn backtrace(a: Seq<char>, b: Seq<char>, i: nat, j: nat) -> Seq<EditOperation>
    decreases i + j,
{
    if i > 0 && j > 0 {
        if a[i - 1] == b[j - 1] {
            backtrace(a, b, (i - 1) as nat, (j - 1) as nat)
        } else if lev(a, b, i, j) == lev(a, b, (i - 1) as nat, (j - 1) as nat) + 1 {
            seq![EditOperation::Substitute(1, 1)] + backtrace(
                a,
                b,
                (i - 1) as nat,
                (j - 1) as nat,
            )
        } else if lev(a, b, i, j) == lev(a, b, (i - 1) as nat, j) + 1 {
            let k = deletion_run(a, b, i, j);
            if 1 <= k <= i {
                seq![EditOperation::Delete(k as usize)] + backtrace(a, b, (i - k) as nat, j)
            } else {
                seq![]
            }
        } else {
            let k = insertion_run(a, b, i, j);
            if 1 <= k <= j {
                seq![EditOperation::Insert(k as usize)] + backtrace(a, b, i, (j - k) as nat)
            } else {
                seq![]
            }
        }
    } else if i > 0 {
        seq![EditOperation::Delete(i as usize)]
    } else if j > 0 {
        seq![EditOperation::Insert(j as usize)]
    } else {
        seq![]
    }
}

/// The edit script that turns `a` into `b`, from the start of the strings to
/// their end.
pub open spec fn edit_script(a: Seq<char>, b: Seq<char>) -> Seq<EditOperation> {
    backtrace(a, b, a.len(), b.len()).reverse()
}

/// Walks the matrix of `a` against `b` back from its last cell and returns the
/// edit operations that turn `a` into `b`, in order.
pub fn edit_operations(matrix: &Vec<Vec<usize>>, a: &Vec<char>, b: &Vec<char>) -> (ops: Vec<
    EditOperation,
>)
    requires
        is_lev_matrix(matrix@, a@, b@),
        a@.len() < usize::MAX,
        b@.len() < usize::MAX,
    ensures
        ops@ == edit_script(a@, b@),
{
    proof {
        lemma_cells_bounded(matrix@, a@, b@);
    }
    let mut found: Vec<EditOperation> = Vec::new();
    let mut i: usize = a.len();
    let mut j: usize = b.len();
    while i > 0 && j > 0
        invariant
            is_lev_matrix(matrix@, a@, b@),
            a@.len() < usize::MAX,
            b@.len() < usize::MAX,
            forall|x: int, y: int|
                0 <= x <= a@.len() && 0 <= y <= b@.len() ==> #[trigger] matrix@[x]@[y] <= max_len(
                    a@,
                    b@,
                ),
            i <= a@.len(),
            j <= b@.len(),
            found@ + backtrace(a@, b@, i as nat, j as nat) == backtrace(
                a@,
                b@,
                a@.len(),
                b@.len(),
            ),
        decreases i + j,
    {
        proof {
            lemma_lev_at_most_longer(a@, b@, (i - 1) as nat, j as nat);
            lemma_lev_at_most_longer(a@, b@, i as nat, (j - 1) as nat);
            lemma_lev_at_most_longer(a@, b@, (i - 1) as nat, (j - 1) as nat);
            assert(matrix@[i as int]@[j as int] == lev(a@, b@, i as nat, j as nat));
            assert(matrix@[i - 1]@[j as int] == lev(a@, b@, (i - 1) as nat, j as nat));
            assert(matrix@[i as int]@[j - 1] == lev(a@, b@, i as nat, (j - 1) as nat));
            assert(matrix@[i - 1]@[j - 1] == lev(a@, b@, (i - 1) as nat, (j - 1) as nat));
        }
        let current = matrix[i][j];
        if a[i - 1] == b[j - 1] {
            i = i - 1;
            j = j - 1;
        } else if current == matrix[i - 1][j - 1] + 1 {
            proof {
                assert(found@.push(EditOperation::Substitute(1, 1)) + backtrace(
                    a@,
                    b@,
                    (i - 1) as nat,
                    (j - 1) as nat,
                ) =~= found@ + backtrace(a@, b@, i as nat, j as nat));
            }
            found.push(EditOperation::Substitute(1, 1));
            i = i - 1;
            j = j - 1;
        } else if current == matrix[i - 1][j] + 1 {
            let ghost i0 = i;
            let mut count: usize = 0;
            while i > 0 && matrix[i][j] == matrix[i - 1][j] + 1
                invariant
                    is_lev_matrix(matrix@, a@, b@),
                    a@.len() < usize::MAX,
                    b@.len() < usize::MAX,
                    forall|x: int, y: int|
                        0 <= x <= a@.len() && 0 <= y <= b@.len() ==> #[trigger] matrix@[x]@[y]
                            <= max_len(a@, b@),
                    i <= a@.len(),
                    j <= b@.len(),
                    i + count == i0,
                    count + deletion_run(a@, b@, i as nat, j as nat) == deletion_run(
                        a@,
                        b@,
                        i0 as nat,
                        j as nat,
                    ),
                decreases i,
            {
                proof {
                    lemma_lev_at_most_longer(a@, b@, (i - 1) as nat, j as nat);
                    assert(matrix@[i as int]@[j as int] == lev(a@, b@, i as nat, j as nat));
                    assert(matrix@[i - 1]@[j as int] == lev(a@, b@, (i - 1) as nat, j as nat));
                }
                count = count + 1;
                i = i - 1;
            }
            proof {
                if i > 0 {
                    lemma_lev_at_most_longer(a@, b@, (i - 1) as nat, j as nat);
                    assert(matrix@[i as int]@[j as int] == lev(a@, b@, i as nat, j as nat));
                    assert(matrix@[i - 1]@[j as int] == lev(a@, b@, (i - 1) as nat, j as nat));
                }
                assert(deletion_run(a@, b@, i as nat, j as nat) == 0);
                lemma_deletion_run_bound(a@, b@, i0 as nat, j as nat);
                assert(found@.push(EditOperation::Delete(count)) + backtrace(
                    a@,
                    b@,
                    i as nat,
                    j as nat,
                ) =~= found@ + backtrace(a@, b@, i0 as nat, j as nat));
            }
            found.push(EditOperation::Delete(count));
        } else {
            let ghost j0 = j;
            let mut count: usize = 0;
            while j > 0 && matrix[i][j] == matrix[i][j - 1] + 1
                invariant
                    is_lev_matrix(matrix@, a@, b@),
                    a@.len() < usize::MAX,
                    b@.len() < usize::MAX,
                    forall|x: int, y: int|
                        0 <= x <= a@.len() && 0 <= y <= b@.len() ==> #[trigger] matrix@[x]@[y]
                            <= max_len(a@, b@),
                    i <= a@.len(),
                    j <= b@.len(),
                    j + count == j0,
                    count + insertion_run(a@, b@, i as nat, j as nat) == insertion_run(
                        a@,
                        b@,
                        i as nat,
                        j0 as nat,
                    ),
                decreases j,
            {
                proof {
                    lemma_lev_at_most_longer(a@, b@, i as nat, (j - 1) as nat);
                    assert(matrix@[i as int]@[j as int] == lev(a@, b@, i as nat, j as nat));
                    assert(matrix@[i as int]@[j - 1] == lev(a@, b@, i as nat, (j - 1) as nat));
                }
                count = count + 1;
                j = j - 1;
            }
            proof {
                if j > 0 {
                    lemma_lev_at_most_longer(a@, b@, i as nat, (j - 1) as nat);
                    assert(matrix@[i as int]@[j as int] == lev(a@, b@, i as nat, j as nat));
                    assert(matrix@[i as int]@[j - 1] == lev(a@, b@, i as nat, (j - 1) as nat));
                }
                assert(insertion_run(a@, b@, i as nat, j as nat) == 0);
                lemma_insertion_run_bound(a@, b@, i as nat, j0 as nat);
                assert(found@.push(EditOperation::Insert(count)) + backtrace(
                    a@,
                    b@,
                    i as nat,
                    j as nat,
                ) =~= found@ + backtrace(a@, b@, i as nat, j0 as nat));
            }
            found.push(EditOperation::Insert(count));
        }
    }
    if i > 0 {
        assert(found@.push(EditOperation::Delete(i)) =~= found@ + backtrace(
            a@,
            b@,
            i as nat,
            j as nat,
        ));
        found.push(EditOperation::Delete(i));
    }
    if j > 0 {
        assert(found@.push(EditOperation::Insert(j)) =~= found@ + backtrace(
            a@,
            b@,
            i as nat,
            j as nat,
        ));
        found.push(EditOperation::Insert(j));
    }
    assert(found@ =~= backtrace(a@, b@, a@.len(), b@.len()));
    let mut ops: Vec<EditOperation> = Vec::new();
    let mut k: usize = found.len();
    while k > 0
        invariant
            k <= found@.len(),
            ops@ =~= found@.subrange(k as int, found@.len() as int).reverse(),
        decreases k,
    {
        k = k - 1;
        ops.push(found[k]);
        assert(ops@ =~= found@.subrange(k as int, found@.len() as int).reverse());
    }
    ops
}

/// The run lengths that one operation is charged for in the weighted cost,
/// each run of length `n` costing `ln(1 + n)`: a run of insertions or deletions
/// is one run, a substitution is two runs of one, kept characters cost nothing.
pub open spec fn charged_runs(op: EditOperation) -> Seq<usize> {
    match op {
        EditOperation::Insert(n) => seq![n],
        EditOperation::Delete(n) => seq![n],
        EditOperation::Substitute(x, y) => seq![x, y],
        EditOperation::NoOp(_) => seq![],
    }
}

/// The charged runs of a whole script, operation by operation.
pub open spec fn script_runs(ops: Seq<EditOperation>) -> Seq<usize>
    decreases ops.len(),
{
    if ops.len() == 0 {
        seq![]
    } else {
        script_runs(ops.drop_last()) + charged_runs(ops.last())
    }
}

/// What the weighted similarity of two strings is computed from: the charged
/// runs of their edit script and the length of the longer string. The weighted
/// similarity is `(longest - sum of ln(1 + run)) / longest`, and 0 when both
/// strings are empty.
pub struct WeightedEdit {
    pub runs: Vec<usize>,
    pub longest: usize,
}

/// `w` holds the charged runs of the script from `a` to `b` and the longer length.
pub open spec fn is_weighted_edit(w: WeightedEdit, a: Seq<char>, b: Seq<char>) -> bool {
    &&& w.runs@ == script_runs(edit_script(a, b))
    &&& w.longest == max_len(a, b)
}

/// The charged runs of a script.
pub fn runs_of(ops: &Vec<EditOperation>) -> (runs: Vec<usize>)
    ensures
        runs@ == script_runs(ops@),
{
    let mut runs: Vec<usize> = Vec::new();
    let mut k: usize = 0;
    while k < ops.len()
        invariant
            k <= ops@.len(),
            runs@ == script_runs(ops@.take(k as int)),
        decreases ops@.len() - k,
    {
        let ghost before = runs@;
        match ops[k] {
            EditOperation::Insert(n) => {
                runs.push(n);
            },
            EditOperation::Delete(n) => {
                runs.push(n);
            },
            EditOperation::Substitute(x, y) => {
                runs.push(x);
                runs.push(y);
            },
            EditOperation::NoOp(_) => {},
        }
        proof {
            assert(ops@.take(k + 1).drop_last() =~= ops@.take(k as int));
            assert(runs@ =~= before + charged_runs(ops@[k as int]));
        }
        k = k + 1;
    }
    assert(ops@.take(ops@.len() as int) =~= ops@);
    runs
}

/// The weighted-cost inputs for `a` and `b`, read from their matrix.
pub fn weighted_edit_of(matrix: &Vec<Vec<usize>>, a: &Vec<char>, b: &Vec<char>) -> (w: WeightedEdit)
    requires
        is_lev_matrix(matrix@, a@, b@),
        a@.len() < usize::MAX,
        b@.len() < usize::MAX,
    ensures
        is_weighted_edit(w, a@, b@),
{
    let ops = edit_operations(matrix, a, b);
    let runs = runs_of(&ops);
    let longest = if a.len() >= b.len() {
        a.len()
    } else {
        b.len()
    };
    WeightedEdit { runs, longest }
}

/// The weighted-cost inputs for `a` and `b`: builds their matrix, walks it back
/// into an edit script and collects the runs that the script is charged for.
pub fn weighted_edit(a: &str, b: &str) -> (w: WeightedEdit)
    requires
        a@.len() < usize::MAX,
        b@.len() < usize::MAX,
    ensures
        is_weighted_edit(w, a@, b@),
{
    let a = chars_of(a);
    let b = chars_of(b);
    let m = matrix_of(&a, &b);
    weighted_edit_of(&m, &a, &b)
}

/// `n` is the length of the longest common prefix of `a` and `b`.
pub open spec fn is_common_prefix_len(a: Seq<char>, b: Seq<char>, n: nat) -> bool {
    &&& n <= a.len()
    &&& n <= b.len()
    &&& a.take(n as int) == b.take(n as int)
    &&& (n == a.len() || n == b.len() || a[n as int] != b[n as int])
}

/// The number of leading characters that `a` and `b` share.
pub fn prefix_len(a: &Vec<char>, b: &Vec<char>) -> (r: usize)
    ensures
        is_common_prefix_len(a@, b@, r as nat),
{
    let mut n: usize = 0;
    while n < a.len() && n < b.len() && a[n] == b[n]
        invariant
            n <= a@.len(),
            n <= b@.len(),
            forall|k: int| 0 <= k < n ==> a@[k] == b@[k],
        decreases a@.len() - n,
    {
        n = n + 1;
    }
    assert(a@.take(n as int) =~= b@.take(n as int));
    n
}

/// The number of leading characters that `a` and `b` share.
pub fn common_prefix(a: &str, b: &str) -> (r: usize)
    ensures
        is_common_prefix_len(a@, b@, r as nat),
{
    let a = chars_of(a);
    let b = chars_of(b);
    prefix_len(&a, &b)
}

} // verus!
