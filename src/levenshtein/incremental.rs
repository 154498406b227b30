//! Edit distance against a fixed data string while the query string changes.
//!
//! The matrix of the previous query is kept. When the query changes, only the
//! rows past the prefix that the old and the new query share are computed
//! again: the rows within that prefix depend on nothing but the prefix and the
//! data string.
use vstd::prelude::*;
use crate::levenshtein::base::{
    chars_of, is_common_prefix_len, is_lev_matrix, is_lev_row, is_similarity, is_weighted_edit,
    lev, lev_rows, matrix_of, next_row, prefix_len, similarity_from_matrix, weighted_edit_of, Ratio,
    WeightedEdit,
};

verus! {

/// A query, a data string, and the edit-distance matrix of the one against the
/// other, kept equal to what a computation from scratch gives.
#[derive(Clone)]
pub struct IncrementalLevenshtein {
    query: Vec<char>,
    data: Vec<char>,
    matrix: Vec<Vec<usize>>,
}

/// Rows within a shared prefix do not depend on what follows the prefix.
pub proof fn lemma_lev_prefix(q1: Seq<char>, q2: Seq<char>, d: Seq<char>, k: nat, i: nat, j: nat)
    requires
        k <= q1.len(),
        k <= q2.len(),
        q1.take(k as int) == q2.take(k as int),
        i <= k,
    ensures
        lev(q1, d, i, j) == lev(q2, d, i, j),
    decreases i + j,
{
    if i > 0 && j > 0 {
        assert(q1[i - 1] == q1.take(k as int)[i - 1]);
        assert(q2[i - 1] == q2.take(k as int)[i - 1]);
        lemma_lev_prefix(q1, q2, d, k, (i - 1) as nat, j);
        lemma_lev_prefix(q1, q2, d, k, i, (j - 1) as nat);
        lemma_lev_prefix(q1, q2, d, k, (i - 1) as nat, (j - 1) as nat);
    }
}

/// Two matrices of the same pair of strings hold the same cells: the matrix
/// that an incremental update leaves is the one a computation from scratch
/// builds.
pub proof fn lemma_matrix_unique(m1: Seq<Vec<usize>>, m2: Seq<Vec<usize>>, a: Seq<char>, b: Seq<char>)
    requires
        is_lev_matrix(m1, a, b),
        is_lev_matrix(m2, a, b),
    ensures
        m1.len() == m2.len(),
        forall|i: int| 0 <= i < m1.len() ==> #[trigger] m1[i]@ == m2[i]@,
{
    assert forall|i: int| 0 <= i < m1.len() implies #[trigger] m1[i]@ == m2[i]@ by {
        assert(is_lev_row(m1[i]@, a, b, i as nat));
        assert(is_lev_row(m2[i]@, a, b, i as nat));
        assert(m1[i]@ =~= m2[i]@);
    }
}

impl IncrementalLevenshtein {
    /// The current query.
    pub closed spec fn query_seq(&self) -> Seq<char> {
        self.query@
    }

    /// The data string, fixed for the life of the value.
    pub closed spec fn data_seq(&self) -> Seq<char> {
        self.data@
    }

    /// The matrix as it stands.
    pub closed spec fn matrix_seq(&self) -> Seq<Vec<usize>> {
        self.matrix@
    }

    /// The matrix is that of the current query against the data string.
    pub open spec fn wf(&self) -> bool {
        &&& is_lev_matrix(self.matrix_seq(), self.query_seq(), self.data_seq())
        &&& self.query_seq().len() < usize::MAX
        &&& self.data_seq().len() < usize::MAX
    }

    /// Starts from `query` against `data`, with the whole matrix computed.
    pub fn new(query: &str, data: &str) -> (r: Self)
        requires
            query@.len() < usize::MAX,
            data@.len() < usize::MAX,
        ensures
            r.wf(),
            r.query_seq() == query@,
            r.data_seq() == data@,
    {
        let query = chars_of(query);
        let data = chars_of(data);
        let matrix = matrix_of(&query, &data);
        IncrementalLevenshtein { query, data, matrix }
    }

    /// How many leading characters the current query shares with `new_query`.
    fn query_similarity(&self, new_query: &Vec<char>) -> (r: usize)
        ensures
            is_common_prefix_len(self.query_seq(), new_query@, r as nat),
    {
        prefix_len(&self.query, new_query)
    }

    /// Moves to `new_query`. The rows of the shared prefix stay; the rows after
    /// it are dropped and computed again for the new query.
    pub fn update(&mut self, new_query: &str)
        requires
            old(self).wf(),
            new_query@.len() < usize::MAX,
        ensures
            final(self).wf(),
            final(self).query_seq() == new_query@,
            final(self).data_seq() == old(self).data_seq(),
    {
        let new_query = chars_of(new_query);
        let shared = self.query_similarity(&new_query);
        let ghost old_query = self.query@;
        self.matrix.truncate(shared + 1);
        proof {
            assert forall|i: int| 0 <= i < shared + 1 implies is_lev_row(
                #[trigger] self.matrix@[i]@,
                new_query@,
                self.data@,
                i as nat,
            ) by {
                assert(is_lev_row(self.matrix@[i]@, old_query, self.data@, i as nat));
                assert forall|j: int| 0 <= j <= self.data@.len() implies #[trigger] self.matrix@[i]@[j]
                    == lev(new_query@, self.data@, i as nat, j as nat) by {
                    lemma_lev_prefix(
                        old_query,
                        new_query@,
                        self.data@,
                        shared as nat,
                        i as nat,
                        j as nat,
                    );
                }
            }
        }
        let mut i: usize = shared + 1;
        while i <= new_query.len()
            invariant
                new_query@.len() < usize::MAX,
                self.data@.len() < usize::MAX,
                self.data@ == old(self).data@,
                shared + 1 <= i <= new_query@.len() + 1,
                self.matrix@.len() == i,
                lev_rows(self.matrix@, new_query@, self.data@, i as nat),
            decreases new_query@.len() + 1 - i,
        {
            let row = next_row(&new_query, &self.data, &self.matrix[i - 1], i);
            self.matrix.push(row);
            i = i + 1;
        }
        self.query = new_query;
    }

    /// Moves to `new_query` and returns its similarity to the data string, the
    /// same fraction that a computation from scratch gives.
    pub fn similarity(&mut self, new_query: &str) -> (r: Ratio)
        requires
            old(self).wf(),
            new_query@.len() < usize::MAX,
        ensures
            final(self).wf(),
            final(self).query_seq() == new_query@,
            final(self).data_seq() == old(self).data_seq(),
            is_similarity(r, new_query@, old(self).data_seq()),
    {
        self.update(new_query);
        similarity_from_matrix(&self.matrix, &self.query, &self.data)
    }

    /// Moves to `new_query` and returns what its weighted similarity to the data
    /// string is computed from, the same as from scratch.
    pub fn weighted_edit(&mut self, new_query: &str) -> (w: WeightedEdit)
        requires
            old(self).wf(),
            new_query@.len() < usize::MAX,
        ensures
            final(self).wf(),
            final(self).query_seq() == new_query@,
            final(self).data_seq() == old(self).data_seq(),
            is_weighted_edit(w, new_query@, old(self).data_seq()),
    {
        self.update(new_query);
        weighted_edit_of(&self.matrix, &self.query, &self.data)
    }

    /// The matrix of the current query against the data string.
    pub fn matrix(&self) -> (m: &Vec<Vec<usize>>)
        ensures
            m@ == self.matrix_seq(),
    {
        &self.matrix
    }
}

} // verus!
