//! Ranking of items by a combined score.
//!
//! An engine owns its items in the order they were registered, one state per
//! item, the constructor that makes an item's state at registration, and a
//! scorer. Given the query, the scorer reads (and may advance) an item's state
//! and returns one score for each configured scoring function; the item's
//! combined score is the largest of them. A ranking lists every item once, in
//! ascending order of combined score: the least similar item comes first.
//!
//! Scores are order keys: `u64` values whose order is the order of the
//! similarities they stand for.
use vstd::prelude::*;

verus! {

/// The largest score of a list; 0, the least key, for an empty list.
pub open spec fn max_key(s: Seq<u64>) -> u64
    decreases s.len(),
{
    if s.len() == 0 {
        0
    } else {
        let m = max_key(s.drop_last());
        if s.last() > m {
            s.last()
        } else {
            m
        }
    }
}

/// The largest score is one of the scores, and no score exceeds it.
pub proof fn lemma_max_key(s: Seq<u64>)
    ensures
        s.len() > 0 ==> s.contains(max_key(s)),
        forall|i: int| 0 <= i < s.len() ==> s[i] <= max_key(s),
    decreases s.len(),
{
    if s.len() > 0 {
        lemma_max_key(s.drop_last());
        if s.last() > max_key(s.drop_last()) || s.len() == 1 {
            assert(s[s.len() - 1] == max_key(s));
        } else {
            let k = choose|k: int|
                0 <= k < s.drop_last().len() && s.drop_last()[k] == max_key(s.drop_last());
            assert(s[k] == max_key(s));
        }
        assert forall|i: int| 0 <= i < s.len() implies s[i] <= max_key(s) by {
            if i < s.len() - 1 {
                assert(s[i] == s.drop_last()[i]);
            }
        }
    }
}

/// Two scoring functions combine to the larger of their two weighted scores.
pub proof fn lemma_combination_of_two(x: u64, y: u64)
    ensures
        max_key(seq![x, y]) == if x >= y {
            x
        } else {
            y
        },
{
    reveal_with_fuel(max_key, 3);
    assert(seq![x, y].drop_last() =~= seq![x]);
    assert(seq![x].drop_last() =~= Seq::<u64>::empty());
}

/// The combined score of one item: the largest of the scores that its scoring
/// functions gave.
pub fn combined_score(scores: &Vec<u64>) -> (r: u64)
    ensures
        r == max_key(scores@),
{
    let mut best: u64 = 0;
    let mut k: usize = 0;
    while k < scores.len()
        invariant
            k <= scores@.len(),
            best == max_key(scores@.take(k as int)),
        decreases scores@.len() - k,
    {
        assert(scores@.take(k + 1).drop_last() =~= scores@.take(k as int));
        if scores[k] > best {
            best = scores[k];
        }
        k = k + 1;
    }
    assert(scores@.take(scores@.len() as int) =~= scores@);
    best
}

/// Scores never decrease along `s`.
pub open spec fn ascending<T>(s: Seq<(T, u64)>) -> bool {
    forall|i: int, j: int| 0 <= i < j < s.len() ==> s[i].1 <= s[j].1
}

/// `p` is a permutation of `0..n`.
pub open spec fn permutes(p: Seq<int>, n: nat) -> bool {
    &&& p.len() == n
    &&& forall|k: int| 0 <= k < n ==> 0 <= #[trigger] p[k] < n
    &&& forall|k1: int, k2: int| 0 <= k1 < k2 < n ==> p[k1] != p[k2]
}

/// `out` lists the elements of `inp`, each once, in some order.
pub open spec fn rearranges<T>(out: Seq<T>, inp: Seq<T>) -> bool {
    exists|p: Seq<int>|
        permutes(p, inp.len()) && out.len() == inp.len() && forall|k: int|
            0 <= k < out.len() ==> #[trigger] out[k] == inp[p[k]]
}

/// A rearrangement loses no element and adds none.
pub proof fn lemma_rearrangement_keeps_items<T>(out: Seq<T>, inp: Seq<T>)
    requires
        rearranges(out, inp),
    ensures
        out.len() == inp.len(),
        forall|x: T| out.contains(x) <==> inp.contains(x),
{
    let p = choose|p: Seq<int>|
        permutes(p, inp.len()) && out.len() == inp.len() && forall|k: int|
            0 <= k < out.len() ==> #[trigger] out[k] == inp[p[k]];
    assert forall|x: T| out.contains(x) implies inp.contains(x) by {
        let k = choose|k: int| 0 <= k < out.len() && out[k] == x;
        assert(inp[p[k]] == x);
    }
    assert forall|x: T| inp.contains(x) implies out.contains(x) by {
        let m = choose|m: int| 0 <= m < inp.len() && inp[m] == x;
        lemma_permutation_onto(p, inp.len(), m);
        let k = choose|k: int| 0 <= k < p.len() && p[k] == m;
        assert(out[k] == x);
    }
}

/// Every index below `n` is hit by a permutation of `0..n`.
proof fn lemma_permutation_onto(p: Seq<int>, n: nat, m: int)
    requires
        permutes(p, n),
        0 <= m < n,
    ensures
        exists|k: int| 0 <= k < p.len() && p[k] == m,
{
    if forall|k: int| 0 <= k < p.len() ==> p[k] != m {
        // `p` would then map `0..n` one to one into `0..n` without `m`
        let s = p.to_set();
        assert forall|x: int| s.contains(x) implies 0 <= x < n && x != m by {
            let k = choose|k: int| 0 <= k < p.len() && p[k] == x;
        }
        assert(s.subset_of(Set::new(|x: int| 0 <= x < n && x != m)));
        assert(Set::new(|x: int| 0 <= x < n && x != m) =~= Set::range(0, n as int).remove(m));
        vstd::set_lib::lemma_int_range(0, n as int);
        vstd::set_lib::lemma_len_subset(s, Set::range(0, n as int).remove(m));
        assert(p.no_duplicates());
        p.unique_seq_to_set();
    }
}

/// Sorts scored entries into ascending order of score.
pub fn sort_by_score<T>(items: Vec<(T, u64)>) -> (r: Vec<(T, u64)>)
    ensures
        ascending(r@),
        rearranges(r@, items@),
{
    let ghost orig = items@;
    let mut rest = items;
    let mut out: Vec<(T, u64)> = Vec::new();
    let ghost mut p: Seq<int> = Seq::empty();
    while rest.len() > 0
        invariant
            rest@ == orig.take(rest@.len() as int),
            rest@.len() <= orig.len(),
            out@.len() + rest@.len() == orig.len(),
            ascending(out@),
            p.len() == out@.len(),
            forall|k: int| 0 <= k < p.len() ==> rest@.len() <= #[trigger] p[k] < orig.len(),
            forall|k1: int, k2: int| 0 <= k1 < k2 < p.len() ==> p[k1] != p[k2],
            forall|k: int| 0 <= k < out@.len() ==> #[trigger] out@[k] == orig[p[k]],
        decreases rest@.len(),
    {
        let item = rest.pop().unwrap();
        let ghost idx = rest@.len() as int;
        assert(item == orig[idx]);
        let key = item.1;
        let mut pos: usize = 0;
        while pos < out.len() && out[pos].1 <= key
            invariant
                pos <= out@.len(),
                forall|k: int| 0 <= k < pos ==> out@[k].1 <= key,
            decreases out@.len() - pos,
        {
            pos = pos + 1;
        }
        let ghost before = out@;
        out.insert(pos, item);
        proof {
            p = p.insert(pos as int, idx);
            assert(rest@ =~= orig.take(rest@.len() as int));
            assert forall|i: int, j: int| 0 <= i < j < out@.len() implies out@[i].1 <= out@[j].1 by {
                if j < pos {
                } else if j == pos {
                } else if i < pos {
                    assert(before[j - 1].1 >= before[pos as int].1);
                } else if i == pos {
                    assert(before[j - 1].1 >= before[pos as int].1);
                }
            }
            assert forall|k: int| 0 <= k < out@.len() implies #[trigger] out@[k] == orig[p[k]] by {
                if k < pos {
                    assert(out@[k] == before[k]);
                } else if k > pos {
                    assert(out@[k] == before[k - 1]);
                }
            }
            assert forall|k: int| 0 <= k < p.len() implies rest@.len() <= #[trigger] p[k]
                < orig.len() by {}
        }
    }
    proof {
        assert(permutes(p, orig.len()));
        assert(forall|k: int| 0 <= k < out@.len() ==> #[trigger] out@[k] == orig[p[k]]);
    }
    out
}

/// The constructor accepts every item.
pub open spec fn builds_any<V, St, C: Fn(&V) -> St>(state_of: C) -> bool {
    forall|v: &V| #[trigger] state_of.requires((v,))
}

/// The scorer accepts every state, item and query.
pub open spec fn scores_any<V, St, S: Fn(St, &V, &str) -> (St, Vec<u64>)>(scorer: S) -> bool {
    forall|st: St, v: &V, q: &str| #[trigger] scorer.requires((st, v, q))
}

/// Under `scorer`, the item `v` in state `before` met `query`, was left in state
/// `after`, and got the combined score `score`: the largest of the scores that
/// the scorer returned for it.
pub open spec fn scored_as<V, St, S: Fn(St, &V, &str) -> (St, Vec<u64>)>(
    scorer: S,
    before: St,
    after: St,
    v: &V,
    query: &str,
    score: u64,
) -> bool {
    exists|ks: Vec<u64>| #[trigger] scorer.ensures((before, v, query), (after, ks)) && score == max_key(ks@)
}

/// Pairs each item with its score.
pub open spec fn with_scores<V>(values: Seq<V>, scores: Seq<u64>) -> Seq<(V, u64)> {
    Seq::new(values.len(), |i: int| (values[i], scores[i]))
}

/// `r` ranks `values` against `query`: every item once, with its combined
/// score, in ascending order of score; item `i` went from state `before[i]` to
/// state `after[i]`.
pub open spec fn is_ranking<V, St, S: Fn(St, &V, &str) -> (St, Vec<u64>)>(
    scorer: S,
    values: Seq<V>,
    before: Seq<St>,
    after: Seq<St>,
    query: &str,
    r: Seq<(V, u64)>,
) -> bool {
    &&& ascending(r)
    &&& after.len() == values.len()
    &&& exists|scores: Seq<u64>|
        #![trigger rearranges(r, with_scores(values, scores))]
        scores.len() == values.len() && (forall|i: int|
            0 <= i < values.len() ==> #[trigger] scored_as(
                scorer,
                before[i],
                after[i],
                &values[i],
                query,
                scores[i],
            )) && rearranges(r, with_scores(values, scores))
}

/// A ranking holds as many entries as there are items, and its items are
/// exactly the registered ones, none lost and none added.
pub proof fn lemma_ranking_lists_every_item<V, St, S: Fn(St, &V, &str) -> (St, Vec<u64>)>(
    scorer: S,
    values: Seq<V>,
    before: Seq<St>,
    after: Seq<St>,
    query: &str,
    r: Seq<(V, u64)>,
)
    requires
        is_ranking(scorer, values, before, after, query, r),
    ensures
        r.len() == values.len(),
        rearranges(ranked_items(r), values),
        forall|x: V| ranked_items(r).contains(x) <==> values.contains(x),
{
    let scores = choose|scores: Seq<u64>|
        #![trigger rearranges(r, with_scores(values, scores))]
        scores.len() == values.len() && (forall|i: int|
            0 <= i < values.len() ==> #[trigger] scored_as(
                scorer,
                before[i],
                after[i],
                &values[i],
                query,
                scores[i],
            )) && rearranges(r, with_scores(values, scores));
    let inp = with_scores(values, scores);
    let p = choose|p: Seq<int>|
        permutes(p, inp.len()) && r.len() == inp.len() && forall|k: int|
            0 <= k < r.len() ==> #[trigger] r[k] == inp[p[k]];
    let items = ranked_items(r);
    assert(forall|k: int| 0 <= k < items.len() ==> #[trigger] items[k] == values[p[k]]);
    assert(permutes(p, values.len()) && items.len() == values.len());
    lemma_rearrangement_keeps_items(items, values);
}

/// Drops the references of a ranking that borrows its items.
pub open spec fn deref_ranking<V>(r: Seq<(&V, u64)>) -> Seq<(V, u64)> {
    r.map_values(|e: (&V, u64)| (*e.0, e.1))
}

/// The items of a ranking, in its order.
pub open spec fn ranked_items<V>(r: Seq<(V, u64)>) -> Seq<V> {
    r.map_values(|e: (V, u64)| e.0)
}

/// Dropping the references keeps a rearrangement a rearrangement.
proof fn lemma_deref_rearranges<V>(out: Seq<(&V, u64)>, inp: Seq<(&V, u64)>)
    requires
        rearranges(out, inp),
    ensures
        rearranges(deref_ranking(out), deref_ranking(inp)),
{
    let p = choose|p: Seq<int>|
        permutes(p, inp.len()) && out.len() == inp.len() && forall|k: int|
            0 <= k < out.len() ==> #[trigger] out[k] == inp[p[k]];
    let (o, i) = (deref_ranking(out), deref_ranking(inp));
    assert(forall|k: int| 0 <= k < o.len() ==> #[trigger] o[k] == i[p[k]]);
    assert(permutes(p, i.len()) && o.len() == i.len());
}

/// An engine that ranks items of type `V`, each with a state of type `St` that
/// the constructor `C` makes when the item is registered and that the scorer
/// `S` may advance when it scores the item.
pub struct SearchEngine<V, St, C, S> {
    values: Vec<V>,
    states: Vec<St>,
    state_of: C,
    scorer: S,
}

impl<V, St, C, S> SearchEngine<V, St, C, S> where
    C: Fn(&V) -> St,
    S: Fn(St, &V, &str) -> (St, Vec<u64>),
 {
    /// The items, in the order they were registered.
    pub closed spec fn values_seq(&self) -> Seq<V> {
        self.values@
    }

    /// The items' states, item by item.
    pub closed spec fn states_seq(&self) -> Seq<St> {
        self.states@
    }

    pub closed spec fn constructor(&self) -> C {
        self.state_of
    }

    pub closed spec fn scorer_fn(&self) -> S {
        self.scorer
    }

    /// One state per item, and closures that accept every input.
    pub open spec fn wf(&self) -> bool {
        &&& self.values_seq().len() == self.states_seq().len()
        &&& builds_any(self.constructor())
        &&& scores_any(self.scorer_fn())
    }

    /// The configuration is the same in `self` and `other`.
    pub open spec fn same_pipeline(&self, other: &Self) -> bool {
        &&& self.constructor() == other.constructor()
        &&& self.scorer_fn() == other.scorer_fn()
    }

    /// An engine with no items.
    pub fn new(state_of: C, scorer: S) -> (r: Self)
        requires
            builds_any(state_of),
            scores_any(scorer),
        ensures
            r.wf(),
            r.values_seq() == Seq::<V>::empty(),
            r.constructor() == state_of,
            r.scorer_fn() == scorer,
    {
        SearchEngine { values: Vec::new(), states: Vec::new(), state_of, scorer }
    }

    /// Registers `value` at the end, with a state made for it by the constructor.
    pub fn add_value(&mut self, value: V)
        requires
            old(self).wf(),
        ensures
            final(self).wf(),
            final(self).same_pipeline(old(self)),
            final(self).values_seq() == old(self).values_seq().push(value),
            final(self).states_seq().drop_last() == old(self).states_seq(),
            old(self).constructor().ensures((&value,), final(self).states_seq().last()),
    {
        let state = (self.state_of)(&value);
        self.states.push(state);
        self.values.push(value);
        assert(self.states@.drop_last() =~= old(self).states@);
    }

    /// Registers `values` at the end, in their order, each with a state made
    /// for it by the constructor.
    pub fn add_values(&mut self, values: Vec<V>)
        requires
            old(self).wf(),
        ensures
            final(self).wf(),
            final(self).same_pipeline(old(self)),
            final(self).values_seq() == old(self).values_seq() + values@,
            final(self).states_seq().take(old(self).states_seq().len() as int)
                == old(self).states_seq(),
            forall|k: int|
                0 <= k < values@.len() ==> old(self).constructor().ensures(
                    (&values@[k],),
                    #[trigger] final(self).states_seq()[old(self).states_seq().len() + k],
                ),
    {
        let ghost n = self.values@.len();
        let mut rest: Vec<V> = Vec::new();
        let mut incoming = values;
        while incoming.len() > 0
            invariant
                incoming@.len() + rest@.len() == values@.len(),
                incoming@ == values@.take(incoming@.len() as int),
                forall|k: int|
                    0 <= k < rest@.len() ==> #[trigger] rest@[k] == values@[values@.len() - 1 - k],
            decreases incoming@.len(),
        {
            let v = incoming.pop().unwrap();
            rest.push(v);
            assert(incoming@ =~= values@.take(incoming@.len() as int));
        }
        while rest.len() > 0
            invariant
                self.wf(),
                self.same_pipeline(old(self)),
                n == old(self).values_seq().len(),
                self.values@.len() + rest@.len() == n + values@.len(),
                self.values@ == old(self).values@ + values@.take(self.values@.len() - n),
                self.states@.take(n as int) == old(self).states@,
                forall|k: int|
                    0 <= k < rest@.len() ==> #[trigger] rest@[k] == values@[values@.len() - 1 - k],
                forall|k: int|
                    0 <= k < self.values@.len() - n ==> old(self).constructor().ensures(
                        (&values@[k],),
                        #[trigger] self.states@[n + k],
                    ),
            decreases rest@.len(),
        {
            let v = rest.pop().unwrap();
            let ghost before = self.states@;
            let ghost done = self.values@.len() - n;
            assert(v == values@[done]);
            self.add_value(v);
            proof {
                assert(self.values@ =~= old(self).values@ + values@.take(self.values@.len() - n));
                assert(self.states@.take(n as int) =~= before.take(n as int));
                assert forall|k: int| 0 <= k < self.values@.len() - n implies old(
                    self,
                ).constructor().ensures((&values@[k],), #[trigger] self.states@[n + k]) by {
                    if k < done {
                        assert(self.states@[n + k] == before[n + k]);
                    }
                }
            }
        }
        assert(values@.take(values@.len() as int) =~= values@);
    }

    /// Registers `value` and hands the engine back.
    pub fn with_value(self, value: V) -> (r: Self)
        requires
            self.wf(),
        ensures
            r.wf(),
            r.same_pipeline(&self),
            r.values_seq() == self.values_seq().push(value),
            r.states_seq().drop_last() == self.states_seq(),
            self.constructor().ensures((&value,), r.states_seq().last()),
    {
        let mut engine = self;
        engine.add_value(value);
        engine
    }

    /// Registers `values` and hands the engine back.
    pub fn with_values(self, values: Vec<V>) -> (r: Self)
        requires
            self.wf(),
        ensures
            r.wf(),
            r.same_pipeline(&self),
            r.values_seq() == self.values_seq() + values@,
            r.states_seq().take(self.states_seq().len() as int) == self.states_seq(),
            forall|k: int|
                0 <= k < values@.len() ==> self.constructor().ensures(
                    (&values@[k],),
                    #[trigger] r.states_seq()[self.states_seq().len() + k],
                ),
    {
        let mut engine = self;
        engine.add_values(values);
        engine
    }

    /// Moves to a new scoring configuration: the items stay, in their order,
    /// and every item gets a new state from the new constructor, so that each
    /// state fits the new scorer.
    pub fn with_scoring<St2, C2, S2>(self, state_of: C2, scorer: S2) -> (r: SearchEngine<
        V,
        St2,
        C2,
        S2,
    >) where C2: Fn(&V) -> St2, S2: Fn(St2, &V, &str) -> (St2, Vec<u64>)
        requires
            self.wf(),
            builds_any(state_of),
            scores_any(scorer),
        ensures
            r.wf(),
            r.values_seq() == self.values_seq(),
            r.constructor() == state_of,
            r.scorer_fn() == scorer,
            forall|k: int|
                0 <= k < self.values_seq().len() ==> state_of.ensures(
                    (&self.values_seq()[k],),
                    #[trigger] r.states_seq()[k],
                ),
    {
        let mut states: Vec<St2> = Vec::new();
        let mut i: usize = 0;
        while i < self.values.len()
            invariant
                builds_any(state_of),
                i <= self.values@.len(),
                states@.len() == i,
                forall|k: int|
                    0 <= k < i ==> state_of.ensures((&self.values@[k],), #[trigger] states@[k]),
            decreases self.values@.len() - i,
        {
            let st = state_of(&self.values[i]);
            states.push(st);
            i = i + 1;
        }
        SearchEngine { values: self.values, states, state_of, scorer }
    }

    /// The number of items.
    pub fn len(&self) -> (r: usize)
        ensures
            r == self.values_seq().len(),
    {
        self.values.len()
    }

    /// The items, in the order they were registered.
    pub fn values(&self) -> (r: &Vec<V>)
        ensures
            r@ == self.values_seq(),
    {
        &self.values
    }

    /// The items' states, in the order of the items.
    pub fn states(&self) -> (r: &Vec<St>)
        ensures
            r@ == self.states_seq(),
    {
        &self.states
    }

    /// Scores every item against `query` and returns the items, borrowed, with
    /// their combined scores in ascending order of score. Each item's state is
    /// left as the scorer returned it; the items and their order stay.
    pub fn similarities(&mut self, query: &str) -> (r: Vec<(&V, u64)>)
        requires
            old(self).wf(),
        ensures
            final(self).wf(),
            final(self).same_pipeline(old(self)),
            final(self).values_seq() == old(self).values_seq(),
            is_ranking(
                old(self).scorer_fn(),
                old(self).values_seq(),
                old(self).states_seq(),
                final(self).states_seq(),
                query,
                deref_ranking(r@),
            ),
    {
        let scores = self.score_all(query);
        let mut pairs: Vec<(&V, u64)> = Vec::new();
        let mut i: usize = 0;
        while i < self.values.len()
            invariant
                i <= self.values@.len(),
                scores@.len() == self.values@.len(),
                pairs@.len() == i,
                forall|k: int|
                    0 <= k < i ==> #[trigger] pairs@[k] == (&self.values@[k], scores@[k]),
            decreases self.values@.len() - i,
        {
            pairs.push((&self.values[i], scores[i]));
            i = i + 1;
        }
        let ghost unsorted = pairs@;
        let r = sort_by_score(pairs);
        proof {
            lemma_deref_rearranges(r@, unsorted);
            assert(deref_ranking(unsorted) =~= with_scores(self.values@, scores@));
            assert(ascending(deref_ranking(r@)));
        }
        r
    }

    /// The items borrowed in the order of `similarities`, without their scores.
    pub fn search(&mut self, query: &str) -> (r: Vec<&V>)
        requires
            old(self).wf(),
        ensures
            final(self).wf(),
            final(self).same_pipeline(old(self)),
            final(self).values_seq() == old(self).values_seq(),
            exists|ranked: Seq<(V, u64)>|
                is_ranking(
                    old(self).scorer_fn(),
                    old(self).values_seq(),
                    old(self).states_seq(),
                    final(self).states_seq(),
                    query,
                    ranked,
                ) && #[trigger] ranked_items(ranked) == r@.map_values(|x: &V| *x),
    {
        let ranked = self.similarities(query);
        let mut r: Vec<&V> = Vec::new();
        let mut k: usize = 0;
        while k < ranked.len()
            invariant
                k <= ranked@.len(),
                r@.len() == k,
                forall|m: int| 0 <= m < k ==> #[trigger] r@[m] == ranked@[m].0,
            decreases ranked@.len() - k,
        {
            r.push(ranked[k].0);
            k = k + 1;
        }
        assert(ranked_items(deref_ranking(ranked@)) =~= r@.map_values(|x: &V| *x));
        r
    }

    /// Scores every item against `query` and returns the items, moved out of
    /// the engine, with their combined scores in ascending order of score.
    pub fn into_similarities(self, query: &str) -> (r: Vec<(V, u64)>)
        requires
            self.wf(),
        ensures
            exists|after: Seq<St>|
                #[trigger] is_ranking(
                    self.scorer_fn(),
                    self.values_seq(),
                    self.states_seq(),
                    after,
                    query,
                    r@,
                ),
    {
        let ghost scorer = self.scorer_fn();
        let ghost before = self.states_seq();
        let mut engine = self;
        let scores = engine.score_all(query);
        let ghost after = engine.states@;
        let ghost values = engine.values@;
        let n: usize = engine.values.len();
        let mut rest: Vec<V> = Vec::new();
        while engine.values.len() > 0
            invariant
                values.len() == n,
                engine.values@.len() + rest@.len() == n,
                engine.values@ == values.take(engine.values@.len() as int),
                forall|k: int| 0 <= k < rest@.len() ==> #[trigger] rest@[k] == values[n - 1 - k],
            decreases engine.values@.len(),
        {
            let v = engine.values.pop().unwrap();
            rest.push(v);
            assert(engine.values@ =~= values.take(engine.values@.len() as int));
        }
        let mut pairs: Vec<(V, u64)> = Vec::new();
        let mut i: usize = 0;
        while rest.len() > 0
            invariant
                values.len() == n,
                scores@.len() == n,
                i == pairs@.len(),
                i + rest@.len() == n,
                forall|k: int| 0 <= k < rest@.len() ==> #[trigger] rest@[k] == values[n - 1 - k],
                forall|k: int| 0 <= k < i ==> #[trigger] pairs@[k] == (values[k], scores@[k]),
            decreases rest@.len(),
        {
            let v = rest.pop().unwrap();
            pairs.push((v, scores[i]));
            i = i + 1;
        }
        let ghost unsorted = pairs@;
        let r = sort_by_score(pairs);
        proof {
            assert(unsorted =~= with_scores(values, scores@));
            assert(is_ranking(scorer, values, before, after, query, r@));
        }
        r
    }

    /// The items moved out in the order of `into_similarities`, without their
    /// scores.
    pub fn into_search(self, query: &str) -> (r: Vec<V>)
        requires
            self.wf(),
        ensures
            exists|after: Seq<St>, ranked: Seq<(V, u64)>|
                #[trigger] is_ranking(
                    self.scorer_fn(),
                    self.values_seq(),
                    self.states_seq(),
                    after,
                    query,
                    ranked,
                ) && ranked_items(ranked) == r@,
    {
        let ranked = self.into_similarities(query);
        let ghost snapshot = ranked@;
        let mut rest: Vec<(V, u64)> = Vec::new();
        let mut incoming = ranked;
        let n: usize = incoming.len();
        while incoming.len() > 0
            invariant
                snapshot.len() == n,
                incoming@.len() + rest@.len() == n,
                incoming@ == snapshot.take(incoming@.len() as int),
                forall|k: int| 0 <= k < rest@.len() ==> #[trigger] rest@[k] == snapshot[n - 1 - k],
            decreases incoming@.len(),
        {
            let e = incoming.pop().unwrap();
            rest.push(e);
            assert(incoming@ =~= snapshot.take(incoming@.len() as int));
        }
        let mut r: Vec<V> = Vec::new();
        while rest.len() > 0
            invariant
                snapshot.len() == n,
                r@.len() + rest@.len() == n,
                forall|k: int| 0 <= k < rest@.len() ==> #[trigger] rest@[k] == snapshot[n - 1 - k],
                forall|k: int| 0 <= k < r@.len() ==> #[trigger] r@[k] == snapshot[k].0,
            decreases rest@.len(),
        {
            let e = rest.pop().unwrap();
            r.push(e.0);
        }
        assert(ranked_items(snapshot) =~= r@);
        r
    }

    /// Scores every item against `query`, in the order of the items, and
    /// leaves each item in the state that the scorer returned.
    fn score_all(&mut self, query: &str) -> (scores: Vec<u64>)
        requires
            old(self).wf(),
        ensures
            final(self).wf(),
            final(self).same_pipeline(old(self)),
            final(self).values_seq() == old(self).values_seq(),
            scores@.len() == old(self).values_seq().len(),
            forall|i: int|
                0 <= i < scores@.len() ==> #[trigger] scored_as(
                    old(self).scorer_fn(),
                    old(self).states_seq()[i],
                    final(self).states_seq()[i],
                    &old(self).values_seq()[i],
                    query,
                    scores@[i],
                ),
    {
        let n: usize = self.values.len();
        let ghost orig = self.states@;
        let mut rest: Vec<St> = Vec::new();
        while self.states.len() > 0
            invariant
                self.values@.len() == n,
                orig.len() == n,
                self.states@.len() + rest@.len() == n,
                self.states@ == orig.take(self.states@.len() as int),
                forall|k: int| 0 <= k < rest@.len() ==> #[trigger] rest@[k] == orig[n - 1 - k],
                self.same_pipeline(old(self)),
                self.values@ == old(self).values@,
                builds_any(self.state_of),
                scores_any(self.scorer),
            decreases self.states@.len(),
        {
            let st = self.states.pop().unwrap();
            rest.push(st);
            assert(self.states@ =~= orig.take(self.states@.len() as int));
        }
        let mut scores: Vec<u64> = Vec::new();
        let mut i: usize = 0;
        while rest.len() > 0
            invariant
                self.values@.len() == n,
                orig.len() == n,
                i == self.states@.len(),
                i == scores@.len(),
                i + rest@.len() == n,
                forall|k: int| 0 <= k < rest@.len() ==> #[trigger] rest@[k] == orig[n - 1 - k],
                self.same_pipeline(old(self)),
                self.values@ == old(self).values@,
                builds_any(self.state_of),
                scores_any(self.scorer),
                forall|k: int|
                    0 <= k < i ==> #[trigger] scored_as(
                        self.scorer,
                        orig[k],
                        self.states@[k],
                        &self.values@[k],
                        query,
                        scores@[k],
                    ),
            decreases rest@.len(),
        {
            let st = rest.pop().unwrap();
            assert(st == orig[i as int]);
            let (next, ks) = (self.scorer)(st, &self.values[i], query);
            let score = combined_score(&ks);
            assert(scored_as(self.scorer, orig[i as int], next, &self.values@[i as int], query, score));
            self.states.push(next);
            scores.push(score);
            i = i + 1;
        }
        scores
    }
}

} // verus!
