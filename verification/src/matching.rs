use vstd::prelude::*;

use crate::helpers::Match;
use crate::helpers::Pairing;
use rand::seq::SliceRandom;
use rand::SeedableRng;

verus! {

/// A node id is the position of a participant in the shuffled sequence.
pub type NodeId = usize;

/// The ways a pairing request can fail.
#[derive(Clone, Copy, PartialEq, Eq, Structural, Debug)]
pub enum PairError {
    /// Fewer than two participants were supplied.
    InsufficientParticipants,
    /// More participants were supplied than the engine is validated for.
    TooManyParticipants,
    /// The matching solver returned no edge although two or more nodes
    /// exist: every possible pair is historically constrained.
    SolverInvariantViolation,
}

impl PairError {
    /// A human-readable description of the failure.
    pub fn message(&self) -> (r: &'static str)
        ensures
            *self == PairError::InsufficientParticipants ==> r@ == "Cannot pair with < 2 elements."@,
            *self == PairError::TooManyParticipants ==> r@ == "Exceeded the 200-element limit of graph_pair()."@,
            *self == PairError::SolverInvariantViolation ==> r@ == "Matching was unexpectedly empty."@,
    {
        match self {
            PairError::InsufficientParticipants => "Cannot pair with < 2 elements.",
            PairError::TooManyParticipants => "Exceeded the 200-element limit of graph_pair().",
            PairError::SolverInvariantViolation => "Matching was unexpectedly empty.",
        }
    }
}

/// The permutation that shuffling a sequence with a given seed yields; a
/// function of the sequence and the seed alone.
pub uninterp spec fn shuffle_of(s: Seq<u64>, seed: u64) -> Seq<u64>;

/// Shuffles and returns an immutable vec.
///
/// Relies on rand_chacha::ChaCha8Rng::seed_from_u64 and
/// rand::seq::SliceRandom::shuffle: the generator is documented to be
/// reproducible from its seed, and the Fisher-Yates pass it drives permutes
/// the slice in place, so the result is a permutation of the input that is a
/// function of the input and the seed alone.
#[verifier::external_body]
fn shuffled(vec: Vec<u64>, seed: u64) -> (r: Vec<u64>)
    ensures
        r@ == shuffle_of(vec@, seed),
        r@.to_multiset() == vec@.to_multiset(),
{
    let mut vec = vec;
    let mut rng = rand_chacha::ChaCha8Rng::seed_from_u64(seed);
    vec.shuffle(&mut rng);
    vec
}

/// An unordered pair of node ids, normalized so that the smaller id comes
/// first.
#[derive(Clone, Copy, PartialEq, Eq, Structural, Debug)]
pub struct ConstraintEdge {
    pub lower: NodeId,
    pub upper: NodeId,
}

/// The normalized constraint edge between two node ids.
pub open spec fn edge_of(a: NodeId, b: NodeId) -> ConstraintEdge {
    if a <= b {
        ConstraintEdge { lower: a, upper: b }
    } else {
        ConstraintEdge { lower: b, upper: a }
    }
}

impl ConstraintEdge {
    pub fn new(pair: (NodeId, NodeId)) -> (r: Self)
        ensures
            r == edge_of(pair.0, pair.1),
    {
        let (a, b) = pair;
        if a <= b {
            ConstraintEdge { lower: a, upper: b }
        } else {
            ConstraintEdge { lower: b, upper: a }
        }
    }
}

/// Whether the constraint list holds the unordered pair of the two node ids.
pub open spec fn has_edge(cs: Seq<ConstraintEdge>, a: NodeId, b: NodeId) -> bool {
    cs.contains(edge_of(a, b))
}

/// Whether two distinct participants appear together in some historical
/// match.
pub open spec fn were_matched(hist: Seq<Seq<u64>>, u: u64, v: u64) -> bool {
    u != v && exists|k: int| 0 <= k < hist.len() && #[trigger] hist[k].contains(u) && hist[k].contains(v)
}

/// Every edge of the constraint list is justified by history: its endpoints
/// are node ids of the shuffled sequence, and when they differ, the
/// participants standing there were matched before.
pub open spec fn edge_justified(e: ConstraintEdge, shuf: Seq<u64>, hist: Seq<Seq<u64>>) -> bool {
    &&& e.lower < shuf.len()
    &&& e.upper < shuf.len()
    &&& e.lower != e.upper ==> were_matched(hist, shuf[e.lower as int], shuf[e.upper as int])
}

/// Every pair of current participants of one historical match is covered by
/// the constraint list.
pub open spec fn match_covered(cs: Seq<ConstraintEdge>, shuf: Seq<u64>, m: Seq<u64>) -> bool {
    forall|a: NodeId, b: NodeId|
        a < shuf.len() && b < shuf.len() && a != b && m.contains(#[trigger] shuf[a as int])
            && m.contains(#[trigger] shuf[b as int]) ==> has_edge(cs, a, b)
}

/// Recording one more edge keeps every edge already present.
proof fn lemma_has_edge_push(cs: Seq<ConstraintEdge>, e: ConstraintEdge)
    ensures
        forall|a: NodeId, b: NodeId| has_edge(cs, a, b) ==> #[trigger] has_edge(cs.push(e), a, b),
{
    assert forall|a: NodeId, b: NodeId| has_edge(cs, a, b) implies #[trigger] has_edge(
        cs.push(e),
        a,
        b,
    ) by {
        let w = choose|w: int| 0 <= w < cs.len() && cs[w] == edge_of(a, b);
        assert(cs.push(e)[w] == edge_of(a, b));
    }
}

/// Finds the position of a participant in the shuffled sequence, if any.
fn node_index_of(shuf: &Vec<u64>, x: u64) -> (r: Option<usize>)
    ensures
        match r {
            Some(i) => i < shuf@.len() && shuf@[i as int] == x,
            None => !shuf@.contains(x),
        },
{
    let n = shuf.len();
    let mut i: usize = 0;
    while i < n
        invariant
            n == shuf@.len(),
            i <= n,
            forall|j: int| 0 <= j < i ==> shuf@[j] != x,
        decreases n - i,
    {
        if shuf[i] == x {
            return Some(i);
        }
        i += 1;
    }
    None
}

/// Whether the constraint list holds the given edge.
fn contains_edge(cs: &Vec<ConstraintEdge>, e: ConstraintEdge) -> (r: bool)
    ensures
        r == cs@.contains(e),
{
    let n = cs.len();
    let mut i: usize = 0;
    while i < n
        invariant
            n == cs@.len(),
            i <= n,
            forall|j: int| 0 <= j < i ==> cs@[j] != e,
        decreases n - i,
    {
        if cs[i] == e {
            assert(cs@.contains(e));
            return true;
        }
        i += 1;
    }
    assert(forall|j: int| 0 <= j < cs@.len() ==> cs@[j] != e);
    false
}

/// Derives the constraint list from history: one normalized edge for every
/// unordered pair of members of a historical match that both stand in the
/// current shuffled sequence.
fn build_constraints(shuf: &Vec<u64>, prev: &Vec<Match>) -> (cs: Vec<ConstraintEdge>)
    requires
        shuf@.no_duplicates(),
    ensures
        forall|e: ConstraintEdge| cs@.contains(e) ==> edge_justified(e, shuf@, prev.deep_view()),
        forall|a: NodeId, b: NodeId|
            a < shuf@.len() && b < shuf@.len() && a != b ==> (has_edge(cs@, a, b)
                <==> were_matched(prev.deep_view(), shuf@[a as int], shuf@[b as int])),
{
    let ghost hist = prev.deep_view();
    let mut cs: Vec<ConstraintEdge> = Vec::new();
    let mut k: usize = 0;
    let nprev = prev.len();
    while k < nprev
        invariant
            shuf@.no_duplicates(),
            nprev == prev@.len(),
            hist == prev.deep_view(),
            hist.len() == prev@.len(),
            forall|kk: int| 0 <= kk < prev@.len() ==> hist[kk] == prev@[kk]@,
            k <= nprev,
            forall|e: ConstraintEdge| cs@.contains(e) ==> edge_justified(e, shuf@, hist),
            forall|kk: int| 0 <= kk < k ==> match_covered(cs@, shuf@, hist[kk]),
        decreases nprev - k,
    {
        let m = &prev[k];
        // collect the node ids of the members of this historical match that
        // stand in the current participant sequence
        let mut ids: Vec<usize> = Vec::new();
        let mlen = m.len();
        let mut t: usize = 0;
        while t < mlen
            invariant
                shuf@.no_duplicates(),
                mlen == m@.len(),
                t <= mlen,
                forall|p: int|
                    0 <= p < ids@.len() ==> #[trigger] ids@[p] < shuf@.len()
                        && m@.contains(shuf@[ids@[p] as int]),
                forall|a: NodeId|
                    a < shuf@.len() && m@.take(t as int).contains(#[trigger] shuf@[a as int])
                        ==> ids@.contains(a),
            decreases mlen - t,
        {
            let u = m[t];
            proof {
                assert(m@.take(t as int + 1) =~= m@.take(t as int).push(m@[t as int]));
            }
            match node_index_of(shuf, u) {
                Some(i) => {
                    let ghost ids_old = ids@;
                    ids.push(i);
                    proof {
                        assert(ids@ =~= ids_old.push(i));
                        assert(m@[t as int] == u);
                        assert(m@.contains(u));
                        assert forall|a: NodeId|
                            a < shuf@.len() && m@.take(t as int + 1).contains(
                                #[trigger] shuf@[a as int],
                            ) implies ids@.contains(a) by {
                            if shuf@[a as int] == u {
                                // positions of one value coincide: no duplicates
                                assert(shuf@[i as int] == u);
                                if a != i {
                                    assert(shuf@[a as int] != shuf@[i as int]);
                                }
                                assert(ids@[ids@.len() - 1] == i);
                            } else {
                                assert(m@.take(t as int).contains(shuf@[a as int]));
                                assert(ids_old.contains(a));
                                let w = choose|w: int| 0 <= w < ids_old.len() && ids_old[w] == a;
                                assert(ids@[w] == a);
                            }
                        }
                        assert forall|pp: int| 0 <= pp < ids@.len() implies #[trigger] ids@[pp]
                            < shuf@.len() && m@.contains(shuf@[ids@[pp] as int]) by {
                            if pp < ids_old.len() {
                                assert(ids_old[pp] == ids@[pp]);
                            } else {
                                assert(ids@[pp] == i);
                            }
                        }
                    }
                }
                None => {
                    proof {
                        assert forall|a: NodeId|
                            a < shuf@.len() && m@.take(t as int + 1).contains(
                                #[trigger] shuf@[a as int],
                            ) implies ids@.contains(a) by {
                            assert(shuf@[a as int] != u);
                            assert(m@.take(t as int).contains(shuf@[a as int]));
                        }
                    }
                }
            }
            t += 1;
        }
        assert(m@.take(mlen as int) =~= m@);
        // record one normalized edge per unordered pair of collected ids
        let idlen = ids.len();
        let mut p: usize = 0;
        while p < idlen
            invariant
                shuf@.no_duplicates(),
                idlen == ids@.len(),
                p <= idlen,
                hist == prev.deep_view(),
                hist.len() == prev@.len(),
                forall|kk: int| 0 <= kk < prev@.len() ==> hist[kk] == prev@[kk]@,
                k < prev@.len(),
                m@ == hist[k as int],
                forall|pp: int|
                    0 <= pp < ids@.len() ==> #[trigger] ids@[pp] < shuf@.len()
                        && m@.contains(shuf@[ids@[pp] as int]),
                forall|a: NodeId|
                    a < shuf@.len() && m@.contains(#[trigger] shuf@[a as int]) ==> ids@.contains(a),
                forall|e: ConstraintEdge| cs@.contains(e) ==> edge_justified(e, shuf@, hist),
                forall|kk: int| 0 <= kk < k ==> match_covered(cs@, shuf@, hist[kk]),
                forall|pp: int, qq: int|
                    0 <= pp < p && pp < qq < ids@.len() ==> has_edge(
                        cs@,
                        ids@[pp],
                        ids@[qq],
                    ),
            decreases idlen - p,
        {
            let mut q: usize = p + 1;
            while q < idlen
                invariant
                    shuf@.no_duplicates(),
                    idlen == ids@.len(),
                    p < idlen,
                    p < q,
                    q <= idlen,
                    hist == prev.deep_view(),
                    hist.len() == prev@.len(),
                    forall|kk: int| 0 <= kk < prev@.len() ==> hist[kk] == prev@[kk]@,
                    k < prev@.len(),
                    m@ == hist[k as int],
                    forall|pp: int|
                        0 <= pp < ids@.len() ==> #[trigger] ids@[pp] < shuf@.len()
                            && m@.contains(shuf@[ids@[pp] as int]),
                    forall|e: ConstraintEdge| cs@.contains(e) ==> edge_justified(e, shuf@, hist),
                    forall|kk: int| 0 <= kk < k ==> match_covered(cs@, shuf@, hist[kk]),
                    forall|pp: int, qq: int|
                        0 <= pp < p && pp < qq < ids@.len() ==> has_edge(cs@, ids@[pp], ids@[qq]),
                    forall|qq: int| p < qq < q ==> has_edge(cs@, ids@[p as int], ids@[qq]),
                decreases idlen - q,
            {
                let ghost cs_old = cs@;
                let e = ConstraintEdge::new((ids[p], ids[q]));
                cs.push(e);
                proof {
                    assert(cs@ =~= cs_old.push(e));
                    lemma_has_edge_push(cs_old, e);
                    assert forall|e0: ConstraintEdge| cs@.contains(e0) implies edge_justified(
                        e0,
                        shuf@,
                        hist,
                    ) by {
                        let w = choose|w: int| 0 <= w < cs@.len() && cs@[w] == e0;
                        if w < cs_old.len() {
                            assert(cs_old.contains(e0));
                        } else {
                            assert(e0 == e);
                            let a = ids@[p as int];
                            let b = ids@[q as int];
                            if a != b {
                                assert(shuf@[a as int] != shuf@[b as int]);
                                assert(m@.contains(shuf@[a as int]) && m@.contains(shuf@[b as int]));
                                assert(were_matched(hist, shuf@[a as int], shuf@[b as int]));
                                if a <= b {
                                    assert(e.lower == a && e.upper == b);
                                } else {
                                    assert(e.lower == b && e.upper == a);
                                }
                            }
                        }
                    }
                    assert forall|kk: int| 0 <= kk < k implies match_covered(
                        cs@,
                        shuf@,
                        hist[kk],
                    ) by {
                        assert(match_covered(cs_old, shuf@, hist[kk]));
                        assert forall|a: NodeId, b: NodeId|
                            a < shuf@.len() && b < shuf@.len() && a != b && hist[kk].contains(
                                #[trigger] shuf@[a as int],
                            ) && hist[kk].contains(#[trigger] shuf@[b as int]) implies has_edge(
                            cs@,
                            a,
                            b,
                        ) by {
                            assert(has_edge(cs_old, a, b));
                            assert(has_edge(cs_old.push(e), a, b));
                        }
                    }
                    assert(has_edge(cs@, ids@[p as int], ids@[q as int])) by {
                        assert(cs@.last() == edge_of(ids@[p as int], ids@[q as int]));
                        assert(cs@.contains(cs@.last()));
                    }
                    assert forall|pp: int, qq: int|
                        0 <= pp < p && pp < qq < ids@.len() implies has_edge(
                        cs@,
                        ids@[pp],
                        ids@[qq],
                    ) by {
                        assert(has_edge(cs_old, ids@[pp], ids@[qq]));
                        assert(has_edge(cs_old.push(e), ids@[pp], ids@[qq]));
                    }
                    assert forall|qq: int| p < qq < q + 1 implies has_edge(
                        cs@,
                        ids@[p as int],
                        ids@[qq],
                    ) by {
                        if qq < q {
                            assert(has_edge(cs_old, ids@[p as int], ids@[qq]));
                            assert(has_edge(cs_old.push(e), ids@[p as int], ids@[qq]));
                        }
                    }
                }
                q += 1;
            }
            p += 1;
        }
        proof {
            // this historical match is now fully covered
            assert forall|a: NodeId, b: NodeId|
                a < shuf@.len() && b < shuf@.len() && a != b && m@.contains(
                    #[trigger] shuf@[a as int],
                ) && m@.contains(#[trigger] shuf@[b as int]) implies has_edge(cs@, a, b) by {
                assert(ids@.contains(a));
                assert(ids@.contains(b));
                let pa = choose|pa: int| 0 <= pa < ids@.len() && ids@[pa] == a;
                let pb = choose|pb: int| 0 <= pb < ids@.len() && ids@[pb] == b;
                assert(pa != pb);
                if pa < pb {
                    assert(has_edge(cs@, ids@[pa], ids@[pb]));
                } else {
                    assert(has_edge(cs@, ids@[pb], ids@[pa]));
                    assert(edge_of(a, b) == edge_of(b, a));
                }
            }
            assert(match_covered(cs@, shuf@, hist[k as int]));
        }
        k += 1;
    }
    proof {
        // completeness over the whole history
        assert forall|a: NodeId, b: NodeId|
            a < shuf@.len() && b < shuf@.len() && a != b && were_matched(
                hist,
                shuf@[a as int],
                shuf@[b as int],
            ) implies has_edge(cs@, a, b) by {
            let kk = choose|kk: int|
                0 <= kk < hist.len() && #[trigger] hist[kk].contains(shuf@[a as int])
                    && hist[kk].contains(shuf@[b as int]);
            assert(match_covered(cs@, shuf@, hist[kk]));
        }
        // soundness: every recorded edge comes from history
        assert forall|a: NodeId, b: NodeId|
            a < shuf@.len() && b < shuf@.len() && a != b && has_edge(cs@, a, b) implies were_matched(
            hist,
            shuf@[a as int],
            shuf@[b as int],
        ) by {
            let e = edge_of(a, b);
            assert(cs@.contains(e));
            assert(edge_justified(e, shuf@, hist));
            assert(e.lower != e.upper);
        }
    }
    cs
}

/// The part of one row of candidate edges that pairs node i with the nodes
/// strictly between i and j, keeping the pairs the predicate accepts.
pub open spec fn cand_row_upto(keep: spec_fn(int, int) -> bool, i: int, j: int) -> Seq<
    (usize, usize),
>
    decreases j - i,
{
    if j <= i + 1 {
        Seq::empty()
    } else {
        cand_row_upto(keep, i, j - 1) + if keep(i, j - 1) {
            seq![(i as usize, (j - 1) as usize)]
        } else {
            Seq::empty()
        }
    }
}

/// The candidate edges of all rows below i, each row paired with the nodes
/// above it, up to n.
pub open spec fn cand_rows_upto(keep: spec_fn(int, int) -> bool, n: int, i: int) -> Seq<
    (usize, usize),
>
    decreases i,
{
    if i <= 0 {
        Seq::empty()
    } else {
        cand_rows_upto(keep, n, i - 1) + cand_row_upto(keep, i - 1, n)
    }
}

/// All ordered candidate pairs (i, j) with i < j < n that the predicate
/// accepts, listed row by row.
pub open spec fn candidates_of(keep: spec_fn(int, int) -> bool, n: int) -> Seq<(usize, usize)> {
    cand_rows_upto(keep, n, n)
}

/// The pairs a constraint list leaves unconstrained.
pub open spec fn unconstrained_of(cs: Seq<ConstraintEdge>) -> spec_fn(int, int) -> bool {
    |i: int, j: int| !has_edge(cs, i as usize, j as usize)
}

/// The pairs of shuffled positions whose participants have not been matched
/// before.
pub open spec fn novel_at(shuf: Seq<u64>, hist: Seq<Seq<u64>>) -> spec_fn(int, int) -> bool {
    |i: int, j: int| !were_matched(hist, shuf[i], shuf[j])
}

/// What a row of candidate edges holds.
pub proof fn lemma_cand_row_membership(keep: spec_fn(int, int) -> bool, i: int, j: int)
    requires
        0 <= i,
        j <= usize::MAX as int,
    ensures
        forall|e: (usize, usize)| #[trigger]
            cand_row_upto(keep, i, j).contains(e) <==> (e.0 == i && i < e.1 < j && keep(
                i,
                e.1 as int,
            )),
    decreases j - i,
{
    if j <= i + 1 {
    } else {
        lemma_cand_row_membership(keep, i, j - 1);
        let prev = cand_row_upto(keep, i, j - 1);
        let cur = cand_row_upto(keep, i, j);
        if keep(i, j - 1) {
            let last = (i as usize, (j - 1) as usize);
            assert(cur == prev + seq![last]);
            assert forall|e: (usize, usize)| #[trigger] cur.contains(e) implies (e.0 == i && i < e.1
                < j && keep(i, e.1 as int)) by {
                let w = choose|w: int| 0 <= w < cur.len() && cur[w] == e;
                if w < prev.len() {
                    assert(prev[w] == e);
                    assert(prev.contains(e));
                } else {
                    assert(e == last);
                }
            }
            assert forall|e: (usize, usize)| (e.0 == i && i < e.1 < j && keep(i, e.1 as int))
                implies #[trigger] cur.contains(e) by {
                if e.1 < j - 1 {
                    assert(prev.contains(e));
                    let w = choose|w: int| 0 <= w < prev.len() && prev[w] == e;
                    assert(cur[w] == e);
                } else {
                    assert(e == last);
                    assert(cur[prev.len() as int] == e);
                }
            }
        } else {
            assert(cur =~= prev);
            assert forall|e: (usize, usize)| (e.0 == i && i < e.1 < j && keep(i, e.1 as int))
                implies #[trigger] cur.contains(e) by {
                assert(e.1 < j - 1);
                assert(prev.contains(e));
            }
        }
    }
}

/// What the whole candidate list holds.
pub proof fn lemma_candidates_membership(keep: spec_fn(int, int) -> bool, n: int, i: int)
    requires
        0 <= i,
        n <= usize::MAX as int,
    ensures
        forall|e: (usize, usize)| #[trigger]
            cand_rows_upto(keep, n, i).contains(e) <==> (e.0 < i && e.0 < e.1 < n && keep(
                e.0 as int,
                e.1 as int,
            )),
    decreases i,
{
    if i <= 0 {
    } else {
        lemma_candidates_membership(keep, n, i - 1);
        lemma_cand_row_membership(keep, i - 1, n);
        let prev = cand_rows_upto(keep, n, i - 1);
        let row = cand_row_upto(keep, i - 1, n);
        let cur = cand_rows_upto(keep, n, i);
        assert forall|e: (usize, usize)| #[trigger] cur.contains(e) implies (e.0 < i && e.0 < e.1
            < n && keep(e.0 as int, e.1 as int)) by {
            let w = choose|w: int| 0 <= w < cur.len() && cur[w] == e;
            if w < prev.len() {
                assert(prev[w] == e);
                assert(prev.contains(e));
            } else {
                assert(row[w - prev.len()] == e);
                assert(row.contains(e));
            }
        }
        assert forall|e: (usize, usize)| (e.0 < i && e.0 < e.1 < n && keep(e.0 as int, e.1 as int))
            implies #[trigger] cur.contains(e) by {
            if e.0 < i - 1 {
                assert(prev.contains(e));
                let w = choose|w: int| 0 <= w < prev.len() && prev[w] == e;
                assert(cur[w] == e);
            } else {
                assert(e.0 == i - 1);
                assert(row.contains(e));
                let w = choose|w: int| 0 <= w < row.len() && row[w] == e;
                assert(cur[prev.len() + w] == e);
            }
        }
    }
}

/// Two predicates that agree on the ordered pairs below n build the same
/// candidate row.
proof fn lemma_cand_row_congruence(
    k1: spec_fn(int, int) -> bool,
    k2: spec_fn(int, int) -> bool,
    i: int,
    j: int,
    n: int,
)
    requires
        0 <= i,
        j <= n,
        forall|a: int, b: int| 0 <= a < b < n ==> #[trigger] k1(a, b) == #[trigger] k2(a, b),
    ensures
        cand_row_upto(k1, i, j) == cand_row_upto(k2, i, j),
    decreases j - i,
{
    if j <= i + 1 {
    } else {
        lemma_cand_row_congruence(k1, k2, i, j - 1, n);
    }
}

/// Two predicates that agree on the ordered pairs below n build the same
/// candidate list.
proof fn lemma_candidates_congruence(
    k1: spec_fn(int, int) -> bool,
    k2: spec_fn(int, int) -> bool,
    n: int,
    i: int,
)
    requires
        0 <= i,
        i <= n,
        forall|a: int, b: int| 0 <= a < b < n ==> #[trigger] k1(a, b) == #[trigger] k2(a, b),
    ensures
        cand_rows_upto(k1, n, i) == cand_rows_upto(k2, n, i),
    decreases i,
{
    if i <= 0 {
    } else {
        lemma_candidates_congruence(k1, k2, n, i - 1);
        lemma_cand_row_congruence(k1, k2, i - 1, n, n);
    }
}

/// Builds the candidate edge list: every ordered pair of distinct node ids
/// that the constraint list does not forbid.
fn build_candidates(n: usize, cs: &Vec<ConstraintEdge>) -> (edges: Vec<(usize, usize)>)
    ensures
        edges@ == candidates_of(unconstrained_of(cs@), n as int),
        forall|w: int| 0 <= w < edges@.len() ==> edges@[w].0 < edges@[w].1 && edges@[w].1 < n,
{
    let ghost keep = unconstrained_of(cs@);
    let mut edges: Vec<(usize, usize)> = Vec::new();
    let mut i: usize = 0;
    while i < n
        invariant
            i <= n,
            keep == unconstrained_of(cs@),
            edges@ == cand_rows_upto(keep, n as int, i as int),
        decreases n - i,
    {
        let mut j: usize = i + 1;
        while j < n
            invariant
                i < n,
                i < j,
                j <= n,
                keep == unconstrained_of(cs@),
                edges@ == cand_rows_upto(keep, n as int, i as int) + cand_row_upto(
                    keep,
                    i as int,
                    j as int,
                ),
            decreases n - j,
        {
            let ghost edges_old = edges@;
            let e = ConstraintEdge::new((i, j));
            let forbidden = contains_edge(cs, e);
            if !forbidden {
                edges.push((i, j));
            }
            proof {
                assert(keep(i as int, j as int) == !has_edge(cs@, i, j));
                if !has_edge(cs@, i, j) {
                    assert(edges@ =~= edges_old + seq![(i, j)]);
                } else {
                    assert(edges@ =~= edges_old + Seq::empty());
                }
                assert(cand_row_upto(keep, i as int, j as int + 1) == cand_row_upto(
                    keep,
                    i as int,
                    j as int,
                ) + if keep(i as int, j as int) {
                    seq![(i, j)]
                } else {
                    Seq::empty()
                });
                assert(edges@ =~= cand_rows_upto(keep, n as int, i as int) + cand_row_upto(
                    keep,
                    i as int,
                    j as int + 1,
                ));
            }
            j += 1;
        }
        proof {
            assert(cand_rows_upto(keep, n as int, i as int + 1) == cand_rows_upto(
                keep,
                n as int,
                i as int,
            ) + cand_row_upto(keep, i as int, n as int));
        }
        i += 1;
    }
    proof {
        lemma_candidates_membership(keep, n as int, n as int);
        assert forall|w: int| 0 <= w < edges@.len() implies edges@[w].0 < edges@[w].1 && edges@[w].1
            < n by {
            assert(edges@.contains(edges@[w]));
        }
    }
    edges
}

/// Whether m is a matching drawn from the given edge list: every entry is a
/// listed edge and no two entries share a node.
pub open spec fn is_sub_matching(m: Seq<(usize, usize)>, edges: Seq<(usize, usize)>) -> bool {
    &&& forall|k: int| 0 <= k < m.len() ==> edges.contains(#[trigger] m[k])
    &&& forall|k1: int, k2: int|
        #![trigger m[k1], m[k2]]
        0 <= k1 < m.len() && 0 <= k2 < m.len() && k1 != k2 ==> m[k1].0 != m[k2].0 && m[k1].0
            != m[k2].1 && m[k1].1 != m[k2].0 && m[k1].1 != m[k2].1
}

/// The matching that the solver yields for a node count and an edge list; a
/// function of its arguments alone.
pub uninterp spec fn max_matching_of(n: usize, edges: Seq<(usize, usize)>) -> Seq<(usize, usize)>;

/// Computes a maximum-cardinality matching over the candidate edges.
///
/// Relies on petgraph::algo::maximum_matching (Gabow's algorithm, treating
/// the graph as undirected): the result is a set of pairwise disjoint graph
/// edges of greatest possible cardinality, each reported once with the
/// smaller node id first; the algorithm is deterministic, so the result is a
/// function of the node count and the edge list alone.
#[verifier::external_body]
fn max_matching(n: usize, edges: &Vec<(usize, usize)>) -> (r: Vec<(usize, usize)>)
    requires
        n <= 200,
        forall|k: int| 0 <= k < edges@.len() ==> edges@[k].0 < edges@[k].1 && edges@[k].1 < n,
    ensures
        r@ == max_matching_of(n, edges@),
        is_sub_matching(r@, edges@),
        forall|m: Seq<(usize, usize)>| is_sub_matching(m, edges@) ==> m.len() <= r@.len(),
{
    let mut graph = petgraph::graph::UnGraph::<(), ()>::new_undirected();
    for _ in 0..n {
        graph.add_node(());
    }
    for e in edges.iter() {
        graph.add_edge(
            petgraph::graph::NodeIndex::new(e.0),
            petgraph::graph::NodeIndex::new(e.1),
            (),
        );
    }
    petgraph::algo::maximum_matching(&graph).edges().map(|(a, b)| (a.index(), b.index())).collect()
}

/// Whether a node id is an endpoint of some matched pair.
pub open spec fn is_endpoint(m: Seq<(usize, usize)>, x: usize) -> bool {
    exists|k: int| 0 <= k < m.len() && ((#[trigger] m[k]).0 == x || m[k].1 == x)
}

/// No two pairs share a node.
pub open spec fn pairs_disjoint(m: Seq<(usize, usize)>) -> bool {
    forall|k1: int, k2: int|
        #![trigger m[k1], m[k2]]
        0 <= k1 < m.len() && 0 <= k2 < m.len() && k1 != k2 ==> m[k1].0 != m[k2].0 && m[k1].0
            != m[k2].1 && m[k1].1 != m[k2].0 && m[k1].1 != m[k2].1
}

/// Each pair joins two distinct nodes.
pub open spec fn pairs_proper(m: Seq<(usize, usize)>) -> bool {
    forall|k: int| 0 <= k < m.len() ==> (#[trigger] m[k]).0 != m[k].1
}

/// Every endpoint lies below n.
pub open spec fn pairs_below(m: Seq<(usize, usize)>, n: int) -> bool {
    forall|k: int| 0 <= k < m.len() ==> (#[trigger] m[k]).0 < n && m[k].1 < n
}

/// The node ids below k that no matched pair touches, in ascending order.
pub open spec fn unmatched_upto(m: Seq<(usize, usize)>, k: int) -> Seq<usize>
    decreases k,
{
    if k <= 0 {
        Seq::empty()
    } else {
        unmatched_upto(m, k - 1) + if !is_endpoint(m, (k - 1) as usize) {
            seq![(k - 1) as usize]
        } else {
            Seq::empty()
        }
    }
}

/// What the unmatched-node list holds: exactly the non-endpoints below k,
/// each once.
pub proof fn lemma_unmatched_props(m: Seq<(usize, usize)>, k: int)
    requires
        k <= usize::MAX as int,
    ensures
        forall|x: usize| #[trigger]
            unmatched_upto(m, k).contains(x) <==> (x < k && !is_endpoint(m, x)),
        unmatched_upto(m, k).no_duplicates(),
    decreases k,
{
    if k <= 0 {
    } else {
        lemma_unmatched_props(m, k - 1);
        let prev = unmatched_upto(m, k - 1);
        let cur = unmatched_upto(m, k);
        let v = (k - 1) as usize;
        if !is_endpoint(m, v) {
            assert(cur == prev + seq![v]);
            assert forall|x: usize| #[trigger] cur.contains(x) implies (x < k && !is_endpoint(
                m,
                x,
            )) by {
                let w = choose|w: int| 0 <= w < cur.len() && cur[w] == x;
                if w < prev.len() {
                    assert(prev[w] == x);
                    assert(prev.contains(x));
                } else {
                    assert(x == v);
                }
            }
            assert forall|x: usize| (x < k && !is_endpoint(m, x)) implies #[trigger] cur.contains(
                x,
            ) by {
                if x < k - 1 {
                    assert(prev.contains(x));
                    let w = choose|w: int| 0 <= w < prev.len() && prev[w] == x;
                    assert(cur[w] == x);
                } else {
                    assert(x == v);
                    assert(cur[prev.len() as int] == x);
                }
            }
            assert forall|p: int, q: int| 0 <= p < q < cur.len() implies cur[p] != cur[q] by {
                if q < prev.len() {
                    assert(prev[p] == cur[p] && prev[q] == cur[q]);
                } else {
                    assert(cur[q] == v);
                    assert(prev[p] == cur[p]);
                    assert(prev.contains(prev[p]));
                }
            }
        } else {
            assert(cur =~= prev);
            assert forall|x: usize| (x < k && !is_endpoint(m, x)) implies #[trigger] cur.contains(
                x,
            ) by {
                assert(x != v);
                assert(prev.contains(x));
            }
        }
    }
}

/// The endpoints of the matched pairs, two per pair, in pair order.
pub open spec fn endpoints_of(m: Seq<(usize, usize)>) -> Seq<usize>
    decreases m.len(),
{
    if m.len() == 0 {
        Seq::empty()
    } else {
        endpoints_of(m.drop_last()) + seq![m.last().0, m.last().1]
    }
}

/// What the endpoint list holds: every endpoint exactly once.
pub proof fn lemma_endpoints_props(m: Seq<(usize, usize)>)
    requires
        pairs_disjoint(m),
        pairs_proper(m),
    ensures
        endpoints_of(m).len() == 2 * m.len(),
        forall|x: usize| #[trigger] endpoints_of(m).contains(x) <==> is_endpoint(m, x),
        endpoints_of(m).no_duplicates(),
    decreases m.len(),
{
    if m.len() == 0 {
    } else {
        let pre = m.drop_last();
        assert(pairs_disjoint(pre) && pairs_proper(pre)) by {
            assert(forall|k: int| 0 <= k < pre.len() ==> pre[k] == m[k]);
        }
        lemma_endpoints_props(pre);
        let prev = endpoints_of(pre);
        let cur = endpoints_of(m);
        let a = m.last().0;
        let b = m.last().1;
        assert(cur == prev + seq![a, b]);
        assert forall|x: usize| #[trigger] cur.contains(x) implies is_endpoint(m, x) by {
            let w = choose|w: int| 0 <= w < cur.len() && cur[w] == x;
            if w < prev.len() {
                assert(prev[w] == x);
                assert(prev.contains(x));
                assert(is_endpoint(pre, x));
                let kk = choose|kk: int| 0 <= kk < pre.len() && ((#[trigger] pre[kk]).0 == x || pre[kk].1 == x);
                assert(m[kk] == pre[kk]);
            } else {
                assert(m[m.len() - 1] == m.last());
            }
        }
        assert forall|x: usize| is_endpoint(m, x) implies #[trigger] cur.contains(x) by {
            let kk = choose|kk: int| 0 <= kk < m.len() && ((#[trigger] m[kk]).0 == x || m[kk].1 == x);
            if kk < m.len() - 1 {
                assert(pre[kk] == m[kk]);
                assert(is_endpoint(pre, x));
                assert(prev.contains(x));
                let w = choose|w: int| 0 <= w < prev.len() && prev[w] == x;
                assert(cur[w] == x);
            } else {
                if x == a {
                    assert(cur[prev.len() as int] == x);
                } else {
                    assert(cur[prev.len() as int + 1] == x);
                }
            }
        }
        assert forall|p: int, q: int| 0 <= p < q < cur.len() implies cur[p] != cur[q] by {
            if q < prev.len() {
                assert(prev[p] == cur[p] && prev[q] == cur[q]);
            } else {
                // the last pair's endpoints are fresh: they belong to no
                // earlier pair, and differ from each other
                if p < prev.len() {
                    assert(prev.contains(prev[p]));
                    assert(is_endpoint(pre, prev[p]));
                    let kk = choose|kk: int|
                        0 <= kk < pre.len() && ((#[trigger] pre[kk]).0 == prev[p] || pre[kk].1 == prev[p]);
                    assert(m[kk] == pre[kk]);
                    assert(m[kk].0 != m[m.len() - 1].0 && m[kk].0 != m[m.len() - 1].1
                        && m[kk].1 != m[m.len() - 1].0 && m[kk].1 != m[m.len() - 1].1);
                    assert(m[m.len() - 1] == m.last());
                } else {
                    assert(cur[p] == a && cur[q] == b);
                    assert(m[m.len() - 1] == m.last());
                }
            }
        }
    }
}

/// The node ids 0 through n-1 in order.
pub open spec fn range_seq(n: int) -> Seq<usize> {
    Seq::new(if n >= 0 { n as nat } else { 0 }, |w: int| w as usize)
}

/// What the range holds: every id below n exactly once.
pub proof fn lemma_range_props(n: int)
    requires
        n <= usize::MAX as int,
    ensures
        range_seq(n).len() == (if n >= 0 { n } else { 0 }),
        forall|x: usize| #[trigger] range_seq(n).contains(x) <==> x < n,
        range_seq(n).no_duplicates(),
{
    let rg = range_seq(n);
    assert forall|x: usize| x < n implies #[trigger] rg.contains(x) by {
        assert(rg[x as int] == x);
    }
}

/// The matched endpoints and the unmatched nodes together cover the node
/// ids exactly once: they partition 0..n.
pub proof fn lemma_id_partition(m: Seq<(usize, usize)>, n: int)
    requires
        0 <= n <= usize::MAX as int,
        pairs_disjoint(m),
        pairs_proper(m),
        pairs_below(m, n),
    ensures
        unmatched_upto(m, n).to_multiset().add(endpoints_of(m).to_multiset())
            == range_seq(n).to_multiset(),
        unmatched_upto(m, n).len() + 2 * m.len() == n,
{
    broadcast use vstd::multiset::group_multiset_axioms;
    broadcast use vstd::seq_lib::group_to_multiset_ensures;

    lemma_unmatched_props(m, n);
    lemma_endpoints_props(m);
    lemma_range_props(n);
    let um = unmatched_upto(m, n);
    let ep = endpoints_of(m);
    let rg = range_seq(n);
    um.lemma_multiset_has_no_duplicates();
    ep.lemma_multiset_has_no_duplicates();
    rg.lemma_multiset_has_no_duplicates();
    assert forall|x: usize|
        um.to_multiset().count(x) + ep.to_multiset().count(x) == rg.to_multiset().count(
            x,
        ) by {
        if x < n {
            assert(rg.contains(x));
            assert(rg.to_multiset().count(x) == 1);
            if is_endpoint(m, x) {
                assert(ep.contains(x));
                assert(ep.to_multiset().count(x) == 1);
                assert(!um.contains(x));
                assert(um.to_multiset().count(x) == 0);
            } else {
                assert(um.contains(x));
                assert(um.to_multiset().count(x) == 1);
                assert(!ep.contains(x));
                assert(ep.to_multiset().count(x) == 0);
            }
        } else {
            assert(!rg.contains(x));
            assert(!um.contains(x));
            assert(!ep.contains(x)) by {
                if ep.contains(x) {
                    let kk = choose|kk: int|
                        0 <= kk < m.len() && ((#[trigger] m[kk]).0 == x || m[kk].1 == x);
                }
            }
            assert(rg.to_multiset().count(x) == 0);
            assert(um.to_multiset().count(x) == 0);
            assert(ep.to_multiset().count(x) == 0);
        }
    }
    assert(um.to_multiset().add(ep.to_multiset()) =~= rg.to_multiset());
    assert(um.to_multiset().add(ep.to_multiset()).len() == rg.to_multiset().len());
}

/// Pushing onto a vector of id groups pushes its deep view.
proof fn lemma_deep_push_groups(a: Seq<Vec<usize>>, b: Seq<Vec<usize>>, x: Vec<usize>)
    requires
        b == a.push(x),
    ensures
        b.map_values(|g: Vec<usize>| g.deep_view()) == a.map_values(
            |g: Vec<usize>| g.deep_view(),
        ).push(x.deep_view()),
{
    assert(b.map_values(|g: Vec<usize>| g.deep_view()) =~= a.map_values(
        |g: Vec<usize>| g.deep_view(),
    ).push(x.deep_view()));
}

/// The deep view of a vector of id groups, element by element.
proof fn lemma_deep_view_groups(v: Vec<Vec<usize>>)
    ensures
        v.deep_view().len() == v@.len(),
        forall|w: int| 0 <= w < v@.len() ==> v.deep_view()[w] == v@[w]@,
{
    assert forall|w: int| 0 <= w < v@.len() implies v.deep_view()[w] == v@[w]@ by {
        assert(v@[w].deep_view() =~= v@[w]@);
    }
}

/// Whether a node appears in any matched pair.
fn node_is_matched(matched: &Vec<(usize, usize)>, x: usize) -> (r: bool)
    ensures
        r == is_endpoint(matched@, x),
{
    let n = matched.len();
    let mut k: usize = 0;
    while k < n
        invariant
            n == matched@.len(),
            k <= n,
            forall|w: int| 0 <= w < k ==> (#[trigger] matched@[w]).0 != x && matched@[w].1 != x,
        decreases n - k,
    {
        let e = matched[k];
        if e.0 == x || e.1 == x {
            assert(is_endpoint(matched@, x));
            return true;
        }
        k += 1;
    }
    false
}

/// Collects the nodes untouched by the matching, in ascending order.
fn unmatched_nodes(n: usize, matched: &Vec<(usize, usize)>) -> (r: Vec<usize>)
    ensures
        r@ == unmatched_upto(matched@, n as int),
{
    let mut r: Vec<usize> = Vec::new();
    let mut i: usize = 0;
    while i < n
        invariant
            i <= n,
            r@ == unmatched_upto(matched@, i as int),
        decreases n - i,
    {
        let ghost r_old = r@;
        if !node_is_matched(matched, i) {
            r.push(i);
            proof {
                assert(r@ =~= r_old + seq![i]);
            }
        } else {
            proof {
                assert(r@ =~= r_old + Seq::empty());
            }
        }
        i += 1;
    }
    r
}

/// Consecutive pairs of the first k elements (k even), in order.
pub open spec fn pair_chunks_upto<A>(s: Seq<A>, k: int) -> Seq<Seq<A>>
    decreases k,
{
    if k <= 1 {
        Seq::empty()
    } else {
        pair_chunks_upto(s, k - 2) + seq![seq![s[k - 2], s[k - 1]]]
    }
}

/// The pairs formed from an unmatched-node list, leaving out a lone
/// remainder.
pub open spec fn bulk_of(um: Seq<usize>) -> Seq<Seq<usize>> {
    pair_chunks_upto(um, um.len() - (um.len() % 2))
}

/// The lone node left over when the unmatched-node count is odd.
pub open spec fn rem_of(um: Seq<usize>) -> Option<usize> {
    if um.len() % 2 == 1 {
        Some(um.last())
    } else {
        None
    }
}

/// Pairs the nodes not in the matching, returning the pairs and a possible
/// remainder.
fn pair_unmatched(n: usize, matched: &Vec<(usize, usize)>) -> (r: (Vec<Vec<usize>>, Option<usize>))
    ensures
        r.0.deep_view() == bulk_of(unmatched_upto(matched@, n as int)),
        r.1 == rem_of(unmatched_upto(matched@, n as int)),
{
    let um = unmatched_nodes(n, matched);
    let len = um.len();
    let mut bulk: Vec<Vec<usize>> = Vec::new();
    let mut i: usize = 0;
    while i + 1 < len
        invariant
            len == um@.len(),
            um@ == unmatched_upto(matched@, n as int),
            i % 2 == 0,
            i <= len,
            bulk.deep_view() == pair_chunks_upto(um@, i as int),
        decreases len - i,
    {
        let a = um[i];
        let b = um[i + 1];
        let ghost bulk_old = bulk@;
        bulk.push(vec![a, b]);
        proof {
            assert(bulk@ == bulk_old.push(bulk@[bulk@.len() - 1]));
            lemma_deep_push_groups(bulk_old, bulk@, bulk@[bulk@.len() - 1]);
            assert(bulk@[bulk@.len() - 1]@ =~= seq![a, b]);
            assert(bulk@[bulk@.len() - 1].deep_view() =~= seq![a, b]);
            assert(bulk.deep_view() =~= bulk_old.map_values(|g: Vec<usize>| g.deep_view()).push(
                seq![a, b],
            ));
            assert(pair_chunks_upto(um@, i as int + 2) == pair_chunks_upto(um@, i as int) + seq![
                seq![um@[i as int], um@[i as int + 1]],
            ]);
            assert(bulk.deep_view() =~= pair_chunks_upto(um@, i as int + 2));
        }
        i += 2;
    }
    proof {
        assert(i as int == um@.len() - (um@.len() % 2));
    }
    let rem = if len % 2 == 1 {
        Some(um[len - 1])
    } else {
        None
    };
    (bulk, rem)
}

/// The constraint test a remainder node applies to a prospective partner.
pub open spec fn con_of(cs: Seq<ConstraintEdge>, rem: usize) -> spec_fn(usize) -> bool {
    |x: usize| has_edge(cs, x, rem)
}

/// How many members of a match the predicate hits.
pub open spec fn match_score(con: spec_fn(usize) -> bool, m: Seq<usize>) -> int
    decreases m.len(),
{
    if m.len() == 0 {
        0
    } else {
        match_score(con, m.drop_last()) + if con(m.last()) {
            1int
        } else {
            0int
        }
    }
}

/// The first index among the first k matches achieving the least score.
pub open spec fn best_upto(con: spec_fn(usize) -> bool, ms: Seq<Seq<usize>>, k: int) -> int
    decreases k,
{
    if k <= 1 {
        0
    } else {
        let b = best_upto(con, ms, k - 1);
        if match_score(con, ms[k - 1]) < match_score(con, ms[b]) {
            k - 1
        } else {
            b
        }
    }
}

/// The best index is in range, achieves the minimum, and is the first to do
/// so.
pub proof fn lemma_best_props(con: spec_fn(usize) -> bool, ms: Seq<Seq<usize>>, k: int)
    requires
        1 <= k <= ms.len(),
    ensures
        0 <= best_upto(con, ms, k) < k,
        forall|w: int|
            0 <= w < k ==> match_score(con, ms[best_upto(con, ms, k)]) <= match_score(
                con,
                #[trigger] ms[w],
            ),
        forall|w: int|
            0 <= w < best_upto(con, ms, k) ==> match_score(con, #[trigger] ms[w]) > match_score(
                con,
                ms[best_upto(con, ms, k)],
            ),
    decreases k,
{
    if k <= 1 {
    } else {
        lemma_best_props(con, ms, k - 1);
    }
}

/// Two constraint tests that agree on the members of a match score it
/// alike.
proof fn lemma_score_congruence(
    c1: spec_fn(usize) -> bool,
    c2: spec_fn(usize) -> bool,
    m: Seq<usize>,
)
    requires
        forall|w: int| 0 <= w < m.len() ==> c1(#[trigger] m[w]) == c2(m[w]),
    ensures
        match_score(c1, m) == match_score(c2, m),
    decreases m.len(),
{
    if m.len() == 0 {
    } else {
        assert(forall|w: int| 0 <= w < m.drop_last().len() ==> m.drop_last()[w] == #[trigger] m[w]);
        lemma_score_congruence(c1, c2, m.drop_last());
        assert(m[m.len() - 1] == m.last());
    }
}

/// Two constraint tests that agree on every listed member pick the same
/// host match, at the same score.
proof fn lemma_best_congruence(
    c1: spec_fn(usize) -> bool,
    c2: spec_fn(usize) -> bool,
    ms: Seq<Seq<usize>>,
    k: int,
)
    requires
        k <= ms.len(),
        forall|w: int, t: int|
            #![trigger ms[w][t]]
            0 <= w < ms.len() && 0 <= t < ms[w].len() ==> c1(ms[w][t]) == c2(ms[w][t]),
    ensures
        best_upto(c1, ms, k) == best_upto(c2, ms, k),
        forall|w: int|
            0 <= w < ms.len() ==> match_score(c1, #[trigger] ms[w]) == match_score(c2, ms[w]),
    decreases k,
{
    assert forall|w: int| 0 <= w < ms.len() implies match_score(c1, #[trigger] ms[w])
        == match_score(c2, ms[w]) by {
        assert(forall|t: int| 0 <= t < ms[w].len() ==> c1(#[trigger] ms[w][t]) == c2(ms[w][t]));
        lemma_score_congruence(c1, c2, ms[w]);
    }
    if k <= 1 {
    } else {
        lemma_best_congruence(c1, c2, ms, k - 1);
        lemma_best_props(c1, ms, k - 1);
        let b = best_upto(c1, ms, k - 1);
        assert(match_score(c1, ms[b]) == match_score(c2, ms[b]));
        assert(match_score(c1, ms[k - 1]) == match_score(c2, ms[k - 1]));
    }
}

/// Counts the members of a match that the remainder node is constrained
/// against.
fn score_against(cs: &Vec<ConstraintEdge>, m: &Vec<usize>, rem: usize) -> (r: usize)
    ensures
        r == match_score(con_of(cs@, rem), m@),
{
    let ghost con = con_of(cs@, rem);
    let len = m.len();
    let mut count: usize = 0;
    let mut t: usize = 0;
    while t < len
        invariant
            len == m@.len(),
            t <= len,
            count <= t,
            con == con_of(cs@, rem),
            count == match_score(con, m@.take(t as int)),
        decreases len - t,
    {
        let x = m[t];
        let hit = contains_edge(cs, ConstraintEdge::new((x, rem)));
        proof {
            assert(con(x) == has_edge(cs@, x, rem));
            assert(m@.take(t as int + 1).drop_last() =~= m@.take(t as int));
            assert(m@.take(t as int + 1).last() == x);
        }
        if hit {
            count += 1;
        }
        t += 1;
    }
    proof {
        assert(m@.take(len as int) =~= m@);
    }
    count
}

/// Finds the first match with the least score against the remainder node.
fn best_host(cs: &Vec<ConstraintEdge>, ms: &Vec<Vec<usize>>, rem: usize) -> (r: (usize, usize))
    requires
        ms@.len() >= 1,
    ensures
        r.0 < ms@.len(),
        r.0 as int == best_upto(con_of(cs@, rem), ms.deep_view(), ms@.len() as int),
        r.1 == match_score(con_of(cs@, rem), ms.deep_view()[r.0 as int]),
{
    let ghost con = con_of(cs@, rem);
    proof {
        lemma_deep_view_groups(*ms);
    }
    let len = ms.len();
    let mut best: usize = 0;
    let mut bscore: usize = score_against(cs, &ms[0], rem);
    let mut k: usize = 1;
    while k < len
        invariant
            len == ms@.len(),
            1 <= k <= len,
            best < k,
            con == con_of(cs@, rem),
            ms.deep_view().len() == ms@.len(),
            forall|w: int| 0 <= w < ms@.len() ==> ms.deep_view()[w] == ms@[w]@,
            best as int == best_upto(con, ms.deep_view(), k as int),
            bscore == match_score(con, ms.deep_view()[best as int]),
        decreases len - k,
    {
        let s = score_against(cs, &ms[k], rem);
        if s < bscore {
            best = k;
            bscore = s;
        }
        k += 1;
    }
    (best, bscore)
}

/// Returns a new pairing with the remainder added to the most compatible
/// match — the first one with the fewest members the remainder is
/// constrained against — together with that count, the remainder match
/// score.
fn add_remainder_to_pairing(
    matched: Vec<Vec<usize>>,
    remainder: Option<usize>,
    constraints: &Vec<ConstraintEdge>,
) -> (r: (Vec<Vec<usize>>, usize))
    requires
        remainder.is_some() ==> matched@.len() >= 1,
    ensures
        match remainder {
            Some(rem) => {
                let con = con_of(constraints@, rem);
                let b = best_upto(con, matched.deep_view(), matched@.len() as int);
                r.0.deep_view() == matched.deep_view().update(
                    b,
                    matched.deep_view()[b].push(rem),
                ) && r.1 == match_score(con, matched.deep_view()[b])
            },
            None => r.0.deep_view() == matched.deep_view() && r.1 == 0,
        },
{
    match remainder {
        None => (matched, 0),
        Some(rem) => {
            let ghost orig = matched.deep_view();
            let (b, score) = best_host(constraints, &matched, rem);
            let mut matched = matched;
            let ghost before = matched@;
            let mut host = matched.remove(b);
            host.push(rem);
            matched.insert(b, host);
            proof {
                assert(matched@ =~= before.update(b as int, host));
                lemma_deep_view_groups(matched);
                assert(host@ == before[b as int]@.push(rem));
                assert(host.deep_view() =~= host@);
                assert(before[b as int]@ == orig[b as int]) by {
                    assert(before[b as int].deep_view() =~= before[b as int]@);
                }
                assert(matched.deep_view() =~= orig.update(b as int, orig[b as int].push(rem)));
            }
            (matched, score)
        },
    }
}

/// Shape of the bulk pair list: one pair per two leading elements.
pub proof fn lemma_pair_chunks_props<A>(s: Seq<A>, k: int)
    requires
        0 <= k <= s.len(),
        k % 2 == 0,
    ensures
        pair_chunks_upto(s, k).len() == k / 2,
        forall|w: int|
            0 <= w < k / 2 ==> #[trigger] pair_chunks_upto(s, k)[w] == seq![s[2 * w], s[2 * w + 1]],
    decreases k,
{
    if k <= 1 {
    } else {
        lemma_pair_chunks_props(s, k - 2);
        let prev = pair_chunks_upto(s, k - 2);
        let cur = pair_chunks_upto(s, k);
        assert forall|w: int| 0 <= w < k / 2 implies #[trigger] cur[w] == seq![
            s[2 * w],
            s[2 * w + 1],
        ] by {
            if w < k / 2 - 1 {
                assert(cur[w] == prev[w]);
            }
        }
    }
}

/// Flattening the bulk pairs gives back the leading elements in order.
pub proof fn lemma_pair_chunks_flatten<A>(s: Seq<A>, k: int)
    requires
        0 <= k <= s.len(),
        k % 2 == 0,
    ensures
        pair_chunks_upto(s, k).flatten() == s.take(k),
    decreases k,
{
    if k <= 1 {
        assert(pair_chunks_upto(s, k).flatten() =~= s.take(k));
    } else {
        lemma_pair_chunks_flatten(s, k - 2);
        let prev = pair_chunks_upto(s, k - 2);
        let pair = seq![s[k - 2], s[k - 1]];
        vstd::seq_lib::lemma_flatten_concat(prev, seq![pair]);
        seq![pair].lemma_flatten_singleton();
        assert(seq![pair].flatten() =~= pair);
        assert(pair_chunks_upto(s, k).flatten() =~= s.take(k));
    }
}

/// Every node id in the groups lies below n.
pub open spec fn groups_below(gs: Seq<Seq<usize>>, n: int) -> bool {
    forall|w: int, t: int|
        #![trigger gs[w][t]]
        0 <= w < gs.len() && 0 <= t < gs[w].len() ==> gs[w][t] < n
}

/// The participant standing at a node id.
pub open spec fn id_to_entity(shuf: Seq<u64>) -> spec_fn(usize) -> u64 {
    |x: usize| shuf[x as int]
}

/// Node groups translated back to participants.
pub open spec fn ids_to_entities(shuf: Seq<u64>, gs: Seq<Seq<usize>>) -> Seq<Seq<u64>> {
    gs.map_values(|g: Seq<usize>| g.map_values(id_to_entity(shuf)))
}

/// The matched node pairs as two-member groups.
pub open spec fn pair_groups(m: Seq<(usize, usize)>) -> Seq<Seq<usize>> {
    m.map_values(|e: (usize, usize)| seq![e.0, e.1])
}

/// The constraint test of the remainder node, over history.
pub open spec fn sem_con(shuf: Seq<u64>, hist: Seq<Seq<u64>>, rv: usize) -> spec_fn(usize) -> bool {
    |x: usize| were_matched(hist, shuf[x as int], shuf[rv as int])
}

/// The whole engine at the specification level: the final matches, the
/// imperfect participants, and the remainder match score, all a function of
/// the participants, the history and the seed.
pub open spec fn pairing_spec(entities: Seq<u64>, hist: Seq<Seq<u64>>, seed: u64) -> (
    Seq<Seq<u64>>,
    Seq<u64>,
    int,
) {
    let shuf = shuffle_of(entities, seed);
    let n = shuf.len() as int;
    let cands = candidates_of(novel_at(shuf, hist), n);
    let matched = max_matching_of(shuf.len() as usize, cands);
    let ms = pair_groups(matched);
    let um = unmatched_upto(matched, n);
    let bulk = bulk_of(um);
    let bulk_ents = bulk.flatten().map_values(id_to_entity(shuf));
    if um.len() % 2 == 1 {
        let rv = um.last();
        let con = sem_con(shuf, hist, rv);
        let b = best_upto(con, ms, ms.len() as int);
        let score = match_score(con, ms[b]);
        let withrem = ms.update(b, ms[b].push(rv));
        let matches = ids_to_entities(shuf, withrem + bulk);
        let imperfect = bulk_ents + if score > 0 {
            seq![shuf[rv as int]]
        } else {
            Seq::empty()
        };
        (matches, imperfect, score)
    } else {
        (ids_to_entities(shuf, ms + bulk), bulk_ents, 0int)
    }
}

/// Whether a match holds a participant that e has already met.
pub open spec fn match_holds_partner(g: Seq<u64>, hist: Seq<Seq<u64>>, e: u64) -> bool {
    exists|o: u64| #[trigger] g.contains(o) && were_matched(hist, e, o)
}

/// Whether e stands in a match together with some participant it has
/// already met.
pub open spec fn in_imperfect_match(ms: Seq<Seq<u64>>, hist: Seq<Seq<u64>>, e: u64) -> bool {
    exists|w: int|
        #![trigger ms[w]]
        0 <= w < ms.len() && ms[w].contains(e) && match_holds_partner(ms[w], hist, e)
}

/// A positive score names a met member; a zero score leaves none.
proof fn lemma_score_members(con: spec_fn(usize) -> bool, m: Seq<usize>)
    ensures
        match_score(con, m) >= 0,
        match_score(con, m) > 0 <==> exists|w: int| 0 <= w < m.len() && con(#[trigger] m[w]),
    decreases m.len(),
{
    if m.len() == 0 {
    } else {
        lemma_score_members(con, m.drop_last());
        assert(m[m.len() - 1] == m.last());
        assert(forall|w: int| 0 <= w < m.drop_last().len() ==> m.drop_last()[w] == #[trigger] m[w]);
        if match_score(con, m) > 0 {
            if con(m.last()) {
            } else {
                let w = choose|w: int| 0 <= w < m.drop_last().len() && con(#[trigger] m.drop_last()[w]);
                assert(con(m[w]));
            }
        }
        if exists|w: int| 0 <= w < m.len() && con(#[trigger] m[w]) {
            let w = choose|w: int| 0 <= w < m.len() && con(#[trigger] m[w]);
            if w < m.len() - 1 {
                assert(con(m.drop_last()[w]));
            }
        }
    }
}

/// Whether some match holds three participants.
pub open spec fn has_triple(ms: Seq<Seq<u64>>) -> bool {
    exists|w: int| #![trigger ms[w]] 0 <= w < ms.len() && ms[w].len() == 3
}

/// Whether every pair of distinct current participants already met in some
/// historical match.
pub open spec fn fully_constrained(entities: Seq<u64>, hist: Seq<Seq<u64>>) -> bool {
    forall|u: u64, v: u64|
        #![trigger entities.contains(u), entities.contains(v)]
        entities.contains(u) && entities.contains(v) && u != v ==> were_matched(hist, u, v)
}

/// Appends the participant groups standing at the given node groups.
fn append_entity_groups(shuf: &Vec<u64>, gs: &Vec<Vec<usize>>, out: &mut Vec<Vec<u64>>)
    requires
        groups_below(gs.deep_view(), shuf@.len() as int),
    ensures
        final(out).deep_view() == old(out).deep_view() + ids_to_entities(shuf@, gs.deep_view()),
{
    proof {
        lemma_deep_view_groups(*gs);
    }
    let glen = gs.len();
    let mut w: usize = 0;
    while w < glen
        invariant
            glen == gs@.len(),
            w <= glen,
            groups_below(gs.deep_view(), shuf@.len() as int),
            gs.deep_view().len() == gs@.len(),
            forall|u: int| 0 <= u < gs@.len() ==> gs.deep_view()[u] == gs@[u]@,
            out.deep_view() == old(out).deep_view() + ids_to_entities(
                shuf@,
                gs.deep_view().take(w as int),
            ),
        decreases glen - w,
    {
        let g = &gs[w];
        let ilen = g.len();
        let mut eg: Vec<u64> = Vec::new();
        let mut t: usize = 0;
        while t < ilen
            invariant
                w < glen,
                glen == gs@.len(),
                groups_below(gs.deep_view(), shuf@.len() as int),
                gs.deep_view().len() == gs@.len(),
                forall|u: int| 0 <= u < gs@.len() ==> gs.deep_view()[u] == gs@[u]@,
                g@ == gs.deep_view()[w as int],
                ilen == g@.len(),
                t <= ilen,
                eg@ == gs.deep_view()[w as int].take(t as int).map_values(id_to_entity(shuf@)),
        decreases ilen - t,
        {
            let x = g[t];
            proof {
                assert(gs.deep_view()[w as int][t as int] == g@[t as int]);
                assert(g@[t as int] < shuf@.len());
            }
            eg.push(shuf[x]);
            proof {
                let dg = gs.deep_view()[w as int];
                assert(dg.take(t as int + 1) =~= dg.take(t as int).push(dg[t as int]));
                assert(eg@ =~= dg.take(t as int + 1).map_values(id_to_entity(shuf@)));
            }
            t += 1;
        }
        let ghost out_old = out.deep_view();
        let ghost out_vs = out@;
        out.push(eg);
        proof {
            let dg = gs.deep_view()[w as int];
            assert(dg.take(ilen as int) =~= dg);
            assert(eg@ == dg.map_values(id_to_entity(shuf@)));
            assert(out.deep_view() =~= out_old.push(eg@)) by {
                assert forall|u: int| 0 <= u < out@.len() implies out@[u].deep_view()
                    == out_old.push(eg@)[u] by {
                    if u < out_vs.len() {
                        assert(out@[u] == out_vs[u]);
                    } else {
                        assert(out@[u] == eg);
                        assert(eg.deep_view() =~= eg@);
                    }
                }
            }
            assert(gs.deep_view().take(w as int + 1) =~= gs.deep_view().take(w as int).push(dg));
            assert(ids_to_entities(shuf@, gs.deep_view().take(w as int + 1)) =~= ids_to_entities(
                shuf@,
                gs.deep_view().take(w as int),
            ).push(eg@));
            assert(out.deep_view() =~= old(out).deep_view() + ids_to_entities(
                shuf@,
                gs.deep_view().take(w as int + 1),
            ));
        }
        w += 1;
    }
    proof {
        assert(gs.deep_view().take(glen as int) =~= gs.deep_view());
    }
}

/// Mapping respects permutation: two sequences with one multiset map to
/// sequences with one multiset.
pub proof fn lemma_map_multiset<A, B>(s: Seq<A>, t: Seq<A>, f: spec_fn(A) -> B)
    requires
        s.to_multiset() == t.to_multiset(),
    ensures
        s.map_values(f).to_multiset() == t.map_values(f).to_multiset(),
    decreases s.len(),
{
    broadcast use vstd::seq_lib::group_to_multiset_ensures;
    broadcast use vstd::multiset::group_multiset_axioms;

    if s.len() == 0 {
        assert(s.to_multiset().len() == 0);
        assert(t.len() == t.to_multiset().len());
        assert(t.len() == 0);
        assert(s.map_values(f) =~= Seq::<B>::empty());
        assert(t.map_values(f) =~= Seq::<B>::empty());
    } else {
        let x = s.last();
        assert(s.contains(x));
        assert(s.to_multiset().count(x) > 0);
        assert(t.to_multiset().count(x) > 0);
        assert(t.contains(x));
        let i = choose|i: int| 0 <= i < t.len() && t[i] == x;
        let s1 = s.drop_last();
        let t1 = t.remove(i);
        assert(s.remove(s.len() - 1) =~= s1);
        assert(s1.to_multiset() == s.to_multiset().remove(x)) by {
            assert(s.remove(s.len() - 1).to_multiset() =~= s.to_multiset().remove(
                s[s.len() - 1],
            ));
        }
        assert(t1.to_multiset() == t.to_multiset().remove(x)) by {
            assert(t.remove(i).to_multiset() =~= t.to_multiset().remove(t[i]));
        }
        lemma_map_multiset(s1, t1, f);
        assert(s.map_values(f) =~= s1.map_values(f).push(f(x)));
        assert(s.map_values(f).to_multiset() == s1.map_values(f).to_multiset().insert(f(x))) by {
            assert(s1.map_values(f).push(f(x)).to_multiset() =~= s1.map_values(
                f,
            ).to_multiset().insert(f(x)));
        }
        assert(t1.map_values(f) =~= t.map_values(f).remove(i));
        assert(t.map_values(f).remove(i).to_multiset() == t.map_values(f).to_multiset().remove(
            f(x),
        )) by {
            assert(t.map_values(f)[i] == f(x));
            assert(t.map_values(f).remove(i).to_multiset() =~= t.map_values(
                f,
            ).to_multiset().remove(t.map_values(f)[i]));
        }
        assert(t.map_values(f).contains(t.map_values(f)[i]));
        assert(t.map_values(f).to_multiset().count(f(x)) > 0);
        assert(t.map_values(f).to_multiset() =~= t.map_values(f).to_multiset().remove(
            f(x),
        ).insert(f(x)));
        assert(s.map_values(f).to_multiset() == t.map_values(f).to_multiset());
    }
}

/// Translating after flattening equals flattening after translating each
/// group.
pub proof fn lemma_flatten_map<A, B>(gs: Seq<Seq<A>>, f: spec_fn(A) -> B)
    ensures
        gs.map_values(|g: Seq<A>| g.map_values(f)).flatten() == gs.flatten().map_values(f),
    decreases gs.len(),
{
    if gs.len() == 0 {
        assert(gs.map_values(|g: Seq<A>| g.map_values(f)) =~= Seq::<Seq<B>>::empty());
        assert(gs.flatten() =~= Seq::<A>::empty());
        assert(Seq::<Seq<B>>::empty().flatten() =~= Seq::<B>::empty());
        assert(gs.flatten().map_values(f) =~= Seq::<B>::empty());
    } else {
        let pre = gs.drop_last();
        let last = gs.last();
        lemma_flatten_map(pre, f);
        assert(gs =~= pre.push(last));
        pre.lemma_flatten_push(last);
        assert(gs.flatten() == pre.flatten() + last);
        let mpre = pre.map_values(|g: Seq<A>| g.map_values(f));
        assert(gs.map_values(|g: Seq<A>| g.map_values(f)) =~= mpre.push(last.map_values(f)));
        mpre.lemma_flatten_push(last.map_values(f));
        assert((pre.flatten() + last).map_values(f) =~= pre.flatten().map_values(f)
            + last.map_values(f));
        assert(gs.map_values(|g: Seq<A>| g.map_values(f)).flatten() =~= gs.flatten().map_values(
            f,
        ));
    }
}

/// Flattening the matched pairs as groups lists their endpoints in order.
pub proof fn lemma_pair_groups_flatten(m: Seq<(usize, usize)>)
    ensures
        pair_groups(m).flatten() == endpoints_of(m),
    decreases m.len(),
{
    if m.len() == 0 {
        assert(pair_groups(m) =~= Seq::<Seq<usize>>::empty());
        assert(pair_groups(m).flatten() =~= endpoints_of(m));
    } else {
        let pre = m.drop_last();
        lemma_pair_groups_flatten(pre);
        assert(pair_groups(m) =~= pair_groups(pre).push(seq![m.last().0, m.last().1]));
        pair_groups(pre).lemma_flatten_push(seq![m.last().0, m.last().1]);
        assert(pair_groups(m).flatten() =~= endpoints_of(m));
    }
}

/// Pushing one node into one group adds exactly that node to the flattened
/// membership.
pub proof fn lemma_flatten_update_push(ms: Seq<Seq<usize>>, b: int, v: usize)
    requires
        0 <= b < ms.len(),
    ensures
        ms.update(b, ms[b].push(v)).flatten().to_multiset() == ms.flatten().to_multiset().insert(
            v,
        ),
{
    broadcast use vstd::seq_lib::group_to_multiset_ensures;
    broadcast use vstd::multiset::group_multiset_axioms;

    let upd = ms.update(b, ms[b].push(v));
    let pre = ms.take(b);
    let post = ms.skip(b + 1);
    assert(ms =~= pre + seq![ms[b]] + post);
    assert(upd =~= pre + seq![ms[b].push(v)] + post);
    vstd::seq_lib::lemma_flatten_concat(pre + seq![ms[b]], post);
    vstd::seq_lib::lemma_flatten_concat(pre, seq![ms[b]]);
    vstd::seq_lib::lemma_flatten_concat(pre + seq![ms[b].push(v)], post);
    vstd::seq_lib::lemma_flatten_concat(pre, seq![ms[b].push(v)]);
    seq![ms[b]].lemma_flatten_singleton();
    seq![ms[b].push(v)].lemma_flatten_singleton();
    assert(ms.flatten() == pre.flatten() + ms[b] + post.flatten());
    assert(upd.flatten() == pre.flatten() + ms[b].push(v) + post.flatten());
    vstd::seq_lib::lemma_multiset_commutative(pre.flatten() + ms[b], post.flatten());
    vstd::seq_lib::lemma_multiset_commutative(pre.flatten(), ms[b]);
    vstd::seq_lib::lemma_multiset_commutative(pre.flatten() + ms[b].push(v), post.flatten());
    vstd::seq_lib::lemma_multiset_commutative(pre.flatten(), ms[b].push(v));
    assert(ms[b].push(v).to_multiset() =~= ms[b].to_multiset().insert(v));
    assert(upd.flatten().to_multiset() =~= ms.flatten().to_multiset().insert(v));
}

/// The assembled participant groups partition the participants, and their
/// sizes are two throughout, save one triple hosting the remainder when the
/// participant count is odd.
proof fn lemma_final_assembly(
    entities: Seq<u64>,
    shuf: Seq<u64>,
    matched: Seq<(usize, usize)>,
    edges: Seq<(usize, usize)>,
    withremd: Seq<Seq<usize>>,
    bulkd: Seq<Seq<usize>>,
    outd: Seq<Seq<u64>>,
    n: usize,
    b: int,
    rv: usize,
)
    requires
        entities.to_multiset() == shuf.to_multiset(),
        shuf.len() == n,
        is_sub_matching(matched, edges),
        forall|k: int| 0 <= k < edges.len() ==> (#[trigger] edges[k]).0 < edges[k].1 && edges[k].1 < n,
        ({
            let um = unmatched_upto(matched, n as int);
            let ms = pair_groups(matched);
            if um.len() % 2 == 1 {
                rv == um.last() && 0 <= b < ms.len() && withremd == ms.update(
                    b,
                    ms[b].push(rv),
                )
            } else {
                withremd == ms
            }
        }),
        bulkd == bulk_of(unmatched_upto(matched, n as int)),
        outd == ids_to_entities(shuf, withremd + bulkd),
    ensures
        outd.flatten().to_multiset() == entities.to_multiset(),
        forall|w: int| 0 <= w < outd.len() ==> (#[trigger] outd[w].len() == 2 || outd[w].len() == 3),
        forall|w1: int, w2: int|
            #![trigger outd[w1], outd[w2]]
            0 <= w1 < outd.len() && 0 <= w2 < outd.len() && w1 != w2 ==> !(outd[w1].len() == 3
                && outd[w2].len() == 3),
        n % 2 == 0 ==> forall|w: int| 0 <= w < outd.len() ==> #[trigger] outd[w].len() == 2,
        n % 2 == 1 ==> 0 <= b < outd.len() && outd[b].len() == 3,
{
    broadcast use vstd::seq_lib::group_to_multiset_ensures;
    broadcast use vstd::multiset::group_multiset_axioms;

    let ent = id_to_entity(shuf);
    let um = unmatched_upto(matched, n as int);
    let ms = pair_groups(matched);
    let allnodes = withremd + bulkd;
    let kk = um.len() - (um.len() % 2);
    lemma_unmatched_props(matched, n as int);
    assert(pairs_disjoint(matched)) by {
        assert forall|k1: int, k2: int|
            #![trigger matched[k1], matched[k2]]
            0 <= k1 < matched.len() && 0 <= k2 < matched.len() && k1 != k2 implies matched[k1].0
            != matched[k2].0 && matched[k1].0 != matched[k2].1 && matched[k1].1 != matched[k2].0
            && matched[k1].1 != matched[k2].1 by {
            assert(is_sub_matching(matched, edges));
        }
    }
    assert(pairs_proper(matched) && pairs_below(matched, n as int)) by {
        assert forall|k: int| 0 <= k < matched.len() implies (#[trigger] matched[k]).0
            != matched[k].1 && matched[k].0 < n && matched[k].1 < n by {
            assert(edges.contains(matched[k]));
        }
    }
    lemma_id_partition(matched, n as int);
    lemma_pair_chunks_props(um, kk as int);
    lemma_pair_chunks_flatten(um, kk as int);
    lemma_pair_groups_flatten(matched);
    vstd::seq_lib::lemma_flatten_concat(withremd, bulkd);
    vstd::seq_lib::lemma_multiset_commutative(withremd.flatten(), bulkd.flatten());
    assert(bulkd.flatten() == um.take(kk as int));
    // the flattened node groups carry each node id exactly once
    assert(allnodes.flatten().to_multiset() == range_seq(n as int).to_multiset()) by {
        if um.len() % 2 == 1 {
            lemma_flatten_update_push(ms, b, rv);
            assert(withremd.flatten().to_multiset() == endpoints_of(
                matched,
            ).to_multiset().insert(rv));
            assert(um =~= um.take(kk as int).push(um.last()));
            assert(um.take(kk as int).push(um.last()).to_multiset() =~= um.take(
                kk as int,
            ).to_multiset().insert(rv));
            assert(allnodes.flatten().to_multiset() =~= range_seq(n as int).to_multiset());
        } else {
            assert(withremd.flatten() == endpoints_of(matched));
            assert(um =~= um.take(kk as int));
            assert(allnodes.flatten().to_multiset() =~= range_seq(n as int).to_multiset());
        }
    }
    // translate node ids to participants: a permutation of the shuffle
    lemma_map_multiset(allnodes.flatten(), range_seq(n as int), ent);
    lemma_flatten_map(allnodes, ent);
    assert(range_seq(n as int).map_values(ent) =~= shuf);
    assert(outd.flatten().to_multiset() == entities.to_multiset());
    // group sizes
    assert(um.len() + 2 * matched.len() == n);
    assert(n % 2 == um.len() % 2);
    assert forall|w: int| 0 <= w < outd.len() implies #[trigger] outd[w].len() == (if um.len() % 2
        == 1 && w == b {
        3int
    } else {
        2int
    }) by {
        assert(outd[w] == allnodes[w].map_values(ent));
        if w < withremd.len() {
            assert(allnodes[w] == withremd[w]);
            if um.len() % 2 == 1 && w == b {
                assert(withremd[w] == ms[b].push(rv));
                assert(ms[b] == seq![matched[b].0, matched[b].1]);
            } else {
                assert(withremd[w] == ms[w]);
                assert(ms[w] == seq![matched[w].0, matched[w].1]);
            }
        } else {
            let t = w - withremd.len();
            assert(allnodes[w] == bulkd[t]);
            assert(bulkd[t] == seq![um[2 * t], um[2 * t + 1]]);
        }
    }
    if um.len() % 2 == 1 {
        assert(outd[b].len() == 3);
    }
}

/// The imperfect list is sound: each listed participant stands in a match
/// with someone it already met. It is also complete whenever no remainder
/// was absorbed at a positive score: then exactly the listed participants
/// stand in such matches.
proof fn lemma_imperfect_props(
    hist: Seq<Seq<u64>>,
    shuf: Seq<u64>,
    matched: Seq<(usize, usize)>,
    edges: Seq<(usize, usize)>,
    withremd: Seq<Seq<usize>>,
    bulkd: Seq<Seq<usize>>,
    outd: Seq<Seq<u64>>,
    imp: Seq<u64>,
    n: usize,
    b: int,
    rv: usize,
    score: int,
)
    requires
        shuf.no_duplicates(),
        shuf.len() == n,
        is_sub_matching(matched, edges),
        forall|k: int|
            0 <= k < edges.len() ==> (#[trigger] edges[k]).0 < edges[k].1 && edges[k].1 < n,
        forall|e: (usize, usize)| #[trigger]
            edges.contains(e) <==> (e.0 < e.1 && e.1 < n && !were_matched(
                hist,
                shuf[e.0 as int],
                shuf[e.1 as int],
            )),
        forall|m: Seq<(usize, usize)>| is_sub_matching(m, edges) ==> m.len() <= matched.len(),
        ({
            let um = unmatched_upto(matched, n as int);
            let ms = pair_groups(matched);
            if um.len() % 2 == 1 {
                rv == um.last() && 0 <= b < ms.len() && withremd == ms.update(b, ms[b].push(rv))
                    && score == match_score(sem_con(shuf, hist, rv), ms[b])
            } else {
                withremd == ms && score == 0
            }
        }),
        bulkd == bulk_of(unmatched_upto(matched, n as int)),
        outd == ids_to_entities(shuf, withremd + bulkd),
        ({
            let um = unmatched_upto(matched, n as int);
            imp == bulkd.flatten().map_values(id_to_entity(shuf)) + (if um.len() % 2 == 1 && score
                > 0 {
                seq![shuf[rv as int]]
            } else {
                Seq::<u64>::empty()
            })
        }),
    ensures
        forall|e: u64| #[trigger] imp.contains(e) ==> in_imperfect_match(outd, hist, e),
        (n % 2 == 0 || score == 0) ==> (forall|e: u64|
            in_imperfect_match(outd, hist, e) ==> #[trigger] imp.contains(e)),
{
    let ent = id_to_entity(shuf);
    let um = unmatched_upto(matched, n as int);
    let ms = pair_groups(matched);
    let allnodes = withremd + bulkd;
    let kk = um.len() - (um.len() % 2);
    let con = sem_con(shuf, hist, rv);
    lemma_unmatched_props(matched, n as int);
    lemma_pair_chunks_props(um, kk as int);
    lemma_pair_chunks_flatten(um, kk as int);
    assert(bulkd.len() == kk as int / 2);
    assert(bulkd.flatten() == um.take(kk as int));
    // index shape of the translated groups
    assert(outd.len() == allnodes.len());
    assert forall|w: int| 0 <= w < outd.len() implies #[trigger] outd[w] == allnodes[w].map_values(
        ent,
    ) by {}
    // nodes of one shuffled position share the participant only with
    // themselves
    assert forall|x: usize, y: usize| x < n && y < n && x != y implies shuf[x as int] != shuf[y as int] by {
        assert(shuf.no_duplicates());
    }
    // two unmatched nodes are always constrained: otherwise the matching
    // was not maximum
    assert forall|u: usize, v: usize|
        u < n && v < n && u != v && !is_endpoint(matched, u) && !is_endpoint(matched, v)
        implies were_matched(hist, shuf[u as int], shuf[v as int]) by {
        if !were_matched(hist, shuf[u as int], shuf[v as int]) {
            lemma_were_matched_sym(hist, shuf[u as int], shuf[v as int]);
            let a = if u < v {
                u
            } else {
                v
            };
            let c = if u < v {
                v
            } else {
                u
            };
            let e2 = (a, c);
            assert(!were_matched(hist, shuf[a as int], shuf[c as int]));
            assert(edges.contains(e2));
            let m2 = matched.push(e2);
            assert(is_sub_matching(m2, edges)) by {
                assert forall|k: int| 0 <= k < m2.len() implies edges.contains(#[trigger] m2[k]) by {
                    if k < matched.len() {
                        assert(m2[k] == matched[k]);
                        assert(is_sub_matching(matched, edges));
                    } else {
                        assert(m2[k] == e2);
                    }
                }
                assert forall|k1: int, k2: int|
                    #![trigger m2[k1], m2[k2]]
                    0 <= k1 < m2.len() && 0 <= k2 < m2.len() && k1 != k2 implies m2[k1].0
                    != m2[k2].0 && m2[k1].0 != m2[k2].1 && m2[k1].1 != m2[k2].0 && m2[k1].1
                    != m2[k2].1 by {
                    if k1 < matched.len() && k2 < matched.len() {
                        assert(is_sub_matching(matched, edges));
                        assert(matched[k1] == m2[k1] && matched[k2] == m2[k2]);
                    } else if k1 < matched.len() {
                        assert(m2[k2] == e2);
                        assert(matched[k1] == m2[k1]);
                        assert(!is_endpoint(matched, a) && !is_endpoint(matched, c));
                    } else {
                        assert(m2[k1] == e2);
                        assert(matched[k2] == m2[k2]);
                        assert(!is_endpoint(matched, a) && !is_endpoint(matched, c));
                    }
                }
            }
            assert(m2.len() <= matched.len());
            assert(false);
        }
    }
    // every bulk member is unmatched and below n
    assert forall|t: int| 0 <= t < bulkd.len() implies um[2 * t] < n && um[2 * t + 1] < n && um[2
        * t] != um[2 * t + 1] && !is_endpoint(matched, um[2 * t]) && !is_endpoint(
        matched,
        um[2 * t + 1],
    ) && bulkd[t] == seq![um[2 * t], um[2 * t + 1]] by {
        assert(um.contains(um[2 * t]) && um.contains(um[2 * t + 1]));
        assert(um.no_duplicates());
    }
    if um.len() % 2 == 1 {
        assert(um[um.len() - 1] == um.last());
        assert(um.contains(um.last()));
        assert(rv < n && !is_endpoint(matched, rv));
        lemma_score_members(con, ms[b]);
    }
    // soundness: each listed participant has a partner it met in its match
    assert forall|e: u64| #[trigger] imp.contains(e) implies in_imperfect_match(outd, hist, e) by {
        let bents = bulkd.flatten().map_values(ent);
        let i = choose|i: int| 0 <= i < imp.len() && imp[i] == e;
        if i < bents.len() {
            assert(imp[i] == bents[i]);
            let t = i / 2;
            let x = um[2 * t];
            let y = um[2 * t + 1];
            assert(bulkd.flatten()[i] == um.take(kk as int)[i]);
            assert(e == ent(um[i]));
            assert(i == 2 * t || i == 2 * t + 1);
            let w = withremd.len() + t;
            assert(outd[w] == bulkd[t].map_values(ent));
            assert(outd[w] =~= seq![ent(x), ent(y)]);
            assert(outd[w].contains(ent(x)) && outd[w].contains(ent(y))) by {
                assert(outd[w][0] == ent(x) && outd[w][1] == ent(y));
            }
            assert(were_matched(hist, ent(x), ent(y)));
            lemma_were_matched_sym(hist, ent(x), ent(y));
            if i == 2 * t {
                assert(match_holds_partner(outd[w], hist, e)) by {
                    assert(outd[w].contains(ent(y)));
                }
            } else {
                assert(match_holds_partner(outd[w], hist, e)) by {
                    assert(outd[w].contains(ent(x)));
                }
            }
            assert(in_imperfect_match(outd, hist, e)) by {
                assert(0 <= w < outd.len() && outd[w].contains(e) && match_holds_partner(
                    outd[w],
                    hist,
                    e,
                ));
            }
        } else {
            // the remainder, listed only at a positive score
            assert(um.len() % 2 == 1 && score > 0);
            assert(e == shuf[rv as int]);
            let x = choose|w: int| 0 <= w < ms[b].len() && con(#[trigger] ms[b][w]);
            let o = ent(ms[b][x]);
            assert(were_matched(hist, shuf[ms[b][x] as int], shuf[rv as int]));
            lemma_were_matched_sym(hist, shuf[ms[b][x] as int], shuf[rv as int]);
            assert(outd[b] == withremd[b].map_values(ent));
            assert(withremd[b] == ms[b].push(rv));
            assert(outd[b].contains(e)) by {
                assert(outd[b][withremd[b].len() - 1] == ent(rv));
            }
            assert(outd[b].contains(o)) by {
                assert(outd[b][x] == o);
            }
            assert(in_imperfect_match(outd, hist, e)) by {
                assert(match_holds_partner(outd[b], hist, e));
                assert(0 <= b < outd.len() && outd[b].contains(e));
            }
        }
    }
    // completeness, absent a positively scored remainder
    if n % 2 == 0 || score == 0 {
        assert(pairs_disjoint(matched)) by {
            assert forall|k1: int, k2: int|
                #![trigger matched[k1], matched[k2]]
                0 <= k1 < matched.len() && 0 <= k2 < matched.len() && k1 != k2 implies matched[k1].0
                != matched[k2].0 && matched[k1].0 != matched[k2].1 && matched[k1].1
                != matched[k2].0 && matched[k1].1 != matched[k2].1 by {
                assert(is_sub_matching(matched, edges));
            }
        }
        assert(pairs_proper(matched) && pairs_below(matched, n as int)) by {
            assert forall|k: int| 0 <= k < matched.len() implies (#[trigger] matched[k]).0
                != matched[k].1 && matched[k].0 < n && matched[k].1 < n by {
                assert(edges.contains(matched[k]));
            }
        }
        lemma_id_partition(matched, n as int);
        assert(n % 2 == um.len() % 2);
        assert(um.len() % 2 == 1 ==> score == 0);
        assert forall|e: u64| in_imperfect_match(outd, hist, e) implies #[trigger] imp.contains(
            e,
        ) by {
            let w = choose|w: int|
                #![trigger outd[w]]
                0 <= w < outd.len() && outd[w].contains(e) && match_holds_partner(outd[w], hist, e);
            let o = choose|o: u64| #[trigger] outd[w].contains(o) && were_matched(hist, e, o);
            if w < withremd.len() {
                // a solver match never holds two participants who met
                let gids = withremd[w];
                assert(outd[w] == gids.map_values(ent));
                let i = choose|i: int| 0 <= i < outd[w].len() && outd[w][i] == e;
                let j = choose|j: int| 0 <= j < outd[w].len() && outd[w][j] == o;
                let x = gids[i];
                let y = gids[j];
                assert(e == ent(x) && o == ent(y));
                assert(e != o);
                assert(x != y);
                assert(edges.contains(matched[w]));
                assert(ms[w] == seq![matched[w].0, matched[w].1]);
                assert(!were_matched(
                    hist,
                    shuf[matched[w].0 as int],
                    shuf[matched[w].1 as int],
                ));
                lemma_were_matched_sym(
                    hist,
                    shuf[matched[w].0 as int],
                    shuf[matched[w].1 as int],
                );
                if um.len() % 2 == 1 && w == b {
                    assert(gids == ms[b].push(rv));
                    assert(gids[0] == matched[w].0 && gids[1] == matched[w].1 && gids[2] == rv);
                    assert forall|c: int| 0 <= c < ms[b].len() implies !con(#[trigger] ms[b][c]) by {
                        lemma_score_members(con, ms[b]);
                    }
                    assert(!were_matched(hist, shuf[matched[w].0 as int], shuf[rv as int])) by {
                        assert(!con(ms[b][0]));
                    }
                    assert(!were_matched(hist, shuf[matched[w].1 as int], shuf[rv as int])) by {
                        assert(!con(ms[b][1]));
                    }
                    lemma_were_matched_sym(hist, shuf[matched[w].0 as int], shuf[rv as int]);
                    lemma_were_matched_sym(hist, shuf[matched[w].1 as int], shuf[rv as int]);
                    assert(!were_matched(hist, ent(x), ent(y))) by {
                        assert(i == 0 || i == 1 || i == 2);
                        assert(j == 0 || j == 1 || j == 2);
                    }
                    assert(false);
                } else {
                    assert(gids == ms[w]);
                    assert(gids[0] == matched[w].0 && gids[1] == matched[w].1);
                    assert(!were_matched(hist, ent(x), ent(y))) by {
                        assert(i == 0 || i == 1);
                        assert(j == 0 || j == 1);
                    }
                    assert(false);
                }
            } else {
                // a bulk pair: both members are listed
                let t = w - withremd.len();
                assert(outd[w] == bulkd[t].map_values(ent));
                assert(outd[w] =~= seq![ent(um[2 * t]), ent(um[2 * t + 1])]);
                let bents = bulkd.flatten().map_values(ent);
                let i = choose|i: int| 0 <= i < outd[w].len() && outd[w][i] == e;
                assert(i == 0 || i == 1);
                assert(bents[2 * t + i] == ent(um.take(kk as int)[2 * t + i]));
                assert(um.take(kk as int)[2 * t + i] == um[2 * t + i]);
                assert(bents[2 * t + i] == e);
                assert(imp[2 * t + i] == e);
                assert(imp.contains(e)) by {
                    assert(imp[2 * t + i] == e);
                }
            }
        }
    }
}

/// Whether alt is a set of disjoint novel pairs over the participants: each
/// pair joins two distinct current participants who never met, and no
/// participant appears twice.
pub open spec fn novel_pair_matching(
    alt: Seq<(u64, u64)>,
    entities: Seq<u64>,
    hist: Seq<Seq<u64>>,
) -> bool {
    &&& forall|k: int|
        0 <= k < alt.len() ==> entities.contains((#[trigger] alt[k]).0) && entities.contains(
            alt[k].1,
        )
    &&& forall|k: int|
        0 <= k < alt.len() ==> (#[trigger] alt[k]).0 != alt[k].1 && !were_matched(
            hist,
            alt[k].0,
            alt[k].1,
        )
    &&& forall|k1: int, k2: int|
        #![trigger alt[k1], alt[k2]]
        0 <= k1 < alt.len() && 0 <= k2 < alt.len() && k1 != k2 ==> alt[k1].0 != alt[k2].0
            && alt[k1].0 != alt[k2].1 && alt[k1].1 != alt[k2].0 && alt[k1].1 != alt[k2].1
}

/// No assignment of disjoint novel pairs can leave fewer participants with
/// a repeat than the imperfect list holds: the solver matching is maximum,
/// so at most matched.len() novel pairs exist at all.
proof fn lemma_novelty_bound(
    entities: Seq<u64>,
    hist: Seq<Seq<u64>>,
    shuf: Seq<u64>,
    matched: Seq<(usize, usize)>,
    edges: Seq<(usize, usize)>,
    imp: Seq<u64>,
    n: usize,
    rv: usize,
    score: int,
)
    requires
        entities.to_multiset() == shuf.to_multiset(),
        shuf.no_duplicates(),
        shuf.len() == n,
        is_sub_matching(matched, edges),
        forall|k: int|
            0 <= k < edges.len() ==> (#[trigger] edges[k]).0 < edges[k].1 && edges[k].1 < n,
        forall|e: (usize, usize)| #[trigger]
            edges.contains(e) <==> (e.0 < e.1 && e.1 < n && !were_matched(
                hist,
                shuf[e.0 as int],
                shuf[e.1 as int],
            )),
        forall|m: Seq<(usize, usize)>| is_sub_matching(m, edges) ==> m.len() <= matched.len(),
        ({
            let um = unmatched_upto(matched, n as int);
            imp == bulk_of(um).flatten().map_values(id_to_entity(shuf)) + (if um.len() % 2 == 1
                && score > 0 {
                seq![shuf[rv as int]]
            } else {
                Seq::<u64>::empty()
            })
        }),
    ensures
        forall|alt: Seq<(u64, u64)>|
            novel_pair_matching(alt, entities, hist) ==> imp.len() + 2 * alt.len() <= n,
{
    broadcast use vstd::seq_lib::group_to_multiset_ensures;

    let um = unmatched_upto(matched, n as int);
    let kk = um.len() - (um.len() % 2);
    lemma_unmatched_props(matched, n as int);
    assert(pairs_disjoint(matched)) by {
        assert forall|k1: int, k2: int|
            #![trigger matched[k1], matched[k2]]
            0 <= k1 < matched.len() && 0 <= k2 < matched.len() && k1 != k2 implies matched[k1].0
            != matched[k2].0 && matched[k1].0 != matched[k2].1 && matched[k1].1 != matched[k2].0
            && matched[k1].1 != matched[k2].1 by {
            assert(is_sub_matching(matched, edges));
        }
    }
    assert(pairs_proper(matched) && pairs_below(matched, n as int)) by {
        assert forall|k: int| 0 <= k < matched.len() implies (#[trigger] matched[k]).0
            != matched[k].1 && matched[k].0 < n && matched[k].1 < n by {
            assert(edges.contains(matched[k]));
        }
    }
    lemma_id_partition(matched, n as int);
    lemma_pair_chunks_props(um, kk as int);
    lemma_pair_chunks_flatten(um, kk as int);
    assert(imp.len() <= um.len());
    assert(um.len() + 2 * matched.len() == n);
    assert forall|x: u64| entities.contains(x) implies shuf.contains(x) by {
        assert(entities.to_multiset().count(x) > 0);
        assert(shuf.to_multiset().count(x) > 0);
    }
    assert forall|alt: Seq<(u64, u64)>| novel_pair_matching(alt, entities, hist) implies imp.len()
        + 2 * alt.len() <= n by {
        let pick = |u: u64| choose|i: int| 0 <= i < shuf.len() && shuf[i] == u;
        let malt = Seq::new(
            alt.len(),
            |k: int|
                {
                    let i = pick(alt[k].0);
                    let j = pick(alt[k].1);
                    if i < j {
                        (i as usize, j as usize)
                    } else {
                        (j as usize, i as usize)
                    }
                },
        );
        assert forall|k: int| 0 <= k < alt.len() implies 0 <= pick((#[trigger] alt[k]).0) < n
            && shuf[pick(alt[k].0)] == alt[k].0 && 0 <= pick(alt[k].1) < n && shuf[pick(alt[k].1)]
            == alt[k].1 by {
            assert(entities.contains(alt[k].0) && entities.contains(alt[k].1));
            assert(shuf.contains(alt[k].0));
            assert(shuf.contains(alt[k].1));
        }
        assert forall|k: int| 0 <= k < malt.len() implies ((shuf[(#[trigger] malt[k]).0 as int]
            == alt[k].0 && shuf[malt[k].1 as int] == alt[k].1) || (shuf[malt[k].0 as int]
            == alt[k].1 && shuf[malt[k].1 as int] == alt[k].0)) && malt[k].0 < malt[k].1 && malt[k].1
            < n by {
            let i = pick(alt[k].0);
            let j = pick(alt[k].1);
            assert(i != j) by {
                if i == j {
                    assert(shuf[i] == alt[k].0 && shuf[j] == alt[k].1);
                    assert(alt[k].0 != alt[k].1);
                }
            }
        }
        assert(is_sub_matching(malt, edges)) by {
            assert forall|k: int| 0 <= k < malt.len() implies edges.contains(#[trigger] malt[k]) by {
                lemma_were_matched_sym(hist, alt[k].0, alt[k].1);
                assert(!were_matched(hist, shuf[malt[k].0 as int], shuf[malt[k].1 as int]));
            }
            assert forall|k1: int, k2: int|
                #![trigger malt[k1], malt[k2]]
                0 <= k1 < malt.len() && 0 <= k2 < malt.len() && k1 != k2 implies malt[k1].0
                != malt[k2].0 && malt[k1].0 != malt[k2].1 && malt[k1].1 != malt[k2].0 && malt[k1].1
                != malt[k2].1 by {
                assert(alt[k1].0 != alt[k2].0 && alt[k1].0 != alt[k2].1 && alt[k1].1 != alt[k2].0
                    && alt[k1].1 != alt[k2].1);
            }
        }
        assert(malt.len() <= matched.len());
    }
}

/// Having met before does not depend on the order of the two participants.
pub proof fn lemma_were_matched_sym(hist: Seq<Seq<u64>>, u: u64, v: u64)
    ensures
        were_matched(hist, u, v) == were_matched(hist, v, u),
{
    if were_matched(hist, u, v) {
        let k = choose|k: int|
            0 <= k < hist.len() && #[trigger] hist[k].contains(u) && hist[k].contains(v);
        assert(hist[k].contains(v) && hist[k].contains(u));
    }
    if were_matched(hist, v, u) {
        let k = choose|k: int|
            0 <= k < hist.len() && #[trigger] hist[k].contains(v) && hist[k].contains(u);
        assert(hist[k].contains(u) && hist[k].contains(v));
    }
}

/// Lists the participants standing at every member of the given node
/// groups, group by group.
fn entities_of_members(shuf: &Vec<u64>, gs: &Vec<Vec<usize>>) -> (r: Vec<u64>)
    requires
        groups_below(gs.deep_view(), shuf@.len() as int),
    ensures
        r@ == gs.deep_view().flatten().map_values(id_to_entity(shuf@)),
{
    proof {
        lemma_deep_view_groups(*gs);
    }
    let glen = gs.len();
    let mut r: Vec<u64> = Vec::new();
    let mut w: usize = 0;
    while w < glen
        invariant
            glen == gs@.len(),
            w <= glen,
            groups_below(gs.deep_view(), shuf@.len() as int),
            gs.deep_view().len() == gs@.len(),
            forall|u: int| 0 <= u < gs@.len() ==> gs.deep_view()[u] == gs@[u]@,
            r@ == gs.deep_view().take(w as int).flatten().map_values(id_to_entity(shuf@)),
        decreases glen - w,
    {
        let g = &gs[w];
        let ilen = g.len();
        let ghost pre = gs.deep_view().take(w as int).flatten();
        let mut t: usize = 0;
        while t < ilen
            invariant
                w < glen,
                glen == gs@.len(),
                groups_below(gs.deep_view(), shuf@.len() as int),
                gs.deep_view().len() == gs@.len(),
                forall|u: int| 0 <= u < gs@.len() ==> gs.deep_view()[u] == gs@[u]@,
                g@ == gs.deep_view()[w as int],
                ilen == g@.len(),
                t <= ilen,
                pre == gs.deep_view().take(w as int).flatten(),
                r@ == (pre + g@.take(t as int)).map_values(id_to_entity(shuf@)),
            decreases ilen - t,
        {
            let x = g[t];
            proof {
                assert(gs.deep_view()[w as int][t as int] == g@[t as int]);
                assert(g@[t as int] < shuf@.len());
            }
            r.push(shuf[x]);
            proof {
                assert(pre + g@.take(t as int + 1) =~= (pre + g@.take(t as int)).push(
                    g@[t as int],
                ));
                assert(r@ =~= (pre + g@.take(t as int + 1)).map_values(id_to_entity(shuf@)));
            }
            t += 1;
        }
        proof {
            assert(g@.take(ilen as int) =~= g@);
            gs.deep_view().take(w as int).lemma_flatten_push(g@);
            assert(gs.deep_view().take(w as int + 1) =~= gs.deep_view().take(w as int).push(g@));
            assert(r@ =~= gs.deep_view().take(w as int + 1).flatten().map_values(
                id_to_entity(shuf@),
            ));
        }
        w += 1;
    }
    proof {
        assert(gs.deep_view().take(glen as int) =~= gs.deep_view());
    }
    r
}

/// Creates matches from the participant list (some triples may be created
/// if necessary), avoiding repeats of the given historical matches wherever
/// a maximum-cardinality matching of the repeat-free candidate graph allows
/// it; leftover participants are paired among themselves and reported as
/// imperfect, and a lone leftover joins the already formed match it has met
/// the fewest members of.
///
/// When every pair of participants has already met, no repeat-free match
/// exists at all and the engine reports `SolverInvariantViolation` rather
/// than degrading.
#[verifier::rlimit(100)]
pub fn graph_pair(vec: Vec<u64>, previous_pairings: &Vec<Match>, seed: u64) -> (r: Result<
    Pairing,
    PairError,
>)
    requires
        vec@.no_duplicates(),
    ensures
        r == Err::<Pairing, PairError>(PairError::InsufficientParticipants) <==> vec@.len() < 2,
        r == Err::<Pairing, PairError>(PairError::TooManyParticipants) <==> vec@.len() > 200,
        r == Err::<Pairing, PairError>(PairError::SolverInvariantViolation) <==> (2 <= vec@.len()
            <= 200 && fully_constrained(vec@, previous_pairings.deep_view())),
        r is Ok <==> (2 <= vec@.len() <= 200 && !fully_constrained(
            vec@,
            previous_pairings.deep_view(),
        )),
        r matches Ok(p) ==> p.0.deep_view() == pairing_spec(
            vec@,
            previous_pairings.deep_view(),
            seed,
        ).0,
        r matches Ok(p) ==> p.1@ == pairing_spec(vec@, previous_pairings.deep_view(), seed).1,
        r matches Ok(p) ==> p.members().to_multiset() == vec@.to_multiset(),
        r matches Ok(p) ==> forall|w: int|
            0 <= w < p.0.deep_view().len() ==> (#[trigger] p.0.deep_view()[w].len() == 2
                || p.0.deep_view()[w].len() == 3),
        r matches Ok(p) ==> forall|w1: int, w2: int|
            #![trigger p.0.deep_view()[w1], p.0.deep_view()[w2]]
            0 <= w1 < p.0.deep_view().len() && 0 <= w2 < p.0.deep_view().len() && w1 != w2 ==> !(
            p.0.deep_view()[w1].len() == 3 && p.0.deep_view()[w2].len() == 3),
        r matches Ok(p) ==> (vec@.len() % 2 == 0 ==> forall|w: int|
            0 <= w < p.0.deep_view().len() ==> #[trigger] p.0.deep_view()[w].len() == 2),
        r matches Ok(p) ==> (vec@.len() % 2 == 1 ==> has_triple(p.0.deep_view())),
        r matches Ok(p) ==> forall|e: u64| #[trigger]
            p.1@.contains(e) ==> in_imperfect_match(
                p.0.deep_view(),
                previous_pairings.deep_view(),
                e,
            ),
        r matches Ok(p) ==> ((vec@.len() % 2 == 0 || pairing_spec(
            vec@,
            previous_pairings.deep_view(),
            seed,
        ).2 == 0) ==> forall|e: u64|
            in_imperfect_match(p.0.deep_view(), previous_pairings.deep_view(), e)
                ==> #[trigger] p.1@.contains(e)),
        r matches Ok(p) ==> forall|alt: Seq<(u64, u64)>|
            novel_pair_matching(alt, vec@, previous_pairings.deep_view()) ==> p.1@.len() + 2
                * alt.len() <= vec@.len(),
{
    let ghost entities = vec@;
    let ghost hist = previous_pairings.deep_view();
    let n = vec.len();
    if n < 2 {
        return Err(PairError::InsufficientParticipants);
    }
    if n > 200 {
        return Err(PairError::TooManyParticipants);
    }
    let shuf = shuffled(vec, seed);
    proof {
        broadcast use vstd::seq_lib::group_to_multiset_ensures;

        entities.lemma_multiset_has_no_duplicates();
        assert(shuf@.len() == shuf@.to_multiset().len());
        assert(entities.len() == entities.to_multiset().len());
        assert(shuf@.len() == entities.len());
        assert forall|x: u64| shuf@.to_multiset().contains(x) implies shuf@.to_multiset().count(x)
            == 1 by {
            assert(entities.to_multiset().contains(x));
        }
        shuf@.lemma_multiset_has_no_duplicates_conv();
        assert forall|x: u64| shuf@.contains(x) == entities.contains(x) by {
            assert(shuf@.contains(x) <==> shuf@.to_multiset().count(x) > 0);
            assert(entities.contains(x) <==> entities.to_multiset().count(x) > 0);
        }
    }
    let cs = build_constraints(&shuf, previous_pairings);
    let edges = build_candidates(n, &cs);
    let ghost keep_cs = unconstrained_of(cs@);
    let ghost keep_sem = novel_at(shuf@, hist);
    let ghost cands = candidates_of(keep_sem, n as int);
    proof {
        assert forall|a: int, b: int| 0 <= a < b < n as int implies #[trigger] keep_cs(a, b)
            == #[trigger] keep_sem(a, b) by {
            let au = a as usize;
            let bu = b as usize;
            assert(keep_cs(a, b) == !has_edge(cs@, au, bu));
            assert(keep_sem(a, b) == !were_matched(hist, shuf@[a], shuf@[b]));
            assert(has_edge(cs@, au, bu) <==> were_matched(
                hist,
                shuf@[au as int],
                shuf@[bu as int],
            ));
        }
        lemma_candidates_congruence(keep_cs, keep_sem, n as int, n as int);
        assert(edges@ == cands);
    }
    let matched = max_matching(n, &edges);
    if matched.len() == 0 {
        proof {
            lemma_candidates_membership(keep_sem, n as int, n as int);
            assert forall|u: u64, v: u64|
                entities.contains(u) && entities.contains(v) && u != v implies were_matched(
                hist,
                u,
                v,
            ) by {
                assert(shuf@.contains(u) && shuf@.contains(v));
                let i = choose|i: int| 0 <= i < shuf@.len() && shuf@[i] == u;
                let j = choose|j: int| 0 <= j < shuf@.len() && shuf@[j] == v;
                if !were_matched(hist, u, v) {
                    lemma_were_matched_sym(hist, u, v);
                    let a = if i < j {
                        i
                    } else {
                        j
                    };
                    let b = if i < j {
                        j
                    } else {
                        i
                    };
                    assert(a < b);
                    assert(!were_matched(hist, shuf@[a], shuf@[b]));
                    assert(keep_sem(a, b));
                    let e = (a as usize, b as usize);
                    assert(cands.contains(e));
                    let m1 = seq![e];
                    assert(is_sub_matching(m1, edges@)) by {
                        assert(m1[0] == e);
                    }
                    assert(m1.len() <= matched@.len());
                    assert(false);
                }
            }
            assert(fully_constrained(entities, hist));
        }
        return Err(PairError::SolverInvariantViolation);
    }
    proof {
        // the matching holds an edge, so some pair of participants is novel
        lemma_candidates_membership(keep_sem, n as int, n as int);
        let e0 = matched@[0];
        assert(edges@.contains(e0));
        assert(keep_sem(e0.0 as int, e0.1 as int));
        assert(!fully_constrained(entities, hist)) by {
            let u = shuf@[e0.0 as int];
            let v = shuf@[e0.1 as int];
            assert(shuf@.contains(u) && shuf@.contains(v));
            assert(entities.contains(u) && entities.contains(v));
            assert(u != v) by {
                if u == v {
                    assert(shuf@[e0.0 as int] == shuf@[e0.1 as int]);
                    assert(shuf@.no_duplicates());
                }
            }
            assert(keep_sem(e0.0 as int, e0.1 as int) == !were_matched(
                hist,
                shuf@[e0.0 as int],
                shuf@[e0.1 as int],
            ));
            assert(!were_matched(hist, u, v));
            if fully_constrained(entities, hist) {
                assert(were_matched(hist, u, v));
            }
        }
    }
    let (bulk, remainder) = pair_unmatched(n, &matched);
    let ghost um = unmatched_upto(matched@, n as int);
    // the matched node pairs as groups open to receiving the remainder
    let mut groups: Vec<Vec<usize>> = Vec::new();
    let mlen = matched.len();
    let mut k: usize = 0;
    while k < mlen
        invariant
            mlen == matched@.len(),
            k <= mlen,
            groups.deep_view() == pair_groups(matched@.take(k as int)),
        decreases mlen - k,
    {
        let e = matched[k];
        let ghost gvs = groups@;
        let ghost gdeep = groups.deep_view();
        groups.push(vec![e.0, e.1]);
        proof {
            assert(gdeep == pair_groups(matched@.take(k as int)));
            assert forall|u: int| 0 <= u < groups@.len() implies groups@[u].deep_view()
                == gdeep.push(seq![e.0, e.1])[u] by {
                if u < gvs.len() {
                    assert(groups@[u] == gvs[u]);
                    assert(gdeep[u] == gvs[u].deep_view());
                } else {
                    assert(groups@[u]@ =~= seq![e.0, e.1]);
                    assert(groups@[u].deep_view() =~= groups@[u]@);
                }
            }
            assert(groups.deep_view() =~= gdeep.push(seq![e.0, e.1]));
            assert(matched@.take(k as int + 1) =~= matched@.take(k as int).push(e));
            assert(pair_groups(matched@.take(k as int + 1)) =~= gdeep.push(seq![e.0, e.1]));
        }
        k += 1;
    }
    proof {
        assert(matched@.take(mlen as int) =~= matched@);
    }
    let ghost ms = pair_groups(matched@);
    let (withrem, score) = add_remainder_to_pairing(groups, remainder, &cs);
    proof {
        lemma_unmatched_props(matched@, n as int);
        assert forall|w: int| 0 <= w < matched@.len() implies (#[trigger] matched@[w]).0 < n
            && matched@[w].1 < n && matched@[w].0 != matched@[w].1 by {
            assert(edges@.contains(matched@[w]));
        }
        if remainder is Some {
            let rv = remainder->0;
            assert(rv == rem_of(um)->0);
            assert(um.len() % 2 == 1);
            assert(um[um.len() - 1] == um.last());
            assert(um.contains(um.last()));
            assert(!is_endpoint(matched@, rv));
            assert(rv < n);
            // the stored constraints and history agree on every member
            assert forall|w: int, t: int|
                #![trigger ms[w][t]]
                0 <= w < ms.len() && 0 <= t < ms[w].len() implies con_of(cs@, rv)(ms[w][t])
                == sem_con(shuf@, hist, rv)(ms[w][t]) by {
                assert(ms[w] == seq![matched@[w].0, matched@[w].1]);
                let x = ms[w][t];
                assert(x == matched@[w].0 || x == matched@[w].1);
                assert(x < n);
                assert(x != rv) by {
                    if x == rv {
                        assert(is_endpoint(matched@, rv));
                    }
                }
                assert(has_edge(cs@, x, rv) <==> were_matched(
                    hist,
                    shuf@[x as int],
                    shuf@[rv as int],
                ));
            }
            lemma_best_congruence(con_of(cs@, rv), sem_con(shuf@, hist, rv), ms, ms.len() as int);
            lemma_best_props(sem_con(shuf@, hist, rv), ms, ms.len() as int);
        }
    }
    // translate the node groups back to participants: solver matches (with
    // the absorbed remainder) first, then the leftover pairs
    let mut out: Vec<Vec<u64>> = Vec::new();
    proof {
        let b = best_upto(sem_con(shuf@, hist, rem_of(um)->0), ms, ms.len() as int);
        assert(groups_below(withrem.deep_view(), n as int)) by {
            if remainder is Some {
                assert forall|w: int, t: int|
                    #![trigger withrem.deep_view()[w][t]]
                    0 <= w < withrem.deep_view().len() && 0 <= t < withrem.deep_view()[w].len()
                    implies withrem.deep_view()[w][t] < n by {
                    assert(withrem.deep_view() == ms.update(b, ms[b].push(rem_of(um)->0)));
                    if w == b {
                        assert(withrem.deep_view()[w] == ms[b].push(rem_of(um)->0));
                        assert(ms[b] == seq![matched@[b].0, matched@[b].1]);
                    } else {
                        assert(withrem.deep_view()[w] == ms[w]);
                        assert(ms[w] == seq![matched@[w].0, matched@[w].1]);
                    }
                }
            } else {
                assert forall|w: int, t: int|
                    #![trigger withrem.deep_view()[w][t]]
                    0 <= w < withrem.deep_view().len() && 0 <= t < withrem.deep_view()[w].len()
                    implies withrem.deep_view()[w][t] < n by {
                    assert(withrem.deep_view()[w] == ms[w]);
                    assert(ms[w] == seq![matched@[w].0, matched@[w].1]);
                }
            }
        }
        assert(groups_below(bulk.deep_view(), n as int)) by {
            lemma_pair_chunks_props(um, um.len() - (um.len() % 2));
            assert forall|w: int, t: int|
                #![trigger bulk.deep_view()[w][t]]
                0 <= w < bulk.deep_view().len() && 0 <= t < bulk.deep_view()[w].len()
                implies bulk.deep_view()[w][t] < n by {
                assert(bulk.deep_view()[w] == seq![um[2 * w], um[2 * w + 1]]);
                assert(um.contains(um[2 * w]) && um.contains(um[2 * w + 1]));
            }
        }
    }
    append_entity_groups(&shuf, &withrem, &mut out);
    append_entity_groups(&shuf, &bulk, &mut out);
    // the leftover participants could not avoid repeats; a remainder that
    // met someone in its host match is imperfect as well
    let mut imperfect = entities_of_members(&shuf, &bulk);
    match remainder {
        Some(rv) => {
            if score > 0 {
                proof {
                    assert(rv < n);
                }
                imperfect.push(shuf[rv]);
            }
        },
        None => {},
    }
    proof {
        let spec_r = pairing_spec(entities, hist, seed);
        assert(shuf@.len() as usize == n);
        assert(ms == pair_groups(max_matching_of(n, cands)));
        if remainder is Some {
            let rv = rem_of(um)->0;
            let con = sem_con(shuf@, hist, rv);
            let b = best_upto(con, ms, ms.len() as int);
            assert(withrem.deep_view() == ms.update(b, ms[b].push(rv)));
            assert(out.deep_view() =~= ids_to_entities(shuf@, withrem.deep_view() + bulk.deep_view()));
            assert(score as int == match_score(con, ms[b]));
            assert(rv == um.last());
            if score > 0 {
                assert(imperfect@ =~= bulk.deep_view().flatten().map_values(id_to_entity(shuf@))
                    + seq![shuf@[rv as int]]);
            } else {
                assert(imperfect@ =~= bulk.deep_view().flatten().map_values(id_to_entity(shuf@))
                    + Seq::<u64>::empty());
            }
            assert(out.deep_view() == spec_r.0);
            assert(imperfect@ == spec_r.1);
            assert(score as int == spec_r.2);
        } else {
            assert(um.len() % 2 != 1);
            assert(withrem.deep_view() == ms);
            assert(out.deep_view() =~= ids_to_entities(shuf@, ms + bulk.deep_view()));
            assert(imperfect@ =~= bulk.deep_view().flatten().map_values(id_to_entity(shuf@)));
            assert(out.deep_view() == spec_r.0);
            assert(imperfect@ == spec_r.1);
            assert(score as int == spec_r.2);
        }
    }
    proof {
        let rv = rem_of(um)->0;
        let con = sem_con(shuf@, hist, rv);
        let b = best_upto(con, ms, ms.len() as int);
        if um.len() % 2 == 1 {
            lemma_best_props(con, ms, ms.len() as int);
        }
        lemma_final_assembly(
            entities,
            shuf@,
            matched@,
            edges@,
            withrem.deep_view(),
            bulk.deep_view(),
            out.deep_view(),
            n,
            b,
            rv,
        );
        assert(vec@.len() % 2 == 1 ==> has_triple(out.deep_view())) by {
            if vec@.len() % 2 == 1 {
                assert(0 <= b < out.deep_view().len() && out.deep_view()[b].len() == 3);
            }
        }
        assert forall|e: (usize, usize)| #[trigger]
            edges@.contains(e) <==> (e.0 < e.1 && e.1 < n && !were_matched(
                hist,
                shuf@[e.0 as int],
                shuf@[e.1 as int],
            )) by {
            lemma_candidates_membership(keep_sem, n as int, n as int);
            assert(keep_sem(e.0 as int, e.1 as int) == !were_matched(
                hist,
                shuf@[e.0 as int],
                shuf@[e.1 as int],
            ));
        }
        if um.len() % 2 == 1 {
            assert(score as int == match_score(con, ms[b]));
        }
        lemma_imperfect_props(
            hist,
            shuf@,
            matched@,
            edges@,
            withrem.deep_view(),
            bulk.deep_view(),
            out.deep_view(),
            imperfect@,
            n,
            b,
            rv,
            score as int,
        );
        lemma_novelty_bound(
            entities,
            hist,
            shuf@,
            matched@,
            edges@,
            imperfect@,
            n,
            rv,
            score as int,
        );
    }
    Ok(Pairing(out, imperfect))
}

/// Consecutive shuffled pairs, with a lone leftover absorbed into the last
/// pair.
pub open spec fn chunk_pairs(s: Seq<u64>) -> Seq<Seq<u64>> {
    let k = s.len() - (s.len() % 2);
    let pairs = pair_chunks_upto(s, k);
    if s.len() % 2 == 1 {
        pairs.update(pairs.len() - 1, pairs.last().push(s.last()))
    } else {
        pairs
    }
}

/// The chunked pairs lay the sequence out exactly once, in order.
pub proof fn lemma_chunk_pairs_flatten(s: Seq<u64>)
    requires
        s.len() >= 2,
    ensures
        chunk_pairs(s).flatten() == s,
{
    let k = s.len() - (s.len() % 2);
    let pairs = pair_chunks_upto(s, k);
    lemma_pair_chunks_props(s, k as int);
    lemma_pair_chunks_flatten(s, k as int);
    if s.len() % 2 == 1 {
        let cur = chunk_pairs(s);
        let v = pairs.last().push(s.last());
        assert(cur =~= pairs.drop_last().push(v));
        assert(pairs =~= pairs.drop_last().push(pairs.last()));
        pairs.drop_last().lemma_flatten_push(v);
        pairs.drop_last().lemma_flatten_push(pairs.last());
        assert(pairs.drop_last().flatten() + pairs.last() == s.take(k as int));
        assert(cur.flatten() == pairs.drop_last().flatten() + v);
        assert(pairs.drop_last().flatten() + v =~= (pairs.drop_last().flatten()
            + pairs.last()).push(s.last()));
        assert(cur.flatten() == s.take(k as int).push(s.last()));
        assert(s.take(k as int).push(s.last()) =~= s);
    } else {
        assert(s.take(k as int) =~= s);
    }
}

/// Creates matches from the participant list by simple chunking of the
/// shuffled order (up to one triple is created if there is not an even
/// number), with no attention to history: the imperfect list stays empty.
pub fn random_pair(vec: Vec<u64>, seed: u64) -> (r: Pairing)
    requires
        vec@.len() >= 2,
    ensures
        r.0.deep_view() == chunk_pairs(shuffle_of(vec@, seed)),
        r.1@ == Seq::<u64>::empty(),
        r.members() == shuffle_of(vec@, seed),
        r.members().to_multiset() == vec@.to_multiset(),
        r.0@.len() == vec@.len() / 2,
        forall|w: int| 0 <= w < r.0@.len() - 1 ==> #[trigger] r.0.deep_view()[w].len() == 2,
        r.0.deep_view().last().len() == (if vec@.len() % 2 == 1 {
            3int
        } else {
            2int
        }),
{
    let shuf = shuffled(vec, seed);
    proof {
        broadcast use vstd::seq_lib::group_to_multiset_ensures;

        assert(shuf@.len() == shuf@.to_multiset().len());
        assert(vec@.len() == vec@.to_multiset().len());
        assert(shuf@.len() == vec@.len());
    }
    let n = shuf.len();
    let mut x: Vec<Vec<u64>> = Vec::new();
    let mut i: usize = 0;
    while i + 1 < n
        invariant
            n == shuf@.len(),
            n >= 2,
            i % 2 == 0,
            i <= n,
            x.deep_view() == pair_chunks_upto(shuf@, i as int),
            x@.len() * 2 == i,
        decreases n - i,
    {
        let a = shuf[i];
        let b = shuf[i + 1];
        let ghost xvs = x@;
        let ghost xdeep = x.deep_view();
        x.push(vec![a, b]);
        proof {
            assert forall|u: int| 0 <= u < x@.len() implies x@[u].deep_view() == xdeep.push(
                seq![a, b],
            )[u] by {
                if u < xvs.len() {
                    assert(x@[u] == xvs[u]);
                    assert(xdeep[u] == xvs[u].deep_view());
                } else {
                    assert(x@[u]@ =~= seq![a, b]);
                    assert(x@[u].deep_view() =~= x@[u]@);
                }
            }
            assert(x.deep_view() =~= xdeep.push(seq![a, b]));
            assert(pair_chunks_upto(shuf@, i as int + 2) == pair_chunks_upto(shuf@, i as int)
                + seq![seq![shuf@[i as int], shuf@[i as int + 1]]]);
            assert(x.deep_view() =~= pair_chunks_upto(shuf@, i as int + 2));
        }
        i += 2;
    }
    let ghost k = shuf@.len() - (shuf@.len() % 2);
    proof {
        assert(i as int == k);
        lemma_pair_chunks_props(shuf@, k as int);
    }
    if n % 2 == 1 {
        let last = shuf[n - 1];
        let ghost xvs = x@;
        let ghost xdeep = x.deep_view();
        let mut g = match x.pop() {
            Some(g) => g,
            None => {
                proof {
                    assert(false);
                }
                Vec::new()
            },
        };
        g.push(last);
        let ghost gview = g@;
        x.push(g);
        proof {
            assert(x@ =~= xvs.update(xvs.len() - 1, x@[x@.len() - 1]));
            assert forall|u: int| 0 <= u < x@.len() implies x@[u].deep_view() == xdeep.update(
                xdeep.len() - 1,
                xdeep.last().push(last),
            )[u] by {
                if u < xvs.len() - 1 {
                    assert(x@[u] == xvs[u]);
                    assert(xdeep[u] == xvs[u].deep_view());
                } else {
                    assert(x@[u] == g);
                    assert(gview == xvs[xvs.len() - 1]@.push(last));
                    assert(xdeep.last() == xvs[xvs.len() - 1].deep_view());
                    assert(xvs[xvs.len() - 1].deep_view() =~= xvs[xvs.len() - 1]@);
                    assert(g.deep_view() =~= gview);
                }
            }
            assert(x.deep_view() =~= xdeep.update(xdeep.len() - 1, xdeep.last().push(last)));
            assert(x.deep_view() =~= chunk_pairs(shuf@));
        }
    } else {
        proof {
            assert(x.deep_view() == chunk_pairs(shuf@));
        }
    }
    let r = Pairing(x, Vec::new());
    proof {
        lemma_chunk_pairs_flatten(shuf@);
        assert(r.1@ =~= Seq::<u64>::empty());
        assert(r.members() == shuf@);
        let pairs = pair_chunks_upto(shuf@, k as int);
        assert(pairs.len() == k as int / 2);
        assert(k >= 2);
        assert(chunk_pairs(shuf@).len() == shuf@.len() / 2);
        assert(pairs[k as int / 2 - 1] == seq![shuf@[k as int - 2], shuf@[k as int - 1]]);
        assert(pairs.last().len() == 2);
        if shuf@.len() % 2 == 1 {
            assert(chunk_pairs(shuf@).last() == pairs.last().push(shuf@.last()));
            assert(chunk_pairs(shuf@).last().len() == 3);
        } else {
            assert(chunk_pairs(shuf@).last().len() == 2);
        }
        assert forall|w: int| 0 <= w < r.0@.len() - 1 implies #[trigger] r.0.deep_view()[w].len()
            == 2 by {
            assert(r.0.deep_view()[w] == pairs[w]);
            assert(pairs[w] == seq![shuf@[2 * w], shuf@[2 * w + 1]]);
        }
    }
    r
}

/// Checksum determinism: a pairing pinned to the engine's specification is
/// unique, so two independent invocations over the same participants,
/// history and seed agree match for match, and any checksum taken over them
/// agrees as well.
pub proof fn lemma_determinism(
    entities: Seq<u64>,
    hist: Seq<Seq<u64>>,
    seed: u64,
    p1: Pairing,
    p2: Pairing,
)
    requires
        p1.0.deep_view() == pairing_spec(entities, hist, seed).0,
        p1.1@ == pairing_spec(entities, hist, seed).1,
        p2.0.deep_view() == pairing_spec(entities, hist, seed).0,
        p2.1@ == pairing_spec(entities, hist, seed).1,
    ensures
        p1.0.deep_view() == p2.0.deep_view(),
        p1.1@ == p2.1@,
        crate::helpers::checksum_of(seed, p1.0.deep_view()) == crate::helpers::checksum_of(
            seed,
            p2.0.deep_view(),
        ),
{
}

} // verus!
