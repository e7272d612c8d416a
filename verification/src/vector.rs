//! The vector index: stores embedding vectors with their payloads and answers
//! nearest-neighbour queries by descending similarity score. Embedding
//! coordinates are fixed-point integers; the score is the dot product.

use vstd::prelude::*;

verus! {

/// What the index stores beside each vector: where the chunk came from and
/// its text.
pub struct Payload {
    pub source_path: String,
    pub text: String,
}

/// One stored vector: an identifier, the embedding values, and the payload.
pub struct EmbeddingVector {
    pub id: u64,
    pub values: Vec<i32>,
    pub payload: Payload,
}

/// One search hit: the stored vector's id, its similarity score against the
/// query, and its payload.
pub struct SearchResult {
    pub id: u64,
    pub score: i128,
    pub payload: Payload,
}

/// The dot product of two coordinate sequences of equal length.
pub open spec fn spec_dot(a: Seq<i32>, b: Seq<i32>) -> int
    decreases a.len(),
{
    if a.len() == 0 || b.len() == 0 {
        0
    } else {
        a[0] * b[0] + spec_dot(a.drop_first(), b.drop_first())
    }
}

/// A dot product of `i32` coordinates is bounded by `2^62` per coordinate
/// pair.
pub proof fn lemma_dot_bound(a: Seq<i32>, b: Seq<i32>)
    ensures
        -0x4000000000000000 * a.len() <= spec_dot(a, b) <= 0x4000000000000000 * a.len(),
    decreases a.len(),
{
    if a.len() == 0 || b.len() == 0 {
    } else {
        let x = a[0] as int;
        let y = b[0] as int;
        assert(-0x4000000000000000 <= x * y <= 0x4000000000000000) by (nonlinear_arith)
            requires
                -0x80000000 <= x <= 0x7fffffff,
                -0x80000000 <= y <= 0x7fffffff,
        ;
        lemma_dot_bound(a.drop_first(), b.drop_first());
        if b.len() < a.len() {
            lemma_dot_nonneg_tail(a.drop_first(), b.drop_first());
        }
    }
}

/// When the second sequence is shorter, the tail past its end contributes
/// nothing; this keeps the bound in terms of `a.len()` alone.
proof fn lemma_dot_nonneg_tail(a: Seq<i32>, b: Seq<i32>)
    ensures
        -0x4000000000000000 * b.len() <= spec_dot(a, b) <= 0x4000000000000000 * b.len(),
    decreases a.len(),
{
    if a.len() == 0 || b.len() == 0 {
    } else {
        let x = a[0] as int;
        let y = b[0] as int;
        assert(-0x4000000000000000 <= x * y <= 0x4000000000000000) by (nonlinear_arith)
            requires
                -0x80000000 <= x <= 0x7fffffff,
                -0x80000000 <= y <= 0x7fffffff,
        ;
        lemma_dot_nonneg_tail(a.drop_first(), b.drop_first());
    }
}

/// The dot product of two equal-length coordinate vectors.
pub fn dot(a: &Vec<i32>, b: &Vec<i32>) -> (r: i128)
    requires
        a@.len() == b@.len(),
    ensures
        r as int == spec_dot(a@, b@),
{
    let n = a.len();
    let mut acc: i128 = 0;
    let mut i: usize = 0;
    proof {
        assert(a@.skip(0) =~= a@);
        assert(b@.skip(0) =~= b@);
        lemma_dot_bound(a@, b@);
    }
    while i < n
        invariant
            i <= n,
            n == a@.len(),
            a@.len() == b@.len(),
            spec_dot(a@, b@) == acc + spec_dot(a@.skip(i as int), b@.skip(i as int)),
            -0x4000000000000000 * (i as int) <= acc <= 0x4000000000000000 * (i as int),
        decreases n - i,
    {
        let ghost sa = a@.skip(i as int);
        let ghost sb = b@.skip(i as int);
        proof {
            assert(sa.len() > 0 && sb.len() > 0);
            assert(sa[0] == a@[i as int] && sb[0] == b@[i as int]);
            assert(sa.drop_first() =~= a@.skip(i as int + 1));
            assert(sb.drop_first() =~= b@.skip(i as int + 1));
        }
        let x = a[i];
        let y = b[i];
        proof {
            assert(-0x4000000000000000 <= (x as int) * (y as int) <= 0x4000000000000000)
                by (nonlinear_arith)
                requires
                    -0x80000000 <= x as int <= 0x7fffffff,
                    -0x80000000 <= y as int <= 0x7fffffff,
            ;
            assert(0x4000000000000000 * (i as int) + 0x4000000000000000 == 0x4000000000000000 * (
            i as int + 1)) by (nonlinear_arith);
            assert(0x4000000000000000 * (i as int + 1) <= 0x4000000000000000 * 0xffffffffffffffff)
                by (nonlinear_arith)
                requires
                    0 <= i as int + 1 <= 0xffffffffffffffff,
            ;
        }
        let p: i128 = (x as i128) * (y as i128);
        acc = acc + p;
        i = i + 1;
    }
    proof {
        assert(a@.skip(n as int).len() == 0);
    }
    acc
}

/// The first position in `m` whose entry carries `id`, or `-1` if none does.
pub open spec fn find_id(m: Seq<EmbeddingVector>, id: u64) -> int
    decreases m.len(),
{
    if m.len() == 0 {
        -1
    } else if m[0].id == id {
        0
    } else if find_id(m.drop_first(), id) == -1 {
        -1
    } else {
        find_id(m.drop_first(), id) + 1
    }
}

/// `find_id` stays within `-1` and the length of the entries.
pub proof fn lemma_find_id_range(m: Seq<EmbeddingVector>, id: u64)
    ensures
        -1 <= find_id(m, id) < m.len(),
    decreases m.len(),
{
    if m.len() == 0 {
    } else if m[0].id == id {
    } else {
        lemma_find_id_range(m.drop_first(), id);
    }
}

/// `find_id` returns `-1` exactly when no entry carries `id`; otherwise it
/// returns the first position that does.
pub proof fn lemma_find_id(m: Seq<EmbeddingVector>, id: u64)
    ensures
        find_id(m, id) == -1 ==> forall|i: int| 0 <= i < m.len() ==> m[i].id != id,
        find_id(m, id) != -1 ==> {
            &&& 0 <= find_id(m, id) < m.len()
            &&& m[find_id(m, id)].id == id
            &&& forall|i: int| 0 <= i < find_id(m, id) ==> m[i].id != id
        },
    decreases m.len(),
{
    if m.len() == 0 {
    } else if m[0].id == id {
    } else {
        lemma_find_id(m.drop_first(), id);
        assert(forall|i: int| 0 < i < m.len() ==> m[i] == m.drop_first()[i - 1]);
    }
}

/// What upsert does to the stored entries: replace the entry that already
/// carries the id, or append a new one.
pub open spec fn spec_upsert(m: Seq<EmbeddingVector>, v: EmbeddingVector) -> Seq<EmbeddingVector> {
    if find_id(m, v.id) == -1 {
        m.push(v)
    } else {
        m.update(find_id(m, v.id), v)
    }
}

proof fn lemma_find_id_push_absent(m: Seq<EmbeddingVector>, v: EmbeddingVector)
    requires
        find_id(m, v.id) == -1,
    ensures
        find_id(m.push(v), v.id) == m.len(),
    decreases m.len(),
{
    if m.len() == 0 {
        assert(m.push(v)[0] == v);
    } else {
        assert(m.push(v)[0] == m[0]);
        assert(m.push(v).drop_first() =~= m.drop_first().push(v));
        lemma_find_id_range(m.drop_first(), v.id);
        lemma_find_id_push_absent(m.drop_first(), v);
    }
}

proof fn lemma_find_id_update(m: Seq<EmbeddingVector>, k: int, v: EmbeddingVector)
    requires
        find_id(m, v.id) == k,
        0 <= k < m.len(),
    ensures
        find_id(m.update(k, v), v.id) == k,
    decreases m.len(),
{
    lemma_find_id(m, v.id);
    if k == 0 {
        assert(m.update(0, v)[0] == v);
    } else {
        assert(m.update(k, v)[0] == m[0]);
        assert(m.update(k, v).drop_first() =~= m.drop_first().update(k - 1, v));
        assert(find_id(m.drop_first(), v.id) == k - 1);
        lemma_find_id_update(m.drop_first(), k - 1, v);
    }
}

/// Upserting twice with the same id leaves exactly what the second upsert
/// alone would: a repeated id overwrites the prior payload and values.
pub proof fn lemma_upsert_overwrites(
    m: Seq<EmbeddingVector>,
    v1: EmbeddingVector,
    v2: EmbeddingVector,
)
    requires
        v1.id == v2.id,
    ensures
        spec_upsert(spec_upsert(m, v1), v2) == spec_upsert(m, v2),
{
    let k = find_id(m, v1.id);
    if k == -1 {
        lemma_find_id_push_absent(m, v1);
        let m1 = m.push(v1);
        assert(find_id(m1, v2.id) == m.len());
        assert(m1.update(m.len() as int, v2) =~= m.push(v2));
    } else {
        lemma_find_id(m, v1.id);
        lemma_find_id_update(m, k, v1);
        let m1 = m.update(k, v1);
        assert(find_id(m1, v2.id) == k);
        assert(m1.update(k, v2) =~= m.update(k, v2));
    }
}

/// The search result a stored entry yields for a query.
pub open spec fn result_of(e: EmbeddingVector, q: Seq<i32>) -> SearchResult {
    SearchResult { id: e.id, score: spec_dot(q, e.values@) as i128, payload: e.payload }
}

/// `r` holds the results of `r.len()` distinct entries, those at positions
/// `idx`, and every entry not selected scores no better than the last (and
/// lowest-scoring) result: `r` is a best-first selection.
pub open spec fn topk_selection(
    es: Seq<EmbeddingVector>,
    q: Seq<i32>,
    idx: Seq<int>,
    r: Seq<SearchResult>,
) -> bool {
    &&& idx.len() == r.len()
    &&& (forall|t: int| 0 <= t < idx.len() ==> 0 <= #[trigger] idx[t] < es.len())
    &&& (forall|t1: int, t2: int| 0 <= t1 < t2 < idx.len() ==> idx[t1] != idx[t2])
    &&& (forall|t: int| 0 <= t < idx.len() ==> r[t] == result_of(es[#[trigger] idx[t]], q))
    &&& (forall|j: int|
        0 <= j < es.len() && !idx.contains(j) && r.len() > 0 ==> spec_dot(
            q,
            (#[trigger] es[j]).values@,
        ) <= r[r.len() - 1].score as int)
}

/// Whether some position of `rem` holds the index `j`.
spec fn in_remaining(rem: Seq<usize>, j: int) -> bool {
    exists|t: int| 0 <= t < rem.len() && rem[t] as int == j
}

/// The in-memory vector index: entries with distinct ids and one shared
/// dimensionality.
pub struct VectorDB {
    entries: Vec<EmbeddingVector>,
}

impl View for VectorDB {
    type V = Seq<EmbeddingVector>;

    closed spec fn view(&self) -> Seq<EmbeddingVector> {
        self.entries@
    }
}

impl VectorDB {
    /// The shared length of the stored coordinate vectors.
    pub open spec fn spec_dim(self) -> nat {
        if self@.len() == 0 {
            0
        } else {
            self@[0].values@.len()
        }
    }

    /// No two entries carry the same id, and every entry's coordinates have
    /// the shared dimensionality.
    pub open spec fn wf(self) -> bool {
        &&& forall|i: int, j: int| 0 <= i < j < self@.len() ==> self@[i].id != self@[j].id
        &&& forall|i: int| 0 <= i < self@.len() ==> (#[trigger] self@[i].values)@.len()
            == self.spec_dim()
    }

    /// An empty index.
    pub fn new() -> (db: VectorDB)
        ensures
            db@.len() == 0,
            db.wf(),
    {
        VectorDB { entries: Vec::new() }
    }

    /// Destroys all stored vectors.
    pub fn reset_collection(&mut self)
        ensures
            final(self)@.len() == 0,
            final(self).wf(),
    {
        self.entries.clear();
    }

    /// Stores `vector`, overwriting the entry that already carries its id, if
    /// any. Idempotent on the id: a repeated id replaces values and payload.
    pub fn upsert_embedding(&mut self, vector: EmbeddingVector)
        requires
            old(self).wf(),
            old(self)@.len() > 0 ==> vector.values@.len() == old(self).spec_dim(),
        ensures
            final(self)@ == spec_upsert(old(self)@, vector),
            final(self).wf(),
            final(self)@.len() > 0,
    {
        let ghost m = self.entries@;
        let n = self.entries.len();
        let mut k: usize = 0;
        while k < n && self.entries[k].id != vector.id
            invariant
                k <= n,
                n == self.entries@.len(),
                self.entries@ == m,
                forall|j: int| 0 <= j < k ==> m[j].id != vector.id,
            decreases n - k,
        {
            k = k + 1;
        }
        proof {
            lemma_find_id(m, vector.id);
        }
        if k < n {
            proof {
                assert(m[k as int].id == vector.id);
                assert(find_id(m, vector.id) == k as int);
            }
            self.entries[k] = vector;
            proof {
                assert(self.entries@ =~= spec_upsert(m, vector));
            }
        } else {
            proof {
                assert(find_id(m, vector.id) == -1);
            }
            self.entries.push(vector);
            proof {
                assert(self.entries@ =~= spec_upsert(m, vector));
            }
        }
    }

    /// How many vectors are stored.
    pub fn len(&self) -> (n: usize)
        ensures
            n == self@.len(),
    {
        self.entries.len()
    }

    /// The shared length of the stored coordinate vectors; zero while the
    /// index is empty.
    pub fn dim(&self) -> (d: usize)
        ensures
            d == self.spec_dim(),
    {
        if self.entries.len() == 0 {
            0
        } else {
            self.entries[0].values.len()
        }
    }

    /// The stored entries that score best against `query`, best first, at
    /// most `top_k` of them. An empty index yields an empty sequence, never
    /// an error.
    pub fn search(&self, query: &Vec<i32>, top_k: usize) -> (r: Vec<SearchResult>)
        requires
            self.wf(),
            self@.len() > 0 ==> query@.len() == self.spec_dim(),
        ensures
            r@.len() == if top_k as int <= self@.len() as int {
                top_k as int
            } else {
                self@.len() as int
            },
            self@.len() == 0 ==> r@.len() == 0,
            forall|a: int, b: int| 0 <= a < b < r@.len() ==> r@[a].score >= r@[b].score,
            exists|idx: Seq<int>| topk_selection(self@, query@, idx, r@),
    {
        let n = self.entries.len();
        let k = if top_k <= n {
            top_k
        } else {
            n
        };
        let mut remaining: Vec<usize> = Vec::new();
        let mut i: usize = 0;
        while i < n
            invariant
                i <= n,
                remaining@.len() == i,
                forall|u: int| 0 <= u < i ==> remaining@[u] == u,
            decreases n - i,
        {
            remaining.push(i);
            i = i + 1;
        }
        let mut out: Vec<SearchResult> = Vec::new();
        let ghost mut idx: Seq<int> = Seq::empty();
        proof {
            assert forall|j: int| 0 <= j < n implies in_remaining(remaining@, j) by {
                assert(remaining@[j] as int == j);
            }
        }
        while out.len() < k
            invariant
                self.wf(),
                n == self@.len(),
                k <= n,
                self@.len() > 0 ==> query@.len() == self.spec_dim(),
                out@.len() + remaining@.len() == n,
                out@.len() <= k,
                forall|u: int| 0 <= u < remaining@.len() ==> (#[trigger] remaining@[u]) < n,
                forall|u1: int, u2: int|
                    0 <= u1 < u2 < remaining@.len() ==> remaining@[u1] != remaining@[u2],
                idx.len() == out@.len(),
                forall|t: int| 0 <= t < idx.len() ==> 0 <= #[trigger] idx[t] < n,
                forall|t1: int, t2: int| 0 <= t1 < t2 < idx.len() ==> idx[t1] != idx[t2],
                forall|t: int|
                    0 <= t < idx.len() ==> out@[t] == result_of(self@[#[trigger] idx[t]], query@),
                forall|j: int| 0 <= j < n ==> idx.contains(j) || in_remaining(remaining@, j),
                forall|u: int|
                    0 <= u < remaining@.len() ==> !idx.contains((#[trigger] remaining@[u]) as int),
                forall|a: int, b: int| 0 <= a < b < out@.len() ==> out@[a].score >= out@[b].score,
                out@.len() > 0 ==> forall|u: int|
                    0 <= u < remaining@.len() ==> spec_dot(
                        query@,
                        self@[(#[trigger] remaining@[u]) as int].values@,
                    ) <= out@[out@.len() - 1].score as int,
            decreases k - out.len(),
        {
            let rlen = remaining.len();
            let mut best_t: usize = 0;
            let mut best_score: i128 = dot(query, &self.entries[remaining[0]].values);
            let mut t: usize = 1;
            while t < rlen
                invariant
                    self.wf(),
                    n == self@.len(),
                    n > 0,
                    query@.len() == self.spec_dim(),
                    rlen == remaining@.len(),
                    1 <= t <= rlen,
                    best_t < t,
                    forall|u: int| 0 <= u < remaining@.len() ==> (#[trigger] remaining@[u]) < n,
                    best_score as int == spec_dot(
                        query@,
                        self@[remaining@[best_t as int] as int].values@,
                    ),
                    forall|u: int|
                        0 <= u < t ==> spec_dot(
                            query@,
                            self@[(#[trigger] remaining@[u]) as int].values@,
                        ) <= best_score as int,
                decreases rlen - t,
            {
                let s = dot(query, &self.entries[remaining[t]].values);
                if s > best_score {
                    best_score = s;
                    best_t = t;
                }
                t = t + 1;
            }
            let ghost rem1 = remaining@;
            let j = remaining.remove(best_t);
            let ghost rem2 = remaining@;
            proof {
                assert(forall|u: int| 0 <= u < best_t ==> rem2[u] == rem1[u]);
                assert(forall|u: int|
                    best_t <= u < rem2.len() ==> #[trigger] rem2[u] == rem1[u + 1]);
            }
            let e = &self.entries[j];
            let res = SearchResult {
                id: e.id,
                score: best_score,
                payload: Payload {
                    source_path: e.payload.source_path.clone(),
                    text: e.payload.text.clone(),
                },
            };
            proof {
                assert(res == result_of(self@[j as int], query@));
            }
            let ghost out1 = out@;
            let ghost idx1 = idx;
            out.push(res);
            proof {
                idx = idx.push(j as int);
                assert(idx.last() == j as int);
                assert(forall|t: int| 0 <= t < idx1.len() ==> idx[t] == idx1[t]);
                assert(!idx1.contains(j as int));
                // every index is still accounted for on one side
                assert forall|jj: int| 0 <= jj < n implies idx.contains(jj) || in_remaining(
                    rem2,
                    jj,
                ) by {
                    if idx1.contains(jj) {
                        let t0 = choose|t0: int| 0 <= t0 < idx1.len() && idx1[t0] == jj;
                        assert(idx[t0] == jj);
                    } else if jj == j as int {
                        assert(idx[idx.len() - 1] == jj);
                    } else {
                        assert(in_remaining(rem1, jj));
                        let t0 = choose|t0: int| 0 <= t0 < rem1.len() && rem1[t0] as int == jj;
                        if t0 < best_t as int {
                            assert(rem2[t0] as int == jj);
                        } else {
                            assert(rem1[best_t as int] == j);
                            assert(t0 != best_t as int);
                            assert(rem2[t0 - 1] as int == jj);
                        }
                    }
                }
                // the selected index leaves the remaining side
                assert forall|u: int| 0 <= u < rem2.len() implies !idx.contains(
                    (#[trigger] rem2[u]) as int,
                ) by {
                    let uu = if u < best_t as int {
                        u
                    } else {
                        u + 1
                    };
                    assert(rem2[u] == rem1[uu]);
                    assert(rem1[uu] != rem1[best_t as int]);
                    assert(!idx1.contains(rem1[uu] as int));
                    assert forall|t0: int| 0 <= t0 < idx.len() implies idx[t0] != rem2[u] as int by {
                        if t0 < idx1.len() {
                            assert(idx1[t0] != rem1[uu] as int);
                        }
                    }
                }
                // the new last result bounds every remaining entry's score
                assert(spec_dot(query@, self@[j as int].values@) <= best_score as int);
                if out1.len() > 0 {
                    assert(best_score as int <= out1[out1.len() - 1].score as int);
                }
                assert(out@[out@.len() - 1] == res);
            }
        }
        proof {
            assert(topk_selection(self@, query@, idx, out@));
        }
        out
    }
}

} // verus!
