//! Retrieval for one query: find the best-scoring chunk in the index and
//! resolve it against the corpus. Embedding the query and streaming the
//! answer are network work and stay outside the library.

use vstd::prelude::*;
use crate::contents::File;
use crate::errors::PromptError;
use crate::finder;
use crate::vector::EmbeddingVector;
use crate::vector::Payload;
use crate::vector::VectorDB;
use crate::vector::spec_dot;
use crate::vector::topk_selection;
use crate::vector::lemma_dot_bound;

verus! {

/// The retrieved context for a query: the best-scoring chunk's text and the
/// path of the document it came from.
pub struct Context {
    pub text: String,
    pub source_path: String,
}

/// Whether entry `j` scores at least as well against `q` as every stored
/// entry.
pub open spec fn is_best(es: Seq<EmbeddingVector>, q: Seq<i32>, j: int) -> bool {
    &&& 0 <= j < es.len()
    &&& forall|i: int|
        0 <= i < es.len() ==> spec_dot(q, (#[trigger] es[i]).values@) <= spec_dot(
            q,
            es[j].values@,
        )
}

/// Whether a payload still resolves in the corpus.
pub open spec fn payload_resolvable(files: Seq<File>, p: Payload) -> bool {
    finder::resolvable(files, p.source_path@, p.text@)
}

/// Retrieval for one query embedding: search the index for the single
/// best-scoring chunk and resolve it against the corpus. Fails, rather than
/// falling back silently, when the index is empty or the best hit's payload
/// names no document and chunk still in the corpus.
pub fn answer_context(files: &Vec<File>, db: &VectorDB, query: &Vec<i32>) -> (r: Result<
    Context,
    PromptError,
>)
    requires
        db.wf(),
        db@.len() > 0 ==> query@.len() == db.spec_dim(),
    ensures
        db@.len() == 0 ==> r is Err,
        r is Ok ==> exists|j: int|
            #[trigger] is_best(db@, query@, j) && r->Ok_0.text@ == db@[j].payload.text@
                && r->Ok_0.source_path@ == db@[j].payload.source_path@ && payload_resolvable(
                files@,
                db@[j].payload,
            ),
        r is Err ==> db@.len() == 0 || exists|j: int|
            #[trigger] is_best(db@, query@, j) && !payload_resolvable(files@, db@[j].payload),
        db@.len() > 0 && (forall|j: int|
            #[trigger] is_best(db@, query@, j) ==> payload_resolvable(files@, db@[j].payload))
            ==> r is Ok,
{
    let qn = query.len();
    let results = db.search(query, 1);
    if results.len() == 0 {
        return Err(PromptError {});
    }
    let ghost jj: int = {
        let idx = choose|idx: Seq<int>| topk_selection(db@, query@, idx, results@);
        idx[0]
    };
    proof {
        let idx = choose|idx: Seq<int>| topk_selection(db@, query@, idx, results@);
        assert(results@[0] == crate::vector::result_of(db@[idx[0]], query@));
        lemma_dot_bound(query@, db@[idx[0]].values@);
        assert(0x4000000000000000 * (qn as int) < 0x80000000000000000000000000000000)
            by (nonlinear_arith)
            requires
                0 <= qn as int <= 0xffffffffffffffff,
        ;
        assert(results@[0].score as int == spec_dot(query@, db@[idx[0]].values@));
        assert forall|i: int| 0 <= i < db@.len() implies spec_dot(query@, db@[i].values@)
            <= spec_dot(query@, db@[jj].values@) by {
            if i != idx[0] {
                assert forall|t: int| 0 <= t < idx.len() implies idx[t] != i by {
                    assert(idx[0] != i);
                }
                assert(!idx.contains(i));
                assert(spec_dot(query@, db@[i].values@) <= results@[0].score as int);
            }
        }
        assert(is_best(db@, query@, jj));
    }
    let best = &results[0];
    match finder::get_contents(files, best) {
        Option::Some(text) => {
            let source_path = best.payload.source_path.clone();
            proof {
                assert(text@ == db@[jj].payload.text@);
                assert(source_path@ == db@[jj].payload.source_path@);
                assert(payload_resolvable(files@, db@[jj].payload));
            }
            Ok(Context { text, source_path })
        },
        Option::None => {
            proof {
                assert(!payload_resolvable(files@, db@[jj].payload));
            }
            Err(PromptError {})
        },
    }
}

} // verus!
