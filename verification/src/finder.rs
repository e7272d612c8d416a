//! Resolving a search hit back to the corpus.

use vstd::prelude::*;
use crate::contents::File;
use crate::vector::SearchResult;

verus! {

/// Whether some document in `files` has path `path` and one of its chunks
/// equals `text`.
pub open spec fn resolvable(files: Seq<File>, path: Seq<char>, text: Seq<char>) -> bool {
    exists|i: int|
        0 <= i < files.len() && (#[trigger] files[i]).path@ == path
            && files[i].sentences@.map_values(|s: String| s@).contains(text)
}

/// Resolves a search hit against the corpus: the payload's source path must
/// name a document whose chunks include the payload's text. The matched
/// chunk's text is returned; `None` when the hit is stale.
pub fn get_contents(files: &Vec<File>, result: &SearchResult) -> (r: Option<String>)
    ensures
        r is Some <==> resolvable(files@, result.payload.source_path@, result.payload.text@),
        r is Some ==> r->Some_0@ == result.payload.text@,
{
    let n = files.len();
    let mut i: usize = 0;
    while i < n
        invariant
            i <= n,
            n == files@.len(),
            forall|a: int|
                0 <= a < i ==> !((#[trigger] files@[a]).path@ == result.payload.source_path@
                    && files@[a].sentences@.map_values(|s: String| s@).contains(
                    result.payload.text@,
                )),
        decreases n - i,
    {
        if files[i].path == result.payload.source_path {
            let m = files[i].sentences.len();
            let mut b: usize = 0;
            while b < m
                invariant
                    b <= m,
                    i < files@.len(),
                    m == files@[i as int].sentences@.len(),
                    files@[i as int].path@ == result.payload.source_path@,
                    forall|c: int|
                        0 <= c < b ==> (#[trigger] files@[i as int].sentences@[c])@
                            != result.payload.text@,
                decreases m - b,
            {
                if files[i].sentences[b] == result.payload.text {
                    let found = files[i].sentences[b].clone();
                    proof {
                        let mapped = files@[i as int].sentences@.map_values(|s: String| s@);
                        assert(mapped[b as int] == result.payload.text@);
                        assert(mapped.contains(result.payload.text@));
                        assert((#[trigger] files@[i as int]).path@ == result.payload.source_path@);
                        assert(resolvable(
                            files@,
                            result.payload.source_path@,
                            result.payload.text@,
                        ));
                    }
                    return Some(found);
                }
                b = b + 1;
            }
            proof {
                let mapped = files@[i as int].sentences@.map_values(|s: String| s@);
                assert forall|c: int| 0 <= c < mapped.len() implies mapped[c]
                    != result.payload.text@ by {
                    assert(mapped[c] == files@[i as int].sentences@[c]@);
                }
                assert(!mapped.contains(result.payload.text@));
            }
        }
        i = i + 1;
    }
    None
}

} // verus!
