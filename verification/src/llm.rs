//! The compute side of the generation boundary: building the augmented
//! prompt, turning one streamed delta into its text fragment, and the fixed
//! fallback when a stream could not be started. The network calls themselves
//! stay outside the library.

use vstd::prelude::*;
use vstd::string::*;

verus! {

/// The augmented prompt handed to the generation model: the question, the
/// retrieved context, and an instruction to be concise.
pub open spec fn spec_prompt(prompt: Seq<char>, contents: Seq<char>) -> Seq<char> {
    prompt + "\n"@ + "Context: "@ + contents + "\n"@ + "Be concise."@
}

/// Builds the augmented prompt for a question and its retrieved context.
pub fn build_prompt(prompt: &str, contents: &str) -> (r: String)
    ensures
        r@ == spec_prompt(prompt@, contents@),
{
    let mut s = String::new();
    s.append(prompt);
    s.append("\n");
    s.append("Context: ");
    s.append(contents);
    s.append("\n");
    s.append("Be concise.");
    proof {
        assert(s@ =~= spec_prompt(prompt@, contents@));
    }
    s
}

/// The text of one streamed fragment: the concatenation, over a delta's
/// choices, of each choice's content, with a newline standing in for a
/// choice that carries no text, so that line spacing survives.
pub open spec fn spec_fragment(choices: Seq<Option<String>>) -> Seq<char>
    decreases choices.len(),
{
    if choices.len() == 0 {
        Seq::empty()
    } else {
        (match choices[0] {
            Option::Some(s) => s@,
            Option::None => seq!['\n'],
        }) + spec_fragment(choices.drop_first())
    }
}

/// Turns the choices of one streamed delta into the fragment relayed to the
/// caller: a choice with no textual content becomes a newline, never nothing.
pub fn completion_fragment(choices: &Vec<Option<String>>) -> (r: String)
    ensures
        r@ == spec_fragment(choices@),
{
    let mut s = String::new();
    let mut i: usize = 0;
    proof {
        assert(choices@.skip(0) =~= choices@);
    }
    while i < choices.len()
        invariant
            i <= choices@.len(),
            spec_fragment(choices@) == s@ + spec_fragment(choices@.skip(i as int)),
        decreases choices@.len() - i,
    {
        proof {
            let rest = choices@.skip(i as int);
            assert(rest.len() > 0);
            assert(rest[0] == choices@[i as int]);
            assert(rest.drop_first() =~= choices@.skip(i as int + 1));
        }
        let ghost prev = s@;
        if let Option::Some(c) = &choices[i] {
            s.append(c.as_str());
            proof {
                assert(s@ == prev + c@);
            }
        } else {
            s.append("\n");
            proof {
                reveal_strlit("\n");
                assert(s@ =~= prev + seq!['\n']);
            }
        }
        i = i + 1;
    }
    proof {
        assert(spec_fragment(choices@.skip(choices@.len() as int)) == Seq::<char>::empty());
        assert(s@ + Seq::<char>::empty() =~= s@);
    }
    s
}

/// The fixed user-facing message when generation could not be started.
pub open spec fn spec_fallback_message() -> Seq<char> {
    "Error with your prompt"@
}

/// When the generation request itself fails, the caller receives exactly one
/// fragment, this fixed message, instead of a functional stream.
pub fn error_stream_contents() -> (r: Vec<String>)
    ensures
        r@.len() == 1,
        r@[0]@ == spec_fallback_message(),
{
    let mut v: Vec<String> = Vec::new();
    v.push("Error with your prompt".to_owned());
    v
}

} // verus!
