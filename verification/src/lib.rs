//! Build-to-build source diversification: declare a function as several
//! candidate bodies, select exactly one per build (uniformly at random or
//! deterministically from a build fingerprint), emit only the survivor, and
//! optionally vary the emitted text with semantics-preserving obfuscation.
//! A separate runtime layer dispatches among live implementations per call.
use vstd::prelude::*;

pub mod dispatch;
pub mod errors;
pub mod fingerprint;
pub mod obfuscation;
pub mod registry;
mod rng;
pub mod synthesis;
pub mod text;
pub mod selection;

use errors::BuildError;
use obfuscation::{essence, obfuscate, ObfuscationConfig};
use registry::{parse, parse_declaration};
use selection::{deterministic_index, SelectionPolicy};
use synthesis::{synthesize_lines, synthesized_lines};

verus! {

/// The whole build-time pipeline on one declaration: parse it, let the
/// policy pick the surviving candidate, synthesize the function with exactly
/// that body, and run the synthesized lines through the obfuscation
/// pipeline. Fails exactly when the declaration does not parse, with the
/// grammar's error. On success the output's essence equals that of the
/// synthesized function for one in-range candidate — under the
/// deterministic policy, for precisely the fingerprint-selected candidate —
/// so no other candidate leaves any trace in the emitted text.
pub fn polymorphic_fn(
    declaration: &Vec<u8>,
    policy: &SelectionPolicy,
    config: &ObfuscationConfig,
) -> (r: Result<Vec<Vec<u8>>, BuildError>)
    ensures
        (r is Ok) == (parse_declaration(declaration@) is Ok),
        r is Err ==> Result::<registry::DeclarationView, BuildError>::Err(r->Err_0)
            == parse_declaration(declaration@),
        r is Ok ==> exists|i: int|
            0 <= i < parse_declaration(declaration@)->Ok_0.variants.len() && essence(
                r->Ok_0.deep_view(),
            ) == essence(
                synthesized_lines(
                    parse_declaration(declaration@)->Ok_0.signature,
                    #[trigger] parse_declaration(declaration@)->Ok_0.variants[i],
                ),
            ) && (policy matches SelectionPolicy::DeterministicHash(h) ==> i
                == deterministic_index(
                h.fingerprint@,
                parse_declaration(declaration@)->Ok_0.variants.len() as int,
            )),
{
    let decl = match parse(declaration) {
        Err(e) => {
            return Err(e);
        },
        Ok(d) => d,
    };
    let selected = policy.select(decl.variants.len());
    let lines = match synthesize_lines(&decl.signature, &decl.variants, selected) {
        Err(e) => {
            return Err(e);
        },
        Ok(ls) => ls,
    };
    proof {
        assert(lines.deep_view().len() == 3);
    }
    let out = obfuscate(&lines, config);
    proof {
        assert(decl@.variants[selected as int] == decl.variants@[selected as int].body@);
        assert(0 <= selected < parse_declaration(declaration@)->Ok_0.variants.len());
    }
    Ok(out)
}

} // verus!
