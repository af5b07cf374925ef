//! Pure decision points of the file orchestrator. The orchestrator itself
//! walks paths, opens files and prompts on the terminal; what it decides —
//! which output name a file gets, whether a file is eligible for decryption,
//! whether an existing output demands confirmation — is computed here, on
//! plain bytes, with no I/O.

use vstd::prelude::*;
use vstd::slice::slice_subrange;
use vstd::slice::slice_to_vec;

verus! {

/// The byte of the `.` that joins a file name and the configured extension.
pub const DOT: u8 = 46;

/// The name an encrypted file is written under: the source file's name, a
/// dot, the configured extension.
pub fn encrypted_name(base: &Vec<u8>, ext: &Vec<u8>) -> (r: Vec<u8>)
    ensures
        r@ == base@ + seq![DOT] + ext@,
{
    let mut out: Vec<u8> = Vec::new();
    out.extend_from_slice(base.as_slice());
    out.push(DOT);
    out.extend_from_slice(ext.as_slice());
    proof {
        assert(out@ =~= base@ + seq![DOT] + ext@);
    }
    out
}

/// Whether a file name is eligible for decryption: it must end with the
/// configured suffix, and the name with the suffix stripped is the output
/// name. A name without the suffix yields nothing — the orchestrator skips
/// such a file with a notice rather than failing.
pub fn strip_suffix_name(name: &Vec<u8>, suffix: &Vec<u8>) -> (r: Option<Vec<u8>>)
    ensures
        r is Some <==> suffix@.len() <= name@.len() && name@.skip(
            name@.len() - suffix@.len(),
        ) == suffix@,
        r matches Some(base) ==> base@ == name@.take(name@.len() - suffix@.len()),
{
    if suffix.len() > name.len() {
        return None;
    }
    let start = name.len() - suffix.len();
    let mut i: usize = 0;
    while i < suffix.len()
        invariant
            name@.len() <= usize::MAX,
            suffix@.len() <= name@.len(),
            start == name@.len() - suffix@.len(),
            i <= suffix@.len(),
            forall|j: int| 0 <= j < i ==> name@[start + j] == suffix@[j],
        decreases suffix@.len() - i,
    {
        if name[start + i] != suffix[i] {
            proof {
                assert(name@.skip(start as int)[i as int] != suffix@[i as int]);
            }
            return None;
        }
        i = i + 1;
    }
    proof {
        assert(name@.skip(start as int) =~= suffix@);
    }
    Some(slice_to_vec(slice_subrange(name.as_slice(), 0, start)))
}

/// The pure would-overwrite check point: an existing output file demands a
/// confirmation unless the force flag waives it. The prompting itself is the
/// orchestrator's business, never done here.
pub fn needs_confirmation(output_exists: bool, force: bool) -> (r: bool)
    ensures
        r == (output_exists && !force),
{
    output_exists && !force
}

} // verus!
