//! The purpose filter: set-intersection logic used by consumers to select
//! subjects by their extended key usages.

use vstd::prelude::*;
use crate::der::Identifier;

verus! {

/// Whether a subject with the given usage identifiers matches a wanted
/// set: an empty wanted set matches everything, and otherwise the subject
/// matches exactly when some usage identifier is among the wanted ones.
pub open spec fn sp_matches(ekus: Seq<Seq<u8>>, wanted: Seq<Seq<u8>>) -> bool {
    wanted.len() == 0 || exists|i: int, j: int|
        #![trigger ekus[i], wanted[j]]
        0 <= i < ekus.len() && 0 <= j < wanted.len() && ekus[i] == wanted[j]
}

/// Decides whether a subject with usage identifiers `subject_ekus` matches
/// the caller's wanted set: true when `wanted` is empty, and otherwise
/// true exactly when the two share an identifier.  Pure and total;
/// duplicates carry no weight.
pub fn purpose_matches(subject_ekus: &Vec<Identifier>, wanted: &Vec<Identifier>) -> (r: bool)
    ensures
        r == sp_matches(
            subject_ekus@.map_values(|x: Identifier| x@),
            wanted@.map_values(|x: Identifier| x@),
        ),
{
    let ghost ekus_v = subject_ekus@.map_values(|x: Identifier| x@);
    let ghost wanted_v = wanted@.map_values(|x: Identifier| x@);
    if wanted.len() == 0 {
        return true;
    }
    let mut i: usize = 0;
    while i < subject_ekus.len()
        invariant
            i <= subject_ekus@.len(),
            ekus_v == subject_ekus@.map_values(|x: Identifier| x@),
            wanted_v == wanted@.map_values(|x: Identifier| x@),
            wanted@.len() > 0,
            forall|a: int, b: int|
                #![trigger ekus_v[a], wanted_v[b]]
                0 <= a < i && 0 <= b < wanted_v.len() ==> ekus_v[a] != wanted_v[b],
        decreases subject_ekus@.len() - i,
    {
        let mut j: usize = 0;
        while j < wanted.len()
            invariant
                i < subject_ekus@.len(),
                j <= wanted@.len(),
                ekus_v == subject_ekus@.map_values(|x: Identifier| x@),
                wanted_v == wanted@.map_values(|x: Identifier| x@),
                forall|b: int| 0 <= b < j ==> ekus_v[i as int] != #[trigger] wanted_v[b],
            decreases wanted@.len() - j,
        {
            if subject_ekus[i] == wanted[j] {
                proof {
                    assert(ekus_v[i as int] == wanted_v[j as int]);
                }
                return true;
            }
            j = j + 1;
        }
        i = i + 1;
    }
    proof {
        assert(!(exists|a: int, b: int|
            #![trigger ekus_v[a], wanted_v[b]]
            0 <= a < ekus_v.len() && 0 <= b < wanted_v.len() && ekus_v[a] == wanted_v[b]));
    }
    false
}

} // verus!
