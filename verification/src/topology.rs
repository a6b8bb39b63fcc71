//! Loading the territory adjacency graph (`targets.json`): a JSON array whose i-th
//! entry lists the neighbours of territory i.

use std::collections::HashMap;
use vstd::prelude::*;

verus! {

broadcast use vstd::std_specs::hash::group_hash_axioms;

/// What `serde_json::from_str::<Vec<Vec<u16>>>` reads from a text: the arrays of
/// numbers it holds, or nothing when the text is not such a JSON document.
pub uninterp spec fn json_u16_arrays(text: Seq<char>) -> Option<Seq<Seq<u16>>>;

/// Calls `serde_json::from_str::<Vec<Vec<u16>>>` on `text`; a parse error becomes
/// `None`. The result is named `json_u16_arrays`: it depends on the text alone.
#[verifier::external_body]
fn parse_u16_arrays(text: &str) -> (r: Option<Vec<Vec<u16>>>)
    ensures
        r is Some <==> json_u16_arrays(text@) is Some,
        r matches Some(v) ==> v.deep_view() == json_u16_arrays(text@).unwrap(),
{
    serde_json::from_str::<Vec<Vec<u16>>>(text).ok()
}

/// The adjacency graph whose territory `i` has the neighbours `arrays[i]`.
pub fn targets_from_arrays(arrays: Vec<Vec<u16>>) -> (targets: HashMap<u16, Vec<u16>>)
    requires
        arrays.len() <= 65536,
    ensures
        forall|t: u16| #[trigger] targets@.contains_key(t) <==> t < arrays.len(),
        forall|t: u16| #[trigger] targets@.contains_key(t) ==> targets@[t]@ == arrays@[t as int]@,
{
    let ghost input = arrays@;
    let mut targets: HashMap<u16, Vec<u16>> = HashMap::new();
    let mut arrays = arrays;
    while arrays.len() > 0
        invariant
            input.len() <= 65536,
            arrays@ == input.take(arrays@.len() as int),
            arrays@.len() <= input.len(),
            forall|t: u16| #[trigger] targets@.contains_key(t) <==> arrays@.len() <= t < input.len(),
            forall|t: u16| #[trigger] targets@.contains_key(t) ==> targets@[t]@ == input[t as int]@,
        decreases arrays.len(),
    {
        let i = arrays.len() - 1;
        let nbrs = arrays.pop().unwrap();
        assert(nbrs == input[i as int]);
        targets.insert(i as u16, nbrs);
        assert(arrays@ =~= input.take(arrays@.len() as int));
    }
    targets
}

/// The adjacency graph read from the JSON text of `targets.json`; `None` when the
/// text is not an array of arrays of territory ids, or lists more than 65536
/// territories.
pub fn targets_data_from_json(text: &str) -> (r: Option<HashMap<u16, Vec<u16>>>)
    ensures
        r is Some <==> (json_u16_arrays(text@) is Some && json_u16_arrays(text@).unwrap().len() <= 65536),
        r matches Some(targets) ==> {
            let a = json_u16_arrays(text@).unwrap();
            &&& forall|t: u16| #[trigger] targets@.contains_key(t) <==> t < a.len()
            &&& forall|t: u16| #[trigger] targets@.contains_key(t) ==> targets@[t]@ == a[t as int]
        },
{
    match parse_u16_arrays(text) {
        None => None,
        Some(arrays) => {
            if arrays.len() > 65536 {
                return None;
            }
            let ghost a = arrays.deep_view();
            proof {
                assert forall|q: int| 0 <= q < arrays@.len() implies #[trigger] arrays@[q]@ == a[q] by {}
            }
            Some(targets_from_arrays(arrays))
        }
    }
}

} // verus!
