//! Properties of the fields of a schema at any depth.

use vstd::prelude::*;

use crate::packet::{case_body, lemma_case_height, CaseBody};
use crate::schema::{branch_height, branches_of, lemma_schema_height, schema_height, BranchView};

verus! {

/// Whether a property holds of the fields of a schema at any depth, those that
/// cases describe included.
pub open spec fn everywhere(holds: spec_fn(BranchView) -> bool, schema: Seq<BranchView>) -> bool {
    everywhere_from(holds, schema, 0)
}

/// Whether a property holds at any depth from field `i` of a schema on.
pub open spec fn everywhere_from(
    holds: spec_fn(BranchView) -> bool,
    schema: Seq<BranchView>,
    i: nat,
) -> bool
    decreases schema_height(schema), 2nat, schema.len() - i,
{
    if i >= schema.len() {
        true
    } else {
        proof {
            lemma_schema_height(schema, i as int);
        }
        everywhere_in(holds, schema[i as int]) && everywhere_from(holds, schema, i + 1)
    }
}

/// Whether a property holds of a field and of those within it.
pub open spec fn everywhere_in(holds: spec_fn(BranchView) -> bool, field: BranchView) -> bool
    decreases branch_height(field), 1nat, 0nat,
{
    &&& holds(field)
    &&& match field.branches {
        Some(nested) => everywhere_from(holds, nested, 0),
        None => true,
    }
    &&& everywhere_in_cases(holds, field, 0)
}

/// Whether a property holds of the fields that a case of a field describes.
pub open spec fn everywhere_in_cases(
    holds: spec_fn(BranchView) -> bool,
    field: BranchView,
    k: nat,
) -> bool
    decreases branch_height(field), 0nat, field.match_cases->0.len() - k,
{
    if field.match_cases is None || k >= field.match_cases->0.len() {
        true
    } else {
        proof {
            lemma_case_height(field, k as int);
        }
        &&& match case_body(
            field.match_cases->0[k as int].0,
            field.match_cases->0[k as int].1,
        ) {
            CaseBody::Fields(_, items) => match branches_of(items) {
                Some(nested) => everywhere_from(holds, nested, 0),
                None => true,
            },
            _ => true,
        }
        &&& everywhere_in_cases(holds, field, k + 1)
    }
}

/// What holds everywhere holds of the fields of each case.
pub proof fn lemma_everywhere_in_case(
    holds: spec_fn(BranchView) -> bool,
    field: BranchView,
    i: nat,
    k: nat,
)
    requires
        everywhere_in_cases(holds, field, i),
        field.match_cases is Some,
        i <= k < field.match_cases->0.len(),
    ensures
        case_body(
            field.match_cases->0[k as int].0,
            field.match_cases->0[k as int].1,
        ) matches CaseBody::Fields(_, items) ==> (branches_of(items) matches Some(nested)
            ==> everywhere(holds, nested)),
    decreases k - i,
{
    if i < k {
        lemma_everywhere_in_case(holds, field, i + 1, k);
    }
}

} // verus!
