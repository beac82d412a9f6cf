use std::collections::HashMap;

use vstd::prelude::*;

use crate::check::ast::Pattern;
use crate::diagnostic::Diagnostic;
use crate::source::Span;

verus! {

broadcast use vstd::std_specs::hash::group_hash_axioms;

/// Most specialization nodes one program may contain.
pub const SPECIALIZATION_LIMIT: usize = 65536;

/// Identifiers of the values a pattern binds.
pub open spec fn pattern_value_ids(pattern: Pattern) -> Set<u32>
    decreases pattern, 0nat,
{
    match pattern {
        Pattern::Binding { binding, .. } => set![binding.id.0],
        Pattern::Wildcard { .. } => Set::empty(),
        Pattern::Product { elements, .. } => element_value_ids(elements@, 0),
    }
}

pub open spec fn element_value_ids(elements: Seq<Pattern>, from: nat) -> Set<u32>
    decreases elements, elements.len() - from,
{
    if from >= elements.len() {
        Set::empty()
    } else {
        pattern_value_ids(elements[from as int]).union(element_value_ids(elements, from + 1))
    }
}

/// `after` is `before` with every identifier of `ids` mapped to `item`.
pub open spec fn records_bindings(before: Map<u32, usize>, ids: Set<u32>, item: usize, after: Map<
    u32,
    usize,
>) -> bool {
    &&& after.dom() == before.dom().union(ids)
    &&& forall|k: u32| #[trigger] after.contains_key(k) ==> after[k] == if ids.contains(k) {
        item
    } else {
        before[k]
    }
}

/// Records that each value a pattern binds belongs to body item `item`.
pub fn collect_pattern_bindings(pattern: &Pattern, item: usize, bindings: &mut HashMap<u32, usize>)
    ensures
        records_bindings(old(bindings)@, pattern_value_ids(*pattern), item, final(bindings)@),
    decreases pattern, 1nat,
{
    match pattern {
        Pattern::Binding { binding, .. } => {
            bindings.insert(binding.id.0, item);
            proof {
                assert(bindings@.dom() =~= old(bindings)@.dom().union(set![binding.id.0]));
            }
        },
        Pattern::Product { elements, .. } => {
            collect_element_bindings(elements, item, bindings);
        },
        Pattern::Wildcard { .. } => {
            proof {
                assert(bindings@.dom() =~= old(bindings)@.dom().union(Set::empty()));
            }
        },
    }
}

fn collect_element_bindings(elements: &Vec<Pattern>, item: usize, bindings: &mut HashMap<u32, usize>)
    ensures
        records_bindings(old(bindings)@, element_value_ids(elements@, 0), item, final(bindings)@),
    decreases elements, 2nat,
{
    let mut index = elements.len();
    let ghost start = bindings@;
    proof {
        assert(bindings@.dom() =~= start.dom().union(element_value_ids(elements@, index as nat)));
    }
    while index > 0
        invariant
            index <= elements@.len(),
            start == old(bindings)@,
            records_bindings(start, element_value_ids(elements@, index as nat), item, bindings@),
        decreases index,
    {
        index = index - 1;
        let ghost before = bindings@;
        collect_pattern_bindings(&elements[index], item, bindings);
        proof {
            let ids = element_value_ids(elements@, index as nat);
            assert(ids == pattern_value_ids(elements@[index as int]).union(element_value_ids(
                elements@,
                (index + 1) as nat,
            )));
            assert(bindings@.dom() =~= start.dom().union(ids));
        }
    }
}

/// `found` reports that the specialization limit was reached, at `span`.
pub open spec fn is_limit_diagnostic(span: Span, found: Diagnostic) -> bool {
    &&& found.message@ == "specialization limit exceeded"@
    &&& found.notes@.len() == 0
    &&& found.primary matches Some(label) && label.span == span && label.message@
        == "one program may contain at most 65536 specialization nodes"@
}

/// Admits one more specialization node while fewer than the limit exist.
pub fn admit_specialization(count: usize, span: Span) -> (result: Result<(), Diagnostic>)
    ensures
        result is Ok <==> count < SPECIALIZATION_LIMIT,
        result matches Err(found) ==> is_limit_diagnostic(span, found),
{
    if count < SPECIALIZATION_LIMIT {
        return Ok(());
    }
    Err(
        Diagnostic::error("specialization limit exceeded").with_primary(
            span,
            "one program may contain at most 65536 specialization nodes",
        ),
    )
}

} // verus!
