use vstd::prelude::*;

use crate::check::ast::duplicate_type;

use super::ast::{Atom, AtomKind, Pattern, TopLevelPattern};

verus! {

/// Two atoms are the same up to the identity of their vectors and type trees.
pub open spec fn same_atom(a: Atom, b: Atom) -> bool {
    &&& a.id == b.id
    &&& a.span == b.span
    &&& a.ty.deep_equal(b.ty)
    &&& match a.kind {
        AtomKind::Symbol(x) => b.kind matches AtomKind::Symbol(y) && x@ == y@,
        AtomKind::StorageSize(x) => b.kind matches AtomKind::StorageSize(y) && x.deep_equal(y),
        _ => a.kind == b.kind,
    }
}

pub open spec fn same_atoms(a: Seq<Atom>, b: Seq<Atom>) -> bool {
    a.len() == b.len() && forall|i: int| 0 <= i < a.len() ==> same_atom(#[trigger] a[i], b[i])
}

/// Two patterns are the same up to the identity of their vectors and type trees.
pub open spec fn same_pattern(a: Pattern, b: Pattern) -> bool
    decreases a, 0nat,
{
    match a {
        Pattern::Binding { id, ty } => b matches Pattern::Binding { id: i, ty: t } && id == i
            && ty.deep_equal(t),
        Pattern::Wildcard { ty, span } => b matches Pattern::Wildcard { ty: t, span: s } && span
            == s && ty.deep_equal(t),
        Pattern::Product { elements, ty, span } => b matches Pattern::Product {
            elements: e,
            ty: t,
            span: s,
        } && span == s && ty.deep_equal(t) && elements@.len() == e@.len() && same_patterns(
            elements@,
            e@,
            0,
        ),
    }
}

pub open spec fn same_patterns(a: Seq<Pattern>, b: Seq<Pattern>, from: nat) -> bool
    decreases a, a.len() - from,
{
    if from >= a.len() {
        true
    } else {
        same_pattern(a[from as int], b[from as int]) && same_patterns(a, b, from + 1)
    }
}

/// Two top-level patterns are the same up to the identity of their vectors, strings and types.
pub open spec fn same_top_level_pattern(a: TopLevelPattern, b: TopLevelPattern) -> bool
    decreases a, 0nat,
{
    match a {
        TopLevelPattern::Binding { id, name, ty } => b matches TopLevelPattern::Binding {
            id: i,
            name: n,
            ty: t,
        } && id == i && name@ == n@ && ty.deep_equal(t),
        TopLevelPattern::Wildcard { ty, span } => b matches TopLevelPattern::Wildcard {
            ty: t,
            span: s,
        } && span == s && ty.deep_equal(t),
        TopLevelPattern::Product { elements, ty, span } => b matches TopLevelPattern::Product {
            elements: e,
            ty: t,
            span: s,
        } && span == s && ty.deep_equal(t) && elements@.len() == e@.len()
            && same_top_level_patterns(elements@, e@, 0),
    }
}

pub open spec fn same_top_level_patterns(
    a: Seq<TopLevelPattern>,
    b: Seq<TopLevelPattern>,
    from: nat,
) -> bool
    decreases a, a.len() - from,
{
    if from >= a.len() {
        true
    } else {
        same_top_level_pattern(a[from as int], b[from as int]) && same_top_level_patterns(
            a,
            b,
            from + 1,
        )
    }
}

pub fn copy_bytes(bytes: &Vec<u8>) -> (copy: Vec<u8>)
    ensures
        copy@ == bytes@,
{
    let mut copy: Vec<u8> = Vec::new();
    let mut k: usize = 0;
    while k < bytes.len()
        invariant
            k <= bytes@.len(),
            copy@ == bytes@.take(k as int),
        decreases bytes@.len() - k,
    {
        copy.push(bytes[k]);
        k = k + 1;
        assert(copy@ =~= bytes@.take(k as int));
    }
    assert(bytes@.take(bytes@.len() as int) =~= bytes@);
    copy
}

/// A copy of an atom.
pub fn duplicate_atom(atom: &Atom) -> (copy: Atom)
    ensures
        same_atom(copy, *atom),
{
    let kind = match &atom.kind {
        AtomKind::Reference(reference) => AtomKind::Reference(*reference),
        AtomKind::Integer(value) => AtomKind::Integer(*value),
        AtomKind::Float(bits) => AtomKind::Float(*bits),
        AtomKind::Symbol(bytes) => AtomKind::Symbol(copy_bytes(bytes)),
        AtomKind::StorageSize(ty) => AtomKind::StorageSize(duplicate_type(ty)),
        AtomKind::Unit => AtomKind::Unit,
    };
    Atom { id: atom.id, kind, ty: duplicate_type(&atom.ty), span: atom.span }
}

/// A copy of each atom.
pub fn duplicate_atoms(atoms: &Vec<Atom>) -> (copies: Vec<Atom>)
    ensures
        same_atoms(copies@, atoms@),
{
    let mut copies: Vec<Atom> = Vec::new();
    let mut k: usize = 0;
    while k < atoms.len()
        invariant
            k <= atoms@.len(),
            copies@.len() == k,
            forall|i: int| 0 <= i < k ==> same_atom(#[trigger] copies@[i], atoms@[i]),
        decreases atoms@.len() - k,
    {
        copies.push(duplicate_atom(&atoms[k]));
        k = k + 1;
    }
    copies
}

proof fn lemma_same_patterns(a: Seq<Pattern>, b: Seq<Pattern>, from: nat)
    requires
        a.len() == b.len(),
        forall|i: int| 0 <= i < a.len() ==> #[trigger] same_pattern(a[i], b[i]),
    ensures
        same_patterns(a, b, from),
    decreases a.len() - from,
{
    if from < a.len() {
        lemma_same_patterns(a, b, from + 1);
        assert(same_pattern(a[from as int], b[from as int]));
    }
}

/// A copy of each pattern.
pub fn duplicate_patterns(patterns: &Vec<Pattern>) -> (copies: Vec<Pattern>)
    ensures
        copies@.len() == patterns@.len(),
        forall|i: int| 0 <= i < patterns@.len() ==> #[trigger] same_pattern(copies@[i], patterns@[i]),
    decreases patterns,
{
    let mut copies: Vec<Pattern> = Vec::new();
    let mut k: usize = 0;
    while k < patterns.len()
        invariant
            k <= patterns@.len(),
            copies@.len() == k,
            forall|i: int| 0 <= i < k ==> #[trigger] same_pattern(copies@[i], patterns@[i]),
        decreases patterns@.len() - k,
    {
        copies.push(duplicate_pattern(&patterns[k]));
        k = k + 1;
    }
    copies
}

/// A copy of a pattern.
pub fn duplicate_pattern(pattern: &Pattern) -> (copy: Pattern)
    ensures
        same_pattern(copy, *pattern),
    decreases pattern,
{
    match pattern {
        Pattern::Binding { id, ty } => Pattern::Binding { id: *id, ty: duplicate_type(ty) },
        Pattern::Wildcard { ty, span } => Pattern::Wildcard { ty: duplicate_type(ty), span: *span },
        Pattern::Product { elements, ty, span } => {
            let copies = duplicate_patterns(elements);
            proof {
                lemma_same_patterns(copies@, elements@, 0);
            }
            Pattern::Product { elements: copies, ty: duplicate_type(ty), span: *span }
        },
    }
}

proof fn lemma_same_top_level_patterns(a: Seq<TopLevelPattern>, b: Seq<TopLevelPattern>, from: nat)
    requires
        a.len() == b.len(),
        forall|i: int| 0 <= i < a.len() ==> #[trigger] same_top_level_pattern(a[i], b[i]),
    ensures
        same_top_level_patterns(a, b, from),
    decreases a.len() - from,
{
    if from < a.len() {
        lemma_same_top_level_patterns(a, b, from + 1);
        assert(same_top_level_pattern(a[from as int], b[from as int]));
    }
}

/// A copy of each top-level pattern.
pub fn duplicate_top_level_patterns(patterns: &Vec<TopLevelPattern>) -> (copies: Vec<TopLevelPattern>)
    ensures
        copies@.len() == patterns@.len(),
        forall|i: int|
            0 <= i < patterns@.len() ==> #[trigger] same_top_level_pattern(copies@[i], patterns@[i]),
    decreases patterns,
{
    let mut copies: Vec<TopLevelPattern> = Vec::new();
    let mut k: usize = 0;
    while k < patterns.len()
        invariant
            k <= patterns@.len(),
            copies@.len() == k,
            forall|i: int| 0 <= i < k ==> #[trigger] same_top_level_pattern(copies@[i], patterns@[i]),
        decreases patterns@.len() - k,
    {
        copies.push(duplicate_top_level_pattern(&patterns[k]));
        k = k + 1;
    }
    copies
}

/// A copy of a top-level pattern.
pub fn duplicate_top_level_pattern(pattern: &TopLevelPattern) -> (copy: TopLevelPattern)
    ensures
        same_top_level_pattern(copy, *pattern),
    decreases pattern,
{
    match pattern {
        TopLevelPattern::Binding { id, name, ty } => TopLevelPattern::Binding {
            id: *id,
            name: name.clone(),
            ty: duplicate_type(ty),
        },
        TopLevelPattern::Wildcard { ty, span } => TopLevelPattern::Wildcard {
            ty: duplicate_type(ty),
            span: *span,
        },
        TopLevelPattern::Product { elements, ty, span } => {
            let copies = duplicate_top_level_patterns(elements);
            proof {
                lemma_same_top_level_patterns(copies@, elements@, 0);
            }
            TopLevelPattern::Product { elements: copies, ty: duplicate_type(ty), span: *span }
        },
    }
}

} // verus!
