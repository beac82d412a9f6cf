use vstd::prelude::*;

use crate::ast::Node;
use crate::check::ast::{duplicate_type, Program, TopItem};

use super::ast::{ExternalOperation, ExternalType, ProgramInterface, TypeAlias};

verus! {

/// The characters of an optional name.
pub open spec fn optional_text(name: Option<String>) -> Option<Seq<char>> {
    match name {
        Some(text) => Some(text@),
        None => None,
    }
}

/// The characters of each optional name.
pub open spec fn optional_texts(names: Seq<Option<String>>) -> Seq<Option<Seq<char>>> {
    names.map_values(|name: Option<String>| optional_text(name))
}

/// The positions, among the first `n` items, of the type aliases.
pub open spec fn alias_positions(items: Seq<Node<TopItem>>, n: int) -> Seq<int>
    decreases n,
{
    if n <= 0 {
        seq![]
    } else if items[n - 1].kind is TypeAlias {
        alias_positions(items, n - 1).push(n - 1)
    } else {
        alias_positions(items, n - 1)
    }
}

/// The positions, among the first `n` items, of the external type declarations.
pub open spec fn external_type_positions(items: Seq<Node<TopItem>>, n: int) -> Seq<int>
    decreases n,
{
    if n <= 0 {
        seq![]
    } else if items[n - 1].kind is ExternalType {
        external_type_positions(items, n - 1).push(n - 1)
    } else {
        external_type_positions(items, n - 1)
    }
}

/// The positions, among the first `n` items, of the external operations.
pub open spec fn external_positions(items: Seq<Node<TopItem>>, n: int) -> Seq<int>
    decreases n,
{
    if n <= 0 {
        seq![]
    } else if items[n - 1].kind is ExternalOperation {
        external_positions(items, n - 1).push(n - 1)
    } else {
        external_positions(items, n - 1)
    }
}

/// `alias` carries the name, type and alias names of the type alias `item`.
pub open spec fn describes_alias(alias: TypeAlias, item: TopItem) -> bool {
    match item {
        TopItem::TypeAlias { binding, ty, target_alias, element_aliases } => {
            &&& alias.name@ == binding.name.text@
            &&& alias.ty.deep_equal(ty)
            &&& optional_text(alias.target_alias) == optional_text(target_alias)
            &&& optional_texts(alias.element_aliases@) == optional_texts(element_aliases@)
        },
        _ => false,
    }
}

/// `external` carries the name of the external type declaration `item`.
pub open spec fn describes_external_type(external: ExternalType, item: TopItem) -> bool {
    match item {
        TopItem::ExternalType { binding } => external.name@ == binding.name.text@,
        _ => false,
    }
}

/// `external` carries the identity, name, signature and alias names of the external operation
/// `item`, written at `span`.
pub open spec fn describes_external(external: ExternalOperation, item: Node<TopItem>) -> bool {
    match item.kind {
        TopItem::ExternalOperation {
            id,
            binding,
            parameter,
            parameter_alias,
            parameter_aliases,
            result,
            result_alias,
            ..
        } => {
            &&& external.id == id
            &&& external.name@ == binding.name.text@
            &&& external.parameter.deep_equal(parameter)
            &&& optional_text(external.parameter_alias) == optional_text(parameter_alias)
            &&& optional_texts(external.parameter_aliases@) == optional_texts(parameter_aliases@)
            &&& external.result.deep_equal(result)
            &&& optional_text(external.result_alias) == optional_text(result_alias)
            &&& external.span == item.span
        },
        _ => false,
    }
}

/// `interface` declares, in program order, the type aliases, external types and external
/// operations among `items`.
pub open spec fn is_interface_of(interface: ProgramInterface, items: Seq<Node<TopItem>>) -> bool {
    let aliases = alias_positions(items, items.len() as int);
    let types = external_type_positions(items, items.len() as int);
    let externals = external_positions(items, items.len() as int);
    &&& interface.type_aliases@.len() == aliases.len()
    &&& forall|j: int|
        0 <= j < aliases.len() ==> describes_alias(
            #[trigger] interface.type_aliases@[j],
            items[aliases[j]].kind,
        )
    &&& interface.external_types@.len() == types.len()
    &&& forall|j: int|
        0 <= j < types.len() ==> describes_external_type(
            #[trigger] interface.external_types@[j],
            items[types[j]].kind,
        )
    &&& interface.externals@.len() == externals.len()
    &&& forall|j: int|
        0 <= j < externals.len() ==> describes_external(
            #[trigger] interface.externals@[j],
            items[externals[j]],
        )
}

fn copy_text(text: &String) -> (copy: String)
    ensures
        copy@ == text@,
{
    text.clone()
}

fn copy_optional_text(name: &Option<String>) -> (copy: Option<String>)
    ensures
        optional_text(copy) == optional_text(*name),
{
    match name {
        Some(text) => Some(copy_text(text)),
        None => None,
    }
}

fn copy_optional_texts(names: &Vec<Option<String>>) -> (copy: Vec<Option<String>>)
    ensures
        optional_texts(copy@) == optional_texts(names@),
{
    let mut copy: Vec<Option<String>> = Vec::new();
    let mut k: usize = 0;
    while k < names.len()
        invariant
            k <= names@.len(),
            copy@.len() == k,
            forall|i: int| 0 <= i < k ==> optional_text(#[trigger] copy@[i]) == optional_text(names@[i]),
        decreases names@.len() - k,
    {
        copy.push(copy_optional_text(&names[k]));
        k = k + 1;
    }
    assert(optional_texts(copy@) =~= optional_texts(names@));
    copy
}

/// The declarations of `program` that the world outside it sees, in program order.
pub fn lower_interface(program: &Program) -> (interface: ProgramInterface)
    ensures
        is_interface_of(interface, program.items@),
{
    let ghost items = program.items@;
    let mut type_aliases: Vec<TypeAlias> = Vec::new();
    let mut external_types: Vec<ExternalType> = Vec::new();
    let mut externals: Vec<ExternalOperation> = Vec::new();
    let mut index: usize = 0;
    while index < program.items.len()
        invariant
            index <= items.len(),
            items == program.items@,
            type_aliases@.len() == alias_positions(items, index as int).len(),
            forall|j: int|
                0 <= j < type_aliases@.len() ==> describes_alias(
                    #[trigger] type_aliases@[j],
                    items[alias_positions(items, index as int)[j]].kind,
                ),
            external_types@.len() == external_type_positions(items, index as int).len(),
            forall|j: int|
                0 <= j < external_types@.len() ==> describes_external_type(
                    #[trigger] external_types@[j],
                    items[external_type_positions(items, index as int)[j]].kind,
                ),
            externals@.len() == external_positions(items, index as int).len(),
            forall|j: int|
                0 <= j < externals@.len() ==> describes_external(
                    #[trigger] externals@[j],
                    items[external_positions(items, index as int)[j]],
                ),
        decreases items.len() - index,
    {
        let item = &program.items[index];
        let ghost aliases_before = type_aliases@;
        let ghost types_before = external_types@;
        let ghost externals_before = externals@;
        match &item.kind {
            TopItem::TypeAlias { binding, ty, target_alias, element_aliases } => {
                type_aliases.push(
                    TypeAlias {
                        name: copy_text(&binding.name.text),
                        ty: duplicate_type(ty),
                        target_alias: copy_optional_text(target_alias),
                        element_aliases: copy_optional_texts(element_aliases),
                    },
                );
                assert forall|j: int| 0 <= j < type_aliases@.len() implies describes_alias(
                    #[trigger] type_aliases@[j],
                    items[alias_positions(items, index + 1)[j]].kind,
                ) by {
                    if j < aliases_before.len() {
                        assert(type_aliases@[j] == aliases_before[j]);
                    }
                }
            },
            TopItem::ExternalType { binding } => {
                external_types.push(ExternalType { name: copy_text(&binding.name.text) });
                assert forall|j: int| 0 <= j < external_types@.len() implies describes_external_type(
                    #[trigger] external_types@[j],
                    items[external_type_positions(items, index + 1)[j]].kind,
                ) by {
                    if j < types_before.len() {
                        assert(external_types@[j] == types_before[j]);
                    }
                }
            },
            TopItem::ExternalOperation {
                id,
                binding,
                parameter,
                parameter_alias,
                parameter_aliases,
                result,
                result_alias,
                ..
            } => {
                externals.push(
                    ExternalOperation {
                        id: *id,
                        name: copy_text(&binding.name.text),
                        parameter: duplicate_type(parameter),
                        parameter_alias: copy_optional_text(parameter_alias),
                        parameter_aliases: copy_optional_texts(parameter_aliases),
                        result: duplicate_type(result),
                        result_alias: copy_optional_text(result_alias),
                        span: item.span,
                    },
                );
                assert forall|j: int| 0 <= j < externals@.len() implies describes_external(
                    #[trigger] externals@[j],
                    items[external_positions(items, index + 1)[j]],
                ) by {
                    if j < externals_before.len() {
                        assert(externals@[j] == externals_before[j]);
                    }
                }
            },
            TopItem::Binding(_) => {},
        }
        index = index + 1;
    }
    ProgramInterface { type_aliases, external_types, externals }
}


/// Two aliases carry the same names and types.
pub open spec fn same_alias(a: TypeAlias, b: TypeAlias) -> bool {
    &&& a.name@ == b.name@
    &&& a.ty.deep_equal(b.ty)
    &&& optional_text(a.target_alias) == optional_text(b.target_alias)
    &&& optional_texts(a.element_aliases@) == optional_texts(b.element_aliases@)
}

/// Two external operations carry the same identity, names, signature and span.
pub open spec fn same_external(a: ExternalOperation, b: ExternalOperation) -> bool {
    &&& a.id == b.id
    &&& a.name@ == b.name@
    &&& a.parameter.deep_equal(b.parameter)
    &&& optional_text(a.parameter_alias) == optional_text(b.parameter_alias)
    &&& optional_texts(a.parameter_aliases@) == optional_texts(b.parameter_aliases@)
    &&& a.result.deep_equal(b.result)
    &&& optional_text(a.result_alias) == optional_text(b.result_alias)
    &&& a.span == b.span
}

/// Two interfaces declare the same aliases, external types and external operations, in order.
pub open spec fn same_interface(a: ProgramInterface, b: ProgramInterface) -> bool {
    &&& a.type_aliases@.len() == b.type_aliases@.len()
    &&& forall|i: int|
        0 <= i < a.type_aliases@.len() ==> same_alias(#[trigger] a.type_aliases@[i], b.type_aliases@[i])
    &&& a.external_types@.len() == b.external_types@.len()
    &&& forall|i: int|
        0 <= i < a.external_types@.len() ==> (#[trigger] a.external_types@[i]).name@
            == b.external_types@[i].name@
    &&& a.externals@.len() == b.externals@.len()
    &&& forall|i: int|
        0 <= i < a.externals@.len() ==> same_external(#[trigger] a.externals@[i], b.externals@[i])
}

/// A copy of an interface.
pub fn duplicate_interface(interface: &ProgramInterface) -> (copy: ProgramInterface)
    ensures
        same_interface(copy, *interface),
{
    let mut type_aliases: Vec<TypeAlias> = Vec::new();
    let mut k: usize = 0;
    while k < interface.type_aliases.len()
        invariant
            k <= interface.type_aliases@.len(),
            type_aliases@.len() == k,
            forall|i: int|
                0 <= i < k ==> same_alias(#[trigger] type_aliases@[i], interface.type_aliases@[i]),
        decreases interface.type_aliases@.len() - k,
    {
        let alias = &interface.type_aliases[k];
        type_aliases.push(
            TypeAlias {
                name: copy_text(&alias.name),
                ty: duplicate_type(&alias.ty),
                target_alias: copy_optional_text(&alias.target_alias),
                element_aliases: copy_optional_texts(&alias.element_aliases),
            },
        );
        k = k + 1;
    }
    let mut external_types: Vec<ExternalType> = Vec::new();
    let mut k: usize = 0;
    while k < interface.external_types.len()
        invariant
            k <= interface.external_types@.len(),
            external_types@.len() == k,
            forall|i: int|
                0 <= i < k ==> (#[trigger] external_types@[i]).name@
                    == interface.external_types@[i].name@,
        decreases interface.external_types@.len() - k,
    {
        external_types.push(ExternalType { name: copy_text(&interface.external_types[k].name) });
        k = k + 1;
    }
    let mut externals: Vec<ExternalOperation> = Vec::new();
    let mut k: usize = 0;
    while k < interface.externals.len()
        invariant
            k <= interface.externals@.len(),
            externals@.len() == k,
            forall|i: int|
                0 <= i < k ==> same_external(#[trigger] externals@[i], interface.externals@[i]),
        decreases interface.externals@.len() - k,
    {
        let external = &interface.externals[k];
        externals.push(
            ExternalOperation {
                id: external.id,
                name: copy_text(&external.name),
                parameter: duplicate_type(&external.parameter),
                parameter_alias: copy_optional_text(&external.parameter_alias),
                parameter_aliases: copy_optional_texts(&external.parameter_aliases),
                result: duplicate_type(&external.result),
                result_alias: copy_optional_text(&external.result_alias),
                span: external.span,
            },
        );
        k = k + 1;
    }
    ProgramInterface { type_aliases, external_types, externals }
}

} // verus!
