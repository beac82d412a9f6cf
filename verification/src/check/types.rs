use vstd::prelude::*;

use crate::diagnostic::Diagnostic;
use crate::resolve::{
    ADDRESS_TYPE, BOOL_TYPE, BYTE_SIZE_TYPE, FLOAT32_TYPE, FLOAT64_TYPE, INT16_TYPE, INT32_TYPE,
    INT64_TYPE, INT8_TYPE, SYMBOL_TYPE, TypeId, U_SIZE_TYPE, UINT16_TYPE, UINT32_TYPE, UINT64_TYPE,
    UINT8_TYPE, UNIT_TYPE,
};
use crate::source::Span;
use crate::text::{
    bytes_within, char_width, lemma_utf8_len_append, push_chars, push_str, string_from_chars,
    utf8_len,
};

use super::ast::{Type, duplicate_type};

verus! {

broadcast use vstd::string::group_string_axioms;

/// Longest type name rendered before it is cut off.
pub const TYPE_NAME_LIMIT: usize = 4096;

/// Most storage components one type may occupy.
pub const MAX_REPRESENTATION_UNITS: usize = 65536;

/// Deepest nesting of aggregates one type may have.
pub const MAX_REPRESENTATION_DEPTH: usize = 64;

/// `Bool` is the sum of two units.
pub open spec fn is_bool_members(members: Seq<Type>) -> bool {
    members.len() == 2 && members[0] == Type::Unit && members[1] == Type::Unit
}

/// The name of a type without structure, if `ty` is one.
pub open spec fn leaf_name(ty: Type) -> Option<Seq<char>> {
    match ty {
        Type::Unit => Some("Unit"@),
        Type::Int8 => Some("Int8"@),
        Type::Int16 => Some("Int16"@),
        Type::Int32 => Some("Int32"@),
        Type::Int64 => Some("Int64"@),
        Type::UInt8 => Some("UInt8"@),
        Type::UInt16 => Some("UInt16"@),
        Type::UInt32 => Some("UInt32"@),
        Type::UInt64 => Some("UInt64"@),
        Type::Float32 => Some("Float32"@),
        Type::Float64 => Some("Float64"@),
        Type::Symbol => Some("Symbol"@),
        Type::Ptr => Some("Ptr"@),
        Type::Address => Some("Address"@),
        Type::ByteSize => Some("ByteSize"@),
        Type::USize => Some("USize"@),
        Type::Parameter { name, .. } => Some(name@),
        Type::External { name, .. } => Some(name@),
        _ => None,
    }
}

/// The pieces of text a type name is written with, in order.
pub open spec fn name_parts(ty: Type) -> Seq<Seq<char>>
    decreases ty, 0nat,
{
    match ty {
        Type::Cursor(element) => seq!["Cursor<"@] + name_parts(*element) + seq![">"@],
        Type::Region(element) => seq!["Region<"@] + name_parts(*element) + seq![">"@],
        Type::Packed(element) => seq!["Packed<"@] + name_parts(*element) + seq![">"@],
        Type::Product(elements) => seq!["("@] + element_name_parts(elements@, elements@.len())
            + seq![")"@],
        Type::Sum(members) => if is_bool_members(members@) {
            seq!["Bool"@]
        } else {
            seq!["["@] + element_name_parts(members@, members@.len()) + seq!["]"@]
        },
        Type::Function { parameter, result } => name_parts(*parameter) + seq![" -> "@]
            + name_parts(*result),
        _ => seq![leaf_name(ty).unwrap()],
    }
}

/// The name parts of the first `count` types, separated by commas.
pub open spec fn element_name_parts(elements: Seq<Type>, count: nat) -> Seq<Seq<char>>
    decreases elements, count,
{
    if count == 0 || count > elements.len() {
        Seq::empty()
    } else if count == 1 {
        name_parts(elements[0])
    } else {
        element_name_parts(elements, (count - 1) as nat) + seq![", "@] + name_parts(
            elements[count - 1],
        )
    }
}

/// Writing one part: a part that would take the name past `TYPE_NAME_LIMIT` bytes of UTF-8
/// ends the name with an ellipsis instead.
pub open spec fn name_step(state: (Seq<char>, bool), part: Seq<char>) -> (Seq<char>, bool) {
    if state.1 {
        state
    } else if utf8_len(state.0) + utf8_len(part) > TYPE_NAME_LIMIT {
        (state.0.push('\u{2026}'), true)
    } else {
        (state.0 + part, false)
    }
}

/// Writing parts in order.
pub open spec fn name_fold(state: (Seq<char>, bool), parts: Seq<Seq<char>>) -> (Seq<char>, bool)
    decreases parts.len(),
{
    if parts.len() == 0 {
        state
    } else {
        name_fold(name_step(state, parts[0]), parts.drop_first())
    }
}

/// The displayed name of a type, cut off with an ellipsis where it would pass `TYPE_NAME_LIMIT`
/// bytes of UTF-8.
pub open spec fn type_name_text(ty: Type) -> Seq<char> {
    name_fold((Seq::empty(), false), name_parts(ty)).0
}

proof fn lemma_name_fold_append(state: (Seq<char>, bool), first: Seq<Seq<char>>, second: Seq<
    Seq<char>,
>)
    ensures
        name_fold(state, first + second) == name_fold(name_fold(state, first), second),
    decreases first.len(),
{
    if first.len() > 0 {
        assert((first + second).drop_first() == first.drop_first() + second);
        assert((first + second)[0] == first[0]);
        lemma_name_fold_append(name_step(state, first[0]), first.drop_first(), second);
    } else {
        assert(first + second == second);
    }
}

proof fn lemma_name_fold_single(state: (Seq<char>, bool), part: Seq<char>)
    ensures
        name_fold(state, seq![part]) == name_step(state, part),
{
    assert(seq![part].drop_first().len() == 0);
    assert(seq![part][0] == part);
    assert(name_fold(name_step(state, part), seq![part].drop_first()) == name_step(state, part));
}

/// The state of writing a type name.
struct NameWriter {
    output: Vec<char>,
    bytes: usize,
    stopped: bool,
}

impl NameWriter {
    spec fn state(&self) -> (Seq<char>, bool) {
        (self.output@, self.stopped)
    }

    spec fn wf(&self) -> bool {
        &&& self.bytes == utf8_len(self.output@)
        &&& self.bytes <= TYPE_NAME_LIMIT + 3
        &&& !self.stopped ==> self.bytes <= TYPE_NAME_LIMIT
    }

    fn part(&mut self, text: &str)
        requires
            old(self).wf(),
        ensures
            final(self).wf(),
            final(self).state() == name_fold(old(self).state(), seq![text@]),
    {
        proof {
            lemma_name_fold_single(self.state(), text@);
        }
        if self.stopped {
            return ;
        }
        let mut piece: Vec<char> = Vec::new();
        push_str(&mut piece, text);
        match bytes_within(self.bytes, &piece, TYPE_NAME_LIMIT) {
            Some(total) => {
                proof {
                    lemma_utf8_len_append(self.output@, piece@);
                }
                push_chars(&mut self.output, &piece);
                self.bytes = total;
            },
            None => {
                let ghost before = self.output@;
                self.output.push('\u{2026}');
                proof {
                    assert(self.output@.drop_last() =~= before);
                    assert(char_width('\u{2026}') == 3);
                }
                self.bytes = self.bytes + 3;
                self.stopped = true;
            },
        }
    }

    fn name(&mut self, ty: &Type)
        requires
            old(self).wf(),
        ensures
            final(self).wf(),
            final(self).state() == name_fold(old(self).state(), name_parts(*ty)),
        decreases ty, 1nat,
    {
        match ty {
            Type::Cursor(element) => {
                self.bracketed("Cursor<", element);
            },
            Type::Region(element) => {
                self.bracketed("Region<", element);
            },
            Type::Packed(element) => {
                self.bracketed("Packed<", element);
            },
            Type::Product(elements) => {
                let ghost start = self.state();
                self.part("(");
                self.elements(elements);
                self.part(")");
                proof {
                    let e = element_name_parts(elements@, elements@.len());
                    lemma_name_fold_append(start, seq!["("@], e);
                    lemma_name_fold_append(start, seq!["("@] + e, seq![")"@]);
                }
            },
            Type::Sum(members) => {
                if members.len() == 2 && is_unit(&members[0]) && is_unit(&members[1]) {
                    self.part("Bool");
                } else {
                    let ghost start = self.state();
                    self.part("[");
                    self.elements(members);
                    self.part("]");
                    proof {
                        let e = element_name_parts(members@, members@.len());
                        lemma_name_fold_append(start, seq!["["@], e);
                        lemma_name_fold_append(start, seq!["["@] + e, seq!["]"@]);
                    }
                }
            },
            Type::Function { parameter, result } => {
                let ghost start = self.state();
                self.name(parameter);
                self.part(" -> ");
                self.name(result);
                proof {
                    let p = name_parts(**parameter);
                    lemma_name_fold_append(start, p, seq![" -> "@]);
                    lemma_name_fold_append(start, p + seq![" -> "@], name_parts(**result));
                }
            },
            Type::Parameter { name, .. } => self.part(name.as_str()),
            Type::External { name, .. } => self.part(name.as_str()),
            Type::Unit => self.part("Unit"),
            Type::Int8 => self.part("Int8"),
            Type::Int16 => self.part("Int16"),
            Type::Int32 => self.part("Int32"),
            Type::Int64 => self.part("Int64"),
            Type::UInt8 => self.part("UInt8"),
            Type::UInt16 => self.part("UInt16"),
            Type::UInt32 => self.part("UInt32"),
            Type::UInt64 => self.part("UInt64"),
            Type::Float32 => self.part("Float32"),
            Type::Float64 => self.part("Float64"),
            Type::Symbol => self.part("Symbol"),
            Type::Ptr => self.part("Ptr"),
            Type::Address => self.part("Address"),
            Type::ByteSize => self.part("ByteSize"),
            Type::USize => self.part("USize"),
        }
    }

    fn bracketed(&mut self, open: &str, element: &Box<Type>)
        requires
            old(self).wf(),
        ensures
            final(self).wf(),
            final(self).state() == name_fold(
                old(self).state(),
                seq![open@] + name_parts(**element) + seq![">"@],
            ),
        decreases **element, 2nat,
    {
        let ghost start = self.state();
        self.part(open);
        self.name(element);
        self.part(">");
        proof {
            let e = name_parts(**element);
            lemma_name_fold_append(start, seq![open@], e);
            lemma_name_fold_append(start, seq![open@] + e, seq![">"@]);
        }
    }

    fn elements(&mut self, elements: &Vec<Type>)
        requires
            old(self).wf(),
        ensures
            final(self).wf(),
            final(self).state() == name_fold(
                old(self).state(),
                element_name_parts(elements@, elements@.len()),
            ),
        decreases elements, 2nat,
    {
        let ghost start = self.state();
        let mut index: usize = 0;
        while index < elements.len()
            invariant
                self.wf(),
                index <= elements@.len(),
                self.state() == name_fold(start, element_name_parts(elements@, index as nat)),
            decreases elements@.len() - index,
        {
            let ghost before = element_name_parts(elements@, index as nat);
            if index > 0 {
                self.part(", ");
                proof {
                    lemma_name_fold_append(start, before, seq![", "@]);
                }
            }
            let ghost middle = self.state();
            self.name(&elements[index]);
            proof {
                let p = name_parts(elements@[index as int]);
                if index > 0 {
                    lemma_name_fold_append(start, before + seq![", "@], p);
                } else {
                    assert(before.len() == 0);
                    assert(Seq::<Seq<char>>::empty() + p == p);
                }
            }
            index = index + 1;
        }
    }
}

pub fn is_unit(ty: &Type) -> (unit: bool)
    ensures
        unit == (*ty == Type::Unit),
{
    match ty {
        Type::Unit => true,
        _ => false,
    }
}

/// The displayed name of a type.
pub fn name_of_type(ty: &Type) -> (name: String)
    ensures
        name@ == type_name_text(*ty),
{
    let mut writer = NameWriter { output: Vec::new(), bytes: 0, stopped: false };
    proof {
        assert(utf8_len(writer.output@) == 0);
    }
    writer.name(ty);
    string_from_chars(&writer.output)
}

} // verus!

verus! {

/// A sum of two units.
pub open spec fn is_bool_type(ty: Type) -> bool {
    ty matches Type::Sum(members) && is_bool_members(members@)
}

/// The type a predefined type identifier names.
pub open spec fn predefined(id: TypeId) -> Option<Type> {
    if id.0 == UNIT_TYPE {
        Some(Type::Unit)
    } else if id.0 == INT8_TYPE {
        Some(Type::Int8)
    } else if id.0 == INT16_TYPE {
        Some(Type::Int16)
    } else if id.0 == INT32_TYPE {
        Some(Type::Int32)
    } else if id.0 == INT64_TYPE {
        Some(Type::Int64)
    } else if id.0 == UINT8_TYPE {
        Some(Type::UInt8)
    } else if id.0 == UINT16_TYPE {
        Some(Type::UInt16)
    } else if id.0 == UINT32_TYPE {
        Some(Type::UInt32)
    } else if id.0 == UINT64_TYPE {
        Some(Type::UInt64)
    } else if id.0 == FLOAT32_TYPE {
        Some(Type::Float32)
    } else if id.0 == FLOAT64_TYPE {
        Some(Type::Float64)
    } else if id.0 == SYMBOL_TYPE {
        Some(Type::Symbol)
    } else if id.0 == ADDRESS_TYPE {
        Some(Type::Address)
    } else if id.0 == BYTE_SIZE_TYPE {
        Some(Type::ByteSize)
    } else if id.0 == U_SIZE_TYPE {
        Some(Type::USize)
    } else {
        None
    }
}

/// `Bool`: the sum of two units.
pub fn bool_type() -> (ty: Type)
    ensures
        is_bool_type(ty),
{
    let mut members: Vec<Type> = Vec::new();
    members.push(Type::Unit);
    members.push(Type::Unit);
    Type::Sum(members)
}

/// The keyword a program writes for a predefined type.
pub open spec fn predefined_keyword(id: TypeId) -> Option<Seq<char>> {
    if id.0 == UNIT_TYPE {
        Some("Unit"@)
    } else if id.0 == INT8_TYPE {
        Some("Int8"@)
    } else if id.0 == INT16_TYPE {
        Some("Int16"@)
    } else if id.0 == INT32_TYPE {
        Some("Int32"@)
    } else if id.0 == INT64_TYPE {
        Some("Int64"@)
    } else if id.0 == UINT8_TYPE {
        Some("UInt8"@)
    } else if id.0 == UINT16_TYPE {
        Some("UInt16"@)
    } else if id.0 == UINT32_TYPE {
        Some("UInt32"@)
    } else if id.0 == UINT64_TYPE {
        Some("UInt64"@)
    } else if id.0 == FLOAT32_TYPE {
        Some("Float32"@)
    } else if id.0 == FLOAT64_TYPE {
        Some("Float64"@)
    } else if id.0 == BOOL_TYPE {
        Some("Bool"@)
    } else if id.0 == SYMBOL_TYPE {
        Some("Symbol"@)
    } else if id.0 == ADDRESS_TYPE {
        Some("Address"@)
    } else if id.0 == BYTE_SIZE_TYPE {
        Some("ByteSize"@)
    } else if id.0 == U_SIZE_TYPE {
        Some("USize"@)
    } else {
        None
    }
}

proof fn lemma_utf8_len_bound(text: Seq<char>)
    ensures
        utf8_len(text) <= 4 * text.len(),
    decreases text.len(),
{
    if text.len() > 0 {
        lemma_utf8_len_bound(text.drop_last());
    }
}

/// A type written with one short part is named by that part.
proof fn lemma_one_part_name(ty: Type, part: Seq<char>)
    requires
        name_parts(ty) == seq![part],
        part.len() <= 1024,
    ensures
        type_name_text(ty) == part,
{
    lemma_name_fold_single((Seq::empty(), false), part);
    lemma_utf8_len_bound(part);
    assert(utf8_len(Seq::<char>::empty()) == 0);
    assert(Seq::<char>::empty() + part =~= part);
}

/// Each predefined type is named by the keyword a program writes for it: `Float64` is named
/// "Float64", `Int8` "Int8", `Bool` "Bool", and so on for every predefined type.
pub proof fn lemma_predefined_type_names(id: TypeId, ty: Type)
    requires
        predefined(id) == Some(ty) || (id.0 == BOOL_TYPE && is_bool_type(ty)),
    ensures
        predefined_keyword(id) == Some(type_name_text(ty)),
{
    reveal_strlit("Unit");
    reveal_strlit("Int8");
    reveal_strlit("Int16");
    reveal_strlit("Int32");
    reveal_strlit("Int64");
    reveal_strlit("UInt8");
    reveal_strlit("UInt16");
    reveal_strlit("UInt32");
    reveal_strlit("UInt64");
    reveal_strlit("Float32");
    reveal_strlit("Float64");
    reveal_strlit("Bool");
    reveal_strlit("Symbol");
    reveal_strlit("Address");
    reveal_strlit("ByteSize");
    reveal_strlit("USize");
    if id.0 == BOOL_TYPE {
        assert(name_parts(ty) == seq!["Bool"@]);
        lemma_one_part_name(ty, "Bool"@);
    } else {
        assert(name_parts(ty) == seq![leaf_name(ty).unwrap()]);
        lemma_one_part_name(ty, leaf_name(ty).unwrap());
    }
}

/// A function type whose parameter and result are unit.
pub fn function_placeholder() -> (ty: Type)
    ensures
        ty matches Type::Function { parameter, result } && *parameter == Type::Unit && *result
            == Type::Unit,
{
    Type::Function { parameter: Box::new(Type::Unit), result: Box::new(Type::Unit) }
}

/// The type a predefined identifier names, or `None` for other identifiers.
pub fn predefined_type(id: TypeId) -> (ty: Option<Type>)
    ensures
        id.0 == BOOL_TYPE ==> (ty matches Some(t) && is_bool_type(t)),
        id.0 != BOOL_TYPE ==> ty == predefined(id),
{
    if id.0 == UNIT_TYPE {
        Some(Type::Unit)
    } else if id.0 == INT8_TYPE {
        Some(Type::Int8)
    } else if id.0 == INT16_TYPE {
        Some(Type::Int16)
    } else if id.0 == INT32_TYPE {
        Some(Type::Int32)
    } else if id.0 == INT64_TYPE {
        Some(Type::Int64)
    } else if id.0 == UINT8_TYPE {
        Some(Type::UInt8)
    } else if id.0 == UINT16_TYPE {
        Some(Type::UInt16)
    } else if id.0 == UINT32_TYPE {
        Some(Type::UInt32)
    } else if id.0 == UINT64_TYPE {
        Some(Type::UInt64)
    } else if id.0 == FLOAT32_TYPE {
        Some(Type::Float32)
    } else if id.0 == FLOAT64_TYPE {
        Some(Type::Float64)
    } else if id.0 == BOOL_TYPE {
        Some(bool_type())
    } else if id.0 == SYMBOL_TYPE {
        Some(Type::Symbol)
    } else if id.0 == ADDRESS_TYPE {
        Some(Type::Address)
    } else if id.0 == BYTE_SIZE_TYPE {
        Some(Type::ByteSize)
    } else if id.0 == U_SIZE_TYPE {
        Some(Type::USize)
    } else {
        None
    }
}

/// A type that has no canonical memory representation by itself.
pub open spec fn is_unrepresentable_node(ty: Type) -> bool {
    match ty {
        Type::Symbol | Type::External { .. } | Type::Function { .. } | Type::Cursor(_)
        | Type::Region(_) | Type::Packed(_) => true,
        Type::Sum(members) => members@.len() == 0,
        _ => false,
    }
}

/// Every part of `ty` has a canonical memory representation.
pub open spec fn memory_representable(ty: Type) -> bool {
    first_unrepresentable(ty) is None
}

/// The leftmost part of `ty`, in depth-first order, without a memory representation.
pub open spec fn first_unrepresentable(ty: Type) -> Option<Type>
    decreases ty, 0nat,
{
    if is_unrepresentable_node(ty) {
        Some(ty)
    } else {
        match ty {
            Type::Product(elements) => first_unrepresentable_in(elements@, 0),
            Type::Sum(members) => first_unrepresentable_in(members@, 0),
            _ => None,
        }
    }
}

/// The first unrepresentable part among `types` from index `from` on.
pub open spec fn first_unrepresentable_in(types: Seq<Type>, from: nat) -> Option<Type>
    decreases types, types.len() - from,
{
    if from >= types.len() {
        None
    } else {
        match first_unrepresentable(types[from as int]) {
            Some(found) => Some(found),
            None => first_unrepresentable_in(types, from + 1),
        }
    }
}

/// Whether every part of `ty` has a canonical memory representation.
pub fn is_memory_representable(ty: &Type) -> (representable: bool)
    ensures
        representable == memory_representable(*ty),
    decreases ty,
{
    match ty {
        Type::Product(elements) => all_memory_representable(elements),
        Type::Sum(members) => members.len() > 0 && all_memory_representable(members),
        Type::Symbol | Type::External { .. } | Type::Function { .. } | Type::Cursor(_)
        | Type::Region(_) | Type::Packed(_) => false,
        _ => true,
    }
}

fn all_memory_representable(types: &Vec<Type>) -> (representable: bool)
    ensures
        representable == first_unrepresentable_in(types@, 0) is None,
    decreases types,
{
    let mut index: usize = 0;
    while index < types.len()
        invariant
            index <= types@.len(),
            first_unrepresentable_in(types@, 0) == first_unrepresentable_in(types@, index as nat),
        decreases types@.len() - index,
    {
        if !is_memory_representable(&types[index]) {
            return false;
        }
        index = index + 1;
    }
    true
}

/// The leftmost part of `ty` without a memory representation.
pub fn first_nonrepresentable_type(ty: &Type) -> (found: Option<&Type>)
    ensures
        found matches Some(t) ==> first_unrepresentable(*ty) == Some(*t),
        found is None ==> first_unrepresentable(*ty) is None,
    decreases ty,
{
    match ty {
        Type::Symbol | Type::External { .. } | Type::Function { .. } | Type::Cursor(_)
        | Type::Region(_) | Type::Packed(_) => Some(ty),
        Type::Product(elements) => first_nonrepresentable_in(elements),
        Type::Sum(members) => {
            if members.len() == 0 {
                Some(ty)
            } else {
                first_nonrepresentable_in(members)
            }
        },
        _ => None,
    }
}

fn first_nonrepresentable_in(types: &Vec<Type>) -> (found: Option<&Type>)
    ensures
        found matches Some(t) ==> first_unrepresentable_in(types@, 0) == Some(*t),
        found is None ==> first_unrepresentable_in(types@, 0) is None,
    decreases types,
{
    let mut index: usize = 0;
    while index < types.len()
        invariant
            index <= types@.len(),
            first_unrepresentable_in(types@, 0) == first_unrepresentable_in(types@, index as nat),
        decreases types@.len() - index,
    {
        match first_nonrepresentable_type(&types[index]) {
            Some(found) => {
                return Some(found);
            },
            None => {},
        }
        index = index + 1;
    }
    None
}

/// `found` describes a type without a memory representation, at `span`.
pub open spec fn is_unrepresentable_diagnostic(ty: Type, span: Span, found: Diagnostic) -> bool {
    let offending = match first_unrepresentable(ty) {
        Some(part) => part,
        None => ty,
    };
    &&& found.message@ == "memory element type is not representable"@
    &&& found.notes@.len() == 0
    &&& found.primary matches Some(label) && label.span == span && label.message@ == "`"@
        + type_name_text(offending) + "` has no canonical memory representation"@
}

/// Accepts a type with a canonical memory representation, and describes the first part without one.
pub fn ensure_memory_representable(ty: &Type, span: Span) -> (result: Result<(), Diagnostic>)
    ensures
        result is Ok <==> memory_representable(*ty),
        result matches Err(found) ==> is_unrepresentable_diagnostic(*ty, span, found),
{
    if is_memory_representable(ty) {
        return Ok(());
    }
    let offending = match first_nonrepresentable_type(ty) {
        Some(part) => part,
        None => ty,
    };
    let name = name_of_type(offending);
    let mut message: Vec<char> = Vec::new();
    push_str(&mut message, "`");
    push_str(&mut message, name.as_str());
    push_str(&mut message, "` has no canonical memory representation");
    let label = string_from_chars(&message);
    Err(
        Diagnostic::error("memory element type is not representable").with_primary(
            span,
            label.as_str(),
        ),
    )
}

} // verus!

verus! {

/// Parameters of `ty` that must have a memory representation: those inside `Cursor`, `Region`
/// or `Packed`, or anywhere when `required` holds.
pub open spec fn required_parameters(ty: Type, required: bool) -> Set<TypeId>
    decreases ty, 0nat,
{
    match ty {
        Type::Parameter { id, .. } => if required {
            set![id]
        } else {
            Set::empty()
        },
        Type::Cursor(element) => required_parameters(*element, true),
        Type::Region(element) => required_parameters(*element, true),
        Type::Packed(element) => required_parameters(*element, true),
        Type::Product(elements) => required_parameters_in(elements@, 0, required),
        Type::Sum(members) => required_parameters_in(members@, 0, required),
        Type::Function { parameter, result } => required_parameters(*parameter, required).union(
            required_parameters(*result, required),
        ),
        _ => Set::empty(),
    }
}

pub open spec fn required_parameters_in(types: Seq<Type>, from: nat, required: bool) -> Set<TypeId>
    decreases types, types.len() - from,
{
    if from >= types.len() {
        Set::empty()
    } else {
        required_parameters(types[from as int], required).union(
            required_parameters_in(types, from + 1, required),
        )
    }
}

fn insert_unique(ids: &mut Vec<TypeId>, id: TypeId)
    requires
        old(ids)@.no_duplicates(),
    ensures
        final(ids)@.no_duplicates(),
        final(ids)@.to_set() == old(ids)@.to_set().insert(id),
{
    let mut index: usize = 0;
    while index < ids.len()
        invariant
            ids@ == old(ids)@,
            ids@.no_duplicates(),
            index <= ids@.len(),
            forall|i: int| 0 <= i < index ==> ids@[i] != id,
        decreases ids@.len() - index,
    {
        if ids[index] == id {
            proof {
                assert(ids@.to_set().insert(id) =~= ids@.to_set());
            }
            return ;
        }
        index = index + 1;
    }
    proof {
        ids@.lemma_push_to_set_commute(id);
    }
    ids.push(id);
}

fn collect_requirements(ty: &Type, required: bool, ids: &mut Vec<TypeId>)
    requires
        old(ids)@.no_duplicates(),
    ensures
        final(ids)@.no_duplicates(),
        final(ids)@.to_set() == old(ids)@.to_set().union(required_parameters(*ty, required)),
    decreases ty, 1nat,
{
    match ty {
        Type::Parameter { id, .. } => {
            if required {
                insert_unique(ids, *id);
                proof {
                    assert(old(ids)@.to_set().insert(*id) =~= old(ids)@.to_set().union(set![*id]));
                }
            } else {
                assert(old(ids)@.to_set().union(Set::empty()) =~= old(ids)@.to_set());
            }
        },
        Type::Cursor(element) => collect_requirements(element, true, ids),
        Type::Region(element) => collect_requirements(element, true, ids),
        Type::Packed(element) => collect_requirements(element, true, ids),
        Type::Product(elements) => collect_requirements_in(elements, required, ids),
        Type::Sum(members) => collect_requirements_in(members, required, ids),
        Type::Function { parameter, result } => {
            collect_requirements(parameter, required, ids);
            collect_requirements(result, required, ids);
            proof {
                assert(old(ids)@.to_set().union(required_parameters(**parameter, required)).union(
                    required_parameters(**result, required),
                ) =~= old(ids)@.to_set().union(required_parameters(*ty, required)));
            }
        },
        _ => {
            assert(old(ids)@.to_set().union(Set::empty()) =~= old(ids)@.to_set());
        },
    }
}

fn collect_requirements_in(types: &Vec<Type>, required: bool, ids: &mut Vec<TypeId>)
    requires
        old(ids)@.no_duplicates(),
    ensures
        final(ids)@.no_duplicates(),
        final(ids)@.to_set() == old(ids)@.to_set().union(
            required_parameters_in(types@, 0, required),
        ),
    decreases types, 2nat,
{
    let mut index = types.len();
    let ghost start = ids@.to_set();
    let mut pending: Vec<TypeId> = Vec::new();
    while index > 0
        invariant
            index <= types@.len(),
            pending@.no_duplicates(),
            pending@.to_set() == required_parameters_in(types@, index as nat, required),
        decreases index,
    {
        index = index - 1;
        let ghost before = pending@.to_set();
        collect_requirements(&types[index], required, &mut pending);
        proof {
            assert(pending@.to_set() =~= required_parameters_in(types@, index as nat, required));
        }
    }
    let mut position: usize = 0;
    while position < pending.len()
        invariant
            position <= pending@.len(),
            ids@.no_duplicates(),
            ids@.to_set() == start.union(pending@.take(position as int).to_set()),
            start == old(ids)@.to_set(),
        decreases pending@.len() - position,
    {
        insert_unique(ids, pending[position]);
        proof {
            assert(pending@.take(position + 1) == pending@.take(position as int).push(
                pending@[position as int],
            ));
            pending@.take(position as int).lemma_push_to_set_commute(pending@[position as int]);
            assert(ids@.to_set() =~= start.union(pending@.take(position + 1).to_set()));
        }
        position = position + 1;
    }
    proof {
        assert(pending@.take(pending@.len() as int) == pending@);
    }
}

/// The type parameters that must have a memory representation for `ty` to be well formed.
pub fn representable_requirements(ty: &Type) -> (ids: Vec<TypeId>)
    ensures
        ids@.no_duplicates(),
        ids@.to_set() == required_parameters(*ty, false),
{
    let mut ids: Vec<TypeId> = Vec::new();
    proof {
        assert(ids@.to_set() =~= Set::<TypeId>::empty());
    }
    collect_requirements(ty, false, &mut ids);
    proof {
        assert(Set::<TypeId>::empty().union(required_parameters(*ty, false)) =~= required_parameters(
            *ty,
            false,
        ));
    }
    ids
}

} // verus!

verus! {

/// Every part of `ty` has a memory representation, counting the type parameters in `available`
/// as representable.
pub open spec fn satisfies_requirement(ty: Type, available: Set<TypeId>) -> bool
    decreases ty, 0nat,
{
    match ty {
        Type::Parameter { id, .. } => available.contains(id),
        Type::Product(elements) => satisfies_requirement_in(elements@, 0, available),
        Type::Sum(members) => members@.len() > 0 && satisfies_requirement_in(members@, 0, available),
        Type::Unit | Type::Int8 | Type::Int16 | Type::Int32 | Type::Int64 | Type::UInt8
        | Type::UInt16 | Type::UInt32 | Type::UInt64 | Type::Float32 | Type::Float64 | Type::Ptr
        | Type::Address | Type::ByteSize | Type::USize => true,
        _ => false,
    }
}

pub open spec fn satisfies_requirement_in(types: Seq<Type>, from: nat, available: Set<TypeId>) -> bool
    decreases types, types.len() - from,
{
    if from >= types.len() {
        true
    } else {
        satisfies_requirement(types[from as int], available) && satisfies_requirement_in(
            types,
            from + 1,
            available,
        )
    }
}

fn contains_id(ids: &Vec<TypeId>, id: TypeId) -> (found: bool)
    ensures
        found == ids@.contains(id),
{
    let mut index: usize = 0;
    while index < ids.len()
        invariant
            index <= ids@.len(),
            forall|i: int| 0 <= i < index ==> ids@[i] != id,
        decreases ids@.len() - index,
    {
        if ids[index] == id {
            return true;
        }
        index = index + 1;
    }
    false
}

/// Whether `ty` has a memory representation once the parameters in `available` have one.
pub fn satisfies_representable_requirement(ty: &Type, available: &Vec<TypeId>) -> (satisfied: bool)
    ensures
        satisfied == satisfies_requirement(*ty, available@.to_set()),
    decreases ty,
{
    match ty {
        Type::Parameter { id, .. } => contains_id(available, *id),
        Type::Product(elements) => satisfies_all(elements, available),
        Type::Sum(members) => members.len() > 0 && satisfies_all(members, available),
        Type::Unit | Type::Int8 | Type::Int16 | Type::Int32 | Type::Int64 | Type::UInt8
        | Type::UInt16 | Type::UInt32 | Type::UInt64 | Type::Float32 | Type::Float64 | Type::Ptr
        | Type::Address | Type::ByteSize | Type::USize => true,
        _ => false,
    }
}

fn satisfies_all(types: &Vec<Type>, available: &Vec<TypeId>) -> (satisfied: bool)
    ensures
        satisfied == satisfies_requirement_in(types@, 0, available@.to_set()),
    decreases types,
{
    let mut index = types.len();
    while index > 0
        invariant
            index <= types@.len(),
            satisfies_requirement_in(types@, index as nat, available@.to_set()),
        decreases index,
    {
        index = index - 1;
        if !satisfies_representable_requirement(&types[index], available) {
            proof {
                lemma_unsatisfied_prefix(types@, index as nat, available@.to_set());
            }
            return false;
        }
    }
    true
}

proof fn lemma_unsatisfied_prefix(types: Seq<Type>, at: nat, available: Set<TypeId>)
    requires
        at < types.len(),
        !satisfies_requirement(types[at as int], available),
    ensures
        forall|from: nat| from <= at ==> !#[trigger] satisfies_requirement_in(types, from, available),
{
    assert forall|from: nat| from <= at implies !#[trigger] satisfies_requirement_in(
        types,
        from,
        available,
    ) by {
        lemma_unsatisfied_from(types, from, at, available);
    }
}

proof fn lemma_unsatisfied_from(types: Seq<Type>, from: nat, at: nat, available: Set<TypeId>)
    requires
        from <= at < types.len(),
        !satisfies_requirement(types[at as int], available),
    ensures
        !satisfies_requirement_in(types, from, available),
    decreases at - from,
{
    if from < at {
        lemma_unsatisfied_from(types, from + 1, at, available);
    }
}

/// The first replacement for `id` among `substitutions`.
pub open spec fn lookup_substitution(substitutions: Seq<(TypeId, Type)>, id: TypeId) -> Option<Type>
    decreases substitutions.len(),
{
    if substitutions.len() == 0 {
        None
    } else if substitutions[0].0 == id {
        Some(substitutions[0].1)
    } else {
        lookup_substitution(substitutions.drop_first(), id)
    }
}

/// `result` is `ty` with each type parameter replaced by its substitution.
pub open spec fn is_substitution(ty: Type, substitutions: Seq<(TypeId, Type)>, result: Type) -> bool
    decreases ty, 0nat,
{
    match ty {
        Type::Parameter { id, .. } => match lookup_substitution(substitutions, id) {
            Some(replacement) => result.deep_equal(replacement),
            None => result.deep_equal(ty),
        },
        Type::Cursor(element) => match result {
            Type::Cursor(r) => is_substitution(*element, substitutions, *r),
            _ => false,
        },
        Type::Region(element) => match result {
            Type::Region(r) => is_substitution(*element, substitutions, *r),
            _ => false,
        },
        Type::Packed(element) => match result {
            Type::Packed(r) => is_substitution(*element, substitutions, *r),
            _ => false,
        },
        Type::Product(elements) => match result {
            Type::Product(r) => r@.len() == elements@.len() && are_substitutions(
                elements@,
                substitutions,
                r@,
                0,
            ),
            _ => false,
        },
        Type::Sum(members) => match result {
            Type::Sum(r) => r@.len() == members@.len() && are_substitutions(
                members@,
                substitutions,
                r@,
                0,
            ),
            _ => false,
        },
        Type::Function { parameter, result: result_type } => match result {
            Type::Function { parameter: p, result: r } => is_substitution(
                *parameter,
                substitutions,
                *p,
            ) && is_substitution(*result_type, substitutions, *r),
            _ => false,
        },
        _ => result.deep_equal(ty),
    }
}

pub open spec fn are_substitutions(
    types: Seq<Type>,
    substitutions: Seq<(TypeId, Type)>,
    results: Seq<Type>,
    from: nat,
) -> bool
    decreases types, types.len() - from,
{
    if from >= types.len() {
        true
    } else {
        is_substitution(types[from as int], substitutions, results[from as int])
            && are_substitutions(types, substitutions, results, from + 1)
    }
}

fn find_substitution(substitutions: &Vec<(TypeId, Type)>, id: TypeId) -> (found: Option<&Type>)
    ensures
        found matches Some(t) ==> lookup_substitution(substitutions@, id) == Some(*t),
        found is None ==> lookup_substitution(substitutions@, id) is None,
{
    let mut index: usize = 0;
    proof {
        assert(substitutions@.skip(0) == substitutions@);
    }
    while index < substitutions.len()
        invariant
            index <= substitutions@.len(),
            lookup_substitution(substitutions@, id) == lookup_substitution(
                substitutions@.skip(index as int),
                id,
            ),
        decreases substitutions@.len() - index,
    {
        proof {
            assert(substitutions@.skip(index as int).drop_first() == substitutions@.skip(index + 1));
        }
        if substitutions[index].0 == id {
            return Some(&substitutions[index].1);
        }
        index = index + 1;
    }
    None
}

/// `ty` with each type parameter replaced by its substitution.
pub fn substitute_type(ty: &Type, substitutions: &Vec<(TypeId, Type)>) -> (result: Type)
    ensures
        is_substitution(*ty, substitutions@, result),
    decreases ty,
{
    match ty {
        Type::Parameter { id, .. } => match find_substitution(substitutions, *id) {
            Some(replacement) => duplicate_type(replacement),
            None => duplicate_type(ty),
        },
        Type::Cursor(element) => Type::Cursor(Box::new(substitute_type(element, substitutions))),
        Type::Region(element) => Type::Region(Box::new(substitute_type(element, substitutions))),
        Type::Packed(element) => Type::Packed(Box::new(substitute_type(element, substitutions))),
        Type::Product(elements) => Type::Product(substitute_types(elements, substitutions)),
        Type::Sum(members) => Type::Sum(substitute_types(members, substitutions)),
        Type::Function { parameter, result } => Type::Function {
            parameter: Box::new(substitute_type(parameter, substitutions)),
            result: Box::new(substitute_type(result, substitutions)),
        },
        _ => duplicate_type(ty),
    }
}

fn substitute_types(types: &Vec<Type>, substitutions: &Vec<(TypeId, Type)>) -> (results: Vec<Type>)
    ensures
        results@.len() == types@.len(),
        are_substitutions(types@, substitutions@, results@, 0),
    decreases types,
{
    let mut reversed: Vec<Type> = Vec::new();
    let mut index = types.len();
    while index > 0
        invariant
            index <= types@.len(),
            reversed@.len() == types@.len() - index,
            forall|i: int|
                index <= i < types@.len() ==> is_substitution(
                    #[trigger] types@[i],
                    substitutions@,
                    reversed@[types@.len() - 1 - i],
                ),
        decreases index,
    {
        index = index - 1;
        reversed.push(substitute_type(&types[index], substitutions));
    }
    let mut results: Vec<Type> = Vec::new();
    while reversed.len() > 0
        invariant
            results@.len() + reversed@.len() == types@.len(),
            forall|i: int|
                0 <= i < reversed@.len() ==> is_substitution(
                    #[trigger] types@[types@.len() - 1 - i],
                    substitutions@,
                    reversed@[i],
                ),
            forall|i: int|
                0 <= i < results@.len() ==> is_substitution(
                    #[trigger] types@[i],
                    substitutions@,
                    results@[i],
                ),
        decreases reversed@.len(),
    {
        let ghost k = reversed@.len() - 1;
        let next = reversed.pop().unwrap();
        proof {
            assert(types@.len() - 1 - k == results@.len());
        }
        results.push(next);
    }
    proof {
        lemma_are_substitutions(types@, substitutions@, results@, 0);
    }
    results
}

proof fn lemma_are_substitutions(
    types: Seq<Type>,
    substitutions: Seq<(TypeId, Type)>,
    results: Seq<Type>,
    from: nat,
)
    requires
        results.len() == types.len(),
        forall|i: int| 0 <= i < types.len() ==> is_substitution(#[trigger] types[i], substitutions, results[i]),
    ensures
        are_substitutions(types, substitutions, results, from),
    decreases types.len() - from,
{
    if from < types.len() {
        lemma_are_substitutions(types, substitutions, results, from + 1);
        assert(is_substitution(types[from as int], substitutions, results[from as int]));
    }
}

} // verus!

verus! {

/// Storage components and nesting depth of a type.
#[derive(Clone, Copy, Debug, PartialEq, Eq, Structural)]
pub struct RepresentationMeasure {
    pub units: usize,
    pub depth: usize,
}

pub open spec fn max_nat(a: nat, b: nat) -> nat {
    if a >= b {
        a
    } else {
        b
    }
}

/// An aggregate with `units` components whose deepest child has `depth`, when within the limits.
pub open spec fn composite(units: nat, depth: nat) -> Option<(nat, nat)> {
    if units <= MAX_REPRESENTATION_UNITS && depth + 1 <= MAX_REPRESENTATION_DEPTH {
        Some((units, depth + 1))
    } else {
        None
    }
}

/// Storage components and nesting depth of `ty`, or `None` past the limits.
pub open spec fn measure(ty: Type) -> Option<(nat, nat)>
    decreases ty, 0nat,
{
    match ty {
        Type::Product(elements) => match children_measure(elements@, 0) {
            Some(c) => composite(c.0, c.2),
            None => None,
        },
        Type::Sum(members) => match children_measure(members@, 0) {
            Some(c) => composite(c.1 + 1, c.2),
            None => None,
        },
        Type::Function { parameter, result } => match measure(*parameter) {
            Some(p) => match measure(*result) {
                Some(r) => {
                    let units = max_nat(max_nat(p.0, r.0), 2);
                    let depth = max_nat(p.1, r.1);
                    if units <= MAX_REPRESENTATION_UNITS && depth <= MAX_REPRESENTATION_DEPTH {
                        Some((units, depth))
                    } else {
                        None
                    }
                },
                None => None,
            },
            None => None,
        },
        _ => Some((1, 0)),
    }
}

/// Total units, largest units and largest depth of the types from index `from` on.
pub open spec fn children_measure(types: Seq<Type>, from: nat) -> Option<(nat, nat, nat)>
    decreases types, types.len() - from,
{
    if from >= types.len() {
        Some((0, 0, 0))
    } else {
        match measure(types[from as int]) {
            Some(m) => match children_measure(types, from + 1) {
                Some(c) => Some((m.0 + c.0, max_nat(m.0, c.1), max_nat(m.1, c.2))),
                None => None,
            },
            None => None,
        }
    }
}

proof fn lemma_measure_bounds(ty: Type)
    ensures
        measure(ty) matches Some(m) ==> m.0 <= MAX_REPRESENTATION_UNITS && m.1
            <= MAX_REPRESENTATION_DEPTH,
{
}

fn max_usize(a: usize, b: usize) -> (m: usize)
    ensures
        m == max_nat(a as nat, b as nat),
{
    if a >= b {
        a
    } else {
        b
    }
}

fn composite_measure(units: usize, depth: usize) -> (m: Option<RepresentationMeasure>)
    requires
        depth <= MAX_REPRESENTATION_DEPTH,
    ensures
        m matches Some(r) ==> composite(units as nat, depth as nat) == Some((r.units as nat, r.depth as nat)),
        m is None ==> composite(units as nat, depth as nat) is None,
{
    let deeper = depth + 1;
    if units <= MAX_REPRESENTATION_UNITS && deeper <= MAX_REPRESENTATION_DEPTH {
        Some(RepresentationMeasure { units, depth: deeper })
    } else {
        None
    }
}

/// Storage components and nesting depth of `ty`, or `None` past the limits.
fn measure_type(ty: &Type) -> (m: Option<RepresentationMeasure>)
    ensures
        m matches Some(r) ==> measure(*ty) == Some((r.units as nat, r.depth as nat)),
        m is None ==> measure(*ty) is None,
    decreases ty, 1nat,
{
    match ty {
        Type::Product(elements) => match measure_children(elements) {
            Some((sum, _, depth)) => composite_measure(sum, depth),
            None => None,
        },
        Type::Sum(members) => match measure_children(members) {
            Some((_, largest, depth)) => composite_measure(largest + 1, depth),
            None => None,
        },
        Type::Function { parameter, result } => {
            let p = match measure_type(parameter) {
                Some(p) => p,
                None => {
                    return None;
                },
            };
            let r = match measure_type(result) {
                Some(r) => r,
                None => {
                    return None;
                },
            };
            let units = max_usize(max_usize(p.units, r.units), 2);
            let depth = max_usize(p.depth, r.depth);
            if units <= MAX_REPRESENTATION_UNITS && depth <= MAX_REPRESENTATION_DEPTH {
                Some(RepresentationMeasure { units, depth })
            } else {
                None
            }
        },
        _ => Some(RepresentationMeasure { units: 1, depth: 0 }),
    }
}

/// The total units saturate at `usize::MAX`.
pub open spec fn saturated(total: nat) -> nat {
    if total <= usize::MAX {
        total
    } else {
        usize::MAX as nat
    }
}

fn measure_children(types: &Vec<Type>) -> (m: Option<(usize, usize, usize)>)
    ensures
        m matches Some(c) ==> (children_measure(types@, 0) matches Some(d) && c.0 == saturated(d.0)
            && c.1 == d.1 && c.2 == d.2),
        m matches Some(c) ==> c.1 <= MAX_REPRESENTATION_UNITS && c.2 <= MAX_REPRESENTATION_DEPTH,
        m is None ==> children_measure(types@, 0) is None,
    decreases types, 2nat,
{
    let mut index = types.len();
    let mut sum: usize = 0;
    let mut largest: usize = 0;
    let mut depth: usize = 0;
    let ghost mut total: nat = 0;
    while index > 0
        invariant
            index <= types@.len(),
            largest <= MAX_REPRESENTATION_UNITS,
            depth <= MAX_REPRESENTATION_DEPTH,
            sum == saturated(total),
            children_measure(types@, index as nat) == Some((total, largest as nat, depth as nat)),
        decreases index,
    {
        index = index - 1;
        let child = match measure_type(&types[index]) {
            Some(child) => child,
            None => {
                proof {
                    lemma_children_none(types@, index as nat);
                }
                return None;
            },
        };
        proof {
            lemma_measure_bounds(types@[index as int]);
            total = child.units as nat + total;
        }
        sum = child.units.saturating_add(sum);
        largest = max_usize(child.units, largest);
        depth = max_usize(child.depth, depth);
    }
    Some((sum, largest, depth))
}

proof fn lemma_children_none(types: Seq<Type>, at: nat)
    requires
        at < types.len(),
        measure(types[at as int]) is None,
    ensures
        children_measure(types, 0) is None,
{
    lemma_children_none_from(types, 0, at);
}


proof fn lemma_children_none_from(types: Seq<Type>, from: nat, at: nat)
    requires
        from <= at < types.len(),
        measure(types[at as int]) is None,
    ensures
        children_measure(types, from) is None,
    decreases at - from,
{
    if from < at {
        lemma_children_none_from(types, from + 1, at);
    }
}

/// Number of storage components of `ty`, or `None` when it exceeds the representation limits.
pub fn representation_units(ty: &Type) -> (units: Option<usize>)
    ensures
        units matches Some(u) ==> measure(*ty) matches Some(m) && m.0 == u,
        units is None ==> measure(*ty) is None,
{
    match measure_type(ty) {
        Some(m) => Some(m.units),
        None => None,
    }
}

/// `found` reports a type whose representation exceeds the limits, at `span`.
pub open spec fn is_too_large_diagnostic(span: Span, found: Diagnostic) -> bool {
    &&& found.message@ == "type representation is too large"@
    &&& found.notes@.len() == 0
    &&& found.primary matches Some(label) && label.span == span && label.message@
        == "malc supports at most 64 nested levels and 65536 storage components"@
}

/// Accepts a type within the representation limits.
pub fn ensure_representable(ty: &Type, span: Span) -> (result: Result<(), Diagnostic>)
    ensures
        result is Ok <==> measure(*ty) is Some,
        result matches Err(found) ==> is_too_large_diagnostic(span, found),
{
    if representation_units(ty).is_none() {
        return Err(
            Diagnostic::error("type representation is too large").with_primary(
                span,
                "malc supports at most 64 nested levels and 65536 storage components",
            ),
        );
    }
    Ok(())
}

} // verus!
