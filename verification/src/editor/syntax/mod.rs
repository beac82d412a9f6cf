use vstd::prelude::*;

use crate::diagnostic::Diagnostic;
use crate::editor::SymbolKind;
use crate::lexer::{
    lemma_lexed_in_bytes, lex, lexed, lexing_fails, on_boundaries, well_formed_tokens, Token,
    TokenKind,
};
use crate::source::{FileId, SourceFile, Span, byte_offset, char_at, is_boundary};
use crate::text::{
    chars_between, holds_text, insert_sorted, string_from_chars, strictly_sorted, text_less,
};

pub mod declaration;

use declaration::{declares_function, function_declarations};

verus! {

/// A name in the text, with how an editor should show it.
#[derive(Clone, Debug, Eq, PartialEq)]
pub struct SyntaxToken {
    pub span: Span,
    pub kind: SymbolKind,
    pub declaration: bool,
}

/// A `require "path";` declaration at the head of a file.
#[derive(Clone, Debug, Eq, PartialEq)]
pub struct SyntaxRequirement {
    declaration_span: Span,
    path_span: Span,
    path: Vec<u8>,
}

/// What an editor can know of a file from its tokens alone, without parsing it.
#[derive(Clone, Debug, Eq, PartialEq)]
pub struct SyntaxDocument {
    tokens: Vec<SyntaxToken>,
    functions: Vec<String>,
    requirements: Vec<SyntaxRequirement>,
}

/// How the token `i` of `s` is shown, if it is a name.
pub open spec fn symbol_kind_at(s: Seq<Token>, i: int) -> Option<SymbolKind> {
    if s[i].kind is TypeIdentifier {
        Some(SymbolKind::Type)
    } else if s[i].kind is ValueIdentifier {
        if declares_function(s, i) || (i >= 1 && s[i - 1].kind is Dot) || (i + 1 < s.len() && s[i
            + 1].kind is LeftParen) {
            Some(SymbolKind::Function)
        } else {
            Some(SymbolKind::Value)
        }
    } else {
        None
    }
}

/// The name at token `i` of `s` is being declared: it names a function at the top level, or `::`
/// or `:=` follows it.
pub open spec fn is_declaration_at(s: Seq<Token>, i: int) -> bool {
    declares_function(s, i) || (i + 1 < s.len() && (s[i + 1].kind is DoubleColon || s[i
        + 1].kind is Bind))
}

/// The names among the first `n` tokens of `s`, in order.
pub open spec fn syntax_tokens(s: Seq<Token>, n: int) -> Seq<SyntaxToken>
    decreases n,
{
    if n <= 0 {
        seq![]
    } else {
        let before = syntax_tokens(s, n - 1);
        match symbol_kind_at(s, n - 1) {
            Some(kind) => before.push(
                SyntaxToken {
                    span: s[n - 1].span,
                    kind,
                    declaration: is_declaration_at(s, n - 1),
                },
            ),
            None => before,
        }
    }
}

/// Every type identifier among the first `n` tokens is a name shown as a type.
pub open spec fn types_shown(s: Seq<Token>, n: int, names: Seq<SyntaxToken>) -> bool {
    forall|i: int|
        0 <= i < n && (#[trigger] s[i]).kind is TypeIdentifier ==> exists|j: int|
            0 <= j < names.len() && (#[trigger] names[j]).span == s[i].span && names[j].kind
                == SymbolKind::Type
}

/// Every value identifier among the first `n` tokens is a name shown as a value or a function.
pub open spec fn values_shown(s: Seq<Token>, n: int, names: Seq<SyntaxToken>) -> bool {
    forall|i: int|
        0 <= i < n && (#[trigger] s[i]).kind is ValueIdentifier ==> exists|j: int|
            0 <= j < names.len() && (#[trigger] names[j]).span == s[i].span && (names[j].kind
                == SymbolKind::Value || names[j].kind == SymbolKind::Function)
}

/// Every name shown as a type is a type identifier among the first `n` tokens, and every name
/// shown as a value or a function is a value identifier among them.
pub open spec fn names_from_identifiers(s: Seq<Token>, n: int, names: Seq<SyntaxToken>) -> bool {
    &&& forall|j: int|
        0 <= j < names.len() && (#[trigger] names[j]).kind == SymbolKind::Type ==> exists|i: int|
            0 <= i < n && (#[trigger] s[i]).kind is TypeIdentifier && s[i].span == names[j].span
    &&& forall|j: int|
        0 <= j < names.len() && ((#[trigger] names[j]).kind == SymbolKind::Value || names[j].kind
            == SymbolKind::Function) ==> exists|i: int|
            0 <= i < n && (#[trigger] s[i]).kind is ValueIdentifier && s[i].span == names[j].span
}

/// The names among the first `n` tokens show identifiers by their lexical kind: each type
/// identifier is shown as a type, each value identifier as a value or a function, and no name
/// is shown as a type or as a value or function unless it is an identifier of that kind.
pub proof fn lemma_syntax_token_kinds(s: Seq<Token>, n: int)
    requires
        0 <= n <= s.len(),
    ensures
        types_shown(s, n, syntax_tokens(s, n)),
        values_shown(s, n, syntax_tokens(s, n)),
        names_from_identifiers(s, n, syntax_tokens(s, n)),
    decreases n,
{
    if n > 0 {
        lemma_syntax_token_kinds(s, n - 1);
        let before = syntax_tokens(s, n - 1);
        let names = syntax_tokens(s, n);
        assert forall|j: int| 0 <= j < before.len() implies names[j] == before[j] by {}
        assert(types_shown(s, n, names)) by {
            assert forall|i: int| 0 <= i < n && (#[trigger] s[i]).kind is TypeIdentifier implies exists|
                j: int|
                0 <= j < names.len() && (#[trigger] names[j]).span == s[i].span && names[j].kind
                    == SymbolKind::Type by {
                if i < n - 1 {
                    let j = choose|j: int|
                        0 <= j < before.len() && (#[trigger] before[j]).span == s[i].span
                            && before[j].kind == SymbolKind::Type;
                    assert(names[j] == before[j]);
                } else {
                    assert(names[before.len() as int].span == s[i].span);
                }
            }
        }
        assert(values_shown(s, n, names)) by {
            assert forall|i: int| 0 <= i < n && (#[trigger] s[i]).kind is ValueIdentifier implies exists|
                j: int|
                0 <= j < names.len() && (#[trigger] names[j]).span == s[i].span && (names[j].kind
                    == SymbolKind::Value || names[j].kind == SymbolKind::Function) by {
                if i < n - 1 {
                    let j = choose|j: int|
                        0 <= j < before.len() && (#[trigger] before[j]).span == s[i].span && (
                        before[j].kind == SymbolKind::Value || before[j].kind
                            == SymbolKind::Function);
                    assert(names[j] == before[j]);
                } else {
                    assert(names[before.len() as int].span == s[i].span);
                }
            }
        }
        assert(names_from_identifiers(s, n, names)) by {
            assert forall|j: int|
                0 <= j < names.len() && (#[trigger] names[j]).kind == SymbolKind::Type implies exists|
                i: int| 0 <= i < n && (#[trigger] s[i]).kind is TypeIdentifier && s[i].span
                == names[j].span by {
                if j < before.len() {
                    assert(names[j] == before[j]);
                    let i = choose|i: int|
                        0 <= i < n - 1 && (#[trigger] s[i]).kind is TypeIdentifier && s[i].span
                            == before[j].span;
                    assert(s[i].span == names[j].span);
                } else {
                    assert(s[n - 1].span == names[j].span);
                }
            }
            assert forall|j: int|
                0 <= j < names.len() && ((#[trigger] names[j]).kind == SymbolKind::Value
                    || names[j].kind == SymbolKind::Function) implies exists|i: int|
                0 <= i < n && (#[trigger] s[i]).kind is ValueIdentifier && s[i].span
                    == names[j].span by {
                if j < before.len() {
                    assert(names[j] == before[j]);
                    let i = choose|i: int|
                        0 <= i < n - 1 && (#[trigger] s[i]).kind is ValueIdentifier && s[i].span
                            == before[j].span;
                    assert(s[i].span == names[j].span);
                } else {
                    assert(s[n - 1].span == names[j].span);
                }
            }
        }
    }
}

/// The characters of the text that token `i` covers; its span is in bytes.
pub open spec fn token_text(text: Seq<char>, s: Seq<Token>, i: int) -> Seq<char> {
    text.subrange(char_at(text, s[i].span.start as int), char_at(text, s[i].span.end as int))
}

/// Every token of `s` is in order and lies between characters of `text`.
pub open spec fn spans_text(s: Seq<Token>, text: Seq<char>) -> bool {
    &&& on_boundaries(s, text)
    &&& forall|i: int|
        0 <= i < s.len() ==> char_at(text, (#[trigger] s[i]).span.start as int) <= char_at(
            text,
            s[i].span.end as int,
        )
}

/// The bytes of a symbol literal.
pub open spec fn symbol_bytes(kind: TokenKind) -> Seq<u8> {
    match kind {
        TokenKind::Symbol(bytes) => bytes@,
        _ => seq![],
    }
}

/// Tokens `cursor`, `cursor + 1` and `cursor + 2` of `s` are `require`, a symbol and `;`.
pub open spec fn is_requirement_at(s: Seq<Token>, cursor: int) -> bool {
    &&& 0 <= cursor
    &&& cursor + 3 <= s.len()
    &&& s[cursor].kind is Require
    &&& s[cursor + 1].kind is Symbol
    &&& s[cursor + 2].kind is Semicolon
}

impl SyntaxRequirement {
    pub closed spec fn spec_declaration_span(&self) -> Span {
        self.declaration_span
    }

    pub closed spec fn spec_path_span(&self) -> Span {
        self.path_span
    }

    pub closed spec fn spec_path(&self) -> Seq<u8> {
        self.path@
    }

    /// The whole declaration, from `require` to `;`.
    pub fn declaration_span(&self) -> (span: Span)
        ensures
            span == self.spec_declaration_span(),
    {
        self.declaration_span
    }

    /// The path inside the quotes.
    pub fn path_span(&self) -> (span: Span)
        ensures
            span == self.spec_path_span(),
    {
        self.path_span
    }

    /// The bytes of the path.
    pub fn path(&self) -> (path: &[u8])
        ensures
            path@ == self.spec_path(),
    {
        self.path.as_slice()
    }
}

/// `r` is the requirement written by the tokens `cursor..cursor + 3` of `s`.
pub open spec fn describes_requirement(r: SyntaxRequirement, s: Seq<Token>, cursor: int) -> bool {
    &&& is_requirement_at(s, cursor)
    &&& r.spec_declaration_span().file == s[cursor].span.file
    &&& r.spec_declaration_span().start == s[cursor].span.start
    &&& r.spec_declaration_span().end == s[cursor + 2].span.end
    &&& r.spec_path_span().file == s[cursor + 1].span.file
    &&& r.spec_path_span().start == s[cursor + 1].span.start + 1
    &&& r.spec_path_span().end == s[cursor + 1].span.end - 1
    &&& r.spec_path() == symbol_bytes(s[cursor + 1].kind)
}

impl SyntaxDocument {
    pub closed spec fn spec_tokens(&self) -> Seq<SyntaxToken> {
        self.tokens@
    }

    pub closed spec fn spec_functions(&self) -> Seq<String> {
        self.functions@
    }

    pub closed spec fn spec_requirements(&self) -> Seq<SyntaxRequirement> {
        self.requirements@
    }

    /// The names of the file, in order.
    pub fn tokens(&self) -> (tokens: &[SyntaxToken])
        ensures
            tokens@ == self.spec_tokens(),
    {
        self.tokens.as_slice()
    }

    /// The names of the functions declared at the top level, sorted, each once.
    pub fn functions(&self) -> (functions: &[String])
        ensures
            functions@ == self.spec_functions(),
    {
        self.functions.as_slice()
    }

    /// The `require` declarations at the head of the file, in order.
    pub fn requirements(&self) -> (requirements: &[SyntaxRequirement])
        ensures
            requirements@ == self.spec_requirements(),
    {
        self.requirements.as_slice()
    }
}

/// `t` is the name of a function declared at the top level of the tokens `s` of `text`.
pub open spec fn names_declared_function(text: Seq<char>, s: Seq<Token>, t: Seq<char>) -> bool {
    exists|d: int| declares_function(s, d) && t == #[trigger] token_text(text, s, d)
}

/// `document` is what the tokens `s` of the text `text` show.
#[verifier::opaque]
pub open spec fn describes(document: SyntaxDocument, text: Seq<char>, s: Seq<Token>) -> bool {
    let functions = document.spec_functions();
    let requirements = document.spec_requirements();
    &&& document.spec_tokens() == syntax_tokens(s, s.len() as int)
    &&& forall|i: int, j: int|
        0 <= i < j < functions.len() ==> text_less(functions[i]@, functions[j]@)
    &&& forall|i: int|
        0 <= i < functions.len() ==> names_declared_function(text, s, #[trigger] functions[i]@)
    &&& forall|d: int|
        #[trigger] declares_function(s, d) ==> names_text(functions, token_text(text, s, d))
    &&& forall|j: int|
        0 <= j < requirements.len() ==> describes_requirement(
            #[trigger] requirements[j],
            s,
            3 * j,
        )
    &&& !is_requirement_at(s, 3 * requirements.len() as int)
}

fn holds_index(indices: &Vec<usize>, index: usize) -> (held: bool)
    ensures
        held == indices@.contains(index),
{
    let mut k: usize = 0;
    while k < indices.len()
        invariant
            k <= indices@.len(),
            forall|j: int| 0 <= j < k ==> indices@[j] != index,
        decreases indices@.len() - k,
    {
        if indices[k] == index {
            return true;
        }
        k = k + 1;
    }
    false
}

fn copy_bytes(bytes: &Vec<u8>) -> (copy: Vec<u8>)
    ensures
        copy@ == bytes@,
{
    let mut copy: Vec<u8> = Vec::new();
    let mut k: usize = 0;
    while k < bytes.len()
        invariant
            k <= bytes@.len(),
            copy@ == bytes@.take(k as int),
        decreases bytes@.len() - k,
    {
        copy.push(bytes[k]);
        k = k + 1;
        assert(copy@ =~= bytes@.take(k as int));
    }
    assert(bytes@.take(bytes@.len() as int) =~= bytes@);
    copy
}

/// The names among `tokens`, with how each is shown.
fn name_tokens(tokens: &Vec<Token>, declarations: &Vec<usize>) -> (names: Vec<SyntaxToken>)
    requires
        forall|i: int|
            0 <= i < tokens@.len() ==> (declares_function(tokens@, i) <==> declarations@.contains(
                i as usize,
            )),
    ensures
        names@ == syntax_tokens(tokens@, tokens@.len() as int),
{
    let length = tokens.len();
    let mut names: Vec<SyntaxToken> = Vec::new();
    let mut index: usize = 0;
    while index < length
        invariant
            index <= length,
            length == tokens@.len(),
            forall|i: int|
                0 <= i < tokens@.len() ==> (declares_function(tokens@, i) <==> declarations@.contains(
                    i as usize,
                )),
            names@ == syntax_tokens(tokens@, index as int),
        decreases length - index,
    {
        let declared = holds_index(declarations, index);
        let called = (index >= 1 && matches!(tokens[index - 1].kind, TokenKind::Dot)) || (index + 1
            < length && matches!(tokens[index + 1].kind, TokenKind::LeftParen));
        let kind = match tokens[index].kind {
            TokenKind::TypeIdentifier => Some(SymbolKind::Type),
            TokenKind::ValueIdentifier => {
                if declared || called {
                    Some(SymbolKind::Function)
                } else {
                    Some(SymbolKind::Value)
                }
            },
            _ => None,
        };
        assert(kind == symbol_kind_at(tokens@, index as int));
        match kind {
            Some(kind) => {
                let declaration = declared || (index + 1 < length && (matches!(
                    tokens[index + 1].kind,
                    TokenKind::DoubleColon,
                ) || matches!(tokens[index + 1].kind, TokenKind::Bind)));
                names.push(SyntaxToken { span: tokens[index].span, kind, declaration });
            },
            None => {},
        }
        index = index + 1;
    }
    names
}

fn requirement_here(tokens: &Vec<Token>, cursor: usize) -> (here: bool)
    ensures
        here == is_requirement_at(tokens@, cursor as int),
{
    tokens.len() >= 3 && cursor <= tokens.len() - 3 && matches!(
        tokens[cursor].kind,
        TokenKind::Require,
    ) && matches!(tokens[cursor + 1].kind, TokenKind::Symbol(_)) && matches!(
        tokens[cursor + 2].kind,
        TokenKind::Semicolon,
    )
}

/// The requirement written by the tokens `cursor..cursor + 3`.
fn requirement_at(tokens: &Vec<Token>, cursor: usize) -> (requirement: SyntaxRequirement)
    requires
        is_requirement_at(tokens@, cursor as int),
        tokens@[cursor + 1].span.start < tokens@[cursor + 1].span.end,
    ensures
        describes_requirement(requirement, tokens@, cursor as int),
{
    let length = tokens.len();
    assert(cursor + 3 <= length);
    let symbol = &tokens[cursor + 1];
    let path = match &symbol.kind {
        TokenKind::Symbol(bytes) => copy_bytes(bytes),
        _ => Vec::new(),
    };
    SyntaxRequirement {
        declaration_span: Span::new(
            tokens[cursor].span.file,
            tokens[cursor].span.start,
            tokens[cursor + 2].span.end,
        ),
        path_span: Span::new(symbol.span.file, symbol.span.start + 1, symbol.span.end - 1),
        path,
    }
}

/// The `require` declarations at the head of `tokens`.
fn requirements(tokens: &Vec<Token>) -> (found: Vec<SyntaxRequirement>)
    requires
        forall|i: int|
            0 <= i < tokens@.len() - 1 ==> (#[trigger] tokens@[i]).span.start < tokens@[i].span.end,
    ensures
        forall|j: int|
            0 <= j < found@.len() ==> describes_requirement(
                #[trigger] found@[j],
                tokens@,
                3 * j,
            ),
        !is_requirement_at(tokens@, 3 * found@.len() as int),
{
    let length = tokens.len();
    let mut found: Vec<SyntaxRequirement> = Vec::new();
    let mut cursor: usize = 0;
    let mut here = requirement_here(tokens, cursor);
    while here
        invariant
            here == is_requirement_at(tokens@, cursor as int),
            length == tokens@.len(),
            cursor == 3 * found@.len(),
            cursor <= tokens@.len(),
            forall|i: int|
                0 <= i < tokens@.len() - 1 ==> (#[trigger] tokens@[i]).span.start
                    < tokens@[i].span.end,
            forall|j: int|
                0 <= j < found@.len() ==> describes_requirement(
                    #[trigger] found@[j],
                    tokens@,
                    3 * j,
                ),
        decreases tokens@.len() - cursor,
    {
        assert(tokens@[cursor + 1].span.start < tokens@[cursor + 1].span.end);
        let requirement = requirement_at(tokens, cursor);
        let ghost before = found@;
        found.push(requirement);
        assert forall|j: int|
            0 <= j < found@.len() implies describes_requirement(
            #[trigger] found@[j],
            tokens@,
            3 * j,
        ) by {
            if j < before.len() {
                assert(found@[j] == before[j]);
                assert(is_requirement_at(tokens@, 3 * j));
            } else {
                assert(j == before.len());
                assert(3 * j == cursor);
                assert(is_requirement_at(tokens@, cursor as int));
                assert(found@[j] == requirement);
            }
        }
        cursor = cursor + 3;
        here = requirement_here(tokens, cursor);
    }
    found
}

/// Some entry of `names` has the characters `t`.
pub open spec fn names_text(names: Seq<String>, t: Seq<char>) -> bool {
    exists|i: int| 0 <= i < names.len() && #[trigger] names[i]@ == t
}

/// `t` is the text of one of the tokens that `declarations` point at.
pub open spec fn named_by(text: Seq<char>, s: Seq<Token>, declarations: Seq<usize>, t: Seq<char>) -> bool {
    exists|w: int|
        0 <= w < declarations.len() && t == token_text(text, s, #[trigger] declarations[w] as int)
}

/// The names of the functions that `declarations` point at, sorted, each once.
fn function_names(source: &SourceFile, tokens: &Vec<Token>, declarations: &Vec<usize>) -> (names:
    Vec<String>)
    requires
        source.wf(),
        spans_text(tokens@, source.spec_text()),
        forall|i: int|
            0 <= i < declarations@.len() ==> 0 <= #[trigger] declarations@[i] < tokens@.len(),
    ensures
        forall|i: int, j: int| 0 <= i < j < names@.len() ==> text_less(names@[i]@, names@[j]@),
        forall|t: Seq<char>|
            #[trigger] names_text(names@, t) <==> named_by(
                source.spec_text(),
                tokens@,
                declarations@,
                t,
            ),
{
    let ghost s = tokens@;
    let ghost text = source.spec_text();
    let chars = source.chars();
    let mut sorted: Vec<Vec<char>> = Vec::new();
    let mut k: usize = 0;
    while k < declarations.len()
        invariant
            k <= declarations@.len(),
            chars@ == text,
            s == tokens@,
            source.wf(),
            text == source.spec_text(),
            spans_text(s, text),
            forall|i: int|
                0 <= i < declarations@.len() ==> 0 <= #[trigger] declarations@[i] < tokens@.len(),
            strictly_sorted(sorted@),
            forall|t: Seq<char>|
                #[trigger] holds_text(sorted@, t) <==> exists|w: int|
                    0 <= w < k && t == token_text(text, s, #[trigger] declarations@[w] as int),
        decreases declarations@.len() - k,
    {
        let at = declarations[k];
        let token = &tokens[at];
        assert(s[at as int] == *token);
        let first = match source.char_position(token.span.start) {
            Some(index) => index,
            None => {
                proof {
                    assert(on_boundaries(s, text));
                    assert(is_boundary(text, s[at as int].span.start as int));
                }
                0
            },
        };
        let last = match source.char_position(token.span.end) {
            Some(index) => index,
            None => {
                proof {
                    assert(is_boundary(text, s[at as int].span.end as int));
                }
                0
            },
        };
        proof {
            assert(first <= last);
        }
        let name = chars_between(chars, first, last);
        let ghost before = sorted@;
        insert_sorted(&mut sorted, name);
        proof {
            assert forall|t: Seq<char>|
                #[trigger] holds_text(sorted@, t) <==> exists|w: int|
                    0 <= w < k + 1 && t == token_text(text, s, #[trigger] declarations@[w] as int) by {
                if t == token_text(text, s, declarations@[k as int] as int) {
                    assert(holds_text(sorted@, t));
                }
                if exists|w: int|
                    0 <= w < k + 1 && t == token_text(text, s, #[trigger] declarations@[w] as int) {
                    let w = choose|w: int|
                        0 <= w < k + 1 && t == token_text(text, s, #[trigger] declarations@[w] as int);
                    if w < k {
                        assert(holds_text(before, t));
                    }
                }
            }
        }
        k = k + 1;
    }
    let mut names: Vec<String> = Vec::new();
    let mut m: usize = 0;
    while m < sorted.len()
        invariant
            m <= sorted@.len(),
            names@.len() == m,
            forall|i: int| 0 <= i < m ==> (#[trigger] names@[i])@ == sorted@[i]@,
        decreases sorted@.len() - m,
    {
        names.push(string_from_chars(&sorted[m]));
        m = m + 1;
    }
    proof {
        assert forall|i: int, j: int| 0 <= i < j < names@.len() implies text_less(
            names@[i]@,
            names@[j]@,
        ) by {
            assert(names@[i]@ == sorted@[i]@);
            assert(names@[j]@ == sorted@[j]@);
        }
        assert forall|t: Seq<char>|
            #[trigger] names_text(names@, t) <==> named_by(text, s, declarations@, t) by {
            if names_text(names@, t) {
                let i = choose|i: int| 0 <= i < names@.len() && #[trigger] names@[i]@ == t;
                assert(sorted@[i]@ == t);
                assert(holds_text(sorted@, t));
                assert(k == declarations@.len());
            }
            if named_by(text, s, declarations@, t) {
                assert(holds_text(sorted@, t));
                let i = choose|i: int| 0 <= i < sorted@.len() && #[trigger] sorted@[i]@ == t;
                assert(names@[i]@ == t);
            }
        }
    }
    names
}

/// The sorted names of the declarations are exactly the names of the declared functions.
proof fn lemma_functions_described(
    text: Seq<char>,
    s: Seq<Token>,
    declarations: Seq<usize>,
    f: Seq<String>,
)
    requires
        s.len() <= usize::MAX,
        forall|i: int|
            0 <= i < s.len() ==> (declares_function(s, i) <==> declarations.contains(i as usize)),
        forall|i: int|
            0 <= i < declarations.len() ==> declares_function(s, #[trigger] declarations[i] as int),
        forall|t: Seq<char>| #[trigger] names_text(f, t) <==> named_by(text, s, declarations, t),
    ensures
        forall|i: int| 0 <= i < f.len() ==> names_declared_function(text, s, #[trigger] f[i]@),
        forall|d: int|
            #[trigger] declares_function(s, d) ==> names_text(f, token_text(text, s, d)),
{
    assert forall|i: int| 0 <= i < f.len() implies names_declared_function(
        text,
        s,
        #[trigger] f[i]@,
    ) by {
        assert(f[i]@ == f[i]@);
        assert(names_text(f, f[i]@));
        assert(named_by(text, s, declarations, f[i]@));
        let w = choose|w: int|
            0 <= w < declarations.len() && f[i]@ == token_text(text, s, #[trigger] declarations[w] as int);
        let d = declarations[w] as int;
        assert(declares_function(s, d) && f[i]@ == token_text(text, s, d));
    }
    assert forall|d: int| #[trigger] declares_function(s, d) implies names_text(
        f,
        token_text(text, s, d),
    ) by {
        assert(declarations.contains(d as usize));
        let w = choose|w: int| 0 <= w < declarations.len() && declarations[w] == d as usize;
        assert(declarations[w] as int == d);
        assert(token_text(text, s, d) == token_text(text, s, declarations[w] as int));
        assert(named_by(text, s, declarations, token_text(text, s, d)));
        assert(names_text(f, token_text(text, s, d)));
    }
}

/// What the tokens of a file show: its names, the functions it declares at the top level, and
/// the `require` declarations at its head.
pub fn index_tokens(source: &SourceFile, tokens: &Vec<Token>) -> (document: SyntaxDocument)
    requires
        source.wf(),
        well_formed_tokens(
            tokens@,
            source.spec_id(),
            byte_offset(source.spec_text(), source.spec_text().len() as int),
        ),
        spans_text(tokens@, source.spec_text()),
    ensures
        describes(document, source.spec_text(), tokens@),
{
    let ghost s = tokens@;
    let ghost text = source.spec_text();
    let declarations = function_declarations(tokens);
    let length = tokens.len();
    let names = name_tokens(tokens, &declarations);
    assert(forall|i: int|
        0 <= i < declarations@.len() ==> 0 <= #[trigger] declarations@[i] < tokens@.len());
    let functions = function_names(source, tokens, &declarations);
    assert(forall|i: int|
        0 <= i < tokens@.len() - 1 ==> (#[trigger] tokens@[i]).span.start < tokens@[i].span.end);
    let found = requirements(tokens);
    let document = SyntaxDocument { tokens: names, functions, requirements: found };
    proof {
        reveal(describes);
        lemma_functions_described(text, s, declarations@, document.spec_functions());
        assert(document.spec_tokens() == syntax_tokens(s, s.len() as int));
        assert(document.spec_requirements() == found@);
    }
    document
}

/// `document` is what the tokens of the text `text` of file `file` show, for some division of
/// the text into tokens.
pub open spec fn indexes(document: SyntaxDocument, file: FileId, text: Seq<char>) -> bool {
    exists|s: Seq<Token>| lexed(s, file, text) && #[trigger] describes(document, text, s)
}

proof fn lemma_indexes(document: SyntaxDocument, file: FileId, text: Seq<char>, s: Seq<Token>)
    requires
        lexed(s, file, text),
        describes(document, text, s),
    ensures
        indexes(document, file, text),
{
}

/// The names of an indexed file show its identifiers by their lexical kind: for the tokens the
/// text lexes into, each type identifier is a name shown as a type, each value identifier a
/// name shown as a value or a function, and nothing else is shown as either.
pub proof fn lemma_indexed_token_kinds(document: SyntaxDocument, file: FileId, text: Seq<char>)
    requires
        indexes(document, file, text),
    ensures
        exists|s: Seq<Token>|
            #[trigger] lexed(s, file, text) && types_shown(s, s.len() as int, document.spec_tokens())
                && values_shown(s, s.len() as int, document.spec_tokens()) && names_from_identifiers(
                s,
                s.len() as int,
                document.spec_tokens(),
            ),
{
    let s = choose|s: Seq<Token>| lexed(s, file, text) && #[trigger] describes(document, text, s);
    reveal(describes);
    lemma_syntax_token_kinds(s, s.len() as int);
}

/// Indexes a file from its tokens alone: the names it uses, the functions it declares at the top
/// level, and the `require` declarations at its head. Fails where the text does not lex.
pub fn analyze(source: &SourceFile) -> (result: Result<SyntaxDocument, Diagnostic>)
    requires
        source.wf(),
    ensures
        match result {
            Ok(document) => indexes(document, source.spec_id(), source.spec_text()),
            Err(found) => found.primary matches Some(label) && source.spec_contains(label.span)
                && lexing_fails(source.spec_id(), source.spec_text()),
        },
{
    let tokens = match lex(source) {
        Ok(tokens) => tokens,
        Err(found) => {
            return Err(found);
        },
    };
    proof {
        lemma_lexed_in_bytes(tokens@, source.spec_id(), source.spec_text());
    }
    let document = index_tokens(source, &tokens);
    proof {
        lemma_indexes(document, source.spec_id(), source.spec_text(), tokens@);
    }
    Ok(document)
}

} // verus!
