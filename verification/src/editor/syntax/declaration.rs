use vstd::prelude::*;

use crate::lexer::{Token, TokenKind};

verus! {

/// One step of a nesting counter: an opener adds a level, a closer removes one if there is any.
pub open spec fn nest(depth: nat, opens: bool, closes: bool) -> nat {
    if opens {
        depth + 1
    } else if closes {
        if depth > 0 {
            (depth - 1) as nat
        } else {
            0
        }
    } else {
        depth
    }
}

/// Parenthesis nesting before token `n` of `s`.
pub open spec fn paren_depth(s: Seq<Token>, n: int) -> nat
    decreases n,
{
    if n <= 0 {
        0
    } else {
        nest(paren_depth(s, n - 1), s[n - 1].kind is LeftParen, s[n - 1].kind is RightParen)
    }
}

/// Bracket nesting before token `n` of `s`.
pub open spec fn bracket_depth(s: Seq<Token>, n: int) -> nat
    decreases n,
{
    if n <= 0 {
        0
    } else {
        nest(
            bracket_depth(s, n - 1),
            s[n - 1].kind is LeftBracket,
            s[n - 1].kind is RightBracket,
        )
    }
}

/// Brace nesting before token `n` of `s`.
pub open spec fn brace_depth(s: Seq<Token>, n: int) -> nat
    decreases n,
{
    if n <= 0 {
        0
    } else {
        nest(brace_depth(s, n - 1), s[n - 1].kind is LeftBrace, s[n - 1].kind is RightBrace)
    }
}

/// Token `k` of `s` is a closing parenthesis that brings the nesting back to zero.
pub open spec fn closes_group(s: Seq<Token>, k: int) -> bool {
    s[k].kind is RightParen && paren_depth(s, k + 1) == 0
}

/// `s` is one parenthesised group: it opens with `(` and the matching `)` is its last token.
pub open spec fn encloses(s: Seq<Token>) -> bool {
    &&& s.len() >= 2
    &&& s[0].kind is LeftParen
    &&& s.last().kind is RightParen
    &&& paren_depth(s, s.len() as int) == 0
    &&& forall|k: int| 0 <= k < s.len() - 1 ==> !#[trigger] closes_group(s, k)
}

/// `s` with all the parentheses that enclose it as a whole taken off.
pub open spec fn stripped(s: Seq<Token>) -> Seq<Token>
    decreases s.len(),
{
    if encloses(s) {
        stripped(s.subrange(1, s.len() - 1))
    } else {
        s
    }
}

/// Token `k` of `s` stands outside every parenthesis and bracket.
pub open spec fn at_top(s: Seq<Token>, k: int) -> bool {
    paren_depth(s, k) == 0 && bracket_depth(s, k) == 0
}

/// A type written as `s` is a function type: once its enclosing parentheses are taken off, an arrow
/// stands at the top level and no comma does (a comma there makes it a product).
pub open spec fn is_function_type(s: Seq<Token>) -> bool {
    let t = stripped(s);
    &&& !exists|k: int| #![trigger t[k]] 0 <= k < t.len() && t[k].kind is Comma && at_top(t, k)
    &&& exists|k: int| #![trigger t[k]] 0 <= k < t.len() && t[k].kind is Arrow && at_top(t, k)
}

pub open spec fn ends_statement(kind: TokenKind) -> bool {
    kind is Semicolon || kind is Eof
}

/// Token `e` of `u` closes the parameter list that `u` opens with: the first parenthesis that
/// brings the nesting back to zero, with no `;` and no end of file before it.
pub open spec fn parameters_end(u: Seq<Token>, e: int) -> bool {
    &&& 0 <= e < u.len()
    &&& closes_group(u, e)
    &&& forall|k: int|
        #![trigger u[k]]
        0 <= k < e ==> !closes_group(u, k) && !ends_statement(u[k].kind)
}

/// What follows a parameter list at `c` starts a lambda body: an arrow, a brace, or a capture list
/// in brackets followed by a brace.
pub open spec fn body_follows(u: Seq<Token>, c: int) -> bool {
    &&& 0 <= c < u.len()
    &&& {
        ||| u[c].kind is Arrow
        ||| u[c].kind is LeftBrace
        ||| (u[c].kind is LeftBracket && exists|r: int|
            #![trigger u[r]]
            c < r && r + 1 < u.len() && u[r].kind is RightBracket && u[r + 1].kind is LeftBrace
                && forall|k: int| #![trigger u[k]] c <= k < r ==> !(u[k].kind is RightBracket))
    }
}

/// The initializer that starts at token `start` of `s` is a lambda.
pub open spec fn is_lambda_at(s: Seq<Token>, start: int) -> bool {
    let u = s.subrange(start, s.len() as int);
    &&& 0 <= start < s.len()
    &&& s[start].kind is LeftParen
    &&& exists|e: int| parameters_end(u, e) && body_follows(u, e + 1)
}

pub open spec fn stops_type(kind: TokenKind) -> bool {
    kind is Bind || kind is Semicolon || kind is Eof
}

/// Token `c` of `s` is the first `:=`, `;` or end of file at or after `from`.
pub open spec fn type_end(s: Seq<Token>, from: int, c: int) -> bool {
    &&& from <= c < s.len()
    &&& stops_type(s[c].kind)
    &&& forall|k: int| #![trigger s[k]] from <= k < c ==> !stops_type(s[k].kind)
}

/// The value named by token `name` is a function: it is bound to a lambda, or declared with a
/// function type, or declared with a type and bound to a lambda.
pub open spec fn names_function(s: Seq<Token>, name: int) -> bool {
    if name + 1 >= s.len() {
        false
    } else if s[name + 1].kind is Bind {
        is_lambda_at(s, name + 2)
    } else if !(s[name + 1].kind is DoubleColon) {
        false
    } else {
        exists|c: int|
            type_end(s, name + 2, c) && (is_function_type(s.subrange(name + 2, c)) || (
            s[c].kind is Bind && is_lambda_at(s, c + 1)))
    }
}

/// Token `i` of `s` declares a function at the top level of the file.
pub open spec fn declares_function(s: Seq<Token>, i: int) -> bool {
    &&& 0 <= i < s.len()
    &&& s[i].kind is ValueIdentifier
    &&& brace_depth(s, i) == 0
    &&& names_function(s, i)
}

/// Whether `tokens[from..to]` is one parenthesised group.
fn enclosing_parentheses(tokens: &Vec<Token>, from: usize, to: usize) -> (enclosed: bool)
    requires
        from <= to <= tokens@.len(),
    ensures
        enclosed == encloses(tokens@.subrange(from as int, to as int)),
{
    let ghost s = tokens@.subrange(from as int, to as int);
    if to - from < 2 || !matches!(tokens[from].kind, TokenKind::LeftParen) || !matches!(
        tokens[to - 1].kind,
        TokenKind::RightParen,
    ) {
        return false;
    }
    let mut depth: usize = 0;
    let mut index: usize = from;
    while index < to
        invariant
            from <= index <= to <= tokens@.len(),
            s == tokens@.subrange(from as int, to as int),
            s.len() >= 2,
            s[0].kind is LeftParen,
            s.last().kind is RightParen,
            depth == paren_depth(s, index - from),
            depth <= index - from,
            forall|k: int| 0 <= k < index - from ==> !#[trigger] closes_group(s, k),
        decreases to - index,
    {
        let ghost k = index - from;
        assert(s[k] == tokens@[index as int]);
        match tokens[index].kind {
            TokenKind::LeftParen => {
                depth = depth + 1;
            },
            TokenKind::RightParen => {
                if depth > 0 {
                    depth = depth - 1;
                }
                if depth == 0 {
                    assert(closes_group(s, k));
                    return index + 1 == to;
                }
            },
            _ => {},
        }
        index = index + 1;
    }
    assert(!closes_group(s, s.len() - 1));
    false
}

/// Whether the type written as `tokens[from..to]` is a function type.
fn type_is_function(tokens: &Vec<Token>, from: usize, to: usize) -> (function: bool)
    requires
        from <= to <= tokens@.len(),
    ensures
        function == is_function_type(tokens@.subrange(from as int, to as int)),
{
    let ghost whole = tokens@.subrange(from as int, to as int);
    let mut low = from;
    let mut high = to;
    while enclosing_parentheses(tokens, low, high)
        invariant
            low <= high <= tokens@.len(),
            whole == tokens@.subrange(from as int, to as int),
            stripped(whole) == stripped(tokens@.subrange(low as int, high as int)),
        decreases high - low,
    {
        assert(tokens@.subrange(low as int, high as int).subrange(1, (high - low) - 1)
            =~= tokens@.subrange(low + 1, high - 1));
        low = low + 1;
        high = high - 1;
    }
    let ghost t = tokens@.subrange(low as int, high as int);
    assert(stripped(t) == t);
    let mut parentheses: usize = 0;
    let mut brackets: usize = 0;
    let mut arrow = false;
    let mut index: usize = low;
    while index < high
        invariant
            low <= index <= high <= tokens@.len(),
            t == tokens@.subrange(low as int, high as int),
            whole == tokens@.subrange(from as int, to as int),
            stripped(whole) == t,
            parentheses == paren_depth(t, index - low),
            brackets == bracket_depth(t, index - low),
            parentheses <= index - low,
            brackets <= index - low,
            arrow == exists|k: int|
                #![trigger t[k]]
                0 <= k < index - low && t[k].kind is Arrow && at_top(t, k),
            !exists|k: int| #![trigger t[k]] 0 <= k < index - low && t[k].kind is Comma && at_top(t, k),
        decreases high - index,
    {
        let ghost k = index - low;
        assert(t[k] == tokens@[index as int]);
        match tokens[index].kind {
            TokenKind::LeftParen => {
                parentheses = parentheses + 1;
            },
            TokenKind::RightParen => {
                if parentheses > 0 {
                    parentheses = parentheses - 1;
                }
            },
            TokenKind::LeftBracket => {
                brackets = brackets + 1;
            },
            TokenKind::RightBracket => {
                if brackets > 0 {
                    brackets = brackets - 1;
                }
            },
            TokenKind::Comma => {
                if parentheses == 0 && brackets == 0 {
                    assert(t[k].kind is Comma && at_top(t, k));
                    return false;
                }
            },
            TokenKind::Arrow => {
                if parentheses == 0 && brackets == 0 {
                    assert(t[k].kind is Arrow && at_top(t, k));
                    arrow = true;
                }
            },
            _ => {},
        }
        index = index + 1;
    }
    arrow
}

/// Whether the initializer that starts at token `start` is a lambda.
fn initializer_is_lambda(tokens: &Vec<Token>, start: usize) -> (lambda: bool)
    ensures
        lambda == is_lambda_at(tokens@, start as int),
{
    let length = tokens.len();
    if start >= length || !matches!(tokens[start].kind, TokenKind::LeftParen) {
        return false;
    }
    let ghost u = tokens@.subrange(start as int, length as int);
    let mut parentheses: usize = 0;
    let mut cursor: usize = start;
    let mut closed = false;
    while cursor < length
        invariant_except_break
            start <= cursor <= length,
            length == tokens@.len(),
            u == tokens@.subrange(start as int, length as int),
            !closed,
            parentheses == paren_depth(u, cursor - start),
            parentheses <= cursor - start,
            forall|k: int|
                #![trigger u[k]]
                0 <= k < cursor - start ==> !closes_group(u, k) && !ends_statement(u[k].kind),
        ensures
            start <= cursor <= length,
            length == tokens@.len(),
            u == tokens@.subrange(start as int, length as int),
            closed ==> cursor > start && parameters_end(u, cursor - start - 1),
            !closed ==> cursor == length && forall|k: int|
                #![trigger u[k]]
                0 <= k < u.len() ==> !closes_group(u, k) && !ends_statement(u[k].kind),
        decreases length - cursor,
    {
        let ghost k = cursor - start;
        assert(u[k] == tokens@[cursor as int]);
        match tokens[cursor].kind {
            TokenKind::LeftParen => {
                parentheses = parentheses + 1;
            },
            TokenKind::RightParen => {
                if parentheses > 0 {
                    parentheses = parentheses - 1;
                }
                if parentheses == 0 {
                    assert(closes_group(u, k));
                    cursor = cursor + 1;
                    closed = true;
                    break;
                }
            },
            TokenKind::Semicolon => {
                assert(!exists|e: int| parameters_end(u, e) && body_follows(u, e + 1)) by {
                    assert forall|e: int| parameters_end(u, e) implies !body_follows(u, e + 1) by {
                        if e > k {
                            assert(ends_statement(u[k].kind));
                        } else if e == k {
                            assert(!closes_group(u, k));
                        }
                    }
                }
                return false;
            },
            TokenKind::Eof => {
                assert(!exists|e: int| parameters_end(u, e) && body_follows(u, e + 1)) by {
                    assert forall|e: int| parameters_end(u, e) implies !body_follows(u, e + 1) by {
                        if e > k {
                            assert(ends_statement(u[k].kind));
                        } else if e == k {
                            assert(!closes_group(u, k));
                        }
                    }
                }
                return false;
            },
            _ => {},
        }
        cursor = cursor + 1;
    }
    if !closed {
        assert(!exists|e: int| parameters_end(u, e) && body_follows(u, e + 1));
        return false;
    }
    let ghost e = cursor - start - 1;
    assert forall|other: int| parameters_end(u, other) implies other == e by {
        if other < e {
            assert(!closes_group(u, other));
        } else if other > e {
            assert(!closes_group(u, e));
        }
    }
    if cursor < length && matches!(tokens[cursor].kind, TokenKind::Arrow) {
        assert(u[e + 1] == tokens@[cursor as int]);
        return true;
    }
    if cursor < length && matches!(tokens[cursor].kind, TokenKind::LeftBrace) {
        assert(u[e + 1] == tokens@[cursor as int]);
        return true;
    }
    if cursor < length && matches!(tokens[cursor].kind, TokenKind::LeftBracket) {
        let c = cursor;
        assert(u[e + 1] == tokens@[c as int]);
        while cursor < length && !matches!(tokens[cursor].kind, TokenKind::RightBracket)
            invariant
                c <= cursor <= length,
                length == tokens@.len(),
                u == tokens@.subrange(start as int, length as int),
                start < c,
                forall|k: int|
                    #![trigger u[k]]
                    c - start <= k < cursor - start ==> !(u[k].kind is RightBracket),
            decreases length - cursor,
        {
            assert(u[cursor - start] == tokens@[cursor as int]);
            cursor = cursor + 1;
        }
        if cursor < length && cursor + 1 < length && matches!(
            tokens[cursor + 1].kind,
            TokenKind::LeftBrace,
        ) {
            assert(u[cursor - start] == tokens@[cursor as int]);
            assert(u[cursor + 1 - start] == tokens@[cursor + 1]);
            assert(body_follows(u, e + 1));
            return true;
        }
        assert(!body_follows(u, e + 1)) by {
            if cursor < length {
                assert(u[cursor - start] == tokens@[cursor as int]);
                if cursor + 1 < length {
                    assert(u[cursor + 1 - start] == tokens@[cursor + 1]);
                }
            }
        }
        return false;
    }
    assert(!body_follows(u, e + 1)) by {
        if cursor < length {
            assert(u[e + 1] == tokens@[cursor as int]);
        }
    }
    false
}

/// Whether the value named by token `name` is a function.
fn top_level_value_is_function(tokens: &Vec<Token>, name: usize) -> (function: bool)
    requires
        name < tokens@.len(),
    ensures
        function == names_function(tokens@, name as int),
{
    let length = tokens.len();
    if name + 1 >= length {
        return false;
    }
    if matches!(tokens[name + 1].kind, TokenKind::Bind) {
        return initializer_is_lambda(tokens, name + 2);
    }
    if !matches!(tokens[name + 1].kind, TokenKind::DoubleColon) {
        return false;
    }
    let type_start = name + 2;
    let mut cursor = type_start;
    while cursor < length
        invariant
            type_start <= cursor <= length,
            type_start == name + 2,
            length == tokens@.len(),
            name + 1 < length,
            tokens@[name + 1].kind is DoubleColon,
            forall|k: int| #![trigger tokens@[k]] type_start <= k < cursor ==> !stops_type(tokens@[k].kind),
        decreases length - cursor,
    {
        if matches!(tokens[cursor].kind, TokenKind::Bind) {
            assert(type_end(tokens@, type_start as int, cursor as int));
            assert forall|c: int| type_end(tokens@, type_start as int, c) implies c == cursor by {
                if c < cursor {
                    assert(!stops_type(tokens@[c].kind));
                } else if c > cursor {
                    assert(!stops_type(tokens@[cursor as int].kind));
                }
            }
            let function = type_is_function(tokens, type_start, cursor);
            let lambda = initializer_is_lambda(tokens, cursor + 1);
            assert(names_function(tokens@, name as int) == (function || lambda)) by {
                if function || lambda {
                    assert(type_end(tokens@, type_start as int, cursor as int) && (is_function_type(
                        tokens@.subrange(type_start as int, cursor as int),
                    ) || (tokens@[cursor as int].kind is Bind && is_lambda_at(
                        tokens@,
                        cursor + 1,
                    ))));
                }
            }
            return function || lambda;
        }
        if matches!(tokens[cursor].kind, TokenKind::Semicolon) || matches!(
            tokens[cursor].kind,
            TokenKind::Eof,
        ) {
            assert(type_end(tokens@, type_start as int, cursor as int));
            assert forall|c: int| type_end(tokens@, type_start as int, c) implies c == cursor by {
                if c < cursor {
                    assert(!stops_type(tokens@[c].kind));
                } else if c > cursor {
                    assert(!stops_type(tokens@[cursor as int].kind));
                }
            }
            let function = type_is_function(tokens, type_start, cursor);
            assert(names_function(tokens@, name as int) == function) by {
                if function {
                    assert(type_end(tokens@, type_start as int, cursor as int) && is_function_type(
                        tokens@.subrange(type_start as int, cursor as int),
                    ));
                }
            }
            return function;
        }
        cursor = cursor + 1;
    }
    false
}

/// The indices, in increasing order, of the tokens that declare functions at the top level.
pub fn function_declarations(tokens: &Vec<Token>) -> (declarations: Vec<usize>)
    ensures
        forall|i: int, j: int|
            0 <= i < j < declarations@.len() ==> declarations@[i] < declarations@[j],
        forall|i: int|
            0 <= i < declarations@.len() ==> declares_function(tokens@, #[trigger] declarations@[i] as int),
        forall|i: int|
            declares_function(tokens@, i) ==> declarations@.contains(#[trigger] (i as usize)),
        forall|i: int|
            0 <= i < tokens@.len() ==> (declares_function(tokens@, i) <==> declarations@.contains(
                #[trigger] (i as usize),
            )),
{
    let mut declarations: Vec<usize> = Vec::new();
    let mut brace_depth_now: usize = 0;
    let mut index: usize = 0;
    while index < tokens.len()
        invariant
            index <= tokens@.len(),
            brace_depth_now == brace_depth(tokens@, index as int),
            brace_depth_now <= index,
            forall|i: int, j: int|
                0 <= i < j < declarations@.len() ==> declarations@[i] < declarations@[j],
            forall|i: int| 0 <= i < declarations@.len() ==> declarations@[i] < index,
            forall|i: int|
                0 <= i < declarations@.len() ==> declares_function(tokens@, #[trigger] declarations@[i] as int),
            forall|i: int|
                0 <= i < index && declares_function(tokens@, i) ==> declarations@.contains(
                    #[trigger] (i as usize),
                ),
        decreases tokens@.len() - index,
    {
        let ghost before = declarations@;
        match tokens[index].kind {
            TokenKind::LeftBrace => {
                brace_depth_now = brace_depth_now + 1;
            },
            TokenKind::RightBrace => {
                if brace_depth_now > 0 {
                    brace_depth_now = brace_depth_now - 1;
                }
            },
            TokenKind::ValueIdentifier => {
                if brace_depth_now == 0 && top_level_value_is_function(tokens, index) {
                    declarations.push(index);
                    assert(declarations@[declarations@.len() - 1] == index);
                    assert forall|i: int|
                        0 <= i < index + 1 && declares_function(tokens@, i) implies declarations@.contains(
                        #[trigger] (i as usize),
                    ) by {
                        if i < index {
                            let w = choose|w: int| 0 <= w < before.len() && before[w] == i as usize;
                            assert(declarations@[w] == before[w]);
                        } else {
                            assert(declarations@[declarations@.len() - 1] == i as usize);
                        }
                    }
                }
            },
            _ => {},
        }
        proof {
            assert forall|i: int|
                0 <= i < index + 1 && declares_function(tokens@, i) implies declarations@.contains(
                #[trigger] (i as usize),
            ) by {
                if i < index {
                    let w = choose|w: int| 0 <= w < before.len() && before[w] == i as usize;
                    assert(declarations@[w] == before[w]);
                }
            }
        }
        index = index + 1;
    }
    assert forall|i: int|
        0 <= i < tokens@.len() implies (declares_function(tokens@, i) <==> declarations@.contains(
        #[trigger] (i as usize),
    )) by {
        if declarations@.contains(i as usize) {
            let w = choose|w: int| 0 <= w < declarations@.len() && declarations@[w] == i as usize;
            assert(declares_function(tokens@, declarations@[w] as int));
        }
    }
    declarations
}

} // verus!
