use vstd::prelude::*;

use crate::resolve::{LambdaId, ValueBinding, ValueId, ValueOwner};

use super::ast::{
    Binding, BodyItem, Capture, CaseArm, Expression, ExpressionBlock, ExpressionKind, Lambda,
    LambdaBody, Parameter, Pattern, Program, TopItem,
};

verus! {

/// The larger of two bounds, component by component: values first, lambdas second.
pub open spec fn join(a: (nat, nat), b: (nat, nat)) -> (nat, nat) {
    (
        if a.0 >= b.0 {
            a.0
        } else {
            b.0
        },
        if a.1 >= b.1 {
            a.1
        } else {
            b.1
        },
    )
}

pub open spec fn value_bound(id: ValueId) -> (nat, nat) {
    (id.0 as nat, 0)
}

pub open spec fn lambda_bound(id: LambdaId) -> (nat, nat) {
    (0, id.0 as nat)
}

/// The largest value and lambda identities that a binding names: its own and its owner's.
pub open spec fn binding_bound(binding: ValueBinding) -> (nat, nat) {
    match binding.owner {
        ValueOwner::Lambda(id) | ValueOwner::Result(id) => join(
            value_bound(binding.id),
            lambda_bound(id),
        ),
        ValueOwner::TopLevel => value_bound(binding.id),
    }
}

pub open spec fn pattern_bound(pattern: Pattern) -> (nat, nat)
    decreases pattern, 0nat,
{
    match pattern {
        Pattern::Binding { binding, .. } => binding_bound(binding),
        Pattern::Product { elements, .. } => patterns_bound(elements@, 0),
        Pattern::Wildcard { .. } => (0, 0),
    }
}

pub open spec fn patterns_bound(patterns: Seq<Pattern>, from: nat) -> (nat, nat)
    decreases patterns, patterns.len() - from,
{
    if from >= patterns.len() {
        (0, 0)
    } else {
        join(pattern_bound(patterns[from as int]), patterns_bound(patterns, from + 1))
    }
}

/// The largest value and lambda identities that occur in an expression.
pub open spec fn expression_bound(expression: Expression) -> (nat, nat)
    decreases expression, 0nat,
{
    match expression.kind {
        ExpressionKind::Reference(reference) => value_bound(reference.id),
        ExpressionKind::Product(values) => expressions_bound(values@, 0),
        ExpressionKind::Parenthesized(value) => expression_bound(*value),
        ExpressionKind::SymbolLength { value } => expression_bound(*value),
        ExpressionKind::NumericConversion { value } => expression_bound(*value),
        ExpressionKind::SumInjection { value, .. } => expression_bound(*value),
        ExpressionKind::Lambda(lambda) => lambda_expression_bound(lambda),
        ExpressionKind::Call { callee, argument } => join(
            expression_bound(*callee),
            expression_bound(*argument),
        ),
        ExpressionKind::SymbolAt { argument } => expression_bound(*argument),
        ExpressionKind::Memory { argument, .. } => expression_bound(*argument),
        ExpressionKind::SumElimination { scrutinee, continuations } => join(
            expression_bound(*scrutinee),
            expressions_bound(continuations@, 0),
        ),
        ExpressionKind::If { condition, then_branch, else_branch } => join(
            expression_bound(*condition),
            join(block_bound(then_branch), block_bound(else_branch)),
        ),
        ExpressionKind::Case { scrutinee, arms } => join(
            expression_bound(*scrutinee),
            arms_bound(arms@, 0),
        ),
        ExpressionKind::Unary { operand, .. } => expression_bound(*operand),
        ExpressionKind::Binary { left, right, .. } => join(
            expression_bound(*left),
            expression_bound(*right),
        ),
        _ => (0, 0),
    }
}

pub open spec fn expressions_bound(values: Seq<Expression>, from: nat) -> (nat, nat)
    decreases values, values.len() - from,
{
    if from >= values.len() {
        (0, 0)
    } else {
        join(expression_bound(values[from as int]), expressions_bound(values, from + 1))
    }
}

pub open spec fn lambda_expression_bound(lambda: Lambda) -> (nat, nat)
    decreases lambda, 0nat,
{
    join(
        lambda_bound(lambda.id),
        join(
            match lambda.self_binding {
                Some(id) => value_bound(id),
                None => (0, 0),
            },
            join(
                captures_bound(lambda.captures@, 0),
                join(parameters_bound(lambda.parameters@, 0), lambda_body_bound(lambda.body)),
            ),
        ),
    )
}

pub open spec fn captures_bound(captures: Seq<Capture>, from: nat) -> (nat, nat)
    decreases captures.len() - from,
{
    if from >= captures.len() {
        (0, 0)
    } else {
        join(
            join(
                value_bound(captures[from as int].source.id),
                binding_bound(captures[from as int].binding),
            ),
            captures_bound(captures, from + 1),
        )
    }
}

pub open spec fn parameters_bound(parameters: Seq<Parameter>, from: nat) -> (nat, nat)
    decreases parameters.len() - from,
{
    if from >= parameters.len() {
        (0, 0)
    } else {
        join(binding_bound(parameters[from as int].binding), parameters_bound(parameters, from + 1))
    }
}

pub open spec fn lambda_body_bound(body: LambdaBody) -> (nat, nat)
    decreases body, 0nat,
{
    join(items_bound(body.items@, 0), expression_bound(*body.result))
}

pub open spec fn block_bound(block: ExpressionBlock) -> (nat, nat)
    decreases block, 0nat,
{
    join(items_bound(block.items@, 0), expression_bound(*block.result))
}

pub open spec fn binding_value_bound(binding: Binding) -> (nat, nat)
    decreases binding, 0nat,
{
    join(pattern_bound(binding.pattern), expression_bound(binding.value))
}

pub open spec fn items_bound(items: Seq<BodyItem>, from: nat) -> (nat, nat)
    decreases items, items.len() - from,
{
    if from >= items.len() {
        (0, 0)
    } else {
        join(
            match items[from as int] {
                BodyItem::Binding(binding) => binding_value_bound(binding),
                BodyItem::Expression(expression) => expression_bound(expression),
            },
            items_bound(items, from + 1),
        )
    }
}

pub open spec fn arms_bound(arms: Seq<CaseArm>, from: nat) -> (nat, nat)
    decreases arms, arms.len() - from,
{
    if from >= arms.len() {
        (0, 0)
    } else {
        join(
            join(pattern_bound(arms[from as int].pattern), block_bound(arms[from as int].body)),
            arms_bound(arms, from + 1),
        )
    }
}

/// The largest value and lambda identities that the items of a program name.
pub open spec fn top_items_bound(items: Seq<crate::ast::Node<TopItem>>, from: nat) -> (nat, nat)
    decreases items.len() - from,
{
    if from >= items.len() {
        (0, 0)
    } else {
        join(
            match items[from as int].kind {
                TopItem::ExternalOperation { binding, lambda_id, .. } => join(
                    binding_bound(binding),
                    lambda_bound(lambda_id),
                ),
                TopItem::Binding(binding) => binding_value_bound(*binding),
                _ => (0, 0),
            },
            top_items_bound(items, from + 1),
        )
    }
}

/// The first value and lambda identities that no item of a program uses.
pub struct NextIdentities {
    pub value: u32,
    pub lambda: u32,
}

/// The largest value and lambda identities seen so far.
pub struct IdentityBounds {
    pub value: u32,
    pub lambda: u32,
}

impl IdentityBounds {
    pub open spec fn bound(&self) -> (nat, nat) {
        (self.value as nat, self.lambda as nat)
    }

    fn value(&mut self, id: ValueId)
        ensures
            final(self).bound() == join(old(self).bound(), value_bound(id)),
    {
        if id.0 > self.value {
            self.value = id.0;
        }
    }

    fn lambda(&mut self, id: LambdaId)
        ensures
            final(self).bound() == join(old(self).bound(), lambda_bound(id)),
    {
        if id.0 > self.lambda {
            self.lambda = id.0;
        }
    }

    fn binding(&mut self, binding: &ValueBinding)
        ensures
            final(self).bound() == join(old(self).bound(), binding_bound(*binding)),
    {
        self.value(binding.id);
        match binding.owner {
            ValueOwner::Lambda(id) | ValueOwner::Result(id) => self.lambda(id),
            ValueOwner::TopLevel => {},
        }
    }

    fn pattern(&mut self, pattern: &Pattern)
        ensures
            final(self).bound() == join(old(self).bound(), pattern_bound(*pattern)),
        decreases pattern, 1nat,
    {
        match pattern {
            Pattern::Binding { binding, .. } => self.binding(binding),
            Pattern::Product { elements, .. } => self.patterns(elements),
            Pattern::Wildcard { .. } => {},
        }
    }

    fn patterns(&mut self, patterns: &Vec<Pattern>)
        ensures
            final(self).bound() == join(old(self).bound(), patterns_bound(patterns@, 0)),
        decreases patterns, 2nat,
    {
        let mut index = patterns.len();
        while index > 0
            invariant
                index <= patterns@.len(),
                self.bound() == join(old(self).bound(), patterns_bound(patterns@, index as nat)),
            decreases index,
        {
            index = index - 1;
            self.pattern(&patterns[index]);
        }
    }

    fn expression(&mut self, expression: &Expression)
        ensures
            final(self).bound() == join(old(self).bound(), expression_bound(*expression)),
        decreases expression, 1nat,
    {
        match &expression.kind {
            ExpressionKind::Reference(reference) => self.value(reference.id),
            ExpressionKind::Product(values) => self.expressions(values),
            ExpressionKind::Parenthesized(value) => self.expression(value),
            ExpressionKind::SymbolLength { value } => self.expression(value),
            ExpressionKind::NumericConversion { value } => self.expression(value),
            ExpressionKind::SumInjection { value, .. } => self.expression(value),
            ExpressionKind::Lambda(lambda) => self.lambda_expression(lambda),
            ExpressionKind::Call { callee, argument } => {
                self.expression(callee);
                self.expression(argument);
            },
            ExpressionKind::SymbolAt { argument } => self.expression(argument),
            ExpressionKind::Memory { argument, .. } => self.expression(argument),
            ExpressionKind::SumElimination { scrutinee, continuations } => {
                self.expression(scrutinee);
                self.expressions(continuations);
            },
            ExpressionKind::If { condition, then_branch, else_branch } => {
                self.expression(condition);
                self.block(then_branch);
                self.block(else_branch);
            },
            ExpressionKind::Case { scrutinee, arms } => {
                self.expression(scrutinee);
                self.arms(arms);
            },
            ExpressionKind::Unary { operand, .. } => self.expression(operand),
            ExpressionKind::Binary { left, right, .. } => {
                self.expression(left);
                self.expression(right);
            },
            _ => {},
        }
    }

    fn expressions(&mut self, values: &Vec<Expression>)
        ensures
            final(self).bound() == join(old(self).bound(), expressions_bound(values@, 0)),
        decreases values, 2nat,
    {
        let mut index = values.len();
        while index > 0
            invariant
                index <= values@.len(),
                self.bound() == join(old(self).bound(), expressions_bound(values@, index as nat)),
            decreases index,
        {
            index = index - 1;
            self.expression(&values[index]);
        }
    }

    fn lambda_expression(&mut self, lambda: &Lambda)
        ensures
            final(self).bound() == join(old(self).bound(), lambda_expression_bound(*lambda)),
        decreases lambda, 1nat,
    {
        self.lambda(lambda.id);
        match lambda.self_binding {
            Some(id) => self.value(id),
            None => {},
        }
        let mut index = lambda.captures.len();
        let ghost captured = self.bound();
        while index > 0
            invariant
                index <= lambda.captures@.len(),
                self.bound() == join(captured, captures_bound(lambda.captures@, index as nat)),
            decreases index,
        {
            index = index - 1;
            let capture = &lambda.captures[index];
            self.value(capture.source.id);
            self.binding(&capture.binding);
        }
        let mut index = lambda.parameters.len();
        let ghost parametered = self.bound();
        while index > 0
            invariant
                index <= lambda.parameters@.len(),
                self.bound() == join(parametered, parameters_bound(lambda.parameters@, index as nat)),
            decreases index,
        {
            index = index - 1;
            self.binding(&lambda.parameters[index].binding);
        }
        self.lambda_body(&lambda.body);
    }

    fn lambda_body(&mut self, body: &LambdaBody)
        ensures
            final(self).bound() == join(old(self).bound(), lambda_body_bound(*body)),
        decreases body, 1nat,
    {
        self.items(&body.items);
        self.expression(&body.result);
    }

    fn block(&mut self, block: &ExpressionBlock)
        ensures
            final(self).bound() == join(old(self).bound(), block_bound(*block)),
        decreases block, 1nat,
    {
        self.items(&block.items);
        self.expression(&block.result);
    }

    fn binding_value(&mut self, binding: &Binding)
        ensures
            final(self).bound() == join(old(self).bound(), binding_value_bound(*binding)),
        decreases binding, 1nat,
    {
        self.pattern(&binding.pattern);
        self.expression(&binding.value);
    }

    fn items(&mut self, items: &Vec<BodyItem>)
        ensures
            final(self).bound() == join(old(self).bound(), items_bound(items@, 0)),
        decreases items, 2nat,
    {
        let mut index = items.len();
        while index > 0
            invariant
                index <= items@.len(),
                self.bound() == join(old(self).bound(), items_bound(items@, index as nat)),
            decreases index,
        {
            index = index - 1;
            match &items[index] {
                BodyItem::Binding(binding) => self.binding_value(binding),
                BodyItem::Expression(expression) => self.expression(expression),
            }
        }
    }

    fn arms(&mut self, arms: &Vec<CaseArm>)
        ensures
            final(self).bound() == join(old(self).bound(), arms_bound(arms@, 0)),
        decreases arms, 2nat,
    {
        let mut index = arms.len();
        while index > 0
            invariant
                index <= arms@.len(),
                self.bound() == join(old(self).bound(), arms_bound(arms@, index as nat)),
            decreases index,
        {
            index = index - 1;
            self.pattern(&arms[index].pattern);
            self.block(&arms[index].body);
        }
    }
}

/// The first value and lambda identities above every identity that the program uses, so that
/// specialization can number new values and lambdas without a clash; `None` where one of them
/// would not fit in 32 bits.
pub fn next_identities(program: &Program) -> (next: Option<NextIdentities>)
    ensures
        match next {
            Some(identities) => identities.value == top_items_bound(program.items@, 0).0 + 1
                && identities.lambda == top_items_bound(program.items@, 0).1 + 1,
            None => top_items_bound(program.items@, 0).0 == u32::MAX || top_items_bound(
                program.items@,
                0,
            ).1 == u32::MAX,
        },
{
    let mut bounds = IdentityBounds { value: 0, lambda: 0 };
    let mut index = program.items.len();
    while index > 0
        invariant
            index <= program.items@.len(),
            bounds.bound() == top_items_bound(program.items@, index as nat),
        decreases index,
    {
        index = index - 1;
        match &program.items[index].kind {
            TopItem::ExternalOperation { binding, lambda_id, .. } => {
                bounds.binding(binding);
                bounds.lambda(*lambda_id);
            },
            TopItem::Binding(binding) => bounds.binding_value(binding),
            _ => {},
        }
    }
    let value = match bounds.value.checked_add(1) {
        Some(value) => value,
        None => {
            return None;
        },
    };
    let lambda = match bounds.lambda.checked_add(1) {
        Some(lambda) => lambda,
        None => {
            return None;
        },
    };
    Some(NextIdentities { value, lambda })
}

} // verus!
