//! Operator-precedence reordering: one flat statement into postfix order.
//!
//! The model is [`postfix`]: operands and groups go to the output as they
//! come, and an operator waits on a stack until one that binds no tighter
//! arrives, or the statement ends.

use crate::parser::{forest, AstNode, Tree};
use vstd::prelude::*;

verus! {

/// The binding strength of the operator written `text`: 2 for `*` and `/`,
/// 1 for `+` and `-`, 0 for `=`. Any other text is no operator.
pub open spec fn strength(text: Seq<char>) -> Option<nat> {
    if text == seq!['*'] || text == seq!['/'] {
        Some(2)
    } else if text == seq!['+'] || text == seq!['-'] {
        Some(1)
    } else if text == seq!['='] {
        Some(0)
    } else {
        None
    }
}

/// The binding strength of a node: that of its text for an atom, whatever
/// the class of its token. A group is never an operator.
pub open spec fn operator_strength(node: Tree) -> Option<nat> {
    match node {
        Tree::Atom(token) => strength(token.text),
        Tree::Group(_) => None,
    }
}

/// Whether a node is an operator.
pub open spec fn is_operator(node: Tree) -> bool {
    operator_strength(node) is Some
}

/// The waiting operators and the output after an operator of strength
/// `arriving` has arrived: the operators on top of the stack that bind at
/// least as tightly leave it for the output, the topmost first. The top of
/// the stack is the end of `waiting`.
pub open spec fn settle(waiting: Seq<Tree>, output: Seq<Tree>, arriving: nat) -> (
    Seq<Tree>,
    Seq<Tree>,
)
    decreases waiting.len(),
{
    if waiting.len() > 0 && is_operator(waiting.last()) && operator_strength(waiting.last())->0
        >= arriving {
        settle(waiting.drop_last(), output.push(waiting.last()), arriving)
    } else {
        (waiting, output)
    }
}

/// The output for the nodes of `statement` that are still to come, given the
/// output so far and the operators that wait. An operand or a group goes to
/// the output. An operator first lets the waiting operators that bind at
/// least as tightly go to the output, then waits itself. At the end the
/// waiting operators follow, the last to arrive first.
pub open spec fn shunt(statement: Seq<Tree>, output: Seq<Tree>, waiting: Seq<Tree>) -> Seq<Tree>
    decreases statement.len(),
{
    if statement.len() == 0 {
        output + waiting.reverse()
    } else {
        let node = statement[0];
        match operator_strength(node) {
            Some(arriving) => {
                let settled = settle(waiting, output, arriving);
                shunt(statement.skip(1), settled.1, settled.0.push(node))
            },
            None => shunt(statement.skip(1), output.push(node), waiting),
        }
    }
}

/// `statement` in postfix order.
pub open spec fn postfix(statement: Seq<Tree>) -> Seq<Tree> {
    shunt(statement, Seq::empty(), Seq::empty())
}

/// The operands of `statement`, in order: its nodes that are no operators.
pub open spec fn operands(statement: Seq<Tree>) -> Seq<Tree> {
    statement.filter(|node: Tree| !is_operator(node))
}

/// Every node of `nodes` is an operator.
pub open spec fn all_operators(nodes: Seq<Tree>) -> bool {
    forall|i: int| 0 <= i < nodes.len() ==> is_operator(#[trigger] nodes[i])
}

/// Operators alone have no operands.
proof fn lemma_operators_have_no_operands(nodes: Seq<Tree>)
    requires
        all_operators(nodes),
    ensures
        operands(nodes) == Seq::<Tree>::empty(),
    decreases nodes.len(),
{
    reveal(Seq::filter);
    if nodes.len() > 0 {
        lemma_operators_have_no_operands(nodes.drop_last());
        assert(is_operator(nodes[nodes.len() - 1]));
    }
    assert(operands(nodes) =~= Seq::<Tree>::empty());
}

/// When an operator arrives, nodes only move from the stack to the output:
/// the two together hold what they held. Where only operators waited, only
/// operators still wait, and the output has no new operand.
proof fn lemma_settle(waiting: Seq<Tree>, output: Seq<Tree>, arriving: nat)
    ensures
        settle(waiting, output, arriving).0.to_multiset().add(
            settle(waiting, output, arriving).1.to_multiset(),
        ) == waiting.to_multiset().add(output.to_multiset()),
        all_operators(waiting) ==> all_operators(settle(waiting, output, arriving).0),
        all_operators(waiting) ==> operands(settle(waiting, output, arriving).1) == operands(
            output,
        ),
    decreases waiting.len(),
{
    if waiting.len() > 0 && is_operator(waiting.last()) && operator_strength(waiting.last())->0
        >= arriving {
        let top = waiting.last();
        let below = waiting.drop_last();
        lemma_settle(below, output.push(top), arriving);
        assert(below.push(top) =~= waiting);
        vstd::seq_lib::to_multiset_build(below, top);
        vstd::seq_lib::to_multiset_build(output, top);
        assert(below.to_multiset().add(output.push(top).to_multiset()) =~= waiting.to_multiset().add(
            output.to_multiset(),
        ));
        if all_operators(waiting) {
            assert forall|i: int| 0 <= i < below.len() implies is_operator(#[trigger] below[i]) by {
                assert(below[i] == waiting[i]);
            }
            output.lemma_filter_push(top, |node: Tree| !is_operator(node));
        }
    }
}

/// The output holds exactly the nodes still to come, the output so far and
/// the waiting operators. Where only operators wait, its operands are those
/// of the output so far followed by those still to come.
proof fn lemma_shunt(statement: Seq<Tree>, output: Seq<Tree>, waiting: Seq<Tree>)
    ensures
        shunt(statement, output, waiting).to_multiset() == statement.to_multiset().add(
            output.to_multiset(),
        ).add(waiting.to_multiset()),
        all_operators(waiting) ==> operands(shunt(statement, output, waiting)) == operands(output)
            + operands(statement),
    decreases statement.len(),
{
    let keep = |node: Tree| !is_operator(node);
    if statement.len() == 0 {
        waiting.lemma_reverse_to_multiset();
        vstd::seq_lib::lemma_multiset_commutative(output, waiting.reverse());
        vstd::seq_lib::to_multiset_len(statement);
        assert(statement.to_multiset() =~= vstd::multiset::Multiset::<Tree>::empty());
        assert(shunt(statement, output, waiting).to_multiset() =~= statement.to_multiset().add(
            output.to_multiset(),
        ).add(waiting.to_multiset()));
        if all_operators(waiting) {
            assert forall|i: int| 0 <= i < waiting.reverse().len() implies is_operator(
                #[trigger] waiting.reverse()[i],
            ) by {
                assert(waiting.reverse()[i] == waiting[waiting.len() - 1 - i]);
            }
            lemma_operators_have_no_operands(waiting.reverse());
            Seq::filter_distributes_over_add(output, waiting.reverse(), keep);
            assert(statement =~= Seq::<Tree>::empty());
            lemma_operators_have_no_operands(statement);
            assert(operands(shunt(statement, output, waiting)) =~= operands(output) + operands(
                statement,
            ));
        }
    } else {
        let node = statement[0];
        let rest = statement.skip(1);
        assert(statement =~= seq![node] + rest);
        vstd::seq_lib::lemma_multiset_commutative(seq![node], rest);
        vstd::seq_lib::to_multiset_build(Seq::<Tree>::empty(), node);
        assert(Seq::<Tree>::empty().push(node) =~= seq![node]);
        vstd::seq_lib::to_multiset_len(Seq::<Tree>::empty());
        assert(Seq::<Tree>::empty().to_multiset() =~= vstd::multiset::Multiset::<Tree>::empty());
        rest.lemma_filter_prepend(node, keep);
        match operator_strength(node) {
            Some(arriving) => {
                let settled = settle(waiting, output, arriving);
                lemma_settle(waiting, output, arriving);
                lemma_shunt(rest, settled.1, settled.0.push(node));
                vstd::seq_lib::to_multiset_build(settled.0, node);
                let moved = settled.0.to_multiset().add(settled.1.to_multiset());
                let held = waiting.to_multiset().add(output.to_multiset());
                assert(moved == held);
                assert(rest.to_multiset().add(settled.1.to_multiset()).add(
                    settled.0.to_multiset().insert(node),
                ) =~= rest.to_multiset().insert(node).add(moved));
                assert(statement.to_multiset().add(output.to_multiset()).add(waiting.to_multiset())
                    =~= rest.to_multiset().insert(node).add(held));
                assert(shunt(statement, output, waiting).to_multiset() =~= statement.to_multiset().add(
                    output.to_multiset(),
                ).add(waiting.to_multiset()));
                if all_operators(waiting) {
                    assert(all_operators(settled.0.push(node)));
                    assert(operands(statement) =~= operands(rest));
                }
            },
            None => {
                lemma_shunt(rest, output.push(node), waiting);
                vstd::seq_lib::to_multiset_build(output, node);
                assert(shunt(statement, output, waiting).to_multiset() =~= statement.to_multiset().add(
                    output.to_multiset(),
                ).add(waiting.to_multiset()));
                if all_operators(waiting) {
                    output.lemma_filter_push(node, keep);
                    assert(operands(output).push(node) + operands(rest) =~= operands(output) + (
                    seq![node] + operands(rest)));
                }
            },
        }
    }
}

/// Reordering rearranges: the postfix form holds every node of the
/// statement as often as the statement does, so it is as long.
pub proof fn lemma_postfix_rearranges(statement: Seq<Tree>)
    ensures
        postfix(statement).to_multiset() == statement.to_multiset(),
        postfix(statement).len() == statement.len(),
{
    let nothing = Seq::<Tree>::empty();
    lemma_shunt(statement, nothing, nothing);
    vstd::seq_lib::to_multiset_len(nothing);
    assert(nothing.to_multiset() =~= vstd::multiset::Multiset::<Tree>::empty());
    assert(postfix(statement).to_multiset() =~= statement.to_multiset());
    vstd::seq_lib::to_multiset_len(statement);
    vstd::seq_lib::to_multiset_len(postfix(statement));
}

/// Reordering moves operators only: the operands and groups of the postfix
/// form are those of the statement, in the same order.
pub proof fn lemma_postfix_keeps_operands(statement: Seq<Tree>)
    ensures
        operands(postfix(statement)) == operands(statement),
{
    let nothing = Seq::<Tree>::empty();
    lemma_shunt(statement, nothing, nothing);
    lemma_operators_have_no_operands(nothing);
    assert(operands(nothing) + operands(statement) =~= operands(statement));
}

/// Whether `text` is the one character `c`.
fn is_char(text: &str, c: char) -> (b: bool)
    requires
        text@.len() == 1,
    ensures
        b == (text@ == seq![c]),
{
    let first = text.get_char(0);
    proof {
        if first == c {
            assert(text@ =~= seq![c]);
        } else {
            assert(seq![c][0] == c);
        }
    }
    first == c
}

/// The binding strength of the operator written `text`, if it is one.
pub fn precedence(text: &str) -> (found: Option<u32>)
    ensures
        found is Some <==> strength(text@) is Some,
        found is Some ==> found->0 == strength(text@)->0,
{
    if text.unicode_len() != 1 {
        proof {
            assert(seq!['*'].len() == 1 && seq!['/'].len() == 1 && seq!['+'].len() == 1 && seq![
                '-',
            ].len() == 1 && seq!['='].len() == 1);
        }
        return None;
    }
    if is_char(text, '*') || is_char(text, '/') {
        Some(2)
    } else if is_char(text, '+') || is_char(text, '-') {
        Some(1)
    } else if is_char(text, '=') {
        Some(0)
    } else {
        None
    }
}

/// The binding strength of the node on top of the stack, if it is an
/// operator.
fn top_strength(node: &AstNode) -> (found: Option<u32>)
    ensures
        found is Some <==> is_operator(node@),
        found is Some ==> found->0 == operator_strength(node@)->0,
{
    match node {
        AstNode::Atom(token) => precedence(token.lexeme.as_str()),
        AstNode::List(_) => None,
    }
}

/// Puts one flat statement into postfix order. Operators are the atoms
/// whose text is `*`, `/`, `+`, `-` or `=`; every other node is an operand.
/// The call never fails.
pub fn convert_to_rpn(statement: Vec<AstNode>) -> (result: Result<Vec<AstNode>, String>)
    ensures
        result is Ok,
        forest(result->Ok_0@) == postfix(forest(statement@)),
        forest(result->Ok_0@).to_multiset() == forest(statement@).to_multiset(),
        operands(forest(result->Ok_0@)) == operands(forest(statement@)),
        result->Ok_0@.len() == statement@.len(),
{
    let ghost input = forest(statement@);
    let mut output: Vec<AstNode> = Vec::new();
    let mut operator_stack: Vec<AstNode> = Vec::new();
    assert(forest(output@) =~= Seq::<Tree>::empty());
    assert(forest(operator_stack@) =~= Seq::<Tree>::empty());
    assert(input.skip(0) =~= input);
    for ast_node in it: statement
        invariant
            it.seq() == statement@,
            input == forest(statement@),
            postfix(input) == shunt(
                input.skip(it.index() as int),
                forest(output@),
                forest(operator_stack@),
            ),
    {
        let ghost at = it.index() as int;
        let ghost rest = input.skip(at);
        let ghost before = forest(output@);
        let ghost waiting = forest(operator_stack@);
        assert(rest[0] == ast_node@);
        assert(rest.skip(1) =~= input.skip(at + 1));
        match top_strength(&ast_node) {
            Some(current_op_precedence) => {
                while operator_stack.len() > 0
                    invariant
                        settle(waiting, before, current_op_precedence as nat) == settle(
                            forest(operator_stack@),
                            forest(output@),
                            current_op_precedence as nat,
                        ),
                    ensures
                        settle(waiting, before, current_op_precedence as nat) == (
                            forest(operator_stack@),
                            forest(output@),
                        ),
                    decreases operator_stack.len(),
                {
                    let ghost stack = forest(operator_stack@);
                    let ghost out = forest(output@);
                    let top = &operator_stack[operator_stack.len() - 1];
                    assert(stack.last() == top@);
                    match top_strength(top) {
                        Some(op_precedence) => {
                            if op_precedence < current_op_precedence {
                                break ;
                            }
                        },
                        None => {
                            break ;
                        },
                    }
                    if let Some(op) = operator_stack.pop() {
                        output.push(op);
                    }
                    assert(forest(operator_stack@) =~= stack.drop_last());
                    assert(forest(output@) =~= out.push(stack.last()));
                }
                let ghost settled = forest(operator_stack@);
                operator_stack.push(ast_node);
                assert(forest(operator_stack@) =~= settled.push(rest[0]));
            },
            None => {
                output.push(ast_node);
                assert(forest(output@) =~= before.push(rest[0]));
            },
        }
    }
    assert(input.skip(statement@.len() as int) =~= Seq::<Tree>::empty());
    let ghost settled = forest(output@);
    let ghost waiting = forest(operator_stack@);
    assert(waiting.subrange(waiting.len() as int, waiting.len() as int) =~= Seq::<Tree>::empty());
    while operator_stack.len() > 0
        invariant
            forest(operator_stack@).len() <= waiting.len(),
            forest(output@) == settled + waiting.reverse().take(
                waiting.len() - forest(operator_stack@).len(),
            ),
            forest(operator_stack@) == waiting.take(forest(operator_stack@).len() as int),
        decreases operator_stack.len(),
    {
        let ghost stack = forest(operator_stack@);
        let ghost out = forest(output@);
        if let Some(op) = operator_stack.pop() {
            output.push(op);
        }
        assert(forest(operator_stack@) =~= stack.drop_last());
        assert(forest(output@) =~= out.push(stack.last()));
        assert(forest(operator_stack@) =~= waiting.take(forest(operator_stack@).len() as int));
        assert(forest(output@) =~= settled + waiting.reverse().take(
            waiting.len() - forest(operator_stack@).len(),
        ));
    }
    assert(forest(output@) =~= settled + waiting.reverse());
    proof {
        lemma_postfix_rearranges(input);
        lemma_postfix_keeps_operands(input);
    }
    Ok(output)
}

} // verus!
