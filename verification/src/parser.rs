//! Structural grouping: a flat token sequence to a nested tree, in which
//! brackets open a nesting and `;` ends a statement.

use crate::text::char_to_string;
use crate::tokenizer::{models, Token, TokenModel, TokenType};
use vstd::prelude::*;
use vstd::string::StringExecFns;

verus! {

/// What a tree is, as a mathematical value.
pub enum Tree {
    /// A leaf that carries one token.
    Atom(TokenModel),
    /// An ordered list of children.
    Group(Seq<Tree>),
}

/// A node of the syntax tree: either one token or an ordered list of nodes.
/// A list stands for the whole program, for one statement or for one
/// bracketed nesting, according to where it stands.
#[derive(Debug, PartialEq)]
pub enum AstNode {
    Atom(Token),
    List(Vec<AstNode>),
}

impl View for AstNode {
    type V = Tree;

    open spec fn view(&self) -> Tree
        decreases self,
    {
        match self {
            AstNode::Atom(token) => Tree::Atom(token@),
            AstNode::List(children) => Tree::Group(
                Seq::new(
                    children.len() as nat,
                    |i: int|
                        if 0 <= i < children.len() {
                            children[i]@
                        } else {
                            Tree::Group(Seq::empty())
                        },
                ),
            ),
        }
    }
}

/// The models of a sequence of nodes, in order.
pub open spec fn forest(nodes: Seq<AstNode>) -> Seq<Tree> {
    nodes.map_values(|node: AstNode| node@)
}

/// A list node is the group of its children's models.
pub proof fn lemma_list_view(node: AstNode)
    requires
        node is List,
    ensures
        node@ == Tree::Group(forest(node->List_0@)),
{
    let children = node->List_0;
    assert(node@->Group_0 =~= forest(children@));
}

/// A tree as text: an atom is its token's text, and a group is its
/// children, separated by a comma and a space, between round brackets.
pub open spec fn rendered(tree: Tree) -> Seq<char>
    decreases tree, 0nat,
{
    match tree {
        Tree::Atom(token) => token.text,
        Tree::Group(children) => seq!['('] + rendered_items(children, children.len()) + seq![')'],
    }
}

/// The first `count` of `children` as text, separated by a comma and a
/// space.
pub open spec fn rendered_items(children: Seq<Tree>, count: nat) -> Seq<char>
    decreases children, count,
{
    if count == 0 || count > children.len() {
        Seq::empty()
    } else if count == 1 {
        rendered(children[0])
    } else {
        rendered_items(children, (count - 1) as nat) + seq![',', ' '] + rendered(
            children[count - 1],
        )
    }
}

impl AstNode {
    /// The node as text: an atom is its token's text, and a list is its
    /// children, separated by a comma and a space, between round brackets.
    pub fn render(&self) -> (text: String)
        ensures
            text@ == rendered(self@),
        decreases self,
    {
        match self {
            AstNode::Atom(token) => token.lexeme.clone(),
            AstNode::List(children) => {
                let ghost items = self@->Group_0;
                let mut text = char_to_string('(');
                let mut i: usize = 0;
                assert(text@ =~= seq!['('] + rendered_items(items, 0));
                while i < children.len()
                    invariant
                        i <= children.len(),
                        items.len() == children.len(),
                        self@ == Tree::Group(items),
                        *self == AstNode::List(*children),
                        forall|k: int| 0 <= k < children.len() ==> items[k] == children[k]@,
                        text@ == seq!['('] + rendered_items(items, i as nat),
                    decreases children.len() - i,
                {
                    let ghost before = text@;
                    if i > 0 {
                        text.append(", ");
                        proof {
                            reveal_strlit(", ");
                            assert(", "@ =~= seq![',', ' ']);
                        }
                    }
                    let item = children[i].render();
                    text.append(item.as_str());
                    i += 1;
                    assert(text@ =~= seq!['('] + rendered_items(items, i as nat));
                }
                text.push(')');
                assert(text@ =~= rendered(self@));
                text
            },
        }
    }
}

/// A punctuation token whose text is the one character `c`.
pub open spec fn is_mark(token: TokenModel, c: char) -> bool {
    token.kind == TokenType::Punctuation && token.text == seq![c]
}

/// An opening bracket: `(` or `{`.
pub open spec fn is_opener(token: TokenModel) -> bool {
    is_mark(token, '(') || is_mark(token, '{')
}

/// A closing bracket: `)` or `}`. Either closes a nesting, whichever bracket
/// opened it.
pub open spec fn is_closer(token: TokenModel) -> bool {
    is_mark(token, ')') || is_mark(token, '}')
}

/// The statement terminator `;`.
pub open spec fn is_terminator(token: TokenModel) -> bool {
    is_mark(token, ';')
}

/// One nesting, read from the token at `at` on, which follows the opening
/// bracket: the children of its group, and the index of the token after it.
///
/// `done` holds the children that are complete and `open` the nodes of the
/// statement being read. A value joins the statement as an atom, and a
/// nesting inside it as a group. A `;` closes the statement, which becomes
/// one child. A closing bracket ends the nesting; the nodes of a statement
/// that no `;` closed become children one by one. The sentinel closes the
/// statement as a `;` does. Any other punctuation is passed over. Where the
/// tokens run out the nesting ends with the children that are complete.
///
/// The test on the end of an inner nesting is there for the definition
/// to be well founded; [`lemma_nested_end`] shows that it always holds.
pub open spec fn nested(tokens: Seq<TokenModel>, at: nat, done: Seq<Tree>, open: Seq<Tree>) -> (
    Seq<Tree>,
    nat,
)
    decreases tokens.len() - at,
{
    if at >= tokens.len() {
        (done, at)
    } else {
        let token = tokens[at as int];
        if token.kind == TokenType::Value {
            nested(tokens, at + 1, done, open.push(Tree::Atom(token)))
        } else if token.kind == TokenType::EOF {
            nested(tokens, at + 1, done.push(Tree::Group(open)), Seq::empty())
        } else if is_opener(token) {
            let inner = nested(tokens, at + 1, Seq::empty(), Seq::empty());
            if at < inner.1 <= tokens.len() {
                nested(tokens, inner.1, done, open.push(Tree::Group(inner.0)))
            } else {
                (done, at)
            }
        } else if is_closer(token) {
            (done + open, at + 1)
        } else if is_terminator(token) {
            nested(tokens, at + 1, done.push(Tree::Group(open)), Seq::empty())
        } else {
            nested(tokens, at + 1, done, open)
        }
    }
}

/// A nesting read from within the tokens ends within them, and where it has
/// a token to read it ends after that token.
pub proof fn lemma_nested_end(tokens: Seq<TokenModel>, at: nat, done: Seq<Tree>, open: Seq<Tree>)
    ensures
        at <= nested(tokens, at, done, open).1,
        at < tokens.len() ==> at < nested(tokens, at, done, open).1 <= tokens.len(),
    decreases tokens.len() - at,
{
    if at < tokens.len() {
        let token = tokens[at as int];
        if token.kind == TokenType::Value {
            lemma_nested_end(tokens, at + 1, done, open.push(Tree::Atom(token)));
        } else if token.kind == TokenType::EOF {
            lemma_nested_end(tokens, at + 1, done.push(Tree::Group(open)), Seq::empty());
        } else if is_opener(token) {
            let inner = nested(tokens, at + 1, Seq::empty(), Seq::empty());
            lemma_nested_end(tokens, at + 1, Seq::empty(), Seq::empty());
            lemma_nested_end(tokens, inner.1, done, open.push(Tree::Group(inner.0)));
        } else if is_closer(token) {
        } else if is_terminator(token) {
            lemma_nested_end(tokens, at + 1, done.push(Tree::Group(open)), Seq::empty());
        } else {
            lemma_nested_end(tokens, at + 1, done, open);
        }
    }
}

/// The children of the root for the tokens from `at` on.
///
/// `done` holds the children that are complete and `open` the nodes of the
/// statement being read. A value joins the statement as an atom, and a
/// nesting as a group. A `;` closes the statement, which becomes one child.
/// At the sentinel the nodes of a statement that no `;` closed become
/// children one by one. Any other punctuation is passed over. Where the
/// tokens run out, the children that are complete are the result.
pub open spec fn program(tokens: Seq<TokenModel>, at: nat, done: Seq<Tree>, open: Seq<Tree>) -> Seq<
    Tree,
>
    decreases tokens.len() - at,
    via program_decreases
{
    if at >= tokens.len() {
        done
    } else {
        let token = tokens[at as int];
        if token.kind == TokenType::Value {
            program(tokens, at + 1, done, open.push(Tree::Atom(token)))
        } else if token.kind == TokenType::EOF {
            program(tokens, at + 1, done + open, Seq::empty())
        } else if is_opener(token) {
            let inner = nested(tokens, at + 1, Seq::empty(), Seq::empty());
            program(tokens, inner.1, done, open.push(Tree::Group(inner.0)))
        } else if is_terminator(token) {
            program(tokens, at + 1, done.push(Tree::Group(open)), Seq::empty())
        } else {
            program(tokens, at + 1, done, open)
        }
    }
}

#[via_fn]
proof fn program_decreases(tokens: Seq<TokenModel>, at: nat, done: Seq<Tree>, open: Seq<Tree>) {
    lemma_nested_end(tokens, at + 1, Seq::empty(), Seq::empty());
}

/// The tree of a whole token sequence: the group of the root's children.
pub open spec fn syntax_tree(tokens: Seq<TokenModel>) -> Tree {
    Tree::Group(program(tokens, 0, Seq::empty(), Seq::empty()))
}

/// Every atom of the tree carries a value token. Such a tree holds neither
/// the sentinel nor any punctuation.
pub open spec fn atoms_are_values(tree: Tree) -> bool
    decreases tree,
{
    match tree {
        Tree::Atom(token) => token.kind == TokenType::Value,
        Tree::Group(children) => forall|i: int|
            0 <= i < children.len() ==> atoms_are_values(#[trigger] children[i]),
    }
}

/// Every tree of `trees` has value tokens alone for atoms.
pub open spec fn all_atoms_are_values(trees: Seq<Tree>) -> bool {
    forall|i: int| 0 <= i < trees.len() ==> atoms_are_values(#[trigger] trees[i])
}

/// A nesting keeps values alone: where the children so far have only value
/// atoms, so have the children of the whole nesting.
pub proof fn lemma_nested_values(
    tokens: Seq<TokenModel>,
    at: nat,
    done: Seq<Tree>,
    open: Seq<Tree>,
)
    requires
        all_atoms_are_values(done),
        all_atoms_are_values(open),
    ensures
        all_atoms_are_values(nested(tokens, at, done, open).0),
    decreases tokens.len() - at,
{
    let nothing = Seq::<Tree>::empty();
    if at < tokens.len() {
        let token = tokens[at as int];
        if token.kind == TokenType::Value {
            lemma_nested_values(tokens, at + 1, done, open.push(Tree::Atom(token)));
        } else if token.kind == TokenType::EOF {
            assert(atoms_are_values(Tree::Group(open)));
            lemma_nested_values(tokens, at + 1, done.push(Tree::Group(open)), nothing);
        } else if is_opener(token) {
            let inner = nested(tokens, at + 1, nothing, nothing);
            lemma_nested_values(tokens, at + 1, nothing, nothing);
            lemma_nested_end(tokens, at + 1, nothing, nothing);
            assert(atoms_are_values(Tree::Group(inner.0)));
            lemma_nested_values(tokens, inner.1, done, open.push(Tree::Group(inner.0)));
        } else if is_closer(token) {
        } else if is_terminator(token) {
            assert(atoms_are_values(Tree::Group(open)));
            lemma_nested_values(tokens, at + 1, done.push(Tree::Group(open)), nothing);
        } else {
            lemma_nested_values(tokens, at + 1, done, open);
        }
    }
}

/// The root keeps values alone: where the children so far have only value
/// atoms, so have all the children of the root.
pub proof fn lemma_program_values(
    tokens: Seq<TokenModel>,
    at: nat,
    done: Seq<Tree>,
    open: Seq<Tree>,
)
    requires
        all_atoms_are_values(done),
        all_atoms_are_values(open),
    ensures
        all_atoms_are_values(program(tokens, at, done, open)),
    decreases tokens.len() - at,
{
    let nothing = Seq::<Tree>::empty();
    if at < tokens.len() {
        let token = tokens[at as int];
        if token.kind == TokenType::Value {
            lemma_program_values(tokens, at + 1, done, open.push(Tree::Atom(token)));
        } else if token.kind == TokenType::EOF {
            lemma_program_values(tokens, at + 1, done + open, nothing);
        } else if is_opener(token) {
            let inner = nested(tokens, at + 1, nothing, nothing);
            lemma_nested_values(tokens, at + 1, nothing, nothing);
            lemma_nested_end(tokens, at + 1, nothing, nothing);
            assert(atoms_are_values(Tree::Group(inner.0)));
            lemma_program_values(tokens, inner.1, done, open.push(Tree::Group(inner.0)));
        } else if is_terminator(token) {
            assert(atoms_are_values(Tree::Group(open)));
            lemma_program_values(tokens, at + 1, done.push(Tree::Group(open)), nothing);
        } else {
            lemma_program_values(tokens, at + 1, done, open);
        }
    }
}

/// No sentinel in the tree: whatever the tokens, every atom of their tree
/// carries a value token, so the sentinel is read and never kept.
pub proof fn lemma_syntax_tree_values(tokens: Seq<TokenModel>)
    ensures
        atoms_are_values(syntax_tree(tokens)),
{
    lemma_program_values(tokens, 0, Seq::empty(), Seq::empty());
}

/// Whether `token` is a punctuation token whose text is the one character
/// `c`.
fn mark(token: &Token, c: char) -> (b: bool)
    ensures
        b == is_mark(token@, c),
{
    if token.token_type != TokenType::Punctuation {
        return false;
    }
    let text = token.lexeme.as_str();
    if text.unicode_len() != 1 {
        return false;
    }
    let first = text.get_char(0);
    proof {
        if first == c {
            assert(token.lexeme@ =~= seq![c]);
        } else {
            assert(seq![c][0] == c);
        }
    }
    first == c
}

/// A tree builder over one token sequence. It reads from its current offset
/// on.
pub struct Parser<'a> {
    tokens: &'a [Token],
    position: usize,
}

impl<'a> Parser<'a> {
    /// The tokens that the builder was made for.
    pub closed spec fn tokens(&self) -> Seq<TokenModel> {
        models(self.tokens@)
    }

    /// The number of tokens read so far.
    pub closed spec fn offset(&self) -> nat {
        self.position as nat
    }

    /// A builder at the start of `tokens`.
    pub fn new(tokens: &'a [Token]) -> (parser: Self)
        ensures
            parser.tokens() == models(tokens@),
            parser.offset() == 0,
    {
        Self { tokens, position: 0 }
    }

    fn is_at_end(&self) -> (at_end: bool)
        ensures
            at_end == (self.offset() >= self.tokens().len()),
    {
        self.position >= self.tokens.len()
    }

    fn peek(&self) -> (next: Option<&'a Token>)
        ensures
            self.offset() >= self.tokens().len() ==> next is None,
            self.offset() < self.tokens().len() ==> next is Some && next->Some_0@
                == self.tokens()[self.offset() as int],
    {
        if self.is_at_end() {
            return None;
        }
        Some(&self.tokens[self.position])
    }

    fn advance(&mut self) -> (read: Option<&'a Token>)
        ensures
            final(self).tokens() == old(self).tokens(),
            old(self).offset() >= old(self).tokens().len() ==> read is None && final(self).offset()
                == old(self).offset(),
            old(self).offset() < old(self).tokens().len() ==> read is Some && read->Some_0@
                == old(self).tokens()[old(self).offset() as int] && final(self).offset() == old(
                self,
            ).offset() + 1,
    {
        if self.is_at_end() {
            return None;
        }
        let token = &self.tokens[self.position];
        self.position += 1;
        Some(token)
    }

    /// Reads one nesting, from the token after its opening bracket on, and
    /// stops after the bracket that closes it, or where the tokens run out.
    fn parse_list(&mut self) -> (result: Result<AstNode, String>)
        ensures
            final(self).tokens() == old(self).tokens(),
            result is Ok,
            result->Ok_0@ == Tree::Group(
                nested(old(self).tokens(), old(self).offset(), Seq::empty(), Seq::empty()).0,
            ),
            final(self).offset() == nested(
                old(self).tokens(),
                old(self).offset(),
                Seq::empty(),
                Seq::empty(),
            ).1,
        decreases old(self).tokens().len() - old(self).offset(),
    {
        let ghost tokens = self.tokens();
        let ghost goal = nested(tokens, self.offset(), Seq::empty(), Seq::empty());
        let mut root_list: Vec<AstNode> = Vec::new();
        let mut current_statement: Vec<AstNode> = Vec::new();
        assert(forest(root_list@) =~= Seq::<Tree>::empty());
        assert(forest(current_statement@) =~= Seq::<Tree>::empty());
        loop
            invariant_except_break
                goal == nested(
                    tokens,
                    self.offset(),
                    forest(root_list@),
                    forest(current_statement@),
                ),
            invariant
                self.tokens() == tokens,
                tokens == old(self).tokens(),
                old(self).offset() <= self.offset(),
            ensures
                goal == (forest(root_list@), self.offset()),
            decreases tokens.len() - self.offset(),
        {
            let ghost at = self.offset();
            let ghost done = forest(root_list@);
            let ghost open = forest(current_statement@);
            match self.peek() {
                None => {
                    break ;
                },
                Some(token) => {
                    match token.token_type {
                        TokenType::Value => {
                            let new_token = Token::new(TokenType::Value, token.lexeme.clone());
                            current_statement.push(AstNode::Atom(new_token));
                            self.advance();
                            assert(forest(current_statement@) =~= open.push(Tree::Atom(token@)));
                        },
                        TokenType::Punctuation => {
                            if mark(token, '(') || mark(token, '{') {
                                self.advance();
                                proof {
                                    lemma_nested_end(tokens, at + 1, Seq::empty(), Seq::empty());
                                }
                                let nested_list = self.parse_list()?;
                                current_statement.push(nested_list);
                                assert(forest(current_statement@) =~= open.push(nested_list@));
                            } else if mark(token, ')') || mark(token, '}') {
                                root_list.append(&mut current_statement);
                                self.advance();
                                assert(forest(root_list@) =~= done + open);
                                break ;
                            } else if mark(token, ';') {
                                proof {
                                    lemma_list_view(AstNode::List(current_statement));
                                }
                                root_list.push(AstNode::List(current_statement));
                                current_statement = Vec::new();
                                self.advance();
                                assert(forest(root_list@) =~= done.push(Tree::Group(open)));
                                assert(forest(current_statement@) =~= Seq::<Tree>::empty());
                            } else {
                                self.advance();
                            }
                        },
                        TokenType::EOF => {
                            proof {
                                lemma_list_view(AstNode::List(current_statement));
                            }
                            root_list.push(AstNode::List(current_statement));
                            current_statement = Vec::new();
                            self.advance();
                            assert(forest(root_list@) =~= done.push(Tree::Group(open)));
                            assert(forest(current_statement@) =~= Seq::<Tree>::empty());
                        },
                    }
                },
            }
        }
        proof {
            lemma_list_view(AstNode::List(root_list));
        }
        Ok(AstNode::List(root_list))
    }

    /// Builds the tree of the tokens from the current offset on and reads
    /// them to their end. The root is a list, and the call never fails.
    pub fn parse(&mut self) -> (result: Result<AstNode, String>)
        ensures
            final(self).tokens() == old(self).tokens(),
            final(self).offset() >= old(self).tokens().len(),
            result is Ok,
            result->Ok_0 is List,
            result->Ok_0@ == Tree::Group(
                program(old(self).tokens(), old(self).offset(), Seq::empty(), Seq::empty()),
            ),
            old(self).offset() == 0 ==> result->Ok_0@ == syntax_tree(old(self).tokens()),
            atoms_are_values(result->Ok_0@),
    {
        let ghost tokens = self.tokens();
        let ghost goal = program(tokens, self.offset(), Seq::empty(), Seq::empty());
        let mut root_list: Vec<AstNode> = Vec::new();
        let mut current_statement: Vec<AstNode> = Vec::new();
        assert(forest(root_list@) =~= Seq::<Tree>::empty());
        assert(forest(current_statement@) =~= Seq::<Tree>::empty());
        while !self.is_at_end()
            invariant
                self.tokens() == tokens,
                tokens == old(self).tokens(),
                goal == program(
                    tokens,
                    self.offset(),
                    forest(root_list@),
                    forest(current_statement@),
                ),
            decreases tokens.len() - self.offset(),
        {
            let ghost at = self.offset();
            let ghost done = forest(root_list@);
            let ghost open = forest(current_statement@);
            if let Some(token) = self.peek() {
                match token.token_type {
                    TokenType::Value => {
                        let new_token = Token::new(TokenType::Value, token.lexeme.clone());
                        current_statement.push(AstNode::Atom(new_token));
                        self.advance();
                        assert(forest(current_statement@) =~= open.push(Tree::Atom(token@)));
                    },
                    TokenType::Punctuation => {
                        if mark(token, '(') || mark(token, '{') {
                            self.advance();
                            proof {
                                lemma_nested_end(tokens, at + 1, Seq::empty(), Seq::empty());
                            }
                            let nested_list = self.parse_list()?;
                            current_statement.push(nested_list);
                            assert(forest(current_statement@) =~= open.push(nested_list@));
                        } else if mark(token, ';') {
                            proof {
                                lemma_list_view(AstNode::List(current_statement));
                            }
                            root_list.push(AstNode::List(current_statement));
                            current_statement = Vec::new();
                            self.advance();
                            assert(forest(root_list@) =~= done.push(Tree::Group(open)));
                            assert(forest(current_statement@) =~= Seq::<Tree>::empty());
                        } else {
                            self.advance();
                        }
                    },
                    TokenType::EOF => {
                        root_list.append(&mut current_statement);
                        current_statement = Vec::new();
                        self.advance();
                        assert(forest(root_list@) =~= done + open);
                        assert(forest(current_statement@) =~= Seq::<Tree>::empty());
                    },
                }
            }
        }
        proof {
            lemma_list_view(AstNode::List(root_list));
            lemma_program_values(tokens, old(self).offset(), Seq::empty(), Seq::empty());
        }
        Ok(AstNode::List(root_list))
    }
}

} // verus!
