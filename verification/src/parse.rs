//! The parser: a two-phase recursive-descent reducer. The grouper turns the
//! flat token sequence into a nested bracket tree honoring parenthesis
//! nesting; classification walks that tree into the abstract syntax tree.

use vstd::prelude::*;

use crate::tokenize::{token_view, tokens_view, Token, TokenView};

verus! {

/// A node of the abstract syntax tree.
#[derive(Debug, PartialEq)]
pub enum TreeElement {
    NumericLiteral(u32),
    StringLiteral(String),
    Identifier(String),
    CallExpression { name: String, arguments: Vec<TreeElement> },
    Empty,
}

/// The mathematical value of an abstract syntax tree node.
pub ghost enum TreeElementView {
    NumericLiteral(u32),
    StringLiteral(Seq<char>),
    Identifier(Seq<char>),
    CallExpression { name: Seq<char>, arguments: Seq<TreeElementView> },
    Empty,
}

/// The bracket tree: a non-parenthesis token stands alone as a `Value`, and
/// the tokens found between one matched `(` and its `)` form a `Collection`.
/// A collection never contains the parentheses that delimit it.
#[derive(Debug, PartialEq)]
pub enum Item {
    Value(Token),
    Collection(Vec<Item>),
}

/// The mathematical value of a bracket tree node.
pub ghost enum ItemView {
    Value(TokenView),
    Collection(Seq<ItemView>),
}

pub open spec fn item_view(x: Item) -> ItemView
    decreases x, 0int,
{
    match x {
        Item::Value(t) => ItemView::Value(token_view(t)),
        Item::Collection(cs) => ItemView::Collection(items_view_from(cs@, 0)),
    }
}

pub open spec fn items_view_from(cs: Seq<Item>, i: int) -> Seq<ItemView>
    decreases cs, cs.len() - i + 1,
{
    if 0 <= i < cs.len() {
        seq![item_view(cs[i])] + items_view_from(cs, i + 1)
    } else {
        Seq::empty()
    }
}

pub open spec fn items_view(cs: Seq<Item>) -> Seq<ItemView> {
    items_view_from(cs, 0)
}

pub proof fn lemma_items_view_from(cs: Seq<Item>, i: int)
    requires
        0 <= i <= cs.len(),
    ensures
        items_view_from(cs, i).len() == cs.len() - i,
        forall|k: int| 0 <= k < cs.len() - i ==> items_view_from(cs, i)[k] == item_view(cs[i + k]),
    decreases cs.len() - i,
{
    if i < cs.len() {
        lemma_items_view_from(cs, i + 1);
        assert forall|k: int| 0 <= k < cs.len() - i implies items_view_from(cs, i)[k] == item_view(
            cs[i + k],
        ) by {
            if k > 0 {
                assert(items_view_from(cs, i)[k] == items_view_from(cs, i + 1)[k - 1]);
            }
        }
    }
}

proof fn lemma_items_view_push(cs: Seq<Item>, x: Item)
    ensures
        items_view(cs.push(x)) == items_view(cs).push(item_view(x)),
    decreases cs.len(),
{
    lemma_items_view_from(cs.push(x), 0);
    lemma_items_view_from(cs, 0);
    assert(items_view(cs.push(x)) =~= items_view(cs).push(item_view(x)));
}

pub open spec fn tree_view(e: TreeElement) -> TreeElementView
    decreases e, 0int,
{
    match e {
        TreeElement::NumericLiteral(v) => TreeElementView::NumericLiteral(v),
        TreeElement::StringLiteral(st) => TreeElementView::StringLiteral(st@),
        TreeElement::Identifier(st) => TreeElementView::Identifier(st@),
        TreeElement::CallExpression { name, arguments } => TreeElementView::CallExpression {
            name: name@,
            arguments: trees_view_from(arguments@, 0),
        },
        TreeElement::Empty => TreeElementView::Empty,
    }
}

pub open spec fn trees_view_from(es: Seq<TreeElement>, i: int) -> Seq<TreeElementView>
    decreases es, es.len() - i + 1,
{
    if 0 <= i < es.len() {
        seq![tree_view(es[i])] + trees_view_from(es, i + 1)
    } else {
        Seq::empty()
    }
}

pub open spec fn trees_view(es: Seq<TreeElement>) -> Seq<TreeElementView> {
    trees_view_from(es, 0)
}

pub proof fn lemma_trees_view_from(es: Seq<TreeElement>, i: int)
    requires
        0 <= i <= es.len(),
    ensures
        trees_view_from(es, i).len() == es.len() - i,
        forall|k: int| 0 <= k < es.len() - i ==> trees_view_from(es, i)[k] == tree_view(es[i + k]),
    decreases es.len() - i,
{
    if i < es.len() {
        lemma_trees_view_from(es, i + 1);
        assert forall|k: int| 0 <= k < es.len() - i implies trees_view_from(es, i)[k] == tree_view(
            es[i + k],
        ) by {
            if k > 0 {
                assert(trees_view_from(es, i)[k] == trees_view_from(es, i + 1)[k - 1]);
            }
        }
    }
}

proof fn lemma_trees_view_push(es: Seq<TreeElement>, e: TreeElement)
    ensures
        trees_view(es.push(e)) == trees_view(es).push(tree_view(e)),
{
    lemma_trees_view_from(es.push(e), 0);
    lemma_trees_view_from(es, 0);
    assert(trees_view(es.push(e)) =~= trees_view(es).push(tree_view(e)));
}

impl TreeElement {
    pub fn numeric_literal(value: u32) -> (r: Self)
        ensures
            tree_view(r) == TreeElementView::NumericLiteral(value),
    {
        Self::NumericLiteral(value)
    }

    pub fn string_literal(value: &str) -> (r: TreeElement)
        ensures
            tree_view(r) == TreeElementView::StringLiteral(value@),
    {
        Self::StringLiteral(value.to_owned())
    }

    pub fn identifier(value: &str) -> (r: TreeElement)
        ensures
            tree_view(r) == TreeElementView::Identifier(value@),
    {
        Self::Identifier(value.to_owned())
    }

    pub fn call_expression(name: &str, arguments: Vec<TreeElement>) -> (r: TreeElement)
        ensures
            tree_view(r) == (TreeElementView::CallExpression {
                name: name@,
                arguments: trees_view(arguments@),
            }),
    {
        Self::CallExpression { name: name.to_owned(), arguments }
    }
}

/// Where grouping one bracket tree that starts at position `i` ends, and what
/// it yields: `None` when no token is left, else the tree and the position
/// just after it. An opening parenthesis opens a collection that runs to its
/// matching closing parenthesis, or to the end of the tokens when that
/// closing parenthesis is missing; any other token stands alone.
pub open spec fn spec_group(ts: Seq<TokenView>, i: int) -> Option<(ItemView, int)>
    decreases ts.len() - i, 0int,
{
    if i < 0 || i >= ts.len() {
        None
    } else if ts[i] == TokenView::Parenthesis('(') {
        let (children, j) = spec_group_list(ts, i + 1);
        Some((ItemView::Collection(children), j))
    } else {
        Some((ItemView::Value(ts[i]), i + 1))
    }
}

/// The members of a collection being grouped from position `i` on, and the
/// position just after the closing parenthesis that ends it (or the end of
/// the tokens when it is missing).
pub open spec fn spec_group_list(ts: Seq<TokenView>, i: int) -> (Seq<ItemView>, int)
    decreases ts.len() - i, 1int,
{
    if i < 0 || i >= ts.len() {
        (Seq::empty(), i)
    } else if ts[i] == TokenView::Parenthesis(')') {
        (Seq::empty(), i + 1)
    } else {
        match spec_group(ts, i) {
            Some((child, j)) => {
                if i < j <= ts.len() {
                    let (rest, k) = spec_group_list(ts, j);
                    (seq![child] + rest, k)
                } else {
                    (Seq::empty(), i)
                }
            },
            None => (Seq::empty(), i),
        }
    }
}

pub proof fn lemma_spec_group_bounds(ts: Seq<TokenView>, i: int)
    requires
        0 <= i < ts.len(),
    ensures
        spec_group(ts, i) is Some,
        i < (spec_group(ts, i)->0).1 <= ts.len(),
    decreases ts.len() - i, 0int,
{
    if ts[i] == TokenView::Parenthesis('(') {
        lemma_spec_group_list_bounds(ts, i + 1);
    }
}

pub proof fn lemma_spec_group_list_bounds(ts: Seq<TokenView>, i: int)
    requires
        0 <= i <= ts.len(),
    ensures
        i <= spec_group_list(ts, i).1 <= ts.len(),
    decreases ts.len() - i, 1int,
{
    if i < ts.len() && ts[i] != TokenView::Parenthesis(')') {
        lemma_spec_group_bounds(ts, i);
        let j = (spec_group(ts, i)->0).1;
        lemma_spec_group_list_bounds(ts, j);
    }
}

/// What classifying a bracket tree yields. A lone number, name or string
/// token becomes the matching literal; a collection whose first member is a
/// name token becomes a call expression whose arguments are its remaining
/// classifiable members; anything else yields nothing.
pub open spec fn spec_classify(x: ItemView) -> Option<TreeElementView>
    decreases x, 0int,
{
    match x {
        ItemView::Value(t) => match t {
            TokenView::Number(v) => Some(TreeElementView::NumericLiteral(v)),
            TokenView::Name(s) => Some(TreeElementView::Identifier(s)),
            TokenView::String(s) => Some(TreeElementView::StringLiteral(s)),
            TokenView::Parenthesis(_) => None,
        },
        ItemView::Collection(cs) => {
            if cs.len() == 0 {
                None
            } else {
                match cs[0] {
                    ItemView::Value(TokenView::Name(nm)) => Some(
                        TreeElementView::CallExpression {
                            name: nm,
                            arguments: spec_classify_args(cs, 1),
                        },
                    ),
                    _ => None,
                }
            }
        },
    }
}

/// The classifiable members of `cs` from position `i` on, in order; members
/// that cannot be classified are dropped.
pub open spec fn spec_classify_args(cs: Seq<ItemView>, i: int) -> Seq<TreeElementView>
    decreases cs, cs.len() - i + 1,
{
    if 0 <= i < cs.len() {
        match spec_classify(cs[i]) {
            Some(e) => seq![e] + spec_classify_args(cs, i + 1),
            None => spec_classify_args(cs, i + 1),
        }
    } else {
        Seq::empty()
    }
}

pub open spec fn opt_tree_view(r: Option<TreeElement>) -> Option<TreeElementView> {
    match r {
        Some(e) => Some(tree_view(e)),
        None => None,
    }
}

/// What parsing a token sequence yields: the classification of the single
/// top-level bracket tree grouped from the front, or nothing when there are
/// no tokens or that tree cannot be classified. Tokens after the first
/// top-level tree are ignored.
pub open spec fn spec_parse(ts: Seq<TokenView>) -> Option<TreeElementView> {
    match spec_group(ts, 0) {
        Some((root, _)) => spec_classify(root),
        None => None,
    }
}

/// The parenthesis nesting depth of a bracket tree: a lone value has depth
/// zero, and a collection is one deeper than its deepest member.
pub open spec fn item_depth(x: ItemView) -> nat
    decreases x, 0int,
{
    match x {
        ItemView::Value(_) => 0,
        ItemView::Collection(cs) => 1 + items_depth_max(cs, 0),
    }
}

/// The greatest depth among the members of `cs` from position `i` on.
pub open spec fn items_depth_max(cs: Seq<ItemView>, i: int) -> nat
    decreases cs, cs.len() - i + 1,
{
    if 0 <= i < cs.len() {
        let d = item_depth(cs[i]);
        let rest = items_depth_max(cs, i + 1);
        if d > rest {
            d
        } else {
            rest
        }
    } else {
        0
    }
}

/// The call-expression nesting depth of an abstract syntax tree node: a
/// literal or identifier has depth zero, and a call expression is one deeper
/// than its deepest argument.
pub open spec fn tree_depth(e: TreeElementView) -> nat
    decreases e, 0int,
{
    match e {
        TreeElementView::CallExpression { arguments, .. } => 1 + trees_depth_max(arguments, 0),
        _ => 0,
    }
}

/// The greatest depth among the nodes of `es` from position `i` on.
pub open spec fn trees_depth_max(es: Seq<TreeElementView>, i: int) -> nat
    decreases es, es.len() - i + 1,
{
    if 0 <= i < es.len() {
        let d = tree_depth(es[i]);
        let rest = trees_depth_max(es, i + 1);
        if d > rest {
            d
        } else {
            rest
        }
    } else {
        0
    }
}

/// A bracket tree built only from balanced parenthesized groups of names,
/// numbers and strings: every lone value is a non-parenthesis token, and
/// every collection is nonempty, has a name token first, and holds only such
/// trees.
pub open spec fn wf_item(x: ItemView) -> bool
    decreases x, 0int,
{
    match x {
        ItemView::Value(t) => !(t is Parenthesis),
        ItemView::Collection(cs) => cs.len() > 0 && (cs[0] matches ItemView::Value(
            TokenView::Name(_),
        )) && wf_items_from(cs, 0),
    }
}

/// Whether every member of `cs` from position `i` on is well formed.
pub open spec fn wf_items_from(cs: Seq<ItemView>, i: int) -> bool
    decreases cs, cs.len() - i + 1,
{
    if 0 <= i < cs.len() {
        wf_item(cs[i]) && wf_items_from(cs, i + 1)
    } else {
        true
    }
}

proof fn lemma_trees_depth_shift(e: TreeElementView, s: Seq<TreeElementView>, i: int)
    requires
        0 <= i,
    ensures
        trees_depth_max(seq![e] + s, i + 1) == trees_depth_max(s, i),
    decreases s.len() - i,
{
    if i < s.len() {
        lemma_trees_depth_shift(e, s, i + 1);
    }
}

/// Round-trip shape: classifying a bracket tree built only from balanced
/// parenthesized groups of names, numbers and strings always succeeds, and
/// the call-expression nesting depth of the result equals the parenthesis
/// nesting depth of the tree.
pub proof fn lemma_classify_preserves_depth(x: ItemView)
    requires
        wf_item(x),
    ensures
        spec_classify(x) is Some,
        tree_depth(spec_classify(x)->0) == item_depth(x),
    decreases x, 0int,
{
    match x {
        ItemView::Value(_) => {},
        ItemView::Collection(cs) => {
            lemma_classify_args_depth(cs, 1);
            assert(item_depth(cs[0]) == 0);
            assert(items_depth_max(cs, 0) == items_depth_max(cs, 1));
        },
    }
}

/// Classifying the well-formed members of `cs` from position `i` on drops
/// none of them and keeps the greatest depth among them.
proof fn lemma_classify_args_depth(cs: Seq<ItemView>, i: int)
    requires
        0 <= i,
        wf_items_from(cs, i),
    ensures
        trees_depth_max(spec_classify_args(cs, i), 0) == items_depth_max(cs, i),
    decreases cs, cs.len() - i + 1,
{
    if 0 <= i < cs.len() {
        lemma_classify_preserves_depth(cs[i]);
        lemma_classify_args_depth(cs, i + 1);
        let e = spec_classify(cs[i])->0;
        lemma_trees_depth_shift(e, spec_classify_args(cs, i + 1), 0);
        assert((seq![e] + spec_classify_args(cs, i + 1))[0] == e);
    }
}

/// The token sequence that a bracket tree stands for: each collection
/// contributes exactly one matched pair of parentheses around its members'
/// tokens. An input built only from balanced parenthesized groups of names,
/// numbers and strings is such a sequence for some well-formed bracket tree.
pub open spec fn item_tokens(x: ItemView) -> Seq<TokenView>
    decreases x, 0int,
{
    match x {
        ItemView::Value(t) => seq![t],
        ItemView::Collection(cs) => seq![TokenView::Parenthesis('(')] + items_tokens(cs, 0)
            + seq![TokenView::Parenthesis(')')],
    }
}

/// The tokens of the members of `cs` from position `i` on, in order.
pub open spec fn items_tokens(cs: Seq<ItemView>, i: int) -> Seq<TokenView>
    decreases cs, cs.len() - i + 1,
{
    if 0 <= i < cs.len() {
        item_tokens(cs[i]) + items_tokens(cs, i + 1)
    } else {
        Seq::empty()
    }
}

proof fn lemma_item_tokens_first(x: ItemView)
    requires
        wf_item(x),
    ensures
        item_tokens(x).len() >= 1,
        item_tokens(x)[0] != TokenView::Parenthesis(')'),
        x is Collection ==> item_tokens(x)[0] == TokenView::Parenthesis('('),
        x is Value ==> item_tokens(x)[0] == x->Value_0,
{
    match x {
        ItemView::Value(_) => {},
        ItemView::Collection(_) => {},
    }
}

/// Grouping inverts flattening: inside any token sequence that holds the
/// tokens of a well-formed bracket tree at position `i`, grouping from `i`
/// rebuilds exactly that tree and stops just after its tokens.
pub proof fn lemma_group_round_trip(x: ItemView, ts: Seq<TokenView>, i: int)
    requires
        wf_item(x),
        0 <= i,
        i + item_tokens(x).len() <= ts.len(),
        ts.subrange(i, i + item_tokens(x).len()) == item_tokens(x),
    ensures
        spec_group(ts, i) == Some((x, i + item_tokens(x).len())),
    decreases x, 0int,
{
    lemma_item_tokens_first(x);
    assert(ts[i] == item_tokens(x)[0]);
    match x {
        ItemView::Value(t) => {},
        ItemView::Collection(cs) => {
            let body = items_tokens(cs, 0);
            let whole = item_tokens(x);
            assert(whole.len() == body.len() + 2);
            assert forall|k: int| 0 <= k < body.len() implies ts[i + 1 + k] == body[k] by {
                assert(whole[1 + k] == body[k]);
                assert(ts[i + 1 + k] == whole[1 + k]);
            }
            assert(ts.subrange(i + 1, i + 1 + body.len()) =~= body);
            assert(ts[i + 1 + body.len()] == whole[1 + body.len() as int]);
            assert(ts[i + 1 + body.len()] == TokenView::Parenthesis(')'));
            lemma_group_list_round_trip(cs, 0, ts, i + 1);
            assert(cs.skip(0) =~= cs);
        },
    }
}

/// Grouping the members of a collection: with the members' tokens at
/// position `i` and the collection's closing parenthesis just after them,
/// collecting from `i` rebuilds exactly the members and consumes the closing
/// parenthesis.
proof fn lemma_group_list_round_trip(cs: Seq<ItemView>, j: int, ts: Seq<TokenView>, i: int)
    requires
        0 <= j <= cs.len(),
        wf_items_from(cs, j),
        0 <= i,
        i + items_tokens(cs, j).len() < ts.len(),
        ts.subrange(i, i + items_tokens(cs, j).len()) == items_tokens(cs, j),
        ts[i + items_tokens(cs, j).len()] == TokenView::Parenthesis(')'),
    ensures
        spec_group_list(ts, i) == (cs.skip(j), i + items_tokens(cs, j).len() + 1),
    decreases cs, cs.len() - j + 1,
{
    if j == cs.len() {
        assert(cs.skip(j) =~= Seq::<ItemView>::empty());
    } else {
        let first = item_tokens(cs[j]);
        let rest = items_tokens(cs, j + 1);
        let body = items_tokens(cs, j);
        assert(body == first + rest);
        assert forall|k: int| 0 <= k < first.len() implies ts[i + k] == first[k] by {
            assert(ts[i + k] == body[k]);
        }
        assert(ts.subrange(i, i + first.len()) =~= first);
        lemma_group_round_trip(cs[j], ts, i);
        lemma_item_tokens_first(cs[j]);
        assert(ts[i] != TokenView::Parenthesis(')'));
        assert forall|k: int| 0 <= k < rest.len() implies ts[i + first.len() + k] == rest[k] by {
            assert(ts[i + first.len() + k] == body[first.len() + k]);
        }
        assert(ts.subrange(i + first.len(), i + first.len() + rest.len()) =~= rest);
        lemma_group_list_round_trip(cs, j + 1, ts, i + first.len());
        assert(cs.skip(j) =~= seq![cs[j]] + cs.skip(j + 1));
    }
}

/// Round-trip shape: parsing the token sequence of a well-formed bracket
/// tree succeeds, and the call-expression nesting depth of the result equals
/// the parenthesis nesting depth of that sequence, each collection
/// contributing exactly one matched pair of parentheses.
pub proof fn lemma_parse_round_trip_depth(x: ItemView)
    requires
        wf_item(x),
    ensures
        spec_parse(item_tokens(x)) is Some,
        tree_depth(spec_parse(item_tokens(x))->0) == item_depth(x),
{
    let ts = item_tokens(x);
    assert(ts.subrange(0, ts.len() as int) =~= ts);
    lemma_group_round_trip(x, ts, 0);
    lemma_classify_preserves_depth(x);
}

/// Parsing is deterministic: any two results that meet `parse`'s contract on
/// equal token sequences are equal at the view level.
pub proof fn lemma_parse_deterministic(
    ts1: Seq<TokenView>,
    ts2: Seq<TokenView>,
    r1: Option<TreeElement>,
    r2: Option<TreeElement>,
)
    requires
        ts1 == ts2,
        opt_tree_view(r1) == spec_parse(ts1),
        opt_tree_view(r2) == spec_parse(ts2),
    ensures
        opt_tree_view(r1) == opt_tree_view(r2),
{
}

fn clone_token(t: &Token) -> (r: Token)
    ensures
        token_view(r) == token_view(*t),
{
    match t {
        Token::Parenthesis(c) => Token::Parenthesis(*c),
        Token::Name(s) => Token::Name(s.clone()),
        Token::Number(v) => Token::Number(*v),
        Token::String(s) => Token::String(s.clone()),
    }
}

/// Group one bracket tree out of `tokens`, starting at `start`. Returns the
/// tree (or `None` when no token is left) and the position just after what
/// was consumed.
pub fn parenthesize(tokens: &Vec<Token>, start: usize) -> (r: (Option<Item>, usize))
    ensures
        match spec_group(tokens_view(tokens@), start as int) {
            Some((item, j)) => {
                &&& r.0 is Some
                &&& item_view(r.0->0) == item
                &&& r.1 == j
            },
            None => r.0 is None && r.1 == start,
        },
    decreases tokens.len() - start,
{
    let ghost ts = tokens_view(tokens@);
    if start >= tokens.len() {
        return (None, start);
    }
    let is_open = match &tokens[start] {
        Token::Parenthesis(c) => *c == '(',
        _ => false,
    };
    if is_open {
        let mut children: Vec<Item> = Vec::new();
        let mut idx: usize = start + 1;
        proof {
            assert(items_view(children@) + spec_group_list(ts, idx as int).0 =~= spec_group_list(
                ts,
                idx as int,
            ).0);
        }
        loop
            invariant
                ts == tokens_view(tokens@),
                ts.len() == tokens@.len(),
                start < idx <= tokens.len(),
                spec_group_list(ts, start as int + 1).0 == items_view(children@)
                    + spec_group_list(ts, idx as int).0,
                spec_group_list(ts, start as int + 1).1 == spec_group_list(ts, idx as int).1,
            ensures
                ts == tokens_view(tokens@),
                start < idx <= tokens.len(),
                spec_group_list(ts, start as int + 1).0 == items_view(children@)
                    + spec_group_list(ts, idx as int).0,
                spec_group_list(ts, start as int + 1).1 == spec_group_list(ts, idx as int).1,
                idx == tokens.len() || ts[idx as int] == TokenView::Parenthesis(')'),
            decreases tokens.len() - idx,
        {
            if idx >= tokens.len() {
                break;
            }
            let is_close = match &tokens[idx] {
                Token::Parenthesis(c) => *c == ')',
                _ => false,
            };
            if is_close {
                break;
            }
            let ghost idx0 = idx as int;
            let (child_opt, next) = parenthesize(tokens, idx);
            proof {
                lemma_spec_group_bounds(ts, idx0);
            }
            match child_opt {
                Some(child) => {
                    proof {
                        lemma_items_view_push(children@, child);
                        let childv = (spec_group(ts, idx0)->0).0;
                        let rest = spec_group_list(ts, next as int).0;
                        assert(spec_group_list(ts, idx0).0 == seq![childv] + rest);
                        assert(items_view(children@) + (seq![childv] + rest) =~= items_view(
                            children@,
                        ).push(childv) + rest);
                    }
                    children.push(child);
                    idx = next;
                },
                None => {
                    proof {
                        assert(false);
                    }
                },
            }
        }
        if idx < tokens.len() {
            // the closing parenthesis is consumed, not stored
            return (Some(Item::Collection(children)), idx + 1);
        } else {
            // input exhausted inside the collection: tolerated silently
            return (Some(Item::Collection(children)), idx);
        }
    } else {
        let leaf = Item::Value(clone_token(&tokens[start]));
        return (Some(leaf), start + 1);
    }
}

/// Classify one bracket tree into an abstract syntax tree node, or `None`
/// when it cannot be classified.
pub fn classify(x: &Item) -> (r: Option<TreeElement>)
    ensures
        opt_tree_view(r) == spec_classify(item_view(*x)),
    decreases *x,
{
    match x {
        Item::Value(t) => match t {
            Token::Number(v) => Some(TreeElement::NumericLiteral(*v)),
            Token::Name(s) => Some(TreeElement::Identifier(s.clone())),
            Token::String(s) => Some(TreeElement::StringLiteral(s.clone())),
            Token::Parenthesis(_) => None,
        },
        Item::Collection(cs) => {
            proof {
                lemma_items_view_from(cs@, 0);
            }
            if cs.len() == 0 {
                return None;
            }
            let name = match &cs[0] {
                Item::Value(Token::Name(nm)) => nm.clone(),
                _ => {
                    return None;
                },
            };
            let ghost cv = items_view(cs@);
            let mut arguments: Vec<TreeElement> = Vec::new();
            let mut k: usize = 1;
            proof {
                assert(trees_view(arguments@) + spec_classify_args(cv, 1) =~= spec_classify_args(
                    cv,
                    1,
                ));
            }
            while k < cs.len()
                invariant
                    *x == Item::Collection(*cs),
                    cv == items_view(cs@),
                    cv.len() == cs@.len(),
                    forall|j: int| 0 <= j < cs@.len() ==> cv[j] == item_view(cs@[j]),
                    1 <= k <= cs.len(),
                    spec_classify_args(cv, 1) == trees_view(arguments@) + spec_classify_args(
                        cv,
                        k as int,
                    ),
                decreases cs.len() - k,
            {
                let ghost k0 = k as int;
                let ghost pre = arguments@;
                proof {
                    assert(decreases_to!(*x => x->Collection_0));
                    assert(decreases_to!(x->Collection_0 => x->Collection_0@));
                    assert(decreases_to!(x->Collection_0@ => x->Collection_0@[k0]));
                    assert(decreases_to!(*x => cs@[k0]));
                }
                match classify(&cs[k]) {
                    Some(e) => {
                        proof {
                            lemma_trees_view_push(pre, e);
                            assert(trees_view(pre) + (seq![tree_view(e)] + spec_classify_args(
                                cv,
                                k0 + 1,
                            )) =~= trees_view(pre).push(tree_view(e)) + spec_classify_args(
                                cv,
                                k0 + 1,
                            ));
                        }
                        arguments.push(e);
                    },
                    None => {
                    },
                }
                k = k + 1;
            }
            proof {
                assert(trees_view(arguments@) + Seq::<TreeElementView>::empty() =~= trees_view(
                    arguments@,
                ));
            }
            Some(TreeElement::CallExpression { name, arguments })
        },
    }
}

/// Parse a token sequence: group the first top-level bracket tree and
/// classify it. Yields `None` when there are no tokens at all or when the
/// tree cannot be classified.
pub fn parse(tokens: Vec<Token>) -> (r: Option<TreeElement>)
    ensures
        opt_tree_view(r) == spec_parse(tokens_view(tokens@)),
{
    let (grouped, _rest) = parenthesize(&tokens, 0);
    match grouped {
        Some(root) => classify(&root),
        None => None,
    }
}

} // verus!
