//! Structural parsing: the token stream becomes a nested syntax tree.
//!
//! The parser assumes a balanced token stream, as established by the lexer's
//! balance check. Loop brackets are matched depth-aware: a nested open
//! increments a counter, a close decrements it, and the match is the close
//! that returns the counter to zero. A parsed loop node is followed by an
//! explicit close-marker node at the same level, which the generator later
//! uses as its fold point.
//!
//! The parser's contract is a round trip: flattening the parsed node list
//! (a loop node back to an open bracket plus its body, a close marker back
//! to a close bracket, every leaf back to its token) reproduces the input
//! token sequence exactly, and the node list is well shaped. Together the
//! two pin the tree down: no other well-shaped tree flattens to the same
//! tokens.

use vstd::prelude::*;

use crate::lexer::Token;
use crate::lexer::balanced;
use crate::lexer::bracket_delta;
use crate::lexer::bracket_sum;
use crate::lexer::lemma_balanced_span_prefixes;
use crate::lexer::lemma_bracket_sum_concat;
use crate::lexer::lemma_bracket_sum_le_len;
use crate::lexer::lemma_bracket_sum_singleton;
use crate::lexer::lemma_bracket_sum_split;

verus! {

/// One node of the syntax tree. `Expr` is the top-level program or a
/// completed region; `Loop` exclusively owns the nodes of its body.
#[derive(Debug, PartialEq)]
pub enum Node {
    PlusNode,
    MinusNode,
    IncrementPtrNode,
    DecrementPtrNode,
    PrintCurrPosNode,
    LoopCloseNode,
    Expr(Box<Vec<Node>>),
    LoopExpr(Box<Vec<Node>>),
}

/// The child list of a sequence or loop node; empty for a leaf.
pub open spec fn node_children(n: Node) -> Seq<Node> {
    match n {
        Node::Expr(v) => v@,
        Node::LoopExpr(v) => v@,
        _ => Seq::empty(),
    }
}

/// The token sequence a single node stands for. A loop node contributes its
/// open bracket and its flattened body; the matching close bracket is
/// contributed by the close-marker node that follows the loop node. A bare
/// sequence node inside a list stands for no tokens: the parser never
/// produces one there and the generator skips it.
pub open spec fn flat_node(n: Node) -> Seq<Token>
    decreases n,
{
    match n {
        Node::PlusNode => seq![Token::PlusToken],
        Node::MinusNode => seq![Token::MinusToken],
        Node::IncrementPtrNode => seq![Token::GreaterThanToken],
        Node::DecrementPtrNode => seq![Token::SmallerThanToken],
        Node::PrintCurrPosNode => seq![Token::DotToken],
        Node::LoopCloseNode => seq![Token::RightBracketToken],
        Node::Expr(_) => Seq::empty(),
        Node::LoopExpr(v) => seq![Token::LeftBracketToken] + flat_nodes(v@),
    }
}

/// The token sequence a node list stands for.
pub open spec fn flat_nodes(s: Seq<Node>) -> Seq<Token>
    decreases s,
{
    if s.len() == 0 {
        Seq::empty()
    } else {
        flat_node(s[0]) + flat_nodes(s.drop_first())
    }
}

/// A node list has the shape the parser produces: no nested bare sequence
/// nodes, every loop node is immediately followed by its close marker and
/// carries a balanced, well-shaped body, and a close marker stands only
/// right after a loop node.
pub open spec fn wf_nodes(s: Seq<Node>) -> bool
    decreases s,
{
    if s.len() == 0 {
        true
    } else {
        match s[0] {
            Node::Expr(_) => false,
            Node::LoopCloseNode => false,
            Node::LoopExpr(v) => s.len() >= 2 && (s[1] is LoopCloseNode) && balanced(
                flat_nodes(v@),
            ) && wf_nodes(v@) && wf_nodes(s.subrange(2, s.len() as int)),
            _ => wf_nodes(s.drop_first()),
        }
    }
}

/// Flattening distributes over appending one node.
pub proof fn lemma_flat_nodes_push(s: Seq<Node>, n: Node)
    ensures
        flat_nodes(s.push(n)) == flat_nodes(s) + flat_node(n),
    decreases s.len(),
{
    if s.len() == 0 {
        assert(flat_nodes(Seq::<Node>::empty()) == Seq::<Token>::empty());
        assert(s.push(n)[0] == n);
        assert(s.push(n).drop_first() =~= Seq::<Node>::empty());
        assert(flat_node(n) + Seq::<Token>::empty() =~= flat_node(n));
        assert(Seq::<Token>::empty() + flat_node(n) =~= flat_node(n));
    } else {
        lemma_flat_nodes_push(s.drop_first(), n);
        assert(s.push(n).drop_first() =~= s.drop_first().push(n));
        assert(flat_node(s[0]) + (flat_nodes(s.drop_first()) + flat_node(n)) =~= (flat_node(s[0])
            + flat_nodes(s.drop_first())) + flat_node(n));
    }
}

/// A node other than a bare sequence flattens to at least one token.
pub proof fn lemma_flat_node_nonempty(n: Node)
    requires
        !(n is Expr),
    ensures
        flat_node(n).len() >= 1,
{
}

/// Flattening distributes over concatenation of node lists.
pub proof fn lemma_flat_nodes_concat(a: Seq<Node>, b: Seq<Node>)
    ensures
        flat_nodes(a + b) == flat_nodes(a) + flat_nodes(b),
    decreases a.len(),
{
    if a.len() == 0 {
        assert(a + b =~= b);
        assert(Seq::<Token>::empty() + flat_nodes(b) =~= flat_nodes(b));
    } else {
        lemma_flat_nodes_concat(a.drop_first(), b);
        assert((a + b).drop_first() =~= a.drop_first() + b);
        assert((a + b)[0] == a[0]);
        assert(flat_node(a[0]) + (flat_nodes(a.drop_first()) + flat_nodes(b)) =~= (flat_node(a[0])
            + flat_nodes(a.drop_first())) + flat_nodes(b));
    }
}

/// One more node extends the flattening of a prefix by that node's tokens.
pub proof fn lemma_flat_nodes_take_succ(s: Seq<Node>, i: int)
    requires
        0 <= i < s.len(),
    ensures
        flat_nodes(s.take(i + 1)) == flat_nodes(s.take(i)) + flat_node(s[i]),
{
    assert(s.take(i + 1) =~= s.take(i).push(s[i]));
    lemma_flat_nodes_push(s.take(i), s[i]);
}

/// A node list flattens to the flattening of a prefix plus that of the rest.
pub proof fn lemma_flat_nodes_split(s: Seq<Node>, i: int)
    requires
        0 <= i <= s.len(),
    ensures
        flat_nodes(s) == flat_nodes(s.take(i)) + flat_nodes(s.skip(i)),
{
    assert(s.take(i) + s.skip(i) =~= s);
    lemma_flat_nodes_concat(s.take(i), s.skip(i));
}

/// The flattening of a suffix starts with the tokens of its first node.
pub proof fn lemma_flat_nodes_skip_succ(s: Seq<Node>, i: int)
    requires
        0 <= i < s.len(),
    ensures
        flat_nodes(s.skip(i)) == flat_node(s[i]) + flat_nodes(s.skip(i + 1)),
{
    assert(s.skip(i)[0] == s[i]);
    assert(s.skip(i).drop_first() =~= s.skip(i + 1));
}

/// Two balanced spans that end at a close bracket within one common token
/// sequence are the same span: a loop body is determined by its brackets.
pub proof fn lemma_balanced_prefix_cancel(x: Seq<Token>, xr: Seq<Token>, y: Seq<Token>, yr: Seq<
    Token,
>)
    requires
        balanced(x),
        balanced(y),
        x + seq![Token::RightBracketToken] + xr == y + seq![Token::RightBracketToken] + yr,
    ensures
        x == y,
        xr == yr,
{
    let c = x + seq![Token::RightBracketToken] + xr;
    let d = y + seq![Token::RightBracketToken] + yr;
    assert(bracket_sum(Seq::<Token>::empty()) == 0);
    assert(seq![Token::RightBracketToken].drop_last() =~= Seq::<Token>::empty());
    assert forall|i: int| 0 <= i < x.len() implies c[i] == x[i] by {}
    assert forall|i: int| 0 <= i < y.len() implies d[i] == y[i] by {}
    assert(c[x.len() as int] == Token::RightBracketToken);
    assert(d[y.len() as int] == Token::RightBracketToken);
    if x.len() < y.len() {
        assert(y.take(x.len() as int) =~= x) by {
            assert forall|i: int| 0 <= i < x.len() implies y.take(x.len() as int)[i] == x[i] by {
                assert(d[i] == y[i]);
                assert(c[i] == x[i]);
            }
        }
        assert(y[x.len() as int] == d[x.len() as int]);
        assert(y.take(x.len() as int + 1) =~= x + seq![Token::RightBracketToken]);
        lemma_bracket_sum_concat(x, seq![Token::RightBracketToken]);
        assert(bracket_sum(y.take(x.len() as int + 1)) == -1);
        assert(false);
    }
    if y.len() < x.len() {
        assert(x.take(y.len() as int) =~= y) by {
            assert forall|i: int| 0 <= i < y.len() implies x.take(y.len() as int)[i] == y[i] by {
                assert(c[i] == x[i]);
                assert(d[i] == y[i]);
            }
        }
        assert(x[y.len() as int] == c[y.len() as int]);
        assert(x.take(y.len() as int + 1) =~= y + seq![Token::RightBracketToken]);
        lemma_bracket_sum_concat(y, seq![Token::RightBracketToken]);
        assert(bracket_sum(x.take(y.len() as int + 1)) == -1);
        assert(false);
    }
    assert(x =~= y) by {
        assert forall|i: int| 0 <= i < x.len() implies x[i] == y[i] by {
            assert(c[i] == x[i]);
            assert(d[i] == y[i]);
        }
    }
    assert(xr =~= yr) by {
        assert((x + seq![Token::RightBracketToken]).len() == x.len() + 1);
        assert((y + seq![Token::RightBracketToken]).len() == y.len() + 1);
        assert(c.len() == x.len() + 1 + xr.len());
        assert(d.len() == y.len() + 1 + yr.len());
        assert(xr.len() == yr.len());
        assert forall|i: int| 0 <= i < xr.len() implies xr[i] == yr[i] by {
            assert(c[x.len() + 1 + i] == ((x + seq![Token::RightBracketToken]) + xr)[x.len() + 1
                + i]);
            assert(c[x.len() + 1 + i] == xr[i]);
            assert(d[y.len() + 1 + i] == ((y + seq![Token::RightBracketToken]) + yr)[y.len() + 1
                + i]);
            assert(d[y.len() + 1 + i] == yr[i]);
        }
    }
}

/// Appending a leaf node preserves the parsed shape.
proof fn lemma_wf_push_leaf(s: Seq<Node>, n: Node)
    requires
        wf_nodes(s),
        !(n is Expr),
        !(n is LoopExpr),
        !(n is LoopCloseNode),
    ensures
        wf_nodes(s.push(n)),
    decreases s.len(),
{
    let s2 = s.push(n);
    if s.len() == 0 {
        assert(wf_nodes(Seq::<Node>::empty()));
        assert(s2[0] == n);
        assert(s2.drop_first() =~= Seq::<Node>::empty());
    } else {
        assert(s2[0] == s[0]);
        match s[0] {
            Node::LoopExpr(_) => {
                assert(s2[1] == s[1]);
                lemma_wf_push_leaf(s.subrange(2, s.len() as int), n);
                assert(s2.subrange(2, s2.len() as int) =~= s.subrange(2, s.len() as int).push(n));
            }
            _ => {
                lemma_wf_push_leaf(s.drop_first(), n);
                assert(s2.drop_first() =~= s.drop_first().push(n));
            }
        }
    }
}

/// Appending a loop node with a balanced, well-shaped body, together with
/// its close marker, preserves the parsed shape.
proof fn lemma_wf_push_loop(s: Seq<Node>, ln: Node)
    requires
        wf_nodes(s),
        ln is LoopExpr,
        balanced(flat_nodes(node_children(ln))),
        wf_nodes(node_children(ln)),
    ensures
        wf_nodes(s.push(ln).push(Node::LoopCloseNode)),
    decreases s.len(),
{
    let s2 = s.push(ln).push(Node::LoopCloseNode);
    if s.len() == 0 {
        assert(wf_nodes(Seq::<Node>::empty()));
        assert(s2[0] == ln);
        assert(s2[1] == Node::LoopCloseNode);
        assert(s2.subrange(2, s2.len() as int) =~= Seq::<Node>::empty());
    } else {
        assert(s2[0] == s[0]);
        match s[0] {
            Node::LoopExpr(_) => {
                assert(s2[1] == s[1]);
                lemma_wf_push_loop(s.subrange(2, s.len() as int), ln);
                assert(s2.subrange(2, s2.len() as int) =~= s.subrange(2, s.len() as int).push(
                    ln,
                ).push(Node::LoopCloseNode));
            }
            _ => {
                lemma_wf_push_loop(s.drop_first(), ln);
                assert(s2.drop_first() =~= s.drop_first().push(ln).push(Node::LoopCloseNode));
            }
        }
    }
}

/// Cutting a zero-sum span off the left end of a balanced span leaves a
/// balanced span.
pub proof fn lemma_balanced_chop(t: Seq<Token>, a: int, c: int, b: int)
    requires
        0 <= a <= c <= b <= t.len(),
        balanced(t.subrange(a, b)),
        bracket_sum(t.subrange(a, c)) == 0,
    ensures
        balanced(t.subrange(c, b)),
{
    lemma_balanced_span_prefixes(t, a, b);
    lemma_bracket_sum_split(t, a, c, b);
    assert forall|p: int| 0 <= p <= b - c implies bracket_sum(
        #[trigger] t.subrange(c, b).take(p),
    ) >= 0 by {
        assert(t.subrange(c, b).take(p) =~= t.subrange(c, c + p));
        lemma_bracket_sum_split(t, a, c, c + p);
    }
}

/// A balanced span that starts with an open bracket splits at the matching
/// close into a balanced body and a balanced rest.
proof fn lemma_split_at_match(t: Seq<Token>, open: int, m: int, end: int)
    requires
        0 <= open < m < end <= t.len(),
        balanced(t.subrange(open, end)),
        t[open] is LeftBracketToken,
        t[m] is RightBracketToken,
        bracket_sum(t.subrange(open, m + 1)) == 0,
        forall|k: int| open < k <= m ==> bracket_sum(#[trigger] t.subrange(open, k)) > 0,
    ensures
        balanced(t.subrange(open + 1, m)),
        balanced(t.subrange(m + 1, end)),
{
    lemma_balanced_span_prefixes(t, open, end);
    lemma_bracket_sum_singleton(t, open);
    lemma_bracket_sum_singleton(t, m);
    lemma_bracket_sum_split(t, open, open + 1, m);
    lemma_bracket_sum_split(t, open, m, m + 1);
    assert(bracket_sum(t.subrange(open + 1, m)) == 0);
    assert forall|p: int| 0 <= p <= m - (open + 1) implies bracket_sum(
        #[trigger] t.subrange(open + 1, m).take(p),
    ) >= 0 by {
        assert(t.subrange(open + 1, m).take(p) =~= t.subrange(open + 1, open + 1 + p));
        lemma_bracket_sum_split(t, open, open + 1, open + 1 + p);
        if p > 0 {
            assert(bracket_sum(t.subrange(open, open + 1 + p)) > 0);
        } else {
            assert(t.subrange(open + 1, open + 1) =~= Seq::<Token>::empty());
        }
    }
    lemma_balanced_chop(t, open, m + 1, end);
}

/// Find the depth-aware matching close bracket for the open bracket at
/// `open` inside the balanced span that ends at `end`.
fn find_matching_close(toks: &[Token], open: usize, end: usize) -> (m: usize)
    requires
        open < end <= toks@.len(),
        toks@[open as int] is LeftBracketToken,
        balanced(toks@.subrange(open as int, end as int)),
    ensures
        open < m < end,
        toks@[m as int] is RightBracketToken,
        bracket_sum(toks@.subrange(open as int, m + 1)) == 0,
        forall|k: int| open < k <= m ==> bracket_sum(#[trigger] toks@.subrange(open as int, k))
            > 0,
{
    let ghost t = toks@;
    let mut depth: usize = 1;
    let mut j: usize = open + 1;
    proof {
        lemma_bracket_sum_singleton(t, open as int);
    }
    while depth != 0
        invariant
            open < j <= end <= t.len(),
            t == toks@,
            t[open as int] is LeftBracketToken,
            balanced(t.subrange(open as int, end as int)),
            depth == bracket_sum(t.subrange(open as int, j as int)),
            depth <= j - open,
            forall|k: int| open < k < j ==> bracket_sum(#[trigger] t.subrange(open as int, k))
                > 0,
            depth == 0 ==> t[j - 1] is RightBracketToken,
        decreases end - j,
    {
        proof {
            lemma_balanced_span_prefixes(t, open as int, end as int);
            if j == end {
                assert(depth == 0);
            }
            lemma_bracket_sum_split(t, open as int, j as int, j + 1);
            lemma_bracket_sum_singleton(t, j as int);
            lemma_bracket_sum_le_len(t.subrange(open as int, j + 1));
        }
        match toks[j] {
            Token::LeftBracketToken => {
                depth = depth + 1;
            }
            Token::RightBracketToken => {
                depth = depth - 1;
            }
            _ => {}
        }
        j = j + 1;
    }
    j - 1
}

/// One proof step of the parse loop for a direct-mapped token.
proof fn lemma_parse_leaf_step(t: Seq<Token>, start: int, i: int, end: int, s: Seq<Node>, n: Node)
    requires
        0 <= start <= i < end <= t.len(),
        flat_nodes(s) == t.subrange(start, i),
        wf_nodes(s),
        balanced(t.subrange(i, end)),
        !(n is Expr),
        !(n is LoopExpr),
        !(n is LoopCloseNode),
        flat_node(n) == seq![t[i]],
        bracket_delta(t[i]) == 0,
    ensures
        flat_nodes(s.push(n)) == t.subrange(start, i + 1),
        wf_nodes(s.push(n)),
        balanced(t.subrange(i + 1, end)),
{
    lemma_flat_nodes_push(s, n);
    assert(t.subrange(start, i) + seq![t[i]] =~= t.subrange(start, i + 1));
    lemma_wf_push_leaf(s, n);
    lemma_bracket_sum_singleton(t, i);
    lemma_balanced_chop(t, i, i + 1, end);
}

/// Parse the balanced token span `[start, end)` into a node list whose
/// flattening is exactly that span.
fn parse_range(toks: &[Token], start: usize, end: usize) -> (r: Vec<Node>)
    requires
        start <= end,
        end <= toks@.len(),
        balanced(toks@.subrange(start as int, end as int)),
    ensures
        flat_nodes(r@) == toks@.subrange(start as int, end as int),
        wf_nodes(r@),
    decreases end - start,
{
    let ghost t = toks@;
    let mut result: Vec<Node> = Vec::new();
    let mut i: usize = start;
    proof {
        assert(t.subrange(start as int, start as int) =~= Seq::<Token>::empty());
    }
    while i < end
        invariant
            start <= i <= end <= t.len(),
            t == toks@,
            flat_nodes(result@) == t.subrange(start as int, i as int),
            wf_nodes(result@),
            balanced(t.subrange(i as int, end as int)),
        decreases end - i,
    {
        let ghost r0 = result@;
        match toks[i] {
            Token::PlusToken => {
                result.push(Node::PlusNode);
                proof {
                    lemma_parse_leaf_step(t, start as int, i as int, end as int, r0, Node::PlusNode);
                }
                i = i + 1;
            }
            Token::MinusToken => {
                result.push(Node::MinusNode);
                proof {
                    lemma_parse_leaf_step(
                        t,
                        start as int,
                        i as int,
                        end as int,
                        r0,
                        Node::MinusNode,
                    );
                }
                i = i + 1;
            }
            Token::GreaterThanToken => {
                result.push(Node::IncrementPtrNode);
                proof {
                    lemma_parse_leaf_step(
                        t,
                        start as int,
                        i as int,
                        end as int,
                        r0,
                        Node::IncrementPtrNode,
                    );
                }
                i = i + 1;
            }
            Token::SmallerThanToken => {
                result.push(Node::DecrementPtrNode);
                proof {
                    lemma_parse_leaf_step(
                        t,
                        start as int,
                        i as int,
                        end as int,
                        r0,
                        Node::DecrementPtrNode,
                    );
                }
                i = i + 1;
            }
            Token::DotToken => {
                result.push(Node::PrintCurrPosNode);
                proof {
                    lemma_parse_leaf_step(
                        t,
                        start as int,
                        i as int,
                        end as int,
                        r0,
                        Node::PrintCurrPosNode,
                    );
                }
                i = i + 1;
            }
            Token::LeftBracketToken => {
                let m = find_matching_close(toks, i, end);
                proof {
                    lemma_split_at_match(t, i as int, m as int, end as int);
                }
                let body = parse_range(toks, i + 1, m);
                let ghost bodyseq = body@;
                let ln = Node::LoopExpr(Box::new(body));
                result.push(ln);
                result.push(Node::LoopCloseNode);
                proof {
                    assert(node_children(ln) == bodyseq);
                    lemma_flat_nodes_push(r0, ln);
                    lemma_flat_nodes_push(r0.push(ln), Node::LoopCloseNode);
                    lemma_wf_push_loop(r0, ln);
                    lemma_balanced_chop(t, i as int, m + 1, end as int);
                    assert(t.subrange(start as int, i as int) + (seq![Token::LeftBracketToken]
                        + t.subrange(i + 1, m as int)) + seq![Token::RightBracketToken] =~= t
                        .subrange(start as int, m + 1));
                }
                i = m + 1;
            }
            Token::RightBracketToken => {
                // a balanced span never starts with a close bracket, and a
                // close inside a loop is consumed with its loop above, so
                // this arm is unreachable
                proof {
                    lemma_balanced_span_prefixes(t, i as int, end as int);
                    lemma_bracket_sum_singleton(t, i as int);
                    assert(false);
                }
                i = i + 1;
            }
        }
    }
    result
}

/// Carries the token stream and a cursor over it through one parse.
pub struct Parser {
    pub input: Vec<Token>,
    pub position: usize,
}

impl Parser {
    /// A parser over the given token stream, cursor at the start.
    pub fn new(input: Vec<Token>) -> (p: Self)
        ensures
            p.input@ == input@,
            p.position == 0,
    {
        Self { input, position: 0 }
    }

    /// Parse one balanced span of tokens. The result is a loop node when
    /// `is_loop` is set (the span is a loop body), else a sequence node; its
    /// child list flattens back to exactly the given span.
    pub fn parse_expr(&self, vect: &[Token], is_loop: bool) -> (n: Node)
        requires
            balanced(vect@),
        ensures
            is_loop ==> n is LoopExpr,
            !is_loop ==> n is Expr,
            flat_nodes(node_children(n)) == vect@,
            wf_nodes(node_children(n)),
    {
        let len: usize = vect.len();
        proof {
            assert(vect@.subrange(0, vect@.len() as int) =~= vect@);
        }
        let nodes = parse_range(vect, 0, len);
        if is_loop {
            Node::LoopExpr(Box::new(nodes))
        } else {
            Node::Expr(Box::new(nodes))
        }
    }

    /// Parse the whole token stream into the top-level sequence node and
    /// leave the cursor at the end of the input.
    pub fn parse_all(&mut self) -> (n: Node)
        requires
            balanced(old(self).input@),
        ensures
            final(self).input@ == old(self).input@,
            final(self).position == old(self).input@.len(),
            n is Expr,
            flat_nodes(node_children(n)) == old(self).input@,
            wf_nodes(node_children(n)),
    {
        let n = self.parse_expr(self.input.as_slice(), false);
        self.position = self.input.len();
        n
    }
}

} // verus!
