//! Reading the text of a tree back into its nodes.
//!
//! The reader is part of the model: it states what the text of a dump
//! means, and [`lemma_read_back`] proves that the text of a tree means that
//! tree, so that a dump loses nothing.

use vstd::prelude::*;

use crate::dump::{
    digit, digits, lemma_digits_round_trip, lemma_padded_round_trip, node_tokens, number_of, padded,
    render_fixed, render_node, render_nodes, render_tokens, render_tree, ten_to, text_of, Token,
};
use crate::fixed::SCALE;
use crate::tree::Node;

verus! {

/// Whether `c` is a decimal digit.
pub open spec fn is_digit(c: char) -> bool {
    c == '0' || c == '1' || c == '2' || c == '3' || c == '4' || c == '5' || c == '6' || c == '7'
        || c == '8' || c == '9'
}

/// The number of digits that follow one another from place `k` on.
pub open spec fn digit_run(s: Seq<char>, k: int) -> int
    decreases s.len() - k,
{
    if 0 <= k < s.len() && is_digit(s[k]) {
        1 + digit_run(s, k + 1)
    } else {
        0
    }
}

/// The number written at place `k`, and the place behind it; `None` where
/// no digit stands at `k`.
pub open spec fn read_number(s: Seq<char>, k: int) -> Option<(nat, int)> {
    let run = digit_run(s, k);
    if run >= 1 {
        Some((number_of(s.subrange(k, k + run)), k + run))
    } else {
        None
    }
}

/// The fixed-point number written at place `k`, and the place behind it:
/// an optional sign, a number, a point and six decimal places.
pub open spec fn read_fixed(s: Seq<char>, k: int) -> Option<(int, int)> {
    let negative = 0 <= k < s.len() && s[k] == '-';
    let start = if negative {
        k + 1
    } else {
        k
    };
    match read_number(s, start) {
        None => None,
        Some(whole) => {
            let point = whole.1;
            if point + 7 <= s.len() && s[point] == '.' {
                let a = whole.0 * SCALE + number_of(s.subrange(point + 1, point + 7));
                Some((
                    if negative {
                        -a
                    } else {
                        a
                    },
                    point + 7,
                ))
            } else {
                None
            }
        },
    }
}

/// What a reader expects at a place: a number, a fixed-point number, or a
/// given text.
pub enum Shape {
    Num,
    Fix,
    Lit(Seq<char>),
}

/// The shape of a piece.
pub open spec fn shape_of(t: Token) -> Shape {
    match t {
        Token::Num(_) => Shape::Num,
        Token::Fix(_) => Shape::Fix,
        Token::Lit(l) => Shape::Lit(l),
    }
}

/// The shapes of a sequence of pieces.
pub open spec fn shapes_of(ts: Seq<Token>) -> Seq<Shape> {
    Seq::new(ts.len(), |j: int| shape_of(ts[j]))
}

/// The pieces read from place `k` on after the shapes from the `j`-th on,
/// and the place behind them; `None` where the text does not fit.
pub open spec fn read_shapes(s: Seq<char>, k: int, shapes: Seq<Shape>, j: int) -> Option<
    (Seq<Token>, int),
>
    decreases shapes.len() - j,
{
    if 0 <= j < shapes.len() {
        match shapes[j] {
            Shape::Num => match read_number(s, k) {
                Some(r) => match read_shapes(s, r.1, shapes, j + 1) {
                    Some(rest) => Some((seq![Token::Num(r.0)] + rest.0, rest.1)),
                    None => None,
                },
                None => None,
            },
            Shape::Fix => match read_fixed(s, k) {
                Some(r) => match read_shapes(s, r.1, shapes, j + 1) {
                    Some(rest) => Some((seq![Token::Fix(r.0)] + rest.0, rest.1)),
                    None => None,
                },
                None => None,
            },
            Shape::Lit(l) => if 0 <= k && k + l.len() <= s.len() && s.subrange(k, k + l.len())
                == l {
                match read_shapes(s, k + l.len(), shapes, j + 1) {
                    Some(rest) => Some((seq![Token::Lit(l)] + rest.0, rest.1)),
                    None => None,
                }
            } else {
                None
            },
        }
    } else {
        Some((Seq::empty(), k))
    }
}

/// Whether every number among the pieces is followed by a text that does
/// not start with a digit, so that the number ends where its digits end.
pub open spec fn separated(ts: Seq<Token>) -> bool {
    forall|j: int|
        0 <= j < ts.len() && (#[trigger] ts[j]) is Num ==> {
            &&& j + 1 < ts.len()
            &&& ts[j + 1] is Lit
            &&& ts[j + 1]->Lit_0.len() >= 1
            &&& !is_digit(ts[j + 1]->Lit_0[0])
        }
}

/// The shapes of the line of a split.
pub open spec fn split_shapes() -> Seq<Shape> {
    shapes_of(
        node_tokens(
            0,
            Node::Split { feature: 0, bin: 0, threshold: 0, left: 0, right: 0, gain: 0, depth: 0 },
        ),
    )
}

/// The shapes of the line of a leaf.
pub open spec fn leaf_shapes() -> Seq<Shape> {
    shapes_of(node_tokens(0, Node::Leaf { value: 0, weight: 0, depth: 0 }))
}

/// The split that the pieces of a line stand for.
pub open spec fn split_from(ts: Seq<Token>) -> Node {
    Node::Split {
        feature: ts[2]->Num_0 as usize,
        threshold: ts[4]->Fix_0 as i64,
        bin: ts[6]->Num_0 as u16,
        left: ts[8]->Num_0 as usize,
        right: ts[10]->Num_0 as usize,
        gain: ts[12]->Fix_0 as i128,
        depth: ts[14]->Num_0 as usize,
    }
}

/// The leaf that the pieces of a line stand for.
pub open spec fn leaf_from(ts: Seq<Token>) -> Node {
    Node::Leaf {
        value: ts[2]->Fix_0 as i128,
        weight: ts[4]->Fix_0 as i128,
        depth: ts[6]->Num_0 as usize,
    }
}

/// The node written in the line at place `k`, and the place behind the line.
pub open spec fn read_node(s: Seq<char>, k: int) -> Option<(Node, int)> {
    match read_shapes(s, k, split_shapes(), 0) {
        Some(r) => Some((split_from(r.0), r.1)),
        None => match read_shapes(s, k, leaf_shapes(), 0) {
            Some(r) => Some((leaf_from(r.0), r.1)),
            None => None,
        },
    }
}

/// The nodes written in the lines from place `k` to the end of the text.
pub open spec fn read_nodes(s: Seq<char>, k: int) -> Option<Seq<Node>>
    decreases s.len() - k,
{
    if k >= s.len() {
        Some(Seq::empty())
    } else {
        match read_node(s, k) {
            Some(r) => if k < r.1 <= s.len() {
                match read_nodes(s, r.1) {
                    Some(rest) => Some(seq![r.0] + rest),
                    None => None,
                }
            } else {
                None
            },
            None => None,
        }
    }
}

/// The tree that a text stands for.
pub open spec fn read_tree(s: Seq<char>) -> Option<Seq<Node>> {
    read_nodes(s, 0)
}

/// The digits of a number are digits.
proof fn lemma_digits_are_digits(n: nat, j: int)
    requires
        0 <= j < digits(n).len(),
    ensures
        is_digit(digits(n)[j]),
    decreases n,
{
    if n >= 10 {
        if j < digits(n / 10).len() {
            lemma_digits_are_digits(n / 10, j);
        }
    }
}

/// A stretch of digits that ends at a character that is none, or at the
/// end of the text, is a run of digits.
proof fn lemma_digit_run(s: Seq<char>, k: int, m: int)
    requires
        0 <= k,
        0 <= m,
        k + m <= s.len(),
        forall|j: int| k <= j < k + m ==> is_digit(#[trigger] s[j]),
        k + m == s.len() || !is_digit(s[k + m]),
    ensures
        digit_run(s, k) == m,
    decreases m,
{
    if m > 0 {
        assert(is_digit(s[k]));
        lemma_digit_run(s, k + 1, m - 1);
    }
}

/// A number is read back where it was written, if no digit follows it.
pub proof fn lemma_read_number(pre: Seq<char>, n: nat, after: Seq<char>)
    requires
        after.len() == 0 || !is_digit(after[0]),
    ensures
        read_number(pre + digits(n) + after, pre.len() as int) == Some(
            (n, (pre.len() + digits(n).len()) as int),
        ),
{
    let s = pre + digits(n) + after;
    let k = pre.len() as int;
    let m = digits(n).len() as int;
    lemma_digits_round_trip(n);
    assert forall|j: int| k <= j < k + m implies is_digit(#[trigger] s[j]) by {
        assert(s[j] == digits(n)[j - k]);
        lemma_digits_are_digits(n, j - k);
    }
    if after.len() > 0 {
        assert(s[k + m] == after[0]);
    }
    lemma_digit_run(s, k, m);
    assert(s.subrange(k, k + m) =~= digits(n));
}

/// A fixed-point number is read back where it was written.
pub proof fn lemma_read_fixed(pre: Seq<char>, x: int, after: Seq<char>)
    ensures
        read_fixed(pre + render_fixed(x) + after, pre.len() as int) == Some(
            (x, (pre.len() + render_fixed(x).len()) as int),
        ),
        render_fixed(x).len() >= 8,
{
    reveal_strlit("-");
    reveal_strlit(".");
    let a: nat = if x < 0 {
        (-x) as nat
    } else {
        x as nat
    };
    let scale = SCALE as nat;
    let sign = if x < 0 {
        "-"@
    } else {
        Seq::<char>::empty()
    };
    let whole = digits(a / scale);
    let frac = padded(a % scale, 6);
    let s = pre + render_fixed(x) + after;
    let k = pre.len() as int;
    lemma_digits_round_trip(a / scale);
    lemma_digits_are_digits(a / scale, 0);
    lemma_padded_round_trip(a % scale, 6);
    assert(ten_to(6) == 1_000_000) by {
        reveal_with_fuel(ten_to, 7);
    }
    let start = k + sign.len();
    let tail = "."@ + frac + after;
    assert(s =~= (pre + sign) + whole + tail);
    assert(tail[0] == '.');
    lemma_read_number(pre + sign, a / scale, tail);
    let point = start + whole.len();
    assert(s[point] == '.');
    assert(s.subrange(point + 1, point + 7) =~= frac);
    assert((a % scale) % 1_000_000 == a % scale);
    vstd::arithmetic::div_mod::lemma_fundamental_div_mod(a as int, scale as int);
    assert((a / scale) * scale + a % scale == a) by (nonlinear_arith)
        requires
            a == scale * (a / scale) + a % scale,
    ;
    if x < 0 {
        assert(s[k] == '-');
    } else {
        assert(s[k] == whole[0]);
        assert(is_digit(whole[0]));
    }
    assert(render_fixed(x).len() == sign.len() + whole.len() + 7);
}

/// Pieces that are separated are read back where they were written.
proof fn lemma_read_tokens(pre: Seq<char>, ts: Seq<Token>, after: Seq<char>, j: int)
    requires
        0 <= j <= ts.len(),
        separated(ts),
    ensures
        read_shapes(pre + render_tokens(ts, j) + after, pre.len() as int, shapes_of(ts), j) == Some(
            (ts.subrange(j, ts.len() as int), (pre.len() + render_tokens(ts, j).len()) as int),
        ),
    decreases ts.len() - j,
{
    let s = pre + render_tokens(ts, j) + after;
    let k = pre.len() as int;
    if j < ts.len() {
        let text = text_of(ts[j]);
        let rest = render_tokens(ts, j + 1);
        let next = pre + text;
        assert(s =~= next + rest + after);
        lemma_read_tokens(next, ts, after, j + 1);
        assert(shapes_of(ts)[j] == shape_of(ts[j]));
        assert(seq![ts[j]] + ts.subrange(j + 1, ts.len() as int) =~= ts.subrange(
            j,
            ts.len() as int,
        ));
        match ts[j] {
            Token::Num(n) => {
                let l = ts[j + 1]->Lit_0;
                assert(render_tokens(ts, j + 1) == l + render_tokens(ts, j + 2));
                assert((rest + after)[0] == l[0]);
                assert(s =~= pre + digits(n) + (rest + after));
                lemma_read_number(pre, n, rest + after);
            },
            Token::Fix(x) => {
                assert(s =~= pre + render_fixed(x) + (rest + after));
                lemma_read_fixed(pre, x, rest + after);
            },
            Token::Lit(l) => {
                assert(s.subrange(k, k + l.len()) =~= l);
            },
        }
    } else {
        assert(s =~= pre + after);
        assert(ts.subrange(j, ts.len() as int) =~= Seq::<Token>::empty());
    }
}

/// In the line of a node every number is followed by a text that does not
/// start with a digit.
proof fn lemma_node_separated(i: nat, node: Node)
    ensures
        separated(node_tokens(i, node)),
        node_tokens(i, node).len() == if node is Split {
            16nat
        } else {
            8nat
        },
{
    reveal_strlit(":[");
    reveal_strlit(" <= ");
    reveal_strlit("] bin=");
    reveal_strlit(",yes=");
    reveal_strlit(",no=");
    reveal_strlit(",gain=");
    reveal_strlit(",depth=");
    reveal_strlit("\n");
    reveal_strlit(":leaf=");
    reveal_strlit(",weight=");
    let ts = node_tokens(i, node);
    assert forall|j: int| 0 <= j < ts.len() && (#[trigger] ts[j]) is Num implies {
        &&& j + 1 < ts.len()
        &&& ts[j + 1] is Lit
        &&& ts[j + 1]->Lit_0.len() >= 1
        &&& !is_digit(ts[j + 1]->Lit_0[0])
    } by {
        if node is Split {
            if j == 0 {
            } else if j == 2 {
            } else if j == 6 {
            } else if j == 8 {
            } else if j == 10 {
            } else if j == 14 {
            }
        } else {
            if j == 0 {
            } else if j == 6 {
            }
        }
    }
}

/// The pieces of a split have the shapes of a split and stand for it.
proof fn lemma_split_tokens(i: nat, node: Node)
    requires
        node is Split,
    ensures
        shapes_of(node_tokens(i, node)) == split_shapes(),
        split_from(node_tokens(i, node)) == node,
{
    assert(shapes_of(node_tokens(i, node)) =~= split_shapes());
}

/// The pieces of a leaf have the shapes of a leaf and stand for it.
proof fn lemma_leaf_tokens(i: nat, node: Node)
    requires
        node is Leaf,
    ensures
        shapes_of(node_tokens(i, node)) == leaf_shapes(),
        leaf_from(node_tokens(i, node)) == node,
{
    assert(shapes_of(node_tokens(i, node)) =~= leaf_shapes());
}

/// The line of a leaf does not read as a split: behind the index stands
/// `:l`, not `:[`.
#[verifier::rlimit(50)]
proof fn lemma_leaf_is_no_split(pre: Seq<char>, i: nat, node: Node, after: Seq<char>)
    requires
        node is Leaf,
    ensures
        read_shapes(pre + render_node(i, node) + after, pre.len() as int, split_shapes(), 0) is None,
{
    reveal_strlit(":[");
    reveal_strlit(":leaf=");
    let ts = node_tokens(i, node);
    let s = pre + render_node(i, node) + after;
    let k = pre.len() as int;
    let rest = render_tokens(ts, 1);
    assert(render_tokens(ts, 0) == text_of(ts[0]) + rest);
    assert(rest == text_of(ts[1]) + render_tokens(ts, 2));
    assert(text_of(ts[0]) == digits(i));
    assert(text_of(ts[1]) == ":leaf="@);
    assert(s =~= pre + digits(i) + (rest + after));
    assert((rest + after)[0] == ':');
    assert((rest + after)[1] == 'l');
    lemma_read_number(pre, i, rest + after);
    let k2 = k + digits(i).len();
    assert(s[k2 + 1] == (rest + after)[1]);
    assert(split_shapes()[0] == Shape::Num);
    assert(split_shapes()[1] == Shape::Lit(":["@));
    if k2 + 2 <= s.len() && s.subrange(k2, k2 + 2) == ":["@ {
        assert(s.subrange(k2, k2 + 2)[1] == s[k2 + 1]);
        assert(":["@[1] == '[');
    }
    assert(read_shapes(s, k2, split_shapes(), 1) is None);
}

/// The line of a node is read back as that node.
#[verifier::rlimit(50)]
pub proof fn lemma_read_node(pre: Seq<char>, i: nat, node: Node, after: Seq<char>)
    ensures
        read_node(pre + render_node(i, node) + after, pre.len() as int) == Some(
            (node, (pre.len() + render_node(i, node).len()) as int),
        ),
        render_node(i, node).len() >= 1,
{
    let ts = node_tokens(i, node);
    lemma_node_separated(i, node);
    lemma_read_tokens(pre, ts, after, 0);
    assert(ts.subrange(0, ts.len() as int) =~= ts);
    lemma_digits_round_trip(i);
    assert(render_tokens(ts, 0) == text_of(ts[0]) + render_tokens(ts, 1));
    assert(text_of(ts[0]) == digits(i));
    if node is Split {
        lemma_split_tokens(i, node);
    } else {
        lemma_leaf_tokens(i, node);
        lemma_leaf_is_no_split(pre, i, node, after);
    }
}

/// The lines of the first `j` nodes open the lines of the first `m`.
proof fn lemma_lines_prefix(nodes: Seq<Node>, j: int, m: int)
    requires
        0 <= j <= m,
    ensures
        render_nodes(nodes, j).len() <= render_nodes(nodes, m).len(),
        render_nodes(nodes, m).take(render_nodes(nodes, j).len() as int) == render_nodes(nodes, j),
    decreases m - j,
{
    if j < m {
        lemma_lines_prefix(nodes, j, m - 1);
        let a = render_nodes(nodes, m - 1);
        let b = render_nodes(nodes, m);
        let len = render_nodes(nodes, j).len() as int;
        assert(b.take(len) =~= a.take(len));
    } else {
        assert(render_nodes(nodes, m).take(render_nodes(nodes, j).len() as int) =~= render_nodes(
            nodes,
            j,
        ));
    }
}

/// Reading the text of a tree from the line of node `j` on gives the nodes
/// from the `j`-th on.
proof fn lemma_read_from(nodes: Seq<Node>, j: int)
    requires
        0 <= j <= nodes.len(),
    ensures
        read_nodes(render_tree(nodes), render_nodes(nodes, j).len() as int) == Some(
            nodes.subrange(j, nodes.len() as int),
        ),
    decreases nodes.len() - j,
{
    let s = render_tree(nodes);
    let n = nodes.len() as int;
    let pre = render_nodes(nodes, j);
    let k = pre.len() as int;
    lemma_lines_prefix(nodes, j, n);
    if j < n {
        let line = render_node(j as nat, nodes[j]);
        lemma_lines_prefix(nodes, j + 1, n);
        let both = render_nodes(nodes, j + 1);
        assert(both == pre + line);
        let after = s.skip(both.len() as int);
        assert(s =~= s.take(both.len() as int) + after);
        assert(s =~= pre + line + after);
        lemma_read_node(pre, j as nat, nodes[j], after);
        lemma_read_from(nodes, j + 1);
        assert(seq![nodes[j]] + nodes.subrange(j + 1, n) =~= nodes.subrange(j, n));
    } else {
        assert(pre == s);
        assert(nodes.subrange(j, n) =~= Seq::<Node>::empty());
    }
}

/// Reading the text of a tree gives the tree back: every index, feature,
/// bin, threshold, gain, depth, leaf value and weight is recovered exactly.
pub proof fn lemma_read_back(nodes: Seq<Node>)
    ensures
        read_tree(render_tree(nodes)) == Some(nodes),
{
    lemma_read_from(nodes, 0);
    assert(nodes.subrange(0, nodes.len() as int) =~= nodes);
}

/// Two trees with the same text are the same tree.
pub proof fn lemma_dump_injective(a: Seq<Node>, b: Seq<Node>)
    requires
        render_tree(a) == render_tree(b),
    ensures
        a == b,
{
    lemma_read_back(a);
    lemma_read_back(b);
}

} // verus!
