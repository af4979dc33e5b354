//! The text form of a tree: one line per node.

use vstd::prelude::*;
use vstd::string::StringExecFns;

use crate::fixed::SCALE;
use crate::tree::{Node, Tree};

verus! {

/// The character of a decimal digit.
pub open spec fn digit(d: int) -> char {
    if d == 0 {
        '0'
    } else if d == 1 {
        '1'
    } else if d == 2 {
        '2'
    } else if d == 3 {
        '3'
    } else if d == 4 {
        '4'
    } else if d == 5 {
        '5'
    } else if d == 6 {
        '6'
    } else if d == 7 {
        '7'
    } else if d == 8 {
        '8'
    } else {
        '9'
    }
}

/// The value of a decimal digit; zero for any other character.
pub open spec fn digit_value(c: char) -> nat {
    if c == '1' {
        1
    } else if c == '2' {
        2
    } else if c == '3' {
        3
    } else if c == '4' {
        4
    } else if c == '5' {
        5
    } else if c == '6' {
        6
    } else if c == '7' {
        7
    } else if c == '8' {
        8
    } else if c == '9' {
        9
    } else {
        0
    }
}

/// The decimal digits of `n`, without leading zeros.
pub open spec fn digits(n: nat) -> Seq<char>
    decreases n,
{
    if n < 10 {
        seq![digit(n as int)]
    } else {
        digits(n / 10).push(digit((n % 10) as int))
    }
}

/// The last `width` decimal digits of `n`, with leading zeros.
pub open spec fn padded(n: nat, width: nat) -> Seq<char>
    decreases width,
{
    if width == 0 {
        Seq::empty()
    } else {
        padded(n / 10, (width - 1) as nat).push(digit((n % 10) as int))
    }
}

/// The number that a sequence of decimal digits stands for.
pub open spec fn number_of(s: Seq<char>) -> nat
    decreases s.len(),
{
    if s.len() == 0 {
        0
    } else {
        number_of(s.drop_last()) * 10 + digit_value(s.last())
    }
}

/// The text of a fixed-point number: sign, integer part, a point, and six
/// decimal places.
pub open spec fn render_fixed(x: int) -> Seq<char> {
    let a = if x < 0 {
        (-x) as nat
    } else {
        x as nat
    };
    let sign = if x < 0 {
        "-"@
    } else {
        Seq::<char>::empty()
    };
    sign + digits(a / (SCALE as nat)) + "."@ + padded(a % (SCALE as nat), 6)
}

/// A piece of a line: a number, a fixed-point number, or literal text.
pub enum Token {
    Num(nat),
    Fix(int),
    Lit(Seq<char>),
}

/// The text of a piece.
pub open spec fn text_of(t: Token) -> Seq<char> {
    match t {
        Token::Num(n) => digits(n),
        Token::Fix(x) => render_fixed(x),
        Token::Lit(l) => l,
    }
}

/// The text of the pieces from the `j`-th on.
pub open spec fn render_tokens(ts: Seq<Token>, j: int) -> Seq<char>
    decreases ts.len() - j,
{
    if 0 <= j < ts.len() {
        text_of(ts[j]) + render_tokens(ts, j + 1)
    } else {
        Seq::empty()
    }
}

/// The pieces of the line of node `i`.  A split reads
/// `i:[f <= t] bin=b,yes=l,no=r,gain=g,depth=d`, a leaf
/// `i:leaf=v,weight=w,depth=d`, each followed by a line feed.
pub open spec fn node_tokens(i: nat, node: Node) -> Seq<Token> {
    match node {
        Node::Split { feature, bin, threshold, left, right, gain, depth } => seq![
            Token::Num(i),
            Token::Lit(":["@),
            Token::Num(feature as nat),
            Token::Lit(" <= "@),
            Token::Fix(threshold as int),
            Token::Lit("] bin="@),
            Token::Num(bin as nat),
            Token::Lit(",yes="@),
            Token::Num(left as nat),
            Token::Lit(",no="@),
            Token::Num(right as nat),
            Token::Lit(",gain="@),
            Token::Fix(gain as int),
            Token::Lit(",depth="@),
            Token::Num(depth as nat),
            Token::Lit("\n"@),
        ],
        Node::Leaf { value, weight, depth } => seq![
            Token::Num(i),
            Token::Lit(":leaf="@),
            Token::Fix(value as int),
            Token::Lit(",weight="@),
            Token::Fix(weight as int),
            Token::Lit(",depth="@),
            Token::Num(depth as nat),
            Token::Lit("\n"@),
        ],
    }
}

/// The line of node `i`.
pub open spec fn render_node(i: nat, node: Node) -> Seq<char> {
    render_tokens(node_tokens(i, node), 0)
}

/// The lines of the first `k` nodes of an arena.
pub open spec fn render_nodes(nodes: Seq<Node>, k: int) -> Seq<char>
    decreases k,
{
    if k <= 0 {
        Seq::empty()
    } else {
        render_nodes(nodes, k - 1) + render_node((k - 1) as nat, nodes[k - 1])
    }
}

/// The text of a tree: the lines of its nodes in arena order.
pub open spec fn render_tree(nodes: Seq<Node>) -> Seq<char> {
    render_nodes(nodes, nodes.len() as int)
}

/// Reading the digits of a number gives the number back.
pub proof fn lemma_digits_round_trip(n: nat)
    ensures
        number_of(digits(n)) == n,
        digits(n).len() >= 1,
    decreases n,
{
    if n < 10 {
        let s = digits(n);
        assert(s.drop_last() =~= Seq::<char>::empty());
        assert(number_of(s.drop_last()) == 0);
    } else {
        lemma_digits_round_trip(n / 10);
        let s = digits(n);
        assert(s.drop_last() =~= digits(n / 10));
        assert(digit_value(digit((n % 10) as int)) == n % 10);
    }
}

/// Different numbers have different digits.
pub proof fn lemma_digits_injective(a: nat, b: nat)
    requires
        digits(a) == digits(b),
    ensures
        a == b,
{
    lemma_digits_round_trip(a);
    lemma_digits_round_trip(b);
}

/// Ten to the power `k`.
pub open spec fn ten_to(k: nat) -> nat
    decreases k,
{
    if k == 0 {
        1
    } else {
        10 * ten_to((k - 1) as nat)
    }
}

/// A power of ten is positive.
proof fn lemma_ten_to_positive(k: nat)
    ensures
        ten_to(k) > 0,
    decreases k,
{
    if k > 0 {
        lemma_ten_to_positive((k - 1) as nat);
    }
}

/// Reading zero-padded digits gives the number back, short of what the
/// width cuts off.
pub(crate) proof fn lemma_padded_round_trip(n: nat, width: nat)
    ensures
        padded(n, width).len() == width,
        number_of(padded(n, width)) == n % ten_to(width),
    decreases width,
{
    if width == 0 {
        assert(ten_to(0) == 1);
    } else {
        lemma_padded_round_trip(n / 10, (width - 1) as nat);
        let s = padded(n, width);
        assert(s.drop_last() =~= padded(n / 10, (width - 1) as nat));
        assert(digit_value(digit((n % 10) as int)) == n % 10);
        let t = ten_to((width - 1) as nat);
        lemma_ten_to_positive((width - 1) as nat);
        assert(ten_to(width) == 10 * t);
        vstd::arithmetic::div_mod::lemma_fundamental_div_mod(n as int, 10);
        vstd::arithmetic::div_mod::lemma_fundamental_div_mod((n / 10) as int, t as int);
        let q = (n / 10) / t;
        let r = (n / 10) % t;
        assert(n == (10 * t) * q + (r * 10 + n % 10)) by (nonlinear_arith)
            requires
                n == 10 * (n / 10) + n % 10,
                n / 10 == t * q + r,
        ;
        assert(0 <= r * 10 + n % 10 < 10 * t) by (nonlinear_arith)
            requires
                0 <= r < t,
                0 <= n % 10 < 10,
        ;
        vstd::arithmetic::div_mod::lemma_fundamental_div_mod_converse(
            n as int,
            (10 * t) as int,
            q as int,
            (r * 10 + n % 10) as int,
        );
    }
}

/// The text of one decimal digit.
pub fn digit_str(d: u8) -> (s: &'static str)
    requires
        d < 10,
    ensures
        s@ == seq![digit(d as int)],
{
    proof {
        reveal_strlit("0");
        reveal_strlit("1");
        reveal_strlit("2");
        reveal_strlit("3");
        reveal_strlit("4");
        reveal_strlit("5");
        reveal_strlit("6");
        reveal_strlit("7");
        reveal_strlit("8");
        reveal_strlit("9");
    }
    let s: &'static str = if d == 0 {
        "0"
    } else if d == 1 {
        "1"
    } else if d == 2 {
        "2"
    } else if d == 3 {
        "3"
    } else if d == 4 {
        "4"
    } else if d == 5 {
        "5"
    } else if d == 6 {
        "6"
    } else if d == 7 {
        "7"
    } else if d == 8 {
        "8"
    } else {
        "9"
    };
    assert(s@ =~= seq![digit(d as int)]);
    s
}

/// Appends the decimal digits of `n`.
pub fn push_digits(s: &mut String, n: u128)
    ensures
        final(s)@ == old(s)@ + digits(n as nat),
    decreases n,
{
    if n >= 10 {
        push_digits(s, n / 10);
    }
    s.append(digit_str((n % 10) as u8));
    assert(s@ =~= old(s)@ + digits(n as nat));
}

/// Appends the last `width` decimal digits of `n`.
pub fn push_padded(s: &mut String, n: u128, width: u8)
    ensures
        final(s)@ == old(s)@ + padded(n as nat, width as nat),
    decreases width,
{
    if width > 0 {
        push_padded(s, n / 10, width - 1);
        s.append(digit_str((n % 10) as u8));
    }
    assert(s@ =~= old(s)@ + padded(n as nat, width as nat));
}

/// Appends the text of a fixed-point number.
pub fn push_fixed(s: &mut String, x: i128)
    ensures
        final(s)@ == old(s)@ + render_fixed(x as int),
{
    let a: u128 = if x < 0 {
        (-(x + 1)) as u128 + 1
    } else {
        x as u128
    };
    if x < 0 {
        s.append("-");
    }
    push_digits(s, a / 1_000_000);
    s.append(".");
    push_padded(s, a % 1_000_000, 6);
    assert(s@ =~= old(s)@ + render_fixed(x as int));
}

/// The text of the pieces from the `j`-th on starts with the `j`-th piece.
proof fn lemma_token_step(done: Seq<char>, ts: Seq<Token>, j: int)
    requires
        0 <= j < ts.len(),
    ensures
        done + render_tokens(ts, j) == (done + text_of(ts[j])) + render_tokens(ts, j + 1),
{
    assert(done + render_tokens(ts, j) =~= (done + text_of(ts[j])) + render_tokens(ts, j + 1));
}

/// Appends the line of node `i`.
pub fn push_node(s: &mut String, i: usize, node: &Node)
    ensures
        final(s)@ == old(s)@ + render_node(i as nat, *node),
{
    let ghost ts: Seq<Token> = node_tokens(i as nat, *node);
    {
        let ghost before: Seq<char> = s@;
        push_digits(s, i as u128);
        proof {
            lemma_token_step(before, ts, 0);
        }
    }
    match node {
        Node::Split { feature, bin, threshold, left, right, gain, depth } => {
            {
                let ghost before: Seq<char> = s@;
                s.append(":[");
                proof {
                    lemma_token_step(before, ts, 1);
                }
            }
            {
                let ghost before: Seq<char> = s@;
                push_digits(s, *feature as u128);
                proof {
                    lemma_token_step(before, ts, 2);
                }
            }
            {
                let ghost before: Seq<char> = s@;
                s.append(" <= ");
                proof {
                    lemma_token_step(before, ts, 3);
                }
            }
            {
                let ghost before: Seq<char> = s@;
                push_fixed(s, *threshold as i128);
                proof {
                    lemma_token_step(before, ts, 4);
                }
            }
            {
                let ghost before: Seq<char> = s@;
                s.append("] bin=");
                proof {
                    lemma_token_step(before, ts, 5);
                }
            }
            {
                let ghost before: Seq<char> = s@;
                push_digits(s, *bin as u128);
                proof {
                    lemma_token_step(before, ts, 6);
                }
            }
            {
                let ghost before: Seq<char> = s@;
                s.append(",yes=");
                proof {
                    lemma_token_step(before, ts, 7);
                }
            }
            {
                let ghost before: Seq<char> = s@;
                push_digits(s, *left as u128);
                proof {
                    lemma_token_step(before, ts, 8);
                }
            }
            {
                let ghost before: Seq<char> = s@;
                s.append(",no=");
                proof {
                    lemma_token_step(before, ts, 9);
                }
            }
            {
                let ghost before: Seq<char> = s@;
                push_digits(s, *right as u128);
                proof {
                    lemma_token_step(before, ts, 10);
                }
            }
            {
                let ghost before: Seq<char> = s@;
                s.append(",gain=");
                proof {
                    lemma_token_step(before, ts, 11);
                }
            }
            {
                let ghost before: Seq<char> = s@;
                push_fixed(s, *gain);
                proof {
                    lemma_token_step(before, ts, 12);
                }
            }
            {
                let ghost before: Seq<char> = s@;
                s.append(",depth=");
                proof {
                    lemma_token_step(before, ts, 13);
                }
            }
            {
                let ghost before: Seq<char> = s@;
                push_digits(s, *depth as u128);
                proof {
                    lemma_token_step(before, ts, 14);
                }
            }
            {
                let ghost before: Seq<char> = s@;
                s.append("\n");
                proof {
                    lemma_token_step(before, ts, 15);
                }
            }
            assert(s@ =~= old(s)@ + render_node(i as nat, *node));
        },
        Node::Leaf { value, weight, depth } => {
            {
                let ghost before: Seq<char> = s@;
                s.append(":leaf=");
                proof {
                    lemma_token_step(before, ts, 1);
                }
            }
            {
                let ghost before: Seq<char> = s@;
                push_fixed(s, *value);
                proof {
                    lemma_token_step(before, ts, 2);
                }
            }
            {
                let ghost before: Seq<char> = s@;
                s.append(",weight=");
                proof {
                    lemma_token_step(before, ts, 3);
                }
            }
            {
                let ghost before: Seq<char> = s@;
                push_fixed(s, *weight);
                proof {
                    lemma_token_step(before, ts, 4);
                }
            }
            {
                let ghost before: Seq<char> = s@;
                s.append(",depth=");
                proof {
                    lemma_token_step(before, ts, 5);
                }
            }
            {
                let ghost before: Seq<char> = s@;
                push_digits(s, *depth as u128);
                proof {
                    lemma_token_step(before, ts, 6);
                }
            }
            {
                let ghost before: Seq<char> = s@;
                s.append("\n");
                proof {
                    lemma_token_step(before, ts, 7);
                }
            }
            assert(s@ =~= old(s)@ + render_node(i as nat, *node));
        },
    }
}

impl Tree {
    /// The text of the tree: one line per node in arena order.  A split
    /// reads `i:[f <= t] bin=b,yes=l,no=r,gain=g,depth=d`, a leaf
    /// `i:leaf=v,weight=w,depth=d`; fixed-point numbers have six decimal
    /// places.
    pub fn dump(&self) -> (s: String)
        ensures
            s@ == render_tree(self@),
    {
        let mut s: String = String::new();
        let nodes: &Vec<Node> = self.nodes();
        let mut i: usize = 0;
        while i < nodes.len()
            invariant
                nodes@ == self@,
                i <= nodes@.len(),
                s@ == render_nodes(self@, i as int),
            decreases nodes@.len() - i,
        {
            push_node(&mut s, i, &nodes[i]);
            i += 1;
        }
        s
    }
}

} // verus!
