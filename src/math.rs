//! Mathematical notation: a tree for LaTeX expressions and its plain-text form.

pub mod expression;

use vstd::prelude::*;

verus! {

/// What a `MathNode` stands for, with its strings seen as character sequences.
pub enum MathTree {
    Text(Seq<char>),
    Fraction(Box<MathTree>, Box<MathTree>),
    Superscript(Box<MathTree>, Box<MathTree>),
    Subscript(Box<MathTree>, Box<MathTree>),
    SquareRoot(Box<MathTree>),
    Group(Seq<MathTree>),
    Operator(Seq<char>),
    Symbol(Seq<char>),
}

/// A node in the mathematical expression tree.
#[derive(Debug)]
pub enum MathNode {
    /// Plain text (numbers, variables)
    Text(String),
    /// Fraction: numerator / denominator
    Fraction { numerator: Box<MathNode>, denominator: Box<MathNode> },
    /// Superscript: base ^ exponent
    Superscript { base: Box<MathNode>, exponent: Box<MathNode> },
    /// Subscript: base _ index
    Subscript { base: Box<MathNode>, index: Box<MathNode> },
    /// Square root of its content
    SquareRoot { content: Box<MathNode> },
    /// Group of nodes
    Group { children: Vec<MathNode> },
    /// Operator (+, -, =, ...)
    Operator(String),
    /// Greek letter or special symbol
    Symbol(String),
}

pub open spec fn tree_of(n: MathNode) -> MathTree
    decreases n,
    via tree_of_decreases
{
    match n {
        MathNode::Text(s) => MathTree::Text(s@),
        MathNode::Fraction { numerator, denominator } => MathTree::Fraction(
            Box::new(tree_of(*numerator)),
            Box::new(tree_of(*denominator)),
        ),
        MathNode::Superscript { base, exponent } => MathTree::Superscript(
            Box::new(tree_of(*base)),
            Box::new(tree_of(*exponent)),
        ),
        MathNode::Subscript { base, index } => MathTree::Subscript(
            Box::new(tree_of(*base)),
            Box::new(tree_of(*index)),
        ),
        MathNode::SquareRoot { content } => MathTree::SquareRoot(Box::new(tree_of(*content))),
        MathNode::Group { children } => MathTree::Group(
            Seq::new(
                children@.len(),
                |i: int|
                    if 0 <= i < children@.len() {
                        tree_of(children@[i])
                    } else {
                        MathTree::Text(Seq::empty())
                    },
            ),
        ),
        MathNode::Operator(s) => MathTree::Operator(s@),
        MathNode::Symbol(s) => MathTree::Symbol(s@),
    }
}

#[via_fn]
proof fn tree_of_decreases(n: MathNode) {
    broadcast use vstd::std_specs::vec::axiom_vec_decreases_to_view;
    broadcast use vstd::seq::axiom_seq_index_decreases;

    match n {
        MathNode::Group { children } => {
            assert forall|i: int| 0 <= i < children@.len() implies decreases_to!(n => children@[i]) by {
                assert(decreases_to!(n => children));
                assert(decreases_to!(children => children@));
                assert(decreases_to!(children@ => children@[i]));
            }
        },
        _ => {},
    }
}

impl View for MathNode {
    type V = MathTree;

    open spec fn view(&self) -> MathTree {
        tree_of(*self)
    }
}

/// The trees of a sequence of nodes, one for one.
pub open spec fn trees_of(v: Seq<MathNode>) -> Seq<MathTree> {
    v.map_values(|n: MathNode| n@)
}

/// The plain-text form of a tree: fractions as `(a) / (b)`, roots as `√(c)`,
/// groups as their parts joined by spaces in parentheses, operators padded with spaces.
pub open spec fn text_of(t: MathTree) -> Seq<char>
    decreases t,
{
    match t {
        MathTree::Text(s) => s,
        MathTree::Fraction(a, b) => seq!['('] + text_of(*a) + seq![')', ' ', '/', ' ', '(']
            + text_of(*b) + seq![')'],
        MathTree::Superscript(a, b) => text_of(*a) + seq!['^'] + text_of(*b),
        MathTree::Subscript(a, b) => text_of(*a) + seq!['_'] + text_of(*b),
        MathTree::SquareRoot(c) => seq!['√', '('] + text_of(*c) + seq![')'],
        MathTree::Group(cs) => seq!['('] + joined_text(cs) + seq![')'],
        MathTree::Operator(s) => seq![' '] + s + seq![' '],
        MathTree::Symbol(s) => s,
    }
}

/// The texts of `cs`, separated by single spaces.
pub open spec fn joined_text(cs: Seq<MathTree>) -> Seq<char>
    decreases cs,
{
    if cs.len() == 0 {
        Seq::empty()
    } else if cs.len() == 1 {
        text_of(cs[0])
    } else {
        joined_text(cs.drop_last()) + seq![' '] + text_of(cs.last())
    }
}

/// Relies on String::push: the character is appended at the end.
#[verifier::external_body]
pub(crate) fn push_char(s: &mut String, c: char)
    ensures
        final(s)@ == old(s)@.push(c),
{
    s.push(c);
}

/// A string holding the characters of `cs`.
pub(crate) fn string_of(cs: &[char]) -> (r: String)
    ensures
        r@ == cs@,
{
    let mut r = String::new();
    let mut i: usize = 0;
    while i < cs.len()
        invariant
            i <= cs@.len(),
            r@ == cs@.subrange(0, i as int),
        decreases cs@.len() - i,
    {
        push_char(&mut r, cs[i]);
        i += 1;
        assert(r@ =~= cs@.subrange(0, i as int));
    }
    assert(r@ =~= cs@);
    r
}

/// Appends the characters of `src` to `dst`.
pub(crate) fn append_string(dst: &mut String, src: &String)
    ensures
        final(dst)@ == old(dst)@ + src@,
{
    dst.append(src.as_str());
}

impl MathNode {
    /// A simple text representation of the expression.
    pub fn to_text(&self) -> (r: String)
        ensures
            r@ == text_of(self@),
        decreases self,
    {
        match self {
            MathNode::Text(s) => s.clone(),
            MathNode::Fraction { numerator, denominator } => {
                let a = numerator.to_text();
                let b = denominator.to_text();
                let mut r = string_of(&['(']);
                append_string(&mut r, &a);
                append_string(&mut r, &string_of(&[')', ' ', '/', ' ', '(']));
                append_string(&mut r, &b);
                push_char(&mut r, ')');
                assert(r@ =~= text_of(self@));
                r
            },
            MathNode::Superscript { base, exponent } => {
                let mut r = base.to_text();
                push_char(&mut r, '^');
                append_string(&mut r, &exponent.to_text());
                r
            },
            MathNode::Subscript { base, index } => {
                let mut r = base.to_text();
                push_char(&mut r, '_');
                append_string(&mut r, &index.to_text());
                r
            },
            MathNode::SquareRoot { content } => {
                let mut r = string_of(&['√', '(']);
                append_string(&mut r, &content.to_text());
                push_char(&mut r, ')');
                assert(r@ =~= text_of(self@));
                r
            },
            MathNode::Group { children } => {
                proof {
                    assert forall|j: int| 0 <= j < children@.len() implies decreases_to!(self => children@[j]) by {
                        vstd::std_specs::vec::axiom_vec_index_decreases(*children, j);
                        assert(decreases_to!(self => children));
                    }
                }
                let ghost cs = self@->Group_0;
                assert(cs =~= trees_of(children@));
                let mut body = String::new();
                let mut i: usize = 0;
                while i < children.len()
                    invariant
                        i <= children@.len(),
                        cs == trees_of(children@),
                        forall|j: int| 0 <= j < children@.len() ==> decreases_to!(self => children@[j]),
                        body@ == joined_text(cs.subrange(0, i as int)),
                    decreases children@.len() - i,
                {
                    let part = children[i].to_text();
                    proof {
                        assert(cs.subrange(0, i as int + 1).drop_last() =~= cs.subrange(0, i as int));
                    }
                    if i > 0 {
                        push_char(&mut body, ' ');
                    }
                    append_string(&mut body, &part);
                    i += 1;
                    proof {
                        let sub = cs.subrange(0, i as int);
                        assert(sub.last() == children@[i - 1]@);
                        if i == 1 {
                            assert(joined_text(cs.subrange(0, 0)) =~= Seq::<char>::empty());
                            assert(body@ =~= text_of(sub[0]));
                        } else {
                            assert(body@ =~= joined_text(sub));
                        }
                    }
                }
                assert(cs.subrange(0, i as int) =~= cs);
                let mut r = string_of(&['(']);
                append_string(&mut r, &body);
                push_char(&mut r, ')');
                assert(r@ =~= text_of(self@));
                r
            },
            MathNode::Operator(op) => {
                let mut r = string_of(&[' ']);
                append_string(&mut r, op);
                push_char(&mut r, ' ');
                assert(r@ =~= text_of(self@));
                r
            },
            MathNode::Symbol(sym) => sym.clone(),
        }
    }
}

} // verus!
