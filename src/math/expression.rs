//! LaTeX expression parsing.
//!
//! The grammar is stated by the spec functions below, each over the input
//! characters and a position, giving what is read and where reading stops;
//! the parser's methods are proved to follow them.

use vstd::prelude::*;
use vstd::string::StrSliceExecFns;
use super::{MathNode, MathTree, append_string, push_char, trees_of};

verus! {

/// What `char::is_whitespace` says of a character.
pub uninterp spec fn whitespace(c: char) -> bool;

/// What `char::is_alphabetic` says of a character.
pub uninterp spec fn alphabetic(c: char) -> bool;

/// What `char::is_alphanumeric` says of a character.
pub uninterp spec fn alphanumeric(c: char) -> bool;

/// Relies on char::is_whitespace, a function of the character alone.
#[verifier::external_body]
fn is_whitespace(c: char) -> (r: bool)
    ensures
        r == whitespace(c),
{
    c.is_whitespace()
}

/// Relies on char::is_alphabetic, a function of the character alone.
#[verifier::external_body]
fn is_alphabetic(c: char) -> (r: bool)
    ensures
        r == alphabetic(c),
{
    c.is_alphabetic()
}

/// Relies on char::is_alphanumeric, a function of the character alone.
#[verifier::external_body]
fn is_alphanumeric(c: char) -> (r: bool)
    ensures
        r == alphanumeric(c),
{
    c.is_alphanumeric()
}

/// What the parser needs to know of a character beyond the character itself.
#[derive(Debug, Clone, Copy, PartialEq, Eq, Structural)]
pub struct CharKind {
    pub whitespace: bool,
    pub alphabetic: bool,
    pub alphanumeric: bool,
}

/// The kind of a character, as the standard library classifies it.
pub open spec fn kind_of(c: char) -> CharKind {
    CharKind { whitespace: whitespace(c), alphabetic: alphabetic(c), alphanumeric: alphanumeric(c) }
}

/// The kinds of the characters of `s`, one for one.
pub open spec fn kinds_of(s: Seq<char>) -> Seq<CharKind> {
    s.map_values(|c: char| kind_of(c))
}

/// Classifies a character.
pub fn classify(c: char) -> (r: CharKind)
    ensures
        r == kind_of(c),
{
    CharKind { whitespace: is_whitespace(c), alphabetic: is_alphabetic(c), alphanumeric: is_alphanumeric(c) }
}

/// Relies on str::chars: the characters of the string, in order.
#[verifier::external_body]
fn chars_of(s: &str) -> (r: Vec<char>)
    ensures
        r@ == s@,
{
    s.chars().collect()
}

/// `s` with every leading and trailing character that satisfies `strip` removed.
pub open spec fn trim_by(s: Seq<char>, strip: spec_fn(char) -> bool) -> Seq<char>
    decreases s.len(),
{
    if s.len() > 0 && strip(s[0]) {
        trim_by(s.drop_first(), strip)
    } else if s.len() > 0 && strip(s.last()) {
        trim_by(s.drop_last(), strip)
    } else {
        s
    }
}

/// The source without surrounding `$` signs, then without surrounding whitespace.
pub open spec fn trimmed(s: Seq<char>) -> Seq<char> {
    trim_by(trim_by(s, |c: char| c == '$'), |c: char| whitespace(c))
}

/// The first position at or after `p` that does not hold whitespace.
pub open spec fn skip_ws(s: Seq<char>, k: Seq<CharKind>, p: int) -> int
    decreases s.len() - p,
{
    if 0 <= p < s.len() && k[p].whitespace {
        skip_ws(s, k, p + 1)
    } else {
        p
    }
}

/// The end of the run of letters that starts at `p`.
pub open spec fn ident_end(s: Seq<char>, k: Seq<CharKind>, p: int) -> int
    decreases s.len() - p,
{
    if 0 <= p < s.len() && k[p].alphabetic {
        ident_end(s, k, p + 1)
    } else {
        p
    }
}

/// Characters that plain text is made of, given the character's kind.
pub open spec fn text_char(c: char, kind: CharKind) -> bool {
    kind.alphanumeric || c == '.' || c == ','
}

/// The end of the run of text characters that starts at `p`.
pub open spec fn text_end(s: Seq<char>, k: Seq<CharKind>, p: int) -> int
    decreases s.len() - p,
{
    if 0 <= p < s.len() && text_char(s[p], k[p]) {
        text_end(s, k, p + 1)
    } else {
        p
    }
}

/// Characters that stand alone as operators.
pub open spec fn operator_char(c: char) -> bool {
    c == '+' || c == '-' || c == '=' || c == '<' || c == '>' || c == '*' || c == '/'
}

/// The symbol that a command name stands for, if it names one.
pub open spec fn command_symbol(w: Seq<char>) -> Option<char> {
    if w == "alpha"@ {
        Some('α')
    } else if w == "beta"@ {
        Some('β')
    } else if w == "gamma"@ {
        Some('γ')
    } else if w == "delta"@ {
        Some('δ')
    } else if w == "epsilon"@ {
        Some('ε')
    } else if w == "theta"@ {
        Some('θ')
    } else if w == "lambda"@ {
        Some('λ')
    } else if w == "mu"@ {
        Some('μ')
    } else if w == "pi"@ {
        Some('π')
    } else if w == "sigma"@ {
        Some('σ')
    } else if w == "phi"@ {
        Some('φ')
    } else if w == "omega"@ {
        Some('ω')
    } else if w == "infty"@ {
        Some('∞')
    } else if w == "sum"@ {
        Some('Σ')
    } else if w == "prod"@ {
        Some('Π')
    } else if w == "int"@ {
        Some('∫')
    } else if w == "partial"@ {
        Some('∂')
    } else if w == "nabla"@ {
        Some('∇')
    } else if w == "times"@ {
        Some('×')
    } else if w == "cdot"@ {
        Some('·')
    } else if w == "pm"@ {
        Some('±')
    } else if w == "leq"@ {
        Some('≤')
    } else if w == "geq"@ {
        Some('≥')
    } else if w == "neq"@ {
        Some('≠')
    } else if w == "approx"@ {
        Some('≈')
    } else {
        None
    }
}

/// A list of parsed nodes as one node: empty text, the single node, or a group.
pub open spec fn collect(cs: Seq<MathTree>) -> MathTree {
    if cs.len() == 0 {
        MathTree::Text(Seq::empty())
    } else if cs.len() == 1 {
        cs[0]
    } else {
        MathTree::Group(cs)
    }
}

/// Skipping and scanning never move backwards.
proof fn lemma_skip_ws(s: Seq<char>, k: Seq<CharKind>, p: int)
    ensures
        skip_ws(s, k, p) >= p,
        skip_ws(s, k, p) == p || skip_ws(s, k, p) <= s.len(),
    decreases s.len() - p,
{
    if 0 <= p < s.len() && k[p].whitespace {
        lemma_skip_ws(s, k, p + 1);
    }
}

proof fn lemma_ident_end(s: Seq<char>, k: Seq<CharKind>, p: int)
    ensures
        ident_end(s, k, p) >= p,
        ident_end(s, k, p) == p || ident_end(s, k, p) <= s.len(),
    decreases s.len() - p,
{
    if 0 <= p < s.len() && k[p].alphabetic {
        lemma_ident_end(s, k, p + 1);
    }
}

/// One node read at `p` after skipping whitespace, and the position after it.
pub open spec fn node_from(s: Seq<char>, k: Seq<CharKind>, p: int) -> (Option<MathTree>, int)
    decreases s.len() - p, 5int,
    via node_from_decreases
{
    node_at(s, k, skip_ws(s, k, p))
}

#[via_fn]
proof fn node_from_decreases(s: Seq<char>, k: Seq<CharKind>, p: int) {
    lemma_skip_ws(s, k, p);
}

/// One node read at `p`, where `p` holds no whitespace.
pub open spec fn node_at(s: Seq<char>, k: Seq<CharKind>, p: int) -> (Option<MathTree>, int)
    decreases s.len() - p, 4int,
{
    if p < 0 || p >= s.len() {
        (None, p)
    } else {
        let c = s[p];
        if c == '\\' {
            command_from(s, k, p + 1)
        } else if c == '^' || c == '_' {
            (None, p + 1)
        } else if c == '{' {
            group_from(s, k, p)
        } else if operator_char(c) {
            (Some(MathTree::Operator(seq![c])), p + 1)
        } else {
            let e = text_end(s, k, p);
            if e == p {
                (None, p)
            } else {
                (Some(MathTree::Text(s.subrange(p, e))), e)
            }
        }
    }
}

/// A command whose name starts at `p` (just after its backslash).
pub open spec fn command_from(s: Seq<char>, k: Seq<CharKind>, p: int) -> (Option<MathTree>, int)
    decreases s.len() - p, 3int,
    via command_from_decreases
{
    let e = ident_end(s, k, p);
    let w = s.subrange(p, e);
    if w == "frac"@ {
        fraction_from(s, k, e)
    } else if w == "sqrt"@ {
        sqrt_from(s, k, e)
    } else {
        match command_symbol(w) {
            Some(c) => (Some(MathTree::Symbol(seq![c])), e),
            None => (Some(MathTree::Text(seq!['\\'] + w)), e),
        }
    }
}

/// The two braced groups of a fraction, read from `p`.
pub open spec fn fraction_from(s: Seq<char>, k: Seq<CharKind>, p: int) -> (Option<MathTree>, int)
    decreases s.len() - p, 2int,
{
    let (a, p1) = group_from(s, k, p);
    match a {
        None => (None, p1),
        Some(a) => {
            // a group never ends before it starts; the bound makes the decrease evident
            let (b, p2) = group_from(s, k, if p <= p1 <= s.len() { p1 } else { p });
            match b {
                None => (None, p2),
                Some(b) => (Some(MathTree::Fraction(Box::new(a), Box::new(b))), p2),
            }
        },
    }
}

/// The braced group of a square root, read from `p`.
pub open spec fn sqrt_from(s: Seq<char>, k: Seq<CharKind>, p: int) -> (Option<MathTree>, int)
    decreases s.len() - p, 2int,
{
    let (a, p1) = group_from(s, k, p);
    match a {
        None => (None, p1),
        Some(a) => (Some(MathTree::SquareRoot(Box::new(a))), p1),
    }
}

#[via_fn]
proof fn command_from_decreases(s: Seq<char>, k: Seq<CharKind>, p: int) {
    lemma_ident_end(s, k, p);
}

/// A braced group at `p`: `None` where `p` holds no `{`.
pub open spec fn group_from(s: Seq<char>, k: Seq<CharKind>, p: int) -> (Option<MathTree>, int)
    decreases s.len() - p, 1int,
{
    if 0 <= p < s.len() && s[p] == '{' {
        let (cs, q) = group_items(s, k, p + 1, 1, Seq::empty());
        let q2 = if 0 <= q < s.len() && s[q] == '}' { q + 1 } else { q };
        (Some(collect(cs)), q2)
    } else {
        (None, p)
    }
}

/// The nodes inside a group, read from `p` at brace depth `depth` after `acc`,
/// and the position of the closing brace (or the end).
/// Inner braces only change the depth. Where no node can be read, one character is skipped.
pub open spec fn group_items(s: Seq<char>, k: Seq<CharKind>, p: int, depth: nat, acc: Seq<MathTree>) -> (
    Seq<MathTree>,
    int,
)
    decreases s.len() - p, 6int,
{
    if p < 0 || p >= s.len() || depth == 0 {
        (acc, p)
    } else if s[p] == '{' {
        group_items(s, k, p + 1, depth + 1, acc)
    } else if s[p] == '}' {
        if depth > 1 {
            group_items(s, k, p + 1, (depth - 1) as nat, acc)
        } else {
            (acc, p)
        }
    } else {
        let (n, q) = node_from(s, k, p);
        let acc2 = match n {
            Some(t) => acc.push(t),
            None => acc,
        };
        group_items(s, k, if p < q <= s.len() { q } else { p + 1 }, depth, acc2)
    }
}

/// The nodes of a whole expression read from `p` after `acc`.
/// Where no node can be read, one character is skipped.
pub open spec fn top_items(s: Seq<char>, k: Seq<CharKind>, p: int, acc: Seq<MathTree>) -> Seq<MathTree>
    decreases s.len() - p,
{
    if p < 0 || p >= s.len() {
        acc
    } else {
        let (n, q) = node_from(s, k, p);
        let acc2 = match n {
            Some(t) => acc.push(t),
            None => acc,
        };
        top_items(s, k, if p < q <= s.len() { q } else { p + 1 }, acc2)
    }
}

/// The tree of a whole expression.
pub open spec fn parse_tree(s: Seq<char>, k: Seq<CharKind>) -> MathTree {
    collect(top_items(s, k, 0, Seq::empty()))
}

/// The tree of LaTeX source: trimmed, then parsed.
pub open spec fn latex_tree(latex: Seq<char>) -> MathTree {
    parse_tree(trimmed(latex), kinds_of(trimmed(latex)))
}

/// The tree of an optional node.
pub open spec fn opt_tree(o: Option<MathNode>) -> Option<MathTree> {
    match o {
        Some(n) => Some(n@),
        None => None,
    }
}

/// Whether `w` holds exactly the characters of `lit`.
fn word_is(w: &String, lit: &str) -> (r: bool)
    ensures
        r == (w@ == lit@),
{
    let ws = w.as_str();
    let n = lit.unicode_len();
    if ws.unicode_len() != n {
        return false;
    }
    let mut i: usize = 0;
    while i < n
        invariant
            n == lit@.len(),
            ws@ == w@,
            w@.len() == n,
            i <= n,
            w@.subrange(0, i as int) == lit@.subrange(0, i as int),
        decreases n - i,
    {
        if ws.get_char(i) != lit.get_char(i) {
            return false;
        }
        i += 1;
        assert(w@.subrange(0, i as int) =~= w@.subrange(0, i as int - 1).push(w@[i - 1]));
        assert(lit@.subrange(0, i as int) =~= lit@.subrange(0, i as int - 1).push(lit@[i - 1]));
    }
    assert(w@ =~= w@.subrange(0, n as int));
    assert(lit@ =~= lit@.subrange(0, n as int));
    true
}

/// Whether `c` belongs to plain text.
fn is_text_char(c: char, kind: CharKind) -> (r: bool)
    ensures
        r == text_char(c, kind),
{
    kind.alphanumeric || c == '.' || c == ','
}

/// A string of the one character `c`.
fn char_string(c: char) -> (r: String)
    ensures
        r@ == seq![c],
{
    let mut r = String::new();
    push_char(&mut r, c);
    r
}

/// The node that a list of parsed nodes makes: empty text, the single node, or a group.
fn collect_nodes(mut children: Vec<MathNode>) -> (r: MathNode)
    ensures
        r@ == collect(trees_of(children@)),
{
    if children.len() == 0 {
        MathNode::Text(String::new())
    } else if children.len() == 1 {
        let ghost v = children@;
        let r = children.pop().unwrap();
        assert(r == v[0]);
        r
    } else {
        let ghost v = children@;
        let r = MathNode::Group { children };
        assert(r@->Group_0 =~= trees_of(v));
        r
    }
}

/// Parser of LaTeX math notation into a `MathNode` tree.
pub struct MathParser {
    input: Vec<char>,
    kinds: Vec<CharKind>,
    pos: usize,
}

impl MathParser {
    /// The characters that the parser reads.
    pub closed spec fn chars(&self) -> Seq<char> {
        self.input@
    }

    /// The kinds of the characters that the parser reads.
    pub closed spec fn kinds(&self) -> Seq<CharKind> {
        self.kinds@
    }

    /// The position of the next character to read.
    pub closed spec fn position(&self) -> int {
        self.pos as int
    }

    /// The position lies within the input, and each character has its kind.
    pub closed spec fn wf(&self) -> bool {
        self.pos <= self.input@.len() && self.kinds@.len() == self.input@.len()
    }

    /// A parser at the start of `input`, whose characters have the kinds `kinds`.
    pub fn from_parts(input: Vec<char>, kinds: Vec<CharKind>) -> (r: Self)
        requires
            kinds@.len() == input@.len(),
        ensures
            r.wf(),
            r.chars() == input@,
            r.kinds() == kinds@,
            r.position() == 0,
    {
        MathParser { input, kinds, pos: 0 }
    }

    /// A parser at the start of `latex`, without surrounding `$` signs and whitespace.
    pub fn new(latex: &str) -> (r: Self)
        ensures
            r.wf(),
            r.chars() == trimmed(latex@),
            r.kinds() == kinds_of(trimmed(latex@)),
            r.position() == 0,
    {
        let all = chars_of(latex);
        let ghost is_dollar = |c: char| c == '$';
        let ghost is_ws = |c: char| whitespace(c);
        let mut lo: usize = 0;
        let mut hi: usize = all.len();
        assert(all@.subrange(0, all@.len() as int) =~= all@);
        while lo < hi && all[lo] == '$'
            invariant
                lo <= hi <= all@.len(),
                is_dollar == (|c: char| c == '$'),
                trim_by(all@.subrange(lo as int, hi as int), is_dollar) == trim_by(all@, is_dollar),
            decreases hi - lo,
        {
            let ghost sub = all@.subrange(lo as int, hi as int);
            assert(sub[0] == '$');
            assert(is_dollar(sub[0]));
            assert(sub.drop_first() =~= all@.subrange(lo as int + 1, hi as int));
            lo += 1;
        }
        while lo < hi && all[hi - 1] == '$'
            invariant
                lo <= hi <= all@.len(),
                lo < hi ==> all@[lo as int] != '$',
                is_dollar == (|c: char| c == '$'),
                trim_by(all@.subrange(lo as int, hi as int), is_dollar) == trim_by(all@, is_dollar),
            decreases hi - lo,
        {
            let ghost sub = all@.subrange(lo as int, hi as int);
            assert(!is_dollar(sub[0]));
            assert(is_dollar(sub.last()));
            assert(sub.drop_last() =~= all@.subrange(lo as int, hi as int - 1));
            hi -= 1;
        }
        let ghost mid = all@.subrange(lo as int, hi as int);
        assert(mid.len() > 0 ==> !is_dollar(mid[0]) && !is_dollar(mid.last()));
        assert(trim_by(mid, is_dollar) == mid);
        assert(mid =~= all@.subrange(lo as int, hi as int));
        while lo < hi && is_whitespace(all[lo])
            invariant
                lo <= hi <= all@.len(),
                is_ws == (|c: char| whitespace(c)),
                trim_by(all@.subrange(lo as int, hi as int), is_ws) == trim_by(mid, is_ws),
            decreases hi - lo,
        {
            let ghost sub = all@.subrange(lo as int, hi as int);
            assert(is_ws(sub[0]));
            assert(sub.drop_first() =~= all@.subrange(lo as int + 1, hi as int));
            lo += 1;
        }
        while lo < hi && is_whitespace(all[hi - 1])
            invariant
                lo <= hi <= all@.len(),
                lo < hi ==> !whitespace(all@[lo as int]),
                is_ws == (|c: char| whitespace(c)),
                trim_by(all@.subrange(lo as int, hi as int), is_ws) == trim_by(mid, is_ws),
            decreases hi - lo,
        {
            let ghost sub = all@.subrange(lo as int, hi as int);
            assert(!is_ws(sub[0]));
            assert(is_ws(sub.last()));
            assert(sub.drop_last() =~= all@.subrange(lo as int, hi as int - 1));
            hi -= 1;
        }
        let mut input: Vec<char> = Vec::new();
        let mut i: usize = lo;
        while i < hi
            invariant
                lo <= i <= hi <= all@.len(),
                input@ == all@.subrange(lo as int, i as int),
            decreases hi - i,
        {
            input.push(all[i]);
            i += 1;
            assert(input@ =~= all@.subrange(lo as int, i as int));
        }
        let ghost fin = all@.subrange(lo as int, hi as int);
        assert(fin.len() > 0 ==> !is_ws(fin[0]) && !is_ws(fin.last()));
        assert(trim_by(fin, is_ws) == fin);
        assert(is_dollar == (|c: char| c == '$'));
        assert(is_ws == (|c: char| whitespace(c)));
        let mut kinds: Vec<CharKind> = Vec::new();
        let mut j: usize = 0;
        while j < input.len()
            invariant
                j <= input@.len(),
                kinds@ == kinds_of(input@).subrange(0, j as int),
            decreases input@.len() - j,
        {
            kinds.push(classify(input[j]));
            j += 1;
            assert(kinds@ =~= kinds_of(input@).subrange(0, j as int));
        }
        assert(kinds@ =~= kinds_of(input@));
        MathParser { input, kinds, pos: 0 }
    }

    /// Parses the whole expression.
    pub fn parse(&mut self) -> (r: MathNode)
        requires
            old(self).wf(),
        ensures
            final(self).wf(),
            final(self).chars() == old(self).chars(),
            old(self).position() == 0 ==> r@ == parse_tree(old(self).chars(), old(self).kinds()),
            final(self).kinds() == old(self).kinds(),
            r@ == collect(top_items(old(self).chars(), old(self).kinds(), old(self).position(), Seq::empty())),
    {
        if self.is_eof() {
            return MathNode::Text(String::new());
        }
        let ghost s = self.input@;
        let ghost k = self.kinds@;
        let ghost start = self.pos as int;
        let mut children: Vec<MathNode> = Vec::new();
        assert(trees_of(children@) =~= Seq::<MathTree>::empty());
        while !self.is_eof()
            invariant
                self.input@ == s,
                self.kinds@ == k,
                k.len() == s.len(),
                self.pos <= s.len(),
                top_items(s, k, self.pos as int, trees_of(children@)) == top_items(s, k, start, Seq::empty()),
            decreases s.len() - self.pos,
        {
            let before = self.pos;
            let ghost acc = trees_of(children@);
            let n = self.parse_node();
            match n {
                Some(node) => {
                    children.push(node);
                    assert(trees_of(children@) =~= acc.push(children@.last()@));
                },
                None => {},
            }
            if self.pos == before {
                self.advance();
            }
        }
        collect_nodes(children)
    }

    /// Parses a single node, after any whitespace.
    fn parse_node(&mut self) -> (r: Option<MathNode>)
        requires
            old(self).wf(),
        ensures
            final(self).input@ == old(self).input@,
            final(self).kinds@ == old(self).kinds@,
            old(self).pos <= final(self).pos <= final(self).input@.len(),
            (opt_tree(r), final(self).pos as int) == node_from(old(self).input@, old(self).kinds@, old(self).pos as int),
        decreases old(self).input@.len() - old(self).pos, 5int,
    {
        self.skip_whitespace();
        if self.is_eof() {
            return None;
        }
        let ch = self.current();
        if ch == '\\' {
            self.parse_command()
        } else if ch == '^' {
            self.parse_superscript()
        } else if ch == '_' {
            self.parse_subscript()
        } else if ch == '{' {
            self.parse_group()
        } else if ch == '+' || ch == '-' || ch == '=' || ch == '<' || ch == '>' || ch == '*' || ch == '/' {
            let op = char_string(ch);
            self.advance();
            Some(MathNode::Operator(op))
        } else {
            self.parse_text()
        }
    }

    /// Parses a command, at its backslash.
    fn parse_command(&mut self) -> (r: Option<MathNode>)
        requires
            old(self).wf(),
            old(self).pos < old(self).input@.len(),
            old(self).input@[old(self).pos as int] == '\\',
        ensures
            final(self).input@ == old(self).input@,
            final(self).kinds@ == old(self).kinds@,
            old(self).pos <= final(self).pos <= final(self).input@.len(),
            (opt_tree(r), final(self).pos as int) == command_from(old(self).input@, old(self).kinds@, old(self).pos + 1),
        decreases old(self).input@.len() - old(self).pos, 4int,
    {
        self.advance();
        let cmd = self.read_identifier();
        let sym: char;
        if word_is(&cmd, "frac") {
            return self.parse_fraction();
        } else if word_is(&cmd, "sqrt") {
            return self.parse_sqrt();
        } else if word_is(&cmd, "alpha") {
            sym = 'α';
        } else if word_is(&cmd, "beta") {
            sym = 'β';
        } else if word_is(&cmd, "gamma") {
            sym = 'γ';
        } else if word_is(&cmd, "delta") {
            sym = 'δ';
        } else if word_is(&cmd, "epsilon") {
            sym = 'ε';
        } else if word_is(&cmd, "theta") {
            sym = 'θ';
        } else if word_is(&cmd, "lambda") {
            sym = 'λ';
        } else if word_is(&cmd, "mu") {
            sym = 'μ';
        } else if word_is(&cmd, "pi") {
            sym = 'π';
        } else if word_is(&cmd, "sigma") {
            sym = 'σ';
        } else if word_is(&cmd, "phi") {
            sym = 'φ';
        } else if word_is(&cmd, "omega") {
            sym = 'ω';
        } else if word_is(&cmd, "infty") {
            sym = '∞';
        } else if word_is(&cmd, "sum") {
            sym = 'Σ';
        } else if word_is(&cmd, "prod") {
            sym = 'Π';
        } else if word_is(&cmd, "int") {
            sym = '∫';
        } else if word_is(&cmd, "partial") {
            sym = '∂';
        } else if word_is(&cmd, "nabla") {
            sym = '∇';
        } else if word_is(&cmd, "times") {
            sym = '×';
        } else if word_is(&cmd, "cdot") {
            sym = '·';
        } else if word_is(&cmd, "pm") {
            sym = '±';
        } else if word_is(&cmd, "leq") {
            sym = '≤';
        } else if word_is(&cmd, "geq") {
            sym = '≥';
        } else if word_is(&cmd, "neq") {
            sym = '≠';
        } else if word_is(&cmd, "approx") {
            sym = '≈';
        } else {
            let mut text = char_string('\\');
            append_string(&mut text, &cmd);
            return Some(MathNode::Text(text));
        }
        Some(MathNode::Symbol(char_string(sym)))
    }

    /// Parses the two groups of `\frac{numerator}{denominator}`.
    fn parse_fraction(&mut self) -> (r: Option<MathNode>)
        requires
            old(self).wf(),
        ensures
            final(self).input@ == old(self).input@,
            final(self).kinds@ == old(self).kinds@,
            old(self).pos <= final(self).pos <= final(self).input@.len(),
            (opt_tree(r), final(self).pos as int) == fraction_from(old(self).input@, old(self).kinds@, old(self).pos as int),
        decreases old(self).input@.len() - old(self).pos, 3int,
    {
        let numerator = match self.parse_braced_group() {
            Some(n) => n,
            None => return None,
        };
        let denominator = match self.parse_braced_group() {
            Some(n) => n,
            None => return None,
        };
        Some(MathNode::Fraction { numerator: Box::new(numerator), denominator: Box::new(denominator) })
    }

    /// Parses the group of `\sqrt{content}`.
    fn parse_sqrt(&mut self) -> (r: Option<MathNode>)
        requires
            old(self).wf(),
        ensures
            final(self).input@ == old(self).input@,
            final(self).kinds@ == old(self).kinds@,
            old(self).pos <= final(self).pos <= final(self).input@.len(),
            (opt_tree(r), final(self).pos as int) == sqrt_from(old(self).input@, old(self).kinds@, old(self).pos as int),
        decreases old(self).input@.len() - old(self).pos, 3int,
    {
        let content = match self.parse_braced_group() {
            Some(n) => n,
            None => return None,
        };
        Some(MathNode::SquareRoot { content: Box::new(content) })
    }

    /// Skips a `^`, which yields no node of its own.
    fn parse_superscript(&mut self) -> (r: Option<MathNode>)
        requires
            old(self).wf(),
            old(self).pos < old(self).input@.len(),
        ensures
            final(self).input@ == old(self).input@,
            final(self).kinds@ == old(self).kinds@,
            final(self).pos == old(self).pos + 1,
            r is None,
    {
        self.advance();
        None
    }

    /// Skips a `_`, which yields no node of its own.
    fn parse_subscript(&mut self) -> (r: Option<MathNode>)
        requires
            old(self).wf(),
            old(self).pos < old(self).input@.len(),
        ensures
            final(self).input@ == old(self).input@,
            final(self).kinds@ == old(self).kinds@,
            final(self).pos == old(self).pos + 1,
            r is None,
    {
        self.advance();
        None
    }

    /// Parses a group enclosed in braces.
    fn parse_group(&mut self) -> (r: Option<MathNode>)
        requires
            old(self).wf(),
        ensures
            final(self).input@ == old(self).input@,
            final(self).kinds@ == old(self).kinds@,
            old(self).pos <= final(self).pos <= final(self).input@.len(),
            (opt_tree(r), final(self).pos as int) == group_from(old(self).input@, old(self).kinds@, old(self).pos as int),
        decreases old(self).input@.len() - old(self).pos, 2int,
    {
        self.parse_braced_group()
    }

    /// Parses the content within braces.
    fn parse_braced_group(&mut self) -> (r: Option<MathNode>)
        requires
            old(self).wf(),
        ensures
            final(self).input@ == old(self).input@,
            final(self).kinds@ == old(self).kinds@,
            old(self).pos <= final(self).pos <= final(self).input@.len(),
            r is Some ==> old(self).pos < final(self).pos,
            (opt_tree(r), final(self).pos as int) == group_from(old(self).input@, old(self).kinds@, old(self).pos as int),
        decreases old(self).input@.len() - old(self).pos, 1int,
    {
        let ghost s = self.input@;
        let ghost k = self.kinds@;
        let ghost p0 = self.pos as int;
        if !self.match_char('{') {
            return None;
        }
        let mut children: Vec<MathNode> = Vec::new();
        let mut depth: usize = 1;
        assert(trees_of(children@) =~= Seq::<MathTree>::empty());
        while !self.is_eof() && depth > 0
            invariant
                s == old(self).input@,
                p0 == old(self).pos,
                self.input@ == s,
                self.kinds@ == k,
                k.len() == s.len(),
                p0 < self.pos <= s.len(),
                depth <= self.pos,
                group_items(s, k, self.pos as int, depth as nat, trees_of(children@))
                    == group_items(s, k, p0 + 1, 1, Seq::empty()),
            ensures
                self.pos >= s.len() || depth == 0,
            decreases s.len() - self.pos,
        {
            let ch = self.current();
            let _len = self.input.len();
            if ch == '{' {
                depth += 1;
                self.advance();
            } else if ch == '}' {
                depth -= 1;
                if depth > 0 {
                    self.advance();
                } else {
                    break;
                }
            } else {
                let before = self.pos;
                let ghost acc = trees_of(children@);
                let n = self.parse_node();
                match n {
                    Some(node) => {
                        children.push(node);
                        assert(trees_of(children@) =~= acc.push(children@.last()@));
                    },
                    None => {},
                }
                if self.pos == before {
                    self.advance();
                }
            }
        }
        self.match_char('}');
        Some(collect_nodes(children))
    }

    /// Parses a run of plain text.
    fn parse_text(&mut self) -> (r: Option<MathNode>)
        requires
            old(self).wf(),
        ensures
            final(self).input@ == old(self).input@,
            final(self).kinds@ == old(self).kinds@,
            final(self).pos == text_end(old(self).input@, old(self).kinds@, old(self).pos as int),
            old(self).pos <= final(self).pos <= final(self).input@.len(),
            opt_tree(r) == (if final(self).pos == old(self).pos {
                None
            } else {
                Some(MathTree::Text(old(self).input@.subrange(old(self).pos as int, final(self).pos as int)))
            }),
    {
        let ghost s = self.input@;
        let ghost k = self.kinds@;
        let ghost p0 = self.pos as int;
        let mut text = String::new();
        while !self.is_eof() && is_text_char(self.current(), self.current_kind())
            invariant
                self.input@ == s,
                self.kinds@ == k,
                k.len() == s.len(),
                0 <= p0 <= self.pos <= s.len(),
                text@ == s.subrange(p0, self.pos as int),
                text_end(s, k, self.pos as int) == text_end(s, k, p0),
            decreases s.len() - self.pos,
        {
            push_char(&mut text, self.current());
            self.advance();
            assert(text@ =~= s.subrange(p0, self.pos as int));
        }
        if text.unicode_len() == 0 {
            None
        } else {
            Some(MathNode::Text(text))
        }
    }

    /// Reads a run of letters.
    fn read_identifier(&mut self) -> (r: String)
        requires
            old(self).wf(),
        ensures
            final(self).input@ == old(self).input@,
            final(self).kinds@ == old(self).kinds@,
            final(self).pos == ident_end(old(self).input@, old(self).kinds@, old(self).pos as int),
            old(self).pos <= final(self).pos <= final(self).input@.len(),
            r@ == old(self).input@.subrange(old(self).pos as int, final(self).pos as int),
    {
        let ghost s = self.input@;
        let ghost k = self.kinds@;
        let ghost p0 = self.pos as int;
        let mut ident = String::new();
        while !self.is_eof() && self.current_kind().alphabetic
            invariant
                self.input@ == s,
                self.kinds@ == k,
                k.len() == s.len(),
                0 <= p0 <= self.pos <= s.len(),
                ident@ == s.subrange(p0, self.pos as int),
                ident_end(s, k, self.pos as int) == ident_end(s, k, p0),
            decreases s.len() - self.pos,
        {
            push_char(&mut ident, self.current());
            self.advance();
            assert(ident@ =~= s.subrange(p0, self.pos as int));
        }
        ident
    }

    /// Skips whitespace characters.
    fn skip_whitespace(&mut self)
        requires
            old(self).wf(),
        ensures
            final(self).input@ == old(self).input@,
            final(self).kinds@ == old(self).kinds@,
            final(self).pos == skip_ws(old(self).input@, old(self).kinds@, old(self).pos as int),
            old(self).pos <= final(self).pos <= final(self).input@.len(),
    {
        let ghost s = self.input@;
        let ghost k = self.kinds@;
        let ghost p0 = self.pos as int;
        while !self.is_eof() && self.current_kind().whitespace
            invariant
                self.input@ == s,
                self.kinds@ == k,
                k.len() == s.len(),
                0 <= p0 <= self.pos <= s.len(),
                skip_ws(s, k, self.pos as int) == skip_ws(s, k, p0),
            decreases s.len() - self.pos,
        {
            self.advance();
        }
    }

    /// The current character.
    fn current(&self) -> (c: char)
        requires
            self.pos < self.input@.len(),
        ensures
            c == self.input@[self.pos as int],
    {
        self.input[self.pos]
    }

    /// The kind of the current character.
    fn current_kind(&self) -> (c: CharKind)
        requires
            self.wf(),
            self.pos < self.input@.len(),
        ensures
            c == self.kinds@[self.pos as int],
    {
        self.kinds[self.pos]
    }

    /// Whether all input has been read.
    fn is_eof(&self) -> (r: bool)
        ensures
            r == (self.pos >= self.input@.len()),
    {
        self.pos >= self.input.len()
    }

    /// Moves to the next character, unless at the end.
    fn advance(&mut self)
        requires
            old(self).wf(),
        ensures
            final(self).input == old(self).input,
            final(self).kinds == old(self).kinds,
            final(self).pos == if old(self).pos < old(self).input@.len() {
                old(self).pos + 1
            } else {
                old(self).pos as int
            },
    {
        if self.pos < self.input.len() {
            self.pos += 1;
        }
    }

    /// Consumes `expected` if it is the current character.
    fn match_char(&mut self, expected: char) -> (r: bool)
        requires
            old(self).wf(),
        ensures
            final(self).input == old(self).input,
            final(self).kinds == old(self).kinds,
            r == (old(self).pos < old(self).input@.len() && old(self).input@[old(self).pos as int] == expected),
            final(self).pos == if r { old(self).pos + 1 } else { old(self).pos as int },
    {
        if !self.is_eof() && self.current() == expected {
            self.advance();
            true
        } else {
            false
        }
    }
}

/// Parses a LaTeX math expression into a `MathNode` tree.
pub fn parse_latex(latex: &str) -> (r: MathNode)
    ensures
        r@ == latex_tree(latex@),
{
    let mut parser = MathParser::new(latex);
    parser.parse()
}

} // verus!
