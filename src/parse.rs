use crate::node::{
    all_well_formed, well_formed, lemma_distribute_well_formed,
    Nodes,
    distribute, has_tag, lemma_models_drop_first, lemma_models_prepend, lemma_models_push, model,
    models, negate, Node, Tree,
};
use crate::token::{texts, values_below, Token, Tokens};
use vstd::prelude::*;

verus! {

/// Why a token sequence is not a query.
#[derive(Clone, Copy, Debug, PartialEq, Eq, Structural)]
pub enum ParseError {
    /// A `(` without its `)`, or a `)` without its `(`.
    UnmatchedParenthesis,
    /// An operator without an operand on a side where it needs one.
    MissingOperand,
    /// A scoping whose category or value side holds a scoping.
    InvalidTagNesting,
}

/// A binary operator between two operands.
#[derive(Clone, Copy, Debug, PartialEq, Eq, Structural)]
pub enum Operator {
    And,
    Or,
    Tag,
}

/// The state of the right-to-left scan of a range of tokens: the nesting
/// depth, where the outermost open group ends, the pending operand, and the
/// operands and operators to its right, in query order.
pub struct Scan {
    pub nest: int,
    pub start: int,
    pub cur: Option<Tree>,
    pub xs: Seq<Tree>,
    pub ops: Seq<Operator>,
}

/// A new pending operand; one pending already joins the list by juxtaposition.
pub open spec fn push_operand(s: Scan, n: Tree) -> Scan {
    match s.cur {
        Some(c) => Scan { xs: seq![c] + s.xs, ops: seq![Operator::And] + s.ops, cur: Some(n), ..s },
        None => Scan { cur: Some(n), ..s },
    }
}

pub open spec fn push_operator(s: Scan, op: Operator) -> Result<Scan, ParseError> {
    match s.cur {
        Some(c) => Ok(Scan { xs: seq![c] + s.xs, ops: seq![op] + s.ops, cur: None, ..s }),
        None => Err(ParseError::MissingOperand),
    }
}

/// The scan of `t[i..hi)`, the tokens from `i` on of the range `t[lo..hi)`.
pub open spec fn scan(t: Seq<Token>, lo: int, hi: int, i: int) -> Result<Scan, ParseError>
    decreases hi - lo, hi - i,
{
    if i >= hi || i < lo {
        Ok(Scan { nest: 0, start: hi, cur: None, xs: seq![], ops: seq![] })
    } else {
        match scan(t, lo, hi, i + 1) {
            Err(e) => Err(e),
            Ok(s) => {
                if t[i] is CloseParen {
                    Ok(Scan { nest: s.nest + 1, start: if s.nest == 0 { i } else { s.start }, ..s })
                } else if t[i] is OpenParen {
                    if s.nest <= 0 {
                        Err(ParseError::UnmatchedParenthesis)
                    } else if s.nest > 1 {
                        Ok(Scan { nest: s.nest - 1, ..s })
                    } else if i < s.start && s.start < hi {
                        match parse_range(t, i + 1, s.start) {
                            Err(e) => Err(e),
                            Ok(n) => Ok(push_operand(Scan { nest: 0, ..s }, n)),
                        }
                    } else {
                        Err(ParseError::UnmatchedParenthesis)
                    }
                } else if s.nest > 0 {
                    Ok(s)
                } else {
                    match t[i] {
                        Token::Value(v) => Ok(push_operand(s, Tree::Value(v))),
                        Token::Not => match s.cur {
                            Some(c) => Ok(Scan { cur: Some(negate(c)), ..s }),
                            None => Err(ParseError::MissingOperand),
                        },
                        Token::And => push_operator(s, Operator::And),
                        Token::Or => push_operator(s, Operator::Or),
                        _ => push_operator(s, Operator::Tag),
                    }
                }
            },
        }
    }
}

/// The tree of the tokens `t[lo..hi)`; an empty range is the empty tree.
pub open spec fn parse_range(t: Seq<Token>, lo: int, hi: int) -> Result<Tree, ParseError>
    decreases hi - lo, hi - lo + 1,
{
    if lo >= hi {
        Ok(Tree::Empty)
    } else {
        match scan(t, lo, hi, lo) {
            Err(e) => Err(e),
            Ok(s) => if s.nest != 0 {
                Err(ParseError::UnmatchedParenthesis)
            } else {
                match s.cur {
                    None => Err(ParseError::MissingOperand),
                    Some(c) => combine(seq![c] + s.xs, s.ops),
                }
            },
        }
    }
}

/// The tree of a whole token sequence.
pub open spec fn parse_tokens(t: Seq<Token>) -> Result<Tree, ParseError> {
    parse_range(t, 0, t.len() as int)
}

/// The operands and operators after every scoping has been resolved, from
/// left to right: the category on the left of a `:` is distributed over
/// the value expression on its right and leaves the lists. An empty group on
/// either side is a missing operand; a scoping on either side is a nested one.
pub open spec fn resolve_tags(xs: Seq<Tree>, ops: Seq<Operator>) -> Result<
    (Seq<Tree>, Seq<Operator>),
    ParseError,
>
    decreases ops.len(),
{
    if ops.len() == 0 || xs.len() < 2 {
        Ok((xs, ops))
    } else if ops[0] == Operator::Tag {
        let c = xs[0];
        let v = xs[1];
        if c is Empty || v is Empty {
            Err(ParseError::MissingOperand)
        } else if has_tag(c) || has_tag(v) {
            Err(ParseError::InvalidTagNesting)
        } else {
            resolve_tags(seq![distribute(c, v)] + xs.subrange(2, xs.len() as int), ops.drop_first())
        }
    } else {
        match resolve_tags(xs.drop_first(), ops.drop_first()) {
            Err(e) => Err(e),
            Ok(r) => Ok((seq![xs[0]] + r.0, seq![ops[0]] + r.1)),
        }
    }
}

/// The trees of a sequence without its empty trees.
pub open spec fn drop_empty(s: Seq<Tree>) -> Seq<Tree>
    decreases s.len(),
{
    if s.len() == 0 {
        s
    } else {
        let p = drop_empty(s.drop_last());
        if s.last() is Empty {
            p
        } else {
            p.push(s.last())
        }
    }
}

/// One n-ary node for a run of operands joined by `op`; empty trees drop
/// out, and a run of nothing but empty trees is empty.
pub open spec fn join(run: Seq<Tree>, op: Operator) -> Tree {
    if run.len() == 1 {
        run[0]
    } else {
        let kept = drop_empty(run);
        if kept.len() == 0 {
            Tree::Empty
        } else if op == Operator::And {
            Tree::And(kept)
        } else {
            Tree::Or(kept)
        }
    }
}

/// Every maximal run of operands joined by `op` merged into one node, the
/// run so far being `run`; other operators stay, in order.
pub open spec fn group(run: Seq<Tree>, xs: Seq<Tree>, ops: Seq<Operator>, op: Operator) -> (
    Seq<Tree>,
    Seq<Operator>,
)
    decreases ops.len(),
{
    if xs.len() == 0 {
        (seq![], seq![])
    } else if ops.len() == 0 {
        (seq![join(run.push(xs[0]), op)], seq![])
    } else if ops[0] == op {
        group(run.push(xs[0]), xs.drop_first(), ops.drop_first(), op)
    } else {
        let r = group(seq![], xs.drop_first(), ops.drop_first(), op);
        (seq![join(run.push(xs[0]), op)] + r.0, seq![ops[0]] + r.1)
    }
}

/// Scopings first, then conjunctions, then disjunctions.
pub open spec fn combine(xs: Seq<Tree>, ops: Seq<Operator>) -> Result<Tree, ParseError> {
    match resolve_tags(xs, ops) {
        Err(e) => Err(e),
        Ok(r) => {
            let a = group(seq![], r.0, r.1, Operator::And);
            let o = group(seq![], a.0, a.1, Operator::Or);
            Ok(o.0[0])
        },
    }
}

pub open spec fn lift(r: Result<Node, ParseError>) -> Result<Tree, ParseError> {
    match r {
        Ok(n) => Ok(model(n)),
        Err(e) => Err(e),
    }
}

/// The lists `a` and `b` in front of a result's lists.
pub open spec fn prefixed(a: Seq<Tree>, b: Seq<Operator>, r: Result<(Seq<Tree>, Seq<Operator>), ParseError>) -> Result<
    (Seq<Tree>, Seq<Operator>),
    ParseError,
> {
    match r {
        Err(e) => Err(e),
        Ok(p) => Ok((a + p.0, b + p.1)),
    }
}

pub open spec fn lift_lists(r: Result<(Vec<Node>, Vec<Operator>), ParseError>) -> Result<
    (Seq<Tree>, Seq<Operator>),
    ParseError,
> {
    match r {
        Err(e) => Err(e),
        Ok(p) => Ok((models(p.0@), p.1@)),
    }
}

/// Resolves every scoping, left to right, as `resolve_tags` says.
fn resolve(xs0: Vec<Node>, ops0: Vec<Operator>) -> (r: Result<(Vec<Node>, Vec<Operator>), ParseError>)
    requires
        xs0.len() == ops0.len() + 1,
    ensures
        resolve_tags(models(xs0@), ops0@) == lift_lists(r),
        r matches Ok(p) ==> p.0.len() == p.1.len() + 1,
{
    let ghost x0 = models(xs0@);
    let ghost o0 = ops0@;
    let mut xs = xs0;
    let mut ops = ops0;
    let mut out_xs: Vec<Node> = Vec::new();
    let mut out_ops: Vec<Operator> = Vec::new();
    while ops.len() > 0
        invariant
            xs.len() == ops.len() + 1,
            out_xs.len() == out_ops.len(),
            x0 == models(xs0@),
            o0 == ops0@,
            resolve_tags(x0, o0) == prefixed(models(out_xs@), out_ops@, resolve_tags(models(xs@), ops@)),
        decreases ops.len(),
    {
        let ghost xv = xs@;
        let ghost ov = ops@;
        let op = ops.remove(0);
        let x = xs.remove(0);
        proof {
            lemma_models_drop_first(xv);
            assert(ov.drop_first() =~= ops@);
            assert(xv.drop_first() =~= xs@);
        }
        if op == Operator::Tag {
            let ghost xv1 = xs@;
            let v = xs.remove(0);
            proof {
                lemma_models_drop_first(xv1);
                assert(xv1.drop_first() =~= xs@);
                crate::node::lemma_models(xv);
                crate::node::lemma_models(xs@);
                assert(models(xv).subrange(2, xv.len() as int) =~= models(xs@));
                assert(models(xv)[1] == model(v));
            }
            assert(ov[0] == Operator::Tag);
            assert(models(xv)[0] == model(x));
            if x.is_none() || v.is_none() {
                assert(resolve_tags(models(xv), ov) == Err::<(Seq<Tree>, Seq<Operator>), _>(ParseError::MissingOperand));
                return Err(ParseError::MissingOperand);
            }
            if x.has_tag() || v.has_tag() {
                return Err(ParseError::InvalidTagNesting);
            }
            let d = v.to_tags(&x);
            proof {
                lemma_models_prepend(d, xs@);
            }
            let ghost rest = xs@;
            xs.insert(0, d);
            assert(xs@ =~= seq![d] + rest);
        } else {
            proof {
                let rest = resolve_tags(models(xs@), ops@);
                lemma_models_push(out_xs@, x);
                match rest {
                    Ok(p) => {
                        assert(models(out_xs@).push(model(x)) + p.0 =~= models(out_xs@) + (seq![model(x)] + p.0));
                        assert(out_ops@.push(op) + p.1 =~= out_ops@ + (seq![op] + p.1));
                    },
                    Err(_) => {},
                }
            }
            out_xs.push(x);
            out_ops.push(op);
        }
    }
    let ghost xv = xs@;
    let last = xs.remove(0);
    proof {
        lemma_models_push(out_xs@, last);
        lemma_models_drop_first(xv);
        assert(xv =~= seq![last]);
        assert(models(xv) =~= seq![model(last)]);
        assert(models(out_xs@) + models(xv) =~= models(out_xs@).push(model(last)));
        assert(out_ops@ + ops@ =~= out_ops@);
    }
    out_xs.push(last);
    Ok((out_xs, out_ops))
}

/// The n-ary node for a run, as `join` says.
fn join_run(run: Vec<Node>, op: Operator) -> (r: Node)
    requires
        run.len() > 0,
    ensures
        model(r) == join(models(run@), op),
{
    let ghost rv = run@;
    proof {
        crate::node::lemma_models(rv);
    }
    let mut run = run;
    if run.len() == 1 {
        return run.remove(0);
    }
    let mut kept: Vec<Node> = Vec::new();
    let ghost mut taken: Seq<Tree> = seq![];
    assert(models(rv) =~= taken + models(run@));
    while run.len() > 0
        invariant
            models(rv) == taken + models(run@),
            models(kept@) == drop_empty(taken),
        decreases run.len(),
    {
        let ghost before = run@;
        let n = run.remove(0);
        proof {
            lemma_models_drop_first(before);
            assert(before.drop_first() =~= run@);
            let t2 = taken.push(model(n));
            assert(t2.drop_last() =~= taken);
            assert(taken + models(before) =~= t2 + models(run@));
            taken = t2;
        }
        if !n.is_none() {
            proof {
                lemma_models_push(kept@, n);
            }
            kept.push(n);
        }
    }
    assert(taken =~= models(rv));
    if kept.len() == 0 {
        Node::Empty
    } else if op == Operator::And {
        Node::And(kept)
    } else {
        Node::Or(kept)
    }
}

/// The lists `a` and `b` in front of a pair of lists.
pub open spec fn after(a: Seq<Tree>, b: Seq<Operator>, g: (Seq<Tree>, Seq<Operator>)) -> (
    Seq<Tree>,
    Seq<Operator>,
) {
    (a + g.0, b + g.1)
}

/// Merges every maximal run of operands joined by `op`, as `group` says.
fn group_runs(xs0: Vec<Node>, ops0: Vec<Operator>, op: Operator) -> (r: (Vec<Node>, Vec<Operator>))
    requires
        xs0.len() == ops0.len() + 1,
    ensures
        group(seq![], models(xs0@), ops0@, op) == (models(r.0@), r.1@),
        r.0.len() == r.1.len() + 1,
{
    let ghost x0 = models(xs0@);
    let ghost o0 = ops0@;
    let mut xs = xs0;
    let mut ops = ops0;
    let mut out_xs: Vec<Node> = Vec::new();
    let mut out_ops: Vec<Operator> = Vec::new();
    let mut run: Vec<Node> = Vec::new();
    assert(models(out_xs@) =~= seq![]);
    assert(models(run@) =~= seq![]);
    assert(after(seq![], seq![], group(seq![], x0, o0, op)) =~= group(seq![], x0, o0, op));
    while ops.len() > 0
        invariant
            xs.len() == ops.len() + 1,
            out_xs.len() == out_ops.len(),
            x0 == models(xs0@),
            o0 == ops0@,
            group(seq![], x0, o0, op) == after(models(out_xs@), out_ops@, group(models(run@), models(xs@), ops@, op)),
        decreases ops.len(),
    {
        let ghost xv = xs@;
        let ghost ov = ops@;
        let o = ops.remove(0);
        let x = xs.remove(0);
        proof {
            lemma_models_drop_first(xv);
            assert(ov.drop_first() =~= ops@);
            assert(xv.drop_first() =~= xs@);
            crate::node::lemma_models(xv);
            lemma_models_push(run@, x);
        }
        run.push(x);
        if o != op {
            let n = join_run(run, op);
            run = Vec::new();
            proof {
                assert(models(run@) =~= seq![]);
                lemma_models_push(out_xs@, n);
                let g = group(seq![], models(xs@), ops@, op);
                assert(models(out_xs@).push(model(n)) + g.0 =~= models(out_xs@) + (seq![model(n)] + g.0));
                assert(out_ops@.push(o) + g.1 =~= out_ops@ + (seq![o] + g.1));
            }
            out_xs.push(n);
            out_ops.push(o);
        }
    }
    let ghost xv = xs@;
    let x = xs.remove(0);
    proof {
        lemma_models_drop_first(xv);
        lemma_models_push(run@, x);
    }
    run.push(x);
    let n = join_run(run, op);
    proof {
        lemma_models_push(out_xs@, n);
        assert(models(out_xs@) + seq![model(n)] =~= models(out_xs@).push(model(n)));
        assert(out_ops@ + seq![] =~= out_ops@);
    }
    out_xs.push(n);
    (out_xs, out_ops)
}

/// Resolves scopings, then conjunctions, then disjunctions, as `combine` says.
fn combine_all(xs: Vec<Node>, ops: Vec<Operator>) -> (r: Result<Node, ParseError>)
    requires
        xs.len() == ops.len() + 1,
    ensures
        lift(r) == combine(models(xs@), ops@),
{
    match resolve(xs, ops) {
        Err(e) => Err(e),
        Ok((a, b)) => {
            let (c, d) = group_runs(a, b, Operator::And);
            let (e, f) = group_runs(c, d, Operator::Or);
            let ghost ev = e@;
            let mut e = e;
            let root = e.remove(0);
            proof {
                crate::node::lemma_models(ev);
            }
            Ok(root)
        },
    }
}

pub open spec fn lift_opt(o: Option<Node>) -> Option<Tree> {
    match o {
        Some(n) => Some(model(n)),
        None => None,
    }
}

/// The right-to-left scan in progress.
struct Scanner {
    nest: usize,
    start: usize,
    cur: Option<Node>,
    xs: Vec<Node>,
    ops: Vec<Operator>,
}

impl Scanner {
    spec fn view(&self) -> Scan {
        Scan {
            nest: self.nest as int,
            start: self.start as int,
            cur: lift_opt(self.cur),
            xs: models(self.xs@),
            ops: self.ops@,
        }
    }

    fn push_operand(&mut self, n: Node)
        ensures
            final(self).view() == push_operand(old(self).view(), model(n)),
            final(self).nest == old(self).nest,
            final(self).start == old(self).start,
            final(self).xs.len() - final(self).ops.len() == old(self).xs.len() - old(self).ops.len(),
    {
        let cur = self.cur.take();
        if let Some(c) = cur {
            proof {
                lemma_models_prepend(c, self.xs@);
            }
            let ghost xv = self.xs@;
            let ghost ov = self.ops@;
            self.xs.insert(0, c);
            self.ops.insert(0, Operator::And);
            assert(self.xs@ =~= seq![c] + xv);
            assert(self.ops@ =~= seq![Operator::And] + ov);
        }
        self.cur = Some(n);
    }

    fn push_operator(&mut self, op: Operator) -> (r: Result<(), ParseError>)
        ensures
            match push_operator(old(self).view(), op) {
                Ok(s) => r is Ok && final(self).view() == s,
                Err(e) => r == Err::<(), ParseError>(e),
            },
            final(self).nest == old(self).nest,
            final(self).start == old(self).start,
            final(self).xs.len() - final(self).ops.len() == old(self).xs.len() - old(self).ops.len(),
    {
        let cur = self.cur.take();
        match cur {
            Some(c) => {
                proof {
                    lemma_models_prepend(c, self.xs@);
                }
                let ghost xv = self.xs@;
                let ghost ov = self.ops@;
                self.xs.insert(0, c);
                self.ops.insert(0, op);
                assert(self.xs@ =~= seq![c] + xv);
                assert(self.ops@ =~= seq![op] + ov);
                Ok(())
            },
            None => Err(ParseError::MissingOperand),
        }
    }
}

/// An error at some point of the scan is the error of the whole scan.
proof fn lemma_scan_err(t: Seq<Token>, lo: int, hi: int, i: int)
    requires
        lo <= i <= hi,
        scan(t, lo, hi, i) is Err,
    ensures
        scan(t, lo, hi, lo) == scan(t, lo, hi, i),
    decreases i - lo,
{
    if i > lo {
        lemma_scan_err(t, lo, hi, i - 1);
    }
}

/// Parses the tokens `t[lo..hi)`: one right-to-left scan, with a recursive
/// call for each outermost parenthesised group.
fn parse_tokens_in(t: &Vec<Token>, lo: usize, hi: usize) -> (r: Result<Node, ParseError>)
    requires
        lo <= hi <= t.len(),
    ensures
        lift(r) == parse_range(t@, lo as int, hi as int),
    decreases hi - lo,
{
    if lo >= hi {
        return Ok(Node::Empty);
    }
    let mut sc = Scanner { nest: 0, start: hi, cur: None, xs: Vec::new(), ops: Vec::new() };
    assert(models(sc.xs@) =~= seq![]);
    assert(sc.ops@ =~= seq![]);
    let mut i: usize = hi;
    while i > lo
        invariant
            lo <= i <= hi <= t.len(),
            sc.nest <= hi - i,
            sc.nest > 0 ==> i <= sc.start < hi,
            sc.xs.len() == sc.ops.len(),
            scan(t@, lo as int, hi as int, i as int) == Ok::<Scan, ParseError>(sc.view()),
        decreases i - lo,
    {
        i = i - 1;
        match t[i] {
            Token::CloseParen => {
                if sc.nest == 0 {
                    sc.start = i;
                }
                sc.nest = sc.nest + 1;
            },
            Token::OpenParen => {
                if sc.nest == 0 {
                    proof {
                        lemma_scan_err(t@, lo as int, hi as int, i as int);
                    }
                    return Err(ParseError::UnmatchedParenthesis);
                } else if sc.nest > 1 {
                    sc.nest = sc.nest - 1;
                } else {
                    match parse_tokens_in(t, i + 1, sc.start) {
                        Err(e) => {
                            proof {
                                lemma_scan_err(t@, lo as int, hi as int, i as int);
                            }
                            return Err(e);
                        },
                        Ok(n) => {
                            sc.nest = 0;
                            sc.push_operand(n);
                        },
                    }
                }
            },
            _ if sc.nest > 0 => {},
            Token::Value(v) => {
                sc.push_operand(Node::Value(v));
            },
            Token::Not => {
                let cur = sc.cur.take();
                match cur {
                    Some(c) => {
                        sc.cur = Some(c.not());
                    },
                    None => {
                        proof {
                            lemma_scan_err(t@, lo as int, hi as int, i as int);
                        }
                        return Err(ParseError::MissingOperand);
                    },
                }
            },
            Token::And | Token::Or | Token::Split => {
                let op = match t[i] {
                    Token::And => Operator::And,
                    Token::Or => Operator::Or,
                    _ => Operator::Tag,
                };
                match sc.push_operator(op) {
                    Ok(()) => {},
                    Err(e) => {
                        proof {
                            lemma_scan_err(t@, lo as int, hi as int, i as int);
                        }
                        return Err(e);
                    },
                }
            },
        }
    }
    if sc.nest != 0 {
        return Err(ParseError::UnmatchedParenthesis);
    }
    match sc.cur {
        None => Err(ParseError::MissingOperand),
        Some(c) => {
            proof {
                lemma_models_prepend(c, sc.xs@);
            }
            let mut xs = sc.xs;
            xs.insert(0, c);
            assert(xs@ =~= seq![c] + sc.xs@);
            combine_all(xs, sc.ops)
        },
    }
}

impl Tokens {
    /// Parses the tokens into a tree, handing the value table on with it. The
    /// tree is well formed: its indices are valid for the table, and no
    /// negation stands directly under another.
    pub fn parse(self) -> (r: Result<Nodes, ParseError>)
        ensures
            match parse_tokens(self.token_seq()) {
                Ok(tree) => r matches Ok(n) && model(n.node) == tree && texts(n.values@) == self.value_seq()
                    && well_formed(tree, n.values.len() as nat),
                Err(e) => r == Err::<Nodes, ParseError>(e),
            },
    {
        let (tokens, values) = self.into_parts();
        proof {
            lemma_parse_well_formed(tokens@, 0, tokens.len() as int, values.len() as nat);
        }
        match parse_tokens_in(&tokens, 0, tokens.len()) {
            Ok(node) => Ok(Nodes { node, values }),
            Err(e) => Err(e),
        }
    }
}

proof fn lemma_drop_empty_well_formed(s: Seq<Tree>, n: nat)
    requires
        all_well_formed(s, n),
    ensures
        all_well_formed(drop_empty(s), n),
    decreases s.len(),
{
    if s.len() > 0 {
        lemma_drop_empty_well_formed(s.drop_last(), n);
        assert(well_formed(s[s.len() - 1], n));
    }
}

proof fn lemma_join_well_formed(run: Seq<Tree>, op: Operator, n: nat)
    requires
        all_well_formed(run, n),
        run.len() > 0,
    ensures
        well_formed(join(run, op), n),
{
    lemma_drop_empty_well_formed(run, n);
}

proof fn lemma_group_well_formed(run: Seq<Tree>, xs: Seq<Tree>, ops: Seq<Operator>, op: Operator, n: nat)
    requires
        all_well_formed(run, n),
        all_well_formed(xs, n),
        xs.len() == ops.len() + 1,
    ensures
        all_well_formed(group(run, xs, ops, op).0, n),
        group(run, xs, ops, op).0.len() == group(run, xs, ops, op).1.len() + 1,
    decreases ops.len(),
{
    assert(well_formed(xs[0], n));
    assert(all_well_formed(run.push(xs[0]), n));
    if ops.len() == 0 {
        lemma_join_well_formed(run.push(xs[0]), op, n);
    } else if ops[0] == op {
        lemma_group_well_formed(run.push(xs[0]), xs.drop_first(), ops.drop_first(), op, n);
    } else {
        lemma_join_well_formed(run.push(xs[0]), op, n);
        lemma_group_well_formed(seq![], xs.drop_first(), ops.drop_first(), op, n);
    }
}

proof fn lemma_resolve_well_formed(xs: Seq<Tree>, ops: Seq<Operator>, n: nat)
    requires
        all_well_formed(xs, n),
        xs.len() == ops.len() + 1,
    ensures
        resolve_tags(xs, ops) matches Ok(r) ==> all_well_formed(r.0, n) && r.0.len() == r.1.len() + 1,
    decreases ops.len(),
{
    if ops.len() == 0 || xs.len() < 2 {
    } else if ops[0] == Operator::Tag {
        let c = xs[0];
        let v = xs[1];
        if !(c is Empty || v is Empty) && !(has_tag(c) || has_tag(v)) {
            lemma_distribute_well_formed(c, v, n);
            let rest = seq![distribute(c, v)] + xs.subrange(2, xs.len() as int);
            assert(all_well_formed(rest, n));
            lemma_resolve_well_formed(rest, ops.drop_first(), n);
        }
    } else {
        lemma_resolve_well_formed(xs.drop_first(), ops.drop_first(), n);
    }
}

proof fn lemma_combine_well_formed(xs: Seq<Tree>, ops: Seq<Operator>, n: nat)
    requires
        all_well_formed(xs, n),
        xs.len() == ops.len() + 1,
    ensures
        combine(xs, ops) matches Ok(t) ==> well_formed(t, n),
{
    lemma_resolve_well_formed(xs, ops, n);
    if let Ok(r) = resolve_tags(xs, ops) {
        lemma_group_well_formed(seq![], r.0, r.1, Operator::And, n);
        let a = group(seq![], r.0, r.1, Operator::And);
        lemma_group_well_formed(seq![], a.0, a.1, Operator::Or, n);
    }
}

proof fn lemma_scan_well_formed(t: Seq<Token>, lo: int, hi: int, i: int, n: nat)
    requires
        0 <= lo <= hi <= t.len(),
        values_below(t, n),
    ensures
        scan(t, lo, hi, i) matches Ok(s) ==> all_well_formed(s.xs, n) && (s.cur matches Some(c) ==> well_formed(c, n))
            && s.xs.len() == s.ops.len(),
    decreases hi - lo, hi - i,
{
    if i >= hi || i < lo {
    } else {
        lemma_scan_well_formed(t, lo, hi, i + 1, n);
        if let Ok(s) = scan(t, lo, hi, i + 1) {
            if t[i] is OpenParen && s.nest == 1 && i < s.start && s.start < hi {
                lemma_parse_well_formed(t, i + 1, s.start, n);
            }
            if let Some(c) = s.cur {
                assert(all_well_formed(seq![c] + s.xs, n));
            }
        }
    }
}

proof fn lemma_parse_well_formed(t: Seq<Token>, lo: int, hi: int, n: nat)
    requires
        0 <= lo <= hi <= t.len(),
        values_below(t, n),
    ensures
        parse_range(t, lo, hi) matches Ok(tree) ==> well_formed(tree, n),
    decreases hi - lo, hi - lo + 1,
{
    if lo < hi {
        lemma_scan_well_formed(t, lo, hi, lo, n);
        if let Ok(s) = scan(t, lo, hi, lo) {
            if let Some(c) = s.cur {
                assert(all_well_formed(seq![c] + s.xs, n));
                lemma_combine_well_formed(seq![c] + s.xs, s.ops, n);
            }
        }
    }
}

} // verus!
