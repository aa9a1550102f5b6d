use crate::token::texts;
use vstd::prelude::*;

verus! {

/// A node of a parsed query. `Tag` holds the category first, then the value;
/// `Tag` and `Value` hold positions in the value table.
#[derive(Debug, PartialEq)]
pub enum Node {
    And(Vec<Node>),
    Or(Vec<Node>),
    Not(Box<Node>),
    Tag(usize, usize),
    Value(usize),
    Empty,
}

/// A parsed query: the root of its tree and the value table that the
/// tree's `Tag` and `Value` nodes refer to.
#[derive(Debug)]
pub struct Nodes {
    pub node: Node,
    pub values: Vec<String>,
}

/// The mathematical form of a `Node`.
pub enum Tree {
    And(Seq<Tree>),
    Or(Seq<Tree>),
    Not(Box<Tree>),
    Tag(usize, usize),
    Value(usize),
    Empty,
}

pub open spec fn model(n: Node) -> Tree
    decreases n,
{
    match n {
        Node::And(v) => Tree::And(models(v@)),
        Node::Or(v) => Tree::Or(models(v@)),
        Node::Not(b) => Tree::Not(Box::new(model(*b))),
        Node::Tag(c, v) => Tree::Tag(c, v),
        Node::Value(i) => Tree::Value(i),
        Node::Empty => Tree::Empty,
    }
}

pub open spec fn models(s: Seq<Node>) -> Seq<Tree>
    decreases s,
{
    if s.len() == 0 {
        seq![]
    } else {
        models(s.subrange(0, s.len() - 1)).push(model(s[s.len() - 1]))
    }
}

pub proof fn lemma_models(s: Seq<Node>)
    ensures
        models(s).len() == s.len(),
        forall|i: int| 0 <= i < s.len() ==> #[trigger] models(s)[i] == model(s[i]),
    decreases s.len(),
{
    if s.len() > 0 {
        lemma_models(s.subrange(0, s.len() - 1));
    }
}

pub proof fn lemma_models_push(s: Seq<Node>, n: Node)
    ensures
        models(s.push(n)) == models(s).push(model(n)),
{
    assert(s.push(n).subrange(0, s.len() as int) =~= s);
}

pub proof fn lemma_models_drop_first(s: Seq<Node>)
    requires
        s.len() > 0,
    ensures
        models(s.drop_first()) == models(s).drop_first(),
        models(s)[0] == model(s[0]),
{
    lemma_models(s);
    lemma_models(s.drop_first());
    assert(models(s.drop_first()) =~= models(s).drop_first());
}

pub proof fn lemma_models_prepend(n: Node, s: Seq<Node>)
    ensures
        models(seq![n] + s) == seq![model(n)] + models(s),
{
    lemma_models(s);
    lemma_models(seq![n] + s);
    assert(models(seq![n] + s) =~= seq![model(n)] + models(s));
}

/// Negation; a double negation cancels, and the empty tree stays empty.
pub open spec fn negate(t: Tree) -> Tree {
    match t {
        Tree::Not(b) => *b,
        Tree::Empty => Tree::Empty,
        _ => Tree::Not(Box::new(t)),
    }
}

/// Whether a tree holds a `Tag` anywhere.
pub open spec fn has_tag(t: Tree) -> bool
    decreases t,
{
    match t {
        Tree::And(cs) => any_tag(cs),
        Tree::Or(cs) => any_tag(cs),
        Tree::Not(b) => has_tag(*b),
        Tree::Tag(_, _) => true,
        _ => false,
    }
}

pub open spec fn any_tag(cs: Seq<Tree>) -> bool
    decreases cs,
{
    if cs.len() == 0 {
        false
    } else {
        any_tag(cs.subrange(0, cs.len() - 1)) || has_tag(cs[cs.len() - 1])
    }
}

/// The category template `t` with each of its literals `c` turned into `Tag(c, v)`.
pub open spec fn tag_leaves(t: Tree, v: usize) -> Tree
    decreases t,
{
    match t {
        Tree::And(cs) => Tree::And(tag_all(cs, v)),
        Tree::Or(cs) => Tree::Or(tag_all(cs, v)),
        Tree::Not(b) => Tree::Not(Box::new(tag_leaves(*b, v))),
        Tree::Value(c) => Tree::Tag(c, v),
        _ => t,
    }
}

pub open spec fn tag_all(cs: Seq<Tree>, v: usize) -> Seq<Tree>
    decreases cs,
{
    if cs.len() == 0 {
        seq![]
    } else {
        tag_all(cs.subrange(0, cs.len() - 1), v).push(tag_leaves(cs[cs.len() - 1], v))
    }
}

/// The value expression `e` with each of its literals `v` replaced by the
/// template tagged with `v`: the Cartesian distribution of a scoping.
pub open spec fn distribute(template: Tree, e: Tree) -> Tree
    decreases e,
{
    match e {
        Tree::And(cs) => Tree::And(distribute_all(template, cs)),
        Tree::Or(cs) => Tree::Or(distribute_all(template, cs)),
        Tree::Not(b) => negate(distribute(template, *b)),
        Tree::Value(v) => tag_leaves(template, v),
        _ => e,
    }
}

pub open spec fn distribute_all(template: Tree, cs: Seq<Tree>) -> Seq<Tree>
    decreases cs,
{
    if cs.len() == 0 {
        seq![]
    } else {
        distribute_all(template, cs.subrange(0, cs.len() - 1)).push(
            distribute(template, cs[cs.len() - 1]),
        )
    }
}

/// Every index in the tree is below `n`, so valid for a value table of `n`
/// entries, and no negation stands directly under another negation.
pub open spec fn well_formed(t: Tree, n: nat) -> bool
    decreases t,
{
    match t {
        Tree::And(cs) => all_well_formed(cs, n),
        Tree::Or(cs) => all_well_formed(cs, n),
        Tree::Not(b) => !(*b is Not) && well_formed(*b, n),
        Tree::Tag(c, v) => c < n && v < n,
        Tree::Value(i) => i < n,
        Tree::Empty => true,
    }
}

pub open spec fn all_well_formed(s: Seq<Tree>, n: nat) -> bool
    decreases s,
{
    forall|i: int| 0 <= i < s.len() ==> well_formed(#[trigger] s[i], n)
}

proof fn lemma_tag_all(cs: Seq<Tree>, v: usize)
    ensures
        tag_all(cs, v).len() == cs.len(),
        forall|i: int| 0 <= i < cs.len() ==> #[trigger] tag_all(cs, v)[i] == tag_leaves(cs[i], v),
    decreases cs.len(),
{
    if cs.len() > 0 {
        lemma_tag_all(cs.subrange(0, cs.len() - 1), v);
    }
}

proof fn lemma_distribute_all(template: Tree, cs: Seq<Tree>)
    ensures
        distribute_all(template, cs).len() == cs.len(),
        forall|i: int|
            0 <= i < cs.len() ==> #[trigger] distribute_all(template, cs)[i] == distribute(template, cs[i]),
    decreases cs.len(),
{
    if cs.len() > 0 {
        lemma_distribute_all(template, cs.subrange(0, cs.len() - 1));
    }
}

pub proof fn lemma_tag_well_formed(t: Tree, v: usize, n: nat)
    requires
        well_formed(t, n),
        v < n,
    ensures
        well_formed(tag_leaves(t, v), n),
    decreases t,
{
    match t {
        Tree::And(cs) => {
            lemma_tag_all(cs, v);
            assert forall|i: int| 0 <= i < cs.len() implies well_formed(#[trigger] tag_all(cs, v)[i], n) by {
                assert(all_well_formed(cs, n));
                assert(well_formed(cs[i], n));
                lemma_tag_well_formed(cs[i], v, n);
            }
            assert(all_well_formed(tag_all(cs, v), n));
        },
        Tree::Or(cs) => {
            lemma_tag_all(cs, v);
            assert forall|i: int| 0 <= i < cs.len() implies well_formed(#[trigger] tag_all(cs, v)[i], n) by {
                assert(all_well_formed(cs, n));
                assert(well_formed(cs[i], n));
                lemma_tag_well_formed(cs[i], v, n);
            }
            assert(all_well_formed(tag_all(cs, v), n));
        },
        Tree::Not(b) => lemma_tag_well_formed(*b, v, n),
        _ => {},
    }
}

pub proof fn lemma_distribute_well_formed(template: Tree, e: Tree, n: nat)
    requires
        well_formed(template, n),
        well_formed(e, n),
    ensures
        well_formed(distribute(template, e), n),
    decreases e,
{
    match e {
        Tree::And(cs) => {
            lemma_distribute_all(template, cs);
            assert forall|i: int| 0 <= i < cs.len() implies well_formed(
                #[trigger] distribute_all(template, cs)[i],
                n,
            ) by {
                assert(all_well_formed(cs, n));
                assert(well_formed(cs[i], n));
                lemma_distribute_well_formed(template, cs[i], n);
            }
            assert(all_well_formed(distribute_all(template, cs), n));
        },
        Tree::Or(cs) => {
            lemma_distribute_all(template, cs);
            assert forall|i: int| 0 <= i < cs.len() implies well_formed(
                #[trigger] distribute_all(template, cs)[i],
                n,
            ) by {
                assert(all_well_formed(cs, n));
                assert(well_formed(cs[i], n));
                lemma_distribute_well_formed(template, cs[i], n);
            }
            assert(all_well_formed(distribute_all(template, cs), n));
        },
        Tree::Not(b) => lemma_distribute_well_formed(template, *b, n),
        Tree::Value(v) => lemma_tag_well_formed(template, v, n),
        _ => {},
    }
}

impl Node {
    /// Negation, collapsing a double negation.
    pub fn not(self) -> (r: Node)
        ensures
            model(r) == negate(model(self)),
    {
        match self {
            Node::Not(b) => *b,
            Node::Empty => Node::Empty,
            other => Node::Not(Box::new(other)),
        }
    }

    pub fn is_none(&self) -> (r: bool)
        ensures
            r == (model(*self) is Empty),
    {
        match self {
            Node::Empty => true,
            _ => false,
        }
    }

    /// Whether the node holds a `Tag` anywhere.
    pub fn has_tag(&self) -> (r: bool)
        ensures
            r == has_tag(model(*self)),
        decreases self,
    {
        match self {
            Node::And(cs) => Self::any_tag(cs),
            Node::Or(cs) => Self::any_tag(cs),
            Node::Not(b) => b.has_tag(),
            Node::Tag(_, _) => true,
            _ => false,
        }
    }

    fn any_tag(cs: &Vec<Node>) -> (r: bool)
        ensures
            r == any_tag(models(cs@)),
        decreases cs,
    {
        let mut i: usize = 0;
        let mut found = false;
        proof {
            lemma_models(cs@);
        }
        while i < cs.len()
            invariant
                i <= cs.len(),
                models(cs@).len() == cs.len(),
                forall|k: int| 0 <= k < cs.len() ==> #[trigger] models(cs@)[k] == model(cs@[k]),
                found == any_tag(models(cs@).subrange(0, i as int)),
            decreases cs.len() - i,
        {
            let h = cs[i].has_tag();
            proof {
                let s = models(cs@);
                assert(s.subrange(0, i + 1).subrange(0, i as int) =~= s.subrange(0, i as int));
            }
            found = found || h;
            i = i + 1;
        }
        assert(models(cs@).subrange(0, i as int) =~= models(cs@));
        found
    }

    /// The category template with each literal `c` turned into `Tag(c, v)`.
    pub fn to_tag(&self, v: usize) -> (r: Node)
        ensures
            model(r) == tag_leaves(model(*self), v),
        decreases self,
    {
        match self {
            Node::And(cs) => Node::And(Self::to_tag_all(cs, v)),
            Node::Or(cs) => Node::Or(Self::to_tag_all(cs, v)),
            Node::Not(b) => Node::Not(Box::new(b.to_tag(v))),
            Node::Tag(c, x) => Node::Tag(*c, *x),
            Node::Value(c) => Node::Tag(*c, v),
            Node::Empty => Node::Empty,
        }
    }

    fn to_tag_all(cs: &Vec<Node>, v: usize) -> (r: Vec<Node>)
        ensures
            models(r@) == tag_all(models(cs@), v),
        decreases cs,
    {
        let mut out: Vec<Node> = Vec::new();
        let mut i: usize = 0;
        proof {
            lemma_models(cs@);
        }
        while i < cs.len()
            invariant
                i <= cs.len(),
                models(cs@).len() == cs.len(),
                forall|k: int| 0 <= k < cs.len() ==> #[trigger] models(cs@)[k] == model(cs@[k]),
                models(out@) == tag_all(models(cs@).subrange(0, i as int), v),
            decreases cs.len() - i,
        {
            let n = cs[i].to_tag(v);
            proof {
                let s = models(cs@);
                assert(s.subrange(0, i + 1).subrange(0, i as int) =~= s.subrange(0, i as int));
                lemma_models_push(out@, n);
            }
            out.push(n);
            i = i + 1;
        }
        assert(models(cs@).subrange(0, i as int) =~= models(cs@));
        out
    }

    /// This value expression with each literal `v` replaced by `template` tagged with `v`.
    pub fn to_tags(&self, template: &Node) -> (r: Node)
        ensures
            model(r) == distribute(model(*template), model(*self)),
        decreases self,
    {
        match self {
            Node::And(cs) => Node::And(Self::to_tags_all(cs, template)),
            Node::Or(cs) => Node::Or(Self::to_tags_all(cs, template)),
            Node::Not(b) => b.to_tags(template).not(),
            Node::Tag(c, x) => Node::Tag(*c, *x),
            Node::Value(v) => template.to_tag(*v),
            Node::Empty => Node::Empty,
        }
    }

    fn to_tags_all(cs: &Vec<Node>, template: &Node) -> (r: Vec<Node>)
        ensures
            models(r@) == distribute_all(model(*template), models(cs@)),
        decreases cs,
    {
        let mut out: Vec<Node> = Vec::new();
        let mut i: usize = 0;
        proof {
            lemma_models(cs@);
        }
        while i < cs.len()
            invariant
                i <= cs.len(),
                models(cs@).len() == cs.len(),
                forall|k: int| 0 <= k < cs.len() ==> #[trigger] models(cs@)[k] == model(cs@[k]),
                models(out@) == distribute_all(model(*template), models(cs@).subrange(0, i as int)),
            decreases cs.len() - i,
        {
            let n = cs[i].to_tags(template);
            proof {
                let s = models(cs@);
                assert(s.subrange(0, i + 1).subrange(0, i as int) =~= s.subrange(0, i as int));
                lemma_models_push(out@, n);
            }
            out.push(n);
            i = i + 1;
        }
        assert(models(cs@).subrange(0, i as int) =~= models(cs@));
        out
    }
}

/// A tree written out for reading: ` AND(a, b) `, ` OR(a, b) `, ` NOT(a) `,
/// ` category:value `, ` value `, and nothing for the empty tree.
pub open spec fn node_text(t: Tree, vs: Seq<Seq<char>>) -> Seq<char>
    decreases t,
{
    match t {
        Tree::And(cs) => seq![' ', 'A', 'N', 'D', '('] + list_text(cs, vs) + seq![')', ' '],
        Tree::Or(cs) => seq![' ', 'O', 'R', '('] + list_text(cs, vs) + seq![')', ' '],
        Tree::Not(b) => seq![' ', 'N', 'O', 'T', '('] + node_text(*b, vs) + seq![')', ' '],
        Tree::Tag(c, v) => seq![' '] + vs[c as int] + seq![':'] + vs[v as int] + seq![' '],
        Tree::Value(i) => seq![' '] + vs[i as int] + seq![' '],
        Tree::Empty => seq![],
    }
}

/// Trees written out one after another, separated by `, `.
pub open spec fn list_text(cs: Seq<Tree>, vs: Seq<Seq<char>>) -> Seq<char>
    decreases cs,
{
    if cs.len() == 0 {
        seq![]
    } else if cs.len() == 1 {
        node_text(cs[0], vs)
    } else {
        list_text(cs.subrange(0, cs.len() - 1), vs) + seq![',', ' '] + node_text(cs[cs.len() - 1], vs)
    }
}

impl Node {
    /// Appends the text of this node to `out`, as `node_text` says.
    pub fn write_text(&self, values: &Vec<String>, out: &mut String)
        requires
            well_formed(model(*self), values.len() as nat),
        ensures
            final(out)@ == old(out)@ + node_text(model(*self), texts(values@)),
        decreases self,
    {
        let ghost start = out@;
        let ghost vs = texts(values@);
        proof {
            reveal_strlit(" AND(");
            reveal_strlit(" OR(");
            reveal_strlit(" NOT(");
            reveal_strlit(") ");
            reveal_strlit(" ");
            reveal_strlit(":");
        }
        match self {
            Node::And(cs) => {
                out.append(" AND(");
                proof {
                    lemma_models(cs@);
                }
                Self::write_list(cs, values, out);
                out.append(") ");
            },
            Node::Or(cs) => {
                out.append(" OR(");
                proof {
                    lemma_models(cs@);

                }
                Self::write_list(cs, values, out);
                out.append(") ");
            },
            Node::Not(b) => {
                out.append(" NOT(");
                b.write_text(values, out);
                out.append(") ");
            },
            Node::Tag(c, v) => {
                out.append(" ");
                out.append(values[*c].as_str());
                out.append(":");
                out.append(values[*v].as_str());
                out.append(" ");
            },
            Node::Value(i) => {
                out.append(" ");
                out.append(values[*i].as_str());
                out.append(" ");
            },
            Node::Empty => {},
        }
        assert(out@ =~= start + node_text(model(*self), vs));
    }

    fn write_list(cs: &Vec<Node>, values: &Vec<String>, out: &mut String)
        requires
            all_well_formed(models(cs@), values.len() as nat),
        ensures
            final(out)@ == old(out)@ + list_text(models(cs@), texts(values@)),
        decreases cs,
    {
        let ghost start = out@;
        let ghost vs = texts(values@);
        proof {
            lemma_models(cs@);
            reveal_strlit(", ");
        }
        let mut i: usize = 0;
        assert(models(cs@).subrange(0, 0) =~= seq![]);
        assert(start + seq![] =~= start);
        while i < cs.len()
            invariant
                i <= cs.len(),
                vs == texts(values@),
                models(cs@).len() == cs.len(),
                forall|k: int| 0 <= k < cs.len() ==> #[trigger] models(cs@)[k] == model(cs@[k]),
                forall|k: int| 0 <= k < cs.len() ==> well_formed(#[trigger] models(cs@)[k], values.len() as nat),
                out@ == start + list_text(models(cs@).subrange(0, i as int), vs),
            decreases cs.len() - i,
        {
            if i > 0 {
                out.append(", ");
            }
            assert(well_formed(models(cs@)[i as int], values.len() as nat));
            cs[i].write_text(values, out);
            proof {
                reveal_strlit(", ");
                let m = models(cs@);
                assert(m.subrange(0, i + 1).subrange(0, i as int) =~= m.subrange(0, i as int));
                if i == 0 {
                    assert(m.subrange(0, 1)[0] == m[0]);
                    assert(out@ =~= start + list_text(m.subrange(0, 1), vs));
                } else {
                    assert(m.subrange(0, i + 1)[i as int] == m[i as int]);
                    assert(list_text(m.subrange(0, i + 1), vs) == list_text(m.subrange(0, i as int), vs)
                        + seq![',', ' '] + node_text(m[i as int], vs));
                    assert(out@ =~= start + list_text(m.subrange(0, i + 1), vs));
                }
            }
            i = i + 1;
        }
        assert(models(cs@).subrange(0, i as int) =~= models(cs@));
    }
}

impl Nodes {
    /// The tree written out for reading, as `node_text` says.
    pub fn render(&self) -> (r: String)
        requires
            well_formed(model(self.node), self.values.len() as nat),
        ensures
            r@ == node_text(model(self.node), texts(self.values@)),
    {
        let mut out = String::new();
        self.node.write_text(&self.values, &mut out);
        assert(out@ =~= node_text(model(self.node), texts(self.values@)));
        out
    }
}

} // verus!
