//! A tree read from a bracketed string of digits such as `[1,[2,3]]`.
//! Nodes live in an arena (`Tree::nodes`, root in slot 0) and name their
//! children and parent by slot.
use crate::decimal::{decimal, decimal_text};
use vstd::prelude::*;

verus! {

/// The value, child slots and parent slot of a node.
pub type NodeShape = (Option<u32>, Seq<usize>, Option<usize>);

pub struct TreeNode {
    pub value: Option<u32>,
    pub children: Vec<usize>,
    pub parent: Option<usize>,
}

impl View for TreeNode {
    type V = NodeShape;

    open spec fn view(&self) -> NodeShape {
        (self.value, self.children@, self.parent)
    }
}

pub struct Tree {
    pub nodes: Vec<TreeNode>,
}

impl View for Tree {
    type V = Seq<NodeShape>;

    open spec fn view(&self) -> Seq<NodeShape> {
        self.nodes@.map_values(|n: TreeNode| n@)
    }
}

/// Whether `c` is a numeric character in Unicode's sense.
pub uninterp spec fn numeric_char(c: char) -> bool;

/// Relies on `char::is_numeric`: true for the characters of Unicode's
/// numeric categories (Nd, Nl, No), which hold the ASCII digits.
#[verifier::external_body]
fn is_numeric(c: char) -> (r: bool)
    ensures
        r == numeric_char(c),
        '0' <= c <= '9' ==> r,
{
    c.is_numeric()
}

/// The value of `c` as a decimal digit.
pub open spec fn digit_of(c: char) -> Option<u32> {
    if '0' <= c <= '9' {
        Some((c as u32 - '0' as u32) as u32)
    } else {
        None
    }
}

/// The value of `c` as a decimal digit, `None` for any other character.
pub fn to_digit(c: char) -> (r: Option<u32>)
    ensures
        r == digit_of(c),
{
    if '0' <= c && c <= '9' {
        Some(c as u32 - '0' as u32)
    } else {
        None
    }
}

/// The nodes built so far and the slot of the node being filled.
pub type ParseState = (Seq<NodeShape>, nat);

/// One character of the parse: `[` or a numeric character opens a child of
/// the current node (a numeric one carries its digit value) and descends
/// into it; `,` and `]` climb back to the parent, which the root lacks; any
/// other character fails.
pub open spec fn parse_step(st: Option<ParseState>, c: char) -> Option<ParseState> {
    match st {
        None => None,
        Some((nodes, cur)) => {
            if c == '[' || numeric_char(c) {
                let m = nodes.len();
                let p = nodes[cur as int];
                let child: NodeShape = (
                    if numeric_char(c) {
                        digit_of(c)
                    } else {
                        None
                    },
                    Seq::empty(),
                    Some(cur as usize),
                );
                Some((nodes.update(cur as int, (p.0, p.1.push(m as usize), p.2)).push(child), m))
            } else if c == ',' || c == ']' {
                match nodes[cur as int].2 {
                    Some(up) => Some((nodes, up as nat)),
                    None => None,
                }
            } else {
                None
            }
        },
    }
}

/// The state after the first `k` characters of `cs`, from a lone root.
pub open spec fn parse_prefix(cs: Seq<char>, k: nat) -> Option<ParseState>
    decreases k,
{
    if k == 0 {
        Some((seq![(None, Seq::<usize>::empty(), None)], 0))
    } else {
        parse_step(parse_prefix(cs, (k - 1) as nat), cs[k - 1])
    }
}

/// The characters between the first and the last one.
pub open spec fn inner(s: Seq<char>) -> Seq<char> {
    if s.len() < 2 {
        Seq::empty()
    } else {
        s.subrange(1, s.len() - 1)
    }
}

/// The tree read from `s`, whose first and last characters are taken as
/// the root's brackets.
pub open spec fn parse(s: Seq<char>) -> Option<Seq<NodeShape>> {
    match parse_prefix(inner(s), inner(s).len()) {
        Some((nodes, _)) => Some(nodes),
        None => None,
    }
}

/// Every child sits in a later slot than its parent and in the arena, and
/// every parent in an earlier slot than its child.
pub open spec fn ordered(t: Seq<NodeShape>) -> bool {
    &&& forall|i: int, k: int|
        0 <= i < t.len() && 0 <= k < t[i].1.len() ==> i < #[trigger] t[i].1[k] < t.len()
    &&& forall|i: int| 0 <= i < t.len() && (#[trigger] t[i]).2 is Some ==> t[i].2->0 < i
}

impl TreeNode {
    /// A node with no value, no children and no parent.
    pub fn new() -> (n: TreeNode)
        ensures
            n@ == (None::<u32>, Seq::<usize>::empty(), None::<usize>),
    {
        TreeNode { value: None, children: Vec::new(), parent: None }
    }

    /// Appends the slot `new_node` to the children.
    pub fn add_child(&mut self, new_node: usize)
        ensures
            final(self)@ == (old(self)@.0, old(self)@.1.push(new_node), old(self)@.2),
    {
        self.children.push(new_node);
    }
}

impl Tree {
    pub open spec fn well_formed(&self) -> bool {
        &&& self@.len() > 0
        &&& ordered(self@)
    }
}

proof fn lemma_parse_stays_failed(cs: Seq<char>, k: nat, j: nat)
    requires
        k <= j,
        parse_prefix(cs, k) is None,
    ensures
        parse_prefix(cs, j) is None,
    decreases j - k,
{
    if k < j {
        lemma_parse_stays_failed(cs, k, (j - 1) as nat);
    }
}

/// Reads the tree written in `s`: the first and last characters stand for
/// the root's brackets, and each character between them is one step of
/// `parse_step`. `None` where a step fails: a character other than `[`,
/// `]`, `,` or a numeric one, or a climb above the root.
pub fn init_tree(s: String) -> (r: Option<Tree>)
    ensures
        r is Some == parse(s@) is Some,
        r matches Some(t) ==> parse(s@) == Some(t@) && t.well_formed(),
{
    let text = s.as_str();
    let n = text.unicode_len();
    let ghost cs = inner(s@);
    let mut nodes: Vec<TreeNode> = Vec::new();
    nodes.push(TreeNode::new());
    let mut current: usize = 0;
    let mut idx: usize = 1;
    proof {
        let first = nodes@.map_values(|t: TreeNode| t@);
        assert(first =~= seq![(None::<u32>, Seq::<usize>::empty(), None::<usize>)]);
    }
    while idx + 1 < n
        invariant
            n == s@.len(),
            text@ == s@,
            cs == inner(s@),
            1 <= idx,
            n >= 2 ==> idx <= n - 1,
            n < 2 ==> idx == 1,
            0 < nodes@.len() <= idx,
            current < nodes@.len(),
            parse_prefix(cs, (idx - 1) as nat) == Some(
                (nodes@.map_values(|t: TreeNode| t@), current as nat),
            ),
            ordered(nodes@.map_values(|t: TreeNode| t@)),
        decreases n - idx,
    {
        let c = text.get_char(idx);
        let ghost before = nodes@.map_values(|t: TreeNode| t@);
        assert(cs[idx - 1] == c);
        if c == '[' || is_numeric(c) {
            let m = nodes.len();
            let mut child = TreeNode::new();
            child.parent = Some(current);
            if is_numeric(c) {
                child.value = to_digit(c);
            }
            let ghost cur0 = current;
            nodes[current].add_child(m);
            nodes.push(child);
            current = m;
            proof {
                let after = nodes@.map_values(|t: TreeNode| t@);
                let p = before[cur0 as int];
                let expected = before.update(cur0 as int, (p.0, p.1.push(m), p.2)).push(child@);
                assert(after =~= expected);
                assert(child@ == (
                    if numeric_char(c) {
                        digit_of(c)
                    } else {
                        None
                    },
                    Seq::<usize>::empty(),
                    Some(cur0),
                ));
                assert forall|i: int, k: int|
                    0 <= i < after.len() && 0 <= k < after[i].1.len() implies i
                    < #[trigger] after[i].1[k] < after.len() by {
                    if i != cur0 && i < before.len() {
                        assert(after[i] == before[i]);
                    } else if i == cur0 && k < before[i].1.len() {
                        assert(after[i].1[k] == before[i].1[k]);
                    }
                }
                assert forall|i: int| 0 <= i < after.len() && (#[trigger] after[i]).2 is Some implies after[i].2->0 < i by {
                    if i != cur0 && i < before.len() {
                        assert(after[i] == before[i]);
                    }
                }
            }
        } else if c == ',' || c == ']' {
            match nodes[current].parent {
                Some(up) => {
                    current = up;
                },
                None => {
                    proof {
                        lemma_parse_stays_failed(cs, idx as nat, cs.len());
                    }
                    return None;
                },
            }
        } else {
            proof {
                lemma_parse_stays_failed(cs, idx as nat, cs.len());
            }
            return None;
        }
        idx = idx + 1;
    }
    assert(idx - 1 == cs.len());
    Some(Tree { nodes })
}

/// The text of node `n` of `t`: its value in decimal, or its children's
/// texts separated by `,` between `[` and `]`. A child is read only where
/// its slot lies after `lo` and inside `t`.
pub open spec fn node_text(t: Seq<NodeShape>, n: NodeShape, lo: int) -> Seq<char>
    decreases t.len() - lo, 1int, 0int,
{
    match n.0 {
        Some(v) => decimal(v as nat),
        None => seq!['['] + kids_text(t, n.1, lo, n.1.len() as int) + seq![']'],
    }
}

/// The texts of the first `m` of `kids`, separated by `,`.
pub open spec fn kids_text(t: Seq<NodeShape>, kids: Seq<usize>, lo: int, m: int) -> Seq<char>
    decreases t.len() - lo, 0int, m,
{
    if m <= 0 || m > kids.len() {
        Seq::empty()
    } else {
        let c = kids[m - 1] as int;
        let last = if lo < c < t.len() {
            node_text(t, t[c], c)
        } else {
            Seq::empty()
        };
        if m == 1 {
            last
        } else {
            kids_text(t, kids, lo, m - 1) + seq![','] + last
        }
    }
}

impl Tree {
    fn render(&self, node: &TreeNode, lo: Ghost<int>) -> (r: String)
        requires
            self.well_formed(),
            lo@ >= -1,
            forall|k: int| 0 <= k < node.children@.len() ==> lo@ < #[trigger] node.children@[k] < self@.len(),
        ensures
            r@ == node_text(self@, node@, lo@),
        decreases self@.len() - lo@,
    {
        match node.value {
            Some(v) => decimal_text(v as u64),
            None => {
                let open = "[";
                let comma = ",";
                let close = "]";
                proof {
                    reveal_strlit("[");
                    reveal_strlit(",");
                    reveal_strlit("]");
                }
                let mut out = String::from_str(open);
                let mut m: usize = 0;
                while m < node.children.len()
                    invariant
                        self.well_formed(),
                        lo@ >= -1,
                        forall|k: int|
                            0 <= k < node.children@.len() ==> lo@ < #[trigger] node.children@[k]
                                < self@.len(),
                        m <= node.children@.len(),
                        open@ == seq!['['],
                        comma@ == seq![','],
                        out@ == seq!['['] + kids_text(self@, node@.1, lo@, m as int),
                    decreases node.children@.len() - m,
                {
                    let ghost prev = out@;
                    if m > 0 {
                        out.append(comma);
                    }
                    let c = node.children[m];
                    let child = &self.nodes[c];
                    proof {
                        assert(self@[c as int] == child@);
                        assert forall|k: int| 0 <= k < child.children@.len() implies c
                            < #[trigger] child.children@[k] < self@.len() by {
                            assert(self@[c as int].1[k] == child.children@[k]);
                        }
                    }
                    let part = self.render(child, Ghost(c as int));
                    out.append(part.as_str());
                    proof {
                        let kids = node@.1;
                        assert(kids[m as int] == c);
                        if m == 0 {
                            assert(out@ =~= seq!['['] + kids_text(self@, kids, lo@, 1));
                        } else {
                            assert(out@ =~= prev + seq![','] + part@);
                            assert(out@ =~= seq!['['] + kids_text(self@, kids, lo@, m + 1));
                        }
                    }
                    m = m + 1;
                }
                out.append(close);
                assert(out@ =~= node_text(self@, node@, lo@));
                out
            },
        }
    }
}

impl TreeNode {
    /// The text of this node of `tree`: its value in decimal, or the texts
    /// of its children, separated by `,`, between `[` and `]`.
    pub fn print(&self, tree: &Tree) -> (r: String)
        requires
            tree.well_formed(),
            forall|k: int| 0 <= k < self.children@.len() ==> #[trigger] self.children@[k] < tree@.len(),
        ensures
            r@ == node_text(tree@, self@, -1),
    {
        tree.render(self, Ghost(-1))
    }
}

} // verus!
