//! The concrete syntax tree that the printer walks.
use vstd::prelude::*;

verus! {

/// The node kinds of the devicetree grammar that the printer gives a rule
/// of its own; every other kind is `Other`.
#[derive(Clone, Copy, PartialEq, Eq, Structural, Debug)]
pub enum NodeKind {
    Document,
    Comment,
    DtsiInclude,
    PreprocInclude,
    PreprocDef,
    PreprocFunctionDef,
    PreprocIfdef,
    Identifier,
    Reference,
    UnitAddress,
    Path,
    Node,
    Property,
    StringLiteral,
    IntegerCells,
    ByteString,
    OpenBrace,
    CloseBrace,
    OpenAngle,
    CloseAngle,
    OpenBracket,
    CloseBracket,
    At,
    Colon,
    Comma,
    Equals,
    Semicolon,
    Other,
}

/// One node of the tree: its kind, the grammar's name for that kind, its
/// source text with surrounding whitespace removed, and its children in
/// source order (tokens included).
pub struct SyntaxNode {
    pub kind: NodeKind,
    pub kind_name: String,
    pub text: String,
    pub children: Vec<SyntaxNode>,
}

impl SyntaxNode {
    /// A node with the given parts.
    pub fn new(kind: NodeKind, kind_name: String, text: String, children: Vec<SyntaxNode>) -> (r:
        SyntaxNode)
        ensures
            r.kind == kind,
            r.kind_name@ == kind_name@,
            r.text@ == text@,
            r.children@ == children@,
    {
        SyntaxNode { kind, kind_name, text, children }
    }
}

/// The text of the `k`-th child of `n`, or nothing where there is none.
pub open spec fn child_text(n: SyntaxNode, k: int) -> Seq<char> {
    if 0 <= k < n.children@.len() {
        n.children@[k].text@
    } else {
        Seq::empty()
    }
}

/// The first index at or after `from` whose node has kind `k`, or the length
/// of `ch` where there is none.
pub open spec fn first_of_kind(ch: Seq<SyntaxNode>, from: int, k: NodeKind) -> int
    decreases ch.len() - from,
{
    if from >= ch.len() {
        ch.len() as int
    } else if ch[from].kind == k {
        from
    } else {
        first_of_kind(ch, from + 1, k)
    }
}

/// The result of `first_of_kind` lies between `from` and the length.
pub proof fn lemma_first_of_kind_bounds(ch: Seq<SyntaxNode>, from: int, k: NodeKind)
    requires
        0 <= from,
    ensures
        from <= ch.len() ==> from <= first_of_kind(ch, from, k) <= ch.len(),
        first_of_kind(ch, from, k) < ch.len() ==> ch[first_of_kind(ch, from, k)].kind == k,
        forall|j: int| from <= j < first_of_kind(ch, from, k) ==> ch[j].kind != k,
    decreases ch.len() - from,
{
    if from < ch.len() && ch[from].kind != k {
        lemma_first_of_kind_bounds(ch, from + 1, k);
    }
}

/// The index of the first child of `n`, from `from` on, whose kind is `k`,
/// or the number of children where there is none.
pub fn find_kind(n: &SyntaxNode, from: usize, k: NodeKind) -> (r: usize)
    requires
        from <= n.children@.len(),
    ensures
        r == first_of_kind(n.children@, from as int, k),
{
    let mut j = from;
    while j < n.children.len() && n.children[j].kind != k
        invariant
            from <= j <= n.children@.len(),
            first_of_kind(n.children@, from as int, k) == first_of_kind(n.children@, j as int, k),
        decreases n.children@.len() - j,
    {
        j += 1;
    }
    j
}

} // verus!
