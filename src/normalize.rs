//! Query fingerprints: literal values erased and `IN` lists collapsed in a statement
//! tree, which is then rendered back to text.
use vstd::prelude::*;
use crate::log_parser::LogEntry;

verus! {

broadcast use vstd::std_specs::vec::axiom_vec_decreases_to_view, vstd::std_specs::vec::axiom_vec_index_decreases, vstd::seq::axiom_seq_index_decreases;

/// The kinds of literal values, each with its own placeholder.
#[derive(Clone, Copy, Debug, PartialEq, Eq, Structural)]
pub enum LiteralKind {
    Number,
    String,
    NationalString,
    HexString,
    Boolean,
    Date,
    Time,
    Timestamp,
    Interval,
    Null,
}

/// The kinds of constructs of a statement tree: expressions, then statements and
/// their clauses. `Other` is every construct that is not listed.
#[derive(Clone, Copy, Debug, PartialEq, Eq, Structural)]
pub enum NodeKind {
    Unary,
    Binary,
    Between,
    IsNull,
    IsNotNull,
    Case,
    Cast,
    Extract,
    Collate,
    Nested,
    Exists,
    Subquery,
    InSubquery,
    Like,
    ILike,
    Query,
    Select,
    SetOperation,
    Cte,
    Derived,
    NestedJoin,
    JoinOn,
    Insert,
    Update,
    Delete,
    Values,
    Projection,
    Where,
    GroupBy,
    Having,
    Qualify,
    Prewhere,
    DistinctOn,
    Assignment,
    /// The ordering of the rows a `DELETE` removes.
    DeleteOrderBy,
    /// The ordering of a query's result.
    OrderBy,
    Limit,
    Other,
}

/// Whether the fingerprint rewrites inside a construct of kind `k`: every listed
/// kind but the ordering and limit clauses of a query or statement.
pub open spec fn rewritten(k: NodeKind) -> bool {
    match k {
        NodeKind::OrderBy | NodeKind::Limit | NodeKind::Other => false,
        _ => true,
    }
}

pub fn is_rewritten(k: NodeKind) -> (r: bool)
    ensures
        r == rewritten(k),
{
    match k {
        NodeKind::OrderBy | NodeKind::Limit | NodeKind::Other => false,
        _ => true,
    }
}

/// A statement tree, reduced to what fingerprinting reads.
#[derive(Debug)]
pub enum SqlNode {
    /// Text that is kept as it stands: keywords, names, and every construct that is
    /// not rewritten.
    Text(String),
    /// A literal value of the given kind, with its text.
    Literal(LiteralKind, String),
    /// `<expr> [NOT] IN (<list>)`.
    InList { expr: Box<SqlNode>, list: Vec<SqlNode>, negated: bool },
    /// A construct of the given kind: its own text and its sub-constructs, in the
    /// order they are written; it renders as their concatenation.
    Node { kind: NodeKind, parts: Vec<SqlNode> },
}

/// The value of a `SqlNode`.
pub enum SqlTree {
    Text(Seq<char>),
    Literal(LiteralKind, Seq<char>),
    InList(Box<SqlTree>, Seq<SqlTree>, bool),
    Node(NodeKind, Seq<SqlTree>),
}

pub open spec fn tree_of(n: SqlNode) -> SqlTree
    decreases n,
{
    match n {
        SqlNode::Text(t) => SqlTree::Text(t@),
        SqlNode::Literal(k, t) => SqlTree::Literal(k, t@),
        SqlNode::InList { expr, list, negated } => SqlTree::InList(
            Box::new(tree_of(*expr)),
            trees_of(list@),
            negated,
        ),
        SqlNode::Node { kind, parts } => SqlTree::Node(kind, trees_of(parts@)),
    }
}

pub open spec fn trees_of(s: Seq<SqlNode>) -> Seq<SqlTree>
    decreases s,
{
    if s.len() == 0 {
        Seq::empty()
    } else {
        trees_of(s.drop_last()).push(tree_of(s.last()))
    }
}

/// The text that replaces a literal of kind `k`.
pub open spec fn placeholder(k: LiteralKind) -> Seq<char> {
    match k {
        LiteralKind::Number => "0"@,
        LiteralKind::String => "''"@,
        LiteralKind::NationalString => "N''"@,
        LiteralKind::HexString => "X''"@,
        LiteralKind::Boolean => "true"@,
        LiteralKind::Date => "DATE '1970-01-01'"@,
        LiteralKind::Time => "TIME '00:00:00'"@,
        LiteralKind::Timestamp => "TIMESTAMP '1970-01-01 00:00:00'"@,
        LiteralKind::Interval => "INTERVAL '1' SECOND"@,
        LiteralKind::Null => "NULL"@,
    }
}

/// The tree with every literal replaced by its kind's placeholder and every `IN`
/// list cut to its first element, except inside constructs of kinds that are not
/// rewritten, which stay as they are.
pub open spec fn normalized(t: SqlTree) -> SqlTree
    decreases t,
{
    match t {
        SqlTree::Text(x) => SqlTree::Text(x),
        SqlTree::Literal(k, _) => SqlTree::Literal(k, placeholder(k)),
        SqlTree::InList(e, l, neg) => SqlTree::InList(
            Box::new(normalized(*e)),
            if l.len() == 0 {
                Seq::empty()
            } else {
                seq![normalized(l[0])]
            },
            neg,
        ),
        SqlTree::Node(k, ps) => if rewritten(k) {
            SqlTree::Node(k, normalized_all(ps))
        } else {
            SqlTree::Node(k, ps)
        },
    }
}

pub open spec fn normalized_all(s: Seq<SqlTree>) -> Seq<SqlTree>
    decreases s,
{
    if s.len() == 0 {
        Seq::empty()
    } else {
        normalized_all(s.drop_last()).push(normalized(s.last()))
    }
}

/// The text of a tree.
pub open spec fn rendered(t: SqlTree) -> Seq<char>
    decreases t,
{
    match t {
        SqlTree::Text(x) => x,
        SqlTree::Literal(_, x) => x,
        SqlTree::InList(e, l, neg) => rendered(*e) + (if neg {
            " NOT IN ("@
        } else {
            " IN ("@
        }) + rendered_list(l) + ")"@,
        SqlTree::Node(_, ps) => rendered_all(ps),
    }
}

/// The texts of the trees, one after the other.
pub open spec fn rendered_all(s: Seq<SqlTree>) -> Seq<char>
    decreases s,
{
    if s.len() == 0 {
        Seq::empty()
    } else {
        rendered_all(s.drop_last()) + rendered(s.last())
    }
}

/// The texts of the trees, separated by `, `.
pub open spec fn rendered_list(s: Seq<SqlTree>) -> Seq<char>
    decreases s,
{
    if s.len() == 0 {
        Seq::empty()
    } else if s.len() == 1 {
        rendered(s[0])
    } else {
        rendered_list(s.drop_last()) + ", "@ + rendered(s.last())
    }
}

/// Statements, each ended by `;`, separated by a space.
pub open spec fn statements_text(s: Seq<SqlTree>) -> Seq<char>
    decreases s.len(),
{
    if s.len() == 0 {
        Seq::empty()
    } else if s.len() == 1 {
        rendered(s[0]) + ";"@
    } else {
        statements_text(s.drop_last()) + " "@ + rendered(s.last()) + ";"@
    }
}

/// The fingerprint of a query, given what parsing it gave: the normalized statements,
/// or, where it could not be parsed, a text that holds the query and the parser's message.
pub open spec fn fingerprint_spec(query: Seq<char>, parsed: Result<Seq<SqlTree>, Seq<char>>) -> Seq<
    char,
> {
    match parsed {
        Ok(stmts) => statements_text(normalized_all(stmts)),
        Err(msg) => "Unparseable statement: "@ + query + " ("@ + msg + ")"@,
    }
}

pub proof fn lemma_trees_of(s: Seq<SqlNode>)
    ensures
        trees_of(s).len() == s.len(),
        forall|i: int| 0 <= i < s.len() ==> #[trigger] trees_of(s)[i] == tree_of(s[i]),
    decreases s.len(),
{
    if s.len() > 0 {
        lemma_trees_of(s.drop_last());
    }
}

pub proof fn lemma_normalized_all(s: Seq<SqlTree>)
    ensures
        normalized_all(s).len() == s.len(),
        forall|i: int| 0 <= i < s.len() ==> #[trigger] normalized_all(s)[i] == normalized(s[i]),
    decreases s.len(),
{
    if s.len() > 0 {
        lemma_normalized_all(s.drop_last());
    }
}

fn placeholder_text(k: LiteralKind) -> (r: String)
    ensures
        r@ == placeholder(k),
{
    let t = match k {
        LiteralKind::Number => "0",
        LiteralKind::String => "''",
        LiteralKind::NationalString => "N''",
        LiteralKind::HexString => "X''",
        LiteralKind::Boolean => "true",
        LiteralKind::Date => "DATE '1970-01-01'",
        LiteralKind::Time => "TIME '00:00:00'",
        LiteralKind::Timestamp => "TIMESTAMP '1970-01-01 00:00:00'",
        LiteralKind::Interval => "INTERVAL '1' SECOND",
        LiteralKind::Null => "NULL",
    };
    t.to_owned()
}

fn copy_text(s: &String) -> (r: String)
    ensures
        r@ == s@,
{
    s.clone()
}

/// A copy of `n`.
pub fn copy_node(n: &SqlNode) -> (r: SqlNode)
    ensures
        tree_of(r) == tree_of(*n),
    decreases n, 1nat,
{
    match n {
        SqlNode::Text(t) => SqlNode::Text(copy_text(t)),
        SqlNode::Literal(k, t) => SqlNode::Literal(*k, copy_text(t)),
        SqlNode::InList { expr, list, negated } => {
            let e = copy_node(expr);
            assert(decreases_to!(*n => (*n)->list));
            let l = copy_nodes(n, list);
            SqlNode::InList { expr: Box::new(e), list: l, negated: *negated }
        },
        SqlNode::Node { kind, parts } => {
            assert(decreases_to!(*n => (*n)->parts));
            let l = copy_nodes(n, parts);
            SqlNode::Node { kind: *kind, parts: l }
        },
    }
}

/// Copies of the nodes of `v`, which is a part of `n`.
fn copy_nodes(n: &SqlNode, v: &Vec<SqlNode>) -> (r: Vec<SqlNode>)
    requires
        decreases_to!(*n => *v),
    ensures
        trees_of(r@) == trees_of(v@),
    decreases n, 0nat,
{
    let ghost ts = trees_of(v@);
    proof {
        lemma_trees_of(v@);
    }
    let mut out: Vec<SqlNode> = Vec::new();
    let mut i: usize = 0;
    while i < v.len()
        invariant
            i <= v@.len(),
            decreases_to!(*n => *v),
            ts == trees_of(v@),
            ts.len() == v@.len(),
            forall|j: int| 0 <= j < v@.len() ==> #[trigger] ts[j] == tree_of(v@[j]),
            trees_of(out@) == ts.take(i as int),
        decreases v@.len() - i,
    {
        proof {
            assert(decreases_to!(*v => v[i as int]));
            assert(decreases_to!(*n => v[i as int]));
        }
        let x = copy_node(&v[i]);
        let ghost before = out@;
        out.push(x);
        assert(out@.drop_last() =~= before);
        assert(trees_of(out@) =~= ts.take(i + 1));
        i = i + 1;
    }
    assert(ts.take(i as int) =~= ts);
    out
}

/// The tree with literals replaced by placeholders and `IN` lists cut to one element.
pub fn normalize_node(n: &SqlNode) -> (r: SqlNode)
    ensures
        tree_of(r) == normalized(tree_of(*n)),
    decreases n,
{
    match n {
        SqlNode::Text(t) => SqlNode::Text(copy_text(t)),
        SqlNode::Literal(k, _) => SqlNode::Literal(*k, placeholder_text(*k)),
        SqlNode::InList { expr, list, negated } => {
            let e = normalize_node(expr);
            let mut l: Vec<SqlNode> = Vec::new();
            proof {
                lemma_trees_of(list@);
            }
            if list.len() > 0 {
                let first = normalize_node(&list[0]);
                l.push(first);
                proof {
                    lemma_trees_of(l@);
                }
                assert(trees_of(l@) =~= seq![normalized(trees_of(list@)[0])]);
            } else {
                assert(trees_of(l@) =~= Seq::<SqlTree>::empty());
            }
            SqlNode::InList { expr: Box::new(e), list: l, negated: *negated }
        },
        SqlNode::Node { kind, parts } => {
            if !is_rewritten(*kind) {
                return copy_node(n);
            }
            let ghost ts = trees_of(parts@);
            proof {
                lemma_trees_of(parts@);
            }
            let mut out: Vec<SqlNode> = Vec::new();
            let mut i: usize = 0;
            while i < parts.len()
                invariant
                    i <= parts@.len(),
                    *n == (SqlNode::Node { kind: *kind, parts: *parts }),
                    ts == trees_of(parts@),
                    ts.len() == parts@.len(),
                    forall|j: int| 0 <= j < parts@.len() ==> #[trigger] ts[j] == tree_of(parts@[j]),
                    trees_of(out@) == normalized_all(ts.take(i as int)),
                decreases parts@.len() - i,
            {
                proof {
                    assert(decreases_to!(*parts => parts[i as int]));
                    assert(decreases_to!(*n => (*n)->parts));
                    assert(decreases_to!(*n => parts[i as int]));
                }
                let x = normalize_node(&parts[i]);
                let ghost before = out@;
                out.push(x);
                assert(out@.drop_last() =~= before);
                assert(ts.take(i + 1).drop_last() =~= ts.take(i as int));
                i = i + 1;
            }
            assert(ts.take(i as int) =~= ts);
            SqlNode::Node { kind: *kind, parts: out }
        },
    }
}

/// Appends the text of `n` to `out`.
pub fn render_into(n: &SqlNode, out: &mut String)
    ensures
        final(out)@ == old(out)@ + rendered(tree_of(*n)),
    decreases n,
{
    match n {
        SqlNode::Text(t) => {
            out.append(t.as_str());
        },
        SqlNode::Literal(_, t) => {
            out.append(t.as_str());
        },
        SqlNode::InList { expr, list, negated } => {
            let ghost start = out@;
            render_into(expr, out);
            if *negated {
                out.append(" NOT IN (");
            } else {
                out.append(" IN (");
            }
            let ghost mid = out@;
            let ghost ts = trees_of(list@);
            proof {
                lemma_trees_of(list@);
            }
            let mut i: usize = 0;
            while i < list.len()
                invariant
                    i <= list@.len(),
                    *n == (SqlNode::InList { expr: *expr, list: *list, negated: *negated }),
                    ts == trees_of(list@),
                    ts.len() == list@.len(),
                    forall|j: int| 0 <= j < list@.len() ==> #[trigger] ts[j] == tree_of(list@[j]),
                    out@ == mid + rendered_list(ts.take(i as int)),
                decreases list@.len() - i,
            {
                if i > 0 {
                    out.append(", ");
                }
                proof {
                    assert(decreases_to!(*list => list[i as int]));
                    assert(decreases_to!(*n => (*n)->list));
                    assert(decreases_to!(*n => list[i as int]));
                }
                render_into(&list[i], out);
                assert(ts.take(i + 1).drop_last() =~= ts.take(i as int));
                if i == 0 {
                    assert(ts.take(1) =~= seq![ts[0]]);
                    assert(rendered_list(ts.take(0)) =~= Seq::<char>::empty());
                }
                assert(out@ =~= mid + rendered_list(ts.take(i + 1)));
                i = i + 1;
            }
            assert(ts.take(i as int) =~= ts);
            out.append(")");
            assert(out@ =~= start + rendered(tree_of(*n)));
        },
        SqlNode::Node { kind, parts } => {
            let ghost start = out@;
            let ghost ts = trees_of(parts@);
            proof {
                lemma_trees_of(parts@);
            }
            let mut i: usize = 0;
            while i < parts.len()
                invariant
                    i <= parts@.len(),
                    *n == (SqlNode::Node { kind: *kind, parts: *parts }),
                    ts == trees_of(parts@),
                    ts.len() == parts@.len(),
                    forall|j: int| 0 <= j < parts@.len() ==> #[trigger] ts[j] == tree_of(parts@[j]),
                    out@ == start + rendered_all(ts.take(i as int)),
                decreases parts@.len() - i,
            {
                proof {
                    assert(decreases_to!(*parts => parts[i as int]));
                    assert(decreases_to!(*n => (*n)->parts));
                    assert(decreases_to!(*n => parts[i as int]));
                }
                render_into(&parts[i], out);
                assert(ts.take(i + 1).drop_last() =~= ts.take(i as int));
                assert(out@ =~= start + rendered_all(ts.take(i + 1)));
                i = i + 1;
            }
            assert(ts.take(i as int) =~= ts);
        },
    }
}

/// The normalized statements, each ended by `;`, separated by a space.
pub fn render_statements(stmts: &Vec<SqlNode>) -> (r: String)
    ensures
        r@ == statements_text(normalized_all(trees_of(stmts@))),
{
    let ghost ts = normalized_all(trees_of(stmts@));
    proof {
        lemma_trees_of(stmts@);
        lemma_normalized_all(trees_of(stmts@));
    }
    let mut out = String::new();
    let mut i: usize = 0;
    while i < stmts.len()
        invariant
            i <= stmts@.len(),
            ts == normalized_all(trees_of(stmts@)),
            ts.len() == stmts@.len(),
            forall|j: int|
                0 <= j < stmts@.len() ==> #[trigger] ts[j] == normalized(tree_of(stmts@[j])),
            out@ == statements_text(ts.take(i as int)),
        decreases stmts@.len() - i,
    {
        if i > 0 {
            out.append(" ");
        }
        let norm = normalize_node(&stmts[i]);
        render_into(&norm, &mut out);
        out.append(";");
        assert(ts.take(i + 1).drop_last() =~= ts.take(i as int));
        if i == 0 {
            assert(ts.take(1)[0] == ts[0]);
        }
        assert(out@ =~= statements_text(ts.take(i + 1)));
        i = i + 1;
    }
    assert(ts.take(i as int) =~= ts);
    out
}

/// The value of a parse result.
pub open spec fn parsed_view(parsed: Result<Vec<SqlNode>, String>) -> Result<Seq<SqlTree>, Seq<char>> {
    match parsed {
        Ok(stmts) => Ok(trees_of(stmts@)),
        Err(msg) => Err(msg@),
    }
}

/// The fingerprint of `query`, given the statements parsing it gave, or the parser's
/// message where it failed.
pub fn fingerprint(query: &str, parsed: &Result<Vec<SqlNode>, String>) -> (r: String)
    ensures
        r@ == fingerprint_spec(query@, parsed_view(*parsed)),
{
    match parsed {
        Ok(stmts) => render_statements(stmts),
        Err(msg) => {
            let mut out = String::new();
            out.append("Unparseable statement: ");
            out.append(query);
            out.append(" (");
            out.append(msg.as_str());
            out.append(")");
            out
        },
    }
}

/// A log entry with the fingerprint of its query.
pub struct NormalizedLogEntry {
    pub entry: LogEntry,
    pub normalized_query: String,
}

/// Pairs an entry with the fingerprint of its query; `parsed` is what parsing the
/// query gave.
pub fn normalize(entry: LogEntry, parsed: Result<Vec<SqlNode>, String>) -> (r: NormalizedLogEntry)
    ensures
        r.entry == entry,
        r.normalized_query@ == fingerprint_spec(entry.query@, parsed_view(parsed)),
{
    let normalized_query = fingerprint(entry.query.as_str(), &parsed);
    NormalizedLogEntry { entry, normalized_query }
}

/// Two trees are alike up to the text of their literals (not their kinds) and the
/// elements of `IN` lists after the first (not whether a list is empty), both only
/// where they stand inside constructs that are rewritten.
pub open spec fn same_shape(a: SqlTree, b: SqlTree) -> bool
    decreases a,
{
    match a {
        SqlTree::Text(x) => match b {
            SqlTree::Text(y) => x == y,
            _ => false,
        },
        SqlTree::Literal(k1, _) => match b {
            SqlTree::Literal(k2, _) => k1 == k2,
            _ => false,
        },
        SqlTree::InList(e1, l1, n1) => match b {
            SqlTree::InList(e2, l2, n2) => n1 == n2 && same_shape(*e1, *e2) && (l1.len() == 0
                <==> l2.len() == 0) && (l1.len() > 0 ==> same_shape(l1[0], l2[0])),
            _ => false,
        },
        SqlTree::Node(k1, p1) => match b {
            SqlTree::Node(k2, p2) => k1 == k2 && if rewritten(k1) {
                same_shapes(p1, p2)
            } else {
                p1 == p2
            },
            _ => false,
        },
    }
}

/// Sequences of trees alike element by element.
pub open spec fn same_shapes(s1: Seq<SqlTree>, s2: Seq<SqlTree>) -> bool
    decreases s1,
{
    if s1.len() == 0 {
        s2.len() == 0
    } else {
        s2.len() == s1.len() && same_shapes(s1.drop_last(), s2.drop_last()) && same_shape(
            s1.last(),
            s2.last(),
        )
    }
}

/// Normalizing twice gives what normalizing once gives.
pub proof fn lemma_normalize_idempotent(t: SqlTree)
    ensures
        normalized(normalized(t)) == normalized(t),
    decreases t,
{
    match t {
        SqlTree::InList(e, l, neg) => {
            lemma_normalize_idempotent(*e);
            if l.len() > 0 {
                lemma_normalize_idempotent(l[0]);
                assert(seq![normalized(l[0])][0] == normalized(l[0]));
            }
            let nl: Seq<SqlTree> = if l.len() == 0 {
                Seq::empty()
            } else {
                seq![normalized(l[0])]
            };
            let nnl: Seq<SqlTree> = if nl.len() == 0 {
                Seq::empty()
            } else {
                seq![normalized(nl[0])]
            };
            assert(nnl =~= nl);
        },
        SqlTree::Node(k, ps) => {
            if rewritten(k) {
                lemma_normalize_all_idempotent(ps);
            }
        },
        _ => {},
    }
}

pub proof fn lemma_normalize_all_idempotent(s: Seq<SqlTree>)
    ensures
        normalized_all(normalized_all(s)) == normalized_all(s),
    decreases s,
{
    if s.len() > 0 {
        lemma_normalize_all_idempotent(s.drop_last());
        lemma_normalize_idempotent(s.last());
        let n = normalized_all(s);
        assert(n.drop_last() =~= normalized_all(s.drop_last()));
        assert(n.last() == normalized(s.last()));
    }
}

/// Two trees normalize alike exactly when they have the same shape: literal values
/// and the length of non-empty `IN` lists are erased, and nothing else is.
pub proof fn lemma_same_fingerprint_iff_same_shape(a: SqlTree, b: SqlTree)
    ensures
        normalized(a) == normalized(b) <==> same_shape(a, b),
    decreases a,
{
    match a {
        SqlTree::InList(e1, l1, n1) => match b {
            SqlTree::InList(e2, l2, n2) => {
                lemma_same_fingerprint_iff_same_shape(*e1, *e2);
                let m1: Seq<SqlTree> = if l1.len() == 0 {
                    Seq::empty()
                } else {
                    seq![normalized(l1[0])]
                };
                let m2: Seq<SqlTree> = if l2.len() == 0 {
                    Seq::empty()
                } else {
                    seq![normalized(l2[0])]
                };
                if l1.len() > 0 && l2.len() > 0 {
                    lemma_same_fingerprint_iff_same_shape(l1[0], l2[0]);
                    assert(m1 == m2 ==> m1[0] == m2[0]);
                    assert(normalized(l1[0]) == normalized(l2[0]) ==> m1 =~= m2);
                }
                if l1.len() == 0 && l2.len() > 0 {
                    assert(m1.len() != m2.len());
                }
                if l1.len() > 0 && l2.len() == 0 {
                    assert(m1.len() != m2.len());
                }
                if l1.len() == 0 && l2.len() == 0 {
                    assert(m1 =~= m2);
                }
            },
            _ => {},
        },
        SqlTree::Node(k1, p1) => match b {
            SqlTree::Node(k2, p2) => {
                if rewritten(k1) {
                    lemma_same_shapes(p1, p2);
                }
            },
            _ => {},
        },
        _ => {},
    }
}

pub proof fn lemma_same_shapes(s1: Seq<SqlTree>, s2: Seq<SqlTree>)
    ensures
        normalized_all(s1) == normalized_all(s2) <==> same_shapes(s1, s2),
    decreases s1,
{
    lemma_normalized_all(s1);
    lemma_normalized_all(s2);
    if s1.len() == 0 {
        if s2.len() != 0 {
            assert(normalized_all(s1).len() != normalized_all(s2).len());
        }
    } else if s2.len() != s1.len() {
        assert(normalized_all(s1).len() != normalized_all(s2).len());
    } else {
        lemma_same_shapes(s1.drop_last(), s2.drop_last());
        lemma_same_fingerprint_iff_same_shape(s1.last(), s2.last());
        let n1 = normalized_all(s1);
        let n2 = normalized_all(s2);
        assert(n1.drop_last() == normalized_all(s1.drop_last()));
        assert(n2.drop_last() == normalized_all(s2.drop_last()));
        if n1 == n2 {
            assert(n1.last() == n2.last());
        }
        if normalized_all(s1.drop_last()) == normalized_all(s2.drop_last()) && normalized(s1.last())
            == normalized(s2.last()) {
            assert(n1 =~= n2);
        }
    }
}

/// A construct of a kind that is not rewritten comes back unchanged, literals and
/// `IN` lists inside it included.
pub proof fn lemma_not_rewritten_unchanged(k: NodeKind, parts: Seq<SqlTree>)
    requires
        !rewritten(k),
    ensures
        normalized(SqlTree::Node(k, parts)) == SqlTree::Node(k, parts),
{
}

/// Statements alike in shape have the same fingerprint.
pub proof fn lemma_same_shape_same_text(s1: Seq<SqlTree>, s2: Seq<SqlTree>, q1: Seq<char>, q2: Seq<char>)
    requires
        same_shapes(s1, s2),
    ensures
        fingerprint_spec(q1, Ok(s1)) == fingerprint_spec(q2, Ok(s2)),
{
    lemma_same_shapes(s1, s2);
}

} // verus!
