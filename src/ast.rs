use vstd::prelude::*;
use crate::lex::same_text;

verus! {

#[derive(Debug, Clone, Copy, PartialEq, Eq)]
pub enum BinOp {
    Add,
    Sub,
    Mul,
    Div,
    Lt,
    Le,
    Eq,
    Ne,
    Assign,
}

/// A node of the syntax tree. A variable is the index of its name in the
/// symbol table.
#[allow(inconsistent_fields)]
#[derive(Debug, PartialEq, Eq)]
pub enum Node {
    Num(u64),
    Var(usize),
    Binary(BinOp, Box<Node>, Box<Node>),
    Return(Box<Node>),
    If { cond: Box<Node>, then_branch: Box<Node>, else_branch: Option<Box<Node>> },
    For {
        init: Option<Box<Node>>,
        cond: Option<Box<Node>>,
        inc: Option<Box<Node>>,
        body: Box<Node>,
    },
    While { cond: Box<Node>, body: Box<Node> },
}

pub open spec fn bin(op: BinOp, lhs: Node, rhs: Node) -> Node {
    Node::Binary(op, Box::new(lhs), Box::new(rhs))
}

pub fn new_node(op: BinOp, lhs: Node, rhs: Node) -> (r: Node)
    ensures
        r == bin(op, lhs, rhs),
{
    Node::Binary(op, Box::new(lhs), Box::new(rhs))
}

pub fn new_node_num(val: u64) -> (r: Node)
    ensures
        r == Node::Num(val),
{
    Node::Num(val)
}

pub fn new_node_if(cond: Node, then_branch: Node, else_branch: Option<Node>) -> (r: Node)
    ensures
        r == (Node::If {
            cond: Box::new(cond),
            then_branch: Box::new(then_branch),
            else_branch: match else_branch {
                Some(e) => Some(Box::new(e)),
                None => None,
            },
        }),
{
    let else_branch = match else_branch {
        Some(e) => Some(Box::new(e)),
        None => None,
    };
    Node::If { cond: Box::new(cond), then_branch: Box::new(then_branch), else_branch }
}

pub fn new_node_for(
    init: Option<Box<Node>>,
    cond: Option<Box<Node>>,
    inc: Option<Box<Node>>,
    body: Node,
) -> (r: Node)
    ensures
        r == (Node::For { init, cond, inc, body: Box::new(body) }),
{
    Node::For { init, cond, inc, body: Box::new(body) }
}

pub fn new_node_while(cond: Node, body: Node) -> (r: Node)
    ensures
        r == (Node::While { cond: Box::new(cond), body: Box::new(body) }),
{
    Node::While { cond: Box::new(cond), body: Box::new(body) }
}

/// Every variable in `n` stands for a slot below `k`.
pub open spec fn vars_below(n: Node, k: nat) -> bool
    decreases n,
{
    match n {
        Node::Num(_) => true,
        Node::Var(i) => i < k,
        Node::Binary(_, l, r) => vars_below(*l, k) && vars_below(*r, k),
        Node::Return(e) => vars_below(*e, k),
        Node::If { cond, then_branch, else_branch } => {
            &&& vars_below(*cond, k)
            &&& vars_below(*then_branch, k)
            &&& (match else_branch {
                Some(e) => vars_below(*e, k),
                None => true,
            })
        },
        Node::For { init, cond, inc, body } => {
            &&& (match init {
                Some(e) => vars_below(*e, k),
                None => true,
            })
            &&& (match cond {
                Some(e) => vars_below(*e, k),
                None => true,
            })
            &&& (match inc {
                Some(e) => vars_below(*e, k),
                None => true,
            })
            &&& vars_below(*body, k)
        },
        Node::While { cond, body } => vars_below(*cond, k) && vars_below(*body, k),
    }
}

pub open spec fn opt_below(o: Option<Box<Node>>, k: nat) -> bool {
    match o {
        Some(e) => vars_below(*e, k),
        None => true,
    }
}

pub proof fn lemma_opt_below_mono(o: Option<Box<Node>>, k: nat, k2: nat)
    requires
        opt_below(o, k),
        k <= k2,
    ensures
        opt_below(o, k2),
{
    if let Some(e) = o {
        lemma_vars_below_mono(*e, k, k2);
    }
}

pub proof fn lemma_vars_below_mono(n: Node, k: nat, k2: nat)
    requires
        vars_below(n, k),
        k <= k2,
    ensures
        vars_below(n, k2),
    decreases n,
{
    match n {
        Node::Num(_) => {},
        Node::Var(_) => {},
        Node::Binary(_, l, r) => {
            lemma_vars_below_mono(*l, k, k2);
            lemma_vars_below_mono(*r, k, k2);
        },
        Node::Return(e) => {
            lemma_vars_below_mono(*e, k, k2);
        },
        Node::If { cond, then_branch, else_branch } => {
            lemma_vars_below_mono(*cond, k, k2);
            lemma_vars_below_mono(*then_branch, k, k2);
            if let Some(e) = else_branch {
                lemma_vars_below_mono(*e, k, k2);
            }
        },
        Node::For { init, cond, inc, body } => {
            if let Some(e) = init {
                lemma_vars_below_mono(*e, k, k2);
            }
            if let Some(e) = cond {
                lemma_vars_below_mono(*e, k, k2);
            }
            if let Some(e) = inc {
                lemma_vars_below_mono(*e, k, k2);
            }
            lemma_vars_below_mono(*body, k, k2);
        },
        Node::While { cond, body } => {
            lemma_vars_below_mono(*cond, k, k2);
            lemma_vars_below_mono(*body, k, k2);
        },
    }
}

/// `b` keeps every slot of `a`, and stays free of repeated names where `a` was.
pub open spec fn table_grows(a: Seq<Seq<char>>, b: Seq<Seq<char>>) -> bool {
    &&& a.len() <= b.len()
    &&& forall|i: int| 0 <= i < a.len() ==> #[trigger] b[i] == a[i]
    &&& distinct(a) ==> distinct(b)
}

pub proof fn lemma_grows_trans(a: Seq<Seq<char>>, b: Seq<Seq<char>>, c: Seq<Seq<char>>)
    requires
        table_grows(a, b),
        table_grows(b, c),
    ensures
        table_grows(a, c),
{
    assert forall|i: int| 0 <= i < a.len() implies #[trigger] c[i] == a[i] by {
        assert(b[i] == a[i]);
    }
}

/// Index of the first `x` in `syms` at or after `i`, or `syms.len()`.
pub open spec fn find(syms: Seq<Seq<char>>, x: Seq<char>, i: int) -> int
    decreases syms.len() - i,
{
    if i < 0 || i >= syms.len() {
        syms.len() as int
    } else if syms[i] == x {
        i
    } else {
        find(syms, x, i + 1)
    }
}

/// The slot of `x` and the table after registering it: an existing name keeps
/// its slot, a new one is appended.
pub open spec fn intern(syms: Seq<Seq<char>>, x: Seq<char>) -> (nat, Seq<Seq<char>>) {
    let k = find(syms, x, 0);
    if k < syms.len() {
        (k as nat, syms)
    } else {
        (syms.len(), syms.push(x))
    }
}

pub open spec fn distinct(syms: Seq<Seq<char>>) -> bool {
    forall|i: int, j: int| 0 <= i < j < syms.len() ==> syms[i] != syms[j]
}

/// The symbol table: the names of the variables met so far, each once, in the
/// order of their first occurrence.
#[derive(Debug)]
pub struct Variables {
    names: Vec<String>,
}

impl View for Variables {
    type V = Seq<Seq<char>>;

    closed spec fn view(&self) -> Seq<Seq<char>> {
        self.names@.map_values(|s: String| s@)
    }
}

proof fn lemma_find_bounds(syms: Seq<Seq<char>>, x: Seq<char>, i: int)
    requires
        0 <= i <= syms.len(),
    ensures
        i <= find(syms, x, i) <= syms.len(),
        find(syms, x, i) < syms.len() ==> syms[find(syms, x, i)] == x,
        forall|j: int| i <= j < find(syms, x, i) ==> syms[j] != x,
    decreases syms.len() - i,
{
    if i < syms.len() && syms[i] != x {
        lemma_find_bounds(syms, x, i + 1);
    }
}

/// Registering a name keeps the names of the table distinct.
pub proof fn lemma_intern_distinct(syms: Seq<Seq<char>>, x: Seq<char>)
    requires
        distinct(syms),
    ensures
        distinct(intern(syms, x).1),
        intern(syms, x).1.contains(x),
        intern(syms, x).1[intern(syms, x).0 as int] == x,
        intern(syms, x).0 < intern(syms, x).1.len(),
{
    lemma_find_bounds(syms, x, 0);
    let t = intern(syms, x).1;
    assert(t[intern(syms, x).0 as int] == x);
}

/// Registering a name twice is registering it once: the second time returns
/// the same slot and leaves the table as it was.
pub proof fn lemma_intern_idempotent(syms: Seq<Seq<char>>, x: Seq<char>)
    ensures
        intern(intern(syms, x).1, x) == intern(syms, x),
{
    lemma_find_bounds(syms, x, 0);
    let t = intern(syms, x).1;
    lemma_find_bounds(t, x, 0);
    if find(syms, x, 0) == syms.len() {
        assert(t[syms.len() as int] == x);
        assert forall|j: int| 0 <= j < syms.len() implies t[j] != x by {
            assert(t[j] == syms[j]);
        }
    }
}

impl Variables {
    pub fn new() -> (r: Self)
        ensures
            r@ == Seq::<Seq<char>>::empty(),
    {
        let r = Variables { names: Vec::new() };
        assert(r@ =~= Seq::<Seq<char>>::empty());
        r
    }

    pub fn len(&self) -> (r: usize)
        ensures
            r == self@.len(),
    {
        self.names.len()
    }

    /// The name in slot `i`.
    pub fn name(&self, i: usize) -> (r: &str)
        requires
            i < self@.len(),
        ensures
            r@ == self@[i as int],
    {
        self.names[i].as_str()
    }

    /// Registers `x` and returns its slot.
    pub fn insert(&mut self, x: &str) -> (r: usize)
        ensures
            (r as nat, final(self)@) == intern(old(self)@, x@),
            r < final(self)@.len(),
            table_grows(old(self)@, final(self)@),
    {
        proof {
            lemma_find_bounds(self@, x@, 0);
            if distinct(self@) {
                lemma_intern_distinct(self@, x@);
            }
        }
        let n = self.names.len();
        let mut i: usize = 0;
        while i < n
            invariant
                i <= n,
                n == self.names@.len(),
                self@ == old(self)@,
                find(self@, x@, i as int) == find(self@, x@, 0),
            decreases n - i,
        {
            if same_text(self.names[i].as_str(), x) {
                return i;
            }
            i = i + 1;
        }
        self.names.push(x.to_owned());
        assert(self@ =~= old(self)@.push(x@));
        n
    }
}

} // verus!
