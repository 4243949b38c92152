//! File explorer tree.

use vstd::prelude::*;
use vstd::string::*;

verus! {

/// An index into a [`Tree`]: the slot of a [`Node`] in the arena.
///
/// The root is always slot zero.
#[derive(Clone, Copy, Debug, PartialEq, Eq, Hash, Structural)]
pub struct TreeIndex(pub usize);

impl TreeIndex {
    /// The index of the root node.
    pub fn root() -> (r: TreeIndex)
        ensures
            r.0 == 0,
    {
        TreeIndex(0)
    }

    /// The arena slot that this index names.
    pub fn slot(&self) -> (r: usize)
        ensures
            r == self.0,
    {
        self.0
    }
}

/// A file explorer node.
#[derive(Clone, Debug)]
pub struct Node {
    pub path: String,
    pub is_dir: bool,
    pub is_open: bool,
    /// The children, in the order in which they were linked.
    pub children: Vec<TreeIndex>,
    /// How many rows below this node are visible when it is open.
    pub children_open_count: usize,
}

impl Node {
    /// Creates a new closed, childless, non-directory `Node` at `path`.
    pub fn new(path: &str) -> (r: Node)
        ensures
            r.path@ == path@,
            !r.is_dir,
            !r.is_open,
            r.children@.len() == 0,
            r.children_open_count == 0,
    {
        Node {
            path: path.to_owned(),
            is_dir: false,
            is_open: false,
            children: Vec::new(),
            children_open_count: 0,
        }
    }

    /// The path of the node.
    pub fn path(&self) -> (r: &str)
        ensures
            r@ == self.path@,
    {
        self.path.as_str()
    }
}

impl PartialEq for Node {
    fn eq(&self, other: &Self) -> (r: bool) {
        if self.path == other.path && self.is_dir == other.is_dir && self.is_open == other.is_open
            && self.children_open_count == other.children_open_count
            && self.children.len() == other.children.len() {
            let mut k: usize = 0;
            while k < self.children.len()
                invariant
                    self.children@.len() == other.children@.len(),
                    0 <= k <= self.children@.len(),
                    forall|i: int| 0 <= i < k ==> self.children@[i] == other.children@[i],
                decreases self.children@.len() - k,
            {
                if self.children[k] != other.children[k] {
                    return false;
                }
                k += 1;
            }
            proof {
                assert(self.children@ =~= other.children@);
            }
            true
        } else {
            false
        }
    }
}

impl vstd::std_specs::cmp::PartialEqSpecImpl for Node {
    open spec fn obeys_eq_spec() -> bool {
        true
    }

    open spec fn eq_spec(&self, other: &Node) -> bool {
        &&& self.path@ == other.path@
        &&& self.is_dir == other.is_dir
        &&& self.is_open == other.is_open
        &&& self.children_open_count == other.children_open_count
        &&& self.children@ == other.children@
    }
}

/// The slot named by the `k`-th child of a node.
pub open spec fn kid(ch: Seq<TreeIndex>, k: int) -> int {
    ch[k].0 as int
}

/// The rows that a child contributes to its parent's count: itself, plus its
/// cached visible descendants when it is open.
pub open spec fn row_weight(n: Node) -> int {
    1 + if n.is_open {
        n.children_open_count as int
    } else {
        0
    }
}

/// Sum of the row weights of the children `ch[k..]`.
pub open spec fn weight_of(a: Seq<Node>, ch: Seq<TreeIndex>, k: int) -> int
    decreases ch.len() - k,
{
    if 0 <= k < ch.len() {
        row_weight(a[kid(ch, k)]) + weight_of(a, ch, k + 1)
    } else {
        0
    }
}

/// The arena is non-empty and every child lies after its parent, inside it.
pub open spec fn shaped(a: Seq<Node>) -> bool {
    &&& a.len() >= 1
    &&& forall|j: int, k: int|
        0 <= j < a.len() && 0 <= k < a[j].children@.len() ==> j < #[trigger] kid(a[j].children@, k)
            < a.len()
}

/// Every cached count equals the sum of its children's row weights.
pub open spec fn counted(a: Seq<Node>) -> bool {
    forall|j: int|
        0 <= j < a.len() ==> (#[trigger] a[j]).children_open_count as int == weight_of(
            a,
            a[j].children@,
            0,
        )
}

/// Two arenas that differ in the cached counts alone.
pub open spec fn same_shape(a: Seq<Node>, b: Seq<Node>) -> bool {
    &&& a.len() == b.len()
    &&& forall|i: int|
        0 <= i < a.len() ==> {
            &&& (#[trigger] a[i]).path@ == b[i].path@
            &&& a[i].is_dir == b[i].is_dir
            &&& a[i].is_open == b[i].is_open
            &&& a[i].children@ == b[i].children@
        }
}

/// `b` is `a` with node `ix` opened (`open`) or closed, and with the cached
/// counts possibly changed.
pub open spec fn toggled(a: Seq<Node>, b: Seq<Node>, ix: int, open: bool) -> bool {
    &&& a.len() == b.len()
    &&& 0 <= ix < a.len()
    &&& b[ix].is_open == open
    &&& forall|i: int|
        0 <= i < a.len() ==> {
            &&& (#[trigger] b[i]).path@ == a[i].path@
            &&& b[i].is_dir == a[i].is_dir
            &&& b[i].children@ == a[i].children@
            &&& (i != ix ==> b[i].is_open == a[i].is_open)
        }
}

/// The position of the last separator of `q` at or before `i` past its first
/// `rl` characters, or `rl` when there is none.
pub open spec fn last_sep(rl: int, q: Seq<char>, i: int) -> int
    decreases i - rl,
{
    if i <= rl {
        rl
    } else if q[i] == '/' {
        i
    } else {
        last_sep(rl, q, i - 1)
    }
}

/// The path of the directory that holds `q`, in a tree rooted at path `r`.
pub open spec fn parent_path(r: Seq<char>, q: Seq<char>) -> Seq<char> {
    q.subrange(0, last_sep(r.len() as int, q, q.len() - 1))
}

/// The paths of the arena: every node but the root lies below the root's path,
/// its parent holds the path of the directory that holds it, and no two nodes
/// share a path.
#[verifier::opaque]
spec fn paths_ok(a: Seq<Node>, par: Seq<usize>) -> bool {
    &&& forall|i: int|
        0 < i < a.len() ==> (#[trigger] a[i]).path@.len() > a[0].path@.len() && in_tree(
            a[0].path@,
            a[i].path@,
        ) && 0 <= par[i] < i && a[par[i] as int].path@ == parent_path(a[0].path@, a[i].path@)
    &&& forall|i: int, j: int|
        0 <= i < a.len() && 0 <= j < a.len() && i != j ==> (#[trigger] a[i]).path@ != (
        #[trigger] a[j]).path@
}

proof fn lemma_paths_same(a: Seq<Node>, b: Seq<Node>, par: Seq<usize>)
    requires
        paths_ok(a, par),
        a.len() == b.len(),
        forall|i: int| 0 <= i < a.len() ==> (#[trigger] b[i]).path@ == a[i].path@,
    ensures
        paths_ok(b, par),
{
    reveal(paths_ok);
    assert forall|i: int| 0 < i < b.len() implies (#[trigger] b[i]).path@.len() > b[0].path@.len()
        && in_tree(b[0].path@, b[i].path@) && 0 <= par[i] < i && b[par[i] as int].path@
        == parent_path(b[0].path@, b[i].path@) by {
        assert(a[i].path@ == b[i].path@);
        assert(a[0].path@ == b[0].path@);
        assert(a[par[i] as int].path@ == b[par[i] as int].path@);
    }
    assert forall|i: int, j: int|
        0 <= i < b.len() && 0 <= j < b.len() && i != j implies (#[trigger] b[i]).path@ != (
        #[trigger] b[j]).path@ by {
        assert(a[i].path@ == b[i].path@);
        assert(a[j].path@ == b[j].path@);
    }
}

proof fn lemma_paths_attach(
    a: Seq<Node>,
    par: Seq<usize>,
    b: Seq<Node>,
    pb: Seq<usize>,
    parent: usize,
    q: Seq<char>,
)
    requires
        paths_ok(a, par),
        a.len() >= 1,
        0 <= parent < a.len(),
        b.len() == a.len() + 1,
        pb == par.push(parent),
        par.len() == a.len(),
        forall|i: int| 0 <= i < a.len() ==> (#[trigger] b[i]).path@ == a[i].path@,
        b[a.len() as int].path@ == q,
        a[parent as int].path@ == parent_path(a[0].path@, q),
        q.len() > a[0].path@.len(),
        in_tree(a[0].path@, q),
        forall|i: int| 0 <= i < a.len() ==> (#[trigger] a[i]).path@ != q,
    ensures
        paths_ok(b, pb),
{
    reveal(paths_ok);
    let n = a.len() as int;
    assert forall|i: int| 0 < i < b.len() implies (#[trigger] b[i]).path@.len() > b[0].path@.len()
        && in_tree(b[0].path@, b[i].path@) && 0 <= pb[i] < i && b[pb[i] as int].path@
        == parent_path(b[0].path@, b[i].path@) by {
        assert(b[0].path@ == a[0].path@);
        if i < n {
            assert(a[i].path@ == b[i].path@);
            assert(pb[i] == par[i]);
            assert(a[par[i] as int].path@ == b[par[i] as int].path@);
        } else {
            assert(pb[i] == parent);
            assert(b[parent as int].path@ == a[parent as int].path@);
        }
    }
    assert forall|i: int, j: int|
        0 <= i < b.len() && 0 <= j < b.len() && i != j implies (#[trigger] b[i]).path@ != (
        #[trigger] b[j]).path@ by {
        if i < n && j < n {
            assert(a[i].path@ == b[i].path@);
            assert(a[j].path@ == b[j].path@);
        } else if i < n {
            assert(a[i].path@ == b[i].path@);
        } else {
            assert(a[j].path@ == b[j].path@);
        }
    }
}

/// With no separator past `lc` up to `i`, the last one is at `lc`.
proof fn lemma_last_sep_at(rl: int, q: Seq<char>, i: int, lc: int)
    requires
        rl <= lc <= i,
        lc == rl || q[lc] == '/',
        forall|m: int| lc < m <= i ==> q[m] != '/',
    ensures
        last_sep(rl, q, i) == lc,
    decreases i - lc,
{
    if i > lc {
        lemma_last_sep_at(rl, q, i - 1, lc);
    }
}

/// The last separator up to `i` lies at or after every separator up to `i`,
/// and is one, unless it is `rl`.
proof fn lemma_last_sep_bounds(rl: int, q: Seq<char>, i: int, c: int)
    requires
        rl <= i,
    ensures
        rl <= last_sep(rl, q, i) <= i,
        last_sep(rl, q, i) == rl || q[last_sep(rl, q, i)] == '/',
        rl < c <= i && q[c] == '/' ==> last_sep(rl, q, i) >= c,
    decreases i - rl,
{
    if i > rl && q[i] != '/' {
        lemma_last_sep_bounds(rl, q, i - 1, c);
    }
}

/// Sum of the subtree sizes `s` of the children `ch[k..]`.
spec fn size_of(ch: Seq<TreeIndex>, s: Seq<nat>, k: int) -> int
    decreases ch.len() - k,
{
    if 0 <= k < ch.len() {
        s[kid(ch, k)] + size_of(ch, s, k + 1)
    } else {
        0
    }
}

proof fn lemma_weight_frame(a: Seq<Node>, b: Seq<Node>, ch: Seq<TreeIndex>, k: int)
    requires
        forall|k2: int| k <= k2 < ch.len() ==> row_weight(a[#[trigger] kid(ch, k2)]) == row_weight(b[kid(ch, k2)]),
    ensures
        weight_of(a, ch, k) == weight_of(b, ch, k),
    decreases ch.len() - k,
{
    if 0 <= k < ch.len() {
        lemma_weight_frame(a, b, ch, k + 1);
    }
}

proof fn lemma_size_frame(ch: Seq<TreeIndex>, s: Seq<nat>, t: Seq<nat>, k: int)
    requires
        forall|k2: int| k <= k2 < ch.len() ==> s[#[trigger] kid(ch, k2)] == t[kid(ch, k2)],
    ensures
        size_of(ch, s, k) == size_of(ch, t, k),
    decreases ch.len() - k,
{
    if 0 <= k < ch.len() {
        lemma_size_frame(ch, s, t, k + 1);
    }
}

proof fn lemma_size_nonneg(ch: Seq<TreeIndex>, s: Seq<nat>, k: int)
    ensures
        size_of(ch, s, k) >= 0,
        0 <= k < ch.len() ==> size_of(ch, s, k) >= size_of(ch, s, k + 1),
    decreases ch.len() - k,
{
    if 0 <= k < ch.len() {
        lemma_size_nonneg(ch, s, k + 1);
    }
}

proof fn lemma_size_mono(ch: Seq<TreeIndex>, s: Seq<nat>, k: int)
    requires
        0 <= k,
    ensures
        size_of(ch, s, k) <= size_of(ch, s, 0),
    decreases k,
{
    if k > 0 {
        lemma_size_mono(ch, s, k - 1);
        lemma_size_nonneg(ch, s, k - 1);
        if k - 1 >= ch.len() {
            lemma_size_nonneg(ch, s, k);
        }
    }
}

proof fn lemma_weight_le_size(a: Seq<Node>, ch: Seq<TreeIndex>, s: Seq<nat>, k: int)
    requires
        forall|k2: int| k <= k2 < ch.len() ==> row_weight(a[#[trigger] kid(ch, k2)]) <= s[kid(ch, k2)],
    ensures
        weight_of(a, ch, k) <= size_of(ch, s, k),
    decreases ch.len() - k,
{
    if 0 <= k < ch.len() {
        lemma_weight_le_size(a, ch, s, k + 1);
    }
}

/// Raising the size of a slot that occurs once among the children, at `ke`,
/// raises their sum by as much.
proof fn lemma_size_bump(ch: Seq<TreeIndex>, s: Seq<nat>, e: int, g: nat, ke: int, k: int)
    requires
        0 <= ke < ch.len(),
        kid(ch, ke) == e,
        0 <= e < s.len(),
        forall|k2: int| 0 <= k2 < ch.len() && k2 != ke ==> #[trigger] kid(ch, k2) != e,
        forall|k2: int| 0 <= k2 < ch.len() ==> 0 <= #[trigger] kid(ch, k2) < s.len(),
    ensures
        0 <= k <= ke ==> size_of(ch, s.update(e, (s[e] + g) as nat), k) == size_of(ch, s, k) + g,
        k > ke ==> size_of(ch, s.update(e, (s[e] + g) as nat), k) == size_of(ch, s, k),
    decreases ch.len() - k,
{
    if 0 <= k < ch.len() {
        lemma_size_bump(ch, s, e, g, ke, k + 1);
    }
}

/// Appending a child of size one raises the sum by one.
proof fn lemma_size_append(ch: Seq<TreeIndex>, s: Seq<nat>, m: TreeIndex, k: int)
    requires
        0 <= k <= ch.len(),
        forall|k2: int| 0 <= k2 < ch.len() ==> 0 <= #[trigger] kid(ch, k2) < s.len(),
        m.0 == s.len(),
    ensures
        size_of(ch.push(m), s.push(1), k) == size_of(ch, s, k) + 1,
    decreases ch.len() - k,
{
    if k < ch.len() {
        lemma_size_append(ch, s, m, k + 1);
        assert(kid(ch.push(m), k) == kid(ch, k));
    } else {
        assert(kid(ch.push(m), k) == m.0);
        assert(size_of(ch.push(m), s.push(1), k + 1) == 0);
    }
}

/// Whether `p` is the root path `r` itself or a path below it: `r` followed
/// by a separator and more.
pub open spec fn in_tree(r: Seq<char>, p: Seq<char>) -> bool {
    p == r || (p.len() > r.len() && p.subrange(0, r.len() as int) == r && ((r.len() > 0
        && r.last() == '/') || p[r.len() as int] == '/'))
}

/// Whether `q` is a proper ancestor of `p` below the root `r`: the part of `p`
/// before one of its separators that lie past the root.
pub open spec fn ancestor_below(r: Seq<char>, p: Seq<char>, q: Seq<char>) -> bool {
    exists|c: int| r.len() < c < p.len() && p[c] == '/' && q == p.subrange(0, c)
}

/// `p` without the separators at its end, keeping a lone leading one: the
/// path names the same place either way.
pub open spec fn trimmed(p: Seq<char>) -> Seq<char>
    decreases p.len(),
{
    if p.len() > 1 && p.last() == '/' {
        trimmed(p.drop_last())
    } else {
        p
    }
}

/// A copy of `s` without the separators at its end.
fn trim_seps(s: &str) -> (r: String)
    ensures
        r@ == trimmed(s@),
{
    let mut end = s.unicode_len();
    proof {
        assert(s@.subrange(0, end as int) =~= s@);
    }
    while end > 1 && s.get_char(end - 1) == '/'
        invariant
            end <= s@.len(),
            trimmed(s@) == trimmed(s@.subrange(0, end as int)),
        decreases end,
    {
        proof {
            assert(s@.subrange(0, end as int).drop_last() =~= s@.subrange(0, end - 1));
        }
        end -= 1;
    }
    s.substring_char(0, end).to_owned()
}

/// Whether path `p` lies in the tree rooted at path `r`.
fn path_in_tree(r: &str, p: &str) -> (b: bool)
    ensures
        b == in_tree(r@, p@),
{
    let rl = r.unicode_len();
    let pl = p.unicode_len();
    if pl < rl {
        return false;
    }
    let head = p.substring_char(0, rl).to_owned();
    let whole = r.to_owned();
    if head != whole {
        proof {
            if p@ == r@ {
                assert(p@.subrange(0, rl as int) =~= p@);
            }
        }
        return false;
    }
    if pl == rl {
        proof {
            assert(p@ =~= p@.subrange(0, rl as int));
        }
        return true;
    }
    if rl > 0 && r.get_char(rl - 1) == '/' {
        return true;
    }
    p.get_char(rl) == '/'
}

/// A file explorer tree.
#[derive(Clone)]
pub struct Tree {
    arena: Vec<Node>,
    /// The slot of each node's parent; the root's entry is unused.
    parents: Vec<usize>,
    /// The number of nodes in each node's subtree, itself included.
    sizes: Ghost<Seq<nat>>,
}

/// The links of the arena: children lie after their parents, each child
/// records the node that lists it, no node lists a child twice, and every node
/// but the root is listed by its recorded parent.
spec fn linked(a: Seq<Node>, par: Seq<usize>) -> bool {
    let n = a.len();
    &&& shaped(a)
    &&& par.len() == n
    &&& forall|j: int, k: int|
        0 <= j < n && 0 <= k < a[j].children@.len() ==> par[#[trigger] kid(a[j].children@, k)]
            == j
    &&& forall|j: int, k1: int, k2: int|
        0 <= j < n && 0 <= k1 < a[j].children@.len() && 0 <= k2 < a[j].children@.len() && k1
            != k2 ==> #[trigger] kid(a[j].children@, k1) != #[trigger] kid(a[j].children@, k2)
    &&& forall|i: int|
        0 < i < n ==> #[trigger] par[i] < i && exists|k: int|
            0 <= k < a[par[i] as int].children@.len() && #[trigger] kid(
                a[par[i] as int].children@,
                k,
            ) == i
}

proof fn lemma_linked_same(a: Seq<Node>, b: Seq<Node>, par: Seq<usize>)
    requires
        linked(a, par),
        a.len() == b.len(),
        forall|j: int| 0 <= j < a.len() ==> #[trigger] b[j].children@ == a[j].children@,
    ensures
        linked(b, par),
{
    let n = a.len();
    assert forall|j: int, k: int| 0 <= j < n && 0 <= k < b[j].children@.len() implies j
        < #[trigger] kid(b[j].children@, k) < n && par[kid(b[j].children@, k)] == j by {
        assert(b[j].children@ == a[j].children@);
        assert(kid(a[j].children@, k) == kid(b[j].children@, k));
    }
    assert forall|j: int, k1: int, k2: int|
        0 <= j < n && 0 <= k1 < b[j].children@.len() && 0 <= k2 < b[j].children@.len() && k1
            != k2 implies #[trigger] kid(b[j].children@, k1) != #[trigger] kid(b[j].children@, k2) by {
        assert(b[j].children@ == a[j].children@);
        assert(kid(a[j].children@, k1) != kid(a[j].children@, k2));
    }
    assert forall|i: int| 0 < i < n implies #[trigger] par[i] < i && exists|k: int|
        0 <= k < b[par[i] as int].children@.len() && #[trigger] kid(b[par[i] as int].children@, k)
            == i by {
        let pp = par[i] as int;
        let k = choose|k: int| 0 <= k < a[pp].children@.len() && #[trigger] kid(a[pp].children@, k) == i;
        assert(b[pp].children@ == a[pp].children@);
        assert(kid(b[pp].children@, k) == i);
    }
}

/// The tree's invariant, with the cached count of node `e` possibly stale and
/// its size short by `grow`.
spec fn wf_except(a: Seq<Node>, par: Seq<usize>, s: Seq<nat>, e: int, grow: int) -> bool {
    let n = a.len();
    &&& linked(a, par)
    &&& s.len() == n
    &&& forall|j: int| 0 <= j < n ==> #[trigger] s[j] <= n
    &&& forall|j: int| 0 <= j <= e && j < n ==> #[trigger] s[j] + grow <= n
    &&& forall|j: int|
        0 <= j < n && j != e ==> {
            &&& (#[trigger] a[j]).children_open_count + 1 <= s[j]
            &&& a[j].children_open_count as int == weight_of(a, a[j].children@, 0)
            &&& s[j] == 1 + size_of(a[j].children@, s, 0)
        }
    &&& 0 <= e < n ==> s[e] + grow == 1 + size_of(a[e].children@, s, 0)
}

impl View for Tree {
    type V = Seq<Node>;

    closed spec fn view(&self) -> Seq<Node> {
        self.arena@
    }
}

impl Tree {
    /// The tree's invariant.
    pub closed spec fn wf(&self) -> bool {
        &&& wf_except(self.arena@, self.parents@, self.sizes@, -1, 0)
        &&& paths_ok(self.arena@, self.parents@)
    }

    /// The slot of the parent of slot `i`.
    pub closed spec fn parent_of(&self, i: int) -> int {
        self.parents@[i] as int
    }

    /// What the invariant tells callers: the arena's shape, its counts, and
    /// that each child's parent is the node that lists it.
    pub proof fn lemma_wf(&self)
        requires
            self.wf(),
        ensures
            shaped(self@),
            counted(self@),
            forall|j: int, k: int|
                0 <= j < self@.len() && 0 <= k < self@[j].children@.len() ==> self.parent_of(
                    #[trigger] kid(self@[j].children@, k),
                ) == j,
            forall|i: int| 0 < i < self@.len() ==> 0 <= #[trigger] self.parent_of(i) < i,
            forall|j: int| 0 <= j < self@.len() ==> (#[trigger] self@[j]).children_open_count < self@.len(),
            forall|j: int, k1: int, k2: int|
                0 <= j < self@.len() && 0 <= k1 < self@[j].children@.len() && 0 <= k2
                    < self@[j].children@.len() && k1 != k2 ==> #[trigger] kid(self@[j].children@, k1)
                    != #[trigger] kid(self@[j].children@, k2),
            forall|i: int, j: int|
                0 <= i < self@.len() && 0 <= j < self@.len() && i != j ==> (#[trigger] self@[i]).path@
                    != (#[trigger] self@[j]).path@,
    {
        reveal(paths_ok);
        assert forall|j: int| 0 <= j < self@.len() implies (#[trigger] self@[j]).children_open_count
            as int == weight_of(self@, self@[j].children@, 0) by {
            assert(j != -1);
        }
    }

    /// Creates a new `Tree` with `base` at the root.
    ///
    /// The root keeps the path and flags of `base`; it starts with no children.
    pub fn new(base: Node) -> (r: Tree)
        ensures
            r.wf(),
            r@.len() == 1,
            r@[0].path@ == base.path@,
            r@[0].is_dir == base.is_dir,
            r@[0].is_open == base.is_open,
            r@[0].children@.len() == 0,
    {
        let root = Node {
            path: base.path,
            is_dir: base.is_dir,
            is_open: base.is_open,
            children: Vec::new(),
            children_open_count: 0,
        };
        let mut arena: Vec<Node> = Vec::new();
        arena.push(root);
        let mut parents: Vec<usize> = Vec::new();
        parents.push(0);
        let ghost sizes: Seq<nat> = seq![1nat];
        let t = Tree { arena, parents, sizes: Ghost(sizes) };
        proof {
            reveal(paths_ok);
            assert(t.arena@[0].children@.len() == 0);
            assert(size_of(t.arena@[0].children@, t.sizes@, 0) == 0);
            assert(weight_of(t.arena@, t.arena@[0].children@, 0) == 0);
        }
        t
    }

    /// Sum of the row weights of the children of node `e`.
    fn children_weight(&self, e: usize, Ghost(grow): Ghost<int>) -> (w: usize)
        requires
            wf_except(self.arena@, self.parents@, self.sizes@, e as int, grow),
            e < self.arena@.len(),
        ensures
            w == weight_of(self.arena@, self.arena@[e as int].children@, 0),
            w < self.sizes@[e as int] + grow,
    {
        let ghost a = self.arena@;
        let ghost s = self.sizes@;
        let ghost ch = a[e as int].children@;
        let total = self.arena.len();
        let n = self.arena[e].children.len();
        let mut k: usize = n;
        let mut acc: usize = 0;
        proof {
            assert forall|k2: int| 0 <= k2 < ch.len() implies row_weight(a[#[trigger] kid(ch, k2)])
                <= s[kid(ch, k2)] by {
                assert(e < kid(a[e as int].children@, k2));
            }
            lemma_weight_le_size(a, ch, s, 0);
        }
        while k > 0
            invariant
                self.arena@ == a,
                self.sizes@ == s,
                ch == a[e as int].children@,
                wf_except(a, self.parents@, s, e as int, grow),
                e < a.len(),
                total == a.len(),
                n == ch.len(),
                0 <= k <= n,
                acc == weight_of(a, ch, k as int),
                forall|k2: int| 0 <= k2 < ch.len() ==> row_weight(a[#[trigger] kid(ch, k2)])
                    <= s[kid(ch, k2)],
            decreases k,
        {
            k -= 1;
            let c = self.arena[e].children[k].0;
            proof {
                assert(kid(ch, k as int) == c);
                lemma_weight_le_size(a, ch, s, k as int);
                lemma_size_mono(ch, s, k as int);
                assert(weight_of(a, ch, k as int) == row_weight(a[c as int]) + acc);
                assert(s[e as int] + grow <= a.len());
                assert(size_of(ch, s, 0) == s[e as int] + grow - 1);
            }
            if self.arena[c].is_open {
                acc = acc + 1 + self.arena[c].children_open_count;
            } else {
                acc = acc + 1;
            }
        }
        acc
    }

    /// Recomputes the cached count of node `e` and of each of its ancestors,
    /// from `e` up to the root.
    #[verifier::rlimit(80)]
    fn update_node(&mut self, e: usize, Ghost(grow): Ghost<int>)
        requires
            wf_except(old(self).arena@, old(self).parents@, old(self).sizes@, e as int, grow),
            grow == 0 || grow == 1,
            paths_ok(old(self).arena@, old(self).parents@),
        ensures
            e < old(self).arena@.len() ==> final(self).wf(),
            e >= old(self).arena@.len() ==> *final(self) == *old(self),
            same_shape(final(self).arena@, old(self).arena@),
            final(self).parents@ == old(self).parents@,
    {
        if e >= self.arena.len() {
            return;
        }
        let mut e = e;
        loop
            invariant_except_break
                wf_except(self.arena@, self.parents@, self.sizes@, e as int, grow),
                e < self.arena@.len(),
            invariant
                grow == 0 || grow == 1,
                paths_ok(old(self).arena@, old(self).parents@),
                same_shape(self.arena@, old(self).arena@),
                self.parents@ == old(self).parents@,
            ensures
                self.wf(),
                same_shape(self.arena@, old(self).arena@),
                self.parents@ == old(self).parents@,
            decreases e,
        {
            let ghost a = self.arena@;
            let ghost s = self.sizes@;
            let ghost par = self.parents@;
            let w = self.children_weight(e, Ghost(grow));
            self.arena[e].children_open_count = w;
            let ghost s2 = s.update(e as int, (s[e as int] + grow) as nat);
            self.sizes = Ghost(s2);
            let ghost a2 = self.arena@;
            let ghost p: int = if e == 0 { -1 } else { par[e as int] as int };
            proof {
                let n = a.len();
                assert(a2 == a.update(e as int, a2[e as int]));
                assert forall|j: int| 0 <= j < n implies #[trigger] a2[j].children@ == a[j].children@ by {}
                lemma_linked_same(a, a2, par);
                assert forall|j: int| 0 <= j < n && j != p implies {
                    &&& (#[trigger] a2[j]).children_open_count + 1 <= s2[j]
                    &&& a2[j].children_open_count as int == weight_of(a2, a2[j].children@, 0)
                    &&& s2[j] == 1 + size_of(a2[j].children@, s2, 0)
                } by {
                    let ch = a[j].children@;
                    assert forall|k2: int| 0 <= k2 < ch.len() implies #[trigger] kid(ch, k2) != e by {
                        if kid(ch, k2) == e {
                            assert(par[kid(a[j].children@, k2)] == j);
                        }
                    }
                    lemma_weight_frame(a, a2, ch, 0);
                    lemma_size_frame(ch, s, s2, 0);
                }
                if e > 0 {
                    let pp = par[e as int] as int;
                    let ke = choose|k: int| 0 <= k < a[pp].children@.len() && #[trigger] kid(a[pp].children@, k) == e;
                    lemma_size_bump(a[pp].children@, s, e as int, grow as nat, ke, 0);
                    assert(s2[pp] + grow == 1 + size_of(a2[pp].children@, s2, 0));
                }
                assert(shaped(a2));
            }
            if e == 0 {
                proof {
                    assert forall|i: int| 0 <= i < a2.len() implies (#[trigger] a2[i]).path@
                        == old(self).arena@[i].path@ by {
                        assert(same_shape(a2, old(self).arena@));
                    }
                    lemma_paths_same(old(self).arena@, a2, par);
                }
                break;
            }
            e = self.parents[e];
        }
    }

    /// Appends `node` as a new child of `parent`, with no children of its own,
    /// and brings the cached counts up to date.
    fn attach(&mut self, parent: usize, node: Node) -> (r: usize)
        requires
            old(self).wf(),
            parent < old(self)@.len(),
            old(self)@.len() < usize::MAX,
            old(self)@[parent as int].path@ == parent_path(old(self)@[0].path@, node.path@),
            node.path@.len() > old(self)@[0].path@.len(),
            in_tree(old(self)@[0].path@, node.path@),
            forall|i: int| 0 <= i < old(self)@.len() ==> (#[trigger] old(self)@[i]).path@ != node.path@,
        ensures
            final(self).wf(),
            r == old(self)@.len(),
            final(self)@.len() == old(self)@.len() + 1,
            final(self)@[r as int].path@ == node.path@,
            final(self)@[r as int].is_dir == node.is_dir,
            final(self)@[r as int].is_open == node.is_open,
            final(self)@[r as int].children@.len() == 0,
            final(self).parent_of(r as int) == parent,
            final(self)@[parent as int].children@ == old(self)@[parent as int].children@.push(
                TreeIndex(r),
            ),
            forall|i: int|
                0 <= i < old(self)@.len() && i != parent ==> (#[trigger] final(self)@[i]).children@
                    == old(self)@[i].children@,
            forall|i: int|
                0 <= i < old(self)@.len() ==> {
                    &&& (#[trigger] final(self)@[i]).path@ == old(self)@[i].path@
                    &&& final(self)@[i].is_dir == old(self)@[i].is_dir
                    &&& final(self)@[i].is_open == old(self)@[i].is_open
                },
            forall|i: int| 0 < i < old(self)@.len() ==> #[trigger] final(self).parent_of(i) == old(self).parent_of(i),
    {
        let ghost a = self.arena@;
        let ghost s = self.sizes@;
        let ghost par = self.parents@;
        let m = self.arena.len();
        let fresh = Node {
            path: node.path,
            is_dir: node.is_dir,
            is_open: node.is_open,
            children: Vec::new(),
            children_open_count: 0,
        };
        self.arena.push(fresh);
        self.parents.push(parent);
        self.arena[parent].children.push(TreeIndex(m));
        let ghost s2 = s.push(1nat);
        self.sizes = Ghost(s2);
        let ghost a2 = self.arena@;
        let ghost par2 = self.parents@;
        proof {
            let n = a.len();
            let n2 = a2.len();
            assert(n2 == n + 1);
            assert forall|j: int| 0 <= j < n && j != parent implies #[trigger] a2[j] == a[j] by {}
            assert(a2[parent as int].children@ == a[parent as int].children@.push(TreeIndex(m)));
            assert(a2[m as int].children@.len() == 0);
            assert forall|j: int, k: int| 0 <= j < n2 && 0 <= k < a2[j].children@.len()
                implies j < #[trigger] kid(a2[j].children@, k) < n2 && par2[kid(a2[j].children@, k)] == j by {
                if j == parent && k == a[parent as int].children@.len() {
                } else {
                    assert(kid(a2[j].children@, k) == kid(a[j].children@, k));
                }
            }
            assert(shaped(a2));
            assert forall|j: int, k1: int, k2: int|
                0 <= j < n2 && 0 <= k1 < a2[j].children@.len() && 0 <= k2 < a2[j].children@.len() && k1
                    != k2 implies #[trigger] kid(a2[j].children@, k1) != #[trigger] kid(a2[j].children@, k2) by {
                let l = a[parent as int].children@.len();
                if j == parent && (k1 == l || k2 == l) {
                    if k1 != l {
                        assert(kid(a2[j].children@, k1) == kid(a[j].children@, k1));
                    } else {
                        assert(kid(a2[j].children@, k2) == kid(a[j].children@, k2));
                    }
                } else {
                    assert(kid(a2[j].children@, k1) == kid(a[j].children@, k1));
                    assert(kid(a2[j].children@, k2) == kid(a[j].children@, k2));
                }
            }
            assert forall|i: int| 0 < i < n2 implies #[trigger] par2[i] < i && exists|k: int|
                0 <= k < a2[par2[i] as int].children@.len() && #[trigger] kid(a2[par2[i] as int].children@, k) == i by {
                if i == m {
                    assert(kid(a2[parent as int].children@, a[parent as int].children@.len() as int) == i);
                } else {
                    let pp = par[i] as int;
                    let k = choose|k: int| 0 <= k < a[pp].children@.len() && #[trigger] kid(a[pp].children@, k) == i;
                    assert(kid(a2[pp].children@, k) == i);
                }
            }
            assert forall|j: int| 0 <= j < n2 && j != parent implies {
                &&& (#[trigger] a2[j]).children_open_count + 1 <= s2[j]
                &&& a2[j].children_open_count as int == weight_of(a2, a2[j].children@, 0)
                &&& s2[j] == 1 + size_of(a2[j].children@, s2, 0)
            } by {
                if j == m {
                    assert(weight_of(a2, a2[j].children@, 0) == 0);
                    assert(size_of(a2[j].children@, s2, 0) == 0);
                } else {
                    let ch = a[j].children@;
                    assert forall|k2: int| 0 <= k2 < ch.len() implies row_weight(a[#[trigger] kid(ch, k2)]) == row_weight(a2[kid(ch, k2)])
                        && s[kid(ch, k2)] == s2[kid(ch, k2)] by {
                        assert(kid(a[j].children@, k2) < n);
                    }
                    lemma_weight_frame(a, a2, ch, 0);
                    lemma_size_frame(ch, s, s2, 0);
                }
            }
            let pch = a[parent as int].children@;
            assert forall|k2: int| 0 <= k2 < pch.len() implies 0 <= #[trigger] kid(pch, k2) < s.len() by {
                assert(kid(a[parent as int].children@, k2) < n);
            }
            lemma_size_append(pch, s, TreeIndex(m), 0);
            assert(s2[parent as int] + 1 == 1 + size_of(a2[parent as int].children@, s2, 0));
            assert forall|i: int| 0 <= i < n implies (#[trigger] a2[i]).path@ == a[i].path@ by {
                if i == parent {
                } else {
                    assert(a2[i] == a[i]);
                }
            }
            lemma_paths_attach(a, par, a2, par2, parent, node.path@);
        }
        self.update_node(parent, Ghost(1));
        m
    }

    /// The child of node `cur` whose path is `q`, if it has one.
    fn find_child(&self, cur: usize, q: &String) -> (r: Option<usize>)
        requires
            self.wf(),
            cur < self@.len(),
        ensures
            r matches Some(c) ==> c < self@.len() && self@[c as int].path@ == q@ && exists|k: int|
                0 <= k < self@[cur as int].children@.len() && #[trigger] kid(
                    self@[cur as int].children@,
                    k,
                ) == c,
            r is None ==> forall|k: int|
                0 <= k < self@[cur as int].children@.len() ==> self@[#[trigger] kid(
                    self@[cur as int].children@,
                    k,
                )].path@ != q@,
    {
        let n = self.arena[cur].children.len();
        let mut k: usize = 0;
        while k < n
            invariant
                self.wf(),
                cur < self@.len(),
                n == self@[cur as int].children@.len(),
                0 <= k <= n,
                forall|k2: int|
                    0 <= k2 < k ==> self@[#[trigger] kid(self@[cur as int].children@, k2)].path@
                        != q@,
            decreases n - k,
        {
            let c = self.arena[cur].children[k].0;
            proof {
                assert(kid(self@[cur as int].children@, k as int) == c);
            }
            if self.arena[c].path == *q {
                return Some(c);
            }
            k += 1;
        }
        None
    }

    /// Creates a node in the tree at the path of `node`, with every missing
    /// directory between the root and it. Separators at the end of the path
    /// are dropped: `/etc/` and `/etc` name the same node.
    ///
    /// Returns the index of the node at that path, or `None` when the path
    /// does not lie in the tree. A node that is already present is left as it
    /// is. A missing ancestor is made a closed directory; the node itself keeps
    /// the path and flags of `node` and starts with no children.
    #[verifier::rlimit(60)]
    pub fn create(&mut self, node: Node) -> (r: Option<TreeIndex>)
        requires
            old(self).wf(),
            old(self)@.len() + trimmed(node.path@).len() < usize::MAX,
        ensures
            final(self).wf(),
            r is None <==> !in_tree(old(self)@[0].path@, trimmed(node.path@)),
            r is None ==> final(self)@ == old(self)@,
            r matches Some(ix) ==> ix.0 < final(self)@.len() && final(self)@[ix.0 as int].path@
                == trimmed(node.path@),
            r matches Some(ix) ==> (ix.0 >= old(self)@.len() ==> final(self)@[ix.0 as int].is_dir
                == node.is_dir && final(self)@[ix.0 as int].is_open == node.is_open),
            final(self)@.len() >= old(self)@.len(),
            forall|i: int|
                0 <= i < old(self)@.len() ==> {
                    &&& (#[trigger] final(self)@[i]).path@ == old(self)@[i].path@
                    &&& final(self)@[i].is_dir == old(self)@[i].is_dir
                    &&& final(self)@[i].is_open == old(self)@[i].is_open
                },
            forall|i: int|
                old(self)@.len() <= i < final(self)@.len() ==> (#[trigger] final(self)@[i]).path@
                    == trimmed(node.path@) || (ancestor_below(old(self)@[0].path@, trimmed(node.path@), final(self)@[i].path@)
                    && final(self)@[i].is_dir && !final(self)@[i].is_open),
            forall|i: int|
                0 <= i < old(self)@.len() ==> old(self)@[i].children@.is_prefix_of(
                    (#[trigger] final(self)@[i]).children@,
                ),
            forall|x: int|
                0 <= x < old(self)@.len() && (#[trigger] old(self)@[x]).path@ == trimmed(node.path@) ==> r
                    == Some(TreeIndex(x as usize)) && final(self)@ == old(self)@,
    {
        let ghost old_arena = self@;
        let ghost present = exists|x: int|
            0 <= x < old_arena.len() && (#[trigger] old_arena[x]).path@ == trimmed(node.path@);
        let ghost px: int = if present {
            choose|x: int| 0 <= x < old_arena.len() && (#[trigger] old_arena[x]).path@ == trimmed(node.path@)
        } else {
            0
        };
        proof {
            if present {
                assert forall|x: int|
                    0 <= x < old_arena.len() && (#[trigger] old_arena[x]).path@
                        == trimmed(node.path@) implies x == px by {
                    self.lemma_unique_path(x, px);
                }
            }
        }
        let root = self.arena[0].path.clone();
        let p = trim_seps(node.path.as_str());
        if !path_in_tree(root.as_str(), p.as_str()) {
            proof {
                if present {
                    self.lemma_path_facts(px);
                }
            }
            return None;
        }
        let rlen = root.as_str().unicode_len();
        let plen = p.as_str().unicode_len();
        if plen == rlen {
            proof {
                assert(p@ == root@);
                if present {
                    self.lemma_path_facts(px);
                }
            }
            return Some(TreeIndex(0));
        }
        let ghost rl = rlen as int;
        let mut cur: usize = 0;
        let ghost mut lc: int = rl;
        let mut i: usize = rlen + 1;
        proof {
            if present {
                self.lemma_path_facts(px);
            }
        }
        while i < plen
            invariant
                self.wf(),
                root@ == old_arena[0].path@,
                self@[0].path@ == root@,
                p@ == trimmed(node.path@),
                in_tree(root@, p@),
                rl == rlen,
                rlen == root@.len(),
                plen == p@.len(),
                rlen < i <= plen,
                cur < self@.len(),
                rl <= lc < i,
                lc == rl || p@[lc] == '/',
                forall|m: int| lc < m < i ==> p@[m] != '/',
                self@[cur as int].path@ == p@.subrange(0, lc),
                present ==> self@ == old_arena && 0 < px < old_arena.len() && old_arena[px].path@
                    == p@,
                old_arena.len() <= self@.len() <= old_arena.len() + i - rlen - 1,
                old_arena.len() + plen < usize::MAX,
                forall|j: int|
                    0 <= j < old_arena.len() ==> {
                        &&& (#[trigger] self@[j]).path@ == old_arena[j].path@
                        &&& self@[j].is_dir == old_arena[j].is_dir
                        &&& self@[j].is_open == old_arena[j].is_open
                        &&& old_arena[j].children@.is_prefix_of(self@[j].children@)
                    },
                forall|j: int|
                    old_arena.len() <= j < self@.len() ==> ancestor_below(
                        root@,
                        p@,
                        (#[trigger] self@[j]).path@,
                    ) && self@[j].is_dir && !self@[j].is_open,
            decreases plen - i,
        {
            if p.as_str().get_char(i) == '/' {
                let q = p.as_str().substring_char(0, i).to_owned();
                proof {
                    lemma_last_sep_at(rl, q@, i - 1, lc);
                    assert(q@.subrange(0, lc) =~= p@.subrange(0, lc));
                    assert(self@[0].path@ == root@);
                    assert(self@[cur as int].path@ == parent_path(self@[0].path@, q@));
                }
                match self.find_child(cur, &q) {
                    Some(c) => {
                        cur = c;
                    },
                    None => {
                        proof {
                            self.lemma_absent(cur as int, q@);
                            if present {
                                self.lemma_ancestor_exists(px, i as int);
                                assert(old_arena[px].path@.subrange(0, i as int) =~= q@);
                            }
                        }
                        let mut dir = Node::new(q.as_str());
                        dir.is_dir = true;
                        proof {
                            assert(q@.subrange(0, rl) =~= p@.subrange(0, rl));
                            assert(q@[rl] == p@[rl]);
                            assert(in_tree(root@, q@));
                            assert(ancestor_below(root@, p@, q@)) by {
                                assert(rlen < i < plen && p@[i as int] == '/');
                            }
                        }
                        cur = self.attach(cur, dir);
                    },
                }
                proof {
                    lc = i as int;
                }
            }
            i += 1;
        }
        proof {
            lemma_last_sep_at(rl, p@, plen - 1, lc);
            assert(self@[0].path@ == root@);
            assert(self@[cur as int].path@ == parent_path(self@[0].path@, p@));
        }
        match self.find_child(cur, &p) {
            Some(c) => {
                proof {
                    if present {
                        self.lemma_unique_path(px, c as int);
                    }
                }
                Some(TreeIndex(c))
            },
            None => {
                proof {
                    self.lemma_absent(cur as int, p@);
                    if present {
                        assert(self@[px].path@ == p@);
                    }
                }
                let leaf = Node {
                    path: p,
                    is_dir: node.is_dir,
                    is_open: node.is_open,
                    children: Vec::new(),
                    children_open_count: 0,
                };
                let ix = self.attach(cur, leaf);
                Some(TreeIndex(ix))
            },
        }
    }

    /// A node other than the root lies below the root's path.
    proof fn lemma_path_facts(&self, i: int)
        requires
            self.wf(),
            0 <= i < self@.len(),
        ensures
            in_tree(self@[0].path@, self@[i].path@),
            i > 0 ==> self@[i].path@.len() > self@[0].path@.len(),
    {
        reveal(paths_ok);
        if i == 0 {
        }
    }

    /// No two nodes share a path.
    proof fn lemma_unique_path(&self, i: int, j: int)
        requires
            self.wf(),
            0 <= i < self@.len(),
            0 <= j < self@.len(),
            self@[i].path@ == self@[j].path@,
        ensures
            i == j,
    {
        reveal(paths_ok);
    }

    /// Every node but the root lies below the root's path and is a child of
    /// the node that holds the path of its directory.
    pub proof fn lemma_paths_linked(&self, x: int)
        requires
            self.wf(),
            0 < x < self@.len(),
        ensures
            in_tree(self@[0].path@, self@[x].path@),
            0 <= self.parent_of(x) < x,
            self@[self.parent_of(x)].path@ == parent_path(self@[0].path@, self@[x].path@),
            exists|k: int|
                0 <= k < self@[self.parent_of(x)].children@.len() && #[trigger] kid(
                    self@[self.parent_of(x)].children@,
                    k,
                ) == x,
    {
        reveal(paths_ok);
        assert(self.parents@[x] < x);
    }

    /// A path whose directory is node `cur`, and that no child of `cur` has,
    /// is nowhere in the tree.
    proof fn lemma_absent(&self, cur: int, q: Seq<char>)
        requires
            self.wf(),
            0 <= cur < self@.len(),
            q.len() > self@[0].path@.len(),
            self@[cur].path@ == parent_path(self@[0].path@, q),
            forall|k: int|
                0 <= k < self@[cur].children@.len() ==> self@[#[trigger] kid(
                    self@[cur].children@,
                    k,
                )].path@ != q,
        ensures
            forall|z: int| 0 <= z < self@.len() ==> (#[trigger] self@[z]).path@ != q,
    {
        reveal(paths_ok);
        let a = self.arena@;
        let par = self.parents@;
        assert forall|z: int| 0 <= z < a.len() implies (#[trigger] a[z]).path@ != q by {
            if a[z].path@ == q {
                assert(z != 0);
                let pz = par[z] as int;
                assert(a[pz].path@ == a[cur].path@);
                assert(pz == cur);
                let k = choose|k: int| 0 <= k < a[pz].children@.len() && #[trigger] kid(a[pz].children@, k) == z;
                assert(a[kid(a[cur].children@, k)].path@ != q);
            }
        }
    }

    /// Each directory on the path of a node below the root is a node too.
    pub proof fn lemma_ancestor_exists(&self, x: int, c: int)
        requires
            self.wf(),
            0 < x < self@.len(),
            self@[0].path@.len() < c < self@[x].path@.len(),
            self@[x].path@[c] == '/',
        ensures
            exists|z: int| 0 <= z < self@.len() && (#[trigger] self@[z]).path@ == self@[x].path@.subrange(0, c),
        decreases x,
    {
        reveal(paths_ok);
        let a = self.arena@;
        let rl = a[0].path@.len() as int;
        let pth = a[x].path@;
        let y = self.parents@[x] as int;
        let l = last_sep(rl, pth, pth.len() - 1);
        lemma_last_sep_bounds(rl, pth, pth.len() - 1, c);
        assert(a[y].path@ == pth.subrange(0, l));
        if l == c {
            assert(a[y].path@ == pth.subrange(0, c));
        } else {
            assert(y != 0);
            assert(a[y].path@[c] == '/');
            self.lemma_ancestor_exists(y, c);
            let z = choose|z: int| 0 <= z < a.len() && (#[trigger] a[z]).path@ == a[y].path@.subrange(0, c);
            assert(a[z].path@ =~= pth.subrange(0, c));
        }
    }

    /// Opens or closes node `ix`, and brings the cached counts up to date.
    ///
    /// Nothing changes for an index outside the tree.
    #[verifier::rlimit(60)]
    pub fn set_open(&mut self, ix: TreeIndex, open: bool)
        requires
            old(self).wf(),
        ensures
            final(self).wf(),
            ix.0 < old(self)@.len() ==> toggled(old(self)@, final(self)@, ix.0 as int, open),
            ix.0 >= old(self)@.len() ==> final(self)@ == old(self)@,
            final(self)@.len() == old(self)@.len(),
            forall|i: int|
                0 <= i < old(self)@.len() ==> {
                    &&& (#[trigger] final(self)@[i]).path@ == old(self)@[i].path@
                    &&& final(self)@[i].is_dir == old(self)@[i].is_dir
                    &&& final(self)@[i].children@ == old(self)@[i].children@
                    &&& (i != ix.0 ==> final(self)@[i].is_open == old(self)@[i].is_open)
                },
            forall|i: int| 0 <= i < old(self)@.len() ==> #[trigger] final(self).parent_of(i) == old(self).parent_of(i),
    {
        if ix.0 >= self.arena.len() {
            return;
        }
        let i = ix.0;
        let ghost a = self.arena@;
        let ghost s = self.sizes@;
        let ghost par = self.parents@;
        self.arena[i].is_open = open;
        let ghost a2 = self.arena@;
        proof {
            assert forall|j: int| 0 <= j < a.len() implies #[trigger] a2[j].children@ == a[j].children@ by {}
            lemma_linked_same(a, a2, par);
            assert forall|j: int| 0 <= j < a.len() implies (#[trigger] a2[j]).path@ == a[j].path@ by {}
            lemma_paths_same(a, a2, par);
        }
        if i == 0 {
            proof {
                assert forall|j: int| 0 <= j < a.len() implies #[trigger] a2[j].children_open_count as int
                    == weight_of(a2, a2[j].children@, 0) by {
                    let ch = a[j].children@;
                    assert forall|k2: int| 0 <= k2 < ch.len() implies row_weight(a[#[trigger] kid(ch, k2)]) == row_weight(a2[kid(ch, k2)]) by {
                        assert(j < kid(a[j].children@, k2));
                    }
                    lemma_weight_frame(a, a2, ch, 0);
                    assert(j != -1);
                }
                assert(shaped(a2));
            }
            return;
        }
        let p = self.parents[i];
        proof {
            assert forall|j: int| 0 <= j < a.len() && j != p implies {
                &&& (#[trigger] a2[j]).children_open_count + 1 <= s[j]
                &&& a2[j].children_open_count as int == weight_of(a2, a2[j].children@, 0)
                &&& s[j] == 1 + size_of(a2[j].children@, s, 0)
            } by {
                let ch = a[j].children@;
                assert forall|k2: int| 0 <= k2 < ch.len() implies row_weight(a[#[trigger] kid(ch, k2)]) == row_weight(a2[kid(ch, k2)]) by {
                    if kid(ch, k2) == i {
                        assert(par[kid(a[j].children@, k2)] == j);
                    }
                }
                lemma_weight_frame(a, a2, ch, 0);
                assert(j != -1);
            }
            assert(p != -1);
            assert(shaped(a2));
        }
        self.update_node(p, Ghost(0));
    }

    /// The number of nodes in the tree.
    pub fn len(&self) -> (r: usize)
        ensures
            r == self@.len(),
    {
        self.arena.len()
    }

    /// Gets the root node.
    pub fn root(&self) -> (r: &Node)
        requires
            self.wf(),
        ensures
            *r == self@[0],
    {
        &self.arena[0]
    }

    /// Gets the root node mutably.
    ///
    /// Changing the node through the reference may break the cached counts;
    /// [`Tree::set_open`] keeps them.
    pub fn root_mut(&mut self) -> (r: &mut Node)
        requires
            old(self).wf(),
        ensures
            *r == old(self)@[0],
            final(self)@ == old(self)@.update(0, *final(r)),
    {
        &mut self.arena[0]
    }

    /// Gets a specific node in the tree, or nothing for an index outside it.
    pub fn get(&self, ix: TreeIndex) -> (r: Option<&Node>)
        ensures
            ix.0 < self@.len() ==> r == Some(&self@[ix.0 as int]),
            ix.0 >= self@.len() ==> r is None,
    {
        if ix.0 < self.arena.len() {
            Some(&self.arena[ix.0])
        } else {
            None
        }
    }

    /// Gets a specific node in the tree mutably, or nothing for an index
    /// outside it.
    ///
    /// Changing the node through the reference may break the cached counts;
    /// [`Tree::set_open`] keeps them.
    pub fn get_mut(&mut self, ix: TreeIndex) -> (r: Option<&mut Node>)
        ensures
            ix.0 < old(self)@.len() ==> (r matches Some(m) && *m == old(self)@[ix.0 as int]
                && final(self)@ == old(self)@.update(ix.0 as int, *final(m))),
            ix.0 >= old(self)@.len() ==> r is None && final(self)@ == old(self)@,
    {
        if ix.0 < self.arena.len() {
            Some(&mut self.arena[ix.0])
        } else {
            None
        }
    }
}

} // verus!
