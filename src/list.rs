//! Visible-order traversal of a [`Tree`] and a windowed view over it.

use vstd::prelude::*;
use vstd::string::*;

use crate::data::{counted, kid, shaped, toggled, weight_of, Node, Tree, TreeIndex};

verus! {

/// The rows visible below node `j`, from its `k`-th child on, each with its
/// depth, the first at depth `d`: a child, then (when it is open) the rows
/// below it one level deeper, then the next child.
pub open spec fn visible_from(a: Seq<Node>, j: int, k: int, d: nat) -> Seq<(int, nat)>
    decreases a.len() - j, a[j].children@.len() - k,
{
    if 0 <= j < a.len() && 0 <= k < a[j].children@.len() {
        let c = kid(a[j].children@, k);
        let below = if j < c < a.len() && a[c].is_open {
            visible_from(a, c, 0, d + 1)
        } else {
            Seq::empty()
        };
        seq![(c, d)] + below + visible_from(a, j, k + 1, d)
    } else {
        Seq::empty()
    }
}

/// The rows visible below the root, in depth-first order.
pub open spec fn visible(a: Seq<Node>) -> Seq<(int, nat)> {
    visible_from(a, 0, 0, 0)
}

/// The number of rows visible below node `j` from its `k`-th child on is the
/// sum of those children's row weights.
pub proof fn lemma_visible_len(a: Seq<Node>, j: int, k: int, d: nat)
    requires
        shaped(a),
        counted(a),
        0 <= j < a.len(),
        0 <= k,
    ensures
        visible_from(a, j, k, d).len() == weight_of(a, a[j].children@, k),
    decreases a.len() - j, a[j].children@.len() - k,
{
    if k < a[j].children@.len() {
        let c = kid(a[j].children@, k);
        assert(j < c < a.len());
        lemma_visible_len(a, j, k + 1, d);
        if a[c].is_open {
            lemma_visible_len(a, c, 0, d + 1);
            assert(a[c].children_open_count as int == weight_of(a, a[c].children@, 0));
        }
    }
}

/// The cached count of the root is the number of rows a full traversal
/// visits, for every tree and every choice of open and closed nodes.
pub proof fn lemma_root_count_is_visible_len(t: &Tree)
    requires
        t.wf(),
    ensures
        t@[0].children_open_count == visible(t@).len(),
{
    t.lemma_wf();
    lemma_visible_len(t@, 0, 0, 0);
}

/// The visible rows depend on the children and the open flags alone.
proof fn lemma_visible_same(a: Seq<Node>, b: Seq<Node>, j: int, k: int, d: nat)
    requires
        a.len() == b.len(),
        forall|i: int|
            0 <= i < a.len() ==> (#[trigger] a[i]).children@ == b[i].children@ && a[i].is_open
                == b[i].is_open,
    ensures
        visible_from(a, j, k, d) == visible_from(b, j, k, d),
    decreases a.len() - j, a[j].children@.len() - k,
{
    if 0 <= j < a.len() && 0 <= k < a[j].children@.len() {
        assert(a[j].children@ == b[j].children@);
        let c = kid(a[j].children@, k);
        lemma_visible_same(a, b, j, k + 1, d);
        if j < c < a.len() {
            assert(a[c].is_open == b[c].is_open);
            lemma_visible_same(a, b, c, 0, d + 1);
        }
    }
}

/// Closing an open node and then opening it again gives back the same
/// visible rows, in the same order, and the same count at the root.
pub proof fn lemma_close_reopen(before: &Tree, closed: &Tree, after: &Tree, ix: int)
    requires
        before.wf(),
        closed.wf(),
        after.wf(),
        before@[ix].is_open,
        toggled(before@, closed@, ix, false),
        toggled(closed@, after@, ix, true),
    ensures
        visible(after@) == visible(before@),
        after@[0].children_open_count == before@[0].children_open_count,
{
    let a = before@;
    let b = after@;
    assert forall|i: int| 0 <= i < a.len() implies (#[trigger] a[i]).children@ == b[i].children@
        && a[i].is_open == b[i].is_open by {
        assert(closed@[i].children@ == a[i].children@);
    }
    lemma_visible_same(a, b, 0, 0, 0);
    lemma_root_count_is_visible_len(before);
    lemma_root_count_is_visible_len(after);
}

/// Whether slot `x` occurs among the rows `s`.
pub open spec fn shows_slot(s: Seq<(int, nat)>, x: int) -> bool {
    exists|i: int| 0 <= i < s.len() && (#[trigger] s[i]).0 == x
}

/// Whether node `x` lies below node `anc`: `anc` is its parent, or lies above
/// its parent.
pub open spec fn is_below(t: &Tree, anc: int, x: int) -> bool
    decreases x,
{
    if 0 < x && 0 <= t.parent_of(x) < x {
        t.parent_of(x) == anc || is_below(t, anc, t.parent_of(x))
    } else {
        false
    }
}

/// Each visible row's parent is the node `j` the rows start from, or an open
/// node among the rows.
proof fn lemma_visible_parent(t: &Tree, j: int, k: int, d: nat, x: int)
    requires
        t.wf(),
        0 <= j < t@.len(),
        shows_slot(visible_from(t@, j, k, d), x),
    ensures
        t.parent_of(x) == j || (shows_slot(visible_from(t@, j, k, d), t.parent_of(x))
            && t@[t.parent_of(x)].is_open),
    decreases t@.len() - j, t@[j].children@.len() - k,
{
    t.lemma_wf();
    let a = t@;
    if 0 <= k < a[j].children@.len() {
        let c = kid(a[j].children@, k);
        assert(j < c < a.len());
        let below = if a[c].is_open {
            visible_from(a, c, 0, d + 1)
        } else {
            Seq::empty()
        };
        let rest = visible_from(a, j, k + 1, d);
        let whole = visible_from(a, j, k, d);
        assert(whole == seq![(c, d)] + below + rest);
        let i = choose|i: int| 0 <= i < whole.len() && (#[trigger] whole[i]).0 == x;
        if i == 0 {
            assert(t.parent_of(c) == j);
        } else if i < 1 + below.len() {
            assert(below[i - 1] == whole[i]);
            assert(shows_slot(visible_from(a, c, 0, d + 1), x));
            lemma_visible_parent(t, c, 0, d + 1, x);
            if t.parent_of(x) == c {
                assert(whole[0].0 == c);
            } else {
                let i2 = choose|i2: int| 0 <= i2 < below.len() && (#[trigger] below[i2]).0 == t.parent_of(x);
                assert(whole[1 + i2] == below[i2]);
            }
        } else {
            let ir = i - 1 - below.len();
            assert(rest[ir] == whole[i]);
            lemma_visible_parent(t, j, k + 1, d, x);
            if t.parent_of(x) != j {
                let i2 = choose|i2: int| 0 <= i2 < rest.len() && (#[trigger] rest[i2]).0 == t.parent_of(x);
                assert(whole[1 + below.len() + i2] == rest[i2]);
            }
        }
    }
}

/// No node below a closed node other than the root is visible.
pub proof fn lemma_closed_hides_below(t: &Tree, ix: int, x: int)
    requires
        t.wf(),
        0 < ix < t@.len(),
        !t@[ix].is_open,
        is_below(t, ix, x),
    ensures
        !shows_slot(visible(t@), x),
    decreases x,
{
    t.lemma_wf();
    let p = t.parent_of(x);
    if shows_slot(visible(t@), x) {
        assert(0 < x);
        if x < t@.len() {
            lemma_visible_parent(t, 0, 0, 0, x);
        } else {
            let i = choose|i: int| 0 <= i < visible(t@).len() && (#[trigger] visible(t@)[i]).0 == x;
            lemma_visible_slots(t@, 0, 0, 0, i);
        }
        if p != ix {
            assert(is_below(t, ix, p));
            assert(p != 0);
            lemma_closed_hides_below(t, ix, p);
        }
    }
}

/// A node lies after every node it lies below.
proof fn lemma_below_after(t: &Tree, anc: int, x: int)
    requires
        is_below(t, anc, x),
    ensures
        anc < x,
    decreases x,
{
    if t.parent_of(x) != anc {
        lemma_below_after(t, anc, t.parent_of(x));
    }
}

/// Every row below node `c` names a node that lies below `c`.
proof fn lemma_rows_below(t: &Tree, c: int, d: nat, x: int)
    requires
        t.wf(),
        0 <= c < t@.len(),
        shows_slot(visible_from(t@, c, 0, d), x),
    ensures
        is_below(t, c, x),
    decreases x,
{
    t.lemma_wf();
    let v = visible_from(t@, c, 0, d);
    let i = choose|i: int| 0 <= i < v.len() && (#[trigger] v[i]).0 == x;
    lemma_visible_slots(t@, c, 0, d, i);
    lemma_visible_parent(t, c, 0, d, x);
    assert(0 < x < t@.len());
    assert(t.parent_of(x) < x);
    if t.parent_of(x) != c {
        assert(0 <= t.parent_of(x));
        lemma_rows_below(t, c, d, t.parent_of(x));
    }
}

/// Two children of one node that both lie at or above `x` are the same.
proof fn lemma_one_branch(t: &Tree, c1: int, c2: int, x: int)
    requires
        t.wf(),
        0 < c1 < t@.len(),
        0 < c2 < t@.len(),
        t.parent_of(c1) == t.parent_of(c2),
        x == c1 || is_below(t, c1, x),
        x == c2 || is_below(t, c2, x),
    ensures
        c1 == c2,
    decreases x,
{
    t.lemma_wf();
    if x == c1 && x != c2 {
        lemma_below_after(t, c2, c1);
        if t.parent_of(c1) != c2 {
            lemma_below_after(t, c2, t.parent_of(c1));
        }
    } else if x == c2 && x != c1 {
        lemma_below_after(t, c1, c2);
        if t.parent_of(c2) != c1 {
            lemma_below_after(t, c1, t.parent_of(c2));
        }
    } else if x != c1 && x != c2 {
        lemma_one_branch(t, c1, c2, t.parent_of(x));
    }
}

/// Each row from the `k`-th child of `j` on lies at or below one of those
/// children.
proof fn lemma_row_branch(t: &Tree, j: int, k: int, d: nat, i: int) -> (m: int)
    requires
        t.wf(),
        0 <= j < t@.len(),
        0 <= k,
        0 <= i < visible_from(t@, j, k, d).len(),
    ensures
        k <= m < t@[j].children@.len(),
        ({
            let c = kid(t@[j].children@, m);
            let x = visible_from(t@, j, k, d)[i].0;
            x == c || is_below(t, c, x)
        }),
    decreases t@[j].children@.len() - k,
{
    t.lemma_wf();
    let a = t@;
    let c = kid(a[j].children@, k);
    assert(j < c < a.len());
    let below = if a[c].is_open {
        visible_from(a, c, 0, d + 1)
    } else {
        Seq::empty()
    };
    let rest = visible_from(a, j, k + 1, d);
    let whole = visible_from(a, j, k, d);
    assert(whole == seq![(c, d)] + below + rest);
    if i == 0 {
        k
    } else if i < 1 + below.len() {
        assert(below[i - 1] == whole[i]);
        lemma_rows_below(t, c, d + 1, whole[i].0);
        k
    } else {
        assert(rest[i - 1 - below.len()] == whole[i]);
        lemma_row_branch(t, j, k + 1, d, i - 1 - below.len())
    }
}

proof fn lemma_rows_distinct_from(t: &Tree, j: int, k: int, d: nat, i1: int, i2: int)
    requires
        t.wf(),
        0 <= j < t@.len(),
        0 <= k,
        0 <= i1 < i2 < visible_from(t@, j, k, d).len(),
    ensures
        visible_from(t@, j, k, d)[i1].0 != visible_from(t@, j, k, d)[i2].0,
    decreases t@.len() - j, t@[j].children@.len() - k,
{
    t.lemma_wf();
    let a = t@;
    let c = kid(a[j].children@, k);
    assert(j < c < a.len());
    let below = if a[c].is_open {
        visible_from(a, c, 0, d + 1)
    } else {
        Seq::empty()
    };
    let rest = visible_from(a, j, k + 1, d);
    let whole = visible_from(a, j, k, d);
    assert(whole == seq![(c, d)] + below + rest);
    let nb = 1 + below.len();
    let x = whole[i2].0;
    if i2 < nb {
        assert(below[i2 - 1] == whole[i2]);
        lemma_rows_below(t, c, d + 1, x);
        if i1 == 0 {
            lemma_below_after(t, c, x);
        } else {
            assert(below[i1 - 1] == whole[i1]);
            lemma_rows_distinct_from(t, c, 0, d + 1, i1 - 1, i2 - 1);
        }
    } else {
        assert(rest[i2 - nb] == whole[i2]);
        if i1 >= nb {
            assert(rest[i1 - nb] == whole[i1]);
            lemma_rows_distinct_from(t, j, k + 1, d, i1 - nb, i2 - nb);
        } else if whole[i1].0 == x {
            let m = lemma_row_branch(t, j, k + 1, d, i2 - nb);
            let cm = kid(a[j].children@, m);
            assert(j < cm < a.len());
            if i1 > 0 {
                assert(below[i1 - 1] == whole[i1]);
                lemma_rows_below(t, c, d + 1, x);
            }
            lemma_one_branch(t, c, cm, x);
        }
    }
}

/// A traversal shows each node at most once.
pub proof fn lemma_rows_distinct(t: &Tree, i1: int, i2: int)
    requires
        t.wf(),
        0 <= i1 < visible(t@).len(),
        0 <= i2 < visible(t@).len(),
        i1 != i2,
    ensures
        visible(t@)[i1].0 != visible(t@)[i2].0,
{
    t.lemma_wf();
    if i1 < i2 {
        lemma_rows_distinct_from(t, 0, 0, 0, i1, i2);
    } else {
        lemma_rows_distinct_from(t, 0, 0, 0, i2, i1);
    }
}

/// Whether every node above `x`, the root excluded, is open.
pub open spec fn open_above(t: &Tree, x: int) -> bool
    decreases x,
{
    if 0 < x && 0 <= t.parent_of(x) < x {
        t.parent_of(x) == 0 || (t@[t.parent_of(x)].is_open && open_above(t, t.parent_of(x)))
    } else {
        false
    }
}

/// The `m`-th child of `j` is among the rows from its `k`-th child on.
proof fn lemma_child_row(a: Seq<Node>, j: int, k: int, d: nat, m: int)
    requires
        shaped(a),
        0 <= j < a.len(),
        0 <= k <= m < a[j].children@.len(),
    ensures
        shows_slot(visible_from(a, j, k, d), kid(a[j].children@, m)),
    decreases m - k,
{
    let c = kid(a[j].children@, k);
    assert(j < c < a.len());
    let below = if a[c].is_open {
        visible_from(a, c, 0, d + 1)
    } else {
        Seq::empty()
    };
    let rest = visible_from(a, j, k + 1, d);
    let whole = visible_from(a, j, k, d);
    assert(whole == seq![(c, d)] + below + rest);
    if m == k {
        assert(whole[0].0 == c);
    } else {
        lemma_child_row(a, j, k + 1, d, m);
        let i = choose|i: int| 0 <= i < rest.len() && (#[trigger] rest[i]).0 == kid(a[j].children@, m);
        assert(whole[1 + below.len() + i] == rest[i]);
    }
}

/// The children of an open node among the rows are among the rows too.
proof fn lemma_open_row_children(t: &Tree, j: int, k: int, d: nat, p: int, m: int)
    requires
        t.wf(),
        0 <= j < t@.len(),
        0 <= k,
        0 <= p < t@.len(),
        t@[p].is_open,
        0 <= m < t@[p].children@.len(),
        shows_slot(visible_from(t@, j, k, d), p),
    ensures
        shows_slot(visible_from(t@, j, k, d), kid(t@[p].children@, m)),
    decreases t@.len() - j, t@[j].children@.len() - k,
{
    t.lemma_wf();
    let a = t@;
    let c = kid(a[j].children@, k);
    assert(j < c < a.len());
    let below = if a[c].is_open {
        visible_from(a, c, 0, d + 1)
    } else {
        Seq::empty()
    };
    let rest = visible_from(a, j, k + 1, d);
    let whole = visible_from(a, j, k, d);
    assert(whole == seq![(c, d)] + below + rest);
    let x = kid(a[p].children@, m);
    let i = choose|i: int| 0 <= i < whole.len() && (#[trigger] whole[i]).0 == p;
    if i == 0 {
        lemma_child_row(a, c, 0, d + 1, m);
        let i2 = choose|i2: int| 0 <= i2 < below.len() && (#[trigger] below[i2]).0 == x;
        assert(whole[1 + i2] == below[i2]);
    } else if i < 1 + below.len() {
        assert(below[i - 1] == whole[i]);
        lemma_open_row_children(t, c, 0, d + 1, p, m);
        let i2 = choose|i2: int| 0 <= i2 < below.len() && (#[trigger] below[i2]).0 == x;
        assert(whole[1 + i2] == below[i2]);
    } else {
        assert(rest[i - 1 - below.len()] == whole[i]);
        lemma_open_row_children(t, j, k + 1, d, p, m);
        let i2 = choose|i2: int| 0 <= i2 < rest.len() && (#[trigger] rest[i2]).0 == x;
        assert(whole[1 + below.len() + i2] == rest[i2]);
    }
}

/// A node other than the root whose ancestors below the root are all open is
/// shown by the traversal.
pub proof fn lemma_open_above_shown(t: &Tree, x: int)
    requires
        t.wf(),
        0 < x < t@.len(),
        open_above(t, x),
    ensures
        shows_slot(visible(t@), x),
    decreases x,
{
    t.lemma_wf();
    t.lemma_paths_linked(x);
    let p = t.parent_of(x);
    let m = choose|m: int| 0 <= m < t@[p].children@.len() && #[trigger] kid(t@[p].children@, m) == x;
    if p == 0 {
        lemma_child_row(t@, 0, 0, 0, m);
    } else {
        lemma_open_above_shown(t, p);
        lemma_open_row_children(t, 0, 0, 0, p, m);
    }
}

/// Every visible row names a node of the tree.
proof fn lemma_visible_slots(a: Seq<Node>, j: int, k: int, d: nat, i: int)
    requires
        shaped(a),
        0 <= i < visible_from(a, j, k, d).len(),
    ensures
        0 < visible_from(a, j, k, d)[i].0 < a.len(),
    decreases a.len() - j, a[j].children@.len() - k,
{
    if 0 <= j < a.len() && 0 <= k < a[j].children@.len() {
        let c = kid(a[j].children@, k);
        assert(j < c < a.len());
        let below = if a[c].is_open {
            visible_from(a, c, 0, d + 1)
        } else {
            Seq::empty()
        };
        let rest = visible_from(a, j, k + 1, d);
        let whole = visible_from(a, j, k, d);
        assert(whole == seq![(c, d)] + below + rest);
        if i == 0 {
        } else if i < 1 + below.len() {
            assert(below[i - 1] == whole[i]);
            lemma_visible_slots(a, c, 0, d + 1, i - 1);
        } else {
            assert(rest[i - 1 - below.len()] == whole[i]);
            lemma_visible_slots(a, j, k + 1, d, i - 1 - below.len());
        }
    }
}

/// A single visible row.
pub struct NodeView {
    /// The node's index.
    pub ix: TreeIndex,
    /// The node's path.
    pub path: String,
    pub is_dir: bool,
    pub is_open: bool,
    /// The level of the node: how many nodes above it, the root excluded.
    pub level: usize,
}

/// The final component of path `p`: what follows its last separator, or all
/// of `p` when it has none.
pub open spec fn last_component(p: Seq<char>) -> Seq<char>
    decreases p.len(),
{
    if p.len() == 0 {
        p
    } else if p.last() == '/' {
        Seq::empty()
    } else {
        last_component(p.drop_last()).push(p.last())
    }
}

/// The name that ends path `p`, by the rules of std's path components:
/// separators at the end and a final `.` after a separator are skipped, and a
/// final `..`, a lone `.` or an empty path give no name.
pub open spec fn file_name_of(p: Seq<char>) -> Option<Seq<char>>
    decreases p.len(),
{
    if p.len() == 0 {
        None
    } else if p.last() == '/' {
        file_name_of(p.drop_last())
    } else if last_component(p) == seq!['.'] {
        if p.len() == 1 {
            None
        } else {
            file_name_of(p.drop_last())
        }
    } else if last_component(p) == seq!['.', '.'] {
        None
    } else {
        Some(last_component(p))
    }
}

/// Where the final component of `p[..end]` starts.
fn component_start(p: &str, end: usize) -> (i: usize)
    requires
        end <= p@.len(),
    ensures
        i <= end,
        last_component(p@.subrange(0, end as int)) == p@.subrange(i as int, end as int),
        i == 0 || p@[i - 1] == '/',
{
    let ghost q = p@.subrange(0, end as int);
    let mut i: usize = end;
    proof {
        assert(q.subrange(0, end as int) =~= q);
        assert(q.subrange(end as int, end as int) =~= Seq::<char>::empty());
        assert(last_component(q) + Seq::<char>::empty() =~= last_component(q));
    }
    while i > 0 && p.get_char(i - 1) != '/'
        invariant
            0 <= i <= end,
            end <= p@.len(),
            q == p@.subrange(0, end as int),
            last_component(q) == last_component(q.subrange(0, i as int)) + q.subrange(
                i as int,
                end as int,
            ),
        decreases i,
    {
        proof {
            let head = q.subrange(0, i as int);
            assert(head.last() == p@[i - 1]);
            assert(head.drop_last() =~= q.subrange(0, i - 1));
            assert(q.subrange(i - 1, end as int) =~= seq![head.last()] + q.subrange(
                i as int,
                end as int,
            ));
            assert(last_component(head) == last_component(head.drop_last()).push(head.last()));
            assert(last_component(head).push(head.last()) =~= last_component(head) + seq![head.last()]);
            assert(last_component(q) =~= last_component(q.subrange(0, i - 1)) + q.subrange(
                i - 1,
                end as int,
            ));
        }
        i -= 1;
    }
    proof {
        let head = q.subrange(0, i as int);
        if i > 0 {
            assert(head.last() == p@[i - 1]);
        }
        assert(last_component(head).len() == 0);
        assert(last_component(q) =~= q.subrange(i as int, end as int));
        assert(q.subrange(i as int, end as int) =~= p@.subrange(i as int, end as int));
    }
    i
}

impl NodeView {
    /// The final component of the node's path, or `None` when it has none
    /// (an empty path, the root `/`, a lone `.`, or a path ending in `..`).
    pub fn file_name(&self) -> (r: Option<&str>)
        ensures
            file_name_of(self.path@) is None ==> r is None,
            file_name_of(self.path@) is Some ==> (r matches Some(s) && s@ == file_name_of(
                self.path@,
            )->Some_0),
    {
        let p = self.path.as_str();
        let mut end = p.unicode_len();
        proof {
            assert(p@.subrange(0, end as int) =~= p@);
        }
        loop
            invariant
                p@ == self.path@,
                end <= p@.len(),
                file_name_of(p@) == file_name_of(p@.subrange(0, end as int)),
            decreases end,
        {
            let ghost q = p@.subrange(0, end as int);
            proof {
                assert(q.len() == end);
            }
            if end == 0 {
                proof {
                    assert(file_name_of(q) is None);
                }
                return None;
            }
            if p.get_char(end - 1) == '/' {
                proof {
                    assert(q.drop_last() =~= p@.subrange(0, end - 1));
                }
                end -= 1;
                continue;
            }
            let i = component_start(p, end);
            proof {
                assert(q.last() == p@[end - 1]);
            }
            if end - i == 1 && p.get_char(i) == '.' {
                proof {
                    assert(last_component(q) =~= seq!['.']);
                }
                if i == 0 {
                    proof {
                        assert(q.len() == 1);
                        assert(file_name_of(q) is None);
                    }
                    return None;
                }
                proof {
                    assert(q.drop_last() =~= p@.subrange(0, i as int));
                }
                end = i;
                continue;
            }
            if end - i == 2 && p.get_char(i) == '.' && p.get_char(i + 1) == '.' {
                proof {
                    assert(last_component(q) =~= seq!['.', '.']);
                    assert(last_component(q) != seq!['.']);
                    assert(file_name_of(q) is None);
                }
                return None;
            }
            proof {
                let lc = last_component(q);
                assert(lc == p@.subrange(i as int, end as int));
                assert(lc.len() == end - i);
                if lc.len() == 1 {
                    assert(lc[0] == p@[i as int]);
                    assert(lc[0] != '.');
                    assert(seq!['.'][0] == '.');
                    assert(lc != seq!['.']);
                } else {
                    assert(seq!['.'].len() == 1);
                }
                if lc.len() == 2 {
                    assert(lc[0] == p@[i as int]);
                    assert(lc[1] == p@[i + 1]);
                    assert(seq!['.', '.'][0] == '.' && seq!['.', '.'][1] == '.');
                    assert(lc != seq!['.', '.']);
                } else {
                    assert(seq!['.', '.'].len() == 2);
                }
                assert(q.len() > 0);
                assert(q.last() != '/');
                assert(last_component(q) != seq!['.']);
                assert(last_component(q) != seq!['.', '.']);
                assert(file_name_of(q) == Some(last_component(q)));
            }
            return Some(p.substring_char(i, end));
        }
    }
}

/// Whether `v` shows the row `item` of the arena `a`.
pub open spec fn shows(v: NodeView, a: Seq<Node>, item: (int, nat)) -> bool {
    &&& v.ix.0 == item.0
    &&& v.level == item.1
    &&& v.path@ == a[item.0].path@
    &&& v.is_dir == a[item.0].is_dir
    &&& v.is_open == a[item.0].is_open
}

/// Iterates over the visible nodes of a [`Tree`], depth first.
pub struct TraverseTree<'a> {
    tree: &'a Tree,
    stack: Vec<TraverseEl>,
}

#[derive(Clone, Copy)]
struct TraverseEl {
    ix: TreeIndex,
    child_ix: usize,
}

/// The rows still to come from the lowest `m` frames of `st`, the top frame
/// first.
spec fn pending(a: Seq<Node>, st: Seq<TraverseEl>, m: int) -> Seq<(int, nat)>
    decreases m,
{
    if m <= 0 {
        Seq::empty()
    } else {
        visible_from(a, st[m - 1].ix.0 as int, st[m - 1].child_ix as int, (m - 1) as nat)
            + pending(a, st, m - 1)
    }
}

proof fn lemma_pending_frame(a: Seq<Node>, st: Seq<TraverseEl>, su: Seq<TraverseEl>, m: int)
    requires
        forall|i: int| 0 <= i < m ==> st[i] == su[i],
    ensures
        pending(a, st, m) == pending(a, su, m),
    decreases m,
{
    if m > 0 {
        lemma_pending_frame(a, st, su, m - 1);
    }
}

impl<'a> TraverseTree<'a> {
    /// The tree being walked.
    pub closed spec fn tree(&self) -> &'a Tree {
        self.tree
    }

    /// The rows that the traversal has yet to yield, in order.
    pub closed spec fn remaining(&self) -> Seq<(int, nat)> {
        pending(self.tree@, self.stack@, self.stack@.len() as int)
    }

    /// The traversal's invariant.
    pub closed spec fn inv(&self) -> bool {
        &&& self.tree.wf()
        &&& forall|i: int| 0 <= i < self.stack@.len() ==> (#[trigger] self.stack@[i]).ix.0 < self.tree@.len()
    }

    /// Starts a traversal of `tree` at its root.
    pub fn new(tree: &'a Tree) -> (r: TraverseTree<'a>)
        requires
            tree.wf(),
        ensures
            r.inv(),
            r.tree() == tree,
            r.remaining() == visible(tree@),
    {
        let mut stack: Vec<TraverseEl> = Vec::new();
        stack.push(TraverseEl { ix: TreeIndex(0), child_ix: 0 });
        let r = TraverseTree { stack, tree };
        proof {
            tree.lemma_wf();
            assert(pending(tree@, r.stack@, 0) == Seq::<(int, nat)>::empty());
            assert(r.remaining() =~= visible(tree@));
        }
        r
    }

    /// Yields the next visible row, or `None` once every row has been yielded.
    pub fn next(&mut self) -> (r: Option<NodeView>)
        requires
            old(self).inv(),
        ensures
            final(self).inv(),
            final(self).tree() == old(self).tree(),
            old(self).remaining().len() == 0 ==> r is None && final(self).remaining().len() == 0,
            old(self).remaining().len() > 0 ==> (r matches Some(v) && shows(
                v,
                old(self).tree()@,
                old(self).remaining()[0],
            ) && final(self).remaining() == old(self).remaining().drop_first()),
    {
        let ghost a = self.tree@;
        proof {
            self.tree.lemma_wf();
        }
        loop
            invariant
                self.inv(),
                self.tree == old(self).tree,
                self.tree@ == a,
                shaped(a),
                self.remaining() == old(self).remaining(),
            decreases self.stack@.len(),
        {
            let len = self.stack.len();
            if len == 0 {
                return None;
            }
            let top = self.stack[len - 1];
            let ghost st = self.stack@;
            let node = match self.tree.get(top.ix) {
                Some(n) => n,
                None => {
                    return None;
                },
            };
            if top.child_ix < node.children.len() {
                let c = node.children[top.child_ix];
                proof {
                    assert(kid(a[top.ix.0 as int].children@, top.child_ix as int) == c.0);
                }
                let child = match self.tree.get(c) {
                    Some(n) => n,
                    None => {
                        return None;
                    },
                };
                let out = NodeView {
                    ix: c,
                    path: child.path.clone(),
                    is_dir: child.is_dir,
                    is_open: child.is_open,
                    level: len - 1,
                };
                let open = child.is_open;
                self.stack.set(len - 1, TraverseEl { ix: top.ix, child_ix: top.child_ix + 1 });
                if open {
                    self.stack.push(TraverseEl { ix: c, child_ix: 0 });
                }
                proof {
                    let m = len as int;
                    let j = top.ix.0 as int;
                    let k = top.child_ix as int;
                    let rest = pending(a, st, m - 1);
                    let later = visible_from(a, j, k + 1, (m - 1) as nat);
                    let below = if a[c.0 as int].is_open {
                        visible_from(a, c.0 as int, 0, m as nat)
                    } else {
                        Seq::empty()
                    };
                    assert(visible_from(a, j, k, (m - 1) as nat) == seq![(c.0 as int, (m - 1) as nat)]
                        + below + later);
                    lemma_pending_frame(a, st, self.stack@, m - 1);
                    assert(old(self).remaining() == seq![(c.0 as int, (m - 1) as nat)] + below + later
                        + rest);
                    if open {
                        assert(pending(a, self.stack@, m + 1) == below + pending(a, self.stack@, m));
                        assert(pending(a, self.stack@, m) == later + pending(a, self.stack@, m - 1));
                    } else {
                        assert(pending(a, self.stack@, m) == later + pending(a, self.stack@, m - 1));
                    }
                    assert(self.remaining() =~= old(self).remaining().drop_first());
                }
                return Some(out);
            } else {
                self.stack.pop();
                proof {
                    lemma_pending_frame(a, st, self.stack@, len - 1);
                    assert(visible_from(a, top.ix.0 as int, top.child_ix as int, (len - 1) as nat)
                        =~= Seq::empty());
                    assert(self.remaining() =~= pending(a, st, len as int));
                }
            }
        }
    }
}

/// A windowed view of the visible rows of a tree.
pub struct TreeView {
    tree: Tree,
}

impl TreeView {
    /// The tree behind the view.
    pub closed spec fn tree(&self) -> Tree {
        self.tree
    }

    /// Makes a view of `tree`.
    pub fn new(tree: Tree) -> (r: TreeView)
        ensures
            r.tree() == tree,
    {
        TreeView { tree }
    }

    /// The number of rows: the root's, and one for each visible node below it.
    pub fn total_len(&self) -> (r: usize)
        requires
            self.tree().wf(),
        ensures
            r == visible(self.tree()@).len() + 1,
    {
        proof {
            self.tree.lemma_wf();
            lemma_root_count_is_visible_len(&self.tree);
        }
        let n = self.tree.len();
        proof {
            assert(self.tree@[0].children_open_count < n);
        }
        self.tree.root().children_open_count + 1
    }

    /// The visible rows from position `start` on, at most `count` of them, in
    /// traversal order; the root row is not among them.
    pub fn slice(&self, start: usize, count: usize) -> (rows: Vec<NodeView>)
        requires
            self.tree().wf(),
        ensures
            ({
                let vis = visible(self.tree()@);
                let lo = if start <= vis.len() { start as int } else { vis.len() as int };
                let hi = if lo + count <= vis.len() { lo + count } else { vis.len() as int };
                &&& rows@.len() == hi - lo
                &&& forall|i: int| 0 <= i < rows@.len() ==> shows(#[trigger] rows@[i], self.tree()@, vis[lo + i])
            }),
    {
        let ghost a = self.tree@;
        let ghost vis = visible(a);
        let mut t = TraverseTree::new(&self.tree);
        let mut skipped: usize = 0;
        while skipped < start
            invariant
                t.inv(),
                t.tree() == &self.tree,
                skipped <= start,
                skipped <= vis.len(),
                t.remaining() == vis.subrange(skipped as int, vis.len() as int),
            ensures
                t.inv(),
                t.tree() == &self.tree,
                skipped == if start <= vis.len() { start as int } else { vis.len() as int },
                t.remaining() == vis.subrange(skipped as int, vis.len() as int),
            decreases start - skipped,
        {
            match t.next() {
                Some(_) => {
                    skipped += 1;
                    proof {
                        assert(t.remaining() =~= vis.subrange(skipped as int, vis.len() as int));
                    }
                },
                None => {
                    break;
                },
            }
        }
        let ghost lo = skipped as int;
        let mut rows: Vec<NodeView> = Vec::new();
        while rows.len() < count
            invariant
                t.inv(),
                t.tree() == &self.tree,
                t.tree()@ == a,
                0 <= lo,
                lo + rows@.len() <= vis.len(),
                rows@.len() <= count,
                t.remaining() == vis.subrange(lo + rows@.len(), vis.len() as int),
                forall|i: int| 0 <= i < rows@.len() ==> shows(#[trigger] rows@[i], a, vis[lo + i]),
            ensures
                lo + rows@.len() <= vis.len(),
                rows@.len() == count || lo + rows@.len() == vis.len(),
                forall|i: int| 0 <= i < rows@.len() ==> shows(#[trigger] rows@[i], a, vis[lo + i]),
            decreases count - rows@.len(),
        {
            let ghost before = t.remaining();
            let ghost had = rows@.len();
            match t.next() {
                Some(v) => {
                    proof {
                        assert(before.len() > 0);
                        assert(shows(v, a, before[0]));
                        assert(before[0] == vis[lo + had]);
                    }
                    rows.push(v);
                    proof {
                        assert(t.remaining() =~= vis.subrange(lo + rows@.len(), vis.len() as int));
                    }
                },
                None => {
                    proof {
                        assert(before.len() == 0);
                    }
                    break;
                },
            }
        }
        rows
    }
}

} // verus!
