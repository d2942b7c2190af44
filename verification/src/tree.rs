//! The file tree: building it from file entries, flattening it for display,
//! sorting it, and finding and toggling its nodes.
use vstd::prelude::*;
use crate::text::{
    is_dot, starts_with_dot, string_from_chars, str_is_dot, str_starts_with_dot, chars_lt,
    lemma_chars_lt_asymmetric, lemma_chars_lt_total, lemma_chars_lt_irreflexive, lemma_chars_lt_transitive,
    lowercase, to_lowercase, chars_of, chars_less,
};
use crate::types::{FileStatus, FileEntry, TreeNode, SelectableItem, ItemView, clean_status, merged, items_view, status_le};
use crate::path::{strings_view, seqs_view, join_path, join_prefix, components, path_components, is_dotfile, is_dotfile_spec, path_eq, paths_equal};

verus! {

/// The abstract content of a tree node.
#[verifier::ext_equal]
pub struct NodeView {
    pub name: Seq<char>,
    pub full_path: Seq<char>,
    pub is_file: bool,
    pub status: FileStatus,
    pub is_expanded: bool,
    pub children: Seq<NodeView>,
}

/// The abstract content of a tree.
pub open spec fn tree_view(t: TreeNode) -> NodeView
    decreases t, 0int,
{
    NodeView {
        name: t.name@,
        full_path: t.full_path@,
        is_file: t.is_file,
        status: t.status,
        is_expanded: t.is_expanded,
        children: children_view(t.children@, t.children@.len() as int),
    }
}

/// The views of the first `k` trees of `cs`.
pub open spec fn children_view(cs: Seq<TreeNode>, k: int) -> Seq<NodeView>
    decreases cs, k,
{
    if k <= 0 || k > cs.len() {
        Seq::empty()
    } else {
        children_view(cs, k - 1).push(tree_view(cs[k - 1]))
    }
}

impl View for TreeNode {
    type V = NodeView;

    open spec fn view(&self) -> NodeView {
        tree_view(*self)
    }
}

/// The views of a sequence of trees.
pub open spec fn nodes_view(cs: Seq<TreeNode>) -> Seq<NodeView> {
    children_view(cs, cs.len() as int)
}

proof fn lemma_children_view_prefix(cs: Seq<TreeNode>, k: int)
    requires
        0 <= k <= cs.len(),
    ensures
        children_view(cs, k).len() == k,
        forall|i: int| 0 <= i < k ==> #[trigger] children_view(cs, k)[i] == tree_view(cs[i]),
    decreases k,
{
    if k > 0 {
        lemma_children_view_prefix(cs, k - 1);
    }
}

/// The view of a sequence of trees holds the view of each tree, in order.
pub proof fn lemma_nodes_view(cs: Seq<TreeNode>)
    ensures
        nodes_view(cs).len() == cs.len(),
        forall|i: int| 0 <= i < cs.len() ==> #[trigger] nodes_view(cs)[i] == tree_view(cs[i]),
{
    lemma_children_view_prefix(cs, cs.len() as int);
}

/// The view of a node is made of its fields and the views of its children.
pub proof fn lemma_view_fields(t: TreeNode)
    ensures
        t@.name == t.name@,
        t@.full_path == t.full_path@,
        t@.is_file == t.is_file,
        t@.status == t.status,
        t@.is_expanded == t.is_expanded,
        t@.children == nodes_view(t.children@),
        t@.children.len() == t.children@.len(),
        forall|i: int| 0 <= i < t.children@.len() ==> #[trigger] t@.children[i] == t.children@[i]@,
{
    lemma_nodes_view(t.children@);
}

/// The number of levels of a tree.
pub open spec fn height(n: NodeView) -> nat
    decreases n, 0int,
{
    1 + max_height(n.children, n.children.len() as int)
}

/// The greatest height among the first `k` trees of `cs`.
pub open spec fn max_height(cs: Seq<NodeView>, k: int) -> nat
    decreases cs, k,
{
    if k <= 0 || k > cs.len() {
        0
    } else {
        let a = max_height(cs, k - 1);
        let b = height(cs[k - 1]);
        if a >= b {
            a
        } else {
            b
        }
    }
}

proof fn lemma_max_height(cs: Seq<NodeView>, k: int, i: int)
    requires
        0 <= i < k <= cs.len(),
    ensures
        height(cs[i]) <= max_height(cs, k),
    decreases k,
{
    if i < k - 1 {
        lemma_max_height(cs, k - 1, i);
    }
}

/// A child is lower than its parent.
pub proof fn lemma_child_height(n: NodeView, i: int)
    requires
        0 <= i < n.children.len(),
    ensures
        height(n.children[i]) < height(n),
{
    lemma_max_height(n.children, n.children.len() as int, i);
}

/// The index of the first of `cs` named `name`.
pub open spec fn first_named(cs: Seq<NodeView>, name: Seq<char>) -> Option<int>
    decreases cs.len(),
{
    if cs.len() == 0 {
        None
    } else {
        match first_named(cs.drop_last(), name) {
            Some(i) => Some(i),
            None => if cs.last().name == name {
                Some(cs.len() - 1)
            } else {
                None
            },
        }
    }
}

proof fn lemma_first_named(cs: Seq<NodeView>, name: Seq<char>)
    ensures
        match first_named(cs, name) {
            Some(i) => 0 <= i < cs.len() && cs[i].name == name && forall|j: int|
                0 <= j < i ==> #[trigger] cs[j].name != name,
            None => forall|j: int| 0 <= j < cs.len() ==> #[trigger] cs[j].name != name,
        },
    decreases cs.len(),
{
    if cs.len() > 0 {
        lemma_first_named(cs.drop_last(), name);
        match first_named(cs.drop_last(), name) {
            Some(i) => {
                assert forall|j: int| 0 <= j < i implies #[trigger] cs[j].name != name by {
                    assert(cs.drop_last()[j] == cs[j]);
                }
            },
            None => {
                assert forall|j: int| 0 <= j < cs.len() - 1 implies #[trigger] cs[j].name != name by {
                    assert(cs.drop_last()[j] == cs[j]);
                }
            },
        }
    }
}

/// The file node with the given name, path and status.
pub open spec fn file_node(name: Seq<char>, full_path: Seq<char>, status: FileStatus) -> NodeView {
    NodeView { name, full_path, is_file: true, status, is_expanded: true, children: Seq::empty() }
}

/// The empty, expanded directory node with the given name and path.
pub open spec fn dir_node(name: Seq<char>, full_path: Seq<char>) -> NodeView {
    NodeView {
        name,
        full_path,
        is_file: false,
        status: clean_status(),
        is_expanded: true,
        children: Seq::empty(),
    }
}

/// `n` after adding the path whose components are `comps`, from component
/// `depth` on: each component is looked up by name among the children (the
/// first of that name), and created when missing, as a directory on the way
/// and as a file holding `status` and `full_path` at the end. When the last
/// component already exists, its status takes the flags of `status` too.
pub open spec fn add_rec(
    n: NodeView,
    comps: Seq<Seq<char>>,
    depth: int,
    status: FileStatus,
    full_path: Seq<char>,
) -> NodeView
    decreases comps.len() - depth,
{
    if depth < 0 || depth >= comps.len() {
        n
    } else {
        let name = comps[depth];
        let last = depth == comps.len() - 1;
        match first_named(n.children, name) {
            Some(idx) => {
                let c = n.children[idx];
                if last {
                    NodeView {
                        children: n.children.update(idx, NodeView { status: merged(c.status, status), ..c }),
                        ..n
                    }
                } else {
                    NodeView {
                        children: n.children.update(idx, add_rec(c, comps, depth + 1, status, full_path)),
                        ..n
                    }
                }
            },
            None => {
                let new_node = if last {
                    file_node(name, full_path, status)
                } else {
                    add_rec(
                        dir_node(name, join_path(comps.subrange(0, depth + 1))),
                        comps,
                        depth + 1,
                        status,
                        full_path,
                    )
                };
                NodeView { children: n.children.push(new_node), ..n }
            },
        }
    }
}

/// The index of the first child of `node` named `name`.
fn find_child(node: &TreeNode, name: &Vec<char>) -> (r: Option<usize>)
    ensures
        r == (match first_named(node@.children, name@) {
            Some(i) => Some(i as usize),
            None => None::<usize>,
        }),
{
    proof {
        lemma_view_fields(*node);
        lemma_first_named(node@.children, name@);
    }
    let n = node.children.len();
    let mut i: usize = 0;
    while i < n
        invariant
            n == node.children@.len(),
            node@.children.len() == n,
            i <= n,
            forall|j: int| 0 <= j < i ==> #[trigger] node@.children[j].name != name@,
            forall|j: int| 0 <= j < n ==> #[trigger] node@.children[j] == node.children@[j]@,
        decreases n - i,
    {
        let nm = crate::text::chars_of(node.children[i].name.as_str());
        if crate::text::chars_eq(&nm, name) {
            proof {
                lemma_view_fields(node.children@[i as int]);
                lemma_first_named(node@.children, name@);
                assert(node@.children[i as int].name == name@);
                match first_named(node@.children, name@) {
                    Some(k) => {
                        if k < i {
                            assert(node@.children[k].name != name@);
                        } else if k > i {
                            assert(node@.children[i as int].name != name@);
                        }
                    },
                    None => {
                        assert(node@.children[i as int].name != name@);
                    },
                }
            }
            return Some(i);
        }
        proof {
            lemma_view_fields(node.children@[i as int]);
        }
        i = i + 1;
    }
    proof {
        lemma_first_named(node@.children, name@);
        match first_named(node@.children, name@) {
            Some(k) => {
                assert(node@.children[k].name != name@);
            },
            None => {},
        }
    }
    None
}

/// Adds the path whose components are `components` to the tree below `node`,
/// from component `depth` on, creating the missing directories and the file.
fn add_to_tree_recursive(
    node: &mut TreeNode,
    components: &Vec<Vec<char>>,
    depth: usize,
    status: &FileStatus,
    full_path: String,
)
    ensures
        final(node)@ == add_rec(old(node)@, seqs_view(components@), depth as int, *status, full_path@),
    decreases components.len() - depth,
{
    let ghost comps = seqs_view(components@);
    if depth >= components.len() {
        return;
    }
    let name_chars = &components[depth];
    assert(name_chars@ == comps[depth as int]);
    let is_last_component = depth == components.len() - 1;
    let child_idx = find_child(node, name_chars);
    proof {
        lemma_view_fields(*node);
        lemma_first_named(old(node)@.children, comps[depth as int]);
        match first_named(old(node)@.children, comps[depth as int]) {
            Some(i) => {
                assert(i < old(node).children@.len());
                assert(old(node).children@.len() == old(node).children.len());
                assert(child_idx == Some(i as usize));
                assert(child_idx->0 as int == i);
            },
            None => {},
        }
        assert(first_named(old(node)@.children, comps[depth as int]) == match child_idx {
            Some(x) => Some(x as int),
            None => None::<int>,
        });
    }
    match child_idx {
        Some(idx) => {
            let ghost c = old(node)@.children[idx as int];
            if is_last_component {
                let mut st = node.children[idx].status;
                st.merge(status);
                node.children[idx].status = st;
                proof {
                    lemma_view_fields(*node);
                    lemma_view_fields(old(node).children@[idx as int]);
                    lemma_view_fields(node.children@[idx as int]);
                    assert(node.children@[idx as int]@ =~= NodeView { status: merged(c.status, *status), ..c });
                    assert(node@.children =~= old(node)@.children.update(idx as int, node.children@[idx as int]@));
                    assert(first_named(old(node)@.children, comps[depth as int]) == Some(idx as int));
                    assert(node.name == old(node).name);
                    assert(node.full_path == old(node).full_path);
                    assert(node.is_file == old(node).is_file);
                    assert(node.is_expanded == old(node).is_expanded);
                    assert(node.status == old(node).status);
                    assert(node@ =~= add_rec(old(node)@, comps, depth as int, *status, full_path@));
                }
            } else {
                add_to_tree_recursive(&mut node.children[idx], components, depth + 1, status, full_path);
                proof {
                    lemma_view_fields(*node);
                    assert(node@.children =~= old(node)@.children.update(idx as int, node.children@[idx as int]@));
                    assert(node@ =~= add_rec(old(node)@, comps, depth as int, *status, full_path@));
                }
            }
        },
        None => {
            let name = string_from_chars(name_chars);
            let new_node = if is_last_component {
                let f = TreeNode::new_file(name, full_path, *status);
                proof {
                    lemma_view_fields(f);
                    assert(f@ =~= file_node(comps[depth as int], full_path@, *status));
                }
                f
            } else {
                let component_path = join_prefix(components, depth + 1);
                let mut dir = TreeNode::new_directory(name, component_path);
                proof {
                    lemma_view_fields(dir);
                    assert(dir@ =~= dir_node(comps[depth as int], join_path(comps.subrange(0, depth + 1))));
                }
                add_to_tree_recursive(&mut dir, components, depth + 1, status, full_path);
                dir
            };
            node.children.push(new_node);
            proof {
                lemma_view_fields(*node);
                assert(node@.children =~= old(node)@.children.push(node.children@.last()@));
                assert(node@ =~= add_rec(old(node)@, comps, depth as int, *status, full_path@));
            }
        },
    }
}

} // verus!

verus! {

/// The tree with path `p` added, holding `status` (see `add_rec`).
pub open spec fn add_path(n: NodeView, p: Seq<char>, status: FileStatus) -> NodeView {
    add_rec(n, components(p), 0, status, p)
}

/// Adds the file at `path` to the tree below `node`, creating the missing directories.
fn add_to_tree(node: &mut TreeNode, path: &String, status: &FileStatus)
    ensures
        final(node)@ == add_path(old(node)@, path@, *status),
        components(path@).len() <= usize::MAX,
{
    let components = path_components(path.as_str());
    let ncomps = components.len();
    assert(components@.len() == ncomps);
    assert(seqs_view(components@).len() == components@.len());
    let full_path = path.clone();
    add_to_tree_recursive(node, &components, 0, status, full_path);
}

/// The sort key of a node: its lower-cased name.
pub open spec fn sort_key(n: NodeView) -> Seq<char> {
    lowercase(n.name)
}

/// Where a node with key `k` goes in `r`: before the first element whose key
/// is greater than `k`, or at the end.
pub open spec fn insert_pos(r: Seq<NodeView>, k: Seq<char>) -> nat
    decreases r.len(),
{
    if r.len() == 0 {
        0
    } else if chars_lt(k, sort_key(r[0])) {
        0
    } else {
        1 + insert_pos(r.drop_first(), k)
    }
}

/// `cs` sorted by key, stably (insertion sort, first to last).
pub open spec fn sort_nodes(cs: Seq<NodeView>) -> Seq<NodeView>
    decreases cs.len(),
{
    if cs.len() == 0 {
        cs
    } else {
        let r = sort_nodes(cs.drop_last());
        r.insert(insert_pos(r, sort_key(cs.last())) as int, cs.last())
    }
}

/// The tree with the children of every node sorted by key.
pub open spec fn sort_tree(n: NodeView) -> NodeView
    decreases n, 0int,
{
    NodeView { children: sort_nodes(sort_each(n.children, n.children.len() as int)), ..n }
}

/// The first `k` trees of `cs`, each sorted.
pub open spec fn sort_each(cs: Seq<NodeView>, k: int) -> Seq<NodeView>
    decreases cs, k,
{
    if k <= 0 || k > cs.len() {
        Seq::empty()
    } else {
        sort_each(cs, k - 1).push(sort_tree(cs[k - 1]))
    }
}

proof fn lemma_sort_each(cs: Seq<NodeView>, k: int)
    requires
        0 <= k <= cs.len(),
    ensures
        sort_each(cs, k).len() == k,
        forall|i: int| 0 <= i < k ==> #[trigger] sort_each(cs, k)[i] == sort_tree(cs[i]),
    decreases k,
{
    if k > 0 {
        lemma_sort_each(cs, k - 1);
    }
}

proof fn lemma_insert_pos_bound(r: Seq<NodeView>, k: Seq<char>)
    ensures
        insert_pos(r, k) <= r.len(),
    decreases r.len(),
{
    if r.len() > 0 {
        lemma_insert_pos_bound(r.drop_first(), k);
    }
}

proof fn lemma_sort_nodes_len(cs: Seq<NodeView>)
    ensures
        sort_nodes(cs).len() == cs.len(),
    decreases cs.len(),
{
    if cs.len() > 0 {
        lemma_sort_nodes_len(cs.drop_last());
        lemma_insert_pos_bound(sort_nodes(cs.drop_last()), sort_key(cs.last()));
    }
}

/// The keys along `s` never decrease.
pub open spec fn sorted_by_key(s: Seq<NodeView>) -> bool {
    forall|i: int, j: int|
        #![trigger s[i], s[j]]
        0 <= i < j < s.len() ==> !chars_lt(sort_key(s[j]), sort_key(s[i]))
}

proof fn lemma_insert_pos_props(r: Seq<NodeView>, k: Seq<char>)
    ensures
        insert_pos(r, k) <= r.len(),
        forall|i: int| 0 <= i < insert_pos(r, k) ==> !chars_lt(k, #[trigger] sort_key(r[i])),
        insert_pos(r, k) < r.len() ==> chars_lt(k, sort_key(r[insert_pos(r, k) as int])),
    decreases r.len(),
{
    if r.len() > 0 && !chars_lt(k, sort_key(r[0])) {
        let t = r.drop_first();
        lemma_insert_pos_props(t, k);
        assert forall|i: int| 0 <= i < insert_pos(r, k) implies !chars_lt(
            k,
            #[trigger] sort_key(r[i]),
        ) by {
            if i > 0 {
                assert(r[i] == t[i - 1]);
            }
        }
        if insert_pos(r, k) < r.len() {
            assert(r[insert_pos(r, k) as int] == t[insert_pos(t, k) as int]);
        }
    }
}

proof fn lemma_key_after(k: Seq<char>, a: Seq<char>, b: Seq<char>)
    requires
        chars_lt(k, a),
        !chars_lt(b, a),
    ensures
        !chars_lt(b, k),
{
    if a == b {
        lemma_chars_lt_asymmetric(k, b);
    } else {
        lemma_chars_lt_total(a, b);
        lemma_chars_lt_transitive(k, a, b);
        lemma_chars_lt_asymmetric(k, b);
    }
}

/// Sorting leaves the keys in order.
pub proof fn lemma_sort_nodes_sorted(cs: Seq<NodeView>)
    ensures
        sorted_by_key(sort_nodes(cs)),
    decreases cs.len(),
{
    if cs.len() > 0 {
        let r = sort_nodes(cs.drop_last());
        let k = sort_key(cs.last());
        let p = insert_pos(r, k) as int;
        lemma_sort_nodes_sorted(cs.drop_last());
        lemma_insert_pos_props(r, k);
        let s = r.insert(p, cs.last());
        assert(s == sort_nodes(cs));
        assert forall|i: int, j: int| 0 <= i < j < s.len() implies !chars_lt(
            sort_key(#[trigger] s[j]),
            sort_key(#[trigger] s[i]),
        ) by {
            if j < p {
                assert(s[i] == r[i] && s[j] == r[j]);
            } else if j == p {
                assert(s[i] == r[i]);
            } else if i < p {
                assert(s[i] == r[i] && s[j] == r[j - 1]);
            } else if i == p {
                assert(s[j] == r[j - 1]);
                if j - 1 > p {
                    assert(!chars_lt(sort_key(r[j - 1]), sort_key(r[p])));
                } else {
                    lemma_chars_lt_irreflexive(sort_key(r[p]));
                }
                lemma_key_after(k, sort_key(r[p]), sort_key(r[j - 1]));
            } else {
                assert(s[i] == r[i - 1] && s[j] == r[j - 1]);
            }
        }
    }
}

/// Sorting keeps exactly the nodes it was given.
pub proof fn lemma_sort_nodes_permutes(cs: Seq<NodeView>)
    ensures
        sort_nodes(cs).to_multiset() == cs.to_multiset(),
    decreases cs.len(),
{
    if cs.len() > 0 {
        let r = sort_nodes(cs.drop_last());
        lemma_sort_nodes_permutes(cs.drop_last());
        lemma_insert_pos_props(r, sort_key(cs.last()));
        vstd::seq_lib::to_multiset_insert(r, insert_pos(r, sort_key(cs.last())) as int, cs.last());
        vstd::seq_lib::to_multiset_build(cs.drop_last(), cs.last());
        assert(cs.drop_last().push(cs.last()) =~= cs);
    }
}

/// Law of `sort_children`: the children of the sorted node come in order of
/// their lower-cased names, and they are the node's own children, each sorted
/// in turn.
pub proof fn lemma_sort_tree_orders_children(n: NodeView)
    ensures
        sorted_by_key(sort_tree(n).children),
        sort_tree(n).children.to_multiset() == n.children.map_values(|c: NodeView| sort_tree(c)).to_multiset(),
{
    let each = sort_each(n.children, n.children.len() as int);
    lemma_sort_each(n.children, n.children.len() as int);
    assert(each =~= n.children.map_values(|c: NodeView| sort_tree(c)));
    lemma_sort_nodes_sorted(each);
    lemma_sort_nodes_permutes(each);
}

/// The sort key of a node.
fn node_key(n: &TreeNode) -> (k: Vec<char>)
    ensures
        k@ == sort_key(n@),
{
    let lower = to_lowercase(n.name.as_str());
    proof {
        lemma_view_fields(*n);
    }
    chars_of(lower.as_str())
}

/// Sorts `v` by key, stably.
fn sort_node_vec(v: Vec<TreeNode>) -> (r: Vec<TreeNode>)
    ensures
        nodes_view(r@) == sort_nodes(nodes_view(v@)),
{
    let ghost vv = nodes_view(v@);
    let ghost orig = v@;
    proof {
        lemma_nodes_view(v@);
    }
    let total = v.len();
    let mut src = v;
    let mut out: Vec<TreeNode> = Vec::new();
    let mut keys: Vec<Vec<char>> = Vec::new();
    let mut k: usize = 0;
    proof {
        lemma_nodes_view(out@);
        assert(vv.subrange(0, 0) =~= Seq::<NodeView>::empty());
        assert(nodes_view(out@) =~= sort_nodes(vv.subrange(0, 0)));
        assert(src@ =~= orig.subrange(0, total as int));
    }
    while k < total
        invariant
            total == orig.len(),
            vv == nodes_view(orig),
            vv.len() == orig.len(),
            forall|i: int| 0 <= i < orig.len() ==> #[trigger] vv[i] == orig[i]@,
            k <= total,
            src@ == orig.subrange(k as int, total as int),
            nodes_view(out@) == sort_nodes(vv.subrange(0, k as int)),
            out@.len() == k,
            keys@.len() == out@.len(),
            forall|i: int| 0 <= i < out@.len() ==> #[trigger] keys@[i]@ == sort_key(out@[i]@),
        decreases total - k,
    {
        let x = src.remove(0);
        assert(x == orig[k as int]);
        assert(src@ =~= orig.subrange(k + 1, total as int));
        let kx = node_key(&x);
        let ghost r = nodes_view(out@);
        proof {
            lemma_nodes_view(out@);
        }
        let mut j: usize = 0;
        assert(r.subrange(0, r.len() as int) =~= r);
        while j < out.len() && !chars_less(&kx, &keys[j])
            invariant
                r == nodes_view(out@),
                r.len() == out@.len(),
                forall|i: int| 0 <= i < out@.len() ==> #[trigger] r[i] == out@[i]@,
                keys@.len() == out@.len(),
                forall|i: int| 0 <= i < out@.len() ==> #[trigger] keys@[i]@ == sort_key(out@[i]@),
                j <= out.len(),
                insert_pos(r, kx@) == j + insert_pos(r.subrange(j as int, r.len() as int), kx@),
            decreases out.len() - j,
        {
            let ghost rest = r.subrange(j as int, r.len() as int);
            assert(rest[0] == r[j as int]);
            assert(rest.drop_first() =~= r.subrange(j + 1, r.len() as int));
            j = j + 1;
        }
        proof {
            let rest = r.subrange(j as int, r.len() as int);
            if j < out.len() {
                assert(rest[0] == r[j as int]);
            } else {
                assert(rest.len() == 0);
            }
            assert(insert_pos(r, kx@) == j);
            let pre = vv.subrange(0, k + 1);
            assert(pre.drop_last() =~= vv.subrange(0, k as int));
            assert(pre.last() == x@);
        }
        let ghost out_before = out@;
        let ghost keys_before = keys@;
        let ghost xv = x@;
        out.insert(j, x);
        keys.insert(j, kx);
        proof {
            lemma_nodes_view(out@);
            assert(nodes_view(out@) =~= r.insert(j as int, xv));
            assert forall|i: int| 0 <= i < out@.len() implies #[trigger] keys@[i]@ == sort_key(
                out@[i]@,
            ) by {
                if i < j {
                    assert(keys@[i] == keys_before[i]);
                    assert(out@[i] == out_before[i]);
                } else if i == j {
                } else {
                    assert(keys@[i] == keys_before[i - 1]);
                    assert(out@[i] == out_before[i - 1]);
                }
            }
        }
        k = k + 1;
    }
    assert(vv.subrange(0, total as int) =~= vv);
    out
}

} // verus!

verus! {

impl TreeNode {
    /// Sorts the children of every node by lower-cased name, keeping the
    /// order of children whose lower-cased names are equal.
    pub fn sort_children(&mut self)
        ensures
            final(self)@ == sort_tree(old(self)@),
        decreases height(old(self)@),
    {
        let n = self.children.len();
        let mut i: usize = 0;
        proof {
            lemma_view_fields(*old(self));
        }
        while i < n
            invariant
                n == self.children@.len(),
                n == old(self).children@.len(),
                old(self)@.children.len() == n,
                forall|j: int| 0 <= j < n ==> #[trigger] old(self)@.children[j] == old(self).children@[j]@,
                i <= n,
                self.name == old(self).name,
                self.full_path == old(self).full_path,
                self.is_file == old(self).is_file,
                self.status == old(self).status,
                self.is_expanded == old(self).is_expanded,
                forall|j: int| 0 <= j < i ==> #[trigger] self.children@[j]@ == sort_tree(old(self).children@[j]@),
                forall|j: int| i <= j < n ==> #[trigger] self.children@[j] == old(self).children@[j],
            decreases n - i,
        {
            proof {
                lemma_child_height(old(self)@, i as int);
            }
            self.children[i].sort_children();
            i = i + 1;
        }
        let mut kids: Vec<TreeNode> = Vec::new();
        std::mem::swap(&mut kids, &mut self.children);
        proof {
            lemma_nodes_view(kids@);
            lemma_sort_each(old(self)@.children, n as int);
            assert forall|j: int| 0 <= j < n implies #[trigger] nodes_view(kids@)[j] == sort_each(
                old(self)@.children,
                n as int,
            )[j] by {
                assert(kids@[j]@ == sort_tree(old(self).children@[j]@));
                assert(old(self)@.children[j] == old(self).children@[j]@);
            }
            assert(nodes_view(kids@) =~= sort_each(old(self)@.children, n as int));
        }
        let sorted = sort_node_vec(kids);
        self.children = sorted;
        proof {
            lemma_view_fields(*self);
            assert(self@ =~= sort_tree(old(self)@));
        }
    }
}

} // verus!

verus! {

/// The root of an empty tree: the directory ".".
pub open spec fn root_view() -> NodeView {
    dir_node(seq!['.'], seq!['.'])
}

/// `t` with the files of `files` added in order, skipping those with a
/// dot-named component when `hide_dotfiles` is set.
pub open spec fn add_all(t: NodeView, files: Seq<FileEntry>, hide_dotfiles: bool) -> NodeView
    decreases files.len(),
{
    if files.len() == 0 {
        t
    } else {
        let before = add_all(t, files.drop_last(), hide_dotfiles);
        let f = files.last();
        if hide_dotfiles && is_dotfile_spec(f.path@) {
            before
        } else {
            add_path(before, f.path@, f.status)
        }
    }
}

/// The tree of `files`: all of them added to an empty root, then sorted.
pub open spec fn build_spec(files: Seq<FileEntry>, hide_dotfiles: bool) -> NodeView {
    sort_tree(add_all(root_view(), files, hide_dotfiles))
}

/// Builds the sorted tree of `files`, leaving out paths with a dot-named
/// component when `hide_dotfiles` is set.
pub fn build_tree(files: &[FileEntry], hide_dotfiles: bool) -> (r: TreeNode)
    ensures
        r@ == build_spec(files@, hide_dotfiles),
        height(r@) <= usize::MAX + 1,
{
    let mut root = TreeNode::root();
    proof {
        lemma_view_fields(root);
        reveal_strlit(".");
        assert(root@ =~= root_view());
        lemma_height_from_children(root@, 1);
        assert(files@.subrange(0, 0) =~= Seq::<FileEntry>::empty());
    }
    let mut i: usize = 0;
    while i < files.len()
        invariant
            i <= files@.len(),
            root@ == add_all(root_view(), files@.subrange(0, i as int), hide_dotfiles),
            height(root@) <= usize::MAX + 1,
        decreases files.len() - i,
    {
        let file = &files[i];
        proof {
            let pre = files@.subrange(0, i + 1);
            assert(pre.drop_last() =~= files@.subrange(0, i as int));
            assert(pre.last() == *file);
        }
        if hide_dotfiles && is_dotfile(file.path.as_str()) {
            i = i + 1;
            continue;
        }
        let ghost before = root@;
        add_to_tree(&mut root, &file.path, &file.status);
        proof {
            lemma_add_rec_height(before, components(file.path@), 0, file.status, file.path@);
        }
        i = i + 1;
    }
    assert(files@.subrange(0, files@.len() as int) =~= files@);
    let ghost unsorted = root@;
    root.sort_children();
    proof {
        lemma_sort_height(unsorted);
    }
    root
}

} // verus!

verus! {

/// The display item of a node at the given position.
pub open spec fn node_item(n: NodeView, depth: int, is_last: bool, ancestors: Seq<bool>) -> ItemView {
    ItemView {
        path: n.full_path,
        name: n.name,
        is_file: n.is_file,
        status: n.status,
        depth: depth as usize,
        is_expanded: n.is_expanded,
        is_last_sibling: is_last,
        ancestors_are_last: ancestors,
    }
}

/// The items shown for the subtree `n`, in pre-order: a node named "." is not
/// shown itself but its children are, at its own depth; with `hide_dotfiles`,
/// a node whose name starts with a dot is left out with all below it; the
/// children of a collapsed node are left out. Each child is shown one level
/// deeper, with the "is last" flag of its parent added to its ancestors.
pub open spec fn flatten_spec(
    n: NodeView,
    depth: int,
    is_last: bool,
    ancestors: Seq<bool>,
    hide_dotfiles: bool,
) -> Seq<ItemView>
    decreases n, 0int,
{
    let root_like = is_dot(n.name);
    if !root_like && hide_dotfiles && starts_with_dot(n.name) {
        Seq::empty()
    } else {
        let own = if root_like {
            Seq::empty()
        } else {
            seq![node_item(n, depth, is_last, ancestors)]
        };
        if n.is_expanded || root_like {
            own + flatten_children(
                n.children,
                n.children.len() as int,
                if root_like {
                    depth
                } else {
                    depth + 1
                },
                if root_like {
                    ancestors
                } else {
                    ancestors.push(is_last)
                },
                hide_dotfiles,
            )
        } else {
            own
        }
    }
}

/// The items shown for the first `k` children `cs`, at the given depth and ancestors.
pub open spec fn flatten_children(
    cs: Seq<NodeView>,
    k: int,
    depth: int,
    ancestors: Seq<bool>,
    hide_dotfiles: bool,
) -> Seq<ItemView>
    decreases cs, k,
{
    if k <= 0 || k > cs.len() {
        Seq::empty()
    } else {
        flatten_children(cs, k - 1, depth, ancestors, hide_dotfiles) + flatten_spec(
            cs[k - 1],
            depth,
            k - 1 == cs.len() - 1,
            ancestors,
            hide_dotfiles,
        )
    }
}

/// The items shown for a whole tree.
pub open spec fn flatten_tree_spec(root: NodeView, hide_dotfiles: bool) -> Seq<ItemView> {
    flatten_spec(root, 0, true, Seq::empty(), hide_dotfiles)
}

/// A copy of `v`.
fn copy_bools(v: &Vec<bool>) -> (r: Vec<bool>)
    ensures
        r@ == v@,
{
    let mut r: Vec<bool> = Vec::new();
    let mut i: usize = 0;
    while i < v.len()
        invariant
            i <= v.len(),
            r@ == v@.subrange(0, i as int),
        decreases v.len() - i,
    {
        r.push(v[i]);
        i = i + 1;
        assert(r@ =~= v@.subrange(0, i as int));
    }
    assert(r@ =~= v@);
    r
}

/// A node with children is at least two levels high.
proof fn lemma_height_with_children(n: NodeView)
    ensures
        height(n) >= 1,
        n.children.len() > 0 ==> height(n) >= 2,
{
    if n.children.len() > 0 {
        lemma_child_height(n, 0);
    }
}

/// Appends the items shown for `node` to `items`.
fn flatten_node(
    node: &TreeNode,
    depth: usize,
    is_last: bool,
    ancestors: Vec<bool>,
    items: &mut Vec<SelectableItem>,
    hide_dotfiles: bool,
)
    requires
        depth + height(node@) <= usize::MAX + 1,
    ensures
        items_view(final(items)@) == items_view(old(items)@) + flatten_spec(
            node@,
            depth as int,
            is_last,
            ancestors@,
            hide_dotfiles,
        ),
    decreases height(node@),
{
    proof {
        lemma_view_fields(*node);
        lemma_height_with_children(node@);
    }
    let root_like = str_is_dot(node.name.as_str());
    let ghost own: Seq<ItemView> = if root_like {
        Seq::empty()
    } else {
        seq![node_item(node@, depth as int, is_last, ancestors@)]
    };
    if !root_like {
        if hide_dotfiles && str_starts_with_dot(node.name.as_str()) {
            assert(items_view(items@) =~= items_view(old(items)@) + Seq::<ItemView>::empty());
            return;
        }
        let anc = copy_bools(&ancestors);
        let item = SelectableItem::from_node(node, depth, is_last, anc);
        items.push(item);
        assert(item@ == node_item(node@, depth as int, is_last, ancestors@));
    }
    assert(items_view(items@) =~= items_view(old(items)@) + own);
    if node.is_expanded || root_like {
        let child_count = node.children.len();
        let ghost cd: int = if root_like {
            depth as int
        } else {
            depth + 1
        };
        let ghost ca: Seq<bool> = if root_like {
            ancestors@
        } else {
            ancestors@.push(is_last)
        };
        let mut i: usize = 0;
        while i < child_count
            invariant
                child_count == node.children@.len(),
                node@.children.len() == child_count,
                forall|j: int| 0 <= j < child_count ==> #[trigger] node@.children[j] == node.children@[j]@,
                i <= child_count,
                root_like == is_dot(node@.name),
                cd == (if root_like {
                    depth as int
                } else {
                    depth + 1
                }),
                ca == (if root_like {
                    ancestors@
                } else {
                    ancestors@.push(is_last)
                }),
                depth + height(node@) <= usize::MAX + 1,
                child_count > 0 ==> height(node@) >= 2,
                items_view(items@) == items_view(old(items)@) + own + flatten_children(
                    node@.children,
                    i as int,
                    cd,
                    ca,
                    hide_dotfiles,
                ),
            decreases child_count - i,
        {
            let child_is_last = i == child_count - 1;
            let mut child_ancestors = copy_bools(&ancestors);
            if !root_like {
                child_ancestors.push(is_last);
            }
            let child_depth = if root_like {
                depth
            } else {
                depth + 1
            };
            proof {
                lemma_child_height(node@, i as int);
            }
            let ghost before = items_view(items@);
            flatten_node(&node.children[i], child_depth, child_is_last, child_ancestors, items, hide_dotfiles);
            assert(items_view(items@) =~= items_view(old(items)@) + own + flatten_children(
                node@.children,
                i + 1,
                cd,
                ca,
                hide_dotfiles,
            ));
            i = i + 1;
        }
        assert(items_view(items@) =~= items_view(old(items)@) + flatten_spec(
            node@,
            depth as int,
            is_last,
            ancestors@,
            hide_dotfiles,
        ));
    } else {
        assert(items_view(items@) =~= items_view(old(items)@) + flatten_spec(
            node@,
            depth as int,
            is_last,
            ancestors@,
            hide_dotfiles,
        ));
    }
}

/// The list of items shown for the tree, respecting the expanded state.
pub fn flatten_tree(root: &TreeNode, hide_dotfiles: bool) -> (r: Vec<SelectableItem>)
    requires
        height(root@) <= usize::MAX + 1,
    ensures
        items_view(r@) == flatten_tree_spec(root@, hide_dotfiles),
{
    let mut items: Vec<SelectableItem> = Vec::new();
    flatten_node(root, 0, true, Vec::new(), &mut items, hide_dotfiles);
    assert(items_view(Seq::<SelectableItem>::empty()) =~= Seq::<ItemView>::empty());
    assert(items_view(items@) =~= flatten_tree_spec(root@, hide_dotfiles));
    items
}

} // verus!

verus! {

/// Some node of the tree `n` has path `p`.
pub open spec fn contains_path(n: NodeView, p: Seq<char>) -> bool
    decreases n, 0int,
{
    path_eq(n.full_path, p) || any_contains(n.children, n.children.len() as int, p)
}

/// Some node of the first `k` trees of `cs` has path `p`.
pub open spec fn any_contains(cs: Seq<NodeView>, k: int, p: Seq<char>) -> bool
    decreases cs, k,
{
    if k <= 0 || k > cs.len() {
        false
    } else {
        any_contains(cs, k - 1, p) || contains_path(cs[k - 1], p)
    }
}

/// The index of the first of the first `k` trees of `cs` that has a node with path `p`.
pub open spec fn first_containing(cs: Seq<NodeView>, k: int, p: Seq<char>) -> Option<int>
    decreases k,
{
    if k <= 0 || k > cs.len() {
        None
    } else {
        match first_containing(cs, k - 1, p) {
            Some(i) => Some(i),
            None => if contains_path(cs[k - 1], p) {
                Some(k - 1)
            } else {
                None
            },
        }
    }
}

proof fn lemma_first_containing(cs: Seq<NodeView>, k: int, p: Seq<char>)
    requires
        0 <= k <= cs.len(),
    ensures
        match first_containing(cs, k, p) {
            Some(i) => 0 <= i < k && contains_path(cs[i], p) && forall|j: int|
                0 <= j < i ==> !#[trigger] contains_path(cs[j], p),
            None => forall|j: int| 0 <= j < k ==> !#[trigger] contains_path(cs[j], p),
        },
        first_containing(cs, k, p) is Some == any_contains(cs, k, p),
    decreases k,
{
    if k > 0 {
        lemma_first_containing(cs, k - 1, p);
    }
}

/// The first node of the tree, in pre-order, whose path is `p`.
pub open spec fn found_node(n: NodeView, p: Seq<char>) -> NodeView
    decreases n, 0int,
{
    if path_eq(n.full_path, p) {
        n
    } else {
        match first_containing(n.children, n.children.len() as int, p) {
            Some(i) => if 0 <= i < n.children.len() {
                found_node(n.children[i], p)
            } else {
                n
            },
            None => n,
        }
    }
}

/// The tree with the first node, in pre-order, whose path is `p` replaced by `new_node`.
pub open spec fn replace_found(n: NodeView, p: Seq<char>, new_node: NodeView) -> NodeView
    decreases n, 0int,
{
    if path_eq(n.full_path, p) {
        new_node
    } else {
        match first_containing(n.children, n.children.len() as int, p) {
            Some(i) => if 0 <= i < n.children.len() {
                NodeView {
                    children: n.children.update(i, replace_found(n.children[i], p, new_node)),
                    ..n
                }
            } else {
                n
            },
            None => n,
        }
    }
}

/// Whether some node below `node` has path `path`.
fn contains_path_exec(node: &TreeNode, path: &str) -> (r: bool)
    ensures
        r == contains_path(node@, path@),
    decreases height(node@),
{
    proof {
        lemma_view_fields(*node);
    }
    if paths_equal(node.full_path.as_str(), path) {
        return true;
    }
    let n = node.children.len();
    let mut i: usize = 0;
    while i < n
        invariant
            n == node.children@.len(),
            node@.children.len() == n,
            forall|j: int| 0 <= j < n ==> #[trigger] node@.children[j] == node.children@[j]@,
            i <= n,
            !any_contains(node@.children, i as int, path@),
        decreases n - i,
    {
        proof {
            lemma_child_height(node@, i as int);
        }
        if contains_path_exec(&node.children[i], path) {
            assert(any_contains(node@.children, i + 1, path@));
            proof {
                lemma_any_contains_mono(node@.children, i + 1, n as int, path@);
            }
            return true;
        }
        i = i + 1;
    }
    false
}

proof fn lemma_any_contains_mono(cs: Seq<NodeView>, k: int, m: int, p: Seq<char>)
    requires
        0 <= k <= m <= cs.len(),
        any_contains(cs, k, p),
    ensures
        any_contains(cs, m, p),
    decreases m - k,
{
    if k < m {
        lemma_any_contains_mono(cs, k + 1, m, p);
    }
}

proof fn lemma_replace_step(r: NodeView, p: Seq<char>, i: int)
    requires
        !path_eq(r.full_path, p),
        first_containing(r.children, r.children.len() as int, p) == Some(i),
        0 <= i < r.children.len(),
    ensures
        found_node(r, p) == found_node(r.children[i], p),
        forall|x: NodeView| #[trigger] replace_found(r, p, x) == (NodeView {
            children: r.children.update(i, replace_found(r.children[i], p, x)),
            ..r
        }),
{
}

proof fn lemma_view_update(r: TreeNode, i: int)
    requires
        0 <= i < r.children@.len(),
    ensures
        forall|t: TreeNode|
            t.children@ == r.children@.update(i, t.children@[i]) && t.name == r.name && t.full_path
                == r.full_path && t.is_file == r.is_file && t.status == r.status && t.is_expanded
                == r.is_expanded ==> #[trigger] t@ == (NodeView {
                children: r@.children.update(i, t.children@[i]@),
                ..r@
            }),
{
    assert forall|t: TreeNode|
        t.children@ == r.children@.update(i, t.children@[i]) && t.name == r.name && t.full_path
            == r.full_path && t.is_file == r.is_file && t.status == r.status && t.is_expanded
            == r.is_expanded implies #[trigger] t@ == (NodeView {
        children: r@.children.update(i, t.children@[i]@),
        ..r@
    }) by {
        lemma_view_fields(t);
        lemma_view_fields(r);
        assert(t@.children =~= r@.children.update(i, t.children@[i]@));
    }
}

/// Finds the first node, in pre-order, whose path is `path`.
pub fn find_node_mut<'a>(root: &'a mut TreeNode, path: &str) -> (r: Option<&'a mut TreeNode>)
    ensures
        r is Some == contains_path(old(root)@, path@),
        r is Some ==> (*r.unwrap())@ == found_node(old(root)@, path@) && final(root)@ == replace_found(
            old(root)@,
            path@,
            (*final(r.unwrap()))@,
        ),
        r is None ==> *final(root) == *old(root),
    decreases height(old(root)@),
{
    proof {
        lemma_view_fields(*root);
    }
    if paths_equal(root.full_path.as_str(), path) {
        return Some(root);
    }
    let n = root.children.len();
    let mut i: usize = 0;
    proof {
        lemma_first_containing(old(root)@.children, n as int, path@);
    }
    while i < n
        invariant
            n == root.children@.len(),
            *root == *old(root),
            root@.children.len() == n,
            forall|j: int| 0 <= j < n ==> #[trigger] root@.children[j] == root.children@[j]@,
            i <= n,
            !path_eq(root@.full_path, path@),
            forall|j: int| 0 <= j < i ==> !#[trigger] contains_path(root@.children[j], path@),
        decreases n - i,
    {
        if contains_path_exec(&root.children[i], path) {
            proof {
                lemma_first_containing(root@.children, n as int, path@);
                lemma_child_height(root@, i as int);
                assert(first_containing(root@.children, n as int, path@) == Some(i as int));
                lemma_replace_step(root@, path@, i as int);
                lemma_view_update(*root, i as int);
            }
            let child = &mut root.children[i];
            let found = find_node_mut(child, path);
            return found;
        }
        i = i + 1;
    }
    proof {
        lemma_first_containing(root@.children, n as int, path@);
    }
    None
}

} // verus!

verus! {

/// `n` with its expanded state flipped.
pub open spec fn flipped(n: NodeView) -> NodeView {
    NodeView { is_expanded: !n.is_expanded, ..n }
}

/// Toggling applies when the tree has a node with path `p` and the first one is a directory.
pub open spec fn toggle_applies(n: NodeView, p: Seq<char>) -> bool {
    contains_path(n, p) && !found_node(n, p).is_file
}

/// The tree after toggling the expanded state of the first directory with path `p`.
pub open spec fn toggled_tree(n: NodeView, p: Seq<char>) -> NodeView {
    if toggle_applies(n, p) {
        replace_found(n, p, flipped(found_node(n, p)))
    } else {
        n
    }
}

/// The found node has the path that was looked for.
pub proof fn lemma_found_has_path(n: NodeView, p: Seq<char>)
    requires
        contains_path(n, p),
    ensures
        path_eq(found_node(n, p).full_path, p),
    decreases n,
{
    if !path_eq(n.full_path, p) {
        lemma_first_containing(n.children, n.children.len() as int, p);
        let i = first_containing(n.children, n.children.len() as int, p)->0;
        lemma_found_has_path(n.children[i], p);
    }
}

/// Putting the found node back in its place leaves the tree unchanged.
pub proof fn lemma_replace_with_found(n: NodeView, p: Seq<char>)
    ensures
        replace_found(n, p, found_node(n, p)) == n,
    decreases n,
{
    if !path_eq(n.full_path, p) {
        lemma_first_containing(n.children, n.children.len() as int, p);
        match first_containing(n.children, n.children.len() as int, p) {
            Some(i) => {
                lemma_replace_with_found(n.children[i], p);
                assert(n.children.update(i, replace_found(n.children[i], p, found_node(n.children[i], p))) =~= n.children);
            },
            None => {},
        }
    }
}

/// After replacing the found node by a node `x` with the same path, `x` is
/// the one found, and a second replacement overrides the first.
pub proof fn lemma_replace_then_find(n: NodeView, p: Seq<char>, x: NodeView, y: NodeView)
    requires
        contains_path(n, p),
        path_eq(x.full_path, p),
    ensures
        contains_path(replace_found(n, p, x), p),
        found_node(replace_found(n, p, x), p) == x,
        replace_found(replace_found(n, p, x), p, y) == replace_found(n, p, y),
    decreases n,
{
    if !path_eq(n.full_path, p) {
        let cs = n.children;
        let len = cs.len() as int;
        lemma_first_containing(cs, len, p);
        let i = first_containing(cs, len, p)->0;
        lemma_replace_then_find(cs[i], p, x, y);
        let m = replace_found(n, p, x);
        let cs2 = m.children;
        assert(cs2 == cs.update(i, replace_found(cs[i], p, x)));
        lemma_first_containing(cs2, len, p);
        assert(first_containing(cs2, len, p) == Some(i)) by {
            match first_containing(cs2, len, p) {
                Some(k) => {
                    if k < i {
                        assert(cs2[k] == cs[k]);
                    } else if k > i {
                        assert(contains_path(cs2[i], p));
                    }
                },
                None => {
                    assert(contains_path(cs2[i], p));
                },
            }
        }
        assert(any_contains(cs2, len, p));
        assert(cs2.update(i, replace_found(cs2[i], p, y)) =~= cs.update(i, replace_found(cs[i], p, y)));
    }
}

/// Toggling the same path twice gives the tree back.
pub proof fn lemma_toggle_twice(n: NodeView, p: Seq<char>)
    ensures
        toggled_tree(toggled_tree(n, p), p) == n,
{
    if toggle_applies(n, p) {
        let f = found_node(n, p);
        lemma_found_has_path(n, p);
        lemma_replace_then_find(n, p, flipped(f), f);
        lemma_replace_with_found(n, p);
        assert(flipped(flipped(f)) =~= f);
    }
}

/// Toggles the expanded state of the first node with path `path`, when it is
/// a directory; tells whether it did.
pub fn toggle_expanded(root: &mut TreeNode, path: &str) -> (r: bool)
    ensures
        r == toggle_applies(old(root)@, path@),
        final(root)@ == toggled_tree(old(root)@, path@),
        height(final(root)@) <= height(old(root)@),
{
    proof {
        lemma_replace_with_found(old(root)@, path@);
        lemma_toggle_height(old(root)@, path@);
    }
    if let Some(node) = find_node_mut(root, path) {
        proof {
            lemma_view_fields(*node);
        }
        if !node.is_file {
            node.toggle_expanded();
            proof {
                lemma_view_fields(*node);
                assert(node@ =~= flipped(found_node(old(root)@, path@)));
            }
            return true;
        }
        return false;
    }
    false
}

} // verus!

verus! {

proof fn lemma_max_height_bound(cs: Seq<NodeView>, k: int, h: nat)
    requires
        0 <= k <= cs.len(),
        forall|i: int| 0 <= i < k ==> #[trigger] height(cs[i]) <= h,
    ensures
        max_height(cs, k) <= h,
    decreases k,
{
    if k > 0 {
        lemma_max_height_bound(cs, k - 1, h);
        assert(height(cs[k - 1]) <= h);
    }
}

/// The greatest height among `cs` bounds each of them, and is bounded by any common bound.
proof fn lemma_max_height_all(cs: Seq<NodeView>, h: nat)
    ensures
        (max_height(cs, cs.len() as int) <= h) == (forall|i: int|
            0 <= i < cs.len() ==> #[trigger] height(cs[i]) <= h),
{
    if max_height(cs, cs.len() as int) <= h {
        assert forall|i: int| 0 <= i < cs.len() implies #[trigger] height(cs[i]) <= h by {
            lemma_max_height(cs, cs.len() as int, i);
        }
    }
    if forall|i: int| 0 <= i < cs.len() ==> #[trigger] height(cs[i]) <= h {
        lemma_max_height_bound(cs, cs.len() as int, h);
    }
}

/// A bound on the height of a node from bounds on its children.
proof fn lemma_height_from_children(n: NodeView, h: nat)
    requires
        forall|i: int| 0 <= i < n.children.len() ==> #[trigger] height(n.children[i]) + 1 <= h,
        h >= 1,
    ensures
        height(n) <= h,
{
    lemma_max_height_all(n.children, (h - 1) as nat);
}

/// The children of a node are at most one level lower than it.
proof fn lemma_children_below(n: NodeView)
    ensures
        forall|i: int| 0 <= i < n.children.len() ==> #[trigger] height(n.children[i]) + 1 <= height(n),
{
    assert forall|i: int| 0 <= i < n.children.len() implies #[trigger] height(n.children[i]) + 1
        <= height(n) by {
        lemma_child_height(n, i);
    }
}

/// Adding a path of `comps.len() - depth` remaining components grows the tree
/// to at most that many levels below `n`.
proof fn lemma_add_rec_height(
    n: NodeView,
    comps: Seq<Seq<char>>,
    depth: int,
    status: FileStatus,
    full_path: Seq<char>,
)
    requires
        0 <= depth,
    ensures
        height(add_rec(n, comps, depth, status, full_path)) <= if height(n) >= comps.len() - depth + 1 {
            height(n) as int
        } else {
            comps.len() - depth + 1
        },
    decreases comps.len() - depth,
{
    if depth < comps.len() {
        let name = comps[depth];
        let last = depth == comps.len() - 1;
        let r = add_rec(n, comps, depth, status, full_path);
        let bound: int = if height(n) >= comps.len() - depth + 1 {
            height(n) as int
        } else {
            comps.len() - depth + 1
        };
        lemma_children_below(n);
        lemma_first_named(n.children, name);
        match first_named(n.children, name) {
            Some(idx) => {
                let c = n.children[idx];
                if !last {
                    lemma_add_rec_height(c, comps, depth + 1, status, full_path);
                }
                assert forall|i: int| 0 <= i < r.children.len() implies #[trigger] height(r.children[i])
                    + 1 <= bound by {
                    if i != idx {
                        assert(r.children[i] == n.children[i]);
                    }
                }
            },
            None => {
                if !last {
                    lemma_add_rec_height(
                        dir_node(name, join_path(comps.subrange(0, depth + 1))),
                        comps,
                        depth + 1,
                        status,
                        full_path,
                    );
                } else {
                    lemma_height_from_children(file_node(name, full_path, status), 1);
                }
                assert forall|i: int| 0 <= i < r.children.len() implies #[trigger] height(r.children[i])
                    + 1 <= bound by {
                    if i < n.children.len() {
                        assert(r.children[i] == n.children[i]);
                    }
                }
            },
        }
        lemma_height_from_children(r, bound as nat);
    }
}

proof fn lemma_sort_nodes_bounded(cs: Seq<NodeView>, h: nat)
    requires
        forall|i: int| 0 <= i < cs.len() ==> #[trigger] height(cs[i]) <= h,
    ensures
        forall|i: int|
            0 <= i < sort_nodes(cs).len() ==> #[trigger] height(sort_nodes(cs)[i]) <= h,
    decreases cs.len(),
{
    if cs.len() > 0 {
        let r = sort_nodes(cs.drop_last());
        assert forall|i: int| 0 <= i < cs.drop_last().len() implies #[trigger] height(
            cs.drop_last()[i],
        ) <= h by {
            assert(cs.drop_last()[i] == cs[i]);
        }
        lemma_sort_nodes_bounded(cs.drop_last(), h);
        lemma_insert_pos_bound(r, sort_key(cs.last()));
        let pos = insert_pos(r, sort_key(cs.last())) as int;
        assert forall|i: int| 0 <= i < sort_nodes(cs).len() implies #[trigger] height(
            sort_nodes(cs)[i],
        ) <= h by {
            if i < pos {
                assert(sort_nodes(cs)[i] == r[i]);
            } else if i > pos {
                assert(sort_nodes(cs)[i] == r[i - 1]);
            }
        }
    }
}

/// Sorting does not make a tree higher.
pub proof fn lemma_sort_height(n: NodeView)
    ensures
        height(sort_tree(n)) <= height(n),
    decreases n,
{
    let cs = n.children;
    let len = cs.len() as int;
    lemma_children_below(n);
    lemma_sort_each(cs, len);
    let each = sort_each(cs, len);
    assert forall|i: int| 0 <= i < each.len() implies #[trigger] height(each[i]) + 1 <= height(n) by {
        lemma_sort_height(cs[i]);
    }
    assert forall|i: int| 0 <= i < each.len() implies #[trigger] height(each[i]) <= (height(n) - 1) as nat by {
        assert(height(each[i]) + 1 <= height(n));
    }
    lemma_sort_nodes_bounded(each, (height(n) - 1) as nat);
    let s = sort_tree(n);
    assert forall|i: int| 0 <= i < s.children.len() implies #[trigger] height(s.children[i]) + 1
        <= height(n) by {
        assert(height(sort_nodes(each)[i]) <= (height(n) - 1) as nat);
    }
    lemma_height_from_children(s, height(n));
}

/// Replacing the found node by a node no higher does not make the tree higher.
pub proof fn lemma_replace_height(n: NodeView, p: Seq<char>, x: NodeView)
    requires
        height(x) <= height(found_node(n, p)),
    ensures
        height(replace_found(n, p, x)) <= height(n),
    decreases n,
{
    if !path_eq(n.full_path, p) {
        let cs = n.children;
        lemma_first_containing(cs, cs.len() as int, p);
        lemma_children_below(n);
        match first_containing(cs, cs.len() as int, p) {
            Some(i) => {
                lemma_replace_height(cs[i], p, x);
                let r = replace_found(n, p, x);
                assert forall|j: int| 0 <= j < r.children.len() implies #[trigger] height(r.children[j])
                    + 1 <= height(n) by {
                    if j != i {
                        assert(r.children[j] == cs[j]);
                    }
                }
                lemma_height_from_children(r, height(n));
            },
            None => {},
        }
    }
}

/// Toggling does not make a tree higher.
pub proof fn lemma_toggle_height(n: NodeView, p: Seq<char>)
    ensures
        height(toggled_tree(n, p)) <= height(n),
{
    if toggle_applies(n, p) {
        let f = found_node(n, p);
        assert(flipped(f).children == f.children);
        lemma_replace_height(n, p, flipped(f));
    }
}

} // verus!

verus! {

/// What holds of every item shown for a subtree placed at `depth` below
/// ancestors `ancestors`, when `depth` plus its height fits in a `usize`.
pub open spec fn items_well_placed(
    items: Seq<ItemView>,
    depth: int,
    ancestors: Seq<bool>,
    max_depth: int,
    hide_dotfiles: bool,
) -> bool {
    forall|k: int|
        0 <= k < items.len() ==> {
            let it = #[trigger] items[k];
            &&& depth <= it.depth <= max_depth
            &&& it.ancestors_are_last.len() - ancestors.len() == it.depth - depth
            &&& it.ancestors_are_last.subrange(0, ancestors.len() as int) == ancestors
            &&& !is_dot(it.name)
            &&& hide_dotfiles ==> !starts_with_dot(it.name)
        }
}

/// The items shown for a subtree are well placed: their depth grows with
/// their number of ancestors, no item is named ".", and no shown name starts
/// with a dot when dot files are hidden.
pub proof fn lemma_flatten_well_placed(
    n: NodeView,
    depth: int,
    is_last: bool,
    ancestors: Seq<bool>,
    hide_dotfiles: bool,
)
    requires
        0 <= depth,
        depth + height(n) <= usize::MAX + 1,
    ensures
        items_well_placed(
            flatten_spec(n, depth, is_last, ancestors, hide_dotfiles),
            depth,
            ancestors,
            if is_dot(n.name) {
                depth + height(n) - 2
            } else {
                depth + height(n) - 1
            },
            hide_dotfiles,
        ),
    decreases n, 0int,
{
    let root_like = is_dot(n.name);
    lemma_children_below(n);
    if !(!root_like && hide_dotfiles && starts_with_dot(n.name)) {
        let cd = if root_like {
            depth
        } else {
            depth + 1
        };
        let ca = if root_like {
            ancestors
        } else {
            ancestors.push(is_last)
        };
        let maxd = if root_like {
            depth + height(n) - 2
        } else {
            depth + height(n) - 1
        };
        let own = if root_like {
            Seq::<ItemView>::empty()
        } else {
            seq![node_item(n, depth, is_last, ancestors)]
        };
        if n.is_expanded || root_like {
            lemma_flatten_children_well_placed(
                n.children,
                n.children.len() as int,
                cd,
                ca,
                (height(n) - 1) as nat,
                hide_dotfiles,
            );
            let kids = flatten_children(n.children, n.children.len() as int, cd, ca, hide_dotfiles);
            let all = own + kids;
            assert forall|k: int| 0 <= k < all.len() implies {
                let it = #[trigger] all[k];
                &&& depth <= it.depth <= maxd
                &&& it.ancestors_are_last.len() - ancestors.len() == it.depth - depth
                &&& it.ancestors_are_last.subrange(0, ancestors.len() as int) == ancestors
                &&& !is_dot(it.name)
                &&& hide_dotfiles ==> !starts_with_dot(it.name)
            } by {
                if k < own.len() {
                    assert(all[k] == own[k]);
                    assert(ancestors.subrange(0, ancestors.len() as int) =~= ancestors);
                } else {
                    assert(all[k] == kids[k - own.len()]);
                    let it = kids[k - own.len()];
                    if !root_like {
                        assert(it.ancestors_are_last.subrange(0, ancestors.len() as int) =~= it.ancestors_are_last.subrange(0, ca.len() as int).subrange(0, ancestors.len() as int));
                        assert(ca.subrange(0, ancestors.len() as int) =~= ancestors);
                    }
                }
            }
        } else {
            assert forall|k: int| 0 <= k < own.len() implies {
                let it = #[trigger] own[k];
                &&& depth <= it.depth <= maxd
                &&& it.ancestors_are_last.len() - ancestors.len() == it.depth - depth
                &&& it.ancestors_are_last.subrange(0, ancestors.len() as int) == ancestors
                &&& !is_dot(it.name)
                &&& hide_dotfiles ==> !starts_with_dot(it.name)
            } by {
                assert(ancestors.subrange(0, ancestors.len() as int) =~= ancestors);
            }
        }
    }
}

/// The items shown for the first `k` children are well placed.
pub proof fn lemma_flatten_children_well_placed(
    cs: Seq<NodeView>,
    k: int,
    depth: int,
    ancestors: Seq<bool>,
    h: nat,
    hide_dotfiles: bool,
)
    requires
        0 <= depth,
        depth + h <= usize::MAX + 1,
        forall|i: int| 0 <= i < cs.len() ==> #[trigger] height(cs[i]) <= h,
    ensures
        items_well_placed(
            flatten_children(cs, k, depth, ancestors, hide_dotfiles),
            depth,
            ancestors,
            depth + h - 1,
            hide_dotfiles,
        ),
    decreases cs, k,
{
    if 0 < k <= cs.len() {
        lemma_flatten_children_well_placed(cs, k - 1, depth, ancestors, h, hide_dotfiles);
        lemma_flatten_well_placed(cs[k - 1], depth, k - 1 == cs.len() - 1, ancestors, hide_dotfiles);
        let a = flatten_children(cs, k - 1, depth, ancestors, hide_dotfiles);
        let b = flatten_spec(cs[k - 1], depth, k - 1 == cs.len() - 1, ancestors, hide_dotfiles);
        let all = a + b;
        assert forall|j: int| 0 <= j < all.len() implies {
            let it = #[trigger] all[j];
            &&& depth <= it.depth <= depth + h - 1
            &&& it.ancestors_are_last.len() - ancestors.len() == it.depth - depth
            &&& it.ancestors_are_last.subrange(0, ancestors.len() as int) == ancestors
            &&& !is_dot(it.name)
            &&& hide_dotfiles ==> !starts_with_dot(it.name)
        } by {
            if j < a.len() {
                assert(all[j] == a[j]);
            } else {
                assert(all[j] == b[j - a.len()]);
            }
        }
    }
}

/// In the items of a whole tree whose root is ".", each item's depth is its
/// number of ancestors, no item is named ".", no shown name starts with a dot
/// when dot files are hidden, and every depth is below `usize::MAX`.
pub proof fn lemma_flatten_tree_well_placed(root: NodeView, hide_dotfiles: bool)
    requires
        height(root) <= usize::MAX + 1,
    ensures
        forall|k: int|
            0 <= k < flatten_tree_spec(root, hide_dotfiles).len() ==> {
                let it = #[trigger] flatten_tree_spec(root, hide_dotfiles)[k];
                &&& it.ancestors_are_last.len() == it.depth
                &&& !is_dot(it.name)
                &&& hide_dotfiles ==> !starts_with_dot(it.name)
                &&& it.depth < usize::MAX || !is_dot(root.name)
            },
{
    lemma_flatten_well_placed(root, 0, true, Seq::empty(), hide_dotfiles);
}

} // verus!

verus! {

/// The paths of the collapsed directories of a tree (other than those named
/// "."), in pre-order.
pub open spec fn collapsed_paths(n: NodeView) -> Seq<Seq<char>>
    decreases n, 0int,
{
    (if !n.is_file && !n.is_expanded && !is_dot(n.name) {
        seq![n.full_path]
    } else {
        Seq::empty()
    }) + collapsed_in(n.children, n.children.len() as int)
}

/// The paths of the collapsed directories of the first `k` trees of `cs`.
pub open spec fn collapsed_in(cs: Seq<NodeView>, k: int) -> Seq<Seq<char>>
    decreases cs, k,
{
    if k <= 0 || k > cs.len() {
        Seq::empty()
    } else {
        collapsed_in(cs, k - 1) + collapsed_paths(cs[k - 1])
    }
}

/// The tree with each node whose path is `p` collapsed; the search does not
/// go below a node that matches.
pub open spec fn collapse_path(n: NodeView, p: Seq<char>) -> NodeView
    decreases n, 0int,
{
    if path_eq(n.full_path, p) {
        NodeView { is_expanded: false, ..n }
    } else {
        NodeView { children: collapse_each(n.children, n.children.len() as int, p), ..n }
    }
}

/// The first `k` trees of `cs`, each with the nodes whose path is `p` collapsed.
pub open spec fn collapse_each(cs: Seq<NodeView>, k: int, p: Seq<char>) -> Seq<NodeView>
    decreases cs, k,
{
    if k <= 0 || k > cs.len() {
        Seq::empty()
    } else {
        collapse_each(cs, k - 1, p).push(collapse_path(cs[k - 1], p))
    }
}

/// The tree with the nodes of each path of `ps` collapsed, in order.
pub open spec fn collapse_all(n: NodeView, ps: Seq<Seq<char>>) -> NodeView
    decreases ps.len(),
{
    if ps.len() == 0 {
        n
    } else {
        collapse_path(collapse_all(n, ps.drop_last()), ps.last())
    }
}

proof fn lemma_collapse_each(cs: Seq<NodeView>, k: int, p: Seq<char>)
    requires
        0 <= k <= cs.len(),
    ensures
        collapse_each(cs, k, p).len() == k,
        forall|i: int| 0 <= i < k ==> #[trigger] collapse_each(cs, k, p)[i] == collapse_path(cs[i], p),
    decreases k,
{
    if k > 0 {
        lemma_collapse_each(cs, k - 1, p);
    }
}

proof fn lemma_max_height_same(a: Seq<NodeView>, b: Seq<NodeView>, k: int)
    requires
        0 <= k <= a.len(),
        a.len() == b.len(),
        forall|i: int| 0 <= i < k ==> #[trigger] height(a[i]) == height(b[i]),
    ensures
        max_height(a, k) == max_height(b, k),
    decreases k,
{
    if k > 0 {
        lemma_max_height_same(a, b, k - 1);
        assert(height(a[k - 1]) == height(b[k - 1]));
    }
}

/// Collapsing keeps the height and the name of a tree.
pub proof fn lemma_collapse_keeps_shape(n: NodeView, p: Seq<char>)
    ensures
        height(collapse_path(n, p)) == height(n),
        collapse_path(n, p).name == n.name,
    decreases n,
{
    if !path_eq(n.full_path, p) {
        let cs = n.children;
        lemma_collapse_each(cs, cs.len() as int, p);
        let ds = collapse_each(cs, cs.len() as int, p);
        assert forall|i: int| 0 <= i < cs.len() implies #[trigger] height(ds[i]) == height(cs[i]) by {
            lemma_collapse_keeps_shape(cs[i], p);
        }
        lemma_max_height_same(ds, cs, cs.len() as int);
    }
}

/// Collapsing several paths keeps the height and the name of a tree.
pub proof fn lemma_collapse_all_keeps_shape(n: NodeView, ps: Seq<Seq<char>>)
    ensures
        height(collapse_all(n, ps)) == height(n),
        collapse_all(n, ps).name == n.name,
    decreases ps.len(),
{
    if ps.len() > 0 {
        lemma_collapse_all_keeps_shape(n, ps.drop_last());
        lemma_collapse_keeps_shape(collapse_all(n, ps.drop_last()), ps.last());
    }
}

/// Every node of `n` with path `p`, not below another such node, is collapsed.
pub open spec fn collapsed_wherever(n: NodeView, p: Seq<char>) -> bool
    decreases n,
{
    if path_eq(n.full_path, p) {
        !n.is_expanded
    } else {
        forall|i: int| 0 <= i < n.children.len() ==> collapsed_wherever(#[trigger] n.children[i], p)
    }
}

proof fn lemma_collapse_path_collapses(n: NodeView, p: Seq<char>)
    ensures
        collapsed_wherever(collapse_path(n, p), p),
    decreases n,
{
    if !path_eq(n.full_path, p) {
        let cs = n.children;
        lemma_collapse_each(cs, cs.len() as int, p);
        let m = collapse_path(n, p);
        assert forall|i: int| 0 <= i < m.children.len() implies collapsed_wherever(
            #[trigger] m.children[i],
            p,
        ) by {
            lemma_collapse_path_collapses(cs[i], p);
        }
    }
}

proof fn lemma_collapse_path_keeps_collapsed(n: NodeView, p: Seq<char>, q: Seq<char>)
    requires
        collapsed_wherever(n, p),
    ensures
        collapsed_wherever(collapse_path(n, q), p),
    decreases n,
{
    let m = collapse_path(n, q);
    assert(m.full_path == n.full_path);
    if !path_eq(n.full_path, p) && !path_eq(n.full_path, q) {
        let cs = n.children;
        lemma_collapse_each(cs, cs.len() as int, q);
        assert forall|i: int| 0 <= i < m.children.len() implies collapsed_wherever(
            #[trigger] m.children[i],
            p,
        ) by {
            assert(collapsed_wherever(cs[i], p));
            lemma_collapse_path_keeps_collapsed(cs[i], p, q);
        }
    }
}

proof fn lemma_collapse_all_collapses(n: NodeView, ps: Seq<Seq<char>>, j: int)
    requires
        0 <= j < ps.len(),
    ensures
        collapsed_wherever(collapse_all(n, ps), ps[j]),
    decreases ps.len(),
{
    let before = collapse_all(n, ps.drop_last());
    if j == ps.len() - 1 {
        lemma_collapse_path_collapses(before, ps[j]);
    } else {
        lemma_collapse_all_collapses(n, ps.drop_last(), j);
        lemma_collapse_path_keeps_collapsed(before, ps[j], ps.last());
    }
}

/// Law of restoring collapsed directories: after collapsing each path of
/// `ps` in turn, every node whose path is one of them (and that lies below no
/// other node of that path) is collapsed.
pub proof fn lemma_collapse_all_keeps_each(n: NodeView, ps: Seq<Seq<char>>, p: Seq<char>)
    requires
        ps.contains(p),
    ensures
        collapsed_wherever(collapse_all(n, ps), p),
{
    let j = choose|j: int| 0 <= j < ps.len() && ps[j] == p;
    lemma_collapse_all_collapses(n, ps, j);
}

/// Appends the paths of the collapsed directories below `node` to `paths`.
pub fn collect_collapsed(node: &TreeNode, paths: &mut Vec<String>)
    ensures
        strings_view(final(paths)@) == strings_view(old(paths)@) + collapsed_paths(node@),
    decreases height(node@),
{
    proof {
        lemma_view_fields(*node);
    }
    let ghost own: Seq<Seq<char>> = if !node@.is_file && !node@.is_expanded && !is_dot(node@.name) {
        seq![node@.full_path]
    } else {
        Seq::empty()
    };
    if !node.is_file && !node.is_expanded && !str_is_dot(node.name.as_str()) {
        paths.push(node.full_path.clone());
    }
    assert(strings_view(paths@) =~= strings_view(old(paths)@) + own);
    let n = node.children.len();
    let mut i: usize = 0;
    while i < n
        invariant
            n == node.children@.len(),
            node@.children.len() == n,
            forall|j: int| 0 <= j < n ==> #[trigger] node@.children[j] == node.children@[j]@,
            i <= n,
            strings_view(paths@) == strings_view(old(paths)@) + own + collapsed_in(node@.children, i as int),
        decreases n - i,
    {
        proof {
            lemma_child_height(node@, i as int);
        }
        collect_collapsed(&node.children[i], paths);
        assert(strings_view(paths@) =~= strings_view(old(paths)@) + own + collapsed_in(node@.children, i + 1));
        i = i + 1;
    }
    assert(strings_view(paths@) =~= strings_view(old(paths)@) + collapsed_paths(node@));
}

/// Collapses each node whose path is `path`, not searching below a match.
pub fn set_collapsed(node: &mut TreeNode, path: &str)
    ensures
        final(node)@ == collapse_path(old(node)@, path@),
    decreases height(old(node)@),
{
    proof {
        lemma_view_fields(*node);
    }
    if paths_equal(node.full_path.as_str(), path) {
        node.is_expanded = false;
        proof {
            lemma_view_fields(*node);
            assert(node@ =~= collapse_path(old(node)@, path@));
        }
        return;
    }
    let n = node.children.len();
    let mut i: usize = 0;
    assert(!path_eq(old(node)@.full_path, path@));
    proof {
        lemma_collapse_each(old(node)@.children, n as int, path@);
    }
    while i < n
        invariant
            n == node.children@.len(),
            n == old(node).children@.len(),
            old(node)@.children.len() == n,
            forall|j: int| 0 <= j < n ==> #[trigger] old(node)@.children[j] == old(node).children@[j]@,
            i <= n,
            node.name == old(node).name,
            node.full_path == old(node).full_path,
            node.is_file == old(node).is_file,
            node.status == old(node).status,
            node.is_expanded == old(node).is_expanded,
            forall|j: int| 0 <= j < i ==> #[trigger] node.children@[j]@ == collapse_path(old(node).children@[j]@, path@),
            forall|j: int| i <= j < n ==> #[trigger] node.children@[j] == old(node).children@[j],
        decreases n - i,
    {
        proof {
            lemma_child_height(old(node)@, i as int);
        }
        set_collapsed(&mut node.children[i], path);
        i = i + 1;
    }
    proof {
        lemma_view_fields(*node);
        lemma_collapse_each(old(node)@.children, n as int, path@);
        assert forall|j: int| 0 <= j < n implies #[trigger] node@.children[j] == collapse_each(
            old(node)@.children,
            n as int,
            path@,
        )[j] by {
            assert(node@.children[j] == node.children@[j]@);
        }
        assert(node@.children =~= collapse_each(old(node)@.children, n as int, path@));
        assert(!path_eq(old(node)@.full_path, path@));
        assert(node@ =~= collapse_path(old(node)@, path@));
    }
}

} // verus!

verus! {

/// Sorting keeps the root's name.
pub proof fn lemma_sort_keeps_name(n: NodeView)
    ensures
        sort_tree(n).name == n.name,
{
}

/// Adding files keeps the root's name.
pub proof fn lemma_add_all_keeps_name(t: NodeView, files: Seq<FileEntry>, hide_dotfiles: bool)
    ensures
        add_all(t, files, hide_dotfiles).name == t.name,
    decreases files.len(),
{
    if files.len() > 0 {
        lemma_add_all_keeps_name(t, files.drop_last(), hide_dotfiles);
    }
}

/// Toggling keeps the root's name.
pub proof fn lemma_toggle_keeps_name(n: NodeView, p: Seq<char>)
    ensures
        toggled_tree(n, p).name == n.name,
{
}


/// `n` has a descendant reached through children named `names` in turn whose
/// status holds every flag of `s`.
pub open spec fn holds_at(n: NodeView, names: Seq<Seq<char>>, s: FileStatus) -> bool
    decreases names.len(),
{
    if names.len() == 0 {
        status_le(s, n.status)
    } else {
        exists|i: int|
            0 <= i < n.children.len() && (#[trigger] n.children[i]).name == names[0] && holds_at(
                n.children[i],
                names.drop_first(),
                s,
            )
    }
}

proof fn lemma_holds_at_child(n: NodeView, names: Seq<Seq<char>>, s: FileStatus, i: int)
    requires
        names.len() > 0,
        0 <= i < n.children.len(),
        n.children[i].name == names[0],
        holds_at(n.children[i], names.drop_first(), s),
    ensures
        holds_at(n, names, s),
{
}

/// Adding a path makes its last node hold the added status.
proof fn lemma_add_rec_creates(
    n: NodeView,
    comps: Seq<Seq<char>>,
    depth: int,
    status: FileStatus,
    full_path: Seq<char>,
)
    requires
        0 <= depth < comps.len(),
    ensures
        holds_at(add_rec(n, comps, depth, status, full_path), comps.subrange(depth, comps.len() as int), status),
    decreases comps.len() - depth,
{
    let names = comps.subrange(depth, comps.len() as int);
    let rest = comps.subrange(depth + 1, comps.len() as int);
    assert(names.drop_first() =~= rest);
    let last = depth == comps.len() - 1;
    let m = add_rec(n, comps, depth, status, full_path);
    lemma_first_named(n.children, comps[depth]);
    match first_named(n.children, comps[depth]) {
        Some(idx) => {
            if !last {
                lemma_add_rec_creates(n.children[idx], comps, depth + 1, status, full_path);
            }
            lemma_holds_at_child(m, names, status, idx);
        },
        None => {
            if !last {
                lemma_add_rec_creates(
                    dir_node(comps[depth], join_path(comps.subrange(0, depth + 1))),
                    comps,
                    depth + 1,
                    status,
                    full_path,
                );
            }
            lemma_holds_at_child(m, names, status, n.children.len() as int);
        },
    }
}

/// Adding a path keeps every status that already held somewhere.
proof fn lemma_add_rec_keeps(
    n: NodeView,
    comps: Seq<Seq<char>>,
    depth: int,
    status: FileStatus,
    full_path: Seq<char>,
    names: Seq<Seq<char>>,
    s: FileStatus,
)
    requires
        holds_at(n, names, s),
    ensures
        holds_at(add_rec(n, comps, depth, status, full_path), names, s),
    decreases names.len(),
{
    let m = add_rec(n, comps, depth, status, full_path);
    if names.len() > 0 && 0 <= depth < comps.len() {
        let rest = names.drop_first();
        let i = choose|i: int|
            0 <= i < n.children.len() && (#[trigger] n.children[i]).name == names[0] && holds_at(
                n.children[i],
                rest,
                s,
            );
        let c = n.children[i];
        let last = depth == comps.len() - 1;
        lemma_first_named(n.children, comps[depth]);
        match first_named(n.children, comps[depth]) {
            Some(idx) => {
                if i == idx {
                    if last {
                        let c2 = NodeView { status: merged(c.status, status), ..c };
                        if rest.len() > 0 {
                            let k = choose|k: int|
                                0 <= k < c.children.len() && (#[trigger] c.children[k]).name == rest[0]
                                    && holds_at(c.children[k], rest.drop_first(), s);
                            lemma_holds_at_child(c2, rest, s, k);
                        }
                        assert(m.children[i] == c2);
                    } else {
                        lemma_add_rec_keeps(c, comps, depth + 1, status, full_path, rest, s);
                    }
                } else {
                    assert(m.children[i] == c);
                }
            },
            None => {
                assert(m.children[i] == c);
            },
        }
        lemma_holds_at_child(m, names, s, i);
    }
}

proof fn lemma_add_all_holds(t: NodeView, files: Seq<FileEntry>, hide_dotfiles: bool, i: int)
    requires
        0 <= i < files.len(),
        !(hide_dotfiles && is_dotfile_spec(files[i].path@)),
        components(files[i].path@).len() > 0,
    ensures
        holds_at(add_all(t, files, hide_dotfiles), components(files[i].path@), files[i].status),
    decreases files.len(),
{
    let before = add_all(t, files.drop_last(), hide_dotfiles);
    let f = files.last();
    if i < files.len() - 1 {
        assert(files.drop_last()[i] == files[i]);
        lemma_add_all_holds(t, files.drop_last(), hide_dotfiles, i);
        if !(hide_dotfiles && is_dotfile_spec(f.path@)) {
            lemma_add_rec_keeps(
                before,
                components(f.path@),
                0,
                f.status,
                f.path@,
                components(files[i].path@),
                files[i].status,
            );
        }
    } else {
        let comps = components(f.path@);
        lemma_add_rec_creates(before, comps, 0, f.status, f.path@);
        assert(comps.subrange(0, comps.len() as int) =~= comps);
    }
}

/// Sorting keeps every status that held somewhere.
proof fn lemma_sort_tree_keeps(n: NodeView, names: Seq<Seq<char>>, s: FileStatus)
    requires
        holds_at(n, names, s),
    ensures
        holds_at(sort_tree(n), names, s),
    decreases names.len(),
{
    if names.len() > 0 {
        let rest = names.drop_first();
        let i = choose|i: int|
            0 <= i < n.children.len() && (#[trigger] n.children[i]).name == names[0] && holds_at(
                n.children[i],
                rest,
                s,
            );
        let each = sort_each(n.children, n.children.len() as int);
        let sorted = sort_tree(n).children;
        lemma_sort_each(n.children, n.children.len() as int);
        lemma_sort_tree_keeps(n.children[i], rest, s);
        let x = sort_tree(n.children[i]);
        assert(each[i] == x);
        lemma_sort_nodes_permutes(each);
        vstd::seq_lib::to_multiset_contains(each, x);
        vstd::seq_lib::to_multiset_contains(sorted, x);
        assert(each.contains(x));
        assert(sorted.contains(x));
        let j = choose|j: int| 0 <= j < sorted.len() && sorted[j] == x;
        lemma_holds_at_child(sort_tree(n), names, s, j);
    }
}

/// Law of `build_tree`: every file that is not left out (a dot path while dot
/// files are hidden) and whose path has a component stands in the tree, at
/// the node reached through its path's components, with every flag of its
/// status.
pub proof fn lemma_build_tree_holds_files(files: Seq<FileEntry>, hide_dotfiles: bool, i: int)
    requires
        0 <= i < files.len(),
        !(hide_dotfiles && is_dotfile_spec(files[i].path@)),
        components(files[i].path@).len() > 0,
    ensures
        holds_at(build_spec(files, hide_dotfiles), components(files[i].path@), files[i].status),
{
    lemma_add_all_holds(root_view(), files, hide_dotfiles, i);
    lemma_sort_tree_keeps(
        add_all(root_view(), files, hide_dotfiles),
        components(files[i].path@),
        files[i].status,
    );
}


/// How many nodes of `n` have path `p`.
pub open spec fn count_path(n: NodeView, p: Seq<char>) -> nat
    decreases n, 0int,
{
    (if path_eq(n.full_path, p) {
        1nat
    } else {
        0nat
    }) + count_in(n.children, n.children.len() as int, p)
}

/// How many nodes of the first `k` trees of `cs` have path `p`.
pub open spec fn count_in(cs: Seq<NodeView>, k: int, p: Seq<char>) -> nat
    decreases cs, k,
{
    if k <= 0 || k > cs.len() {
        0
    } else {
        count_in(cs, k - 1, p) + count_path(cs[k - 1], p)
    }
}

proof fn lemma_count_contains(n: NodeView, p: Seq<char>)
    ensures
        contains_path(n, p) ==> count_path(n, p) > 0,
    decreases n, 0int,
{
    lemma_count_in_contains(n.children, n.children.len() as int, p);
}

proof fn lemma_count_in_contains(cs: Seq<NodeView>, k: int, p: Seq<char>)
    ensures
        any_contains(cs, k, p) ==> count_in(cs, k, p) > 0,
    decreases cs, k,
{
    if 0 < k <= cs.len() {
        lemma_count_in_contains(cs, k - 1, p);
        lemma_count_contains(cs[k - 1], p);
    }
}

proof fn lemma_count_in_parts(cs: Seq<NodeView>, k: int, p: Seq<char>)
    requires
        0 <= k <= cs.len(),
    ensures
        forall|i: int| 0 <= i < k ==> count_in(cs, k, p) >= count_path(#[trigger] cs[i], p),
        forall|i: int, j: int|
            #![trigger cs[i], cs[j]]
            0 <= i < j < k ==> count_in(cs, k, p) >= count_path(cs[i], p) + count_path(cs[j], p),
    decreases k,
{
    if k > 0 {
        lemma_count_in_parts(cs, k - 1, p);
    }
}

proof fn lemma_flatten_has(n: NodeView, depth: int, is_last: bool, anc: Seq<bool>, hide: bool, p: Seq<char>)
    ensures
        forall|j: int|
            0 <= j < flatten_spec(n, depth, is_last, anc, hide).len() && path_eq(
                (#[trigger] flatten_spec(n, depth, is_last, anc, hide)[j]).path,
                p,
            ) ==> contains_path(n, p),
    decreases n, 0int,
{
    let root_like = is_dot(n.name);
    let d2 = if root_like { depth } else { depth + 1 };
    let a2 = if root_like { anc } else { anc.push(is_last) };
    let cs = n.children;
    let len = cs.len() as int;
    lemma_flatten_children_has(cs, len, d2, a2, hide, p);
    let f = flatten_spec(n, depth, is_last, anc, hide);
    let own: Seq<ItemView> = if root_like { Seq::empty() } else { seq![node_item(n, depth, is_last, anc)] };
    let rest = flatten_children(cs, len, d2, a2, hide);
    assert forall|j: int| 0 <= j < f.len() && path_eq((#[trigger] f[j]).path, p) implies contains_path(
        n,
        p,
    ) by {
        if !(!root_like && hide && starts_with_dot(n.name)) {
            if n.is_expanded || root_like {
                assert(f == own + rest);
                if j >= own.len() {
                    assert(f[j] == rest[j - own.len()]);
                }
            } else {
                assert(f == own);
            }
        }
    }
}

proof fn lemma_flatten_children_has(
    cs: Seq<NodeView>,
    k: int,
    depth: int,
    anc: Seq<bool>,
    hide: bool,
    p: Seq<char>,
)
    ensures
        forall|j: int|
            0 <= j < flatten_children(cs, k, depth, anc, hide).len() && path_eq(
                (#[trigger] flatten_children(cs, k, depth, anc, hide)[j]).path,
                p,
            ) ==> any_contains(cs, k, p),
    decreases cs, k,
{
    if 0 < k <= cs.len() {
        lemma_flatten_children_has(cs, k - 1, depth, anc, hide, p);
        lemma_flatten_has(cs[k - 1], depth, k - 1 == cs.len() - 1, anc, hide, p);
        let a = flatten_children(cs, k - 1, depth, anc, hide);
        let b = flatten_spec(cs[k - 1], depth, k - 1 == cs.len() - 1, anc, hide);
        assert forall|j: int|
            0 <= j < flatten_children(cs, k, depth, anc, hide).len() && path_eq(
                (#[trigger] flatten_children(cs, k, depth, anc, hide)[j]).path,
                p,
            ) implies any_contains(cs, k, p) by {
            if j < a.len() {
                assert(flatten_children(cs, k, depth, anc, hide)[j] == a[j]);
            } else {
                assert(flatten_children(cs, k, depth, anc, hide)[j] == b[j - a.len()]);
            }
        }
    }
}

proof fn lemma_flatten_children_same(
    cs: Seq<NodeView>,
    ds: Seq<NodeView>,
    k: int,
    depth: int,
    anc: Seq<bool>,
    hide: bool,
)
    requires
        cs.len() == ds.len(),
        forall|i: int| 0 <= i < k ==> #[trigger] cs[i] == ds[i],
    ensures
        flatten_children(cs, k, depth, anc, hide) == flatten_children(ds, k, depth, anc, hide),
    decreases k,
{
    if 0 < k <= cs.len() {
        lemma_flatten_children_same(cs, ds, k - 1, depth, anc, hide);
        assert(cs[k - 1] == ds[k - 1]);
    }
}

/// The item `it` with its expanded state flipped.
pub open spec fn item_flipped(it: ItemView) -> ItemView {
    ItemView { is_expanded: !it.is_expanded, ..it }
}

/// `a` agrees with `b` before index `j`, and at `j` holds `b[j]` flipped.
pub open spec fn flips_at(a: Seq<ItemView>, b: Seq<ItemView>, j: int) -> bool {
    &&& 0 <= j < a.len()
    &&& j < b.len()
    &&& forall|i: int| 0 <= i < j ==> #[trigger] a[i] == b[i]
    &&& a[j] == item_flipped(b[j])
}

/// Toggling the node of a shown item whose path no other node has leaves the
/// items before it as they were and flips the item itself.
pub proof fn lemma_flatten_toggle(
    n: NodeView,
    depth: int,
    is_last: bool,
    anc: Seq<bool>,
    hide: bool,
    p: Seq<char>,
    j: int,
)
    requires
        count_path(n, p) <= 1,
        0 <= j < flatten_spec(n, depth, is_last, anc, hide).len(),
        path_eq(flatten_spec(n, depth, is_last, anc, hide)[j].path, p),
    ensures
        contains_path(n, p),
        flatten_spec(n, depth, is_last, anc, hide)[j].is_file == found_node(n, p).is_file,
        flips_at(
            flatten_spec(replace_found(n, p, flipped(found_node(n, p))), depth, is_last, anc, hide),
            flatten_spec(n, depth, is_last, anc, hide),
            j,
        ),
    decreases n, 0int,
{
    let f = flatten_spec(n, depth, is_last, anc, hide);
    let root_like = is_dot(n.name);
    let d2 = if root_like { depth } else { depth + 1 };
    let a2 = if root_like { anc } else { anc.push(is_last) };
    let cs = n.children;
    let len = cs.len() as int;
    let own: Seq<ItemView> = if root_like { Seq::empty() } else { seq![node_item(n, depth, is_last, anc)] };
    let rest = flatten_children(cs, len, d2, a2, hide);
    lemma_flatten_has(n, depth, is_last, anc, hide, p);
    assert(contains_path(n, p));
    assert(!(!root_like && hide && starts_with_dot(n.name)));
    lemma_flatten_children_has(cs, len, d2, a2, hide, p);
    lemma_count_in_contains(cs, len, p);
    if n.is_expanded || root_like {
        assert(f == own + rest);
    } else {
        assert(f == own);
    }
    if path_eq(n.full_path, p) {
        if j >= own.len() {
            assert(f[j] == rest[j - own.len()]);
            assert(any_contains(cs, len, p));
            assert(false);
        }
        assert(!root_like);
        let m = flipped(n);
        assert(replace_found(n, p, flipped(found_node(n, p))) == m);
        let g = flatten_spec(m, depth, is_last, anc, hide);
        assert(g[0] == node_item(m, depth, is_last, anc));
        assert(g[0] == item_flipped(f[0]));
    } else {
        if j < own.len() {
            assert(f[j] == node_item(n, depth, is_last, anc));
            assert(false);
        }
        assert(n.is_expanded || root_like);
        let jj = j - own.len();
        assert(f[j] == rest[jj]);
        lemma_first_containing(cs, len, p);
        let c = first_containing(cs, len, p)->0;
        assert(found_node(n, p) == found_node(cs[c], p));
        let x = flipped(found_node(n, p));
        let ds = cs.update(c, replace_found(cs[c], p, x));
        let m = replace_found(n, p, x);
        assert(m == NodeView { children: ds, ..n });
        lemma_children_toggle(cs, len, d2, a2, hide, p, jj, c);
        let g = flatten_spec(m, depth, is_last, anc, hide);
        let rest2 = flatten_children(ds, len, d2, a2, hide);
        assert(g == own + rest2);
        assert forall|i: int| 0 <= i < j implies #[trigger] g[i] == f[i] by {
            if i >= own.len() {
                assert(g[i] == rest2[i - own.len()]);
                assert(f[i] == rest[i - own.len()]);
            }
        }
        assert(g[j] == rest2[jj]);
    }
}

proof fn lemma_children_toggle(
    cs: Seq<NodeView>,
    k: int,
    depth: int,
    anc: Seq<bool>,
    hide: bool,
    p: Seq<char>,
    j: int,
    c: int,
)
    requires
        0 <= k <= cs.len(),
        0 <= c < cs.len(),
        contains_path(cs[c], p),
        forall|i: int| 0 <= i < c ==> !#[trigger] contains_path(cs[i], p),
        count_in(cs, k, p) <= 1,
        0 <= j < flatten_children(cs, k, depth, anc, hide).len(),
        path_eq(flatten_children(cs, k, depth, anc, hide)[j].path, p),
    ensures
        flatten_children(cs, k, depth, anc, hide)[j].is_file == found_node(cs[c], p).is_file,
        flips_at(
            flatten_children(
                cs.update(c, replace_found(cs[c], p, flipped(found_node(cs[c], p)))),
                k,
                depth,
                anc,
                hide,
            ),
            flatten_children(cs, k, depth, anc, hide),
            j,
        ),
    decreases cs, k,
{
    let ds = cs.update(c, replace_found(cs[c], p, flipped(found_node(cs[c], p))));
    let a = flatten_children(cs, k - 1, depth, anc, hide);
    let last = k - 1 == cs.len() - 1;
    let b = flatten_spec(cs[k - 1], depth, last, anc, hide);
    let f = flatten_children(cs, k, depth, anc, hide);
    assert(f == a + b);
    lemma_count_in_parts(cs, k, p);
    let a2 = flatten_children(ds, k - 1, depth, anc, hide);
    let b2 = flatten_spec(ds[k - 1], depth, last, anc, hide);
    let g = flatten_children(ds, k, depth, anc, hide);
    assert(g == a2 + b2);
    if j < a.len() {
        assert(f[j] == a[j]);
        lemma_children_toggle(cs, k - 1, depth, anc, hide, p, j, c);
        assert forall|i: int| 0 <= i < j implies #[trigger] g[i] == f[i] by {
            assert(g[i] == a2[i]);
            assert(f[i] == a[i]);
        }
        assert(g[j] == a2[j]);
    } else {
        let jj = j - a.len();
        assert(f[j] == b[jj]);
        lemma_flatten_has(cs[k - 1], depth, last, anc, hide, p);
        assert(contains_path(cs[k - 1], p));
        if c < k - 1 {
            lemma_count_contains(cs[c], p);
            lemma_count_contains(cs[k - 1], p);
            assert(count_in(cs, k, p) >= count_path(cs[c], p) + count_path(cs[k - 1], p));
            assert(false);
        }
        assert(c == k - 1);
        lemma_flatten_children_same(cs, ds, k - 1, depth, anc, hide);
        assert(count_path(cs[k - 1], p) <= 1);
        lemma_flatten_toggle(cs[k - 1], depth, last, anc, hide, p, jj);
        assert(ds[k - 1] == replace_found(cs[c], p, flipped(found_node(cs[c], p))));
        assert forall|i: int| 0 <= i < j implies #[trigger] g[i] == f[i] by {
            if i < a.len() {
                assert(g[i] == a2[i]);
                assert(f[i] == a[i]);
            } else {
                assert(g[i] == b2[i - a.len()]);
                assert(f[i] == b[i - a.len()]);
            }
        }
        assert(g[j] == b2[jj]);
    }
}

} // verus!
