//! A deduplicated hierarchical index over a flat, ordered list of
//! file paths belonging to one torrent.
//!
//! Nodes live in an arena (a flat vector) and refer to their children
//! by index; the synthetic root is node 0. Walking a path looks up or
//! inserts a child per component, so files sharing a directory prefix
//! share the directory nodes. Every node records `path_id`, the index
//! of the input path that first created it; for a file node that is
//! the file's index in the flat list, which lets a directory toggle
//! fan out to the whole descendant set.
//!
//! Each node carries its abstract path (the component sequence from
//! the root) as ghost state; the specification of `from_paths` pins
//! the tree down through it: a node exists for exactly the nonempty
//! component prefixes of the inputs, and every node's `path_id` is the
//! first input it is a prefix of.

use vstd::prelude::*;
use vstd::string::StrSliceExecFns;

verus! {

/// Why a child could not be added.
#[derive(PartialEq, Eq, Clone, Copy, Debug)]
pub enum ErrAddChild {
    /// The parent id does not name a node.
    ParentNotFound,
    /// The parent already has a child of that name; its id is carried.
    ChildExists(usize),
}

/// One node of the tree: a path component, whether it groups further
/// components, the input path that created it, and its children.
pub struct FSTreeNode {
    pub name: String,
    pub is_dir: bool,
    pub path_id: usize,
    pub children: Vec<usize>,
    /// The component path from the root down to this node.
    pub apath: Ghost<Seq<Seq<char>>>,
}

/// The arena of nodes; node 0 is the synthetic root.
pub struct FSTree {
    pub nodes: Vec<FSTreeNode>,
}

/// Does `p` stand at the front of `q`?
pub open spec fn is_prefix_of(p: Seq<Seq<char>>, q: Seq<Seq<char>>) -> bool {
    p.len() <= q.len() && p == q.take(p.len() as int)
}

impl FSTree {
    /// The abstract path of node `j`.
    pub open spec fn abs_of(self, j: int) -> Seq<Seq<char>> {
        self.nodes@[j].apath@
    }

    /// The child list of node `j`.
    pub open spec fn children_of(self, j: int) -> Seq<usize> {
        self.nodes@[j].children@
    }

    pub open spec fn node_count(self) -> int {
        self.nodes@.len() as int
    }

    /// Node `j` stands for an actual file, not a directory grouping.
    pub open spec fn is_leaf(self, j: int) -> bool {
        1 <= j < self.node_count() && !self.nodes@[j].is_dir
    }

    /// Node `j` hangs in some earlier node's child list.
    pub open spec fn has_parent(self, j: int) -> bool {
        exists|p: int| 0 <= p < j && #[trigger] self.children_of(p).contains(j as usize)
    }

    /// Structural well-formedness of the arena: the root is node 0
    /// with an empty abstract path, abstract paths are unique and
    /// consistent along edges (a child's path is its parent's plus its
    /// own name), child ids point forward, and the edges are exactly
    /// the abstract-path extensions present among the nodes.
    pub open spec fn wf(self) -> bool {
        &&& self.node_count() >= 1
        &&& self.abs_of(0) == Seq::<Seq<char>>::empty()
        &&& self.nodes@[0].is_dir
        &&& self.nodes@[0].name@ == "root"@
        &&& self.nodes@[0].path_id == 0
        &&& forall|j: int|
            1 <= j < self.node_count() ==> (#[trigger] self.abs_of(j)).len() >= 1
        &&& forall|j: int|
            1 <= j < self.node_count() ==> self.nodes@[j].name@ == (
            #[trigger] self.abs_of(j)).last()
        &&& forall|j1: int, j2: int|
            0 <= j1 < self.node_count() && 0 <= j2 < self.node_count() && #[trigger] self.abs_of(
                j1,
            ) == #[trigger] self.abs_of(j2) ==> j1 == j2
        &&& forall|p: int, k: int|
            0 <= p < self.node_count() && 0 <= k < self.children_of(p).len() ==> {
                &&& p < #[trigger] self.children_of(p)[k] < self.node_count()
                &&& self.abs_of(self.children_of(p)[k] as int) == self.abs_of(p).push(
                    self.nodes@[self.children_of(p)[k] as int].name@,
                )
            }
        &&& forall|p: int, c: int|
            0 <= p < self.node_count() && 1 <= c < self.node_count() && #[trigger] self.abs_of(c)
                == #[trigger] self.abs_of(p).push(self.nodes@[c].name@) ==> self.children_of(
                p,
            ).contains(c as usize)
        &&& forall|p: int|
            0 <= p < self.node_count() ==> (#[trigger] self.children_of(p)).no_duplicates()
        &&& forall|j: int| 1 <= j < self.node_count() ==> #[trigger] self.has_parent(j)
    }

    /// A fresh tree holding only the synthetic root.
    pub fn new() -> (t: FSTree)
        ensures
            t.wf(),
            t.node_count() == 1,
    {
        let root = FSTreeNode {
            name: "root".to_owned(),
            is_dir: true,
            path_id: 0,
            children: Vec::new(),
            apath: Ghost(Seq::empty()),
        };
        let mut nodes: Vec<FSTreeNode> = Vec::new();
        nodes.push(root);
        FSTree { nodes }
    }

    /// Look a child of `parent_id` up by component name.
    pub fn find_child(&self, parent_id: usize, name: &String) -> (r: Option<usize>)
        requires
            self.wf(),
            parent_id < self.node_count(),
        ensures
            match r {
                Some(c) => {
                    &&& c < self.node_count()
                    &&& self.children_of(parent_id as int).contains(c)
                    &&& self.nodes@[c as int].name@ == name@
                    &&& self.abs_of(c as int) == self.abs_of(parent_id as int).push(name@)
                },
                None => forall|k: int|
                    0 <= k < self.children_of(parent_id as int).len()
                        ==> self.nodes@[#[trigger] self.children_of(parent_id as int)[k] as int].name@
                        != name@,
            },
    {
        let n = self.nodes[parent_id].children.len();
        let mut k: usize = 0;
        while k < n
            invariant
                self.wf(),
                parent_id < self.node_count(),
                n == self.children_of(parent_id as int).len(),
                k <= n,
                forall|i: int|
                    0 <= i < k as int
                        ==> self.nodes@[#[trigger] self.children_of(parent_id as int)[i] as int].name@
                        != name@,
            decreases n - k,
        {
            let c = self.nodes[parent_id].children[k];
            if self.nodes[c].name == *name {
                return Some(c);
            }
            k = k + 1;
        }
        None
    }

    /// Add a child named `name` under `parent_id`, unless one of that
    /// name is already there (its id is then reported) or the parent
    /// id names no node. On success the new node's id is the previous
    /// node count, and nothing else of the tree changes.
    pub fn add_child(&mut self, parent_id: usize, name: String, is_dir: bool, path_id: usize) -> (r:
        Result<usize, ErrAddChild>)
        requires
            old(self).wf(),
        ensures
            final(self).wf(),
            match r {
                Ok(id) => {
                    &&& parent_id < old(self).node_count()
                    &&& id == old(self).node_count()
                    &&& final(self).node_count() == old(self).node_count() + 1
                    &&& forall|j: int|
                        0 <= j < old(self).node_count() && j != parent_id as int
                            ==> final(self).nodes@[j] == old(self).nodes@[j]
                    &&& final(self).nodes@[parent_id as int].name == old(
                        self,
                    ).nodes@[parent_id as int].name
                    &&& final(self).nodes@[parent_id as int].is_dir == old(
                        self,
                    ).nodes@[parent_id as int].is_dir
                    &&& final(self).nodes@[parent_id as int].path_id == old(
                        self,
                    ).nodes@[parent_id as int].path_id
                    &&& final(self).abs_of(parent_id as int) == old(self).abs_of(parent_id as int)
                    &&& final(self).children_of(parent_id as int) == old(self).children_of(
                        parent_id as int,
                    ).push(id)
                    &&& final(self).nodes@[id as int].name == name
                    &&& final(self).nodes@[id as int].is_dir == is_dir
                    &&& final(self).nodes@[id as int].path_id == path_id
                    &&& final(self).children_of(id as int) == Seq::<usize>::empty()
                    &&& final(self).abs_of(id as int) == old(self).abs_of(parent_id as int).push(
                        name@,
                    )
                    &&& forall|j: int|
                        0 <= j < old(self).node_count() ==> #[trigger] old(self).abs_of(j) != old(
                            self,
                        ).abs_of(parent_id as int).push(name@)
                },
                Err(ErrAddChild::ChildExists(e)) => {
                    &&& *final(self) == *old(self)
                    &&& parent_id < old(self).node_count()
                    &&& e < old(self).node_count()
                    &&& old(self).nodes@[e as int].name@ == name@
                    &&& old(self).abs_of(e as int) == old(self).abs_of(parent_id as int).push(name@)
                },
                Err(ErrAddChild::ParentNotFound) => {
                    &&& *final(self) == *old(self)
                    &&& parent_id >= old(self).node_count()
                },
            },
    {
        if parent_id >= self.nodes.len() {
            return Err(ErrAddChild::ParentNotFound);
        }
        match self.find_child(parent_id, &name) {
            Some(existing) => Err(ErrAddChild::ChildExists(existing)),
            None => {
                let id = self.nodes.len();
                let ghost prev = *self;
                let ghost parent_abs = self.abs_of(parent_id as int);
                let ghost name_view = name@;
                let ghost new_abs = parent_abs.push(name_view);
                proof {
                    lemma_no_node_at_new_abs(prev, parent_id as int, name_view);
                }
                let new_node = FSTreeNode {
                    name,
                    is_dir,
                    path_id,
                    children: Vec::new(),
                    apath: Ghost(new_abs),
                };
                self.nodes[parent_id].children.push(id);
                self.nodes.push(new_node);
                proof {
                    lemma_add_child_wf(prev, *self, parent_id as int, name_view);
                }
                Ok(id)
            },
        }
    }
}

/// Under well-formedness, if no child of `parent` is named `name`,
/// then no node at all has the abstract path `parent`'s plus `name`.
proof fn lemma_no_node_at_new_abs(t: FSTree, parent: int, name: Seq<char>)
    requires
        t.wf(),
        0 <= parent < t.node_count(),
        forall|k: int|
            0 <= k < t.children_of(parent).len()
                ==> t.nodes@[#[trigger] t.children_of(parent)[k] as int].name@ != name,
    ensures
        forall|j: int|
            0 <= j < t.node_count() ==> #[trigger] t.abs_of(j) != t.abs_of(parent).push(name),
{
    assert(vstd::std_specs::vec::spec_vec_len(&t.nodes) == t.nodes@.len());
    let target = t.abs_of(parent).push(name);
    assert(target.len() == t.abs_of(parent).len() + 1);
    assert(target[t.abs_of(parent).len() as int] == name);
    assert forall|j: int| 0 <= j < t.node_count() implies #[trigger] t.abs_of(j) != target by {
        if t.abs_of(j) == target {
            assert(t.abs_of(j).len() >= 1);
            assert(j != 0) by {
                assert(t.abs_of(0).len() == 0);
            }
            assert(t.nodes@[j].name@ == t.abs_of(j).last());
            assert(t.abs_of(j).last() == target[target.len() - 1]);
            assert(t.nodes@[j].name@ == name);
            assert(t.abs_of(j) == t.abs_of(parent).push(t.nodes@[j].name@));
            assert(t.children_of(parent).contains(j as usize));
            let k = choose|k: int|
                0 <= k < t.children_of(parent).len() && t.children_of(parent)[k] == j as usize;
            assert(t.children_of(parent)[k] as int == j);
            assert(t.nodes@[t.children_of(parent)[k] as int].name@ != name);
            assert(false);
        }
    }
}

/// Pushing values onto two sequences yields equal sequences only from
/// equal parts.
proof fn lemma_push_injective(s: Seq<Seq<char>>, x: Seq<char>, t: Seq<Seq<char>>, y: Seq<char>)
    requires
        s.push(x) == t.push(y),
    ensures
        s == t,
        x == y,
{
    assert(s.push(x).len() == s.len() + 1);
    assert(t.push(y).len() == t.len() + 1);
    assert(s.len() == t.len());
    assert forall|i: int| 0 <= i < s.len() implies s[i] == t[i] by {
        assert(s.push(x)[i] == s[i]);
        assert(t.push(y)[i] == t[i]);
    }
    assert(s =~= t);
    assert(x == s.push(x)[s.len() as int]);
    assert(y == t.push(y)[t.len() as int]);
}

/// How the tree after appending one fresh node under `parent` relates
/// to the tree before: one node more, carrying `name` and the path
/// `parent`'s plus `name` (which no node had), linked as the parent's
/// last child, everything else untouched.
spec fn add_step(prev: FSTree, cur: FSTree, parent: int, name: Seq<char>) -> bool {
    &&& prev.wf()
    &&& 0 <= parent < prev.node_count()
    &&& forall|j: int|
        0 <= j < prev.node_count() ==> #[trigger] prev.abs_of(j) != prev.abs_of(parent).push(name)
    &&& cur.node_count() == prev.node_count() + 1
    &&& forall|j: int|
        #![trigger cur.nodes@[j]]
        0 <= j < prev.node_count() && j != parent ==> cur.nodes@[j] == prev.nodes@[j]
    &&& cur.nodes@[parent].name == prev.nodes@[parent].name
    &&& cur.nodes@[parent].is_dir == prev.nodes@[parent].is_dir
    &&& cur.nodes@[parent].path_id == prev.nodes@[parent].path_id
    &&& cur.abs_of(parent) == prev.abs_of(parent)
    &&& cur.children_of(parent) == prev.children_of(parent).push(prev.node_count() as usize)
    &&& cur.nodes@[prev.node_count()].name@ == name
    &&& cur.children_of(prev.node_count()) == Seq::<usize>::empty()
    &&& cur.abs_of(prev.node_count()) == prev.abs_of(parent).push(name)
}

/// What survives an `add_step` unchanged, in the form the other
/// lemmas consume.
proof fn lemma_add_step_frame(prev: FSTree, cur: FSTree, parent: int, name: Seq<char>)
    requires
        add_step(prev, cur, parent, name),
    ensures
        prev.node_count() <= usize::MAX as int,
        forall|j: int| 0 <= j < prev.node_count() ==> #[trigger] cur.abs_of(j) == prev.abs_of(j),
        forall|j: int|
            0 <= j < prev.node_count() ==> #[trigger] cur.nodes@[j].name@ == prev.nodes@[j].name@,
        forall|j: int|
            0 <= j < prev.node_count() ==> #[trigger] cur.nodes@[j].path_id
                == prev.nodes@[j].path_id,
        forall|j: int|
            0 <= j < prev.node_count() ==> #[trigger] cur.nodes@[j].is_dir
                == prev.nodes@[j].is_dir,
        forall|j: int|
            0 <= j < prev.node_count() && j != parent ==> #[trigger] cur.children_of(j)
                == prev.children_of(j),
        cur.children_of(parent).len() == prev.children_of(parent).len() + 1,
        forall|k: int|
            0 <= k < prev.children_of(parent).len() ==> #[trigger] cur.children_of(parent)[k]
                == prev.children_of(parent)[k],
        cur.children_of(parent)[prev.children_of(parent).len() as int] == prev.node_count()
            as usize,
{
    assert(vstd::std_specs::vec::spec_vec_len(&prev.nodes) == prev.nodes@.len());
    let old_kids = prev.children_of(parent);
    let added = old_kids.push(prev.node_count() as usize);
    assert(added.len() == old_kids.len() + 1);
    assert forall|k: int| 0 <= k < old_kids.len() implies #[trigger] cur.children_of(parent)[k]
        == old_kids[k] by {
        assert(added[k] == old_kids[k]);
    }
    assert(added[old_kids.len() as int] == prev.node_count() as usize);
}

/// After an `add_step`, abstract paths are still unique.
proof fn lemma_add_step_unique(prev: FSTree, cur: FSTree, parent: int, name: Seq<char>)
    requires
        add_step(prev, cur, parent, name),
    ensures
        forall|j1: int, j2: int|
            0 <= j1 < cur.node_count() && 0 <= j2 < cur.node_count() && #[trigger] cur.abs_of(j1)
                == #[trigger] cur.abs_of(j2) ==> j1 == j2,
{
    lemma_add_step_frame(prev, cur, parent, name);
    let n = prev.node_count();
    let new_abs = prev.abs_of(parent).push(name);
    assert forall|j1: int, j2: int|
        0 <= j1 < cur.node_count() && 0 <= j2 < cur.node_count() && #[trigger] cur.abs_of(j1)
            == #[trigger] cur.abs_of(j2) implies j1 == j2 by {
        if j1 < n && j2 < n {
            assert(prev.abs_of(j1) == prev.abs_of(j2));
        } else if j1 < n && j2 == n {
            assert(prev.abs_of(j1) != new_abs);
        } else if j1 == n && j2 < n {
            assert(prev.abs_of(j2) != new_abs);
        }
    }
}

/// After an `add_step`, every edge still points forward and carries
/// the child's abstract path.
proof fn lemma_add_step_edges(prev: FSTree, cur: FSTree, parent: int, name: Seq<char>)
    requires
        add_step(prev, cur, parent, name),
    ensures
        forall|p: int, k: int|
            0 <= p < cur.node_count() && 0 <= k < cur.children_of(p).len() ==> {
                &&& p < #[trigger] cur.children_of(p)[k] < cur.node_count()
                &&& cur.abs_of(cur.children_of(p)[k] as int) == cur.abs_of(p).push(
                    cur.nodes@[cur.children_of(p)[k] as int].name@,
                )
            },
{
    lemma_add_step_frame(prev, cur, parent, name);
    let n = prev.node_count();
    assert forall|p: int, k: int|
        0 <= p < cur.node_count() && 0 <= k < cur.children_of(p).len() implies {
        &&& p < #[trigger] cur.children_of(p)[k] < cur.node_count()
        &&& cur.abs_of(cur.children_of(p)[k] as int) == cur.abs_of(p).push(
            cur.nodes@[cur.children_of(p)[k] as int].name@,
        )
    } by {
        if p == parent && k == cur.children_of(p).len() - 1 {
            assert(cur.children_of(p)[k] == n as usize);
            assert(cur.abs_of(n as int) == cur.abs_of(parent).push(cur.nodes@[n].name@));
        } else if p < n {
            assert(cur.children_of(p)[k] == prev.children_of(p)[k]);
            assert(0 <= k < prev.children_of(p).len());
            let c = prev.children_of(p)[k] as int;
            assert(p < c < n);
            assert(prev.abs_of(c) == prev.abs_of(p).push(prev.nodes@[c].name@));
        } else {
            assert(cur.children_of(p).len() == 0);
        }
    }
}

/// After an `add_step`, every abstract-path extension present among
/// the nodes is still an edge.
proof fn lemma_add_step_closed(prev: FSTree, cur: FSTree, parent: int, name: Seq<char>)
    requires
        add_step(prev, cur, parent, name),
    ensures
        forall|p: int, c: int|
            0 <= p < cur.node_count() && 1 <= c < cur.node_count() && #[trigger] cur.abs_of(c)
                == #[trigger] cur.abs_of(p).push(cur.nodes@[c].name@) ==> cur.children_of(
                p,
            ).contains(c as usize),
{
    lemma_add_step_frame(prev, cur, parent, name);
    let n = prev.node_count();
    let new_abs = prev.abs_of(parent).push(name);
    let old_kids = prev.children_of(parent);
    assert forall|p: int, c: int|
        0 <= p < cur.node_count() && 1 <= c < cur.node_count() && #[trigger] cur.abs_of(c)
            == #[trigger] cur.abs_of(p).push(cur.nodes@[c].name@) implies cur.children_of(
        p,
    ).contains(c as usize) by {
        if c < n && p < n {
            assert(prev.abs_of(c) == prev.abs_of(p).push(prev.nodes@[c].name@));
            assert(prev.children_of(p).contains(c as usize));
            let k = choose|k: int|
                0 <= k < prev.children_of(p).len() && prev.children_of(p)[k] == c as usize;
            assert(cur.children_of(p)[k] == c as usize);
            assert(cur.children_of(p).contains(c as usize));
        } else if c < n && p == n {
            // the old node c would hang under the new path, which no old node had
            assert(prev.has_parent(c));
            let pc = choose|pc: int| 0 <= pc < c && #[trigger] prev.children_of(pc).contains(
                c as usize,
            );
            let k = choose|k: int|
                0 <= k < prev.children_of(pc).len() && prev.children_of(pc)[k] == c as usize;
            assert(prev.children_of(pc)[k] as int == c);
            assert(prev.abs_of(c) == prev.abs_of(pc).push(prev.nodes@[c].name@));
            assert(prev.abs_of(pc).push(prev.nodes@[c].name@) == cur.abs_of(n as int).push(
                cur.nodes@[c].name@,
            ));
            lemma_push_injective(
                prev.abs_of(pc),
                prev.nodes@[c].name@,
                cur.abs_of(n as int),
                cur.nodes@[c].name@,
            );
            assert(prev.abs_of(pc) == new_abs);
            assert(false);
        } else if c == n {
            if p < n {
                assert(cur.abs_of(p).push(cur.nodes@[c].name@) == prev.abs_of(parent).push(name));
                lemma_push_injective(
                    cur.abs_of(p),
                    cur.nodes@[c].name@,
                    prev.abs_of(parent),
                    name,
                );
                assert(prev.abs_of(p) == prev.abs_of(parent));
                assert(p == parent);
                assert(cur.children_of(parent)[old_kids.len() as int] == n as usize);
                assert(cur.children_of(parent).contains(n as usize));
            } else {
                // the new path cannot extend itself
                assert(cur.abs_of(c).len() == cur.abs_of(p).len());
                assert(cur.abs_of(p).push(cur.nodes@[c].name@).len() == cur.abs_of(p).len() + 1);
            }
        }
    }
}

/// After an `add_step`, every non-root node still hangs under some
/// earlier node.
#[verifier::rlimit(50)]
proof fn lemma_add_step_parent(prev: FSTree, cur: FSTree, parent: int, name: Seq<char>)
    requires
        add_step(prev, cur, parent, name),
    ensures
        forall|j: int| 1 <= j < cur.node_count() ==> #[trigger] cur.has_parent(j),
{
    lemma_add_step_frame(prev, cur, parent, name);
    let n = prev.node_count();
    let old_kids = prev.children_of(parent);
    assert forall|j: int| 1 <= j < cur.node_count() implies #[trigger] cur.has_parent(j) by {
        if j < n {
            assert(prev.has_parent(j));
            let p = choose|p: int| 0 <= p < j && #[trigger] prev.children_of(p).contains(
                j as usize,
            );
            let k = choose|k: int|
                0 <= k < prev.children_of(p).len() && prev.children_of(p)[k] == j as usize;
            assert(cur.children_of(p)[k] == j as usize);
            assert(cur.children_of(p).contains(j as usize));
        } else {
            assert(cur.children_of(parent)[old_kids.len() as int] == n as usize);
            assert(cur.children_of(parent).contains(n as usize));
            assert(0 <= parent < j);
        }
    }
}

/// Appending one fresh node under `parent` preserves well-formedness,
/// provided no node already had the new abstract path.
#[verifier::rlimit(100)]
proof fn lemma_add_child_wf(prev: FSTree, cur: FSTree, parent: int, name: Seq<char>)
    requires
        add_step(prev, cur, parent, name),
    ensures
        cur.wf(),
{
    lemma_add_step_frame(prev, cur, parent, name);
    lemma_add_step_unique(prev, cur, parent, name);
    lemma_add_step_edges(prev, cur, parent, name);
    lemma_add_step_closed(prev, cur, parent, name);
    lemma_add_step_parent(prev, cur, parent, name);
    let n = prev.node_count();
    let new_abs = prev.abs_of(parent).push(name);
    let old_kids = prev.children_of(parent);

    // child lists stay duplicate-free: the parent gains only the fresh
    // id, which is larger than every id it already held
    assert forall|p: int|
        0 <= p < cur.node_count() implies (#[trigger] cur.children_of(p)).no_duplicates() by {
        if p == parent {
            let kids = cur.children_of(parent);
            assert forall|i1: int, i2: int|
                0 <= i1 < kids.len() && 0 <= i2 < kids.len() && i1 != i2 implies kids[i1]
                != kids[i2] by {
                if i1 < old_kids.len() && i2 < old_kids.len() {
                    assert(kids[i1] == old_kids[i1]);
                    assert(kids[i2] == old_kids[i2]);
                    assert(old_kids.no_duplicates());
                } else if i1 < old_kids.len() {
                    assert(kids[i2] == n as usize);
                    assert(parent < prev.children_of(parent)[i1] < n);
                    assert(kids[i1] == old_kids[i1]);
                } else {
                    assert(kids[i1] == n as usize);
                    assert(i2 < old_kids.len());
                    assert(parent < prev.children_of(parent)[i2] < n);
                    assert(kids[i2] == old_kids[i2]);
                }
            }
        } else if p < n {
            assert(cur.children_of(p) == prev.children_of(p));
        } else {
            assert(cur.children_of(p).len() == 0);
        }
    }
    assert(cur.abs_of(0) == Seq::<Seq<char>>::empty());
    assert(cur.nodes@[0].is_dir);
    assert(cur.nodes@[0].name@ == "root"@);
    assert(cur.nodes@[0].path_id == 0);
    assert(new_abs.len() == prev.abs_of(parent).len() + 1);
    assert(new_abs[prev.abs_of(parent).len() as int] == name);
    assert forall|j: int| 1 <= j < cur.node_count() implies (#[trigger] cur.abs_of(j)).len()
        >= 1 by {
        if j < n {
            assert(cur.abs_of(j) == prev.abs_of(j));
        } else {
            assert(cur.abs_of(j) == new_abs);
        }
    }
    assert forall|j: int| 1 <= j < cur.node_count() implies cur.nodes@[j].name@ == (
    #[trigger] cur.abs_of(j)).last() by {
        if j < n {
            assert(cur.abs_of(j) == prev.abs_of(j));
            assert(prev.nodes@[j].name@ == prev.abs_of(j).last());
        } else {
            assert(cur.abs_of(j) == new_abs);
            assert(new_abs.last() == new_abs[new_abs.len() - 1]);
        }
    }
}

/// The `/`-separated components of a path, walking the characters
/// front to back with the unfinished component and the finished ones
/// as accumulators; empty components (doubled or trailing separators)
/// are dropped.
pub open spec fn spec_split_rec(
    s: Seq<char>,
    cur: Seq<char>,
    acc: Seq<Seq<char>>,
) -> Seq<Seq<char>>
    decreases s.len(),
{
    if s.len() == 0 {
        if cur.len() > 0 {
            acc.push(cur)
        } else {
            acc
        }
    } else if s[0] == '/' {
        spec_split_rec(
            s.subrange(1, s.len() as int),
            Seq::empty(),
            if cur.len() > 0 {
                acc.push(cur)
            } else {
                acc
            },
        )
    } else {
        spec_split_rec(s.subrange(1, s.len() as int), cur.push(s[0]), acc)
    }
}

/// The `/`-separated components of a path, empty components dropped.
pub open spec fn spec_split(s: Seq<char>) -> Seq<Seq<char>> {
    spec_split_rec(s, Seq::empty(), Seq::empty())
}

/// Split a path into its `/`-separated components, dropping empty
/// ones, as the tree walks them.
pub fn split_components(s: &str) -> (comps: Vec<String>)
    ensures
        comps@.map_values(|c: String| c@) == spec_split(s@),
{
    let mut comps: Vec<String> = Vec::new();
    let n = s.unicode_len();
    let mut i: usize = 0;
    let mut start: usize = 0;
    proof {
        assert(s@.subrange(0, n as int) =~= s@);
        assert(s@.subrange(0, 0) =~= Seq::<char>::empty());
        assert(comps@.map_values(|c: String| c@) =~= Seq::<Seq<char>>::empty());
    }
    while i < n
        invariant
            n == s@.len(),
            start <= i <= n,
            spec_split(s@) == spec_split_rec(
                s@.subrange(i as int, n as int),
                s@.subrange(start as int, i as int),
                comps@.map_values(|c: String| c@),
            ),
        decreases n - i,
    {
        let ghost rest = s@.subrange(i as int, n as int);
        let ghost cur = s@.subrange(start as int, i as int);
        let ghost acc = comps@.map_values(|c: String| c@);
        let c = s.get_char(i);
        proof {
            assert(rest[0] == s@[i as int]);
            assert(rest.subrange(1, rest.len() as int) =~= s@.subrange(i + 1, n as int));
        }
        if c == '/' {
            if start < i {
                let comp = s.substring_char(start, i).to_owned();
                comps.push(comp);
                proof {
                    assert(comps@.map_values(|c: String| c@) =~= acc.push(cur));
                }
            } else {
                proof {
                    assert(cur.len() == 0);
                }
            }
            start = i + 1;
            proof {
                assert(s@.subrange(i + 1, i + 1) =~= Seq::<char>::empty());
            }
        } else {
            proof {
                assert(s@.subrange(start as int, i + 1) =~= cur.push(s@[i as int]));
            }
        }
        i = i + 1;
    }
    let ghost acc_end = comps@.map_values(|c: String| c@);
    let ghost cur_end = s@.subrange(start as int, n as int);
    proof {
        assert(s@.subrange(n as int, n as int).len() == 0);
    }
    if start < n {
        let comp = s.substring_char(start, n).to_owned();
        comps.push(comp);
        proof {
            assert(comps@.map_values(|c: String| c@) =~= acc_end.push(cur_end));
        }
    } else {
        proof {
            assert(cur_end.len() == 0);
        }
    }
    comps
}

/// Is `q` a prefix of some input?
pub open spec fn path_covered(inputs: Seq<Seq<Seq<char>>>, q: Seq<Seq<char>>) -> bool {
    exists|i: int| 0 <= i < inputs.len() && is_prefix_of(q, #[trigger] inputs[i])
}

/// The first input that `q` is a prefix of, counting from the front.
pub open spec fn path_creator(inputs: Seq<Seq<Seq<char>>>, q: Seq<Seq<char>>) -> int
    decreases inputs.len(),
{
    if inputs.len() == 0 {
        0
    } else if is_prefix_of(q, inputs[0]) {
        0
    } else {
        1 + path_creator(inputs.subrange(1, inputs.len() as int), q)
    }
}

/// A prefix of a prefix is a prefix.
proof fn lemma_prefix_transitive(a: Seq<Seq<char>>, b: Seq<Seq<char>>, c: Seq<Seq<char>>)
    requires
        is_prefix_of(a, b),
        is_prefix_of(b, c),
    ensures
        is_prefix_of(a, c),
{
    assert forall|i: int| 0 <= i < a.len() implies a[i] == c.take(a.len() as int)[i] by {
        assert(a[i] == b.take(a.len() as int)[i]);
        assert(b[i] == c.take(b.len() as int)[i]);
    }
    assert(a =~= c.take(a.len() as int));
}

/// Every sequence is a prefix of itself.
proof fn lemma_prefix_reflexive(q: Seq<Seq<char>>)
    ensures
        is_prefix_of(q, q),
{
    assert(q =~= q.take(q.len() as int));
}

/// One more element taken extends the previous take.
proof fn lemma_take_step(p: Seq<Seq<char>>, m: int)
    requires
        0 <= m < p.len(),
    ensures
        is_prefix_of(p.take(m), p.take(m + 1)),
        p.take(m + 1) == p.take(m).push(p[m]),
{
    assert(p.take(m) =~= p.take(m + 1).take(m));
    assert(p.take(m + 1) =~= p.take(m).push(p[m]));
}

/// A prefix of `p.take(b)` no longer than `a` is a prefix of `p.take(a)`.
proof fn lemma_prefix_shrink(q: Seq<Seq<char>>, p: Seq<Seq<char>>, a: int, b: int)
    requires
        0 <= a <= b <= p.len(),
        is_prefix_of(q, p.take(b)),
        q.len() <= a,
    ensures
        is_prefix_of(q, p.take(a)),
{
    assert forall|i: int| 0 <= i < q.len() implies q[i] == p.take(a)[i] by {
        assert(q[i] == p.take(b).take(q.len() as int)[i]);
    }
    assert(q =~= p.take(a).take(q.len() as int));
}

/// What the creator index means: it is the first input that `q` is a
/// prefix of.
proof fn lemma_creator_props(inputs: Seq<Seq<Seq<char>>>, q: Seq<Seq<char>>)
    requires
        path_covered(inputs, q),
    ensures
        0 <= path_creator(inputs, q) < inputs.len(),
        is_prefix_of(q, inputs[path_creator(inputs, q)]),
        forall|i: int| 0 <= i < path_creator(inputs, q) ==> !is_prefix_of(q, #[trigger] inputs[i]),
    decreases inputs.len(),
{
    if is_prefix_of(q, inputs[0]) {
    } else {
        let tail = inputs.subrange(1, inputs.len() as int);
        let i0 = choose|i: int| 0 <= i < inputs.len() && is_prefix_of(q, #[trigger] inputs[i]);
        assert(tail[i0 - 1] == inputs[i0]);
        assert(path_covered(tail, q));
        lemma_creator_props(tail, q);
        let c = path_creator(tail, q);
        assert(inputs[c + 1] == tail[c]);
        assert forall|i: int|
            0 <= i < path_creator(inputs, q) implies !is_prefix_of(q, #[trigger] inputs[i]) by {
            if i > 0 {
                assert(tail[i - 1] == inputs[i]);
            }
        }
    }
}

/// Conversely, the first input that `q` is a prefix of is the creator.
proof fn lemma_creator_determined(inputs: Seq<Seq<Seq<char>>>, q: Seq<Seq<char>>, c: int)
    requires
        0 <= c < inputs.len(),
        is_prefix_of(q, inputs[c]),
        forall|i: int| 0 <= i < c ==> !is_prefix_of(q, #[trigger] inputs[i]),
    ensures
        path_covered(inputs, q),
        path_creator(inputs, q) == c,
    decreases inputs.len(),
{
    if c == 0 {
    } else {
        let tail = inputs.subrange(1, inputs.len() as int);
        assert(tail[c - 1] == inputs[c]);
        assert forall|i: int| 0 <= i < c - 1 implies !is_prefix_of(q, #[trigger] tail[i]) by {
            assert(tail[i] == inputs[i + 1]);
        }
        lemma_creator_determined(tail, q, c - 1);
    }
}

/// Extending the last entry (and only it, prefix-wise) preserves
/// coverage and every covered path's creator.
proof fn lemma_creator_last_extended(
    e1: Seq<Seq<Seq<char>>>,
    e2: Seq<Seq<Seq<char>>>,
    q: Seq<Seq<char>>,
)
    requires
        e1.len() == e2.len() >= 1,
        forall|i: int| 0 <= i < e1.len() - 1 ==> #[trigger] e2[i] == e1[i],
        is_prefix_of(e1.last(), e2.last()),
        path_covered(e1, q),
    ensures
        path_covered(e2, q),
        path_creator(e2, q) == path_creator(e1, q),
{
    lemma_creator_props(e1, q);
    let c = path_creator(e1, q);
    if c < e1.len() - 1 {
        assert(is_prefix_of(q, e2[c]));
    } else {
        lemma_prefix_transitive(q, e1.last(), e2.last());
        assert(is_prefix_of(q, e2[c]));
    }
    assert forall|i: int| 0 <= i < c implies !is_prefix_of(q, #[trigger] e2[i]) by {
        assert(e2[i] == e1[i]);
    }
    lemma_creator_determined(e2, q, c);
}

/// Appending an entry preserves coverage and every covered path's
/// creator.
proof fn lemma_creator_push(e1: Seq<Seq<Seq<char>>>, x: Seq<Seq<char>>, q: Seq<Seq<char>>)
    requires
        path_covered(e1, q),
    ensures
        path_covered(e1.push(x), q),
        path_creator(e1.push(x), q) == path_creator(e1, q),
{
    lemma_creator_props(e1, q);
    let c = path_creator(e1, q);
    assert(e1.push(x)[c] == e1[c]);
    assert forall|i: int| 0 <= i < c implies !is_prefix_of(q, #[trigger] e1.push(x)[i]) by {
        assert(e1.push(x)[i] == e1[i]);
    }
    lemma_creator_determined(e1.push(x), q, c);
}

/// The tree that the walk grows over `entries`: besides the root, a
/// node exists for exactly the nonempty prefixes of the entries; each
/// node's `path_id` is the first entry it is a prefix of, and the node
/// is a file exactly if it equals that entry and the entry's walk is
/// done (only the last entry's walk may still be under way, which
/// `partial` says).
pub open spec fn grown(t: FSTree, entries: Seq<Seq<Seq<char>>>, partial: bool) -> bool {
    &&& t.wf()
    &&& forall|j: int|
        1 <= j < t.node_count() ==> path_covered(entries, #[trigger] t.abs_of(j))
    &&& forall|j: int|
        #![trigger t.abs_of(j)]
        1 <= j < t.node_count() ==> {
            let cr = path_creator(entries, t.abs_of(j));
            &&& t.nodes@[j].path_id == cr
            &&& t.nodes@[j].is_dir == !(t.abs_of(j) == entries[cr] && (cr + 1 < entries.len()
                || !partial))
        }
    &&& forall|q: Seq<Seq<char>>|
        q.len() >= 1 && #[trigger] path_covered(entries, q) ==> exists|j: int|
            1 <= j < t.node_count() && #[trigger] t.abs_of(j) == q
}

/// What `from_paths` guarantees of the tree it returns for the given
/// component sequences.
pub open spec fn tree_built(t: FSTree, inputs: Seq<Seq<Seq<char>>>) -> bool {
    grown(t, inputs, false)
}

/// The component sequences of a list of paths.
pub open spec fn split_all(paths: Seq<String>) -> Seq<Seq<Seq<char>>> {
    paths.map_values(|p: String| spec_split(p@))
}

/// Starting the walk of one more path: an empty partial entry can be
/// appended without disturbing the grown tree.
proof fn lemma_grow_enter(t: FSTree, prior: Seq<Seq<Seq<char>>>, path: Seq<Seq<char>>, b: bool)
    requires
        grown(t, prior, false),
    ensures
        grown(t, prior.push(path.take(0)), b),
{
    let e2 = prior.push(path.take(0));
    assert(path.take(0).len() == 0);
    assert forall|j: int| 1 <= j < t.node_count() implies path_covered(
        e2,
        #[trigger] t.abs_of(j),
    ) && path_creator(e2, t.abs_of(j)) == path_creator(prior, t.abs_of(j)) by {
        lemma_creator_push(prior, path.take(0), t.abs_of(j));
    }
    assert forall|j: int|
        #![trigger t.abs_of(j)]
        1 <= j < t.node_count() implies {
        let cr = path_creator(e2, t.abs_of(j));
        &&& t.nodes@[j].path_id == cr
        &&& t.nodes@[j].is_dir == !(t.abs_of(j) == e2[cr] && (cr + 1 < e2.len() || !b))
    } by {
        lemma_creator_props(prior, t.abs_of(j));
        let cr = path_creator(prior, t.abs_of(j));
        assert(e2[cr] == prior[cr]);
    }
    assert forall|q: Seq<Seq<char>>|
        q.len() >= 1 && #[trigger] path_covered(e2, q) implies exists|j: int|
            1 <= j < t.node_count() && #[trigger] t.abs_of(j) == q by {
        let i = choose|i: int| 0 <= i < e2.len() && is_prefix_of(q, #[trigger] e2[i]);
        if i < prior.len() {
            assert(is_prefix_of(q, prior[i]));
            assert(path_covered(prior, q));
        } else {
            assert(e2[i] == path.take(0));
        }
    }
}

/// Placing the next component of the path under way as a fresh node
/// keeps the tree grown, with the walk advanced by one component.
#[verifier::rlimit(100)]
proof fn lemma_grow_add(
    prev: FSTree,
    cur: FSTree,
    parent: int,
    prior: Seq<Seq<Seq<char>>>,
    path: Seq<Seq<char>>,
    m: int,
)
    requires
        0 <= m < path.len(),
        grown(prev, prior.push(path.take(m)), true),
        0 <= parent < prev.node_count(),
        prev.abs_of(parent) == path.take(m),
        add_step(prev, cur, parent, path[m]),
        cur.nodes@[prev.node_count()].path_id == prior.len(),
        cur.nodes@[prev.node_count()].is_dir == (m + 1 < path.len()),
    ensures
        grown(cur, prior.push(path.take(m + 1)), m + 1 != path.len()),
        cur.abs_of(prev.node_count()) == path.take(m + 1),
        cur.node_count() == prev.node_count() + 1,
{
    lemma_add_step_frame(prev, cur, parent, path[m]);
    lemma_add_child_wf(prev, cur, parent, path[m]);
    lemma_take_step(path, m);
    let n = prev.node_count();
    let e1 = prior.push(path.take(m));
    let e2 = prior.push(path.take(m + 1));
    let partial2 = m + 1 != path.len();
    assert(cur.abs_of(n) == path.take(m + 1));
    assert(e1.len() == e2.len());
    assert(e1.last() == path.take(m));
    assert(e2.last() == path.take(m + 1));
    assert forall|i: int| 0 <= i < e1.len() - 1 implies #[trigger] e2[i] == e1[i] by {
        assert(e1[i] == prior[i]);
        assert(e2[i] == prior[i]);
    }

    // the new node's path was not covered before
    assert(!path_covered(e1, path.take(m + 1))) by {
        if path_covered(e1, path.take(m + 1)) {
            let j = choose|j: int|
                1 <= j < prev.node_count() && #[trigger] prev.abs_of(j) == path.take(m + 1);
            assert(prev.abs_of(j) == prev.abs_of(parent).push(path[m]));
            assert(false);
        }
    }

    // the new node's path is covered by the advanced walk
    lemma_prefix_reflexive(path.take(m + 1));
    assert(is_prefix_of(path.take(m + 1), e2[prior.len() as int]));
    assert(path_covered(e2, path.take(m + 1)));

    // old nodes keep coverage, creator, and their rule
    assert forall|j: int| 1 <= j < n implies path_covered(e2, #[trigger] cur.abs_of(j))
        && path_creator(e2, cur.abs_of(j)) == path_creator(e1, cur.abs_of(j)) by {
        assert(cur.abs_of(j) == prev.abs_of(j));
        lemma_creator_last_extended(e1, e2, cur.abs_of(j));
    }
    assert forall|j: int| 1 <= j < cur.node_count() implies path_covered(
        e2,
        #[trigger] cur.abs_of(j),
    ) by {
        if j == n {
            assert(cur.abs_of(j) == path.take(m + 1));
        }
    }
    assert forall|j: int|
        #![trigger cur.abs_of(j)]
        1 <= j < cur.node_count() implies {
        let cr = path_creator(e2, cur.abs_of(j));
        &&& cur.nodes@[j].path_id == cr
        &&& cur.nodes@[j].is_dir == !(cur.abs_of(j) == e2[cr] && (cr + 1 < e2.len() || !partial2))
    } by {
        if j < n {
            let q = cur.abs_of(j);
            assert(q == prev.abs_of(j));
            lemma_creator_props(e1, q);
            let cr = path_creator(e1, q);
            assert(path_creator(e2, q) == cr);
            if cr < prior.len() {
                assert(e2[cr] == prior[cr]);
                assert(e1[cr] == prior[cr]);
            } else {
                assert(cr == prior.len());
                assert(is_prefix_of(q, e1[cr]));
                assert(e1[cr] == path.take(m));
                assert(q.len() <= m);
                assert(e2[cr] == path.take(m + 1));
                assert(q != e2[cr]);
            }
        } else {
            // the new node
            let q = cur.abs_of(j);
            assert(j == n);
            assert(q == path.take(m + 1));
            assert forall|i: int| 0 <= i < prior.len() implies !is_prefix_of(
                q,
                #[trigger] e2[i],
            ) by {
                if is_prefix_of(q, e2[i]) {
                    assert(e2[i] == prior[i]);
                    assert(e1[i] == prior[i]);
                    assert(path_covered(e1, q));
                }
            }
            lemma_prefix_reflexive(q);
            assert(is_prefix_of(q, e2[prior.len() as int]));
            lemma_creator_determined(e2, q, prior.len() as int);
            assert(path_creator(e2, q) == prior.len());
            assert(e2[prior.len() as int] == q);
        }
    }
    // a node exists for every covered path
    assert forall|q: Seq<Seq<char>>|
        q.len() >= 1 && #[trigger] path_covered(e2, q) implies exists|j: int|
            1 <= j < cur.node_count() && #[trigger] cur.abs_of(j) == q by {
        let i = choose|i: int| 0 <= i < e2.len() && is_prefix_of(q, #[trigger] e2[i]);
        if i < prior.len() {
            assert(e1[i] == prior[i] && e2[i] == prior[i]);
            assert(path_covered(e1, q));
            let j = choose|j: int| 1 <= j < n && #[trigger] prev.abs_of(j) == q;
            assert(cur.abs_of(j) == q);
        } else {
            assert(is_prefix_of(q, path.take(m + 1)));
            if q.len() <= m {
                lemma_prefix_shrink(q, path, m, m + 1);
                assert(is_prefix_of(q, e1[prior.len() as int]));
                assert(path_covered(e1, q));
                let j = choose|j: int| 1 <= j < n && #[trigger] prev.abs_of(j) == q;
                assert(cur.abs_of(j) == q);
            } else {
                assert(q.len() == m + 1);
                assert(q =~= path.take(m + 1));
                assert(1 <= n < cur.node_count());
                assert(cur.abs_of(n) == q);
            }
        }
    }
}

/// Walking onto a component whose node already exists keeps the tree
/// grown, with the walk advanced by one component.
#[verifier::rlimit(100)]
proof fn lemma_grow_existing(
    t: FSTree,
    parent: int,
    id: int,
    prior: Seq<Seq<Seq<char>>>,
    path: Seq<Seq<char>>,
    m: int,
)
    requires
        0 <= m < path.len(),
        grown(t, prior.push(path.take(m)), true),
        0 <= parent < t.node_count(),
        t.abs_of(parent) == path.take(m),
        0 <= id < t.node_count(),
        t.abs_of(id) == t.abs_of(parent).push(path[m]),
    ensures
        grown(t, prior.push(path.take(m + 1)), m + 1 != path.len()),
        t.abs_of(id) == path.take(m + 1),
{
    lemma_take_step(path, m);
    let e1 = prior.push(path.take(m));
    let e2 = prior.push(path.take(m + 1));
    let partial2 = m + 1 != path.len();
    assert(t.abs_of(id) == path.take(m + 1));
    assert(id != 0) by {
        assert(t.abs_of(0).len() == 0);
        assert(t.abs_of(id).len() == m + 1);
    }
    assert forall|i: int| 0 <= i < e1.len() - 1 implies #[trigger] e2[i] == e1[i] by {
        assert(e1[i] == prior[i]);
        assert(e2[i] == prior[i]);
    }
    assert(e1.last() == path.take(m));
    assert(e2.last() == path.take(m + 1));

    assert forall|j: int| 1 <= j < t.node_count() implies path_covered(
        e2,
        #[trigger] t.abs_of(j),
    ) && path_creator(e2, t.abs_of(j)) == path_creator(e1, t.abs_of(j)) by {
        lemma_creator_last_extended(e1, e2, t.abs_of(j));
    }
    assert forall|j: int|
        #![trigger t.abs_of(j)]
        1 <= j < t.node_count() implies {
        let cr = path_creator(e2, t.abs_of(j));
        &&& t.nodes@[j].path_id == cr
        &&& t.nodes@[j].is_dir == !(t.abs_of(j) == e2[cr] && (cr + 1 < e2.len() || !partial2))
    } by {
        let q = t.abs_of(j);
        lemma_creator_props(e1, q);
        let cr = path_creator(e1, q);
        assert(path_creator(e2, q) == cr);
        if cr < prior.len() {
            assert(e2[cr] == prior[cr]);
            assert(e1[cr] == prior[cr]);
        } else {
            assert(cr == prior.len());
            assert(is_prefix_of(q, e1[cr]));
            assert(e1[cr] == path.take(m));
            assert(q.len() <= m);
            assert(e2[cr] == path.take(m + 1));
            assert(q != e2[cr]);
        }
    }
    assert forall|q: Seq<Seq<char>>|
        q.len() >= 1 && #[trigger] path_covered(e2, q) implies exists|j: int|
            1 <= j < t.node_count() && #[trigger] t.abs_of(j) == q by {
        let i = choose|i: int| 0 <= i < e2.len() && is_prefix_of(q, #[trigger] e2[i]);
        if i < prior.len() {
            assert(e1[i] == prior[i] && e2[i] == prior[i]);
            assert(path_covered(e1, q));
        } else {
            assert(is_prefix_of(q, path.take(m + 1)));
            if q.len() <= m {
                lemma_prefix_shrink(q, path, m, m + 1);
                assert(is_prefix_of(q, e1[prior.len() as int]));
                assert(path_covered(e1, q));
            } else {
                assert(q.len() == m + 1);
                assert(q =~= path.take(m + 1));
                assert(t.abs_of(id) == q);
            }
        }
    }
}

impl FSTree {
    /// Build the deduplicated tree over an ordered list of paths: walk
    /// each path's components from the root, reusing an existing child
    /// of the same name and appending a fresh node otherwise; the last
    /// component of each path becomes that path's file node.
    ///
    /// The result is the prefix tree of the inputs' component
    /// sequences (`tree_built`); building never fails.
    pub fn from_paths(paths: Vec<String>) -> (r: Result<FSTree, ErrAddChild>)
        ensures
            r is Ok,
            tree_built(r->Ok_0, split_all(paths@)),
    {
        let ghost inputs = split_all(paths@);
        let mut tree = FSTree::new();
        proof {
            assert(inputs.take(0) =~= Seq::<Seq<Seq<char>>>::empty());
            assert(grown(tree, inputs.take(0), false));
        }
        let mut k: usize = 0;
        while k < paths.len()
            invariant
                inputs == split_all(paths@),
                inputs.len() == paths@.len(),
                k <= paths@.len(),
                grown(tree, inputs.take(k as int), false),
            decreases paths@.len() - k,
        {
            let comps = split_components(paths[k].as_str());
            let ghost path = inputs[k as int];
            proof {
                assert(comps@.map_values(|c: String| c@) == path);
                lemma_grow_enter(tree, inputs.take(k as int), path, 0 != comps@.len());
                assert(path.take(0) =~= Seq::<Seq<char>>::empty());
                assert(tree.abs_of(0) == path.take(0));
            }
            let mut parent_id: usize = 0;
            let mut m: usize = 0;
            while m < comps.len()
                invariant
                    0 <= m <= comps@.len(),
                    k < paths@.len(),
                    inputs.len() == paths@.len(),
                    path == inputs[k as int],
                    comps@.map_values(|c: String| c@) == path,
                    path.len() == comps@.len(),
                    grown(
                        tree,
                        inputs.take(k as int).push(path.take(m as int)),
                        m as int != path.len(),
                    ),
                    parent_id < tree.node_count(),
                    tree.abs_of(parent_id as int) == path.take(m as int),
                decreases comps@.len() - m,
            {
                let ghost prev = tree;
                let name = comps[m].clone();
                let ghost name_view = name@;
                proof {
                    assert(name_view == path[m as int]);
                }
                let is_dir = m + 1 < comps.len();
                let res = tree.add_child(parent_id, name, is_dir, k);
                match res {
                    Ok(id) => {
                        proof {
                            assert(inputs.take(k as int).len() == k as int);
                            assert(add_step(prev, tree, parent_id as int, name_view));
                            lemma_grow_add(
                                prev,
                                tree,
                                parent_id as int,
                                inputs.take(k as int),
                                path,
                                m as int,
                            );
                        }
                        parent_id = id;
                    },
                    Err(ErrAddChild::ChildExists(id)) => {
                        proof {
                            lemma_grow_existing(
                                tree,
                                parent_id as int,
                                id as int,
                                inputs.take(k as int),
                                path,
                                m as int,
                            );
                        }
                        parent_id = id;
                    },
                    Err(ErrAddChild::ParentNotFound) => {
                        proof {
                            assert(false);
                        }
                        return Err(ErrAddChild::ParentNotFound);
                    },
                }
                m = m + 1;
            }
            proof {
                assert(path.take(path.len() as int) =~= path);
                assert(inputs.take(k as int).push(path) =~= inputs.take(k as int + 1));
            }
            k = k + 1;
        }
        proof {
            assert(inputs.take(paths@.len() as int) =~= inputs);
        }
        Ok(tree)
    }
}

fn vec_contains_id(v: &Vec<usize>, x: usize) -> (r: bool)
    ensures
        r == v@.contains(x),
{
    let mut i: usize = 0;
    while i < v.len()
        invariant
            i <= v@.len(),
            forall|j: int| 0 <= j < i as int ==> v@[j] != x,
        decreases v@.len() - i,
    {
        if v[i] == x {
            return true;
        }
        i = i + 1;
    }
    false
}

impl FSTree {
    /// The union of the path ids in the subtrees of the first `k`
    /// children of node `j`.
    pub open spec fn subtree_ids_upto(self, j: int, k: int) -> Set<usize>
        decreases self.node_count() - j, k,
        when self.wf() && 0 <= j < self.node_count() && 0 <= k <= self.children_of(j).len()
    {
        if k <= 0 {
            Set::empty()
        } else {
            self.subtree_ids_upto(j, k - 1).union(
                self.subtree_ids(self.children_of(j)[k - 1] as int),
            )
        }
    }

    /// The path ids of node `j` and of everything beneath it: the
    /// descendant set that a directory toggle fans out over.
    pub open spec fn subtree_ids(self, j: int) -> Set<usize>
        decreases self.node_count() - j, self.children_of(j).len() + 1,
        when self.wf() && 0 <= j < self.node_count()
    {
        self.subtree_ids_upto(j, self.children_of(j).len() as int).insert(self.nodes@[j].path_id)
    }

    /// Collect the path ids of `node` and everything beneath it into
    /// `ids`, skipping values already present.
    pub fn path_ids(&self, node: usize, ids: &mut Vec<usize>)
        requires
            self.wf(),
            node < self.node_count(),
        ensures
            forall|x: usize|
                #[trigger] final(ids)@.contains(x) <==> (old(ids)@.contains(x)
                    || self.subtree_ids(node as int).contains(x)),
            old(ids)@.no_duplicates() ==> final(ids)@.no_duplicates(),
        decreases self.node_count() - node,
    {
        let pid = self.nodes[node].path_id;
        let ghost ids0 = ids@;
        if !vec_contains_id(ids, pid) {
            ids.push(pid);
            proof {
                assert(ids@[ids@.len() - 1] == pid);
                assert(ids@.contains(pid));
                assert forall|x: usize| ids0.contains(x) implies #[trigger] ids@.contains(x) by {
                    let i = choose|i: int| 0 <= i < ids0.len() && ids0[i] == x;
                    assert(ids@[i] == x);
                }
                if ids0.no_duplicates() {
                    assert(ids@.no_duplicates());
                }
            }
        }
        let ghost ids_in = ids@;
        let n_children = self.nodes[node].children.len();
        let mut k: usize = 0;
        while k < n_children
            invariant
                self.wf(),
                node < self.node_count(),
                n_children == self.children_of(node as int).len(),
                k <= n_children,
                pid == self.nodes@[node as int].path_id,
                forall|x: usize|
                    #[trigger] ids@.contains(x) <==> (ids_in.contains(x) || self.subtree_ids_upto(
                        node as int,
                        k as int,
                    ).contains(x)),
                ids_in.no_duplicates() ==> ids@.no_duplicates(),
            decreases n_children - k,
        {
            let c = self.nodes[node].children[k];
            self.path_ids(c, ids);
            k = k + 1;
        }
        proof {
            assert forall|x: usize| #[trigger] final(ids)@.contains(x) implies (old(
                ids,
            )@.contains(x) || self.subtree_ids(node as int).contains(x)) by {}
            assert forall|x: usize| (old(ids)@.contains(x) || self.subtree_ids(
                node as int,
            ).contains(x)) implies #[trigger] final(ids)@.contains(x) by {
                if self.subtree_ids(node as int).contains(x) && x != pid {
                    assert(self.subtree_ids_upto(node as int, n_children as int).contains(x));
                }
            }
        }
    }
}

/// In a built tree, the ids of the first `k` child subtrees of a
/// non-root node all index into the inputs.
proof fn lemma_subtree_upto_bounded(t: FSTree, inputs: Seq<Seq<Seq<char>>>, j: int, k: int)
    requires
        tree_built(t, inputs),
        1 <= j < t.node_count(),
        0 <= k <= t.children_of(j).len(),
    ensures
        forall|x: usize|
            #[trigger] t.subtree_ids_upto(j, k).contains(x) ==> (x as int) < inputs.len(),
    decreases t.node_count() - j, k,
{
    assert(t.wf());
    if k > 0 {
        lemma_subtree_upto_bounded(t, inputs, j, k - 1);
        let c = t.children_of(j)[k - 1] as int;
        assert(j < c < t.node_count());
        lemma_subtree_ids_bounded(t, inputs, c);
        assert(t.subtree_ids_upto(j, k) == t.subtree_ids_upto(j, k - 1).union(
            t.subtree_ids(c),
        ));
        assert forall|x: usize| #[trigger] t.subtree_ids_upto(j, k).contains(x) implies (
        x as int) < inputs.len() by {
            if !t.subtree_ids_upto(j, k - 1).contains(x) {
                assert(t.subtree_ids(c).contains(x));
            }
        }
    } else {
        assert(t.subtree_ids_upto(j, 0) == Set::<usize>::empty());
    }
}

/// In a built tree, every id in a non-root node's descendant set
/// indexes into the inputs — so the set can drive the per-file flags.
pub proof fn lemma_subtree_ids_bounded(t: FSTree, inputs: Seq<Seq<Seq<char>>>, j: int)
    requires
        tree_built(t, inputs),
        1 <= j < t.node_count(),
    ensures
        forall|x: usize| #[trigger] t.subtree_ids(j).contains(x) ==> (x as int) < inputs.len(),
    decreases t.node_count() - j, t.children_of(j).len() + 1,
{
    assert(t.wf());
    lemma_creator_props(inputs, t.abs_of(j));
    assert(t.nodes@[j].path_id < inputs.len());
    let n_kids = t.children_of(j).len() as int;
    lemma_subtree_upto_bounded(t, inputs, j, n_kids);
    assert(t.subtree_ids(j) == t.subtree_ids_upto(j, n_kids).insert(t.nodes@[j].path_id));
    assert forall|x: usize| #[trigger] t.subtree_ids(j).contains(x) implies (x as int)
        < inputs.len() by {
        if x != t.nodes@[j].path_id {
            assert(t.subtree_ids_upto(j, n_kids).contains(x));
        }
    }
}

/// The union over the first `k1` child subtrees only grows as more
/// children are taken in.
proof fn lemma_subtree_upto_monotone(t: FSTree, j: int, k1: int, k2: int)
    requires
        t.wf(),
        0 <= j < t.node_count(),
        0 <= k1 <= k2 <= t.children_of(j).len(),
    ensures
        forall|x: usize|
            #[trigger] t.subtree_ids_upto(j, k1).contains(x) ==> t.subtree_ids_upto(
                j,
                k2,
            ).contains(x),
    decreases k2 - k1,
{
    if k1 < k2 {
        lemma_subtree_upto_monotone(t, j, k1, k2 - 1);
        assert(t.subtree_ids_upto(j, k2) == t.subtree_ids_upto(j, k2 - 1).union(
            t.subtree_ids(t.children_of(j)[k2 - 1] as int),
        ));
    }
}

/// Everything in a child's subtree is in the parent's descendant set.
proof fn lemma_child_subtree_in_parent(t: FSTree, j: int, k: int)
    requires
        t.wf(),
        0 <= j < t.node_count(),
        0 <= k < t.children_of(j).len(),
    ensures
        forall|x: usize|
            #[trigger] t.subtree_ids(t.children_of(j)[k] as int).contains(x) ==> t.subtree_ids(
                j,
            ).contains(x),
{
    let c = t.children_of(j)[k] as int;
    let n_kids = t.children_of(j).len() as int;
    assert(t.subtree_ids_upto(j, k + 1) == t.subtree_ids_upto(j, k).union(t.subtree_ids(c)));
    lemma_subtree_upto_monotone(t, j, k + 1, n_kids);
    assert(t.subtree_ids(j) == t.subtree_ids_upto(j, n_kids).insert(t.nodes@[j].path_id));
    assert forall|x: usize| #[trigger] t.subtree_ids(c).contains(x) implies t.subtree_ids(
        j,
    ).contains(x) by {
        assert(t.subtree_ids_upto(j, k + 1).contains(x));
        assert(t.subtree_ids_upto(j, n_kids).contains(x));
    }
}

/// Direction one of the descendant-set characterization: every id in
/// the first `k` child subtrees names an input that lies under the
/// node's path.
proof fn lemma_subtree_upto_in_prefix(t: FSTree, inputs: Seq<Seq<Seq<char>>>, j: int, k: int)
    requires
        tree_built(t, inputs),
        1 <= j < t.node_count(),
        0 <= k <= t.children_of(j).len(),
    ensures
        forall|x: usize|
            #[trigger] t.subtree_ids_upto(j, k).contains(x) ==> (x as int) < inputs.len()
                && is_prefix_of(t.abs_of(j), inputs[x as int]),
    decreases t.node_count() - j, k,
{
    assert(t.wf());
    if k > 0 {
        lemma_subtree_upto_in_prefix(t, inputs, j, k - 1);
        let c = t.children_of(j)[k - 1] as int;
        assert(j < c < t.node_count());
        lemma_subtree_ids_in_prefix(t, inputs, c);
        assert(t.subtree_ids_upto(j, k) == t.subtree_ids_upto(j, k - 1).union(
            t.subtree_ids(c),
        ));
        assert(t.abs_of(c) == t.abs_of(j).push(t.nodes@[c].name@));
        assert forall|x: usize| #[trigger] t.subtree_ids_upto(j, k).contains(x) implies (
        x as int) < inputs.len() && is_prefix_of(t.abs_of(j), inputs[x as int]) by {
            if !t.subtree_ids_upto(j, k - 1).contains(x) {
                assert(t.subtree_ids(c).contains(x));
                assert(is_prefix_of(t.abs_of(c), inputs[x as int]));
                assert(is_prefix_of(t.abs_of(j), t.abs_of(c))) by {
                    assert(t.abs_of(j) =~= t.abs_of(c).take(t.abs_of(j).len() as int));
                }
                lemma_prefix_transitive(t.abs_of(j), t.abs_of(c), inputs[x as int]);
            }
        }
    } else {
        assert(t.subtree_ids_upto(j, 0) == Set::<usize>::empty());
    }
}

/// Direction one of the descendant-set characterization: every id in
/// a node's descendant set names an input that lies under the node's
/// path.
proof fn lemma_subtree_ids_in_prefix(t: FSTree, inputs: Seq<Seq<Seq<char>>>, j: int)
    requires
        tree_built(t, inputs),
        1 <= j < t.node_count(),
    ensures
        forall|x: usize|
            #[trigger] t.subtree_ids(j).contains(x) ==> (x as int) < inputs.len()
                && is_prefix_of(t.abs_of(j), inputs[x as int]),
    decreases t.node_count() - j, t.children_of(j).len() + 1,
{
    assert(t.wf());
    lemma_creator_props(inputs, t.abs_of(j));
    let n_kids = t.children_of(j).len() as int;
    lemma_subtree_upto_in_prefix(t, inputs, j, n_kids);
    assert(t.subtree_ids(j) == t.subtree_ids_upto(j, n_kids).insert(t.nodes@[j].path_id));
    assert forall|x: usize| #[trigger] t.subtree_ids(j).contains(x) implies (x as int)
        < inputs.len() && is_prefix_of(t.abs_of(j), inputs[x as int]) by {
        if x != t.nodes@[j].path_id {
            assert(t.subtree_ids_upto(j, n_kids).contains(x));
        }
    }
}

/// Direction two: every input lying under the node's path has its
/// index in the node's descendant set.
proof fn lemma_subtree_covers_prefix(t: FSTree, inputs: Seq<Seq<Seq<char>>>, j: int, x: usize)
    requires
        tree_built(t, inputs),
        inputs_wellformed(inputs),
        1 <= j < t.node_count(),
        (x as int) < inputs.len(),
        is_prefix_of(t.abs_of(j), inputs[x as int]),
    ensures
        t.subtree_ids(j).contains(x),
    decreases inputs[x as int].len() - t.abs_of(j).len(),
{
    assert(t.wf());
    assert(vstd::std_specs::vec::spec_vec_len(&t.nodes) == t.nodes@.len());
    let target = inputs[x as int];
    let depth = t.abs_of(j).len() as int;
    let n_kids = t.children_of(j).len() as int;
    assert(t.subtree_ids(j) == t.subtree_ids_upto(j, n_kids).insert(t.nodes@[j].path_id));
    if depth == target.len() {
        // the node's own path is the input: the node carries its index
        assert(t.abs_of(j) =~= target);
        assert forall|i: int| 0 <= i < x as int implies !is_prefix_of(
            target,
            #[trigger] inputs[i],
        ) by {}
        lemma_prefix_reflexive(target);
        lemma_creator_determined(inputs, target, x as int);
        assert(t.nodes@[j].path_id == x);
    } else {
        // descend into the child on the input's next component
        let q2 = target.take(depth + 1);
        assert(is_prefix_of(q2, target)) by {
            assert(q2 =~= target.take(q2.len() as int));
        }
        assert(path_covered(inputs, q2));
        assert(q2.len() >= 1);
        let c = choose|c: int| 1 <= c < t.node_count() && #[trigger] t.abs_of(c) == q2;
        assert(q2 == t.abs_of(j).push(t.nodes@[c].name@)) by {
            assert(t.nodes@[c].name@ == q2.last());
            assert(q2 =~= t.abs_of(j).push(q2.last()));
        }
        assert(t.children_of(j).contains(c as usize));
        let k = choose|k: int|
            0 <= k < t.children_of(j).len() && t.children_of(j)[k] == c as usize;
        assert(t.children_of(j)[k] as int == c);
        assert(is_prefix_of(t.abs_of(c), target)) by {
            assert(t.abs_of(c) =~= target.take(t.abs_of(c).len() as int));
        }
        lemma_subtree_covers_prefix(t, inputs, c, x);
        lemma_child_subtree_in_parent(t, j, k);
    }
}

/// What a directory node's descendant set is: exactly the indices of
/// the input paths that lie under the node's own path. With
/// `lemma_leaf_per_path` these are exactly the `path_id`s of the file
/// nodes beneath it, so a toggle over this set reaches every file of
/// the directory and nothing else.
pub proof fn lemma_subtree_ids_exact(t: FSTree, inputs: Seq<Seq<Seq<char>>>, j: int)
    requires
        tree_built(t, inputs),
        inputs_wellformed(inputs),
        1 <= j < t.node_count(),
    ensures
        forall|x: usize|
            #[trigger] t.subtree_ids(j).contains(x) <==> ((x as int) < inputs.len()
                && is_prefix_of(t.abs_of(j), inputs[x as int])),
{
    lemma_subtree_ids_in_prefix(t, inputs, j);
    assert forall|x: usize|
        (x as int) < inputs.len() && is_prefix_of(t.abs_of(j), inputs[x as int]) implies t
        .subtree_ids(j).contains(x) by {
        lemma_subtree_covers_prefix(t, inputs, j, x);
    }
}

/// Input component sequences on which the tree has a file node per
/// input: all nonempty, and none a prefix of another (which also makes
/// them distinct).
pub open spec fn inputs_wellformed(inputs: Seq<Seq<Seq<char>>>) -> bool {
    &&& forall|i: int| 0 <= i < inputs.len() ==> (#[trigger] inputs[i]).len() >= 1
    &&& forall|i: int, j: int|
        0 <= i < inputs.len() && 0 <= j < inputs.len() && i != j ==> !is_prefix_of(
            #[trigger] inputs[i],
            #[trigger] inputs[j],
        )
}

/// Some file node of `t` stands for input `i`: its path is the
/// input's components and its `path_id` is the input's index.
pub open spec fn has_leaf_for(t: FSTree, inputs: Seq<Seq<Seq<char>>>, i: int) -> bool {
    exists|j: int|
        t.is_leaf(j) && #[trigger] t.abs_of(j) == inputs[i] && t.nodes@[j].path_id == i
}

/// Over prefix-free, nonempty, distinct inputs, the built tree has
/// exactly one file node per input path, and the `path_id` values over
/// the file nodes are exactly the input indices: file nodes and inputs
/// correspond one to one.
pub proof fn lemma_leaf_per_path(t: FSTree, inputs: Seq<Seq<Seq<char>>>)
    requires
        tree_built(t, inputs),
        inputs_wellformed(inputs),
    ensures
        forall|i: int| 0 <= i < inputs.len() ==> #[trigger] has_leaf_for(t, inputs, i),
        forall|j: int|
            t.is_leaf(j) ==> 0 <= (#[trigger] t.nodes@[j].path_id) < inputs.len() && t.abs_of(j)
                == inputs[t.nodes@[j].path_id as int],
        forall|j1: int, j2: int|
            t.is_leaf(j1) && t.is_leaf(j2) && (#[trigger] t.nodes@[j1].path_id)
                == (#[trigger] t.nodes@[j2].path_id) ==> j1 == j2,
{
    assert forall|i: int| 0 <= i < inputs.len() implies #[trigger] has_leaf_for(
        t,
        inputs,
        i,
    ) by {
        let q = inputs[i];
        lemma_prefix_reflexive(q);
        assert(path_covered(inputs, q));
        let j = choose|j: int| 1 <= j < t.node_count() && #[trigger] t.abs_of(j) == q;
        lemma_creator_props(inputs, q);
        let cr = path_creator(inputs, q);
        assert(cr == i) by {
            if cr != i {
                assert(is_prefix_of(inputs[i], inputs[cr]));
            }
        }
        assert(t.nodes@[j].path_id == i);
        assert(!t.nodes@[j].is_dir);
        assert(t.is_leaf(j));
    }
    assert forall|j: int| t.is_leaf(j) implies 0 <= (#[trigger] t.nodes@[j].path_id)
        < inputs.len() && t.abs_of(j) == inputs[t.nodes@[j].path_id as int] by {
        lemma_creator_props(inputs, t.abs_of(j));
        let cr = path_creator(inputs, t.abs_of(j));
        assert(t.nodes@[j].path_id == cr);
        assert(t.abs_of(j) == inputs[cr]);
    }
    assert forall|j1: int, j2: int|
        t.is_leaf(j1) && t.is_leaf(j2) && (#[trigger] t.nodes@[j1].path_id)
            == (#[trigger] t.nodes@[j2].path_id) implies j1 == j2 by {
        lemma_creator_props(inputs, t.abs_of(j1));
        lemma_creator_props(inputs, t.abs_of(j2));
        assert(t.abs_of(j1) == inputs[path_creator(inputs, t.abs_of(j1))]);
        assert(t.abs_of(j2) == inputs[path_creator(inputs, t.abs_of(j2))]);
        assert(t.abs_of(j1) == t.abs_of(j2));
    }
}

} // verus!
