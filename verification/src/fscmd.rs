//! A file system as a terminal session tells of it: the lines of the
//! session, the tree of directories and files that they describe, and the
//! sizes of the directories.

use vstd::prelude::*;
use vstd::string::StringSliceAdditionalSpecFns;
use crate::text::{
    copy_range, eat, opt_newline, spec_eat, spec_opt_newline, spec_u64_from, u64_from,
};

verus! {

/// A command of the session.
#[derive(Debug, PartialEq, Eq)]
pub enum Command {
    Ls,
    Cd(Vec<u8>),
}

/// A line of a listing.
#[derive(Debug, PartialEq, Eq)]
pub enum Entry {
    Dir(Vec<u8>),
    File(u64, Vec<u8>),
}

/// A line of the session.
#[derive(Debug, PartialEq, Eq)]
pub enum Line {
    Command(Command),
    Entry(Entry),
}

/// A file or a directory: its own size, its children by name, and the node
/// that holds it. Nodes are known by their place in the tree.
#[derive(Debug)]
pub struct Node {
    pub size: u64,
    pub children: Vec<(Vec<u8>, usize)>,
    pub parent: Option<usize>,
}

/// The nodes of a file system; the root comes first, and every child comes
/// after the node that holds it.
#[derive(Debug)]
pub struct Tree {
    pub nodes: Vec<Node>,
}

impl Node {
    /// A node counts as a directory when it has no size of its own and
    /// holds something.
    pub open spec fn spec_is_dir(&self) -> bool {
        self.size == 0 && self.children@.len() > 0
    }

    /// Whether the node counts as a directory.
    pub fn is_dir(&self) -> (r: bool)
        ensures
            r == self.spec_is_dir(),
    {
        self.size == 0 && self.children.len() > 0
    }

    /// The place of the child called `name`, if there is one.
    pub open spec fn spec_child(&self, name: Seq<u8>) -> Option<usize> {
        if exists|k: int| 0 <= k < self.children@.len() && (#[trigger] self.children@[k]).0@ == name {
            let k = choose|k: int|
                0 <= k < self.children@.len() && (#[trigger] self.children@[k]).0@ == name;
            Some(self.children@[k].1)
        } else {
            None
        }
    }

    /// No two children have the same name.
    pub open spec fn distinct_names(&self) -> bool {
        forall|j: int, k: int|
            0 <= j < k < self.children@.len() ==> (#[trigger] self.children@[j]).0@ != (
            #[trigger] self.children@[k]).0@
    }

    /// Looks a child up by its name.
    pub fn child(&self, name: &Vec<u8>) -> (r: Option<usize>)
        requires
            self.distinct_names(),
        ensures
            r == self.spec_child(name@),
            r is Some ==> exists|k: int|
                0 <= k < self.children@.len() && (#[trigger] self.children@[k]).0@ == name@
                    && self.children@[k].1 == r->0,
            r is None ==> forall|k: int|
                0 <= k < self.children@.len() ==> (#[trigger] self.children@[k]).0@ != name@,
    {
        let mut k: usize = 0;
        while k < self.children.len()
            invariant
                k <= self.children@.len(),
                self.distinct_names(),
                forall|j: int| 0 <= j < k ==> (#[trigger] self.children@[j]).0@ != name@,
            decreases self.children@.len() - k,
        {
            if same_bytes(&self.children[k].0, name) {
                proof {
                    let found = choose|j: int|
                        0 <= j < self.children@.len() && (#[trigger] self.children@[j]).0@ == name@;
                    if found < k {
                        assert(self.children@[found].0@ != self.children@[k as int].0@);
                    } else if found > k {
                        assert(self.children@[k as int].0@ != self.children@[found].0@);
                    }
                }
                return Some(self.children[k].1);
            }
            k += 1;
        }
        None
    }
}

/// Whether two byte strings are the same.
pub fn same_bytes(a: &Vec<u8>, b: &Vec<u8>) -> (r: bool)
    ensures
        r == (a@ == b@),
{
    if a.len() != b.len() {
        return false;
    }
    let mut i: usize = 0;
    while i < a.len()
        invariant
            i <= a@.len(),
            a@.len() == b@.len(),
            forall|k: int| 0 <= k < i ==> a@[k] == b@[k],
        decreases a@.len() - i,
    {
        if a[i] != b[i] {
            return false;
        }
        i += 1;
    }
    assert(a@ =~= b@);
    true
}

/// A copy of a byte string.
pub fn copy_bytes(a: &Vec<u8>) -> (r: Vec<u8>)
    ensures
        r@ == a@,
{
    let mut r: Vec<u8> = Vec::new();
    let mut i: usize = 0;
    while i < a.len()
        invariant
            i <= a@.len(),
            r@ == a@.take(i as int),
        decreases a@.len() - i,
    {
        r.push(a[i]);
        assert(r@ =~= a@.take(i + 1));
        i += 1;
    }
    assert(a@.take(i as int) =~= a@);
    r
}

impl Tree {
    /// The tree is in order: there is a root; every child comes after the
    /// node that holds it; parents are nodes of the tree; and no node has
    /// two children of one name.
    pub open spec fn wf(&self) -> bool {
        &&& self.nodes@.len() > 0
        &&& forall|i: int|
            0 <= i < self.nodes@.len() ==> (#[trigger] self.nodes@[i]).distinct_names()
        &&& forall|i: int, k: int|
            0 <= i < self.nodes@.len() && 0 <= k < self.nodes@[i].children@.len() ==> i < (
            #[trigger] self.nodes@[i].children@[k]).1 < self.nodes@.len()
        &&& forall|i: int|
            0 <= i < self.nodes@.len() && (#[trigger] self.nodes@[i]).parent is Some
                ==> self.nodes@[i].parent->0 < self.nodes@.len()
    }

    /// The size of the `k` first children of node `i` with all that they
    /// hold.
    pub open spec fn spec_children_size(&self, i: int, k: int) -> nat
        decreases self.nodes@.len() - i, 0nat, k,
    {
        if 0 <= i < self.nodes@.len() && 0 < k <= self.nodes@[i].children@.len() {
            let c = self.nodes@[i].children@[k - 1].1;
            self.spec_children_size(i, k - 1) + if i < c < self.nodes@.len() {
                self.spec_total_size(c as int)
            } else {
                0
            }
        } else {
            0
        }
    }

    /// The size of node `i` with all that it holds.
    pub open spec fn spec_total_size(&self, i: int) -> nat
        decreases self.nodes@.len() - i, 1nat, 0int,
    {
        if 0 <= i < self.nodes@.len() {
            self.nodes@[i].size as nat + self.spec_children_size(
                i,
                self.nodes@[i].children@.len() as int,
            )
        } else {
            0
        }
    }

    /// The sizes of all nodes, each with all that it holds, by place.
    /// Nothing where a size is too large for the machine.
    pub fn total_sizes(&self) -> (r: Option<Vec<u64>>)
        requires
            self.wf(),
        ensures
            match r {
                Some(sizes) => {
                    &&& sizes@.len() == self.nodes@.len()
                    &&& forall|i: int|
                        0 <= i < sizes@.len() ==> (#[trigger] sizes@[i]) == self.spec_total_size(i)
                },
                None => exists|i: int|
                    0 <= i < self.nodes@.len() && #[trigger] self.spec_total_size(i) > u64::MAX,
            },
    {
        let n = self.nodes.len();
        let mut sizes: Vec<u64> = Vec::new();
        let mut j: usize = 0;
        while j < n
            invariant
                j <= n,
                sizes@.len() == j,
            decreases n - j,
        {
            sizes.push(0);
            j += 1;
        }
        let mut i: usize = n;
        while i > 0
            invariant
                i <= n,
                n == self.nodes@.len(),
                self.wf(),
                sizes@.len() == n,
                forall|m: int| i <= m < n ==> (#[trigger] sizes@[m]) == self.spec_total_size(m),
            decreases i,
        {
            i -= 1;
            let node = &self.nodes[i];
            let mut total: u64 = node.size;
            let mut k: usize = 0;
            while k < node.children.len()
                invariant
                    i < n,
                    n == self.nodes@.len(),
                    self.wf(),
                    node == &self.nodes@[i as int],
                    sizes@.len() == n,
                    k <= node.children@.len(),
                    total == node.size + self.spec_children_size(i as int, k as int),
                    forall|m: int| i < m < n ==> (#[trigger] sizes@[m]) == self.spec_total_size(m),
                decreases node.children@.len() - k,
            {
                let c = node.children[k].1;
                proof {
                    assert(i < self.nodes@[i as int].children@[k as int].1 < n);
                    self.lemma_children_size_grows(i as int, k + 1);
                }
                let part = sizes[c];
                if part > u64::MAX - total {
                    return None;
                }
                total = total + part;
                k += 1;
            }
            sizes.set(i, total);
        }
        Some(sizes)
    }

    /// The first children of a node never hold more than all of them.
    pub proof fn lemma_children_size_grows(&self, i: int, k: int)
        requires
            0 <= i < self.nodes@.len(),
            0 <= k <= self.nodes@[i].children@.len(),
        ensures
            self.spec_children_size(i, k) <= self.spec_children_size(
                i,
                self.nodes@[i].children@.len() as int,
            ),
            self.spec_children_size(i, k) <= self.spec_total_size(i),
        decreases self.nodes@[i].children@.len() - k,
    {
        if k < self.nodes@[i].children@.len() {
            self.lemma_children_size_grows(i, k + 1);
        }
    }

    /// The size of a node with all that it holds, or nothing where there
    /// is no such node or the size is too large for the machine.
    pub fn total_size(&self, node: usize) -> (r: Option<u64>)
        requires
            self.wf(),
        ensures
            match r {
                Some(s) => node < self.nodes@.len() && s == self.spec_total_size(node as int),
                None => node >= self.nodes@.len() || exists|i: int|
                    0 <= i < self.nodes@.len() && #[trigger] self.spec_total_size(i) > u64::MAX,
            },
    {
        if node >= self.nodes.len() {
            return None;
        }
        match self.total_sizes() {
            Some(sizes) => Some(sizes[node]),
            None => None,
        }
    }

    /// Node `i` is the root or is reached from it through directories
    /// only.
    pub open spec fn listed(&self, i: int) -> bool
        decreases i,
    {
        i == 0 || (0 < i < self.nodes@.len() && self.nodes@[i].spec_is_dir() && exists|
            p: int,
            k: int,
        |
            0 <= p < i && 0 <= k < self.nodes@[p].children@.len() && (
            #[trigger] self.nodes@[p].children@[k]).1 == i && self.listed(p))
    }

    /// The directories of the tree: the root, and every directory that is
    /// reached from it through directories only; in the order of their
    /// places.
    pub fn all_dirs(&self) -> (r: Vec<usize>)
        requires
            self.wf(),
        ensures
            forall|i: int| 0 <= i < self.nodes@.len() ==> (r@.contains(i as usize) <==> self.listed(i)),
            forall|k: int| 0 <= k < r@.len() ==> (#[trigger] r@[k]) < self.nodes@.len(),
            forall|j: int, k: int| 0 <= j < k < r@.len() ==> r@[j] < r@[k],
    {
        let n = self.nodes.len();
        let mut marks: Vec<bool> = Vec::new();
        let mut j: usize = 0;
        while j < n
            invariant
                j <= n,
                marks@.len() == j,
                forall|m: int| 0 <= m < j ==> (#[trigger] marks@[m]) == (m == 0),
            decreases n - j,
        {
            marks.push(j == 0);
            j += 1;
        }
        // A mark is set on every listed node once its parent has been passed.
        let mut out: Vec<usize> = Vec::new();
        let mut i: usize = 0;
        while i < n
            invariant
                i <= n,
                n == self.nodes@.len(),
                self.wf(),
                marks@.len() == n,
                forall|m: int| 0 <= m < i ==> (#[trigger] marks@[m]) == self.listed(m),
                forall|m: int|
                    i <= m < n ==> ((#[trigger] marks@[m]) <==> (m == 0 || (
                    self.nodes@[m].spec_is_dir() && exists|p: int, k: int|
                        0 <= p < i && 0 <= k < self.nodes@[p].children@.len() && (
                        #[trigger] self.nodes@[p].children@[k]).1 == m && self.listed(p)))),
                forall|m: int| 0 <= m < i ==> (out@.contains(m as usize) <==> self.listed(m)),
                forall|k: int| 0 <= k < out@.len() ==> (#[trigger] out@[k]) < i,
                forall|j: int, k: int| 0 <= j < k < out@.len() ==> out@[j] < out@[k],
            decreases n - i,
        {
            proof {
                self.lemma_listed(i as int);
            }
            if marks[i] {
                let ghost before_out = out@;
                out.push(i);
                proof {
                    assert forall|m: int| 0 <= m < i + 1 implies (out@.contains(m as usize)
                        <==> self.listed(m)) by {
                        if out@.contains(m as usize) {
                            let k = choose|k: int| 0 <= k < out@.len() && out@[k] == m as usize;
                            if k < before_out.len() {
                                assert(before_out[k] == m as usize);
                                assert(before_out.contains(m as usize));
                            }
                        }
                        if m < i && self.listed(m) {
                            let k = choose|k: int|
                                0 <= k < before_out.len() && before_out[k] == m as usize;
                            assert(out@[k] == m as usize);
                        }
                        if m == i {
                            assert(out@[before_out.len() as int] == i);
                        }
                    }
                }
                let node = &self.nodes[i];
                let mut k: usize = 0;
                while k < node.children.len()
                    invariant
                        i < n,
                        n == self.nodes@.len(),
                        self.wf(),
                        self.listed(i as int),
                        node == &self.nodes@[i as int],
                        marks@.len() == n,
                        k <= node.children@.len(),
                        forall|m: int| 0 <= m <= i ==> (#[trigger] marks@[m]) == self.listed(m),
                        forall|m: int|
                            i < m < n ==> ((#[trigger] marks@[m]) <==> (m == 0 || (
                            self.nodes@[m].spec_is_dir() && ((exists|p: int, c: int|
                                0 <= p < i && 0 <= c < self.nodes@[p].children@.len() && (
                                #[trigger] self.nodes@[p].children@[c]).1 == m && self.listed(p))
                                || exists|c: int|
                                0 <= c < k && (#[trigger] node.children@[c]).1 == m)))),
                    decreases node.children@.len() - k,
                {
                    let c = node.children[k].1;
                    assert(i < self.nodes@[i as int].children@[k as int].1 < n);
                    if self.nodes[c].is_dir() {
                        marks.set(c, true);
                    }
                    k += 1;
                }
                proof {
                    assert forall|m: int| i + 1 <= m < n implies ((#[trigger] marks@[m]) <==> (m
                        == 0 || (self.nodes@[m].spec_is_dir() && exists|p: int, c: int|
                        0 <= p < i + 1 && 0 <= c < self.nodes@[p].children@.len() && (
                        #[trigger] self.nodes@[p].children@[c]).1 == m && self.listed(p)))) by {
                        if marks@[m] && m != 0 {
                            if exists|c: int| 0 <= c < k && (#[trigger] node.children@[c]).1 == m {
                                let c = choose|c: int|
                                    0 <= c < k && (#[trigger] node.children@[c]).1 == m;
                                assert(self.nodes@[i as int].children@[c].1 == m && self.listed(
                                    i as int,
                                ));
                            } else {
                                let (p, c) = choose|p: int, c: int|
                                    0 <= p < i && 0 <= c < self.nodes@[p].children@.len() && (
                                    #[trigger] self.nodes@[p].children@[c]).1 == m && self.listed(
                                        p,
                                    );
                                assert(0 <= p < i + 1 && self.nodes@[p].children@[c].1 == m);
                            }
                        }
                        if self.nodes@[m].spec_is_dir() && exists|p: int, c: int|
                            0 <= p < i + 1 && 0 <= c < self.nodes@[p].children@.len() && (
                            #[trigger] self.nodes@[p].children@[c]).1 == m && self.listed(p) {
                            let (p, c) = choose|p: int, c: int|
                                0 <= p < i + 1 && 0 <= c < self.nodes@[p].children@.len() && (
                                #[trigger] self.nodes@[p].children@[c]).1 == m && self.listed(p);
                            if p == i {
                                assert(node.children@[c].1 == m);
                            } else {
                                assert(0 <= p < i);
                            }
                        }
                    }
                }
            } else {
                proof {
                    assert forall|m: int| i + 1 <= m < n implies ((#[trigger] marks@[m]) <==> (m
                        == 0 || (self.nodes@[m].spec_is_dir() && exists|p: int, c: int|
                        0 <= p < i + 1 && 0 <= c < self.nodes@[p].children@.len() && (
                        #[trigger] self.nodes@[p].children@[c]).1 == m && self.listed(p)))) by {
                        if self.nodes@[m].spec_is_dir() && exists|p: int, c: int|
                            0 <= p < i + 1 && 0 <= c < self.nodes@[p].children@.len() && (
                            #[trigger] self.nodes@[p].children@[c]).1 == m && self.listed(p) {
                            let (p, c) = choose|p: int, c: int|
                                0 <= p < i + 1 && 0 <= c < self.nodes@[p].children@.len() && (
                                #[trigger] self.nodes@[p].children@[c]).1 == m && self.listed(p);
                            assert(p != i);
                            assert(0 <= p < i);
                        }
                    }
                }
            }
            i += 1;
        }
        out
    }

    /// Whether a node is listed depends on the nodes before it only.
    pub proof fn lemma_listed(&self, m: int)
        requires
            self.wf(),
            0 <= m < self.nodes@.len(),
        ensures
            self.listed(m) <==> (m == 0 || (self.nodes@[m].spec_is_dir() && exists|p: int, k: int|
                0 <= p < m && 0 <= k < self.nodes@[p].children@.len() && (
                #[trigger] self.nodes@[p].children@[k]).1 == m && self.listed(p))),
    {
    }
}

/// What a node holds, as plain values.
pub struct NodeModel {
    pub size: u64,
    pub children: Seq<(Seq<u8>, usize)>,
    pub parent: Option<usize>,
}

/// A node as plain values.
pub open spec fn model_of(n: Node) -> NodeModel {
    NodeModel {
        size: n.size,
        children: Seq::new(n.children@.len(), |k: int| (n.children@[k].0@, n.children@[k].1)),
        parent: n.parent,
    }
}

/// The nodes of a tree as plain values.
pub open spec fn models(nodes: Seq<Node>) -> Seq<NodeModel> {
    Seq::new(nodes.len(), |i: int| model_of(nodes[i]))
}

/// The place of the first child of a node that is called `name`.
pub open spec fn model_child(children: Seq<(Seq<u8>, usize)>, name: Seq<u8>) -> Option<usize>
    decreases children.len(),
{
    if children.len() == 0 {
        None
    } else if children[0].0 == name {
        Some(children[0].1)
    } else {
        model_child(children.drop_first(), name)
    }
}

/// The tree once node `at` has a child called `name`, and the place of that
/// child: where there was none, a new node without size, children and
/// parent is put at the end of the tree and noted as the last child.
pub open spec fn spec_ensure(nodes: Seq<NodeModel>, at: int, name: Seq<u8>) -> (
    Seq<NodeModel>,
    usize,
) {
    match model_child(nodes[at].children, name) {
        Some(c) => (nodes, c),
        None => (
            nodes.update(
                at,
                NodeModel {
                    size: nodes[at].size,
                    children: nodes[at].children.push((name, nodes.len() as usize)),
                    parent: nodes[at].parent,
                },
            ).push(NodeModel { size: 0, children: Seq::empty(), parent: None }),
            nodes.len() as usize,
        ),
    }
}

/// The name `/`.
pub open spec fn is_root_name(name: Seq<u8>) -> bool {
    name == seq![47u8]
}

/// The name `..`.
pub open spec fn is_up_name(name: Seq<u8>) -> bool {
    name == seq![46u8, 46u8]
}

/// The tree and the node at hand after a line of the session: `ls` and
/// `cd /` change nothing; `cd ..` goes to the parent of the node at hand,
/// which must have one; `cd` with another name goes to the child of that
/// name, which is made where it is missing; a line of a listing makes the
/// child where it is missing and notes the node at hand as its parent,
/// and for a file its size.
pub open spec fn spec_apply(nodes: Seq<NodeModel>, at: int, line: Line) -> Option<
    (Seq<NodeModel>, usize),
> {
    match line {
        Line::Command(Command::Ls) => Some((nodes, at as usize)),
        Line::Command(Command::Cd(path)) => if is_root_name(path@) {
            Some((nodes, at as usize))
        } else if is_up_name(path@) {
            match nodes[at].parent {
                Some(p) => Some((nodes, p)),
                None => None,
            }
        } else {
            Some(spec_ensure(nodes, at, path@))
        },
        Line::Entry(Entry::Dir(dir)) => {
            let (grown, c) = spec_ensure(nodes, at, dir@);
            Some(
                (
                    grown.update(
                        c as int,
                        NodeModel {
                            size: grown[c as int].size,
                            children: grown[c as int].children,
                            parent: Some(at as usize),
                        },
                    ),
                    at as usize,
                ),
            )
        },
        Line::Entry(Entry::File(size, path)) => {
            let (grown, c) = spec_ensure(nodes, at, path@);
            Some(
                (
                    grown.update(
                        c as int,
                        NodeModel {
                            size: size,
                            children: grown[c as int].children,
                            parent: Some(at as usize),
                        },
                    ),
                    at as usize,
                ),
            )
        },
    }
}

/// The tree and the node at hand after the lines of a session, which
/// begins at a root without size and children. Nothing where the session
/// goes up from a node without parent.
pub open spec fn spec_walk(lines: Seq<Line>) -> Option<(Seq<NodeModel>, usize)>
    decreases lines.len(),
{
    if lines.len() == 0 {
        Some((seq![NodeModel { size: 0, children: Seq::empty(), parent: None }], 0usize))
    } else {
        match spec_walk(lines.drop_last()) {
            Some((nodes, at)) => spec_apply(nodes, at as int, lines.last()),
            None => None,
        }
    }
}

/// Where the first lines of a session lead nowhere, neither do all.
pub proof fn lemma_walk_prefix(lines: Seq<Line>, n: int)
    requires
        0 <= n <= lines.len(),
        spec_walk(lines.take(n)) is None,
    ensures
        spec_walk(lines) is None,
    decreases lines.len() - n,
{
    if n == lines.len() {
        assert(lines.take(n) =~= lines);
    } else {
        assert(lines.take(n + 1).drop_last() =~= lines.take(n));
        lemma_walk_prefix(lines, n + 1);
    }
}

/// The first child by a name is the child by that name where names are not
/// shared.
pub proof fn lemma_model_child(n: Node, name: Seq<u8>)
    requires
        n.distinct_names(),
    ensures
        model_child(model_of(n).children, name) == n.spec_child(name),
{
    lemma_model_child_from(model_of(n).children, name, 0);
    let ch = model_of(n).children;
    assert(ch.skip(0) =~= ch);
    match model_child(ch, name) {
        Some(c) => {
            let k = choose|k: int| 0 <= k < ch.len() && ch[k].0 == name && ch[k].1 == c;
            assert(n.children@[k].0@ == name);
            let j = choose|j: int|
                0 <= j < n.children@.len() && (#[trigger] n.children@[j]).0@ == name;
            if j < k {
                assert(n.children@[j].0@ != n.children@[k].0@);
            } else if k < j {
                assert(n.children@[k].0@ != n.children@[j].0@);
            }
        },
        None => {
            assert forall|k: int| 0 <= k < n.children@.len() implies (#[trigger] n.children@[k]).0@
                != name by {
                assert(ch[k].0 != name);
            }
        },
    }
}

/// The first child by a name among the children from place `from` on is
/// one of them, and where there is none, none of them has the name.
pub proof fn lemma_model_child_from(ch: Seq<(Seq<u8>, usize)>, name: Seq<u8>, from: int)
    requires
        0 <= from <= ch.len(),
    ensures
        match model_child(ch.skip(from), name) {
            Some(c) => exists|k: int| from <= k < ch.len() && ch[k].0 == name && ch[k].1 == c,
            None => forall|k: int| from <= k < ch.len() ==> ch[k].0 != name,
        },
    decreases ch.len() - from,
{
    let rest = ch.skip(from);
    if rest.len() > 0 {
        assert(rest[0] == ch[from]);
        if rest[0].0 != name {
            assert(rest.drop_first() =~= ch.skip(from + 1));
            lemma_model_child_from(ch, name, from + 1);
        }
    }
}

impl Tree {
    /// A tree that holds only a root without size and children.
    pub fn new() -> (t: Tree)
        ensures
            t.wf(),
            t.nodes@.len() == 1,
            models(t.nodes@) == seq![NodeModel { size: 0, children: Seq::empty(), parent: None }],
    {
        let mut nodes: Vec<Node> = Vec::new();
        nodes.push(Node { size: 0, children: Vec::new(), parent: None });
        let t = Tree { nodes };
        proof {
            assert(model_of(t.nodes@[0]).children =~= Seq::empty());
            assert(models(t.nodes@) =~= seq![
                NodeModel { size: 0, children: Seq::empty(), parent: None },
            ]);
        }
        t
    }

    /// The place of the child of node `at` that is called `name`; where
    /// there is none yet, a new node is made.
    pub fn ensure_child(&mut self, at: usize, name: &Vec<u8>) -> (c: usize)
        requires
            old(self).wf(),
            at < old(self).nodes@.len(),
        ensures
            final(self).wf(),
            (models(final(self).nodes@), c) == spec_ensure(
                models(old(self).nodes@),
                at as int,
                name@,
            ),
            at < c < final(self).nodes@.len(),
            old(self).nodes@.len() <= final(self).nodes@.len() <= old(self).nodes@.len() + 1,
    {
        let ghost before = self.nodes@;
        proof {
            lemma_model_child(before[at as int], name@);
        }
        match self.nodes[at].child(name) {
            Some(c) => {
                proof {
                    let k = choose|k: int|
                        0 <= k < before[at as int].children@.len() && (
                        #[trigger] before[at as int].children@[k]).0@ == name@
                            && before[at as int].children@[k].1 == c;
                    assert(at < before[at as int].children@[k].1 < before.len());
                }
                c
            },
            None => {
                let c = self.nodes.len();
                self.nodes[at].children.push((copy_bytes(name), c));
                self.nodes.push(Node { size: 0, children: Vec::new(), parent: None });
                proof {
                    let now = self.nodes@;
                    let old_ch = before[at as int].children@;
                    let new_ch = now[at as int].children@;
                    assert(new_ch == old_ch.push(new_ch[old_ch.len() as int]));
                    assert forall|i: int| 0 <= i < now.len() implies (
                    #[trigger] now[i]).distinct_names() by {
                        if i == at {
                            assert forall|j: int, k: int| 0 <= j < k < new_ch.len() implies (
                            #[trigger] new_ch[j]).0@ != (#[trigger] new_ch[k]).0@ by {
                                if k < old_ch.len() {
                                    assert(before[at as int].distinct_names());
                                    assert(old_ch[j].0@ != old_ch[k].0@);
                                } else {
                                    assert(old_ch[j].0@ != name@);
                                }
                            }
                        } else if i < before.len() {
                            assert(now[i] == before[i]);
                            assert(before[i].distinct_names());
                        }
                    }
                    assert forall|i: int, k: int|
                        0 <= i < now.len() && 0 <= k < now[i].children@.len() implies i < (
                    #[trigger] now[i].children@[k]).1 < now.len() by {
                        if i == at {
                            if k < old_ch.len() {
                                assert(new_ch[k] == old_ch[k]);
                                assert(at < before[at as int].children@[k].1 < before.len());
                            }
                        } else if i < before.len() {
                            assert(now[i] == before[i]);
                            assert(i < before[i].children@[k].1 < before.len());
                        }
                    }
                    assert forall|i: int|
                        0 <= i < now.len() && (#[trigger] now[i]).parent is Some implies now[i].parent->0
                        < now.len() by {
                        if i < before.len() {
                            assert(now[i].parent == before[i].parent);
                            assert(before[i].parent is Some ==> before[i].parent->0 < before.len());
                        }
                    }
                    let want = spec_ensure(models(before), at as int, name@).0;
                    assert(models(now).len() == want.len());
                    assert forall|i: int| 0 <= i < now.len() implies models(now)[i] == want[i] by {
                        if i == at {
                            assert(model_of(now[i]).children =~= model_of(before[i]).children.push(
                                (name@, c),
                            ));
                        } else if i < before.len() {
                            assert(now[i] == before[i]);
                        } else {
                            assert(model_of(now[i]).children =~= Seq::empty());
                        }
                    }
                    assert(models(now) =~= want);
                }
                c
            },
        }
    }

    /// Carries out one line of the session at node `at`. Gives the node at
    /// hand afterwards, or nothing where the line goes up from a node
    /// without parent.
    pub fn apply(&mut self, at: usize, line: &Line) -> (r: Option<usize>)
        requires
            old(self).wf(),
            at < old(self).nodes@.len(),
        ensures
            final(self).wf(),
            old(self).nodes@.len() <= final(self).nodes@.len() <= old(self).nodes@.len() + 1,
            match spec_apply(models(old(self).nodes@), at as int, *line) {
                Some((nodes, to)) => r == Some(to) && models(final(self).nodes@) == nodes && to
                    < final(self).nodes@.len(),
                None => r is None && final(self).nodes@ == old(self).nodes@,
            },
    {
        match line {
            Line::Command(Command::Ls) => Some(at),
            Line::Command(Command::Cd(path)) => {
                if path.len() == 1 && path[0] == 47 {
                    assert(path@ =~= seq![47u8]);
                    Some(at)
                } else if path.len() == 2 && path[0] == 46 && path[1] == 46 {
                    assert(path@ =~= seq![46u8, 46u8]);
                    assert(!is_root_name(path@)) by {
                        assert(path@.len() != seq![47u8].len());
                    }
                    self.nodes[at].parent
                } else {
                    proof {
                        if is_root_name(path@) {
                            assert(path@.len() == 1 && path@[0] == 47);
                        }
                        if is_up_name(path@) {
                            assert(path@.len() == 2 && path@[0] == 46 && path@[1] == 46);
                        }
                    }
                    Some(self.ensure_child(at, path))
                }
            },
            Line::Entry(Entry::Dir(dir)) => {
                let c = self.ensure_child(at, dir);
                let ghost grown = self.nodes@;
                self.nodes[c].parent = Some(at);
                proof {
                    self.lemma_touched(grown, c as int);
                }
                Some(at)
            },
            Line::Entry(Entry::File(size, path)) => {
                let c = self.ensure_child(at, path);
                let ghost grown = self.nodes@;
                self.nodes[c].size = *size;
                self.nodes[c].parent = Some(at);
                proof {
                    self.lemma_touched(grown, c as int);
                }
                Some(at)
            },
        }
    }

    /// A tree stays in order when the size and the parent of one node
    /// change, as long as the parent is a node of the tree; and as plain
    /// values only that node differs.
    pub proof fn lemma_touched(&self, before: Seq<Node>, c: int)
        requires
            (Tree { nodes: self.nodes }).nodes@ == self.nodes@,
            0 <= c < before.len(),
            self.nodes@.len() == before.len(),
            forall|i: int| 0 <= i < before.len() && i != c ==> self.nodes@[i] == before[i],
            self.nodes@[c].children == before[c].children,
            self.nodes@[c].parent is Some ==> self.nodes@[c].parent->0 < before.len(),
            before.len() > 0,
            forall|i: int| 0 <= i < before.len() ==> (#[trigger] before[i]).distinct_names(),
            forall|i: int, k: int|
                0 <= i < before.len() && 0 <= k < before[i].children@.len() ==> i < (
                #[trigger] before[i].children@[k]).1 < before.len(),
            forall|i: int|
                0 <= i < before.len() && (#[trigger] before[i]).parent is Some
                    ==> before[i].parent->0 < before.len(),
        ensures
            self.wf(),
            models(self.nodes@) == models(before).update(
                c,
                NodeModel {
                    size: self.nodes@[c].size,
                    children: models(before)[c].children,
                    parent: self.nodes@[c].parent,
                },
            ),
    {
        let now = self.nodes@;
        assert forall|i: int| 0 <= i < now.len() implies (#[trigger] now[i]).distinct_names() by {
            assert(before[i].distinct_names());
        }
        assert forall|i: int, k: int|
            0 <= i < now.len() && 0 <= k < now[i].children@.len() implies i < (
        #[trigger] now[i].children@[k]).1 < now.len() by {
            assert(i < before[i].children@[k].1 < before.len());
        }
        assert forall|i: int|
            0 <= i < now.len() && (#[trigger] now[i]).parent is Some implies now[i].parent->0
            < now.len() by {
            if i != c {
                assert(before[i].parent is Some ==> before[i].parent->0 < before.len());
            }
        }
        assert(models(now) =~= models(before).update(
            c,
            NodeModel {
                size: now[c].size,
                children: models(before)[c].children,
                parent: now[c].parent,
            },
        ));
    }
}

/// Builds the tree that the lines of a session describe. Nothing where the
/// session goes up from a node without parent.
pub fn walk_lines(lines: Vec<Line>) -> (r: Option<Tree>)
    ensures
        match spec_walk(lines@) {
            Some((nodes, _)) => r is Some && r->0.wf() && models(r->0.nodes@) == nodes,
            None => r is None,
        },
{
    let mut tree = Tree::new();
    let mut node: usize = 0;
    let mut i: usize = 0;
    assert(lines@.take(0) =~= Seq::<Line>::empty());
    while i < lines.len()
        invariant
            i <= lines@.len(),
            tree.wf(),
            node < tree.nodes@.len(),
            spec_walk(lines@.take(i as int)) == Some((models(tree.nodes@), node)),
        decreases lines@.len() - i,
    {
        proof {
            assert(lines@.take(i + 1).drop_last() =~= lines@.take(i as int));
            assert(lines@.take(i + 1).last() == lines@[i as int]);
        }
        match tree.apply(node, &lines[i]) {
            Some(to) => {
                node = to;
            },
            None => {
                proof {
                    lemma_walk_prefix(lines@, i + 1);
                }
                return None;
            },
        }
        i += 1;
    }
    assert(lines@.take(i as int) =~= lines@);
    Some(tree)
}

/// The room on the disk.
pub const TOTAL_SPACE: u64 = 70000000;

/// The room that must be free.
pub const NEEDED_SPACE: u64 = 30000000;

impl Tree {
    /// How much must be freed: what is needed beyond what is free. Nothing
    /// where the tree holds more than the disk or more is free than is
    /// needed.
    pub open spec fn spec_to_free(&self) -> Option<u64> {
        let used = self.spec_total_size(0);
        if used > TOTAL_SPACE || TOTAL_SPACE - used > NEEDED_SPACE {
            None
        } else {
            Some((NEEDED_SPACE - (TOTAL_SPACE - used)) as u64)
        }
    }

    /// The size of the smallest directory whose removal frees enough room.
    pub fn min_removal(&self) -> (r: Option<u64>)
        requires
            self.wf(),
        ensures
            match r {
                Some(m) => {
                    &&& self.spec_to_free() is Some
                    &&& forall|i: int|
                        0 <= i < self.nodes@.len() ==> #[trigger] self.spec_total_size(i) <= u64::MAX
                    &&& m >= self.spec_to_free()->0
                    &&& exists|i: int|
                        0 <= i < self.nodes@.len() && self.listed(i) && #[trigger] self.spec_total_size(i)
                            == m
                    &&& forall|i: int|
                        0 <= i < self.nodes@.len() && self.listed(i) && #[trigger] self.spec_total_size(i)
                            >= self.spec_to_free()->0 ==> m <= self.spec_total_size(i)
                },
                None => self.spec_to_free() is None || exists|i: int|
                    0 <= i < self.nodes@.len() && #[trigger] self.spec_total_size(i) > u64::MAX,
            },
    {
        let sizes = match self.total_sizes() {
            Some(s) => s,
            None => {
                return None;
            },
        };
        let used = sizes[0];
        if used > TOTAL_SPACE {
            return None;
        }
        let free_space = TOTAL_SPACE - used;
        if free_space > NEEDED_SPACE {
            return None;
        }
        let min_free = NEEDED_SPACE - free_space;
        let dirs = self.all_dirs();
        let mut best: u64 = used;
        let ghost mut best_at: int = 0;
        let mut k: usize = 0;
        while k < dirs.len()
            invariant
                k <= dirs@.len(),
                self.wf(),
                sizes@.len() == self.nodes@.len(),
                forall|i: int| 0 <= i < sizes@.len() ==> (#[trigger] sizes@[i]) == self.spec_total_size(i),
                forall|i: int|
                    0 <= i < self.nodes@.len() ==> (dirs@.contains(i as usize) <==> self.listed(i)),
                forall|j: int| 0 <= j < dirs@.len() ==> (#[trigger] dirs@[j]) < self.nodes@.len(),
                best >= min_free,
                0 <= best_at < self.nodes@.len(),
                self.listed(best_at),
                self.spec_total_size(best_at) == best,
                forall|j: int|
                    0 <= j < k && (#[trigger] sizes@[dirs@[j] as int]) >= min_free ==> best
                        <= sizes@[dirs@[j] as int],
            decreases dirs@.len() - k,
        {
            let d = dirs[k];
            assert(dirs@.contains(d));
            let s = sizes[d];
            if s >= min_free && s < best {
                best = s;
                proof {
                    best_at = d as int;
                }
            }
            k += 1;
        }
        proof {
            assert forall|i: int|
                0 <= i < self.nodes@.len() && self.listed(i) && #[trigger] self.spec_total_size(i)
                    >= min_free implies best <= self.spec_total_size(i) by {
                assert(dirs@.contains(i as usize));
                let j = choose|j: int| 0 <= j < dirs@.len() && dirs@[j] == i as usize;
                assert(sizes@[dirs@[j] as int] >= min_free);
            }
        }
        proof {
            assert forall|i: int| 0 <= i < self.nodes@.len() implies #[trigger] self.spec_total_size(
                i,
            ) <= u64::MAX by {
                assert(sizes@[i] == self.spec_total_size(i));
            }
        }
        Some(best)
    }

    /// The sizes of the directories among the first `n` nodes that are no
    /// larger than `limit`, together.
    pub open spec fn spec_small_dirs(&self, limit: u64, n: int) -> nat
        decreases n,
    {
        if n <= 0 {
            0
        } else {
            self.spec_small_dirs(limit, n - 1) + if self.listed(n - 1) && self.spec_total_size(
                n - 1,
            ) <= limit {
                self.spec_total_size(n - 1)
            } else {
                0
            }
        }
    }

    /// The sizes of the directories that are no larger than `limit`,
    /// together. Nothing where a size is too large for the machine.
    pub fn small_dirs_total(&self, limit: u64) -> (r: Option<u64>)
        requires
            self.wf(),
        ensures
            match r {
                Some(t) => t == self.spec_small_dirs(limit, self.nodes@.len() as int) && forall|
                    i: int,
                | 0 <= i < self.nodes@.len() ==> #[trigger] self.spec_total_size(i) <= u64::MAX,
                None => self.spec_small_dirs(limit, self.nodes@.len() as int) > u64::MAX || exists|
                    i: int,
                | 0 <= i < self.nodes@.len() && #[trigger] self.spec_total_size(i) > u64::MAX,
            },
    {
        let sizes = match self.total_sizes() {
            Some(s) => s,
            None => {
                return None;
            },
        };
        let dirs = self.all_dirs();
        let n = self.nodes.len();
        let mut total: u64 = 0;
        let mut i: usize = 0;
        while i < n
            invariant
                i <= n,
                n == self.nodes@.len(),
                self.wf(),
                sizes@.len() == n,
                forall|m: int| 0 <= m < n ==> (#[trigger] sizes@[m]) == self.spec_total_size(m),
                forall|m: int| 0 <= m < n ==> (dirs@.contains(m as usize) <==> self.listed(m)),
                total == self.spec_small_dirs(limit, i as int),
            decreases n - i,
        {
            proof {
                self.lemma_small_dirs_grows(limit, i + 1);
            }
            if has_index(&dirs, i) && sizes[i] <= limit {
                if sizes[i] > u64::MAX - total {
                    return None;
                }
                total = total + sizes[i];
            }
            i += 1;
        }
        proof {
            assert forall|i: int| 0 <= i < self.nodes@.len() implies #[trigger] self.spec_total_size(
                i,
            ) <= u64::MAX by {
                assert(sizes@[i] == self.spec_total_size(i));
            }
        }
        Some(total)
    }

    /// The small directories among the first nodes never hold more than
    /// those among all.
    pub proof fn lemma_small_dirs_grows(&self, limit: u64, n: int)
        requires
            0 <= n <= self.nodes@.len(),
        ensures
            self.spec_small_dirs(limit, n) <= self.spec_small_dirs(limit, self.nodes@.len() as int),
        decreases self.nodes@.len() - n,
    {
        if n < self.nodes@.len() {
            self.lemma_small_dirs_grows(limit, n + 1);
        }
    }
}

/// Whether `i` is among `v`.
pub fn has_index(v: &Vec<usize>, i: usize) -> (r: bool)
    ensures
        r == v@.contains(i),
{
    let mut k: usize = 0;
    while k < v.len()
        invariant
            k <= v@.len(),
            forall|j: int| 0 <= j < k ==> v@[j] != i,
        decreases v@.len() - k,
    {
        if v[k] == i {
            return true;
        }
        k += 1;
    }
    false
}

/// A line of the session as plain values.
pub enum LineModel {
    Ls,
    Cd(Seq<u8>),
    Dir(Seq<u8>),
    File(u64, Seq<u8>),
}

/// A line as plain values.
pub open spec fn line_model(l: Line) -> LineModel {
    match l {
        Line::Command(Command::Ls) => LineModel::Ls,
        Line::Command(Command::Cd(path)) => LineModel::Cd(path@),
        Line::Entry(Entry::Dir(dir)) => LineModel::Dir(dir@),
        Line::Entry(Entry::File(size, path)) => LineModel::File(size, path@),
    }
}

/// A byte of a name: a lower-case letter, a dot or a slash.
pub open spec fn is_path_byte(b: u8) -> bool {
    97 <= b <= 122 || b == 46 || b == 47
}

/// The position of the first byte at or after `pos` that is no byte of a
/// name.
pub open spec fn spec_path_end(s: Seq<u8>, pos: int) -> int
    decreases s.len() - pos,
{
    if 0 <= pos < s.len() && is_path_byte(s[pos]) {
        spec_path_end(s, pos + 1)
    } else {
        pos
    }
}

/// The name that stands in `s` at `pos`, at least one byte, and the
/// position after it.
pub open spec fn spec_path(s: Seq<u8>, pos: int) -> Option<(Seq<u8>, int)> {
    let end = spec_path_end(s, pos);
    if 0 <= pos < end <= s.len() {
        Some((s.subrange(pos, end), end))
    } else {
        None
    }
}

/// Reads a name.
pub fn parse_path(b: &[u8], pos: usize) -> (r: Option<(Vec<u8>, usize)>)
    requires
        pos <= b@.len(),
    ensures
        match (spec_path(b@, pos as int), r) {
            (Some((name, end)), Some((got, at))) => got@ == name && at == end && pos < end
                <= b@.len(),
            (None, None) => true,
            _ => false,
        },
{
    let mut i: usize = pos;
    while i < b.len() && ((97 <= b[i] && b[i] <= 122) || b[i] == 46 || b[i] == 47)
        invariant
            pos <= i <= b@.len(),
            spec_path_end(b@, pos as int) == spec_path_end(b@, i as int),
        decreases b@.len() - i,
    {
        i += 1;
    }
    if i > pos {
        Some((copy_range(b, pos, i), i))
    } else {
        None
    }
}

/// The command that stands in `s` at `pos` after `$ `: `ls`, or `cd` and a
/// name; and the position after it.
pub open spec fn spec_cmd(s: Seq<u8>, pos: int) -> Option<(LineModel, int)> {
    match spec_eat(s, pos, "$ ".spec_bytes()) {
        Some(p) => match spec_eat(s, p, "ls".spec_bytes()) {
            Some(end) => Some((LineModel::Ls, end)),
            None => match spec_eat(s, p, "cd ".spec_bytes()) {
                Some(q) => match spec_path(s, q) {
                    Some((name, end)) => Some((LineModel::Cd(name), end)),
                    None => None,
                },
                None => None,
            },
        },
        None => None,
    }
}

/// Reads a command.
pub fn parse_cmd(b: &[u8], pos: usize) -> (r: Option<(Command, usize)>)
    requires
        pos <= b@.len(),
    ensures
        match (spec_cmd(b@, pos as int), r) {
            (Some((m, end)), Some((got, at))) => line_model(Line::Command(got)) == m && at == end
                && pos <= end <= b@.len(),
            (None, None) => true,
            _ => false,
        },
{
    let p = match eat(b, pos, "$ ") {
        Some(p) => p,
        None => {
            return None;
        },
    };
    match eat(b, p, "ls") {
        Some(end) => Some((Command::Ls, end)),
        None => match eat(b, p, "cd ") {
            Some(q) => match parse_path(b, q) {
                Some((name, end)) => Some((Command::Cd(name), end)),
                None => None,
            },
            None => None,
        },
    }
}

/// The line of a listing that stands in `s` at `pos`: a size, a space and
/// a name for a file, or `dir` and a name; and the position after it.
pub open spec fn spec_entry(s: Seq<u8>, pos: int) -> Option<(LineModel, int)> {
    let file = match spec_u64_from(s, pos, u64::MAX as nat) {
        Some((size, p)) => match spec_eat(s, p, " ".spec_bytes()) {
            Some(q) => match spec_path(s, q) {
                Some((name, end)) => Some((LineModel::File(size, name), end)),
                None => None,
            },
            None => None,
        },
        None => None,
    };
    match file {
        Some(f) => Some(f),
        None => match spec_eat(s, pos, "dir ".spec_bytes()) {
            Some(q) => match spec_path(s, q) {
                Some((name, end)) => Some((LineModel::Dir(name), end)),
                None => None,
            },
            None => None,
        },
    }
}

/// Reads the file of a listing.
fn parse_file(b: &[u8], pos: usize) -> (r: Option<(Entry, usize)>)
    requires
        pos <= b@.len(),
    ensures
        match (
            match spec_u64_from(b@, pos as int, u64::MAX as nat) {
                Some((size, p)) => match spec_eat(b@, p, " ".spec_bytes()) {
                    Some(q) => match spec_path(b@, q) {
                        Some((name, end)) => Some((LineModel::File(size, name), end)),
                        None => None,
                    },
                    None => None,
                },
                None => None,
            },
            r,
        ) {
            (Some((m, end)), Some((got, at))) => line_model(Line::Entry(got)) == m && at == end
                && pos <= end <= b@.len(),
            (None, None) => true,
            _ => false,
        },
{
    let (size, p) = match u64_from(b, pos, u64::MAX) {
        Some(t) => t,
        None => {
            return None;
        },
    };
    let q = match eat(b, p, " ") {
        Some(q) => q,
        None => {
            return None;
        },
    };
    match parse_path(b, q) {
        Some((name, end)) => Some((Entry::File(size, name), end)),
        None => None,
    }
}

/// Reads a line of a listing.
pub fn parse_entry(b: &[u8], pos: usize) -> (r: Option<(Entry, usize)>)
    requires
        pos <= b@.len(),
    ensures
        match (spec_entry(b@, pos as int), r) {
            (Some((m, end)), Some((got, at))) => line_model(Line::Entry(got)) == m && at == end
                && pos <= end <= b@.len(),
            (None, None) => true,
            _ => false,
        },
{
    match parse_file(b, pos) {
        Some(f) => Some(f),
        None => match eat(b, pos, "dir ") {
            Some(q) => match parse_path(b, q) {
                Some((name, end)) => Some((Entry::Dir(name), end)),
                None => None,
            },
            None => None,
        },
    }
}

/// The line that stands in `s` at `pos`, a line of a listing or else a
/// command, and the position after it.
pub open spec fn spec_line(s: Seq<u8>, pos: int) -> Option<(LineModel, int)> {
    match spec_entry(s, pos) {
        Some(e) => Some(e),
        None => spec_cmd(s, pos),
    }
}

/// Reads a line of the session.
pub fn parse_line(b: &[u8], pos: usize) -> (r: Option<(Line, usize)>)
    requires
        pos <= b@.len(),
    ensures
        match (spec_line(b@, pos as int), r) {
            (Some((m, end)), Some((got, at))) => line_model(got) == m && at == end && pos <= end
                <= b@.len(),
            (None, None) => true,
            _ => false,
        },
{
    match parse_entry(b, pos) {
        Some((e, end)) => Some((Line::Entry(e), end)),
        None => match parse_cmd(b, pos) {
            Some((c, end)) => Some((Line::Command(c), end)),
            None => None,
        },
    }
}

/// The lines that `s` holds from `pos` on, each followed by at most one
/// line feed, as many as can be read.
pub open spec fn spec_session(s: Seq<u8>, pos: int) -> Seq<LineModel>
    decreases s.len() - pos,
{
    match spec_line(s, pos) {
        Some((m, end)) => if pos < spec_opt_newline(s, end) <= s.len() {
            seq![m] + spec_session(s, spec_opt_newline(s, end))
        } else {
            seq![m]
        },
        None => Seq::empty(),
    }
}

/// How many bytes the lines that `s` holds from `pos` on take.
pub open spec fn spec_session_end(s: Seq<u8>, pos: int) -> int
    decreases s.len() - pos,
{
    match spec_line(s, pos) {
        Some((m, end)) => if pos < spec_opt_newline(s, end) <= s.len() {
            spec_session_end(s, spec_opt_newline(s, end))
        } else {
            spec_opt_newline(s, end)
        },
        None => pos,
    }
}

/// The lines as plain values.
pub open spec fn line_models(lines: Seq<Line>) -> Seq<LineModel> {
    Seq::new(lines.len(), |i: int| line_model(lines[i]))
}

/// Reads the lines of a session, each followed by at most one line feed,
/// as many as can be read, and at least one. Gives them and the number of
/// bytes read.
pub fn parse_input(i: &str) -> (r: Option<(Vec<Line>, usize)>)
    ensures
        match r {
            Some((lines, used)) => {
                &&& lines@.len() > 0
                &&& line_models(lines@) == spec_session(i.spec_bytes(), 0)
                &&& used == spec_session_end(i.spec_bytes(), 0)
            },
            None => spec_session(i.spec_bytes(), 0).len() == 0,
        },
{
    let b = i.as_bytes();
    let mut out: Vec<Line> = Vec::new();
    let mut pos: usize = 0;
    assert(line_models(out@) =~= Seq::<LineModel>::empty());
    assert(Seq::<LineModel>::empty() + spec_session(b@, 0) =~= spec_session(b@, 0));
    loop
        invariant_except_break
            spec_session(b@, 0) == line_models(out@) + spec_session(b@, pos as int),
            spec_session_end(b@, 0) == spec_session_end(b@, pos as int),
        invariant
            pos <= b@.len(),
            b@ == i.spec_bytes(),
        ensures
            spec_session(b@, 0) == line_models(out@),
            spec_session_end(b@, 0) == pos,
        decreases b@.len() - pos,
    {
        let ghost before = line_models(out@);
        match parse_line(b, pos) {
            Some((line, end)) => {
                let ghost m = line_model(line);
                out.push(line);
                let next = opt_newline(b, end);
                proof {
                    assert(line_models(out@) =~= before.push(m));
                    if next > pos {
                        assert(line_models(out@) + spec_session(b@, next as int) =~= before + (
                        seq![m] + spec_session(b@, next as int)));
                    } else {
                        assert(line_models(out@) =~= before + seq![m]);
                    }
                }
                if next == pos {
                    pos = next;
                    break ;
                }
                pos = next;
            },
            None => {
                assert(before + Seq::<LineModel>::empty() =~= before);
                break ;
            },
        }
    }
    if out.len() == 0 {
        None
    } else {
        Some((out, pos))
    }
}

} // verus!
