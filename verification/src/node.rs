//! The presentation tree: mutable, identity-bearing nodes that a view
//! observes. A node's identity key and creation id never change once the
//! node exists; only its field values and its child list are mutated, and
//! only by the reconciler.
use vstd::prelude::*;

use crate::stats::UsageStats;

verus! {

/// What kind of entity a node stands for.
#[derive(Clone, Copy, PartialEq, Eq, Structural, Debug)]
pub enum ContentType {
    SectionHeader,
    App,
    Process,
    Service,
}

/// Which fixed top-level bucket a node renders under.
#[derive(Clone, Copy, PartialEq, Eq, Structural, Debug)]
pub enum SectionType {
    FirstSection,
    SecondSection,
}

/// One node of the presentation tree.
pub struct Node {
    /// Identity key: pid in decimal for processes, the app id for apps, the
    /// service id in decimal for services. Immutable for the node's lifetime.
    pub id: String,
    /// Creation id: assigned once when the node is first materialised and
    /// never changed, so a surviving node can be recognised across cycles.
    pub uid: u64,
    pub content_type: ContentType,
    pub section_type: SectionType,
    pub pid: u32,
    pub service_id: u64,
    pub name: String,
    pub icon: String,
    pub command_line: String,
    pub file_path: String,
    pub user: String,
    pub group: String,
    pub stats: UsageStats,
    pub service_running: bool,
    pub service_enabled: bool,
    pub service_failed: bool,
    pub service_stopped: bool,
    pub children: Vec<Node>,
}

/// The mathematical value of a node.
#[verifier::ext_equal]
pub ghost struct NodeView {
    pub id: Seq<char>,
    pub uid: u64,
    pub content_type: ContentType,
    pub section_type: SectionType,
    pub pid: u32,
    pub service_id: u64,
    pub name: Seq<char>,
    pub icon: Seq<char>,
    pub command_line: Seq<char>,
    pub file_path: Seq<char>,
    pub user: Seq<char>,
    pub group: Seq<char>,
    pub stats: UsageStats,
    pub service_running: bool,
    pub service_enabled: bool,
    pub service_failed: bool,
    pub service_stopped: bool,
    pub children: Seq<NodeView>,
}

impl View for Node {
    type V = NodeView;

    open spec fn view(&self) -> NodeView
        decreases *self,
    {
        NodeView {
            id: self.id@,
            uid: self.uid,
            content_type: self.content_type,
            section_type: self.section_type,
            pid: self.pid,
            service_id: self.service_id,
            name: self.name@,
            icon: self.icon@,
            command_line: self.command_line@,
            file_path: self.file_path@,
            user: self.user@,
            group: self.group@,
            stats: self.stats,
            service_running: self.service_running,
            service_enabled: self.service_enabled,
            service_failed: self.service_failed,
            service_stopped: self.service_stopped,
            children: seq_views(self.children@),
        }
    }
}

/// The views of a sequence of nodes.
pub open spec fn seq_views(s: Seq<Node>) -> Seq<NodeView>
    decreases s,
{
    if s.len() == 0 {
        Seq::empty()
    } else {
        seq_views(s.drop_last()).push(s.last()@)
    }
}

pub proof fn lemma_seq_views(s: Seq<Node>)
    ensures
        seq_views(s).len() == s.len(),
        forall|i: int| 0 <= i < s.len() ==> #[trigger] seq_views(s)[i] == s[i]@,
    decreases s,
{
    if s.len() == 0 {
        assert(seq_views(s) =~= Seq::<NodeView>::empty());
    } else {
        lemma_seq_views(s.drop_last());
        assert(seq_views(s) =~= seq_views(s.drop_last()).push(s.last()@));
        assert forall|i: int| 0 <= i < s.len() implies #[trigger] seq_views(s)[i] == s[i]@ by {
            if i < s.len() - 1 {
                assert(s.drop_last()[i] == s[i]);
            }
        }
    }
}

/// A pid occurs among the nodes of one level.
pub open spec fn level_has_pid(s: Seq<NodeView>, pid: u32) -> bool {
    exists|i: int| 0 <= i < s.len() && (#[trigger] s[i]).pid == pid
}

/// An identity key occurs among the nodes of one level.
pub open spec fn level_has_key(s: Seq<NodeView>, key: Seq<char>) -> bool {
    exists|i: int| 0 <= i < s.len() && (#[trigger] s[i]).id == key
}

/// A service id occurs among the nodes of one level.
pub open spec fn level_has_sid(s: Seq<NodeView>, sid: u64) -> bool {
    exists|i: int| 0 <= i < s.len() && (#[trigger] s[i]).service_id == sid
}

/// The nodes of one level carry pairwise distinct pids.
pub open spec fn level_pids_unique(s: Seq<NodeView>) -> bool {
    forall|i: int, j: int|
        0 <= i < j < s.len() ==> (#[trigger] s[i]).pid != (#[trigger] s[j]).pid
}

/// The nodes of one level carry pairwise distinct identity keys.
pub open spec fn level_keys_unique(s: Seq<NodeView>) -> bool {
    forall|i: int, j: int|
        0 <= i < j < s.len() ==> (#[trigger] s[i]).id != (#[trigger] s[j]).id
}

/// The nodes of one level carry pairwise distinct service ids.
pub open spec fn level_sids_unique(s: Seq<NodeView>) -> bool {
    forall|i: int, j: int|
        0 <= i < j < s.len() ==> (#[trigger] s[i]).service_id != (#[trigger] s[j]).service_id
}


/// A pid occurs somewhere in this forest of views, at any depth.
pub open spec fn forest_has_pid(nodes: Seq<NodeView>, p: u32) -> bool
    decreases nodes,
{
    if nodes.len() == 0 {
        false
    } else {
        ||| nodes[0].pid == p
        ||| forest_has_pid(nodes[0].children, p)
        ||| forest_has_pid(nodes.drop_first(), p)
    }
}

/// `v` is one of the nodes of this forest of views, at any depth.
pub open spec fn forest_has_node(nodes: Seq<NodeView>, v: NodeView) -> bool
    decreases nodes,
{
    if nodes.len() == 0 {
        false
    } else {
        ||| nodes[0] == v
        ||| forest_has_node(nodes[0].children, v)
        ||| forest_has_node(nodes.drop_first(), v)
    }
}

/// Appending one node to a level adds exactly that node and its subtree to
/// the forest.
pub proof fn lemma_forest_push(nodes: Seq<NodeView>, x: NodeView)
    ensures
        forall|p: u32|
            #[trigger] forest_has_pid(nodes.push(x), p) == (forest_has_pid(nodes, p) || x.pid == p
                || forest_has_pid(x.children, p)),
        forall|v: NodeView|
            #[trigger] forest_has_node(nodes.push(x), v) == (forest_has_node(nodes, v) || x == v
                || forest_has_node(x.children, v)),
    decreases nodes,
{
    if nodes.len() == 0 {
        assert(nodes.push(x)[0] == x);
        assert(nodes.push(x).drop_first() =~= Seq::<NodeView>::empty());
        assert forall|p: u32|
            #[trigger] forest_has_pid(nodes.push(x), p) == (forest_has_pid(nodes, p) || x.pid == p
                || forest_has_pid(x.children, p)) by {
            assert(!forest_has_pid(Seq::<NodeView>::empty(), p));
        }
        assert forall|v: NodeView|
            #[trigger] forest_has_node(nodes.push(x), v) == (forest_has_node(nodes, v) || x == v
                || forest_has_node(x.children, v)) by {
            assert(!forest_has_node(Seq::<NodeView>::empty(), v));
        }
    } else {
        assert(nodes.push(x)[0] == nodes[0]);
        assert(nodes.push(x).drop_first() =~= nodes.drop_first().push(x));
        lemma_forest_push(nodes.drop_first(), x);
        assert forall|p: u32|
            #[trigger] forest_has_pid(nodes.push(x), p) == (forest_has_pid(nodes, p) || x.pid == p
                || forest_has_pid(x.children, p)) by {
            assert(forest_has_pid(nodes.drop_first().push(x), p) == (forest_has_pid(
                nodes.drop_first(),
                p,
            ) || x.pid == p || forest_has_pid(x.children, p)));
        }
        assert forall|v: NodeView|
            #[trigger] forest_has_node(nodes.push(x), v) == (forest_has_node(nodes, v) || x == v
                || forest_has_node(x.children, v)) by {
            assert(forest_has_node(nodes.drop_first().push(x), v) == (forest_has_node(
                nodes.drop_first(),
                v,
            ) || x == v || forest_has_node(x.children, v)));
        }
    }
}

/// A node of the level is a node of the forest, and so is its pid.
pub proof fn lemma_level_in_forest(nodes: Seq<NodeView>, k: int)
    requires
        0 <= k < nodes.len(),
    ensures
        forest_has_pid(nodes, nodes[k].pid),
        forest_has_node(nodes, nodes[k]),
    decreases nodes,
{
    if k > 0 {
        lemma_level_in_forest(nodes.drop_first(), k - 1);
        assert(nodes.drop_first()[k - 1] == nodes[k]);
    }
}

/// An exact copy of a node and its subtree.
pub fn duplicate(n: &Node) -> (r: Node)
    ensures
        r@ == n@,
    decreases *n,
{
    let mut out: Vec<Node> = Vec::new();
    let mut i: usize = 0;
    while i < n.children.len()
        invariant
            i <= n.children.len(),
            out@.len() == i,
            forall|k: int| 0 <= k < i ==> (#[trigger] out@[k])@ == n.children@[k]@,
        decreases n.children.len() - i,
    {
        let c = duplicate(&n.children[i]);
        out.push(c);
        i += 1;
    }
    let r = Node {
        id: n.id.clone(),
        uid: n.uid,
        content_type: n.content_type,
        section_type: n.section_type,
        pid: n.pid,
        service_id: n.service_id,
        name: n.name.clone(),
        icon: n.icon.clone(),
        command_line: n.command_line.clone(),
        file_path: n.file_path.clone(),
        user: n.user.clone(),
        group: n.group.clone(),
        stats: n.stats,
        service_running: n.service_running,
        service_enabled: n.service_enabled,
        service_failed: n.service_failed,
        service_stopped: n.service_stopped,
        children: out,
    };
    proof {
        lemma_seq_views(out@);
        lemma_seq_views(n.children@);
        assert(r@.children =~= n@.children);
        assert(r@ =~= n@);
    }
    r
}

/// The working map from pid to the presentation node materialised for it
/// this cycle; apps borrow their children from it.
pub struct ModelMap {
    pub entries: Vec<Node>,
}

impl ModelMap {
    pub open spec fn wf(self) -> bool {
        forall|i: int, j: int|
            0 <= i < j < self.entries@.len() ==> (#[trigger] self.entries@[i]).pid != (
            #[trigger] self.entries@[j]).pid
    }

    pub open spec fn spec_has(self, pid: u32) -> bool {
        exists|i: int| 0 <= i < self.entries@.len() && (#[trigger] self.entries@[i]).pid == pid
    }

    pub open spec fn spec_get(self, pid: u32) -> NodeView {
        (self.entries@[choose|i: int|
            0 <= i < self.entries@.len() && (#[trigger] self.entries@[i]).pid == pid])@
    }

    pub fn new() -> (r: ModelMap)
        ensures
            r.wf(),
            forall|p: u32| !r.spec_has(p),
    {
        ModelMap { entries: Vec::new() }
    }

    fn index_of(&self, pid: u32) -> (r: Option<usize>)
        ensures
            match r {
                Some(i) => i < self.entries@.len() && self.entries@[i as int].pid == pid,
                None => !self.spec_has(pid),
            },
    {
        let n = self.entries.len();
        let mut i: usize = 0;
        while i < n
            invariant
                i <= n,
                n == self.entries@.len(),
                forall|k: int| 0 <= k < i ==> (#[trigger] self.entries@[k]).pid != pid,
            decreases n - i,
        {
            if self.entries[i].pid == pid {
                return Some(i);
            }
            i += 1;
        }
        None
    }

    /// Record the node now standing for `node.pid`, replacing any earlier one.
    pub fn put(&mut self, node: Node)
        requires
            old(self).wf(),
        ensures
            final(self).wf(),
            final(self).spec_has(node.pid),
            final(self).spec_get(node.pid) == node@,
            forall|p: u32|
                p != node.pid ==> final(self).spec_has(p) == old(self).spec_has(p),
            forall|p: u32|
                p != node.pid && old(self).spec_has(p) ==> final(self).spec_get(p) == old(
                    self,
                ).spec_get(p),
    {
        let ghost oldm = *self;
        let pid = node.pid;
        match self.index_of(pid) {
            Some(i) => {
                self.entries.set(i, node);
                proof {
                    lemma_model_map_frame(oldm, *self, i as int, pid);
                }
            },
            None => {
                self.entries.push(node);
                proof {
                    lemma_model_map_frame(oldm, *self, oldm.entries@.len() as int, pid);
                }
            },
        }
    }

    pub fn get(&self, pid: u32) -> (r: Option<&Node>)
        requires
            self.wf(),
        ensures
            match r {
                Some(node) => self.spec_has(pid) && node@ == self.spec_get(pid) && node.pid == pid,
                None => !self.spec_has(pid),
            },
    {
        match self.index_of(pid) {
            Some(i) => {
                proof {
                    lemma_model_map_at(*self, i as int);
                }
                Some(&self.entries[i])
            },
            None => None,
        }
    }
}

proof fn lemma_model_map_at(m: ModelMap, i: int)
    requires
        m.wf(),
        0 <= i < m.entries@.len(),
    ensures
        m.spec_has(m.entries@[i].pid),
        m.spec_get(m.entries@[i].pid) == m.entries@[i]@,
{
    let pid = m.entries@[i].pid;
    assert(m.spec_has(pid));
    let j = choose|j: int| 0 <= j < m.entries@.len() && (#[trigger] m.entries@[j]).pid == pid;
    if i < j {
        assert(m.entries@[i].pid != m.entries@[j].pid);
    } else if j < i {
        assert(m.entries@[j].pid != m.entries@[i].pid);
    }
}

/// After writing index `i` (an update in place or a push at the end), the
/// map still answers as before for every other pid.
proof fn lemma_model_map_frame(oldm: ModelMap, newm: ModelMap, i: int, pid: u32)
    requires
        oldm.wf(),
        0 <= i < newm.entries@.len(),
        newm.entries@.len() == oldm.entries@.len() || (newm.entries@.len() == oldm.entries@.len()
            + 1 && i == oldm.entries@.len()),
        newm.entries@[i].pid == pid,
        forall|k: int|
            0 <= k < newm.entries@.len() && k != i ==> newm.entries@[k] == oldm.entries@[k],
        i < oldm.entries@.len() ==> oldm.entries@[i].pid == pid,
        i == oldm.entries@.len() ==> !oldm.spec_has(pid),
    ensures
        newm.wf(),
        newm.spec_has(pid),
        newm.spec_get(pid) == newm.entries@[i]@,
        forall|p: u32| p != pid ==> newm.spec_has(p) == oldm.spec_has(p),
        forall|p: u32|
            p != pid && oldm.spec_has(p) ==> newm.spec_get(p) == oldm.spec_get(p),
{
    assert forall|a: int, b: int|
        0 <= a < b < newm.entries@.len() implies (#[trigger] newm.entries@[a]).pid != (
    #[trigger] newm.entries@[b]).pid by {
        if a != i && b != i {
            assert(oldm.entries@[a].pid != oldm.entries@[b].pid);
        } else if b == i && i == oldm.entries@.len() {
            assert(oldm.entries@[a].pid == newm.entries@[a].pid);
            if newm.entries@[a].pid == pid {
                assert(oldm.spec_has(pid));
            }
        } else if b == i {
            assert(oldm.entries@[a].pid != oldm.entries@[b].pid);
        } else {
            assert(oldm.entries@[a].pid != oldm.entries@[b].pid);
        }
    }
    lemma_model_map_at(newm, i);
    assert forall|p: u32| p != pid implies newm.spec_has(p) == oldm.spec_has(p) by {
        if newm.spec_has(p) {
            let k = choose|k: int|
                0 <= k < newm.entries@.len() && (#[trigger] newm.entries@[k]).pid == p;
            assert(k != i);
            assert(oldm.entries@[k].pid == p);
        }
        if oldm.spec_has(p) {
            let k = choose|k: int|
                0 <= k < oldm.entries@.len() && (#[trigger] oldm.entries@[k]).pid == p;
            assert(k != i ==> newm.entries@[k].pid == p);
            if k == i {
                assert(oldm.entries@[i].pid == pid);
            }
        }
    }
    assert forall|p: u32| p != pid && oldm.spec_has(p) implies newm.spec_get(p) == oldm.spec_get(
        p,
    ) by {
        let k = choose|k: int|
            0 <= k < oldm.entries@.len() && (#[trigger] oldm.entries@[k]).pid == p;
        assert(k != i);
        assert(newm.entries@[k].pid == p);
        lemma_model_map_at(newm, k);
        lemma_model_map_at(oldm, k);
    }
}

} // verus!
