//! Flattened prefix tree over template atom sequences, with longest-match lookup.

use vstd::prelude::*;
use crate::interner::AtomId;
use crate::template::Template;

verus! {

/// A trie node: the template ending here (or -1), and its slice of the edge array.
#[derive(Clone, Copy, Debug)]
pub struct Node {
    pub term_tid: i32,
    pub edges_start: u32,
    pub edges_len: u32,
}

/// An edge labelled by an atom id.
#[derive(Clone, Copy, Debug)]
pub struct Edge {
    pub tok: AtomId,
    pub next: u32,
}

/// Nodes and edges in two arrays; each node's edges are sorted by label.
#[derive(Clone, Debug)]
pub struct Trie {
    pub nodes: Vec<Node>,
    pub edges: Vec<Edge>,
}

/// Edges sorted strictly by label within `[lo, hi)`.
pub open spec fn sorted_range(es: Seq<Edge>, lo: int, hi: int) -> bool {
    forall|i: int, j: int| lo <= i < j < hi ==> #[trigger] es[i].tok < #[trigger] es[j].tok
}

/// Number of atoms over all templates.
pub open spec fn total_atoms(templates: Seq<Template>) -> nat
    decreases templates.len(),
{
    if templates.len() == 0 {
        0
    } else {
        total_atoms(templates.drop_last()) + templates.last().atoms@.len()
    }
}

impl Trie {
    pub open spec fn edge_start(&self, n: int) -> int {
        self.nodes@[n].edges_start as int
    }

    pub open spec fn edge_end(&self, n: int) -> int {
        self.nodes@[n].edges_start + self.nodes@[n].edges_len
    }

    /// Shape: a root, edge slices inside the edge array and sorted, targets in range.
    pub open spec fn wf(&self) -> bool {
        &&& 1 <= self.nodes@.len() <= u32::MAX
        &&& self.edges@.len() <= u32::MAX
        &&& forall|n: int|
            0 <= n < self.nodes@.len() ==> self.edge_start(n) <= self.edge_end(n)
                <= self.edges@.len() && sorted_range(self.edges@, self.edge_start(n), self.edge_end(n))
        &&& forall|e: int| 0 <= e < self.edges@.len() ==> #[trigger] self.edges@[e].next < self.nodes@.len()
    }

    /// The node reached from `n` by the edge labelled `tok`, if there is one.
    pub open spec fn step(&self, n: int, tok: u32) -> Option<u32> {
        if exists|e: int| self.edge_start(n) <= e < self.edge_end(n) && self.edges@[e].tok == tok {
            let e = choose|e: int| self.edge_start(n) <= e < self.edge_end(n) && self.edges@[e].tok == tok;
            Some(self.edges@[e].next)
        } else {
            None
        }
    }

    /// The walk of `match_longest` from `node` at `depth` below `pos`: the best
    /// (length, template) found so far and the number of edge lookups.
    pub open spec fn scan(
        &self,
        s: Seq<u32>,
        pos: int,
        node: u32,
        depth: int,
        best_len: int,
        best_tid: int,
        steps: int,
    ) -> (int, int, int)
        decreases s.len() - (pos + depth),
    {
        if pos + depth >= s.len() || depth < 0 {
            (best_len, best_tid, steps)
        } else {
            match self.step(node as int, s[pos + depth]) {
                None => (best_len, best_tid, steps + 1),
                Some(nx) => {
                    let t = self.nodes@[nx as int].term_tid;
                    if t >= 0 {
                        self.scan(s, pos, nx, depth + 1, depth + 1, t as int, steps + 1)
                    } else {
                        self.scan(s, pos, nx, depth + 1, best_len, best_tid, steps + 1)
                    }
                },
            }
        }
    }

    /// The result of `match_longest(s, pos)`.
    pub open spec fn longest(&self, s: Seq<u32>, pos: int) -> (int, int, int) {
        self.scan(s, pos, 0, 0, 0, -1, 0)
    }

    /// `labels[n]` is the atom sequence spelled from the root to node `n`, and each
    /// terminal node ends a template with exactly that sequence.
    pub open spec fn labelled_by(&self, templates: Seq<Template>, labels: Seq<Seq<u32>>) -> bool {
        &&& labels.len() == self.nodes@.len()
        &&& labels[0] == Seq::<u32>::empty()
        &&& forall|n: int, e: int|
            0 <= n < self.nodes@.len() && self.edge_start(n) <= e < self.edge_end(n)
                ==> #[trigger] labels[self.edges@[e].next as int] == #[trigger] labels[n].push(
                self.edges@[e].tok,
            )
        &&& forall|n: int|
            0 <= n < self.nodes@.len() && #[trigger] self.nodes@[n].term_tid >= 0 ==> {
                &&& self.nodes@[n].term_tid < templates.len()
                &&& templates[self.nodes@[n].term_tid as int].atoms@ == labels[n]
            }
    }

    /// Every template hit the trie reports spells that template.
    pub open spec fn sound_for(&self, templates: Seq<Template>) -> bool {
        exists|labels: Seq<Seq<u32>>| self.labelled_by(templates, labels)
    }

    /// Each node ends exactly the last template spelled by its label, and has an edge
    /// for every atom that extends its label to a template prefix; every node but the
    /// root is labelled by a template prefix, and no two nodes share a label.
    pub open spec fn labels_exact(&self, templates: Seq<Template>, labels: Seq<Seq<u32>>) -> bool {
        &&& forall|n: int| 0 <= n < self.nodes@.len() ==> #[trigger] self.nodes@[n].term_tid == last_tid(templates, labels[n])
        &&& forall|n: int, a: u32|
            0 <= n < self.nodes@.len() && prefix_of_some(templates, labels[n].push(a)) ==> #[trigger] self.step(n, a) is Some
        &&& forall|n: int| 1 <= n < self.nodes@.len() ==> prefix_of_some(templates, #[trigger] labels[n])
        &&& forall|n: int, m: int|
            0 <= n < self.nodes@.len() && 0 <= m < self.nodes@.len() && #[trigger] labels[n] == #[trigger] labels[m] ==> n == m
    }

    /// The edge slices follow each other in node order and cover the edge array.
    pub open spec fn tiled(&self) -> bool {
        &&& self.nodes@.len() >= 1 ==> self.edge_start(0) == 0
        &&& forall|n: int| 0 <= n && n + 1 < self.nodes@.len() ==> #[trigger] self.edge_start(n + 1) == self.edge_end(n)
        &&& self.nodes@.len() >= 1 ==> self.edge_end(self.nodes@.len() - 1) == self.edges@.len()
    }

    /// The trie holds exactly the templates: sound, with exact terminals and all prefixes.
    pub open spec fn exact_for(&self, templates: Seq<Template>) -> bool {
        exists|labels: Seq<Seq<u32>>| self.labelled_by(templates, labels) && self.labels_exact(templates, labels)
    }
}

impl Trie {
    /// Follows the edge labelled `tok` out of node `n`, by binary search.
    fn binary_search_edge(&self, n: usize, tok: AtomId) -> (r: Option<u32>)
        requires
            self.wf(),
            n < self.nodes@.len(),
        ensures
            r == self.step(n as int, tok),
    {
        let nd = self.nodes[n];
        assert(self.edge_start(n as int) <= self.edge_end(n as int) <= self.edges@.len()
            && sorted_range(self.edges@, self.edge_start(n as int), self.edge_end(n as int)));
        let lo = nd.edges_start as usize;
        let hi = lo + nd.edges_len as usize;
        match search_edges(&self.edges, lo, hi, tok) {
            Ok(k) => {
                proof {
                    let e = choose|e: int| self.edge_start(n as int) <= e < self.edge_end(n as int)
                        && self.edges@[e].tok == tok;
                    if e < k {
                        assert(self.edges@[e].tok < self.edges@[k as int].tok);
                    } else if e > k {
                        assert(self.edges@[k as int].tok < self.edges@[e].tok);
                    }
                }
                Some(self.edges[k].next)
            },
            Err(_) => None,
        }
    }

    /// Longest prefix of `stream[pos..]` that is a whole template: its length, the
    /// template id (-1 when none) and the number of edge lookups made.
    pub fn match_longest(&self, stream: &[AtomId], pos: usize) -> (r: (usize, i32, usize))
        requires
            self.wf(),
        ensures
            (r.0 as int, r.1 as int, r.2 as int) == self.longest(stream@, pos as int),
    {
        let ghost s = stream@;
        if pos >= stream.len() {
            return (0, -1, 0);
        }
        let mut node: u32 = 0;
        let mut depth: usize = 0;
        let mut best_len: usize = 0;
        let mut best_tid: i32 = -1;
        let mut steps: usize = 0;
        let len = stream.len();
        let rem = len - pos;
        while depth < rem
            invariant
                self.wf(),
                s == stream@,
                pos < s.len(),
                rem == s.len() - pos,
                pos + rem == len,
                len == stream@.len(),
                depth <= rem,
                node < self.nodes@.len(),
                steps == depth,
                best_len <= depth,
                self.scan(s, pos as int, node, depth as int, best_len as int, best_tid as int, steps as int)
                    == self.longest(s, pos as int),
            ensures
                self.scan(s, pos as int, node, depth as int, best_len as int, best_tid as int, steps as int)
                    == self.longest(s, pos as int),
                depth >= rem || self.scan(s, pos as int, node, depth as int, best_len as int, best_tid as int, steps as int)
                    == (best_len as int, best_tid as int, steps as int),
            decreases rem - depth,
        {
            let tok = stream[pos + depth];
            let found = self.binary_search_edge(node as usize, tok);
            steps = steps + 1;
            match found {
                None => {
                    return (best_len, best_tid, steps);
                },
                Some(next) => {
                    node = next;
                    depth = depth + 1;
                    let tn = self.nodes[node as usize].term_tid;
                    if tn >= 0 {
                        best_len = depth;
                        best_tid = tn;
                    }
                },
            }
        }
        (best_len, best_tid, steps)
    }
}

/// Children of one node while the trie is built: atom id to child node.
#[verifier::external_body]
pub struct ChildMap {
    map: hashbrown::HashMap<u32, u32>,
}

/// What a child map holds.
pub uninterp spec fn child_map_contents(m: ChildMap) -> Map<u32, u32>;

impl ChildMap {
    /// Relies on hashbrown::HashMap::new: the new map is empty.
    #[verifier::external_body]
    fn new() -> (r: ChildMap)
        ensures
            child_map_contents(r).dom().is_empty(),
            child_map_contents(r).dom().finite(),
    {
        ChildMap { map: hashbrown::HashMap::new() }
    }

    /// Relies on hashbrown::HashMap::get: the value under the key, if any.
    #[verifier::external_body]
    fn get(&self, a: u32) -> (r: Option<u32>)
        ensures
            r == (if child_map_contents(*self).contains_key(a) {
                Some(child_map_contents(*self)[a])
            } else {
                None
            }),
    {
        self.map.get(&a).copied()
    }

    /// Relies on hashbrown::HashMap::insert: the key now maps to `v`, others are kept.
    #[verifier::external_body]
    fn insert(&mut self, a: u32, v: u32)
        ensures
            child_map_contents(*final(self)) == child_map_contents(*old(self)).insert(a, v),
    {
        self.map.insert(a, v);
    }

    /// Relies on hashbrown::HashMap::iter: every entry once, in some order.
    #[verifier::external_body]
    fn entries(&self) -> (r: Vec<(u32, u32)>)
        ensures
            r@.len() == child_map_contents(*self).dom().len(),
            forall|i: int| 0 <= i < r@.len() ==> child_map_contents(*self).contains_key(#[trigger] r@[i].0)
                && child_map_contents(*self)[r@[i].0] == r@[i].1,
            forall|i: int, j: int| 0 <= i < j < r@.len() ==> #[trigger] r@[i].0 != #[trigger] r@[j].0,
            forall|a: u32| #[trigger] child_map_contents(*self).contains_key(a) ==> exists|i: int| 0 <= i < r@.len() && r@[i].0 == a,
    {
        self.map.iter().map(|(k, v)| (*k, *v)).collect()
    }
}

/// The contents of the child maps.
pub open spec fn contents_of(ch: Seq<ChildMap>) -> Seq<Map<u32, u32>> {
    ch.map_values(|c: ChildMap| child_map_contents(c))
}

/// Number of edges over all child maps.
pub open spec fn sum_dom(cm: Seq<Map<u32, u32>>) -> nat
    decreases cm.len(),
{
    if cm.len() == 0 {
        0
    } else {
        sum_dom(cm.drop_last()) + cm.last().dom().len()
    }
}

proof fn lemma_sum_dom_push(cm: Seq<Map<u32, u32>>, m: Map<u32, u32>)
    ensures
        sum_dom(cm.push(m)) == sum_dom(cm) + m.dom().len(),
{
    assert(cm.push(m).drop_last() =~= cm);
}

proof fn lemma_sum_dom_update(cm: Seq<Map<u32, u32>>, n: int, m: Map<u32, u32>)
    requires
        0 <= n < cm.len(),
    ensures
        sum_dom(cm.update(n, m)) == sum_dom(cm) - cm[n].dom().len() + m.dom().len(),
    decreases cm.len(),
{
    if n == cm.len() - 1 {
        assert(cm.update(n, m).drop_last() =~= cm.drop_last());
    } else {
        lemma_sum_dom_update(cm.drop_last(), n, m);
        assert(cm.update(n, m).drop_last() =~= cm.drop_last().update(n, m));
    }
}

proof fn lemma_sum_dom_take(cm: Seq<Map<u32, u32>>, i: int, j: int)
    requires
        0 <= i <= j <= cm.len(),
    ensures
        sum_dom(cm.take(i)) <= sum_dom(cm.take(j)),
    decreases j - i,
{
    if i < j {
        lemma_sum_dom_take(cm, i, j - 1);
        assert(cm.take(j).drop_last() =~= cm.take(j - 1));
    }
}

pub proof fn lemma_total_atoms_take(tpl: Seq<Template>, i: int)
    requires
        0 <= i < tpl.len(),
    ensures
        total_atoms(tpl.take(i + 1)) == total_atoms(tpl.take(i)) + tpl[i].atoms@.len(),
        total_atoms(tpl.take(i + 1)) <= total_atoms(tpl),
    decreases tpl.len() - i,
{
    assert(tpl.take(i + 1).drop_last() =~= tpl.take(i));
    if i + 1 < tpl.len() {
        lemma_total_atoms_take(tpl, i + 1);
    } else {
        assert(tpl.take(i + 1) =~= tpl);
    }
}

/// `p` is a prefix of `s`.
pub open spec fn is_prefix(p: Seq<u32>, s: Seq<u32>) -> bool {
    p.len() <= s.len() && s.take(p.len() as int) == p
}

/// `p` is a prefix of some template's atoms.
pub open spec fn prefix_of_some(templates: Seq<Template>, p: Seq<u32>) -> bool {
    exists|t: int| 0 <= t < templates.len() && #[trigger] is_prefix(p, templates[t].atoms@)
}

/// The last template whose atoms are exactly `p`, or -1.
pub open spec fn last_tid(templates: Seq<Template>, p: Seq<u32>) -> int
    decreases templates.len(),
{
    if templates.len() == 0 {
        -1
    } else if templates.last().atoms@ == p {
        templates.len() - 1
    } else {
        last_tid(templates.drop_last(), p)
    }
}

pub proof fn lemma_last_tid(templates: Seq<Template>, p: Seq<u32>)
    ensures
        -1 <= last_tid(templates, p) < templates.len(),
        last_tid(templates, p) >= 0 ==> templates[last_tid(templates, p)].atoms@ == p,
        forall|t: int| 0 <= t < templates.len() && #[trigger] templates[t].atoms@ == p ==> last_tid(templates, p) >= t,
    decreases templates.len(),
{
    if templates.len() > 0 {
        lemma_last_tid(templates.drop_last(), p);
        assert forall|t: int| 0 <= t < templates.len() && #[trigger] templates[t].atoms@ == p implies last_tid(templates, p) >= t by {
            if t < templates.len() - 1 {
                assert(templates.drop_last()[t] == templates[t]);
            }
        }
    }
}

proof fn lemma_last_tid_take(templates: Seq<Template>, i: int, p: Seq<u32>)
    requires
        0 <= i < templates.len(),
    ensures
        last_tid(templates.take(i + 1), p) == if templates[i].atoms@ == p { i } else { last_tid(templates.take(i), p) },
{
    assert(templates.take(i + 1).drop_last() =~= templates.take(i));
}

proof fn lemma_prefix_of_some_take(templates: Seq<Template>, i: int, p: Seq<u32>)
    requires
        0 <= i < templates.len(),
    ensures
        prefix_of_some(templates.take(i + 1), p) == (prefix_of_some(templates.take(i), p) || is_prefix(p, templates[i].atoms@)),
{
    if prefix_of_some(templates.take(i + 1), p) {
        let t = choose|t: int| 0 <= t < templates.take(i + 1).len() && #[trigger] is_prefix(p, templates.take(i + 1)[t].atoms@);
        if t < i {
            assert(templates.take(i)[t] == templates[t]);
            assert(is_prefix(p, templates.take(i)[t].atoms@));
        }
    }
    if prefix_of_some(templates.take(i), p) {
        let t = choose|t: int| 0 <= t < templates.take(i).len() && #[trigger] is_prefix(p, templates.take(i)[t].atoms@);
        assert(templates.take(i + 1)[t] == templates[t]);
        assert(is_prefix(p, templates.take(i + 1)[t].atoms@));
    }
    if is_prefix(p, templates[i].atoms@) {
        assert(templates.take(i + 1)[i] == templates[i]);
        assert(is_prefix(p, templates.take(i + 1)[i].atoms@));
    }
}

proof fn lemma_prefix_drop(p: Seq<u32>, a: u32, s: Seq<u32>)
    requires
        is_prefix(p.push(a), s),
    ensures
        is_prefix(p, s),
{
    assert(s.take(p.len() as int) =~= s.take((p.len() + 1) as int).take(p.len() as int));
    assert(p.push(a).take(p.len() as int) =~= p);
}

/// A label `l` with a single extra atom is a template prefix only if `l` is one.
proof fn lemma_prefix_of_some_drop(templates: Seq<Template>, p: Seq<u32>, a: u32)
    requires
        prefix_of_some(templates, p.push(a)),
    ensures
        prefix_of_some(templates, p),
{
    let t = choose|t: int| 0 <= t < templates.len() && #[trigger] is_prefix(p.push(a), templates[t].atoms@);
    lemma_prefix_drop(p, a, templates[t].atoms@);
}

/// Node `m` is the child of the node labelled one atom shorter.
pub open spec fn has_parent(cm: Seq<Map<u32, u32>>, labels: Seq<Seq<u32>>, m: int) -> bool {
    exists|p: int|
        0 <= p < cm.len() && #[trigger] cm[p].contains_key(labels[m].last()) && cm[p][labels[m].last()] == m
            && labels[p] == labels[m].drop_last()
}

/// The state of trie construction after the first `ti` templates, while the atoms
/// `cur` of the next one are being inserted.
pub open spec fn build_inv(
    tpl: Seq<Template>,
    ti: int,
    cm: Seq<Map<u32, u32>>,
    term: Seq<i32>,
    labels: Seq<Seq<u32>>,
    cur: Seq<u32>,
) -> bool {
    &&& 1 <= cm.len()
    &&& cm.len() == term.len()
    &&& cm.len() == labels.len()
    &&& labels[0] == Seq::<u32>::empty()
    &&& sum_dom(cm) == cm.len() - 1
    &&& forall|n: int| 0 <= n < cm.len() ==> (#[trigger] cm[n]).dom().finite()
    &&& forall|n: int, a: u32|
        0 <= n < cm.len() && #[trigger] cm[n].contains_key(a) ==> cm[n][a] < cm.len() && labels[cm[n][a] as int]
            == labels[n].push(a)
    &&& forall|n: int, m: int|
        0 <= n < cm.len() && 0 <= m < cm.len() && #[trigger] labels[n] == #[trigger] labels[m] ==> n == m
    &&& forall|m: int| 1 <= m < cm.len() ==> #[trigger] has_parent(cm, labels, m)
    &&& forall|n: int| 0 <= n < cm.len() ==> #[trigger] term[n] == last_tid(tpl.take(ti), labels[n])
    &&& forall|n: int| 1 <= n < cm.len() ==> prefix_of_some(tpl.take(ti), #[trigger] labels[n]) || is_prefix(labels[n], cur)
    &&& forall|n: int, a: u32|
        0 <= n < cm.len() && (prefix_of_some(tpl.take(ti), labels[n].push(a)) || is_prefix(
            labels[n].push(a),
            cur,
        )) ==> #[trigger] cm[n].contains_key(a)
}

impl Trie {
    /// Builds the trie of `templates`; template `i` marks the node its atoms lead to,
    /// a later template with the same atoms replacing an earlier one.
    pub fn build(templates: &[Template]) -> (r: Trie)
        requires
            templates@.len() <= i32::MAX,
            total_atoms(templates@) < u32::MAX,
        ensures
            r.wf(),
            r.sound_for(templates@),
            r.exact_for(templates@),
            r.tiled(),
    {
        let ghost tpl = templates@;
        let mut children: Vec<ChildMap> = Vec::new();
        children.push(ChildMap::new());
        let mut term: Vec<i32> = Vec::new();
        term.push(-1);
        let ghost mut labels: Seq<Seq<u32>> = seq![Seq::<u32>::empty()];
        proof {
            let cm = contents_of(children@);
            lemma_sum_dom_push(Seq::<Map<u32, u32>>::empty(), cm[0]);
            assert(cm =~= Seq::<Map<u32, u32>>::empty().push(cm[0]));
            assert(tpl.take(0) =~= Seq::<Template>::empty());
            assert forall|n: int, a: u32| 0 <= n < cm.len() && (prefix_of_some(tpl.take(0), labels[n].push(a))
                || is_prefix(labels[n].push(a), Seq::<u32>::empty())) implies #[trigger] cm[n].contains_key(a) by {
                if prefix_of_some(tpl.take(0), labels[n].push(a)) {
                    let t = choose|t: int| 0 <= t < tpl.take(0).len() && #[trigger] is_prefix(labels[n].push(a), tpl.take(0)[t].atoms@);
                }
            }
        }
        let mut ti: usize = 0;
        while ti < templates.len()
            invariant
                tpl == templates@,
                tpl.len() <= i32::MAX,
                total_atoms(tpl) < u32::MAX,
                ti <= tpl.len(),
                build_inv(tpl, ti as int, contents_of(children@), term@, labels, Seq::empty()),
                children@.len() <= 1 + total_atoms(tpl.take(ti as int)),
            decreases tpl.len() - ti,
        {
            let t = &templates[ti];
            proof {
                lemma_total_atoms_take(tpl, ti as int);
            }
            let mut node: usize = 0;
            let mut d: usize = 0;
            proof {
                assert(t.atoms@.take(0) =~= Seq::<u32>::empty());
            }
            while d < t.atoms.len()
                invariant
                    tpl == templates@,
                    ti < tpl.len(),
                    tpl.len() <= i32::MAX,
                    t == tpl[ti as int],
                    total_atoms(tpl) < u32::MAX,
                    total_atoms(tpl.take(ti as int + 1)) == total_atoms(tpl.take(ti as int)) + t.atoms@.len(),
                    total_atoms(tpl.take(ti as int + 1)) <= total_atoms(tpl),
                    d <= t.atoms@.len(),
                    build_inv(tpl, ti as int, contents_of(children@), term@, labels, t.atoms@.take(d as int)),
                    node < children@.len(),
                    labels[node as int] == t.atoms@.take(d as int),
                    children@.len() <= 1 + total_atoms(tpl.take(ti as int)) + d,
                decreases t.atoms@.len() - d,
            {
                let a = t.atoms[d];
                let ghost cur0 = t.atoms@.take(d as int);
                let ghost cur1 = t.atoms@.take(d + 1);
                proof {
                    assert(cur1 =~= cur0.push(a));
                    lemma_prefix_step(cur0, a);
                }
                match children[node].get(a) {
                    Some(next) => {
                        proof {
                            let cm = contents_of(children@);
                            assert(cm[node as int] == child_map_contents(children@[node as int]));
                            assert forall|n: int, b: u32| 0 <= n < cm.len() && (prefix_of_some(tpl.take(ti as int), labels[n].push(b))
                                || is_prefix(labels[n].push(b), cur1)) implies #[trigger] cm[n].contains_key(b) by {
                                if !prefix_of_some(tpl.take(ti as int), labels[n].push(b)) && !is_prefix(labels[n].push(b), cur0) {
                                    assert(labels[n].push(b) == cur1);
                                    assert(labels[n] =~= labels[n].push(b).drop_last());
                                    assert(cur1.drop_last() =~= cur0);
                                    assert(labels[n] == labels[node as int]);
                                    assert(labels[n].push(b).last() == b);
                                    assert(cur1.last() == a);
                                }
                            }
                        }
                        proof {
                            let cm = contents_of(children@);
                            assert forall|n: int| 1 <= n < cm.len() implies prefix_of_some(tpl.take(ti as int), #[trigger] labels[n])
                                || is_prefix(labels[n], cur1) by {
                                if is_prefix(labels[n], cur0) {
                                    lemma_prefix_extend(labels[n], cur0, a);
                                }
                            }
                        }
                        node = next as usize;
                    },
                    None => {
                        let nx = children.len() as u32;
                        let ghost cm0 = contents_of(children@);
                        let ghost lab0 = labels;
                        proof {
                            assert(cm0[node as int] == child_map_contents(children@[node as int]));
                            assert(!prefix_of_some(tpl.take(ti as int), labels[node as int].push(a)));
                        }
                        children.push(ChildMap::new());
                        let ghost cm1 = contents_of(children@);
                        proof {
                            assert(cm1 =~= cm0.push(cm1.last()));
                            lemma_sum_dom_push(cm0, cm1.last());
                            assert(cm1.last().dom() =~= Set::<u32>::empty());
                        }
                        term.push(-1);
                        proof {
                            labels = labels.push(labels[node as int].push(a));
                        }
                        children[node].insert(a, nx);
                        proof {
                            let cm2 = contents_of(children@);
                            assert(cm2 =~= cm1.update(node as int, cm0[node as int].insert(a, nx)));
                            lemma_build_insert(tpl, ti as int, cm0, cm1, cm2, term@, lab0, labels, cur0, cur1, node as int, a, nx);
                        }
                        node = nx as usize;
                    },
                }
                d = d + 1;
            }
            proof {
                assert(t.atoms@.take(d as int) =~= t.atoms@);
            }
            term.set(node, ti as i32);
            proof {
                let cm = contents_of(children@);
                assert forall|n: int| 0 <= n < cm.len() implies #[trigger] term@[n] == last_tid(tpl.take(ti + 1), labels[n]) by {
                    lemma_last_tid_take(tpl, ti as int, labels[n]);
                    if n != node {
                        assert(labels[n] != labels[node as int]);
                    }
                }
                assert forall|n: int, b: u32| 0 <= n < cm.len() && (prefix_of_some(tpl.take(ti + 1), labels[n].push(b))
                    || is_prefix(labels[n].push(b), Seq::<u32>::empty())) implies #[trigger] cm[n].contains_key(b) by {
                    lemma_prefix_of_some_take(tpl, ti as int, labels[n].push(b));
                }
                assert forall|n: int| 1 <= n < cm.len() implies prefix_of_some(tpl.take(ti + 1), #[trigger] labels[n])
                    || is_prefix(labels[n], Seq::<u32>::empty()) by {
                    lemma_prefix_of_some_take(tpl, ti as int, labels[n]);
                }
            }
            ti = ti + 1;
        }
        proof {
            assert(tpl.take(ti as int) =~= tpl);
        }
        Self::flatten(&children, &term, Ghost(tpl), Ghost(labels))
    }

    /// Lays the child maps out as one edge array, each node's edges sorted by label.
    #[verifier::spinoff_prover]
    #[verifier::rlimit(40)]
    fn flatten(children: &Vec<ChildMap>, term: &Vec<i32>, tpl: Ghost<Seq<Template>>, labels: Ghost<Seq<Seq<u32>>>) -> (r: Trie)
        requires
            build_inv(tpl@, tpl@.len() as int, contents_of(children@), term@, labels@, Seq::empty()),
            children@.len() <= u32::MAX,
        ensures
            r.wf(),
            r.labelled_by(tpl@, labels@),
            r.labels_exact(tpl@, labels@),
            r.tiled(),
    {
        let ghost cm = contents_of(children@);
        let mut nodes: Vec<Node> = Vec::new();
        let mut edges: Vec<Edge> = Vec::new();
        let mut i: usize = 0;
        proof {
            assert(cm.take(0) =~= Seq::<Map<u32, u32>>::empty());
        }
        while i < children.len()
            invariant
                cm == contents_of(children@),
                build_inv(tpl@, tpl@.len() as int, cm, term@, labels@, Seq::empty()),
                cm.len() <= u32::MAX,
                i <= cm.len(),
                nodes@.len() == i,
                edges@.len() == sum_dom(cm.take(i as int)),
                i >= 1 ==> nodes@[0].edges_start == 0,
                i >= 1 ==> nodes@[i - 1].edges_start + nodes@[i - 1].edges_len == edges@.len(),
                forall|n: int| 0 <= n && n + 1 < i ==> #[trigger] nodes@[n + 1].edges_start == nodes@[n].edges_start + nodes@[n].edges_len,
                forall|e: int| 0 <= e < edges@.len() ==> #[trigger] edges@[e].next < cm.len(),
                forall|n: int| 0 <= n < i ==> {
                    &&& (#[trigger] nodes@[n]).term_tid == term@[n]
                    &&& nodes@[n].edges_start + nodes@[n].edges_len <= edges@.len()
                    &&& sorted_range(edges@, nodes@[n].edges_start as int, nodes@[n].edges_start + nodes@[n].edges_len)
                    &&& forall|e: int| nodes@[n].edges_start <= e < nodes@[n].edges_start + nodes@[n].edges_len
                        ==> cm[n].contains_key(#[trigger] edges@[e].tok) && cm[n][edges@[e].tok] == edges@[e].next
                    &&& forall|a: u32| #[trigger] cm[n].contains_key(a) ==> exists|e: int|
                        nodes@[n].edges_start <= e < nodes@[n].edges_start + nodes@[n].edges_len && edges@[e].tok == a
                },
            decreases cm.len() - i,
        {
            proof {
                lemma_sum_dom_take(cm, i as int + 1, cm.len() as int);
                assert(cm.take(cm.len() as int) =~= cm);
                assert(cm.take(i as int + 1).drop_last() =~= cm.take(i as int));
            }
            let list = sorted_edges(&children[i]);
            assert(child_map_contents(children@[i as int]) == cm[i as int]);
            assert forall|e: int| 0 <= e < list@.len() implies #[trigger] list@[e].next < cm.len() by {
                assert(cm[i as int].contains_key(list@[e].tok));
            }
            let start = edges.len() as u32;
            let ghost e0 = edges@;
            let mut k: usize = 0;
            while k < list.len()
                invariant
                    k <= list@.len(),
                    start == e0.len(),
                    edges@.len() == e0.len() + k,
                    forall|e: int| 0 <= e < e0.len() ==> edges@[e] == e0[e],
                    forall|e: int| 0 <= e < k ==> edges@[start + e] == list@[e],
                    forall|e: int| 0 <= e < edges@.len() ==> #[trigger] edges@[e].next < cm.len(),
                    forall|e: int| 0 <= e < list@.len() ==> #[trigger] list@[e].next < cm.len(),
                decreases list@.len() - k,
            {
                edges.push(list[k]);
                k = k + 1;
            }
            nodes.push(Node { term_tid: term[i], edges_start: start, edges_len: list.len() as u32 });
            proof {
                let n = i as int;
                assert forall|e: int| start <= e < start + list@.len() implies cm[n].contains_key(#[trigger] edges@[e].tok)
                    && cm[n][edges@[e].tok] == edges@[e].next by {
                    assert(edges@[e] == list@[e - start]);
                }
                assert forall|a: u32| #[trigger] cm[n].contains_key(a) implies exists|e: int|
                    start <= e < start + list@.len() && edges@[e].tok == a by {
                    let q = choose|q: int| 0 <= q < list@.len() && list@[q].tok == a;
                    assert(edges@[start + q] == list@[q]);
                }
                assert forall|x: int, y: int| start <= x < y < start + list@.len() implies #[trigger] edges@[x].tok
                    < #[trigger] edges@[y].tok by {
                    assert(edges@[x] == list@[x - start]);
                    assert(edges@[y] == list@[y - start]);
                }
                assert forall|m: int| 0 <= m < n implies {
                    &&& (#[trigger] nodes@[m]).term_tid == term@[m]
                    &&& nodes@[m].edges_start + nodes@[m].edges_len <= edges@.len()
                    &&& sorted_range(edges@, nodes@[m].edges_start as int, nodes@[m].edges_start + nodes@[m].edges_len)
                    &&& forall|e: int| nodes@[m].edges_start <= e < nodes@[m].edges_start + nodes@[m].edges_len
                        ==> cm[m].contains_key(#[trigger] edges@[e].tok) && cm[m][edges@[e].tok] == edges@[e].next
                    &&& forall|a: u32| #[trigger] cm[m].contains_key(a) ==> exists|e: int|
                        nodes@[m].edges_start <= e < nodes@[m].edges_start + nodes@[m].edges_len && edges@[e].tok == a
                } by {
                    assert forall|x: int, y: int| nodes@[m].edges_start <= x < y < nodes@[m].edges_start + nodes@[m].edges_len
                        implies #[trigger] edges@[x].tok < #[trigger] edges@[y].tok by {
                        assert(edges@[x] == e0[x] && edges@[y] == e0[y]);
                    }
                    assert forall|e: int| nodes@[m].edges_start <= e < nodes@[m].edges_start + nodes@[m].edges_len
                        implies cm[m].contains_key(#[trigger] edges@[e].tok) && cm[m][edges@[e].tok] == edges@[e].next by {
                        assert(edges@[e] == e0[e]);
                    }
                    assert forall|a: u32| #[trigger] cm[m].contains_key(a) implies exists|e: int|
                        nodes@[m].edges_start <= e < nodes@[m].edges_start + nodes@[m].edges_len && edges@[e].tok == a by {
                        let e = choose|e: int| nodes@[m].edges_start <= e < nodes@[m].edges_start + nodes@[m].edges_len
                            && e0[e].tok == a;
                        assert(edges@[e] == e0[e]);
                    }
                }
            }
            i = i + 1;
        }
        let r = Trie { nodes, edges };
        proof {
            assert(cm.take(i as int) =~= cm);
            assert forall|n: int| 0 <= n < r.nodes@.len() implies r.edge_start(n) <= r.edge_end(n)
                <= r.edges@.len() && sorted_range(r.edges@, r.edge_start(n), r.edge_end(n)) by {
                assert(r.nodes@[n].term_tid == term@[n]);
            }
            assert forall|n: int, e: int|
                0 <= n < r.nodes@.len() && r.edge_start(n) <= e < r.edge_end(n)
                    implies #[trigger] labels@[r.edges@[e].next as int] == #[trigger] labels@[n].push(
                    r.edges@[e].tok) by {
                assert(r.nodes@[n].term_tid == term@[n]);
                assert(cm[n].contains_key(r.edges@[e].tok));
            }
            assert(tpl@.take(tpl@.len() as int) =~= tpl@);
            assert forall|n: int| 0 <= n < r.nodes@.len() && #[trigger] r.nodes@[n].term_tid >= 0 implies {
                &&& r.nodes@[n].term_tid < tpl@.len()
                &&& tpl@[r.nodes@[n].term_tid as int].atoms@ == labels@[n]
            } by {
                lemma_last_tid(tpl@, labels@[n]);
            }
            assert forall|n: int| 1 <= n < r.nodes@.len() implies prefix_of_some(tpl@, #[trigger] labels@[n]) by {
                if is_prefix(labels@[n], Seq::<u32>::empty()) {
                    assert(labels@[n] =~= Seq::<u32>::empty());
                    assert(labels@[n] == labels@[0]);
                }
            }
            assert forall|n: int| 0 <= n && n + 1 < r.nodes@.len() implies #[trigger] r.edge_start(n + 1) == r.edge_end(n) by {
                assert(r.nodes@[n + 1].edges_start == r.nodes@[n].edges_start + r.nodes@[n].edges_len);
            }
            assert forall|n: int| 0 <= n < r.nodes@.len() implies #[trigger] r.nodes@[n].term_tid == last_tid(tpl@, labels@[n]) by {
                assert(r.nodes@[n].term_tid == term@[n]);
            }
            assert forall|n: int, a: u32|
                0 <= n < r.nodes@.len() && prefix_of_some(tpl@, labels@[n].push(a)) implies #[trigger] r.step(n, a) is Some by {
                assert(r.nodes@[n].term_tid == term@[n]);
                assert(cm[n].contains_key(a));
                let e = choose|e: int| r.nodes@[n].edges_start <= e < r.nodes@[n].edges_start + r.nodes@[n].edges_len
                    && r.edges@[e].tok == a;
                assert(r.edge_start(n) <= e < r.edge_end(n) && r.edges@[e].tok == a);
            }
        }
        r
    }
}

/// The edge list has an edge labelled `a`.
pub open spec fn has_label(r: Seq<Edge>, a: u32) -> bool {
    exists|e: int| 0 <= e < r.len() && r[e].tok == a
}

/// The entries of a child map as edges, sorted strictly by label.
fn sorted_edges(c: &ChildMap) -> (r: Vec<Edge>)
    ensures
        r@.len() == child_map_contents(*c).dom().len(),
        sorted_range(r@, 0, r@.len() as int),
        forall|e: int| 0 <= e < r@.len() ==> child_map_contents(*c).contains_key(#[trigger] r@[e].tok)
            && child_map_contents(*c)[r@[e].tok] == r@[e].next,
        forall|a: u32| #[trigger] child_map_contents(*c).contains_key(a) ==> exists|e: int| 0 <= e < r@.len() && r@[e].tok == a,
{
    let es = c.entries();
    let ghost m = child_map_contents(*c);
    let mut r: Vec<Edge> = Vec::new();
    let mut j: usize = 0;
    while j < es.len()
        invariant
            j <= es@.len(),
            r@.len() == j,
            es@.len() == m.dom().len(),
            forall|i: int| 0 <= i < es@.len() ==> m.contains_key(#[trigger] es@[i].0) && m[es@[i].0] == es@[i].1,
            forall|i: int, k: int| 0 <= i < k < es@.len() ==> #[trigger] es@[i].0 != #[trigger] es@[k].0,
            sorted_range(r@, 0, r@.len() as int),
            forall|e: int| 0 <= e < r@.len() ==> exists|i: int| 0 <= i < j && #[trigger] r@[e].tok == es@[i].0 && r@[e].next == es@[i].1,
            forall|i: int| 0 <= i < j ==> #[trigger] has_label(r@, es@[i].0),
        decreases es@.len() - j,
    {
        let (tok, next) = es[j];
        let len_r = r.len();
        match search_edges(&r, 0, len_r, tok) {
            Ok(k) => {
                proof {
                    let i = choose|i: int| 0 <= i < j && r@[k as int].tok == es@[i].0 && r@[k as int].next == es@[i].1;
                    assert(es@[i].0 != es@[j as int].0);
                }
                return r;
            },
            Err(p) => {
                let ghost r0 = r@;
                r.insert(p, Edge { tok, next });
                proof {
                    assert forall|x: int, y: int| 0 <= x < y < r@.len() implies #[trigger] r@[x].tok < #[trigger] r@[y].tok by {
                        if y < p {
                        } else if y == p {
                        } else if x < p {
                        } else if x == p {
                            assert(r@[y] == r0[y - 1]);
                        } else {
                            assert(r@[x] == r0[x - 1]);
                            assert(r@[y] == r0[y - 1]);
                        }
                    }
                    assert forall|e: int| 0 <= e < r@.len() implies exists|i: int| 0 <= i < j + 1 && #[trigger] r@[e].tok == es@[i].0
                        && r@[e].next == es@[i].1 by {
                        if e < p {
                            assert(r@[e] == r0[e]);
                        } else if e > p {
                            assert(r@[e] == r0[e - 1]);
                        } else {
                            assert(r@[e].tok == es@[j as int].0);
                        }
                    }
                    assert forall|i: int| 0 <= i < j + 1 implies #[trigger] has_label(r@, es@[i].0) by {
                        if i == j {
                            assert(r@[p as int].tok == es@[i].0);
                        } else {
                            assert(has_label(r0, es@[i].0));
                            let e = choose|e: int| 0 <= e < r0.len() && r0[e].tok == es@[i].0;
                            if e < p {
                                assert(r@[e] == r0[e]);
                            } else {
                                assert(r@[e + 1] == r0[e]);
                            }
                        }
                    }
                }
            },
        }
        j = j + 1;
    }
    proof {
        assert forall|e: int| 0 <= e < r@.len() implies m.contains_key(#[trigger] r@[e].tok) && m[r@[e].tok] == r@[e].next by {
            let i = choose|i: int| 0 <= i < j && r@[e].tok == es@[i].0 && r@[e].next == es@[i].1;
        }
        assert forall|a: u32| #[trigger] m.contains_key(a) implies exists|e: int| 0 <= e < r@.len() && r@[e].tok == a by {
            let i = choose|i: int| 0 <= i < es@.len() && es@[i].0 == a;
            assert(has_label(r@, es@[i].0));
        }
    }
    r
}

proof fn lemma_prefix_extend(l: Seq<u32>, cur0: Seq<u32>, a: u32)
    requires
        is_prefix(l, cur0),
    ensures
        is_prefix(l, cur0.push(a)),
{
    assert(cur0.push(a).take(l.len() as int) =~= cur0.take(l.len() as int));
}

proof fn lemma_prefix_step(cur0: Seq<u32>, a: u32)
    ensures
        forall|l: Seq<u32>| #[trigger] is_prefix(l, cur0.push(a)) ==> is_prefix(l, cur0) || l == cur0.push(a),
{
    assert forall|l: Seq<u32>| #[trigger] is_prefix(l, cur0.push(a)) implies is_prefix(l, cur0) || l == cur0.push(a) by {
        if l.len() <= cur0.len() {
            assert(cur0.push(a).take(l.len() as int) =~= cur0.take(l.len() as int));
        } else {
            assert(cur0.push(a).take(l.len() as int) =~= cur0.push(a));
        }
    }
}

/// Adding node `nx` under `node` by the edge `a` keeps the construction state.
#[verifier::spinoff_prover]
#[verifier::rlimit(80)]
proof fn lemma_build_insert(
    tpl: Seq<Template>,
    ti: int,
    cm0: Seq<Map<u32, u32>>,
    cm1: Seq<Map<u32, u32>>,
    cm2: Seq<Map<u32, u32>>,
    term: Seq<i32>,
    lab0: Seq<Seq<u32>>,
    labels: Seq<Seq<u32>>,
    cur0: Seq<u32>,
    cur1: Seq<u32>,
    node: int,
    a: u32,
    nx: u32,
)
    requires
        0 <= ti < tpl.len(),
        build_inv(tpl, ti, cm0, term.drop_last(), lab0, cur0),
        term.len() == cm0.len() + 1,
        term.last() == -1,
        0 <= node < cm0.len(),
        nx == cm0.len(),
        lab0[node] == cur0,
        cur1 == cur0.push(a),
        forall|l: Seq<u32>| #[trigger] is_prefix(l, cur1) ==> is_prefix(l, cur0) || l == cur1,
        !cm0[node].contains_key(a),
        !prefix_of_some(tpl.take(ti), lab0[node].push(a)),
        cm1 == cm0.push(cm1.last()),
        cm1.last().dom() == Set::<u32>::empty(),
        sum_dom(cm1) == sum_dom(cm0) + cm1.last().dom().len(),
        labels == lab0.push(lab0[node].push(a)),
        cm2 == cm1.update(node, cm0[node].insert(a, nx)),
    ensures
        build_inv(tpl, ti, cm2, term, labels, cur1),
{
    lemma_sum_dom_update(cm1, node, cm0[node].insert(a, nx));
    assert(cm0[node].dom().finite());
    assert(cm0[node].insert(a, nx).dom() =~= cm0[node].dom().insert(a));
    assert(cm1.last().dom().len() == 0);
    assert forall|n: int| 0 <= n < cm2.len() implies (#[trigger] cm2[n]).dom().finite() by {
        if n < cm0.len() && n != node {
            assert(cm2[n] == cm0[n]);
        }
    }
    assert forall|n: int, b: u32|
        0 <= n < cm2.len() && #[trigger] cm2[n].contains_key(b) implies cm2[n][b] < cm2.len() && labels[cm2[n][b] as int]
        == labels[n].push(b) by {
        if n == node {
            if b != a {
                assert(cm0[n].contains_key(b));
            }
        } else if n < cm0.len() {
            assert(cm2[n] == cm0[n]);
        } else {
            assert(cm2[n] == cm1.last());
            assert(!cm2[n].dom().contains(b));
        }
    }
    assert forall|n: int, m: int| 0 <= n < cm2.len() && 0 <= m < cm2.len() && #[trigger] labels[n] == #[trigger] labels[m]
        implies n == m by {
        if n < cm0.len() && m < cm0.len() {
            assert(labels[n] == lab0[n] && labels[m] == lab0[m]);
        } else if n != m {
            let old = if n < cm0.len() { n } else { m };
            assert(old < cm0.len());
            assert(lab0[old] == lab0[node].push(a));
            assert(old != 0);
            assert(has_parent(cm0, lab0, old));
            let q = choose|q: int|
                0 <= q < cm0.len() && #[trigger] cm0[q].contains_key(lab0[old].last()) && cm0[q][lab0[old].last()] == old
                    && lab0[q] == lab0[old].drop_last();
            assert(lab0[node].push(a).drop_last() =~= lab0[node]);
            assert(lab0[q] == lab0[node]);
            assert(q == node);
            assert(lab0[old].last() == a);
        }
    }
    assert forall|m: int| 1 <= m < cm2.len() implies #[trigger] has_parent(cm2, labels, m) by {
        if m == nx {
            assert(labels[m].drop_last() =~= labels[node]);
            assert(labels[m].last() == a);
            assert(cm2[node].contains_key(a));
        } else {
            assert(has_parent(cm0, lab0, m));
            let q = choose|q: int|
                0 <= q < cm0.len() && #[trigger] cm0[q].contains_key(lab0[m].last()) && cm0[q][lab0[m].last()] == m
                    && lab0[q] == lab0[m].drop_last();
            if q == node {
                assert(lab0[m].last() != a);
                assert(cm2[q].contains_key(labels[m].last()));
            } else {
                assert(cm2[q] == cm0[q]);
                assert(cm2[q].contains_key(labels[m].last()));
            }
        }
    }
    assert forall|n: int| 0 <= n < cm2.len() implies #[trigger] term[n] == last_tid(tpl.take(ti), labels[n]) by {
        if n == nx {
            lemma_last_tid(tpl.take(ti), labels[n]);
            if last_tid(tpl.take(ti), labels[n]) >= 0 {
                let t = last_tid(tpl.take(ti), labels[n]);
                assert(is_prefix(labels[n], tpl.take(ti)[t].atoms@)) by {
                    assert(tpl.take(ti)[t].atoms@.take(labels[n].len() as int) =~= labels[n]);
                }
            }
        } else {
            assert(term.drop_last()[n] == term[n]);
        }
    }
    assert forall|n: int| 1 <= n < cm2.len() implies prefix_of_some(tpl.take(ti), #[trigger] labels[n]) || is_prefix(labels[n], cur1) by {
        if n == nx {
            assert(labels[n] == cur1);
            assert(cur1.take(cur1.len() as int) =~= cur1);
        } else {
            assert(labels[n] == lab0[n]);
            if is_prefix(lab0[n], cur0) {
                lemma_prefix_extend(lab0[n], cur0, a);
            }
        }
    }
    assert forall|n: int, b: u32| 0 <= n < cm2.len() && (prefix_of_some(tpl.take(ti), labels[n].push(b))
        || is_prefix(labels[n].push(b), cur1)) implies #[trigger] cm2[n].contains_key(b) by {
        if n == nx {
            if prefix_of_some(tpl.take(ti), labels[n].push(b)) {
                lemma_prefix_of_some_drop(tpl.take(ti), labels[n], b);
            } else {
                assert(labels[n].push(b).len() > cur1.len());
            }
        } else {
            assert(labels[n] == lab0[n]);
            if prefix_of_some(tpl.take(ti), labels[n].push(b)) || is_prefix(labels[n].push(b), cur0) {
                assert(cm0[n].contains_key(b));
                if n != node {
                    assert(cm2[n] == cm0[n]);
                }
            } else {
                assert(labels[n].push(b) == cur1);
                assert(labels[n] =~= labels[n].push(b).drop_last());
                assert(cur1.drop_last() =~= cur0);
                assert(labels[n] == lab0[node]);
                assert(n == node);
                assert(labels[n].push(b).last() == b);
                assert(cur1.last() == a);
            }
        }
    }
}

/// The walk only reports hits that spell a template at `pos`.
pub proof fn lemma_scan_sound(
    trie: &Trie,
    templates: Seq<Template>,
    labels: Seq<Seq<u32>>,
    s: Seq<u32>,
    pos: int,
    node: u32,
    depth: int,
    best_len: int,
    best_tid: int,
    steps: int,
)
    requires
        trie.wf(),
        trie.labelled_by(templates, labels),
        0 <= pos,
        0 <= depth,
        pos + depth <= s.len(),
        node < trie.nodes@.len(),
        labels[node as int] == s.subrange(pos, pos + depth),
        0 <= best_len <= depth,
        best_tid >= 0 ==> best_tid < templates.len() && best_len >= 1 && templates[best_tid].atoms@
            == s.subrange(pos, pos + best_len),
        best_tid < 0 ==> best_tid == -1 && best_len == 0,
        best_tid <= i32::MAX,
    ensures
        ({
            let r = trie.scan(s, pos, node, depth, best_len, best_tid, steps);
            &&& 0 <= r.0 <= s.len() - pos
            &&& r.1 >= 0 ==> r.1 < templates.len() && r.0 >= 1 && templates[r.1].atoms@ == s.subrange(
                pos,
                pos + r.0,
            )
            &&& r.1 < 0 ==> r.1 == -1 && r.0 == 0
            &&& r.2 >= steps
            &&& r.1 <= i32::MAX
        }),
    decreases s.len() - (pos + depth),
{
    if pos + depth < s.len() {
        match trie.step(node as int, s[pos + depth]) {
            None => {},
            Some(nx) => {
                let e = choose|e: int|
                    trie.edge_start(node as int) <= e < trie.edge_end(node as int) && trie.edges@[e].tok
                        == s[pos + depth];
                assert(labels[trie.edges@[e].next as int] == labels[node as int].push(trie.edges@[e].tok));
                assert(s.subrange(pos, pos + depth + 1) =~= s.subrange(pos, pos + depth).push(s[pos + depth]));
                assert(trie.edges@[e].next < trie.nodes@.len());
                let t = trie.nodes@[nx as int].term_tid;
                if t >= 0 {
                    lemma_scan_sound(trie, templates, labels, s, pos, nx, depth + 1, depth + 1, t as int, steps + 1);
                } else {
                    lemma_scan_sound(trie, templates, labels, s, pos, nx, depth + 1, best_len, best_tid, steps + 1);
                }
            },
        }
    }
}

/// What `longest` reports on a sound trie.
pub proof fn lemma_longest_sound(trie: &Trie, templates: Seq<Template>, s: Seq<u32>, pos: int)
    requires
        trie.wf(),
        trie.sound_for(templates),
        0 <= pos <= s.len(),
    ensures
        ({
            let r = trie.longest(s, pos);
            &&& 0 <= r.0 <= s.len() - pos
            &&& r.1 >= 0 ==> r.1 < templates.len() && r.0 >= 1 && templates[r.1].atoms@ == s.subrange(
                pos,
                pos + r.0,
            )
            &&& r.1 < 0 ==> r.1 == -1 && r.0 == 0
            &&& r.1 <= i32::MAX
            &&& r.2 >= 0
        }),
{
    let labels = choose|labels: Seq<Seq<u32>>| trie.labelled_by(templates, labels);
    assert(s.subrange(pos, pos) =~= Seq::<u32>::empty());
    lemma_scan_sound(trie, templates, labels, s, pos, 0, 0, 0, -1, 0);
}

/// The number of atoms over all templates, saturating at `u64::MAX`.
pub fn total_atoms_of(templates: &[Template]) -> (r: u64)
    ensures
        r as int == if total_atoms(templates@) > u64::MAX { u64::MAX as int } else { total_atoms(templates@) as int },
{
    let mut total: u64 = 0;
    let mut k: usize = 0;
    proof {
        assert(templates@.take(0) =~= Seq::<Template>::empty());
    }
    while k < templates.len()
        invariant
            k <= templates@.len(),
            total as int == if total_atoms(templates@.take(k as int)) > u64::MAX { u64::MAX as int } else {
                total_atoms(templates@.take(k as int)) as int
            },
        decreases templates@.len() - k,
    {
        proof {
            assert(templates@.take(k + 1).drop_last() =~= templates@.take(k as int));
        }
        total = total.saturating_add(templates[k].atoms.len() as u64);
        k = k + 1;
    }
    proof {
        assert(templates@.take(k as int) =~= templates@);
    }
    total
}

/// The best length found only grows along the walk.
pub proof fn lemma_scan_monotone(
    trie: &Trie,
    s: Seq<u32>,
    pos: int,
    node: u32,
    depth: int,
    best_len: int,
    best_tid: int,
    steps: int,
)
    requires
        0 <= best_len <= depth,
    ensures
        trie.scan(s, pos, node, depth, best_len, best_tid, steps).0 >= best_len,
    decreases s.len() - (pos + depth),
{
    if pos + depth < s.len() && depth >= 0 {
        match trie.step(node as int, s[pos + depth]) {
            None => {},
            Some(nx) => {
                let t = trie.nodes@[nx as int].term_tid;
                if t >= 0 {
                    lemma_scan_monotone(trie, s, pos, nx, depth + 1, depth + 1, t as int, steps + 1);
                } else {
                    lemma_scan_monotone(trie, s, pos, nx, depth + 1, best_len, best_tid, steps + 1);
                }
            },
        }
    }
}

/// On an exact trie the walk reaches every template that spells the atoms at `pos`.
pub proof fn lemma_scan_complete(
    trie: &Trie,
    templates: Seq<Template>,
    labels: Seq<Seq<u32>>,
    s: Seq<u32>,
    pos: int,
    node: u32,
    depth: int,
    best_len: int,
    best_tid: int,
    steps: int,
    t: int,
    k: int,
)
    requires
        trie.wf(),
        trie.labelled_by(templates, labels),
        trie.labels_exact(templates, labels),
        0 <= pos,
        0 <= depth < k,
        pos + k <= s.len(),
        0 <= t < templates.len(),
        templates[t].atoms@ == s.subrange(pos, pos + k),
        node < trie.nodes@.len(),
        labels[node as int] == s.subrange(pos, pos + depth),
        0 <= best_len <= depth,
    ensures
        trie.scan(s, pos, node, depth, best_len, best_tid, steps).0 >= k,
    decreases k - depth,
{
    let tok = s[pos + depth];
    let next_label = s.subrange(pos, pos + depth + 1);
    assert(next_label =~= labels[node as int].push(tok));
    assert(is_prefix(next_label, templates[t].atoms@)) by {
        assert(templates[t].atoms@.take(depth + 1) =~= next_label);
    }
    assert(prefix_of_some(templates, labels[node as int].push(tok)));
    assert(trie.step(node as int, tok) is Some);
    let nx = trie.step(node as int, tok)->Some_0;
    let e = choose|e: int| trie.edge_start(node as int) <= e < trie.edge_end(node as int) && trie.edges@[e].tok == tok;
    assert(labels[trie.edges@[e].next as int] == labels[node as int].push(trie.edges@[e].tok));
    assert(labels[nx as int] == next_label);
    let term = trie.nodes@[nx as int].term_tid;
    if depth + 1 == k {
        lemma_last_tid(templates, labels[nx as int]);
        assert(templates[t].atoms@ == labels[nx as int]);
        assert(term >= 0);
        lemma_scan_monotone(trie, s, pos, nx, depth + 1, depth + 1, term as int, steps + 1);
    } else if term >= 0 {
        lemma_scan_complete(trie, templates, labels, s, pos, nx, depth + 1, depth + 1, term as int, steps + 1, t, k);
    } else {
        lemma_scan_complete(trie, templates, labels, s, pos, nx, depth + 1, best_len, best_tid, steps + 1, t, k);
    }
}

/// On an exact trie, a template that spells the atoms at `pos` is matched there, by
/// it or by a longer one.
pub proof fn lemma_longest_complete(trie: &Trie, templates: Seq<Template>, s: Seq<u32>, pos: int, t: int)
    requires
        trie.wf(),
        trie.exact_for(templates),
        0 <= pos,
        0 <= t < templates.len(),
        1 <= templates[t].atoms@.len(),
        pos + templates[t].atoms@.len() <= s.len(),
        templates[t].atoms@ == s.subrange(pos, pos + templates[t].atoms@.len()),
    ensures
        trie.longest(s, pos).0 >= templates[t].atoms@.len(),
{
    let labels = choose|labels: Seq<Seq<u32>>| trie.labelled_by(templates, labels) && trie.labels_exact(templates, labels);
    assert(s.subrange(pos, pos) =~= Seq::<u32>::empty());
    lemma_scan_complete(trie, templates, labels, s, pos, 0, 0, 0, -1, 0, t, templates[t].atoms@.len() as int);
}

/// The depth of the longest run `s[pos..pos + d]` that is a template prefix, going on from `depth`.
pub open spec fn prefix_run(templates: Seq<Template>, s: Seq<u32>, pos: int, depth: int) -> int
    decreases s.len() - (pos + depth),
{
    if 0 <= pos && 0 <= depth && pos + depth < s.len() && prefix_of_some(templates, s.subrange(pos, pos + depth + 1)) {
        prefix_run(templates, s, pos, depth + 1)
    } else {
        depth
    }
}

/// On an exact trie the walk makes one lookup per atom of the longest template-prefix
/// run, plus one for the miss when the stream goes on.
pub proof fn lemma_scan_steps(
    trie: &Trie,
    templates: Seq<Template>,
    labels: Seq<Seq<u32>>,
    s: Seq<u32>,
    pos: int,
    node: u32,
    depth: int,
    best_len: int,
    best_tid: int,
    steps: int,
)
    requires
        trie.wf(),
        trie.labelled_by(templates, labels),
        trie.labels_exact(templates, labels),
        0 <= pos,
        0 <= depth,
        pos + depth <= s.len(),
        node < trie.nodes@.len(),
        labels[node as int] == s.subrange(pos, pos + depth),
    ensures
        ({
            let d = prefix_run(templates, s, pos, depth);
            trie.scan(s, pos, node, depth, best_len, best_tid, steps).2 == steps + (d - depth) + if pos + d < s.len() {
                1int
            } else {
                0int
            }
        }),
    decreases s.len() - (pos + depth),
{
    if pos + depth < s.len() {
        let tok = s[pos + depth];
        assert(s.subrange(pos, pos + depth + 1) =~= labels[node as int].push(tok));
        match trie.step(node as int, tok) {
            None => {},
            Some(nx) => {
                let e = choose|e: int| trie.edge_start(node as int) <= e < trie.edge_end(node as int) && trie.edges@[e].tok == tok;
                assert(labels[trie.edges@[e].next as int] == labels[node as int].push(trie.edges@[e].tok));
                assert(labels[nx as int] == s.subrange(pos, pos + depth + 1));
                if nx == 0 {
                    assert(labels[0].len() == 0);
                }
                assert(prefix_of_some(templates, labels[nx as int]));
                let t = trie.nodes@[nx as int].term_tid;
                if t >= 0 {
                    lemma_scan_steps(trie, templates, labels, s, pos, nx, depth + 1, depth + 1, t as int, steps + 1);
                } else {
                    lemma_scan_steps(trie, templates, labels, s, pos, nx, depth + 1, best_len, best_tid, steps + 1);
                }
            },
        }
    }
}

/// The lookup count of `match_longest` on an exact trie.
pub proof fn lemma_longest_steps(trie: &Trie, templates: Seq<Template>, s: Seq<u32>, pos: int)
    requires
        trie.wf(),
        trie.exact_for(templates),
        0 <= pos <= s.len(),
    ensures
        ({
            let d = prefix_run(templates, s, pos, 0);
            trie.longest(s, pos).2 == d + if pos + d < s.len() { 1int } else { 0int }
        }),
{
    let labels = choose|labels: Seq<Seq<u32>>| trie.labelled_by(templates, labels) && trie.labels_exact(templates, labels);
    assert(s.subrange(pos, pos) =~= Seq::<u32>::empty());
    lemma_scan_steps(trie, templates, labels, s, pos, 0, 0, 0, -1, 0);
}

/// Position of the edge labelled `tok` in `es[lo..hi]`, or where it would be inserted.
fn search_edges(es: &Vec<Edge>, lo: usize, hi: usize, tok: AtomId) -> (r: Result<usize, usize>)
    requires
        lo <= hi <= es@.len(),
        sorted_range(es@, lo as int, hi as int),
    ensures
        r matches Ok(k) ==> lo <= k < hi && es@[k as int].tok == tok,
        r matches Err(p) ==> lo <= p <= hi && (forall|k: int| lo <= k < p ==> es@[k].tok < tok) && (
        forall|k: int| p <= k < hi ==> es@[k].tok > tok),
{
    let mut a = lo;
    let mut b = hi;
    while a < b
        invariant
            lo <= a <= b <= hi <= es@.len(),
            sorted_range(es@, lo as int, hi as int),
            forall|k: int| lo <= k < a ==> es@[k].tok < tok,
            forall|k: int| b <= k < hi ==> es@[k].tok > tok,
        decreases b - a,
    {
        let mid = a + (b - a) / 2;
        let m = es[mid].tok;
        if m == tok {
            return Ok(mid);
        } else if m < tok {
            a = mid + 1;
        } else {
            b = mid;
        }
    }
    Err(a)
}

} // verus!
