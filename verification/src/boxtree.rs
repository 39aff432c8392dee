//! Which elements have to have their boxes made again.

use rustc_hash::{FxBuildHasher, FxHashSet};
use vstd::prelude::*;

verus! {

/// How many *containers* are worth splicing one at a time.
///
/// Past this the marks are no longer a local change: every splice pays for its own confinement
/// test, and building the whole tree once is both simpler and cheaper. The number is a threshold
/// and not a boundary of correctness — either path is correct at any count.
///
/// Counted over the collapsed, outermost containers rather than over the raw marks, because that
/// is what the splices scale with: a virtualised list crossing a dozen row boundaries in one fast
/// frame marks hundreds of elements, and every one of them collapses to the list's own pane — one
/// container, one child-by-child splice, however many rows arrived.
pub const MOST: usize = 64;

/// How many raw marks are worth collapsing at all.
///
/// The collapse itself is a hash insert per mark, so it is cheap — but a frame that marked half
/// the document is not a local change whatever it collapses to, and the whole-tree build answers
/// it without the collection pass.
pub const RAW_MOST: usize = 4096;

/// The hash a set of nodes is kept by: deterministic, and the same for the same number.
#[verifier::external_type_specification]
#[verifier::external_body]
pub struct ExFxBuildHasher(FxBuildHasher);

/// What a node of a document is.
#[derive(Clone, Copy, Debug, PartialEq, Eq, Structural)]
pub enum NodeKind {
    /// The document itself.
    Document,
    /// An element.
    Element,
    /// A run of characters.
    Text,
}

/// One node of a document.
#[derive(Clone, Copy, Debug, PartialEq, Eq, Structural)]
pub struct Node {
    /// What it hangs under.
    pub parent: Option<usize>,
    /// What it is.
    pub kind: NodeKind,
}

/// A document: its nodes, by their index.
#[derive(Clone, Debug)]
pub struct Document {
    /// The nodes.
    pub nodes: Vec<Node>,
}

/// What a document owes its box tree.
#[derive(Clone, Debug)]
pub struct Owed {
    /// The elements whose own boxes changed.
    pub rebuilt: Vec<usize>,
    /// The elements whose child list changed.
    pub children: Vec<usize>,
}

/// Why a set of obligations could not be cut into containers to splice.
#[derive(Clone, Copy, Debug, PartialEq, Eq, Structural)]
pub enum Unspliceable {
    /// Nothing was owed at all.
    Nothing,
    /// More elements were marked than are worth splicing one at a time.
    TooMany(usize),
    /// An element whose boxes changed has no parent to rebuild.
    Rootless(usize),
    /// An element whose boxes changed hangs under something that is not an element.
    ///
    /// A container is what wraps, orders and blockifies its children, and only an element is one.
    NotUnderAnElement(usize),
    /// Something that is not an element had its child list change.
    NotAnElement(usize),
}

impl Document {
    /// What a node hangs under.
    pub open spec fn parent(self, node: usize) -> Option<usize> {
        self.nodes@[node as int].parent
    }

    /// The node `n` levels above another.
    pub open spec fn above(self, node: usize, n: nat) -> Option<usize>
        decreases n,
    {
        if n == 0 {
            Some(node)
        } else {
            match self.above(node, (n - 1) as nat) {
                Some(below) => self.parent(below),
                None => None,
            }
        }
    }

    /// Whether every parent is a node, of a lower `rank`.
    pub open spec fn ranked(self, rank: spec_fn(usize) -> nat) -> bool {
        forall|node: usize|
            node < self.nodes@.len() ==> (#[trigger] self.parent(node) matches Some(parent)
                ==> parent < self.nodes@.len() && rank(parent) < rank(node))
    }

    /// Whether it is a forest: no node is its own ancestor.
    pub open spec fn wf(self) -> bool {
        exists|rank: spec_fn(usize) -> nat| self.ranked(rank)
    }

    /// Whether a node is another or below it.
    pub open spec fn within(self, node: usize, ancestor: usize) -> bool {
        exists|n: nat| #[trigger] self.above(node, n) == Some(ancestor)
    }

    /// Whether a node is below another.
    pub open spec fn under(self, node: usize, ancestor: usize) -> bool {
        exists|n: nat| n > 0 && #[trigger] self.above(node, n) == Some(ancestor)
    }

    /// Whether some ancestor of a node is in a set.
    pub open spec fn under_any(self, node: usize, set: Set<usize>) -> bool {
        exists|ancestor: usize| set.contains(ancestor) && #[trigger] self.under(node, ancestor)
    }

    /// How far from the top a node may be taken to be.
    spec fn rank(self) -> spec_fn(usize) -> nat {
        choose|rank: spec_fn(usize) -> nat| self.ranked(rank)
    }

    proof fn lemma_above_is_a_node(self, node: usize, n: nat)
        requires
            self.wf(),
            node < self.nodes@.len(),
        ensures
            self.above(node, n) matches Some(above) ==> above < self.nodes@.len() && self.rank()(
                above,
            ) + n <= self.rank()(node),
        decreases n,
    {
        if n > 0 {
            self.lemma_above_is_a_node(node, (n - 1) as nat);
            if let Some(below) = self.above(node, (n - 1) as nat) {
                assert(self.ranked(self.rank()));
                assert(self.parent(below) matches Some(parent) ==> self.rank()(parent)
                    < self.rank()(below));
            }
        }
    }

    proof fn lemma_one_up(self, node: usize)
        requires
            self.wf(),
            node < self.nodes@.len(),
        ensures
            self.parent(node) matches Some(parent) ==> parent < self.nodes@.len() && self.rank()(
                parent,
            ) < self.rank()(node),
    {
        assert(self.ranked(self.rank()));
    }

    proof fn lemma_nothing_above(self, node: usize, m: nat, n: nat)
        requires
            m <= n,
            self.above(node, m) is None,
        ensures
            self.above(node, n) is None,
        decreases n,
    {
        if m < n {
            self.lemma_nothing_above(node, m, (n - 1) as nat);
        }
    }

    proof fn lemma_above_in_two(self, node: usize, m: nat, n: nat)
        requires
            self.above(node, m) is Some,
        ensures
            self.above(node, m + n) == self.above(self.above(node, m)->0, n),
        decreases n,
    {
        if n > 0 {
            self.lemma_above_in_two(node, m, (n - 1) as nat);
        }
    }

    proof fn lemma_above_only_once(self, node: usize, m: nat, n: nat)
        requires
            self.wf(),
            node < self.nodes@.len(),
            self.above(node, m) is Some,
            self.above(node, m) == self.above(node, n),
        ensures
            m == n,
    {
        if m < n {
            self.lemma_above_in_two(node, m, (n - m) as nat);
            self.lemma_above_is_a_node(node, m);
            self.lemma_above_is_a_node(self.above(node, m)->0, (n - m) as nat);
        } else if n < m {
            self.lemma_above_in_two(node, n, (m - n) as nat);
            self.lemma_above_is_a_node(node, n);
            self.lemma_above_is_a_node(self.above(node, n)->0, (m - n) as nat);
        }
    }
}

/// Whether `node` is `ancestor` or is below it.
pub fn is_at_or_below(document: &Document, node: usize, ancestor: usize) -> (r: bool)
    requires
        document.wf(),
        node < document.nodes@.len(),
    ensures
        r == document.within(node, ancestor),
{
    let ghost mut steps: nat = 0;
    let mut current: usize = node;
    loop
        invariant
            document.wf(),
            node < document.nodes@.len(),
            current < document.nodes@.len(),
            document.above(node, steps) == Some(current),
            forall|n: nat| n < steps ==> #[trigger] document.above(node, n) != Some(ancestor),
        decreases document.rank()(current),
    {
        if current == ancestor {
            return true;
        }
        proof {
            document.lemma_one_up(current);
        }
        match document.nodes[current].parent {
            Some(parent) => {
                proof {
                    assert(document.above(node, steps + 1) == Some(parent));
                    steps = steps + 1;
                }
                current = parent;
            },
            None => {
                proof {
                    assert(document.above(node, steps + 1) is None);
                    assert forall|n: nat| #[trigger] document.above(node, n) != Some(
                        ancestor,
                    ) by {
                        if n > steps {
                            document.lemma_nothing_above(node, steps + 1, n);
                        }
                    }
                }
                return false;
            },
        }
    }
}

/// Calls `FxHashSet::default`, which makes a set with nothing in it.
#[verifier::external_body]
fn fresh() -> (r: FxHashSet<usize>)
    ensures
        r@ == Set::<usize>::empty(),
{
    FxHashSet::default()
}

/// Calls `FxHashSet::insert`, after which the set holds the node besides what it held.
#[verifier::external_body]
fn insert(set: &mut FxHashSet<usize>, node: usize)
    ensures
        final(set)@ == old(set)@.insert(node),
{
    set.insert(node);
}

/// Calls `FxHashSet::contains`, which answers whether the set holds the node.
#[verifier::external_body]
fn contains(set: &FxHashSet<usize>, node: usize) -> (r: bool)
    ensures
        r == set@.contains(node),
{
    set.contains(&node)
}

/// Whether a list holds what a set does, each once.
pub open spec fn lists(list: Seq<usize>, set: Set<usize>) -> bool {
    &&& list.no_duplicates()
    &&& forall|node: usize| #[trigger] list.contains(node) <==> set.contains(node)
}

/// Calls `FxHashSet::iter`, which hands out what the set holds, each once: in which order is left
/// unsaid.
#[verifier::external_body]
fn listed(set: &FxHashSet<usize>) -> (r: Vec<usize>)
    ensures
        lists(r@, set@),
{
    set.iter().copied().collect()
}

/// Whether any ancestor of `node` is in `set`.
fn has_ancestor_in(document: &Document, node: usize, set: &FxHashSet<usize>) -> (r: bool)
    requires
        document.wf(),
        node < document.nodes@.len(),
    ensures
        r == document.under_any(node, set@),
{
    let ghost mut steps: nat = 0;
    let mut current: usize = node;
    loop
        invariant
            document.wf(),
            node < document.nodes@.len(),
            current < document.nodes@.len(),
            document.above(node, steps) == Some(current),
            forall|n: nat|
                0 < n <= steps ==> (#[trigger] document.above(node, n) matches Some(ancestor)
                    ==> !set@.contains(ancestor)),
        decreases document.rank()(current),
    {
        proof {
            document.lemma_one_up(current);
            assert(document.above(node, steps + 1) == document.parent(current));
        }
        match document.nodes[current].parent {
            Some(parent) => {
                if contains(set, parent) {
                    assert(document.under(node, parent));
                    return true;
                }
                proof {
                    steps = steps + 1;
                }
                current = parent;
            },
            None => {
                proof {
                    assert forall|ancestor: usize| set@.contains(ancestor) implies !(
                    #[trigger] document.under(node, ancestor)) by {
                        assert forall|n: nat| n > 0 implies #[trigger] document.above(node, n)
                            != Some(ancestor) by {
                            if n > steps {
                                document.lemma_nothing_above(node, steps + 1, n);
                            }
                        }
                    }
                }
                return false;
            },
        }
    }
}

impl Owed {
    /// Whether everything marked is a node of the document.
    pub open spec fn of(self, document: Document) -> bool {
        &&& forall|i: int|
            0 <= i < self.rebuilt@.len() ==> (#[trigger] self.rebuilt@[i]) < document.nodes@.len()
        &&& forall|i: int|
            0 <= i < self.children@.len() ==> (#[trigger] self.children@[i])
                < document.nodes@.len()
    }

    /// How many marks there are.
    pub open spec fn marks(self) -> nat {
        self.rebuilt@.len() + self.children@.len()
    }

    /// What stops an element whose own boxes changed from being serviced.
    pub open spec fn rebuilt_stopped(self, document: Document, i: int) -> Option<Unspliceable> {
        let node = self.rebuilt@[i];
        match document.parent(node) {
            None => Some(Unspliceable::Rootless(node)),
            Some(parent) => if document.nodes@[parent as int].kind != NodeKind::Element {
                Some(Unspliceable::NotUnderAnElement(node))
            } else {
                None
            },
        }
    }

    /// What stops an element whose child list changed from being serviced.
    pub open spec fn children_stopped(self, document: Document, i: int) -> Option<Unspliceable> {
        let node = self.children@[i];
        if document.nodes@[node as int].kind != NodeKind::Element {
            Some(Unspliceable::NotAnElement(node))
        } else {
            None
        }
    }

    /// The first thing that stops one of the first `m` rebuilt elements or of the first `n` with
    /// another child list from being serviced.
    pub open spec fn stopped(self, document: Document, m: nat, n: nat) -> Option<Unspliceable>
        decreases m + n,
    {
        if n > 0 {
            match self.stopped(document, m, (n - 1) as nat) {
                Some(refused) => Some(refused),
                None => self.children_stopped(document, n - 1),
            }
        } else if m > 0 {
            match self.stopped(document, (m - 1) as nat, 0) {
                Some(refused) => Some(refused),
                None => self.rebuilt_stopped(document, m - 1),
            }
        } else {
            None
        }
    }

    /// The containers the first `m` rebuilt elements and the first `n` with another child list are
    /// serviced by.
    pub open spec fn serviced(self, document: Document, m: nat, n: nat) -> Set<usize>
        decreases m + n,
    {
        if n > 0 {
            self.serviced(document, m, (n - 1) as nat).insert(self.children@[n - 1])
        } else if m > 0 {
            self.serviced(document, (m - 1) as nat, 0).insert(
                document.parent(self.rebuilt@[m - 1])->0,
            )
        } else {
            Set::empty()
        }
    }

    /// The containers everything marked is serviced by.
    pub open spec fn all_serviced(self, document: Document) -> Set<usize> {
        self.serviced(document, self.rebuilt@.len(), self.children@.len())
    }

    /// Those of them that lie in no other.
    pub open spec fn outermost(self, document: Document) -> Set<usize> {
        let all = self.all_serviced(document);
        Set::new(|node: usize| all.contains(node) && !document.under_any(node, all))
    }

    /// Whether nothing stops what is marked from being serviced, one by one.
    pub open spec fn local(self, document: Document) -> bool {
        &&& 0 < self.marks() <= RAW_MOST
        &&& self.stopped(document, self.rebuilt@.len(), self.children@.len()) is None
    }

    /// Whether `r` is the answer to which containers are spliced.
    pub open spec fn answered(
        self,
        document: Document,
        r: Result<Seq<usize>, Unspliceable>,
    ) -> bool {
        let first = self.stopped(document, self.rebuilt@.len(), self.children@.len());
        if self.marks() == 0 {
            r == Err::<Seq<usize>, Unspliceable>(Unspliceable::Nothing)
        } else if self.marks() > RAW_MOST {
            r == Err::<Seq<usize>, Unspliceable>(Unspliceable::TooMany(self.marks() as usize))
        } else if let Some(refused) = first {
            r == Err::<Seq<usize>, Unspliceable>(refused)
        } else {
            match r {
                Ok(list) => lists(list, self.outermost(document)) && list.len() <= MOST,
                Err(refused) => exists|list: Seq<usize>| #[trigger]
                    lists(list, self.outermost(document)) && list.len() > MOST && refused
                        == Unspliceable::TooMany(list.len() as usize),
            }
        }
    }

    proof fn lemma_stays_stopped(self, document: Document, m: nat, n: nat, p: nat, q: nat)
        requires
            m <= p,
            n <= q,
            n > 0 ==> m == p,
            self.stopped(document, m, n) is Some,
        ensures
            self.stopped(document, p, q) == self.stopped(document, m, n),
        decreases p + q,
    {
        if n < q {
            self.lemma_stays_stopped(document, m, n, p, (q - 1) as nat);
        } else if n == 0 && m < p {
            self.lemma_stays_stopped(document, m, n, (p - 1) as nat, 0);
        }
    }

    proof fn lemma_serviced_are_nodes(self, document: Document, m: nat, n: nat, node: usize)
        requires
            document.wf(),
            self.of(document),
            m <= self.rebuilt@.len(),
            n <= self.children@.len(),
            self.stopped(document, m, n) is None,
            self.serviced(document, m, n).contains(node),
        ensures
            node < document.nodes@.len(),
            document.nodes@[node as int].kind == NodeKind::Element,
        decreases m + n,
    {
        if n > 0 {
            assert(self.children@[n - 1] < document.nodes@.len());
            if node != self.children@[n - 1] {
                self.lemma_serviced_are_nodes(document, m, (n - 1) as nat, node);
            }
        } else if m > 0 {
            let marked = self.rebuilt@[m - 1];
            assert(marked < document.nodes@.len());
            document.lemma_one_up(marked);
            if Some(node) != document.parent(marked) {
                self.lemma_serviced_are_nodes(document, (m - 1) as nat, 0, node);
            }
        }
    }
}

/// Which elements are rebuilt to service `owed`, outermost only, or which condition stopped it.
pub fn why(document: &Document, owed: &Owed) -> (r: Result<Vec<usize>, Unspliceable>)
    requires
        document.wf(),
        owed.of(*document),
        owed.marks() <= usize::MAX,
    ensures
        owed.answered(
            *document,
            match r {
                Ok(list) => Ok(list@),
                Err(refused) => Err(refused),
            },
        ),
{
    let marks: usize = owed.rebuilt.len() + owed.children.len();
    if marks == 0 {
        return Err(Unspliceable::Nothing);
    }
    // The raw marks, capped before the collapse pass runs at all: a frame that marked half the
    // document is not a local change whatever it collapses to.
    if marks > RAW_MOST {
        return Err(Unspliceable::TooMany(marks));
    }
    let ghost m = owed.rebuilt@.len();
    let ghost n = owed.children@.len();
    let mut set = fresh();
    let mut i: usize = 0;
    while i < owed.rebuilt.len()
        invariant
            i <= owed.rebuilt@.len(),
            m == owed.rebuilt@.len(),
            n == owed.children@.len(),
            document.wf(),
            owed.of(*document),
            0 < owed.marks() <= RAW_MOST,
            owed.stopped(*document, i as nat, 0) is None,
            set@ == owed.serviced(*document, i as nat, 0),
        decreases owed.rebuilt@.len() - i,
    {
        let node: usize = owed.rebuilt[i];
        assert(owed.rebuilt@[i as int] < document.nodes@.len());
        proof {
            document.lemma_one_up(node);
        }
        match document.nodes[node].parent {
            Some(parent) => {
                if document.nodes[parent].kind != NodeKind::Element {
                    proof {
                        assert(owed.stopped(*document, (i + 1) as nat, 0) is Some);
                        owed.lemma_stays_stopped(*document, (i + 1) as nat, 0, m, n);
                    }
                    return Err(Unspliceable::NotUnderAnElement(node));
                }
                insert(&mut set, parent);
            },
            None => {
                proof {
                    assert(owed.stopped(*document, (i + 1) as nat, 0) is Some);
                    owed.lemma_stays_stopped(*document, (i + 1) as nat, 0, m, n);
                }
                return Err(Unspliceable::Rootless(node));
            },
        }
        i += 1;
    }
    let mut i: usize = 0;
    while i < owed.children.len()
        invariant
            i <= owed.children@.len(),
            m == owed.rebuilt@.len(),
            n == owed.children@.len(),
            document.wf(),
            owed.of(*document),
            0 < owed.marks() <= RAW_MOST,
            owed.stopped(*document, m, i as nat) is None,
            set@ == owed.serviced(*document, m, i as nat),
        decreases owed.children@.len() - i,
    {
        let node: usize = owed.children[i];
        assert(owed.children@[i as int] < document.nodes@.len());
        if document.nodes[node].kind != NodeKind::Element {
            proof {
                assert(owed.stopped(*document, m, (i + 1) as nat) is Some);
                owed.lemma_stays_stopped(*document, m, (i + 1) as nat, m, n);
            }
            return Err(Unspliceable::NotAnElement(node));
        }
        insert(&mut set, node);
        i += 1;
    }
    let all = listed(&set);
    let mut outermost: Vec<usize> = Vec::new();
    let mut i: usize = 0;
    while i < all.len()
        invariant
            i <= all@.len(),
            m == owed.rebuilt@.len(),
            n == owed.children@.len(),
            document.wf(),
            owed.of(*document),
            owed.stopped(*document, m, n) is None,
            set@ == owed.all_serviced(*document),
            lists(all@, set@),
            outermost@.no_duplicates(),
            forall|node: usize| #[trigger]
                outermost@.contains(node) <==> all@.take(i as int).contains(node)
                    && !document.under_any(node, set@),
        decreases all@.len() - i,
    {
        let node: usize = all[i];
        proof {
            assert(all@.contains(node));
            owed.lemma_serviced_are_nodes(*document, m, n, node);
            assert(all@.take(i + 1) == all@.take(i as int).push(node));
            assert(!all@.take(i as int).contains(node)) by {
                if all@.take(i as int).contains(node) {
                    let j = choose|j: int| 0 <= j < i && all@.take(i as int)[j] == node;
                    assert(all@[j] == all@[i as int]);
                }
            }
        }
        let ghost before = outermost@;
        let ghost seen = all@.take(i as int);
        if !has_ancestor_in(document, node, &set) {
            outermost.push(node);
            proof {
                assert(!before.contains(node));
                lemma_pushed(before, node);
            }
        }
        proof {
            lemma_pushed(seen, node);
        }
        i += 1;
    }
    proof {
        assert(all@.take(all@.len() as int) == all@);
        assert(lists(outermost@, owed.outermost(*document)));
    }
    // And the collapsed containers, which is what the splices actually scale with.
    if outermost.len() > MOST {
        return Err(Unspliceable::TooMany(outermost.len()));
    }
    Ok(outermost)
}

proof fn lemma_pushed(list: Seq<usize>, node: usize)
    ensures
        forall|other: usize| #[trigger]
            list.push(node).contains(other) <==> list.contains(other) || other == node,
        list.no_duplicates() && !list.contains(node) ==> list.push(node).no_duplicates(),
{
    let longer = list.push(node);
    assert forall|other: usize| #[trigger] longer.contains(other) <==> list.contains(other) || other
        == node by {
        if list.contains(other) {
            let i = choose|i: int| 0 <= i < list.len() && list[i] == other;
            assert(longer[i] == other);
        }
        if other == node {
            assert(longer[list.len() as int] == other);
        }
    }
}

/// The elements whose boxes are rebuilt to service `owed`, outermost only.
///
/// An element whose **own boxes** changed is serviced by rebuilding its *container*, not itself.
/// Which boxes a child generates is decided by the child, but how they are wrapped into anonymous
/// inline boxes, what order they are laid out in and whether they are blockified are all decided by
/// the container — so a child whose `display` moved re-wraps siblings that carry no mark at all.
///
/// An element whose **child list** changed is already the container, and is serviced by rebuilding
/// itself. Going up another level from there would rebuild a whole page to service one inserted
/// row.
///
/// A container that is inside another container in the same set is dropped: rebuilding the outer
/// one makes the inner one's boxes again anyway, and splicing the inner one afterwards would splice
/// it into a tree that no longer holds the box it was measured against.
///
/// `None` when the change is not local — when something marked has no container with boxes of its
/// own, which the root element is, or when there are more marks than a splice-by-splice pass is
/// worth.
pub fn containers(document: &Document, owed: &Owed) -> (r: Option<Vec<usize>>)
    requires
        document.wf(),
        owed.of(*document),
        owed.marks() <= usize::MAX,
    ensures
        match r {
            Some(list) => owed.answered(*document, Ok(list@)),
            None => exists|refused: Unspliceable| #[trigger]
                owed.answered(*document, Err(refused)),
        },
{
    match why(document, owed) {
        Ok(containers) => Some(containers),
        Err(refused) => {
            assert(owed.answered(*document, Err(refused)));
            None
        },
    }
}

/// Whether `container`'s own child list is among what it owes.
///
/// The question a child-by-child splice can be asked at all. A container reached only through
/// [`Owed::rebuilt`] is the container of a child whose own boxes changed and nothing else has moved
/// in it, which is what a whole-subtree splice already services in one pass; a container that
/// gained or lost a child is where rebuilding it means rebuilding every child it kept.
pub fn gained_or_lost_a_child(owed: &Owed, container: usize) -> (r: bool)
    ensures
        r == owed.children@.contains(container),
{
    let mut i: usize = 0;
    while i < owed.children.len()
        invariant
            i <= owed.children@.len(),
            forall|j: int| 0 <= j < i ==> owed.children@[j] != container,
        decreases owed.children@.len() - i,
    {
        if owed.children[i] == container {
            assert(owed.children@[i as int] == container);
            return true;
        }
        i += 1;
    }
    false
}

/// Whether a node is a child of `container` at or above `marked`.
pub open spec fn child_towards(
    document: Document,
    marked: usize,
    container: usize,
    child: usize,
) -> bool {
    child < document.nodes@.len() && document.parent(child) == Some(container) && document.within(
        marked,
        child,
    )
}

/// Whether some of the first `m` rebuilt elements or the first `n` with another child list lies at
/// or below a child of `container`.
pub open spec fn stale(
    document: Document,
    owed: Owed,
    container: usize,
    m: int,
    n: int,
    child: usize,
) -> bool {
    ||| exists|i: int|
        0 <= i < m && #[trigger] child_towards(document, owed.rebuilt@[i], container, child)
    ||| exists|i: int|
        0 <= i < n && #[trigger] child_towards(document, owed.children@[i], container, child)
}

/// The child of `container` a node lies at or below, if it lies below it.
fn towards(document: &Document, marked: usize, container: usize) -> (r: Option<usize>)
    requires
        document.wf(),
        marked < document.nodes@.len(),
    ensures
        forall|child: usize| #[trigger]
            child_towards(*document, marked, container, child) <==> r == Some(child),
{
    let ghost mut steps: nat = 0;
    let mut below: usize = marked;
    loop
        invariant
            document.wf(),
            marked < document.nodes@.len(),
            below < document.nodes@.len(),
            document.above(marked, steps) == Some(below),
            forall|n: nat|
                0 < n <= steps ==> #[trigger] document.above(marked, n) != Some(container),
        decreases document.rank()(below),
    {
        proof {
            document.lemma_one_up(below);
            assert(document.above(marked, steps + 1) == document.parent(below));
        }
        match document.nodes[below].parent {
            Some(parent) => {
                if parent == container {
                    proof {
                        assert(child_towards(*document, marked, container, below));
                        assert forall|child: usize| #[trigger]
                            child_towards(*document, marked, container, child) implies child
                            == below by {
                            let n = choose|n: nat| #[trigger]
                                document.above(marked, n) == Some(child);
                            assert(document.above(marked, n + 1) == Some(container));
                            document.lemma_above_only_once(marked, n + 1, steps + 1);
                        }
                    }
                    return Some(below);
                }
                proof {
                    steps = steps + 1;
                }
                below = parent;
            },
            None => {
                proof {
                    assert forall|child: usize| !(#[trigger] child_towards(
                        *document,
                        marked,
                        container,
                        child,
                    )) by {
                        if child_towards(*document, marked, container, child) {
                            let n = choose|n: nat| #[trigger]
                                document.above(marked, n) == Some(child);
                            assert(document.above(marked, n + 1) == Some(container));
                            if n + 1 > steps {
                                document.lemma_nothing_above(marked, steps + 1, n + 1);
                            }
                        }
                    }
                }
                return None;
            },
        }
    }
}

/// The children of `container` whose own subtrees hold something that owes a rebuild.
///
/// An obligation marked below one of them is serviced by making that child's boxes again, so a splice
/// that kept the child would leave the obligation unserviced — and it has already been retired, so
/// nothing would ever report it again. `container`'s own marks are not in the answer: they are what
/// the splice itself services.
pub fn stale_children(document: &Document, owed: &Owed, container: usize) -> (r: FxHashSet<usize>)
    requires
        document.wf(),
        owed.of(*document),
    ensures
        forall|child: usize| #[trigger]
            r@.contains(child) <==> stale(
                *document,
                *owed,
                container,
                owed.rebuilt@.len() as int,
                owed.children@.len() as int,
                child,
            ),
{
    let mut set = fresh();
    let mut i: usize = 0;
    while i < owed.rebuilt.len()
        invariant
            i <= owed.rebuilt@.len(),
            document.wf(),
            owed.of(*document),
            forall|child: usize| #[trigger]
                set@.contains(child) <==> stale(*document, *owed, container, i as int, 0, child),
        decreases owed.rebuilt@.len() - i,
    {
        assert(owed.rebuilt@[i as int] < document.nodes@.len());
        let found = towards(document, owed.rebuilt[i], container);
        let ghost before = set@;
        if let Some(child) = found {
            insert(&mut set, child);
        }
        proof {
            assert forall|child: usize| #[trigger] set@.contains(child) <==> stale(
                *document,
                *owed,
                container,
                i + 1,
                0,
                child,
            ) by {
                assert(before.contains(child) <==> stale(
                    *document,
                    *owed,
                    container,
                    i as int,
                    0,
                    child,
                ));
                assert(child_towards(*document, owed.rebuilt@[i as int], container, child)
                    <==> found == Some(child));
            }
        }
        i += 1;
    }
    let ghost m = owed.rebuilt@.len() as int;
    let mut i: usize = 0;
    while i < owed.children.len()
        invariant
            i <= owed.children@.len(),
            m == owed.rebuilt@.len(),
            document.wf(),
            owed.of(*document),
            forall|child: usize| #[trigger]
                set@.contains(child) <==> stale(*document, *owed, container, m, i as int, child),
        decreases owed.children@.len() - i,
    {
        assert(owed.children@[i as int] < document.nodes@.len());
        let found = towards(document, owed.children[i], container);
        let ghost before = set@;
        if let Some(child) = found {
            insert(&mut set, child);
        }
        proof {
            assert forall|child: usize| #[trigger] set@.contains(child) <==> stale(
                *document,
                *owed,
                container,
                m,
                i + 1,
                child,
            ) by {
                assert(before.contains(child) <==> stale(
                    *document,
                    *owed,
                    container,
                    m,
                    i as int,
                    child,
                ));
                assert(child_towards(*document, owed.children@[i as int], container, child)
                    <==> found == Some(child));
            }
        }
        i += 1;
    }
    set
}

/// No container spliced lies inside another: each is spliced into a tree that still holds the box
/// it was measured against.
pub proof fn no_container_lies_inside_another(
    document: Document,
    owed: Owed,
    list: Seq<usize>,
    a: usize,
    b: usize,
)
    requires
        owed.local(document),
        owed.answered(document, Ok(list)),
        list.contains(a),
        list.contains(b),
    ensures
        !document.under(a, b),
{
    assert(owed.outermost(document).contains(a));
    assert(owed.outermost(document).contains(b));
}

/// Everything marked is serviced: the container of each element whose own boxes changed, and each
/// element whose child list changed, is one of the containers spliced or lies below one.
pub proof fn every_mark_is_serviced(
    document: Document,
    owed: Owed,
    list: Seq<usize>,
    node: usize,
)
    requires
        document.wf(),
        owed.of(document),
        owed.local(document),
        owed.answered(document, Ok(list)),
        (exists|i: int|
            0 <= i < owed.rebuilt@.len() && document.parent(#[trigger] owed.rebuilt@[i]) == Some(
                node,
            )) || owed.children@.contains(node),
    ensures
        exists|container: usize|
            list.contains(container) && #[trigger] document.within(node, container),
{
    let m = owed.rebuilt@.len();
    let n = owed.children@.len();
    if owed.children@.contains(node) {
        let i = choose|i: int| 0 <= i < n && owed.children@[i] == node;
        owed.lemma_child_is_serviced(document, m, n, i);
    } else {
        let i = choose|i: int|
            0 <= i < m && document.parent(#[trigger] owed.rebuilt@[i]) == Some(node);
        owed.lemma_rebuilt_is_serviced(document, m, n, i);
    }
    lemma_lies_in_an_outermost(document, owed, node);
    let container = choose|container: usize|
        owed.outermost(document).contains(container) && #[trigger] document.within(node, container);
    assert(list.contains(container));
}

impl Owed {
    proof fn lemma_child_is_serviced(self, document: Document, m: nat, n: nat, i: int)
        requires
            0 <= i < n <= self.children@.len(),
        ensures
            self.serviced(document, m, n).contains(self.children@[i]),
        decreases n,
    {
        if i < n - 1 {
            self.lemma_child_is_serviced(document, m, (n - 1) as nat, i);
        }
    }

    proof fn lemma_rebuilt_is_serviced(self, document: Document, m: nat, n: nat, i: int)
        requires
            0 <= i < m <= self.rebuilt@.len(),
            document.parent(self.rebuilt@[i]) is Some,
        ensures
            self.serviced(document, m, n).contains(document.parent(self.rebuilt@[i])->0),
        decreases m + n,
    {
        if n > 0 {
            self.lemma_rebuilt_is_serviced(document, m, (n - 1) as nat, i);
        } else if i < m - 1 {
            self.lemma_rebuilt_is_serviced(document, (m - 1) as nat, 0, i);
        }
    }
}

proof fn lemma_lies_in_an_outermost(document: Document, owed: Owed, node: usize)
    requires
        document.wf(),
        owed.of(document),
        owed.local(document),
        owed.all_serviced(document).contains(node),
    ensures
        exists|container: usize|
            owed.outermost(document).contains(container) && #[trigger] document.within(
                node,
                container,
            ),
    decreases document.rank()(node),
{
    let all = owed.all_serviced(document);
    owed.lemma_serviced_are_nodes(document, owed.rebuilt@.len(), owed.children@.len(), node);
    if document.under_any(node, all) {
        let outer = choose|ancestor: usize|
            all.contains(ancestor) && #[trigger] document.under(node, ancestor);
        let m = choose|m: nat| m > 0 && #[trigger] document.above(node, m) == Some(outer);
        document.lemma_above_is_a_node(node, m);
        lemma_lies_in_an_outermost(document, owed, outer);
        let container = choose|container: usize|
            owed.outermost(document).contains(container) && #[trigger] document.within(
                outer,
                container,
            );
        let n = choose|n: nat| #[trigger] document.above(outer, n) == Some(container);
        document.lemma_above_in_two(node, m, n);
        assert(document.within(node, container));
    } else {
        assert(document.above(node, 0) == Some(node));
        assert(document.within(node, node));
    }
}


/// Whether the container of an element whose own boxes changed can be spliced.
pub open spec fn hangs_under_an_element(document: Document, node: usize) -> bool {
    document.nodes@[node as int].parent matches Some(parent)
        && document.nodes@[parent as int].kind == NodeKind::Element
}

/// Whether a refusal is told of the first mark that stands in the way.
pub open spec fn names_the_first(document: Document, owed: Owed, refused: Unspliceable) -> bool {
    match refused {
        Unspliceable::Rootless(node) => exists|i: int|
            0 <= i < owed.rebuilt@.len() && #[trigger] owed.rebuilt@[i] == node
                && document.nodes@[node as int].parent is None && all_hang(document, owed, i),
        Unspliceable::NotUnderAnElement(node) => exists|i: int|
            0 <= i < owed.rebuilt@.len() && #[trigger] owed.rebuilt@[i] == node
                && !hangs_under_an_element(document, node)
                && document.nodes@[node as int].parent is Some && all_hang(document, owed, i),
        Unspliceable::NotAnElement(node) => all_hang(document, owed, owed.rebuilt@.len() as int)
            && exists|i: int|
            0 <= i < owed.children@.len() && #[trigger] owed.children@[i] == node
                && document.nodes@[node as int].kind != NodeKind::Element && all_elements(
                document,
                owed,
                i,
            ),
        _ => false,
    }
}

/// Whether the first `n` elements whose own boxes changed hang under elements.
pub open spec fn all_hang(document: Document, owed: Owed, n: int) -> bool {
    forall|i: int| 0 <= i < n ==> hangs_under_an_element(document, #[trigger] owed.rebuilt@[i])
}

/// Whether the first `n` whose child list changed are elements.
pub open spec fn all_elements(document: Document, owed: Owed, n: int) -> bool {
    forall|i: int|
        0 <= i < n ==> document.nodes@[#[trigger] owed.children@[i] as int].kind
            == NodeKind::Element
}

proof fn lemma_stopped(document: Document, owed: Owed, m: nat, n: nat)
    requires
        m <= owed.rebuilt@.len(),
        n <= owed.children@.len(),
        n > 0 ==> m == owed.rebuilt@.len(),
    ensures
        match owed.stopped(document, m, n) {
            Some(refused) => names_the_first(document, owed, refused),
            None => all_hang(document, owed, m as int) && all_elements(document, owed, n as int),
        },
    decreases m + n,
{
    if n > 0 {
        lemma_stopped(document, owed, m, (n - 1) as nat);
        if owed.stopped(document, m, (n - 1) as nat) is None {
            let node = owed.children@[n - 1];
            assert(all_elements(document, owed, n - 1));
            if owed.children_stopped(document, n - 1) is Some {
                assert(owed.children@[n - 1] == node);
                assert(names_the_first(document, owed, Unspliceable::NotAnElement(node)));
            }
        }
    } else if m > 0 {
        lemma_stopped(document, owed, (m - 1) as nat, 0);
        if owed.stopped(document, (m - 1) as nat, 0) is None {
            let node = owed.rebuilt@[m - 1];
            assert(all_hang(document, owed, m - 1));
            assert(owed.rebuilt@[m - 1] == node);
            if document.nodes@[node as int].parent is None {
                assert(names_the_first(document, owed, Unspliceable::Rootless(node)));
            } else if !hangs_under_an_element(document, node) {
                assert(names_the_first(document, owed, Unspliceable::NotUnderAnElement(node)));
            }
        }
    }
}

/// What is owed is refused only where nothing is owed, too much is, or some mark stands in the way,
/// and the refusal names the first such mark; what is not refused is at most sixty-four containers,
/// each of them the parent of an element whose own boxes changed or an element whose child list did.
pub proof fn a_refusal_names_what_stands_in_the_way(
    document: Document,
    owed: Owed,
    r: Result<Seq<usize>, Unspliceable>,
)
    requires
        owed.of(document),
        owed.marks() <= usize::MAX,
        owed.answered(document, r),
    ensures
        r == Err::<Seq<usize>, Unspliceable>(Unspliceable::Nothing) <==> owed.rebuilt@.len() == 0
            && owed.children@.len() == 0,
        r matches Err(refused) ==> {
            ||| refused is Nothing
            ||| refused is TooMany
            ||| names_the_first(document, owed, refused)
        },
        owed.rebuilt@.len() + owed.children@.len() > 4096 ==> r == Err::<Seq<usize>, Unspliceable>(
            Unspliceable::TooMany((owed.rebuilt@.len() + owed.children@.len()) as usize),
        ),
        owed.rebuilt@.len() + owed.children@.len() <= 4096 && (r matches Err(refused) && refused is TooMany)
            ==> {
            &&& all_hang(document, owed, owed.rebuilt@.len() as int)
            &&& all_elements(document, owed, owed.children@.len() as int)
            &&& exists|list: Seq<usize>| #[trigger]
                lists(list, owed.outermost(document)) && list.len() > 64
        },
        r matches Ok(list) ==> {
            &&& 0 < owed.rebuilt@.len() + owed.children@.len() <= 4096
            &&& all_hang(document, owed, owed.rebuilt@.len() as int)
            &&& all_elements(document, owed, owed.children@.len() as int)
            &&& list.no_duplicates()
            &&& list.len() <= 64
            &&& forall|node: usize| #[trigger]
                list.contains(node) ==> owed.children@.contains(node) || exists|i: int|
                    0 <= i < owed.rebuilt@.len()
                        && document.nodes@[#[trigger] owed.rebuilt@[i] as int].parent == Some(node)
        },
{
    let m = owed.rebuilt@.len();
    let n = owed.children@.len();
    lemma_stopped(document, owed, m, n);
    if let Ok(list) = r {
        assert forall|node: usize| #[trigger] list.contains(node) implies owed.children@.contains(
            node,
        ) || exists|i: int|
            0 <= i < owed.rebuilt@.len() && document.nodes@[#[trigger] owed.rebuilt@[i] as int].parent
                == Some(node) by {
            assert(owed.outermost(document).contains(node));
            lemma_serviced_is_marked(document, owed, m, n, node);
        }
    }
}

proof fn lemma_serviced_is_marked(document: Document, owed: Owed, m: nat, n: nat, node: usize)
    requires
        m <= owed.rebuilt@.len(),
        n <= owed.children@.len(),
        all_hang(document, owed, m as int),
        owed.serviced(document, m, n).contains(node),
    ensures
        owed.children@.contains(node) || exists|i: int|
            0 <= i < owed.rebuilt@.len() && document.nodes@[#[trigger] owed.rebuilt@[i] as int].parent
                == Some(node),
    decreases m + n,
{
    if n > 0 {
        if owed.children@[n - 1] != node {
            lemma_serviced_is_marked(document, owed, m, (n - 1) as nat, node);
        }
    } else if m > 0 {
        assert(hangs_under_an_element(document, owed.rebuilt@[m - 1]));
        if document.parent(owed.rebuilt@[m - 1]) != Some(node) {
            lemma_serviced_is_marked(document, owed, (m - 1) as nat, 0, node);
        }
    }
}

} // verus!
