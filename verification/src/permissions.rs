//! The permission tree: what a node grants, and what a player is told of their own.

use vstd::prelude::*;
use vstd::string::*;

use crate::buf::Writer;
use crate::text;
use crate::wire;

verus! {

/// Mirrors the `infinite-reach-limit` config key.
pub const INFINITE_REACH_LIMIT: i32 = 256;

/// One node of the permission tree.
#[derive(Clone, Copy)]
pub struct Perm {
    /// The name it is granted under.
    pub node: &'static str,
    /// The name the client knows it by.
    pub wire: &'static str,
    /// The node above it, by its place in the table.
    pub parent: Option<usize>,
}

/// Whether every parent is in the table.
pub open spec fn parents_stand(perms: Seq<Perm>) -> bool {
    forall|i: int|
        0 <= i < perms.len() ==> ((#[trigger] perms[i]).parent matches Some(parent) ==> parent
            < perms.len())
}

/// Whether every parent is in the table, and every node is ranked below its parent, so that
/// following parents comes to an end.
pub open spec fn ranked(perms: Seq<Perm>, rank: spec_fn(int) -> nat) -> bool {
    forall|i: int|
        #![trigger perms[i]]
        0 <= i < perms.len() && perms[i].parent is Some ==> {
            &&& perms[i].parent->Some_0 < perms.len()
            &&& rank(perms[i].parent->Some_0 as int) < rank(i)
        }
}

/// Whether the table is a forest: no node is its own ancestor.
pub open spec fn is_forest(perms: Seq<Perm>) -> bool {
    exists|rank: spec_fn(int) -> nat| ranked(perms, rank)
}

/// Whether `ancestor` is above `node`, `steps` parents up at most.
pub open spec fn within(perms: Seq<Perm>, node: int, ancestor: int, steps: nat) -> bool
    decreases steps,
{
    steps > 0 && 0 <= node < perms.len() && match perms[node].parent {
        Some(parent) => parent == ancestor || within(
            perms,
            parent as int,
            ancestor,
            (steps - 1) as nat,
        ),
        None => false,
    }
}

/// Whether `ancestor` is above `node`, at any depth.
pub open spec fn below(perms: Seq<Perm>, node: int, ancestor: int) -> bool {
    exists|steps: nat| within(perms, node, ancestor, steps)
}

/// The nodes from `from` on that are below `ancestor`, in the order of the table.
pub open spec fn below_from(perms: Seq<Perm>, ancestor: int, from: int) -> Seq<usize>
    decreases perms.len() - from,
{
    if from >= perms.len() {
        Seq::empty()
    } else if below(perms, from, ancestor) {
        seq![from as usize] + below_from(perms, ancestor, from + 1)
    } else {
        below_from(perms, ancestor, from + 1)
    }
}

proof fn lemma_more_steps(perms: Seq<Perm>, node: int, ancestor: int, a: nat, b: nat)
    requires
        within(perms, node, ancestor, a),
        a <= b,
    ensures
        within(perms, node, ancestor, b),
    decreases a,
{
    let parent = perms[node].parent->Some_0;
    if parent != ancestor {
        lemma_more_steps(perms, parent as int, ancestor, (a - 1) as nat, (b - 1) as nat);
    }
}

/// Going up one step more.
proof fn lemma_below_step(perms: Seq<Perm>, node: int, ancestor: int)
    requires
        0 <= node < perms.len(),
    ensures
        below(perms, node, ancestor) == match perms[node].parent {
            Some(parent) => parent == ancestor || below(perms, parent as int, ancestor),
            None => false,
        },
{
    if below(perms, node, ancestor) {
        let steps = choose|steps: nat| within(perms, node, ancestor, steps);
        let parent = perms[node].parent->Some_0;
        if parent != ancestor {
            assert(within(perms, parent as int, ancestor, (steps - 1) as nat));
        }
    }
    if let Some(parent) = perms[node].parent {
        if parent == ancestor {
            assert(within(perms, node, ancestor, 1));
        } else if below(perms, parent as int, ancestor) {
            let steps = choose|steps: nat| within(perms, parent as int, ancestor, steps);
            assert(within(perms, node, ancestor, steps + 1));
        }
    }
}

/// What is below a node is below everything above that node.
pub proof fn law_below_is_transitive(perms: Seq<Perm>, a: int, b: int, c: int)
    requires
        below(perms, a, b),
        below(perms, b, c),
    ensures
        below(perms, a, c),
{
    let m = choose|m: nat| within(perms, a, b, m);
    let n = choose|n: nat| within(perms, b, c, n);
    lemma_transitive(perms, a, b, c, m, n);
}

proof fn lemma_transitive(perms: Seq<Perm>, a: int, b: int, c: int, m: nat, n: nat)
    requires
        within(perms, a, b, m),
        within(perms, b, c, n),
    ensures
        within(perms, a, c, m + n),
        below(perms, a, c),
    decreases m,
{
    let parent = perms[a].parent->Some_0;
    if parent == b {
        assert(within(perms, a, c, n + 1));
        lemma_more_steps(perms, a, c, n + 1, m + n);
    } else {
        lemma_transitive(perms, parent as int, b, c, (m - 1) as nat, n);
    }
    assert(within(perms, a, c, m + n));
}

/// No node of a forest is below itself.
pub proof fn law_nothing_is_below_itself(perms: Seq<Perm>, node: int)
    requires
        is_forest(perms),
    ensures
        !below(perms, node, node),
{
    if below(perms, node, node) {
        let rank = choose|rank: spec_fn(int) -> nat| ranked(perms, rank);
        let steps = choose|steps: nat| within(perms, node, node, steps);
        lemma_rank(perms, rank, node, node, steps);
    }
}

proof fn lemma_rank(
    perms: Seq<Perm>,
    rank: spec_fn(int) -> nat,
    node: int,
    ancestor: int,
    steps: nat,
)
    requires
        ranked(perms, rank),
        within(perms, node, ancestor, steps),
    ensures
        rank(ancestor) < rank(node),
    decreases steps,
{
    let parent = perms[node].parent->Some_0;
    assert(rank(parent as int) < rank(node));
    if parent != ancestor {
        lemma_rank(perms, rank, parent as int, ancestor, (steps - 1) as nat);
    }
}

fn is_below(perms: &[Perm], node: usize, ancestor: usize) -> (r: bool)
    requires
        is_forest(perms@),
        node < perms@.len(),
    ensures
        r == below(perms@, node as int, ancestor as int),
{
    let ghost rank = choose|rank: spec_fn(int) -> nat| ranked(perms@, rank);
    let mut current: usize = node;
    loop
        invariant
            current < perms@.len(),
            ranked(perms@, rank),
            below(perms@, current as int, ancestor as int) == below(
                perms@,
                node as int,
                ancestor as int,
            ),
        decreases rank(current as int),
    {
        proof {
            lemma_below_step(perms@, current as int, ancestor as int);
        }
        match perms[current].parent {
            Some(parent) => {
                if parent == ancestor {
                    return true;
                }
                current = parent;
            },
            None => return false,
        }
    }
}

/// Every node below `ancestor` in the permission tree, at any depth.
pub fn descendants(perms: &[Perm], ancestor: usize) -> (r: Vec<usize>)
    requires
        is_forest(perms@),
    ensures
        r@ == below_from(perms@, ancestor as int, 0),
{
    let mut out: Vec<usize> = Vec::new();
    let mut node: usize = 0;
    assert(out@ + below_from(perms@, ancestor as int, 0) =~= below_from(
        perms@,
        ancestor as int,
        0,
    ));
    while node < perms.len()
        invariant
            node <= perms@.len(),
            is_forest(perms@),
            out@ + below_from(perms@, ancestor as int, node as int) == below_from(
                perms@,
                ancestor as int,
                0,
            ),
        decreases perms@.len() - node,
    {
        let ghost before = out@;
        let ghost rest = below_from(perms@, ancestor as int, node + 1);
        if is_below(perms, node, ancestor) {
            out.push(node);
            assert(before + (seq![node] + rest) =~= out@ + rest);
        }
        node += 1;
    }
    assert(out@ + Seq::<usize>::empty() =~= out@);
    out
}

/// What a node is registered with.
pub struct Registration {
    pub node: &'static str,
    /// Whether operators hold it without being granted it; nobody else does.
    pub for_operators: bool,
    /// The nodes that come with it.
    pub children: Vec<&'static str>,
}

/// The names of nodes.
pub open spec fn nodes_of(perms: Seq<Perm>, nodes: Seq<usize>) -> Seq<&'static str> {
    Seq::new(nodes.len(), |i: int| perms[nodes[i] as int].node)
}

/// Whether a node is registered as it should be.
pub open spec fn registers(r: Registration, perms: Seq<Perm>, i: int) -> bool {
    &&& r.node == perms[i].node
    &&& r.for_operators == (perms[i].node@ == "axiom.all"@)
    &&& r.children@ == nodes_of(perms, below_from(perms, i, 0))
}

proof fn lemma_below_from_in_table(perms: Seq<Perm>, ancestor: int, from: int)
    requires
        0 <= from,
        perms.len() <= usize::MAX,
    ensures
        forall|i: int|
            0 <= i < below_from(perms, ancestor, from).len() ==> (#[trigger] below_from(
                perms,
                ancestor,
                from,
            )[i]) < perms.len(),
    decreases perms.len() - from,
{
    if from < perms.len() {
        let all = below_from(perms, ancestor, from);
        let rest = below_from(perms, ancestor, from + 1);
        lemma_below_from_in_table(perms, ancestor, from + 1);
        assert forall|i: int| 0 <= i < all.len() implies (#[trigger] all[i]) < perms.len() by {
            if all.len() > rest.len() && i > 0 {
                assert(all[i] == rest[i - 1]);
            } else if all.len() == rest.len() {
                assert(all[i] == rest[i]);
            }
        }
    }
}

/// What every Axiom node is registered with, so operators can grant them individually.
/// `axiom.all` defaults to ops, which is what makes the plugin work out of the box for an
/// opped player.
///
/// Each node lists everything below it in the tree as a child. The server resolves children
/// one level deep, so `axiom.default` has to name every node it grants itself.
pub fn registrations(perms: &[Perm]) -> (r: Vec<Registration>)
    requires
        is_forest(perms@),
    ensures
        r@.len() == perms@.len(),
        forall|i: int| 0 <= i < r@.len() ==> registers(#[trigger] r@[i], perms@, i),
{
    let mut out: Vec<Registration> = Vec::new();
    let mut i: usize = 0;
    while i < perms.len()
        invariant
            i <= perms.len(),
            is_forest(perms@),
            out@.len() == i,
            forall|k: int| 0 <= k < i ==> registers(#[trigger] out@[k], perms@, k),
        decreases perms.len() - i,
    {
        let below = descendants(perms, i);
        proof {
            lemma_below_from_in_table(perms@, i as int, 0);
        }
        let mut children: Vec<&'static str> = Vec::new();
        let mut k: usize = 0;
        while k < below.len()
            invariant
                k <= below@.len(),
                i < perms.len(),
                below@ == below_from(perms@, i as int, 0),
                forall|j: int| 0 <= j < below@.len() ==> #[trigger] below@[j] < perms@.len(),
                children@ == nodes_of(perms@, below@).take(k as int),
            decreases below@.len() - k,
        {
            let child: usize = below[k];
            assert(below@[k as int] < perms@.len());
            children.push(perms[child].node);
            k += 1;
            assert(children@ =~= nodes_of(perms@, below@).take(k as int));
        }
        assert(children@ =~= nodes_of(perms@, below@));
        let node = perms[i].node;
        let for_operators: bool = text::str_equal(node, "axiom.all");
        let ghost done = out@;
        out.push(Registration { node, for_operators, children });
        i += 1;
        assert forall|j: int| 0 <= j < i implies registers(#[trigger] out@[j], perms@, j) by {
            if j < i - 1 {
                assert(registers(done[j], perms@, j));
            }
        }
    }
    out
}

/// What a client is told of its player's permissions.
#[derive(PartialEq, Eq)]
pub struct Restrictions {
    /// Wire names of granted permissions.
    pub allowed: Vec<&'static str>,
    pub denied: Vec<&'static str>,
    pub infinite_reach_limit: i32,
}

/// Restrictions, taken by their contents.
#[verifier::ext_equal]
pub struct RestrictionsView {
    pub allowed: Seq<Seq<char>>,
    pub denied: Seq<Seq<char>>,
    pub infinite_reach_limit: i32,
}

/// The contents of strings.
pub open spec fn texts(names: Seq<&'static str>) -> Seq<Seq<char>> {
    Seq::new(names.len(), |i: int| names[i]@)
}

impl View for Restrictions {
    type V = RestrictionsView;

    open spec fn view(&self) -> RestrictionsView {
        RestrictionsView {
            allowed: texts(self.allowed@),
            denied: texts(self.denied@),
            infinite_reach_limit: self.infinite_reach_limit,
        }
    }
}

/// Strings that follow each other on the wire.
pub open spec fn names_bytes(names: Seq<Seq<char>>) -> Seq<u8>
    decreases names.len(),
{
    if names.len() == 0 {
        Seq::empty()
    } else {
        wire::string_bytes(names[0]) + names_bytes(names.skip(1))
    }
}

/// Restrictions as they are sent. The list of regions that would fence the player in comes
/// last and is always empty.
pub open spec fn restrictions_bytes(r: RestrictionsView) -> Seq<u8> {
    wire::len_bytes(r.allowed.len()) + names_bytes(r.allowed) + wire::len_bytes(r.denied.len())
        + names_bytes(r.denied) + wire::i32_bytes(r.infinite_reach_limit) + wire::var_i32_bytes(0)
}

/// Whether two lists of names are the same.
fn same_names(a: &Vec<&'static str>, b: &Vec<&'static str>) -> (r: bool)
    ensures
        r == (texts(a@) == texts(b@)),
{
    if a.len() != b.len() {
        assert(texts(a@).len() != texts(b@).len());
        return false;
    }
    let mut i: usize = 0;
    while i < a.len()
        invariant
            i <= a@.len(),
            a@.len() == b@.len(),
            forall|k: int| 0 <= k < i ==> texts(a@)[k] == texts(b@)[k],
        decreases a@.len() - i,
    {
        if !text::str_equal(a[i], b[i]) {
            assert(texts(a@)[i as int] != texts(b@)[i as int]);
            return false;
        }
        i += 1;
    }
    assert(texts(a@) =~= texts(b@));
    true
}

pub(crate) fn write_names(w: &mut Writer, names: &Vec<&'static str>)
    ensures
        final(w)@ == old(w)@ + wire::len_bytes(names@.len()) + names_bytes(texts(names@)),
{
    let ghost all = texts(names@);
    w.prefix(names.len());
    let ghost head = w@;
    assert(all.skip(0) =~= all);
    let mut i: usize = 0;
    while i < names.len()
        invariant
            i <= names@.len(),
            all == texts(names@),
            w@ + names_bytes(all.skip(i as int)) == head + names_bytes(all),
        decreases names@.len() - i,
    {
        let ghost before = w@;
        w.string(names[i]);
        i += 1;
        proof {
            assert(all.skip(i - 1).skip(1) =~= all.skip(i as int));
            assert(before + names_bytes(all.skip(i - 1)) =~= w@ + names_bytes(
                all.skip(i as int),
            ));
        }
    }
    assert(w@ =~= head + names_bytes(all)) by {
        assert(all.skip(i as int) =~= Seq::empty());
    }
}

impl Restrictions {
    /// The restrictions as they are sent.
    pub fn encode(&self) -> (r: Vec<u8>)
        ensures
            r@ == restrictions_bytes(self@),
    {
        let mut w = Writer::new();
        write_names(&mut w, &self.allowed);
        write_names(&mut w, &self.denied);
        w.i32(self.infinite_reach_limit);
        // No region ever fences the player in.
        w.var_i32(0);
        let r = w.into_vec();
        assert(r@ =~= restrictions_bytes(self@));
        r
    }

    /// Whether these are the restrictions that the client already has.
    pub fn same(&self, other: &Restrictions) -> (r: bool)
        ensures
            r == (self@ == other@),
    {
        same_names(&self.allowed, &other.allowed) && same_names(&self.denied, &other.denied)
            && self.infinite_reach_limit == other.infinite_reach_limit
    }
}

/// Whether a node carries a verdict that its parent does not.
pub open spec fn told(
    perms: Seq<Perm>,
    verdicts: Seq<Option<bool>>,
    want: bool,
    i: int,
) -> bool {
    &&& verdicts[i] == Some(want)
    &&& match perms[i].parent {
        Some(parent) => verdicts[parent as int] != Some(want),
        None => true,
    }
}

/// The wire names of the nodes from `from` on that carry a verdict which their parents do not.
pub open spec fn told_from(
    perms: Seq<Perm>,
    verdicts: Seq<Option<bool>>,
    want: bool,
    from: int,
) -> Seq<Seq<char>>
    decreases perms.len() - from,
{
    if from >= perms.len() {
        Seq::empty()
    } else if told(perms, verdicts, want, from) {
        seq![perms[from].wire@] + told_from(perms, verdicts, want, from + 1)
    } else {
        told_from(perms, verdicts, want, from + 1)
    }
}

/// What the client of a player is told: the catch-all for those who may do everything, and
/// else every verdict that does not follow from the node above.
pub open spec fn restrictions_for(
    perms: Seq<Perm>,
    all: int,
    everything: bool,
    verdicts: Seq<Option<bool>>,
) -> RestrictionsView {
    if everything {
        RestrictionsView {
            allowed: seq![perms[all].wire@],
            denied: Seq::empty(),
            infinite_reach_limit: INFINITE_REACH_LIMIT,
        }
    } else {
        RestrictionsView {
            allowed: told_from(perms, verdicts, true, 0),
            denied: told_from(perms, verdicts, false, 0),
            infinite_reach_limit: INFINITE_REACH_LIMIT,
        }
    }
}

fn collect(perms: &[Perm], verdicts: &[Option<bool>], want: bool) -> (r: Vec<&'static str>)
    requires
        verdicts@.len() == perms@.len(),
        parents_stand(perms@),
    ensures
        texts(r@) == told_from(perms@, verdicts@, want, 0),
{
    let mut out: Vec<&'static str> = Vec::new();
    assert(texts(out@) + told_from(perms@, verdicts@, want, 0) =~= told_from(
        perms@,
        verdicts@,
        want,
        0,
    ));
    let mut i: usize = 0;
    while i < perms.len()
        invariant
            i <= perms.len(),
            verdicts@.len() == perms@.len(),
            parents_stand(perms@),
            texts(out@) + told_from(perms@, verdicts@, want, i as int) == told_from(
                perms@,
                verdicts@,
                want,
                0,
            ),
        decreases perms.len() - i,
    {
        let ghost before = texts(out@);
        let ghost rest = told_from(perms@, verdicts@, want, i + 1);
        let carries: bool = match verdicts[i] {
            Some(verdict) => verdict == want,
            None => false,
        };
        // A node whose parent carries the same verdict is redundant on the wire.
        let redundant: bool = match perms[i].parent {
            Some(parent) => match verdicts[parent] {
                Some(verdict) => verdict == want,
                None => false,
            },
            None => false,
        };
        if carries && !redundant {
            let name = perms[i].wire;
            out.push(name);
            assert(texts(out@) =~= before.push(name@));
            assert(before + (seq![name@] + rest) =~= texts(out@) + rest);
        }
        i += 1;
    }
    assert(texts(out@) + Seq::<Seq<char>>::empty() =~= texts(out@));
    out
}

/// Recomputes what the player is allowed to do. Ops (and anyone holding
/// `axiom.all`) short-circuit to the catch-all node.
pub fn calculate_restrictions(
    perms: &[Perm],
    all: usize,
    is_op: bool,
    holds_all: bool,
    verdicts: &[Option<bool>],
) -> (r: Restrictions)
    requires
        parents_stand(perms@),
        all < perms@.len(),
        is_op || holds_all || verdicts@.len() == perms@.len(),
    ensures
        r@ == restrictions_for(perms@, all as int, is_op || holds_all, verdicts@),
{
    if is_op || holds_all {
        let r = Restrictions {
            allowed: vec![perms[all].wire],
            denied: Vec::new(),
            infinite_reach_limit: INFINITE_REACH_LIMIT,
        };
        assert(r@ =~= restrictions_for(perms@, all as int, true, verdicts@));
        return r;
    }
    Restrictions {
        allowed: collect(perms, verdicts, true),
        denied: collect(perms, verdicts, false),
        infinite_reach_limit: INFINITE_REACH_LIMIT,
    }
}

/// Whether the player holds one specific Axiom permission. Ops and holders of
/// `axiom.all` pass everything.
pub fn has_perm(is_op: bool, holds_all: bool, holds_node: bool) -> (r: bool)
    ensures
        r == (is_op || holds_all || holds_node),
{
    is_op || holds_all || holds_node
}

/// A node that carries a verdict is left out of what the client is told only where the node
/// above it carries the same one.
pub proof fn law_untold_follows_from_parent(
    perms: Seq<Perm>,
    verdicts: Seq<Option<bool>>,
    want: bool,
    i: int,
)
    requires
        0 <= i < perms.len(),
        verdicts[i] == Some(want),
    ensures
        told_from(perms, verdicts, want, 0).contains(perms[i].wire@) || (perms[i].parent matches Some(
            parent,
        ) && verdicts[parent as int] == Some(want)),
{
    if told(perms, verdicts, want, i) {
        lemma_told(perms, verdicts, want, 0, i);
    }
}

proof fn lemma_told(
    perms: Seq<Perm>,
    verdicts: Seq<Option<bool>>,
    want: bool,
    from: int,
    i: int,
)
    requires
        0 <= from <= i < perms.len(),
        told(perms, verdicts, want, i),
    ensures
        told_from(perms, verdicts, want, from).contains(perms[i].wire@),
    decreases i - from,
{
    let all = told_from(perms, verdicts, want, from);
    if from == i {
        assert(all[0] == perms[i].wire@);
    } else {
        let rest = told_from(perms, verdicts, want, from + 1);
        lemma_told(perms, verdicts, want, from + 1, i);
        let k = choose|k: int| 0 <= k < rest.len() && rest[k] == perms[i].wire@;
        if told(perms, verdicts, want, from) {
            assert(all[k + 1] == rest[k]);
        } else {
            assert(all[k] == rest[k]);
        }
    }
}

/// Whether every node stands behind its parent in the table.
pub open spec fn in_order(perms: Seq<Perm>) -> bool {
    forall|i: int|
        0 <= i < perms.len() ==> ((#[trigger] perms[i]).parent matches Some(parent) ==> parent < i)
}

/// A table with every node behind its parent is a forest.
pub proof fn law_order_makes_a_forest(perms: Seq<Perm>)
    requires
        in_order(perms),
    ensures
        is_forest(perms),
{
    let rank = |i: int| if i < 0 { 0nat } else { i as nat };
    assert(ranked(perms, rank));
}

/// Checks that every node stands behind its parent in the table.
pub fn is_in_order(perms: &[Perm]) -> (r: bool)
    ensures
        r == in_order(perms@),
        r ==> is_forest(perms@),
{
    let mut i: usize = 0;
    while i < perms.len()
        invariant
            i <= perms@.len(),
            forall|k: int|
                0 <= k < i ==> ((#[trigger] perms@[k]).parent matches Some(parent) ==> parent < k),
        decreases perms@.len() - i,
    {
        if let Some(parent) = perms[i].parent {
            if parent >= i {
                return false;
            }
        }
        i += 1;
    }
    proof {
        law_order_makes_a_forest(perms@);
    }
    true
}

/// A node is below the one above it and below whatever that one is below, and below nothing else.
pub proof fn law_below_follows_parents(perms: Seq<Perm>, node: int, ancestor: int)
    requires
        0 <= node < perms.len(),
    ensures
        below(perms, node, ancestor) <==> (perms[node].parent matches Some(parent) && (parent
            == ancestor || below(perms, parent as int, ancestor))),
{
    lemma_below_step(perms, node, ancestor);
}

/// The nodes that come with a node are those below it, each once, in the order of the table.
pub proof fn law_descendants_are_those_below(perms: Seq<Perm>, ancestor: int, node: int)
    requires
        0 <= node < perms.len() <= usize::MAX,
    ensures
        ({
            let all = below_from(perms, ancestor, 0);
            &&& all.contains(node as usize) <==> below(perms, node, ancestor)
            &&& forall|i: int, j: int| 0 <= i < j < all.len() ==> all[i] < all[j]
            &&& forall|i: int| 0 <= i < all.len() ==> #[trigger] all[i] < perms.len()
        }),
{
    lemma_below_from(perms, ancestor, 0, node);
    lemma_below_from_in_table(perms, ancestor, 0);
}

proof fn lemma_below_from(perms: Seq<Perm>, ancestor: int, from: int, node: int)
    requires
        0 <= from <= perms.len() <= usize::MAX,
        0 <= node < perms.len(),
    ensures
        ({
            let all = below_from(perms, ancestor, from);
            &&& all.contains(node as usize) <==> from <= node && below(perms, node, ancestor)
            &&& forall|i: int| 0 <= i < all.len() ==> #[trigger] all[i] >= from
            &&& forall|i: int, j: int| 0 <= i < j < all.len() ==> all[i] < all[j]
        }),
    decreases perms.len() - from,
{
    if from < perms.len() {
        let all = below_from(perms, ancestor, from);
        let rest = below_from(perms, ancestor, from + 1);
        lemma_below_from(perms, ancestor, from + 1, node);
        if below(perms, from, ancestor) {
            assert(all =~= seq![from as usize] + rest);
            assert forall|i: int, j: int| 0 <= i < j < all.len() implies all[i] < all[j] by {
                assert(all[j] == rest[j - 1]);
                if i > 0 {
                    assert(all[i] == rest[i - 1]);
                }
            }
            assert forall|i: int| 0 <= i < all.len() implies #[trigger] all[i] >= from by {
                if i > 0 {
                    assert(all[i] == rest[i - 1]);
                }
            }
            if from == node {
                assert(all[0] == node as usize);
            } else if rest.contains(node as usize) {
                let k = choose|k: int| 0 <= k < rest.len() && rest[k] == node as usize;
                assert(all[k + 1] == node as usize);
            } else if all.contains(node as usize) {
                let k = choose|k: int| 0 <= k < all.len() && all[k] == node as usize;
                assert(rest[k - 1] == node as usize);
            }
        } else {
            assert(all == rest);
            assert forall|i: int| 0 <= i < all.len() implies #[trigger] all[i] >= from by {
                assert(rest[i] >= from + 1);
            }
        }
    }
}

/// How many of the first `n` nodes the client is told a verdict of: those that carry it while the
/// node above them does not.
pub open spec fn told_before(
    perms: Seq<Perm>,
    verdicts: Seq<Option<bool>>,
    want: bool,
    n: int,
) -> int
    decreases n,
{
    if n <= 0 {
        0
    } else {
        let i = n - 1;
        let carries = verdicts[i] == Some(want);
        let redundant = perms[i].parent is Some && verdicts[perms[i].parent->Some_0 as int] == Some(
            want,
        );
        told_before(perms, verdicts, want, i) + if carries && !redundant {
            1int
        } else {
            0
        }
    }
}

/// The client of somebody who may not do everything is told every verdict which does not follow
/// from the node above, under the node's wire name, in the order of the table, and nothing else.
pub proof fn law_verdicts_are_told(
    perms: Seq<Perm>,
    all: int,
    verdicts: Seq<Option<bool>>,
    i: int,
)
    requires
        0 <= i < perms.len(),
    ensures
        ({
            let r = restrictions_for(perms, all, false, verdicts);
            let n = perms.len() as int;
            let redundant = perms[i].parent is Some && verdicts[perms[i].parent->Some_0 as int]
                == verdicts[i];
            &&& r.allowed.len() == told_before(perms, verdicts, true, n)
            &&& r.denied.len() == told_before(perms, verdicts, false, n)
            &&& verdicts[i] == Some(true) && !redundant ==> {
                let at = told_before(perms, verdicts, true, i);
                0 <= at < r.allowed.len() && r.allowed[at] == perms[i].wire@
            }
            &&& verdicts[i] == Some(false) && !redundant ==> {
                let at = told_before(perms, verdicts, false, i);
                0 <= at < r.denied.len() && r.denied[at] == perms[i].wire@
            }
            &&& r.infinite_reach_limit == 256
        }),
{
    lemma_told_at(perms, verdicts, true, 0, i);
    lemma_told_at(perms, verdicts, false, 0, i);
}

proof fn lemma_told_at(
    perms: Seq<Perm>,
    verdicts: Seq<Option<bool>>,
    want: bool,
    from: int,
    i: int,
)
    requires
        0 <= from <= perms.len(),
        0 <= i < perms.len(),
    ensures
        ({
            let rest = told_from(perms, verdicts, want, from);
            let base = told_before(perms, verdicts, want, from);
            &&& rest.len() == told_before(perms, verdicts, want, perms.len() as int) - base
            &&& from <= i && told(perms, verdicts, want, i) ==> {
                let at = told_before(perms, verdicts, want, i) - base;
                0 <= at < rest.len() && rest[at] == perms[i].wire@
            }
        }),
    decreases perms.len() - from,
{
    if from < perms.len() {
        lemma_told_at(perms, verdicts, want, from + 1, i);
        let all = told_from(perms, verdicts, want, from);
        let rest = told_from(perms, verdicts, want, from + 1);
        let base = told_before(perms, verdicts, want, from);
        if told(perms, verdicts, want, from) {
            assert(told_before(perms, verdicts, want, from + 1) == base + 1);
            if from < i && told(perms, verdicts, want, i) {
                let at = told_before(perms, verdicts, want, i) - base;
                assert(all[at] == rest[at - 1]);
            }
        } else {
            assert(told_before(perms, verdicts, want, from + 1) == base);
        }
    }
}

/// The client of somebody who may do everything is told just that, and nothing is denied them.
pub proof fn law_everything_is_told_in_one(
    perms: Seq<Perm>,
    all: int,
    verdicts: Seq<Option<bool>>,
)
    ensures
        ({
            let r = restrictions_for(perms, all, true, verdicts);
            &&& r.allowed.len() == 1 && r.allowed[0] == perms[all].wire@
            &&& r.denied.len() == 0
            &&& r.infinite_reach_limit == 256
        }),
{
}

/// Restrictions are sent as what is allowed, what is denied, how far the player may reach, and no
/// region. Lists start with their length.
pub proof fn law_restrictions_are_laid_out(r: RestrictionsView)
    ensures
        wire::laid(
            restrictions_bytes(r),
            0,
            seq![
                wire::len_bytes(r.allowed.len()),
                names_bytes(r.allowed),
                wire::len_bytes(r.denied.len()),
                names_bytes(r.denied),
                wire::i32_bytes(r.infinite_reach_limit),
                seq![0u8],
            ],
        ),
        restrictions_bytes(r).len() == wire::total(
            seq![
                wire::len_bytes(r.allowed.len()),
                names_bytes(r.allowed),
                wire::len_bytes(r.denied.len()),
                names_bytes(r.denied),
                wire::i32_bytes(r.infinite_reach_limit),
                seq![0u8],
            ],
        ),
{
    let a = wire::len_bytes(r.allowed.len());
    let b = names_bytes(r.allowed);
    let c = wire::len_bytes(r.denied.len());
    let e = names_bytes(r.denied);
    let f = wire::i32_bytes(r.infinite_reach_limit);
    let d = restrictions_bytes(r);
    assert(wire::var_i32_bytes(0) =~= seq![0u8]);
    let p1 = a.len() as int;
    let p2 = p1 + b.len();
    let p3 = p2 + c.len();
    let p4 = p3 + e.len();
    let p5 = p4 + f.len();
    assert(d.subrange(0, p1) =~= a);
    assert(d.subrange(p1, p2) =~= b);
    assert(d.subrange(p2, p3) =~= c);
    assert(d.subrange(p3, p4) =~= e);
    assert(d.subrange(p4, p5) =~= f);
    assert(d.subrange(p5, p5 + 1) =~= seq![0u8]);
    reveal_with_fuel(wire::laid, 7);
    reveal_with_fuel(wire::total, 7);
    let parts = seq![a, b, c, e, f, seq![0u8]];
    let parts1 = parts.skip(1);
    assert(parts1 =~= seq![b, c, e, f, seq![0u8]]);
    let parts2 = parts1.skip(1);
    assert(parts2 =~= seq![c, e, f, seq![0u8]]);
    let parts3 = parts2.skip(1);
    assert(parts3 =~= seq![e, f, seq![0u8]]);
    let parts4 = parts3.skip(1);
    assert(parts4 =~= seq![f, seq![0u8]]);
    let parts5 = parts4.skip(1);
    assert(parts5 =~= seq![seq![0u8]]);
    let parts6 = parts5.skip(1);
    assert(parts6.len() == 0);
}

/// Names follow each other with nothing between them.
pub proof fn law_names_follow_each_other(a: Seq<Seq<char>>, b: Seq<Seq<char>>, name: Seq<char>)
    ensures
        names_bytes(a + b) == names_bytes(a) + names_bytes(b),
        names_bytes(seq![name]) == wire::string_bytes(name),
    decreases a.len(),
{
    assert(seq![name].skip(1) =~= Seq::empty());
    assert(names_bytes(Seq::empty()) =~= Seq::empty());
    assert(wire::string_bytes(name) + Seq::empty() =~= wire::string_bytes(name));
    reveal_with_fuel(names_bytes, 2);
    if a.len() == 0 {
        assert(a + b =~= b);
        assert(names_bytes(a) + names_bytes(b) =~= names_bytes(b));
    } else {
        law_names_follow_each_other(a.skip(1), b, name);
        assert((a + b).skip(1) =~= a.skip(1) + b);
        assert(names_bytes(a + b) =~= names_bytes(a) + names_bytes(b));
    }
}

/// A node is registered under its own name, for operators only if it is the catch-all, with the
/// nodes below it as its children: as many as there are, each under its name.
pub proof fn law_registration_names_what_is_below(r: Registration, perms: Seq<Perm>, i: int, k: int)
    requires
        0 <= i < perms.len() <= usize::MAX,
        registers(r, perms, i),
        0 <= k < r.children@.len(),
    ensures
        r.node@ == perms[i].node@,
        r.for_operators <==> perms[i].node@ == "axiom.all"@,
        r.children@.len() == below_from(perms, i, 0).len(),
        r.children@[k] == perms[below_from(perms, i, 0)[k] as int].node,
        below(perms, below_from(perms, i, 0)[k] as int, i),
{
    let node = below_from(perms, i, 0)[k];
    lemma_below_from_in_table(perms, i, 0);
    lemma_below_from(perms, i, 0, node as int);
    assert(below_from(perms, i, 0).contains(node));
}

} // verus!
