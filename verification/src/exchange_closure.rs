//! The ancestry an exchange carries: its receipts must form one closed,
//! acyclic history from a single genesis in one workspace, headed by the
//! declared head, and the embedded pack must hold exactly the dependency
//! closure of the committed roots.

use vstd::prelude::*;

use crate::bytes::bytes_equal;
use crate::digest::digests_view;
use crate::exchange::{ExchangeError, ExchangeErrorCode, ExchangeHeadEntry};
use crate::gc::{closed, contains_id, in_closure, lookup, lookup_node, node_views, successor, GraphNode, NodeView};

verus! {

/// What the closure rules read of one imported receipt.
#[derive(Clone, Debug, PartialEq, Eq)]
pub struct ReceiptFacts {
    /// The transaction.
    pub transaction_id: [u8; 32],
    /// The receipt.
    pub receipt_id: [u8; 32],
    /// The transaction is the trusted genesis (otherwise an ordinary
    /// candidate).
    pub genesis: bool,
    /// Its recorded parent transactions.
    pub parents: Vec<[u8; 32]>,
    /// How many parent roots it records.
    pub parent_roots: usize,
    /// Its workspace.
    pub workspace_id: [u8; 32],
    /// The root it committed.
    pub committed_root: [u8; 32],
}

/// The transactions of receipts, in order.
pub open spec fn tx_ids(rs: Seq<ReceiptFacts>) -> Seq<Seq<u8>> {
    rs.map_values(|r: ReceiptFacts| r.transaction_id@)
}

/// The parents of a receipt.
pub open spec fn parents_of(r: ReceiptFacts) -> Seq<Seq<u8>> {
    digests_view(r.parents@)
}

/// `order` lists every receipt's transaction exactly once, each after all
/// of its parents.
pub open spec fn is_topological(rs: Seq<ReceiptFacts>, order: Seq<Seq<u8>>) -> bool {
    &&& order.len() == rs.len()
    &&& order.no_duplicates()
    &&& forall|k: int| 0 <= k < order.len() ==> tx_ids(rs).contains(#[trigger] order[k])
    &&& forall|i: int, k: int|
        #![trigger rs[i], order[k]]
        0 <= i < rs.len() && 0 <= k < order.len() && order[k] == rs[i].transaction_id@ ==> forall|p: Seq<u8>|
            parents_of(rs[i]).contains(p) ==> exists|k2: int| 0 <= k2 < k && order[k2] == p
}

/// The receipts can be put in an order that places every parent first.
pub open spec fn acyclic(rs: Seq<ReceiptFacts>) -> bool {
    exists|order: Seq<Seq<u8>>| is_topological(rs, order)
}

/// The transactions of receipts strictly ascend, as in the map they are
/// read from.
pub open spec fn tx_ids_distinct(rs: Seq<ReceiptFacts>) -> bool {
    forall|i: int, j: int| 0 <= i < j < rs.len() ==> rs[i].transaction_id@ != rs[j].transaction_id@
}

fn all_parents_placed(parents: &Vec<[u8; 32]>, placed: &Vec<[u8; 32]>) -> (r: bool)
    ensures
        r == forall|p: Seq<u8>| digests_view(parents@).contains(p) ==> digests_view(placed@).contains(p),
{
    let mut k: usize = 0;
    while k < parents.len()
        invariant
            k <= parents@.len(),
            forall|m: int| 0 <= m < k ==> digests_view(placed@).contains(#[trigger] digests_view(parents@)[m]),
        decreases parents.len() - k,
    {
        if !crate::gc::contains_id(placed, &parents[k]) {
            assert(digests_view(parents@).contains(digests_view(parents@)[k as int]));
            return false;
        }
        k = k + 1;
    }
    proof {
        assert forall|p: Seq<u8>| digests_view(parents@).contains(p) implies digests_view(placed@).contains(p) by {
            let m = choose|m: int| 0 <= m < digests_view(parents@).len() && digests_view(parents@)[m] == p;
        }
    }
    true
}

/// Where the scan of the placed transactions stands: every placed
/// transaction is one of the receipts' and came after its parents, and
/// each receipt is placed or pending, never both.
pub open spec fn order_state(rs: Seq<ReceiptFacts>, order: Seq<Seq<u8>>, pending: Seq<usize>) -> bool {
    &&& rs.len() <= usize::MAX
    &&& order.no_duplicates()
    &&& forall|k: int| 0 <= k < order.len() ==> tx_ids(rs).contains(#[trigger] order[k])
    &&& forall|i: int, k: int|
        #![trigger rs[i], order[k]]
        0 <= i < rs.len() && 0 <= k < order.len() && order[k] == rs[i].transaction_id@ ==> forall|p: Seq<u8>|
            parents_of(rs[i]).contains(p) ==> exists|k2: int| 0 <= k2 < k && order[k2] == p
    &&& forall|m: int| 0 <= m < pending.len() ==> (#[trigger] pending[m]) < rs.len()
    &&& pending.no_duplicates()
    &&& forall|i: int|
        0 <= i < rs.len() ==> (order.contains(#[trigger] rs[i].transaction_id@) <==> !pending.contains(
            i as usize,
        ))
    &&& order.len() + pending.len() == rs.len()
}

/// Receipt `i` has a parent that `order` does not place.
pub open spec fn stuck(rs: Seq<ReceiptFacts>, order: Seq<Seq<u8>>, i: int) -> bool {
    exists|p: Seq<u8>| parents_of(rs[i]).contains(p) && !order.contains(p)
}

/// Receipts still pending, each with a parent that was never placed,
/// admit no order that places every parent first.
proof fn lemma_blocked_not_acyclic(rs: Seq<ReceiptFacts>, order: Seq<Seq<u8>>, pending: Seq<usize>)
    requires
        order_state(rs, order, pending),
        pending.len() > 0,
        forall|m: int| 0 <= m < pending.len() ==> stuck(rs, order, #[trigger] pending[m] as int),
    ensures
        !acyclic(rs),
{
    if acyclic(rs) {
        let o = choose|o: Seq<Seq<u8>>| is_topological(rs, o);
        lemma_prefix_placed(rs, order, pending, o, 0);
        assert forall|x: Seq<u8>| o.to_set().contains(x) implies order.to_set().contains(x) by {
            let k = choose|k: int| 0 <= k < o.len() && o[k] == x;
            assert(order.contains(o[k]));
        }
        o.unique_seq_to_set();
        order.lemma_cardinality_of_set();
        vstd::set_lib::lemma_len_subset(o.to_set(), order.to_set());
        assert(false);
    }
}

proof fn lemma_prefix_placed(
    rs: Seq<ReceiptFacts>,
    order: Seq<Seq<u8>>,
    pending: Seq<usize>,
    o: Seq<Seq<u8>>,
    k: int,
)
    requires
        order_state(rs, order, pending),
        is_topological(rs, o),
        forall|m: int| 0 <= m < pending.len() ==> stuck(rs, order, #[trigger] pending[m] as int),
        0 <= k <= o.len(),
        forall|k2: int| 0 <= k2 < k ==> order.contains(#[trigger] o[k2]),
    ensures
        forall|k2: int| 0 <= k2 < o.len() ==> order.contains(#[trigger] o[k2]),
    decreases o.len() - k,
{
    if k < o.len() {
        assert(tx_ids(rs).contains(o[k]));
        let i = choose|i: int| 0 <= i < tx_ids(rs).len() && tx_ids(rs)[i] == o[k];
        assert(rs[i].transaction_id@ == o[k]);
        if !order.contains(o[k]) {
            assert(pending.contains(i as usize));
            let m = choose|m: int| 0 <= m < pending.len() && pending[m] == i as usize;
            assert(pending[m] as int == i);
            assert(stuck(rs, order, pending[m] as int));
            let p = choose|p: Seq<u8>| parents_of(rs[i]).contains(p) && !order.contains(p);
            let k2 = choose|k2: int| 0 <= k2 < k && o[k2] == p;
            assert(order.contains(o[k2]));
            assert(false);
        }
        lemma_prefix_placed(rs, order, pending, o, k + 1);
    }
}

/// Every parent of receipt `i` is placed in `order`.
pub open spec fn placeable(rs: Seq<ReceiptFacts>, order: Seq<Seq<u8>>, i: int) -> bool {
    forall|p: Seq<u8>| parents_of(rs[i]).contains(p) ==> order.contains(p)
}

/// One pass over the pending receipts in order: each whose parents are
/// all placed, earlier in the pass included, is placed; the others stay
/// pending, in order.
pub open spec fn order_pass(rs: Seq<ReceiptFacts>, order: Seq<Seq<u8>>, pending: Seq<usize>) -> (Seq<Seq<u8>>, Seq<usize>)
    decreases pending.len(),
{
    if pending.len() == 0 {
        (order, Seq::empty())
    } else if placeable(rs, order, pending[0] as int) {
        order_pass(rs, order.push(rs[pending[0] as int].transaction_id@), pending.drop_first())
    } else {
        let (o, rest) = order_pass(rs, order, pending.drop_first());
        (o, seq![pending[0]] + rest)
    }
}

/// Passes repeated until nothing is pending (the order placed), or until a
/// pass places nothing (`None`).
pub open spec fn order_rounds(rs: Seq<ReceiptFacts>, order: Seq<Seq<u8>>, pending: Seq<usize>) -> Option<Seq<Seq<u8>>>
    decreases pending.len(),
{
    if pending.len() == 0 {
        Some(order)
    } else {
        let (o, rest) = order_pass(rs, order, pending);
        if rest.len() >= pending.len() {
            None
        } else {
            order_rounds(rs, o, rest)
        }
    }
}

/// Orders the receipts so that every parent precedes its children, placing
/// in rounds each pending receipt whose parents are all placed; fails when
/// a round places nothing.
#[verifier::loop_isolation(false)]
pub fn topological_order(receipts: &Vec<ReceiptFacts>) -> (r: Result<Vec<[u8; 32]>, ExchangeError>)
    requires
        tx_ids_distinct(receipts@),
    ensures
        match r {
            Ok(order) => is_topological(receipts@, digests_view(order@)),
            Err(e) => e == ExchangeError::Exchange(ExchangeErrorCode::AncestryCycle) && !acyclic(
                receipts@,
            ),
        },
        match order_rounds(receipts@, Seq::empty(), Seq::new(receipts@.len(), |m: int| m as usize)) {
            Some(o) => r matches Ok(order) && digests_view(order@) == o,
            None => r is Err,
        },
{
    let ghost rs = receipts@;
    let mut order: Vec<[u8; 32]> = Vec::new();
    let mut pending: Vec<usize> = Vec::new();
    let mut i: usize = 0;
    while i < receipts.len()
        invariant
            i <= rs.len(),
            pending@ == Seq::new(i as nat, |m: int| m as usize),
        decreases receipts.len() - i,
    {
        pending.push(i);
        assert(pending@ =~= Seq::new((i + 1) as nat, |m: int| m as usize));
        i = i + 1;
    }
    proof {
        assert(digests_view(order@) =~= Seq::<Seq<u8>>::empty());
        assert forall|i: int| 0 <= i < rs.len() implies (digests_view(order@).contains(
            #[trigger] rs[i].transaction_id@,
        ) <==> !pending@.contains(i as usize)) by {
            assert(pending@[i] == i as usize);
        }
        assert(pending@.no_duplicates());
    }
    assert(pending@ =~= Seq::new(rs.len(), |m: int| m as usize));
    while pending.len() > 0
        invariant
            rs == receipts@,
            tx_ids_distinct(rs),
            order_state(rs, digests_view(order@), pending@),
            order_rounds(rs, digests_view(order@), pending@) == order_rounds(
                rs,
                Seq::empty(),
                Seq::new(rs.len(), |m: int| m as usize),
            ),
        decreases pending@.len(),
    {
        let ghost start = digests_view(order@);
        let mut remaining: Vec<usize> = Vec::new();
        let mut progressed = false;
        let mut j: usize = 0;
        assert(remaining@ + pending@.skip(0) =~= pending@);
        assert(pending@.skip(0) =~= pending@);
        assert(remaining@ + order_pass(rs, start, pending@).1 =~= order_pass(rs, start, pending@).1);
        while j < pending.len()
            invariant
                rs == receipts@,
                tx_ids_distinct(rs),
                j <= pending@.len(),
                order_state(rs, digests_view(order@), remaining@ + pending@.skip(j as int)),
                !progressed ==> digests_view(order@) == start,
                progressed ==> remaining@.len() < j,
                remaining@.len() <= j,
                !progressed ==> forall|m: int|
                    0 <= m < remaining@.len() ==> stuck(rs, digests_view(order@), #[trigger] remaining@[m] as int),
                !progressed ==> remaining@.len() == j,
                order_pass(rs, start, pending@) == (
                    order_pass(rs, digests_view(order@), pending@.skip(j as int)).0,
                    remaining@ + order_pass(rs, digests_view(order@), pending@.skip(j as int)).1,
                ),
            decreases pending.len() - j,
        {
            let idx = pending[j];
            let ghost ov = digests_view(order@);
            let ghost rest = remaining@ + pending@.skip(j as int);
            proof {
                assert(rest[remaining@.len() as int] == idx);
                assert(pending@.skip(j + 1) =~= pending@.skip(j as int).drop_first());
            }
            proof {
                assert(pending@.skip(j as int)[0] == idx);
            }
            if all_parents_placed(&receipts[idx].parents, &order) {
                order.push(receipts[idx].transaction_id);
                progressed = true;
                proof {
                    assert(digests_view(order@) =~= ov.push(rs[idx as int].transaction_id@));
                    let nv = digests_view(order@);
                    let nrest = remaining@ + pending@.skip(j + 1);
                    assert(nv =~= ov.push(rs[idx as int].transaction_id@));
                    assert(nrest =~= rest.remove(remaining@.len() as int));
                    lemma_place(rs, ov, rest, remaining@.len() as int);
                }
            } else {
                let ghost before = remaining@;
                remaining.push(idx);
                proof {
                    let (o2, rest2) = order_pass(rs, ov, pending@.skip(j + 1));
                    assert(remaining@ + rest2 =~= before + (seq![idx] + rest2));
                    assert(remaining@ + pending@.skip(j + 1) =~= rest);
                    assert(stuck(rs, ov, idx as int));
                    if !progressed {
                        assert forall|m: int|
                            0 <= m < remaining@.len() implies stuck(rs, digests_view(order@), #[trigger] remaining@[m] as int) by {
                            if m < before.len() {
                                assert(remaining@[m] == before[m]);
                            } else {
                                assert(remaining@[m] == idx);
                            }
                        }
                    }
                }
            }
            j = j + 1;
        }
        proof {
            assert(pending@.skip(j as int) =~= Seq::<usize>::empty());
            assert(remaining@ + pending@.skip(j as int) =~= remaining@);
            assert(remaining@ + Seq::<usize>::empty() =~= remaining@);
        }
        if !progressed {
            proof {
                lemma_blocked_not_acyclic(rs, digests_view(order@), remaining@);
            }
            return Err(ExchangeError::Exchange(ExchangeErrorCode::AncestryCycle));
        }
        pending = remaining;
    }
    proof {
        let ov = digests_view(order@);
        assert forall|k: int| 0 <= k < ov.len() implies tx_ids(rs).contains(#[trigger] ov[k]) by {}
    }
    Ok(order)
}

/// Placing a pending receipt whose parents are all placed keeps the state.
proof fn lemma_place(rs: Seq<ReceiptFacts>, order: Seq<Seq<u8>>, pending: Seq<usize>, m: int)
    requires
        tx_ids_distinct(rs),
        order_state(rs, order, pending),
        0 <= m < pending.len(),
        forall|p: Seq<u8>| parents_of(rs[pending[m] as int]).contains(p) ==> order.contains(p),
    ensures
        order_state(rs, order.push(rs[pending[m] as int].transaction_id@), pending.remove(m)),
{
    let i = pending[m] as int;
    let t = rs[i].transaction_id@;
    let no = order.push(t);
    let np = pending.remove(m);
    assert(!order.contains(t)) by {
        assert(pending.contains(i as usize));
    }
    assert(no.no_duplicates()) by {
        assert forall|a: int, b: int| 0 <= a < b < no.len() implies no[a] != no[b] by {
            if b == order.len() {
                assert(no[a] == order[a]);
                assert(order.contains(order[a]));
            }
        }
    }
    assert(tx_ids(rs)[i] == t);
    assert forall|k: int| 0 <= k < no.len() implies tx_ids(rs).contains(#[trigger] no[k]) by {
        if k < order.len() {
            assert(no[k] == order[k]);
        }
    }
    assert forall|i2: int, k: int|
        #![trigger rs[i2], no[k]]
        0 <= i2 < rs.len() && 0 <= k < no.len() && no[k] == rs[i2].transaction_id@ implies forall|p: Seq<u8>|
            parents_of(rs[i2]).contains(p) ==> exists|k2: int| 0 <= k2 < k && no[k2] == p by {
        if k < order.len() {
            assert(no[k] == order[k]);
            assert forall|p: Seq<u8>| parents_of(rs[i2]).contains(p) implies exists|k2: int|
                0 <= k2 < k && no[k2] == p by {
                let k2 = choose|k2: int| 0 <= k2 < k && order[k2] == p;
                assert(no[k2] == p);
            }
        } else {
            if i2 != i {
                assert(rs[i2].transaction_id@ != rs[i].transaction_id@);
            }
            assert forall|p: Seq<u8>| parents_of(rs[i2]).contains(p) implies exists|k2: int|
                0 <= k2 < k && no[k2] == p by {
                assert(order.contains(p));
                let k2 = choose|k2: int| 0 <= k2 < order.len() && order[k2] == p;
                assert(no[k2] == p);
            }
        }
    }
    assert forall|x: int| 0 <= x < np.len() implies (#[trigger] np[x]) < rs.len() by {
        if x < m {
            assert(np[x] == pending[x]);
        } else {
            assert(np[x] == pending[x + 1]);
        }
    }
    assert(np.no_duplicates()) by {
        assert forall|a: int, b: int| 0 <= a < b < np.len() implies np[a] != np[b] by {
            let pa = if a < m { a } else { a + 1 };
            let pb = if b < m { b } else { b + 1 };
            assert(np[a] == pending[pa] && np[b] == pending[pb]);
        }
    }
    assert forall|i2: int| 0 <= i2 < rs.len() implies (no.contains(#[trigger] rs[i2].transaction_id@)
        <==> !np.contains(i2 as usize)) by {
        if i2 == i {
            assert(no[order.len() as int] == t);
            if np.contains(i2 as usize) {
                let x = choose|x: int| 0 <= x < np.len() && np[x] == i2 as usize;
                let px = if x < m { x } else { x + 1 };
                assert(pending[px] == pending[m]);
            }
        } else {
            assert(rs[i2].transaction_id@ != t);
            if no.contains(rs[i2].transaction_id@) {
                let k = choose|k: int| 0 <= k < no.len() && no[k] == rs[i2].transaction_id@;
                assert(order[k] == rs[i2].transaction_id@);
            }
            if order.contains(rs[i2].transaction_id@) {
                let k = choose|k: int| 0 <= k < order.len() && order[k] == rs[i2].transaction_id@;
                assert(no[k] == rs[i2].transaction_id@);
            }
            if pending.contains(i2 as usize) {
                let x = choose|x: int| 0 <= x < pending.len() && pending[x] == i2 as usize;
                assert(pending[m] as int == i);
                assert((i2 as usize) as int == i2);
                assert(x != m);
                if x < m {
                    assert(np[x] == i2 as usize);
                } else {
                    assert(np[x - 1] == i2 as usize);
                }
            }
            if np.contains(i2 as usize) {
                let x = choose|x: int| 0 <= x < np.len() && np[x] == i2 as usize;
                if x < m {
                    assert(pending[x] == i2 as usize);
                } else {
                    assert(pending[x + 1] == i2 as usize);
                }
            }
        }
    }
}

/// Every identity any node references, node by node.
pub open spec fn all_refs(ns: Seq<NodeView>) -> Seq<Seq<u8>>
    decreases ns.len(),
{
    if ns.len() == 0 {
        Seq::empty()
    } else {
        match ns[0].1 {
            Some(refs) => refs + all_refs(ns.drop_first()),
            None => all_refs(ns.drop_first()),
        }
    }
}

proof fn lemma_successor_in_refs(ns: Seq<NodeView>, x: Seq<u8>, y: Seq<u8>)
    requires
        successor(ns, x, y),
    ensures
        all_refs(ns).contains(y),
    decreases ns.len(),
{
    if ns[0].0 == x {
        let refs = ns[0].1->0;
        let k = choose|k: int| 0 <= k < refs.len() && refs[k] == y;
        assert((refs + all_refs(ns.drop_first()))[k] == y);
    } else {
        lemma_successor_in_refs(ns.drop_first(), x, y);
        let rest = all_refs(ns.drop_first());
        let k = choose|k: int| 0 <= k < rest.len() && rest[k] == y;
        match ns[0].1 {
            Some(refs) => {
                assert((refs + rest)[refs.len() + k] == y);
            },
            None => {},
        }
    }
}

/// Computes everything reachable from `seeds` along references; an
/// identity without a node has no references.
#[verifier::loop_isolation(false)]
pub fn dependency_closure(nodes: &Vec<GraphNode>, seeds: &Vec<[u8; 32]>) -> (r: Vec<[u8; 32]>)
    ensures
        digests_view(r@).no_duplicates(),
        forall|x: Seq<u8>|
            digests_view(r@).contains(x) <==> in_closure(node_views(nodes@), digests_view(seeds@).to_set(), x),
{
    let ghost ns = node_views(nodes@);
    let ghost sv = digests_view(seeds@);
    let ghost universe = sv + all_refs(ns);
    let mut closure: Vec<[u8; 32]> = Vec::new();
    let mut k: usize = 0;
    while k < seeds.len()
        invariant
            k <= seeds@.len(),
            digests_view(closure@).no_duplicates(),
            forall|x: Seq<u8>| digests_view(closure@).contains(x) <==> sv.take(k as int).contains(x),
        decreases seeds.len() - k,
    {
        let ghost before = digests_view(closure@);
        proof {
            assert(sv.take(k + 1) =~= sv.take(k as int).push(sv[k as int]));
        }
        if !contains_id(&closure, &seeds[k]) {
            closure.push(seeds[k]);
            proof {
                assert(digests_view(closure@) =~= before.push(sv[k as int]));
                assert forall|x: Seq<u8>| digests_view(closure@).contains(x) <==> sv.take(k + 1).contains(x) by {
                    lemma_push_has(before, sv[k as int], x);
                    lemma_push_has(sv.take(k as int), sv[k as int], x);
                }
            }
        } else {
            proof {
                assert forall|x: Seq<u8>| digests_view(closure@).contains(x) <==> sv.take(k + 1).contains(x) by {
                    lemma_push_has(sv.take(k as int), sv[k as int], x);
                }
            }
        }
        k = k + 1;
    }
    proof {
        assert(sv.take(k as int) =~= sv);
        assert forall|x: Seq<u8>| digests_view(closure@).contains(x) implies in_closure(ns, sv.to_set(), x) by {
            assert(sv.to_set().contains(x));
        }
        assert forall|x: Seq<u8>| digests_view(closure@).contains(x) implies universe.contains(x) by {
            let m = choose|m: int| 0 <= m < sv.len() && sv[m] == x;
            assert(universe[m] == x);
        }
    }
    let mut added = true;
    while added
        invariant
            ns == node_views(nodes@),
            universe == sv + all_refs(ns),
            digests_view(closure@).no_duplicates(),
            forall|x: Seq<u8>| sv.contains(x) ==> digests_view(closure@).contains(x),
            forall|x: Seq<u8>| digests_view(closure@).contains(x) ==> in_closure(ns, sv.to_set(), x),
            forall|x: Seq<u8>| digests_view(closure@).contains(x) ==> universe.contains(x),
            !added ==> closed(ns, digests_view(closure@).to_set()),
        decreases universe.len() - digests_view(closure@).len(), if added { 1int } else { 0int },
    {
        let ghost start = digests_view(closure@);
        proof {
            lemma_bounded(start, universe);
        }
        added = false;
        let count = closure.len();
        let mut i: usize = 0;
        while i < count
            invariant
                ns == node_views(nodes@),
                universe == sv + all_refs(ns),
                count == start.len(),
                i <= count,
                start.len() <= digests_view(closure@).len(),
                digests_view(closure@).take(count as int) == start,
                !added ==> digests_view(closure@) == start,
                added ==> digests_view(closure@).len() > start.len(),
                digests_view(closure@).no_duplicates(),
                forall|x: Seq<u8>| sv.contains(x) ==> digests_view(closure@).contains(x),
                forall|x: Seq<u8>| digests_view(closure@).contains(x) ==> in_closure(ns, sv.to_set(), x),
                forall|x: Seq<u8>| digests_view(closure@).contains(x) ==> universe.contains(x),
                forall|a: int, y: Seq<u8>|
                    #![trigger successor(ns, start[a], y)]
                    0 <= a < i && successor(ns, start[a], y) ==> digests_view(closure@).contains(y),
            decreases count - i,
        {
            let member = closure[i];
            proof {
                assert(digests_view(closure@).take(count as int)[i as int] == start[i as int]);
                assert(member@ == start[i as int]);
                assert(digests_view(closure@).contains(member@));
            }
            let ghost grown = digests_view(closure@);
            match lookup_node(nodes, &member) {
                None => {},
                Some(index) => {
                    match &nodes[index].references {
                        None => {},
                        Some(deps) => {
                            proof {
                                assert(node_views(nodes@)[index as int] == nodes@[index as int]@);
                                assert(lookup(ns, member@) == Some(Some(digests_view(deps@))));
                            }
                            let mut d: usize = 0;
                            while d < deps.len()
                                invariant
                                    ns == node_views(nodes@),
                                    universe == sv + all_refs(ns),
                                    lookup(ns, member@) == Some(Some(digests_view(deps@))),
                                    member@ == start[i as int],
                                    in_closure(ns, sv.to_set(), member@),
                                    d <= deps@.len(),
                                    count == start.len(),
                                    start.len() <= digests_view(closure@).len(),
                                    digests_view(closure@).take(count as int) == start,
                                    !added ==> digests_view(closure@) == start,
                                    added ==> digests_view(closure@).len() > start.len(),
                                    digests_view(closure@).no_duplicates(),
                                    forall|x: Seq<u8>| grown.contains(x) ==> digests_view(closure@).contains(x),
                                    forall|x: Seq<u8>| digests_view(closure@).contains(x) ==> in_closure(ns, sv.to_set(), x),
                                    forall|x: Seq<u8>| digests_view(closure@).contains(x) ==> universe.contains(x),
                                    forall|m: int| 0 <= m < d ==> digests_view(closure@).contains(#[trigger] digests_view(deps@)[m]),
                                decreases deps.len() - d,
                            {
                                if !contains_id(&closure, &deps[d]) {
                                    let ghost before = digests_view(closure@);
                                    let ghost y = deps@[d as int]@;
                                    closure.push(deps[d]);
                                    added = true;
                                    proof {
                                        assert(digests_view(closure@) =~= before.push(y));
                                        assert(digests_view(closure@).take(count as int) =~= before.take(count as int));
                                        assert(digests_view(deps@)[d as int] == y);
                                        assert(successor(ns, member@, y));
                                        assert(in_closure(ns, sv.to_set(), y)) by {
                                            assert forall|s2: Set<Seq<u8>>| #![trigger closed(ns, s2)] sv.to_set().subset_of(s2) && closed(ns, s2) implies s2.contains(y) by {
                                                assert(s2.contains(member@));
                                            }
                                        }
                                        lemma_successor_in_refs(ns, member@, y);
                                        let r = all_refs(ns);
                                        let kk = choose|kk: int| 0 <= kk < r.len() && r[kk] == y;
                                        assert(universe[sv.len() + kk] == y);
                                        assert forall|x: Seq<u8>| digests_view(closure@).contains(x) implies in_closure(ns, sv.to_set(), x) && universe.contains(x) by {
                                            lemma_push_has(before, y, x);
                                        }
                                        assert forall|x: Seq<u8>| grown.contains(x) implies digests_view(closure@).contains(x) by {
                                            lemma_push_has(before, y, x);
                                        }
                                        assert forall|m: int| 0 <= m < d + 1 implies digests_view(closure@).contains(#[trigger] digests_view(deps@)[m]) by {
                                            lemma_push_has(before, y, digests_view(deps@)[m]);
                                        }
                                        assert(digests_view(closure@).no_duplicates()) by {
                                            assert forall|p: int, q: int| 0 <= p < q < digests_view(closure@).len() implies digests_view(closure@)[p] != digests_view(closure@)[q] by {
                                                if q == before.len() {
                                                    assert(before.contains(before[p]));
                                                }
                                            }
                                        }
                                    }
                                }
                                d = d + 1;
                            }
                            proof {
                                assert forall|y: Seq<u8>| successor(ns, member@, y) implies digests_view(closure@).contains(y) by {
                                    let dv = digests_view(deps@);
                                    let m = choose|m: int| 0 <= m < dv.len() && dv[m] == y;
                                }
                            }
                        },
                    }
                },
            }
            proof {
                assert forall|a: int, y: Seq<u8>|
                    #![trigger successor(ns, start[a], y)]
                    0 <= a < i + 1 && successor(ns, start[a], y) implies digests_view(closure@).contains(y) by {
                    if a < i {
                        assert(grown.contains(y));
                    }
                }
            }
            i = i + 1;
        }
        proof {
            lemma_bounded(digests_view(closure@), universe);
            if !added {
                let cs = digests_view(closure@).to_set();
                assert forall|x: Seq<u8>, y: Seq<u8>| #[trigger] successor(ns, x, y) && cs.contains(x) implies cs.contains(y) by {
                    assert(start.contains(x));
                    let a = choose|a: int| 0 <= a < start.len() && start[a] == x;
                    assert(successor(ns, start[a], y));
                }
            }
        }
    }
    proof {
        let cs = digests_view(closure@).to_set();
        assert(sv.to_set().subset_of(cs));
        assert forall|x: Seq<u8>| in_closure(ns, sv.to_set(), x) implies digests_view(closure@).contains(x) by {
            assert(cs.contains(x));
        }
    }
    closure
}

proof fn lemma_bounded(s: Seq<Seq<u8>>, universe: Seq<Seq<u8>>)
    requires
        s.no_duplicates(),
        forall|x: Seq<u8>| s.contains(x) ==> universe.contains(x),
    ensures
        s.len() <= universe.len(),
{
    s.unique_seq_to_set();
    universe.lemma_cardinality_of_set();
    assert(s.to_set().subset_of(universe.to_set()));
    vstd::set_lib::lemma_len_subset(s.to_set(), universe.to_set());
}

proof fn lemma_push_has<A>(s: Seq<A>, t: A, x: A)
    ensures
        s.push(t).contains(x) <==> (s.contains(x) || x == t),
{
    if s.contains(x) {
        let m = choose|m: int| 0 <= m < s.len() && s[m] == x;
        assert(s.push(t)[m] == x);
    }
    if x == t {
        assert(s.push(t)[s.len() as int] == t);
    }
    if s.push(t).contains(x) {
        let m = choose|m: int| 0 <= m < s.push(t).len() && s.push(t)[m] == x;
        if m < s.len() {
            assert(s[m] == x);
        }
    }
}

/// What the closure rules read of one embedded pack root.
#[derive(Clone, Debug, PartialEq, Eq)]
pub struct PackRootFacts {
    /// The root.
    pub root: [u8; 32],
    /// The roots it depends on.
    pub dependency_roots: Vec<[u8; 32]>,
}

/// The dependency graph of the embedded pack roots.
pub open spec fn pack_graph(pack: Seq<PackRootFacts>) -> Seq<NodeView> {
    pack.map_values(|p: PackRootFacts| (p.root@, Some(digests_view(p.dependency_roots@))))
}

/// The roots the receipts committed.
pub open spec fn committed_roots(rs: Seq<ReceiptFacts>) -> Seq<Seq<u8>> {
    rs.map_values(|r: ReceiptFacts| r.committed_root@)
}

/// The first failure of the per-receipt rules from receipt `i` on, with
/// `genesis` trusted geneses and the workspace seen so far: a parent
/// outside the receipts, a genesis with parents, an ordinary transaction
/// without exactly one parent and one parent root, or a second workspace;
/// at the end, anything but exactly one genesis.
pub open spec fn receipt_rules_from(
    rs: Seq<ReceiptFacts>,
    i: int,
    genesis: nat,
    workspace: Option<Seq<u8>>,
) -> Option<ExchangeErrorCode>
    decreases rs.len() - i,
{
    if i < 0 || i >= rs.len() {
        if genesis != 1 {
            Some(ExchangeErrorCode::AncestryOpen)
        } else {
            None
        }
    } else {
        let r = rs[i];
        if exists|p: Seq<u8>| parents_of(r).contains(p) && !tx_ids(rs).contains(p) {
            Some(ExchangeErrorCode::AncestryOpen)
        } else if r.genesis && r.parents@.len() != 0 {
            Some(ExchangeErrorCode::AncestryOpen)
        } else if !r.genesis && (r.parents@.len() != 1 || r.parent_roots != 1) {
            Some(ExchangeErrorCode::AncestryOpen)
        } else if workspace is Some && workspace->0 != r.workspace_id@ {
            Some(ExchangeErrorCode::WorkspaceMismatch)
        } else {
            receipt_rules_from(
                rs,
                i + 1,
                genesis + if r.genesis {
                    1nat
                } else {
                    0nat
                },
                Some(r.workspace_id@),
            )
        }
    }
}

/// The closure rules of an exchange, checked in turn: the per-receipt
/// rules, an acyclic ancestry, a head that names one of the receipts with
/// its receipt identity, and embedded pack roots that are exactly the
/// dependency closure of the committed roots.
pub open spec fn closure_rules_spec(
    head: (Seq<u8>, Seq<u8>),
    rs: Seq<ReceiptFacts>,
    pack: Seq<PackRootFacts>,
) -> Result<(), ExchangeError> {
    match receipt_rules_from(rs, 0, 0, None) {
        Some(c) => Err(ExchangeError::Exchange(c)),
        None => if !acyclic(rs) {
            Err(ExchangeError::Exchange(ExchangeErrorCode::AncestryCycle))
        } else if !(exists|i: int|
            0 <= i < rs.len() && rs[i].transaction_id@ == head.0 && rs[i].receipt_id@ == head.1) {
            Err(ExchangeError::Exchange(ExchangeErrorCode::HeadInvalid))
        } else if !(forall|x: Seq<u8>|
            pack.map_values(|p: PackRootFacts| p.root@).contains(x) <==> in_closure(
                pack_graph(pack),
                committed_roots(rs).to_set(),
                x,
            )) {
            Err(ExchangeError::Exchange(ExchangeErrorCode::RootClosure))
        } else {
            Ok(())
        },
    }
}

fn has_transaction(receipts: &Vec<ReceiptFacts>, id: &[u8; 32]) -> (r: Option<usize>)
    ensures
        match r {
            Some(i) => i < receipts@.len() && receipts@[i as int].transaction_id@ == id@,
            None => !tx_ids(receipts@).contains(id@),
        },
{
    let mut i: usize = 0;
    while i < receipts.len()
        invariant
            i <= receipts@.len(),
            forall|m: int| 0 <= m < i ==> receipts@[m].transaction_id@ != id@,
        decreases receipts.len() - i,
    {
        if bytes_equal(receipts[i].transaction_id.as_slice(), id.as_slice()) {
            return Some(i);
        }
        i = i + 1;
    }
    proof {
        if tx_ids(receipts@).contains(id@) {
            let m = choose|m: int| 0 <= m < tx_ids(receipts@).len() && tx_ids(receipts@)[m] == id@;
        }
    }
    None
}

fn parents_present(receipts: &Vec<ReceiptFacts>, parents: &Vec<[u8; 32]>) -> (r: bool)
    ensures
        r == !exists|p: Seq<u8>| digests_view(parents@).contains(p) && !tx_ids(receipts@).contains(p),
{
    let mut k: usize = 0;
    while k < parents.len()
        invariant
            k <= parents@.len(),
            forall|m: int| 0 <= m < k ==> tx_ids(receipts@).contains(#[trigger] digests_view(parents@)[m]),
        decreases parents.len() - k,
    {
        match has_transaction(receipts, &parents[k]) {
            None => {
                assert(digests_view(parents@).contains(digests_view(parents@)[k as int]));
                return false;
            },
            Some(i) => {
                assert(tx_ids(receipts@)[i as int] == digests_view(parents@)[k as int]);
            },
        }
        k = k + 1;
    }
    proof {
        if exists|p: Seq<u8>| digests_view(parents@).contains(p) && !tx_ids(receipts@).contains(p) {
            let p = choose|p: Seq<u8>| digests_view(parents@).contains(p) && !tx_ids(receipts@).contains(p);
            let m = choose|m: int| 0 <= m < digests_view(parents@).len() && digests_view(parents@)[m] == p;
        }
    }
    true
}

fn ids_within(ids: &Vec<[u8; 32]>, set: &Vec<[u8; 32]>) -> (r: bool)
    ensures
        r == forall|x: Seq<u8>| digests_view(ids@).contains(x) ==> digests_view(set@).contains(x),
{
    let mut k: usize = 0;
    while k < ids.len()
        invariant
            k <= ids@.len(),
            forall|m: int| 0 <= m < k ==> digests_view(set@).contains(#[trigger] digests_view(ids@)[m]),
        decreases ids.len() - k,
    {
        if !contains_id(set, &ids[k]) {
            assert(digests_view(ids@).contains(digests_view(ids@)[k as int]));
            return false;
        }
        k = k + 1;
    }
    proof {
        assert forall|x: Seq<u8>| digests_view(ids@).contains(x) implies digests_view(set@).contains(x) by {
            let m = choose|m: int| 0 <= m < digests_view(ids@).len() && digests_view(ids@)[m] == x;
        }
    }
    true
}

/// Checks the closure rules of an exchange over its receipts, in
/// transaction order, and its embedded pack roots, in root order.
#[verifier::loop_isolation(false)]
pub fn verify_closure_rules(
    head: &ExchangeHeadEntry,
    receipts: &Vec<ReceiptFacts>,
    pack_roots: &Vec<PackRootFacts>,
) -> (r: Result<(), ExchangeError>)
    requires
        tx_ids_distinct(receipts@),
    ensures
        r == closure_rules_spec((head.transaction_id@, head.receipt_id@), receipts@, pack_roots@),
{
    let ghost rs = receipts@;
    let mut genesis: usize = 0;
    let mut workspace: Option<[u8; 32]> = None;
    let mut i: usize = 0;
    while i < receipts.len()
        invariant
            i <= rs.len(),
            genesis <= i,
            receipt_rules_from(rs, 0, 0, None) == receipt_rules_from(
                rs,
                i as int,
                genesis as nat,
                match workspace {
                    Some(w) => Some(w@),
                    None => None,
                },
            ),
        decreases receipts.len() - i,
    {
        let receipt = &receipts[i];
        if !parents_present(receipts, &receipt.parents) {
            return Err(ExchangeError::Exchange(ExchangeErrorCode::AncestryOpen));
        }
        if receipt.genesis {
            if receipt.parents.len() != 0 {
                return Err(ExchangeError::Exchange(ExchangeErrorCode::AncestryOpen));
            }
            genesis = genesis + 1;
        } else if receipt.parents.len() != 1 || receipt.parent_roots != 1 {
            return Err(ExchangeError::Exchange(ExchangeErrorCode::AncestryOpen));
        }
        match workspace {
            None => {},
            Some(w) => {
                if !bytes_equal(w.as_slice(), receipt.workspace_id.as_slice()) {
                    return Err(ExchangeError::Exchange(ExchangeErrorCode::WorkspaceMismatch));
                }
            },
        }
        workspace = Some(receipt.workspace_id);
        i = i + 1;
    }
    if genesis != 1 {
        return Err(ExchangeError::Exchange(ExchangeErrorCode::AncestryOpen));
    }
    topological_order(receipts)?;
    match has_transaction(receipts, &head.transaction_id) {
        Some(h) => {
            if !bytes_equal(receipts[h].receipt_id.as_slice(), head.receipt_id.as_slice()) {
                proof {
                    assert forall|i: int|
                        0 <= i < rs.len() && rs[i].transaction_id@ == head.transaction_id@ implies rs[i].receipt_id@
                        != head.receipt_id@ by {
                        if i != h {
                            if i < h {
                                assert(rs[i].transaction_id@ != rs[h as int].transaction_id@);
                            } else {
                                assert(rs[h as int].transaction_id@ != rs[i].transaction_id@);
                            }
                        }
                    }
                }
                return Err(ExchangeError::Exchange(ExchangeErrorCode::HeadInvalid));
            }
        },
        None => {
            proof {
                assert forall|i: int|
                    0 <= i < rs.len() && rs[i].transaction_id@ == head.transaction_id@ implies false by {
                    assert(tx_ids(rs)[i] == head.transaction_id@);
                }
            }
            return Err(ExchangeError::Exchange(ExchangeErrorCode::HeadInvalid));
        },
    }
    let mut nodes: Vec<GraphNode> = Vec::new();
    let mut pack_ids: Vec<[u8; 32]> = Vec::new();
    let mut k: usize = 0;
    while k < pack_roots.len()
        invariant
            k <= pack_roots@.len(),
            node_views(nodes@) == pack_graph(pack_roots@).take(k as int),
            digests_view(pack_ids@) == pack_roots@.map_values(|p: PackRootFacts| p.root@).take(k as int),
        decreases pack_roots.len() - k,
    {
        let deps = crate::gc::copy_ids(&pack_roots[k].dependency_roots);
        let node = GraphNode { id: pack_roots[k].root, references: Some(deps) };
        let ghost before = node_views(nodes@);
        let ghost before_ids = digests_view(pack_ids@);
        nodes.push(node);
        pack_ids.push(pack_roots[k].root);
        proof {
            assert(node_views(nodes@) =~= before.push(node@));
            assert(pack_graph(pack_roots@).take(k + 1) =~= pack_graph(pack_roots@).take(k as int).push(
                pack_graph(pack_roots@)[k as int],
            ));
            assert(digests_view(pack_ids@) =~= before_ids.push(pack_roots@[k as int].root@));
            assert(pack_roots@.map_values(|p: PackRootFacts| p.root@).take(k + 1) =~= pack_roots@.map_values(
                |p: PackRootFacts| p.root@,
            ).take(k as int).push(pack_roots@[k as int].root@));
        }
        k = k + 1;
    }
    proof {
        assert(pack_graph(pack_roots@).take(k as int) =~= pack_graph(pack_roots@));
        assert(pack_roots@.map_values(|p: PackRootFacts| p.root@).take(k as int) =~= pack_roots@.map_values(
            |p: PackRootFacts| p.root@,
        ));
    }
    let mut committed: Vec<[u8; 32]> = Vec::new();
    let mut c: usize = 0;
    while c < receipts.len()
        invariant
            c <= rs.len(),
            digests_view(committed@) == committed_roots(rs).take(c as int),
        decreases receipts.len() - c,
    {
        let ghost before = digests_view(committed@);
        committed.push(receipts[c].committed_root);
        proof {
            assert(digests_view(committed@) =~= before.push(rs[c as int].committed_root@));
            assert(committed_roots(rs).take(c + 1) =~= committed_roots(rs).take(c as int).push(
                rs[c as int].committed_root@,
            ));
        }
        c = c + 1;
    }
    assert(committed_roots(rs).take(c as int) =~= committed_roots(rs));
    let closure = dependency_closure(&nodes, &committed);
    if !ids_within(&pack_ids, &closure) || !ids_within(&closure, &pack_ids) {
        return Err(ExchangeError::Exchange(ExchangeErrorCode::RootClosure));
    }
    Ok(())
}

/// The node of one receipt: its transaction, referencing its parents.
pub open spec fn receipt_node(r: ReceiptFacts) -> NodeView {
    (r.transaction_id@, Some(parents_of(r)))
}

/// The transactions reachable from `seeds` through recorded parents.
pub open spec fn reachable_transactions(rs: Seq<ReceiptFacts>, seeds: Seq<Seq<u8>>) -> Set<Seq<u8>> {
    Set::new(|x: Seq<u8>| in_closure(rs.map_values(|r: ReceiptFacts| receipt_node(r)), seeds.to_set(), x))
}

fn receipt_nodes(receipts: &Vec<ReceiptFacts>) -> (r: Vec<GraphNode>)
    ensures
        node_views(r@) == receipts@.map_values(|x: ReceiptFacts| receipt_node(x)),
{
    let mut out: Vec<GraphNode> = Vec::new();
    let mut i: usize = 0;
    while i < receipts.len()
        invariant
            i <= receipts@.len(),
            node_views(out@) == receipts@.map_values(|x: ReceiptFacts| receipt_node(x)).take(i as int),
        decreases receipts.len() - i,
    {
        let ghost before = node_views(out@);
        let mut parents: Vec<[u8; 32]> = Vec::new();
        let mut j: usize = 0;
        while j < receipts[i].parents.len()
            invariant
                i < receipts@.len(),
                j <= receipts@[i as int].parents@.len(),
                digests_view(parents@) == digests_view(receipts@[i as int].parents@).take(j as int),
            decreases receipts@[i as int].parents@.len() - j,
        {
            let ghost pb = digests_view(parents@);
            parents.push(receipts[i].parents[j]);
            assert(digests_view(parents@) =~= pb.push(receipts@[i as int].parents@[j as int]@));
            assert(digests_view(receipts@[i as int].parents@).take(j + 1) =~= digests_view(
                receipts@[i as int].parents@,
            ).take(j as int).push(receipts@[i as int].parents@[j as int]@));
            j = j + 1;
        }
        assert(digests_view(receipts@[i as int].parents@).take(j as int) =~= digests_view(
            receipts@[i as int].parents@,
        ));
        let node = GraphNode { id: receipts[i].transaction_id, references: Some(parents) };
        out.push(node);
        proof {
            assert(node_views(out@) =~= before.push(receipt_node(receipts@[i as int])));
            assert(receipts@.map_values(|x: ReceiptFacts| receipt_node(x)).take(i + 1) =~= receipts@.map_values(
                |x: ReceiptFacts| receipt_node(x),
            ).take(i as int).push(receipt_node(receipts@[i as int])));
        }
        i = i + 1;
    }
    assert(receipts@.map_values(|x: ReceiptFacts| receipt_node(x)).take(i as int) =~= receipts@.map_values(
        |x: ReceiptFacts| receipt_node(x),
    ));
    out
}

/// Checks that the exchange carries no surplus receipt: the transactions
/// reachable through recorded parents from the accepted head and from each
/// branch's head and origin (`branch_ends`) are exactly as many as the
/// receipts.
pub fn verify_no_surplus(receipts: &Vec<ReceiptFacts>, head: &[u8; 32], branch_ends: &Vec<[u8; 32]>) -> (r:
    Result<(), ExchangeError>)
    ensures
        r is Ok <==> reachable_transactions(receipts@, seq![head@] + digests_view(branch_ends@)).len()
            == receipts@.len(),
        r is Err ==> r == Err::<(), ExchangeError>(ExchangeError::Exchange(ExchangeErrorCode::AncestrySurplus)),
{
    let nodes = receipt_nodes(receipts);
    let mut seeds: Vec<[u8; 32]> = Vec::new();
    seeds.push(*head);
    let mut k: usize = 0;
    while k < branch_ends.len()
        invariant
            k <= branch_ends@.len(),
            digests_view(seeds@) == seq![head@] + digests_view(branch_ends@).take(k as int),
        decreases branch_ends.len() - k,
    {
        let ghost before = digests_view(seeds@);
        seeds.push(branch_ends[k]);
        assert(digests_view(seeds@) =~= before.push(branch_ends@[k as int]@));
        assert(digests_view(branch_ends@).take(k + 1) =~= digests_view(branch_ends@).take(k as int).push(
            branch_ends@[k as int]@,
        ));
        k = k + 1;
    }
    assert(digests_view(branch_ends@).take(k as int) =~= digests_view(branch_ends@));
    let reached = dependency_closure(&nodes, &seeds);
    proof {
        let set = reachable_transactions(receipts@, seq![head@] + digests_view(branch_ends@));
        assert(digests_view(reached@).to_set() =~= set);
        digests_view(reached@).unique_seq_to_set();
    }
    if reached.len() != receipts.len() {
        return Err(ExchangeError::Exchange(ExchangeErrorCode::AncestrySurplus));
    }
    Ok(())
}

} // verus!
