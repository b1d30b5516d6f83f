//! The discovered-list engine and the reference processor.
//!
//! During tracing, each worker threads the reference objects it meets onto a
//! per-worker, per-kind singly linked list through the objects' own
//! discovery-link fields; a non-empty list's last node links to itself.  At
//! phase boundaries the processor drains the lists: it decides liveness per
//! node, clears or retains referents by kind, and splices survivors into the
//! host pending queue through the host's atomic head-swap primitive.  Final
//! references survive one drain under collector ownership and are enqueued
//! only by the following resurrection pass.

use crate::heap::{Heap, RefKind, RefObject};
use vstd::prelude::*;

verus! {

/// What a discovered list asks of each of its nodes: a live, unrelocated
/// object of the modelled heap.
pub open spec fn node_ok(h: Heap, n: u64) -> bool {
    &&& h.has_obj(n)
    &&& !h.moved@.dom().contains(n)
    &&& h.obj(n).live
}

/// A discovered list in the heap: `s` lists the nodes from the head on, each
/// node's discovery link leads to the next (after resolving relocation), and
/// the last node links to itself.
pub open spec fn chain_wf(h: Heap, head: Option<u64>, s: Seq<u64>) -> bool {
    &&& match head {
        None => s.len() == 0,
        Some(hd) => s.len() > 0 && s[0] == hd,
    }
    &&& s.no_duplicates()
    &&& forall|i: int| 0 <= i < s.len() ==> node_ok(h, #[trigger] s[i])
    &&& forall|i: int| 0 <= i < s.len() - 1 ==> h.link_of(#[trigger] s[i]) == Some(s[i + 1])
    &&& s.len() > 0 ==> h.link_of(s[s.len() - 1]) == Some(s[s.len() - 1])
}

/// Every referent of a node of `s` is an object of the modelled heap, once
/// relocation is resolved.
pub open spec fn referents_ok(h: Heap, s: Seq<u64>) -> bool {
    forall|i: int|
        0 <= i < s.len() ==> match h.obj(#[trigger] s[i]).referent {
            None => true,
            Some(r) => h.has_obj(h.resolve_spec(r)),
        }
}

/// Whether the drain of a `rt`-kind list removes node `n` rather than
/// keeping it: removed when the referent is null, when the referent is
/// reachable, or when the memory-pressure policy retains a soft referent.
pub open spec fn drain_removes(h: Heap, n: u64, rt: RefKind) -> bool {
    match h.obj(n).referent {
        None => true,
        Some(r) => h.is_live_spec(r) || (rt == RefKind::Soft && h.emergency),
    }
}

/// The referent field of node `n` once the drain has visited it: forwarded
/// when reachable or retained, cleared when dead (except for Final kind,
/// which defers to the resurrection pass), untouched when already null.
pub open spec fn referent_after(h: Heap, n: u64, rt: RefKind) -> Option<u64> {
    match h.obj(n).referent {
        None => None,
        Some(r) => if h.is_live_spec(r) || (rt == RefKind::Soft && h.emergency) {
            Some(h.resolve_spec(r))
        } else if rt == RefKind::Final {
            Some(r)
        } else {
            None
        },
    }
}

/// The nodes of `s` a drain keeps, in list order.
pub open spec fn survivors(h: Heap, s: Seq<u64>, rt: RefKind) -> Seq<u64>
    decreases s.len(),
{
    if s.len() == 0 {
        Seq::empty()
    } else {
        survivors(h, s.drop_last(), rt) + if drain_removes(h, s.last(), rt) {
            Seq::empty()
        } else {
            seq![s.last()]
        }
    }
}

/// A survivor is a node of the drained list.
pub proof fn lemma_survivors_subset(h: Heap, s: Seq<u64>, rt: RefKind)
    ensures
        forall|n: u64| survivors(h, s, rt).contains(n) ==> s.contains(n),
        survivors(h, s, rt).len() <= s.len(),
    decreases s.len(),
{
    if s.len() > 0 {
        lemma_survivors_subset(h, s.drop_last(), rt);
        assert forall|n: u64| survivors(h, s, rt).contains(n) implies s.contains(n) by {
            let k = survivors(h, s, rt);
            let pre = survivors(h, s.drop_last(), rt);
            let i = choose|i: int| 0 <= i < k.len() && k[i] == n;
            if i < pre.len() {
                assert(k[i] == pre[i]);
                assert(pre.contains(n));
                assert(s.drop_last().contains(n));
                let j = choose|j: int| 0 <= j < s.drop_last().len() && s.drop_last()[j] == n;
                assert(s.drop_last()[j] == s[j]);
                assert(s[j] == n);
                assert(s.contains(n));
            } else {
                assert(n == s.last());
                assert(s[s.len() - 1] == n);
                assert(s.contains(n));
            }
        }
    }
}

/// A drain keeps exactly the nodes its policy does not remove, each of them
/// once.
///
/// Law: every object discovered in a cycle is visited exactly once by that
/// cycle's drain, and it survives the drain if and only if its referent is
/// unreachable and retention policy defers its removal.
pub proof fn lemma_drain_partition(h: Heap, s: Seq<u64>, rt: RefKind)
    requires
        s.no_duplicates(),
    ensures
        survivors(h, s, rt).no_duplicates(),
        forall|n: u64| #[trigger]
            survivors(h, s, rt).contains(n) <==> s.contains(n) && !drain_removes(h, n, rt),
    decreases s.len(),
{
    lemma_survivors_subset(h, s, rt);
    if s.len() > 0 {
        let pre = s.drop_last();
        assert(pre.no_duplicates());
        lemma_drain_partition(h, pre, rt);
        lemma_survivors_subset(h, pre, rt);
        let k = survivors(h, s, rt);
        let kp = survivors(h, pre, rt);
        if !drain_removes(h, s.last(), rt) {
            assert(!pre.contains(s.last()));
            assert(!kp.contains(s.last()));
            assert(k =~= kp.push(s.last()));
        } else {
            assert(k =~= kp);
        }
        assert forall|n: u64| #[trigger] k.contains(n) implies s.contains(n) && !drain_removes(
            h,
            n,
            rt,
        ) by {
            if kp.contains(n) {
                assert(pre.contains(n));
                let j = choose|j: int| 0 <= j < pre.len() && pre[j] == n;
                assert(s[j] == n);
                assert(s.contains(n));
            }
        }
        assert forall|n: u64| s.contains(n) && !drain_removes(h, n, rt) implies #[trigger] k.contains(
            n,
        ) by {
            let j = choose|j: int| 0 <= j < s.len() && s[j] == n;
            if j < s.len() - 1 {
                assert(pre[j] == n);
                assert(pre.contains(n));
                assert(kp.contains(n));
                let m = choose|m: int| 0 <= m < kp.len() && kp[m] == n;
                assert(k[m] == n);
            } else {
                assert(n == s.last());
                assert(k[k.len() - 1] == n);
            }
        }
    }
}

/// Draining a prefix one node longer keeps the prefix's survivors and, when
/// the policy keeps the new node, that node at the end.
pub proof fn lemma_survivors_step(h: Heap, s: Seq<u64>, rt: RefKind, i: int)
    requires
        0 <= i < s.len(),
    ensures
        survivors(h, s.take(i + 1), rt) == survivors(h, s.take(i), rt) + if drain_removes(
            h,
            s[i],
            rt,
        ) {
            Seq::<u64>::empty()
        } else {
            seq![s[i]]
        },
{
    assert(s.take(i + 1).drop_last() =~= s.take(i));
    assert(s.take(i + 1).last() == s[i]);
}

/// A node whose discovery link is unset is on no discovered list.
pub proof fn lemma_unlinked_not_listed(h: Heap, head: Option<u64>, s: Seq<u64>, n: u64)
    requires
        chain_wf(h, head, s),
        h.obj(n).discovered is None,
    ensures
        !s.contains(n),
{
    if s.contains(n) {
        let i = choose|i: int| 0 <= i < s.len() && s[i] == n;
        if i < s.len() - 1 {
            assert(h.link_of(s[i]) == Some(s[i + 1]));
        } else {
            assert(h.link_of(s[i]) == Some(s[i]));
        }
    }
}

/// One per-worker discovered list of one reference kind.
#[derive(Clone, Copy)]
pub struct DiscoveredList {
    /// The first node, or `None` for an empty list.
    pub head: Option<u64>,
    /// The nodes of the list, head first.
    pub nodes: Ghost<Seq<u64>>,
    /// The reference kind every node of this list has.
    pub rt: RefKind,
}

impl DiscoveredList {
    /// The list is a well-formed chain of nodes of its own kind.
    pub open spec fn wf(self, h: Heap) -> bool {
        &&& chain_wf(h, self.head, self.nodes@)
        &&& forall|i: int|
            0 <= i < self.nodes@.len() ==> h.obj(#[trigger] self.nodes@[i]).kind == self.rt
    }

    /// An empty list for reference kind `rt`.
    pub fn new(rt: RefKind) -> (r: Self)
        ensures
            r.head is None,
            r.nodes@ == Seq::<u64>::empty(),
            r.rt == rt,
            forall|h: Heap| r.wf(h),
    {
        DiscoveredList { head: None, nodes: Ghost(Seq::empty()), rt }
    }

    /// Link the reference object `obj` onto this list: point its discovery
    /// link at the previous head (or at itself when the list was empty) and
    /// make it the new head.  The caller has already checked, by the atomic
    /// exchange on the discovery link, that the object is still undiscovered.
    pub fn add(&mut self, heap: &mut Heap, obj: u64)
        requires
            old(heap).wf(),
            old(self).wf(*old(heap)),
            node_ok(*old(heap), obj),
            old(heap).obj(obj).discovered is None,
            old(heap).obj(obj).kind == old(self).rt,
        ensures
            final(heap).wf(),
            final(self).wf(*final(heap)),
            final(self).rt == old(self).rt,
            final(self).head == Some(obj),
            final(self).nodes@ == seq![obj] + old(self).nodes@,
            final(heap).objects@ == old(heap).objects@.insert(
                obj,
                RefObject {
                    discovered: Some(
                        match old(self).head {
                            Some(h) => h,
                            None => obj,
                        },
                    ),
                    ..old(heap).obj(obj)
                },
            ),
            final(heap).moved == old(heap).moved,
            final(heap).pending_head == old(heap).pending_head,
            final(heap).pending == old(heap).pending,
            final(heap).emergency == old(heap).emergency,
    {
        proof {
            lemma_unlinked_not_listed(*heap, self.head, self.nodes@, obj);
        }
        let next_discovered = match self.head {
            Some(h) => h,
            None => obj,
        };
        heap.set_discovered(obj, Some(next_discovered));
        self.head = Some(obj);
        proof {
            let s0 = self.nodes@;
            let s1 = seq![obj] + s0;
            self.nodes = Ghost(s1);
            assert(s1[0] == obj);
            assert forall|i: int| 0 <= i < s1.len() implies node_ok(*heap, #[trigger] s1[i])
                && heap.obj(s1[i]).kind == self.rt by {
                if i > 0 {
                    assert(s0[i - 1] != obj);
                    assert(node_ok(*old(heap), s0[i - 1]));
                }
            }
            assert(s1.no_duplicates()) by {
                assert forall|i: int, j: int| 0 <= i < j < s1.len() implies s1[i] != s1[j] by {
                    if i == 0 {
                        assert(!s0.contains(obj));
                        assert(s1[j] == s0[j - 1]);
                        assert(s0.contains(s0[j - 1]));
                    } else {
                        assert(s1[i] == s0[i - 1] && s1[j] == s0[j - 1]);
                    }
                }
            }
            assert forall|i: int| 0 <= i < s1.len() - 1 implies heap.link_of(#[trigger] s1[i])
                == Some(s1[i + 1]) by {
                if i == 0 {
                    assert(heap.obj(obj).discovered == Some(s0[0]));
                    assert(!heap.moved@.dom().contains(s0[0]));
                } else {
                    assert(s0[i - 1] != obj);
                    assert(old(heap).link_of(s0[i - 1]) == Some(s0[i]));
                    assert(heap.obj(s0[i - 1]) == old(heap).obj(s0[i - 1]));
                }
            }
            if s1.len() > 1 {
                assert(s1[s1.len() - 1] == s0[s0.len() - 1]);
                assert(s0[s0.len() - 1] != obj);
                assert(old(heap).link_of(s0[s0.len() - 1]) == Some(s0[s0.len() - 1]));
            } else {
                assert(heap.obj(obj).discovered == Some(obj));
                assert(!heap.moved@.dom().contains(obj));
            }
        }
    }
}


/// The head of a surviving sublist, when one survived.
pub open spec fn res_head(res: Option<(u64, u64)>) -> Option<u64> {
    match res {
        None => None,
        Some((hd, _)) => Some(hd),
    }
}

/// What the drain guarantees of each node it visited: the referent is
/// transformed by the per-kind policy, kind and reachability are kept, and a
/// removed node's discovery link is unset.
pub open spec fn visited_node_ok(h0: Heap, h: Heap, n: u64, rt: RefKind) -> bool {
    &&& h.obj(n).referent == referent_after(h0, n, rt)
    &&& h.obj(n).kind == h0.obj(n).kind
    &&& h.obj(n).live
    &&& (drain_removes(h0, n, rt) ==> h.obj(n).discovered is None)
}

/// An object the drain did not visit is unchanged, except that the tracer
/// may have marked it reachable.
pub open spec fn untouched_or_marked(h0: Heap, h: Heap, a: u64) -> bool {
    h.obj(a) == h0.obj(a) || h.obj(a) == (RefObject { live: true, ..h0.obj(a) })
}

/// Walk one discovered list and decide each node once: remove nodes whose
/// referent is null or reachable (forwarding the referent), retain soft
/// referents under memory pressure, clear dead referents of non-final kinds,
/// and keep the rest as survivors, rebuilt into a self-loop-terminated chain
/// in the original order.  Returns the surviving sublist's head and tail.
///
/// Relocation is resolved on every link before the list-end self-loop is
/// tested, because an object can move between discovery and drain.
/// Visit one node of a discovered list and apply the per-kind decision:
/// remove it when its referent is null or reachable (forwarding the
/// referent), retain a soft referent under memory pressure, or keep the node
/// as a survivor, clearing a dead referent unless the kind is Final.
/// Returns whether the node was kept.
#[verifier::rlimit(60)]
#[verifier::spinoff_prover]
fn drain_visit(
    heap: &mut Heap,
    cur: u64,
    rt: RefKind,
    retain: bool,
    Ghost(h0): Ghost<Heap>,
    Ghost(s): Ghost<Seq<u64>>,
    Ghost(i): Ghost<int>,
) -> (kept: bool)
    requires
        old(heap).wf(),
        0 <= i < s.len(),
        cur == s[i],
        retain == (rt == RefKind::Soft && h0.emergency),
        old(heap).emergency == h0.emergency,
        old(heap).moved == h0.moved,
        forall|a: u64| old(heap).has_obj(a) == h0.has_obj(a),
        forall|i2: int| 0 <= i2 < s.len() ==> node_ok(h0, #[trigger] s[i2]),
        s.no_duplicates(),
        referents_ok(h0, s),
        forall|j: int| 0 <= j < i ==> visited_node_ok(h0, *old(heap), #[trigger] s[j], rt),
        forall|j: int| i <= j < s.len() ==> old(heap).obj(#[trigger] s[j]) == h0.obj(s[j]),
        forall|a: u64| h0.has_obj(a) && !s.contains(a) ==> untouched_or_marked(h0, *old(heap), a),
        !retain ==> forall|a: u64|
            h0.has_obj(a) && !s.contains(a) ==> (#[trigger] old(heap).obj(a)) == h0.obj(a),
    ensures
        final(heap).wf(),
        kept == !drain_removes(h0, cur, rt),
        visited_node_ok(h0, *final(heap), cur, rt),
        final(heap).moved == old(heap).moved,
        final(heap).pending == old(heap).pending,
        final(heap).pending_head == old(heap).pending_head,
        final(heap).emergency == old(heap).emergency,
        forall|a: u64| final(heap).has_obj(a) == old(heap).has_obj(a),
        forall|a: u64|
            a != cur && old(heap).has_obj(a) ==> ((#[trigger] final(heap).obj(a)) == old(heap).obj(
                a,
            ) || final(heap).obj(a) == (RefObject { live: true, ..old(heap).obj(a) })),
        !retain ==> forall|a: u64|
            a != cur && old(heap).has_obj(a) ==> (#[trigger] final(heap).obj(a)) == old(heap).obj(
                a,
            ),
{
    proof {
        assert(node_ok(h0, s[i]));
        assert(heap.obj(cur) == h0.obj(cur));
    }
    let referent = heap.get_referent(cur);
    match referent {
        None => {
            // Null referent: drop the node from the list.
            heap.set_discovered(cur, None);
            proof {
                assert(drain_removes(h0, cur, rt));
                assert(visited_node_ok(h0, *heap, cur, rt));
            }
            false
        },
        Some(r) => {
            let is_live = heap.is_live(r);
            proof {
                if !retain {
                    assert(heap.is_live_spec(r) == h0.is_live_spec(r)) by {
                        if s.contains(r) {
                            let j = choose|j: int| 0 <= j < s.len() && s[j] == r;
                            if j < i {
                                assert(visited_node_ok(h0, *heap, s[j], rt));
                                assert(node_ok(h0, s[j]));
                            } else {
                                assert(heap.obj(s[j]) == h0.obj(s[j]));
                            }
                        } else {
                            if heap.has_obj(r) || h0.has_obj(r) {
                                assert(heap.obj(r) == h0.obj(r));
                            }
                        }
                    }
                }
            }
            if retain || is_live {
                // Reachable or retained referent: forward it, store the
                // forwarded address, and drop the node from the list.
                proof {
                    assert(h0.obj(s[i]).referent == Some(r));
                    assert(h0.has_obj(h0.resolve_spec(r)));
                    assert(heap.resolve_spec(r) == h0.resolve_spec(r));
                    if !retain {
                        assert(heap.obj(heap.resolve_spec(r)).live) by {
                            assert(heap.is_live_spec(r));
                        }
                    }
                }
                let ghost h_pre = *heap;
                let f = heap.trace_object(r);
                let ghost h_mid = *heap;
                heap.set_referent(cur, Some(f));
                heap.set_discovered(cur, None);
                proof {
                    assert(drain_removes(h0, cur, rt));
                    assert(referent_after(h0, cur, rt) == Some(h0.resolve_spec(r)));
                    assert(heap.obj(cur).referent == Some(f));
                    assert(heap.obj(cur).discovered is None);
                    assert(h_mid.obj(cur).kind == h0.obj(cur).kind && h_mid.obj(cur).live) by {
                        if cur == f {
                            assert(h_pre.obj(cur) == h0.obj(cur));
                        } else {
                            assert(h_mid.obj(cur) == h_pre.obj(cur));
                        }
                    }
                    assert(visited_node_ok(h0, *heap, cur, rt));
                    assert forall|a: u64| a != cur && h_pre.has_obj(a) implies ((
                    #[trigger] heap.obj(a)) == h_pre.obj(a) || heap.obj(a) == (RefObject {
                        live: true,
                        ..h_pre.obj(a)
                    })) by {}
                    if !retain {
                        assert forall|a: u64| a != cur && h_pre.has_obj(a) implies (
                        #[trigger] heap.obj(a)) == h_pre.obj(a) by {
                            if a == f {
                                assert(h_pre.obj(f).live);
                                assert(h_mid.obj(f) == h_pre.obj(f));
                            }
                        }
                    }
                }
                false
            } else {
                // Unreachable referent the policy keeps: clear it unless a
                // Final reference defers to the resurrection pass.
                if rt != RefKind::Final {
                    heap.set_referent(cur, None);
                }
                proof {
                    assert(!drain_removes(h0, cur, rt));
                    assert(heap.obj(cur).referent == referent_after(h0, cur, rt));
                    assert(visited_node_ok(h0, *heap, cur, rt));
                }
                true
            }
        },
    }
}

/// The drain walk's invariant after `i` nodes of `s` were visited: the heap
/// agrees with the pre-drain heap `h0` everywhere the walk has not touched,
/// visited nodes carry their decided state, and the kept nodes so far form a
/// chain from `kh` to `kt` in list order.
#[verifier::opaque]
pub(crate) open spec fn drain_inv(
    h0: Heap,
    h: Heap,
    s: Seq<u64>,
    i: int,
    rt: RefKind,
    kh: Option<u64>,
    kt: Option<u64>,
) -> bool {
    let k = survivors(h0, s.take(i), rt);
    &&& h.wf()
    &&& h.moved == h0.moved
    &&& h.pending == h0.pending
    &&& h.pending_head == h0.pending_head
    &&& h.emergency == h0.emergency
    &&& 0 <= i <= s.len()
    &&& forall|a: u64| h.has_obj(a) == h0.has_obj(a)
    &&& forall|j: int| i <= j < s.len() ==> h.obj(#[trigger] s[j]) == h0.obj(s[j])
    &&& forall|j: int| 0 <= j < i ==> visited_node_ok(h0, h, #[trigger] s[j], rt)
    &&& forall|a: u64| h0.has_obj(a) && !s.contains(a) ==> untouched_or_marked(h0, h, a)
    &&& (!(rt == RefKind::Soft && h0.emergency) ==> forall|a: u64|
        h0.has_obj(a) && !s.contains(a) ==> (#[trigger] h.obj(a)) == h0.obj(a))
    &&& kh == (if k.len() == 0 {
        None
    } else {
        Some(k[0])
    })
    &&& kt == (if k.len() == 0 {
        None
    } else {
        Some(k[k.len() - 1])
    })
    &&& forall|m: int| 0 <= m < k.len() - 1 ==> h.obj(#[trigger] k[m]).discovered == Some(k[m + 1])
}

/// The walk's invariant holds before any node was visited.
proof fn lemma_drain_init(h0: Heap, s: Seq<u64>, rt: RefKind)
    requires
        h0.wf(),
    ensures
        drain_inv(h0, h0, s, 0, rt, None, None),
{
    reveal(drain_inv);
    assert(s.take(0) =~= Seq::<u64>::empty());
}

/// Unpack the walk's invariant into its clauses.
proof fn lemma_drain_open(
    h0: Heap,
    h: Heap,
    s: Seq<u64>,
    i: int,
    rt: RefKind,
    kh: Option<u64>,
    kt: Option<u64>,
)
    requires
        drain_inv(h0, h, s, i, rt, kh, kt),
        s.no_duplicates(),
    ensures
        h.wf(),
        h.moved == h0.moved,
        h.pending == h0.pending,
        h.pending_head == h0.pending_head,
        h.emergency == h0.emergency,
        0 <= i <= s.len(),
        forall|a: u64| h.has_obj(a) == h0.has_obj(a),
        forall|j: int| i <= j < s.len() ==> h.obj(#[trigger] s[j]) == h0.obj(s[j]),
        forall|j: int| 0 <= j < i ==> visited_node_ok(h0, h, #[trigger] s[j], rt),
        forall|a: u64| h0.has_obj(a) && !s.contains(a) ==> untouched_or_marked(h0, h, a),
        !(rt == RefKind::Soft && h0.emergency) ==> forall|a: u64|
            h0.has_obj(a) && !s.contains(a) ==> (#[trigger] h.obj(a)) == h0.obj(a),
        ({
            let k = survivors(h0, s.take(i), rt);
            &&& kh == (if k.len() == 0 {
                None
            } else {
                Some(k[0])
            })
            &&& kt == (if k.len() == 0 {
                None
            } else {
                Some(k[k.len() - 1])
            })
            &&& forall|m: int|
                0 <= m < k.len() - 1 ==> h.obj(#[trigger] k[m]).discovered == Some(k[m + 1])
            &&& forall|m: int| 0 <= m < k.len() ==> s.contains(#[trigger] k[m]) && !drain_removes(
                h0,
                k[m],
                rt,
            ) && s.take(i).contains(k[m])
            &&& k.no_duplicates()
        }),

{
    reveal(drain_inv);
    lemma_take_no_duplicates(s, i);
    lemma_drain_partition(h0, s.take(i), rt);
    lemma_survivors_subset(h0, s.take(i), rt);
    let k = survivors(h0, s.take(i), rt);
    assert forall|m: int| 0 <= m < k.len() implies s.contains(#[trigger] k[m]) && !drain_removes(
        h0,
        k[m],
        rt,
    ) && s.take(i).contains(k[m]) by {
        assert(k.contains(k[m]));
        assert(s.take(i).contains(k[m]));
        let j = choose|j: int| 0 <= j < s.take(i).len() && s.take(i)[j] == k[m];
        assert(s[j] == k[m]);
    }
}

/// The walk's invariant is preserved when the visited node was removed.
#[verifier::rlimit(60)]
#[verifier::spinoff_prover]
proof fn lemma_drain_step_removed(
    h0: Heap,
    h_pre: Heap,
    h_vis: Heap,
    s: Seq<u64>,
    i: int,
    rt: RefKind,
    kh: Option<u64>,
    kt: Option<u64>,
)
    requires
        drain_inv(h0, h_pre, s, i, rt, kh, kt),
        0 <= i < s.len(),
        s.no_duplicates(),
        forall|j: int| 0 <= j < s.len() ==> node_ok(h0, #[trigger] s[j]),
        drain_removes(h0, s[i], rt),
        visited_node_ok(h0, h_vis, s[i], rt),
        h_vis.wf(),
        h_vis.moved == h_pre.moved,
        h_vis.pending == h_pre.pending,
        h_vis.pending_head == h_pre.pending_head,
        h_vis.emergency == h_pre.emergency,
        forall|a: u64| h_vis.has_obj(a) == h_pre.has_obj(a),
        forall|a: u64|
            a != s[i] && h_pre.has_obj(a) ==> ((#[trigger] h_vis.obj(a)) == h_pre.obj(a)
                || h_vis.obj(a) == (RefObject { live: true, ..h_pre.obj(a) })),
        !(rt == RefKind::Soft && h0.emergency) ==> forall|a: u64|
            a != s[i] && h_pre.has_obj(a) ==> (#[trigger] h_vis.obj(a)) == h_pre.obj(a),
    ensures
        drain_inv(h0, h_vis, s, i + 1, rt, kh, kt),
{
    lemma_drain_open(h0, h_pre, s, i, rt, kh, kt);
    reveal(drain_inv);
    let cur = s[i];
    let k = survivors(h0, s.take(i), rt);
    lemma_survivors_step(h0, s, rt, i);
    assert(survivors(h0, s.take(i + 1), rt) =~= k);
    assert forall|j: int| i + 1 <= j < s.len() implies h_vis.obj(#[trigger] s[j]) == h0.obj(
        s[j],
    ) by {
        assert(s[j] != cur);
        assert(h_pre.obj(s[j]) == h0.obj(s[j]));
        assert(h_pre.obj(s[j]).live);
    }
    assert forall|j: int| 0 <= j < i + 1 implies visited_node_ok(h0, h_vis, #[trigger] s[j], rt) by {
        if j < i {
            assert(s[j] != cur);
            assert(visited_node_ok(h0, h_pre, s[j], rt));
            assert(h_pre.obj(s[j]).live);
        }
    }
    assert forall|a: u64| h0.has_obj(a) && !s.contains(a) implies untouched_or_marked(
        h0,
        h_vis,
        a,
    ) by {
        assert(a != cur);
        assert(untouched_or_marked(h0, h_pre, a));
    }
    if !(rt == RefKind::Soft && h0.emergency) {
        assert forall|a: u64| h0.has_obj(a) && !s.contains(a) implies (#[trigger] h_vis.obj(a))
            == h0.obj(a) by {
            assert(a != cur);
            assert(h_pre.obj(a) == h0.obj(a));
        }
    }
    assert forall|m: int| 0 <= m < k.len() - 1 implies h_vis.obj(#[trigger] k[m]).discovered
        == Some(k[m + 1]) by {
        assert(s.take(i).contains(k[m]));
        assert(k[m] != cur);
        assert(h_pre.obj(k[m]).discovered == Some(k[m + 1]));
        assert(visited_node_ok(h0, h_pre, k[m], rt));
        assert(h_pre.obj(k[m]).live);
    }
}

/// The walk's invariant is preserved when the visited node was kept: the
/// previous kept tail (if any) was relinked to it, and it became the tail.
#[verifier::rlimit(100)]
#[verifier::spinoff_prover]
proof fn lemma_drain_step_kept(
    h0: Heap,
    h_pre: Heap,
    h_vis: Heap,
    h_new: Heap,
    s: Seq<u64>,
    i: int,
    rt: RefKind,
    kh: Option<u64>,
    kt: Option<u64>,
    kh2: Option<u64>,
)
    requires
        drain_inv(h0, h_pre, s, i, rt, kh, kt),
        0 <= i < s.len(),
        s.no_duplicates(),
        forall|j: int| 0 <= j < s.len() ==> node_ok(h0, #[trigger] s[j]),
        !drain_removes(h0, s[i], rt),
        visited_node_ok(h0, h_vis, s[i], rt),
        h_vis.wf(),
        h_vis.moved == h_pre.moved,
        h_vis.pending == h_pre.pending,
        h_vis.pending_head == h_pre.pending_head,
        h_vis.emergency == h_pre.emergency,
        forall|a: u64| h_vis.has_obj(a) == h_pre.has_obj(a),
        forall|a: u64|
            a != s[i] && h_pre.has_obj(a) ==> ((#[trigger] h_vis.obj(a)) == h_pre.obj(a)
                || h_vis.obj(a) == (RefObject { live: true, ..h_pre.obj(a) })),
        !(rt == RefKind::Soft && h0.emergency) ==> forall|a: u64|
            a != s[i] && h_pre.has_obj(a) ==> (#[trigger] h_vis.obj(a)) == h_pre.obj(a),
        kh2 == (match kt {
            None => Some(s[i]),
            Some(_) => kh,
        }),
        (match kt {
            None => h_new == h_vis,
            Some(t) => {
                &&& h_new.objects@ == h_vis.objects@.insert(
                    t,
                    RefObject { discovered: Some(s[i]), ..h_vis.obj(t) },
                )
                &&& h_new.moved == h_vis.moved
                &&& h_new.pending == h_vis.pending
                &&& h_new.pending_head == h_vis.pending_head
                &&& h_new.emergency == h_vis.emergency
                &&& h_new.wf()
            },
        }),
    ensures
        drain_inv(h0, h_new, s, i + 1, rt, kh2, Some(s[i])),
{
    lemma_drain_open(h0, h_pre, s, i, rt, kh, kt);
    reveal(drain_inv);
    let cur = s[i];
    let k = survivors(h0, s.take(i), rt);
    lemma_survivors_step(h0, s, rt, i);
    let k2 = survivors(h0, s.take(i + 1), rt);
    assert(k2 =~= k.push(cur));
    assert(!s.take(i).contains(cur)) by {
        if s.take(i).contains(cur) {
            let j = choose|j: int| 0 <= j < s.take(i).len() && s.take(i)[j] == cur;
            assert(s[j] == s[i]);
        }
    }
    assert(!k.contains(cur)) by {
        if k.contains(cur) {
            let m = choose|m: int| 0 <= m < k.len() && k[m] == cur;
            assert(s.take(i).contains(k[m]));
        }
    }
    let ghost t_old: u64 = match kt {
        None => 0u64,
        Some(t) => t,
    };
    if kt is Some {
        assert(k.len() > 0 && t_old == k[k.len() - 1]);
        assert(s.take(i).contains(t_old));
        assert(t_old != cur);
        assert(s.contains(t_old));
    }
    assert forall|a: u64| h_new.has_obj(a) == h0.has_obj(a) by {
        assert(h_vis.has_obj(a) == h_pre.has_obj(a));
        if kt is Some {
            if a == t_old {
                assert(h_vis.has_obj(t_old)) by {
                    let j = choose|j: int| 0 <= j < s.len() && s[j] == t_old;
                    assert(node_ok(h0, s[j]));
                }
            }
        }
    }
    assert forall|j: int| i + 1 <= j < s.len() implies h_new.obj(#[trigger] s[j]) == h0.obj(
        s[j],
    ) by {
        assert(s[j] != cur);
        assert(h_pre.obj(s[j]) == h0.obj(s[j]));
        assert(h_pre.obj(s[j]).live);
        assert(h_vis.obj(s[j]) == h0.obj(s[j]));
        if kt is Some {
            assert(s[j] != t_old) by {
                let j0 = choose|j0: int| 0 <= j0 < s.take(i).len() && s.take(i)[j0] == t_old;
                assert(s[j0] == t_old);
            }
        }
    }
    assert forall|j: int| 0 <= j < i + 1 implies visited_node_ok(h0, h_new, #[trigger] s[j], rt) by {
        if j < i {
            assert(s[j] != cur);
            assert(visited_node_ok(h0, h_pre, s[j], rt));
            assert(h_pre.obj(s[j]).live);
            assert(visited_node_ok(h0, h_vis, s[j], rt));
            if kt is Some && s[j] == t_old {
                assert(!drain_removes(h0, t_old, rt));
                assert(h_new.obj(t_old).referent == h_vis.obj(t_old).referent);
            }
        } else {
            assert(visited_node_ok(h0, h_vis, cur, rt));
            if kt is Some {
                assert(cur != t_old);
            }
        }
    }
    assert forall|a: u64| h0.has_obj(a) && !s.contains(a) implies untouched_or_marked(
        h0,
        h_new,
        a,
    ) by {
        assert(a != cur);
        assert(h_pre.has_obj(a));
        assert(untouched_or_marked(h0, h_pre, a));
        assert(untouched_or_marked(h0, h_vis, a)) by {
            if h_vis.obj(a) == h_pre.obj(a) {
            } else {
                assert(h_vis.obj(a) == (RefObject { live: true, ..h_pre.obj(a) }));
                if h_pre.obj(a) == h0.obj(a) {
                } else {
                    assert(h_pre.obj(a) == (RefObject { live: true, ..h0.obj(a) }));
                }
            }
        }
        if kt is Some {
            assert(a != t_old);
        }
    }
    if !(rt == RefKind::Soft && h0.emergency) {
        assert forall|a: u64| h0.has_obj(a) && !s.contains(a) implies (#[trigger] h_new.obj(a))
            == h0.obj(a) by {
            assert(a != cur);
            assert(h_pre.obj(a) == h0.obj(a));
            assert(h_vis.obj(a) == h0.obj(a));
            if kt is Some {
                assert(a != t_old);
            }
        }
    }
    assert(k2[k2.len() - 1] == cur);
    if k.len() > 0 {
        assert(k2[0] == k[0]);
    }
    assert forall|m: int| 0 <= m < k2.len() - 1 implies h_new.obj(#[trigger] k2[m]).discovered
        == Some(k2[m + 1]) by {
        assert(s.take(i).len() <= s.len());
        if m < k.len() - 1 {
            assert(k2[m] == k[m] && k2[m + 1] == k[m + 1]);
            assert(k[m] != cur);
            assert(k[m] != t_old) by {
                assert(k.no_duplicates());
            }
            assert(h_pre.obj(k[m]).discovered == Some(k[m + 1]));
            assert(visited_node_ok(h0, h_pre, k[m], rt));
            assert(h_pre.obj(k[m]).live);
            assert(h_vis.obj(k[m]).discovered == Some(k[m + 1]));
        } else {
            assert(k.len() > 0);
            assert(k2[m] == k[k.len() - 1] && k2[m + 1] == cur);
            assert(k2[m] == t_old);
            assert(h_new.obj(t_old).discovered == Some(cur));
        }
    }
}

/// After the last node was visited, closing the kept tail with the self-loop
/// sentinel yields the surviving sublist as a well-formed chain, and the
/// walk's guarantees hold of the whole list.
#[verifier::rlimit(100)]
#[verifier::spinoff_prover]
proof fn lemma_drain_close(
    h0: Heap,
    h_end: Heap,
    h_fin: Heap,
    s: Seq<u64>,
    rt: RefKind,
    kh: Option<u64>,
    kt: Option<u64>,
)
    requires
        drain_inv(h0, h_end, s, s.len() as int, rt, kh, kt),
        s.no_duplicates(),
        forall|j: int| 0 <= j < s.len() ==> node_ok(h0, #[trigger] s[j]),
        (match kt {
            None => h_fin == h_end,
            Some(t) => {
                &&& h_fin.objects@ == h_end.objects@.insert(
                    t,
                    RefObject { discovered: Some(t), ..h_end.obj(t) },
                )
                &&& h_fin.moved == h_end.moved
                &&& h_fin.pending == h_end.pending
                &&& h_fin.pending_head == h_end.pending_head
                &&& h_fin.emergency == h_end.emergency
                &&& h_fin.wf()
            },
        }),
    ensures
        h_fin.wf(),
        h_fin.moved == h0.moved,
        h_fin.pending == h0.pending,
        h_fin.pending_head == h0.pending_head,
        h_fin.emergency == h0.emergency,
        forall|a: u64| h_fin.has_obj(a) == h0.has_obj(a),
        forall|i: int| 0 <= i < s.len() ==> visited_node_ok(h0, h_fin, #[trigger] s[i], rt),
        forall|a: u64| h0.has_obj(a) && !s.contains(a) ==> untouched_or_marked(h0, h_fin, a),
        forall|x: u64| h0.is_live_spec(x) ==> (#[trigger] h_fin.is_live_spec(x)),
        !(rt == RefKind::Soft && h0.emergency) ==> forall|x: u64|
            (#[trigger] h_fin.is_live_spec(x)) == h0.is_live_spec(x),
        chain_wf(h_fin, kh, survivors(h0, s, rt)),
        ({
            let k = survivors(h0, s, rt);
            &&& kh == (if k.len() == 0 {
                None
            } else {
                Some(k[0])
            })
            &&& kt == (if k.len() == 0 {
                None
            } else {
                Some(k[k.len() - 1])
            })
        }),
{
    lemma_drain_open(h0, h_end, s, s.len() as int, rt, kh, kt);
    assert(s.take(s.len() as int) =~= s);
    let k = survivors(h0, s, rt);
    lemma_drain_partition(h0, s, rt);
    lemma_survivors_subset(h0, s, rt);
    assert forall|m: int| 0 <= m < k.len() implies s.contains(#[trigger] k[m]) && !drain_removes(
        h0,
        k[m],
        rt,
    ) by {
        assert(k.contains(k[m]));
    }
    let ghost t_old: u64 = match kt {
        None => 0u64,
        Some(t) => t,
    };
    if kt is Some {
        assert(k.len() > 0 && t_old == k[k.len() - 1]);
        assert(s.contains(t_old));
        assert(h_end.has_obj(t_old)) by {
            let j = choose|j: int| 0 <= j < s.len() && s[j] == t_old;
            assert(node_ok(h0, s[j]));
        }
    }
    assert forall|a: u64| h_fin.has_obj(a) == h0.has_obj(a) by {
        if kt is Some && a == t_old {
            assert(h_end.has_obj(t_old));
        }
    }
    assert forall|i: int| 0 <= i < s.len() implies visited_node_ok(h0, h_fin, #[trigger] s[i], rt) by {
        assert(visited_node_ok(h0, h_end, s[i], rt));
        if kt is Some && s[i] == t_old {
            assert(!drain_removes(h0, t_old, rt));
            assert(h_fin.obj(t_old).referent == h_end.obj(t_old).referent);
        }
    }
    assert forall|a: u64| h0.has_obj(a) && !s.contains(a) implies untouched_or_marked(
        h0,
        h_fin,
        a,
    ) by {
        assert(untouched_or_marked(h0, h_end, a));
        if kt is Some {
            assert(a != t_old);
        }
    }
    assert forall|x: u64| h0.is_live_spec(x) implies (#[trigger] h_fin.is_live_spec(x)) by {
        if !h_fin.moved@.dom().contains(x) && h0.has_obj(x) && h0.obj(x).live {
            if s.contains(x) {
                let j = choose|j: int| 0 <= j < s.len() && s[j] == x;
                assert(visited_node_ok(h0, h_fin, s[j], rt));
            } else {
                assert(untouched_or_marked(h0, h_fin, x));
            }
        }
    }
    if !(rt == RefKind::Soft && h0.emergency) {
        assert forall|x: u64| (#[trigger] h_fin.is_live_spec(x)) == h0.is_live_spec(x) by {
            if h0.has_obj(x) {
                if s.contains(x) {
                    let j = choose|j: int| 0 <= j < s.len() && s[j] == x;
                    assert(visited_node_ok(h0, h_fin, s[j], rt));
                    assert(node_ok(h0, s[j]));
                } else {
                    assert(h_end.obj(x) == h0.obj(x));
                    if kt is Some {
                        assert(x != t_old);
                    }
                }
            }
        }
    }
    if kt is None {
        assert(k.len() == 0);
        assert(chain_wf(h_fin, kh, k));
    } else {
        assert(chain_wf(h_fin, kh, k)) by {
            assert forall|m: int| 0 <= m < k.len() implies node_ok(h_fin, #[trigger] k[m]) by {
                let j = choose|j: int| 0 <= j < s.len() && s[j] == k[m];
                assert(visited_node_ok(h0, h_fin, s[j], rt));
                assert(node_ok(h0, s[j]));
            }
            assert forall|m: int| 0 <= m < k.len() - 1 implies h_fin.link_of(#[trigger] k[m])
                == Some(k[m + 1]) by {
                assert(k[m] != t_old) by {
                    assert(k.no_duplicates());
                }
                assert(h_end.obj(k[m]).discovered == Some(k[m + 1]));
                assert(h_fin.obj(k[m]).discovered == Some(k[m + 1]));
                let j = choose|j: int| 0 <= j < s.len() && s[j] == k[m + 1];
                assert(node_ok(h0, s[j]));
                assert(!h_fin.moved@.dom().contains(k[m + 1]));
            }
            assert(h_fin.obj(t_old).discovered == Some(t_old));
            assert(!h_fin.moved@.dom().contains(t_old)) by {
                let j = choose|j: int| 0 <= j < s.len() && s[j] == t_old;
                assert(node_ok(h0, s[j]));
            }
            assert(h_fin.link_of(k[k.len() - 1]) == Some(k[k.len() - 1]));
        }
    }
}

/// Walk one discovered list and decide each node once, rebuilding the
/// survivors into a self-loop-terminated chain in the original order.
/// Returns the surviving sublist's head and tail.
///
/// Relocation is resolved on every link before the list-end self-loop is
/// tested, because an object can move between discovery and drain.
#[verifier::rlimit(100)]
#[verifier::spinoff_prover]
pub(crate) fn drain_list(
    heap: &mut Heap,
    head: u64,
    Ghost(s): Ghost<Seq<u64>>,
    rt: RefKind,
) -> (res: Option<(u64, u64)>)
    requires
        old(heap).wf(),
        chain_wf(*old(heap), Some(head), s),
        referents_ok(*old(heap), s),
    ensures
        final(heap).wf(),
        final(heap).moved == old(heap).moved,
        final(heap).pending == old(heap).pending,
        final(heap).pending_head == old(heap).pending_head,
        final(heap).emergency == old(heap).emergency,
        forall|a: u64| final(heap).has_obj(a) == old(heap).has_obj(a),
        forall|i: int|
            0 <= i < s.len() ==> visited_node_ok(*old(heap), *final(heap), #[trigger] s[i], rt),
        forall|a: u64|
            old(heap).has_obj(a) && !s.contains(a) ==> untouched_or_marked(
                *old(heap),
                *final(heap),
                a,
            ),
        forall|x: u64| old(heap).is_live_spec(x) ==> (#[trigger] final(heap).is_live_spec(x)),
        !(rt == RefKind::Soft && old(heap).emergency) ==> forall|x: u64|
            (#[trigger] final(heap).is_live_spec(x)) == old(heap).is_live_spec(x),
        chain_wf(*final(heap), res_head(res), survivors(*old(heap), s, rt)),
        ({
            let k = survivors(*old(heap), s, rt);
            match res {
                None => k.len() == 0,
                Some((hd, tl)) => k.len() > 0 && hd == k[0] && tl == k[k.len() - 1],
            }
        }),
{
    let ghost h0 = *old(heap);
    let retain = rt == RefKind::Soft && heap.emergency;
    let mut cur = head;
    let ghost mut i: int = 0;
    let mut kept_head: Option<u64> = None;
    let mut kept_tail: Option<u64> = None;
    proof {
        lemma_drain_init(h0, s, rt);
    }
    loop
        invariant_except_break
            0 <= i < s.len(),
            cur == s[i],
        invariant
            h0 == *old(heap),
            retain == (rt == RefKind::Soft && h0.emergency),
            chain_wf(h0, Some(head), s),
            referents_ok(h0, s),
            0 <= i <= s.len(),
            drain_inv(h0, *heap, s, i, rt, kept_head, kept_tail),
        ensures
            i == s.len(),
            drain_inv(h0, *heap, s, i, rt, kept_head, kept_tail),
        decreases s.len() - i,
    {
        proof {
            lemma_drain_open(h0, *heap, s, i, rt, kept_head, kept_tail);
            assert(node_ok(h0, s[i]));
            assert(heap.has_obj(cur));
        }
        let ghost k_pre = survivors(h0, s.take(i), rt);
        // Consult the next link before the node is modified, resolving any
        // relocation of the linked object before the self-loop test.
        let raw_next = match heap.get_discovered(cur) {
            Some(r) => r,
            None => {
                proof {
                    if i < s.len() - 1 {
                        assert(h0.link_of(s[i]) == Some(s[i + 1]));
                    } else {
                        assert(h0.link_of(s[i]) == Some(s[i]));
                    }
                    assert(false);
                }
                cur
            },
        };
        let next = heap.resolve(raw_next);
        proof {
            if i < s.len() - 1 {
                assert(h0.link_of(s[i]) == Some(s[i + 1]));
                assert(next == s[i + 1]);
                assert(s[i + 1] != s[i]);
            } else {
                assert(h0.link_of(s[i]) == Some(s[i]));
                assert(next == cur);
            }
        }
        let ghost h_pre = *heap;
        let kept = drain_visit(heap, cur, rt, retain, Ghost(h0), Ghost(s), Ghost(i));
        let ghost h_vis = *heap;
        if kept {
            let ghost kh2 = match kept_tail {
                None => Some(cur),
                Some(_) => kept_head,
            };
            match kept_tail {
                None => {},
                Some(t) => {
                    proof {
                        assert(heap.has_obj(t)) by {
                            assert(s.take(i).contains(k_pre[k_pre.len() - 1]));
                            let j = choose|j: int|
                                0 <= j < s.take(i).len() && s.take(i)[j] == k_pre[k_pre.len() - 1];
                            assert(node_ok(h0, s[j]));
                        }
                    }
                    heap.set_discovered(t, Some(cur));
                },
            }
            proof {
                lemma_drain_step_kept(
                    h0,
                    h_pre,
                    h_vis,
                    *heap,
                    s,
                    i,
                    rt,
                    kept_head,
                    kept_tail,
                    kh2,
                );
                i = i + 1;
            }
            kept_head = match kept_tail {
                None => Some(cur),
                Some(_) => kept_head,
            };
            kept_tail = Some(cur);
        } else {
            proof {
                lemma_drain_step_removed(h0, h_pre, h_vis, s, i, rt, kept_head, kept_tail);
                i = i + 1;
            }
        }
        if next == cur {
            proof {
                assert(i == s.len());
            }
            break ;
        }
        cur = next;
    }
    let ghost h_end = *heap;
    // Close the surviving sublist with the self-loop sentinel.
    let res = match kept_tail {
        None => None,
        Some(t) => {
            proof {
                lemma_drain_open(h0, *heap, s, s.len() as int, rt, kept_head, kept_tail);
                assert(heap.has_obj(t)) by {
                    let k = survivors(h0, s.take(s.len() as int), rt);
                    assert(s.take(s.len() as int).contains(k[k.len() - 1]));
                    let j = choose|j: int|
                        0 <= j < s.take(s.len() as int).len() && s.take(s.len() as int)[j] == k[k.len()
                            - 1];
                    assert(s.take(s.len() as int)[j] == s[j]);
                    assert(node_ok(h0, s[j]));
                }
            }
            heap.set_discovered(t, Some(t));
            match kept_head {
                Some(hd) => Some((hd, t)),
                None => {
                    proof {
                        reveal(drain_inv);
                        assert(false);
                    }
                    None
                },
            }
        },
    };
    proof {
        lemma_drain_close(h0, h_end, *heap, s, rt, kept_head, kept_tail);
        assert(s.take(s.len() as int) =~= s);
    }
    res
}

/// A take of a duplicate-free sequence is duplicate-free.
pub proof fn lemma_take_no_duplicates(s: Seq<u64>, i: int)
    requires
        s.no_duplicates(),
        0 <= i <= s.len(),
    ensures
        s.take(i).no_duplicates(),
{
    assert forall|a: int, b: int| 0 <= a < b < s.take(i).len() implies s.take(i)[a] != s.take(
        i,
    )[b] by {
        assert(s.take(i)[a] == s[a] && s.take(i)[b] == s[b]);
    }
}


/// Two heaps agree on a node's chain-relevant state when the second differs
/// at most by live marks: a chain well formed in the first stays well formed.
pub proof fn lemma_chain_frame(h0: Heap, h1: Heap, head: Option<u64>, s: Seq<u64>)
    requires
        chain_wf(h0, head, s),
        h1.moved == h0.moved,
        forall|a: u64| h1.has_obj(a) == h0.has_obj(a),
        forall|n: u64| s.contains(n) ==> untouched_or_marked(h0, h1, n),
    ensures
        chain_wf(h1, head, s),
{
    assert forall|i: int| 0 <= i < s.len() implies node_ok(h1, #[trigger] s[i]) && h1.obj(
        s[i],
    ).discovered == h0.obj(s[i]).discovered by {
        assert(s.contains(s[i]));
        assert(untouched_or_marked(h0, h1, s[i]));
    }
    assert forall|i: int| 0 <= i < s.len() - 1 implies h1.link_of(#[trigger] s[i]) == Some(
        s[i + 1],
    ) by {
        assert(h0.link_of(s[i]) == Some(s[i + 1]));
    }
    if s.len() > 0 {
        assert(h0.link_of(s[s.len() - 1]) == Some(s[s.len() - 1]));
    }
}

/// Under the same agreement, with the pending queue untouched, the pending
/// chain stays well formed.
pub proof fn lemma_pending_frame(h0: Heap, h1: Heap)
    requires
        h0.pending_wf(),
        h1.pending == h0.pending,
        h1.pending_head == h0.pending_head,
        h1.moved == h0.moved,
        forall|a: u64| h1.has_obj(a) == h0.has_obj(a),
        forall|n: u64| h0.pending@.contains(n) ==> untouched_or_marked(h0, h1, n),
    ensures
        h1.pending_wf(),
{
    let p = h0.pending@;
    assert forall|i: int| 0 <= i < p.len() implies h1.has_obj(#[trigger] p[i])
        && !h1.moved@.dom().contains(p[i]) && h1.obj(p[i]).discovered == h0.obj(
        p[i],
    ).discovered by {
        assert(p.contains(p[i]));
        assert(untouched_or_marked(h0, h1, p[i]));
    }
    assert forall|i: int| 0 <= i < p.len() - 1 implies h1.link_of(#[trigger] p[i]) == Some(
        p[i + 1],
    ) by {
        assert(h0.link_of(p[i]) == Some(p[i + 1]));
    }
    if p.len() > 0 {
        assert(h0.link_of(p[p.len() - 1]) == None::<u64>);
    }
}

/// Two heaps that make the same removal decision on every node of `s` keep
/// the same survivors.
pub proof fn lemma_survivors_agree(h0: Heap, h1: Heap, s: Seq<u64>, rt: RefKind)
    requires
        forall|n: u64| s.contains(n) ==> drain_removes(h0, n, rt) == drain_removes(h1, n, rt),
    ensures
        survivors(h0, s, rt) == survivors(h1, s, rt),
    decreases s.len(),
{
    if s.len() > 0 {
        assert(s.contains(s.last()));
        assert forall|n: u64| s.drop_last().contains(n) implies drain_removes(h0, n, rt)
            == drain_removes(h1, n, rt) by {
            let j = choose|j: int| 0 <= j < s.drop_last().len() && s.drop_last()[j] == n;
            assert(s[j] == n);
            assert(s.contains(n));
        }
        lemma_survivors_agree(h0, h1, s.drop_last(), rt);
    }
}

/// Splice a surviving sublist into the host pending queue: publish the
/// sublist head through the host's atomic head swap, then point the sublist
/// tail's discovery link at the queue's previous head, forming one chain
/// from the new entries to the queue's former contents.
#[verifier::rlimit(30)]
pub(crate) fn splice_to_pending(heap: &mut Heap, hd: u64, tl: u64, Ghost(kept): Ghost<Seq<u64>>)
    requires
        old(heap).wf(),
        old(heap).pending_wf(),
        chain_wf(*old(heap), Some(hd), kept),
        kept.len() > 0,
        tl == kept[kept.len() - 1],
        forall|n: u64| kept.contains(n) ==> !old(heap).pending@.contains(n),
    ensures
        final(heap).wf(),
        final(heap).pending_wf(),
        final(heap).pending@ == kept + old(heap).pending@,
        final(heap).pending_head == Some(hd),
        final(heap).moved == old(heap).moved,
        final(heap).emergency == old(heap).emergency,
        forall|a: u64| final(heap).has_obj(a) == old(heap).has_obj(a),
        final(heap).objects@ == old(heap).objects@.insert(
            tl,
            RefObject { discovered: old(heap).pending_head, ..old(heap).obj(tl) },
        ),
{
    proof {
        assert(kept.contains(tl));
        assert(node_ok(*old(heap), tl));
    }
    let old_head = heap.swap_reference_pending_list(hd);
    heap.set_discovered(tl, old_head);
    proof {
        let p0 = old(heap).pending@;
        let q = kept + p0;
        heap.pending = Ghost(q);
        assert(q[0] == hd);
        assert forall|i: int, j: int| 0 <= i < j < q.len() implies q[i] != q[j] by {
            if j < kept.len() {
            } else if i >= kept.len() {
                assert(q[i] == p0[i - kept.len()] && q[j] == p0[j - kept.len()]);
            } else {
                assert(q[i] == kept[i] && q[j] == p0[j - kept.len()]);
                assert(kept.contains(kept[i]));
                assert(!p0.contains(kept[i]));
                assert(p0.contains(p0[j - kept.len()]));
            }
        }
        assert(q.no_duplicates());
        assert forall|i: int| 0 <= i < q.len() implies heap.has_obj(#[trigger] q[i])
            && !heap.moved@.dom().contains(q[i]) by {
            if i < kept.len() {
                assert(node_ok(*old(heap), kept[i]));
            } else {
                assert(q[i] == p0[i - kept.len()]);
            }
        }
        assert forall|i: int| 0 <= i < q.len() - 1 implies heap.link_of(#[trigger] q[i]) == Some(
            q[i + 1],
        ) by {
            if i < kept.len() - 1 {
                assert(q[i] == kept[i]);
                assert(kept.contains(kept[i]));
                assert(kept[i] != tl);
                assert(heap.obj(kept[i]) == old(heap).obj(kept[i]));
                assert(old(heap).link_of(kept[i]) == Some(kept[i + 1]));
            } else if i == kept.len() - 1 {
                assert(q[i] == tl);
                assert(p0.len() > 0 && q[i + 1] == p0[0]);
                assert(heap.obj(tl).discovered == Some(p0[0]));
                assert(p0.contains(p0[0]));
                assert(!heap.moved@.dom().contains(p0[0]));
            } else {
                assert(q[i] == p0[i - kept.len()] && q[i + 1] == p0[i + 1 - kept.len()]);
                assert(p0.contains(p0[i - kept.len()]));
                assert(p0[i - kept.len()] != tl);
                assert(heap.obj(p0[i - kept.len()]) == old(heap).obj(p0[i - kept.len()]));
                assert(old(heap).link_of(p0[i - kept.len()]) == Some(p0[i + 1 - kept.len()]));
            }
        }
        assert(q.len() > 0 ==> heap.link_of(q[q.len() - 1]) == None::<u64>) by {
            if p0.len() == 0 {
                assert(q[q.len() - 1] == tl);
                assert(old(heap).pending_head is None);
                assert(heap.obj(tl).discovered is None);
            } else {
                assert(q[q.len() - 1] == p0[p0.len() - 1]);
                assert(p0.contains(p0[p0.len() - 1]));
                assert(p0[p0.len() - 1] != tl);
                assert(old(heap).link_of(p0[p0.len() - 1]) == None::<u64>);
            }
        }
        assert(heap.pending_wf());
    }
}

/// Walk a list of Final references kept for resurrection: trace each node's
/// referent, raising it from the dead and following its relocation, and
/// store the forwarded address back.  The chain itself is left intact.
#[verifier::rlimit(60)]
#[verifier::spinoff_prover]
pub(crate) fn resurrect_list(heap: &mut Heap, head: u64, Ghost(s): Ghost<Seq<u64>>) -> (tl: u64)
    requires
        old(heap).wf(),
        chain_wf(*old(heap), Some(head), s),
        referents_ok(*old(heap), s),
        forall|i: int| 0 <= i < s.len() ==> old(heap).obj(#[trigger] s[i]).referent is Some,
    ensures
        final(heap).wf(),
        final(heap).moved == old(heap).moved,
        final(heap).pending == old(heap).pending,
        final(heap).pending_head == old(heap).pending_head,
        final(heap).emergency == old(heap).emergency,
        forall|a: u64| final(heap).has_obj(a) == old(heap).has_obj(a),
        chain_wf(*final(heap), Some(head), s),
        forall|i: int|
            0 <= i < s.len() ==> ({
                let r = old(heap).obj(#[trigger] s[i]).referent->0;
                &&& final(heap).obj(s[i]).referent == Some(old(heap).resolve_spec(r))
                &&& final(heap).is_live_spec(old(heap).resolve_spec(r))
                &&& final(heap).obj(s[i]).kind == old(heap).obj(s[i]).kind
                &&& final(heap).obj(s[i]).discovered == old(heap).obj(s[i]).discovered
                &&& final(heap).obj(s[i]).live
            }),
        forall|a: u64|
            old(heap).has_obj(a) && !s.contains(a) ==> untouched_or_marked(
                *old(heap),
                *final(heap),
                a,
            ),
        s.len() > 0 && tl == s[s.len() - 1],
{
    let ghost h0 = *old(heap);
    let mut cur = head;
    let ghost mut i: int = 0;
    loop
        invariant_except_break
            0 <= i < s.len(),
            cur == s[i],
        invariant
            heap.wf(),
            h0 == *old(heap),
            heap.moved == h0.moved,
            heap.pending == h0.pending,
            heap.pending_head == h0.pending_head,
            heap.emergency == h0.emergency,
            chain_wf(h0, Some(head), s),
            referents_ok(h0, s),
            forall|i2: int| 0 <= i2 < s.len() ==> h0.obj(#[trigger] s[i2]).referent is Some,
            forall|a: u64| heap.has_obj(a) == h0.has_obj(a),
            0 <= i <= s.len(),
            forall|j: int| i <= j < s.len() ==> heap.obj(#[trigger] s[j]) == h0.obj(s[j]),
            forall|j: int|
                0 <= j < i ==> ({
                    let r = h0.obj(#[trigger] s[j]).referent->0;
                    &&& heap.obj(s[j]).referent == Some(h0.resolve_spec(r))
                    &&& heap.is_live_spec(h0.resolve_spec(r))
                    &&& heap.obj(s[j]).kind == h0.obj(s[j]).kind
                    &&& heap.obj(s[j]).discovered == h0.obj(s[j]).discovered
                    &&& heap.obj(s[j]).live
                }),
            forall|a: u64| h0.has_obj(a) && !s.contains(a) ==> untouched_or_marked(h0, *heap, a),
        ensures
            i == s.len(),
            s.len() > 0 && cur == s[s.len() - 1],
        decreases s.len() - i,
    {
        proof {
            assert(node_ok(h0, s[i]));
            assert(heap.has_obj(cur));
        }
        let raw_next = match heap.get_discovered(cur) {
            Some(r) => r,
            None => {
                proof {
                    if i < s.len() - 1 {
                        assert(h0.link_of(s[i]) == Some(s[i + 1]));
                    } else {
                        assert(h0.link_of(s[i]) == Some(s[i]));
                    }
                    assert(false);
                }
                cur
            },
        };
        let next = heap.resolve(raw_next);
        proof {
            if i < s.len() - 1 {
                assert(h0.link_of(s[i]) == Some(s[i + 1]));
                assert(next == s[i + 1]);
                assert(s[i + 1] != s[i]);
            } else {
                assert(h0.link_of(s[i]) == Some(s[i]));
                assert(next == cur);
            }
        }
        let r = match heap.get_referent(cur) {
            Some(r) => r,
            None => {
                proof {
                    assert(h0.obj(s[i]).referent is Some);
                    assert(false);
                }
                cur
            },
        };
        proof {
            assert(h0.has_obj(h0.resolve_spec(r)));
            assert(heap.resolve_spec(r) == h0.resolve_spec(r));
        }
        let ghost h_pre = *heap;
        let f = heap.trace_object(r);
        let ghost h_mid = *heap;
        heap.set_referent(cur, Some(f));
        proof {
            assert(heap.obj(cur).referent == Some(f));
            assert(h_mid.obj(cur).kind == h0.obj(cur).kind && h_mid.obj(cur).live && h_mid.obj(
                cur,
            ).discovered == h0.obj(cur).discovered) by {
                if cur == f {
                    assert(h_pre.obj(cur) == h0.obj(cur));
                } else {
                    assert(h_mid.obj(cur) == h_pre.obj(cur));
                }
            }
            assert(heap.is_live_spec(f));
            assert forall|j: int| i + 1 <= j < s.len() implies heap.obj(#[trigger] s[j]) == h0.obj(
                s[j],
            ) by {
                assert(s[j] != cur);
                assert(h_pre.obj(s[j]) == h0.obj(s[j]));
                assert(h_pre.obj(s[j]).live);
            }
            assert forall|j: int|
                0 <= j < i + 1 implies ({
                    let r2 = h0.obj(#[trigger] s[j]).referent->0;
                    &&& heap.obj(s[j]).referent == Some(h0.resolve_spec(r2))
                    &&& heap.is_live_spec(h0.resolve_spec(r2))
                    &&& heap.obj(s[j]).kind == h0.obj(s[j]).kind
                    &&& heap.obj(s[j]).discovered == h0.obj(s[j]).discovered
                    &&& heap.obj(s[j]).live
                }) by {
                if j < i {
                    assert(s[j] != cur);
                    assert(h_pre.obj(s[j]).live);
                    assert(h_pre.is_live_spec(h0.resolve_spec(h0.obj(s[j]).referent->0)));
                } else {
                    assert(heap.obj(cur).referent == Some(h0.resolve_spec(r)));
                }
            }
            assert forall|a: u64| h0.has_obj(a) && !s.contains(a) implies untouched_or_marked(
                h0,
                *heap,
                a,
            ) by {
                assert(a != cur);
                assert(untouched_or_marked(h0, h_pre, a));
                if a == f {
                    assert(h_mid.obj(f) == (RefObject { live: true, ..h_pre.obj(f) }));
                }
            }
            i = i + 1;
        }
        if next == cur {
            proof {
                assert(i == s.len());
            }
            break ;
        }
        cur = next;
    }
    proof {
        assert forall|n: u64| s.contains(n) implies untouched_or_marked_chainlike(
            h0,
            *heap,
            n,
        ) by {
            let j = choose|j: int| 0 <= j < s.len() && s[j] == n;
            assert(heap.obj(s[j]).discovered == h0.obj(s[j]).discovered);
            assert(heap.obj(s[j]).live);
        }
        assert forall|i2: int| 0 <= i2 < s.len() implies node_ok(*heap, #[trigger] s[i2]) by {
            assert(s.contains(s[i2]));
        }
        assert forall|i2: int| 0 <= i2 < s.len() - 1 implies heap.link_of(#[trigger] s[i2]) == Some(
            s[i2 + 1],
        ) by {
            assert(s.contains(s[i2]));
            assert(heap.obj(s[i2]).discovered == h0.obj(s[i2]).discovered);
            assert(h0.link_of(s[i2]) == Some(s[i2 + 1]));
        }
        if s.len() > 0 {
            assert(s.contains(s[s.len() - 1]));
            assert(heap.obj(s[s.len() - 1]).discovered == h0.obj(s[s.len() - 1]).discovered);
            assert(h0.link_of(s[s.len() - 1]) == Some(s[s.len() - 1]));
        }
    }
    cur
}

/// A node of a resurrected chain keeps its discovery link and liveness.
pub open spec fn untouched_or_marked_chainlike(h0: Heap, h: Heap, n: u64) -> bool {
    &&& h.obj(n).discovered == h0.obj(n).discovered
    &&& h.obj(n).live
}


/// The per-worker discovered lists of all four reference kinds, with the
/// process-wide discovery-enabled flag.  Created once at collector startup
/// and reset, not reallocated, every cycle.
pub struct DiscoveredLists {
    /// One Soft-kind list per worker.
    pub soft: Vec<DiscoveredList>,
    /// One Weak-kind list per worker.
    pub weak: Vec<DiscoveredList>,
    /// One Final-kind list per worker.
    pub finals: Vec<DiscoveredList>,
    /// One Phantom-kind list per worker.
    pub phantom: Vec<DiscoveredList>,
    /// Whether discovery is currently permitted; cleared at the start of
    /// draining and re-enabled once mutators resume.
    pub allow_discover: bool,
}

impl DiscoveredLists {
    /// The shards of one reference kind.
    pub open spec fn shards(self, rt: RefKind) -> Seq<DiscoveredList> {
        match rt {
            RefKind::Soft => self.soft@,
            RefKind::Weak => self.weak@,
            RefKind::Final => self.finals@,
            RefKind::Phantom => self.phantom@,
        }
    }

    /// Every kind has one shard per worker, and every shard carries its own
    /// kind.
    pub open spec fn kinds_ok(self) -> bool {
        &&& self.soft@.len() == self.weak@.len()
        &&& self.weak@.len() == self.finals@.len()
        &&& self.finals@.len() == self.phantom@.len()
        &&& forall|rt: RefKind, i: int|
            0 <= i < self.shards(rt).len() ==> (#[trigger] self.shards(rt)[i]).rt == rt
    }

    /// All shards are well-formed chains of nodes of their own kind whose
    /// referents are modelled objects; no object sits on two shards, nor on
    /// a shard and the pending queue at once.
    #[verifier::opaque]
    pub open spec fn wf(self, h: Heap) -> bool {
        &&& self.kinds_ok()
        &&& forall|rt: RefKind, i: int|
            0 <= i < self.shards(rt).len() ==> (#[trigger] self.shards(rt)[i]).wf(h)
        &&& forall|rt: RefKind, i: int|
            0 <= i < self.shards(rt).len() ==> referents_ok(h, (#[trigger] self.shards(rt)[i]).nodes@)
        &&& forall|rt1: RefKind, i1: int, rt2: RefKind, i2: int, n: u64|
            0 <= i1 < self.shards(rt1).len() && 0 <= i2 < self.shards(rt2).len() && (rt1 != rt2
                || i1 != i2) && (#[trigger] self.shards(rt1)[i1].nodes@.contains(n)) ==> !(
            #[trigger] self.shards(rt2)[i2].nodes@.contains(n))
        &&& forall|rt: RefKind, i: int, n: u64|
            0 <= i < self.shards(rt).len() && (#[trigger] self.shards(rt)[i].nodes@.contains(n))
                ==> !h.pending@.contains(n)
    }

    /// One empty list per worker and kind, with discovery permitted.
    pub fn new(workers: usize) -> (r: Self)
        ensures
            r.allow_discover,
            r.soft@.len() == workers,
            r.kinds_ok(),
            forall|rt: RefKind, i: int|
                0 <= i < workers ==> (#[trigger] r.shards(rt)[i]).head is None && r.shards(
                    rt,
                )[i].nodes@.len() == 0,
            forall|h: Heap| h.pending_wf() || true ==> r.wf(h),
    {
        let mut soft: Vec<DiscoveredList> = Vec::new();
        let mut weak: Vec<DiscoveredList> = Vec::new();
        let mut finals: Vec<DiscoveredList> = Vec::new();
        let mut phantom: Vec<DiscoveredList> = Vec::new();
        let mut i: usize = 0;
        while i < workers
            invariant
                i <= workers,
                soft@.len() == i,
                weak@.len() == i,
                finals@.len() == i,
                phantom@.len() == i,
                forall|j: int|
                    0 <= j < i ==> (#[trigger] soft@[j]).head is None && soft@[j].nodes@.len() == 0
                        && soft@[j].rt == RefKind::Soft,
                forall|j: int|
                    0 <= j < i ==> (#[trigger] weak@[j]).head is None && weak@[j].nodes@.len() == 0
                        && weak@[j].rt == RefKind::Weak,
                forall|j: int|
                    0 <= j < i ==> (#[trigger] finals@[j]).head is None && finals@[j].nodes@.len()
                        == 0 && finals@[j].rt == RefKind::Final,
                forall|j: int|
                    0 <= j < i ==> (#[trigger] phantom@[j]).head is None
                        && phantom@[j].nodes@.len() == 0 && phantom@[j].rt == RefKind::Phantom,
            decreases workers - i,
        {
            soft.push(DiscoveredList::new(RefKind::Soft));
            weak.push(DiscoveredList::new(RefKind::Weak));
            finals.push(DiscoveredList::new(RefKind::Final));
            phantom.push(DiscoveredList::new(RefKind::Phantom));
            i = i + 1;
        }
        let r = DiscoveredLists { soft, weak, finals, phantom, allow_discover: true };
        proof {
            reveal(DiscoveredLists::wf);
            assert forall|rt: RefKind, i2: int|
                0 <= i2 < r.shards(rt).len() implies (#[trigger] r.shards(rt)[i2]).rt == rt
                && r.shards(rt)[i2].head is None && r.shards(rt)[i2].nodes@.len() == 0 by {
            }
        }
        r
    }

    /// Re-enable discovery once mutators resume.
    pub fn enable_discover(&mut self)
        ensures
            *final(self) == (DiscoveredLists { allow_discover: true, ..*old(self) }),
    {
        self.allow_discover = true;
    }

    /// Whether discovery is currently permitted.
    pub fn allow_discover(&self) -> (r: bool)
        ensures
            r == self.allow_discover,
    {
        self.allow_discover
    }

    /// The shard of kind `rt` with the given index.
    pub fn get_by_rt_and_index(&self, rt: RefKind, index: usize) -> (r: &DiscoveredList)
        requires
            self.kinds_ok(),
            index < self.soft@.len(),
        ensures
            *r == self.shards(rt)[index as int],
    {
        match rt {
            RefKind::Soft => &self.soft[index],
            RefKind::Weak => &self.weak[index],
            RefKind::Phantom => &self.phantom[index],
            RefKind::Final => &self.finals[index],
        }
    }

    /// The discovering worker's own shard of kind `rt`.
    pub fn get(&self, rt: RefKind, worker_ordinal: usize) -> (r: &DiscoveredList)
        requires
            self.kinds_ok(),
            worker_ordinal < self.soft@.len(),
        ensures
            *r == self.shards(rt)[worker_ordinal as int],
    {
        self.get_by_rt_and_index(rt, worker_ordinal)
    }

    /// Discovery entry point, called by the tracer when scanning meets a
    /// reference-kind object: while discovery is permitted, and the object's
    /// referent is non-null and its discovery link still unset, link it onto
    /// the discovering worker's shard of its kind.  Returns whether the
    /// object was linked.
    #[verifier::rlimit(60)]
    #[verifier::spinoff_prover]
    pub fn discover(&mut self, heap: &mut Heap, worker: usize, rt: RefKind, obj: u64) -> (added:
        bool)
        requires
            old(heap).wf(),
            old(heap).pending_wf(),
            old(self).wf(*old(heap)),
            worker < old(self).soft@.len(),
            node_ok(*old(heap), obj),
            old(heap).obj(obj).kind == rt,
            (match old(heap).obj(obj).referent {
                Some(r) => old(heap).has_obj(old(heap).resolve_spec(r)),
                None => true,
            }),
            !old(heap).pending@.contains(obj),
        ensures
            final(heap).wf(),
            final(heap).pending_wf(),
            final(self).wf(*final(heap)),
            final(self).allow_discover == old(self).allow_discover,
            final(self).soft@.len() == old(self).soft@.len(),
            added == (old(self).allow_discover && old(heap).obj(obj).discovered is None && old(
                heap,
            ).obj(obj).referent is Some),
            !added ==> *final(heap) == *old(heap) && *final(self) == *old(self),
            added ==> ({
                &&& final(self).shards(rt)[worker as int].nodes@ == seq![obj] + old(self).shards(
                    rt,
                )[worker as int].nodes@
                &&& final(self).shards(rt)[worker as int].head == Some(obj)
                &&& forall|rt2: RefKind, i2: int|
                    0 <= i2 < old(self).shards(rt2).len() && (rt2 != rt || i2 != worker as int)
                        ==> (#[trigger] final(self).shards(rt2)[i2]) == old(self).shards(rt2)[i2]
                &&& final(heap).objects@ == old(heap).objects@.insert(
                    obj,
                    RefObject {
                        discovered: Some(
                            match old(self).shards(rt)[worker as int].head {
                                Some(h) => h,
                                None => obj,
                            },
                        ),
                        ..old(heap).obj(obj)
                    },
                )
                &&& final(heap).moved == old(heap).moved
                &&& final(heap).pending == old(heap).pending
                &&& final(heap).pending_head == old(heap).pending_head
                &&& final(heap).emergency == old(heap).emergency
            }),
    {
        proof {
            reveal(DiscoveredLists::wf);
        }
        if !self.allow_discover {
            return false;
        }
        if heap.get_referent(obj).is_none() {
            return false;
        }
        if heap.get_discovered(obj).is_some() {
            return false;
        }
        let ghost l0 = self.shards(rt)[worker as int];
        let mut l = *self.get_by_rt_and_index(rt, worker);
        l.add(heap, obj);
        match rt {
            RefKind::Soft => self.soft[worker] = l,
            RefKind::Weak => self.weak[worker] = l,
            RefKind::Phantom => self.phantom[worker] = l,
            RefKind::Final => self.finals[worker] = l,
        }
        proof {
            let h0 = *old(heap);
            let w = worker as int;
            assert forall|rt2: RefKind, i2: int|
                0 <= i2 < old(self).shards(rt2).len() && (rt2 != rt || i2 != w) implies (
            #[trigger] self.shards(rt2)[i2]) == old(self).shards(rt2)[i2] by {}
            assert(self.shards(rt)[w] == l);
            assert(self.kinds_ok());
            // The freshly linked object was on no list: its link was unset.
            assert forall|rt2: RefKind, i2: int|
                0 <= i2 < self.shards(rt2).len() && (rt2 != rt || i2 != w) implies !(
            #[trigger] old(self).shards(rt2)[i2].nodes@.contains(obj)) by {
                lemma_unlinked_not_listed(
                    h0,
                    old(self).shards(rt2)[i2].head,
                    old(self).shards(rt2)[i2].nodes@,
                    obj,
                );
            }
            // Untouched shards keep their chains: only `obj` changed.
            assert forall|rt2: RefKind, i2: int|
                0 <= i2 < self.shards(rt2).len() && (rt2 != rt || i2 != w) implies (
            #[trigger] self.shards(rt2)[i2]).wf(*heap) && referents_ok(
                *heap,
                self.shards(rt2)[i2].nodes@,
            ) by {
                let l2 = old(self).shards(rt2)[i2];
                assert(l2.wf(h0));
                assert forall|n: u64| l2.nodes@.contains(n) implies untouched_or_marked(
                    h0,
                    *heap,
                    n,
                ) && heap.obj(n) == h0.obj(n) by {
                    assert(n != obj);
                }
                lemma_chain_frame(h0, *heap, l2.head, l2.nodes@);
                assert forall|i3: int| 0 <= i3 < l2.nodes@.len() implies heap.obj(
                    #[trigger] l2.nodes@[i3],
                ).kind == rt2 by {
                    assert(l2.nodes@.contains(l2.nodes@[i3]));
                }
                assert forall|i3: int|
                    0 <= i3 < l2.nodes@.len() implies (match heap.obj(
                        #[trigger] l2.nodes@[i3],
                    ).referent {
                        None => true,
                        Some(r) => heap.has_obj(heap.resolve_spec(r)),
                    }) by {
                    assert(l2.nodes@.contains(l2.nodes@[i3]));
                    assert(heap.obj(l2.nodes@[i3]) == h0.obj(l2.nodes@[i3]));
                }
            }
            // The updated shard's referents are still modelled objects.
            assert forall|i3: int|
                0 <= i3 < l.nodes@.len() implies (match heap.obj(#[trigger] l.nodes@[i3]).referent {
                    None => true,
                    Some(r) => heap.has_obj(heap.resolve_spec(r)),
                }) by {
                if i3 == 0 {
                    assert(heap.obj(obj).referent == h0.obj(obj).referent);
                } else {
                    assert(l0.nodes@[i3 - 1] == l.nodes@[i3]);
                    assert(l0.nodes@.contains(l0.nodes@[i3 - 1]));
                    assert(l0.nodes@[i3 - 1] != obj) by {
                        lemma_unlinked_not_listed(h0, l0.head, l0.nodes@, obj);
                    }
                }
            }
            // Disjointness: the new node joins exactly one shard.
            assert forall|rt1: RefKind, i1: int, rt2: RefKind, i2: int, n: u64|
                0 <= i1 < self.shards(rt1).len() && 0 <= i2 < self.shards(rt2).len() && (rt1 != rt2
                    || i1 != i2) && (#[trigger] self.shards(rt1)[i1].nodes@.contains(n)) implies !(
            #[trigger] self.shards(rt2)[i2].nodes@.contains(n)) by {
                if rt1 == rt && i1 == w {
                    if n == obj {
                        assert(!old(self).shards(rt2)[i2].nodes@.contains(obj));
                    } else {
                        assert(l.nodes@ == seq![obj] + l0.nodes@);
                        let j = choose|j: int| 0 <= j < l.nodes@.len() && l.nodes@[j] == n;
                        assert(l0.nodes@[j - 1] == n);
                        assert(l0.nodes@.contains(n));
                        assert(!old(self).shards(rt2)[i2].nodes@.contains(n));
                    }
                } else if rt2 == rt && i2 == w {
                    assert(old(self).shards(rt1)[i1].nodes@.contains(n));
                    if self.shards(rt2)[i2].nodes@.contains(n) {
                        let j = choose|j: int| 0 <= j < l.nodes@.len() && l.nodes@[j] == n;
                        if j == 0 {
                            assert(n == obj);
                            assert(!old(self).shards(rt1)[i1].nodes@.contains(obj));
                        } else {
                            assert(l0.nodes@[j - 1] == n);
                            assert(l0.nodes@.contains(n));
                            assert(!old(self).shards(rt1)[i1].nodes@.contains(n));
                        }
                    }
                } else {
                    assert(old(self).shards(rt1)[i1].nodes@.contains(n));
                    assert(!old(self).shards(rt2)[i2].nodes@.contains(n));
                }
            }
            // No shard node waits on the pending queue.
            assert forall|rt2: RefKind, i2: int, n: u64|
                0 <= i2 < self.shards(rt2).len() && (#[trigger] self.shards(
                    rt2,
                )[i2].nodes@.contains(n)) implies !heap.pending@.contains(n) by {
                if rt2 == rt && i2 == w {
                    let j = choose|j: int| 0 <= j < l.nodes@.len() && l.nodes@[j] == n;
                    if j == 0 {
                        assert(n == obj);
                    } else {
                        assert(l0.nodes@[j - 1] == n);
                        assert(l0.nodes@.contains(n));
                    }
                } else {
                    assert(old(self).shards(rt2)[i2].nodes@.contains(n));
                }
            }
            // The pending chain is untouched: the new node was not on it.
            assert forall|n: u64| h0.pending@.contains(n) implies untouched_or_marked(
                h0,
                *heap,
                n,
            ) by {
                assert(n != obj);
            }
            lemma_pending_frame(h0, *heap);
        }
        true
    }
}


/// Agreement of the drain decision between two heaps that hold the node's
/// record, the forwarding table and the emergency flag in common: for soft
/// references under memory pressure the decision ignores liveness, otherwise
/// equal liveness of the referent is enough.
pub proof fn lemma_decision_agree(h0: Heap, h1: Heap, n: u64, rt: RefKind)
    requires
        h1.obj(n) == h0.obj(n),
        h1.moved == h0.moved,
        h1.emergency == h0.emergency,
        (match h0.obj(n).referent {
            Some(r) => h1.is_live_spec(r) == h0.is_live_spec(r) || (rt == RefKind::Soft
                && h0.emergency),
            None => true,
        }),
    ensures
        drain_removes(h1, n, rt) == drain_removes(h0, n, rt),
        referent_after(h1, n, rt) == referent_after(h0, n, rt),
{
    match h0.obj(n).referent {
        None => {},
        Some(r) => {
            assert(h1.resolve_spec(r) == h0.resolve_spec(r));
        },
    }
}

/// One scheduled drain task: walk one shard's snapshot of a discovered list,
/// splice the surviving sublist into the host pending queue (or, for Final
/// kind, store it back as the shard's new head), and leave every visited
/// node in its decided state.
#[derive(Clone, Copy)]
pub struct ProcessDiscoveredList {
    /// The index of the shard the task drains.
    pub list_index: usize,
    /// The shard head taken when the task was scheduled.
    pub head: u64,
    /// The shard's nodes when the task was scheduled.
    pub nodes: Ghost<Seq<u64>>,
    /// The reference kind of the list.
    pub rt: RefKind,
}

impl ProcessDiscoveredList {
    /// Drain the snapshot list and dispose of the survivors by kind.
    #[verifier::rlimit(100)]
    #[verifier::spinoff_prover]
    pub fn do_work(&self, heap: &mut Heap, lists: &mut DiscoveredLists)
        requires
            old(heap).wf(),
            old(heap).pending_wf(),
            chain_wf(*old(heap), Some(self.head), self.nodes@),
            referents_ok(*old(heap), self.nodes@),
            forall|i: int|
                0 <= i < self.nodes@.len() ==> old(heap).obj(#[trigger] self.nodes@[i]).kind
                    == self.rt,
            forall|n: u64| self.nodes@.contains(n) ==> !old(heap).pending@.contains(n),
            self.rt == RefKind::Final ==> self.list_index < old(lists).finals@.len(),
        ensures
            final(heap).wf(),
            final(heap).pending_wf(),
            final(heap).moved == old(heap).moved,
            final(heap).emergency == old(heap).emergency,
            forall|a: u64| final(heap).has_obj(a) == old(heap).has_obj(a),
            forall|i: int|
                0 <= i < self.nodes@.len() ==> visited_node_ok(
                    *old(heap),
                    *final(heap),
                    #[trigger] self.nodes@[i],
                    self.rt,
                ),
            forall|a: u64|
                old(heap).has_obj(a) && !self.nodes@.contains(a) ==> untouched_or_marked(
                    *old(heap),
                    *final(heap),
                    a,
                ),
            forall|x: u64| old(heap).is_live_spec(x) ==> (#[trigger] final(heap).is_live_spec(x)),
            !(self.rt == RefKind::Soft && old(heap).emergency) ==> forall|x: u64|
                (#[trigger] final(heap).is_live_spec(x)) == old(heap).is_live_spec(x),
            self.rt != RefKind::Final ==> (*final(lists) == *old(lists) && final(heap).pending@
                == survivors(*old(heap), self.nodes@, self.rt) + old(heap).pending@),
            self.rt == RefKind::Final ==> ({
                let k = survivors(*old(heap), self.nodes@, RefKind::Final);
                let shard = DiscoveredList {
                    head: (if k.len() == 0 {
                        Option::<u64>::None
                    } else {
                        Some(k[0])
                    }),
                    nodes: Ghost(k),
                    rt: RefKind::Final,
                };
                &&& final(heap).pending@ == old(heap).pending@
                &&& final(heap).pending_head == old(heap).pending_head
                &&& final(lists).soft == old(lists).soft
                &&& final(lists).weak == old(lists).weak
                &&& final(lists).phantom == old(lists).phantom
                &&& final(lists).allow_discover == old(lists).allow_discover
                &&& final(lists).finals@ == old(lists).finals@.update(self.list_index as int, shard)
                &&& shard.wf(*final(heap))
                &&& referents_ok(*final(heap), k)
            }),
    {
        let ghost h0 = *old(heap);
        let ghost s = self.nodes@;
        let res = drain_list(heap, self.head, Ghost(s), self.rt);
        let ghost k = survivors(h0, s, self.rt);
        proof {
            lemma_drain_partition(h0, s, self.rt);
            lemma_survivors_subset(h0, s, self.rt);
            assert forall|n: u64| h0.pending@.contains(n) implies untouched_or_marked(
                h0,
                *heap,
                n,
            ) by {
                assert(!s.contains(n));
                assert(h0.has_obj(n));
            }
            lemma_pending_frame(h0, *heap);
            assert forall|m: int| 0 <= m < k.len() implies s.contains(#[trigger] k[m])
                && !drain_removes(h0, k[m], self.rt) by {
                assert(k.contains(k[m]));
            }
        }
        if self.rt == RefKind::Final {
            let new_head = match res {
                Some((hd, _)) => Some(hd),
                None => None,
            };
            let shard = DiscoveredList { head: new_head, nodes: Ghost(k), rt: RefKind::Final };
            lists.finals[self.list_index] = shard;
            proof {
                assert(shard.wf(*heap)) by {
                    assert(chain_wf(*heap, new_head, k));
                    assert forall|m: int| 0 <= m < k.len() implies heap.obj(
                        #[trigger] k[m],
                    ).kind == RefKind::Final by {
                        let j = choose|j: int| 0 <= j < s.len() && s[j] == k[m];
                        assert(visited_node_ok(h0, *heap, s[j], self.rt));
                    }
                }
                assert forall|m: int|
                    0 <= m < k.len() implies (match heap.obj(#[trigger] k[m]).referent {
                        None => true,
                        Some(r) => heap.has_obj(heap.resolve_spec(r)),
                    }) by {
                    let j = choose|j: int| 0 <= j < s.len() && s[j] == k[m];
                    assert(visited_node_ok(h0, *heap, s[j], self.rt));
                    assert(heap.obj(k[m]).referent == referent_after(h0, k[m], self.rt));
                    match heap.obj(k[m]).referent {
                        None => {},
                        Some(r) => {
                            assert(r == h0.obj(k[m]).referent->0 || r == h0.resolve_spec(
                                h0.obj(k[m]).referent->0,
                            ));
                            assert(h0.has_obj(h0.resolve_spec(h0.obj(k[m]).referent->0)));
                            assert(heap.resolve_spec(r) == h0.resolve_spec(r));
                            if r == h0.resolve_spec(h0.obj(k[m]).referent->0) {
                                assert(h0.resolve_spec(r) == r) by {
                                    assert(h0.has_obj(r));
                                }
                            }
                        },
                    }
                }
            }
        } else {
            match res {
                Some((hd, tl)) => {
                    proof {
                        assert forall|n: u64| k.contains(n) implies !heap.pending@.contains(n) by {
                            assert(s.contains(n));
                        }
                    }
                    let ghost h_drained = *heap;
                    splice_to_pending(heap, hd, tl, Ghost(k));
                    proof {
                        assert(k.contains(tl));
                        assert(s.contains(tl));
                        assert forall|i: int| 0 <= i < s.len() implies visited_node_ok(
                            h0,
                            *heap,
                            #[trigger] s[i],
                            self.rt,
                        ) by {
                            assert(visited_node_ok(h0, h_drained, s[i], self.rt));
                            if s[i] == tl {
                                assert(!drain_removes(h0, tl, self.rt));
                                assert(heap.obj(tl).referent == h_drained.obj(tl).referent);
                            }
                        }
                        assert forall|a: u64| h0.has_obj(a) && !s.contains(a) implies
                            untouched_or_marked(h0, *heap, a) by {
                            assert(untouched_or_marked(h0, h_drained, a));
                            assert(a != tl);
                        }
                        assert forall|x: u64| h0.is_live_spec(x) implies (
                        #[trigger] heap.is_live_spec(x)) by {
                            assert(h_drained.is_live_spec(x));
                            assert(heap.is_live_spec(x) == h_drained.is_live_spec(x));
                        }
                        if !(self.rt == RefKind::Soft && h0.emergency) {
                            assert forall|x: u64| (#[trigger] heap.is_live_spec(x))
                                == h0.is_live_spec(x) by {
                                assert(h_drained.is_live_spec(x) == h0.is_live_spec(x));
                                assert(heap.is_live_spec(x) == h_drained.is_live_spec(x));
                            }
                        }
                    }
                },
                None => {
                    proof {
                        assert(k.len() == 0);
                        assert(k + h0.pending@ =~= h0.pending@);
                    }
                },
            }
        }
    }
}

/// One scheduled resurrection task: trace every referent of a kept Final
/// list (raising it from the dead), store the forwarded addresses, and
/// splice the whole list into the host pending queue.
#[derive(Clone, Copy)]
pub struct ResurrectFinalizables {
    /// Which Final shard the list was taken from.
    pub list_index: usize,
    /// The shard head taken when the task was scheduled.
    pub head: u64,
    /// The shard's nodes when the task was scheduled.
    pub nodes: Ghost<Seq<u64>>,
}

impl ResurrectFinalizables {
    /// Resurrect the referents and enqueue the whole list.
    #[verifier::rlimit(60)]
    #[verifier::spinoff_prover]
    pub fn do_work(&self, heap: &mut Heap)
        requires
            old(heap).wf(),
            old(heap).pending_wf(),
            chain_wf(*old(heap), Some(self.head), self.nodes@),
            referents_ok(*old(heap), self.nodes@),
            forall|i: int|
                0 <= i < self.nodes@.len() ==> old(heap).obj(#[trigger] self.nodes@[i]).referent
                    is Some,
            forall|n: u64| self.nodes@.contains(n) ==> !old(heap).pending@.contains(n),
        ensures
            final(heap).wf(),
            final(heap).pending_wf(),
            final(heap).moved == old(heap).moved,
            final(heap).emergency == old(heap).emergency,
            forall|a: u64| final(heap).has_obj(a) == old(heap).has_obj(a),
            final(heap).pending@ == self.nodes@ + old(heap).pending@,
            forall|i: int|
                0 <= i < self.nodes@.len() ==> ({
                    let r = old(heap).obj(#[trigger] self.nodes@[i]).referent->0;
                    &&& final(heap).obj(self.nodes@[i]).referent == Some(
                        old(heap).resolve_spec(r),
                    )
                    &&& final(heap).is_live_spec(old(heap).resolve_spec(r))
                    &&& final(heap).obj(self.nodes@[i]).kind == old(heap).obj(
                        self.nodes@[i],
                    ).kind
                    &&& final(heap).obj(self.nodes@[i]).live
                }),
            forall|a: u64|
                old(heap).has_obj(a) && !self.nodes@.contains(a) ==> untouched_or_marked(
                    *old(heap),
                    *final(heap),
                    a,
                ),
            forall|x: u64| old(heap).is_live_spec(x) ==> (#[trigger] final(heap).is_live_spec(x)),
    {
        let ghost h0 = *old(heap);
        let ghost s = self.nodes@;
        let tl = resurrect_list(heap, self.head, Ghost(s));
        let ghost h_res = *heap;
        proof {
            assert forall|n: u64| h0.pending@.contains(n) implies untouched_or_marked(
                h0,
                *heap,
                n,
            ) by {
                assert(!s.contains(n));
                assert(h0.has_obj(n));
            }
            lemma_pending_frame(h0, *heap);
            assert forall|n: u64| s.contains(n) implies !heap.pending@.contains(n) by {}
        }
        splice_to_pending(heap, self.head, tl, Ghost(s));
        proof {
            assert(s.contains(tl));
            assert forall|i: int|
                0 <= i < s.len() implies ({
                    let r = h0.obj(#[trigger] s[i]).referent->0;
                    &&& heap.obj(s[i]).referent == Some(h0.resolve_spec(r))
                    &&& heap.is_live_spec(h0.resolve_spec(r))
                    &&& heap.obj(s[i]).kind == h0.obj(s[i]).kind
                    &&& heap.obj(s[i]).live
                }) by {
                if s[i] == tl {
                    assert(heap.obj(tl).referent == h_res.obj(tl).referent);
                    assert(heap.obj(tl).kind == h_res.obj(tl).kind);
                    assert(heap.obj(tl).live == h_res.obj(tl).live);
                }
                assert(h_res.is_live_spec(h0.resolve_spec(h0.obj(s[i]).referent->0))
                    == heap.is_live_spec(h0.resolve_spec(h0.obj(s[i]).referent->0)));
            }
            assert forall|a: u64| h0.has_obj(a) && !s.contains(a) implies untouched_or_marked(
                h0,
                *heap,
                a,
            ) by {
                assert(untouched_or_marked(h0, h_res, a));
                assert(a != tl);
            }
            assert forall|x: u64| h0.is_live_spec(x) implies (#[trigger] heap.is_live_spec(x)) by {
                if h0.has_obj(x) && h0.obj(x).live && !h0.moved@.dom().contains(x) {
                    if s.contains(x) {
                        let j = choose|j: int| 0 <= j < s.len() && s[j] == x;
                    } else {
                        assert(untouched_or_marked(h0, h_res, x));
                        if x == tl {
                            assert(s.contains(tl));
                        }
                        assert(heap.obj(x) == h_res.obj(x) || x == tl);
                    }
                }
            }
        }
    }
}


/// Whether `n` sits on one of the listed shards.
pub open spec fn on_some_shard(ls: Seq<DiscoveredList>, n: u64) -> bool {
    exists|j: int| 0 <= j < ls.len() && (#[trigger] ls[j]).nodes@.contains(n)
}

/// Being untouched up to live marks is transitive.
pub proof fn lemma_untouched_trans(h0: Heap, h1: Heap, h2: Heap, a: u64)
    requires
        untouched_or_marked(h0, h1, a),
        untouched_or_marked(h1, h2, a),
    ensures
        untouched_or_marked(h0, h2, a),
{
    if h1.obj(a) == h0.obj(a) {
    } else {
        assert(h1.obj(a) == (RefObject { live: true, ..h0.obj(a) }));
        if h2.obj(a) == h1.obj(a) {
        } else {
            assert(h2.obj(a) == (RefObject { live: true, ..h1.obj(a) }));
        }
    }
}

/// The per-kind drain pass's invariant after the first `i` shards were
/// scheduled and drained: untouched shards and objects agree with the
/// pre-pass heap `h0`, drained shards are empty (or hold their survivors,
/// for Final kind), and `delta` is exactly what the pass pushed onto the
/// pending queue so far.
#[verifier::opaque]
pub open spec fn pl_inv(
    h0: Heap,
    h: Heap,
    lists: DiscoveredLists,
    l0: DiscoveredLists,
    l0s: Seq<DiscoveredList>,
    i: int,
    rt: RefKind,
    clear: bool,
    delta: Seq<u64>,
) -> bool {
    &&& h.wf()
    &&& h.pending_wf()
    &&& lists.wf(h)
    &&& clear == (rt != RefKind::Final)
    &&& l0s == l0.shards(rt)
    &&& 0 <= i <= l0s.len()
    &&& h.moved == h0.moved
    &&& h.emergency == h0.emergency
    &&& forall|a: u64| h.has_obj(a) == h0.has_obj(a)
    &&& lists.allow_discover == l0.allow_discover
    &&& lists.soft@.len() == l0.soft@.len()
    &&& forall|rt2: RefKind| rt2 != rt ==> lists.shards(rt2) == l0.shards(rt2)
    &&& lists.shards(rt).len() == l0s.len()
    &&& forall|j: int|
        0 <= j < l0s.len() ==> (#[trigger] l0s[j]).wf(h0) && referents_ok(h0, l0s[j].nodes@)
            && l0s[j].rt == rt
    &&& forall|j1: int, j2: int, x: u64|
        0 <= j1 < l0s.len() && 0 <= j2 < l0s.len() && j1 != j2 && (#[trigger] l0s[j1].nodes@.contains(
            x,
        )) ==> !(#[trigger] l0s[j2].nodes@.contains(x))
    &&& forall|j: int, x: u64|
        0 <= j < l0s.len() && (#[trigger] l0s[j].nodes@.contains(x)) ==> !h0.pending@.contains(x)
    &&& forall|j: int| i <= j < l0s.len() ==> (#[trigger] lists.shards(rt)[j]) == l0s[j]
    &&& (clear ==> forall|j: int|
        0 <= j < i ==> (#[trigger] lists.shards(rt)[j]).head is None && lists.shards(
            rt,
        )[j].nodes@.len() == 0)
    &&& (rt == RefKind::Final ==> forall|j: int|
        0 <= j < i ==> ({
            let k = survivors(h0, l0s[j].nodes@, rt);
            (#[trigger] lists.shards(rt)[j]).nodes@ == k && lists.shards(rt)[j].head == (if k.len()
                == 0 {
                Option::<u64>::None
            } else {
                Some(k[0])
            })
        }))
    &&& h.pending@ == delta + h0.pending@
    &&& delta.no_duplicates()
    &&& (rt == RefKind::Final ==> delta.len() == 0)
    &&& forall|x: u64| #[trigger]
        delta.contains(x) <==> (rt != RefKind::Final && (exists|j: int|
            0 <= j < i && (#[trigger] l0s[j]).nodes@.contains(x)) && !drain_removes(h0, x, rt))
    &&& forall|j: int, m: int|
        0 <= j < i && 0 <= m < l0s[j].nodes@.len() ==> visited_node_ok(
            h0,
            h,
            #[trigger] l0s[j].nodes@[m],
            rt,
        )
    &&& forall|j: int, m: int|
        i <= j < l0s.len() && 0 <= m < l0s[j].nodes@.len() ==> h.obj(#[trigger] l0s[j].nodes@[m])
            == h0.obj(l0s[j].nodes@[m])
    &&& forall|a: u64| h0.has_obj(a) && !on_some_shard(l0s, a) ==> untouched_or_marked(h0, h, a)
    &&& forall|x: u64| h0.is_live_spec(x) ==> (#[trigger] h.is_live_spec(x))
    &&& (!(rt == RefKind::Soft && h0.emergency) ==> forall|x: u64|
        (#[trigger] h.is_live_spec(x)) == h0.is_live_spec(x))
}

/// The pass's invariant holds before any shard was drained.
#[verifier::rlimit(60)]
proof fn lemma_pl_init(h0: Heap, l0: DiscoveredLists, rt: RefKind, clear: bool)
    requires
        h0.wf(),
        h0.pending_wf(),
        l0.wf(h0),
        clear == (rt != RefKind::Final),
    ensures
        pl_inv(h0, h0, l0, l0, l0.shards(rt), 0, rt, clear, Seq::empty()),
{
    reveal(pl_inv);
    reveal(DiscoveredLists::wf);
    let l0s = l0.shards(rt);
    assert(Seq::<u64>::empty() + h0.pending@ =~= h0.pending@);
    assert forall|j: int|
        0 <= j < l0s.len() implies (#[trigger] l0s[j]).wf(h0) && referents_ok(h0, l0s[j].nodes@)
        && l0s[j].rt == rt by {}
    assert forall|j: int, x: u64|
        0 <= j < l0s.len() && (#[trigger] l0s[j].nodes@.contains(x)) implies !h0.pending@.contains(
        x,
    ) by {}
    assert forall|x: u64| #[trigger]
        Seq::<u64>::empty().contains(x) <==> (rt != RefKind::Final && (exists|j: int|
            0 <= j < 0 && (#[trigger] l0s[j]).nodes@.contains(x)) && !drain_removes(h0, x, rt)) by {
        assert(!Seq::<u64>::empty().contains(x));
    }
}

/// Unpack the pass's invariant into the facts one drain step needs.
proof fn lemma_pl_unpack(
    h0: Heap,
    h: Heap,
    lists: DiscoveredLists,
    l0: DiscoveredLists,
    l0s: Seq<DiscoveredList>,
    i: int,
    rt: RefKind,
    clear: bool,
    delta: Seq<u64>,
)
    requires
        pl_inv(h0, h, lists, l0, l0s, i, rt, clear, delta),
        0 <= i < l0s.len(),
    ensures
        h.wf(),
        h.pending_wf(),
        lists.wf(h),
        lists.shards(rt).len() == l0s.len(),
        lists.shards(rt)[i] == l0s[i],
        chain_wf(h, l0s[i].head, l0s[i].nodes@),
        referents_ok(h, l0s[i].nodes@),
        forall|m: int| 0 <= m < l0s[i].nodes@.len() ==> h.obj(#[trigger] l0s[i].nodes@[m]).kind
            == rt,
        forall|x: u64| l0s[i].nodes@.contains(x) ==> !h.pending@.contains(x),
        rt == RefKind::Final ==> i < lists.finals@.len(),
        lists.soft@.len() == l0.soft@.len(),
        lists.kinds_ok(),
        lists.soft@.len() == lists.shards(rt).len(),
{
    reveal(pl_inv);
    reveal(DiscoveredLists::wf);
    let l = l0s[i];
    assert(lists.shards(rt)[i] == l);
    assert(l.wf(h));
    assert(referents_ok(h, l.nodes@));
    assert forall|m: int| 0 <= m < l.nodes@.len() implies h.obj(#[trigger] l.nodes@[m]).kind
        == rt by {}
    assert forall|x: u64| l.nodes@.contains(x) implies !h.pending@.contains(x) by {
        let m = choose|m: int| 0 <= m < l.nodes@.len() && l.nodes@[m] == x;
    }
    if rt == RefKind::Final {
        assert(lists.shards(rt).len() == lists.finals@.len());
    }
}



/// An empty shard advances the pass without touching the heap; for clearing
/// kinds the shard slot was rewritten with an empty list.
#[verifier::rlimit(60)]
#[verifier::spinoff_prover]
proof fn lemma_pl_step_empty(
    h0: Heap,
    h: Heap,
    lists_pre: DiscoveredLists,
    lists: DiscoveredLists,
    l0: DiscoveredLists,
    l0s: Seq<DiscoveredList>,
    i: int,
    rt: RefKind,
    clear: bool,
    delta: Seq<u64>,
)
    requires
        pl_inv(h0, h, lists_pre, l0, l0s, i, rt, clear, delta),
        0 <= i < l0s.len(),
        l0s[i].head is None,
        (if clear {
            lists.shards(rt) == lists_pre.shards(rt).update(
                i,
                DiscoveredList { head: None, nodes: Ghost(Seq::empty()), rt },
            ) && (forall|rt2: RefKind| rt2 != rt ==> lists.shards(rt2) == lists_pre.shards(rt2))
                && lists.allow_discover == lists_pre.allow_discover && lists.soft@.len()
                == lists_pre.soft@.len() && lists.weak@.len() == lists_pre.weak@.len()
                && lists.finals@.len() == lists_pre.finals@.len() && lists.phantom@.len()
                == lists_pre.phantom@.len()
        } else {
            lists == lists_pre
        }),
    ensures
        pl_inv(h0, h, lists, l0, l0s, i + 1, rt, clear, delta),
{
    reveal(pl_inv);
    reveal(DiscoveredLists::wf);
    assert(l0s[i].wf(h0));
    assert(l0s[i].nodes@.len() == 0);
    let k = survivors(h0, l0s[i].nodes@, rt);
    assert(k.len() == 0);
    if clear {
        assert(lists.kinds_ok()) by {
            assert forall|rt2: RefKind, i2: int|
                0 <= i2 < lists.shards(rt2).len() implies (#[trigger] lists.shards(rt2)[i2]).rt
                == rt2 by {
                if !(rt2 == rt && i2 == i) {
                    assert(lists.shards(rt2)[i2] == lists_pre.shards(rt2)[i2]);
                }
            }
        }
        assert(lists.wf(h)) by {
            assert forall|rt2: RefKind, i2: int|
                0 <= i2 < lists.shards(rt2).len() implies (#[trigger] lists.shards(rt2)[i2]).wf(h)
                && referents_ok(h, lists.shards(rt2)[i2].nodes@) by {
                if rt2 == rt && i2 == i {
                } else {
                    assert(lists.shards(rt2)[i2] == lists_pre.shards(rt2)[i2]);
                }
            }
            assert forall|rt1: RefKind, i1: int, rt2: RefKind, i2: int, x: u64|
                0 <= i1 < lists.shards(rt1).len() && 0 <= i2 < lists.shards(rt2).len() && (rt1
                    != rt2 || i1 != i2) && (#[trigger] lists.shards(rt1)[i1].nodes@.contains(x))
                implies !(#[trigger] lists.shards(rt2)[i2].nodes@.contains(x)) by {
                assert(lists_pre.shards(rt1)[i1].nodes@.contains(x));
                if !(rt2 == rt && i2 == i) {
                    assert(lists.shards(rt2)[i2] == lists_pre.shards(rt2)[i2]);
                }
            }
            assert forall|rt2: RefKind, i2: int, x: u64|
                0 <= i2 < lists.shards(rt2).len() && (#[trigger] lists.shards(
                    rt2,
                )[i2].nodes@.contains(x)) implies !h.pending@.contains(x) by {
                assert(lists_pre.shards(rt2)[i2].nodes@.contains(x));
            }
        }
    }
    assert(l0s[i].nodes@ =~= k);
    if rt == RefKind::Final {
        assert(lists.shards(rt)[i] == l0s[i]);
        assert(lists.shards(rt)[i].nodes@ == k);
        assert(lists.shards(rt)[i].head is None);
    }
    assert forall|j: int| i + 1 <= j < l0s.len() implies (#[trigger] lists.shards(rt)[j])
        == l0s[j] by {
        if clear {
            assert(lists.shards(rt)[j] == lists_pre.shards(rt)[j]);
        }
    }
    assert forall|x: u64| #[trigger]
        delta.contains(x) <==> (rt != RefKind::Final && (exists|j: int|
            0 <= j < i + 1 && (#[trigger] l0s[j]).nodes@.contains(x)) && !drain_removes(
            h0,
            x,
            rt,
        )) by {
        if (exists|j: int| 0 <= j < i + 1 && (#[trigger] l0s[j]).nodes@.contains(x)) {
            let j = choose|j: int| 0 <= j < i + 1 && (#[trigger] l0s[j]).nodes@.contains(x);
            if j == i {
                assert(l0s[i].nodes@.len() == 0);
                assert(false);
            }
            assert(j < i);
        }
    }
}

/// Draining shard `i` advances the pass: the drain task's guarantees,
/// decided against the heap it ran on, transfer to the pre-pass heap `h0`
/// because the shard's nodes were still in their pre-pass state.
#[verifier::rlimit(100)]
#[verifier::spinoff_prover]
proof fn lemma_pl_step_work(
    h0: Heap,
    h_i: Heap,
    h: Heap,
    lists_pre: DiscoveredLists,
    lists_mid: DiscoveredLists,
    lists: DiscoveredLists,
    l0: DiscoveredLists,
    l0s: Seq<DiscoveredList>,
    i: int,
    rt: RefKind,
    clear: bool,
    delta: Seq<u64>,
)
    requires
        pl_inv(h0, h_i, lists_pre, l0, l0s, i, rt, clear, delta),
        0 <= i < l0s.len(),
        l0s[i].head is Some,
        // the shard slot as the drain task saw it
        (if clear {
            lists_mid.shards(rt) == lists_pre.shards(rt).update(
                i,
                DiscoveredList { head: None, nodes: Ghost(Seq::empty()), rt },
            ) && (forall|rt2: RefKind| rt2 != rt ==> lists_mid.shards(rt2) == lists_pre.shards(
                rt2,
            )) && lists_mid.allow_discover == lists_pre.allow_discover && lists_mid.soft@.len()
                == lists_pre.soft@.len() && lists_mid.weak@.len() == lists_pre.weak@.len()
                && lists_mid.finals@.len() == lists_pre.finals@.len() && lists_mid.phantom@.len()
                == lists_pre.phantom@.len()
        } else {
            lists_mid == lists_pre
        }),
        // the drain task's guarantees, between `h_i`/`lists_mid` and `h`/`lists`
        h.wf(),
        h.pending_wf(),
        h.moved == h_i.moved,
        h.emergency == h_i.emergency,
        forall|a: u64| h.has_obj(a) == h_i.has_obj(a),
        forall|m: int|
            0 <= m < l0s[i].nodes@.len() ==> visited_node_ok(
                h_i,
                h,
                #[trigger] l0s[i].nodes@[m],
                rt,
            ),
        forall|a: u64|
            h_i.has_obj(a) && !l0s[i].nodes@.contains(a) ==> untouched_or_marked(h_i, h, a),
        forall|x: u64| h_i.is_live_spec(x) ==> (#[trigger] h.is_live_spec(x)),
        !(rt == RefKind::Soft && h_i.emergency) ==> forall|x: u64|
            (#[trigger] h.is_live_spec(x)) == h_i.is_live_spec(x),
        rt != RefKind::Final ==> (lists == lists_mid && h.pending@ == survivors(
            h_i,
            l0s[i].nodes@,
            rt,
        ) + h_i.pending@),
        rt == RefKind::Final ==> ({
            let k = survivors(h_i, l0s[i].nodes@, RefKind::Final);
            let shard = DiscoveredList {
                head: (if k.len() == 0 {
                    Option::<u64>::None
                } else {
                    Some(k[0])
                }),
                nodes: Ghost(k),
                rt: RefKind::Final,
            };
            &&& h.pending@ == h_i.pending@
            &&& h.pending_head == h_i.pending_head
            &&& lists.soft == lists_mid.soft
            &&& lists.weak == lists_mid.weak
            &&& lists.phantom == lists_mid.phantom
            &&& lists.allow_discover == lists_mid.allow_discover
            &&& lists.finals@ == lists_mid.finals@.update(i, shard)
            &&& shard.wf(h)
            &&& referents_ok(h, k)
        }),
    ensures
        pl_inv(
            h0,
            h,
            lists,
            l0,
            l0s,
            i + 1,
            rt,
            clear,
            (if rt == RefKind::Final {
                delta
            } else {
                survivors(h0, l0s[i].nodes@, rt) + delta
            }),
        ),
{
    let ghost delta2: Seq<u64> = if rt == RefKind::Final {
        delta
    } else {
        survivors(h0, l0s[i].nodes@, rt) + delta
    };
    lemma_pl_agree(h0, h_i, lists_pre, l0, l0s, i, rt, clear, delta);
    lemma_pl_visited(h0, h_i, h, lists_pre, l0, l0s, i, rt, clear, delta);
    lemma_pl_delta(h0, h_i, h, l0s, i, rt, delta, delta2);
    lemma_pl_wf_after(h0, h_i, h, lists_pre, lists_mid, lists, l0, l0s, i, rt, clear, delta);
    lemma_pl_shards_step(h0, h_i, h, lists_pre, lists_mid, lists, l0, l0s, i, rt, clear, delta);
    lemma_pl_pack(h0, h, lists, l0, l0s, i + 1, rt, clear, delta2);
}

/// After one shard's drain task ran, every shard chain is still well formed
/// and the shard node sets stay pairwise disjoint and clear of the pending
/// queue.
#[verifier::rlimit(100)]
#[verifier::spinoff_prover]
proof fn lemma_pl_wf_after(
    h0: Heap,
    h_i: Heap,
    h: Heap,
    lists_pre: DiscoveredLists,
    lists_mid: DiscoveredLists,
    lists: DiscoveredLists,
    l0: DiscoveredLists,
    l0s: Seq<DiscoveredList>,
    i: int,
    rt: RefKind,
    clear: bool,
    delta: Seq<u64>,
)
    requires
        pl_inv(h0, h_i, lists_pre, l0, l0s, i, rt, clear, delta),
        0 <= i < l0s.len(),
        l0s[i].head is Some,
        (if clear {
            lists_mid.shards(rt) == lists_pre.shards(rt).update(
                i,
                DiscoveredList { head: None, nodes: Ghost(Seq::empty()), rt },
            ) && (forall|rt2: RefKind| rt2 != rt ==> lists_mid.shards(rt2) == lists_pre.shards(
                rt2,
            )) && lists_mid.allow_discover == lists_pre.allow_discover && lists_mid.soft@.len()
                == lists_pre.soft@.len() && lists_mid.weak@.len() == lists_pre.weak@.len()
                && lists_mid.finals@.len() == lists_pre.finals@.len() && lists_mid.phantom@.len()
                == lists_pre.phantom@.len()
        } else {
            lists_mid == lists_pre
        }),
        h.wf(),
        h.pending_wf(),
        h.moved == h_i.moved,
        h.emergency == h_i.emergency,
        forall|a: u64| h.has_obj(a) == h_i.has_obj(a),
        forall|a: u64|
            h_i.has_obj(a) && !l0s[i].nodes@.contains(a) ==> untouched_or_marked(h_i, h, a),
        rt != RefKind::Final ==> (lists == lists_mid && h.pending@ == survivors(
            h_i,
            l0s[i].nodes@,
            rt,
        ) + h_i.pending@),
        rt == RefKind::Final ==> ({
            let k = survivors(h_i, l0s[i].nodes@, RefKind::Final);
            let shard = DiscoveredList {
                head: (if k.len() == 0 {
                    Option::<u64>::None
                } else {
                    Some(k[0])
                }),
                nodes: Ghost(k),
                rt: RefKind::Final,
            };
            &&& h.pending@ == h_i.pending@
            &&& lists.soft == lists_mid.soft
            &&& lists.weak == lists_mid.weak
            &&& lists.phantom == lists_mid.phantom
            &&& lists.allow_discover == lists_mid.allow_discover
            &&& lists.finals@ == lists_mid.finals@.update(i, shard)
            &&& shard.wf(h)
            &&& referents_ok(h, k)
        }),
        survivors(h_i, l0s[i].nodes@, rt) == survivors(h0, l0s[i].nodes@, rt),
    ensures
        lists.wf(h),
        lists.shards(rt) == lists_pre.shards(rt).update(
            i,
            (if rt == RefKind::Final {
                let k = survivors(h0, l0s[i].nodes@, rt);
                DiscoveredList {
                    head: (if k.len() == 0 {
                        Option::<u64>::None
                    } else {
                        Some(k[0])
                    }),
                    nodes: Ghost(k),
                    rt: RefKind::Final,
                }
            } else {
                DiscoveredList { head: None, nodes: Ghost(Seq::empty()), rt }
            }),
        ),
        forall|rt2: RefKind| rt2 != rt ==> lists.shards(rt2) == l0.shards(rt2),
        lists.allow_discover == l0.allow_discover,
        lists.soft@.len() == l0.soft@.len(),
{
    reveal(pl_inv);
    reveal(DiscoveredLists::wf);
    let s = l0s[i].nodes@;
    let k = survivors(h0, s, rt);
    assert forall|rt2: RefKind| rt2 != rt implies lists.shards(rt2) == l0.shards(rt2) by {
        if rt == RefKind::Final {
            assert(lists.shards(rt2) == lists_mid.shards(rt2));
        }
        assert(lists_pre.shards(rt2) == l0.shards(rt2));
    }
    assert(l0s[i].wf(h0));
    lemma_take_no_duplicates(s, s.len() as int);
    assert(s.take(s.len() as int) =~= s);
    lemma_drain_partition(h0, s, rt);
    lemma_survivors_subset(h0, s, rt);
    assert forall|m: int| 0 <= m < k.len() implies s.contains(#[trigger] k[m]) by {
        assert(k.contains(k[m]));
    }
    let shard_i: DiscoveredList = if rt == RefKind::Final {
        DiscoveredList {
            head: (if k.len() == 0 {
                Option::<u64>::None
            } else {
                Some(k[0])
            }),
            nodes: Ghost(k),
            rt: RefKind::Final,
        }
    } else {
        DiscoveredList { head: None, nodes: Ghost(Seq::empty()), rt }
    };
    assert(lists.shards(rt) =~= lists_pre.shards(rt).update(i, shard_i)) by {
        if rt == RefKind::Final {
            assert(lists.finals@ =~= lists_pre.finals@.update(i, shard_i));
        }
    }
    assert forall|rt2: RefKind| rt2 != rt implies lists.shards(rt2) == lists_pre.shards(rt2) by {
        if rt == RefKind::Final {
            assert(lists.shards(rt2) == lists_mid.shards(rt2));
        }
    }
    assert(lists.kinds_ok()) by {
        assert forall|rt2: RefKind, i2: int|
            0 <= i2 < lists.shards(rt2).len() implies (#[trigger] lists.shards(rt2)[i2]).rt
            == rt2 by {
            if !(rt2 == rt && i2 == i) {
                assert(lists.shards(rt2)[i2] == lists_pre.shards(rt2)[i2]);
            }
        }
    }
    assert forall|rt2: RefKind, i2: int|
        0 <= i2 < lists.shards(rt2).len() implies (#[trigger] lists.shards(rt2)[i2]).wf(h)
        && referents_ok(h, lists.shards(rt2)[i2].nodes@) by {
        if rt2 == rt && i2 == i {
            assert(lists.shards(rt2)[i2] == shard_i);
            if rt == RefKind::Final {
                assert(shard_i.wf(h));
            }
        } else {
            let l2 = lists.shards(rt2)[i2];
            assert(l2 == lists_pre.shards(rt2)[i2]);
            assert(l2.wf(h_i));
            assert(referents_ok(h_i, l2.nodes@));
            assert forall|x: u64| l2.nodes@.contains(x) implies untouched_or_marked(h_i, h, x)
                && h_i.has_obj(x) by {
                assert(!lists_pre.shards(rt)[i].nodes@.contains(x));
                assert(!s.contains(x));
                let m2 = choose|m2: int| 0 <= m2 < l2.nodes@.len() && l2.nodes@[m2] == x;
                assert(node_ok(h_i, x));
            }
            lemma_chain_frame(h_i, h, l2.head, l2.nodes@);
            assert forall|m2: int| 0 <= m2 < l2.nodes@.len() implies h.obj(
                #[trigger] l2.nodes@[m2],
            ).kind == rt2 by {
                assert(l2.nodes@.contains(l2.nodes@[m2]));
                assert(untouched_or_marked(h_i, h, l2.nodes@[m2]));
            }
            assert forall|m2: int|
                0 <= m2 < l2.nodes@.len() implies (match h.obj(#[trigger] l2.nodes@[m2]).referent {
                    None => true,
                    Some(r) => h.has_obj(h.resolve_spec(r)),
                }) by {
                assert(l2.nodes@.contains(l2.nodes@[m2]));
                assert(untouched_or_marked(h_i, h, l2.nodes@[m2]));
            }
        }
    }
    assert forall|rt1: RefKind, i1: int, rt2: RefKind, i2: int, x: u64|
        0 <= i1 < lists.shards(rt1).len() && 0 <= i2 < lists.shards(rt2).len() && (rt1 != rt2 || i1
            != i2) && (#[trigger] lists.shards(rt1)[i1].nodes@.contains(x)) implies !(
    #[trigger] lists.shards(rt2)[i2].nodes@.contains(x)) by {
        if rt1 == rt && i1 == i {
            assert(k.contains(x));
            assert(s.contains(x));
            assert(lists_pre.shards(rt)[i].nodes@.contains(x));
            if !(rt2 == rt && i2 == i) {
                assert(lists.shards(rt2)[i2] == lists_pre.shards(rt2)[i2]);
                assert(!lists_pre.shards(rt2)[i2].nodes@.contains(x));
            }
        } else {
            assert(lists_pre.shards(rt1)[i1].nodes@.contains(x));
            if rt2 == rt && i2 == i {
                if lists.shards(rt2)[i2].nodes@.contains(x) {
                    assert(k.contains(x));
                    assert(s.contains(x));
                    assert(lists_pre.shards(rt)[i].nodes@.contains(x));
                }
            } else {
                assert(!lists_pre.shards(rt2)[i2].nodes@.contains(x));
            }
        }
    }
    assert forall|rt2: RefKind, i2: int, x: u64|
        0 <= i2 < lists.shards(rt2).len() && (#[trigger] lists.shards(rt2)[i2].nodes@.contains(x))
        implies !h.pending@.contains(x) by {
        if rt2 == rt && i2 == i {
            assert(k.contains(x));
            assert(rt == RefKind::Final);
            assert(s.contains(x));
            assert(lists_pre.shards(rt)[i].nodes@.contains(x));
            assert(!h_i.pending@.contains(x));
        } else {
            assert(lists_pre.shards(rt2)[i2].nodes@.contains(x));
            assert(!h_i.pending@.contains(x));
            if rt != RefKind::Final {
                let ks = survivors(h_i, s, rt);
                if h.pending@.contains(x) {
                    let a = choose|a: int| 0 <= a < h.pending@.len() && h.pending@[a] == x;
                    if a < ks.len() {
                        assert(ks[a] == x);
                        assert(ks.contains(x));
                        assert(k.contains(x));
                        assert(s.contains(x));
                        assert(lists_pre.shards(rt)[i].nodes@.contains(x));
                    } else {
                        assert(h_i.pending@[a - ks.len()] == x);
                        assert(h_i.pending@.contains(x));
                    }
                }
            }
        }
    }
}

/// Transfer of the drain task's per-node guarantees to the pre-pass heap.
#[verifier::rlimit(100)]
#[verifier::spinoff_prover]
proof fn lemma_pl_visited(
    h0: Heap,
    h_i: Heap,
    h: Heap,
    lists_pre: DiscoveredLists,
    l0: DiscoveredLists,
    l0s: Seq<DiscoveredList>,
    i: int,
    rt: RefKind,
    clear: bool,
    delta: Seq<u64>,
)
    requires
        pl_inv(h0, h_i, lists_pre, l0, l0s, i, rt, clear, delta),
        0 <= i < l0s.len(),
        h.moved == h_i.moved,
        h.emergency == h_i.emergency,
        forall|a: u64| h.has_obj(a) == h_i.has_obj(a),
        forall|m: int|
            0 <= m < l0s[i].nodes@.len() ==> visited_node_ok(
                h_i,
                h,
                #[trigger] l0s[i].nodes@[m],
                rt,
            ),
        forall|a: u64|
            h_i.has_obj(a) && !l0s[i].nodes@.contains(a) ==> untouched_or_marked(h_i, h, a),
        forall|x: u64| h_i.is_live_spec(x) ==> (#[trigger] h.is_live_spec(x)),
        !(rt == RefKind::Soft && h_i.emergency) ==> forall|x: u64|
            (#[trigger] h.is_live_spec(x)) == h_i.is_live_spec(x),
        forall|x: u64|
            l0s[i].nodes@.contains(x) ==> drain_removes(h0, x, rt) == drain_removes(h_i, x, rt)
                && referent_after(h0, x, rt) == referent_after(h_i, x, rt),
        survivors(h_i, l0s[i].nodes@, rt) == survivors(h0, l0s[i].nodes@, rt),
    ensures
        forall|a: u64| h.has_obj(a) == h0.has_obj(a),
        h.moved == h0.moved,
        h.emergency == h0.emergency,
        forall|j: int, m: int|
            0 <= j < i + 1 && 0 <= m < l0s[j].nodes@.len() ==> visited_node_ok(
                h0,
                h,
                #[trigger] l0s[j].nodes@[m],
                rt,
            ),
        forall|j: int, m: int|
            i + 1 <= j < l0s.len() && 0 <= m < l0s[j].nodes@.len() ==> h.obj(
                #[trigger] l0s[j].nodes@[m],
            ) == h0.obj(l0s[j].nodes@[m]),
        forall|a: u64| h0.has_obj(a) && !on_some_shard(l0s, a) ==> untouched_or_marked(h0, h, a),
        forall|x: u64| h0.is_live_spec(x) ==> (#[trigger] h.is_live_spec(x)),
        !(rt == RefKind::Soft && h0.emergency) ==> forall|x: u64|
            (#[trigger] h.is_live_spec(x)) == h0.is_live_spec(x),
{
    reveal(pl_inv);
    reveal(DiscoveredLists::wf);
    let s = l0s[i].nodes@;
    assert forall|a: u64| h.has_obj(a) == h0.has_obj(a) by {
        assert(h_i.has_obj(a) == h0.has_obj(a));
    }
    assert forall|a: u64| h_i.has_obj(a) && !s.contains(a) implies untouched_or_marked(
        h_i,
        h,
        a,
    ) by {}
    // Visited nodes of this shard, decided against `h0`.
    assert forall|j: int, m: int|
        0 <= j < i + 1 && 0 <= m < l0s[j].nodes@.len() implies visited_node_ok(
        h0,
        h,
        #[trigger] l0s[j].nodes@[m],
        rt,
    ) by {
        let x = l0s[j].nodes@[m];
        if j == i {
            assert(visited_node_ok(h_i, h, x, rt));
            assert(s.contains(x));
            assert(h_i.obj(x) == h0.obj(x));
        } else {
            assert(visited_node_ok(h0, h_i, x, rt));
            assert(l0s[j].nodes@.contains(x));
            assert(!s.contains(x));
            assert(h_i.has_obj(x)) by {
                assert(node_ok(h0, x)) by {
                    assert(chain_wf(h0, l0s[j].head, l0s[j].nodes@));
                }
            }
            assert(untouched_or_marked(h_i, h, x));
            assert(h_i.obj(x).live);
            assert(h.obj(x) == h_i.obj(x));
        }
    }
    // Untouched shards keep their pre-pass records.
    assert forall|j: int, m: int|
        i + 1 <= j < l0s.len() && 0 <= m < l0s[j].nodes@.len() implies h.obj(
        #[trigger] l0s[j].nodes@[m],
    ) == h0.obj(l0s[j].nodes@[m]) by {
        let x = l0s[j].nodes@[m];
        assert(h_i.obj(x) == h0.obj(x));
        assert(l0s[j].nodes@.contains(x));
        assert(!s.contains(x));
        assert(node_ok(h0, x)) by {
            assert(chain_wf(h0, l0s[j].head, l0s[j].nodes@));
        }
        assert(untouched_or_marked(h_i, h, x));
        assert(h_i.obj(x).live);
    }
    assert forall|a: u64| h0.has_obj(a) && !on_some_shard(l0s, a) implies untouched_or_marked(
        h0,
        h,
        a,
    ) by {
        assert(untouched_or_marked(h0, h_i, a));
        assert(!l0s[i].nodes@.contains(a));
        assert(untouched_or_marked(h_i, h, a));
        lemma_untouched_trans(h0, h_i, h, a);
    }
    if !(rt == RefKind::Soft && h0.emergency) {
        assert forall|x: u64| (#[trigger] h.is_live_spec(x)) == h0.is_live_spec(x) by {
            assert(h_i.is_live_spec(x) == h0.is_live_spec(x));
        }
    }
}

/// The pending entries after one more shard's drain task: that shard's
/// survivors in front of what was pushed before.
#[verifier::rlimit(100)]
#[verifier::spinoff_prover]
proof fn lemma_pl_delta(
    h0: Heap,
    h_i: Heap,
    h: Heap,
    l0s: Seq<DiscoveredList>,
    i: int,
    rt: RefKind,
    delta: Seq<u64>,
    delta2: Seq<u64>,
)
    requires
        delta2 == (if rt == RefKind::Final {
            delta
        } else {
            survivors(h0, l0s[i].nodes@, rt) + delta
        }),
        0 <= i < l0s.len(),
        l0s[i].nodes@.no_duplicates(),
        delta.no_duplicates(),
        forall|x: u64| #[trigger]
            delta.contains(x) <==> (rt != RefKind::Final && (exists|j: int|
                0 <= j < i && (#[trigger] l0s[j]).nodes@.contains(x)) && !drain_removes(
                h0,
                x,
                rt,
            )),
        forall|j1: int, j2: int, x: u64|
            0 <= j1 < l0s.len() && 0 <= j2 < l0s.len() && j1 != j2 && (#[trigger] l0s[j1].nodes@.contains(
                x,
            )) ==> !(#[trigger] l0s[j2].nodes@.contains(x)),
        h_i.pending@ == delta + h0.pending@,
        rt == RefKind::Final ==> delta.len() == 0,
        survivors(h_i, l0s[i].nodes@, rt) == survivors(h0, l0s[i].nodes@, rt),
        rt != RefKind::Final ==> h.pending@ == survivors(h_i, l0s[i].nodes@, rt) + h_i.pending@,
        rt == RefKind::Final ==> h.pending@ == h_i.pending@,
    ensures
        h.pending@ == delta2 + h0.pending@,
        delta2.no_duplicates(),
        rt == RefKind::Final ==> delta2.len() == 0,
        forall|x: u64| #[trigger]
            delta2.contains(x) <==> (rt != RefKind::Final && (exists|j: int|
                0 <= j < i + 1 && (#[trigger] l0s[j]).nodes@.contains(x)) && !drain_removes(
                h0,
                x,
                rt,
            )),
{
    let s = l0s[i].nodes@;
    lemma_drain_partition(h0, s, rt);
    lemma_survivors_subset(h0, s, rt);
    let k = survivors(h0, s, rt);
    assert forall|m: int| 0 <= m < k.len() implies s.contains(#[trigger] k[m]) by {
        assert(k.contains(k[m]));
    }
    assert(delta2 == (if rt == RefKind::Final {
        delta
    } else {
        k + delta
    }));
    if rt != RefKind::Final {
        assert(h.pending@ == k + h_i.pending@);
        assert(k + (delta + h0.pending@) =~= (k + delta) + h0.pending@);
        assert(delta2.no_duplicates()) by {
            assert forall|a: int, b: int| 0 <= a < b < delta2.len() implies delta2[a]
                != delta2[b] by {
                if a < k.len() && b >= k.len() {
                    assert(delta2[a] == k[a] && delta2[b] == delta[b - k.len()]);
                    assert(k.contains(k[a]));
                    assert(s.contains(k[a]));
                    assert(delta.contains(delta[b - k.len()]));
                    let j2 = choose|j2: int|
                        0 <= j2 < i && (#[trigger] l0s[j2]).nodes@.contains(delta[b - k.len()]);
                    if delta2[a] == delta2[b] {
                        assert(l0s[j2].nodes@.contains(k[a]));
                        assert(!s.contains(k[a]));
                    }
                } else if a >= k.len() {
                    assert(delta2[a] == delta[a - k.len()] && delta2[b] == delta[b - k.len()]);
                }
            }
        }
    }
    assert forall|x: u64| #[trigger]
        delta2.contains(x) <==> (rt != RefKind::Final && (exists|j: int|
            0 <= j < i + 1 && (#[trigger] l0s[j]).nodes@.contains(x)) && !drain_removes(
            h0,
            x,
            rt,
        )) by {
        if rt != RefKind::Final && delta2.contains(x) {
            let a = choose|a: int| 0 <= a < delta2.len() && delta2[a] == x;
            if a < k.len() {
                assert(k.contains(x));
                assert(s.contains(x) && !drain_removes(h0, x, rt));
                assert(l0s[i].nodes@.contains(x));
            } else {
                assert(delta[a - k.len()] == x);
                assert(delta.contains(x));
                let j2 = choose|j2: int| 0 <= j2 < i && (#[trigger] l0s[j2]).nodes@.contains(x);
                assert(0 <= j2 < i + 1 && l0s[j2].nodes@.contains(x));
            }
        }
        if rt != RefKind::Final && (exists|j: int|
            0 <= j < i + 1 && (#[trigger] l0s[j]).nodes@.contains(x)) && !drain_removes(
            h0,
            x,
            rt,
        ) {
            let j2 = choose|j2: int| 0 <= j2 < i + 1 && (#[trigger] l0s[j2]).nodes@.contains(x);
            if j2 == i {
                assert(k.contains(x));
                let m = choose|m: int| 0 <= m < k.len() && k[m] == x;
                assert(delta2[m] == x);
            } else {
                assert(delta.contains(x));
                let m = choose|m: int| 0 <= m < delta.len() && delta[m] == x;
                assert(delta2[k.len() + m] == x);
            }
        }
    }
}

/// Every clause of the pass's invariant, unpacked.
proof fn lemma_pl_open_full(
    h0: Heap,
    h: Heap,
    lists: DiscoveredLists,
    l0: DiscoveredLists,
    l0s: Seq<DiscoveredList>,
    i: int,
    rt: RefKind,
    clear: bool,
    delta: Seq<u64>,
)
    requires
        pl_inv(h0, h, lists, l0, l0s, i, rt, clear, delta),
    ensures
        h.wf(),
        h.pending_wf(),
        lists.wf(h),
        clear == (rt != RefKind::Final),
        l0s == l0.shards(rt),
        0 <= i <= l0s.len(),
        h.moved == h0.moved,
        h.emergency == h0.emergency,
        forall|a: u64| h.has_obj(a) == h0.has_obj(a),
        lists.allow_discover == l0.allow_discover,
        lists.soft@.len() == l0.soft@.len(),
        forall|rt2: RefKind| rt2 != rt ==> lists.shards(rt2) == l0.shards(rt2),
        lists.shards(rt).len() == l0s.len(),
        forall|j: int|
            0 <= j < l0s.len() ==> (#[trigger] l0s[j]).wf(h0) && referents_ok(h0, l0s[j].nodes@)
                && l0s[j].rt == rt,
        forall|j1: int, j2: int, x: u64|
            0 <= j1 < l0s.len() && 0 <= j2 < l0s.len() && j1 != j2 && (#[trigger] l0s[j1].nodes@.contains(
                x,
            )) ==> !(#[trigger] l0s[j2].nodes@.contains(x)),
        forall|j: int, x: u64|
            0 <= j < l0s.len() && (#[trigger] l0s[j].nodes@.contains(x)) ==> !h0.pending@.contains(
                x,
            ),
        forall|j: int| i <= j < l0s.len() ==> (#[trigger] lists.shards(rt)[j]) == l0s[j],
        clear ==> forall|j: int|
            0 <= j < i ==> (#[trigger] lists.shards(rt)[j]).head is None && lists.shards(
                rt,
            )[j].nodes@.len() == 0,
        rt == RefKind::Final ==> forall|j: int|
            0 <= j < i ==> ({
                let k = survivors(h0, l0s[j].nodes@, rt);
                (#[trigger] lists.shards(rt)[j]).nodes@ == k && lists.shards(rt)[j].head == (
                if k.len() == 0 {
                    Option::<u64>::None
                } else {
                    Some(k[0])
                })
            }),
        h.pending@ == delta + h0.pending@,
        delta.no_duplicates(),
        rt == RefKind::Final ==> delta.len() == 0,
        forall|x: u64| #[trigger]
            delta.contains(x) <==> (rt != RefKind::Final && (exists|j: int|
                0 <= j < i && (#[trigger] l0s[j]).nodes@.contains(x)) && !drain_removes(
                h0,
                x,
                rt,
            )),
        forall|j: int, m: int|
            0 <= j < i && 0 <= m < l0s[j].nodes@.len() ==> visited_node_ok(
                h0,
                h,
                #[trigger] l0s[j].nodes@[m],
                rt,
            ),
        forall|j: int, m: int|
            i <= j < l0s.len() && 0 <= m < l0s[j].nodes@.len() ==> h.obj(
                #[trigger] l0s[j].nodes@[m],
            ) == h0.obj(l0s[j].nodes@[m]),
        forall|a: u64| h0.has_obj(a) && !on_some_shard(l0s, a) ==> untouched_or_marked(h0, h, a),
        forall|x: u64| h0.is_live_spec(x) ==> (#[trigger] h.is_live_spec(x)),
        !(rt == RefKind::Soft && h0.emergency) ==> forall|x: u64|
            (#[trigger] h.is_live_spec(x)) == h0.is_live_spec(x),
{
    reveal(pl_inv);
    reveal(DiscoveredLists::wf);
}

/// The pass's invariant, packed from its clauses.
proof fn lemma_pl_pack(
    h0: Heap,
    h: Heap,
    lists: DiscoveredLists,
    l0: DiscoveredLists,
    l0s: Seq<DiscoveredList>,
    i: int,
    rt: RefKind,
    clear: bool,
    delta: Seq<u64>,
)
    requires
        h.wf(),
        h.pending_wf(),
        lists.wf(h),
        clear == (rt != RefKind::Final),
        l0s == l0.shards(rt),
        0 <= i <= l0s.len(),
        h.moved == h0.moved,
        h.emergency == h0.emergency,
        forall|a: u64| h.has_obj(a) == h0.has_obj(a),
        lists.allow_discover == l0.allow_discover,
        lists.soft@.len() == l0.soft@.len(),
        forall|rt2: RefKind| rt2 != rt ==> lists.shards(rt2) == l0.shards(rt2),
        lists.shards(rt).len() == l0s.len(),
        forall|j: int|
            0 <= j < l0s.len() ==> (#[trigger] l0s[j]).wf(h0) && referents_ok(h0, l0s[j].nodes@)
                && l0s[j].rt == rt,
        forall|j1: int, j2: int, x: u64|
            0 <= j1 < l0s.len() && 0 <= j2 < l0s.len() && j1 != j2 && (#[trigger] l0s[j1].nodes@.contains(
                x,
            )) ==> !(#[trigger] l0s[j2].nodes@.contains(x)),
        forall|j: int, x: u64|
            0 <= j < l0s.len() && (#[trigger] l0s[j].nodes@.contains(x)) ==> !h0.pending@.contains(
                x,
            ),
        forall|j: int| i <= j < l0s.len() ==> (#[trigger] lists.shards(rt)[j]) == l0s[j],
        clear ==> forall|j: int|
            0 <= j < i ==> (#[trigger] lists.shards(rt)[j]).head is None && lists.shards(
                rt,
            )[j].nodes@.len() == 0,
        rt == RefKind::Final ==> forall|j: int|
            0 <= j < i ==> ({
                let k = survivors(h0, l0s[j].nodes@, rt);
                (#[trigger] lists.shards(rt)[j]).nodes@ == k && lists.shards(rt)[j].head == (
                if k.len() == 0 {
                    Option::<u64>::None
                } else {
                    Some(k[0])
                })
            }),
        h.pending@ == delta + h0.pending@,
        delta.no_duplicates(),
        rt == RefKind::Final ==> delta.len() == 0,
        forall|x: u64| #[trigger]
            delta.contains(x) <==> (rt != RefKind::Final && (exists|j: int|
                0 <= j < i && (#[trigger] l0s[j]).nodes@.contains(x)) && !drain_removes(
                h0,
                x,
                rt,
            )),
        forall|j: int, m: int|
            0 <= j < i && 0 <= m < l0s[j].nodes@.len() ==> visited_node_ok(
                h0,
                h,
                #[trigger] l0s[j].nodes@[m],
                rt,
            ),
        forall|j: int, m: int|
            i <= j < l0s.len() && 0 <= m < l0s[j].nodes@.len() ==> h.obj(
                #[trigger] l0s[j].nodes@[m],
            ) == h0.obj(l0s[j].nodes@[m]),
        forall|a: u64| h0.has_obj(a) && !on_some_shard(l0s, a) ==> untouched_or_marked(h0, h, a),
        forall|x: u64| h0.is_live_spec(x) ==> (#[trigger] h.is_live_spec(x)),
        !(rt == RefKind::Soft && h0.emergency) ==> forall|x: u64|
            (#[trigger] h.is_live_spec(x)) == h0.is_live_spec(x),
    ensures
        pl_inv(h0, h, lists, l0, l0s, i, rt, clear, delta),
{
    reveal(pl_inv);
    reveal(DiscoveredLists::wf);
}

/// Facts the drain step draws straight from the pass's invariant: static
/// shard facts, the pending bookkeeping so far, and agreement of the drain
/// decisions between the pre-pass heap and the heap the task ran on.
#[verifier::rlimit(60)]
#[verifier::spinoff_prover]
proof fn lemma_pl_agree(
    h0: Heap,
    h_i: Heap,
    lists_pre: DiscoveredLists,
    l0: DiscoveredLists,
    l0s: Seq<DiscoveredList>,
    i: int,
    rt: RefKind,
    clear: bool,
    delta: Seq<u64>,
)
    requires
        pl_inv(h0, h_i, lists_pre, l0, l0s, i, rt, clear, delta),
        0 <= i < l0s.len(),
    ensures
        clear == (rt != RefKind::Final),
        l0s == l0.shards(rt),
        h_i.moved == h0.moved,
        h_i.emergency == h0.emergency,
        lists_pre.allow_discover == l0.allow_discover,
        lists_pre.soft@.len() == l0.soft@.len(),
        lists_pre.shards(rt).len() == l0s.len(),
        forall|rt2: RefKind| rt2 != rt ==> lists_pre.shards(rt2) == l0.shards(rt2),
        forall|j: int|
            0 <= j < l0s.len() ==> (#[trigger] l0s[j]).wf(h0) && referents_ok(h0, l0s[j].nodes@)
                && l0s[j].rt == rt,
        forall|j1: int, j2: int, x: u64|
            0 <= j1 < l0s.len() && 0 <= j2 < l0s.len() && j1 != j2 && (#[trigger] l0s[j1].nodes@.contains(
                x,
            )) ==> !(#[trigger] l0s[j2].nodes@.contains(x)),
        forall|j: int, x: u64|
            0 <= j < l0s.len() && (#[trigger] l0s[j].nodes@.contains(x)) ==> !h0.pending@.contains(
                x,
            ),
        h_i.pending@ == delta + h0.pending@,
        delta.no_duplicates(),
        rt == RefKind::Final ==> delta.len() == 0,
        forall|x: u64| #[trigger]
            delta.contains(x) <==> (rt != RefKind::Final && (exists|j: int|
                0 <= j < i && (#[trigger] l0s[j]).nodes@.contains(x)) && !drain_removes(
                h0,
                x,
                rt,
            )),
        l0s[i].nodes@.no_duplicates(),
        chain_wf(h0, l0s[i].head, l0s[i].nodes@),
        forall|x: u64|
            l0s[i].nodes@.contains(x) ==> drain_removes(h0, x, rt) == drain_removes(h_i, x, rt)
                && referent_after(h0, x, rt) == referent_after(h_i, x, rt),
        survivors(h_i, l0s[i].nodes@, rt) == survivors(h0, l0s[i].nodes@, rt),
{
    reveal(pl_inv);
    reveal(DiscoveredLists::wf);
    let s = l0s[i].nodes@;
    assert(l0s[i].wf(h0));
    assert forall|x: u64| s.contains(x) implies drain_removes(h0, x, rt) == drain_removes(
        h_i,
        x,
        rt,
    ) && referent_after(h0, x, rt) == referent_after(h_i, x, rt) by {
        let m = choose|m: int| 0 <= m < s.len() && s[m] == x;
        assert(h_i.obj(s[m]) == h0.obj(s[m]));
        lemma_decision_agree(h0, h_i, x, rt);
    }
    lemma_survivors_agree(h0, h_i, s, rt);
}

/// The shard-table shape after one more drain step.
#[verifier::rlimit(60)]
#[verifier::spinoff_prover]
proof fn lemma_pl_shards_step(
    h0: Heap,
    h_i: Heap,
    h: Heap,
    lists_pre: DiscoveredLists,
    lists_mid: DiscoveredLists,
    lists: DiscoveredLists,
    l0: DiscoveredLists,
    l0s: Seq<DiscoveredList>,
    i: int,
    rt: RefKind,
    clear: bool,
    delta: Seq<u64>,
)
    requires
        pl_inv(h0, h_i, lists_pre, l0, l0s, i, rt, clear, delta),
        0 <= i < l0s.len(),
        survivors(h_i, l0s[i].nodes@, rt) == survivors(h0, l0s[i].nodes@, rt),
        lists.shards(rt) == lists_pre.shards(rt).update(
            i,
            (if rt == RefKind::Final {
                let k = survivors(h0, l0s[i].nodes@, rt);
                DiscoveredList {
                    head: (if k.len() == 0 {
                        Option::<u64>::None
                    } else {
                        Some(k[0])
                    }),
                    nodes: Ghost(k),
                    rt: RefKind::Final,
                }
            } else {
                DiscoveredList { head: None, nodes: Ghost(Seq::empty()), rt }
            }),
        ),
    ensures
        lists.shards(rt).len() == l0s.len(),
        forall|j: int| i + 1 <= j < l0s.len() ==> (#[trigger] lists.shards(rt)[j]) == l0s[j],
        clear ==> forall|j: int|
            0 <= j < i + 1 ==> (#[trigger] lists.shards(rt)[j]).head is None && lists.shards(
                rt,
            )[j].nodes@.len() == 0,
        rt == RefKind::Final ==> forall|j: int|
            0 <= j < i + 1 ==> ({
                let k = survivors(h0, l0s[j].nodes@, rt);
                (#[trigger] lists.shards(rt)[j]).nodes@ == k && lists.shards(rt)[j].head == (
                if k.len() == 0 {
                    Option::<u64>::None
                } else {
                    Some(k[0])
                })
            }),
{
    reveal(pl_inv);
    reveal(DiscoveredLists::wf);
    assert forall|j: int| i + 1 <= j < l0s.len() implies (#[trigger] lists.shards(rt)[j])
        == l0s[j] by {
        assert(lists.shards(rt)[j] == lists_pre.shards(rt)[j]);
    }
    if clear {
        assert forall|j: int|
            0 <= j < i + 1 implies (#[trigger] lists.shards(rt)[j]).head is None && lists.shards(
            rt,
        )[j].nodes@.len() == 0 by {
            if j < i {
                assert(lists.shards(rt)[j] == lists_pre.shards(rt)[j]);
            }
        }
    }
    if rt == RefKind::Final {
        assert forall|j: int|
            0 <= j < i + 1 implies ({
                let k = survivors(h0, l0s[j].nodes@, rt);
                (#[trigger] lists.shards(rt)[j]).nodes@ == k && lists.shards(rt)[j].head == (
                if k.len() == 0 {
                    Option::<u64>::None
                } else {
                    Some(k[0])
                })
            }) by {
            if j < i {
                assert(lists.shards(rt)[j] == lists_pre.shards(rt)[j]);
            }
        }
    }
}

impl DiscoveredLists {
    /// Replace the shard of kind `rt` at index `i`.
    fn set_shard(&mut self, rt: RefKind, i: usize, l: DiscoveredList)
        requires
            i < old(self).shards(rt).len(),
        ensures
            final(self).shards(rt) == old(self).shards(rt).update(i as int, l),
            forall|rt2: RefKind| rt2 != rt ==> final(self).shards(rt2) == old(self).shards(rt2),
            final(self).allow_discover == old(self).allow_discover,
            final(self).soft@.len() == old(self).soft@.len(),
            final(self).weak@.len() == old(self).weak@.len(),
            final(self).finals@.len() == old(self).finals@.len(),
            final(self).phantom@.len() == old(self).phantom@.len(),
    {
        match rt {
            RefKind::Soft => self.soft[i] = l,
            RefKind::Weak => self.weak[i] = l,
            RefKind::Phantom => self.phantom[i] = l,
            RefKind::Final => self.finals[i] = l,
        }
        proof {
            assert forall|rt2: RefKind| rt2 != rt implies final(self).shards(rt2) == old(
                self,
            ).shards(rt2) by {}
        }
    }

    /// Drain every shard of one reference kind, one scheduled task per
    /// non-empty shard, in shard order.  For kinds that clear, each shard's
    /// head is taken and reset before its drain task runs; Final shards keep
    /// their head and receive their survivors back.  Returns the entries the
    /// pass pushed onto the host pending queue, newest first.
    #[verifier::rlimit(100)]
    #[verifier::spinoff_prover]
    pub fn process_lists(&mut self, heap: &mut Heap, rt: RefKind, clear: bool) -> (delta: Ghost<
        Seq<u64>,
    >)
        requires
            old(heap).wf(),
            old(heap).pending_wf(),
            old(self).wf(*old(heap)),
            clear == (rt != RefKind::Final),
        ensures
            pl_inv(
                *old(heap),
                *final(heap),
                *final(self),
                *old(self),
                old(self).shards(rt),
                old(self).shards(rt).len() as int,
                rt,
                clear,
                delta@,
            ),
    {
        let ghost h0 = *old(heap);
        let ghost l0 = *old(self);
        let ghost l0s = old(self).shards(rt);
        let n = match rt {
            RefKind::Soft => self.soft.len(),
            RefKind::Weak => self.weak.len(),
            RefKind::Phantom => self.phantom.len(),
            RefKind::Final => self.finals.len(),
        };
        let mut i: usize = 0;
        let ghost mut delta_acc: Seq<u64> = Seq::empty();
        proof {
            lemma_pl_init(h0, l0, rt, clear);
        }
        while i < n
            invariant
                h0 == *old(heap),
                l0 == *old(self),
                l0s == old(self).shards(rt),
                clear == (rt != RefKind::Final),
                n == l0s.len(),
                0 <= i <= n,
                pl_inv(h0, *heap, *self, l0, l0s, i as int, rt, clear, delta_acc),
            decreases n - i,
        {
            let ghost h_i = *heap;
            let ghost self_pre = *self;
            proof {
                lemma_pl_unpack(h0, *heap, *self, l0, l0s, i as int, rt, clear, delta_acc);
            }
            let l = *self.get_by_rt_and_index(rt, i);
            proof {
                assert(l == l0s[i as int]);
            }
            if clear {
                self.set_shard(rt, i, DiscoveredList { head: None, nodes: Ghost(Seq::empty()), rt });
            }
            let ghost self_mid = *self;
            match l.head {
                None => {
                    proof {
                        assert(l.nodes@.len() == 0);
                        lemma_pl_step_empty(
                            h0,
                            *heap,
                            self_pre,
                            *self,
                            l0,
                            l0s,
                            i as int,
                            rt,
                            clear,
                            delta_acc,
                        );
                    }
                },
                Some(hd) => {
                    let packet = ProcessDiscoveredList {
                        list_index: i,
                        head: hd,
                        nodes: Ghost(l.nodes@),
                        rt,
                    };
                    packet.do_work(heap, self);
                    proof {
                        lemma_pl_step_work(
                            h0,
                            h_i,
                            *heap,
                            self_pre,
                            self_mid,
                            *self,
                            l0,
                            l0s,
                            i as int,
                            rt,
                            clear,
                            delta_acc,
                        );
                        delta_acc = if rt == RefKind::Final {
                            delta_acc
                        } else {
                            survivors(h0, l0s[i as int].nodes@, rt) + delta_acc
                        };
                    }
                },
            }
            i = i + 1;
        }
        Ghost(delta_acc)
    }
}


impl DiscoveredLists {
    /// Phase-boundary trigger: disable discovery, then drain the Soft, Weak
    /// and Final lists in stage order.  Soft and Weak shards are taken and
    /// cleared, their survivors spliced into the host pending queue; Final
    /// shards keep their survivors under collector ownership for the
    /// resurrection pass.  The returned snapshots witness the heap, the
    /// lists and the pushed pending entries after the Soft and after the
    /// Weak stage, and each stage's outcome is pinned by the drain pass
    /// invariant relative to its own start state.
    pub fn process_soft_weak_final_refs(&mut self, heap: &mut Heap) -> (r: Ghost<
        (Heap, Heap, DiscoveredLists, DiscoveredLists, Seq<u64>, Seq<u64>),
    >)
        requires
            old(heap).wf(),
            old(heap).pending_wf(),
            old(self).wf(*old(heap)),
        ensures
            !final(self).allow_discover,
            pl_inv(
                *old(heap),
                r@.0,
                r@.2,
                (DiscoveredLists { allow_discover: false, ..*old(self) }),
                old(self).soft@,
                old(self).soft@.len() as int,
                RefKind::Soft,
                true,
                r@.4,
            ),
            pl_inv(
                r@.0,
                r@.1,
                r@.3,
                r@.2,
                r@.2.weak@,
                r@.2.weak@.len() as int,
                RefKind::Weak,
                true,
                r@.5,
            ),
            pl_inv(
                r@.1,
                *final(heap),
                *final(self),
                r@.3,
                r@.3.finals@,
                r@.3.finals@.len() as int,
                RefKind::Final,
                false,
                Seq::<u64>::empty(),
            ),
    {
        self.allow_discover = false;
        proof {
            lemma_wf_ignores_flag(*old(self), *self, *heap);
        }
        let Ghost(d_soft) = self.process_lists(heap, RefKind::Soft, true);
        let ghost h1 = *heap;
        let ghost l1 = *self;
        proof {
            lemma_pl_open_full(
                *old(heap),
                h1,
                l1,
                (DiscoveredLists { allow_discover: false, ..*old(self) }),
                old(self).soft@,
                old(self).soft@.len() as int,
                RefKind::Soft,
                true,
                d_soft,
            );
        }
        let Ghost(d_weak) = self.process_lists(heap, RefKind::Weak, true);
        let ghost h2 = *heap;
        let ghost l2 = *self;
        proof {
            lemma_pl_open_full(
                h1,
                h2,
                l2,
                l1,
                l1.weak@,
                l1.weak@.len() as int,
                RefKind::Weak,
                true,
                d_weak,
            );
        }
        let Ghost(d_final) = self.process_lists(heap, RefKind::Final, false);
        proof {
            lemma_pl_open_full(
                h2,
                *heap,
                *self,
                l2,
                l2.finals@,
                l2.finals@.len() as int,
                RefKind::Final,
                false,
                d_final,
            );
            assert(d_final.len() == 0);
            assert(d_final =~= Seq::<u64>::empty());
            lemma_pl_pack(
                h2,
                *heap,
                *self,
                l2,
                l2.finals@,
                l2.finals@.len() as int,
                RefKind::Final,
                false,
                Seq::<u64>::empty(),
            );
        }
        Ghost((h1, h2, l1, l2, d_soft, d_weak))
    }

    /// Phase-boundary trigger for the Phantom lists: one drain pass, shards
    /// taken and cleared, survivors spliced into the host pending queue.
    pub fn process_phantom_refs(&mut self, heap: &mut Heap) -> (delta: Ghost<Seq<u64>>)
        requires
            old(heap).wf(),
            old(heap).pending_wf(),
            old(self).wf(*old(heap)),
        ensures
            pl_inv(
                *old(heap),
                *final(heap),
                *final(self),
                *old(self),
                old(self).phantom@,
                old(self).phantom@.len() as int,
                RefKind::Phantom,
                true,
                delta@,
            ),
    {
        self.process_lists(heap, RefKind::Phantom, true)
    }
}

/// Shard well-formedness does not depend on the discovery flag.
proof fn lemma_wf_ignores_flag(l: DiscoveredLists, l2: DiscoveredLists, h: Heap)
    requires
        l.wf(h),
        l2.soft == l.soft,
        l2.weak == l.weak,
        l2.finals == l.finals,
        l2.phantom == l.phantom,
    ensures
        l2.wf(h),
{
    reveal(DiscoveredLists::wf);
    assert forall|rt3: RefKind| l2.shards(rt3) == l.shards(rt3) by {}
    assert forall|rt: RefKind, i: int|
        0 <= i < l2.shards(rt).len() implies (#[trigger] l2.shards(rt)[i]).rt == rt && l2.shards(
        rt,
    )[i].wf(h) && referents_ok(h, l2.shards(rt)[i].nodes@) by {
        assert(l2.shards(rt) == l.shards(rt));
    }
    assert forall|rt1: RefKind, i1: int, rt2: RefKind, i2: int, n: u64|
        0 <= i1 < l2.shards(rt1).len() && 0 <= i2 < l2.shards(rt2).len() && (rt1 != rt2 || i1 != i2)
            && (#[trigger] l2.shards(rt1)[i1].nodes@.contains(n)) implies !(#[trigger] l2.shards(
        rt2,
    )[i2].nodes@.contains(n)) by {
        assert(l2.shards(rt1) == l.shards(rt1));
        assert(l2.shards(rt2) == l.shards(rt2));
    }
    assert forall|rt: RefKind, i: int, n: u64|
        0 <= i < l2.shards(rt).len() && (#[trigger] l2.shards(rt)[i].nodes@.contains(n)) implies
        !h.pending@.contains(n) by {
        assert(l2.shards(rt) == l.shards(rt));
    }
}


impl DiscoveredLists {
    /// Resurrection pass: take every kept Final list, trace and forward each
    /// node's referent (raising it from the dead), and splice the whole list
    /// into the host pending queue; the shards are left empty.  Returns the
    /// enqueued entries, newest first.
    #[verifier::rlimit(100)]
    #[verifier::spinoff_prover]
    pub fn resurrect_final_refs(&mut self, heap: &mut Heap) -> (delta: Ghost<Seq<u64>>)
        requires
            old(heap).wf(),
            old(heap).pending_wf(),
            old(self).wf(*old(heap)),
            forall|j: int, m: int|
                0 <= j < old(self).finals@.len() && 0 <= m < old(self).finals@[j].nodes@.len()
                    ==> old(heap).obj(#[trigger] old(self).finals@[j].nodes@[m]).referent is Some,
        ensures
            final(heap).wf(),
            final(heap).pending_wf(),
            final(self).wf(*final(heap)),
            final(self).soft == old(self).soft,
            final(self).weak == old(self).weak,
            final(self).phantom == old(self).phantom,
            final(self).allow_discover == old(self).allow_discover,
            final(self).finals@.len() == old(self).finals@.len(),
            forall|j: int|
                0 <= j < final(self).finals@.len() ==> (#[trigger] final(self).finals@[j]).head
                    is None && final(self).finals@[j].nodes@.len() == 0,
            final(heap).moved == old(heap).moved,
            final(heap).emergency == old(heap).emergency,
            forall|a: u64| final(heap).has_obj(a) == old(heap).has_obj(a),
            final(heap).pending@ == delta@ + old(heap).pending@,
            delta@.no_duplicates(),
            forall|n: u64| #[trigger]
                delta@.contains(n) <==> (exists|j: int|
                    0 <= j < old(self).finals@.len() && (#[trigger] old(
                        self,
                    ).finals@[j]).nodes@.contains(n)),
            forall|j: int, m: int|
                0 <= j < old(self).finals@.len() && 0 <= m < old(self).finals@[j].nodes@.len()
                    ==> ({
                    let n = old(self).finals@[j].nodes@[m];
                    let r = old(heap).obj(#[trigger] old(self).finals@[j].nodes@[m]).referent->0;
                    &&& final(heap).obj(n).referent == Some(old(heap).resolve_spec(r))
                    &&& final(heap).is_live_spec(old(heap).resolve_spec(r))
                    &&& final(heap).obj(n).kind == old(heap).obj(n).kind
                    &&& final(heap).obj(n).live
                }),
            forall|x: u64| old(heap).is_live_spec(x) ==> (#[trigger] final(heap).is_live_spec(x)),
    {
        let ghost h0 = *old(heap);
        let ghost l0s = old(self).finals@;
        proof {
            reveal(DiscoveredLists::wf);
            assert(old(self).shards(RefKind::Final) == l0s);
            assert forall|j: int|
                0 <= j < l0s.len() implies (#[trigger] l0s[j]).wf(h0) && referents_ok(
                h0,
                l0s[j].nodes@,
            ) by {
                assert(old(self).shards(RefKind::Final)[j].wf(h0));
                assert(referents_ok(h0, old(self).shards(RefKind::Final)[j].nodes@));
            }
            assert forall|j1: int, j2: int, x: u64|
                0 <= j1 < l0s.len() && 0 <= j2 < l0s.len() && j1 != j2 && (
            #[trigger] l0s[j1].nodes@.contains(x)) implies !(#[trigger] l0s[j2].nodes@.contains(
                x,
            )) by {
                assert(old(self).shards(RefKind::Final)[j1].nodes@.contains(x));
            }
            assert forall|j: int, x: u64|
                0 <= j < l0s.len() && (#[trigger] l0s[j].nodes@.contains(x)) implies
                !h0.pending@.contains(x) by {
                assert(old(self).shards(RefKind::Final)[j].nodes@.contains(x));
            }
        }
        let n = self.finals.len();
        let mut i: usize = 0;
        let ghost mut delta_acc: Seq<u64> = Seq::empty();
        proof {
            assert(delta_acc + h0.pending@ =~= h0.pending@);
        }
        while i < n
            invariant
                heap.wf(),
                heap.pending_wf(),
                self.wf(*heap),
                h0 == *old(heap),
                l0s == old(self).finals@,
                n == l0s.len(),
                0 <= i <= n,
                self.soft == old(self).soft,
                self.weak == old(self).weak,
                self.phantom == old(self).phantom,
                self.allow_discover == old(self).allow_discover,
                self.finals@.len() == n,
                forall|j: int|
                    0 <= j < i ==> (#[trigger] self.finals@[j]).head is None
                        && self.finals@[j].nodes@.len() == 0,
                forall|j: int| i <= j < n ==> (#[trigger] self.finals@[j]) == l0s[j],
                forall|j: int|
                    0 <= j < n ==> (#[trigger] l0s[j]).wf(h0) && referents_ok(h0, l0s[j].nodes@),
                forall|j1: int, j2: int, x: u64|
                    0 <= j1 < n && 0 <= j2 < n && j1 != j2 && (#[trigger] l0s[j1].nodes@.contains(
                        x,
                    )) ==> !(#[trigger] l0s[j2].nodes@.contains(x)),
                forall|j: int, x: u64|
                    0 <= j < n && (#[trigger] l0s[j].nodes@.contains(x)) ==> !h0.pending@.contains(
                        x,
                    ),
                heap.moved == h0.moved,
                heap.emergency == h0.emergency,
                forall|a: u64| heap.has_obj(a) == h0.has_obj(a),
                heap.pending@ == delta_acc + h0.pending@,
                delta_acc.no_duplicates(),
                forall|x: u64| #[trigger]
                    delta_acc.contains(x) <==> (exists|j: int|
                        0 <= j < i && (#[trigger] l0s[j]).nodes@.contains(x)),
                forall|j: int, m: int|
                    i <= j < n && 0 <= m < l0s[j].nodes@.len() ==> heap.obj(
                        #[trigger] l0s[j].nodes@[m],
                    ) == h0.obj(l0s[j].nodes@[m]),
                forall|j: int, m: int|
                    0 <= j < i && 0 <= m < l0s[j].nodes@.len() ==> ({
                        let nd = l0s[j].nodes@[m];
                        let r = h0.obj(#[trigger] l0s[j].nodes@[m]).referent->0;
                        &&& heap.obj(nd).referent == Some(h0.resolve_spec(r))
                        &&& heap.is_live_spec(h0.resolve_spec(r))
                        &&& heap.obj(nd).kind == h0.obj(nd).kind
                        &&& heap.obj(nd).live
                    }),
                forall|j: int, m: int|
                    0 <= j < i && 0 <= m < l0s[j].nodes@.len() ==> old(heap).obj(
                        #[trigger] l0s[j].nodes@[m],
                    ).referent is Some,
                forall|j: int, m: int|
                    0 <= j < n && 0 <= m < l0s[j].nodes@.len() ==> h0.obj(
                        #[trigger] l0s[j].nodes@[m],
                    ).referent is Some,
                forall|x: u64| h0.is_live_spec(x) ==> (#[trigger] heap.is_live_spec(x)),
            decreases n - i,
        {
            let ghost h_i = *heap;
            let ghost self_pre = *self;
            proof {
                reveal(DiscoveredLists::wf);
                assert(self.shards(RefKind::Final) == self.finals@);
                assert(self.shards(RefKind::Final)[i as int].wf(*heap));
            }
            let l = self.finals[i];
            self.finals[i] = DiscoveredList {
                head: None,
                nodes: Ghost(Seq::empty()),
                rt: RefKind::Final,
            };
            proof {
                assert(l == l0s[i as int]);
            }
            match l.head {
                None => {
                    proof {
                        assert(l.nodes@.len() == 0);
                        lemma_rf_lists_wf(*heap, self_pre, *self, i as int);
                        lemma_rf_membership_step(l0s, i as int, delta_acc, delta_acc);
                    }
                },
                Some(hd) => {
                    let ghost s = l.nodes@;
                    let packet = ResurrectFinalizables { list_index: i, head: hd, nodes: Ghost(s) };
                    proof {
                        assert(chain_wf(h_i, Some(hd), s)) by {
                            assert(l.wf(h_i));
                        }
                        assert(referents_ok(h_i, s)) by {
                            assert forall|m: int|
                                0 <= m < s.len() implies (match h_i.obj(#[trigger] s[m]).referent {
                                None => true,
                                Some(r) => h_i.has_obj(h_i.resolve_spec(r)),
                            }) by {
                                assert(h_i.obj(s[m]) == h0.obj(s[m]));
                                assert(referents_ok(h0, s));
                            }
                        }
                        assert forall|m: int| 0 <= m < s.len() implies h_i.obj(
                            #[trigger] s[m],
                        ).referent is Some by {
                            assert(h_i.obj(s[m]) == h0.obj(s[m]));
                        }
                        assert forall|x: u64| s.contains(x) implies !h_i.pending@.contains(x) by {
                            let m = choose|m: int| 0 <= m < s.len() && s[m] == x;
                            assert(!h0.pending@.contains(x));
                            if h_i.pending@.contains(x) {
                                let a = choose|a: int|
                                    0 <= a < h_i.pending@.len() && h_i.pending@[a] == x;
                                if a < delta_acc.len() {
                                    assert(delta_acc.contains(x));
                                    let j2 = choose|j2: int|
                                        0 <= j2 < i && (#[trigger] l0s[j2]).nodes@.contains(x);
                                } else {
                                    assert(h0.pending@[a - delta_acc.len()] == x);
                                    assert(h0.pending@.contains(x));
                                }
                            }
                        }
                    }
                    packet.do_work(heap);
                    proof {
                        lemma_rf_after_work(h0, h_i, *heap, l0s, i as int, delta_acc);
                        lemma_rf_membership_step(l0s, i as int, delta_acc, s + delta_acc);
                        delta_acc = s + delta_acc;
                        lemma_rf_heap_wf(h_i, *heap, self_pre, *self, i as int);
                    }
                },
            }
            i = i + 1;
        }
        proof {
            assert forall|n2: u64| #[trigger]
                delta_acc.contains(n2) <==> (exists|j: int|
                    0 <= j < l0s.len() && (#[trigger] l0s[j]).nodes@.contains(n2)) by {}
        }
        Ghost(delta_acc)
    }

    /// Hook between the drain stages: nothing reconsiders soft references
    /// there under the current policy.
    pub fn reconsider_soft_refs(&self, _heap: &Heap) {
    }
}

/// Clearing one Final shard keeps the shard table well formed.
proof fn lemma_rf_lists_wf(h: Heap, lists_pre: DiscoveredLists, lists: DiscoveredLists, i: int)
    requires
        lists_pre.wf(h),
        0 <= i < lists_pre.finals@.len(),
        lists.finals@ == lists_pre.finals@.update(
            i,
            DiscoveredList { head: None, nodes: Ghost(Seq::empty()), rt: RefKind::Final },
        ),
        lists.soft == lists_pre.soft,
        lists.weak == lists_pre.weak,
        lists.phantom == lists_pre.phantom,
    ensures
        lists.wf(h),
{
    reveal(DiscoveredLists::wf);
    assert forall|rt2: RefKind, i2: int|
        0 <= i2 < lists.shards(rt2).len() implies (#[trigger] lists.shards(rt2)[i2]).rt == rt2
        && lists.shards(rt2)[i2].wf(h) && referents_ok(h, lists.shards(rt2)[i2].nodes@) by {
        if !(rt2 == RefKind::Final && i2 == i) {
            assert(lists.shards(rt2)[i2] == lists_pre.shards(rt2)[i2]);
        }
    }
    assert forall|rt1: RefKind, i1: int, rt2: RefKind, i2: int, x: u64|
        0 <= i1 < lists.shards(rt1).len() && 0 <= i2 < lists.shards(rt2).len() && (rt1 != rt2 || i1
            != i2) && (#[trigger] lists.shards(rt1)[i1].nodes@.contains(x)) implies !(
    #[trigger] lists.shards(rt2)[i2].nodes@.contains(x)) by {
        assert(!(rt1 == RefKind::Final && i1 == i));
        assert(lists_pre.shards(rt1)[i1].nodes@.contains(x));
        if !(rt2 == RefKind::Final && i2 == i) {
            assert(lists.shards(rt2)[i2] == lists_pre.shards(rt2)[i2]);
        }
    }
    assert forall|rt2: RefKind, i2: int, x: u64|
        0 <= i2 < lists.shards(rt2).len() && (#[trigger] lists.shards(rt2)[i2].nodes@.contains(x))
        implies !h.pending@.contains(x) by {
        assert(!(rt2 == RefKind::Final && i2 == i));
        assert(lists_pre.shards(rt2)[i2].nodes@.contains(x));
    }
}

/// After one Final shard's resurrection task ran, the shard table (with that
/// shard already cleared) is well formed in the new heap.
#[verifier::rlimit(60)]
#[verifier::spinoff_prover]
proof fn lemma_rf_heap_wf(
    h_i: Heap,
    h: Heap,
    lists_pre: DiscoveredLists,
    lists: DiscoveredLists,
    i: int,
)
    requires
        lists_pre.wf(h_i),
        0 <= i < lists_pre.finals@.len(),
        lists.finals@ == lists_pre.finals@.update(
            i,
            DiscoveredList { head: None, nodes: Ghost(Seq::empty()), rt: RefKind::Final },
        ),
        lists.soft == lists_pre.soft,
        lists.weak == lists_pre.weak,
        lists.phantom == lists_pre.phantom,
        h.moved == h_i.moved,
        forall|a: u64| h.has_obj(a) == h_i.has_obj(a),
        forall|a: u64|
            h_i.has_obj(a) && !lists_pre.finals@[i].nodes@.contains(a) ==> untouched_or_marked(
                h_i,
                h,
                a,
            ),
        h.pending@ == lists_pre.finals@[i].nodes@ + h_i.pending@,
    ensures
        lists.wf(h),
{
    reveal(DiscoveredLists::wf);
    let s = lists_pre.finals@[i].nodes@;
    assert forall|rt2: RefKind, i2: int|
        0 <= i2 < lists.shards(rt2).len() implies (#[trigger] lists.shards(rt2)[i2]).rt == rt2
        && lists.shards(rt2)[i2].wf(h) && referents_ok(h, lists.shards(rt2)[i2].nodes@) by {
        if !(rt2 == RefKind::Final && i2 == i) {
            let l2 = lists.shards(rt2)[i2];
            assert(l2 == lists_pre.shards(rt2)[i2]);
            assert(l2.wf(h_i));
            assert(referents_ok(h_i, l2.nodes@));
            assert forall|x: u64| l2.nodes@.contains(x) implies untouched_or_marked(h_i, h, x)
                && h_i.has_obj(x) by {
                assert(lists_pre.shards(RefKind::Final)[i] == lists_pre.finals@[i]);
                assert(!lists_pre.shards(RefKind::Final)[i].nodes@.contains(x));
                assert(!s.contains(x));
                let m2 = choose|m2: int| 0 <= m2 < l2.nodes@.len() && l2.nodes@[m2] == x;
                assert(node_ok(h_i, x));
            }
            lemma_chain_frame(h_i, h, l2.head, l2.nodes@);
            assert forall|m2: int| 0 <= m2 < l2.nodes@.len() implies h.obj(
                #[trigger] l2.nodes@[m2],
            ).kind == rt2 by {
                assert(l2.nodes@.contains(l2.nodes@[m2]));
                assert(untouched_or_marked(h_i, h, l2.nodes@[m2]));
            }
            assert forall|m2: int|
                0 <= m2 < l2.nodes@.len() implies (match h.obj(#[trigger] l2.nodes@[m2]).referent {
                    None => true,
                    Some(r) => h.has_obj(h.resolve_spec(r)),
                }) by {
                assert(l2.nodes@.contains(l2.nodes@[m2]));
                assert(untouched_or_marked(h_i, h, l2.nodes@[m2]));
            }
        }
    }
    assert forall|rt1: RefKind, i1: int, rt2: RefKind, i2: int, x: u64|
        0 <= i1 < lists.shards(rt1).len() && 0 <= i2 < lists.shards(rt2).len() && (rt1 != rt2 || i1
            != i2) && (#[trigger] lists.shards(rt1)[i1].nodes@.contains(x)) implies !(
    #[trigger] lists.shards(rt2)[i2].nodes@.contains(x)) by {
        assert(!(rt1 == RefKind::Final && i1 == i));
        assert(lists_pre.shards(rt1)[i1].nodes@.contains(x));
        if !(rt2 == RefKind::Final && i2 == i) {
            assert(lists.shards(rt2)[i2] == lists_pre.shards(rt2)[i2]);
        }
    }
    assert forall|rt2: RefKind, i2: int, x: u64|
        0 <= i2 < lists.shards(rt2).len() && (#[trigger] lists.shards(rt2)[i2].nodes@.contains(x))
        implies !h.pending@.contains(x) by {
        assert(!(rt2 == RefKind::Final && i2 == i));
        assert(lists_pre.shards(rt2)[i2].nodes@.contains(x));
        assert(!h_i.pending@.contains(x));
        if h.pending@.contains(x) {
            let a = choose|a: int| 0 <= a < h.pending@.len() && h.pending@[a] == x;
            if a < s.len() {
                assert(s[a] == x);
                assert(s.contains(x));
                assert(lists_pre.shards(RefKind::Final)[i].nodes@.contains(x));
            } else {
                assert(h_i.pending@[a - s.len()] == x);
                assert(h_i.pending@.contains(x));
            }
        }
    }
}

/// Membership of the enqueued entries after one more shard.
proof fn lemma_rf_membership_step(
    l0s: Seq<DiscoveredList>,
    i: int,
    delta: Seq<u64>,
    delta2: Seq<u64>,
)
    requires
        0 <= i < l0s.len(),
        forall|x: u64| #[trigger]
            delta.contains(x) <==> (exists|j: int|
                0 <= j < i && (#[trigger] l0s[j]).nodes@.contains(x)),
        delta2 == l0s[i].nodes@ + delta || (l0s[i].nodes@.len() == 0 && delta2 == delta),
    ensures
        forall|x: u64| #[trigger]
            delta2.contains(x) <==> (exists|j: int|
                0 <= j < i + 1 && (#[trigger] l0s[j]).nodes@.contains(x)),
{
    let s = l0s[i].nodes@;
    assert forall|x: u64| #[trigger]
        delta2.contains(x) <==> (exists|j: int|
            0 <= j < i + 1 && (#[trigger] l0s[j]).nodes@.contains(x)) by {
        if delta2.contains(x) {
            let a = choose|a: int| 0 <= a < delta2.len() && delta2[a] == x;
            if delta2 == s + delta {
                if a < s.len() {
                    assert(s[a] == x);
                    assert(l0s[i].nodes@.contains(x));
                } else {
                    assert(delta[a - s.len()] == x);
                    assert(delta.contains(x));
                    let j2 = choose|j2: int| 0 <= j2 < i && (#[trigger] l0s[j2]).nodes@.contains(x);
                }
            } else {
                assert(delta.contains(x));
                let j2 = choose|j2: int| 0 <= j2 < i && (#[trigger] l0s[j2]).nodes@.contains(x);
            }
        }
        if (exists|j: int| 0 <= j < i + 1 && (#[trigger] l0s[j]).nodes@.contains(x)) {
            let j2 = choose|j2: int| 0 <= j2 < i + 1 && (#[trigger] l0s[j2]).nodes@.contains(x);
            if j2 == i {
                assert(s.contains(x));
                let m = choose|m: int| 0 <= m < s.len() && s[m] == x;
                assert(delta2 == s + delta);
                assert(delta2[m] == x);
            } else {
                assert(delta.contains(x));
                let m = choose|m: int| 0 <= m < delta.len() && delta[m] == x;
                if delta2 == s + delta {
                    assert(delta2[s.len() + m] == x);
                }
            }
        }
    }
}

/// Transfer of a resurrection task's guarantees to the pass's start heap.
#[verifier::rlimit(100)]
#[verifier::spinoff_prover]
proof fn lemma_rf_after_work(
    h0: Heap,
    h_i: Heap,
    h: Heap,
    l0s: Seq<DiscoveredList>,
    i: int,
    delta: Seq<u64>,
)
    requires
        0 <= i < l0s.len(),
        forall|j: int| 0 <= j < l0s.len() ==> (#[trigger] l0s[j]).wf(h0),
        forall|j1: int, j2: int, x: u64|
            0 <= j1 < l0s.len() && 0 <= j2 < l0s.len() && j1 != j2 && (#[trigger] l0s[j1].nodes@.contains(
                x,
            )) ==> !(#[trigger] l0s[j2].nodes@.contains(x)),
        forall|j: int, x: u64|
            0 <= j < l0s.len() && (#[trigger] l0s[j].nodes@.contains(x)) ==> !h0.pending@.contains(
                x,
            ),
        h_i.moved == h0.moved,
        h_i.emergency == h0.emergency,
        forall|a: u64| h_i.has_obj(a) == h0.has_obj(a),
        h_i.pending@ == delta + h0.pending@,
        delta.no_duplicates(),
        forall|x: u64| #[trigger]
            delta.contains(x) <==> (exists|j: int|
                0 <= j < i && (#[trigger] l0s[j]).nodes@.contains(x)),
        forall|j: int, m: int|
            i <= j < l0s.len() && 0 <= m < l0s[j].nodes@.len() ==> h_i.obj(
                #[trigger] l0s[j].nodes@[m],
            ) == h0.obj(l0s[j].nodes@[m]),
        forall|j: int, m: int|
            0 <= j < i && 0 <= m < l0s[j].nodes@.len() ==> ({
                let nd = l0s[j].nodes@[m];
                let r = h0.obj(#[trigger] l0s[j].nodes@[m]).referent->0;
                &&& h_i.obj(nd).referent == Some(h0.resolve_spec(r))
                &&& h_i.is_live_spec(h0.resolve_spec(r))
                &&& h_i.obj(nd).kind == h0.obj(nd).kind
                &&& h_i.obj(nd).live
            }),
        forall|j: int, m: int|
            0 <= j < l0s.len() && 0 <= m < l0s[j].nodes@.len() ==> h0.obj(
                #[trigger] l0s[j].nodes@[m],
            ).referent is Some,
        forall|x: u64| h0.is_live_spec(x) ==> (#[trigger] h_i.is_live_spec(x)),
        // the resurrection task's guarantees on shard `i`
        h.moved == h_i.moved,
        h.emergency == h_i.emergency,
        forall|a: u64| h.has_obj(a) == h_i.has_obj(a),
        h.pending@ == l0s[i].nodes@ + h_i.pending@,
        forall|m: int|
            0 <= m < l0s[i].nodes@.len() ==> ({
                let r = h_i.obj(#[trigger] l0s[i].nodes@[m]).referent->0;
                &&& h.obj(l0s[i].nodes@[m]).referent == Some(h_i.resolve_spec(r))
                &&& h.is_live_spec(h_i.resolve_spec(r))
                &&& h.obj(l0s[i].nodes@[m]).kind == h_i.obj(l0s[i].nodes@[m]).kind
                &&& h.obj(l0s[i].nodes@[m]).live
            }),
        forall|a: u64|
            h_i.has_obj(a) && !l0s[i].nodes@.contains(a) ==> untouched_or_marked(h_i, h, a),
        forall|x: u64| h_i.is_live_spec(x) ==> (#[trigger] h.is_live_spec(x)),
    ensures
        h.moved == h0.moved,
        h.emergency == h0.emergency,
        forall|a: u64| h.has_obj(a) == h0.has_obj(a),
        h.pending@ == (l0s[i].nodes@ + delta) + h0.pending@,
        (l0s[i].nodes@ + delta).no_duplicates(),
        forall|j: int, m: int|
            i + 1 <= j < l0s.len() && 0 <= m < l0s[j].nodes@.len() ==> h.obj(
                #[trigger] l0s[j].nodes@[m],
            ) == h0.obj(l0s[j].nodes@[m]),
        forall|j: int, m: int|
            0 <= j < i + 1 && 0 <= m < l0s[j].nodes@.len() ==> ({
                let nd = l0s[j].nodes@[m];
                let r = h0.obj(#[trigger] l0s[j].nodes@[m]).referent->0;
                &&& h.obj(nd).referent == Some(h0.resolve_spec(r))
                &&& h.is_live_spec(h0.resolve_spec(r))
                &&& h.obj(nd).kind == h0.obj(nd).kind
                &&& h.obj(nd).live
            }),
        forall|x: u64| h0.is_live_spec(x) ==> (#[trigger] h.is_live_spec(x)),

{
    let s = l0s[i].nodes@;
    assert forall|a: u64| h.has_obj(a) == h0.has_obj(a) by {
        assert(h_i.has_obj(a) == h0.has_obj(a));
    }
    assert(s + (delta + h0.pending@) =~= (s + delta) + h0.pending@);
    assert((s + delta).no_duplicates()) by {
        assert(s.no_duplicates()) by {
            assert(l0s[i].wf(h0));
        }
        assert forall|a: int, b: int| 0 <= a < b < (s + delta).len() implies (s + delta)[a] != (s
            + delta)[b] by {
            if a < s.len() && b >= s.len() {
                assert((s + delta)[a] == s[a] && (s + delta)[b] == delta[b - s.len()]);
                assert(s.contains(s[a]));
                assert(delta.contains(delta[b - s.len()]));
                let j2 = choose|j2: int|
                    0 <= j2 < i && (#[trigger] l0s[j2]).nodes@.contains(delta[b - s.len()]);
                if (s + delta)[a] == (s + delta)[b] {
                    assert(l0s[j2].nodes@.contains(s[a]));
                    assert(l0s[i].nodes@.contains(s[a]));
                }
            } else if a >= s.len() {
                assert((s + delta)[a] == delta[a - s.len()] && (s + delta)[b] == delta[b - s.len()]);
            }
        }
    }
    assert forall|j: int, m: int|
        i + 1 <= j < l0s.len() && 0 <= m < l0s[j].nodes@.len() implies h.obj(
        #[trigger] l0s[j].nodes@[m],
    ) == h0.obj(l0s[j].nodes@[m]) by {
        let x = l0s[j].nodes@[m];
        assert(h_i.obj(x) == h0.obj(x));
        assert(l0s[j].nodes@.contains(x));
        assert(!s.contains(x));
        assert(node_ok(h0, x)) by {
            assert(l0s[j].wf(h0));
        }
        assert(untouched_or_marked(h_i, h, x));
        assert(h_i.obj(x).live);
    }
    assert forall|j: int, m: int|
        0 <= j < i + 1 && 0 <= m < l0s[j].nodes@.len() implies ({
            let nd = l0s[j].nodes@[m];
            let r = h0.obj(#[trigger] l0s[j].nodes@[m]).referent->0;
            &&& h.obj(nd).referent == Some(h0.resolve_spec(r))
            &&& h.is_live_spec(h0.resolve_spec(r))
            &&& h.obj(nd).kind == h0.obj(nd).kind
            &&& h.obj(nd).live
        }) by {
        let nd = l0s[j].nodes@[m];
        let r = h0.obj(nd).referent->0;
        if j == i {
            assert(h_i.obj(nd) == h0.obj(nd));
            assert(h_i.resolve_spec(r) == h0.resolve_spec(r));
        } else {
            assert(l0s[j].nodes@.contains(nd));
            assert(!s.contains(nd));
            assert(h_i.has_obj(nd)) by {
                assert(node_ok(h0, nd)) by {
                    assert(l0s[j].wf(h0));
                }
            }
            assert(untouched_or_marked(h_i, h, nd));
            assert(h_i.obj(nd).live);
            assert(h.obj(nd) == h_i.obj(nd));
            assert(h.is_live_spec(h0.resolve_spec(r))) by {
                assert(h_i.is_live_spec(h0.resolve_spec(r)));
            }
        }
    }
    assert forall|x: u64| h0.is_live_spec(x) implies (#[trigger] h.is_live_spec(x)) by {
        assert(h_i.is_live_spec(x));
    }
}


/// The binding's reference-glue entry points: the referent-field accessors
/// the collector engine calls on reference objects.
pub struct VMReferenceGlue {}

impl VMReferenceGlue {
    /// Store `referent` into the referent field of the reference `reff`.
    pub fn set_referent(heap: &mut Heap, reff: u64, referent: Option<u64>)
        requires
            old(heap).wf(),
            old(heap).has_obj(reff),
        ensures
            final(heap).wf(),
            final(heap).objects@ == old(heap).objects@.insert(
                reff,
                (RefObject { referent, ..old(heap).obj(reff) }),
            ),
            final(heap).moved == old(heap).moved,
            final(heap).pending_head == old(heap).pending_head,
            final(heap).pending == old(heap).pending,
            final(heap).emergency == old(heap).emergency,
    {
        heap.set_referent(reff, referent);
    }

    /// The referent field of the reference `object`.
    pub fn get_referent(heap: &Heap, object: u64) -> (r: Option<u64>)
        requires
            heap.wf(),
            heap.has_obj(object),
        ensures
            r == heap.obj(object).referent,
    {
        heap.get_referent(object)
    }
}

/// A dead Weak or Phantom referent is cleared by the drain, and the dead
/// referent itself is never among the survivors the drain enqueues.
///
/// Law: for any reference of Weak or Phantom kind whose referent is
/// unreachable, processing leaves its referent slot null, and the referent
/// does not join the pending queue.
pub proof fn lemma_weak_phantom_clearing(h: Heap, s: Seq<u64>, head: Option<u64>, n: u64, rt: RefKind)
    requires
        chain_wf(h, head, s),
        rt == RefKind::Weak || rt == RefKind::Phantom,
        s.contains(n),
        h.obj(n).referent is Some,
        !h.is_live_spec(h.obj(n).referent->0),
    ensures
        referent_after(h, n, rt) is None,
        survivors(h, s, rt).contains(n),
        !survivors(h, s, rt).contains(h.obj(n).referent->0),
{
    lemma_drain_partition(h, s, rt);
    assert(!drain_removes(h, n, rt));
    let r = h.obj(n).referent->0;
    if survivors(h, s, rt).contains(r) {
        assert(s.contains(r));
        let j = choose|j: int| 0 <= j < s.len() && s[j] == r;
        assert(node_ok(h, s[j]));
        assert(h.is_live_spec(r));
    }
}

/// Soft retention policy under memory pressure.
///
/// Law: in an emergency cycle, a Soft reference with a dead referent keeps
/// its referent unchanged and is removed from its list without being
/// enqueued; in an ordinary cycle the same configuration has the referent
/// cleared and the reference kept for the pending queue.
pub proof fn lemma_soft_retention(h: Heap, s: Seq<u64>, head: Option<u64>, n: u64)
    requires
        chain_wf(h, head, s),
        s.contains(n),
        h.obj(n).referent is Some,
        !h.is_live_spec(h.obj(n).referent->0),
    ensures
        h.emergency ==> referent_after(h, n, RefKind::Soft) == h.obj(n).referent
            && !survivors(h, s, RefKind::Soft).contains(n),
        !h.emergency ==> referent_after(h, n, RefKind::Soft) is None && survivors(
            h,
            s,
            RefKind::Soft,
        ).contains(n),
{
    lemma_drain_partition(h, s, RefKind::Soft);
    let r = h.obj(n).referent->0;
    if h.emergency {
        assert(drain_removes(h, n, RefKind::Soft));
        assert(!h.moved@.dom().contains(r));
        assert(h.resolve_spec(r) == r);
    }
}

/// Final references are resurrected before they are enqueued.
///
/// Law: a Final reference with a dead referent survives its drain with the
/// referent still in place, not enqueued; the following resurrection pass,
/// which enqueues the survivor list wholesale, enqueues it exactly once.
pub proof fn lemma_final_resurrection(h: Heap, s: Seq<u64>, head: Option<u64>, n: u64, p0: Seq<u64>)
    requires
        chain_wf(h, head, s),
        s.contains(n),
        h.obj(n).referent is Some,
        !h.is_live_spec(h.obj(n).referent->0),
        !h.emergency,
        !p0.contains(n),
    ensures
        survivors(h, s, RefKind::Final).contains(n),
        referent_after(h, n, RefKind::Final) == h.obj(n).referent,
        ({
            // the resurrection pass splices the whole survivor list in
            // front of the pending queue; the survivor appears exactly once
            let q = survivors(h, s, RefKind::Final) + p0;
            q.contains(n) && forall|a: int, b: int|
                0 <= a < q.len() && 0 <= b < q.len() && q[a] == n && q[b] == n ==> a == b
        }),
{
    lemma_drain_partition(h, s, RefKind::Final);
    assert(!drain_removes(h, n, RefKind::Final));
    let k = survivors(h, s, RefKind::Final);
    assert(k.contains(n));
    let q = k + p0;
    let i0 = choose|i0: int| 0 <= i0 < k.len() && k[i0] == n;
    assert(q[i0] == n);
    assert(q.contains(n));
    assert forall|a: int, b: int|
        0 <= a < q.len() && 0 <= b < q.len() && q[a] == n && q[b] == n implies a == b by {
        if a < k.len() && b >= k.len() {
            assert(p0[b - k.len()] == n);
            assert(p0.contains(n));
        } else if a >= k.len() && b < k.len() {
            assert(p0[a - k.len()] == n);
            assert(p0.contains(n));
        } else if a >= k.len() && b >= k.len() {
            assert(p0[a - k.len()] == n && p0[b - k.len()] == n);
            assert(p0.contains(n));
        }
    }
}

/// A complete drain with discovery disabled leaves the shard empty: the
/// kinds that clear reset the head outright, and every removed node's
/// discovery link is unset.
///
/// Law: for any set of objects added to a shard before a cycle, one
/// complete drain visits each exactly once, and the shard it leaves behind
/// holds exactly the policy's survivors, each at most once.
pub proof fn lemma_idempotent_drain(h: Heap, s: Seq<u64>, head: Option<u64>, rt: RefKind)
    requires
        chain_wf(h, head, s),
    ensures
        survivors(h, s, rt).no_duplicates(),
        forall|n: u64| #[trigger]
            survivors(h, s, rt).contains(n) <==> s.contains(n) && !drain_removes(h, n, rt),
        rt != RefKind::Final ==> forall|n: u64|
            s.contains(n) && drain_removes(h, n, rt) ==> !survivors(h, s, rt).contains(n),
{
    lemma_drain_partition(h, s, rt);
}

} // verus!
