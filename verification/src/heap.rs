//! The modelled host heap: the object-model queries the reference processor
//! relies on (referent and discovery-link fields, liveness, forwarding), the
//! host-owned pending queue, and the emergency-cycle flag.
//!
//! The subsystem never owns heap memory; this module is the explicit stand-in
//! for the host runtime and the tracer.  Objects are keyed by their nonzero
//! address.  A relocated object appears in the forwarding table under its old
//! address and in the object table under its new one; `resolve` follows one
//! forwarding step, which is all a drain ever needs.

use crate::table::Table;
use vstd::prelude::*;

verus! {

/// The kind of a reference object; determines retention and clearing policy.
#[derive(Clone, Copy, PartialEq, Eq, Structural, Debug)]
pub enum RefKind {
    /// Cleared only under the retention policy for memory pressure.
    Soft,
    /// Always cleared once the referent is unreachable.
    Weak,
    /// Kept for a resurrection pass before it is enqueued.
    Final,
    /// Always cleared once the referent is unreachable.
    Phantom,
}

/// The modelled state of one object, as far as reference processing reads it.
#[derive(Clone, Copy)]
pub struct RefObject {
    /// The reference kind of the object.
    pub kind: RefKind,
    /// The referent field: the object this reference points to, or null.
    pub referent: Option<u64>,
    /// The discovery-link field threading the discovered lists; `None` means
    /// undiscovered, and a self-reference marks a list's last node.
    pub discovered: Option<u64>,
    /// Whether the tracer found the object reachable this cycle.
    pub live: bool,
}

/// The host heap model: object states, the forwarding table, the host-owned
/// pending queue, and the emergency-cycle flag.
pub struct Heap {
    /// Object state by current address.
    pub objects: Table<RefObject>,
    /// Forwarding: old address of a relocated object to its new address.
    pub moved: Table<u64>,
    /// Head of the host pending queue; entries are chained through their
    /// discovery links, null-terminated.
    pub pending_head: Option<u64>,
    /// The contents of the pending queue, newest first.
    pub pending: Ghost<Seq<u64>>,
    /// Whether this cycle was triggered by memory pressure.
    pub emergency: bool,
}

impl Heap {
    /// Whether an object currently sits at address `a`.
    pub open spec fn has_obj(self, a: u64) -> bool {
        self.objects@.dom().contains(a)
    }

    /// The object at address `a`.
    pub open spec fn obj(self, a: u64) -> RefObject {
        self.objects@[a]
    }

    /// Where the object that used to sit at `a` went, if it was relocated.
    pub open spec fn moved_to(self, a: u64) -> Option<u64> {
        if self.moved@.dom().contains(a) {
            Some(self.moved@[a])
        } else {
            None
        }
    }

    /// The current address of the object once at `a`.
    pub open spec fn resolve_spec(self, a: u64) -> u64 {
        match self.moved_to(a) {
            Some(t) => t,
            None => a,
        }
    }

    /// Whether the object once at `a` is reachable this cycle.  A relocated
    /// object was copied because it was reachable.
    pub open spec fn is_live_spec(self, a: u64) -> bool {
        self.moved@.dom().contains(a) || (self.has_obj(a) && self.obj(a).live)
    }

    /// The discovery link of the object at `n`, with relocation of the
    /// linked object resolved.
    pub open spec fn link_of(self, n: u64) -> Option<u64> {
        match self.obj(n).discovered {
            None => None,
            Some(raw) => Some(self.resolve_spec(raw)),
        }
    }

    /// Tables are well formed, forwarding sources are no longer objects, and
    /// every forwarding target is a live object.
    pub open spec fn wf(self) -> bool {
        &&& self.objects.wf()
        &&& self.moved.wf()
        &&& forall|a: u64| #[trigger]
            self.moved@.dom().contains(a) ==> !self.objects@.dom().contains(a)
                && self.objects@.dom().contains(self.moved@[a]) && self.objects@[self.moved@[a]].live
    }

    /// The pending queue is a duplicate-free, null-terminated chain through
    /// the discovery links, starting at the published head.
    pub open spec fn pending_wf(self) -> bool {
        let p = self.pending@;
        &&& match self.pending_head {
            None => p.len() == 0,
            Some(h) => p.len() > 0 && p[0] == h,
        }
        &&& p.no_duplicates()
        &&& forall|i: int|
            0 <= i < p.len() ==> self.has_obj(#[trigger] p[i]) && !self.moved@.dom().contains(p[i])
        &&& forall|i: int| 0 <= i < p.len() - 1 ==> self.link_of(#[trigger] p[i]) == Some(p[i + 1])
        &&& p.len() > 0 ==> self.link_of(p[p.len() - 1]) == None::<u64>
    }

    /// Object addresses are never zero.
    pub proof fn lemma_obj_nonzero(self, a: u64)
        requires
            self.wf(),
            self.has_obj(a),
        ensures
            a != 0,
    {
        self.objects.lemma_zero_absent();
    }

    /// An empty heap in an ordinary (non-emergency) cycle.
    pub fn new() -> (r: Self)
        ensures
            r.wf(),
            r.pending_wf(),
            r.objects@ == Map::<u64, RefObject>::empty(),
            r.moved@ == Map::<u64, u64>::empty(),
            r.pending_head is None,
            r.pending@ == Seq::<u64>::empty(),
            !r.emergency,
    {
        Heap {
            objects: Table::new(),
            moved: Table::new(),
            pending_head: None,
            pending: Ghost(Seq::empty()),
            emergency: false,
        }
    }

    /// Mark the cycle as triggered by memory pressure, or not.
    pub fn set_emergency(&mut self, v: bool)
        ensures
            *final(self) == (Heap { emergency: v, ..*old(self) }),
    {
        self.emergency = v;
    }

    /// Place a fresh, undiscovered object at address `a`.
    pub fn add_object(&mut self, a: u64, kind: RefKind, referent: Option<u64>, live: bool)
        requires
            old(self).wf(),
            a != 0,
            !old(self).has_obj(a),
            !old(self).moved@.dom().contains(a),
        ensures
            final(self).wf(),
            final(self).objects@ == old(self).objects@.insert(
                a,
                RefObject { kind, referent, discovered: None, live },
            ),
            final(self).moved == old(self).moved,
            final(self).pending_head == old(self).pending_head,
            final(self).pending == old(self).pending,
            final(self).emergency == old(self).emergency,
    {
        self.objects.set(a, RefObject { kind, referent, discovered: None, live });
    }

    /// Record that the object once at `from` was relocated to `to`.
    pub fn add_forwarding(&mut self, from: u64, to: u64)
        requires
            old(self).wf(),
            from != 0,
            !old(self).has_obj(from),
            !old(self).moved@.dom().contains(from),
            old(self).has_obj(to),
            old(self).obj(to).live,
        ensures
            final(self).wf(),
            final(self).moved@ == old(self).moved@.insert(from, to),
            final(self).objects == old(self).objects,
            final(self).pending_head == old(self).pending_head,
            final(self).pending == old(self).pending,
            final(self).emergency == old(self).emergency,
    {
        self.moved.set(from, to);
    }

    /// The referent field of the reference object at `n`.
    pub fn get_referent(&self, n: u64) -> (r: Option<u64>)
        requires
            self.wf(),
            self.has_obj(n),
        ensures
            r == self.obj(n).referent,
    {
        match self.objects.get(n) {
            Some(o) => o.referent,
            None => None,
        }
    }

    /// The reference kind of the object at `n`.
    pub fn get_kind(&self, n: u64) -> (r: RefKind)
        requires
            self.wf(),
            self.has_obj(n),
        ensures
            r == self.obj(n).kind,
    {
        match self.objects.get(n) {
            Some(o) => o.kind,
            None => RefKind::Weak,
        }
    }

    /// The raw discovery-link field of the object at `n`.
    pub fn get_discovered(&self, n: u64) -> (r: Option<u64>)
        requires
            self.wf(),
            self.has_obj(n),
        ensures
            r == self.obj(n).discovered,
    {
        match self.objects.get(n) {
            Some(o) => o.discovered,
            None => None,
        }
    }

    /// Whether the object at `n` is live this cycle.
    pub fn get_live(&self, n: u64) -> (r: bool)
        requires
            self.wf(),
            self.has_obj(n),
        ensures
            r == self.obj(n).live,
    {
        match self.objects.get(n) {
            Some(o) => o.live,
            None => false,
        }
    }

    /// Overwrite the referent field of the object at `n`.
    pub fn set_referent(&mut self, n: u64, v: Option<u64>)
        requires
            old(self).wf(),
            old(self).has_obj(n),
        ensures
            final(self).wf(),
            final(self).objects@ == old(self).objects@.insert(
                n,
                RefObject { referent: v, ..old(self).obj(n) },
            ),
            final(self).moved == old(self).moved,
            final(self).pending_head == old(self).pending_head,
            final(self).pending == old(self).pending,
            final(self).emergency == old(self).emergency,
    {
        proof {
            self.lemma_obj_nonzero(n);
        }
        let cur = match self.objects.get(n) {
            Some(o) => *o,
            None => RefObject { kind: RefKind::Weak, referent: None, discovered: None, live: false },
        };
        self.objects.set(n, RefObject { referent: v, ..cur });
        proof {
            assert forall|a: u64| #[trigger] self.moved@.dom().contains(a) implies
                !self.objects@.dom().contains(a) && self.objects@.dom().contains(self.moved@[a])
                && self.objects@[self.moved@[a]].live by {
                assert(old(self).moved@.dom().contains(a));
            }
        }
    }

    /// Overwrite the discovery-link field of the object at `n`.
    pub fn set_discovered(&mut self, n: u64, v: Option<u64>)
        requires
            old(self).wf(),
            old(self).has_obj(n),
        ensures
            final(self).wf(),
            final(self).objects@ == old(self).objects@.insert(
                n,
                RefObject { discovered: v, ..old(self).obj(n) },
            ),
            final(self).moved == old(self).moved,
            final(self).pending_head == old(self).pending_head,
            final(self).pending == old(self).pending,
            final(self).emergency == old(self).emergency,
    {
        proof {
            self.lemma_obj_nonzero(n);
        }
        let cur = match self.objects.get(n) {
            Some(o) => *o,
            None => RefObject { kind: RefKind::Weak, referent: None, discovered: None, live: false },
        };
        self.objects.set(n, RefObject { discovered: v, ..cur });
        proof {
            assert forall|a: u64| #[trigger] self.moved@.dom().contains(a) implies
                !self.objects@.dom().contains(a) && self.objects@.dom().contains(self.moved@[a])
                && self.objects@[self.moved@[a]].live by {
                assert(old(self).moved@.dom().contains(a));
            }
        }
    }

    /// Whether the object once at `a` is reachable this cycle.
    pub fn is_live(&self, a: u64) -> (r: bool)
        requires
            self.wf(),
        ensures
            r == self.is_live_spec(a),
    {
        if self.moved.get(a).is_some() {
            true
        } else {
            match self.objects.get(a) {
                Some(o) => o.live,
                None => false,
            }
        }
    }

    /// The new address of the object once at `a`, when it was relocated.
    pub fn forwarded(&self, a: u64) -> (r: Option<u64>)
        requires
            self.wf(),
        ensures
            r == self.moved_to(a),
    {
        match self.moved.get(a) {
            Some(t) => Some(*t),
            None => None,
        }
    }

    /// The current address of the object once at `a`.
    pub fn resolve(&self, a: u64) -> (r: u64)
        requires
            self.wf(),
        ensures
            r == self.resolve_spec(a),
    {
        match self.moved.get(a) {
            Some(t) => *t,
            None => a,
        }
    }

    /// The tracer's trace-and-forward operation, consumed as one opaque
    /// step: returns the current address of the object once at `r` and
    /// keeps it reachable for the rest of the cycle.
    pub fn trace_object(&mut self, r: u64) -> (f: u64)
        requires
            old(self).wf(),
            old(self).has_obj(old(self).resolve_spec(r)),
        ensures
            final(self).wf(),
            f == old(self).resolve_spec(r),
            final(self).objects@ == old(self).objects@.insert(
                f,
                RefObject { live: true, ..old(self).obj(f) },
            ),
            final(self).is_live_spec(r),
            final(self).is_live_spec(f),
            final(self).moved == old(self).moved,
            final(self).pending_head == old(self).pending_head,
            final(self).pending == old(self).pending,
            final(self).emergency == old(self).emergency,
    {
        proof {
            self.lemma_obj_nonzero(old(self).resolve_spec(r));
        }
        let f = self.resolve(r);
        let cur = match self.objects.get(f) {
            Some(o) => *o,
            None => RefObject { kind: RefKind::Weak, referent: None, discovered: None, live: false },
        };
        self.objects.set(f, RefObject { live: true, ..cur });
        proof {
            assert forall|a: u64| #[trigger] self.moved@.dom().contains(a) implies
                !self.objects@.dom().contains(a) && self.objects@.dom().contains(self.moved@[a])
                && self.objects@[self.moved@[a]].live by {
                assert(old(self).moved@.dom().contains(a));
            }
        }
        f
    }

    /// The host's atomic queue-splice primitive: publish `new_head` as the
    /// pending-queue head and hand back the previous head.  The caller
    /// completes the splice by linking its sublist tail to the old head.
    pub fn swap_reference_pending_list(&mut self, new_head: u64) -> (old_head: Option<u64>)
        ensures
            old_head == old(self).pending_head,
            *final(self) == (Heap { pending_head: Some(new_head), ..*old(self) }),
    {
        let prev = self.pending_head;
        self.pending_head = Some(new_head);
        prev
    }

    /// Read the pending queue off the heap by walking the discovery links
    /// from the published head, newest entry first.
    pub fn pending_to_vec(&self) -> (r: Vec<u64>)
        requires
            self.wf(),
            self.pending_wf(),
        ensures
            r@ == self.pending@,
    {
        let ghost p = self.pending@;
        let mut out: Vec<u64> = Vec::new();
        let mut cur: Option<u64> = self.pending_head;
        let ghost i: int = 0;
        loop
            invariant
                self.wf(),
                self.pending_wf(),
                p == self.pending@,
                0 <= i <= p.len(),
                out@ == p.take(i),
                cur == (if i < p.len() {
                    Some(p[i])
                } else {
                    None::<u64>
                }),
            ensures
                out@ == p,
            decreases p.len() - i,
        {
            match cur {
                None => {
                    proof {
                        assert(i == p.len());
                        assert(p.take(i) =~= p);
                    }
                    break ;
                },
                Some(c) => {
                    proof {
                        assert(c == p[i]);
                        assert(p.take(i + 1) =~= p.take(i).push(c));
                    }
                    out.push(c);
                    let next = match self.get_discovered(c) {
                        None => None,
                        Some(raw) => Some(self.resolve(raw)),
                    };
                    proof {
                        assert(next == self.link_of(c));
                        if i < p.len() - 1 {
                            assert(self.link_of(p[i]) == Some(p[i + 1]));
                        } else {
                            assert(self.link_of(p[i]) == None::<u64>);
                        }
                        i = i + 1;
                    }
                    cur = next;
                },
            }
        }
        out
    }
}

} // verus!
