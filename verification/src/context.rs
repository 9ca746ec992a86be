//! Tunnel net membership.
//!
//! The circuit context records, for every tunnel label in use, which
//! components send on that net and which receive from it.  Entries are
//! created and updated by explicit events when a tunnel component is added,
//! removed, relabeled or flipped between sender and receiver, and an entry
//! is pruned as soon as it has neither senders nor receivers.

use vstd::prelude::*;

verus! {

use crate::component::TunnelKind;

/// The members of one labelled net.
pub struct TunnelMembers {
    pub senders: Vec<usize>,
    pub receivers: Vec<usize>,
}

impl TunnelMembers {
    /// Each member is recorded at most once.
    pub open spec fn wf(self) -> bool {
        self.senders@.no_duplicates() && self.receivers@.no_duplicates()
    }

    /// A net is valid exactly when it has a single sender.
    pub open spec fn valid(self) -> bool {
        self.senders@.len() == 1
    }

    /// An empty membership record.
    pub fn new() -> (r: TunnelMembers)
        ensures
            r.wf(),
            r.senders@.len() == 0,
            r.receivers@.len() == 0,
    {
        TunnelMembers { senders: Vec::new(), receivers: Vec::new() }
    }

    /// Whether the net has exactly one sender.
    pub fn is_valid(&self) -> (r: bool)
        ensures
            r == self.valid(),
    {
        self.senders.len() == 1
    }
}

/// A change of one tunnel component, to be applied to the context.
pub enum TunnelUpdateKind {
    Add,
    Remove,
    Flip,
    Rename(String),
}

/// The full description of a tunnel membership change: which label, which
/// role the tunnel currently has, and what happened to it.
pub struct TunnelUpdate {
    pub label: String,
    pub tunnel_kind: TunnelKind,
    pub update_kind: TunnelUpdateKind,
}

/// An event that requires a context update.
pub enum CtxEvent {
    TunnelUpdate(TunnelUpdate),
}

/// Circuit-wide shared state: tunnel net membership by label.
pub struct CircuitContext {
    pub tunnels: Vec<(String, TunnelMembers)>,
}

/// Which nodes send on label `l2` after `update(ev, cx)` ran, given which
/// did before.
pub open spec fn senders_after(
    before: CircuitContext,
    ev: TunnelUpdate,
    cx: usize,
    l2: Seq<char>,
    c2: usize,
) -> bool {
    match ev.update_kind {
        TunnelUpdateKind::Add => before.is_sender(l2, c2) || (ev.tunnel_kind is Sender && l2
            == ev.label@ && c2 == cx),
        TunnelUpdateKind::Remove => before.is_sender(l2, c2) && !(ev.tunnel_kind is Sender && l2
            == ev.label@ && c2 == cx),
        TunnelUpdateKind::Flip => match ev.tunnel_kind {
            TunnelKind::Sender => before.is_sender(l2, c2) && !(l2 == ev.label@ && c2 == cx),
            TunnelKind::Receiver => before.is_sender(l2, c2) || (l2 == ev.label@ && c2 == cx),
        },
        TunnelUpdateKind::Rename(nl) => (before.is_sender(l2, c2) && !(ev.tunnel_kind is Sender
            && l2 == ev.label@ && c2 == cx)) || (ev.tunnel_kind is Sender && l2 == nl@ && c2 == cx),
    }
}

/// Which nodes receive on label `l2` after `update(ev, cx)` ran, given
/// which did before.
pub open spec fn receivers_after(
    before: CircuitContext,
    ev: TunnelUpdate,
    cx: usize,
    l2: Seq<char>,
    c2: usize,
) -> bool {
    match ev.update_kind {
        TunnelUpdateKind::Add => before.is_receiver(l2, c2) || (ev.tunnel_kind is Receiver && l2
            == ev.label@ && c2 == cx),
        TunnelUpdateKind::Remove => before.is_receiver(l2, c2) && !(ev.tunnel_kind is Receiver && l2
            == ev.label@ && c2 == cx),
        TunnelUpdateKind::Flip => match ev.tunnel_kind {
            TunnelKind::Sender => before.is_receiver(l2, c2) || (l2 == ev.label@ && c2 == cx),
            TunnelKind::Receiver => before.is_receiver(l2, c2) && !(l2 == ev.label@ && c2 == cx),
        },
        TunnelUpdateKind::Rename(nl) => (before.is_receiver(l2, c2) && !(ev.tunnel_kind is Receiver
            && l2 == ev.label@ && c2 == cx)) || (ev.tunnel_kind is Receiver && l2 == nl@ && c2
            == cx),
    }
}

impl CircuitContext {
    /// Labels are pairwise distinct.
    pub open spec fn labels_distinct(self) -> bool {
        forall|i: int, j: int|
            0 <= i < j < self.tunnels@.len() ==> (#[trigger] self.tunnels@[i]).0@ != (
            #[trigger] self.tunnels@[j]).0@
    }

    /// Every entry's member lists hold no duplicates.
    pub open spec fn members_wf(self) -> bool {
        forall|i: int| 0 <= i < self.tunnels@.len() ==> (#[trigger] self.tunnels@[i]).1.wf()
    }

    /// No entry is empty: empty entries are pruned on removal.
    pub open spec fn entries_nonempty(self) -> bool {
        forall|i: int|
            0 <= i < self.tunnels@.len() ==> (#[trigger] self.tunnels@[i]).1.senders@.len() + (
            self.tunnels@[i]).1.receivers@.len() >= 1
    }

    /// Structural well-formedness.
    pub open spec fn wf(self) -> bool {
        self.labels_distinct() && self.members_wf() && self.entries_nonempty()
    }

    /// An empty context.
    pub fn new() -> (r: CircuitContext)
        ensures
            r.wf(),
            r.tunnels@.len() == 0,
    {
        CircuitContext { tunnels: Vec::new() }
    }

    /// Node `c` sends on the net of label `l`.
    pub open spec fn is_sender(self, l: Seq<char>, c: usize) -> bool {
        exists|k: int|
            0 <= k < self.tunnels@.len() && (#[trigger] self.tunnels@[k]).0@ == l
                && self.tunnels@[k].1.senders@.contains(c)
    }

    /// Node `c` receives from the net of label `l`.
    pub open spec fn is_receiver(self, l: Seq<char>, c: usize) -> bool {
        exists|k: int|
            0 <= k < self.tunnels@.len() && (#[trigger] self.tunnels@[k]).0@ == l
                && self.tunnels@[k].1.receivers@.contains(c)
    }

    /// The net of label `l` has exactly one sender.
    pub open spec fn net_valid(self, l: Seq<char>) -> bool {
        exists|c: usize|
            self.is_sender(l, c) && forall|c2: usize| self.is_sender(l, c2) ==> c2 == c
    }

    /// Applies one tunnel membership event for node `cx`.
    ///
    /// `Add` and `Remove` adjust the member sets of the event's label,
    /// `Flip` moves the node between the sender and receiver side of its
    /// label, and `Rename` retracts the node from the old label and enrols
    /// it under the new one.
    pub fn update(&mut self, event: CtxEvent, cx: usize)
        requires
            old(self).wf(),
        ensures
            final(self).wf(),
            event matches CtxEvent::TunnelUpdate(u) ==> (forall|l2: Seq<char>, c2: usize|
                final(self).is_sender(l2, c2) <==> senders_after(*old(self), u, cx, l2, c2)) && (
            forall|l2: Seq<char>, c2: usize|
                final(self).is_receiver(l2, c2) <==> receivers_after(*old(self), u, cx, l2, c2)),
    {
        let CtxEvent::TunnelUpdate(update) = event;
        let TunnelUpdate { label, tunnel_kind, update_kind } = update;
        match update_kind {
            TunnelUpdateKind::Add => {
                self.add_member(&label, tunnel_kind, cx);
            },
            TunnelUpdateKind::Remove => {
                self.remove_member(&label, tunnel_kind, cx);
            },
            TunnelUpdateKind::Flip => {
                self.remove_member(&label, tunnel_kind, cx);
                let flipped = match tunnel_kind {
                    TunnelKind::Sender => TunnelKind::Receiver,
                    TunnelKind::Receiver => TunnelKind::Sender,
                };
                self.add_member(&label, flipped, cx);
            },
            TunnelUpdateKind::Rename(new_label) => {
                self.remove_member(&label, tunnel_kind, cx);
                self.add_member(&new_label, tunnel_kind, cx);
            },
        }
    }

    /// Enrols `cx` under `label` on the side named by `kind`.
    fn add_member(&mut self, label: &String, kind: TunnelKind, cx: usize)
        requires
            old(self).wf(),
        ensures
            final(self).wf(),
            forall|l2: Seq<char>, c2: usize|
                final(self).is_sender(l2, c2) <==> old(self).is_sender(l2, c2) || (kind is Sender
                    && l2 == label@ && c2 == cx),
            forall|l2: Seq<char>, c2: usize|
                final(self).is_receiver(l2, c2) <==> old(self).is_receiver(l2, c2) || (kind
                    is Receiver && l2 == label@ && c2 == cx),
    {
        let idx = match self.find_label(label) {
            Some(i) => i,
            None => {
                let i = self.tunnels.len();
                self.tunnels.push((label.clone(), TunnelMembers::new()));
                proof {
                    lemma_entry_appended(*old(self), *self, label@);
                }
                i
            },
        };
        let ghost mid = *self;
        match kind {
            TunnelKind::Sender => {
                vec_insert_unique(&mut self.tunnels[idx].1.senders, cx);
            },
            TunnelKind::Receiver => {
                vec_insert_unique(&mut self.tunnels[idx].1.receivers, cx);
            },
        }
        proof {
            lemma_member_added(mid, *self, idx as int, label@, kind, cx);
            assert(self.entries_nonempty()) by {
                assert forall|i: int|
                    0 <= i < self.tunnels@.len() implies (#[trigger] self.tunnels@[i]).1.senders@.len()
                    + (self.tunnels@[i]).1.receivers@.len() >= 1 by {
                    if i == idx as int {
                        match kind {
                            TunnelKind::Sender => {
                                assert(self.tunnels@[i].1.senders@.contains(cx));
                            },
                            TunnelKind::Receiver => {
                                assert(self.tunnels@[i].1.receivers@.contains(cx));
                            },
                        }
                    } else {
                        assert(self.tunnels@[i] == mid.tunnels@[i]);
                        assert(mid.entries_nonempty() || i < old(self).tunnels@.len());
                    }
                }
            }
        }
    }

    /// Retracts `cx` from `label` on the side named by `kind`, pruning the
    /// entry when it becomes empty.
    fn remove_member(&mut self, label: &String, kind: TunnelKind, cx: usize)
        requires
            old(self).wf(),
        ensures
            final(self).wf(),
            forall|l2: Seq<char>, c2: usize|
                final(self).is_sender(l2, c2) <==> old(self).is_sender(l2, c2) && !(kind is Sender
                    && l2 == label@ && c2 == cx),
            forall|l2: Seq<char>, c2: usize|
                final(self).is_receiver(l2, c2) <==> old(self).is_receiver(l2, c2) && !(kind
                    is Receiver && l2 == label@ && c2 == cx),
    {
        let found = self.find_label(label);
        let idx = match found {
            Some(i) => i,
            None => {
                proof {
                    lemma_absent_label(*self, label@);
                }
                return ;
            },
        };
        let ghost mid0 = *self;
        match kind {
            TunnelKind::Sender => {
                vec_remove_elem(&mut self.tunnels[idx].1.senders, cx);
            },
            TunnelKind::Receiver => {
                vec_remove_elem(&mut self.tunnels[idx].1.receivers, cx);
            },
        }
        let ghost mid = *self;
        proof {
            lemma_member_removed(mid0, mid, idx as int, label@, kind, cx);
        }
        if self.tunnels[idx].1.senders.len() == 0 && self.tunnels[idx].1.receivers.len() == 0 {
            self.tunnels.remove(idx);
            proof {
                lemma_entry_pruned(mid, *self, idx as int);
            }
        } else {
            proof {
                assert(self.entries_nonempty()) by {
                    assert forall|i: int|
                        0 <= i < self.tunnels@.len() implies (
                    #[trigger] self.tunnels@[i]).1.senders@.len() + (
                    self.tunnels@[i]).1.receivers@.len() >= 1 by {
                        if i != idx as int {
                            assert(self.tunnels@[i] == mid0.tunnels@[i]);
                        }
                    }
                }
            }
        }
    }

    /// The index of the entry for label `l`, if the context has one.
    fn find_label(&self, label: &String) -> (r: Option<usize>)
        ensures
            match r {
                Some(i) => i < self.tunnels@.len() && self.tunnels@[i as int].0@ == label@,
                None => forall|k: int|
                    0 <= k < self.tunnels@.len() ==> (#[trigger] self.tunnels@[k]).0@ != label@,
            },
    {
        let mut k: usize = 0;
        while k < self.tunnels.len()
            invariant
                k <= self.tunnels@.len(),
                forall|j: int| 0 <= j < k as int ==> (#[trigger] self.tunnels@[j]).0@ != label@,
            decreases self.tunnels@.len() - k,
        {
            if self.tunnels[k].0 == *label {
                return Some(k);
            }
            k += 1;
        }
        None
    }
}

/// A context without an entry for `l` has no members on `l` at all.
proof fn lemma_absent_label(ctx: CircuitContext, l: Seq<char>)
    requires
        forall|k: int| 0 <= k < ctx.tunnels@.len() ==> (#[trigger] ctx.tunnels@[k]).0@ != l,
    ensures
        forall|c2: usize| !ctx.is_sender(l, c2),
        forall|c2: usize| !ctx.is_receiver(l, c2),
{
}

/// Appending a fresh, empty entry changes no membership and keeps labels
/// distinct.
proof fn lemma_entry_appended(pre: CircuitContext, post: CircuitContext, l: Seq<char>)
    requires
        pre.wf(),
        forall|k: int| 0 <= k < pre.tunnels@.len() ==> (#[trigger] pre.tunnels@[k]).0@ != l,
        post.tunnels@.len() == pre.tunnels@.len() + 1,
        forall|k: int|
            0 <= k < pre.tunnels@.len() ==> #[trigger] post.tunnels@[k] == pre.tunnels@[k],
        post.tunnels@[pre.tunnels@.len() as int].0@ == l,
        post.tunnels@[pre.tunnels@.len() as int].1.senders@.len() == 0,
        post.tunnels@[pre.tunnels@.len() as int].1.receivers@.len() == 0,
    ensures
        post.labels_distinct(),
        post.members_wf(),
        forall|l2: Seq<char>, c2: usize|
            post.is_sender(l2, c2) <==> pre.is_sender(l2, c2),
        forall|l2: Seq<char>, c2: usize|
            post.is_receiver(l2, c2) <==> pre.is_receiver(l2, c2),
        post.tunnels@[pre.tunnels@.len() as int].0@ == l,
{
    let n = pre.tunnels@.len() as int;
    assert forall|l2: Seq<char>, c2: usize| post.is_sender(l2, c2) <==> pre.is_sender(l2, c2) by {
        if post.is_sender(l2, c2) {
            let k = choose|k: int|
                0 <= k < post.tunnels@.len() && (#[trigger] post.tunnels@[k]).0@ == l2
                    && post.tunnels@[k].1.senders@.contains(c2);
            assert(k < n);
            assert(pre.tunnels@[k].0@ == l2 && pre.tunnels@[k].1.senders@.contains(c2));
        }
        if pre.is_sender(l2, c2) {
            let k = choose|k: int|
                0 <= k < pre.tunnels@.len() && (#[trigger] pre.tunnels@[k]).0@ == l2
                    && pre.tunnels@[k].1.senders@.contains(c2);
            assert(post.tunnels@[k].0@ == l2 && post.tunnels@[k].1.senders@.contains(c2));
        }
    }
    assert forall|l2: Seq<char>, c2: usize| post.is_receiver(l2, c2) <==> pre.is_receiver(
        l2,
        c2,
    ) by {
        if post.is_receiver(l2, c2) {
            let k = choose|k: int|
                0 <= k < post.tunnels@.len() && (#[trigger] post.tunnels@[k]).0@ == l2
                    && post.tunnels@[k].1.receivers@.contains(c2);
            assert(k < n);
            assert(pre.tunnels@[k].0@ == l2 && pre.tunnels@[k].1.receivers@.contains(c2));
        }
        if pre.is_receiver(l2, c2) {
            let k = choose|k: int|
                0 <= k < pre.tunnels@.len() && (#[trigger] pre.tunnels@[k]).0@ == l2
                    && pre.tunnels@[k].1.receivers@.contains(c2);
            assert(post.tunnels@[k].0@ == l2 && post.tunnels@[k].1.receivers@.contains(c2));
        }
    }
    assert forall|i: int, j: int|
        0 <= i < j < post.tunnels@.len() implies (#[trigger] post.tunnels@[i]).0@ != (
    #[trigger] post.tunnels@[j]).0@ by {
        if j < n {
            assert(post.tunnels@[i] == pre.tunnels@[i]);
            assert(post.tunnels@[j] == pre.tunnels@[j]);
        } else {
            assert(post.tunnels@[i] == pre.tunnels@[i]);
            assert(post.tunnels@[j].0@ == l);
        }
    }
}

/// Inserting `cx` into one side of entry `idx` adds exactly that membership.
proof fn lemma_member_added(
    pre: CircuitContext,
    post: CircuitContext,
    idx: int,
    l: Seq<char>,
    kind: TunnelKind,
    cx: usize,
)
    requires
        pre.labels_distinct(),
        pre.members_wf(),
        0 <= idx < pre.tunnels@.len(),
        pre.tunnels@[idx].0@ == l,
        post.tunnels@.len() == pre.tunnels@.len(),
        forall|k: int|
            0 <= k < pre.tunnels@.len() && k != idx ==> #[trigger] post.tunnels@[k]
                == pre.tunnels@[k],
        post.tunnels@[idx].0@ == l,
        post.tunnels@[idx].1.wf(),
        match kind {
            TunnelKind::Sender => (forall|y: usize|
                post.tunnels@[idx].1.senders@.contains(y) <==> pre.tunnels@[idx].1.senders@.contains(
                    y,
                ) || y == cx) && post.tunnels@[idx].1.receivers@
                == pre.tunnels@[idx].1.receivers@,
            TunnelKind::Receiver => (forall|y: usize|
                post.tunnels@[idx].1.receivers@.contains(y)
                    <==> pre.tunnels@[idx].1.receivers@.contains(y) || y == cx)
                && post.tunnels@[idx].1.senders@ == pre.tunnels@[idx].1.senders@,
        },
    ensures
        post.labels_distinct(),
        post.members_wf(),
        forall|l2: Seq<char>, c2: usize|
            post.is_sender(l2, c2) <==> pre.is_sender(l2, c2) || (kind is Sender && l2 == l && c2
                == cx),
        forall|l2: Seq<char>, c2: usize|
            post.is_receiver(l2, c2) <==> pre.is_receiver(l2, c2) || (kind is Receiver && l2 == l
                && c2 == cx),
{
    assert forall|i: int, j: int|
        0 <= i < j < post.tunnels@.len() implies (#[trigger] post.tunnels@[i]).0@ != (
    #[trigger] post.tunnels@[j]).0@ by {
        assert(post.tunnels@[i].0@ == pre.tunnels@[i].0@);
        assert(post.tunnels@[j].0@ == pre.tunnels@[j].0@);
    }
    assert forall|i: int| 0 <= i < post.tunnels@.len() implies (#[trigger] post.tunnels@[i]).1.wf() by {
        if i != idx {
            assert(post.tunnels@[i] == pre.tunnels@[i]);
        }
    }
    assert forall|l2: Seq<char>, c2: usize|
        post.is_sender(l2, c2) <==> pre.is_sender(l2, c2) || (kind is Sender && l2 == l && c2
            == cx) by {
        if post.is_sender(l2, c2) {
            let k = choose|k: int|
                0 <= k < post.tunnels@.len() && (#[trigger] post.tunnels@[k]).0@ == l2
                    && post.tunnels@[k].1.senders@.contains(c2);
            if k != idx {
                assert(pre.tunnels@[k].0@ == l2 && pre.tunnels@[k].1.senders@.contains(c2));
            }
        }
        if pre.is_sender(l2, c2) {
            let k = choose|k: int|
                0 <= k < pre.tunnels@.len() && (#[trigger] pre.tunnels@[k]).0@ == l2
                    && pre.tunnels@[k].1.senders@.contains(c2);
            if k != idx {
                assert(post.tunnels@[k].0@ == l2 && post.tunnels@[k].1.senders@.contains(c2));
            } else {
                assert(post.tunnels@[idx].1.senders@.contains(c2));
            }
        }
        if kind is Sender && l2 == l && c2 == cx {
            assert(post.tunnels@[idx].0@ == l2 && post.tunnels@[idx].1.senders@.contains(c2));
        }
    }
    assert forall|l2: Seq<char>, c2: usize|
        post.is_receiver(l2, c2) <==> pre.is_receiver(l2, c2) || (kind is Receiver && l2 == l && c2
            == cx) by {
        if post.is_receiver(l2, c2) {
            let k = choose|k: int|
                0 <= k < post.tunnels@.len() && (#[trigger] post.tunnels@[k]).0@ == l2
                    && post.tunnels@[k].1.receivers@.contains(c2);
            if k != idx {
                assert(pre.tunnels@[k].0@ == l2 && pre.tunnels@[k].1.receivers@.contains(c2));
            }
        }
        if pre.is_receiver(l2, c2) {
            let k = choose|k: int|
                0 <= k < pre.tunnels@.len() && (#[trigger] pre.tunnels@[k]).0@ == l2
                    && pre.tunnels@[k].1.receivers@.contains(c2);
            if k != idx {
                assert(post.tunnels@[k].0@ == l2 && post.tunnels@[k].1.receivers@.contains(c2));
            } else {
                assert(post.tunnels@[idx].1.receivers@.contains(c2));
            }
        }
        if kind is Receiver && l2 == l && c2 == cx {
            assert(post.tunnels@[idx].0@ == l2 && post.tunnels@[idx].1.receivers@.contains(c2));
        }
    }
}

/// Removing `cx` from one side of entry `idx` removes exactly that
/// membership.
proof fn lemma_member_removed(
    pre: CircuitContext,
    post: CircuitContext,
    idx: int,
    l: Seq<char>,
    kind: TunnelKind,
    cx: usize,
)
    requires
        pre.labels_distinct(),
        pre.members_wf(),
        0 <= idx < pre.tunnels@.len(),
        pre.tunnels@[idx].0@ == l,
        post.tunnels@.len() == pre.tunnels@.len(),
        forall|k: int|
            0 <= k < pre.tunnels@.len() && k != idx ==> #[trigger] post.tunnels@[k]
                == pre.tunnels@[k],
        post.tunnels@[idx].0@ == l,
        post.tunnels@[idx].1.wf(),
        match kind {
            TunnelKind::Sender => (forall|y: usize|
                post.tunnels@[idx].1.senders@.contains(y) <==> pre.tunnels@[idx].1.senders@.contains(
                    y,
                ) && y != cx) && post.tunnels@[idx].1.receivers@
                == pre.tunnels@[idx].1.receivers@,
            TunnelKind::Receiver => (forall|y: usize|
                post.tunnels@[idx].1.receivers@.contains(y)
                    <==> pre.tunnels@[idx].1.receivers@.contains(y) && y != cx)
                && post.tunnels@[idx].1.senders@ == pre.tunnels@[idx].1.senders@,
        },
    ensures
        post.labels_distinct(),
        post.members_wf(),
        forall|l2: Seq<char>, c2: usize|
            post.is_sender(l2, c2) <==> pre.is_sender(l2, c2) && !(kind is Sender && l2 == l && c2
                == cx),
        forall|l2: Seq<char>, c2: usize|
            post.is_receiver(l2, c2) <==> pre.is_receiver(l2, c2) && !(kind is Receiver && l2 == l
                && c2 == cx),
{
    assert forall|i: int, j: int|
        0 <= i < j < post.tunnels@.len() implies (#[trigger] post.tunnels@[i]).0@ != (
    #[trigger] post.tunnels@[j]).0@ by {
        assert(post.tunnels@[i].0@ == pre.tunnels@[i].0@);
        assert(post.tunnels@[j].0@ == pre.tunnels@[j].0@);
    }
    assert forall|i: int| 0 <= i < post.tunnels@.len() implies (#[trigger] post.tunnels@[i]).1.wf() by {
        if i != idx {
            assert(post.tunnels@[i] == pre.tunnels@[i]);
        }
    }
    assert forall|l2: Seq<char>, c2: usize|
        post.is_sender(l2, c2) <==> pre.is_sender(l2, c2) && !(kind is Sender && l2 == l && c2
            == cx) by {
        if post.is_sender(l2, c2) {
            let k = choose|k: int|
                0 <= k < post.tunnels@.len() && (#[trigger] post.tunnels@[k]).0@ == l2
                    && post.tunnels@[k].1.senders@.contains(c2);
            if k != idx {
                assert(pre.tunnels@[k].0@ == l2 && pre.tunnels@[k].1.senders@.contains(c2));
                if l2 == l {
                    assert(pre.tunnels@[k].0@ == pre.tunnels@[idx].0@);
                    assert(false);
                }
            } else {
                assert(pre.tunnels@[idx].1.senders@.contains(c2));
                assert(!(kind is Sender && c2 == cx));
            }
        }
        if pre.is_sender(l2, c2) && !(kind is Sender && l2 == l && c2 == cx) {
            let k = choose|k: int|
                0 <= k < pre.tunnels@.len() && (#[trigger] pre.tunnels@[k]).0@ == l2
                    && pre.tunnels@[k].1.senders@.contains(c2);
            if k != idx {
                assert(post.tunnels@[k].0@ == l2 && post.tunnels@[k].1.senders@.contains(c2));
            } else {
                assert(l2 == l);
                match kind {
                    TunnelKind::Sender => {
                        assert(c2 != cx);
                        assert(post.tunnels@[idx].1.senders@.contains(c2));
                    },
                    TunnelKind::Receiver => {
                        assert(post.tunnels@[idx].1.senders@.contains(c2));
                    },
                }
            }
        }
    }
    assert forall|l2: Seq<char>, c2: usize|
        post.is_receiver(l2, c2) <==> pre.is_receiver(l2, c2) && !(kind is Receiver && l2 == l && c2
            == cx) by {
        if post.is_receiver(l2, c2) {
            let k = choose|k: int|
                0 <= k < post.tunnels@.len() && (#[trigger] post.tunnels@[k]).0@ == l2
                    && post.tunnels@[k].1.receivers@.contains(c2);
            if k != idx {
                assert(pre.tunnels@[k].0@ == l2 && pre.tunnels@[k].1.receivers@.contains(c2));
                if l2 == l {
                    assert(pre.tunnels@[k].0@ == pre.tunnels@[idx].0@);
                    assert(false);
                }
            } else {
                assert(pre.tunnels@[idx].1.receivers@.contains(c2));
                assert(!(kind is Receiver && c2 == cx));
            }
        }
        if pre.is_receiver(l2, c2) && !(kind is Receiver && l2 == l && c2 == cx) {
            let k = choose|k: int|
                0 <= k < pre.tunnels@.len() && (#[trigger] pre.tunnels@[k]).0@ == l2
                    && pre.tunnels@[k].1.receivers@.contains(c2);
            if k != idx {
                assert(post.tunnels@[k].0@ == l2 && post.tunnels@[k].1.receivers@.contains(c2));
            } else {
                assert(l2 == l);
                match kind {
                    TunnelKind::Receiver => {
                        assert(c2 != cx);
                        assert(post.tunnels@[idx].1.receivers@.contains(c2));
                    },
                    TunnelKind::Sender => {
                        assert(post.tunnels@[idx].1.receivers@.contains(c2));
                    },
                }
            }
        }
    }
}

/// Deleting an entry with no members at all changes no membership and
/// preserves well-formedness.
proof fn lemma_entry_pruned(pre: CircuitContext, post: CircuitContext, idx: int)
    requires
        pre.labels_distinct(),
        pre.members_wf(),
        forall|i: int|
            0 <= i < pre.tunnels@.len() && i != idx ==> (#[trigger] pre.tunnels@[i]).1.senders@.len()
                + (pre.tunnels@[i]).1.receivers@.len() >= 1,
        0 <= idx < pre.tunnels@.len(),
        pre.tunnels@[idx].1.senders@.len() == 0,
        pre.tunnels@[idx].1.receivers@.len() == 0,
        post.tunnels@ == pre.tunnels@.remove(idx),
    ensures
        post.wf(),
        forall|l2: Seq<char>, c2: usize|
            post.is_sender(l2, c2) <==> pre.is_sender(l2, c2),
        forall|l2: Seq<char>, c2: usize|
            post.is_receiver(l2, c2) <==> pre.is_receiver(l2, c2),
{
    assert(post.tunnels@.len() == pre.tunnels@.len() - 1);
    assert forall|i: int|
        0 <= i < post.tunnels@.len() implies #[trigger] post.tunnels@[i] == pre.tunnels@[if i < idx {
        i
    } else {
        i + 1
    }] by {}
    assert forall|l2: Seq<char>, c2: usize| post.is_sender(l2, c2) <==> pre.is_sender(l2, c2) by {
        if post.is_sender(l2, c2) {
            let k = choose|k: int|
                0 <= k < post.tunnels@.len() && (#[trigger] post.tunnels@[k]).0@ == l2
                    && post.tunnels@[k].1.senders@.contains(c2);
            let ok = if k < idx {
                k
            } else {
                k + 1
            };
            assert(pre.tunnels@[ok].0@ == l2 && pre.tunnels@[ok].1.senders@.contains(c2));
        }
        if pre.is_sender(l2, c2) {
            let k = choose|k: int|
                0 <= k < pre.tunnels@.len() && (#[trigger] pre.tunnels@[k]).0@ == l2
                    && pre.tunnels@[k].1.senders@.contains(c2);
            assert(k != idx);
            let nk = if k < idx {
                k
            } else {
                k - 1
            };
            assert(post.tunnels@[nk].0@ == l2 && post.tunnels@[nk].1.senders@.contains(c2));
        }
    }
    assert forall|l2: Seq<char>, c2: usize| post.is_receiver(l2, c2) <==> pre.is_receiver(
        l2,
        c2,
    ) by {
        if post.is_receiver(l2, c2) {
            let k = choose|k: int|
                0 <= k < post.tunnels@.len() && (#[trigger] post.tunnels@[k]).0@ == l2
                    && post.tunnels@[k].1.receivers@.contains(c2);
            let ok = if k < idx {
                k
            } else {
                k + 1
            };
            assert(pre.tunnels@[ok].0@ == l2 && pre.tunnels@[ok].1.receivers@.contains(c2));
        }
        if pre.is_receiver(l2, c2) {
            let k = choose|k: int|
                0 <= k < pre.tunnels@.len() && (#[trigger] pre.tunnels@[k]).0@ == l2
                    && pre.tunnels@[k].1.receivers@.contains(c2);
            assert(k != idx);
            let nk = if k < idx {
                k
            } else {
                k - 1
            };
            assert(post.tunnels@[nk].0@ == l2 && post.tunnels@[nk].1.receivers@.contains(c2));
        }
    }
    assert forall|i: int, j: int|
        0 <= i < j < post.tunnels@.len() implies (#[trigger] post.tunnels@[i]).0@ != (
    #[trigger] post.tunnels@[j]).0@ by {
        let oi = if i < idx {
            i
        } else {
            i + 1
        };
        let oj = if j < idx {
            j
        } else {
            j + 1
        };
        assert(post.tunnels@[i] == pre.tunnels@[oi]);
        assert(post.tunnels@[j] == pre.tunnels@[oj]);
    }
    assert forall|i: int|
        0 <= i < post.tunnels@.len() implies (#[trigger] post.tunnels@[i]).1.wf() && (
    post.tunnels@[i]).1.senders@.len() + (post.tunnels@[i]).1.receivers@.len() >= 1 by {
        let oi = if i < idx {
            i
        } else {
            i + 1
        };
        assert(post.tunnels@[i] == pre.tunnels@[oi]);
    }
}

/// Whether the vector holds the element.
fn vec_contains(v: &Vec<usize>, x: usize) -> (r: bool)
    ensures
        r == v@.contains(x),
{
    let mut k: usize = 0;
    while k < v.len()
        invariant
            k <= v@.len(),
            forall|j: int| 0 <= j < k as int ==> v@[j] != x,
        decreases v@.len() - k,
    {
        if v[k] == x {
            return true;
        }
        k += 1;
    }
    false
}

/// Adds an element unless it is already present.
fn vec_insert_unique(v: &mut Vec<usize>, x: usize)
    requires
        old(v)@.no_duplicates(),
    ensures
        final(v)@.no_duplicates(),
        final(v)@.contains(x),
        forall|y: usize| final(v)@.contains(y) <==> old(v)@.contains(y) || y == x,
        old(v)@.contains(x) ==> final(v)@ == old(v)@,
        !old(v)@.contains(x) ==> final(v)@ == old(v)@.push(x),
{
    if !vec_contains(v, x) {
        v.push(x);
        proof {
            assert forall|y: usize| v@.contains(y) <==> old(v)@.contains(y) || y == x by {
                if old(v)@.contains(y) {
                    let j = choose|j: int| 0 <= j < old(v)@.len() && old(v)@[j] == y;
                    assert(v@[j] == y);
                }
                if y == x {
                    assert(v@[v@.len() - 1] == y);
                }
                if v@.contains(y) {
                    let j = choose|j: int| 0 <= j < v@.len() && v@[j] == y;
                    if j < old(v)@.len() {
                        assert(old(v)@[j] == y);
                    }
                }
            }
        }
    } else {
        proof {
            assert(v@.contains(x));
        }
    }
}

/// Removes an element if present.
fn vec_remove_elem(v: &mut Vec<usize>, x: usize)
    requires
        old(v)@.no_duplicates(),
    ensures
        final(v)@.no_duplicates(),
        forall|y: usize| final(v)@.contains(y) <==> old(v)@.contains(y) && y != x,
        !old(v)@.contains(x) ==> final(v)@ == old(v)@,
        old(v)@.contains(x) ==> final(v)@.len() == old(v)@.len() - 1,
{
    let mut k: usize = 0;
    let n = v.len();
    while k < n
        invariant
            k <= n,
            n == v@.len(),
            v@ == old(v)@,
            old(v)@.no_duplicates(),
            forall|j: int| 0 <= j < k as int ==> v@[j] != x,
        decreases n - k,
    {
        if v[k] == x {
            v.remove(k);
            proof {
                let oldv = old(v)@;
                assert(oldv[k as int] == x);
                assert forall|y: usize| v@.contains(y) <==> oldv.contains(y) && y != x by {
                    if v@.contains(y) {
                        let j = choose|j: int| 0 <= j < v@.len() && v@[j] == y;
                        if j < k as int {
                            assert(oldv[j] == y);
                            assert(oldv[j] != x);
                        } else {
                            assert(oldv[j + 1] == y);
                            assert((k as int) < j + 1 < oldv.len());
                            assert(oldv[k as int] != oldv[j + 1]);
                        }
                    }
                    if oldv.contains(y) && y != x {
                        let j = choose|j: int| 0 <= j < oldv.len() && oldv[j] == y;
                        if j < k as int {
                            assert(v@[j] == y);
                        } else {
                            assert(j != k as int);
                            assert(v@[j - 1] == y);
                        }
                    }
                }
                assert(v@.no_duplicates()) by {
                    assert forall|i: int, j: int| 0 <= i < j < v@.len() implies v@[i] != v@[j] by {
                        let oi = if i < k as int {
                            i
                        } else {
                            i + 1
                        };
                        let oj = if j < k as int {
                            j
                        } else {
                            j + 1
                        };
                        assert(0 <= oi < oj < oldv.len());
                        assert(v@[i] == oldv[oi]);
                        assert(v@[j] == oldv[oj]);
                        assert(oldv[oi] != oldv[oj]);
                    }
                }
            }
            return ;
        }
        k += 1;
    }
}

} // verus!
