//! Publication, lookup and maintenance decisions of a node.
//!
//! [`Server`] decides; its caller runs the lookups and the calls that a decision asks
//! for and comes back with what they gave.

use vstd::prelude::*;

use crate::long_id;
use crate::node::{self, Node, NodeHeap};
use crate::protocol::{
    self, KademliaProtocol, OutgoingCall, ProtocolState, RpcMessage, StoreStatus,
    VerificationDomain, VerifyStep,
};
use crate::reassembly::BufferState;
use crate::storage::{
    self, id_records, ForgetfulStorage, IStorage, StorageWriteStatus, StoreState,
    DEFAULT_MAX_STORAGE_BYTES, DEFAULT_TTL,
};
use crate::text::{self, hex_encode, str_eq};
use crate::utils::{
    self, bytes_eq, copy_bytes, digest, digest_bytes, id_eq, id_from_slice, random_bytes, ID_LEN,
};

verus! {

/// Detailed result of a publication attempt.
#[derive(Debug, PartialEq, Eq, Structural)]
pub struct SetReport {
    pub expected_replicas: usize,
    pub stored_replicas: usize,
    pub already_present: usize,
    pub capacity_rejections: usize,
    pub unavailable_nodes: usize,
    pub conflict_rejections: usize,
    pub invalid_rejections: usize,
}

impl Clone for SetReport {
    fn clone(&self) -> (copy: Self)
        ensures
            copy == *self,
    {
        SetReport {
            expected_replicas: self.expected_replicas,
            stored_replicas: self.stored_replicas,
            already_present: self.already_present,
            capacity_rejections: self.capacity_rejections,
            unavailable_nodes: self.unavailable_nodes,
            conflict_rejections: self.conflict_rejections,
            invalid_rejections: self.invalid_rejections,
        }
    }
}

impl Default for SetReport {
    /// Nothing expected and nothing counted.
    fn default() -> (report: Self)
        ensures
            report == report_of(0),
    {
        SetReport {
            expected_replicas: 0,
            stored_replicas: 0,
            already_present: 0,
            capacity_rejections: 0,
            unavailable_nodes: 0,
            conflict_rejections: 0,
            invalid_rejections: 0,
        }
    }
}

/// How often `status` occurs among `statuses`.
pub open spec fn occurrences(
    statuses: Seq<Option<StoreStatus>>,
    status: Option<StoreStatus>,
) -> nat
    decreases statuses.len(),
{
    if statuses.len() == 0 {
        0
    } else {
        occurrences(statuses.drop_last(), status) + if statuses.last() == status {
            1nat
        } else {
            0
        }
    }
}

/// A report on `expected` replicas with nothing counted yet.
pub open spec fn report_of(expected: usize) -> SetReport {
    SetReport {
        expected_replicas: expected,
        stored_replicas: 0,
        already_present: 0,
        capacity_rejections: 0,
        unavailable_nodes: 0,
        conflict_rejections: 0,
        invalid_rejections: 0,
    }
}

impl SetReport {
    /// Replicas that hold the record.
    pub open spec fn acknowledged(self) -> int {
        self.stored_replicas + self.already_present
    }

    /// Everything that was counted.
    pub open spec fn counted(self) -> int {
        self.stored_replicas + self.already_present + self.capacity_rejections
            + self.unavailable_nodes + self.conflict_rejections + self.invalid_rejections
    }

    /// The count that a status adds to.
    pub open spec fn counter(self, status: Option<StoreStatus>) -> usize {
        match status {
            Some(StoreStatus::Stored) => self.stored_replicas,
            Some(StoreStatus::AlreadyStored) => self.already_present,
            Some(StoreStatus::CapacityExceeded) => self.capacity_rejections,
            Some(StoreStatus::Conflict) => self.conflict_rejections,
            Some(StoreStatus::InvalidRecord) => self.invalid_rejections,
            None => self.unavailable_nodes,
        }
    }

    /// None of the counts, nor that of the replicas that hold the record, overflows when
    /// `statuses` are added.
    pub open spec fn has_room_for(self, statuses: Seq<Option<StoreStatus>>) -> bool {
        &&& forall|status: Option<StoreStatus>|
            self.counter(status) + #[trigger] occurrences(statuses, status) <= usize::MAX
        &&& self.acknowledged() + occurrences(statuses, Some(StoreStatus::Stored)) + occurrences(
            statuses,
            Some(StoreStatus::AlreadyStored),
        ) <= usize::MAX
    }

    /// The report with one more status; `None` stands for a node that did not answer.
    pub open spec fn with(self, status: Option<StoreStatus>) -> SetReport {
        match status {
            Some(StoreStatus::Stored) => SetReport {
                stored_replicas: (self.stored_replicas + 1) as usize,
                ..self
            },
            Some(StoreStatus::AlreadyStored) => SetReport {
                already_present: (self.already_present + 1) as usize,
                ..self
            },
            Some(StoreStatus::CapacityExceeded) => SetReport {
                capacity_rejections: (self.capacity_rejections + 1) as usize,
                ..self
            },
            Some(StoreStatus::Conflict) => SetReport {
                conflict_rejections: (self.conflict_rejections + 1) as usize,
                ..self
            },
            Some(StoreStatus::InvalidRecord) => SetReport {
                invalid_rejections: (self.invalid_rejections + 1) as usize,
                ..self
            },
            None => SetReport {
                unavailable_nodes: (self.unavailable_nodes + 1) as usize,
                ..self
            },
        }
    }

    /// The report with more statuses, in order.
    pub open spec fn with_all(self, statuses: Seq<Option<StoreStatus>>) -> SetReport
        decreases statuses.len(),
    {
        if statuses.len() == 0 {
            self
        } else {
            self.with_all(statuses.drop_last()).with(statuses.last())
        }
    }

    pub fn acknowledged_replicas(&self) -> (count: usize)
        requires
            self.acknowledged() <= usize::MAX,
        ensures
            count == self.acknowledged(),
    {
        self.stored_replicas + self.already_present
    }

    /// Counts one more status.
    pub fn record_status(&mut self, status: Option<StoreStatus>)
        requires
            old(self).counter(status) < usize::MAX,
        ensures
            *final(self) == old(self).with(status),
            final(self).counted() == old(self).counted() + 1,
    {
        match status {
            Some(StoreStatus::Stored) => {
                self.stored_replicas = self.stored_replicas + 1;
            },
            Some(StoreStatus::AlreadyStored) => {
                self.already_present = self.already_present + 1;
            },
            Some(StoreStatus::CapacityExceeded) => {
                self.capacity_rejections = self.capacity_rejections + 1;
            },
            Some(StoreStatus::Conflict) => {
                self.conflict_rejections = self.conflict_rejections + 1;
            },
            Some(StoreStatus::InvalidRecord) => {
                self.invalid_rejections = self.invalid_rejections + 1;
            },
            None => {
                self.unavailable_nodes = self.unavailable_nodes + 1;
            },
        }
    }
}

/// Why a publication was rejected.
#[derive(Debug, Clone, Copy, PartialEq, Eq, Structural)]
pub enum SetRejection {
    ExistingRecord,
    InvalidRecord,
    ReplicaConflict,
    CapacityExceeded,
    Unavailable,
    NoResponsibleNodes,
}

/// How a publication went.
#[derive(Debug, PartialEq, Eq, Structural)]
pub enum SetOutcome {
    /// Every responsible replica holds the record.
    Complete(SetReport),
    /// Some do.
    Degraded(SetReport),
    /// The record was not published.
    Rejected { reason: SetRejection, report: SetReport },
}

impl Clone for SetOutcome {
    fn clone(&self) -> (copy: Self)
        ensures
            copy == *self,
    {
        match self {
            SetOutcome::Complete(report) => SetOutcome::Complete(report.clone()),
            SetOutcome::Degraded(report) => SetOutcome::Degraded(report.clone()),
            SetOutcome::Rejected { reason, report } => SetOutcome::Rejected {
                reason: *reason,
                report: report.clone(),
            },
        }
    }
}

/// The report in an outcome.
pub open spec fn report_in(outcome: SetOutcome) -> SetReport {
    match outcome {
        SetOutcome::Complete(report) => report,
        SetOutcome::Degraded(report) => report,
        SetOutcome::Rejected { report, .. } => report,
    }
}

impl SetOutcome {
    pub fn report(&self) -> (report: &SetReport)
        ensures
            *report == report_in(*self),
    {
        match self {
            SetOutcome::Complete(report) => report,
            SetOutcome::Degraded(report) => report,
            SetOutcome::Rejected { report, .. } => report,
        }
    }
}

/// What a report on all replicas amounts to.
pub open spec fn outcome_of(report: SetReport) -> SetOutcome {
    if report.conflict_rejections > 0 {
        SetOutcome::Rejected { reason: SetRejection::ReplicaConflict, report }
    } else if report.invalid_rejections > 0 {
        SetOutcome::Rejected { reason: SetRejection::InvalidRecord, report }
    } else if report.expected_replicas == 0 {
        SetOutcome::Rejected { reason: SetRejection::NoResponsibleNodes, report }
    } else if report.acknowledged() == report.expected_replicas {
        SetOutcome::Complete(report)
    } else if report.acknowledged() > 0 {
        SetOutcome::Degraded(report)
    } else if report.capacity_rejections > 0 {
        SetOutcome::Rejected { reason: SetRejection::CapacityExceeded, report }
    } else {
        SetOutcome::Rejected { reason: SetRejection::Unavailable, report }
    }
}

/// Classifies a report on all replicas.
pub fn classify_set_report(report: SetReport) -> (outcome: SetOutcome)
    requires
        report.conflict_rejections > 0 || report.invalid_rejections > 0 || report.expected_replicas
            == 0 || report.acknowledged() <= usize::MAX,
    ensures
        outcome == outcome_of(report),
{
    if report.conflict_rejections > 0 {
        return SetOutcome::Rejected { reason: SetRejection::ReplicaConflict, report };
    }
    if report.invalid_rejections > 0 {
        return SetOutcome::Rejected { reason: SetRejection::InvalidRecord, report };
    }
    if report.expected_replicas == 0 {
        return SetOutcome::Rejected { reason: SetRejection::NoResponsibleNodes, report };
    }
    let acknowledged: usize = report.acknowledged_replicas();
    if acknowledged == report.expected_replicas {
        SetOutcome::Complete(report)
    } else if acknowledged > 0 {
        SetOutcome::Degraded(report)
    } else {
        let reason = if report.capacity_rejections > 0 {
            SetRejection::CapacityExceeded
        } else {
            SetRejection::Unavailable
        };
        SetOutcome::Rejected { reason, report }
    }
}

/// Classification keeps the report, and every kind of outcome means what it says: a
/// complete publication reached all of at least one expected replicas, a degraded one
/// some of them, and neither met a conflict or an invalid record.
pub proof fn law_classification_is_explicit(report: SetReport)
    ensures
        report_in(outcome_of(report)) == report,
        outcome_of(report) is Complete ==> report.acknowledged() == report.expected_replicas > 0,
        outcome_of(report) is Degraded ==> report.acknowledged() > 0 && report.acknowledged()
            != report.expected_replicas,
        outcome_of(report) !is Rejected ==> report.conflict_rejections == 0
            && report.invalid_rejections == 0,
{
}

/// Each kind of outcome comes exactly when it should. A conflict decides first and an
/// invalid record next; then a publication is complete if as many replicas as expected
/// acknowledged it, degraded if some did but not exactly as many, and rejected only if
/// none did: for want of room if any said so, and as unavailable otherwise.
pub proof fn law_every_outcome_has_its_cause(report: SetReport)
    ensures
        ({
            let outcome = outcome_of(report);
            let clean = report.conflict_rejections == 0 && report.invalid_rejections == 0
                && report.expected_replicas > 0;
            let holders = report.stored_replicas + report.already_present;
            &&& outcome == (SetOutcome::Rejected { reason: SetRejection::ReplicaConflict, report })
                <==> report.conflict_rejections > 0
            &&& outcome == (SetOutcome::Rejected { reason: SetRejection::InvalidRecord, report })
                <==> report.conflict_rejections == 0 && report.invalid_rejections > 0
            &&& outcome == (SetOutcome::Rejected {
                reason: SetRejection::NoResponsibleNodes,
                report,
            }) <==> report.conflict_rejections == 0 && report.invalid_rejections == 0
                && report.expected_replicas == 0
            &&& outcome == SetOutcome::Complete(report) <==> clean && holders
                == report.expected_replicas
            &&& outcome == SetOutcome::Degraded(report) <==> clean && holders > 0 && holders
                != report.expected_replicas
            &&& outcome == (SetOutcome::Rejected {
                reason: SetRejection::CapacityExceeded,
                report,
            }) <==> clean && holders == 0 && report.capacity_rejections > 0
            &&& outcome == (SetOutcome::Rejected { reason: SetRejection::Unavailable, report })
                <==> clean && holders == 0 && report.capacity_rejections == 0
        }),
{
}

/// Nobody who acknowledges a record makes a publication fail: with one more replica that
/// stored it, a complete or degraded publication is not rejected.
pub proof fn law_acknowledgement_never_rejects(report: SetReport)
    requires
        outcome_of(report) !is Rejected,
        report.stored_replicas < usize::MAX,
    ensures
        outcome_of(report.with(Some(StoreStatus::Stored))) !is Rejected,
{
}

/// A report starts with nothing but the number of replicas, every status raises its own
/// count by one, and no other changes.
pub proof fn law_each_status_has_its_count(expected: usize, report: SetReport)
    ensures
        ({
            let fresh = report_of(expected);
            &&& fresh.expected_replicas == expected
            &&& fresh.stored_replicas == 0 && fresh.already_present == 0
            &&& fresh.capacity_rejections == 0 && fresh.unavailable_nodes == 0
            &&& fresh.conflict_rejections == 0 && fresh.invalid_rejections == 0
        }),
        report.stored_replicas < usize::MAX ==> report.with(Some(StoreStatus::Stored)) == (
        SetReport { stored_replicas: (report.stored_replicas + 1) as usize, ..report }),
        report.already_present < usize::MAX ==> report.with(Some(StoreStatus::AlreadyStored)) == (
        SetReport { already_present: (report.already_present + 1) as usize, ..report }),
        report.capacity_rejections < usize::MAX ==> report.with(
            Some(StoreStatus::CapacityExceeded),
        ) == (SetReport {
            capacity_rejections: (report.capacity_rejections + 1) as usize,
            ..report
        }),
        report.conflict_rejections < usize::MAX ==> report.with(Some(StoreStatus::Conflict)) == (
        SetReport { conflict_rejections: (report.conflict_rejections + 1) as usize, ..report }),
        report.invalid_rejections < usize::MAX ==> report.with(Some(StoreStatus::InvalidRecord))
            == (SetReport {
            invalid_rejections: (report.invalid_rejections + 1) as usize,
            ..report
        }),
        report.unavailable_nodes < usize::MAX ==> report.with(None) == (SetReport {
            unavailable_nodes: (report.unavailable_nodes + 1) as usize,
            ..report
        }),
        report.acknowledged() == report.stored_replicas + report.already_present,
{
}

/// The nodes responsible for a record: the `k` closest to it among `remotes` and
/// `local`.
pub open spec fn are_responsible(
    local: Node,
    target: Node,
    remotes: Seq<Node>,
    k: nat,
    nodes: Seq<Node>,
) -> bool {
    node::are_closest(target, node::add_new(Seq::empty(), remotes.push(local)), k, nodes)
}

/// `nodes` without the one that has the id of `local`.
pub open spec fn others(nodes: Seq<Node>, local: Node) -> Seq<Node> {
    nodes.filter(|n: Node| n.id@ != local.id@)
}

/// `store_local` and `selected` split the nodes responsible for a record into this
/// one and the others, closest first.
pub open spec fn is_selection(
    local: Node,
    target: Node,
    remotes: Seq<Node>,
    k: nat,
    store_local: bool,
    selected: Seq<Node>,
) -> bool {
    exists|nodes: Seq<Node>|
        {
            &&& #[trigger] are_responsible(local, target, remotes, k, nodes)
            &&& store_local == node::id_among(nodes, local.id@)
            &&& selected == others(nodes, local)
        }
}

/// Selects the nodes responsible for `target`: whether this node is one of them, and
/// the others, closest first.
pub fn select_responsible_nodes(
    local_node: &Node,
    target: &Node,
    remote_nodes: Vec<Node>,
    ksize: usize,
) -> (selection: (bool, Vec<Node>))
    requires
        local_node.wf(),
        target.wf(),
        node::all_wf(remote_nodes@),
    ensures
        is_selection(
            *local_node,
            *target,
            remote_nodes@,
            ksize as nat,
            selection.0,
            selection.1@,
        ),
{
    let ghost remotes = remote_nodes@;
    let mut candidates = remote_nodes;
    candidates.push(local_node.clone());
    let mut heap = NodeHeap::new(target.clone(), ksize);
    heap.push(candidates);
    let nodes = heap.to_vec();
    let ghost is_other = |n: Node| n.id@ != local_node.id@;
    proof {
        node::lemma_add_new_grows(Seq::empty(), remotes.push(*local_node));
        assert(are_responsible(*local_node, *target, remotes, ksize as nat, nodes@));
    }
    let mut store_local = false;
    let mut selected: Vec<Node> = Vec::new();
    let mut i: usize = 0;
    assert(nodes@.take(0).filter(is_other) =~= Seq::<Node>::empty()) by {
        reveal(Seq::filter);
    }
    while i < nodes.len()
        invariant
            i <= nodes@.len(),
            is_other == (|n: Node| n.id@ != local_node.id@),
            selected@ == nodes@.take(i as int).filter(is_other),
            store_local <==> exists|j: int|
                0 <= j < i && (#[trigger] nodes@[j]).id@ == local_node.id@,
        decreases nodes@.len() - i,
    {
        proof {
            assert(nodes@.take(i + 1).drop_last() =~= nodes@.take(i as int));
            reveal(Seq::filter);
        }
        if id_eq(&nodes[i].id, &local_node.id) {
            store_local = true;
        } else {
            selected.push(nodes[i].clone());
        }
        i = i + 1;
    }
    assert(nodes@.take(i as int) =~= nodes@);
    (store_local, selected)
}

/// The nodes responsible for a record are a function of the candidates, and so is the
/// selection among them.
pub proof fn law_selection_is_unique(
    local: Node,
    target: Node,
    remotes: Seq<Node>,
    k: nat,
    a: (bool, Seq<Node>),
    b: (bool, Seq<Node>),
)
    requires
        local.wf(),
        node::all_wf(remotes),
        is_selection(local, target, remotes, k, a.0, a.1),
        is_selection(local, target, remotes, k, b.0, b.1),
    ensures
        a == b,
{
    let candidates = node::add_new(Seq::empty(), remotes.push(local));
    let nodes_a = choose|nodes: Seq<Node>|
        {
            &&& #[trigger] are_responsible(local, target, remotes, k, nodes)
            &&& a.0 == node::id_among(nodes, local.id@)
            &&& a.1 == others(nodes, local)
        };
    let nodes_b = choose|nodes: Seq<Node>|
        {
            &&& #[trigger] are_responsible(local, target, remotes, k, nodes)
            &&& b.0 == node::id_among(nodes, local.id@)
            &&& b.1 == others(nodes, local)
        };
    node::lemma_add_new(Seq::empty(), remotes.push(local));
    node::law_closest_unique(target, candidates, k, nodes_a, nodes_b);
}

/// This node and the selected others together are as many as there are candidates, but
/// at most `k`. The others come closest first, and this node is not among them.
pub proof fn law_selection_never_exceeds_k(
    local: Node,
    target: Node,
    remotes: Seq<Node>,
    k: nat,
    store_local: bool,
    selected: Seq<Node>,
)
    requires
        local.wf(),
        node::all_wf(remotes),
        is_selection(local, target, remotes, k, store_local, selected),
    ensures
        ({
            let candidates = node::add_new(Seq::empty(), remotes.push(local)).len();
            selected.len() + if store_local {
                1nat
            } else {
                0
            } == if k < candidates {
                k
            } else {
                candidates
            }
        }),
        node::ascending(target, selected),
        !node::id_among(selected, local.id@),
{
    let candidates = node::add_new(Seq::empty(), remotes.push(local));
    let nodes = choose|nodes: Seq<Node>|
        {
            &&& #[trigger] are_responsible(local, target, remotes, k, nodes)
            &&& store_local == node::id_among(nodes, local.id@)
            &&& selected == others(nodes, local)
        };
    node::lemma_add_new(Seq::empty(), remotes.push(local));
    assert forall|i: int| 0 <= i < nodes.len() implies (#[trigger] nodes[i]).wf() by {
        assert(candidates.contains(nodes[i]));
    }
    node::lemma_ascending_distinct(target, nodes);
    lemma_others(target, nodes, local);
}

proof fn lemma_others(target: Node, nodes: Seq<Node>, local: Node)
    requires
        node::ascending(target, nodes),
        node::distinct_ids(nodes),
    ensures
        others(nodes, local).len() + if node::id_among(nodes, local.id@) {
            1nat
        } else {
            0
        } == nodes.len(),
        node::ascending(target, others(nodes, local)),
        !node::id_among(others(nodes, local), local.id@),
        forall|i: int|
            0 <= i < others(nodes, local).len() ==> nodes.contains(
                #[trigger] others(nodes, local)[i],
            ),
    decreases nodes.len(),
{
    let keep = |n: Node| n.id@ != local.id@;
    reveal(Seq::filter);
    if nodes.len() > 0 {
        let shorter = nodes.drop_last();
        let last = nodes.len() - 1;
        assert forall|i: int, j: int|
            0 <= i < shorter.len() && 0 <= j < shorter.len() && i != j implies (
        #[trigger] shorter[i]).id@ != (#[trigger] shorter[j]).id@ by {
            assert(nodes[i].id@ != nodes[j].id@);
        }
        lemma_others(target, shorter, local);
        if nodes[last].id@ == local.id@ && node::id_among(shorter, local.id@) {
            let j = choose|j: int| 0 <= j < shorter.len() && (#[trigger] shorter[j]).id@ == local.id@;
            assert(nodes[j].id@ != nodes[last].id@);
        }
        let rest = others(shorter, local);
        let all = others(nodes, local);
        if node::id_among(shorter, local.id@) {
            let j = choose|j: int| 0 <= j < shorter.len() && (#[trigger] shorter[j]).id@ == local.id@;
            assert(nodes[j].id@ == local.id@);
        }
        if node::id_among(nodes, local.id@) && !node::id_among(shorter, local.id@) {
            let j = choose|j: int| 0 <= j < nodes.len() && (#[trigger] nodes[j]).id@ == local.id@;
            if j < shorter.len() {
                assert(shorter[j].id@ == local.id@);
            }
        }
        assert forall|i: int| 0 <= i < all.len() implies nodes.contains(#[trigger] all[i]) by {
            if i < rest.len() {
                assert(shorter.contains(rest[i]));
                let j = choose|j: int| 0 <= j < shorter.len() && shorter[j] == rest[i];
                assert(nodes[j] == all[i]);
            } else {
                assert(nodes[nodes.len() - 1] == all[i]);
            }
        }
        assert forall|i: int, j: int| 0 <= i < j < all.len() implies node::distance(
            target,
            #[trigger] all[i],
        ) < node::distance(target, #[trigger] all[j]) by {
            if j < rest.len() {
                assert(all[i] == rest[i] && all[j] == rest[j]);
            } else {
                assert(shorter.contains(rest[i]));
                let m = choose|m: int| 0 <= m < shorter.len() && shorter[m] == rest[i];
                assert(nodes[m] == all[i] && nodes[nodes.len() - 1] == all[j]);
            }
        }
    }
}

/// The selection takes no one but candidates and passes over none that is closer: every
/// selected node is one of the `remotes`, and one of them that is left out is farther from
/// the target than all that are selected, this node included. If this node is left out,
/// it is farther than all of them, too.
pub proof fn law_nobody_closer_is_passed_over(
    local: Node,
    target: Node,
    remotes: Seq<Node>,
    k: nat,
    store_local: bool,
    selected: Seq<Node>,
)
    requires
        local.wf(),
        node::all_wf(remotes),
        is_selection(local, target, remotes, k, store_local, selected),
    ensures
        forall|i: int| 0 <= i < selected.len() ==> remotes.contains(#[trigger] selected[i]),
        forall|c: int, i: int|
            #![trigger remotes[c], selected[i]]
            0 <= c < remotes.len() && 0 <= i < selected.len() && remotes[c].id@ != local.id@ && (
            forall|j: int| 0 <= j < selected.len() ==> (#[trigger] selected[j]).id@
                != remotes[c].id@) ==> node::distance(target, selected[i]) < node::distance(
                target,
                remotes[c],
            ),
        forall|c: int|
            store_local && 0 <= c < remotes.len() && (#[trigger] remotes[c]).id@ != local.id@ && (
            forall|j: int| 0 <= j < selected.len() ==> (#[trigger] selected[j]).id@
                != remotes[c].id@) ==> node::distance(target, local) < node::distance(
                target,
                remotes[c],
            ),
        forall|i: int|
            !store_local && 0 <= i < selected.len() ==> node::distance(target, #[trigger] selected[i])
                < node::distance(target, local),
        store_local || selected.len() == k,
{
    let all = remotes.push(local);
    let candidates = node::add_new(Seq::empty(), all);
    let nodes = choose|nodes: Seq<Node>|
        {
            &&& #[trigger] are_responsible(local, target, remotes, k, nodes)
            &&& store_local == node::id_among(nodes, local.id@)
            &&& selected == others(nodes, local)
        };
    assert(node::all_wf(all)) by {
        assert forall|i: int| 0 <= i < all.len() implies (#[trigger] all[i]).wf() by {
            if i < remotes.len() {
                assert(remotes[i].wf());
            }
        }
    }
    node::lemma_add_new(Seq::empty(), all);
    node::law_added_nodes_are_the_first_of_their_id(Seq::empty(), all);
    law_selection_never_exceeds_k(local, target, remotes, k, store_local, selected);
    assert forall|i: int| 0 <= i < nodes.len() implies (#[trigger] nodes[i]).wf() by {
        assert(candidates.contains(nodes[i]));
    }
    node::lemma_ascending_distinct(target, nodes);
    lemma_others(target, nodes, local);
    assert(all[remotes.len() as int] == local);
    // A node with the id of `local` stands for it.
    assert forall|n: Node| #[trigger] candidates.contains(n) && n.id@ == local.id@ implies node::distance(
        target,
        n,
    ) == node::distance(target, local) by {
        let m = choose|m: int| 0 <= m < candidates.len() && candidates[m] == n;
        assert(n.wf());
        node::law_distances_never_tie(target, n, local);
    }
    assert forall|i: int| 0 <= i < selected.len() implies remotes.contains(
        #[trigger] selected[i],
    ) by {
        assert(nodes.contains(selected[i]));
        let m = choose|m: int| 0 <= m < nodes.len() && nodes[m] == selected[i];
        assert(candidates.contains(nodes[m]));
        let j = choose|j: int| 0 <= j < all.len() && all[j] == nodes[m];
        assert(j < remotes.len());
        assert(remotes[j] == selected[i]);
    }
    assert forall|c: int|
        0 <= c < remotes.len() && (#[trigger] remotes[c]).id@ != local.id@ && (forall|j: int|
            0 <= j < selected.len() ==> (#[trigger] selected[j]).id@ != remotes[c].id@) implies {
        &&& forall|i: int|
            0 <= i < nodes.len() ==> node::distance(target, #[trigger] nodes[i]) < node::distance(
                target,
                remotes[c],
            )
    } by {
        assert(all[c] == remotes[c]);
        assert(node::id_among(all, remotes[c].id@));
        assert(node::id_among(candidates, remotes[c].id@));
        let m = choose|m: int|
            0 <= m < candidates.len() && (#[trigger] candidates[m]).id@ == remotes[c].id@;
        let first = candidates[m];
        assert(candidates.contains(first));
        node::law_distances_never_tie(target, first, remotes[c]);
        if nodes.contains(first) {
            let n = choose|n: int| 0 <= n < nodes.len() && nodes[n] == first;
            lemma_others_contains(nodes, local, n);
            let j = choose|j: int| 0 <= j < selected.len() && selected[j] == first;
            assert(selected[j].id@ == remotes[c].id@);
        }
    }
    assert forall|c: int, i: int|
        #![trigger remotes[c], selected[i]]
        0 <= c < remotes.len() && 0 <= i < selected.len() && remotes[c].id@ != local.id@ && (forall|
            j: int,
        |
            0 <= j < selected.len() ==> (#[trigger] selected[j]).id@ != remotes[c].id@) implies node::distance(
        target,
        selected[i],
    ) < node::distance(target, remotes[c]) by {
        assert(nodes.contains(selected[i]));
        let m = choose|m: int| 0 <= m < nodes.len() && nodes[m] == selected[i];
        assert(node::distance(target, nodes[m]) < node::distance(target, remotes[c]));
    }
    if store_local {
        let m = choose|m: int| 0 <= m < nodes.len() && (#[trigger] nodes[m]).id@ == local.id@;
        assert(candidates.contains(nodes[m]));
        assert(node::distance(target, nodes[m]) == node::distance(target, local));
    } else {
        assert(node::id_among(all, local.id@));
        assert(node::id_among(candidates, local.id@));
        let m = choose|m: int|
            0 <= m < candidates.len() && (#[trigger] candidates[m]).id@ == local.id@;
        let own = candidates[m];
        assert(candidates.contains(own));
        assert(!nodes.contains(own)) by {
            if nodes.contains(own) {
                let n = choose|n: int| 0 <= n < nodes.len() && nodes[n] == own;
                assert(nodes[n].id@ == local.id@);
            }
        }
        assert forall|i: int| 0 <= i < selected.len() implies node::distance(
            target,
            #[trigger] selected[i],
        ) < node::distance(target, local) by {
            assert(nodes.contains(selected[i]));
            let n = choose|n: int| 0 <= n < nodes.len() && nodes[n] == selected[i];
            assert(node::distance(target, nodes[n]) < node::distance(target, own));
        }
        if selected.len() != k {
            lemma_all_are_taken(candidates, nodes);
        }
    }
}

proof fn lemma_others_contains(nodes: Seq<Node>, local: Node, n: int)
    requires
        0 <= n < nodes.len(),
        nodes[n].id@ != local.id@,
    ensures
        others(nodes, local).contains(nodes[n]),
{
    broadcast use Seq::lemma_filter_contains;

    let keep = |node: Node| node.id@ != local.id@;
    assert(keep(nodes[n]));
    assert(nodes.filter(keep).contains(nodes[n]));
}

proof fn lemma_all_are_taken(candidates: Seq<Node>, nodes: Seq<Node>)
    requires
        candidates.len() == nodes.len(),
        node::distinct_ids(candidates),
        node::distinct_ids(nodes),
        forall|i: int| 0 <= i < nodes.len() ==> candidates.contains(#[trigger] nodes[i]),
    ensures
        forall|i: int| 0 <= i < candidates.len() ==> nodes.contains(#[trigger] candidates[i]),
{
    assert(candidates.no_duplicates()) by {
        assert forall|i: int, j: int|
            0 <= i < candidates.len() && 0 <= j < candidates.len() && i != j implies candidates[i]
            != candidates[j] by {
            assert(candidates[i].id@ != candidates[j].id@);
        }
    }
    assert(nodes.no_duplicates()) by {
        assert forall|i: int, j: int|
            0 <= i < nodes.len() && 0 <= j < nodes.len() && i != j implies nodes[i]
            != nodes[j] by {
            assert(nodes[i].id@ != nodes[j].id@);
        }
    }
    candidates.unique_seq_to_set();
    nodes.unique_seq_to_set();
    let a = nodes.to_set();
    let b = candidates.to_set();
    assert(a.subset_of(b)) by {
        assert forall|n: Node| a.contains(n) implies b.contains(n) by {
            let i = choose|i: int| 0 <= i < nodes.len() && nodes[i] == n;
            assert(candidates.contains(nodes[i]));
        }
    }
    vstd::set_lib::lemma_subset_equality(a, b);
    assert forall|i: int| 0 <= i < candidates.len() implies nodes.contains(
        #[trigger] candidates[i],
    ) by {
        assert(b.contains(candidates[i]));
        assert(a.contains(candidates[i]));
    }
}

/// Operational snapshot suitable for monitoring and language bindings.
#[derive(Debug, PartialEq, Eq)]
pub struct ServerStats {
    pub node_id: [u8; ID_LEN],
    pub listening: bool,
    pub routing_nodes: usize,
    pub storage_records: usize,
    pub storage_bytes: usize,
    pub max_storage_bytes: usize,
    pub signature_cache_entries: Option<u64>,
}

impl Clone for ServerStats {
    fn clone(&self) -> (copy: Self)
        ensures
            copy == *self,
    {
        ServerStats {
            node_id: self.node_id,
            listening: self.listening,
            routing_nodes: self.routing_nodes,
            storage_records: self.storage_records,
            storage_bytes: self.storage_bytes,
            max_storage_bytes: self.max_storage_bytes,
            signature_cache_entries: self.signature_cache_entries,
        }
    }
}

/// What a node is restored from.
#[derive(Debug)]
pub struct SavedState {
    pub ksize: usize,
    pub alpha: usize,
    /// The node id in hexadecimal.
    pub id: String,
    /// Addresses to start from.
    pub neighbors: Vec<(String, u16)>,
}

/// Age from which records are published again, in seconds.
pub const REPUBLISH_AGE: u64 = 3600;

/// The sum of `sizes`.
pub open spec fn total(sizes: Seq<usize>) -> nat
    decreases sizes.len(),
{
    if sizes.len() == 0 {
        0
    } else {
        total(sizes.drop_last()) + sizes.last() as nat
    }
}

proof fn lemma_total_prefix(sizes: Seq<usize>, n: int)
    requires
        0 <= n <= sizes.len(),
    ensures
        total(sizes.take(n)) <= total(sizes),
    decreases sizes.len() - n,
{
    if n < sizes.len() {
        lemma_total_prefix(sizes, n + 1);
        assert(sizes.take(n + 1).drop_last() =~= sizes.take(n));
    } else {
        assert(sizes.take(n) =~= sizes);
    }
}

/// The addresses of those of `nodes` that have one, in order.
pub open spec fn addresses(nodes: Seq<Node>) -> Seq<(String, u16)>
    decreases nodes.len(),
{
    if nodes.len() == 0 {
        Seq::empty()
    } else {
        match (nodes.last().ip, nodes.last().port) {
            (Some(ip), Some(port)) => addresses(nodes.drop_last()).push((ip, port)),
            _ => addresses(nodes.drop_last()),
        }
    }
}

/// `contact` is the contact behind a bootstrap address, where `reached` tells whether a
/// listening node got an answer from it.
pub open spec fn is_bootstrap_contact(
    reached: bool,
    addr: (String, u16),
    id_bytes: Seq<u8>,
    contact: Option<Node>,
) -> bool {
    match contact {
        Some(contact) => {
            &&& reached
            &&& contact.id@ == id_bytes
            &&& contact == node::node_of(contact.id, Some(addr.0), Some(addr.1))
        },
        None => !reached || id_bytes.len() != ID_LEN,
    }
}

/// A bootstrap address that was reached and gave an id becomes a contact, with that id and
/// under that address; no other does.
pub proof fn law_reached_address_becomes_a_contact(
    reached: bool,
    addr: (String, u16),
    id_bytes: Seq<u8>,
    contact: Option<Node>,
)
    requires
        is_bootstrap_contact(reached, addr, id_bytes, contact),
    ensures
        contact is Some <==> reached && id_bytes.len() == ID_LEN,
        contact matches Some(node) ==> node.id@ == id_bytes && node.ip == Some(addr.0) && node.port
            == Some(addr.1),
{
}

/// A state is saved exactly if the node listens and knows a neighbor with an address, and it
/// then holds the addresses of all of those.
pub proof fn law_state_is_saved_with_a_way_back(
    server: Server,
    neighbors: Seq<Node>,
    state: Option<SavedState>,
)
    requires
        server.is_saved(neighbors, state),
    ensures
        state is Some <==> server.protocol is Some && exists|i: int|
            0 <= i < neighbors.len() && (#[trigger] neighbors[i]).ip is Some && neighbors[i].port
                is Some,
        state matches Some(state) ==> {
            let reachable = neighbors.filter(|n: Node| n.ip is Some && n.port is Some);
            &&& state.ksize == server.ksize && state.alpha == server.alpha
            &&& state.neighbors@.len() == reachable.len()
            &&& forall|i: int|
                0 <= i < reachable.len() ==> reachable[i].ip == Some(
                    (#[trigger] state.neighbors@[i]).0,
                ) && reachable[i].port == Some(state.neighbors@[i].1)
        },
{
    let has = |n: Node| n.ip is Some && n.port is Some;
    broadcast use Seq::lemma_filter_pred, Seq::lemma_filter_contains;

    law_addresses_are_those_of_reachable_nodes(neighbors);
    if neighbors.filter(has).len() > 0 {
        let n = neighbors.filter(has)[0];
        assert(has(neighbors.filter(has)[0]));
        neighbors.lemma_filter_contains_rev(has, n);
        let i = choose|i: int| 0 <= i < neighbors.len() && neighbors[i] == n;
        assert(neighbors[i].ip is Some);
    }
    if exists|i: int|
        0 <= i < neighbors.len() && (#[trigger] neighbors[i]).ip is Some && neighbors[i].port
            is Some {
        let i = choose|i: int|
            0 <= i < neighbors.len() && (#[trigger] neighbors[i]).ip is Some && neighbors[i].port
                is Some;
        assert(has(neighbors[i]));
        assert(neighbors.filter(has).contains(neighbors[i]));
    }
}

/// `records` are the records of `store` that are due to be published again at `now`.
pub open spec fn is_republication(
    store: StoreState,
    now: u128,
    records: Seq<(Seq<u8>, Seq<u8>)>,
) -> bool {
    exists|all: Seq<(Seq<u8>, Seq<u8>)>|
        {
            &&& #[trigger] storage::lists(all, store.older_than(REPUBLISH_AGE, now))
            &&& records == all.filter(|pair: (Seq<u8>, Seq<u8>)| pair.0.len() == ID_LEN)
        }
}

/// Published again is every record that can be read, whose key is an id, and that was
/// written an hour ago or earlier, with its value, once.
pub proof fn law_old_records_are_published_again(
    store: StoreState,
    now: u128,
    records: Seq<(Seq<u8>, Seq<u8>)>,
    key: Seq<u8>,
    value: Seq<u8>,
)
    requires
        is_republication(store, now, records),
        store.records.contains_key(key) ==> store.records[key].1 <= now,
    ensures
        records.contains((key, value)) <==> store.value_at(key, now) == Some(value) && key.len()
            == ID_LEN && store.records[key].1 + 3_600_000_000_000 <= now,
        records.no_duplicates(),
{
    let due = store.older_than(REPUBLISH_AGE, now);
    let has_id = |pair: (Seq<u8>, Seq<u8>)| pair.0.len() == ID_LEN;
    let all = choose|all: Seq<(Seq<u8>, Seq<u8>)>|
        {
            &&& #[trigger] storage::lists(all, due)
            &&& records == all.filter(|pair: (Seq<u8>, Seq<u8>)| pair.0.len() == ID_LEN)
        };
    broadcast use Seq::lemma_filter_pred, Seq::lemma_filter_contains;

    storage::law_listing_holds_each_entry_once(all, due);
    assert(records == all.filter(has_id));
    lemma_filter_no_duplicates(all, has_id);
    if records.contains((key, value)) {
        let i = choose|i: int| 0 <= i < records.len() && records[i] == (key, value);
        assert(has_id(all.filter(has_id)[i]));
        all.lemma_filter_contains_rev(has_id, (key, value));
        assert(due.contains_key(key));
    }
    if due.contains_key(key) && due[key] == value && key.len() == ID_LEN {
        assert(all.contains((key, value)));
        let i = choose|i: int| 0 <= i < all.len() && all[i] == (key, value);
        assert(has_id(all[i]));
        assert(all.filter(has_id).contains(all[i]));
    }
}

proof fn lemma_filter_no_duplicates(
    all: Seq<(Seq<u8>, Seq<u8>)>,
    keep: spec_fn((Seq<u8>, Seq<u8>)) -> bool,
)
    requires
        all.no_duplicates(),
    ensures
        all.filter(keep).no_duplicates(),
    decreases all.len(),
{
    reveal(Seq::filter);
    if all.len() > 0 {
        let init = all.drop_last();
        lemma_filter_no_duplicates(init, keep);
        let kept = init.filter(keep);
        assert(!kept.contains(all.last())) by {
            if kept.contains(all.last()) {
                init.lemma_filter_contains_rev(keep, all.last());
                let i = choose|i: int| 0 <= i < init.len() && init[i] == all.last();
                assert(all[i] == all[all.len() - 1]);
            }
        }
        let more = all.filter(keep);
        assert forall|i: int, j: int|
            0 <= i < more.len() && 0 <= j < more.len() && i != j implies more[i] != more[j] by {
            if i < kept.len() && j < kept.len() {
                assert(kept[i] == more[i] && kept[j] == more[j]);
            } else if i < kept.len() {
                assert(kept.contains(kept[i]));
            } else if j < kept.len() {
                assert(kept.contains(kept[j]));
            }
        }
    }
}

/// A total takes in every bucket with its size.
pub proof fn law_total_takes_in_every_bucket(a: Seq<usize>, b: Seq<usize>, size: usize)
    ensures
        total(Seq::empty()) == 0,
        total(seq![size]) == size,
        total(a + b) == total(a) + total(b),
    decreases b.len(),
{
    reveal_with_fuel(total, 2);
    assert(seq![size].drop_last() =~= Seq::<usize>::empty());
    if b.len() > 0 {
        law_total_takes_in_every_bucket(a, b.drop_last(), size);
        assert((a + b).drop_last() =~= a + b.drop_last());
    } else {
        assert(a + b =~= a);
    }
}

/// Exactly the nodes with an IP and a port have an address to start from, and it is that
/// one. The order is kept.
pub proof fn law_addresses_are_those_of_reachable_nodes(nodes: Seq<Node>)
    ensures
        ({
            let reachable = nodes.filter(|n: Node| n.ip is Some && n.port is Some);
            &&& addresses(nodes).len() == reachable.len()
            &&& forall|i: int|
                0 <= i < reachable.len() ==> reachable[i].ip == Some(
                    (#[trigger] addresses(nodes)[i]).0,
                ) && reachable[i].port == Some(addresses(nodes)[i].1)
        }),
    decreases nodes.len(),
{
    reveal(Seq::filter);
    if nodes.len() > 0 {
        law_addresses_are_those_of_reachable_nodes(nodes.drop_last());
    }
}

/// A node of the network.
pub struct Server {
    /// Number of replicas per record.
    pub ksize: usize,
    /// Lookup concurrency, and the size of a consistency group.
    pub alpha: usize,
    pub storage: ForgetfulStorage,
    pub node: Node,
    /// Set once the node listens.
    pub protocol: Option<KademliaProtocol>,
    /// The key of the status list.
    pub status_list_key: String,
}

impl Server {
    /// The parts of the server are valid.
    pub open spec fn wf(&self) -> bool {
        &&& self.node.wf()
        &&& self.storage.wf()
        &&& self.protocol is Some ==> self.protocol->0.wf()
    }

    /// `state` is what is persisted of this node, given its neighbors.
    pub open spec fn is_saved(&self, neighbors: Seq<Node>, state: Option<SavedState>) -> bool {
        match state {
            Some(state) => {
                &&& state.ksize == self.ksize
                &&& state.alpha == self.alpha
                &&& state.id@ == text::hex_text(self.node.id@)
                &&& self.protocol is Some && state.neighbors@ == addresses(neighbors)
                &&& state.neighbors@.len() > 0
            },
            None => self.protocol is None || addresses(neighbors).len() == 0,
        }
    }

    /// Everything but the store is as in `other`.
    pub open spec fn same_but_storage(&self, other: &Server) -> bool {
        &&& self.ksize == other.ksize
        &&& self.alpha == other.alpha
        &&& self.node == other.node
        &&& self.protocol == other.protocol
        &&& self.status_list_key == other.status_list_key
    }

    /// Create a new server instance.
    ///
    /// - `ksize`: number of replicas per record.
    /// - `alpha`: lookup concurrency factor.
    /// - `node_id`: fixed node id; `None` picks one at random.
    /// - `storage`: custom storage; `None` uses one with the default lifetime.
    /// - `status_list_key`: the key of the status list.
    pub fn new(
        ksize: usize,
        alpha: usize,
        node_id: Option<[u8; ID_LEN]>,
        storage: Option<ForgetfulStorage>,
        status_list_key: String,
    ) -> (server: Self)
        requires
            storage is Some ==> storage->0.wf(),
        ensures
            server.wf(),
            server.ksize == ksize,
            server.alpha == alpha,
            server.protocol is None,
            server.status_list_key == status_list_key,
            match storage {
                Some(storage) => server.storage == storage,
                None => {
                    &&& server.storage@.records == storage::Records::empty()
                    &&& server.storage@.ttl == DEFAULT_TTL
                    &&& server.storage@.budget == DEFAULT_MAX_STORAGE_BYTES
                },
            },
            match node_id {
                Some(id) => server.node == node::node_of(id, None, None),
                None => {
                    &&& server.node == node::node_of(server.node.id, None, None)
                    &&& exists|seed: Seq<u8>|
                        seed.len() == 32 && server.node.id@ == #[trigger] utils::sha1_of(seed)
                },
            },
    {
        let storage = match storage {
            Some(storage) => storage,
            None => ForgetfulStorage::new(DEFAULT_TTL),
        };
        let node = match node_id {
            Some(id) => Node::from_id(id),
            None => {
                let seed = random_bytes(32);
                Node::from_id(digest_bytes(seed.as_slice()))
            },
        };
        Server { ksize, alpha, storage, node, protocol: None, status_list_key }
    }

    /// Sets up the protocol layer, once a socket is bound.
    pub fn listen(&mut self, now: u128)
        requires
            old(self).wf(),
        ensures
            final(self).wf(),
            final(self).ksize == old(self).ksize,
            final(self).alpha == old(self).alpha,
            final(self).storage == old(self).storage,
            final(self).node == old(self).node,
            final(self).status_list_key == old(self).status_list_key,
            final(self).protocol matches Some(protocol) && protocol@ == (ProtocolState {
                source: old(self).node,
                status_key: utils::digest_of(old(self).status_list_key@),
                strikes: Map::empty(),
                welcoming: Set::empty(),
                pending: Map::empty(),
                next_msg_id: 0,
                next_frag_id: 0,
                buffer: BufferState { slots: Map::empty(), last_gc: now },
            }),
    {
        let status_key = digest(self.status_list_key.as_str());
        self.protocol = Some(KademliaProtocol::new(self.node.clone(), status_key, now));
    }

    /// Whether `key` is the key of the status list.
    pub fn is_status_list(&self, key: &str) -> (yes: bool)
        ensures
            yes <==> key@ == self.status_list_key@,
    {
        str_eq(key, self.status_list_key.as_str())
    }

    /// The contact behind a bootstrap address, from what a ping to it gave.
    pub fn bootstrap_node(&self, addr: (String, u16), ok: bool, id_bytes: &[u8]) -> (contact: Option<
        Node,
    >)
        ensures
            is_bootstrap_contact(self.protocol is Some && ok, addr, id_bytes@, contact),
    {
        if self.protocol.is_none() || !ok {
            return None;
        }
        match id_from_slice(id_bytes) {
            Some(id) => Some(Node::new(id, Some(addr.0), Some(addr.1))),
            None => None,
        }
    }

    /// The addresses among the neighbors of this node, which are suitable for
    /// bootstrapping.
    pub fn bootstrappable_neighbors(&self, neighbors: &Vec<Node>) -> (list: Vec<(String, u16)>)
        ensures
            list@ == if self.protocol is Some {
                addresses(neighbors@)
            } else {
                Seq::empty()
            },
    {
        let mut list: Vec<(String, u16)> = Vec::new();
        if self.protocol.is_none() {
            return list;
        }
        let mut i: usize = 0;
        while i < neighbors.len()
            invariant
                i <= neighbors@.len(),
                list@ == addresses(neighbors@.take(i as int)),
            decreases neighbors@.len() - i,
        {
            assert(neighbors@.take(i + 1).drop_last() =~= neighbors@.take(i as int));
            if let Some(address) = neighbors[i].address() {
                list.push(address);
            }
            i = i + 1;
        }
        assert(neighbors@.take(i as int) =~= neighbors@);
        list
    }

    /// A point-in-time operational snapshot. `bucket_sizes` are the sizes of the
    /// buckets of the routing table, and `cache_entries` counts the cached signatures.
    pub fn stats(&self, bucket_sizes: &Vec<usize>, cache_entries: Option<u64>, now: u128) -> (stats:
        ServerStats)
        requires
            self.wf(),
            self.protocol is Some ==> total(bucket_sizes@) <= usize::MAX,
        ensures
            stats.node_id == self.node.id,
            stats.listening <==> self.protocol is Some,
            stats.routing_nodes == if self.protocol is Some {
                total(bucket_sizes@)
            } else {
                0
            },
            stats.storage_records == self.storage@.all_live(now).dom().len(),
            stats.storage_bytes == storage::total_bytes(self.storage@.records),
            stats.max_storage_bytes == self.storage@.budget,
            stats.signature_cache_entries == cache_entries,
    {
        let mut routing_nodes: usize = 0;
        if self.protocol.is_some() {
            let mut i: usize = 0;
            while i < bucket_sizes.len()
                invariant
                    i <= bucket_sizes@.len(),
                    total(bucket_sizes@) <= usize::MAX,
                    routing_nodes == total(bucket_sizes@.take(i as int)),
                decreases bucket_sizes@.len() - i,
            {
                proof {
                    assert(bucket_sizes@.take(i + 1).drop_last() =~= bucket_sizes@.take(i as int));
                    lemma_total_prefix(bucket_sizes@, i + 1);
                }
                routing_nodes = routing_nodes + bucket_sizes[i];
                i = i + 1;
            }
            assert(bucket_sizes@.take(i as int) =~= bucket_sizes@);
        }
        let live = self.storage.iter_all_at(now);
        proof {
            storage::lemma_lists_len(storage::pairs(live@), self.storage@.all_live(now));
        }
        ServerStats {
            node_id: self.node.id,
            listening: self.protocol.is_some(),
            routing_nodes,
            storage_records: live.len(),
            storage_bytes: self.storage.current_storage_bytes(),
            max_storage_bytes: self.storage.max_storage_bytes(),
            signature_cache_entries: cache_entries,
        }
    }

    /// The state to persist, or `None` if there is no neighbor to start from again.
    pub fn save_state(&self, neighbors: &Vec<Node>) -> (state: Option<SavedState>)
        ensures
            self.is_saved(neighbors@, state),
    {
        let list = self.bootstrappable_neighbors(neighbors);
        if list.is_empty() {
            return None;
        }
        Some(
            SavedState {
                ksize: self.ksize,
                alpha: self.alpha,
                id: hex_encode(self.node.id.as_slice()),
                neighbors: list,
            },
        )
    }

    /// The records that are due to be published again.
    pub fn republication(&self, now: u128) -> (records: Vec<([u8; ID_LEN], Vec<u8>)>)
        ensures
            is_republication(self.storage@, now, storage::id_pairs(records@)),
    {
        let all = self.storage.iter_older_than_at(REPUBLISH_AGE, now);
        id_records(&all)
    }
}

/// How a lookup goes on.
#[derive(Debug)]
pub enum GetStep {
    /// The value is here. It is the result if it passes verification.
    Local(Vec<u8>),
    /// Nobody can be asked: there is no result.
    Unavailable,
    /// Ask the network for the record `target`, starting from the nodes that are
    /// known closest to it. A value is the candidate if it gets `minimum_votes` out of
    /// `sample_size`, the `initial_values` counting as votes.
    Crawl {
        target: Node,
        initial_values: Vec<Vec<u8>>,
        minimum_votes: usize,
        sample_size: usize,
    },
}

/// Whether a record to be published is already out.
#[derive(Debug)]
pub enum PublishLookup {
    /// It is not. These are the closest nodes found on the way.
    Missing(Vec<Node>),
    /// It is.
    Identical,
    /// Another record is out under its key.
    Conflict,
    /// It is not, and the closest nodes are still to be found.
    Rediscover,
}

/// How the check for a record that is already out goes on.
#[derive(Debug)]
pub enum PublishStep {
    /// It is decided.
    Done(PublishLookup),
    /// Ask the network for the record, starting from the nodes known closest to it.
    Crawl,
}

/// How a publication goes on.
#[derive(Debug)]
pub enum SetStep {
    /// It is over.
    Rejected(SetOutcome),
    /// The record goes to the nodes responsible for it, chosen from these.
    Publish(Vec<Node>),
    /// The closest nodes are to be found, and the record goes to those responsible.
    Discover,
}

/// A publication of which the local part is done.
#[derive(Debug)]
pub struct Publication {
    /// This node is one of the replicas.
    pub store_local: bool,
    /// What was counted so far.
    pub report: SetReport,
    /// The other nodes that the record goes to.
    pub remotes: Vec<Node>,
}

/// What has to be verified before an update is published.
#[derive(Debug, Clone, Copy, PartialEq, Eq, Structural)]
pub enum UpdateStep {
    /// Nothing: there is no record to update.
    NotFound,
    /// That the issuer signed the new record.
    Issuer,
    /// That the new record belongs to the key and that the owner of the present one
    /// authorised it.
    Owner,
}

/// An update of which the replicas are chosen.
#[derive(Debug)]
pub struct UpdatePlan {
    /// This node is one of the replicas.
    pub store_local: bool,
    /// The other replicas, closest first.
    pub remotes: Vec<Node>,
}

/// The larger of `alpha` and one.
pub open spec fn sample_size(alpha: nat) -> nat {
    if alpha == 0 {
        1
    } else {
        alpha
    }
}

/// More than half of `n`.
pub open spec fn majority(n: nat) -> nat {
    n / 2 + 1
}

/// Two majorities have a member in common, and with one member less that is not so.
pub proof fn law_majorities_overlap(n: nat)
    ensures
        2 * majority(n) > n,
        2 * (majority(n) - 1) <= n,
        n > 0 ==> majority(n) <= n,
{
}

/// A sample is as large as the lookup concurrency, but never empty.
pub proof fn law_sample_is_never_empty(alpha: nat)
    ensures
        sample_size(alpha) >= 1,
        alpha >= 1 ==> sample_size(alpha) == alpha,
        alpha == 0 ==> sample_size(alpha) == 1,
{
}

/// The number of `true`s.
pub open spec fn count_true(flags: Seq<bool>) -> nat
    decreases flags.len(),
{
    if flags.len() == 0 {
        0
    } else {
        count_true(flags.drop_last()) + if flags.last() {
            1nat
        } else {
            0
        }
    }
}

/// How many of the `remotes` count toward the consistency group: the group has
/// `alpha` members, this node among them if it is a replica.
pub open spec fn primary_count(alpha: nat, store_local: bool, remotes: nat) -> nat {
    let room = if store_local && alpha > 0 {
        (alpha - 1) as nat
    } else {
        alpha
    };
    if room < remotes {
        room
    } else {
        remotes
    }
}

/// A majority of the consistency group acknowledged an update, where `results` are the
/// answers of the other replicas, closest first, and this node's prospective vote
/// counts if it is a replica.
pub open spec fn quorum_met(alpha: nat, store_local: bool, results: Seq<bool>) -> bool {
    let local = if store_local {
        1nat
    } else {
        0
    };
    let primary = primary_count(alpha, store_local, results.len());
    local + primary > 0 && local + count_true(results.take(primary as int)) >= majority(
        local + primary,
    )
}

/// The store after an update of `key`, and whether the update stands. It is stored here
/// only if this node is a replica and a majority acknowledged it.
pub open spec fn committed(
    store: StoreState,
    alpha: nat,
    store_local: bool,
    results: Seq<bool>,
    key: Seq<u8>,
    value: Seq<u8>,
    now: u128,
) -> (StoreState, bool) {
    let met = quorum_met(alpha, store_local, results);
    if met && store_local {
        let (after, status) = store.after_set(key, value, now);
        (after, status !is CapacityExceeded)
    } else {
        (store, met)
    }
}

/// An update that does not stand leaves the local record as it was.
pub proof fn law_failed_update_keeps_the_record(
    store: StoreState,
    alpha: nat,
    store_local: bool,
    results: Seq<bool>,
    key: Seq<u8>,
    value: Seq<u8>,
    now: u128,
)
    ensures
        ({
            let (after, stands) = committed(store, alpha, store_local, results, key, value, now);
            !stands ==> after == store
        }),
{
}

/// An update that stands is readable here at once if this node is a replica.
pub proof fn law_standing_update_is_committed(
    store: StoreState,
    alpha: nat,
    results: Seq<bool>,
    key: Seq<u8>,
    value: Seq<u8>,
    now: u128,
)
    ensures
        ({
            let (after, stands) = committed(store, alpha, true, results, key, value, now);
            stands ==> after.value_at(key, now) == Some(value)
        }),
{
}

/// This node's own prospective vote never carries an update as long as another replica
/// has a vote.
pub proof fn law_local_vote_alone_is_no_quorum(alpha: nat, results: Seq<bool>)
    requires
        primary_count(alpha, true, results.len()) > 0,
        count_true(results.take(primary_count(alpha, true, results.len()) as int)) == 0,
    ensures
        !quorum_met(alpha, true, results),
{
}

/// Counting acknowledgements is counting those among the answers that are positive.
pub proof fn law_every_acknowledgement_counts_once(flags: Seq<bool>)
    ensures
        count_true(flags) == flags.filter(|flag: bool| flag).len(),
    decreases flags.len(),
{
    reveal(Seq::filter);
    if flags.len() > 0 {
        law_every_acknowledgement_counts_once(flags.drop_last());
    }
}

/// The consistency group leaves out a replica only when it has `alpha` members without
/// it, and has no more than that, but for this node, which is always in it.
pub proof fn law_group_takes_in_as_many_as_it_may(alpha: nat, store_local: bool, remotes: nat)
    ensures
        ({
            let primary = primary_count(alpha, store_local, remotes);
            let members = primary + if store_local {
                1nat
            } else {
                0
            };
            &&& primary <= remotes
            &&& primary > 0 ==> members <= alpha
            &&& primary < remotes ==> members >= alpha
        }),
{
}

/// An update stands with the group exactly if more than half of its members are for it,
/// where this node, if it is a replica, is a member and is for it. The group is this
/// node and the first `primary` of the others, as many as fit into `alpha` members.
pub proof fn law_more_than_half_of_the_group_decides(
    alpha: nat,
    store_local: bool,
    results: Seq<bool>,
    primary: nat,
)
    requires
        primary <= results.len(),
        primary > 0 ==> primary + (if store_local {
            1nat
        } else {
            0
        }) <= alpha,
        primary < results.len() ==> primary + (if store_local {
            1nat
        } else {
            0
        }) >= alpha,
    ensures
        ({
            let local = if store_local {
                1nat
            } else {
                0
            };
            let votes = local + results.take(primary as int).filter(|vote: bool| vote).len();
            quorum_met(alpha, store_local, results) <==> 2 * votes > local + primary
        }),
{
    law_group_takes_in_as_many_as_it_may(alpha, store_local, results.len());
    law_every_acknowledgement_counts_once(results.take(primary as int));
    results.take(primary as int).lemma_filter_len(|vote: bool| vote);
}

/// One more acknowledgement never turns an update that stands with the group into one
/// that does not.
pub proof fn law_more_acknowledgements_never_hurt(
    alpha: nat,
    store_local: bool,
    results: Seq<bool>,
    i: int,
)
    requires
        0 <= i < results.len(),
        quorum_met(alpha, store_local, results),
    ensures
        quorum_met(alpha, store_local, results.update(i, true)),
{
    let primary = primary_count(alpha, store_local, results.len()) as int;
    if i < primary {
        assert(results.update(i, true).take(primary) =~= results.take(primary).update(i, true));
        lemma_count_update(results.take(primary), i);
    } else {
        assert(results.update(i, true).take(primary) =~= results.take(primary));
    }
}

proof fn lemma_count_update(flags: Seq<bool>, i: int)
    requires
        0 <= i < flags.len(),
    ensures
        count_true(flags) <= count_true(flags.update(i, true)),
    decreases flags.len(),
{
    let after = flags.update(i, true);
    if i < flags.len() - 1 {
        lemma_count_update(flags.drop_last(), i);
        assert(after.drop_last() =~= flags.drop_last().update(i, true));
    } else {
        assert(after.drop_last() =~= flags.drop_last());
    }
}

/// What becomes of an update at this node: a node that is no replica keeps its store
/// and goes by the group; a replica whose group is for the update writes it, which
/// stands unless there is no room; otherwise nothing is written.
pub proof fn law_update_is_written_at_replicas_only(
    store: StoreState,
    alpha: nat,
    store_local: bool,
    results: Seq<bool>,
    key: Seq<u8>,
    value: Seq<u8>,
    now: u128,
)
    requires
        store.ok(),
    ensures
        ({
            let (after, stands) = committed(store, alpha, store_local, results, key, value, now);
            let met = quorum_met(alpha, store_local, results);
            let with = store.records.insert(key, (value, now));
            &&& !store_local ==> after == store && stands == met
            &&& store_local ==> (stands <==> met && storage::total_bytes(with) <= store.budget)
            &&& store_local && stands ==> after.records == with
            &&& !stands ==> after == store
            &&& after.ttl == store.ttl && after.budget == store.budget
        }),
{
    storage::law_write_is_refused_only_for_want_of_room(store, key, value, now);
}

/// Replicas outside of the consistency group do not decide.
pub proof fn law_late_replicas_do_not_decide(
    alpha: nat,
    store_local: bool,
    a: Seq<bool>,
    b: Seq<bool>,
)
    requires
        a.len() == b.len(),
        ({
            let primary = primary_count(alpha, store_local, a.len()) as int;
            a.take(primary) == b.take(primary)
        }),
    ensures
        quorum_met(alpha, store_local, a) == quorum_met(alpha, store_local, b),
{
}

/// A replica with this status holds the record.
pub open spec fn holds_record(status: Option<StoreStatus>) -> bool {
    status == Some(StoreStatus::Stored) || status == Some(StoreStatus::AlreadyStored)
}

proof fn lemma_report(start: SetReport, statuses: Seq<Option<StoreStatus>>)
    requires
        start.counted() + statuses.len() <= usize::MAX,
    ensures
        ({
            let report = start.with_all(statuses);
            &&& report.expected_replicas == start.expected_replicas
            &&& report.counted() == start.counted() + statuses.len()
            &&& report.acknowledged() <= start.acknowledged() + statuses.len()
            &&& report.acknowledged() == start.acknowledged() + statuses.len() <==> forall|i: int|
                0 <= i < statuses.len() ==> holds_record(#[trigger] statuses[i])
            &&& report.conflict_rejections >= start.conflict_rejections
            &&& report.conflict_rejections > start.conflict_rejections <==> exists|i: int|
                0 <= i < statuses.len() && #[trigger] statuses[i] == Some(StoreStatus::Conflict)
        }),
    decreases statuses.len(),
{
    if statuses.len() > 0 {
        let shorter = statuses.drop_last();
        lemma_report(start, shorter);
        let last = statuses.len() - 1;
        if forall|i: int| 0 <= i < statuses.len() ==> holds_record(#[trigger] statuses[i]) {
            assert forall|i: int| 0 <= i < shorter.len() implies holds_record(
                #[trigger] shorter[i],
            ) by {
                assert(holds_record(statuses[i]));
            }
            assert(holds_record(statuses[last]));
        }
        if (forall|i: int| 0 <= i < shorter.len() ==> holds_record(#[trigger] shorter[i]))
            && holds_record(statuses[last]) {
            assert forall|i: int| 0 <= i < statuses.len() implies holds_record(
                #[trigger] statuses[i],
            ) by {
                if i < last {
                    assert(holds_record(shorter[i]));
                }
            }
        }
        if exists|i: int|
            0 <= i < shorter.len() && #[trigger] shorter[i] == Some(StoreStatus::Conflict) {
            let i = choose|i: int|
                0 <= i < shorter.len() && #[trigger] shorter[i] == Some(StoreStatus::Conflict);
            assert(statuses[i] == Some(StoreStatus::Conflict));
        }
        if exists|i: int|
            0 <= i < statuses.len() && #[trigger] statuses[i] == Some(StoreStatus::Conflict) {
            let i = choose|i: int|
                0 <= i < statuses.len() && #[trigger] statuses[i] == Some(StoreStatus::Conflict);
            if i < last {
                assert(shorter[i] == Some(StoreStatus::Conflict));
            }
        }
    }
}

/// A status that is counted ahead of the others counts like them.
pub proof fn law_order_of_counting(
    start: SetReport,
    first: Option<StoreStatus>,
    rest: Seq<Option<StoreStatus>>,
)
    ensures
        start.with(first).with_all(rest) == start.with_all(seq![first] + rest),
    decreases rest.len(),
{
    let all = seq![first] + rest;
    if rest.len() == 0 {
        assert(all.drop_last() =~= Seq::empty());
        reveal_with_fuel(SetReport::with_all, 2);
    } else {
        law_order_of_counting(start, first, rest.drop_last());
        assert(all.drop_last() =~= seq![first] + rest.drop_last());
    }
}

/// A publication is complete exactly if every responsible replica holds the record, and
/// one that any replica has another record for is rejected.
pub proof fn law_complete_means_every_replica(statuses: Seq<Option<StoreStatus>>)
    requires
        0 < statuses.len() <= usize::MAX,
    ensures
        ({
            let outcome = outcome_of(report_of(statuses.len() as usize).with_all(statuses));
            &&& outcome is Complete <==> forall|i: int|
                0 <= i < statuses.len() ==> holds_record(#[trigger] statuses[i])
            &&& (exists|i: int|
                0 <= i < statuses.len() && #[trigger] statuses[i] == Some(StoreStatus::Conflict))
                ==> (outcome matches SetOutcome::Rejected { reason, .. } && reason
                == SetRejection::ReplicaConflict)
        }),
{
    lemma_report(report_of(statuses.len() as usize), statuses);
}

/// A publication on at least one replica goes by what the replicas say: any conflict
/// rejects it, then any invalid record; without those it is degraded exactly if some
/// replica holds the record and some does not, and rejected exactly if none does, for want
/// of room if any replica had none.
pub proof fn law_outcome_follows_from_the_statuses(statuses: Seq<Option<StoreStatus>>)
    requires
        0 < statuses.len() <= usize::MAX,
    ensures
        ({
            let outcome = outcome_of(report_of(statuses.len() as usize).with_all(statuses));
            let stored = Some(StoreStatus::Stored);
            let present = Some(StoreStatus::AlreadyStored);
            let some_hold = statuses.contains(stored) || statuses.contains(present);
            let all_hold = forall|i: int|
                0 <= i < statuses.len() ==> #[trigger] statuses[i] == stored || statuses[i]
                    == present;
            let spoilt = statuses.contains(Some(StoreStatus::Conflict)) || statuses.contains(
                Some(StoreStatus::InvalidRecord),
            );
            &&& statuses.contains(Some(StoreStatus::Conflict)) <==> (
            outcome matches SetOutcome::Rejected { reason, .. } && reason
                == SetRejection::ReplicaConflict)
            &&& !statuses.contains(Some(StoreStatus::Conflict)) && statuses.contains(
                Some(StoreStatus::InvalidRecord),
            ) <==> (outcome matches SetOutcome::Rejected { reason, .. } && reason
                == SetRejection::InvalidRecord)
            &&& outcome is Complete <==> all_hold
            &&& outcome is Degraded <==> !spoilt && some_hold && !all_hold
            &&& !spoilt && !some_hold && statuses.contains(Some(StoreStatus::CapacityExceeded))
                <==> (outcome matches SetOutcome::Rejected { reason, .. } && reason
                == SetRejection::CapacityExceeded)
            &&& !spoilt && !some_hold && !statuses.contains(Some(StoreStatus::CapacityExceeded))
                <==> (outcome matches SetOutcome::Rejected { reason, .. } && reason
                == SetRejection::Unavailable)
        }),
{
    let start = report_of(statuses.len() as usize);
    let stored = Some(StoreStatus::Stored);
    let present = Some(StoreStatus::AlreadyStored);
    law_short_lists_fit(start, statuses);
    law_report_counts_occurrences(start, statuses, stored);
    law_report_counts_occurrences(start, statuses, present);
    law_report_counts_occurrences(start, statuses, Some(StoreStatus::CapacityExceeded));
    law_report_counts_occurrences(start, statuses, Some(StoreStatus::Conflict));
    law_report_counts_occurrences(start, statuses, Some(StoreStatus::InvalidRecord));
    law_occurrences_are_counted(statuses, stored);
    law_occurrences_are_counted(statuses, present);
    law_occurrences_are_counted(statuses, Some(StoreStatus::CapacityExceeded));
    law_occurrences_are_counted(statuses, Some(StoreStatus::Conflict));
    law_occurrences_are_counted(statuses, Some(StoreStatus::InvalidRecord));
    lemma_report(start, statuses);
    if forall|i: int|
        0 <= i < statuses.len() ==> #[trigger] statuses[i] == stored || statuses[i] == present {
        assert(statuses[0] == stored || statuses[0] == present);
        assert forall|i: int| 0 <= i < statuses.len() implies holds_record(
            #[trigger] statuses[i],
        ) by {}
    }
    if forall|i: int| 0 <= i < statuses.len() ==> holds_record(#[trigger] statuses[i]) {
        assert forall|i: int| 0 <= i < statuses.len() implies #[trigger] statuses[i] == stored
            || statuses[i] == present by {
            assert(holds_record(statuses[i]));
        }
    }
}

/// A status is counted as often as it is among the statuses; in particular it is counted
/// at all exactly if it is there.
pub proof fn law_occurrences_are_counted(
    statuses: Seq<Option<StoreStatus>>,
    status: Option<StoreStatus>,
)
    ensures
        occurrences(statuses, status) == statuses.filter(
            |other: Option<StoreStatus>| other == status,
        ).len(),
        occurrences(statuses, status) > 0 <==> statuses.contains(status),
    decreases statuses.len(),
{
    reveal(Seq::filter);
    if statuses.len() > 0 {
        let init = statuses.drop_last();
        law_occurrences_are_counted(init, status);
        assert(statuses[statuses.len() - 1] == statuses.last());
        if init.contains(status) {
            let i = choose|i: int| 0 <= i < init.len() && init[i] == status;
            assert(statuses[i] == status);
        }
        if statuses.contains(status) && statuses.last() != status {
            let i = choose|i: int| 0 <= i < statuses.len() && statuses[i] == status;
            assert(init[i] == status);
        }
    }
}

/// A rejection before any replica was asked.
pub open spec fn rejection(reason: SetRejection) -> SetOutcome {
    SetOutcome::Rejected { reason, report: report_of(0) }
}

proof fn lemma_occurrences_prefix(
    statuses: Seq<Option<StoreStatus>>,
    status: Option<StoreStatus>,
    n: int,
)
    requires
        0 <= n <= statuses.len(),
    ensures
        occurrences(statuses.take(n), status) <= occurrences(statuses, status),
    decreases statuses.len() - n,
{
    if n < statuses.len() {
        lemma_occurrences_prefix(statuses, status, n + 1);
        assert(statuses.take(n + 1).drop_last() =~= statuses.take(n));
    } else {
        assert(statuses.take(n) =~= statuses);
    }
}

proof fn lemma_occurrences_len(
    statuses: Seq<Option<StoreStatus>>,
    a: Option<StoreStatus>,
    b: Option<StoreStatus>,
)
    ensures
        occurrences(statuses, a) <= statuses.len(),
        a != b ==> occurrences(statuses, a) + occurrences(statuses, b) <= statuses.len(),
    decreases statuses.len(),
{
    if statuses.len() > 0 {
        lemma_occurrences_len(statuses.drop_last(), a, b);
    }
}

/// A report has room for as many statuses as all its counts together leave.
pub proof fn law_short_lists_fit(start: SetReport, statuses: Seq<Option<StoreStatus>>)
    requires
        start.counted() + statuses.len() <= usize::MAX,
    ensures
        start.has_room_for(statuses),
{
    let stored = Some(StoreStatus::Stored);
    let present = Some(StoreStatus::AlreadyStored);
    lemma_occurrences_len(statuses, stored, present);
    assert forall|status: Option<StoreStatus>|
        start.counter(status) + #[trigger] occurrences(statuses, status) <= usize::MAX by {
        lemma_occurrences_len(statuses, status, stored);
    }
}

/// A report counts every status as often as it occurs, and expects what it expected.
pub proof fn law_report_counts_occurrences(
    start: SetReport,
    statuses: Seq<Option<StoreStatus>>,
    status: Option<StoreStatus>,
)
    requires
        start.has_room_for(statuses),
    ensures
        start.with_all(statuses).counter(status) == start.counter(status) + occurrences(
            statuses,
            status,
        ),
        start.with_all(statuses).expected_replicas == start.expected_replicas,
    decreases statuses.len(),
{
    if statuses.len() > 0 {
        let init = statuses.drop_last();
        let last = statuses.last();
        assert(start.counter(last) + occurrences(statuses, last) <= usize::MAX);
        assert forall|other: Option<StoreStatus>|
            start.counter(other) + #[trigger] occurrences(init, other) <= usize::MAX by {
            assert(start.counter(other) + occurrences(statuses, other) <= usize::MAX);
        }
        law_report_counts_occurrences(start, init, status);
        law_report_counts_occurrences(start, init, last);
    }
}

/// What a finished publication amounts to, given the answers of the other replicas.
pub fn finish_publication(report: SetReport, statuses: &Vec<Option<StoreStatus>>) -> (outcome:
    SetOutcome)
    requires
        report.has_room_for(statuses@),
    ensures
        outcome == outcome_of(report.with_all(statuses@)),
{
    let ghost start = report;
    let mut report = report;
    let mut i: usize = 0;
    while i < statuses.len()
        invariant
            i <= statuses@.len(),
            report == start.with_all(statuses@.take(i as int)),
            start.has_room_for(statuses@),
        decreases statuses@.len() - i,
    {
        proof {
            let next = statuses@.take(i + 1);
            let status = statuses@[i as int];
            assert(next.drop_last() =~= statuses@.take(i as int));
            lemma_room_for_prefix(start, statuses@, i as int);
            law_report_counts_occurrences(start, statuses@.take(i as int), status);
            lemma_occurrences_prefix(statuses@, status, i + 1);
            assert(start.counter(status) + occurrences(statuses@, status) <= usize::MAX);
        }
        report.record_status(statuses[i]);
        i = i + 1;
    }
    proof {
        assert(statuses@.take(i as int) =~= statuses@);
        law_report_counts_occurrences(start, statuses@, Some(StoreStatus::Stored));
        law_report_counts_occurrences(start, statuses@, Some(StoreStatus::AlreadyStored));
    }
    classify_set_report(report)
}

proof fn lemma_room_for_prefix(start: SetReport, statuses: Seq<Option<StoreStatus>>, n: int)
    requires
        start.has_room_for(statuses),
        0 <= n <= statuses.len(),
    ensures
        start.has_room_for(statuses.take(n)),
{
    assert forall|status: Option<StoreStatus>|
        start.counter(status) + #[trigger] occurrences(statuses.take(n), status)
            <= usize::MAX by {
        lemma_occurrences_prefix(statuses, status, n);
        assert(start.counter(status) + occurrences(statuses, status) <= usize::MAX);
    }
    lemma_occurrences_prefix(statuses, Some(StoreStatus::Stored), n);
    lemma_occurrences_prefix(statuses, Some(StoreStatus::AlreadyStored), n);
}

/// `lookup` is what a search for a record gave before `value` is published: `found` is what
/// the network has, and `nodes` are the closest nodes that a search in vain came by.
pub open spec fn is_publish_lookup(
    value: Seq<u8>,
    found: Option<Vec<u8>>,
    verified: bool,
    nodes: Vec<Node>,
    lookup: PublishLookup,
) -> bool {
    match found {
        Some(found) => if !verified {
            lookup is Rediscover
        } else if found@ == value {
            lookup is Identical
        } else {
            lookup is Conflict
        },
        None => lookup == PublishLookup::Missing(nodes),
    }
}

/// The summary of a publication: whether it is complete, or nothing if the record is at
/// fault.
pub open spec fn summary_of(outcome: SetOutcome) -> Option<bool> {
    match outcome {
        SetOutcome::Complete(_) => Some(true),
        SetOutcome::Degraded(_) => Some(false),
        SetOutcome::Rejected { reason, .. } => if reason is ExistingRecord || reason is InvalidRecord
            || reason is ReplicaConflict {
            None
        } else {
            Some(false)
        },
    }
}

/// The local part of `publication` is done: it took the store from `store` to `after`.
pub open spec fn is_started(
    store: StoreState,
    key: Seq<u8>,
    value: Seq<u8>,
    now: u128,
    publication: Publication,
    after: StoreState,
) -> bool {
    if publication.store_local {
        let (with, status) = store.after_insert_if_absent(key, value, now);
        &&& after == with
        &&& publication.report == report_of((publication.remotes@.len() + 1) as usize).with(
            Some(protocol::status_of(status)),
        )
    } else {
        &&& after == store
        &&& publication.report == report_of(publication.remotes@.len() as usize)
    }
}

impl Server {
    /// The key of the record is the status list's.
    pub open spec fn is_status(&self, key: Seq<char>) -> bool {
        key == self.status_list_key@
    }

    /// The root of trust for the record `key`.
    pub open spec fn domain_of(&self, key: Seq<char>) -> VerificationDomain {
        if self.is_status(key) {
            VerificationDomain::IssuerSigned
        } else {
            VerificationDomain::SelfSigned
        }
    }

    /// The value stored here under `key`.
    pub open spec fn local_value(&self, key: Seq<char>, now: u128) -> Option<Seq<u8>> {
        self.storage@.value_at(utils::digest_of(key), now)
    }

    /// `store_local` and `remotes` are the replicas of the record `dkey`, chosen from this
    /// node and `nodes`.
    pub open spec fn are_replicas(
        &self,
        dkey: [u8; ID_LEN],
        nodes: Seq<Node>,
        store_local: bool,
        remotes: Seq<Node>,
    ) -> bool {
        is_selection(
            self.node,
            node::node_of(dkey, None, None),
            nodes,
            self.ksize as nat,
            store_local,
            remotes,
        )
    }

    /// `call` is the request of `sender_id` that updates the record `key` at `peer`.
    pub open spec fn is_update_call(
        &self,
        sender_id: [u8; ID_LEN],
        peer: Node,
        key: Seq<char>,
        dkey: [u8; ID_LEN],
        value: Vec<u8>,
        auth_signature: Option<Vec<u8>>,
        call: Option<OutgoingCall>,
    ) -> bool {
        if self.is_status(key) {
            call == protocol::outgoing(
                peer,
                RpcMessage::UpdateStatusList { sender_id, key: dkey, value },
            )
        } else {
            exists|signature: Vec<u8>|
                {
                    &&& call == #[trigger] protocol::outgoing(
                        peer,
                        RpcMessage::Update { sender_id, key: dkey, value, auth_signature: signature },
                    )
                    &&& match auth_signature {
                        Some(given) => signature == given,
                        None => signature@.len() == 0,
                    }
                }
        }
    }

    /// How the verification of a record under `key` goes on.
    pub open spec fn verify_step(
        &self,
        key: Seq<char>,
        bound: bool,
        cached: Option<bool>,
    ) -> VerifyStep {
        if !self.is_status(key) && !bound {
            VerifyStep::Known(false)
        } else if cached is Some {
            VerifyStep::Known(cached->0)
        } else {
            VerifyStep::Verify(self.domain_of(key))
        }
    }

    /// `step` is how a lookup of `key` at `now` goes on.
    pub open spec fn is_get_step(
        &self,
        key: Seq<char>,
        has_neighbors: bool,
        now: u128,
        step: GetStep,
    ) -> bool {
        match self.local_value(key, now) {
            Some(value) if !self.is_status(key) => step matches GetStep::Local(local) && local@
                == value,
            local => if self.protocol is None || !has_neighbors {
                step is Unavailable
            } else {
                &&& step matches GetStep::Crawl {
                    target,
                    initial_values,
                    minimum_votes,
                    sample_size: samples,
                }
                &&& target.id@ == utils::digest_of(key)
                &&& target == node::node_of(target.id, None, None)
                &&& samples == sample_size(self.alpha as nat)
                &&& minimum_votes == majority(sample_size(self.alpha as nat))
                &&& match local {
                    Some(value) => initial_values@.len() == 1 && initial_values@[0]@ == value,
                    None => initial_values@.len() == 0,
                }
            },
        }
    }

    /// `step` is how the check for a record under `key` at `now` goes on, before `value` is
    /// published.
    pub open spec fn is_publish_step(
        &self,
        key: Seq<char>,
        value: Seq<u8>,
        has_neighbors: bool,
        now: u128,
        step: PublishStep,
    ) -> bool {
        match self.local_value(key, now) {
            Some(existing) => step matches PublishStep::Done(lookup) && if existing == value {
                lookup is Identical
            } else {
                lookup is Conflict
            },
            None => if self.protocol is None || !has_neighbors {
                step matches PublishStep::Done(PublishLookup::Missing(nodes)) && nodes@.len() == 0
            } else {
                step is Crawl
            },
        }
    }

    /// The rejection of a record before anyone is asked about it, if any.
    pub open spec fn early_rejection(&self, verified: bool) -> Option<SetOutcome> {
        if !verified {
            Some(rejection(SetRejection::InvalidRecord))
        } else if self.protocol is None {
            Some(rejection(SetRejection::Unavailable))
        } else {
            None
        }
    }

    /// How the publication of a record goes on.
    pub open spec fn set_step(&self, verified: bool, lookup: PublishLookup) -> SetStep {
        if !verified {
            SetStep::Rejected(rejection(SetRejection::InvalidRecord))
        } else if self.protocol is None {
            SetStep::Rejected(rejection(SetRejection::Unavailable))
        } else {
            match lookup {
                PublishLookup::Missing(nodes) => SetStep::Publish(nodes),
                PublishLookup::Conflict => SetStep::Rejected(
                    rejection(SetRejection::ExistingRecord),
                ),
                PublishLookup::Identical => SetStep::Discover,
                PublishLookup::Rediscover => SetStep::Discover,
            }
        }
    }

    /// What has to be verified before the record `key` is updated.
    pub open spec fn update_step(&self, key: Seq<char>, authorised: bool, found: bool) -> UpdateStep {
        if !found {
            UpdateStep::NotFound
        } else if self.is_status(key) && !authorised {
            UpdateStep::Issuer
        } else {
            UpdateStep::Owner
        }
    }

    /// How to verify a record under `key`. `bound` tells whether the record belongs to
    /// the key, which is of no concern for the status list; `cached` is what the cache
    /// of outcomes says of the record in the domain of the key, if there is a cache.
    pub fn verify_value(&self, key: &str, bound: bool, cached: Option<bool>) -> (step: VerifyStep)
        ensures
            step == self.verify_step(key@, bound, cached),
    {
        if !self.is_status_list(key) && !bound {
            return VerifyStep::Known(false);
        }
        match cached {
            Some(outcome) => VerifyStep::Known(outcome),
            None => VerifyStep::Verify(self.domain(key)),
        }
    }

    /// The root of trust for the record `key`.
    pub fn domain(&self, key: &str) -> (domain: VerificationDomain)
        ensures
            domain == self.domain_of(key@),
    {
        if self.is_status_list(key) {
            VerificationDomain::IssuerSigned
        } else {
            VerificationDomain::SelfSigned
        }
    }

    /// Decides how to look up `key`. `has_neighbors` tells whether any node is known
    /// close to it.
    ///
    /// Ordinary records keep the low-latency local fast path. The frequently updated
    /// status list instead uses the local copy as one vote.
    pub fn get(&self, key: &str, has_neighbors: bool, now: u128) -> (step: GetStep)
        requires
            self.wf(),
        ensures
            self.is_get_step(key@, has_neighbors, now, step),
    {
        let dkey = digest(key);
        let is_status = self.is_status_list(key);
        let local = self.storage.get_at(dkey.as_slice(), now);
        let mut initial_values: Vec<Vec<u8>> = Vec::new();
        if let Some(value) = local {
            if !is_status {
                return GetStep::Local(value);
            }
            initial_values.push(value);
        }
        if self.protocol.is_none() || !has_neighbors {
            return GetStep::Unavailable;
        }
        let sample_size: usize = if self.alpha == 0 {
            1
        } else {
            self.alpha
        };
        let minimum_votes: usize = sample_size / 2 + 1;
        GetStep::Crawl { target: Node::from_id(dkey), initial_values, minimum_votes, sample_size }
    }

    /// The result of a lookup: the candidate, if it passed verification.
    pub fn finish_get(candidate: Option<Vec<u8>>, verified: bool) -> (value: Option<Vec<u8>>)
        ensures
            value == if verified {
                candidate
            } else {
                None
            },
    {
        if verified {
            candidate
        } else {
            None
        }
    }

    /// Looks for a record under `key` before `value` is published. `has_neighbors`
    /// tells whether any node is known close to it.
    pub fn check_publish_state(&self, key: &str, value: &[u8], has_neighbors: bool, now: u128) -> (
        step: PublishStep)
        requires
            self.wf(),
        ensures
            self.is_publish_step(key@, value@, has_neighbors, now, step),
    {
        let dkey = digest(key);
        match self.storage.get_at(dkey.as_slice(), now) {
            Some(existing) => PublishStep::Done(
                if bytes_eq(existing.as_slice(), value) {
                    PublishLookup::Identical
                } else {
                    PublishLookup::Conflict
                },
            ),
            None => {
                if self.protocol.is_none() || !has_neighbors {
                    PublishStep::Done(PublishLookup::Missing(Vec::new()))
                } else {
                    PublishStep::Crawl
                }
            },
        }
    }

    /// Concludes the search for a record before `value` is published: `found` is what
    /// the network has, `verified` tells whether that passed verification, and `nodes`
    /// are the closest nodes that a search in vain came by.
    ///
    /// A malformed record does not own its key.
    pub fn finish_publish_lookup(
        value: &[u8],
        found: Option<Vec<u8>>,
        verified: bool,
        nodes: Vec<Node>,
    ) -> (lookup: PublishLookup)
        ensures
            is_publish_lookup(value@, found, verified, nodes, lookup),
    {
        match found {
            Some(found) => {
                if !verified {
                    PublishLookup::Rediscover
                } else if bytes_eq(found.as_slice(), value) {
                    PublishLookup::Identical
                } else {
                    PublishLookup::Conflict
                }
            },
            None => PublishLookup::Missing(nodes),
        }
    }

    /// Whether to search the network for the nodes closest to a record. Without a node
    /// to start from there are none.
    pub fn discover_publish_nodes(&self, has_neighbors: bool) -> (search: bool)
        ensures
            search <==> self.protocol is Some && has_neighbors,
    {
        self.protocol.is_some() && has_neighbors
    }

    /// The rejection of a record before anyone is asked about it, if any.
    pub fn reject_early(&self, verified: bool) -> (rejected: Option<SetOutcome>)
        ensures
            rejected == self.early_rejection(verified),
    {
        if !verified {
            Some(
                SetOutcome::Rejected {
                    reason: SetRejection::InvalidRecord,
                    report: SetReport::default(),
                },
            )
        } else if self.protocol.is_none() {
            Some(
                SetOutcome::Rejected {
                    reason: SetRejection::Unavailable,
                    report: SetReport::default(),
                },
            )
        } else {
            None
        }
    }

    /// Decides on the publication of a record: `verified` tells whether it passed
    /// verification, `lookup` whether it is already out.
    ///
    /// Publishing identical data again is idempotent and can complete a publication
    /// that was degraded before. A different record remains a conflict.
    pub fn set_detailed(&self, verified: bool, lookup: PublishLookup) -> (step: SetStep)
        ensures
            step == self.set_step(verified, lookup),
    {
        if let Some(outcome) = self.reject_early(verified) {
            return SetStep::Rejected(outcome);
        }
        match lookup {
            PublishLookup::Missing(nodes) => SetStep::Publish(nodes),
            PublishLookup::Conflict => SetStep::Rejected(
                SetOutcome::Rejected {
                    reason: SetRejection::ExistingRecord,
                    report: SetReport::default(),
                },
            ),
            PublishLookup::Identical | PublishLookup::Rediscover => SetStep::Discover,
        }
    }

    /// Summarises a publication: `Some(true)` if it is complete, `Some(false)` if it is
    /// degraded or found no room or nobody, `None` if the record is invalid or
    /// conflicts with another.
    pub fn set(outcome: &SetOutcome) -> (summary: Option<bool>)
        ensures
            summary == summary_of(*outcome),
    {
        match outcome {
            SetOutcome::Complete(_) => Some(true),
            SetOutcome::Degraded(_) => Some(false),
            SetOutcome::Rejected { reason, .. } => match reason {
                SetRejection::ExistingRecord
                | SetRejection::InvalidRecord
                | SetRejection::ReplicaConflict => None,
                SetRejection::CapacityExceeded
                | SetRejection::Unavailable
                | SetRejection::NoResponsibleNodes => Some(false),
            },
        }
    }

    /// Starts to publish a record on the nodes responsible for it, chosen from `nodes`:
    /// stores it here if this node is one of them.
    pub fn set_digest_detailed(
        &mut self,
        dkey: [u8; ID_LEN],
        value: &Vec<u8>,
        nodes: Vec<Node>,
        now: u128,
    ) -> (started: Result<Publication, SetOutcome>)
        requires
            old(self).wf(),
            node::all_wf(nodes@),
        ensures
            final(self).wf(),
            final(self).same_but_storage(old(self)),
            match started {
                Err(outcome) => {
                    &&& old(self).protocol is None
                    &&& outcome == rejection(SetRejection::Unavailable)
                    &&& final(self).storage == old(self).storage
                },
                Ok(publication) => {
                    &&& old(self).protocol is Some
                    &&& old(self).are_replicas(
                        dkey,
                        nodes@,
                        publication.store_local,
                        publication.remotes@,
                    )
                    &&& is_started(
                        old(self).storage@,
                        dkey@,
                        value@,
                        now,
                        publication,
                        final(self).storage@,
                    )
                    &&& publication.report.counted() <= 1
                },
            },
    {
        if self.protocol.is_none() {
            return Err(
                SetOutcome::Rejected {
                    reason: SetRejection::Unavailable,
                    report: SetReport::default(),
                },
            );
        }
        let target = Node::from_id(dkey);
        let (store_local, remotes) = select_responsible_nodes(
            &self.node,
            &target,
            nodes,
            self.ksize,
        );
        let mut report = SetReport::default();
        proof {
            law_selection_never_exceeds_k(
                self.node,
                target,
                nodes@,
                self.ksize as nat,
                store_local,
                remotes@,
            );
        }
        if store_local {
            report.expected_replicas = remotes.len() + 1;
            let status = self.storage.insert_if_absent_at(
                vstd::slice::slice_to_vec(dkey.as_slice()),
                copy_bytes(value),
                now,
            );
            report.record_status(Some(StoreStatus::from(status)));
        } else {
            report.expected_replicas = remotes.len();
        }
        Ok(Publication { store_local, report, remotes })
    }

    /// What to verify before the record `key` is updated: `found` tells whether there
    /// is one. The status list may come without an authorisation of its own.
    pub fn update(&self, key: &str, auth_signature: &Option<Vec<u8>>, found: bool) -> (step:
        UpdateStep)
        ensures
            step == self.update_step(key@, auth_signature is Some, found),
    {
        if !found {
            UpdateStep::NotFound
        } else if self.is_status_list(key) && auth_signature.is_none() {
            UpdateStep::Issuer
        } else {
            UpdateStep::Owner
        }
    }

    /// Chooses the replicas of an update from `nodes`, or `None` if it cannot be
    /// published: the node does not listen or knows nobody close to the record.
    pub fn update_digest(
        &self,
        dkey: [u8; ID_LEN],
        has_neighbors: bool,
        nodes: Vec<Node>,
    ) -> (plan: Option<UpdatePlan>)
        requires
            self.wf(),
            node::all_wf(nodes@),
        ensures
            match plan {
                Some(plan) => {
                    &&& self.protocol is Some && has_neighbors
                    &&& self.are_replicas(dkey, nodes@, plan.store_local, plan.remotes@)
                },
                None => self.protocol is None || !has_neighbors,
            },
    {
        if self.protocol.is_none() || !has_neighbors {
            return None;
        }
        let target = Node::from_id(dkey);
        let (store_local, remotes) = select_responsible_nodes(
            &self.node,
            &target,
            nodes,
            self.ksize,
        );
        Some(UpdatePlan { store_local, remotes })
    }

    /// The request that updates the record `key` at `peer`. The status list has a kind
    /// of request of its own.
    pub fn update_call(
        &self,
        protocol: &KademliaProtocol,
        peer: &Node,
        key: &str,
        dkey: [u8; ID_LEN],
        value: Vec<u8>,
        auth_signature: Option<Vec<u8>>,
    ) -> (call: Option<OutgoingCall>)
        ensures
            self.is_update_call(protocol@.source.id, *peer, key@, dkey, value, auth_signature, call),
    {
        if self.is_status_list(key) {
            protocol.call_status_list_update_rpc(peer, dkey, value)
        } else {
            let signature = match auth_signature {
                Some(signature) => signature,
                None => Vec::new(),
            };
            protocol.call_update_rpc(peer, dkey, value, signature)
        }
    }

    /// Concludes an update: it stands, and is stored here if this node is a replica,
    /// exactly if a majority of the consistency group acknowledged it. `results` are
    /// the answers of the other replicas, closest first.
    ///
    /// The consistency group is this node, if it is a replica, and the closest other
    /// replicas, capped at `alpha`. The remaining replicas are updated as well, but do
    /// not decide.
    pub fn commit_update(
        &mut self,
        dkey: [u8; ID_LEN],
        value: Vec<u8>,
        store_local: bool,
        results: &Vec<bool>,
        now: u128,
    ) -> (stands: bool)
        requires
            old(self).wf(),
        ensures
            final(self).wf(),
            final(self).same_but_storage(old(self)),
            (final(self).storage@, stands) == committed(
                old(self).storage@,
                old(self).alpha as nat,
                store_local,
                results@,
                dkey@,
                value@,
                now,
            ),
    {
        let local_vote: usize = if store_local {
            1
        } else {
            0
        };
        let room: usize = self.alpha.saturating_sub(local_vote);
        let primary: usize = if room < results.len() {
            room
        } else {
            results.len()
        };
        let group_size: usize = local_vote + primary;
        if group_size == 0 {
            return false;
        }
        let required: usize = group_size / 2 + 1;
        let mut acknowledged: usize = 0;
        let mut i: usize = 0;
        while i < primary
            invariant
                i <= primary <= results@.len(),
                acknowledged <= i,
                acknowledged == count_true(results@.take(i as int)),
            decreases primary - i,
        {
            assert(results@.take(i + 1).drop_last() =~= results@.take(i as int));
            if results[i] {
                acknowledged = acknowledged + 1;
            }
            i = i + 1;
        }
        let met = local_vote + acknowledged >= required;
        if met && store_local {
            let status = self.storage.set_at(
                vstd::slice::slice_to_vec(dkey.as_slice()),
                value,
                now,
            );
            return status != StorageWriteStatus::CapacityExceeded;
        }
        met
    }

    /// The result of an update: `None` if it was not `verified`, or else whether it
    /// `stands`.
    pub fn finish_update(verified: bool, stands: bool) -> (result: Option<bool>)
        ensures
            result == if verified {
                Some(stands)
            } else {
                None
            },
    {
        if verified {
            Some(stands)
        } else {
            None
        }
    }
}

/// A record counts as valid only if it belongs to its key, which is of no concern for the
/// status list, and if it was found valid: by the cache, which is taken at its word, or by
/// verification, against the issuer for the status list and against itself otherwise.
pub proof fn law_records_are_verified_against_their_root_of_trust(
    server: Server,
    key: Seq<char>,
    bound: bool,
    cached: Option<bool>,
)
    ensures
        ({
            let step = server.verify_step(key, bound, cached);
            let is_list = key == server.status_list_key@;
            &&& step == VerifyStep::Known(true) <==> (bound || is_list) && cached == Some(true)
            &&& step == VerifyStep::Known(false) <==> !(bound || is_list) || cached == Some(false)
            &&& step == VerifyStep::Verify(VerificationDomain::IssuerSigned) <==> is_list && cached
                is None
            &&& step == VerifyStep::Verify(VerificationDomain::SelfSigned) <==> !is_list && bound
                && cached is None
        }),
{
}

/// A lookup is served from here exactly if a live record is here and it is not the status
/// list. Otherwise the network is asked, if it can be: for more than half of a sample that
/// is never empty, in which a local copy of the status list counts as one vote.
pub proof fn law_lookup_is_local_or_by_majority(
    server: Server,
    key: Seq<char>,
    has_neighbors: bool,
    now: u128,
    step: GetStep,
)
    requires
        server.is_get_step(key, has_neighbors, now, step),
    ensures
        ({
            let store = server.storage@;
            let id = utils::digest_of(key);
            let here = store.records.contains_key(id) && !storage::expired(
                store.ttl,
                store.records[id].1,
                now,
            );
            let is_list = key == server.status_list_key@;
            &&& step is Local <==> here && !is_list
            &&& step matches GetStep::Local(value) ==> value@ == store.records[id].0
            &&& step is Crawl <==> (!here || is_list) && server.protocol is Some && has_neighbors
            &&& step is Unavailable <==> (!here || is_list) && (server.protocol is None
                || !has_neighbors)
            &&& step matches GetStep::Crawl {
                target,
                initial_values,
                minimum_votes,
                sample_size: samples,
            } ==> {
                &&& target.id@ == id && target.ip is None && target.port is None
                &&& samples >= 1 && (server.alpha >= 1 ==> samples == server.alpha)
                &&& 2 * minimum_votes > samples && 2 * (minimum_votes - 1) <= samples
                &&& minimum_votes <= samples
                &&& here ==> initial_values@.len() == 1 && initial_values@[0]@
                    == store.records[id].0
                &&& !here ==> initial_values@.len() == 0
            }
        }),
{
}

/// Before a record is published, the one that is here under its key decides: the same record
/// is no obstacle and any other is a conflict. Without one the network is asked, if it can
/// be. A record that the network has counts only if it is valid.
pub proof fn law_published_records_own_their_keys(
    server: Server,
    key: Seq<char>,
    value: Seq<u8>,
    has_neighbors: bool,
    now: u128,
    step: PublishStep,
    found: Option<Vec<u8>>,
    verified: bool,
    nodes: Vec<Node>,
    lookup: PublishLookup,
)
    requires
        server.is_publish_step(key, value, has_neighbors, now, step),
        is_publish_lookup(value, found, verified, nodes, lookup),
    ensures
        ({
            let store = server.storage@;
            let id = utils::digest_of(key);
            let here = store.records.contains_key(id) && !storage::expired(
                store.ttl,
                store.records[id].1,
                now,
            );
            let asks = server.protocol is Some && has_neighbors;
            &&& step is Crawl <==> !here && asks
            &&& (step matches PublishStep::Done(done) && done is Identical) <==> here
                && store.records[id].0 == value
            &&& (step matches PublishStep::Done(done) && done is Conflict) <==> here
                && store.records[id].0 != value
            &&& (step matches PublishStep::Done(PublishLookup::Missing(none)) && none@.len() == 0)
                <==> !here && !asks
        }),
        lookup is Identical <==> (verified && found is Some && found->0@ == value),
        lookup is Conflict <==> (verified && found is Some && found->0@ != value),
        lookup is Rediscover <==> (!verified && found is Some),
        found is None <==> lookup is Missing,
        found is None ==> lookup == PublishLookup::Missing(nodes),
{
}

/// A publication goes on exactly if the record is valid, the node listens and no other
/// record is out under its key. Where it is rejected early it is rejected whatever the
/// check for another record would have given, and for the same reason.
pub proof fn law_publication_goes_on_unless_something_is_wrong(
    server: Server,
    verified: bool,
    lookup: PublishLookup,
)
    ensures
        ({
            let step = server.set_step(verified, lookup);
            let early = server.early_rejection(verified);
            &&& step is Rejected <==> !verified || server.protocol is None || lookup is Conflict
            &&& step matches SetStep::Rejected(outcome) ==> (outcome matches SetOutcome::Rejected {
                reason,
                report,
            } && report == report_of(0) && reason == if !verified {
                SetRejection::InvalidRecord
            } else if server.protocol is None {
                SetRejection::Unavailable
            } else {
                SetRejection::ExistingRecord
            })
            &&& verified && server.protocol is Some && lookup is Missing ==> step
                == SetStep::Publish(lookup->Missing_0)
            &&& verified && server.protocol is Some && (lookup is Identical || lookup is Rediscover)
                ==> step is Discover
            &&& early is Some <==> !verified || server.protocol is None
            &&& early matches Some(outcome) ==> step == SetStep::Rejected(outcome)
        }),
{
}

/// The summary of a publication: `Some(true)` for a complete one alone, and nothing exactly
/// if the record is at fault, being invalid or in conflict with another.
pub proof fn law_summary_tells_success_from_fault(outcome: SetOutcome)
    ensures
        summary_of(outcome) == Some(true) <==> outcome is Complete,
        summary_of(outcome) is None <==> (outcome matches SetOutcome::Rejected { reason, .. } && (
        reason == SetRejection::ExistingRecord || reason == SetRejection::InvalidRecord || reason
            == SetRejection::ReplicaConflict)),
        outcome is Degraded ==> summary_of(outcome) == Some(false),
{
}

/// Only the status list is updated on the word of its issuer alone, and only without an
/// authorisation of its own; any other update needs the owner.
pub proof fn law_updates_need_the_owner(
    server: Server,
    key: Seq<char>,
    authorised: bool,
    found: bool,
)
    ensures
        ({
            let step = server.update_step(key, authorised, found);
            &&& step is NotFound <==> !found
            &&& step is Issuer <==> found && key == server.status_list_key@ && !authorised
            &&& step is Owner <==> found && (key != server.status_list_key@ || authorised)
        }),
{
}

/// The replicas of a record are the `ksize` nodes closest to its id, this one included, or
/// all if there are fewer: a node that is no replica is farther from the id, in the bits of
/// the XOR, than every node that is one.
pub proof fn law_replicas_are_the_closest_to_the_id(
    server: Server,
    dkey: [u8; ID_LEN],
    nodes: Seq<Node>,
    store_local: bool,
    remotes: Seq<Node>,
    c: int,
    i: int,
)
    requires
        server.node.wf(),
        node::all_wf(nodes),
        server.are_replicas(dkey, nodes, store_local, remotes),
        0 <= c < nodes.len(),
        0 <= i < remotes.len(),
        nodes[c].id@ != server.node.id@,
        forall|j: int| 0 <= j < remotes.len() ==> (#[trigger] remotes[j]).id@ != nodes[c].id@,
    ensures
        nodes.contains(remotes[i]) && remotes[i].id@ != server.node.id@,
        remotes.len() + (if store_local {
            1nat
        } else {
            0
        }) == server.ksize,
        long_id::be_value(long_id::xor_bytes(dkey@, remotes[i].id@)) < long_id::be_value(
            long_id::xor_bytes(dkey@, nodes[c].id@),
        ),
        store_local ==> long_id::be_value(long_id::xor_bytes(dkey@, server.node.id@))
            < long_id::be_value(long_id::xor_bytes(dkey@, nodes[c].id@)),
        !store_local ==> long_id::be_value(long_id::xor_bytes(dkey@, remotes[i].id@))
            < long_id::be_value(long_id::xor_bytes(dkey@, server.node.id@)),
{
    let target = node::node_of(dkey, None, None);
    let k = server.ksize as nat;
    node::law_node_keeps_id_and_address(dkey, None, None);
    law_nobody_closer_is_passed_over(server.node, target, nodes, k, store_local, remotes);
    law_selection_never_exceeds_k(server.node, target, nodes, k, store_local, remotes);
    assert(nodes.contains(remotes[i]));
    let m = choose|m: int| 0 <= m < nodes.len() && nodes[m] == remotes[i];
    assert(nodes[m].wf() && nodes[c].wf());
    node::law_distance_is_xor_of_ids(target, remotes[i]);
    node::law_distance_is_xor_of_ids(target, nodes[c]);
    node::law_distance_is_xor_of_ids(target, server.node);
    assert(node::distance(target, remotes[i]) < node::distance(target, nodes[c]));
    // Not everyone is a replica, so there are as many replicas as there may be.
    let all = nodes.push(server.node);
    let candidates = node::add_new(Seq::empty(), all);
    assert(node::all_wf(all)) by {
        assert forall|j: int| 0 <= j < all.len() implies (#[trigger] all[j]).wf() by {
            if j < nodes.len() {
                assert(nodes[j].wf());
            }
        }
    }
    node::lemma_add_new(Seq::empty(), all);
    node::law_added_nodes_are_the_first_of_their_id(Seq::empty(), all);
    if candidates.len() <= k {
        let chosen = choose|chosen: Seq<Node>|
            {
                &&& #[trigger] are_responsible(server.node, target, nodes, k, chosen)
                &&& store_local == node::id_among(chosen, server.node.id@)
                &&& remotes == others(chosen, server.node)
            };
        assert forall|j: int| 0 <= j < chosen.len() implies (#[trigger] chosen[j]).wf() by {
            assert(candidates.contains(chosen[j]));
        }
        node::lemma_ascending_distinct(target, chosen);
        lemma_all_are_taken(candidates, chosen);
        assert(all[c] == nodes[c]);
        assert(node::id_among(all, nodes[c].id@));
        assert(node::id_among(candidates, nodes[c].id@));
        let n = choose|n: int|
            0 <= n < candidates.len() && (#[trigger] candidates[n]).id@ == nodes[c].id@;
        assert(chosen.contains(candidates[n]));
        let at = choose|at: int| 0 <= at < chosen.len() && chosen[at] == candidates[n];
        lemma_others_contains(chosen, server.node, at);
        let j = choose|j: int| 0 <= j < remotes.len() && remotes[j] == chosen[at];
        assert(remotes[j].id@ == nodes[c].id@);
    }
}

/// An update goes to every replica that has an address: the status list by its own kind of
/// request, any other record with the authorisation that was given, or none.
pub proof fn law_updates_go_out_with_their_authorisation(
    server: Server,
    sender_id: [u8; ID_LEN],
    peer: Node,
    key: Seq<char>,
    dkey: [u8; ID_LEN],
    value: Vec<u8>,
    auth_signature: Option<Vec<u8>>,
    call: Option<OutgoingCall>,
)
    requires
        server.is_update_call(sender_id, peer, key, dkey, value, auth_signature, call),
    ensures
        call is Some <==> peer.ip is Some && peer.port is Some,
        call matches Some(call) ==> Some(call.address.0) == peer.ip && Some(call.address.1)
            == peer.port && match call.message {
            RpcMessage::UpdateStatusList { sender_id: from, key: id, value: new } => key
                == server.status_list_key@ && from == sender_id && id == dkey && new == value,
            RpcMessage::Update { sender_id: from, key: id, value: new, auth_signature: auth } => {
                &&& key != server.status_list_key@
                &&& from == sender_id && id == dkey && new == value
                &&& auth_signature matches Some(given) ==> auth == given
                &&& auth_signature is None ==> auth@.len() == 0
            },
            _ => false,
        },
{
}

/// The start of a publication: all selected replicas are expected, this node among them if
/// it is one. It has then stored the record, and counts as holding it exactly if it can be
/// read here; the others are still to answer. A node that is no replica keeps its store.
pub proof fn law_publication_starts_with_the_own_replica(
    store: StoreState,
    key: Seq<u8>,
    value: Seq<u8>,
    now: u128,
    publication: Publication,
    after: StoreState,
)
    requires
        is_started(store, key, value, now, publication, after),
        publication.remotes@.len() < usize::MAX,
    ensures
        ({
            let report = publication.report;
            let holders = report.stored_replicas + report.already_present;
            let counted = holders + report.capacity_rejections + report.conflict_rejections;
            &&& report.expected_replicas == publication.remotes@.len() + if publication.store_local {
                1int
            } else {
                0
            }
            &&& report.unavailable_nodes == 0 && report.invalid_rejections == 0
            &&& !publication.store_local ==> after == store && counted == 0
            &&& publication.store_local ==> counted == 1 && (holders == 1 <==> after.value_at(
                key,
                now,
            ) == Some(value))
            &&& holders == 0 ==> after == store
        }),
{
}

/// The two layers of a node agree on the root of trust: what counts as the status list
/// for lookups and publications counts as such for requests of peers, once the node
/// listens.
pub proof fn law_layers_agree_on_the_status_list(
    server: Server,
    protocol: ProtocolState,
    key: Seq<char>,
)
    requires
        protocol.status_key == utils::digest_of(server.status_list_key@),
        server.is_status(key),
    ensures
        protocol.domain_of(utils::digest_of(key)) == server.domain_of(key),
        server.domain_of(key) is IssuerSigned,
{
}

/// Hands datagrams to workers in turn.
///
/// The workers are tried one after another, starting behind the one that took the last
/// datagram. If all of them are busy, the first one tried has to take it.
#[derive(Debug)]
pub struct WorkerCursor {
    next: usize,
    workers: usize,
}

/// The worker tried in place `i`, starting from `start`.
pub open spec fn worker_at(start: nat, i: nat, workers: nat) -> nat {
    (start + i) % workers
}

/// The worker whose turn it is once `worker` took a datagram.
pub open spec fn worker_behind(worker: nat, workers: nat) -> nat {
    worker_at(worker, 1, workers)
}

impl WorkerCursor {
    /// The first worker that the next datagram is offered to.
    pub closed spec fn start(&self) -> nat {
        self.next as nat
    }

    pub closed spec fn count(&self) -> nat {
        self.workers as nat
    }

    pub closed spec fn wf(&self) -> bool {
        self.next < self.workers
    }

    pub fn new(workers: usize) -> (cursor: Self)
        requires
            workers > 0,
        ensures
            cursor.wf(),
            cursor.start() == 0,
            cursor.count() == workers,
    {
        WorkerCursor { next: 0, workers }
    }

    /// The worker to try in place `i`.
    pub fn candidate(&self, i: usize) -> (worker: usize)
        requires
            self.wf(),
            i < self.count(),
        ensures
            worker == worker_at(self.start(), i as nat, self.count()),
            worker < self.count(),
    {
        let rest: usize = self.workers - self.next;
        if i < rest {
            assert((self.next + i) % (self.workers as int) == self.next + i) by (nonlinear_arith)
                requires
                    0 <= self.next + i < self.workers,
            ;
            self.next + i
        } else {
            assert((self.next + i) % (self.workers as int) == self.next + i - self.workers)
                by (nonlinear_arith)
                requires
                    self.workers <= self.next + i < 2 * self.workers,
            ;
            i - rest
        }
    }

    /// `worker` took the datagram: the next one is offered to the worker behind it
    /// first.
    pub fn taken_by(&mut self, worker: usize)
        requires
            old(self).wf(),
            worker < old(self).count(),
        ensures
            final(self).wf(),
            final(self).count() == old(self).count(),
            final(self).start() == worker_behind(worker as nat, old(self).count()),
    {
        if worker + 1 == self.workers {
            assert(worker_at(worker as nat, 1, self.workers as nat) == 0) by (nonlinear_arith)
                requires
                    worker + 1 == self.workers,
            ;
            self.next = 0;
        } else {
            assert(worker_at(worker as nat, 1, self.workers as nat) == worker + 1)
                by (nonlinear_arith)
                requires
                    worker + 1 < self.workers,
            ;
            self.next = worker + 1;
        }
    }
}

/// A round of tries comes by every worker exactly once.
pub proof fn law_round_visits_each_worker_once(start: nat, workers: nat, worker: nat)
    requires
        start < workers,
        worker < workers,
    ensures
        exists|i: nat| i < workers && #[trigger] worker_at(start, i, workers) == worker,
        forall|i: nat, j: nat|
            i < workers && j < workers && #[trigger] worker_at(start, i, workers) == #[trigger]
            worker_at(start, j, workers) ==> i == j,
{
    let place = if worker >= start {
        (worker - start) as nat
    } else {
        (worker + workers - start) as nat
    };
    lemma_worker_at(start, place, workers);
    assert(worker_at(start, place, workers) == worker);
    assert forall|i: nat, j: nat|
        i < workers && j < workers && #[trigger] worker_at(start, i, workers) == #[trigger]
        worker_at(start, j, workers) implies i == j by {
        lemma_worker_at(start, i, workers);
        lemma_worker_at(start, j, workers);
    }
}

/// The round starts with the worker whose turn it is, each place after that is the turn of
/// the worker behind the one before, and behind the last comes the first.
pub proof fn law_workers_take_turns(start: nat, i: nat, workers: nat)
    requires
        start < workers,
        i + 1 < workers,
    ensures
        worker_at(start, 0, workers) == start,
        worker_at(start, i, workers) < workers,
        worker_at(start, i, workers) + 1 < workers ==> worker_at(start, i + 1, workers)
            == worker_at(start, i, workers) + 1,
        worker_at(start, i, workers) + 1 == workers ==> worker_at(start, i + 1, workers) == 0,
        worker_behind(worker_at(start, i, workers), workers) == worker_at(start, i + 1, workers),
        start + 1 < workers ==> worker_behind(start, workers) == start + 1,
        start + 1 == workers ==> worker_behind(start, workers) == 0,
{
    lemma_worker_at(start, 1, workers);
    lemma_worker_at(start, 0, workers);
    lemma_worker_at(start, i, workers);
    lemma_worker_at(start, i + 1, workers);
    lemma_worker_at(worker_at(start, i, workers), 1, workers);
}

proof fn lemma_worker_at(start: nat, i: nat, workers: nat)
    requires
        start < workers,
        i < workers,
    ensures
        worker_at(start, i, workers) == if start + i < workers {
            (start + i) as int
        } else {
            start + i - workers
        },
{
    if start + i < workers {
        assert((start + i) % workers == start + i) by (nonlinear_arith)
            requires
                0 <= start + i < workers,
        ;
    } else {
        assert((start + i) % workers == start + i - workers) by (nonlinear_arith)
            requires
                workers <= start + i < 2 * workers,
        ;
    }
}

} // verus!
