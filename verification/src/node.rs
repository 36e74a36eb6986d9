use vstd::prelude::*;
use std::collections::BTreeMap;
use crate::metadata::{
    Proposal, ProposalView, Reply, ReplyView, Vote, VoteView, lemma_same_proposal_is_equality, same_proposal,
};
use crate::vote_table::{VoteTable, yes_voters};
use crate::ips::addrs_view;

verus! {

broadcast use vstd::std_specs::btree::group_btree_axioms, vstd::laws_cmp::group_laws_cmp;

/// What a node knows of the round of one proposal.
#[derive(Clone, Copy, Debug)]
pub struct RoundState {
    /// The number of nodes taking part: the live peers and this node.
    pub total: i64,
    /// The largest number of faulty nodes the round tolerates.
    pub faulty: i64,
    /// Whether this node has already broadcast its vote.
    pub favor_broadcast: bool,
    /// Whether this node has already answered the client.
    pub reply_sent: bool,
}

/// The round that starts when `n` live peers answered.
pub open spec fn fresh_round(n: nat) -> RoundState {
    RoundState { total: (n + 1) as i64, faulty: (n / 3) as i64, favor_broadcast: false, reply_sent: false }
}

/// The bound that every round keeps: `3f + 1` nodes take part at least.
pub open spec fn round_ok(r: RoundState) -> bool {
    0 <= r.faulty && 3 * r.faulty + 1 <= r.total
}

/// The mathematical value of a [`NodeState`].
pub struct NodeView {
    pub proposals: Map<i64, ProposalView>,
    pub rounds: Map<i64, RoundState>,
    pub favor: Map<i64, i64>,
    pub votes: Map<i64, Map<Seq<char>, i8>>,
    pub active: Map<i64, Seq<Seq<char>>>,
}

/// The state a node keeps for all proposals.
pub struct NodeState {
    proposals: BTreeMap<i64, Proposal>,
    rounds: BTreeMap<i64, RoundState>,
    favor: BTreeMap<i64, i64>,
    votes: BTreeMap<i64, VoteTable>,
    active: BTreeMap<i64, Vec<String>>,
}

impl View for NodeState {
    type V = NodeView;

    closed spec fn view(&self) -> NodeView {
        NodeView {
            proposals: self.proposals@.map_values(|p: Proposal| p@),
            rounds: self.rounds@,
            favor: self.favor@,
            votes: self.votes@.map_values(|t: VoteTable| t@),
            active: self.active@.map_values(|v: Vec<String>| addrs_view(v@)),
        }
    }
}

/// The invariant of the view: every round keeps [`round_ok`].
pub open spec fn inv(s: NodeView) -> bool {
    forall|id: i64| #[trigger] s.rounds.contains_key(id) ==> round_ok(s.rounds[id])
}

/// The live peers recorded for `id`.
pub open spec fn active_of(s: NodeView, id: i64) -> Seq<Seq<char>> {
    if s.active.contains_key(id) { s.active[id] } else { Seq::empty() }
}

/// The votes recorded for `id`.
pub open spec fn votes_of(s: NodeView, id: i64) -> Map<Seq<char>, i8> {
    if s.votes.contains_key(id) { s.votes[id] } else { Map::empty() }
}

/// The number of favor signals counted for `id`.
pub open spec fn favor_of(s: NodeView, id: i64) -> int {
    if s.favor.contains_key(id) { s.favor[id] as int } else { 0 }
}

/// `s` with `proposal` stored under its id.
pub open spec fn store_step(s: NodeView, p: ProposalView) -> NodeView {
    NodeView { proposals: s.proposals.insert(p.id, p), ..s }
}

/// `s` with `addr` added to the live peers of `id`.
pub open spec fn active_step(s: NodeView, id: i64, addr: Seq<char>) -> NodeView {
    NodeView { active: s.active.insert(id, active_of(s, id).push(addr)), ..s }
}

/// `s` with a fresh round for `id`, sized by its live peers.
pub open spec fn open_step(s: NodeView, id: i64) -> NodeView {
    NodeView { rounds: s.rounds.insert(id, fresh_round(active_of(s, id).len())), ..s }
}

/// Whether a signal carrying `p` is for the proposal stored under its id.
pub open spec fn signal_matches(s: NodeView, p: ProposalView) -> bool {
    same_proposal(p, s.proposals[p.id])
}

/// The favor count of `p.id` once a signal carrying `p` is counted.
pub open spec fn favor_after(s: NodeView, p: ProposalView) -> int {
    favor_of(s, p.id) + if signal_matches(s, p) { 1int } else { 0int }
}

/// Whether a signal carrying `p` makes this node broadcast its vote: it has
/// not done so yet and at least `2f` matching signals are counted.
pub open spec fn broadcast_due(s: NodeView, p: ProposalView) -> bool {
    &&& !s.rounds[p.id].favor_broadcast
    &&& 2 * s.rounds[p.id].faulty <= favor_after(s, p)
}

/// `s` once a signal carrying `p` is counted: the favor count of `p.id`
/// grows by one when `p` is the proposal stored under its id.
pub open spec fn count_step(s: NodeView, p: ProposalView) -> NodeView {
    if signal_matches(s, p) {
        NodeView { favor: s.favor.insert(p.id, favor_after(s, p) as i64), ..s }
    } else {
        s
    }
}

/// `s` once a signal carrying `p` is handled.
pub open spec fn signal_step(s: NodeView, p: ProposalView) -> NodeView {
    let s1 = count_step(s, p);
    if broadcast_due(s, p) {
        NodeView {
            rounds: s1.rounds.insert(p.id, RoundState { favor_broadcast: true, ..s.rounds[p.id] }),
            ..s1
        }
    } else {
        s1
    }
}

/// `s` with the vote `v` of `ip` recorded for `id`, replacing an earlier one.
pub open spec fn record_step(s: NodeView, id: i64, ip: Seq<char>, v: i8) -> NodeView {
    NodeView { votes: s.votes.insert(id, votes_of(s, id).insert(ip, v)), ..s }
}

/// The number of votes in favor of `v.id` once `v` is recorded.
pub open spec fn yes_after(s: NodeView, v: VoteView) -> nat {
    yes_voters(votes_of(s, v.id).insert(v.ip, v.vote)).len()
}

/// Whether the vote `v` makes this node answer the client: the round is
/// open, no answer was sent yet, and at least `2f + 1` voters are in favor.
pub open spec fn reply_due(s: NodeView, v: VoteView) -> bool {
    &&& s.rounds.contains_key(v.id)
    &&& !s.rounds[v.id].reply_sent
    &&& yes_after(s, v) >= 2 * s.rounds[v.id].faulty + 1
}

/// `s` once the vote `v` is handled.
pub open spec fn vote_step(s: NodeView, v: VoteView) -> NodeView {
    let s1 = record_step(s, v.id, v.ip, v.vote);
    if reply_due(s, v) {
        NodeView {
            rounds: s1.rounds.insert(v.id, RoundState { reply_sent: true, ..s.rounds[v.id] }),
            ..s1
        }
    } else {
        s1
    }
}

/// The answer to the client for proposal `id`, sent from `from`.
pub open spec fn reply_for(s: NodeView, id: i64, from: Seq<char>) -> ReplyView {
    ReplyView { from, vote: 1, id, f: s.rounds[id].faulty, total: s.rounds[id].total }
}

/// A fresh round tolerates the largest number of faulty nodes that
/// PBFT allows among its participants: `3f + 1 <= total < 3(f + 1) + 1`.
pub proof fn lemma_fresh_round_tolerance(n: nat)
    requires
        n < i64::MAX,
    ensures
        round_ok(fresh_round(n)),
        fresh_round(n).total == n + 1,
        3 * fresh_round(n).faulty + 1 <= fresh_round(n).total < 3 * (fresh_round(n).faulty + 1) + 1,
{
    assert(n == 3 * (n / 3) + n % 3);
}

/// Storing a proposal puts it under its id, replacing whatever was there,
/// and leaves every other id and every other table as it was.
pub proof fn lemma_store_replaces(s: NodeView, p: ProposalView, k: i64)
    ensures
        store_step(s, p).proposals.contains_key(p.id),
        store_step(s, p).proposals[p.id] == p,
        k != p.id ==> (store_step(s, p).proposals.contains_key(k) == s.proposals.contains_key(k)),
        k != p.id && s.proposals.contains_key(k) ==> store_step(s, p).proposals[k] == s.proposals[k],
        store_step(s, p).rounds == s.rounds,
        store_step(s, p).favor == s.favor,
        store_step(s, p).votes == s.votes,
        store_step(s, p).active == s.active,
{
}

/// Opening a round of `id` with `n` live peers makes it `n + 1` members
/// strong with `n / 3` faulty ones tolerated, and clears both flags, whatever
/// round was there before; other rounds stay as they were.
pub proof fn lemma_open_round_is_fresh(s: NodeView, id: i64, k: i64)
    requires
        active_of(s, id).len() < i64::MAX,
    ensures
        open_step(s, id).rounds.contains_key(id),
        open_step(s, id).rounds[id].total == active_of(s, id).len() + 1,
        open_step(s, id).rounds[id].faulty == active_of(s, id).len() / 3,
        !open_step(s, id).rounds[id].favor_broadcast,
        !open_step(s, id).rounds[id].reply_sent,
        k != id ==> open_step(s, id).rounds.contains_key(k) == s.rounds.contains_key(k),
        k != id && s.rounds.contains_key(k) ==> open_step(s, id).rounds[k] == s.rounds[k],
{
}

/// A signal is counted exactly when it carries the very proposal stored
/// under its id, equal in id, subject and description.
pub proof fn lemma_signal_counted_iff_equal(s: NodeView, p: ProposalView)
    requires
        s.proposals.contains_key(p.id),
        favor_of(s, p.id) < i64::MAX,
    ensures
        signal_matches(s, p) <==> p == s.proposals[p.id],
        favor_of(count_step(s, p), p.id) == favor_of(s, p.id) + if p == s.proposals[p.id] {
            1int
        } else {
            0int
        },
        count_step(s, p).rounds == s.rounds,
{
    lemma_same_proposal_is_equality(p, s.proposals[p.id]);
}

/// A signal makes the node broadcast exactly when the round has not
/// broadcast yet and, with this signal counted, at least `2f` signals in
/// favor of the stored proposal are counted.
pub proof fn lemma_broadcast_threshold(s: NodeView, p: ProposalView)
    requires
        s.proposals.contains_key(p.id),
        s.rounds.contains_key(p.id),
        favor_of(s, p.id) < i64::MAX,
    ensures
        broadcast_due(s, p) <==> (!s.rounds[p.id].favor_broadcast && 2 * s.rounds[p.id].faulty
            <= favor_of(s, p.id) + if p == s.proposals[p.id] { 1int } else { 0int }),
        favor_of(signal_step(s, p), p.id) == favor_of(s, p.id) + if p == s.proposals[p.id] {
            1int
        } else {
            0int
        },
        signal_step(s, p).rounds[p.id].favor_broadcast == (s.rounds[p.id].favor_broadcast
            || broadcast_due(s, p)),
{
    lemma_same_proposal_is_equality(p, s.proposals[p.id]);
}

/// A vote makes the node answer exactly when the round is open and not yet
/// answered, and, with this vote recorded in place of any earlier vote of
/// the same address, at least `2f + 1` distinct voters are in favor.
pub proof fn lemma_reply_threshold(s: NodeView, v: VoteView)
    ensures
        vote_step(s, v).votes.contains_key(v.id),
        vote_step(s, v).votes[v.id] == (if s.votes.contains_key(v.id) {
            s.votes[v.id]
        } else {
            Map::empty()
        }).insert(v.ip, v.vote),
        reply_due(s, v) <==> (s.rounds.contains_key(v.id) && !s.rounds[v.id].reply_sent
            && yes_voters(vote_step(s, v).votes[v.id]).len() >= 2 * s.rounds[v.id].faulty + 1),
        reply_due(s, v) ==> vote_step(s, v).rounds[v.id].reply_sent,
        !reply_due(s, v) ==> vote_step(s, v).rounds == s.rounds,
{
}

/// A client is answered at most once per round: once a vote makes the node
/// answer, no later vote for the same proposal does.
pub proof fn lemma_reply_at_most_once(s: NodeView, v1: VoteView, v2: VoteView)
    requires
        v1.id == v2.id,
        reply_due(s, v1),
    ensures
        vote_step(s, v1).rounds[v1.id].reply_sent,
        !reply_due(vote_step(s, v1), v2),
{
}

/// A node broadcasts its vote at most once per round: once a signal makes it
/// broadcast, no later signal for the same proposal does.
pub proof fn lemma_broadcast_at_most_once(s: NodeView, p1: ProposalView, p2: ProposalView)
    requires
        p1.id == p2.id,
        s.rounds.contains_key(p1.id),
        broadcast_due(s, p1),
    ensures
        signal_step(s, p1).rounds[p1.id].favor_broadcast,
        !broadcast_due(signal_step(s, p1), p2),
{
}

/// Signals and votes never take back a broadcast or an answer, and keep the
/// size and fault bound of every round.
pub proof fn lemma_steps_keep_rounds(s: NodeView, p: ProposalView, v: VoteView, id: i64)
    requires
        s.rounds.contains_key(p.id),
        s.rounds.contains_key(id),
    ensures
        signal_step(s, p).rounds.contains_key(id),
        vote_step(s, v).rounds.contains_key(id),
        signal_step(s, p).rounds[id].total == s.rounds[id].total,
        signal_step(s, p).rounds[id].faulty == s.rounds[id].faulty,
        vote_step(s, v).rounds[id].total == s.rounds[id].total,
        vote_step(s, v).rounds[id].faulty == s.rounds[id].faulty,
        s.rounds[id].favor_broadcast ==> signal_step(s, p).rounds[id].favor_broadcast,
        s.rounds[id].favor_broadcast ==> vote_step(s, v).rounds[id].favor_broadcast,
        s.rounds[id].reply_sent ==> signal_step(s, p).rounds[id].reply_sent,
        s.rounds[id].reply_sent ==> vote_step(s, v).rounds[id].reply_sent,
{
}

/// Once a round has broadcast its vote, no signal makes it broadcast again,
/// and signals leave every round as it is.
pub proof fn lemma_no_second_broadcast(s: NodeView, p: ProposalView)
    requires
        s.rounds.contains_key(p.id),
        s.rounds[p.id].favor_broadcast,
    ensures
        !broadcast_due(s, p),
        signal_step(s, p).rounds == s.rounds,
{
}

/// Votes of different senders, or on different proposals, may arrive in
/// either order: the recorded votes are the same.
pub proof fn lemma_votes_commute(s: NodeView, id1: i64, ip1: Seq<char>, a: i8, id2: i64, ip2: Seq<char>, b: i8)
    requires
        id1 != id2 || ip1 != ip2,
    ensures
        record_step(record_step(s, id1, ip1, a), id2, ip2, b) == record_step(
            record_step(s, id2, ip2, b),
            id1,
            ip1,
            a,
        ),
{
    let x = record_step(record_step(s, id1, ip1, a), id2, ip2, b);
    let y = record_step(record_step(s, id2, ip2, b), id1, ip1, a);
    if id1 == id2 {
        assert(votes_of(s, id1).insert(ip1, a).insert(ip2, b) =~= votes_of(s, id1).insert(ip2, b).insert(ip1, a));
    }
    assert(x.votes =~= y.votes);
}

/// Every step keeps the bound `3f + 1 <= total` of all rounds; opening a
/// round needs fewer than `i64::MAX` live peers, a machine limit.
pub proof fn lemma_steps_keep_inv(s: NodeView, p: ProposalView, v: VoteView, id: i64, addr: Seq<char>)
    requires
        inv(s),
    ensures
        inv(store_step(s, p)),
        inv(active_step(s, id, addr)),
        s.rounds.contains_key(p.id) ==> inv(signal_step(s, p)),
        inv(count_step(s, p)),
        inv(vote_step(s, v)),
        inv(record_step(s, id, addr, v.vote)),
        active_of(s, id).len() < i64::MAX ==> inv(open_step(s, id)),
{
    if active_of(s, id).len() < i64::MAX {
        lemma_fresh_round_tolerance(active_of(s, id).len());
        let t = open_step(s, id);
        assert forall|k: i64| #[trigger] t.rounds.contains_key(k) implies round_ok(t.rounds[k]) by {
            if k != id {
                assert(s.rounds.contains_key(k));
            }
        }
    }
    if s.rounds.contains_key(p.id) {
        let t = signal_step(s, p);
        assert forall|k: i64| #[trigger] t.rounds.contains_key(k) implies round_ok(t.rounds[k]) by {
            assert(s.rounds.contains_key(k));
        }
    }
    let t = vote_step(s, v);
    assert forall|k: i64| #[trigger] t.rounds.contains_key(k) implies round_ok(t.rounds[k]) by {
        assert(s.rounds.contains_key(k));
    }
}

/// One vote per voter: a second vote of the same address on the same
/// proposal replaces the first.
pub proof fn lemma_vote_replaces(s: NodeView, id: i64, ip: Seq<char>, a: i8, b: i8)
    ensures
        record_step(record_step(s, id, ip, a), id, ip, b) == record_step(s, id, ip, b),
{
    let s1 = record_step(record_step(s, id, ip, a), id, ip, b);
    let s2 = record_step(s, id, ip, b);
    assert(votes_of(s, id).insert(ip, a).insert(ip, b) =~= votes_of(s, id).insert(ip, b));
    assert(s1.votes =~= s2.votes);
}

/// The votes in favor never outnumber the distinct voters.
pub proof fn lemma_yes_within_voters(m: Map<Seq<char>, i8>)
    requires
        m.dom().finite(),
    ensures
        yes_voters(m).len() <= m.dom().len(),
{
    vstd::set_lib::lemma_len_subset(yes_voters(m), m.dom());
}

/// A signal that carries another proposal than the one stored under its id
/// is not counted in favor.
pub proof fn lemma_mismatch_not_counted(s: NodeView, p: ProposalView)
    requires
        !signal_matches(s, p),
    ensures
        favor_of(signal_step(s, p), p.id) == favor_of(s, p.id),
{
}

impl NodeState {
    /// Every vote table keeps one vote per address and every round keeps its bound.
    pub closed spec fn wf(&self) -> bool {
        &&& forall|id: i64| #[trigger] self.votes@.contains_key(id) ==> self.votes@[id].wf()
        &&& inv(self@)
    }

    /// Every round of a well-formed node has at least `3f + 1` members.
    pub proof fn lemma_rounds_tolerate_faults(&self)
        requires
            self.wf(),
        ensures
            inv(self@),
    {
    }

    /// A node that knows of no proposal.
    pub fn new() -> (s: NodeState)
        ensures
            s.wf(),
            s@.proposals == Map::<i64, ProposalView>::empty(),
            s@.rounds == Map::<i64, RoundState>::empty(),
            s@.favor == Map::<i64, i64>::empty(),
            s@.votes == Map::<i64, Map<Seq<char>, i8>>::empty(),
            s@.active == Map::<i64, Seq<Seq<char>>>::empty(),
    {
        let s = NodeState {
            proposals: BTreeMap::new(),
            rounds: BTreeMap::new(),
            favor: BTreeMap::new(),
            votes: BTreeMap::new(),
            active: BTreeMap::new(),
        };
        assert(s@.proposals =~= Map::<i64, ProposalView>::empty());
        assert(s@.votes =~= Map::<i64, Map<Seq<char>, i8>>::empty());
        assert(s@.active =~= Map::<i64, Seq<Seq<char>>>::empty());
        s
    }

    /// Handles a vote that arrived from a peer (or from this node itself):
    /// records it, replacing an earlier vote of the same address, and, when
    /// at least `2f + 1` voters are in favor and the client has not been
    /// answered yet, marks the round answered and returns the answer, sent
    /// from `this_ip`.
    pub fn receive_vote(&mut self, vote: Vote, this_ip: String) -> (r: Option<Reply>)
        requires
            old(self).wf(),
        ensures
            final(self).wf(),
            final(self)@ == vote_step(old(self)@, vote@),
            r is Some <==> reply_due(old(self)@, vote@),
            final(self)@.votes[vote.id] == votes_of(old(self)@, vote.id).insert(vote.ip@, vote.vote),
            r is Some <==> (old(self)@.rounds.contains_key(vote.id)
                && !old(self)@.rounds[vote.id].reply_sent
                && yes_voters(final(self)@.votes[vote.id]).len() >= 2 * old(self)@.rounds[vote.id].faulty + 1),
            r is Some ==> final(self)@.rounds[vote.id].reply_sent,
            r is None ==> final(self)@.rounds == old(self)@.rounds,
            r is Some ==> r->0@ == reply_for(old(self)@, vote.id, this_ip@),
    {
        let ghost s0 = self@;
        let ghost v = vote@;
        let id = vote.id;
        let mut table = match self.votes.remove(&id) {
            Some(t) => t,
            None => VoteTable::new(),
        };
        proof {
            assert(table@ == votes_of(s0, id));
        }
        table.record(vote.ip, vote.vote);
        let yes = table.yes_count();
        self.votes.insert(id, table);
        let ghost s1 = self@;
        proof {
            assert(s1.votes =~= record_step(s0, v.id, v.ip, v.vote).votes);
            assert(s1.proposals =~= s0.proposals);
            assert(s1.active =~= s0.active);
            assert(s1 == record_step(s0, v.id, v.ip, v.vote));
        }
        let round = match self.rounds.get(&id) {
            Some(r) => Some(*r),
            None => None,
        };
        match round {
            Some(r) => {
                assert(round_ok(r));
                if !r.reply_sent && (yes as i128) >= 2 * (r.faulty as i128) + 1 {
                    self.rounds.insert(id, RoundState { reply_sent: true, ..r });
                    proof {
                        assert(self@.proposals =~= s1.proposals);
                        assert(self@.votes =~= s1.votes);
                        assert(self@.active =~= s1.active);
                    }
                    return Some(Reply { from: this_ip, vote: 1, id, f: r.faulty, total: r.total });
                }
            },
            None => {},
        }
        None
    }

    /// Counts a favor signal that carries `proposal`: when it is the proposal
    /// stored under its id, the favor count of that id grows by one. Returns
    /// the favor count of that id after the signal.
    pub fn count_signal(&mut self, proposal: &Proposal) -> (c: i64)
        requires
            old(self).wf(),
            old(self)@.proposals.contains_key(proposal.id),
            signal_matches(old(self)@, proposal@) ==> favor_of(old(self)@, proposal.id) < i64::MAX,
        ensures
            final(self).wf(),
            final(self)@ == count_step(old(self)@, proposal@),
            c == favor_after(old(self)@, proposal@),
            c == favor_of(final(self)@, proposal.id),
            c == favor_of(old(self)@, proposal.id) + if proposal@ == old(self)@.proposals[proposal.id] {
                1int
            } else {
                0int
            },
    {
        let ghost s0 = self@;
        let ghost p = proposal@;
        let id = proposal.id;
        let current: i64 = match self.favor.get(&id) {
            Some(c) => *c,
            None => 0,
        };
        let matches = match self.proposals.get(&id) {
            Some(q) => *proposal == *q,
            None => false,
        };
        assert(matches == signal_matches(s0, p));
        if matches {
            self.favor.insert(id, current + 1);
            assert(self@.rounds == s0.rounds);
            current + 1
        } else {
            current
        }
    }

    /// Handles a favor signal that carries `proposal`: when it is the
    /// proposal stored under its id, the favor count of that id grows by one.
    /// When this node has not broadcast its vote yet and at least `2f`
    /// favor signals are counted, the round is marked broadcast and `true`
    /// is returned: the node is to broadcast its vote now.
    pub fn receive_signal(&mut self, proposal: &Proposal) -> (r: bool)
        requires
            old(self).wf(),
            old(self)@.proposals.contains_key(proposal.id),
            old(self)@.rounds.contains_key(proposal.id),
            signal_matches(old(self)@, proposal@) ==> favor_of(old(self)@, proposal.id) < i64::MAX,
        ensures
            final(self).wf(),
            final(self)@ == signal_step(old(self)@, proposal@),
            r == broadcast_due(old(self)@, proposal@),
            favor_of(final(self)@, proposal.id) == favor_of(old(self)@, proposal.id)
                + if proposal@ == old(self)@.proposals[proposal.id] { 1int } else { 0int },
            r <==> (!old(self)@.rounds[proposal.id].favor_broadcast && 2 * old(
                self,
            )@.rounds[proposal.id].faulty <= favor_of(final(self)@, proposal.id)),
            final(self)@.rounds[proposal.id].favor_broadcast == (old(
                self,
            )@.rounds[proposal.id].favor_broadcast || r),
    {
        let id = proposal.id;
        let total_favor = self.count_signal(proposal);
        let ghost s1 = self@;
        let r = *self.rounds.get(&id).unwrap();
        assert(round_ok(r));
        if !r.favor_broadcast && 2 * (r.faulty as i128) <= total_favor as i128 {
            self.rounds.insert(id, RoundState { favor_broadcast: true, ..r });
            proof {
                assert(self@.proposals =~= s1.proposals);
                assert(self@.votes =~= s1.votes);
                assert(self@.active =~= s1.active);
            }
            true
        } else {
            false
        }
    }

    /// Stores `proposal` under its id, replacing an earlier one.
    pub fn store_proposal(&mut self, proposal: Proposal)
        requires
            old(self).wf(),
        ensures
            final(self).wf(),
            final(self)@ == store_step(old(self)@, proposal@),
            final(self)@.proposals == old(self)@.proposals.insert(proposal.id, proposal@),
    {
        let ghost s0 = self@;
        let ghost p = proposal@;
        self.proposals.insert(proposal.id, proposal);
        assert(self@.proposals =~= store_step(s0, p).proposals);
    }

    /// Records that `addr` answered as a live peer for proposal `id`.
    pub fn record_active_node(&mut self, id: i64, addr: String)
        requires
            old(self).wf(),
        ensures
            final(self).wf(),
            final(self)@ == active_step(old(self)@, id, addr@),
    {
        let ghost s0 = self@;
        let ghost a = addr@;
        let mut list = match self.active.remove(&id) {
            Some(l) => l,
            None => Vec::new(),
        };
        assert(addrs_view(list@) =~= active_of(s0, id));
        list.push(addr);
        assert(addrs_view(list@) =~= active_of(s0, id).push(a));
        self.active.insert(id, list);
        assert(self@.active =~= active_step(s0, id, a).active);
    }

    /// Opens the round of proposal `id`: with `n` live peers recorded, `n + 1`
    /// nodes take part and up to `n / 3` of them may be faulty. An earlier
    /// round of the same id is replaced.
    pub fn open_round(&mut self, id: i64)
        requires
            old(self).wf(),
            active_of(old(self)@, id).len() < i64::MAX,
        ensures
            final(self).wf(),
            final(self)@ == open_step(old(self)@, id),
            final(self)@.rounds == old(self)@.rounds.insert(
                id,
                RoundState {
                    total: (active_of(old(self)@, id).len() + 1) as i64,
                    faulty: (active_of(old(self)@, id).len() / 3) as i64,
                    favor_broadcast: false,
                    reply_sent: false,
                },
            ),
    {
        let ghost s0 = self@;
        let n: usize = match self.active.get(&id) {
            Some(l) => l.len(),
            None => 0,
        };
        assert(n == active_of(s0, id).len());
        let total: i64 = n as i64 + 1;
        let faulty: i64 = (n / 3) as i64;
        let r = RoundState { total, faulty, favor_broadcast: false, reply_sent: false };
        assert(r == fresh_round(n as nat));
        proof {
            lemma_fresh_round_tolerance(n as nat);
        }
        self.rounds.insert(id, r);
        assert forall|k: i64| #[trigger] self@.rounds.contains_key(k) implies round_ok(self@.rounds[k]) by {
            if k != id {
                assert(s0.rounds.contains_key(k));
            }
        }
        assert(self@.proposals =~= s0.proposals);
        assert(self@.votes =~= s0.votes);
        assert(self@.active =~= s0.active);
    }

    /// The live peers recorded for proposal `id`, in the order they answered.
    pub fn active_nodes(&self, id: i64) -> (r: Vec<String>)
        ensures
            addrs_view(r@) == active_of(self@, id),
    {
        match self.active.get(&id) {
            Some(l) => {
                let c = l.clone();
                assert(addrs_view(c@) =~= addrs_view(l@));
                c
            },
            None => {
                let v: Vec<String> = Vec::new();
                assert(addrs_view(v@) =~= Seq::<Seq<char>>::empty());
                v
            },
        }
    }

    /// Records this node's own vote `value` on proposal `id`, under the
    /// address `this_ip`, and returns the vote to broadcast to the peers.
    pub fn cast_vote(&mut self, id: i64, this_ip: String, value: i8) -> (v: Vote)
        requires
            old(self).wf(),
        ensures
            final(self).wf(),
            final(self)@ == record_step(old(self)@, id, this_ip@, value),
            v@ == (VoteView { id, ip: this_ip@, vote: value }),
    {
        let ghost s0 = self@;
        let mut table = match self.votes.remove(&id) {
            Some(t) => t,
            None => VoteTable::new(),
        };
        assert(table@ == votes_of(s0, id));
        table.record(this_ip.clone(), value);
        self.votes.insert(id, table);
        assert(self@.votes =~= record_step(s0, id, this_ip@, value).votes);
        Vote { id, ip: this_ip, vote: value }
    }

    /// Whether `proposal` is the proposal stored under its id.
    pub fn proposal_matches(&self, proposal: &Proposal) -> (b: bool)
        ensures
            b == (self@.proposals.contains_key(proposal.id) && signal_matches(self@, proposal@)),
            b == (self@.proposals.contains_key(proposal.id) && proposal@ == self@.proposals[proposal.id]),
    {
        match self.proposals.get(&proposal.id) {
            Some(q) => *proposal == *q,
            None => false,
        }
    }

    /// Whether a proposal is stored under `id`.
    pub fn has_proposal(&self, id: i64) -> (b: bool)
        ensures
            b == self@.proposals.contains_key(id),
    {
        self.proposals.contains_key(&id)
    }

    /// The round of proposal `id`, if it was opened.
    pub fn round(&self, id: i64) -> (r: Option<RoundState>)
        ensures
            r is Some <==> self@.rounds.contains_key(id),
            r is Some ==> r->0 == self@.rounds[id],
            r is Some && self.wf() ==> round_ok(r->0),
    {
        match self.rounds.get(&id) {
            Some(r) => Some(*r),
            None => None,
        }
    }

    /// The number of favor signals counted for proposal `id`.
    pub fn favor_count(&self, id: i64) -> (c: i64)
        ensures
            c == favor_of(self@, id),
    {
        match self.favor.get(&id) {
            Some(c) => *c,
            None => 0,
        }
    }
}

} // verus!
