use vstd::prelude::*;

verus! {

/// A proposal that the nodes agree on.
#[derive(Debug)]
pub struct Proposal {
    pub id: i64,
    pub subject: String,
    pub description: String,
}

/// The mathematical value of a [`Proposal`].
pub struct ProposalView {
    pub id: i64,
    pub subject: Seq<char>,
    pub description: Seq<char>,
}

impl View for Proposal {
    type V = ProposalView;

    open spec fn view(&self) -> ProposalView {
        ProposalView { id: self.id, subject: self.subject@, description: self.description@ }
    }
}

/// Two proposals are the same when their id, subject and description agree.
pub open spec fn same_proposal(a: ProposalView, b: ProposalView) -> bool {
    a.id == b.id && a.subject == b.subject && a.description == b.description
}

/// Sameness of proposals is an equivalence: reflexive, symmetric and transitive.
pub proof fn lemma_same_proposal_equivalence(a: ProposalView, b: ProposalView, c: ProposalView)
    ensures
        same_proposal(a, a),
        same_proposal(a, b) ==> same_proposal(b, a),
        same_proposal(a, b) && same_proposal(b, c) ==> same_proposal(a, c),
{
}

/// Two proposals are the same exactly when their values are equal: every
/// field takes part.
pub proof fn lemma_same_proposal_is_equality(a: ProposalView, b: ProposalView)
    ensures
        same_proposal(a, b) <==> a == b,
{
}

impl PartialEq for Proposal {
    fn eq(&self, other: &Self) -> (r: bool)
        ensures
            r == (self@ == other@),
    {
        self.id == other.id && self.subject == other.subject && self.description
            == other.description
    }
}

impl vstd::std_specs::cmp::PartialEqSpecImpl for Proposal {
    open spec fn obeys_eq_spec() -> bool {
        true
    }

    open spec fn eq_spec(&self, other: &Self) -> bool {
        same_proposal(self@, other@)
    }
}

impl Eq for Proposal {}

/// A node's vote on a proposal: `1` is a vote in favor.
#[derive(Debug)]
pub struct Vote {
    pub id: i64,
    pub ip: String,
    pub vote: i8,
}

/// The mathematical value of a [`Vote`].
pub struct VoteView {
    pub id: i64,
    pub ip: Seq<char>,
    pub vote: i8,
}

impl View for Vote {
    type V = VoteView;

    open spec fn view(&self) -> VoteView {
        VoteView { id: self.id, ip: self.ip@, vote: self.vote }
    }
}

/// The answer a node sends to the client once a proposal is committed.
#[derive(Debug)]
pub struct Reply {
    pub from: String,
    pub vote: i8,
    pub id: i64,
    pub f: i64,
    pub total: i64,
}

/// The mathematical value of a [`Reply`].
pub struct ReplyView {
    pub from: Seq<char>,
    pub vote: i8,
    pub id: i64,
    pub f: i64,
    pub total: i64,
}

impl View for Reply {
    type V = ReplyView;

    open spec fn view(&self) -> ReplyView {
        ReplyView { from: self.from@, vote: self.vote, id: self.id, f: self.f, total: self.total }
    }
}

} // verus!
