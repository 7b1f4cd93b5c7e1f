//! The ledger as a mathematical value, and what each operation makes of it.

use crate::error::{InputFault, VoteError};
use crate::ident::topic_id;
use crate::text::text_lt;
use crate::topic::{lemma_cast_wf, lemma_fresh_wf, lemma_shut_wf, TopicView};
use vstd::prelude::*;

verus! {

/// What the ledger holds: the topics by identifier, and for each owner the
/// identifiers of the topics that the owner made.
pub struct ContractView {
    pub topics: Map<Seq<char>, TopicView>,
    pub search: Map<Seq<char>, Set<Seq<char>>>,
}

/// Whether one of the topics in `listed` has the identifier `id`.
pub open spec fn holds_id(listed: Seq<TopicView>, id: Seq<char>) -> bool {
    exists|k: int| 0 <= k < listed.len() && (#[trigger] listed[k]).id == id
}

impl ContractView {
    /// The ledger without any topic.
    pub open spec fn empty() -> ContractView {
        ContractView { topics: Map::empty(), search: Map::empty() }
    }

    /// What holds of the ledger at all times: every topic stands under its
    /// own identifier and meets what holds of a topic; every owner's entry
    /// is a finite set, not empty, of identifiers of topics in the ledger.
    pub open spec fn wf(self) -> bool {
        &&& self.topics.dom().finite()
        &&& self.search.dom().finite()
        &&& forall|id: Seq<char>| #[trigger]
            self.topics.contains_key(id) ==> self.topics[id].id == id && self.topics[id].wf()
        &&& forall|owner: Seq<char>| #[trigger]
            self.search.contains_key(owner) ==> {
                &&& self.search[owner].finite()
                &&& self.search[owner].len() > 0
                &&& self.search[owner].subset_of(self.topics.dom())
            }
    }

    /// The identifiers of the topics that `owner` made.
    pub open spec fn owned_by(self, owner: Seq<char>) -> Set<Seq<char>> {
        if self.search.contains_key(owner) {
            self.search[owner]
        } else {
            Set::empty()
        }
    }

    /// What a call for a new topic is answered with. The description is
    /// looked at first, then the options, then the quota.
    pub open spec fn create_answer(
        description: Seq<char>,
        items: Seq<Seq<char>>,
        quota: nat,
    ) -> Result<bool, VoteError> {
        if description.len() == 0 {
            Err(VoteError::InvalidInput(InputFault::EmptyDescription))
        } else if items.len() == 0 {
            Err(VoteError::InvalidInput(InputFault::NoOptions))
        } else if quota == 0 {
            Err(VoteError::InvalidInput(InputFault::NonPositiveQuota))
        } else {
            Ok(true)
        }
    }

    /// The ledger with `topic` under its identifier, in place of any topic
    /// that stood there, and with that identifier in the entry of `owner`.
    pub open spec fn with_topic(self, owner: Seq<char>, topic: TopicView) -> ContractView {
        ContractView {
            topics: self.topics.insert(topic.id, topic),
            search: self.search.insert(owner, self.owned_by(owner).insert(topic.id)),
        }
    }

    /// The ledger after `owner` asked for a new topic at the given sequence
    /// number and timestamp.
    pub open spec fn after_create(
        self,
        owner: Seq<char>,
        sequence: nat,
        timestamp: nat,
        description: Seq<char>,
        items: Seq<Seq<char>>,
        quota: nat,
    ) -> ContractView {
        if Self::create_answer(description, items, quota) is Ok {
            self.with_topic(
                owner,
                TopicView::fresh(topic_id(owner, sequence, timestamp), description, items, quota),
            )
        } else {
            self
        }
    }

    /// What a vote of `caller` for the option `item` of the topic `id` is
    /// answered with.
    pub open spec fn vote_answer(self, caller: Seq<char>, id: Seq<char>, item: nat) -> Result<
        bool,
        VoteError,
    > {
        if !self.topics.contains_key(id) {
            Err(VoteError::NotFound)
        } else {
            self.topics[id].ballot_answer(caller, item)
        }
    }

    /// The ledger after `caller` asked to vote for the option `item` of the
    /// topic `id`.
    pub open spec fn after_vote(self, caller: Seq<char>, id: Seq<char>, item: nat) -> ContractView {
        if self.vote_answer(caller, id, item) is Ok {
            ContractView { topics: self.topics.insert(id, self.topics[id].cast(caller, item)), ..self }
        } else {
            self
        }
    }

    /// What closing the topic `id` by hand is answered with.
    pub open spec fn close_answer(self, id: Seq<char>) -> Result<bool, VoteError> {
        if !self.topics.contains_key(id) {
            Err(VoteError::NotFound)
        } else {
            self.topics[id].close_answer()
        }
    }

    /// The ledger after the topic `id` was asked to be closed.
    pub open spec fn after_close(self, id: Seq<char>) -> ContractView {
        if self.close_answer(id) is Ok {
            ContractView { topics: self.topics.insert(id, self.topics[id].shut()), ..self }
        } else {
            self
        }
    }

    /// Whether `listed` is the listing of the topics of `owner`: it holds
    /// each topic that `owner` made as it stands in the ledger, and no other,
    /// each identifier less than the one before it.
    pub open spec fn lists(self, owner: Seq<char>, listed: Seq<TopicView>) -> bool {
        &&& forall|id: Seq<char>|
            self.owned_by(owner).contains(id) <==> #[trigger] holds_id(listed, id)
        &&& forall|k: int|
            0 <= k < listed.len() ==> self.topics.contains_key((#[trigger] listed[k]).id)
                && listed[k] == self.topics[listed[k].id]
        &&& forall|i: int, j: int|
            0 <= i < j < listed.len() ==> text_lt(
                (#[trigger] listed[j]).id,
                (#[trigger] listed[i]).id,
            )
    }
}

/// Putting a topic that meets what holds of a topic into the ledger keeps
/// what holds of the ledger.
pub proof fn lemma_with_topic_wf(s: ContractView, owner: Seq<char>, topic: TopicView)
    requires
        s.wf(),
        topic.wf(),
    ensures
        s.with_topic(owner, topic).wf(),
{
}

/// A call for a new topic keeps what holds of the ledger.
pub proof fn lemma_after_create_wf(
    s: ContractView,
    owner: Seq<char>,
    sequence: nat,
    timestamp: nat,
    description: Seq<char>,
    items: Seq<Seq<char>>,
    quota: nat,
)
    requires
        s.wf(),
    ensures
        s.after_create(owner, sequence, timestamp, description, items, quota).wf(),
{
    if ContractView::create_answer(description, items, quota) is Ok {
        let id = topic_id(owner, sequence, timestamp);
        lemma_fresh_wf(id, description, items, quota);
        lemma_with_topic_wf(s, owner, TopicView::fresh(id, description, items, quota));
    }
}

/// Putting a changed topic in the place of the one with its identifier
/// keeps what holds of the ledger.
proof fn lemma_replace_wf(s: ContractView, id: Seq<char>, topic: TopicView)
    requires
        s.wf(),
        s.topics.contains_key(id),
        topic.id == id,
        topic.wf(),
    ensures
        (ContractView { topics: s.topics.insert(id, topic), ..s }).wf(),
{
}

/// A call to vote keeps what holds of the ledger.
pub proof fn lemma_after_vote_wf(s: ContractView, caller: Seq<char>, id: Seq<char>, item: nat)
    requires
        s.wf(),
    ensures
        s.after_vote(caller, id, item).wf(),
{
    if s.vote_answer(caller, id, item) is Ok {
        lemma_cast_wf(s.topics[id], caller, item);
        lemma_replace_wf(s, id, s.topics[id].cast(caller, item));
    }
}

/// A call to close a topic keeps what holds of the ledger.
pub proof fn lemma_after_close_wf(s: ContractView, id: Seq<char>)
    requires
        s.wf(),
    ensures
        s.after_close(id).wf(),
{
    if s.close_answer(id) is Ok {
        lemma_shut_wf(s.topics[id]);
        lemma_replace_wf(s, id, s.topics[id].shut());
    }
}

} // verus!
