//! What holds of every ledger that calls can lead to.
//!
//! A ledger starts without any topic and changes only by calls for a new
//! topic, for a vote and for closing a topic: `Contract::new` makes the
//! ledger that no call leads to, and `create_topic`, `vote` and `over` change
//! a ledger as `ContractView::after` says of the call. The laws here are
//! stated of the ledger that a sequence of such calls leads to.

use crate::error::VoteError;
use crate::ident::{lemma_topic_ids_distinct, topic_id};
use crate::state::{
    holds_id, lemma_after_close_wf, lemma_after_create_wf, lemma_after_vote_wf, ContractView,
};
use crate::topic::{ballot_total, lemma_ballot_total, TopicView};
use vstd::prelude::*;

verus! {

/// A call that may change the ledger.
pub enum Call {
    /// `owner` asks for a new topic.
    Create {
        owner: Seq<char>,
        sequence: nat,
        timestamp: nat,
        description: Seq<char>,
        items: Seq<Seq<char>>,
        quota: nat,
    },
    /// `caller` asks to vote for the option `item` of the topic `id`.
    Vote { caller: Seq<char>, id: Seq<char>, item: nat },
    /// The topic `id` is asked to be closed.
    Close { id: Seq<char> },
}

impl Call {
    /// Whether the call makes a topic under the identifier `id`: it asks for
    /// a new topic, is granted, and `id` is the identifier made from its
    /// owner, sequence number and timestamp.
    pub open spec fn makes(self, id: Seq<char>) -> bool {
        match self {
            Call::Create { owner, sequence, timestamp, description, items, quota } => {
                &&& ContractView::create_answer(description, items, quota) is Ok
                &&& topic_id(owner, sequence, timestamp) == id
            },
            _ => false,
        }
    }

    /// Whether the call makes a topic for `owner` under the identifier `id`.
    pub open spec fn makes_for(self, owner: Seq<char>, id: Seq<char>) -> bool {
        self.makes(id) && self->owner == owner
    }
}

impl ContractView {
    /// What the call is answered with.
    pub open spec fn answer(self, call: Call) -> Result<bool, VoteError> {
        match call {
            Call::Create { description, items, quota, .. } => Self::create_answer(
                description,
                items,
                quota,
            ),
            Call::Vote { caller, id, item } => self.vote_answer(caller, id, item),
            Call::Close { id } => self.close_answer(id),
        }
    }

    /// The ledger after the call.
    pub open spec fn after(self, call: Call) -> ContractView {
        match call {
            Call::Create {
                owner,
                sequence,
                timestamp,
                description,
                items,
                quota,
            } => self.after_create(owner, sequence, timestamp, description, items, quota),
            Call::Vote { caller, id, item } => self.after_vote(caller, id, item),
            Call::Close { id } => self.after_close(id),
        }
    }
}

/// The ledger that the calls lead to, made one after the other on a ledger
/// without any topic.
pub open spec fn reached(calls: Seq<Call>) -> ContractView
    decreases calls.len(),
{
    if calls.len() == 0 {
        ContractView::empty()
    } else {
        reached(calls.drop_last()).after(calls.last())
    }
}

/// Every call keeps what holds of the ledger.
pub proof fn lemma_after_wf(s: ContractView, call: Call)
    requires
        s.wf(),
    ensures
        s.after(call).wf(),
{
    match call {
        Call::Create { owner, sequence, timestamp, description, items, quota } => {
            lemma_after_create_wf(s, owner, sequence, timestamp, description, items, quota);
        },
        Call::Vote { caller, id, item } => {
            lemma_after_vote_wf(s, caller, id, item);
        },
        Call::Close { id } => {
            lemma_after_close_wf(s, id);
        },
    }
}

/// Whatever the calls, the ledger that they lead to meets what holds of a
/// ledger.
pub proof fn lemma_reached_wf(calls: Seq<Call>)
    ensures
        reached(calls).wf(),
    decreases calls.len(),
{
    if calls.len() > 0 {
        lemma_reached_wf(calls.drop_last());
        lemma_after_wf(reached(calls.drop_last()), calls.last());
    }
}

/// No call removes a topic from the ledger, an owner from the index or an
/// identifier from the entry of an owner.
pub proof fn lemma_nothing_is_removed(s: ContractView, call: Call)
    ensures
        s.topics.dom().subset_of(s.after(call).topics.dom()),
        s.search.dom().subset_of(s.after(call).search.dom()),
        forall|owner: Seq<char>| #[trigger]
            s.owned_by(owner).subset_of(s.after(call).owned_by(owner)),
{
}

/// A vote and the closing of a topic leave to every topic its identifier,
/// its description, its options and its quota, and the participants that
/// it has, in their order; a topic that is closed stays closed.
pub proof fn lemma_terms_are_kept(s: ContractView, call: Call, id: Seq<char>)
    requires
        s.topics.contains_key(id),
        !(call is Create),
    ensures
        s.after(call).topics.contains_key(id),
        ({
            let before = s.topics[id];
            let after = s.after(call).topics[id];
            &&& after.id == before.id
            &&& after.description == before.description
            &&& after.items == before.items
            &&& after.quota == before.quota
            &&& before.participants.is_prefix_of(after.participants)
            &&& before.closed ==> after.closed
        }),
{
}

/// Two calls for a new topic that differ in owner, sequence number or
/// timestamp do not make topics under the same identifier.
pub proof fn lemma_calls_make_distinct_topics(first: Call, second: Call, id: Seq<char>)
    requires
        first is Create,
        second is Create,
        first->owner != second->owner || first->sequence != second->sequence || first->timestamp
            != second->timestamp,
    ensures
        !(first.makes(id) && second.makes(id)),
{
    lemma_topic_ids_distinct(
        first->owner,
        first->sequence,
        first->timestamp,
        second->owner,
        second->sequence,
        second->timestamp,
    );
}

/// Every topic in the ledger was made by one of the calls.
pub proof fn lemma_topic_was_made(calls: Seq<Call>, id: Seq<char>)
    requires
        reached(calls).topics.contains_key(id),
    ensures
        exists|i: int| 0 <= i < calls.len() && (#[trigger] calls[i]).makes(id),
    decreases calls.len(),
{
    if calls.len() > 0 {
        let earlier = calls.drop_last();
        if calls.last().makes(id) {
            assert(calls[calls.len() - 1].makes(id));
        } else {
            lemma_topic_was_made(earlier, id);
            let i = choose|i: int| 0 <= i < earlier.len() && (#[trigger] earlier[i]).makes(id);
            assert(calls[i].makes(id));
        }
    }
}

/// A topic never has more participants than its quota says, and one that
/// has as many is closed.
pub proof fn lemma_quota_is_kept(calls: Seq<Call>, id: Seq<char>)
    requires
        reached(calls).topics.contains_key(id),
    ensures
        reached(calls).topics[id].participants.len() <= reached(calls).topics[id].quota,
        reached(calls).topics[id].participants.len() == reached(calls).topics[id].quota
            ==> reached(calls).topics[id].closed,
{
    lemma_reached_wf(calls);
}

/// Whether the call at place `i` closes the topic `id` by hand: it asks for
/// that, and the ledger that the calls before it lead to grants it.
pub open spec fn closes_by_hand(calls: Seq<Call>, i: int, id: Seq<char>) -> bool {
    calls[i] == (Call::Close { id }) && reached(calls.take(i)).close_answer(id) is Ok
}

/// A topic that no call has closed by hand is closed if and only if it has
/// as many participants as its quota says.
pub proof fn lemma_closed_exactly_at_quota(calls: Seq<Call>, id: Seq<char>)
    requires
        reached(calls).topics.contains_key(id),
        forall|i: int| 0 <= i < calls.len() ==> !closes_by_hand(calls, i, id),
    ensures
        reached(calls).topics[id].closed <==> reached(calls).topics[id].participants.len()
            == reached(calls).topics[id].quota,
    decreases calls.len(),
{
    if calls.len() > 0 {
        let earlier = calls.drop_last();
        let n = earlier.len() as int;
        lemma_reached_wf(earlier);
        assert(calls.take(n) =~= earlier);
        assert(!closes_by_hand(calls, n, id));
        if !calls.last().makes(id) {
            assert forall|i: int| 0 <= i < n implies !closes_by_hand(earlier, i, id) by {
                assert(earlier.take(i) =~= calls.take(i));
                assert(!closes_by_hand(calls, i, id));
            }
            lemma_closed_exactly_at_quota(earlier, id);
        }
    }
}

/// Nobody is twice among the participants of a topic.
pub proof fn lemma_participants_are_distinct(calls: Seq<Call>, id: Seq<char>)
    requires
        reached(calls).topics.contains_key(id),
    ensures
        reached(calls).topics[id].participants.no_duplicates(),
{
    lemma_reached_wf(calls);
}

/// A call that does not make a topic under the identifier of a closed
/// topic leaves that topic closed.
pub proof fn lemma_call_keeps_closed(s: ContractView, call: Call, id: Seq<char>)
    requires
        s.topics.contains_key(id),
        s.topics[id].closed,
        !call.makes(id),
    ensures
        s.after(call).topics.contains_key(id),
        s.after(call).topics[id].closed,
{
}

/// Once a topic is closed, every later call to vote on it or to close it
/// fails with `AlreadyClosed`, until a call makes a topic under its
/// identifier again.
///
/// The topic is closed after the first `k` calls, and none of the calls
/// from place `k` up to place `j` makes a topic under its identifier. Then
/// the ledger that the first `j` calls lead to holds the topic closed, and
/// answers so to whatever vote and to closing.
pub proof fn lemma_closed_topic_refuses(calls: Seq<Call>, k: int, j: int, id: Seq<char>)
    requires
        0 <= k <= j <= calls.len(),
        reached(calls.take(k)).topics.contains_key(id),
        reached(calls.take(k)).topics[id].closed,
        forall|i: int| k <= i < j ==> !(#[trigger] calls[i]).makes(id),
    ensures
        reached(calls.take(j)).topics.contains_key(id),
        reached(calls.take(j)).topics[id].closed,
        reached(calls.take(j)).close_answer(id) == Err::<bool, VoteError>(
            VoteError::AlreadyClosed,
        ),
        forall|caller: Seq<char>, item: nat| #[trigger]
            reached(calls.take(j)).vote_answer(caller, id, item) == Err::<bool, VoteError>(
                VoteError::AlreadyClosed,
            ),
    decreases j - k,
{
    if j > k {
        lemma_closed_topic_refuses(calls, k, j - 1, id);
        assert(calls.take(j).drop_last() =~= calls.take(j - 1));
        lemma_call_keeps_closed(reached(calls.take(j - 1)), calls[j - 1], id);
    }
}

/// Where no two calls make a topic under the same identifier, a topic that
/// is closed stays closed, and every later call to vote on it or to close
/// it fails with `AlreadyClosed`.
pub proof fn lemma_closed_topic_refuses_for_ever(calls: Seq<Call>, k: int, j: int, id: Seq<char>)
    requires
        0 <= k <= j <= calls.len(),
        reached(calls.take(k)).topics.contains_key(id),
        reached(calls.take(k)).topics[id].closed,
        forall|a: int, b: int|
            0 <= a < b < calls.len() ==> !((#[trigger] calls[a]).makes(id) && (
            #[trigger] calls[b]).makes(id)),
    ensures
        reached(calls.take(j)).topics.contains_key(id),
        reached(calls.take(j)).topics[id].closed,
        reached(calls.take(j)).close_answer(id) == Err::<bool, VoteError>(
            VoteError::AlreadyClosed,
        ),
        forall|caller: Seq<char>, item: nat| #[trigger]
            reached(calls.take(j)).vote_answer(caller, id, item) == Err::<bool, VoteError>(
                VoteError::AlreadyClosed,
            ),
{
    lemma_topic_was_made(calls.take(k), id);
    let a = choose|a: int| 0 <= a < k && (#[trigger] calls.take(k)[a]).makes(id);
    assert(calls[a].makes(id));
    lemma_closed_topic_refuses(calls, k, j, id);
}

/// The ballots of a topic hold as many votes together as the topic has
/// participants; every participant is in a ballot, and no two ballots
/// share a participant.
pub proof fn lemma_ballots_match_participants(calls: Seq<Call>, id: Seq<char>)
    requires
        reached(calls).topics.contains_key(id),
    ensures
        ({
            let topic = reached(calls).topics[id];
            &&& ballot_total(topic.ballots) == topic.participants.len()
            &&& forall|who: Seq<char>| #[trigger]
                topic.participants.contains(who) <==> topic.in_some_ballot(who)
            &&& forall|i: int, j: int|
                0 <= i < topic.ballots.len() && 0 <= j < topic.ballots.len() && i != j ==> (
                #[trigger] topic.ballots[i]).disjoint(#[trigger] topic.ballots[j])
        }),
{
    lemma_reached_wf(calls);
    lemma_ballot_total(reached(calls).topics[id]);
}

/// An owner has an entry in the index if and only if one of the calls made
/// a topic for that owner, and the entry holds the identifiers of the
/// topics that the calls made for that owner, and no other.
pub proof fn lemma_index_holds_what_was_made(calls: Seq<Call>, owner: Seq<char>)
    ensures
        reached(calls).search.contains_key(owner) <==> exists|i: int, id: Seq<char>|
            0 <= i < calls.len() && (#[trigger] calls[i].makes_for(owner, id)),
        forall|id: Seq<char>|
            reached(calls).owned_by(owner).contains(id) <==> exists|i: int|
                0 <= i < calls.len() && (#[trigger] calls[i].makes_for(owner, id)),
    decreases calls.len(),
{
    if calls.len() > 0 {
        let earlier = calls.drop_last();
        let last = calls.last();
        let n = earlier.len() as int;
        let before = reached(earlier);
        let now = reached(calls);
        lemma_index_holds_what_was_made(earlier, owner);
        lemma_reached_wf(earlier);
        assert forall|id: Seq<char>|
            now.owned_by(owner).contains(id) <==> exists|i: int|
                0 <= i < calls.len() && (#[trigger] calls[i].makes_for(owner, id)) by {
            if now.owned_by(owner).contains(id) {
                if before.owned_by(owner).contains(id) {
                    let i = choose|i: int|
                        0 <= i < earlier.len() && (#[trigger] earlier[i].makes_for(owner, id));
                    assert(calls[i].makes_for(owner, id));
                } else {
                    assert(calls[n].makes_for(owner, id));
                }
            }
            if exists|i: int| 0 <= i < calls.len() && (#[trigger] calls[i].makes_for(owner, id)) {
                let i = choose|i: int|
                    0 <= i < calls.len() && (#[trigger] calls[i].makes_for(owner, id));
                if i < n {
                    assert(earlier[i].makes_for(owner, id));
                    assert(before.owned_by(owner).contains(id));
                }
            }
        }
        if now.search.contains_key(owner) {
            if before.search.contains_key(owner) {
                let (i, id) = choose|i: int, id: Seq<char>|
                    0 <= i < earlier.len() && (#[trigger] earlier[i].makes_for(owner, id));
                assert(calls[i].makes_for(owner, id));
            } else {
                match last {
                    Call::Create { owner: by, sequence, timestamp, .. } => {
                        assert(calls[n].makes_for(owner, topic_id(by, sequence, timestamp)));
                    },
                    _ => {},
                }
            }
        }
        if exists|i: int, id: Seq<char>|
            0 <= i < calls.len() && (#[trigger] calls[i].makes_for(owner, id)) {
            let (i, id) = choose|i: int, id: Seq<char>|
                0 <= i < calls.len() && (#[trigger] calls[i].makes_for(owner, id));
            if i < n {
                assert(earlier[i].makes_for(owner, id));
            }
        }
    }
}

/// A listing of the topics of an owner holds the topics that the calls
/// made for that owner, and no other.
pub proof fn lemma_listing_holds_what_was_made(
    calls: Seq<Call>,
    owner: Seq<char>,
    listed: Seq<TopicView>,
)
    requires
        reached(calls).lists(owner, listed),
    ensures
        forall|id: Seq<char>| #[trigger]
            holds_id(listed, id) <==> exists|i: int|
                0 <= i < calls.len() && (#[trigger] calls[i].makes_for(owner, id)),
{
    lemma_index_holds_what_was_made(calls, owner);
}

} // verus!
