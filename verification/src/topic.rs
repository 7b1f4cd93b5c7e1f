//! A topic: a poll with a fixed list of options and a quota of participants.

use crate::error::VoteError;
use crate::text::{all_distinct, all_within, copy_texts, find_text, none_within, texts};
use vstd::prelude::*;
use vstd::seq_lib::seq_to_set_is_finite;
use vstd::set_lib::lemma_set_disjoint_lens;

verus! {

/// A poll on which every participant casts at most one vote.
#[derive(Debug, PartialEq, Eq)]
pub struct Topic {
    /// The identifier: the owner's name, the sequence number and the
    /// timestamp of the call that made the topic, joined by underscores.
    pub id: String,
    /// What the poll is about.
    pub topic_desc: String,
    /// The options, in the order in which they were given.
    pub items: Vec<String>,
    /// For each option, by its index, those who chose it.
    pub item_account_by_index: Vec<Vec<String>>,
    /// The quota: how many participants the topic takes.
    pub total_limit: u128,
    /// The participants, in the order in which they voted.
    pub current: Vec<String>,
    /// Whether the topic is closed.
    pub over: bool,
}

/// What a topic holds, as mathematical values.
pub struct TopicView {
    pub id: Seq<char>,
    pub description: Seq<char>,
    pub items: Seq<Seq<char>>,
    /// For each option, by its index, the set of those who chose it.
    pub ballots: Seq<Set<Seq<char>>>,
    pub quota: nat,
    pub participants: Seq<Seq<char>>,
    pub closed: bool,
}

/// The number of votes in all ballots together.
pub open spec fn ballot_total(ballots: Seq<Set<Seq<char>>>) -> nat
    decreases ballots.len(),
{
    if ballots.len() == 0 {
        0
    } else {
        ballot_total(ballots.drop_last()) + ballots.last().len()
    }
}

/// All who are in one of the ballots.
pub open spec fn ballot_union(ballots: Seq<Set<Seq<char>>>) -> Set<Seq<char>>
    decreases ballots.len(),
{
    if ballots.len() == 0 {
        Set::empty()
    } else {
        ballot_union(ballots.drop_last()) + ballots.last()
    }
}

impl TopicView {
    /// The topic as it is made: open, with no vote in any ballot.
    pub open spec fn fresh(
        id: Seq<char>,
        description: Seq<char>,
        items: Seq<Seq<char>>,
        quota: nat,
    ) -> TopicView {
        TopicView {
            id,
            description,
            items,
            ballots: Seq::new(items.len(), |i: int| Set::<Seq<char>>::empty()),
            quota,
            participants: Seq::empty(),
            closed: false,
        }
    }

    /// Whether some ballot holds `who`.
    pub open spec fn in_some_ballot(self, who: Seq<char>) -> bool {
        exists|i: int| 0 <= i < self.ballots.len() && #[trigger] self.ballots[i].contains(who)
    }

    /// What holds of a topic at all times: the description is not empty;
    /// there is at least one option, and one ballot for each; the quota is
    /// at least one; nobody is twice among the participants; there are no
    /// more participants than the quota says, and a topic with as many is
    /// closed; every ballot is finite; no two ballots share anybody; and the
    /// participants are those who are in a ballot.
    pub open spec fn wf(self) -> bool {
        &&& self.description.len() > 0
        &&& self.items.len() >= 1
        &&& self.ballots.len() == self.items.len()
        &&& self.quota >= 1
        &&& self.participants.no_duplicates()
        &&& self.participants.len() <= self.quota
        &&& (self.participants.len() == self.quota ==> self.closed)
        &&& forall|i: int| 0 <= i < self.ballots.len() ==> (#[trigger] self.ballots[i]).finite()
        &&& forall|i: int, j: int|
            0 <= i < self.ballots.len() && 0 <= j < self.ballots.len() && i != j ==> (
            #[trigger] self.ballots[i]).disjoint(#[trigger] self.ballots[j])
        &&& forall|who: Seq<char>| #[trigger]
            self.participants.contains(who) <==> self.in_some_ballot(who)
    }

    /// What a vote of `who` for the option `item` is answered with.
    pub open spec fn ballot_answer(self, who: Seq<char>, item: nat) -> Result<bool, VoteError> {
        if self.closed {
            Err(VoteError::AlreadyClosed)
        } else if self.participants.contains(who) {
            Err(VoteError::DuplicateVote)
        } else if item >= self.ballots.len() {
            Err(VoteError::InvalidOption)
        } else {
            Ok(true)
        }
    }

    /// The topic after `who` has voted for the option `item`: `who` is in
    /// that ballot and is the last participant, and the topic is closed if
    /// the quota is reached.
    pub open spec fn cast(self, who: Seq<char>, item: nat) -> TopicView {
        TopicView {
            ballots: self.ballots.update(item as int, self.ballots[item as int].insert(who)),
            participants: self.participants.push(who),
            closed: self.closed || self.participants.len() + 1 == self.quota,
            ..self
        }
    }

    /// The topic after a vote of `who` for the option `item` was asked for.
    pub open spec fn after_ballot(self, who: Seq<char>, item: nat) -> TopicView {
        if self.ballot_answer(who, item) is Ok {
            self.cast(who, item)
        } else {
            self
        }
    }

    /// What closing the topic by hand is answered with.
    pub open spec fn close_answer(self) -> Result<bool, VoteError> {
        if self.closed {
            Err(VoteError::AlreadyClosed)
        } else {
            Ok(true)
        }
    }

    /// The topic, closed.
    pub open spec fn shut(self) -> TopicView {
        TopicView { closed: true, ..self }
    }
}

/// Somebody is in the union of the ballots if and only if some ballot
/// holds them.
pub proof fn lemma_ballot_union_contains(ballots: Seq<Set<Seq<char>>>, who: Seq<char>)
    ensures
        ballot_union(ballots).contains(who) <==> exists|i: int|
            0 <= i < ballots.len() && (#[trigger] ballots[i]).contains(who),
    decreases ballots.len(),
{
    if ballots.len() > 0 {
        let rest = ballots.drop_last();
        lemma_ballot_union_contains(rest, who);
        if ballot_union(ballots).contains(who) {
            if ballots.last().contains(who) {
                assert(ballots[ballots.len() - 1].contains(who));
            } else {
                let i = choose|i: int| 0 <= i < rest.len() && (#[trigger] rest[i]).contains(who);
                assert(ballots[i].contains(who));
            }
        }
        if exists|i: int| 0 <= i < ballots.len() && (#[trigger] ballots[i]).contains(who) {
            let i = choose|i: int| 0 <= i < ballots.len() && (#[trigger] ballots[i]).contains(who);
            if i < rest.len() {
                assert(rest[i].contains(who));
            }
        }
    }
}

/// Finite ballots of which no two share anybody hold as many votes
/// together as there are people in their union.
pub proof fn lemma_ballot_total_of_disjoint(ballots: Seq<Set<Seq<char>>>)
    requires
        forall|i: int| 0 <= i < ballots.len() ==> (#[trigger] ballots[i]).finite(),
        forall|i: int, j: int|
            0 <= i < ballots.len() && 0 <= j < ballots.len() && i != j ==> (
            #[trigger] ballots[i]).disjoint(#[trigger] ballots[j]),
    ensures
        ballot_union(ballots).finite(),
        ballot_total(ballots) == ballot_union(ballots).len(),
    decreases ballots.len(),
{
    if ballots.len() > 0 {
        let rest = ballots.drop_last();
        let last = ballots.last();
        assert forall|i: int| 0 <= i < rest.len() implies (#[trigger] rest[i]).finite() by {
            assert(ballots[i].finite());
        }
        assert forall|i: int, j: int|
            0 <= i < rest.len() && 0 <= j < rest.len() && i != j implies (#[trigger] rest[i]).disjoint(
            #[trigger] rest[j],
        ) by {
            assert(ballots[i].disjoint(ballots[j]));
        }
        lemma_ballot_total_of_disjoint(rest);
        assert(last == ballots[ballots.len() - 1]);
        assert(ballot_union(rest).disjoint(last)) by {
            assert forall|who: Seq<char>| ballot_union(rest).contains(who) implies !last.contains(
                who,
            ) by {
                lemma_ballot_union_contains(rest, who);
                let i = choose|i: int| 0 <= i < rest.len() && (#[trigger] rest[i]).contains(who);
                assert(ballots[i].disjoint(ballots[ballots.len() - 1]));
            }
        }
        lemma_set_disjoint_lens(ballot_union(rest), last);
    }
}

/// The ballots of a topic hold as many votes together as the topic has
/// participants.
pub proof fn lemma_ballot_total(t: TopicView)
    requires
        t.wf(),
    ensures
        ballot_total(t.ballots) == t.participants.len(),
{
    lemma_ballot_total_of_disjoint(t.ballots);
    assert(ballot_union(t.ballots) =~= t.participants.to_set()) by {
        assert forall|who: Seq<char>|
            ballot_union(t.ballots).contains(who) <==> t.participants.to_set().contains(who) by {
            lemma_ballot_union_contains(t.ballots, who);
            assert(t.participants.contains(who) <==> t.in_some_ballot(who));
        }
    }
    t.participants.unique_seq_to_set();
}

/// A topic made from a description that is not empty, at least one option
/// and a quota of at least one meets all that holds of a topic.
pub proof fn lemma_fresh_wf(
    id: Seq<char>,
    description: Seq<char>,
    items: Seq<Seq<char>>,
    quota: nat,
)
    requires
        description.len() > 0,
        items.len() >= 1,
        quota >= 1,
    ensures
        TopicView::fresh(id, description, items, quota).wf(),
{
}

/// A vote that is accepted keeps all that holds of a topic.
pub proof fn lemma_cast_wf(t: TopicView, who: Seq<char>, item: nat)
    requires
        t.wf(),
        t.ballot_answer(who, item) is Ok,
    ensures
        t.cast(who, item).wf(),
{
    let u = t.cast(who, item);
    let k = item as int;
    assert(!t.in_some_ballot(who));
    assert(!t.ballots[k].contains(who));
    assert(u.participants.no_duplicates());
    assert forall|i: int| 0 <= i < u.ballots.len() implies (#[trigger] u.ballots[i]).finite() by {
        assert(t.ballots[i].finite());
    }
    assert forall|i: int, j: int|
        0 <= i < u.ballots.len() && 0 <= j < u.ballots.len() && i != j implies (
    #[trigger] u.ballots[i]).disjoint(#[trigger] u.ballots[j]) by {
        assert(t.ballots[i].disjoint(t.ballots[j]));
        assert(!t.ballots[i].contains(who));
        assert(!t.ballots[j].contains(who));
    }
    assert forall|w: Seq<char>| #[trigger]
        u.participants.contains(w) <==> u.in_some_ballot(w) by {
        if u.participants.contains(w) {
            if w == who {
                assert(u.ballots[k].contains(w));
            } else {
                let p = choose|p: int| 0 <= p < u.participants.len() && u.participants[p] == w;
                assert(t.participants[p] == w);
                assert(t.participants.contains(w));
                let i = choose|i: int| 0 <= i < t.ballots.len() && t.ballots[i].contains(w);
                assert(u.ballots[i].contains(w));
            }
        }
        if u.in_some_ballot(w) {
            if w == who {
                assert(u.participants[t.participants.len() as int] == w);
            } else {
                let i = choose|i: int| 0 <= i < u.ballots.len() && u.ballots[i].contains(w);
                assert(t.ballots[i].contains(w));
                assert(t.participants.contains(w));
                let p = choose|p: int| 0 <= p < t.participants.len() && t.participants[p] == w;
                assert(u.participants[p] == w);
            }
        }
    }
}

/// Closing keeps all that holds of a topic.
pub proof fn lemma_shut_wf(t: TopicView)
    requires
        t.wf(),
    ensures
        t.shut().wf(),
{
}

impl View for Topic {
    type V = TopicView;

    open spec fn view(&self) -> TopicView {
        TopicView {
            id: self.id@,
            description: self.topic_desc@,
            items: texts(self.items@),
            ballots: Seq::new(
                self.item_account_by_index@.len(),
                |i: int| texts(self.item_account_by_index@[i]@).to_set(),
            ),
            quota: self.total_limit as nat,
            participants: texts(self.current@),
            closed: self.over,
        }
    }
}

/// The identifiers of the topics of a list, one for each.
pub open spec fn ids_of(list: Seq<Topic>) -> Seq<Seq<char>> {
    Seq::new(list.len(), |i: int| list[i].id@)
}

/// What the topics of a list hold, one value for each.
pub open spec fn views(list: Seq<Topic>) -> Seq<TopicView> {
    Seq::new(list.len(), |i: int| list[i]@)
}

impl Topic {
    /// Makes the topic with the given identifier, description, options and
    /// quota: open, with one empty ballot for each option.
    pub fn fresh(id: String, topic_desc: String, items: Vec<String>, total_limit: u128) -> (topic:
        Topic)
        ensures
            topic@ == TopicView::fresh(id@, topic_desc@, texts(items@), total_limit as nat),
    {
        let mut ballots: Vec<Vec<String>> = Vec::new();
        let mut i: usize = 0;
        while i < items.len()
            invariant
                i <= items.len(),
                ballots.len() == i,
                forall|j: int| 0 <= j < i ==> (#[trigger] ballots[j])@.len() == 0,
            decreases items.len() - i,
        {
            ballots.push(Vec::new());
            i += 1;
        }
        let topic = Topic {
            id,
            topic_desc,
            items,
            item_account_by_index: ballots,
            total_limit,
            current: Vec::new(),
            over: false,
        };
        proof {
            let want = TopicView::fresh(id@, topic_desc@, texts(items@), total_limit as nat);
            assert forall|j: int| 0 <= j < topic@.ballots.len() implies topic@.ballots[j]
                == want.ballots[j] by {
                assert(texts(ballots[j]@).to_set() =~= Set::<Seq<char>>::empty());
            }
            assert(topic@.ballots =~= want.ballots);
            assert(topic@.participants =~= want.participants);
        }
        topic
    }

    /// Whether the topic meets what holds of a topic at all times.
    pub fn is_valid(&self) -> (ok: bool)
        ensures
            ok == self@.wf(),
    {
        let ghost t = self@;
        let ghost people = t.participants;
        if self.topic_desc.as_str().is_empty() {
            return false;
        }
        if self.items.len() == 0 || self.item_account_by_index.len() != self.items.len() {
            return false;
        }
        if self.total_limit == 0 || self.current.len() as u128 > self.total_limit {
            return false;
        }
        if self.current.len() as u128 == self.total_limit && !self.over {
            return false;
        }
        if !all_distinct(&self.current) {
            return false;
        }
        let n = self.item_account_by_index.len();
        let mut i: usize = 0;
        while i < n
            invariant
                i <= n,
                n == self.item_account_by_index.len(),
                t == self@,
                people == t.participants,
                forall|a: int|
                    0 <= a < i ==> (#[trigger] t.ballots[a]).subset_of(people.to_set()),
                forall|a: int, b: int|
                    0 <= a < i && 0 <= b < a ==> (#[trigger] t.ballots[a]).disjoint(
                        #[trigger] t.ballots[b],
                    ),
            decreases n - i,
        {
            let ballot = &self.item_account_by_index[i];
            let ghost names = texts(ballot@);
            assert(t.ballots[i as int] == names.to_set());
            if !all_within(ballot, &self.current) {
                proof {
                    let q = choose|q: int| 0 <= q < names.len() && !people.contains(names[q]);
                    assert(names.contains(names[q]));
                    assert(t.ballots[i as int].contains(names[q]));
                    assert(t.in_some_ballot(names[q]));
                }
                return false;
            }
            assert(t.ballots[i as int].subset_of(people.to_set())) by {
                assert forall|who: Seq<char>| t.ballots[i as int].contains(who) implies people.contains(
                    who,
                ) by {
                    let q = choose|q: int| 0 <= q < names.len() && names[q] == who;
                    assert(people.contains(names[q]));
                }
            }
            let mut j: usize = 0;
            while j < i
                invariant
                    j <= i,
                    i < n,
                    n == self.item_account_by_index.len(),
                    t == self@,
                    ballot == &self.item_account_by_index[i as int],
                    names == texts(ballot@),
                    t.ballots[i as int] == names.to_set(),
                    forall|b: int|
                        0 <= b < j ==> t.ballots[i as int].disjoint(#[trigger] t.ballots[b]),
                decreases i - j,
            {
                let other = &self.item_account_by_index[j];
                let ghost others = texts(other@);
                assert(t.ballots[j as int] == others.to_set());
                if !none_within(ballot, other) {
                    proof {
                        let q = choose|q: int| 0 <= q < names.len() && others.contains(names[q]);
                        assert(names.contains(names[q]));
                        assert(t.ballots[i as int].contains(names[q]));
                        assert(t.ballots[j as int].contains(names[q]));
                        assert(!t.ballots[i as int].disjoint(t.ballots[j as int]));
                    }
                    return false;
                }
                assert(t.ballots[i as int].disjoint(t.ballots[j as int])) by {
                    assert forall|who: Seq<char>|
                        t.ballots[i as int].contains(who) implies !t.ballots[j as int].contains(
                        who,
                    ) by {
                        let q = choose|q: int| 0 <= q < names.len() && names[q] == who;
                        assert(!others.contains(names[q]));
                    }
                }
                j += 1;
            }
            i += 1;
        }
        let mut k: usize = 0;
        while k < self.current.len()
            invariant
                k <= self.current.len(),
                n == self.item_account_by_index.len(),
                t == self@,
                people == t.participants,
                forall|p: int| 0 <= p < k ==> t.in_some_ballot(#[trigger] people[p]),
            decreases self.current.len() - k,
        {
            let mut found = false;
            let mut a: usize = 0;
            while a < n && !found
                invariant
                    a <= n,
                    k < self.current.len(),
                    n == self.item_account_by_index.len(),
                    t == self@,
                    people == t.participants,
                    found ==> t.in_some_ballot(people[k as int]),
                    !found ==> forall|b: int|
                        0 <= b < a ==> !(#[trigger] t.ballots[b]).contains(people[k as int]),
                decreases n - a,
            {
                if find_text(&self.item_account_by_index[a], &self.current[k]).is_some() {
                    assert(texts(self.item_account_by_index[a as int]@).contains(people[k as int]));
                    assert(t.ballots[a as int].contains(people[k as int]));
                    found = true;
                }
                a += 1;
            }
            if !found {
                assert(people.contains(people[k as int]));
                assert(!t.in_some_ballot(people[k as int]));
                return false;
            }
            k += 1;
        }
        proof {
            assert forall|a: int| 0 <= a < t.ballots.len() implies (#[trigger] t.ballots[a]).finite() by {
                seq_to_set_is_finite(texts(self.item_account_by_index@[a]@));
            }
            assert forall|a: int, b: int|
                0 <= a < t.ballots.len() && 0 <= b < t.ballots.len() && a != b implies (
            #[trigger] t.ballots[a]).disjoint(#[trigger] t.ballots[b]) by {
                if a < b {
                    assert(t.ballots[b].disjoint(t.ballots[a]));
                }
            }
            assert forall|who: Seq<char>| #[trigger]
                people.contains(who) <==> t.in_some_ballot(who) by {
                if people.contains(who) {
                    let p = choose|p: int| 0 <= p < people.len() && people[p] == who;
                    assert(t.in_some_ballot(people[p]));
                }
                if t.in_some_ballot(who) {
                    let a = choose|a: int|
                        0 <= a < t.ballots.len() && (#[trigger] t.ballots[a]).contains(who);
                    assert(t.ballots[a].subset_of(people.to_set()));
                }
            }
        }
        true
    }

    /// Takes the vote of `account_id` for the option `item`, if the topic is
    /// open, `account_id` has not voted and the topic has that option.
    pub fn cast(&mut self, account_id: String, item: usize) -> (answer: Result<bool, VoteError>)
        ensures
            answer == old(self)@.ballot_answer(account_id@, item as nat),
            final(self)@ == old(self)@.after_ballot(account_id@, item as nat),
    {
        if self.over {
            return Err(VoteError::AlreadyClosed);
        }
        if find_text(&self.current, &account_id).is_some() {
            return Err(VoteError::DuplicateVote);
        }
        if item >= self.item_account_by_index.len() {
            return Err(VoteError::InvalidOption);
        }
        let ghost before = *self;
        self.item_account_by_index[item].push(account_id.clone());
        self.current.push(account_id);
        if self.total_limit == self.current.len() as u128 {
            self.over = true;
        }
        proof {
            let want = before@.cast(account_id@, item as nat);
            let inner = before.item_account_by_index@[item as int]@;
            assert(texts(inner.push(account_id)) =~= texts(inner).push(account_id@));
            texts(inner).lemma_push_to_set_commute(account_id@);
            assert forall|j: int| 0 <= j < self@.ballots.len() implies self@.ballots[j]
                == want.ballots[j] by {}
            assert(self@.ballots =~= want.ballots);
            assert(self@.participants =~= want.participants);
        }
        Ok(true)
    }

    /// Closes the topic, if it is open.
    pub fn close(&mut self) -> (answer: Result<bool, VoteError>)
        ensures
            answer == old(self)@.close_answer(),
            final(self)@ == (if answer is Ok {
                old(self)@.shut()
            } else {
                old(self)@
            }),
    {
        if self.over {
            return Err(VoteError::AlreadyClosed);
        }
        self.over = true;
        Ok(true)
    }
}

impl Clone for Topic {
    /// A copy that holds what the topic holds.
    fn clone(&self) -> (copy: Topic)
        ensures
            copy@ == self@,
    {
        let mut ballots: Vec<Vec<String>> = Vec::new();
        let mut i: usize = 0;
        while i < self.item_account_by_index.len()
            invariant
                i <= self.item_account_by_index.len(),
                ballots.len() == i,
                forall|j: int|
                    0 <= j < i ==> texts((#[trigger] ballots[j])@) == texts(
                        self.item_account_by_index[j]@,
                    ),
            decreases self.item_account_by_index.len() - i,
        {
            ballots.push(copy_texts(&self.item_account_by_index[i]));
            i += 1;
        }
        let copy = Topic {
            id: self.id.clone(),
            topic_desc: self.topic_desc.clone(),
            items: copy_texts(&self.items),
            item_account_by_index: ballots,
            total_limit: self.total_limit,
            current: copy_texts(&self.current),
            over: self.over,
        };
        assert(copy@.ballots =~= self@.ballots);
        copy
    }
}

} // verus!
