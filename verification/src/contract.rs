//! The ledger: the topics, the index of their owners, and the operations.

use crate::error::{InputFault, VoteError};
use crate::ident::generate;
use crate::state::{
    holds_id, lemma_after_close_wf, lemma_after_create_wf, lemma_after_vote_wf, ContractView,
};
use crate::text::{
    all_distinct, copy_texts, find_text, lemma_text_lt_total, lemma_text_lt_transitive, text_less,
    text_lt, texts,
};
use crate::topic::{ids_of, views, Topic, TopicView};
use vstd::prelude::*;
use vstd::seq_lib::seq_to_set_is_finite;

verus! {

/// The map that takes each of `keys` to the value at the same place in
/// `values`.
spec fn paired<V>(keys: Seq<Seq<char>>, values: Seq<V>) -> Map<Seq<char>, V> {
    Map::new(|k: Seq<char>| keys.contains(k), |k: Seq<char>| values[keys.index_of(k)])
}

/// Where no key is twice among `keys`, the map takes each key to the value
/// at its place.
proof fn lemma_paired_at<V>(keys: Seq<Seq<char>>, values: Seq<V>, i: int)
    requires
        keys.no_duplicates(),
        0 <= i < keys.len(),
    ensures
        paired(keys, values).contains_key(keys[i]),
        paired(keys, values)[keys[i]] == values[i],
{
}

/// The map has the keys of `keys`, and no other.
proof fn lemma_paired_dom<V>(keys: Seq<Seq<char>>, values: Seq<V>)
    ensures
        paired(keys, values).dom() == keys.to_set(),
        paired(keys, values).dom().finite(),
{
    assert(paired(keys, values).dom() =~= keys.to_set());
    seq_to_set_is_finite(keys);
}

/// A new key with its value at the end of both lists puts the pair into the
/// map.
proof fn lemma_paired_push<V>(keys: Seq<Seq<char>>, values: Seq<V>, k: Seq<char>, v: V)
    requires
        keys.no_duplicates(),
        keys.len() == values.len(),
        !keys.contains(k),
    ensures
        keys.push(k).no_duplicates(),
        paired(keys.push(k), values.push(v)) == paired(keys, values).insert(k, v),
{
    let longer = keys.push(k);
    assert(longer.no_duplicates());
    let m1 = paired(longer, values.push(v));
    let m2 = paired(keys, values).insert(k, v);
    assert forall|x: Seq<char>| m1.contains_key(x) <==> m2.contains_key(x) by {
        if keys.contains(x) {
            let i = keys.index_of(x);
            assert(longer[i] == x);
        }
        if x == k {
            assert(longer[keys.len() as int] == x);
        }
    }
    assert forall|x: Seq<char>| m1.contains_key(x) implies m1[x] == m2[x] by {
        let i = longer.index_of(x);
        if x != k {
            assert(keys[i] == x);
            lemma_paired_at(keys, values, i);
        }
    }
    assert(m1 =~= m2);
}

/// A new value at the place of a key puts the key with that value into the
/// map.
proof fn lemma_paired_update<V>(keys: Seq<Seq<char>>, values: Seq<V>, i: int, v: V)
    requires
        keys.no_duplicates(),
        keys.len() == values.len(),
        0 <= i < keys.len(),
    ensures
        paired(keys, values.update(i, v)) == paired(keys, values).insert(keys[i], v),
{
}

/// The owners of the entries of an index, one for each.
pub open spec fn owners_of(search: Seq<(String, Vec<String>)>) -> Seq<Seq<char>> {
    Seq::new(search.len(), |i: int| search[i].0@)
}

/// Whether `ids` can be the entry of an owner in a ledger of `topics`: it is
/// not empty, holds no identifier twice, and holds identifiers of `topics`
/// only.
pub open spec fn entry_fits(topics: Seq<Topic>, ids: Seq<String>) -> bool {
    &&& ids.len() > 0
    &&& texts(ids).no_duplicates()
    &&& forall|q: int| 0 <= q < ids.len() ==> ids_of(topics).contains(#[trigger] texts(ids)[q])
}

/// Whether a ledger can be made of `topics` and of the entries `search`,
/// each an owner with the identifiers of that owner's topics: no two topics
/// have the same identifier, every topic meets what holds of a topic, no two
/// entries have the same owner, and every entry fits the topics.
pub open spec fn parts_fit(topics: Seq<Topic>, search: Seq<(String, Vec<String>)>) -> bool {
    &&& ids_of(topics).no_duplicates()
    &&& forall|i: int| 0 <= i < topics.len() ==> (#[trigger] topics[i])@.wf()
    &&& owners_of(search).no_duplicates()
    &&& forall|e: int| 0 <= e < search.len() ==> entry_fits(topics, (#[trigger] search[e]).1@)
}

/// The place in `topics` of the topic with the identifier `id`, if there is
/// one.
fn find_by_id(topics: &Vec<Topic>, id: &String) -> (found: Option<usize>)
    ensures
        match found {
            Some(i) => i < topics.len() && ids_of(topics@)[i as int] == id@,
            None => !ids_of(topics@).contains(id@),
        },
{
    let mut i: usize = 0;
    while i < topics.len()
        invariant
            i <= topics.len(),
            forall|j: int| 0 <= j < i ==> ids_of(topics@)[j] != id@,
        decreases topics.len() - i,
    {
        if topics[i].id == *id {
            return Some(i);
        }
        i += 1;
    }
    None
}

/// The topics that one owner made.
struct OwnerTopics {
    owner: String,
    ids: Vec<String>,
}

/// The ledger of topics and votes.
pub struct Contract {
    /// The topics; no two have the same identifier.
    topics: Vec<Topic>,
    /// For each owner the identifiers of the topics that the owner made; no
    /// two entries have the same owner, and no entry holds an identifier
    /// twice.
    search: Vec<OwnerTopics>,
}

impl View for Contract {
    type V = ContractView;

    closed spec fn view(&self) -> ContractView {
        ContractView {
            topics: paired(ids_of(self.topics@), views(self.topics@)),
            search: paired(self.owners(), self.owned()),
        }
    }
}

impl Contract {
    /// The owners of the entries, one for each.
    spec fn owners(&self) -> Seq<Seq<char>> {
        Seq::new(self.search@.len(), |i: int| self.search@[i].owner@)
    }

    /// What the entries hold, one set of identifiers for each.
    spec fn owned(&self) -> Seq<Set<Seq<char>>> {
        Seq::new(self.search@.len(), |i: int| texts(self.search@[i].ids@).to_set())
    }

    /// What holds of the ledger at all times: what holds of its view, and
    /// that the ledger keeps each topic, each owner and each identifier of
    /// an owner once.
    pub closed spec fn wf(&self) -> bool {
        &&& ids_of(self.topics@).no_duplicates()
        &&& self.owners().no_duplicates()
        &&& forall|i: int|
            0 <= i < self.search@.len() ==> texts((#[trigger] self.search@[i]).ids@).no_duplicates()
        &&& self@.wf()
    }

    /// What holds of the ledger holds of its view.
    pub proof fn lemma_wf_view(&self)
        requires
            self.wf(),
        ensures
            self@.wf(),
    {
    }

    /// Makes the ledger without any topic.
    pub fn new() -> (contract: Contract)
        ensures
            contract.wf(),
            contract@.wf(),
            contract@ == ContractView::empty(),
    {
        let contract = Contract { topics: Vec::new(), search: Vec::new() };
        proof {
            assert(contract@.topics =~= Map::<Seq<char>, TopicView>::empty());
            assert(contract@.search =~= Map::<Seq<char>, Set<Seq<char>>>::empty());
        }
        contract
    }

    /// Makes the ledger that holds `topics` and the entries `search`, each
    /// an owner with the identifiers of that owner's topics, if a ledger can
    /// be made of them.
    pub fn restore(topics: Vec<Topic>, search: Vec<(String, Vec<String>)>) -> (restored: Option<
        Contract,
    >)
        ensures
            match restored {
                Some(contract) => {
                    &&& parts_fit(topics@, search@)
                    &&& contract.wf()
                    &&& contract@.wf()
                    &&& contract@.topics.dom() == ids_of(topics@).to_set()
                    &&& forall|i: int|
                        0 <= i < topics.len() ==> contract@.topics[(#[trigger] topics[i]).id@]
                            == topics[i]@
                    &&& contract@.search.dom() == owners_of(search@).to_set()
                    &&& forall|e: int|
                        0 <= e < search.len() ==> contract@.search[(#[trigger] search[e]).0@]
                            == texts(search[e].1@).to_set()
                },
                None => !parts_fit(topics@, search@),
            },
    {
        let mut i: usize = 0;
        while i < topics.len()
            invariant
                i <= topics.len(),
                forall|a: int| 0 <= a < i ==> (#[trigger] topics[a])@.wf(),
                forall|a: int, b: int|
                    0 <= a < b < i ==> ids_of(topics@)[a] != ids_of(topics@)[b],
            decreases topics.len() - i,
        {
            if !topics[i].is_valid() {
                return None;
            }
            let mut j: usize = 0;
            while j < i
                invariant
                    j <= i,
                    i < topics.len(),
                    forall|a: int| 0 <= a < j ==> ids_of(topics@)[a] != ids_of(topics@)[i as int],
                decreases i - j,
            {
                if topics[j].id == topics[i].id {
                    assert(ids_of(topics@)[j as int] == ids_of(topics@)[i as int]);
                    return None;
                }
                j += 1;
            }
            i += 1;
        }
        let mut entries: Vec<OwnerTopics> = Vec::new();
        let mut e: usize = 0;
        while e < search.len()
            invariant
                e <= search.len(),
                entries.len() == e,
                forall|a: int|
                    0 <= a < e ==> (#[trigger] entries[a]).owner@ == search[a].0@ && texts(
                        entries[a].ids@,
                    ) == texts(search[a].1@),
                forall|a: int| 0 <= a < e ==> entry_fits(topics@, (#[trigger] search[a]).1@),
                forall|a: int, b: int|
                    0 <= a < b < e ==> owners_of(search@)[a] != owners_of(search@)[b],
            decreases search.len() - e,
        {
            let ids = &search[e].1;
            if ids.len() == 0 || !all_distinct(ids) {
                assert(!entry_fits(topics@, search@[e as int].1@));
                return None;
            }
            let mut q: usize = 0;
            while q < ids.len()
                invariant
                    q <= ids.len(),
                    e < search.len(),
                    ids@ == search@[e as int].1@,
                    forall|a: int|
                        0 <= a < q ==> ids_of(topics@).contains(#[trigger] texts(ids@)[a]),
                decreases ids.len() - q,
            {
                if find_by_id(&topics, &ids[q]).is_none() {
                    assert(!ids_of(topics@).contains(texts(ids@)[q as int]));
                    assert(!entry_fits(topics@, search@[e as int].1@));
                    return None;
                }
                q += 1;
            }
            let mut j: usize = 0;
            while j < e
                invariant
                    j <= e,
                    e < search.len(),
                    forall|a: int|
                        0 <= a < j ==> owners_of(search@)[a] != owners_of(search@)[e as int],
                decreases e - j,
            {
                if search[j].0 == search[e].0 {
                    assert(owners_of(search@)[j as int] == owners_of(search@)[e as int]);
                    return None;
                }
                j += 1;
            }
            entries.push(OwnerTopics { owner: search[e].0.clone(), ids: copy_texts(ids) });
            e += 1;
        }
        let contract = Contract { topics, search: entries };
        proof {
            let ids = ids_of(topics@);
            let owners = owners_of(search@);
            assert(contract.owners() =~= owners);
            lemma_paired_dom(ids, views(topics@));
            lemma_paired_dom(owners, contract.owned());
            assert forall|i: int| 0 <= i < topics.len() implies contract@.topics[(
            #[trigger] topics[i]).id@] == topics[i]@ by {
                lemma_paired_at(ids, views(topics@), i);
            }
            assert forall|a: int| 0 <= a < search.len() implies contract@.search[(
            #[trigger] search[a]).0@] == texts(search[a].1@).to_set() by {
                lemma_paired_at(owners, contract.owned(), a);
            }
            assert forall|id: Seq<char>| #[trigger]
                contract@.topics.contains_key(id) implies contract@.topics[id].id == id
                && contract@.topics[id].wf() by {
                let i = ids.index_of(id);
                lemma_paired_at(ids, views(topics@), i);
                assert(topics@[i]@.wf());
            }
            assert forall|owner: Seq<char>| #[trigger]
                contract@.search.contains_key(owner) implies {
                &&& contract@.search[owner].finite()
                &&& contract@.search[owner].len() > 0
                &&& contract@.search[owner].subset_of(contract@.topics.dom())
            } by {
                let a = owners.index_of(owner);
                lemma_paired_at(owners, contract.owned(), a);
                let names = texts(search@[a].1@);
                assert(entry_fits(topics@, search@[a].1@));
                seq_to_set_is_finite(names);
                names.unique_seq_to_set();
                assert forall|id: Seq<char>| names.to_set().contains(id) implies ids.to_set().contains(
                    id,
                ) by {
                    let q = choose|q: int| 0 <= q < names.len() && names[q] == id;
                    assert(ids.contains(names[q]));
                }
            }
        }
        Some(contract)
    }

    /// The identifiers of the topics that `account_id` made, each once;
    /// `None` if `account_id` has made no topic.
    pub fn topic_ids(&self, account_id: String) -> (ids: Option<Vec<String>>)
        requires
            self.wf(),
        ensures
            match ids {
                Some(list) => {
                    &&& self@.search.contains_key(account_id@)
                    &&& texts(list@).no_duplicates()
                    &&& texts(list@).to_set() == self@.search[account_id@]
                },
                None => !self@.search.contains_key(account_id@),
            },
    {
        proof {
            lemma_paired_dom(self.owners(), self.owned());
        }
        match self.find_owner(&account_id) {
            Some(e) => {
                proof {
                    lemma_paired_at(self.owners(), self.owned(), e as int);
                }
                Some(copy_texts(&self.search[e].ids))
            },
            None => None,
        }
    }

    /// The place of the topic with the identifier `id`, if there is one.
    fn find_topic(&self, id: &String) -> (found: Option<usize>)
        ensures
            match found {
                Some(i) => i < self.topics.len() && ids_of(self.topics@)[i as int] == id@,
                None => !ids_of(self.topics@).contains(id@),
            },
    {
        find_by_id(&self.topics, id)
    }

    /// The place of the entry of `owner`, if there is one.
    fn find_owner(&self, owner: &String) -> (found: Option<usize>)
        ensures
            match found {
                Some(i) => i < self.search.len() && self.owners()[i as int] == owner@,
                None => !self.owners().contains(owner@),
            },
    {
        let mut i: usize = 0;
        while i < self.search.len()
            invariant
                i <= self.search.len(),
                forall|j: int| 0 <= j < i ==> self.owners()[j] != owner@,
            decreases self.search.len() - i,
        {
            if self.search[i].owner == *owner {
                return Some(i);
            }
            i += 1;
        }
        None
    }

    /// Makes a topic for `account_id` at the sequence number `block_index`
    /// and the timestamp `block_timestamp`.
    ///
    /// Fails if the description is empty, if there is no option or if the
    /// quota is zero, and looks at these in that order; the ledger is then
    /// unchanged. Otherwise the new topic, open and without votes, stands
    /// under the identifier made from the three, in place of any topic that
    /// stood there, and the identifier is in the entry of `account_id`.
    pub fn create_topic(
        &mut self,
        account_id: String,
        block_index: u64,
        block_timestamp: u64,
        topic_desc: String,
        items: Vec<String>,
        total_limit: u128,
    ) -> (answer: Result<bool, VoteError>)
        requires
            old(self).wf(),
        ensures
            final(self).wf(),
            final(self)@.wf(),
            answer == ContractView::create_answer(
                topic_desc@,
                texts(items@),
                total_limit as nat,
            ),
            final(self)@ == old(self)@.after_create(
                account_id@,
                block_index as nat,
                block_timestamp as nat,
                topic_desc@,
                texts(items@),
                total_limit as nat,
            ),
    {
        if topic_desc.as_str().is_empty() {
            return Err(VoteError::InvalidInput(InputFault::EmptyDescription));
        }
        if items.len() == 0 {
            return Err(VoteError::InvalidInput(InputFault::NoOptions));
        }
        if total_limit == 0 {
            return Err(VoteError::InvalidInput(InputFault::NonPositiveQuota));
        }
        let ghost before = *self;
        let id = generate(account_id.as_str(), block_index, block_timestamp);
        let topic = Topic::fresh(id.clone(), topic_desc, items, total_limit);
        let ghost made = topic@;
        match self.find_topic(&id) {
            Some(i) => {
                self.topics[i] = topic;
                proof {
                    assert(ids_of(self.topics@) =~= ids_of(before.topics@));
                    assert(views(self.topics@) =~= views(before.topics@).update(i as int, made));
                    lemma_paired_update(ids_of(before.topics@), views(before.topics@), i as int, made);
                }
            },
            None => {
                self.topics.push(topic);
                proof {
                    assert(ids_of(self.topics@) =~= ids_of(before.topics@).push(id@));
                    assert(views(self.topics@) =~= views(before.topics@).push(made));
                    lemma_paired_push(ids_of(before.topics@), views(before.topics@), id@, made);
                }
            },
        }
        let ghost mid = *self;
        proof {
            assert(mid.owners() =~= before.owners());
            assert(mid.owned() =~= before.owned());
            assert(mid@.topics == before@.topics.insert(id@, made));
        }
        match self.find_owner(&account_id) {
            Some(e) => {
                let ghost held = before.owned()[e as int];
                proof {
                    lemma_paired_at(before.owners(), before.owned(), e as int);
                }
                if find_text(&self.search[e].ids, &id).is_none() {
                    let ghost ids = self.search@[e as int].ids@;
                    self.search[e].ids.push(id);
                    proof {
                        assert(texts(ids.push(id)) =~= texts(ids).push(id@));
                        texts(ids).lemma_push_to_set_commute(id@);
                        assert(self.owners() =~= before.owners());
                        assert(self.owned() =~= before.owned().update(e as int, held.insert(id@)));
                    }
                } else {
                    proof {
                        assert(held.insert(id@) =~= held);
                        assert(self.owned() =~= before.owned().update(e as int, held.insert(id@)));
                    }
                }
                proof {
                    lemma_paired_update(
                        before.owners(),
                        before.owned(),
                        e as int,
                        held.insert(id@),
                    );
                }
            },
            None => {
                let mut ids: Vec<String> = Vec::new();
                ids.push(id);
                self.search.push(OwnerTopics { owner: account_id, ids });
                proof {
                    let only = Set::<Seq<char>>::empty().insert(id@);
                    assert(texts(ids@) =~= Seq::<Seq<char>>::empty().push(id@));
                    Seq::<Seq<char>>::empty().lemma_push_to_set_commute(id@);
                    assert(Seq::<Seq<char>>::empty().to_set() =~= Set::<Seq<char>>::empty());
                    assert(self.owners() =~= before.owners().push(account_id@));
                    assert(self.owned() =~= before.owned().push(only));
                    lemma_paired_dom(before.owners(), before.owned());
                    lemma_paired_push(before.owners(), before.owned(), account_id@, only);
                }
            },
        }
        proof {
            assert(ids_of(self.topics@) =~= ids_of(mid.topics@));
            assert(views(self.topics@) =~= views(mid.topics@));
            lemma_after_create_wf(
                before@,
                account_id@,
                block_index as nat,
                block_timestamp as nat,
                topic_desc@,
                texts(items@),
                total_limit as nat,
            );
        }
        Ok(true)
    }

    /// Takes the vote of `account_id` for the option `item` of the topic
    /// `topic_id`.
    ///
    /// Fails with `NotFound` if there is no such topic, with `AlreadyClosed`
    /// if it is closed, with `DuplicateVote` if `account_id` has voted on
    /// it, with `InvalidOption` if it has no option `item`, and looks at
    /// these in that order. Otherwise `account_id` is in the ballot of the
    /// option and is the last participant, and the topic is closed if it has
    /// as many participants as its quota says.
    pub fn vote(&mut self, account_id: String, topic_id: String, item: usize) -> (answer: Result<
        bool,
        VoteError,
    >)
        requires
            old(self).wf(),
        ensures
            final(self).wf(),
            final(self)@.wf(),
            answer == old(self)@.vote_answer(account_id@, topic_id@, item as nat),
            final(self)@ == old(self)@.after_vote(account_id@, topic_id@, item as nat),
    {
        match self.find_topic(&topic_id) {
            None => {
                proof {
                    lemma_paired_dom(ids_of(self.topics@), views(self.topics@));
                }
                Err(VoteError::NotFound)
            },
            Some(i) => {
                let ghost before = *self;
                let answer = self.topics[i].cast(account_id, item);
                proof {
                    let changed = self.topics@[i as int]@;
                    assert(ids_of(self.topics@) =~= ids_of(before.topics@));
                    assert(views(self.topics@) =~= views(before.topics@).update(i as int, changed));
                    assert(self.owners() =~= before.owners());
                    assert(self.owned() =~= before.owned());
                    lemma_paired_at(ids_of(before.topics@), views(before.topics@), i as int);
                    lemma_paired_update(
                        ids_of(before.topics@),
                        views(before.topics@),
                        i as int,
                        changed,
                    );
                    lemma_after_vote_wf(before@, account_id@, topic_id@, item as nat);
                    assert(self@.topics =~= before@.after_vote(
                        account_id@,
                        topic_id@,
                        item as nat,
                    ).topics);
                }
                answer
            },
        }
    }

    /// Closes the topic `topic_id`.
    ///
    /// Fails with `NotFound` if there is no such topic and with
    /// `AlreadyClosed` if it is closed. Nothing else of the topic changes.
    pub fn over(&mut self, topic_id: String) -> (answer: Result<bool, VoteError>)
        requires
            old(self).wf(),
        ensures
            final(self).wf(),
            final(self)@.wf(),
            answer == old(self)@.close_answer(topic_id@),
            final(self)@ == old(self)@.after_close(topic_id@),
    {
        match self.find_topic(&topic_id) {
            None => {
                proof {
                    lemma_paired_dom(ids_of(self.topics@), views(self.topics@));
                }
                Err(VoteError::NotFound)
            },
            Some(i) => {
                let ghost before = *self;
                let answer = self.topics[i].close();
                proof {
                    let changed = self.topics@[i as int]@;
                    assert(ids_of(self.topics@) =~= ids_of(before.topics@));
                    assert(views(self.topics@) =~= views(before.topics@).update(i as int, changed));
                    assert(self.owners() =~= before.owners());
                    assert(self.owned() =~= before.owned());
                    lemma_paired_at(ids_of(before.topics@), views(before.topics@), i as int);
                    lemma_paired_update(
                        ids_of(before.topics@),
                        views(before.topics@),
                        i as int,
                        changed,
                    );
                    lemma_after_close_wf(before@, topic_id@);
                    assert(self@.topics =~= before@.after_close(topic_id@).topics);
                }
                answer
            },
        }
    }

    /// The topics that `account_id` made, each as it stands, from the
    /// greatest identifier to the least as strings are compared; `None` if
    /// `account_id` has made no topic.
    pub fn list_topic(&self, account_id: String) -> (listed: Option<Vec<Topic>>)
        requires
            self.wf(),
        ensures
            match listed {
                Some(list) => self@.search.contains_key(account_id@) && self@.lists(
                    account_id@,
                    views(list@),
                ),
                None => !self@.search.contains_key(account_id@),
            },
    {
        proof {
            lemma_paired_dom(self.owners(), self.owned());
            lemma_paired_dom(ids_of(self.topics@), views(self.topics@));
        }
        let e = match self.find_owner(&account_id) {
            Some(e) => e,
            None => {
                return None;
            },
        };
        let ids = &self.search[e].ids;
        let ghost names = texts(ids@);
        proof {
            lemma_paired_at(self.owners(), self.owned(), e as int);
            assert(self@.owned_by(account_id@) == names.to_set());
        }
        let mut list: Vec<Topic> = Vec::new();
        let mut j: usize = 0;
        while j < ids.len()
            invariant
                j <= ids.len(),
                self.wf(),
                names == texts(ids@),
                names.no_duplicates(),
                names.to_set().subset_of(self@.topics.dom()),
                self@.topics.dom() == ids_of(self.topics@).to_set(),
                forall|k: int|
                    0 <= k < list.len() ==> names.subrange(0, j as int).contains(
                        (#[trigger] views(list@)[k]).id,
                    ),
                forall|q: int| 0 <= q < j ==> holds_id(views(list@), #[trigger] names[q]),
                forall|k: int|
                    0 <= k < list.len() ==> self@.topics.contains_key(
                        (#[trigger] views(list@)[k]).id,
                    ) && views(list@)[k] == self@.topics[views(list@)[k].id],
                forall|a: int, b: int|
                    0 <= a < b < list.len() ==> text_lt(
                        (#[trigger] views(list@)[b]).id,
                        (#[trigger] views(list@)[a]).id,
                    ),
            decreases ids.len() - j,
        {
            let ghost name = names[j as int];
            assert(names.to_set().contains(name));
            match self.find_topic(&ids[j]) {
                None => {
                    assert(false);
                },
                Some(at) => {
                    let topic = self.topics[at].clone();
                    proof {
                        lemma_paired_at(ids_of(self.topics@), views(self.topics@), at as int);
                    }
                    let mut p: usize = 0;
                    while p < list.len() && text_less(topic.id.as_str(), list[p].id.as_str())
                        invariant
                            p <= list.len(),
                            forall|q: int|
                                0 <= q < p ==> text_lt(topic@.id, (#[trigger] views(list@)[q]).id),
                        decreases list.len() - p,
                    {
                        p += 1;
                    }
                    let ghost old_list = views(list@);
                    list.insert(p, topic);
                    proof {
                        let new_list = views(list@);
                        let x = topic@;
                        old_list.insert_ensures(p as int, x);
                        assert(new_list =~= old_list.insert(p as int, x));
                        assert forall|k: int| 0 <= k < new_list.len() implies names.subrange(
                            0,
                            j + 1,
                        ).contains((#[trigger] new_list[k]).id) by {
                            if k == p {
                                assert(names.subrange(0, j + 1)[j as int] == name);
                            } else {
                                let o = if k < p {
                                    k
                                } else {
                                    k - 1
                                };
                                assert(new_list[k] == old_list[o]);
                                let w = choose|w: int|
                                    0 <= w < names.subrange(0, j as int).len() && names.subrange(
                                        0,
                                        j as int,
                                    )[w] == old_list[o].id;
                                assert(names.subrange(0, j + 1)[w] == old_list[o].id);
                            }
                        }
                        assert forall|q: int| 0 <= q < j + 1 implies holds_id(
                            new_list,
                            #[trigger] names[q],
                        ) by {
                            if q == j {
                                assert(new_list[p as int].id == names[q]);
                            } else {
                                let o = choose|o: int|
                                    0 <= o < old_list.len() && (#[trigger] old_list[o]).id
                                        == names[q];
                                let k = if o < p {
                                    o
                                } else {
                                    o + 1
                                };
                                assert(new_list[k] == old_list[o]);
                            }
                        }
                        assert forall|k: int|
                            0 <= k < new_list.len() implies self@.topics.contains_key(
                            (#[trigger] new_list[k]).id,
                        ) && new_list[k] == self@.topics[new_list[k].id] by {
                            if k != p {
                                let o = if k < p {
                                    k
                                } else {
                                    k - 1
                                };
                                assert(new_list[k] == old_list[o]);
                            }
                        }
                        assert forall|a: int, b: int| 0 <= a < b < new_list.len() implies text_lt(
                            (#[trigger] new_list[b]).id,
                            (#[trigger] new_list[a]).id,
                        ) by {
                            if b == p {
                                assert(new_list[a] == old_list[a]);
                            } else if a == p {
                                let first = old_list[p as int];
                                assert(new_list[b] == old_list[b - 1]);
                                let w = choose|w: int|
                                    0 <= w < names.subrange(0, j as int).len() && names.subrange(
                                        0,
                                        j as int,
                                    )[w] == first.id;
                                assert(names[w] == first.id);
                                assert(first.id != x.id);
                                lemma_text_lt_total(first.id, x.id);
                                if b - 1 > p {
                                    lemma_text_lt_transitive(old_list[b - 1].id, first.id, x.id);
                                }
                            } else {
                                let oa = if a < p {
                                    a
                                } else {
                                    a - 1
                                };
                                let ob = if b < p {
                                    b
                                } else {
                                    b - 1
                                };
                                assert(new_list[a] == old_list[oa]);
                                assert(new_list[b] == old_list[ob]);
                            }
                        }
                    }
                },
            }
            j += 1;
        }
        proof {
            let listed = views(list@);
            assert(names.subrange(0, j as int) =~= names);
            assert forall|id: Seq<char>|
                self@.owned_by(account_id@).contains(id) <==> #[trigger] holds_id(listed, id) by {
                if self@.owned_by(account_id@).contains(id) {
                    let q = choose|q: int| 0 <= q < names.len() && names[q] == id;
                    assert(holds_id(listed, names[q]));
                }
                if holds_id(listed, id) {
                    let k = choose|k: int| 0 <= k < listed.len() && (#[trigger] listed[k]).id == id;
                    assert(names.contains(listed[k].id));
                }
            }
        }
        Some(list)
    }

    /// A copy of the topic `topic_id` as it stands, or `NotFound` if there
    /// is no such topic.
    pub fn show(&self, topic_id: String) -> (answer: Result<Topic, VoteError>)
        requires
            self.wf(),
        ensures
            match answer {
                Ok(topic) => self@.topics.contains_key(topic_id@) && topic@
                    == self@.topics[topic_id@],
                Err(e) => e == VoteError::NotFound && !self@.topics.contains_key(topic_id@),
            },
    {
        proof {
            lemma_paired_dom(ids_of(self.topics@), views(self.topics@));
        }
        match self.find_topic(&topic_id) {
            None => Err(VoteError::NotFound),
            Some(i) => {
                proof {
                    lemma_paired_at(ids_of(self.topics@), views(self.topics@), i as int);
                }
                Ok(self.topics[i].clone())
            },
        }
    }
}

} // verus!
