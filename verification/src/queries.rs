//! Queries of the DHT as they progress.

use crate::address::{peer_text, PeerId};
use crate::dht::DhtRecord;
use crate::endpoints::texts;
use crate::ordered::{models, sorted_texts, TextSet};
use vstd::prelude::*;

verus! {

/// How many records a query collects at most.
pub const MAX_DHT_RECORDS_PER_QUERY: usize = 64;

/// How many providers a query collects at most.
pub const MAX_DHT_PROVIDERS_PER_QUERY: usize = 64;

/// A query that is under way.
pub enum DhtQuery {
    Put,
    Provide,
    Get { records: Vec<DhtRecord> },
    Providers { providers: TextSet },
}

/// What a query is, for contracts.
pub enum QueryModel {
    Put,
    Provide,
    Get { records: Seq<RecordView> },
    Providers { providers: Set<Seq<char>> },
}

/// What a record of the DHT is, for contracts.
pub struct RecordView {
    pub publisher: Option<Seq<char>>,
    pub value: Seq<u8>,
}

impl DhtRecord {
    pub open spec fn view(&self) -> RecordView {
        RecordView {
            publisher: match self.publisher {
                Some(text) => Some(text@),
                None => None,
            },
            value: self.value@,
        }
    }
}

pub open spec fn record_views(records: Seq<DhtRecord>) -> Seq<RecordView> {
    records.map_values(|record: DhtRecord| record@)
}

impl DhtQuery {
    pub open spec fn view(&self) -> QueryModel {
        match self {
            DhtQuery::Put => QueryModel::Put,
            DhtQuery::Provide => QueryModel::Provide,
            DhtQuery::Get { records } => QueryModel::Get { records: record_views(records@) },
            DhtQuery::Providers { providers } => QueryModel::Providers { providers: providers@ },
        }
    }

    pub open spec fn wf(&self) -> bool {
        self matches DhtQuery::Providers { providers } ==> providers.wf()
    }
}

/// What the DHT reports of a query.
pub enum DhtProgress {
    PutEnded { stored: bool },
    ProvideEnded { provided: bool },
    RecordFound { publisher: Option<PeerId>, value: Vec<u8> },
    /// No more records come, or none was there.
    RecordsFinished,
    RecordsFailed,
    ProvidersFound { providers: Vec<PeerId> },
    ProvidersFinished,
    ProvidersFailed,
}

/// How a query ends.
pub enum DhtAnswer {
    Done,
    Failed,
    /// The report does not belong to the query.
    Mismatched,
    Records(Vec<DhtRecord>),
    Providers(Vec<String>),
}

/// What an answer is, for contracts.
pub enum AnswerModel {
    Done,
    Failed,
    Mismatched,
    Records(Seq<RecordView>),
    Providers(Seq<Seq<char>>),
}

impl DhtAnswer {
    pub open spec fn view(&self) -> AnswerModel {
        match self {
            DhtAnswer::Done => AnswerModel::Done,
            DhtAnswer::Failed => AnswerModel::Failed,
            DhtAnswer::Mismatched => AnswerModel::Mismatched,
            DhtAnswer::Records(records) => AnswerModel::Records(record_views(records@)),
            DhtAnswer::Providers(providers) => AnswerModel::Providers(texts(providers@)),
        }
    }
}

/// Where a query stands after a report.
pub enum DhtStep {
    Pending(DhtQuery),
    Ended(DhtAnswer),
}

/// Where a query stands, for contracts.
pub enum StepModel {
    Pending(QueryModel),
    Ended(AnswerModel),
}

impl DhtStep {
    pub open spec fn view(&self) -> StepModel {
        match self {
            DhtStep::Pending(query) => StepModel::Pending(query@),
            DhtStep::Ended(answer) => StepModel::Ended(answer@),
        }
    }

    pub open spec fn wf(&self) -> bool {
        self matches DhtStep::Pending(query) ==> query.wf()
    }
}

/// Providers are collected until there are enough.
pub open spec fn collected(providers: Set<Seq<char>>, found: Seq<PeerId>) -> Set<Seq<char>>
    decreases found.len(),
{
    if found.len() == 0 {
        providers
    } else {
        let before = collected(providers, found.drop_last());
        if before.len() == MAX_DHT_PROVIDERS_PER_QUERY {
            before
        } else {
            before.insert(peer_text(found.last()))
        }
    }
}

/// Where a query stands after a report. `last` says that no other report
/// follows.
pub open spec fn progressed(query: QueryModel, progress: DhtProgress, last: bool) -> StepModel {
    match (query, progress) {
        (QueryModel::Put, DhtProgress::PutEnded { stored }) => StepModel::Ended(
            if stored {
                AnswerModel::Done
            } else {
                AnswerModel::Failed
            },
        ),
        (QueryModel::Provide, DhtProgress::ProvideEnded { provided }) => StepModel::Ended(
            if provided {
                AnswerModel::Done
            } else {
                AnswerModel::Failed
            },
        ),
        (QueryModel::Get { records }, DhtProgress::RecordFound { publisher, value }) => {
            let all = if records.len() < MAX_DHT_RECORDS_PER_QUERY {
                records.push(
                    RecordView {
                        publisher: match publisher {
                            Some(peer) => Some(peer_text(peer)),
                            None => None,
                        },
                        value: value@,
                    },
                )
            } else {
                records
            };
            if last || all.len() == MAX_DHT_RECORDS_PER_QUERY {
                StepModel::Ended(AnswerModel::Records(all))
            } else {
                StepModel::Pending(QueryModel::Get { records: all })
            }
        },
        (QueryModel::Get { records }, DhtProgress::RecordsFinished) => StepModel::Ended(
            AnswerModel::Records(records),
        ),
        (QueryModel::Get { records }, DhtProgress::RecordsFailed) => StepModel::Ended(
            AnswerModel::Failed,
        ),
        (QueryModel::Providers { providers }, DhtProgress::ProvidersFound { providers: found }) => {
            let all = collected(providers, found@);
            if last || all.len() == MAX_DHT_PROVIDERS_PER_QUERY {
                StepModel::Ended(AnswerModel::Providers(sorted_texts(all)))
            } else {
                StepModel::Pending(QueryModel::Providers { providers: all })
            }
        },
        (QueryModel::Providers { providers }, DhtProgress::ProvidersFinished) => StepModel::Ended(
            AnswerModel::Providers(sorted_texts(providers)),
        ),
        (QueryModel::Providers { providers }, DhtProgress::ProvidersFailed) => StepModel::Ended(
            AnswerModel::Failed,
        ),
        _ => StepModel::Ended(AnswerModel::Mismatched),
    }
}

fn listed(providers: &TextSet) -> (list: Vec<String>)
    requires
        providers.wf(),
    ensures
        texts(list@) == sorted_texts(providers@),
{
    proof {
        crate::ordered::lemma_text_rank_tells_apart();
        providers.lemma_sorted();
    }
    let list = providers.to_vec();
    assert(texts(list@) =~= models(list@));
    list
}

/// Takes what the DHT reports of a query. `last` says that no other report
/// follows.
pub fn handle_dht_result(query: DhtQuery, progress: DhtProgress, last: bool) -> (step: DhtStep)
    requires
        query.wf(),
    ensures
        step.wf(),
        step@ == progressed(query@, progress, last),
{
    match (query, progress) {
        (DhtQuery::Put, DhtProgress::PutEnded { stored }) => DhtStep::Ended(
            if stored {
                DhtAnswer::Done
            } else {
                DhtAnswer::Failed
            },
        ),
        (DhtQuery::Provide, DhtProgress::ProvideEnded { provided }) => DhtStep::Ended(
            if provided {
                DhtAnswer::Done
            } else {
                DhtAnswer::Failed
            },
        ),
        (DhtQuery::Get { records }, DhtProgress::RecordFound { publisher, value }) => {
            let mut records: Vec<DhtRecord> = records;
            let ghost before = records@;
            if records.len() < MAX_DHT_RECORDS_PER_QUERY {
                let publisher = match publisher {
                    Some(peer) => Some(peer.text()),
                    None => None,
                };
                let record = DhtRecord { publisher, value };
                let ghost model = record@;
                records.push(record);
                assert(record_views(records@) =~= record_views(before).push(model));
            }
            if last || records.len() == MAX_DHT_RECORDS_PER_QUERY {
                DhtStep::Ended(DhtAnswer::Records(records))
            } else {
                DhtStep::Pending(DhtQuery::Get { records })
            }
        },
        (DhtQuery::Get { records }, DhtProgress::RecordsFinished) => DhtStep::Ended(
            DhtAnswer::Records(records),
        ),
        (DhtQuery::Get { .. }, DhtProgress::RecordsFailed) => DhtStep::Ended(DhtAnswer::Failed),
        (DhtQuery::Providers { providers }, DhtProgress::ProvidersFound { providers: found }) => {
            let all = collect(providers, &found);
            if last || all.len() == MAX_DHT_PROVIDERS_PER_QUERY {
                DhtStep::Ended(DhtAnswer::Providers(listed(&all)))
            } else {
                DhtStep::Pending(DhtQuery::Providers { providers: all })
            }
        },
        (DhtQuery::Providers { providers }, DhtProgress::ProvidersFinished) => DhtStep::Ended(
            DhtAnswer::Providers(listed(&providers)),
        ),
        (DhtQuery::Providers { .. }, DhtProgress::ProvidersFailed) => DhtStep::Ended(
            DhtAnswer::Failed,
        ),
        _ => DhtStep::Ended(DhtAnswer::Mismatched),
    }
}

fn collect(providers: TextSet, found: &Vec<PeerId>) -> (all: TextSet)
    requires
        providers.wf(),
    ensures
        all.wf(),
        all@ == collected(providers@, found@),
{
    let ghost start = providers@;
    let mut all: TextSet = providers;
    let mut i: usize = 0;
    assert(found@.take(0) =~= Seq::empty());
    while i < found.len()
        invariant
            i <= found@.len(),
            all.wf(),
            all@ == collected(start, found@.take(i as int)),
        decreases found@.len() - i,
    {
        proof {
            assert(found@.take(i + 1).drop_last() =~= found@.take(i as int));
        }
        if all.len() != MAX_DHT_PROVIDERS_PER_QUERY {
            let _ = all.insert(found[i].text());
        }
        i += 1;
    }
    assert(found@.take(i as int) =~= found@);
    all
}

/// A query that has not ended holds fewer records and providers than its
/// limits, and an answer holds no more than they allow.
pub open spec fn query_bounded(query: QueryModel) -> bool {
    match query {
        QueryModel::Get { records } => records.len() < MAX_DHT_RECORDS_PER_QUERY,
        QueryModel::Providers { providers } => providers.finite() && providers.len()
            < MAX_DHT_PROVIDERS_PER_QUERY,
        _ => true,
    }
}

proof fn lemma_collected_bounded(providers: Set<Seq<char>>, found: Seq<PeerId>)
    requires
        providers.finite(),
        providers.len() <= MAX_DHT_PROVIDERS_PER_QUERY,
    ensures
        collected(providers, found).finite(),
        collected(providers, found).len() <= MAX_DHT_PROVIDERS_PER_QUERY,
    decreases found.len(),
{
    if found.len() > 0 {
        lemma_collected_bounded(providers, found.drop_last());
    }
}

/// However much the DHT reports, a query collects no more than its limits.
pub proof fn queries_stay_bounded(query: QueryModel, progress: DhtProgress, last: bool)
    requires
        query_bounded(query),
    ensures
        match progressed(query, progress, last) {
            StepModel::Pending(query) => query_bounded(query),
            StepModel::Ended(AnswerModel::Records(records)) => records.len()
                <= MAX_DHT_RECORDS_PER_QUERY,
            StepModel::Ended(AnswerModel::Providers(providers)) => providers.len()
                <= MAX_DHT_PROVIDERS_PER_QUERY,
            _ => true,
        },
{
    match (query, progress) {
        (QueryModel::Providers { providers }, DhtProgress::ProvidersFound { providers: found }) => {
            lemma_collected_bounded(providers, found@);
            let all = collected(providers, found@);
            crate::ordered::lemma_sorted_exists::<String>(all);
            crate::ordered::lemma_distinct_len(sorted_texts(all));
        },
        (QueryModel::Providers { providers }, DhtProgress::ProvidersFinished) => {
            crate::ordered::lemma_sorted_exists::<String>(providers);
            crate::ordered::lemma_distinct_len(sorted_texts(providers));
        },
        _ => {},
    }
}

/// A query ends with what it was for: a write with whether it was done, a read
/// with all records in the order in which they came, at most sixty-four of them,
/// and a search with the providers, at most as many. Until the last report it goes
/// on collecting. What does not belong to it ends it as such.
pub proof fn a_query_ends_with_what_it_was_for(
    query: QueryModel,
    progress: DhtProgress,
    last: bool,
)
    ensures
        match (query, progress) {
            (QueryModel::Put, DhtProgress::PutEnded { stored }) => progressed(query, progress, last)
                == StepModel::Ended(
                if stored {
                    AnswerModel::Done
                } else {
                    AnswerModel::Failed
                },
            ),
            (QueryModel::Provide, DhtProgress::ProvideEnded { provided }) => progressed(
                query,
                progress,
                last,
            ) == StepModel::Ended(
                if provided {
                    AnswerModel::Done
                } else {
                    AnswerModel::Failed
                },
            ),
            (QueryModel::Get { records }, DhtProgress::RecordFound { publisher, value }) => {
                let found = RecordView {
                    publisher: match publisher {
                        Some(peer) => Some(peer_text(peer)),
                        None => None,
                    },
                    value: value@,
                };
                &&& records.len() < 63 && !last ==> progressed(
                    query,
                    progress,
                    last,
                ) == StepModel::Pending(QueryModel::Get { records: records.push(found) })
                &&& records.len() < 64 && last ==> progressed(
                    query,
                    progress,
                    last,
                ) == StepModel::Ended(AnswerModel::Records(records.push(found)))
                &&& records.len() == 63 ==> progressed(
                    query,
                    progress,
                    last,
                ) == StepModel::Ended(AnswerModel::Records(records.push(found)))
            },
            (QueryModel::Get { records }, DhtProgress::RecordsFinished) => progressed(
                query,
                progress,
                last,
            ) == StepModel::Ended(AnswerModel::Records(records)),
            (QueryModel::Get { records }, DhtProgress::RecordsFailed) => progressed(
                query,
                progress,
                last,
            ) == StepModel::Ended(AnswerModel::Failed),
            (QueryModel::Providers { providers }, DhtProgress::ProvidersFailed) => progressed(
                query,
                progress,
                last,
            ) == StepModel::Ended(AnswerModel::Failed),
            (QueryModel::Providers { providers }, DhtProgress::ProvidersFinished) => progressed(
                query,
                progress,
                last,
            ) == StepModel::Ended(AnswerModel::Providers(sorted_texts(providers))),
            (QueryModel::Providers { providers }, DhtProgress::ProvidersFound { providers: found }) =>
                {
                let all = collected(providers, found@);
                &&& !last && all.len() < 64 ==> progressed(
                    query,
                    progress,
                    last,
                ) == StepModel::Pending(QueryModel::Providers { providers: all })
                &&& last ==> progressed(query, progress, last) == StepModel::Ended(
                    AnswerModel::Providers(sorted_texts(all)),
                )
            },
            _ => progressed(query, progress, last) == StepModel::Ended(AnswerModel::Mismatched),
        },
{
}

/// Every provider that was found is collected as long as there is room, and
/// nothing that was not found.
pub proof fn found_providers_are_collected(providers: Set<Seq<char>>, found: Seq<PeerId>, i: int)
    requires
        providers.finite(),
        0 <= i < found.len(),
    ensures
        providers.subset_of(collected(providers, found)),
        collected(providers, found).len() < 64 ==> collected(
            providers,
            found,
        ).contains(peer_text(found[i])),
        forall|text: Seq<char>| #[trigger]
            collected(providers, found).contains(text) ==> providers.contains(text) || exists|k: int|
                0 <= k < found.len() && peer_text(#[trigger] found[k]) == text,
    decreases found.len(),
{
    let fewer = found.drop_last();
    lemma_collected_grows(providers, found);
    lemma_collected_grows(providers, fewer);
    if i < fewer.len() {
        found_providers_are_collected(providers, fewer, i);
        assert(fewer[i] == found[i]);
    }
}

proof fn lemma_collected_grows(providers: Set<Seq<char>>, found: Seq<PeerId>)
    requires
        providers.finite(),
    ensures
        collected(providers, found).finite(),
        providers.subset_of(collected(providers, found)),
        found.len() > 0 ==> collected(providers, found.drop_last()).len() <= collected(
            providers,
            found,
        ).len(),
        forall|text: Seq<char>| #[trigger]
            collected(providers, found).contains(text) ==> providers.contains(text) || exists|k: int|
                0 <= k < found.len() && peer_text(#[trigger] found[k]) == text,
    decreases found.len(),
{
    if found.len() > 0 {
        let fewer = found.drop_last();
        lemma_collected_grows(providers, fewer);
        assert forall|text: Seq<char>| #[trigger]
            collected(providers, found).contains(text) implies providers.contains(text) || exists|
            k: int,
        | 0 <= k < found.len() && peer_text(#[trigger] found[k]) == text by {
            if collected(providers, fewer).contains(text) && !providers.contains(text) {
                let k = choose|k: int| 0 <= k < fewer.len() && peer_text(#[trigger] fewer[k]) == text;
                assert(found[k] == fewer[k]);
            } else if !providers.contains(text) {
                assert(peer_text(found[found.len() - 1]) == text);
            }
        }
    }
}

} // verus!
