//! Query providers and the registry that asks each of them in turn.

use vstd::prelude::*;
use crate::actions::Action;

verus! {

/// One result a provider gives: its id, its title, the provider that gave it
/// (empty until the registry fills it in) and what activating it does.
#[derive(Debug, Clone, PartialEq, Eq)]
pub struct ProviderResult {
    pub id: String,
    pub title: String,
    pub provider: String,
    pub action: Action,
}

impl ProviderResult {
    /// A result that no provider has claimed yet.
    pub fn new(id: String, title: String, action: Action) -> (r: Self)
        ensures
            r.id == id,
            r.title == title,
            r.provider@.len() == 0,
            r.action == action,
    {
        ProviderResult { id, title, provider: String::new(), action }
    }
}

/// A result as plain values: id, title, provider and action.
pub open spec fn result_view(r: ProviderResult) -> (Seq<char>, Seq<char>, Seq<char>, Action) {
    (r.id@, r.title@, r.provider@, r.action)
}

/// The result with its provider set to `id` when it names none.
pub open spec fn tagged_view(r: ProviderResult, id: Seq<char>) -> (Seq<char>, Seq<char>, Seq<char>, Action) {
    (r.id@, r.title@, if r.provider@.len() == 0 { id } else { r.provider@ }, r.action)
}

/// Answers a query; implemented by the launcher's sources of results.
///
/// `provider_id` is the provider's id as text, and `answers` says which
/// results are a correct answer to a query; an implementation that defines
/// them gets the registry's contract in its own terms.
pub trait Provider {
    closed spec fn provider_id(&self) -> Seq<char> {
        Seq::empty()
    }

    closed spec fn answers(&self, query: Seq<char>, results: Seq<ProviderResult>) -> bool {
        true
    }

    fn id(&self) -> (r: &'static str)
        ensures
            r@ == self.provider_id(),
    ;

    fn search(&self, query: &str) -> (r: Vec<ProviderResult>)
        ensures
            self.answers(query@, r@),
    ;
}

/// The results of each provider in turn, each tagged with its provider.
pub open spec fn tagged_results(answers: Seq<Seq<ProviderResult>>, ids: Seq<Seq<char>>) -> Seq<
    (Seq<char>, Seq<char>, Seq<char>, Action),
>
    decreases answers.len(),
{
    if answers.len() == 0 {
        Seq::empty()
    } else {
        tagged_results(answers.drop_last(), ids) + answers.last().map_values(
            |r: ProviderResult| tagged_view(r, ids[answers.len() - 1]),
        )
    }
}

/// The providers, in registration order.
pub struct ProviderRegistry<P: Provider> {
    providers: Vec<P>,
}

impl<P: Provider> Default for ProviderRegistry<P> {
    fn default() -> (r: Self)
        ensures
            r.registered().len() == 0,
    {
        ProviderRegistry { providers: Vec::new() }
    }
}

impl<P: Provider> ProviderRegistry<P> {
    pub closed spec fn registered(&self) -> Seq<P> {
        self.providers@
    }

    /// The providers' ids, in registration order.
    pub open spec fn ids(&self) -> Seq<Seq<char>> {
        self.registered().map_values(|p: P| p.provider_id())
    }

    pub fn new() -> (r: Self)
        ensures
            r.registered().len() == 0,
    {
        ProviderRegistry { providers: Vec::new() }
    }

    /// Adds a provider after those already registered.
    pub fn register(&mut self, provider: P)
        ensures
            final(self).registered() == old(self).registered().push(provider),
    {
        self.providers.push(provider);
    }

    /// The ids of the providers, in registration order.
    pub fn provider_ids(&self) -> (r: Vec<&'static str>)
        ensures
            r@.len() == self.registered().len(),
            forall|k: int| 0 <= k < r@.len() ==> (#[trigger] r@[k])@ == self.ids()[k],
    {
        let mut out: Vec<&'static str> = Vec::new();
        let mut i: usize = 0;
        while i < self.providers.len()
            invariant
                i <= self.providers@.len(),
                out@.len() == i,
                forall|k: int| 0 <= k < i ==> (#[trigger] out@[k])@ == self.providers@[k].provider_id(),
            decreases self.providers@.len() - i,
        {
            out.push(self.providers[i].id());
            i = i + 1;
        }
        out
    }

    /// Asks every provider in registration order and concatenates their
    /// results, each marked with its provider's id when it names none.
    pub fn search(&self, query: &str) -> (r: Vec<ProviderResult>)
        ensures
            exists|answers: Seq<Seq<ProviderResult>>|
                #![trigger tagged_results(answers, self.ids())]
                answers.len() == self.registered().len() && (forall|k: int|
                    0 <= k < answers.len() ==> #[trigger] self.registered()[k].answers(query@, answers[k]))
                    && r@.map_values(|x: ProviderResult| result_view(x)) == tagged_results(answers, self.ids()),
    {
        let mut out: Vec<ProviderResult> = Vec::new();
        let ghost mut answers: Seq<Seq<ProviderResult>> = Seq::empty();
        let ghost ids = self.ids();
        let mut i: usize = 0;
        while i < self.providers.len()
            invariant
                i <= self.providers@.len(),
                ids == self.ids(),
                answers.len() == i,
                forall|k: int| 0 <= k < i ==> #[trigger] self.providers@[k].answers(query@, answers[k]),
                out@.map_values(|x: ProviderResult| result_view(x)) == tagged_results(answers, ids),
            decreases self.providers@.len() - i,
        {
            let provider = &self.providers[i];
            let id = provider.id();
            let found = provider.search(query);
            let ghost before = out@;
            let mut j: usize = 0;
            while j < found.len()
                invariant
                    j <= found@.len(),
                    id@ == ids[i as int],
                    out@.len() == before.len() + j,
                    forall|k: int| 0 <= k < before.len() ==> #[trigger] out@[k] == before[k],
                    forall|k: int| 0 <= k < j ==> result_view(#[trigger] out@[before.len() + k]) == tagged_view(
                        found@[k],
                        ids[i as int],
                    ),
                decreases found@.len() - j,
            {
                let item = &found[j];
                let provider_name = if item.provider.as_str().is_empty() {
                    id.to_string()
                } else {
                    item.provider.clone()
                };
                let tagged = ProviderResult {
                    id: item.id.clone(),
                    title: item.title.clone(),
                    provider: provider_name,
                    action: item.action.duplicate(),
                };
                out.push(tagged);
                j = j + 1;
            }
            proof {
                let next = answers.push(found@);
                assert(next.drop_last() =~= answers);
                let lhs = out@.map_values(|x: ProviderResult| result_view(x));
                let prev = tagged_results(answers, ids);
                let more = found@.map_values(|r: ProviderResult| tagged_view(r, ids[i as int]));
                assert(before.map_values(|x: ProviderResult| result_view(x)) == prev);
                assert(lhs.len() == prev.len() + more.len());
                assert forall|k: int| 0 <= k < lhs.len() implies #[trigger] lhs[k] == (prev + more)[k] by {
                    if k < before.len() {
                        assert(out@[k] == before[k]);
                        assert(prev[k] == result_view(before[k]));
                    } else {
                        let m = k - before.len();
                        assert(result_view(out@[before.len() + m]) == tagged_view(found@[m], ids[i as int]));
                    }
                }
                assert(lhs =~= prev + more);
                assert(tagged_results(next, ids) == tagged_results(answers, ids) + found@.map_values(
                    |r: ProviderResult| tagged_view(r, ids[i as int]),
                ));
                answers = next;
            }
            i = i + 1;
        }
        proof {
            assert(self.providers@ == self.registered());
        }
        out
    }
}

} // verus!
