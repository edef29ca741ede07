use quickfox_core::actions::Action;
use quickfox_core::providers::{Provider, ProviderRegistry, ProviderResult};

struct StaticProvider {
    provider_id: &'static str,
    result_title: &'static str,
}

impl Provider for StaticProvider {
    fn id(&self) -> &'static str {
        self.provider_id
    }

    fn search(&self, _query: &str) -> Vec<ProviderResult> {
        vec![ProviderResult::new(
            format!("{}:{}", self.provider_id, self.result_title),
            self.result_title.to_owned(),
            Action::OpenPath { path: format!("/tmp/{}", self.result_title) },
        )]
    }
}

#[test]
fn registry_queries_all_registered_providers_and_merges_results() {
    let mut registry = ProviderRegistry::default();
    registry.register(StaticProvider { provider_id: "files", result_title: "notes.md" });
    registry.register(StaticProvider { provider_id: "calculator", result_title: "1024" });

    let results = registry.search("2^10");

    assert_eq!(results.len(), 2);
    assert_eq!(results[0].id, "files:notes.md");
    assert_eq!(results[1].id, "calculator:1024");
}

#[test]
fn registry_exposes_provider_ids_in_registration_order() {
    let mut registry = ProviderRegistry::default();
    registry.register(StaticProvider { provider_id: "files", result_title: "notes.md" });
    registry.register(StaticProvider { provider_id: "web", result_title: "Search web" });

    assert_eq!(registry.provider_ids(), vec!["files", "web"]);
}

struct ClaimingProvider;

impl Provider for ClaimingProvider {
    fn id(&self) -> &'static str {
        "apps"
    }

    fn search(&self, query: &str) -> Vec<ProviderResult> {
        let mut claimed = ProviderResult::new(format!("apps:{query}"), query.to_owned(), Action::CopyText { text: query.to_owned() });
        claimed.provider = "launcher".to_owned();
        let unclaimed = ProviderResult::new("apps:other".to_owned(), "other".to_owned(), Action::CopyText { text: String::new() });
        vec![claimed, unclaimed]
    }
}

#[test]
fn registry_fills_in_the_provider_only_where_a_result_names_none() {
    let mut registry = ProviderRegistry::new();
    registry.register(ClaimingProvider);
    let results = registry.search("term");
    assert_eq!(results[0].provider, "launcher");
    assert_eq!(results[1].provider, "apps");
    assert_eq!(results[0].title, "term");
}

#[test]
fn an_empty_registry_answers_nothing() {
    let registry: ProviderRegistry<StaticProvider> = ProviderRegistry::new();
    assert!(registry.search("x").is_empty());
    assert!(registry.provider_ids().is_empty());
}
