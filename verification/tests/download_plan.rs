use cadenza::catalog::CatalogEntry;
use cadenza::download::plan_downloads;

fn catalog_entry(composer: &str, title: &str, target: &str) -> CatalogEntry {
    CatalogEntry {
        composer: composer.to_string(),
        title: title.to_string(),
        source_page: format!("https://example.org/{title}"),
        target_path: target.to_string(),
    }
}

#[test]
fn builds_download_plan_for_catalog() {
    let entries = vec![
        catalog_entry("Bach", "Toccata", "bach/toccata.ogg"),
        catalog_entry("Mozart", "Serenade", "mozart/serenade.ogg"),
    ];
    let plans = plan_downloads(&entries, "music".to_string());

    assert_eq!(plans.len(), entries.len());
    assert!(plans[0].target_path.starts_with("music"));
    assert_eq!(plans[0].target_path, "music/bach/toccata.ogg");
    assert_eq!(plans[1].composer, "Mozart");
    assert_eq!(plans[1].title, "Serenade");
    assert_eq!(plans[1].source_page, "https://example.org/Serenade");
}

#[test]
fn target_paths_join_like_paths() {
    let entries = vec![
        catalog_entry("A", "a", "x.ogg"),
        catalog_entry("B", "b", "/abs/y.ogg"),
    ];
    assert_eq!(plan_downloads(&entries, "music/".to_string())[0].target_path, "music/x.ogg");
    assert_eq!(plan_downloads(&entries, String::new())[0].target_path, "x.ogg");
    assert_eq!(plan_downloads(&entries, "music".to_string())[1].target_path, "/abs/y.ogg");
}
