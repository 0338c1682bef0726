use link_organizer::ids::IdAllocator;
use link_organizer::import::{check_for_duplicates, import_from_file};
use link_organizer::merge::{ImportConfig, ImportStrategy, InsertPosition};
use link_organizer::model::{Link, LinkGroup, SaveData, StorableLink, StorableLinkGroup};
use link_organizer::text_set::TextSet;
use std::collections::VecDeque;

fn config(strategy: ImportStrategy, position: InsertPosition) -> ImportConfig {
    ImportConfig { strategy, position }
}

fn uris(store: &VecDeque<LinkGroup>) -> Vec<Vec<String>> {
    store
        .iter()
        .map(|group| group.links.iter().map(|link| link.uri.clone()).collect())
        .collect()
}

fn titles(store: &VecDeque<LinkGroup>) -> Vec<Vec<String>> {
    store
        .iter()
        .map(|group| group.links.iter().map(|link| link.title.clone()).collect())
        .collect()
}

fn store_with(groups: &[&[(&str, &str)]], ids: &mut IdAllocator) -> VecDeque<LinkGroup> {
    let mut store = VecDeque::new();
    for group in groups {
        let mut links = VecDeque::new();
        for (uri, title) in group.iter() {
            links.push_back(Link::new(uri.to_string(), title.to_string(), Vec::new(), ids));
        }
        store.push_back(LinkGroup::new(links, ids));
    }
    store
}

fn storable(uri: &str, title: &str, tags: &[&str]) -> StorableLink {
    StorableLink {
        uri: uri.to_string(),
        title: title.to_string(),
        tags: tags.iter().map(|t| t.to_string()).collect(),
    }
}

#[test]
fn one_tab_text_into_empty_store_after() {
    let mut ids = IdAllocator::new();
    let mut store = VecDeque::new();
    let mut tags = TextSet::new();
    let result = import_from_file(
        "https://a.com | A\n\nhttps://b.com | B\n".to_string(),
        None,
        &mut store,
        &mut tags,
        config(ImportStrategy::KeepAll, InsertPosition::After),
        &mut ids,
    );
    assert_eq!(result, Ok(false));
    assert_eq!(uris(&store), vec![vec!["https://a.com"], vec!["https://b.com"]]);
    assert_eq!(titles(&store), vec![vec!["A"], vec!["B"]]);
    assert_eq!(tags.len(), 0);
}

#[test]
fn keep_existing_drops_known_uri_and_empty_group() {
    let mut ids = IdAllocator::new();
    let mut store = store_with(&[&[("https://a.com", "A")]], &mut ids);
    let mut tags = TextSet::new();
    let before_ids: Vec<usize> = store.iter().map(|g| g.id).collect();
    let file = "https://a.com | Again\n".to_string();
    assert_eq!(check_for_duplicates(file.clone(), None, &store), Ok(true));
    let result = import_from_file(
        file,
        None,
        &mut store,
        &mut tags,
        config(ImportStrategy::KeepExisting, InsertPosition::After),
        &mut ids,
    );
    assert_eq!(result, Ok(false));
    assert_eq!(uris(&store), vec![vec!["https://a.com"]]);
    assert_eq!(titles(&store), vec![vec!["A"]]);
    assert_eq!(store.iter().map(|g| g.id).collect::<Vec<_>>(), before_ids);
}

#[test]
fn unknown_first_character_is_refused() {
    let mut ids = IdAllocator::new();
    let mut store = store_with(&[&[("https://a.com", "A")]], &mut ids);
    let mut tags = TextSet::new();
    let result = import_from_file(
        "not json or onetab".to_string(),
        None,
        &mut store,
        &mut tags,
        config(ImportStrategy::KeepAll, InsertPosition::After),
        &mut ids,
    );
    assert_eq!(result, Err("Corrupted file or invalid format".to_string()));
    assert_eq!(uris(&store), vec![vec!["https://a.com"]]);
    assert_eq!(
        check_for_duplicates("not json or onetab".to_string(), None, &store),
        Err("Corrupted file or invalid format".to_string())
    );
}

#[test]
fn keep_all_reports_duplicates() {
    let mut ids = IdAllocator::new();
    let mut store = store_with(&[&[("https://a.com", "A")]], &mut ids);
    let mut tags = TextSet::new();
    let result = import_from_file(
        "https://a.com | Again\nhttps://c.com | C\n".to_string(),
        None,
        &mut store,
        &mut tags,
        config(ImportStrategy::KeepAll, InsertPosition::Before),
        &mut ids,
    );
    assert_eq!(result, Ok(true));
    assert_eq!(
        uris(&store),
        vec![vec!["https://a.com", "https://c.com"], vec!["https://a.com"]]
    );
}

#[test]
fn before_and_after_place_groups_at_opposite_ends() {
    let text = "https://n.com | New\n";
    for (position, expected) in [
        (InsertPosition::Before, vec![vec!["https://n.com"], vec!["https://a.com"], vec!["https://b.com"]]),
        (InsertPosition::After, vec![vec!["https://a.com"], vec!["https://b.com"], vec!["https://n.com"]]),
    ] {
        let mut ids = IdAllocator::new();
        let mut store =
            store_with(&[&[("https://a.com", "A")], &[("https://b.com", "B")]], &mut ids);
        let mut tags = TextSet::new();
        let result = import_from_file(
            text.to_string(),
            None,
            &mut store,
            &mut tags,
            config(ImportStrategy::KeepAll, position),
            &mut ids,
        );
        assert_eq!(result, Ok(false));
        assert_eq!(uris(&store), expected);
    }
}

#[test]
fn several_groups_keep_their_order_at_either_end() {
    let text = "https://1.com | One\nhttps://2.com | Two\n\n\nhttps://3.com | Three\n";
    for (position, expected) in [
        (
            InsertPosition::Before,
            vec![vec!["https://1.com", "https://2.com"], vec!["https://3.com"], vec!["https://a.com"]],
        ),
        (
            InsertPosition::After,
            vec![vec!["https://a.com"], vec!["https://1.com", "https://2.com"], vec!["https://3.com"]],
        ),
    ] {
        for strategy in [ImportStrategy::KeepAll, ImportStrategy::KeepExisting] {
            let mut ids = IdAllocator::new();
            let mut store = store_with(&[&[("https://a.com", "A")]], &mut ids);
            let mut tags = TextSet::new();
            let result = import_from_file(
                text.to_string(),
                None,
                &mut store,
                &mut tags,
                config(strategy, position),
                &mut ids,
            );
            assert_eq!(result, Ok(false));
            assert_eq!(uris(&store), expected);
        }
    }
}

#[test]
fn keep_existing_filters_inside_a_group() {
    let mut ids = IdAllocator::new();
    let mut store = store_with(&[&[("https://a.com", "A"), ("https://b.com", "B")]], &mut ids);
    let mut tags = TextSet::new();
    let text = "https://x.com | X\nhttps://a.com | A2\nhttps://y.com | Y\nhttps://b.com | B2\n\nhttps://b.com | B3\n";
    let result = import_from_file(
        text.to_string(),
        None,
        &mut store,
        &mut tags,
        config(ImportStrategy::KeepExisting, InsertPosition::Before),
        &mut ids,
    );
    assert_eq!(result, Ok(false));
    assert_eq!(
        uris(&store),
        vec![vec!["https://x.com", "https://y.com"], vec!["https://a.com", "https://b.com"]]
    );
    assert_eq!(titles(&store), vec![vec!["X", "Y"], vec!["A", "B"]]);
}

#[test]
fn duplicates_from_before_the_import_are_reported() {
    let mut ids = IdAllocator::new();
    let mut store = store_with(
        &[&[("https://a.com", "A")], &[("https://a.com", "A again")]],
        &mut ids,
    );
    let mut tags = TextSet::new();
    let result = import_from_file(
        "https://z.com | Z\n".to_string(),
        None,
        &mut store,
        &mut tags,
        config(ImportStrategy::KeepExisting, InsertPosition::After),
        &mut ids,
    );
    assert_eq!(result, Ok(true));
}

#[test]
fn snapshot_import_adds_groups_and_tags() {
    let mut ids = IdAllocator::new();
    let mut store = store_with(&[&[("https://a.com", "A")]], &mut ids);
    let mut tags = TextSet::new();
    tags.insert("old".to_string());
    let data = SaveData {
        tags: vec!["work".to_string(), "old".to_string(), "fun".to_string()],
        link_groups: vec![
            StorableLinkGroup {
                links: VecDeque::from(vec![
                    storable("https://b.com", "B", &["work"]),
                    storable("https://c.com", "C", &[]),
                ]),
            },
            StorableLinkGroup { links: VecDeque::new() },
            StorableLinkGroup { links: VecDeque::from(vec![storable("https://d.com", "D", &["fun", "work"])]) },
        ],
    };
    let result = import_from_file(
        "{\"ignored\":true}".to_string(),
        Some(data),
        &mut store,
        &mut tags,
        config(ImportStrategy::KeepAll, InsertPosition::After),
        &mut ids,
    );
    assert_eq!(result, Ok(false));
    let empty: Vec<String> = Vec::new();
    assert_eq!(
        uris(&store),
        vec![
            vec!["https://a.com".to_string()],
            vec!["https://b.com".to_string(), "https://c.com".to_string()],
            empty,
            vec!["https://d.com".to_string()],
        ]
    );
    assert_eq!(store[3].links[0].tags, vec!["fun", "work"]);
    assert_eq!(tags.to_vec(), vec!["fun", "old", "work"]);
    let mut all_ids: Vec<usize> = Vec::new();
    for group in store.iter() {
        all_ids.push(group.id);
        for link in group.links.iter() {
            all_ids.push(link.id);
        }
    }
    let mut sorted = all_ids.clone();
    sorted.sort();
    sorted.dedup();
    assert_eq!(sorted.len(), all_ids.len());
}

#[test]
fn snapshot_that_does_not_decode_is_refused() {
    let mut ids = IdAllocator::new();
    let mut store = store_with(&[&[("https://a.com", "A")]], &mut ids);
    let mut tags = TextSet::new();
    let result = import_from_file(
        "{ not a snapshot".to_string(),
        None,
        &mut store,
        &mut tags,
        config(ImportStrategy::KeepAll, InsertPosition::After),
        &mut ids,
    );
    assert_eq!(result, Err("Corrupted file or invalid format".to_string()));
    assert_eq!(uris(&store), vec![vec!["https://a.com"]]);
    assert_eq!(tags.len(), 0);
}
