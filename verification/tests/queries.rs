use link_organizer::dupes::{holders_of, resolve_dupes, same_group, same_link, ResolveDupeItem};
use link_organizer::export::{export_for_onetab, save_data};
use link_organizer::ids::IdAllocator;
use link_organizer::import::import_from_file;
use link_organizer::merge::{ImportConfig, ImportStrategy, InsertPosition};
use link_organizer::model::{Link, LinkGroup, StorableLink, StorableLinkGroup};
use link_organizer::queries::{get_links, get_tags, get_tags_for_link, has_tag, search, title_matches};
use link_organizer::sorting::stable_order;
use link_organizer::text_set::TextSet;
use std::collections::VecDeque;

fn link(id: usize, uri: &str, title: &str, tags: &[&str]) -> Link {
    Link {
        id,
        uri: uri.to_string(),
        title: title.to_string(),
        tags: tags.iter().map(|t| t.to_string()).collect(),
    }
}

fn group(id: usize, links: Vec<Link>) -> LinkGroup {
    LinkGroup { id, links: VecDeque::from(links) }
}

fn sample() -> VecDeque<LinkGroup> {
    VecDeque::from(vec![
        group(10, vec![
            link(1, "https://rust-lang.org", "Rust Language", &["code"]),
            link(2, "https://b.com", "banana bread", &["food"]),
        ]),
        group(20, vec![]),
        group(30, vec![
            link(3, "https://c.com", "Apple pie", &["food", "sweet"]),
            link(4, "https://a.com", "RUSTY nails", &[]),
            link(5, "https://b.com", "banana bread", &["food"]),
        ]),
    ])
}

fn ids_of(links: &[Link]) -> Vec<usize> {
    links.iter().map(|l| l.id).collect()
}

fn some(text: &str) -> Option<String> {
    Some(text.to_string())
}

#[test]
fn get_links_copies_the_store() {
    let store = sample();
    assert_eq!(get_links(&store), store);
}

#[test]
fn search_without_filters_sorts_all_links_by_title() {
    let found = search(&sample(), None, "title".to_string(), "asc".to_string(), None);
    assert_eq!(ids_of(&found), vec![3, 4, 1, 2, 5]);
    let found = search(&sample(), None, "anything".to_string(), "".to_string(), None);
    assert_eq!(ids_of(&found), vec![3, 4, 1, 2, 5]);
}

#[test]
fn search_sorts_by_uri_and_keeps_ties_in_store_order() {
    let found = search(&sample(), None, "uri".to_string(), "asc".to_string(), None);
    assert_eq!(ids_of(&found), vec![4, 2, 5, 3, 1]);
}

#[test]
fn search_descending_reverses_the_sorted_list() {
    let found = search(&sample(), None, "uri".to_string(), "desc".to_string(), None);
    assert_eq!(ids_of(&found), vec![1, 3, 5, 2, 4]);
    let found = search(&sample(), None, "uri".to_string(), "DESC".to_string(), None);
    assert_eq!(ids_of(&found), vec![4, 2, 5, 3, 1]);
}

#[test]
fn search_text_matches_titles_whatever_the_case() {
    let found = search(&sample(), some("rust"), "title".to_string(), "asc".to_string(), None);
    assert_eq!(ids_of(&found), vec![4, 1]);
    let found = search(&sample(), some("BANANA"), "title".to_string(), "asc".to_string(), None);
    assert_eq!(ids_of(&found), vec![2, 5]);
    let found = search(&sample(), some("nothing"), "title".to_string(), "asc".to_string(), None);
    assert_eq!(ids_of(&found), Vec::<usize>::new());
}

#[test]
fn blank_search_text_finds_nothing() {
    let found = search(&sample(), some("   "), "title".to_string(), "asc".to_string(), None);
    assert_eq!(found.len(), 0);
    let found = search(&sample(), some(""), "title".to_string(), "asc".to_string(), None);
    assert_eq!(found.len(), 0);
    let found = search(&sample(), some(" "), "title".to_string(), "asc".to_string(), some("food"));
    assert_eq!(found.len(), 0);
}

#[test]
fn search_by_tag_and_text() {
    let found = search(&sample(), None, "title".to_string(), "asc".to_string(), some("food"));
    assert_eq!(ids_of(&found), vec![3, 2, 5]);
    let found =
        search(&sample(), some("pie"), "title".to_string(), "asc".to_string(), some("food"));
    assert_eq!(ids_of(&found), vec![3]);
    let found = search(&sample(), None, "title".to_string(), "asc".to_string(), some("none"));
    assert_eq!(found.len(), 0);
    assert_eq!(
        search(&sample(), None, "title".to_string(), "asc".to_string(), some("sweet")),
        vec![link(3, "https://c.com", "Apple pie", &["food", "sweet"])]
    );
}

#[test]
fn title_match_wants_a_text_that_is_not_blank() {
    assert!(title_matches("rust language", "Rust", "rust"));
    assert!(title_matches("rust language", " l", " l"));
    assert!(!title_matches("rust language", " \t", " \t"));
    assert!(!title_matches("rust language", "", ""));
    assert!(!title_matches("rust language", "go", "go"));
    assert!(has_tag(&vec!["a".to_string(), "b".to_string()], &"b".to_string()));
    assert!(!has_tag(&vec!["a".to_string(), "b".to_string()], &"c".to_string()));
}

#[test]
fn stable_order_agrees_with_std_sort() {
    let mut state: u64 = 0x9E3779B97F4A7C15;
    for round in 0..200 {
        let mut keys: Vec<String> = Vec::new();
        for _ in 0..(round % 17) {
            state ^= state << 13;
            state ^= state >> 7;
            state ^= state << 17;
            keys.push(format!("{}", state % 6));
        }
        let mut expected: Vec<usize> = (0..keys.len()).collect();
        expected.sort_by_key(|&i| keys[i].clone());
        assert_eq!(stable_order(&keys), expected);
    }
    let keys: Vec<String> = ["b", "a", "é", "B", "", "a"].iter().map(|s| s.to_string()).collect();
    assert_eq!(stable_order(&keys), vec![4, 3, 1, 5, 0, 2]);
}

#[test]
fn tags_are_listed_sorted_filtered_and_reversed() {
    let mut tags = TextSet::new();
    for name in ["work", "fun", "homework", "art"] {
        tags.insert(name.to_string());
    }
    assert_eq!(get_tags(&tags, None, None), vec!["art", "fun", "homework", "work"]);
    assert_eq!(get_tags(&tags, None, some("desc")), vec!["work", "homework", "fun", "art"]);
    assert_eq!(get_tags(&tags, None, some("asc")), vec!["art", "fun", "homework", "work"]);
    assert_eq!(get_tags(&tags, some("work"), None), vec!["homework", "work"]);
    assert_eq!(get_tags(&tags, some("work"), some("desc")), vec!["work", "homework"]);
    assert_eq!(get_tags(&tags, some(""), None), vec!["art", "fun", "homework", "work"]);
    assert_eq!(get_tags(&tags, some("Work"), None), Vec::<String>::new());
}

#[test]
fn tags_of_a_link_by_identity() {
    let store = sample();
    assert_eq!(get_tags_for_link(&store, 3), vec!["food", "sweet"]);
    assert_eq!(get_tags_for_link(&store, 4), Vec::<String>::new());
    assert_eq!(get_tags_for_link(&store, 99), Vec::<String>::new());
}

#[test]
fn resolve_dupes_names_the_first_shared_uri() {
    let mut store = sample();
    store.push_back(group(40, vec![link(6, "https://a.com", "again", &[]), link(7, "https://a.com", "twice", &[])]));
    store.push_back(group(50, vec![link(8, "https://z.com", "z", &[]), link(9, "https://z.com", "z", &[])]));
    let item = resolve_dupes(&store);
    assert_eq!(item.dupes_left, 2);
    assert_eq!(item.key, "https://a.com");
    assert_eq!(item.groups.iter().map(|g| g.id).collect::<Vec<_>>(), vec![30, 40]);
    assert_eq!(item.groups[0], store[2]);
    let holders = holders_of(&store, &"https://b.com".to_string());
    assert_eq!(holders.iter().map(|g| g.id).collect::<Vec<_>>(), vec![10, 30]);
    assert_eq!(holders_of(&store, &"https://z.com".to_string()).len(), 1);
    assert_eq!(holders_of(&store, &"https://none.com".to_string()).len(), 0);
}

#[test]
fn resolve_dupes_without_shared_uri_gives_the_default() {
    let store = VecDeque::from(vec![
        group(1, vec![link(1, "https://a.com", "A", &[]), link(2, "https://a.com", "A", &[])]),
        group(2, vec![link(3, "https://b.com", "B", &[])]),
    ]);
    let item = resolve_dupes(&store);
    assert_eq!(item.dupes_left, 0);
    assert_eq!(item.key, "");
    assert_eq!(item.groups.len(), 0);
    assert!(item == ResolveDupeItem::default());
    assert_eq!(resolve_dupes(&VecDeque::new()).dupes_left, 0);
}

#[test]
fn equal_groups_count_as_one_holder() {
    let twin = group(1, vec![link(1, "https://a.com", "A", &["t"])]);
    let store = VecDeque::from(vec![twin.clone(), twin.clone()]);
    assert!(same_group(&store[0], &store[1]));
    assert_eq!(resolve_dupes(&store).dupes_left, 0);
    let other = group(1, vec![link(1, "https://a.com", "A", &["u"])]);
    assert!(!same_group(&twin, &other));
    assert!(!same_link(&twin.links[0], &other.links[0]));
    assert!(same_link(&twin.links[0], &twin.links[0].clone()));
    assert!(!same_group(&twin, &group(2, vec![link(1, "https://a.com", "A", &["t"])])));
    assert!(!same_group(&twin, &group(1, vec![])));
    let store = VecDeque::from(vec![twin, other]);
    assert_eq!(resolve_dupes(&store).dupes_left, 1);
}

#[test]
fn items_are_equal_by_key() {
    let a = ResolveDupeItem { dupes_left: 1, key: "k".to_string(), groups: Vec::new() };
    let b = ResolveDupeItem { dupes_left: 5, key: "k".to_string(), groups: vec![group(1, vec![])] };
    let c = ResolveDupeItem { dupes_left: 1, key: "other".to_string(), groups: Vec::new() };
    assert!(a == b);
    assert!(a != c);
}

#[test]
fn one_tab_export_writes_lines_and_an_empty_line_after_each_group() {
    let store = VecDeque::from(vec![
        group(1, vec![link(1, "https://a.com", "A", &["t"]), link(2, "https://b.com", "B | b", &[])]),
        group(2, vec![]),
        group(3, vec![link(3, "https://c.com", "C", &[])]),
    ]);
    assert_eq!(
        export_for_onetab(&store),
        "https://a.com | A\nhttps://b.com | B | b\n\n\nhttps://c.com | C\n\n"
    );
    assert_eq!(export_for_onetab(&VecDeque::new()), "");
}

#[test]
fn snapshot_holds_tags_and_groups_without_identities() {
    let store = sample();
    let mut tags = TextSet::new();
    tags.insert("food".to_string());
    tags.insert("code".to_string());
    let data = save_data(&store, &tags);
    assert_eq!(data.tags, vec!["code", "food"]);
    assert_eq!(data.link_groups.len(), 3);
    assert_eq!(data.link_groups[1].links.len(), 0);
    assert_eq!(
        data.link_groups[2].links[0],
        StorableLink {
            uri: "https://c.com".to_string(),
            title: "Apple pie".to_string(),
            tags: vec!["food".to_string(), "sweet".to_string()],
        }
    );
    assert_eq!(
        data.link_groups[0],
        StorableLinkGroup::from_group(store[0].clone())
    );
}

#[test]
fn snapshot_round_trip_reproduces_the_content() {
    let store = sample();
    let mut tags = TextSet::new();
    tags.insert("food".to_string());
    tags.insert("code".to_string());
    tags.insert("sweet".to_string());
    for position in [InsertPosition::Before, InsertPosition::After] {
        let data = save_data(&store, &tags);
        let mut ids = IdAllocator::starting_at(1000);
        let mut loaded: VecDeque<LinkGroup> = VecDeque::new();
        let mut loaded_tags = TextSet::new();
        let result = import_from_file(
            "{}".to_string(),
            Some(data),
            &mut loaded,
            &mut loaded_tags,
            ImportConfig { strategy: ImportStrategy::KeepAll, position },
            &mut ids,
        );
        assert_eq!(result, Ok(true));
        assert_eq!(loaded.len(), store.len());
        for (a, b) in loaded.iter().zip(store.iter()) {
            assert!(a.id >= 1000);
            assert_eq!(a.links.len(), b.links.len());
            for (x, y) in a.links.iter().zip(b.links.iter()) {
                assert!(x.id >= 1000);
                assert_eq!((&x.uri, &x.title, &x.tags), (&y.uri, &y.title, &y.tags));
            }
        }
        assert_eq!(loaded_tags.to_vec(), tags.to_vec());
    }
}

#[test]
fn one_tab_export_reads_back_as_the_same_links() {
    let store = VecDeque::from(vec![
        group(1, vec![link(1, "https://a.com", "A", &[]), link(2, "https://b.com", "B", &[])]),
        group(3, vec![link(3, "https://c.com", "C", &[])]),
    ]);
    let text = export_for_onetab(&store);
    let mut ids = IdAllocator::starting_at(50);
    let mut loaded: VecDeque<LinkGroup> = VecDeque::new();
    let mut tags = TextSet::new();
    let result = import_from_file(
        text,
        None,
        &mut loaded,
        &mut tags,
        ImportConfig { strategy: ImportStrategy::KeepAll, position: InsertPosition::Before },
        &mut ids,
    );
    assert_eq!(result, Ok(false));
    let read: Vec<Vec<(&str, &str)>> = loaded
        .iter()
        .map(|g| g.links.iter().map(|l| (l.uri.as_str(), l.title.as_str())).collect())
        .collect();
    assert_eq!(
        read,
        vec![vec![("https://a.com", "A"), ("https://b.com", "B")], vec![("https://c.com", "C")]]
    );
}
