use link_organizer::fresh::{number_links_first, prepend_groups, Numbering};
use link_organizer::ids::IdAllocator;
use link_organizer::import::{add_tags, detect_format, json_import, ImportFormat};
use link_organizer::merge::{accept_groups, filter_group, insert_groups, ImportStrategy, InsertPosition};
use link_organizer::model::{clone_strings, Link, LinkGroup, SaveData, StorableLink, StorableLinkGroup};
use link_organizer::text_set::TextSet;
use link_organizer::uris::{any_uri_known, collect_uris, has_duplicates};
use std::collections::VecDeque;

fn storable(uri: &str) -> StorableLink {
    StorableLink { uri: uri.to_string(), title: format!("title of {}", uri), tags: vec!["t".to_string()] }
}

fn storable_group(uris: &[&str]) -> StorableLinkGroup {
    StorableLinkGroup { links: uris.iter().map(|u| storable(u)).collect() }
}

fn link(id: usize, uri: &str) -> Link {
    Link { id, uri: uri.to_string(), title: "t".to_string(), tags: Vec::new() }
}

fn group(id: usize, links: Vec<Link>) -> LinkGroup {
    LinkGroup { id, links: VecDeque::from(links) }
}

#[test]
fn identities_follow_one_another_and_wrap() {
    let mut ids = IdAllocator::new();
    assert_eq!(ids.get_new_id(), 0);
    assert_eq!(ids.get_new_id(), 1);
    assert_eq!(ids.get_new_id(), 2);
    let mut ids = IdAllocator::starting_at(usize::MAX - 1);
    assert_eq!(ids.get_new_id(), usize::MAX - 1);
    assert_eq!(ids.get_new_id(), usize::MAX);
    assert_eq!(ids.get_new_id(), 0);
}

#[test]
fn new_links_and_groups_take_new_identities() {
    let mut ids = IdAllocator::starting_at(5);
    let a = Link::new("u".to_string(), "t".to_string(), vec!["x".to_string()], &mut ids);
    let b = Link::new("v".to_string(), "s".to_string(), Vec::new(), &mut ids);
    assert_eq!((a.id, a.uri.as_str(), a.title.as_str(), a.tags.len()), (5, "u", "t", 1));
    assert_eq!(b.id, 6);
    let g = LinkGroup::new(VecDeque::from(vec![a.clone(), b.clone()]), &mut ids);
    assert_eq!(g.id, 7);
    assert_eq!(g.links, VecDeque::from(vec![a, b]));
}

#[test]
fn storable_forms_drop_and_renew_identities() {
    let mut ids = IdAllocator::starting_at(40);
    let group = LinkGroup::from_storable(storable_group(&["a", "b", "c"]), &mut ids);
    assert_eq!(group.id, 40);
    assert_eq!(group.links.iter().map(|l| l.id).collect::<Vec<_>>(), vec![41, 42, 43]);
    assert_eq!(group.links.iter().map(|l| l.uri.as_str()).collect::<Vec<_>>(), vec!["a", "b", "c"]);
    assert_eq!(ids.get_new_id(), 44);
    let back = StorableLinkGroup::from_group(group.clone());
    assert_eq!(back, storable_group(&["a", "b", "c"]));
    let one = Link::from_storable(storable("z"), &mut ids);
    assert_eq!(one.id, 45);
    assert_eq!(StorableLink::from_link(one), storable("z"));
    assert_eq!(group.clone(), group);
    assert_eq!(back.clone(), back);
    assert_eq!(clone_strings(&vec!["a".to_string(), "b".to_string()]), vec!["a", "b"]);
}

#[test]
fn numbering_links_first_runs_backwards() {
    let mut ids = IdAllocator::starting_at(40);
    let group = number_links_first(storable_group(&["a", "b", "c"]), &mut ids);
    assert_eq!(group.id, 43);
    assert_eq!(group.links.iter().map(|l| l.id).collect::<Vec<_>>(), vec![42, 41, 40]);
    assert_eq!(group.links.iter().map(|l| l.uri.as_str()).collect::<Vec<_>>(), vec!["a", "b", "c"]);
    let empty = number_links_first(storable_group(&[]), &mut ids);
    assert_eq!((empty.id, empty.links.len()), (44, 0));
}

#[test]
fn prepended_groups_take_identities_from_the_last_group_on() {
    let mut ids = IdAllocator::starting_at(100);
    let mut store = VecDeque::from(vec![group(1, vec![link(2, "old")])]);
    prepend_groups(
        vec![storable_group(&["a", "b"]), storable_group(&[]), storable_group(&["c"])],
        Numbering::GroupFirst,
        &mut store,
        &mut ids,
    );
    let shape: Vec<(usize, Vec<usize>)> =
        store.iter().map(|g| (g.id, g.links.iter().map(|l| l.id).collect())).collect();
    assert_eq!(
        shape,
        vec![(103, vec![104, 105]), (102, vec![]), (100, vec![101]), (1, vec![2])]
    );
    assert_eq!(ids.get_new_id(), 106);
}

#[test]
fn snapshot_import_with_and_without_a_tag_set() {
    let data = || SaveData {
        tags: vec!["b".to_string(), "a".to_string()],
        link_groups: vec![storable_group(&["x"]), storable_group(&["y", "z"])],
    };
    let mut ids = IdAllocator::new();
    let mut store = VecDeque::new();
    let mut tags = TextSet::new();
    assert_eq!(json_import(Some(data()), &mut store, Some(&mut tags), &mut ids), Ok(()));
    assert_eq!(tags.to_vec(), vec!["a", "b"]);
    assert_eq!(store.iter().map(|g| g.links.len()).collect::<Vec<_>>(), vec![1, 2]);
    assert_eq!(json_import(Some(data()), &mut store, None, &mut ids), Ok(()));
    assert_eq!(store.len(), 4);
    assert_eq!(
        json_import(None, &mut store, Some(&mut tags), &mut ids),
        Err("Corrupted file or invalid format".to_string())
    );
    assert_eq!(store.len(), 4);
    add_tags(&mut tags, &vec!["c".to_string(), "a".to_string()]);
    assert_eq!(tags.to_vec(), vec!["a", "b", "c"]);
}

#[test]
fn format_goes_by_the_first_character() {
    assert_eq!(detect_format("https://a.com | A"), Ok(ImportFormat::OneTab));
    assert_eq!(detect_format("hello"), Ok(ImportFormat::OneTab));
    assert_eq!(detect_format("{\"tags\":[]}"), Ok(ImportFormat::Snapshot));
    assert_eq!(detect_format(" {"), Err("Corrupted file or invalid format".to_string()));
    assert_eq!(detect_format("Http://"), Err("Corrupted file or invalid format".to_string()));
    assert_eq!(detect_format("é"), Err("Corrupted file or invalid format".to_string()));
}

#[test]
fn uris_are_collected_and_repeats_found() {
    let store = VecDeque::from(vec![
        group(1, vec![link(1, "b"), link(2, "a")]),
        group(2, vec![]),
        group(3, vec![link(3, "c")]),
    ]);
    assert_eq!(collect_uris(&store).to_vec(), vec!["a", "b", "c"]);
    assert!(!has_duplicates(&store));
    let mut within = store.clone();
    within[0].links.push_back(link(9, "b"));
    assert!(has_duplicates(&within));
    let mut across = store.clone();
    across[2].links.push_back(link(9, "a"));
    assert!(has_duplicates(&across));
    assert!(!has_duplicates(&VecDeque::new()));
    let known = collect_uris(&store);
    assert!(any_uri_known(&vec![storable_group(&["x"]), storable_group(&["y", "c"])], &known));
    assert!(!any_uri_known(&vec![storable_group(&["x"]), storable_group(&[])], &known));
    assert!(!any_uri_known(&Vec::new(), &known));
}

#[test]
fn accepting_and_inserting_groups() {
    let mut known = TextSet::new();
    known.insert("a".to_string());
    let incoming = || {
        VecDeque::from(vec![
            group(1, vec![link(1, "a"), link(2, "x"), link(3, "a"), link(4, "y")]),
            group(2, vec![link(5, "a")]),
            group(3, vec![]),
            group(4, vec![link(6, "z")]),
        ])
    };
    let all = accept_groups(incoming(), ImportStrategy::KeepAll, &known);
    assert_eq!(all, incoming());
    let kept = accept_groups(incoming(), ImportStrategy::KeepExisting, &known);
    let shape: Vec<(usize, Vec<usize>)> =
        kept.iter().map(|g| (g.id, g.links.iter().map(|l| l.id).collect())).collect();
    assert_eq!(shape, vec![(1, vec![2, 4]), (4, vec![6])]);
    assert_eq!(filter_group(incoming()[1].clone(), &known), group(2, vec![]));
    let mut store = VecDeque::from(vec![group(9, vec![])]);
    insert_groups(kept.clone(), InsertPosition::Before, &mut store);
    assert_eq!(store.iter().map(|g| g.id).collect::<Vec<_>>(), vec![1, 4, 9]);
    insert_groups(kept, InsertPosition::After, &mut store);
    assert_eq!(store.iter().map(|g| g.id).collect::<Vec<_>>(), vec![1, 4, 9, 1, 4]);
}
