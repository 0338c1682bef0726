use link_organizer::ids::IdAllocator;
use link_organizer::import::one_tab_import;
use link_organizer::model::{LinkGroup, StorableLinkGroup};
use link_organizer::onetab::parse_one_tab;
use std::collections::VecDeque;

fn pairs(groups: &[StorableLinkGroup]) -> Vec<Vec<(String, String)>> {
    groups
        .iter()
        .map(|g| g.links.iter().map(|l| (l.uri.clone(), l.title.clone())).collect())
        .collect()
}

fn expect(groups: &[&[(&str, &str)]]) -> Vec<Vec<(String, String)>> {
    groups
        .iter()
        .map(|g| g.iter().map(|(u, t)| (u.to_string(), t.to_string())).collect())
        .collect()
}

/// The parser as std's `lines`, `split_once` and `trim` spell it.
fn by_std(text: &str) -> Result<Vec<Vec<(String, String)>>, String> {
    let mut groups: VecDeque<Vec<(String, String)>> = VecDeque::new();
    let mut pending: VecDeque<(String, String)> = VecDeque::new();
    for line in text.lines().rev() {
        if let Some((uri, title)) = line.split_once('|') {
            let uri = uri.trim().to_string();
            if !(uri.starts_with("https://") || uri.starts_with("http://")) {
                return Err(format!("Invalid URI: '{}'", uri));
            }
            let title = title.trim().to_string();
            if title.is_empty() {
                return Err(format!("Missing title for uri: '{}'", uri));
            }
            pending.push_front((uri, title));
        } else if !pending.is_empty() {
            groups.push_front(pending.iter().cloned().collect());
            pending = VecDeque::new();
        }
    }
    if !pending.is_empty() {
        groups.push_front(pending.iter().cloned().collect());
    }
    Ok(groups.into_iter().collect())
}

fn parsed(text: &str) -> Result<Vec<Vec<(String, String)>>, String> {
    parse_one_tab(text).map(|groups| pairs(&groups))
}

#[test]
fn two_groups_in_the_order_of_the_text() {
    let groups = parse_one_tab("https://a.com | A\n\nhttps://b.com | B\n").unwrap();
    assert_eq!(pairs(&groups), expect(&[&[("https://a.com", "A")], &[("https://b.com", "B")]]));
    assert!(groups.iter().all(|g| g.links.iter().all(|l| l.tags.is_empty())));
}

#[test]
fn links_of_a_group_keep_the_order_of_the_text() {
    let text = "https://1.com | one\nhttp://2.com | two\nhttps://3.com | three";
    assert_eq!(
        parsed(text),
        Ok(expect(&[&[("https://1.com", "one"), ("http://2.com", "two"), ("https://3.com", "three")]]))
    );
}

#[test]
fn uri_and_title_are_trimmed() {
    let text = "  \thttps://a.com \u{a0} |  \u{3000}A title  \r\n";
    assert_eq!(parsed(text), Ok(expect(&[&[("https://a.com", "A title")]])));
}

#[test]
fn first_bar_splits_and_later_bars_belong_to_the_title() {
    let text = "https://a.com | A | B | C\n";
    assert_eq!(parsed(text), Ok(expect(&[&[("https://a.com", "A | B | C")]])));
}

#[test]
fn lines_without_a_bar_separate_groups() {
    let text = "\n\nhttps://a.com | A\nnot a link\n\nhttps://b.com | B\nhttps://c.com | C\n\n\n";
    assert_eq!(
        parsed(text),
        Ok(expect(&[&[("https://a.com", "A")], &[("https://b.com", "B"), ("https://c.com", "C")]]))
    );
}

#[test]
fn text_without_links_has_no_groups() {
    assert_eq!(parsed(""), Ok(Vec::new()));
    assert_eq!(parsed("\n\n\n"), Ok(Vec::new()));
    assert_eq!(parsed("hello\nworld"), Ok(Vec::new()));
}

#[test]
fn uri_without_web_prefix_is_refused_by_name() {
    assert_eq!(parsed("ftp://a.com | A\n"), Err("Invalid URI: 'ftp://a.com'".to_string()));
    assert_eq!(parsed("https:/a.com | A\n"), Err("Invalid URI: 'https:/a.com'".to_string()));
    assert_eq!(parsed(" | A\n"), Err("Invalid URI: ''".to_string()));
    assert_eq!(parsed("HTTPS://a.com | A\n"), Err("Invalid URI: 'HTTPS://a.com'".to_string()));
    assert_eq!(parsed("http:// | A\n"), Ok(expect(&[&[("http://", "A")]])));
}

#[test]
fn empty_title_is_refused_by_the_uri() {
    assert_eq!(
        parsed("https://a.com |   \n"),
        Err("Missing title for uri: 'https://a.com'".to_string())
    );
    assert_eq!(
        parsed("https://a.com |"),
        Err("Missing title for uri: 'https://a.com'".to_string())
    );
    assert_eq!(
        parsed("https://a.com |\r\nhttps://b.com | B"),
        Err("Missing title for uri: 'https://a.com'".to_string())
    );
}

#[test]
fn the_last_refused_line_is_reported() {
    let text = "bad1 | x\nhttps://ok.com | fine\nhttps://b.com | \nhttps://c.com | C\n";
    assert_eq!(parsed(text), Err("Missing title for uri: 'https://b.com'".to_string()));
    let text = "https://b.com | \nbad2 | x\n";
    assert_eq!(parsed(text), Err("Invalid URI: 'bad2'".to_string()));
    let text = "bad | \n";
    assert_eq!(parsed(text), Err("Invalid URI: 'bad'".to_string()));
}

#[test]
fn parsing_twice_gives_the_same_content() {
    let text = "https://a.com | A\nhttps://b.com | B\n\nhttps://c.com | C\n";
    let mut first_ids = IdAllocator::new();
    let mut second_ids = IdAllocator::starting_at(1000);
    let mut first: VecDeque<LinkGroup> = VecDeque::new();
    let mut second: VecDeque<LinkGroup> = VecDeque::new();
    assert_eq!(one_tab_import(text.to_string(), &mut first, &mut first_ids), Ok(()));
    assert_eq!(one_tab_import(text.to_string(), &mut second, &mut second_ids), Ok(()));
    assert_eq!(first.len(), second.len());
    for (a, b) in first.iter().zip(second.iter()) {
        assert_ne!(a.id, b.id);
        assert_eq!(a.links.len(), b.links.len());
        for (x, y) in a.links.iter().zip(b.links.iter()) {
            assert_ne!(x.id, y.id);
            assert_eq!((&x.uri, &x.title, &x.tags), (&y.uri, &y.title, &y.tags));
        }
    }
}

#[test]
fn identities_run_from_the_end_of_the_text() {
    let text = "https://a.com | A\nhttps://b.com | B\n\nhttps://c.com | C\n";
    let mut ids = IdAllocator::starting_at(10);
    let mut store: VecDeque<LinkGroup> = VecDeque::new();
    assert_eq!(one_tab_import(text.to_string(), &mut store, &mut ids), Ok(()));
    assert_eq!(store[1].links[0].id, 10);
    assert_eq!(store[1].id, 11);
    assert_eq!(store[0].links[1].id, 12);
    assert_eq!(store[0].links[0].id, 13);
    assert_eq!(store[0].id, 14);
    assert_eq!(ids.get_new_id(), 15);
}

#[test]
fn refused_text_changes_nothing() {
    let mut ids = IdAllocator::starting_at(7);
    let mut store: VecDeque<LinkGroup> = VecDeque::new();
    assert_eq!(one_tab_import("https://a.com | A\n".to_string(), &mut store, &mut ids), Ok(()));
    let result = one_tab_import("https://b.com | B\nnope | x\n".to_string(), &mut store, &mut ids);
    assert_eq!(result, Err("Invalid URI: 'nope'".to_string()));
    assert_eq!(store.len(), 1);
    assert_eq!(ids.get_new_id(), 9);
}

#[test]
fn import_puts_groups_before_those_that_are_there() {
    let mut ids = IdAllocator::new();
    let mut store: VecDeque<LinkGroup> = VecDeque::new();
    assert_eq!(one_tab_import("https://a.com | A\n".to_string(), &mut store, &mut ids), Ok(()));
    assert_eq!(
        one_tab_import("https://b.com | B\n\nhttps://c.com | C".to_string(), &mut store, &mut ids),
        Ok(())
    );
    let uris: Vec<&str> = store.iter().map(|g| g.links[0].uri.as_str()).collect();
    assert_eq!(uris, vec!["https://b.com", "https://c.com", "https://a.com"]);
}

#[test]
fn agrees_with_std_on_generated_texts() {
    let pieces = [
        "https://a.com", "http://b.org/x?y=1", "ftp://c", "https://", " ", "\t", "|", " | ", "\n",
        "\r\n", "\r", "title", "T", "\u{a0}", "\u{2003}", "\u{85}", "é", "日本", "h", "{", "||",
        "\n\n", "https://d.net | D", "x | y", "",
    ];
    let mut state: u64 = 0x2545F4914F6CDD1D;
    let mut checked = 0;
    for _ in 0..4000 {
        let mut text = String::new();
        state ^= state << 13;
        state ^= state >> 7;
        state ^= state << 17;
        let count = (state % 12) as usize;
        for _ in 0..count {
            state ^= state << 13;
            state ^= state >> 7;
            state ^= state << 17;
            text.push_str(pieces[(state % pieces.len() as u64) as usize]);
        }
        assert_eq!(parsed(&text), by_std(&text), "text: {:?}", text);
        checked += 1;
    }
    assert_eq!(checked, 4000);
}
