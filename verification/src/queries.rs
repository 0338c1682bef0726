//! Reading a store: its groups, its tags, and the links that a search finds.

use crate::model::{
    clone_strings, groups_view, links_view, strings_view, GroupView, Link, LinkGroup, LinkView,
};
use crate::sorting::{order_of, positions, stable_order};
use crate::store::{find_link_in_store, group_of_link, link_position};
use crate::text::{chars_of, contains_text, text_contains, trim, trim_bounds};
use crate::text_set::TextSet;
use std::collections::VecDeque;
use vstd::prelude::*;

verus! {

/// The lowercase form of a text, as `str::to_lowercase` gives it.
pub uninterp spec fn lowercase_of(text: Seq<char>) -> Seq<char>;

/// The lowercase form of `text`, by `str::to_lowercase`: each character in
/// the lowercase that Unicode gives it. The result depends on the text alone.
#[verifier::external_body]
fn to_lowercase(text: &str) -> (lower: String)
    ensures
        lower@ == lowercase_of(text@),
{
    text.to_lowercase()
}

/// The text of an optional string.
pub open spec fn optional_text(text: Option<String>) -> Option<Seq<char>> {
    match text {
        Some(s) => Some(s@),
        None => None,
    }
}

/// A copy of the groups of the store.
pub fn get_links(link_groups: &VecDeque<LinkGroup>) -> (copy: VecDeque<LinkGroup>)
    ensures
        groups_view(copy@) == groups_view(link_groups@),
{
    let mut copy: VecDeque<LinkGroup> = VecDeque::new();
    let mut i: usize = 0;
    while i < link_groups.len()
        invariant
            i <= link_groups.len(),
            copy.len() == i,
            forall|j: int| 0 <= j < i ==> copy@[j]@ == link_groups@[j]@,
        decreases link_groups.len() - i,
    {
        copy.push_back(link_groups[i].clone());
        i += 1;
    }
    copy
}

/// The texts of `texts` that hold `part`, in their order; all of them where
/// no part is asked for.
pub open spec fn texts_with(texts: Seq<Seq<char>>, part: Option<Seq<char>>) -> Seq<Seq<char>>
    decreases texts.len(),
{
    if texts.len() == 0 {
        Seq::empty()
    } else {
        let head = texts_with(texts.drop_last(), part);
        if part is None || contains_text(texts.last(), part->Some_0) {
            head.push(texts.last())
        } else {
            head
        }
    }
}

/// What [`get_tags`] returns of the tag names `texts`.
pub open spec fn listed_tags(
    texts: Seq<Seq<char>>,
    part: Option<Seq<char>>,
    direction: Option<Seq<char>>,
) -> Seq<Seq<char>> {
    let found = texts_with(texts, part);
    if direction == Some("desc"@) {
        found.reverse()
    } else {
        found
    }
}

/// Whether `direction` asks for the descending order.
fn is_descending(direction: &String) -> (r: bool)
    ensures
        r == (direction@ == "desc"@),
{
    let desc = "desc".to_owned();
    *direction == desc
}

/// The reverse of `list`.
fn reversed(list: Vec<String>) -> (r: Vec<String>)
    ensures
        strings_view(r@) == strings_view(list@).reverse(),
{
    let ghost all = strings_view(list@);
    let mut rest = list;
    let mut r: Vec<String> = Vec::new();
    loop
        invariant
            rest.len() + r.len() == all.len(),
            strings_view(rest@) == all.take(rest.len() as int),
            forall|j: int| 0 <= j < r.len() ==> r@[j]@ == all[all.len() - 1 - j],
        ensures
            r.len() == all.len(),
            forall|j: int| 0 <= j < r.len() ==> r@[j]@ == all[all.len() - 1 - j],
        decreases rest.len(),
    {
        let ghost before = rest@;
        let ghost n = rest.len() as int;
        match rest.pop() {
            Some(text) => {
                assert(text@ == all[n - 1]) by {
                    assert(strings_view(before)[n - 1] == all.take(n)[n - 1]);
                }
                r.push(text);
            },
            None => {
                break ;
            },
        }
    }
    r
}

/// The tag names of the store in the order of strings: those that hold
/// `search_text`, where one is given; from the last to the first where
/// `sort_direction` is `desc`.
pub fn get_tags(
    tags: &TextSet,
    search_text: Option<String>,
    sort_direction: Option<String>,
) -> (list: Vec<String>)
    ensures
        strings_view(list@) == listed_tags(
            tags.texts(),
            optional_text(search_text),
            optional_text(sort_direction),
        ),
{
    let all = tags.to_vec();
    let ghost texts = strings_view(all@);
    let found = match &search_text {
        None => {
            proof {
                lemma_texts_with_none(texts);
            }
            all
        },
        Some(part) => {
            let part_chars = chars_of(part.as_str());
            let mut found: Vec<String> = Vec::new();
            let mut i: usize = 0;
            while i < all.len()
                invariant
                    i <= all.len(),
                    texts == strings_view(all@),
                    part_chars@ == part@,
                    strings_view(found@) == texts_with(texts.take(i as int), Some(part@)),
                decreases all.len() - i,
            {
                assert(texts.take(i + 1).drop_last() == texts.take(i as int));
                let tag_chars = chars_of(all[i].as_str());
                if text_contains(&tag_chars, &part_chars) {
                    found.push(all[i].clone());
                }
                i += 1;
            }
            assert(texts.take(i as int) == texts);
            found
        },
    };
    match &sort_direction {
        Some(direction) => {
            if is_descending(direction) {
                reversed(found)
            } else {
                found
            }
        },
        None => found,
    }
}

/// Without a part to look for, every text is listed.
proof fn lemma_texts_with_none(texts: Seq<Seq<char>>)
    ensures
        texts_with(texts, None) == texts,
    decreases texts.len(),
{
    if texts.len() > 0 {
        lemma_texts_with_none(texts.drop_last());
    }
}

/// The tags of the first link with the identity `id`; none where the store
/// holds no such link.
pub open spec fn tags_of_link(groups: Seq<GroupView>, id: usize) -> Seq<Seq<char>> {
    let g = group_of_link(groups, id);
    if g < groups.len() {
        groups[g].links[link_position(groups[g].links, id)].content.tags
    } else {
        Seq::empty()
    }
}

/// The tags of the first link with the identity `id`.
pub fn get_tags_for_link(link_groups: &VecDeque<LinkGroup>, id: usize) -> (tags: Vec<String>)
    ensures
        strings_view(tags@) == tags_of_link(groups_view(link_groups@), id),
{
    match find_link_in_store(link_groups, id) {
        Some((g, l)) => clone_strings(&link_groups[g].links[l].tags),
        None => Vec::new(),
    }
}

/// Whether a link with the lowercase title `lowered_title` answers a search
/// for a text whose lowercase form is `lowered_text`: the text is not blank,
/// and the title holds it, letter case apart.
pub open spec fn title_answers(
    lowered_title: Seq<char>,
    text: Seq<char>,
    lowered_text: Seq<char>,
) -> bool {
    trim(text).len() > 0 && contains_text(lowered_title, lowered_text)
}

/// Whether `link` answers the search for `search`.
pub open spec fn answers_search(link: LinkView, search: Option<Seq<char>>) -> bool {
    match search {
        None => true,
        Some(text) => title_answers(lowercase_of(link.content.title), text, lowercase_of(text)),
    }
}

/// Whether `link` has the tag `tag`, where one is asked for.
pub open spec fn answers_tag(link: LinkView, tag: Option<Seq<char>>) -> bool {
    match tag {
        None => true,
        Some(name) => link.content.tags.contains(name),
    }
}

/// The links of `links` that answer the search and have the tag, in their
/// order.
pub open spec fn found_links(
    links: Seq<LinkView>,
    search: Option<Seq<char>>,
    tag: Option<Seq<char>>,
) -> Seq<LinkView>
    decreases links.len(),
{
    if links.len() == 0 {
        Seq::empty()
    } else {
        let head = found_links(links.drop_last(), search, tag);
        if answers_search(links.last(), search) && answers_tag(links.last(), tag) {
            head.push(links.last())
        } else {
            head
        }
    }
}

/// The links of the store that answer the search and have the tag, group
/// after group.
pub open spec fn found_in_store(
    groups: Seq<GroupView>,
    search: Option<Seq<char>>,
    tag: Option<Seq<char>>,
) -> Seq<LinkView>
    decreases groups.len(),
{
    if groups.len() == 0 {
        Seq::empty()
    } else {
        found_in_store(groups.drop_last(), search, tag) + found_links(
            groups.last().links,
            search,
            tag,
        )
    }
}

/// The text by which a search sorts `link`: its URI where `sort_by` is
/// `uri`, else its title.
pub open spec fn sort_key(link: LinkView, sort_by: Seq<char>) -> Seq<char> {
    if sort_by == "uri"@ {
        link.content.uri
    } else {
        link.content.title
    }
}

/// `links` in the stable order of their sort keys; from the last to the
/// first where `direction` is `desc`.
pub open spec fn sorted_links(
    links: Seq<LinkView>,
    sort_by: Seq<char>,
    direction: Seq<char>,
) -> Seq<LinkView> {
    let order = order_of(links.map_values(|l: LinkView| sort_key(l, sort_by)));
    let sorted = order.map_values(|at: int| links[at]);
    if direction == "desc"@ {
        sorted.reverse()
    } else {
        sorted
    }
}

/// What a search of the store returns.
pub open spec fn search_result(
    groups: Seq<GroupView>,
    search: Option<Seq<char>>,
    sort_by: Seq<char>,
    direction: Seq<char>,
    tag: Option<Seq<char>>,
) -> Seq<LinkView> {
    sorted_links(found_in_store(groups, search, tag), sort_by, direction)
}

/// Whether a title answers a search, both given in lowercase, and the
/// search text also as it was typed.
pub fn title_matches(lowered_title: &str, text: &str, lowered_text: &str) -> (r: bool)
    ensures
        r == title_answers(lowered_title@, text@, lowered_text@),
{
    let typed = chars_of(text);
    let (from, to) = trim_bounds(&typed, 0, typed.len());
    assert(typed@.subrange(0, typed.len() as int) == typed@);
    if from == to {
        return false;
    }
    let title = chars_of(lowered_title);
    let part = chars_of(lowered_text);
    text_contains(&title, &part)
}

/// Whether `tags` holds `name`.
pub fn has_tag(tags: &Vec<String>, name: &String) -> (r: bool)
    ensures
        r == strings_view(tags@).contains(name@),
{
    let ghost texts = strings_view(tags@);
    let mut i: usize = 0;
    while i < tags.len()
        invariant
            i <= tags.len(),
            texts == strings_view(tags@),
            forall|j: int| 0 <= j < i ==> texts[j] != name@,
        decreases tags.len() - i,
    {
        if tags[i] == *name {
            assert(texts[i as int] == name@);
            return true;
        }
        i += 1;
    }
    false
}

/// Whether `link` answers the search and has the tag.
fn link_answers(
    link: &Link,
    search_text: &Option<String>,
    lowered_text: &Option<String>,
    tag: &Option<String>,
) -> (r: bool)
    requires
        search_text is Some <==> lowered_text is Some,
        search_text matches Some(text) ==> lowered_text->Some_0@ == lowercase_of(text@),
    ensures
        r == (answers_search(link@, optional_text(*search_text)) && answers_tag(
            link@,
            optional_text(*tag),
        )),
{
    let in_search = match search_text {
        None => true,
        Some(text) => match lowered_text {
            Some(lowered) => {
                let title = to_lowercase(link.title.as_str());
                title_matches(title.as_str(), text.as_str(), lowered.as_str())
            },
            None => false,
        },
    };
    if !in_search {
        return false;
    }
    match tag {
        None => true,
        Some(name) => has_tag(&link.tags, name),
    }
}

/// The links of the store that answer a search, sorted.
///
/// A link answers where its title holds `search_text`, letter case apart
/// (no link answers a blank text), and where it has the tag `tag`; what is
/// not given is not asked for. The links are sorted by URI where `sort_by`
/// is `uri`, else by title, in the order of strings; links with the same key
/// keep the order of the store. Where `sort_direction` is `desc`, the sorted
/// list is returned from its last link to its first.
pub fn search(
    link_groups: &VecDeque<LinkGroup>,
    search_text: Option<String>,
    sort_by: String,
    sort_direction: String,
    tag: Option<String>,
) -> (links: Vec<Link>)
    ensures
        links_view(links@) == search_result(
            groups_view(link_groups@),
            optional_text(search_text),
            sort_by@,
            sort_direction@,
            optional_text(tag),
        ),
{
    let ghost groups = groups_view(link_groups@);
    let ghost wanted = optional_text(search_text);
    let ghost tagged = optional_text(tag);
    let lowered_text = match &search_text {
        Some(text) => Some(to_lowercase(text.as_str())),
        None => None,
    };
    let by_uri = sort_by == "uri".to_owned();
    let mut found: Vec<Link> = Vec::new();
    let mut keys: Vec<String> = Vec::new();
    let mut g: usize = 0;
    while g < link_groups.len()
        invariant
            g <= link_groups.len(),
            groups == groups_view(link_groups@),
            wanted == optional_text(search_text),
            tagged == optional_text(tag),
            search_text is Some <==> lowered_text is Some,
            search_text matches Some(text) ==> lowered_text->Some_0@ == lowercase_of(text@),
            by_uri == (sort_by@ == "uri"@),
            links_view(found@) == found_in_store(groups.take(g as int), wanted, tagged),
            keys.len() == found.len(),
            forall|j: int| 0 <= j < keys.len() ==> keys@[j]@ == sort_key(found@[j]@, sort_by@),
        decreases link_groups.len() - g,
    {
        let group = &link_groups[g];
        let ghost links = groups[g as int].links;
        let ghost head = links_view(found@);
        let mut l: usize = 0;
        while l < group.links.len()
            invariant
                l <= group.links.len(),
                links == links_view(group.links@),
                wanted == optional_text(search_text),
                tagged == optional_text(tag),
                search_text is Some <==> lowered_text is Some,
                search_text matches Some(text) ==> lowered_text->Some_0@ == lowercase_of(text@),
                by_uri == (sort_by@ == "uri"@),
                links_view(found@) == head + found_links(links.take(l as int), wanted, tagged),
                keys.len() == found.len(),
                forall|j: int|
                    0 <= j < keys.len() ==> keys@[j]@ == sort_key(found@[j]@, sort_by@),
            decreases group.links.len() - l,
        {
            let link = &group.links[l];
            let ghost so_far = found@;
            assert(links.take(l + 1).drop_last() == links.take(l as int));
            if link_answers(link, &search_text, &lowered_text, &tag) {
                let key = if by_uri {
                    link.uri.clone()
                } else {
                    link.title.clone()
                };
                keys.push(key);
                found.push(link.clone());
                assert(links_view(found@) =~= links_view(so_far).push(links[l as int]));
            }
            l += 1;
        }
        proof {
            assert(links.take(l as int) == links);
            assert(groups.take(g + 1).drop_last() == groups.take(g as int));
        }
        g += 1;
    }
    assert(groups.take(g as int) == groups);
    let ghost all = links_view(found@);
    assert(strings_view(keys@) =~= all.map_values(|l: LinkView| sort_key(l, sort_by@)));
    let order = stable_order(&keys);
    let ghost sorted = order_of(strings_view(keys@)).map_values(|at: int| all[at]);
    let descending = is_descending(&sort_direction);
    let mut links: Vec<Link> = Vec::new();
    let mut i: usize = 0;
    while i < order.len()
        invariant
            i <= order.len(),
            order@.len() == found@.len(),
            all == links_view(found@),
            positions(order@) == order_of(strings_view(keys@)),
            forall|j: int| 0 <= j < order@.len() ==> #[trigger] order@[j] < found@.len(),
            sorted == order_of(strings_view(keys@)).map_values(|at: int| all[at]),
            links.len() == i,
            forall|j: int|
                0 <= j < i ==> links@[j]@ == if descending {
                    sorted[sorted.len() - 1 - j]
                } else {
                    sorted[j]
                },
        decreases order.len() - i,
    {
        let at: usize = if descending {
            order[order.len() - 1 - i]
        } else {
            order[i]
        };
        links.push(found[at].clone());
        i += 1;
    }
    links
}

} // verus!
