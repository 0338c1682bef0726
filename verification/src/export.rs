//! Exporting a store: as a snapshot of tags and groups, and as a OneTab text.

use crate::fresh::{lemma_numbered_content, numbered_groups, Numbering};
use crate::merge::{merged, ImportConfig, ImportStrategy, InsertPosition};
use crate::model::{
    groups_content, groups_view, links_view, storable_groups_view, GroupView, LinkContent,
    LinkGroup, LinkView, SaveData, SaveDataView, StorableLinkGroup,
};
use crate::text_set::TextSet;
use std::collections::VecDeque;
use vstd::prelude::*;
use vstd::string::*;

verus! {

/// The snapshot of a store: its tag names in the order of strings, and what
/// its groups say, in their order.
pub open spec fn snapshot_of(tags: Seq<Seq<char>>, groups: Seq<GroupView>) -> SaveDataView {
    SaveDataView { tags, link_groups: groups_content(groups) }
}

/// The line of a link in a OneTab text.
pub open spec fn one_tab_line(link: LinkContent) -> Seq<char> {
    link.uri + " | "@ + link.title + "\n"@
}

/// The lines of `links`, one after the other.
pub open spec fn one_tab_lines(links: Seq<LinkView>) -> Seq<char>
    decreases links.len(),
{
    if links.len() == 0 {
        Seq::empty()
    } else {
        one_tab_lines(links.drop_last()) + one_tab_line(links.last().content)
    }
}

/// The OneTab text of `groups`: the lines of each group, from the first
/// group to the last, and an empty line behind each group.
pub open spec fn one_tab_text(groups: Seq<GroupView>) -> Seq<char>
    decreases groups.len(),
{
    if groups.len() == 0 {
        Seq::empty()
    } else {
        one_tab_text(groups.drop_last()) + one_tab_lines(groups.last().links) + "\n"@
    }
}

/// The snapshot of the store, to be written as JSON.
pub fn save_data(link_groups: &VecDeque<LinkGroup>, tags: &TextSet) -> (data: SaveData)
    ensures
        data@ == snapshot_of(tags.texts(), groups_view(link_groups@)),
{
    let ghost content = groups_content(groups_view(link_groups@));
    let mut groups: Vec<StorableLinkGroup> = Vec::new();
    let mut i: usize = 0;
    while i < link_groups.len()
        invariant
            i <= link_groups.len(),
            content == groups_content(groups_view(link_groups@)),
            groups.len() == i,
            forall|j: int| 0 <= j < i ==> groups@[j]@ == content[j],
        decreases link_groups.len() - i,
    {
        let group = StorableLinkGroup::from_group(link_groups[i].clone());
        groups.push(group);
        i += 1;
    }
    assert(storable_groups_view(groups@) =~= content);
    SaveData { tags: tags.to_vec(), link_groups: groups }
}

/// The OneTab text of the store, in its order from front to back.
pub fn export_for_onetab(link_groups: &VecDeque<LinkGroup>) -> (text: String)
    ensures
        text@ == one_tab_text(groups_view(link_groups@)),
{
    let ghost groups = groups_view(link_groups@);
    let mut text = String::new();
    let mut g: usize = 0;
    while g < link_groups.len()
        invariant
            g <= link_groups.len(),
            groups == groups_view(link_groups@),
            text@ == one_tab_text(groups.take(g as int)),
        decreases link_groups.len() - g,
    {
        let group = &link_groups[g];
        let ghost links = groups[g as int].links;
        let ghost head = text@;
        let mut l: usize = 0;
        while l < group.links.len()
            invariant
                l <= group.links.len(),
                links == links_view(group.links@),
                text@ == head + one_tab_lines(links.take(l as int)),
            decreases group.links.len() - l,
        {
            let link = &group.links[l];
            text.append(link.uri.as_str());
            text.append(" | ");
            text.append(link.title.as_str());
            text.append("\n");
            proof {
                assert(links.take(l + 1).drop_last() == links.take(l as int));
            }
            l += 1;
        }
        text.append("\n");
        proof {
            assert(links.take(l as int) == links);
            assert(groups.take(g + 1).drop_last() == groups.take(g as int));
        }
        g += 1;
    }
    assert(groups.take(g as int) == groups);
    text
}

/// Round trip through a snapshot: the groups of the snapshot of a store,
/// imported under `KeepAll`, say what the groups of that store say, in the
/// same order, whatever identities they take; they stand before or behind
/// the groups that the importing store held. Into an empty store, the import
/// gives back what the exported store said.
pub proof fn lemma_snapshot_round_trip(
    exported: Seq<GroupView>,
    tags: Seq<Seq<char>>,
    store: Seq<GroupView>,
    position: InsertPosition,
    start: usize,
)
    ensures
        ({
            let data = snapshot_of(tags, exported);
            let config = ImportConfig { strategy: ImportStrategy::KeepAll, position };
            let incoming = numbered_groups(data.link_groups, start, Numbering::GroupFirst);
            let after = merged(store, incoming, config);
            &&& groups_content(incoming) == groups_content(exported)
            &&& position is Before ==> groups_content(after) == groups_content(exported)
                + groups_content(store)
            &&& position is After ==> groups_content(after) == groups_content(store)
                + groups_content(exported)
            &&& store.len() == 0 ==> groups_content(after) == groups_content(exported)
            &&& Set::<Seq<char>>::empty().union(data.tags.to_set()) == tags.to_set()
        }),
{
    let data = snapshot_of(tags, exported);
    lemma_numbered_content(data.link_groups, start, Numbering::GroupFirst);
}

} // verus!
