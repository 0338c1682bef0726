//! Links, groups of links, and their identity-free storable forms.

use crate::ids::{id_after, lemma_id_after_sum, IdAllocator};
use std::collections::VecDeque;
use vstd::prelude::*;

verus! {

/// What a link says: the view of a [`StorableLink`].
pub struct LinkContent {
    pub uri: Seq<char>,
    pub title: Seq<char>,
    pub tags: Seq<Seq<char>>,
}

/// The view of a [`Link`]: its identity and what it says.
pub struct LinkView {
    pub id: usize,
    pub content: LinkContent,
}

/// The view of a [`LinkGroup`].
pub struct GroupView {
    pub id: usize,
    pub links: Seq<LinkView>,
}

/// The view of a [`SaveData`].
pub struct SaveDataView {
    pub tags: Seq<Seq<char>>,
    pub link_groups: Seq<Seq<LinkContent>>,
}

/// The texts of `strings`, in order.
pub open spec fn strings_view(strings: Seq<String>) -> Seq<Seq<char>> {
    strings.map_values(|s: String| s@)
}

/// The views of `links`, in order.
pub open spec fn links_view(links: Seq<Link>) -> Seq<LinkView> {
    links.map_values(|l: Link| l@)
}

/// The views of `groups`, in order.
pub open spec fn groups_view(groups: Seq<LinkGroup>) -> Seq<GroupView> {
    groups.map_values(|g: LinkGroup| g@)
}

/// The views of `links`, in order.
pub open spec fn storable_links_view(links: Seq<StorableLink>) -> Seq<LinkContent> {
    links.map_values(|l: StorableLink| l@)
}

/// The views of `groups`, in order.
pub open spec fn storable_groups_view(groups: Seq<StorableLinkGroup>) -> Seq<Seq<LinkContent>> {
    groups.map_values(|g: StorableLinkGroup| g@)
}

/// What the links say, without their identities.
pub open spec fn links_content(links: Seq<LinkView>) -> Seq<LinkContent> {
    links.map_values(|l: LinkView| l.content)
}

/// What the groups say, without their identities.
pub open spec fn groups_content(groups: Seq<GroupView>) -> Seq<Seq<LinkContent>> {
    groups.map_values(|g: GroupView| links_content(g.links))
}

/// A link: an identity, a URI, a title and the names of its tags.
#[derive(Debug, PartialEq, Eq, PartialOrd, Ord)]
pub struct Link {
    pub id: usize,
    pub uri: String,
    pub title: String,
    pub tags: Vec<String>,
}

/// A link as it is persisted: without identity.
#[derive(Debug, PartialEq, Eq, PartialOrd, Ord)]
pub struct StorableLink {
    pub uri: String,
    pub title: String,
    pub tags: Vec<String>,
}

/// A group: an identity and its links, the most recent at the front.
#[derive(Debug, PartialEq, Eq, PartialOrd, Ord)]
pub struct LinkGroup {
    pub id: usize,
    pub links: VecDeque<Link>,
}

/// A group as it is persisted: without identities.
#[derive(Debug, PartialEq, Eq, PartialOrd, Ord)]
pub struct StorableLinkGroup {
    pub links: VecDeque<StorableLink>,
}

/// The whole persisted snapshot: the tag names and the groups.
#[derive(Debug)]
pub struct SaveData {
    pub tags: Vec<String>,
    pub link_groups: Vec<StorableLinkGroup>,
}

impl View for StorableLink {
    type V = LinkContent;

    open spec fn view(&self) -> LinkContent {
        LinkContent { uri: self.uri@, title: self.title@, tags: strings_view(self.tags@) }
    }
}

impl View for Link {
    type V = LinkView;

    open spec fn view(&self) -> LinkView {
        LinkView {
            id: self.id,
            content: LinkContent {
                uri: self.uri@,
                title: self.title@,
                tags: strings_view(self.tags@),
            },
        }
    }
}

impl View for LinkGroup {
    type V = GroupView;

    open spec fn view(&self) -> GroupView {
        GroupView { id: self.id, links: links_view(self.links@) }
    }
}

impl View for StorableLinkGroup {
    type V = Seq<LinkContent>;

    open spec fn view(&self) -> Seq<LinkContent> {
        storable_links_view(self.links@)
    }
}

impl View for SaveData {
    type V = SaveDataView;

    open spec fn view(&self) -> SaveDataView {
        SaveDataView {
            tags: strings_view(self.tags@),
            link_groups: storable_groups_view(self.link_groups@),
        }
    }
}

/// A copy of `strings` with the same texts.
pub fn clone_strings(strings: &Vec<String>) -> (copy: Vec<String>)
    ensures
        strings_view(copy@) == strings_view(strings@),
{
    let mut copy: Vec<String> = Vec::new();
    let mut i: usize = 0;
    while i < strings.len()
        invariant
            i <= strings.len(),
            copy.len() == i,
            forall|j: int| 0 <= j < i ==> copy@[j]@ == strings@[j]@,
        decreases strings.len() - i,
    {
        copy.push(strings[i].clone());
        i += 1;
    }
    copy
}

impl Clone for StorableLink {
    fn clone(&self) -> (copy: Self)
        ensures
            copy@ == self@,
    {
        StorableLink {
            uri: self.uri.clone(),
            title: self.title.clone(),
            tags: clone_strings(&self.tags),
        }
    }
}

impl Clone for Link {
    fn clone(&self) -> (copy: Self)
        ensures
            copy@ == self@,
    {
        Link {
            id: self.id,
            uri: self.uri.clone(),
            title: self.title.clone(),
            tags: clone_strings(&self.tags),
        }
    }
}

impl Clone for LinkGroup {
    fn clone(&self) -> (copy: Self)
        ensures
            copy@ == self@,
    {
        let mut links: VecDeque<Link> = VecDeque::new();
        let mut i: usize = 0;
        while i < self.links.len()
            invariant
                i <= self.links.len(),
                links.len() == i,
                forall|j: int| 0 <= j < i ==> links@[j]@ == self.links@[j]@,
            decreases self.links.len() - i,
        {
            links.push_back(self.links[i].clone());
            i += 1;
        }
        assert(links_view(links@) =~= links_view(self.links@));
        LinkGroup { id: self.id, links }
    }
}

impl Clone for StorableLinkGroup {
    fn clone(&self) -> (copy: Self)
        ensures
            copy@ == self@,
    {
        let mut links: VecDeque<StorableLink> = VecDeque::new();
        let mut i: usize = 0;
        while i < self.links.len()
            invariant
                i <= self.links.len(),
                links.len() == i,
                forall|j: int| 0 <= j < i ==> links@[j]@ == self.links@[j]@,
            decreases self.links.len() - i,
        {
            links.push_back(self.links[i].clone());
            i += 1;
        }
        StorableLinkGroup { links }
    }
}

/// The link that says `content` under the identity `id`.
pub open spec fn link_with_id(content: LinkContent, id: usize) -> LinkView {
    LinkView { id, content }
}

/// The group made from a storable group when the allocator stands at `start`:
/// the group takes the first identity and its links the following ones, in
/// order.
pub open spec fn group_from_storable(content: Seq<LinkContent>, start: usize) -> GroupView {
    GroupView {
        id: start,
        links: Seq::new(
            content.len(),
            |i: int| link_with_id(content[i], id_after(start, (1 + i) as nat)),
        ),
    }
}

impl Link {
    /// A link with a new identity.
    pub fn new(uri: String, title: String, tags: Vec<String>, ids: &mut IdAllocator) -> (link: Link)
        ensures
            link.id == old(ids).next_id(),
            link.uri == uri,
            link.title == title,
            link.tags == tags,
            final(ids).next_id() == id_after(old(ids).next_id(), 1),
    {
        Link { id: ids.get_new_id(), uri, title, tags }
    }

    /// The link that says what `value` says, under a new identity.
    pub fn from_storable(value: StorableLink, ids: &mut IdAllocator) -> (link: Link)
        ensures
            link@ == link_with_id(value@, old(ids).next_id()),
            final(ids).next_id() == id_after(old(ids).next_id(), 1),
    {
        Link { id: ids.get_new_id(), uri: value.uri, title: value.title, tags: value.tags }
    }
}

impl StorableLink {
    /// What `value` says, without its identity.
    pub fn from_link(value: Link) -> (link: StorableLink)
        ensures
            link@ == value@.content,
    {
        StorableLink { uri: value.uri, title: value.title, tags: value.tags }
    }
}

impl LinkGroup {
    /// A group of `links` with a new identity.
    pub fn new(links: VecDeque<Link>, ids: &mut IdAllocator) -> (group: LinkGroup)
        ensures
            group.id == old(ids).next_id(),
            group.links == links,
            final(ids).next_id() == id_after(old(ids).next_id(), 1),
    {
        LinkGroup { id: ids.get_new_id(), links }
    }

    /// The group that says what `value` says: the group first, then each of
    /// its links in order, takes a new identity.
    pub fn from_storable(value: StorableLinkGroup, ids: &mut IdAllocator) -> (group: LinkGroup)
        ensures
            group@ == group_from_storable(value@, old(ids).next_id()),
            final(ids).next_id() == id_after(old(ids).next_id(), (1 + value@.len()) as nat),
    {
        let ghost start = ids.next_id();
        let ghost content = value@;
        let id = ids.get_new_id();
        let mut rest = value.links;
        let mut links: VecDeque<Link> = VecDeque::new();
        loop
            invariant
                links.len() + rest.len() == content.len(),
                storable_links_view(rest@) == content.skip(links.len() as int),
                ids.next_id() == id_after(start, (1 + links.len()) as nat),
                forall|j: int|
                    0 <= j < links.len() ==> links@[j]@ == link_with_id(
                        content[j],
                        id_after(start, (1 + j) as nat),
                    ),
            ensures
                links.len() == content.len(),
                ids.next_id() == id_after(start, (1 + links.len()) as nat),
                forall|j: int|
                    0 <= j < links.len() ==> links@[j]@ == link_with_id(
                        content[j],
                        id_after(start, (1 + j) as nat),
                    ),
            decreases rest.len(),
        {
            let ghost before = rest@;
            let ghost n = links.len() as int;
            match rest.pop_front() {
                Some(link) => {
                    assert(link@ == content[n]) by {
                        assert(storable_links_view(before)[0] == content.skip(n)[0]);
                    }
                    assert(storable_links_view(rest@) =~= content.skip(n + 1)) by {
                        assert forall|j: int| 0 <= j < rest@.len() implies storable_links_view(
                            rest@,
                        )[j] == content.skip(n + 1)[j] by {
                            assert(storable_links_view(before)[j + 1] == content.skip(n)[j + 1]);
                        }
                    }
                    proof {
                        lemma_id_after_sum(start, (1 + n) as nat, 1);
                    }
                    links.push_back(Link::from_storable(link, ids));
                },
                None => {
                    break ;
                },
            }
        }
        assert(links_view(links@) =~= group_from_storable(content, start).links);
        LinkGroup { id, links }
    }
}

impl StorableLinkGroup {
    /// What `value` says, without its identities.
    pub fn from_group(value: LinkGroup) -> (group: StorableLinkGroup)
        ensures
            group@ == links_content(value@.links),
    {
        let ghost content = links_content(value@.links);
        let mut rest = value.links;
        let mut links: VecDeque<StorableLink> = VecDeque::new();
        loop
            invariant
                links.len() + rest.len() == content.len(),
                links_content(links_view(rest@)) == content.skip(links.len() as int),
                forall|j: int| 0 <= j < links.len() ==> links@[j]@ == content[j],
            ensures
                links.len() == content.len(),
                forall|j: int| 0 <= j < links.len() ==> links@[j]@ == content[j],
            decreases rest.len(),
        {
            let ghost before = rest@;
            let ghost n = links.len() as int;
            match rest.pop_front() {
                Some(link) => {
                    assert(link@.content == content[n]) by {
                        assert(links_content(links_view(before))[0] == content.skip(n)[0]);
                    }
                    assert(links_content(links_view(rest@)) =~= content.skip(n + 1)) by {
                        assert forall|j: int| 0 <= j < rest@.len() implies links_content(
                            links_view(rest@),
                        )[j] == content.skip(n + 1)[j] by {
                            assert(links_content(links_view(before))[j + 1] == content.skip(n)[j
                                + 1]);
                        }
                    }
                    links.push_back(StorableLink::from_link(link));
                },
                None => {
                    break ;
                },
            }
        }
        StorableLinkGroup { links }
    }
}

} // verus!
