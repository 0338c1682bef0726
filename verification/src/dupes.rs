//! Finding the URIs that several groups share.

use crate::model::{groups_view, links_view, strings_view, GroupView, Link, LinkGroup};
use crate::store::{find_uri, lemma_first_index};
use crate::text_set::{strictly_increasing, text_less};
use crate::uris::{collect_uris, lemma_uri_set_contains, link_uris, uri_set};
use std::collections::VecDeque;
use vstd::prelude::*;
use vstd::std_specs::cmp::PartialEqSpecImpl;

verus! {

/// The first URI that several groups share, the groups that share it, and
/// the number of URIs that are shared.
#[derive(Debug)]
pub struct ResolveDupeItem {
    pub dupes_left: usize,
    pub key: String,
    pub groups: Vec<LinkGroup>,
}

/// The view of a [`ResolveDupeItem`].
pub struct ResolveDupeView {
    pub dupes_left: int,
    pub key: Seq<char>,
    pub groups: Seq<GroupView>,
}

impl View for ResolveDupeItem {
    type V = ResolveDupeView;

    open spec fn view(&self) -> ResolveDupeView {
        ResolveDupeView {
            dupes_left: self.dupes_left as int,
            key: self.key@,
            groups: groups_view(self.groups@),
        }
    }
}

impl Default for ResolveDupeItem {
    /// The item for a store in which no URI is shared.
    fn default() -> (item: ResolveDupeItem)
        ensures
            item@ == (ResolveDupeView { dupes_left: 0, key: Seq::empty(), groups: Seq::empty() }),
    {
        let item = ResolveDupeItem { dupes_left: 0, key: String::new(), groups: Vec::new() };
        assert(groups_view(item.groups@) =~= Seq::empty());
        item
    }
}

impl PartialEq for ResolveDupeItem {
    /// Two items are the same where they name the same URI.
    fn eq(&self, other: &Self) -> (r: bool) {
        self.key == other.key
    }
}

impl PartialEqSpecImpl for ResolveDupeItem {
    open spec fn obeys_eq_spec() -> bool {
        true
    }

    open spec fn eq_spec(&self, other: &Self) -> bool {
        self.key@ == other.key@
    }
}

/// The different groups of `groups` that hold a link with the URI `uri`,
/// each once, in their order.
pub open spec fn groups_with_uri(groups: Seq<GroupView>, uri: Seq<char>) -> Seq<GroupView>
    decreases groups.len(),
{
    if groups.len() == 0 {
        Seq::empty()
    } else {
        let head = groups_with_uri(groups.drop_last(), uri);
        if link_uris(groups.last().links).contains(uri) && !head.contains(groups.last()) {
            head.push(groups.last())
        } else {
            head
        }
    }
}

/// Whether two different groups or more hold a link with the URI `uri`.
pub open spec fn is_shared(groups: Seq<GroupView>, uri: Seq<char>) -> bool {
    groups_with_uri(groups, uri).len() > 1
}

/// The URIs of `uris` that are shared, in their order.
pub open spec fn shared_among(uris: Seq<Seq<char>>, groups: Seq<GroupView>) -> Seq<Seq<char>>
    decreases uris.len(),
{
    if uris.len() == 0 {
        Seq::empty()
    } else {
        let head = shared_among(uris.drop_last(), groups);
        if is_shared(groups, uris.last()) {
            head.push(uris.last())
        } else {
            head
        }
    }
}

/// Whether `shared` lists the shared URIs of `groups`, each once, in the
/// order of strings.
pub open spec fn lists_shared_uris(shared: Seq<Seq<char>>, groups: Seq<GroupView>) -> bool {
    &&& strictly_increasing(shared)
    &&& forall|uri: Seq<char>| shared.contains(uri) <==> is_shared(groups, uri)
}

/// Whether `item` names the first shared URI of `groups` in the order of
/// strings, with the groups that share it and the number of shared URIs; or,
/// where no URI is shared, nothing.
pub open spec fn resolves(item: ResolveDupeView, groups: Seq<GroupView>) -> bool {
    exists|shared: Seq<Seq<char>>|
        {
            &&& #[trigger] lists_shared_uris(shared, groups)
            &&& item.dupes_left == shared.len()
            &&& if shared.len() == 0 {
                item.key == Seq::<char>::empty() && item.groups == Seq::<GroupView>::empty()
            } else {
                item.key == shared[0] && item.groups == groups_with_uri(groups, shared[0])
            }
        }
}

/// A URI that some group holds is a URI of the store.
pub proof fn lemma_shared_uri_is_known(groups: Seq<GroupView>, uri: Seq<char>)
    requires
        groups_with_uri(groups, uri).len() > 0,
    ensures
        uri_set(groups).contains(uri),
    decreases groups.len(),
{
    let head = groups.drop_last();
    lemma_uri_set_contains(groups, uri);
    if !link_uris(groups.last().links).contains(uri) {
        lemma_shared_uri_is_known(head, uri);
        lemma_uri_set_contains(head, uri);
        let (g, l) = choose|g: int, l: int|
            0 <= g < head.len() && 0 <= l < head[g].links.len()
                && #[trigger] head[g].links[l].content.uri == uri;
        assert(groups[g].links[l].content.uri == uri);
    }
}

/// The shared URIs of a list are those of the list that are shared, and
/// they stand in the order of the list.
pub proof fn lemma_shared_among(uris: Seq<Seq<char>>, groups: Seq<GroupView>)
    requires
        strictly_increasing(uris),
    ensures
        strictly_increasing(shared_among(uris, groups)),
        forall|uri: Seq<char>|
            shared_among(uris, groups).contains(uri) <==> uris.contains(uri) && is_shared(
                groups,
                uri,
            ),
        forall|i: int|
            0 <= i < shared_among(uris, groups).len() ==> uris.contains(
                #[trigger] shared_among(uris, groups)[i],
            ),
    decreases uris.len(),
{
    if uris.len() > 0 {
        let head = uris.drop_last();
        let shared_head = shared_among(head, groups);
        let shared = shared_among(uris, groups);
        lemma_shared_among(head, groups);
        assert forall|uri: Seq<char>|
            shared.contains(uri) <==> uris.contains(uri) && is_shared(groups, uri) by {
            if uris.contains(uri) && is_shared(groups, uri) {
                let k = choose|k: int| 0 <= k < uris.len() && uris[k] == uri;
                if k < head.len() {
                    assert(head[k] == uri);
                    let i = choose|i: int| 0 <= i < shared_head.len() && shared_head[i] == uri;
                    assert(shared[i] == uri);
                } else {
                    assert(shared[shared.len() - 1] == uri);
                }
            }
        }
    }
}

/// Whether two string lists hold the same texts.
fn same_strings(a: &Vec<String>, b: &Vec<String>) -> (r: bool)
    ensures
        r == (strings_view(a@) == strings_view(b@)),
{
    if a.len() != b.len() {
        return false;
    }
    let mut i: usize = 0;
    while i < a.len()
        invariant
            i <= a.len(),
            a.len() == b.len(),
            forall|j: int| 0 <= j < i ==> a@[j]@ == b@[j]@,
        decreases a.len() - i,
    {
        if a[i] != b[i] {
            assert(strings_view(a@)[i as int] != strings_view(b@)[i as int]);
            return false;
        }
        i += 1;
    }
    assert(strings_view(a@) =~= strings_view(b@));
    true
}

/// Whether two links have the same identity and say the same.
pub fn same_link(a: &Link, b: &Link) -> (r: bool)
    ensures
        r == (a@ == b@),
{
    a.id == b.id && a.uri == b.uri && a.title == b.title && same_strings(&a.tags, &b.tags)
}

/// Whether two groups have the same identity and the same links.
pub fn same_group(a: &LinkGroup, b: &LinkGroup) -> (r: bool)
    ensures
        r == (a@ == b@),
{
    if a.id != b.id {
        return false;
    }
    if a.links.len() != b.links.len() {
        assert(links_view(a.links@).len() != links_view(b.links@).len());
        return false;
    }
    let mut i: usize = 0;
    while i < a.links.len()
        invariant
            i <= a.links.len(),
            a.links.len() == b.links.len(),
            forall|j: int| 0 <= j < i ==> a.links@[j]@ == b.links@[j]@,
        decreases a.links.len() - i,
    {
        if !same_link(&a.links[i], &b.links[i]) {
            assert(links_view(a.links@)[i as int] != links_view(b.links@)[i as int]);
            return false;
        }
        i += 1;
    }
    assert(links_view(a.links@) =~= links_view(b.links@));
    true
}

/// Copies of the different groups of the store that hold a link with the
/// URI `uri`, each once, in their order.
pub fn holders_of(link_groups: &VecDeque<LinkGroup>, uri: &String) -> (holders: Vec<LinkGroup>)
    ensures
        groups_view(holders@) == groups_with_uri(groups_view(link_groups@), uri@),
{
    let ghost groups = groups_view(link_groups@);
    let mut holders: Vec<LinkGroup> = Vec::new();
    let mut g: usize = 0;
    while g < link_groups.len()
        invariant
            g <= link_groups.len(),
            groups == groups_view(link_groups@),
            groups_view(holders@) == groups_with_uri(groups.take(g as int), uri@),
        decreases link_groups.len() - g,
    {
        let group = &link_groups[g];
        let ghost so_far = holders@;
        assert(groups.take(g + 1).drop_last() == groups.take(g as int));
        let holds = match find_uri(&group.links, uri) {
            Some(at) => {
                proof {
                    lemma_first_index(link_uris(groups[g as int].links), uri@);
                }
                true
            },
            None => false,
        };
        if holds {
            let mut listed = false;
            let mut k: usize = 0;
            while k < holders.len()
                invariant
                    k <= holders.len(),
                    holders@ == so_far,
                    *group == link_groups@[g as int],
                    !listed ==> forall|j: int|
                        0 <= j < k ==> groups_view(holders@)[j] != group@,
                    listed ==> groups_view(holders@).contains(group@),
                decreases holders.len() - k,
            {
                if same_group(&holders[k], group) {
                    assert(groups_view(holders@)[k as int] == group@);
                    listed = true;
                }
                k += 1;
            }
            if !listed {
                holders.push(group.clone());
            }
        }
        g += 1;
    }
    assert(groups.take(g as int) == groups);
    holders
}

/// The first URI, in the order of strings, that several groups of the store
/// share, with copies of these groups and the number of shared URIs. A store
/// without a shared URI gives the default item.
pub fn resolve_dupes(link_groups: &VecDeque<LinkGroup>) -> (item: ResolveDupeItem)
    ensures
        resolves(item@, groups_view(link_groups@)),
{
    let ghost groups = groups_view(link_groups@);
    let known = collect_uris(link_groups);
    let uris = known.to_vec();
    let ghost listed = strings_view(uris@);
    let mut item = ResolveDupeItem::default();
    let mut i: usize = 0;
    while i < uris.len()
        invariant
            i <= uris.len(),
            groups == groups_view(link_groups@),
            listed == strings_view(uris@),
            item.dupes_left == shared_among(listed.take(i as int), groups).len(),
            item.dupes_left <= i,
            item.dupes_left == 0 ==> item@.key == Seq::<char>::empty() && item@.groups == Seq::<
                GroupView,
            >::empty(),
            item.dupes_left > 0 ==> item@.key == shared_among(listed.take(i as int), groups)[0]
                && item@.groups == groups_with_uri(groups, item@.key),
        decreases uris.len() - i,
    {
        assert(listed.take(i + 1).drop_last() == listed.take(i as int));
        let holders = holders_of(link_groups, &uris[i]);
        if holders.len() > 1 {
            if item.dupes_left == 0 {
                item = ResolveDupeItem { dupes_left: 1, key: uris[i].clone(), groups: holders };
            } else {
                item.dupes_left = item.dupes_left + 1;
            }
        }
        i += 1;
    }
    proof {
        assert(listed.take(i as int) == listed);
        let shared = shared_among(listed, groups);
        lemma_shared_among(listed, groups);
        assert forall|uri: Seq<char>| shared.contains(uri) <==> is_shared(groups, uri) by {
            if is_shared(groups, uri) {
                lemma_shared_uri_is_known(groups, uri);
            }
        }
        assert(lists_shared_uris(shared, groups));
    }
    item
}

} // verus!
