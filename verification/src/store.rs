//! Changing a store: adding, removing and moving groups and links, and
//! toggling the tags of a link.

use crate::ids::{id_after, IdAllocator};
use crate::model::{
    groups_view, links_view, strings_view, GroupView, Link, LinkContent, LinkGroup, LinkView,
};
use crate::text::{decimal, decimal_string};
use crate::text_set::TextSet;
use crate::uris::link_uris;
use std::collections::VecDeque;
use vstd::prelude::*;
use vstd::string::*;

verus! {

/// The first position of `x` in `s`, or the length of `s` where it holds none.
pub open spec fn first_index<A>(s: Seq<A>, x: A) -> int
    decreases s.len(),
{
    if s.len() == 0 {
        0
    } else if s[0] == x {
        0
    } else {
        1 + first_index(s.skip(1), x)
    }
}

/// `first_index` is the least position that holds `x`.
pub proof fn lemma_first_index<A>(s: Seq<A>, x: A)
    ensures
        0 <= first_index(s, x) <= s.len(),
        first_index(s, x) < s.len() ==> s[first_index(s, x)] == x,
        forall|i: int| 0 <= i < first_index(s, x) ==> s[i] != x,
    decreases s.len(),
{
    if s.len() > 0 && s[0] != x {
        let t = s.skip(1);
        lemma_first_index(t, x);
        assert forall|i: int| 0 <= i < first_index(s, x) implies s[i] != x by {
            if i > 0 {
                assert(s[i] == t[i - 1]);
            }
        }
    }
}

/// A position that holds `x` with no `x` before it is the first.
pub proof fn lemma_first_index_is<A>(s: Seq<A>, x: A, k: int)
    requires
        0 <= k <= s.len(),
        k < s.len() ==> s[k] == x,
        forall|i: int| 0 <= i < k ==> s[i] != x,
    ensures
        first_index(s, x) == k,
{
    lemma_first_index(s, x);
}

/// The identities of `groups`, in order.
pub open spec fn group_ids(groups: Seq<GroupView>) -> Seq<usize> {
    groups.map_values(|g: GroupView| g.id)
}

/// The identities of `links`, in order.
pub open spec fn link_ids(links: Seq<LinkView>) -> Seq<usize> {
    links.map_values(|l: LinkView| l.id)
}

/// The position of the first group with the identity `id`, or the number of
/// groups where there is none.
pub open spec fn group_position(groups: Seq<GroupView>, id: usize) -> int {
    first_index(group_ids(groups), id)
}

/// The position of the first link with the identity `id`, or the number of
/// links where there is none.
pub open spec fn link_position(links: Seq<LinkView>, id: usize) -> int {
    first_index(link_ids(links), id)
}

/// The position of the first group that holds a link with the identity
/// `id`, or the number of groups where there is none.
pub open spec fn group_of_link(groups: Seq<GroupView>, id: usize) -> int {
    first_index(groups.map_values(|g: GroupView| link_ids(g.links).contains(id)), true)
}

/// The position of the first group that holds a link with the URI `uri`, or
/// the number of groups where there is none.
pub open spec fn group_of_uri(groups: Seq<GroupView>, uri: Seq<char>) -> int {
    first_index(groups.map_values(|g: GroupView| link_uris(g.links).contains(uri)), true)
}

/// The position of the first group of `link_groups` with the identity `id`.
pub fn find_group(link_groups: &VecDeque<LinkGroup>, id: usize) -> (found: Option<usize>)
    ensures
        match found {
            Some(at) => at < link_groups@.len() && at == group_position(
                groups_view(link_groups@),
                id,
            ),
            None => group_position(groups_view(link_groups@), id) == link_groups@.len(),
        },
{
    let ghost ids = group_ids(groups_view(link_groups@));
    let mut at: usize = 0;
    while at < link_groups.len()
        invariant
            at <= link_groups.len(),
            ids == group_ids(groups_view(link_groups@)),
            forall|i: int| 0 <= i < at ==> ids[i] != id,
        decreases link_groups.len() - at,
    {
        if link_groups[at].id == id {
            proof {
                lemma_first_index_is(ids, id, at as int);
            }
            return Some(at);
        }
        at += 1;
    }
    proof {
        lemma_first_index_is(ids, id, at as int);
    }
    None
}

/// The position of the first link of `links` with the identity `id`.
pub fn find_link(links: &VecDeque<Link>, id: usize) -> (found: Option<usize>)
    ensures
        match found {
            Some(at) => at < links@.len() && at == link_position(links_view(links@), id),
            None => link_position(links_view(links@), id) == links@.len(),
        },
{
    let ghost ids = link_ids(links_view(links@));
    let mut at: usize = 0;
    while at < links.len()
        invariant
            at <= links.len(),
            ids == link_ids(links_view(links@)),
            forall|i: int| 0 <= i < at ==> ids[i] != id,
        decreases links.len() - at,
    {
        if links[at].id == id {
            proof {
                lemma_first_index_is(ids, id, at as int);
            }
            return Some(at);
        }
        at += 1;
    }
    proof {
        lemma_first_index_is(ids, id, at as int);
    }
    None
}

/// Takes the group at `at` out of `link_groups`.
fn take_group(link_groups: &mut VecDeque<LinkGroup>, at: usize) -> (group: LinkGroup)
    requires
        at < old(link_groups)@.len(),
    ensures
        group == old(link_groups)@[at as int],
        final(link_groups)@ == old(link_groups)@.remove(at as int),
        groups_view(final(link_groups)@) == groups_view(old(link_groups)@).remove(at as int),
{
    link_groups.remove(at).unwrap()
}

/// Puts `group` into `link_groups` at `at`.
fn put_group(link_groups: &mut VecDeque<LinkGroup>, at: usize, group: LinkGroup)
    requires
        at <= old(link_groups)@.len(),
    ensures
        final(link_groups)@ == old(link_groups)@.insert(at as int, group),
        groups_view(final(link_groups)@) == groups_view(old(link_groups)@).insert(
            at as int,
            group@,
        ),
{
    link_groups.insert(at, group);
}

/// Puts a new, empty group before the groups of the store.
pub fn add_group(link_groups: &mut VecDeque<LinkGroup>, ids: &mut IdAllocator)
    ensures
        groups_view(final(link_groups)@) == seq![
            (GroupView { id: old(ids).next_id(), links: Seq::empty() }),
        ] + groups_view(old(link_groups)@),
        final(ids).next_id() == id_after(old(ids).next_id(), 1),
{
    let group = LinkGroup::new(VecDeque::new(), ids);
    assert(group@.links =~= Seq::empty());
    link_groups.push_front(group);
}

/// Removes the first group with the identity `id`. Without such a group the
/// store stays as it is.
pub fn remove_group(link_groups: &mut VecDeque<LinkGroup>, id: usize) -> (result: Result<
    (),
    String,
>)
    ensures
        ({
            let groups = groups_view(old(link_groups)@);
            let at = group_position(groups, id);
            if at < groups.len() {
                result is Ok && groups_view(final(link_groups)@) == groups.remove(at)
            } else {
                result is Err && result->Err_0@ == "Group Not Found"@ && *final(link_groups)
                    == *old(link_groups)
            }
        }),
{
    match find_group(link_groups, id) {
        Some(at) => {
            let _ = take_group(link_groups, at);
            Ok(())
        },
        None => Err("Group Not Found".to_owned()),
    }
}

/// The groups of `groups` that hold a link, in their order.
pub open spec fn without_empty_groups(groups: Seq<GroupView>) -> Seq<GroupView>
    decreases groups.len(),
{
    if groups.len() == 0 {
        Seq::empty()
    } else if groups.last().links.len() > 0 {
        without_empty_groups(groups.drop_last()).push(groups.last())
    } else {
        without_empty_groups(groups.drop_last())
    }
}

/// Removes the groups that hold no link.
pub fn remove_empty_groups(link_groups: &mut VecDeque<LinkGroup>)
    ensures
        groups_view(final(link_groups)@) == without_empty_groups(groups_view(old(link_groups)@)),
{
    let ghost all = groups_view(link_groups@);
    let mut kept: VecDeque<LinkGroup> = VecDeque::new();
    let ghost mut done: int = 0;
    loop
        invariant
            0 <= done <= all.len(),
            done + link_groups.len() == all.len(),
            groups_view(link_groups@) == all.skip(done),
            groups_view(kept@) == without_empty_groups(all.take(done)),
        ensures
            groups_view(kept@) == without_empty_groups(all),
        decreases link_groups.len(),
    {
        let ghost before = link_groups@;
        match link_groups.pop_front() {
            Some(group) => {
                assert(group@ == all[done]) by {
                    assert(groups_view(before)[0] == all.skip(done)[0]);
                }
                assert(groups_view(link_groups@) =~= all.skip(done + 1)) by {
                    assert forall|j: int| 0 <= j < link_groups@.len() implies groups_view(
                        link_groups@,
                    )[j] == all.skip(done + 1)[j] by {
                        assert(groups_view(before)[j + 1] == all.skip(done)[j + 1]);
                    }
                }
                assert(all.take(done + 1).drop_last() == all.take(done));
                if group.links.len() > 0 {
                    kept.push_back(group);
                }
                proof {
                    done = done + 1;
                }
            },
            None => {
                assert(all.take(done) == all);
                break ;
            },
        }
    }
    *link_groups = kept;
}

/// The message for a group that is not in the store.
pub open spec fn group_not_found_message(id: usize) -> Seq<char> {
    "Group "@ + decimal(id as nat) + " wasn't found"@
}

/// Puts a new link without tags at the front of the first group with the
/// identity `group_id`. Without such a group nothing changes.
pub fn add_link(
    link_groups: &mut VecDeque<LinkGroup>,
    group_id: usize,
    uri: String,
    title: String,
    ids: &mut IdAllocator,
) -> (result: Result<(), String>)
    ensures
        ({
            let groups = groups_view(old(link_groups)@);
            let at = group_position(groups, group_id);
            let link = LinkView {
                id: old(ids).next_id(),
                content: LinkContent { uri: uri@, title: title@, tags: Seq::empty() },
            };
            if at < groups.len() {
                &&& result is Ok
                &&& groups_view(final(link_groups)@) == groups.update(
                    at,
                    (GroupView { id: groups[at].id, links: seq![link] + groups[at].links }),
                )
                &&& final(ids).next_id() == id_after(old(ids).next_id(), 1)
            } else {
                &&& result is Err
                &&& result->Err_0@ == group_not_found_message(group_id)
                &&& *final(link_groups) == *old(link_groups)
                &&& *final(ids) == *old(ids)
            }
        }),
{
    match find_group(link_groups, group_id) {
        Some(at) => {
            let mut group = take_group(link_groups, at);
            let ghost before = group.links@;
            let link = Link::new(uri, title, Vec::new(), ids);
            assert(link@.content.tags =~= Seq::empty());
            group.links.push_front(link);
            assert(links_view(group.links@) =~= seq![link@] + links_view(before));
            put_group(link_groups, at, group);
            Ok(())
        },
        None => {
            let mut message = "Group ".to_owned();
            let number = decimal_string(group_id);
            message.append(number.as_str());
            message.append(" wasn't found");
            Err(message)
        },
    }
}

/// `links` without its first link with the identity `id`.
pub open spec fn without_link(links: Seq<LinkView>, id: usize) -> Seq<LinkView> {
    let at = link_position(links, id);
    if at < links.len() {
        links.remove(at)
    } else {
        links
    }
}

/// Removes from every group its first link with the identity `id`.
pub fn remove_link(link_groups: &mut VecDeque<LinkGroup>, id: usize)
    ensures
        groups_view(final(link_groups)@) == groups_view(old(link_groups)@).map_values(
            |g: GroupView| GroupView { id: g.id, links: without_link(g.links, id) },
        ),
{
    let ghost groups = groups_view(link_groups@);
    let ghost cleaned = groups.map_values(
        |g: GroupView| GroupView { id: g.id, links: without_link(g.links, id) },
    );
    let mut at: usize = 0;
    while at < link_groups.len()
        invariant
            at <= link_groups.len(),
            link_groups@.len() == groups.len(),
            cleaned == groups.map_values(
                |g: GroupView| GroupView { id: g.id, links: without_link(g.links, id) },
            ),
            forall|i: int| 0 <= i < at ==> groups_view(link_groups@)[i] == cleaned[i],
            forall|i: int| at <= i < groups.len() ==> groups_view(link_groups@)[i] == groups[i],
        decreases link_groups.len() - at,
    {
        match find_link(&link_groups[at].links, id) {
            Some(position) => {
                let mut group = take_group(link_groups, at);
                let ghost links = group.links@;
                let _ = group.links.remove(position);
                assert(links_view(group.links@) =~= links_view(links).remove(position as int));
                put_group(link_groups, at, group);
            },
            None => {},
        }
        at += 1;
    }
}

/// Empties the store and the tag set.
pub fn purge_links(link_groups: &mut VecDeque<LinkGroup>, tags: &mut TextSet)
    ensures
        final(link_groups)@.len() == 0,
        groups_view(final(link_groups)@) == Seq::<GroupView>::empty(),
        final(tags)@ == Set::<Seq<char>>::empty(),
{
    link_groups.clear();
    tags.clear();
}

/// Puts `name` into the tag set.
pub fn add_tag(tags: &mut TextSet, name: String)
    ensures
        final(tags)@ == old(tags)@.insert(name@),
{
    let _ = tags.insert(name);
}

/// Takes `name` out of the tag set.
pub fn remove_tag(tags: &mut TextSet, name: String)
    ensures
        final(tags)@ == old(tags)@.remove(name@),
{
    let _ = tags.remove(name.as_str());
}

/// Moves the first group with the identity `group_id` to `position`, counted
/// among the other groups. Without such a group the store stays as it is.
pub fn reorder_group(
    link_groups: &mut VecDeque<LinkGroup>,
    group_id: usize,
    position: usize,
) -> (result: Result<(), String>)
    requires
        group_position(groups_view(old(link_groups)@), group_id) < old(link_groups)@.len()
            ==> position < old(link_groups)@.len(),
    ensures
        ({
            let groups = groups_view(old(link_groups)@);
            let at = group_position(groups, group_id);
            if at < groups.len() {
                result is Ok && groups_view(final(link_groups)@) == groups.remove(at).insert(
                    position as int,
                    groups[at],
                )
            } else {
                result is Err && result->Err_0@ == "Group matching provided id not found"@
                    && *final(link_groups) == *old(link_groups)
            }
        }),
{
    match find_group(link_groups, group_id) {
        Some(at) => {
            let group = take_group(link_groups, at);
            put_group(link_groups, position, group);
            Ok(())
        },
        None => Err("Group matching provided id not found".to_owned()),
    }
}

/// `groups` once the first link with the identity `link_id` has left the
/// group at `from`.
pub open spec fn link_taken(groups: Seq<GroupView>, from: int, link_id: usize) -> Seq<GroupView> {
    groups.update(
        from,
        GroupView { id: groups[from].id, links: without_link(groups[from].links, link_id) },
    )
}

/// `groups` with `link` put at `position` into the group at `to`.
pub open spec fn link_put(groups: Seq<GroupView>, to: int, position: int, link: LinkView) -> Seq<
    GroupView,
> {
    groups.update(
        to,
        GroupView { id: groups[to].id, links: groups[to].links.insert(position, link) },
    )
}

/// The position of the first group of `link_groups` that holds a link with
/// the identity `id`, and the position of that link in it.
pub fn find_link_in_store(link_groups: &VecDeque<LinkGroup>, id: usize) -> (found: Option<
    (usize, usize),
>)
    ensures
        match found {
            Some((from, at)) => {
                &&& from < link_groups@.len()
                &&& from == group_of_link(groups_view(link_groups@), id)
                &&& at < link_groups@[from as int].links@.len()
                &&& at == link_position(groups_view(link_groups@)[from as int].links, id)
            },
            None => group_of_link(groups_view(link_groups@), id) == link_groups@.len(),
        },
{
    let ghost groups = groups_view(link_groups@);
    let ghost holds = groups.map_values(|g: GroupView| link_ids(g.links).contains(id));
    let mut from: usize = 0;
    while from < link_groups.len()
        invariant
            from <= link_groups.len(),
            groups == groups_view(link_groups@),
            holds == groups.map_values(|g: GroupView| link_ids(g.links).contains(id)),
            forall|i: int| 0 <= i < from ==> !holds[i],
        decreases link_groups.len() - from,
    {
        let ghost ids = link_ids(groups[from as int].links);
        proof {
            lemma_first_index(ids, id);
        }
        match find_link(&link_groups[from].links, id) {
            Some(at) => {
                proof {
                    lemma_first_index_is(holds, true, from as int);
                }
                return Some((from, at));
            },
            None => {},
        }
        from += 1;
    }
    proof {
        lemma_first_index_is(holds, true, from as int);
    }
    None
}

/// Moves the first link with the identity `link_id` to `position_in_group`
/// of the first group with the identity `group_id`. Without such a link, or
/// without such a group, the store stays as it is.
pub fn reorder_link(
    link_groups: &mut VecDeque<LinkGroup>,
    link_id: usize,
    group_id: usize,
    position_in_group: usize,
) -> (result: Result<(), String>)
    requires
        ({
            let groups = groups_view(old(link_groups)@);
            let from = group_of_link(groups, link_id);
            let to = group_position(groups, group_id);
            from < groups.len() && to < groups.len() ==> position_in_group <= link_taken(
                groups,
                from,
                link_id,
            )[to].links.len()
        }),
    ensures
        ({
            let groups = groups_view(old(link_groups)@);
            let from = group_of_link(groups, link_id);
            let to = group_position(groups, group_id);
            if from >= groups.len() {
                result is Err && result->Err_0@ == "Link matching provided id not found"@
                    && *final(link_groups) == *old(link_groups)
            } else if to >= groups.len() {
                result is Err && result->Err_0@ == "Group matching provided id not found"@
                    && *final(link_groups) == *old(link_groups)
            } else {
                result is Ok && groups_view(final(link_groups)@) == link_put(
                    link_taken(groups, from, link_id),
                    to,
                    position_in_group as int,
                    groups[from].links[link_position(groups[from].links, link_id)],
                )
            }
        }),
{
    let (from, at) = match find_link_in_store(link_groups, link_id) {
        Some(found) => found,
        None => {
            return Err("Link matching provided id not found".to_owned());
        },
    };
    let to = match find_group(link_groups, group_id) {
        Some(to) => to,
        None => {
            return Err("Group matching provided id not found".to_owned());
        },
    };
    let mut source = take_group(link_groups, from);
    let ghost source_links = source.links@;
    let link = source.links.remove(at).unwrap();
    assert(links_view(source.links@) =~= links_view(source_links).remove(at as int));
    put_group(link_groups, from, source);
    let mut target = take_group(link_groups, to);
    let ghost target_links = target.links@;
    target.links.insert(position_in_group, link);
    assert(links_view(target.links@) =~= links_view(target_links).insert(
        position_in_group as int,
        link@,
    ));
    put_group(link_groups, to, target);
    Ok(())
}

/// `tags` without the first `name`, or with `name` at the end where it
/// holds none.
pub open spec fn toggled(tags: Seq<Seq<char>>, name: Seq<char>) -> Seq<Seq<char>> {
    let at = first_index(tags, name);
    if at < tags.len() {
        tags.remove(at)
    } else {
        tags.push(name)
    }
}

/// Toggles `name` in `tags`.
pub fn toggle_in(tags: &mut Vec<String>, name: String)
    ensures
        strings_view(final(tags)@) == toggled(strings_view(old(tags)@), name@),
{
    let ghost before = strings_view(tags@);
    let mut at: usize = 0;
    while at < tags.len()
        invariant
            at <= tags.len(),
            before == strings_view(tags@),
            *tags == *old(tags),
            forall|i: int| 0 <= i < at ==> before[i] != name@,
        decreases tags.len() - at,
    {
        if tags[at] == name {
            proof {
                lemma_first_index_is(before, name@, at as int);
            }
            let _ = tags.remove(at);
            return ;
        }
        at += 1;
    }
    proof {
        lemma_first_index_is(before, name@, at as int);
    }
    tags.push(name);
}

/// The position in `links` of the first link with the URI `uri`.
pub fn find_uri(links: &VecDeque<Link>, uri: &String) -> (found: Option<usize>)
    ensures
        match found {
            Some(at) => at < links@.len() && at == first_index(
                link_uris(links_view(links@)),
                uri@,
            ),
            None => first_index(link_uris(links_view(links@)), uri@) == links@.len()
                && !link_uris(links_view(links@)).contains(uri@),
        },
{
    let ghost uris = link_uris(links_view(links@));
    let mut at: usize = 0;
    while at < links.len()
        invariant
            at <= links.len(),
            uris == link_uris(links_view(links@)),
            forall|i: int| 0 <= i < at ==> uris[i] != uri@,
        decreases links.len() - at,
    {
        if links[at].uri == *uri {
            proof {
                lemma_first_index_is(uris, uri@, at as int);
            }
            return Some(at);
        }
        at += 1;
    }
    proof {
        lemma_first_index_is(uris, uri@, at as int);
    }
    None
}

/// The store after the tag `name` is toggled on the first link with the URI
/// `uri`: the first such link of the first group that holds one. Without
/// such a link the store is as before.
pub open spec fn tag_toggled(groups: Seq<GroupView>, uri: Seq<char>, name: Seq<char>) -> Seq<
    GroupView,
> {
    let g = group_of_uri(groups, uri);
    if g < groups.len() {
        let links = groups[g].links;
        let l = first_index(link_uris(links), uri);
        let link = links[l];
        groups.update(
            g,
            GroupView {
                id: groups[g].id,
                links: links.update(
                    l,
                    LinkView {
                        id: link.id,
                        content: LinkContent {
                            uri: link.content.uri,
                            title: link.content.title,
                            tags: toggled(link.content.tags, name),
                        },
                    },
                ),
            },
        )
    } else {
        groups
    }
}

/// Toggles the tag `tag_name` on the first link with the URI `link_uri`:
/// takes the tag from the link where it has it, and gives it to the link
/// where it has not.
pub fn toggle_tag(link_groups: &mut VecDeque<LinkGroup>, link_uri: String, tag_name: String)
    ensures
        groups_view(final(link_groups)@) == tag_toggled(
            groups_view(old(link_groups)@),
            link_uri@,
            tag_name@,
        ),
{
    let ghost groups = groups_view(link_groups@);
    let ghost holds = groups.map_values(|g: GroupView| link_uris(g.links).contains(link_uri@));
    let mut g: usize = 0;
    while g < link_groups.len()
        invariant
            g <= link_groups.len(),
            groups == groups_view(link_groups@),
            *link_groups == *old(link_groups),
            holds == groups.map_values(|g: GroupView| link_uris(g.links).contains(link_uri@)),
            forall|i: int| 0 <= i < g ==> !holds[i],
        decreases link_groups.len() - g,
    {
        match find_uri(&link_groups[g].links, &link_uri) {
            Some(l) => {
                proof {
                    lemma_first_index(link_uris(groups[g as int].links), link_uri@);
                    lemma_first_index_is(holds, true, g as int);
                }
                let mut group = take_group(link_groups, g);
                let ghost links = group.links@;
                let mut link = group.links.remove(l).unwrap();
                toggle_in(&mut link.tags, tag_name);
                group.links.insert(l, link);
                assert(links_view(group.links@) =~= links_view(links).update(l as int, link@));
                put_group(link_groups, g, group);
                return ;
            },
            None => {},
        }
        g += 1;
    }
    proof {
        lemma_first_index_is(holds, true, g as int);
    }
}

} // verus!
