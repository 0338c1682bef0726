//! Giving identities to the groups of an import.

use crate::ids::{
    id_after, lemma_id_after_sum, lemma_id_after_zero, lemma_ids_distinct, IdAllocator,
};
use crate::model::{
    group_from_storable, groups_content, groups_view, link_with_id, links_content, links_view,
    storable_groups_view, storable_links_view, GroupView, Link, LinkContent, LinkGroup,
    StorableLinkGroup,
};
use std::collections::VecDeque;
use vstd::prelude::*;

verus! {

/// The order in which a group and its links take their identities.
#[derive(Debug, Clone, Copy, PartialEq, Eq)]
pub enum Numbering {
    /// The group first, then its links from the first to the last: the order
    /// of a snapshot.
    GroupFirst,
    /// The links from the last to the first, then the group: the order of a
    /// text that is read from its end.
    LinksFirst,
}

/// The number of identities that `groups` take: one for each group and one
/// for each link.
pub open spec fn ids_needed(groups: Seq<Seq<LinkContent>>) -> nat
    decreases groups.len(),
{
    if groups.len() == 0 {
        0
    } else {
        1 + groups[0].len() + ids_needed(groups.skip(1))
    }
}

/// The group made of `content` when the allocator stands at `start` and the
/// links come first: the last link takes `start`, the first link the last but
/// one identity, and the group the last.
pub open spec fn group_links_first(content: Seq<LinkContent>, start: usize) -> GroupView {
    GroupView {
        id: id_after(start, content.len()),
        links: Seq::new(
            content.len(),
            |i: int| link_with_id(content[i], id_after(start, (content.len() - 1 - i) as nat)),
        ),
    }
}

/// The group made of `content` when the allocator stands at `start`.
pub open spec fn numbered_group(
    content: Seq<LinkContent>,
    start: usize,
    numbering: Numbering,
) -> GroupView {
    match numbering {
        Numbering::GroupFirst => group_from_storable(content, start),
        Numbering::LinksFirst => group_links_first(content, start),
    }
}

/// The groups made of `groups` when the allocator stands at `start`: the
/// last group takes its identities first, the first group last.
pub open spec fn numbered_groups(
    groups: Seq<Seq<LinkContent>>,
    start: usize,
    numbering: Numbering,
) -> Seq<GroupView> {
    Seq::new(
        groups.len(),
        |j: int|
            numbered_group(groups[j], id_after(start, ids_needed(groups.skip(j + 1))), numbering),
    )
}

/// Numbered groups say what the groups they were made of say.
pub proof fn lemma_numbered_content(
    groups: Seq<Seq<LinkContent>>,
    start: usize,
    numbering: Numbering,
)
    ensures
        groups_content(numbered_groups(groups, start, numbering)) == groups,
{
    let numbered = numbered_groups(groups, start, numbering);
    assert forall|j: int| 0 <= j < groups.len() implies groups_content(numbered)[j]
        == groups[j] by {}
}

/// The identities needed from group `j` on are those of group `j` and those
/// needed behind it.
pub proof fn lemma_ids_needed_skip(groups: Seq<Seq<LinkContent>>, j: int)
    requires
        0 <= j < groups.len(),
    ensures
        ids_needed(groups.skip(j)) == 1 + groups[j].len() + ids_needed(groups.skip(j + 1)),
{
    assert(groups.skip(j).skip(1) == groups.skip(j + 1));
}

/// The identity at a slot of a group: slot 0 is the group, slot `s` above 0
/// its link at `s - 1`.
pub open spec fn slot_id(group: GroupView, slot: int) -> usize {
    if slot == 0 {
        group.id
    } else {
        group.links[slot - 1].id
    }
}

/// How many identities were handed out before the slot `slot` of group `j`
/// took its own.
pub open spec fn slot_offset(
    groups: Seq<Seq<LinkContent>>,
    numbering: Numbering,
    j: int,
    slot: int,
) -> nat {
    let before = ids_needed(groups.skip(j + 1));
    let within = match numbering {
        Numbering::GroupFirst => slot,
        Numbering::LinksFirst => if slot == 0 {
            groups[j].len() as int
        } else {
            groups[j].len() - slot
        },
    };
    (before + within) as nat
}

/// The groups behind a later group need no more identities than those
/// behind an earlier one, and fewer by what the groups between them need.
pub proof fn lemma_ids_needed_grow(groups: Seq<Seq<LinkContent>>, j: int, k: int)
    requires
        0 <= j <= k <= groups.len(),
    ensures
        ids_needed(groups.skip(k)) <= ids_needed(groups.skip(j)),
        j < k ==> ids_needed(groups.skip(k)) + 1 + groups[k - 1].len() <= ids_needed(
            groups.skip(j),
        ),
    decreases k - j,
{
    if j < k {
        lemma_ids_needed_grow(groups, j, k - 1);
        lemma_ids_needed_skip(groups, k - 1);
    }
}

/// The groups and links of an import take identities that all differ, as
/// long as the import needs no more identities than `usize` has values.
pub proof fn lemma_numbered_ids_differ(
    groups: Seq<Seq<LinkContent>>,
    start: usize,
    numbering: Numbering,
    j: int,
    s: int,
    k: int,
    t: int,
)
    requires
        ids_needed(groups) <= usize::MAX + 1,
        0 <= j < groups.len(),
        0 <= s <= groups[j].len(),
        0 <= k < groups.len(),
        0 <= t <= groups[k].len(),
        j != k || s != t,
    ensures
        slot_id(numbered_groups(groups, start, numbering)[j], s) != slot_id(
            numbered_groups(groups, start, numbering)[k],
            t,
        ),
{
    let a = slot_offset(groups, numbering, j, s);
    let b = slot_offset(groups, numbering, k, t);
    lemma_slot_id(groups, start, numbering, j, s);
    lemma_slot_id(groups, start, numbering, k, t);
    assert(groups.skip(0) == groups);
    lemma_ids_needed_grow(groups, 0, j + 1);
    lemma_ids_needed_grow(groups, 0, k + 1);
    if j < k {
        lemma_ids_needed_grow(groups, j + 1, k + 1);
        lemma_ids_needed_skip(groups, k);
        lemma_ids_needed_grow(groups, j + 1, k);
    } else if k < j {
        lemma_ids_needed_grow(groups, k + 1, j + 1);
        lemma_ids_needed_skip(groups, j);
        lemma_ids_needed_grow(groups, k + 1, j);
    }
    if a < b {
        lemma_ids_distinct(start, a, b);
    } else {
        lemma_ids_distinct(start, b, a);
    }
}

/// The identity at a slot is the one handed out at the offset of the slot.
pub proof fn lemma_slot_id(
    groups: Seq<Seq<LinkContent>>,
    start: usize,
    numbering: Numbering,
    j: int,
    s: int,
)
    requires
        0 <= j < groups.len(),
        0 <= s <= groups[j].len(),
    ensures
        slot_id(numbered_groups(groups, start, numbering)[j], s) == id_after(
            start,
            slot_offset(groups, numbering, j, s),
        ),
{
    let before = ids_needed(groups.skip(j + 1));
    let base = id_after(start, before);
    let within = (slot_offset(groups, numbering, j, s) - before) as nat;
    lemma_id_after_sum(start, before, within);
    lemma_id_after_zero(base);
}

/// The group that says what `value` says, its links numbered before it.
pub fn number_links_first(value: StorableLinkGroup, ids: &mut IdAllocator) -> (group: LinkGroup)
    ensures
        group@ == group_links_first(value@, old(ids).next_id()),
        final(ids).next_id() == id_after(old(ids).next_id(), (1 + value@.len()) as nat),
{
    let ghost start = ids.next_id();
    let ghost content = value@;
    let ghost n = content.len() as int;
    let mut rest = value.links;
    let mut links: VecDeque<Link> = VecDeque::new();
    proof {
        lemma_id_after_zero(start);
    }
    loop
        invariant
            n == content.len(),
            links.len() + rest.len() == n,
            storable_links_view(rest@) == content.take(rest.len() as int),
            ids.next_id() == id_after(start, links.len() as nat),
            forall|j: int|
                0 <= j < links.len() ==> links@[j]@ == link_with_id(
                    content[rest.len() + j],
                    id_after(start, (n - 1 - (rest.len() + j)) as nat),
                ),
        ensures
            links.len() == n,
            ids.next_id() == id_after(start, n as nat),
            forall|j: int|
                0 <= j < links.len() ==> links@[j]@ == link_with_id(
                    content[j],
                    id_after(start, (n - 1 - j) as nat),
                ),
        decreases rest.len(),
    {
        let ghost before = rest@;
        let ghost done = links@;
        let ghost r = rest.len() as int;
        match rest.pop_back() {
            Some(link) => {
                assert(link@ == content[r - 1]) by {
                    assert(storable_links_view(before)[r - 1] == content.take(r)[r - 1]);
                }
                proof {
                    lemma_id_after_sum(start, done.len(), 1);
                }
                links.push_front(Link::from_storable(link, ids));
            },
            None => {
                break ;
            },
        }
    }
    let id = ids.get_new_id();
    proof {
        lemma_id_after_sum(start, n as nat, 1);
    }
    assert(links_view(links@) =~= group_links_first(content, start).links);
    LinkGroup { id, links }
}

/// Puts `groups` before the groups of `link_groups`, in their order, each
/// group and link under a new identity.
pub fn prepend_groups(
    groups: Vec<StorableLinkGroup>,
    numbering: Numbering,
    link_groups: &mut VecDeque<LinkGroup>,
    ids: &mut IdAllocator,
)
    ensures
        groups_view(final(link_groups)@) == numbered_groups(
            storable_groups_view(groups@),
            old(ids).next_id(),
            numbering,
        ) + groups_view(old(link_groups)@),
        final(ids).next_id() == id_after(
            old(ids).next_id(),
            ids_needed(storable_groups_view(groups@)),
        ),
{
    let ghost start = ids.next_id();
    let ghost content = storable_groups_view(groups@);
    let ghost numbered = numbered_groups(content, start, numbering);
    let ghost existing = groups_view(link_groups@);
    let mut rest = groups;
    proof {
        lemma_id_after_zero(start);
    }
    loop
        invariant
            rest.len() <= content.len(),
            numbered == numbered_groups(content, start, numbering),
            storable_groups_view(rest@) == content.take(rest.len() as int),
            ids.next_id() == id_after(start, ids_needed(content.skip(rest.len() as int))),
            groups_view(link_groups@) == numbered.skip(rest.len() as int) + existing,
        ensures
            ids.next_id() == id_after(start, ids_needed(content)),
            groups_view(link_groups@) == numbered + existing,
        decreases rest.len(),
    {
        let ghost before = rest@;
        let ghost target = link_groups@;
        let ghost r = rest.len() as int;
        match rest.pop() {
            Some(value) => {
                assert(value@ == content[r - 1]) by {
                    assert(storable_groups_view(before)[r - 1] == content.take(r)[r - 1]);
                }
                proof {
                    lemma_ids_needed_skip(content, r - 1);
                    lemma_id_after_sum(
                        start,
                        ids_needed(content.skip(r)),
                        (1 + content[r - 1].len()) as nat,
                    );
                }
                let group = match numbering {
                    Numbering::GroupFirst => LinkGroup::from_storable(value, ids),
                    Numbering::LinksFirst => number_links_first(value, ids),
                };
                link_groups.push_front(group);
                assert(groups_view(link_groups@) =~= numbered.skip(r - 1) + existing) by {
                    assert(groups_view(link_groups@) =~= seq![group@] + groups_view(target));
                }
            },
            None => {
                assert(content.skip(0) == content);
                break ;
            },
        }
    }
}

} // verus!
