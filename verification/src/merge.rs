//! Merging the groups of an import into a store under a strategy and a
//! position.

use crate::model::{groups_view, links_view, GroupView, Link, LinkGroup, LinkView};
use crate::text_set::TextSet;
use crate::uris::uri_set;
use std::collections::VecDeque;
use vstd::prelude::*;

verus! {

/// What to do with an incoming link whose URI the store already holds.
#[derive(Debug, Clone, Copy, PartialEq, Eq)]
pub enum ImportStrategy {
    /// Import every incoming link.
    KeepAll,
    /// Drop the incoming links whose URI the store held before the import.
    KeepExisting,
}

/// Where the incoming groups go.
#[derive(Debug, Clone, Copy, PartialEq, Eq)]
pub enum InsertPosition {
    /// Before the groups of the store.
    Before,
    /// Behind the groups of the store.
    After,
}

/// The two choices of an import.
#[derive(Debug, Clone, Copy, PartialEq, Eq)]
pub struct ImportConfig {
    pub strategy: ImportStrategy,
    pub position: InsertPosition,
}

/// The links of `links` whose URI is not in `known`, in their order.
pub open spec fn keep_new_links(links: Seq<LinkView>, known: Set<Seq<char>>) -> Seq<LinkView>
    decreases links.len(),
{
    if links.len() == 0 {
        Seq::empty()
    } else {
        let head = keep_new_links(links.drop_last(), known);
        if known.contains(links.last().content.uri) {
            head
        } else {
            head.push(links.last())
        }
    }
}

/// `group` without the links whose URI is in `known`.
pub open spec fn keep_new_in_group(group: GroupView, known: Set<Seq<char>>) -> GroupView {
    GroupView { id: group.id, links: keep_new_links(group.links, known) }
}

/// The groups of `groups` without the links whose URI is in `known`, and
/// without the groups that are left empty, in their order.
pub open spec fn keep_new(groups: Seq<GroupView>, known: Set<Seq<char>>) -> Seq<GroupView>
    decreases groups.len(),
{
    if groups.len() == 0 {
        Seq::empty()
    } else {
        let head = keep_new(groups.drop_last(), known);
        let last = keep_new_in_group(groups.last(), known);
        if last.links.len() > 0 {
            head.push(last)
        } else {
            head
        }
    }
}

/// The groups that an import adds to a store whose URIs are `known`.
pub open spec fn accepted(
    incoming: Seq<GroupView>,
    strategy: ImportStrategy,
    known: Set<Seq<char>>,
) -> Seq<GroupView> {
    match strategy {
        ImportStrategy::KeepAll => incoming,
        ImportStrategy::KeepExisting => keep_new(incoming, known),
    }
}

/// `added` put before or behind `store`.
pub open spec fn placed(
    store: Seq<GroupView>,
    added: Seq<GroupView>,
    position: InsertPosition,
) -> Seq<GroupView> {
    match position {
        InsertPosition::Before => added + store,
        InsertPosition::After => store + added,
    }
}

/// The store after the import of `incoming`: the accepted groups, judged
/// by the URIs that the store held before, at the chosen end.
pub open spec fn merged(
    store: Seq<GroupView>,
    incoming: Seq<GroupView>,
    config: ImportConfig,
) -> Seq<GroupView> {
    placed(store, accepted(incoming, config.strategy, uri_set(store)), config.position)
}

/// `group` without the links whose URI `known` holds.
pub fn filter_group(group: LinkGroup, known: &TextSet) -> (kept: LinkGroup)
    ensures
        kept@ == keep_new_in_group(group@, known@),
{
    let ghost all = links_view(group.links@);
    let id = group.id;
    let mut rest = group.links;
    let mut links: VecDeque<Link> = VecDeque::new();
    let ghost mut done: int = 0;
    loop
        invariant
            0 <= done <= all.len(),
            done + rest.len() == all.len(),
            links_view(rest@) == all.skip(done),
            links_view(links@) == keep_new_links(all.take(done), known@),
        ensures
            links_view(links@) == keep_new_links(all, known@),
        decreases rest.len(),
    {
        let ghost before = rest@;
        match rest.pop_front() {
            Some(link) => {
                assert(link@ == all[done]) by {
                    assert(links_view(before)[0] == all.skip(done)[0]);
                }
                assert(links_view(rest@) =~= all.skip(done + 1)) by {
                    assert forall|j: int| 0 <= j < rest@.len() implies links_view(rest@)[j]
                        == all.skip(done + 1)[j] by {
                        assert(links_view(before)[j + 1] == all.skip(done)[j + 1]);
                    }
                }
                assert(all.take(done + 1).drop_last() == all.take(done));
                if !known.contains(link.uri.as_str()) {
                    links.push_back(link);
                }
                proof {
                    done = done + 1;
                }
            },
            None => {
                assert(all.take(done) == all);
                break ;
            },
        }
    }
    LinkGroup { id, links }
}

/// The groups of `incoming` that the import adds under `strategy` to a store
/// whose URIs are `known`.
pub fn accept_groups(
    incoming: VecDeque<LinkGroup>,
    strategy: ImportStrategy,
    known: &TextSet,
) -> (added: VecDeque<LinkGroup>)
    ensures
        groups_view(added@) == accepted(groups_view(incoming@), strategy, known@),
{
    let ghost all = groups_view(incoming@);
    let mut rest = incoming;
    let mut added: VecDeque<LinkGroup> = VecDeque::new();
    let ghost mut done: int = 0;
    loop
        invariant
            0 <= done <= all.len(),
            done + rest.len() == all.len(),
            groups_view(rest@) == all.skip(done),
            groups_view(added@) == accepted(all.take(done), strategy, known@),
        ensures
            groups_view(added@) == accepted(all, strategy, known@),
        decreases rest.len(),
    {
        let ghost before = rest@;
        match rest.pop_front() {
            Some(group) => {
                assert(group@ == all[done]) by {
                    assert(groups_view(before)[0] == all.skip(done)[0]);
                }
                assert(groups_view(rest@) =~= all.skip(done + 1)) by {
                    assert forall|j: int| 0 <= j < rest@.len() implies groups_view(rest@)[j]
                        == all.skip(done + 1)[j] by {
                        assert(groups_view(before)[j + 1] == all.skip(done)[j + 1]);
                    }
                }
                assert(all.take(done + 1).drop_last() == all.take(done));
                match strategy {
                    ImportStrategy::KeepAll => {
                        added.push_back(group);
                    },
                    ImportStrategy::KeepExisting => {
                        let filtered = filter_group(group, known);
                        if filtered.links.len() > 0 {
                            added.push_back(filtered);
                        }
                    },
                }
                proof {
                    done = done + 1;
                }
            },
            None => {
                assert(all.take(done) == all);
                break ;
            },
        }
    }
    added
}

/// Puts `added` before or behind the groups of `link_groups`, in their order.
pub fn insert_groups(
    added: VecDeque<LinkGroup>,
    position: InsertPosition,
    link_groups: &mut VecDeque<LinkGroup>,
)
    ensures
        groups_view(final(link_groups)@) == placed(
            groups_view(old(link_groups)@),
            groups_view(added@),
            position,
        ),
{
    let ghost store = groups_view(link_groups@);
    let ghost all = groups_view(added@);
    let mut rest = added;
    match position {
        InsertPosition::Before => {
            loop
                invariant
                    rest.len() <= all.len(),
                    groups_view(rest@) == all.take(rest.len() as int),
                    groups_view(link_groups@) == all.skip(rest.len() as int) + store,
                ensures
                    groups_view(link_groups@) == all + store,
                decreases rest.len(),
            {
                let ghost before = rest@;
                let ghost target = link_groups@;
                let ghost r = rest.len() as int;
                match rest.pop_back() {
                    Some(group) => {
                        assert(group@ == all[r - 1]) by {
                            assert(groups_view(before)[r - 1] == all.take(r)[r - 1]);
                        }
                        link_groups.push_front(group);
                        assert(groups_view(link_groups@) =~= all.skip(r - 1) + store) by {
                            assert(groups_view(link_groups@) =~= seq![group@] + groups_view(
                                target,
                            ));
                        }
                    },
                    None => {
                        break ;
                    },
                }
            }
        },
        InsertPosition::After => {
            let ghost mut done: int = 0;
            loop
                invariant
                    0 <= done <= all.len(),
                    done + rest.len() == all.len(),
                    groups_view(rest@) == all.skip(done),
                    groups_view(link_groups@) == store + all.take(done),
                ensures
                    groups_view(link_groups@) == store + all,
                decreases rest.len(),
            {
                let ghost before = rest@;
                let ghost target = link_groups@;
                match rest.pop_front() {
                    Some(group) => {
                        assert(group@ == all[done]) by {
                            assert(groups_view(before)[0] == all.skip(done)[0]);
                        }
                        assert(groups_view(rest@) =~= all.skip(done + 1)) by {
                            assert forall|j: int| 0 <= j < rest@.len() implies groups_view(
                                rest@,
                            )[j] == all.skip(done + 1)[j] by {
                                assert(groups_view(before)[j + 1] == all.skip(done)[j + 1]);
                            }
                        }
                        link_groups.push_back(group);
                        assert(groups_view(link_groups@) =~= store + all.take(done + 1)) by {
                            assert(groups_view(link_groups@) =~= groups_view(target).push(
                                group@,
                            ));
                        }
                        proof {
                            done = done + 1;
                        }
                    },
                    None => {
                        break ;
                    },
                }
            }
        },
    }
}

/// Whether `x` stands at some position of `s` and `y` at a later one.
pub open spec fn in_order<A>(s: Seq<A>, x: A, y: A) -> bool {
    exists|a: int, b: int| #![trigger s[a], s[b]] 0 <= a < b < s.len() && s[a] == x && s[b] == y
}

/// The links that are kept have no URI of `known`, come from `links`, and
/// stand in the order in which they stood there; and every link of `links`
/// whose URI is not in `known` is kept.
pub proof fn lemma_keep_new_links(links: Seq<LinkView>, known: Set<Seq<char>>)
    ensures
        keep_new_links(links, known).len() <= links.len(),
        forall|i: int|
            0 <= i < keep_new_links(links, known).len() ==> !known.contains(
                (#[trigger] keep_new_links(links, known)[i]).content.uri,
            ),
        forall|i: int, j: int|
            0 <= i < j < keep_new_links(links, known).len() ==> in_order(
                links,
                #[trigger] keep_new_links(links, known)[i],
                #[trigger] keep_new_links(links, known)[j],
            ),
        forall|i: int|
            0 <= i < keep_new_links(links, known).len() ==> links.contains(
                #[trigger] keep_new_links(links, known)[i],
            ),
        forall|a: int|
            0 <= a < links.len() && !known.contains((#[trigger] links[a]).content.uri)
                ==> keep_new_links(links, known).contains(links[a]),
    decreases links.len(),
{
    if links.len() > 0 {
        let head = links.drop_last();
        let kept_head = keep_new_links(head, known);
        let kept = keep_new_links(links, known);
        let n = links.len() - 1;
        lemma_keep_new_links(head, known);
        assert forall|a: int|
            0 <= a < links.len() && !known.contains(
                (#[trigger] links[a]).content.uri,
            ) implies kept.contains(links[a]) by {
            if a < n {
                let i = choose|i: int| 0 <= i < kept_head.len() && kept_head[i] == head[a];
                assert(kept[i] == links[a]);
            } else {
                assert(kept[kept.len() - 1] == links[a]);
            }
        }
    }
}

/// Every group that is kept holds a link, stems from a group of `groups`
/// whose identity it keeps, and holds the links of that group whose URI is
/// not in `known`; and the groups stand in the order in which they stood.
pub proof fn lemma_keep_new(groups: Seq<GroupView>, known: Set<Seq<char>>)
    ensures
        keep_new(groups, known).len() <= groups.len(),
        forall|i: int|
            0 <= i < keep_new(groups, known).len() ==> (#[trigger] keep_new(
                groups,
                known,
            )[i]).links.len() > 0,
        forall|i: int|
            0 <= i < keep_new(groups, known).len() ==> exists|g: int|
                0 <= g < groups.len() && #[trigger] keep_new(groups, known)[i]
                    == keep_new_in_group(groups[g], known),
        forall|i: int, j: int|
            0 <= i < j < keep_new(groups, known).len() ==> in_order(
                groups.map_values(|g: GroupView| keep_new_in_group(g, known)),
                #[trigger] keep_new(groups, known)[i],
                #[trigger] keep_new(groups, known)[j],
            ),
    decreases groups.len(),
{
    if groups.len() > 0 {
        let head = groups.drop_last();
        let kept_head = keep_new(head, known);
        let kept = keep_new(groups, known);
        let n = groups.len() - 1;
        lemma_keep_new(head, known);
        let sources = groups.map_values(|g: GroupView| keep_new_in_group(g, known));
        let head_sources = head.map_values(|g: GroupView| keep_new_in_group(g, known));
        assert forall|i: int, j: int| 0 <= i < j < kept.len() implies in_order(
            sources,
            #[trigger] kept[i],
            #[trigger] kept[j],
        ) by {
            if j < kept_head.len() {
                let (g, h) = choose|g: int, h: int|
                    #![trigger head_sources[g], head_sources[h]]
                    0 <= g < h < head_sources.len() && head_sources[g] == kept_head[i]
                        && head_sources[h] == kept_head[j];
                assert(sources[g] == kept[i] && sources[h] == kept[j]);
            } else {
                let g = choose|g: int|
                    0 <= g < head.len() && kept_head[i] == keep_new_in_group(head[g], known);
                assert(sources[g] == kept[i] && sources[n] == kept[j]);
            }
        }
    }
}

/// Under `KeepExisting` the import adds no link whose URI the store held
/// before: in the store after the import, every link with such a URI stands
/// in one of the groups that the store held before, which are unchanged.
pub proof fn lemma_keep_existing_adds_no_known_uri(
    store: Seq<GroupView>,
    incoming: Seq<GroupView>,
    position: InsertPosition,
)
    ensures
        ({
            let config = ImportConfig { strategy: ImportStrategy::KeepExisting, position };
            let after = merged(store, incoming, config);
            let added = after.len() - store.len();
            &&& 0 <= added <= incoming.len()
            &&& forall|g: int, l: int|
                0 <= g < after.len() && 0 <= l < after[g].links.len() && uri_set(store).contains(
                    (#[trigger] after[g].links[l]).content.uri,
                ) ==> match position {
                    InsertPosition::Before => g >= added && after[g] == store[g - added],
                    InsertPosition::After => g < store.len() && after[g] == store[g],
                }
        }),
{
    let known = uri_set(store);
    let kept = keep_new(incoming, known);
    lemma_keep_new(incoming, known);
    let config = ImportConfig { strategy: ImportStrategy::KeepExisting, position };
    let after = merged(store, incoming, config);
    assert forall|g: int, l: int|
        0 <= g < after.len() && 0 <= l < after[g].links.len() && known.contains(
            (#[trigger] after[g].links[l]).content.uri,
        ) implies match position {
        InsertPosition::Before => g >= kept.len() && after[g] == store[g - kept.len()],
        InsertPosition::After => g < store.len() && after[g] == store[g],
    } by {
        let k = match position {
            InsertPosition::Before => g,
            InsertPosition::After => g - store.len(),
        };
        if 0 <= k < kept.len() {
            let h = choose|h: int|
                0 <= h < incoming.len() && kept[k] == keep_new_in_group(incoming[h], known);
            lemma_keep_new_links(incoming[h].links, known);
        }
    }
}

/// The groups of an import stand together at the chosen end of the store, in
/// their order: before all groups that the store held, or behind them. The
/// groups that the store held stay as they were, in their order.
pub proof fn lemma_position(store: Seq<GroupView>, incoming: Seq<GroupView>, config: ImportConfig)
    ensures
        ({
            let added = accepted(incoming, config.strategy, uri_set(store));
            let after = merged(store, incoming, config);
            &&& after.len() == store.len() + added.len()
            &&& config.position is Before ==> after.take(added.len() as int) == added
                && after.skip(added.len() as int) == store
            &&& config.position is After ==> after.take(store.len() as int) == store
                && after.skip(store.len() as int) == added
        }),
{
}

/// The import of one group with one link, which the strategy accepts, puts
/// that group first under `Before` and last under `After`, and leaves the
/// groups of the store as they were.
pub proof fn lemma_single_link_import(store: Seq<GroupView>, group: GroupView, config: ImportConfig)
    requires
        group.links.len() == 1,
        config.strategy is KeepAll || !uri_set(store).contains(group.links[0].content.uri),
    ensures
        ({
            let after = merged(store, seq![group], config);
            &&& after.len() == store.len() + 1
            &&& config.position is Before ==> after[0] == group && after.skip(1) == store
            &&& config.position is After ==> after.last() == group && after.drop_last() == store
        }),
{
    let known = uri_set(store);
    let incoming = seq![group];
    assert(keep_new(incoming.drop_last(), known) =~= Seq::empty());
    if config.strategy is KeepExisting {
        assert(keep_new_links(group.links.drop_last(), known) =~= Seq::empty());
        assert(keep_new_links(group.links, known) =~= group.links);
    }
}

/// The groups that an import adds are the same under both positions, link
/// by link and in the same order; under `KeepAll` they are the groups of the
/// source as they stand.
pub proof fn lemma_order_within_groups(
    store: Seq<GroupView>,
    incoming: Seq<GroupView>,
    strategy: ImportStrategy,
)
    ensures
        ({
            let front = merged(
                store,
                incoming,
                (ImportConfig { strategy, position: InsertPosition::Before }),
            );
            let back = merged(
                store,
                incoming,
                (ImportConfig { strategy, position: InsertPosition::After }),
            );
            let added = front.len() - store.len();
            &&& front.len() == back.len()
            &&& 0 <= added <= incoming.len()
            &&& forall|i: int| 0 <= i < added ==> #[trigger] front[i] == back[store.len() + i]
            &&& strategy is KeepAll ==> added == incoming.len() && forall|i: int|
                0 <= i < added ==> #[trigger] front[i] == incoming[i]
        }),
{
    lemma_keep_new(incoming, uri_set(store));
}

} // verus!
