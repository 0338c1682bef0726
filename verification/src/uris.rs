//! The URIs of a store: which it holds, and whether one occurs twice.

use crate::model::{
    groups_view, storable_groups_view, GroupView, LinkContent, LinkGroup, LinkView,
    StorableLinkGroup,
};
use crate::text_set::TextSet;
use std::collections::VecDeque;
use vstd::prelude::*;

verus! {

/// The URIs of `links`, in order.
pub open spec fn link_uris(links: Seq<LinkView>) -> Seq<Seq<char>> {
    links.map_values(|l: LinkView| l.content.uri)
}

/// The URIs of all links of `groups`, group after group.
pub open spec fn store_uris(groups: Seq<GroupView>) -> Seq<Seq<char>>
    decreases groups.len(),
{
    if groups.len() == 0 {
        Seq::empty()
    } else {
        store_uris(groups.drop_last()) + link_uris(groups.last().links)
    }
}

/// The URIs that occur in `groups`.
pub open spec fn uri_set(groups: Seq<GroupView>) -> Set<Seq<char>> {
    store_uris(groups).to_set()
}

/// Whether some URI occurs on two links of `groups`, in one group or in two.
pub open spec fn has_duplicate_uri(groups: Seq<GroupView>) -> bool {
    !store_uris(groups).no_duplicates()
}

/// Whether some link of `incoming` has a URI of `known`.
pub open spec fn any_known_uri(incoming: Seq<Seq<LinkContent>>, known: Set<Seq<char>>) -> bool {
    exists|g: int, l: int|
        0 <= g < incoming.len() && 0 <= l < incoming[g].len() && known.contains(
            #[trigger] incoming[g][l].uri,
        )
}

/// The URIs of two runs of groups, one after the other, are the URIs of the
/// first followed by those of the second.
pub proof fn lemma_store_uris_concat(a: Seq<GroupView>, b: Seq<GroupView>)
    ensures
        store_uris(a + b) == store_uris(a) + store_uris(b),
    decreases b.len(),
{
    if b.len() > 0 {
        lemma_store_uris_concat(a, b.drop_last());
        assert((a + b).drop_last() == a + b.drop_last());
    }
}

/// A URI occurs in `groups` exactly if some link of some group has it.
pub proof fn lemma_uri_set_contains(groups: Seq<GroupView>, uri: Seq<char>)
    ensures
        uri_set(groups).contains(uri) <==> exists|g: int, l: int|
            0 <= g < groups.len() && 0 <= l < groups[g].links.len()
                && #[trigger] groups[g].links[l].content.uri == uri,
    decreases groups.len(),
{
    let found = exists|g: int, l: int|
        0 <= g < groups.len() && 0 <= l < groups[g].links.len()
            && #[trigger] groups[g].links[l].content.uri == uri;
    if groups.len() > 0 {
        let head = groups.drop_last();
        lemma_uri_set_contains(head, uri);
        let all = store_uris(groups);
        if all.contains(uri) {
            let i = choose|i: int| 0 <= i < all.len() && all[i] == uri;
            if i < store_uris(head).len() {
                let (g, l) = choose|g: int, l: int|
                    0 <= g < head.len() && 0 <= l < head[g].links.len()
                        && #[trigger] head[g].links[l].content.uri == uri;
                assert(groups[g].links[l].content.uri == uri);
            } else {
                let l = i - store_uris(head).len();
                assert(groups[groups.len() - 1].links[l].content.uri == uri);
            }
        }
        if found {
            let (g, l) = choose|g: int, l: int|
                0 <= g < groups.len() && 0 <= l < groups[g].links.len()
                    && #[trigger] groups[g].links[l].content.uri == uri;
            if g < head.len() {
                assert(head[g].links[l].content.uri == uri);
                let i = choose|i: int|
                    0 <= i < store_uris(head).len() && store_uris(head)[i] == uri;
                assert(all[i] == uri);
            } else {
                assert(all[store_uris(head).len() + l] == uri);
            }
        }
    }
}

/// The URIs of a sequence with one more are those of the sequence and the new one.
proof fn lemma_push_to_set(s: Seq<Seq<char>>, uri: Seq<char>)
    ensures
        s.push(uri).to_set() == s.to_set().insert(uri),
{
    let t = s.push(uri);
    assert forall|u: Seq<char>| t.contains(u) <==> (s.contains(u) || u == uri) by {
        if s.contains(u) {
            let i = choose|i: int| 0 <= i < s.len() && s[i] == u;
            assert(t[i] == u);
        }
        if u == uri {
            assert(t[s.len() as int] == u);
        }
    }
}

/// The URIs of the first `g` groups and of the first `l` links of the next.
pub open spec fn uris_before(groups: Seq<GroupView>, g: int, l: int) -> Seq<Seq<char>> {
    store_uris(groups.take(g)) + if g < groups.len() {
        link_uris(groups[g].links).take(l)
    } else {
        Seq::empty()
    }
}

/// Stepping over one link adds its URI; stepping over the end of a group
/// adds nothing; and behind the last group stand the URIs of the store.
proof fn lemma_uris_before(groups: Seq<GroupView>, g: int, l: int)
    requires
        0 <= g <= groups.len(),
        g < groups.len() ==> 0 <= l <= groups[g].links.len(),
    ensures
        g < groups.len() && l < groups[g].links.len() ==> uris_before(groups, g, l + 1)
            == uris_before(groups, g, l).push(groups[g].links[l].content.uri),
        g < groups.len() && l == groups[g].links.len() ==> uris_before(groups, g + 1, 0)
            == uris_before(groups, g, l),
        g == groups.len() ==> uris_before(groups, g, l) == store_uris(groups),
        uris_before(groups, g, l).is_prefix_of(store_uris(groups)),
{
    let rest = groups.skip(g);
    assert(groups == groups.take(g) + rest);
    lemma_store_uris_concat(groups.take(g), rest);
    if g < groups.len() {
        assert(groups.take(g + 1).drop_last() == groups.take(g));
        assert(groups.take(g + 1) + groups.skip(g + 1) == groups);
        lemma_store_uris_concat(groups.take(g + 1), groups.skip(g + 1));
    }
}

/// The set of the URIs that occur in `link_groups`.
pub fn collect_uris(link_groups: &VecDeque<LinkGroup>) -> (set: TextSet)
    ensures
        set@ == uri_set(groups_view(link_groups@)),
{
    let ghost groups = groups_view(link_groups@);
    let mut set = TextSet::new();
    let mut g: usize = 0;
    while g < link_groups.len()
        invariant
            groups == groups_view(link_groups@),
            g <= link_groups.len(),
            set@ == uris_before(groups, g as int, 0).to_set(),
        decreases link_groups.len() - g,
    {
        let group = &link_groups[g];
        let mut l: usize = 0;
        while l < group.links.len()
            invariant
                groups == groups_view(link_groups@),
                g < link_groups.len(),
                *group == link_groups@[g as int],
                l <= group.links.len(),
                set@ == uris_before(groups, g as int, l as int).to_set(),
            decreases group.links.len() - l,
        {
            proof {
                lemma_uris_before(groups, g as int, l as int);
                lemma_push_to_set(
                    uris_before(groups, g as int, l as int),
                    groups[g as int].links[l as int].content.uri,
                );
            }
            set.insert(group.links[l].uri.clone());
            l += 1;
        }
        proof {
            lemma_uris_before(groups, g as int, l as int);
        }
        g += 1;
    }
    proof {
        lemma_uris_before(groups, g as int, 0);
    }
    set
}

/// Whether some URI occurs twice in `link_groups`.
pub fn has_duplicates(link_groups: &VecDeque<LinkGroup>) -> (found: bool)
    ensures
        found == has_duplicate_uri(groups_view(link_groups@)),
{
    let ghost groups = groups_view(link_groups@);
    let mut seen = TextSet::new();
    let mut g: usize = 0;
    while g < link_groups.len()
        invariant
            groups == groups_view(link_groups@),
            g <= link_groups.len(),
            seen@ == uris_before(groups, g as int, 0).to_set(),
            uris_before(groups, g as int, 0).no_duplicates(),
        decreases link_groups.len() - g,
    {
        let group = &link_groups[g];
        let mut l: usize = 0;
        while l < group.links.len()
            invariant
                groups == groups_view(link_groups@),
                g < link_groups.len(),
                *group == link_groups@[g as int],
                l <= group.links.len(),
                seen@ == uris_before(groups, g as int, l as int).to_set(),
                uris_before(groups, g as int, l as int).no_duplicates(),
            decreases group.links.len() - l,
        {
            let ghost before = uris_before(groups, g as int, l as int);
            let ghost uri = groups[g as int].links[l as int].content.uri;
            proof {
                lemma_uris_before(groups, g as int, l as int);
                lemma_uris_before(groups, g as int, l + 1);
                lemma_push_to_set(before, uri);
            }
            let fresh = seen.insert(group.links[l].uri.clone());
            if !fresh {
                proof {
                    let whole = store_uris(groups);
                    assert(whole[before.len() as int] == before.push(uri)[before.len() as int]);
                }
                return true;
            }
            l += 1;
        }
        proof {
            lemma_uris_before(groups, g as int, l as int);
        }
        g += 1;
    }
    proof {
        lemma_uris_before(groups, g as int, 0);
    }
    false
}

/// Whether some link of `incoming` has a URI that `known` holds.
pub fn any_uri_known(incoming: &Vec<StorableLinkGroup>, known: &TextSet) -> (found: bool)
    ensures
        found == any_known_uri(storable_groups_view(incoming@), known@),
{
    let ghost content = storable_groups_view(incoming@);
    let mut g: usize = 0;
    while g < incoming.len()
        invariant
            content == storable_groups_view(incoming@),
            g <= incoming.len(),
            forall|i: int, l: int|
                0 <= i < g && 0 <= l < content[i].len() ==> !known@.contains(
                    #[trigger] content[i][l].uri,
                ),
        decreases incoming.len() - g,
    {
        let group = &incoming[g];
        let mut l: usize = 0;
        while l < group.links.len()
            invariant
                content == storable_groups_view(incoming@),
                g < incoming.len(),
                *group == incoming@[g as int],
                l <= group.links.len(),
                forall|k: int|
                    0 <= k < l ==> !known@.contains(#[trigger] content[g as int][k].uri),
            decreases group.links.len() - l,
        {
            if known.contains(group.links[l].uri.as_str()) {
                assert(known@.contains(content[g as int][l as int].uri));
                return true;
            }
            l += 1;
        }
        g += 1;
    }
    false
}

} // verus!
