//! Importing a file into a store: format dispatch, the two readers, the
//! duplicate check before an import, and the import itself.

use crate::fresh::{
    ids_needed, lemma_numbered_content, numbered_groups, prepend_groups, Numbering,
};
use crate::ids::{id_after, IdAllocator};
use crate::merge::{accept_groups, insert_groups, merged, ImportConfig};
use crate::model::{
    groups_content, groups_view, strings_view, LinkContent, LinkGroup, SaveData, SaveDataView,
};
use crate::onetab::{one_tab_groups, parse_one_tab};
use crate::text_set::TextSet;
use crate::uris::{
    any_known_uri, any_uri_known, collect_uris, has_duplicate_uri, has_duplicates, uri_set,
};
use std::collections::VecDeque;
use vstd::prelude::*;
use vstd::string::*;

verus! {

/// The formats that an import reads.
#[derive(Debug, Clone, Copy, PartialEq, Eq)]
pub enum ImportFormat {
    /// Lines of `<uri> | <title>`.
    OneTab,
    /// A JSON snapshot of tags and groups.
    Snapshot,
}

/// The format that the first character of `text` announces: `h` a OneTab
/// text, `{` a snapshot.
pub open spec fn format_of(text: Seq<char>) -> Option<ImportFormat> {
    if text.len() > 0 && text[0] == 'h' {
        Some(ImportFormat::OneTab)
    } else if text.len() > 0 && text[0] == '{' {
        Some(ImportFormat::Snapshot)
    } else {
        None
    }
}

/// The message for a text of neither format, and for a snapshot that does
/// not decode.
pub open spec fn invalid_format_message() -> Seq<char> {
    "Corrupted file or invalid format"@
}

/// What a file holds for an import.
pub struct Incoming {
    /// Its groups, in order.
    pub groups: Seq<Seq<LinkContent>>,
    /// Its tag names.
    pub tags: Seq<Seq<char>>,
    /// The order in which its groups and links take their identities.
    pub numbering: Numbering,
}

/// The view of a decoded snapshot, where there is one.
pub open spec fn decoded_view(snapshot: Option<SaveData>) -> Option<SaveDataView> {
    match snapshot {
        Some(data) => Some(data@),
        None => None,
    }
}

/// What `text` holds, or the message that refuses it. `snapshot` is what
/// `text` decodes to as a JSON snapshot, if it does.
pub open spec fn read_import(text: Seq<char>, snapshot: Option<SaveDataView>) -> Result<
    Incoming,
    Seq<char>,
> {
    match format_of(text) {
        Some(ImportFormat::OneTab) => match one_tab_groups(text) {
            Ok(groups) => Ok(
                Incoming { groups, tags: Seq::empty(), numbering: Numbering::LinksFirst },
            ),
            Err(e) => Err(e.message()),
        },
        Some(ImportFormat::Snapshot) => match snapshot {
            Some(data) => Ok(
                Incoming {
                    groups: data.link_groups,
                    tags: data.tags,
                    numbering: Numbering::GroupFirst,
                },
            ),
            None => Err(invalid_format_message()),
        },
        None => Err(invalid_format_message()),
    }
}

/// The format of `text` by its first character, or the message that refuses it.
pub fn detect_format(text: &str) -> (result: Result<ImportFormat, String>)
    requires
        text@.len() > 0,
    ensures
        match format_of(text@) {
            Some(format) => result == Ok::<ImportFormat, String>(format),
            None => result is Err && result->Err_0@ == invalid_format_message(),
        },
{
    let first = text.get_char(0);
    if first == 'h' {
        Ok(ImportFormat::OneTab)
    } else if first == '{' {
        Ok(ImportFormat::Snapshot)
    } else {
        Err("Corrupted file or invalid format".to_owned())
    }
}

/// Puts every name of `names` into `tags`.
pub fn add_tags(tags: &mut TextSet, names: &Vec<String>)
    ensures
        final(tags)@ == old(tags)@.union(strings_view(names@).to_set()),
{
    let ghost all = strings_view(names@);
    let ghost start = tags@;
    let mut i: usize = 0;
    while i < names.len()
        invariant
            i <= names.len(),
            all == strings_view(names@),
            tags@ == start.union(all.take(i as int).to_set()),
        decreases names.len() - i,
    {
        tags.insert(names[i].clone());
        proof {
            let head = all.take(i as int);
            let next = all.take(i + 1);
            assert forall|t: Seq<char>| next.contains(t) <==> (head.contains(t) || t
                == all[i as int]) by {
                if t == all[i as int] {
                    assert(next[i as int] == t);
                }
            }
        }
        i += 1;
    }
    assert(all.take(i as int) == all);
}

/// Reads a OneTab text and puts its groups before the groups of
/// `link_groups`, in the order of the text. A text with a refused line
/// changes nothing.
pub fn one_tab_import(
    file_as_string: String,
    link_groups: &mut VecDeque<LinkGroup>,
    ids: &mut IdAllocator,
) -> (result: Result<(), String>)
    ensures
        match one_tab_groups(file_as_string@) {
            Ok(groups) => {
                &&& result is Ok
                &&& groups_view(final(link_groups)@) == numbered_groups(
                    groups,
                    old(ids).next_id(),
                    Numbering::LinksFirst,
                ) + groups_view(old(link_groups)@)
                &&& final(ids).next_id() == id_after(old(ids).next_id(), ids_needed(groups))
            },
            Err(e) => {
                &&& result is Err
                &&& result->Err_0@ == e.message()
                &&& *final(link_groups) == *old(link_groups)
                &&& *final(ids) == *old(ids)
            },
        },
{
    match parse_one_tab(file_as_string.as_str()) {
        Ok(groups) => {
            prepend_groups(groups, Numbering::LinksFirst, link_groups, ids);
            Ok(())
        },
        Err(message) => Err(message),
    }
}

/// Puts the groups of a decoded snapshot before the groups of `link_groups`,
/// in their order, and its tag names into `tags`, where the caller hands a
/// tag set. `None` for the snapshot stands for a text that did not decode: it
/// is refused and changes nothing.
pub fn json_import(
    snapshot: Option<SaveData>,
    link_groups: &mut VecDeque<LinkGroup>,
    tags: Option<&mut TextSet>,
    ids: &mut IdAllocator,
) -> (result: Result<(), String>)
    ensures
        match snapshot {
            Some(data) => {
                &&& result is Ok
                &&& groups_view(final(link_groups)@) == numbered_groups(
                    data@.link_groups,
                    old(ids).next_id(),
                    Numbering::GroupFirst,
                ) + groups_view(old(link_groups)@)
                &&& final(ids).next_id() == id_after(
                    old(ids).next_id(),
                    ids_needed(data@.link_groups),
                )
                &&& tags matches Some(set) ==> final(set)@ == set@.union(data@.tags.to_set())
            },
            None => {
                &&& result is Err
                &&& result->Err_0@ == invalid_format_message()
                &&& *final(link_groups) == *old(link_groups)
                &&& *final(ids) == *old(ids)
                &&& tags matches Some(set) ==> *final(set) == *set
            },
        },
{
    match snapshot {
        Some(data) => {
            match tags {
                Some(set) => {
                    add_tags(set, &data.tags);
                },
                None => {},
            }
            prepend_groups(data.link_groups, Numbering::GroupFirst, link_groups, ids);
            Ok(())
        },
        None => Err("Corrupted file or invalid format".to_owned()),
    }
}

/// Whether the import of a file would bring a URI that the store already
/// holds. `snapshot` is what the text decodes to as a JSON snapshot, if it
/// does; a text of the other format does not look at it. The store is not
/// changed.
pub fn check_for_duplicates(
    file_as_string: String,
    snapshot: Option<SaveData>,
    link_groups: &VecDeque<LinkGroup>,
) -> (result: Result<bool, String>)
    requires
        file_as_string@.len() > 0,
    ensures
        match read_import(file_as_string@, decoded_view(snapshot)) {
            Ok(incoming) => result == Ok::<bool, String>(
                any_known_uri(incoming.groups, uri_set(groups_view(link_groups@))),
            ),
            Err(message) => result is Err && result->Err_0@ == message,
        },
{
    let incoming = match detect_format(file_as_string.as_str()) {
        Err(message) => {
            return Err(message);
        },
        Ok(ImportFormat::OneTab) => match parse_one_tab(file_as_string.as_str()) {
            Ok(groups) => groups,
            Err(message) => {
                return Err(message);
            },
        },
        Ok(ImportFormat::Snapshot) => match snapshot {
            Some(data) => data.link_groups,
            None => {
                return Err("Corrupted file or invalid format".to_owned());
            },
        },
    };
    let known = collect_uris(link_groups);
    Ok(any_uri_known(&incoming, &known))
}

/// Imports a file into the store. `snapshot` is what the text decodes to as
/// a JSON snapshot, if it does; a text of the other format does not look at
/// it.
///
/// The groups of the file take new identities and go before or behind the
/// groups of the store, as `config` says; under `KeepExisting` without the
/// links whose URI the store held before, and without the groups that this
/// leaves empty. The tag names of a snapshot go into `tags`. The result says
/// whether some URI then occurs twice in the store. A file that is refused
/// changes nothing.
pub fn import_from_file(
    file_as_string: String,
    snapshot: Option<SaveData>,
    link_groups: &mut VecDeque<LinkGroup>,
    tags: &mut TextSet,
    config: ImportConfig,
    ids: &mut IdAllocator,
) -> (result: Result<bool, String>)
    requires
        file_as_string@.len() > 0,
    ensures
        match read_import(file_as_string@, decoded_view(snapshot)) {
            Ok(incoming) => {
                &&& groups_view(final(link_groups)@) == merged(
                    groups_view(old(link_groups)@),
                    numbered_groups(incoming.groups, old(ids).next_id(), incoming.numbering),
                    config,
                )
                &&& result == Ok::<bool, String>(
                    has_duplicate_uri(groups_view(final(link_groups)@)),
                )
                &&& final(tags)@ == old(tags)@.union(incoming.tags.to_set())
                &&& final(ids).next_id() == id_after(
                    old(ids).next_id(),
                    ids_needed(incoming.groups),
                )
            },
            Err(message) => {
                &&& result is Err
                &&& result->Err_0@ == message
                &&& *final(link_groups) == *old(link_groups)
                &&& *final(tags) == *old(tags)
                &&& *final(ids) == *old(ids)
            },
        },
{
    let mut buffer: VecDeque<LinkGroup> = VecDeque::new();
    match detect_format(file_as_string.as_str()) {
        Err(message) => {
            return Err(message);
        },
        Ok(ImportFormat::OneTab) => {
            match one_tab_import(file_as_string, &mut buffer, ids) {
                Err(message) => {
                    return Err(message);
                },
                Ok(()) => {},
            }
        },
        Ok(ImportFormat::Snapshot) => {
            match json_import(snapshot, &mut buffer, Some(&mut *tags), ids) {
                Err(message) => {
                    return Err(message);
                },
                Ok(()) => {},
            }
        },
    }
    let known = collect_uris(link_groups);
    let added = accept_groups(buffer, config.strategy, &known);
    insert_groups(added, config.position, link_groups);
    Ok(has_duplicates(link_groups))
}

/// Reading one OneTab text twice gives groups that say the same, link by
/// link and in the same order, whatever identities the two readings take.
pub proof fn lemma_one_tab_content_is_determined(text: Seq<char>, first: usize, second: usize)
    requires
        one_tab_groups(text) is Ok,
    ensures
        groups_content(
            numbered_groups(one_tab_groups(text)->Ok_0, first, Numbering::LinksFirst),
        ) == one_tab_groups(text)->Ok_0,
        groups_content(
            numbered_groups(one_tab_groups(text)->Ok_0, first, Numbering::LinksFirst),
        ) == groups_content(
            numbered_groups(one_tab_groups(text)->Ok_0, second, Numbering::LinksFirst),
        ),
{
    lemma_numbered_content(one_tab_groups(text)->Ok_0, first, Numbering::LinksFirst);
    lemma_numbered_content(one_tab_groups(text)->Ok_0, second, Numbering::LinksFirst);
}

} // verus!
