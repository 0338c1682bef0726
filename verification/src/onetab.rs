//! The OneTab text format: one link per line as `<uri> | <title>`, groups
//! separated by lines without a bar.

use crate::model::{
    storable_groups_view, storable_links_view, LinkContent, StorableLink, StorableLinkGroup,
};
use crate::text::{
    chars_of, find_after_last, find_first, first_index_of, has_prefix, last_index_of,
    lemma_last_index_of, starts_with, string_from, trim, trim_bounds,
};
use std::collections::VecDeque;
use vstd::prelude::*;
use vstd::string::*;

verus! {

/// What one line of a OneTab text is.
pub enum OneTabLine {
    /// A line with a bar, a web URI before it and a title behind it.
    Entry(LinkContent),
    /// A line without a bar: it ends the group before it.
    Separator,
    /// A line with a bar whose URI does not begin with `http://` or `https://`.
    InvalidUri(Seq<char>),
    /// A line with a bar, a web URI and nothing but whitespace for a title.
    MissingTitle(Seq<char>),
}

/// Why a OneTab text is refused.
pub enum OneTabError {
    InvalidUri(Seq<char>),
    MissingTitle(Seq<char>),
}

impl OneTabError {
    /// The message that reports the error; it names the URI of the line.
    pub open spec fn message(self) -> Seq<char> {
        match self {
            OneTabError::InvalidUri(uri) => "Invalid URI: '"@ + uri + "'"@,
            OneTabError::MissingTitle(uri) => "Missing title for uri: '"@ + uri + "'"@,
        }
    }
}

/// The lines of `text`: the pieces between its line feeds. A carriage return
/// before a line feed stays on its line, where it is trailing whitespace.
pub open spec fn lines_of(text: Seq<char>) -> Seq<Seq<char>>
    decreases text.len(),
{
    let k = last_index_of(text, '\n');
    if 0 <= k < text.len() {
        lines_of(text.take(k)).push(text.skip(k + 1))
    } else {
        seq![text]
    }
}

/// Whether `uri` begins as a web address does.
pub open spec fn is_web_uri(uri: Seq<char>) -> bool {
    starts_with(uri, "https://"@) || starts_with(uri, "http://"@)
}

/// Reads one line: the first bar splits it into URI and title, and both are
/// trimmed.
pub open spec fn classify(line: Seq<char>) -> OneTabLine {
    let bar = first_index_of(line, '|');
    if bar >= line.len() {
        OneTabLine::Separator
    } else {
        let uri = trim(line.take(bar));
        let title = trim(line.skip(bar + 1));
        if !is_web_uri(uri) {
            OneTabLine::InvalidUri(uri)
        } else if title.len() == 0 {
            OneTabLine::MissingTitle(uri)
        } else {
            OneTabLine::Entry(LinkContent { uri, title, tags: Seq::empty() })
        }
    }
}

/// The groups read so far and the links of the group that is still open.
pub struct Scan {
    pub groups: Seq<Seq<LinkContent>>,
    pub pending: Seq<LinkContent>,
}

/// Closes the open group, if it holds a link, and puts it before the others.
pub open spec fn flush(scan: Scan) -> Scan {
    if scan.pending.len() > 0 {
        Scan { groups: seq![scan.pending] + scan.groups, pending: Seq::empty() }
    } else {
        scan
    }
}

/// The state after reading `lines[from..]` from the last line up to the line
/// `from`, or the error of the first line, in that order, that is refused.
pub open spec fn scan_from(lines: Seq<Seq<char>>, from: int) -> Result<Scan, OneTabError>
    decreases lines.len() - from,
{
    if from >= lines.len() || from < 0 {
        Ok(Scan { groups: Seq::empty(), pending: Seq::empty() })
    } else {
        match scan_from(lines, from + 1) {
            Err(e) => Err(e),
            Ok(scan) => match classify(lines[from]) {
                OneTabLine::Entry(link) => Ok(
                    Scan { groups: scan.groups, pending: seq![link] + scan.pending },
                ),
                OneTabLine::Separator => Ok(flush(scan)),
                OneTabLine::InvalidUri(uri) => Err(OneTabError::InvalidUri(uri)),
                OneTabLine::MissingTitle(uri) => Err(OneTabError::MissingTitle(uri)),
            },
        }
    }
}

/// The groups that a OneTab text holds, in the order of the text, or the
/// error of its last line that is refused.
pub open spec fn one_tab_groups(text: Seq<char>) -> Result<Seq<Seq<LinkContent>>, OneTabError> {
    match scan_from(lines_of(text), 0) {
        Ok(scan) => Ok(flush(scan).groups),
        Err(e) => Err(e),
    }
}

/// Once a line is refused, the lines before it do not change the error.
pub proof fn lemma_scan_error_stays(lines: Seq<Seq<char>>, from: int, upto: int)
    requires
        0 <= from <= upto,
        scan_from(lines, upto) is Err,
    ensures
        scan_from(lines, from) == scan_from(lines, upto),
    decreases upto - from,
{
    if from < upto {
        lemma_scan_error_stays(lines, from + 1, upto);
    }
}

/// What [`parse_one_tab`] returns for a text whose groups or error are `parsed`.
pub open spec fn parse_result_matches(
    result: Result<Vec<StorableLinkGroup>, String>,
    parsed: Result<Seq<Seq<LinkContent>>, OneTabError>,
) -> bool {
    match parsed {
        Ok(groups) => result is Ok && storable_groups_view(result->Ok_0@) == groups,
        Err(e) => result is Err && result->Err_0@ == e.message(),
    }
}

/// The message for a line whose URI is no web address.
fn invalid_uri_message(uri: &str) -> (message: String)
    ensures
        message@ == OneTabError::InvalidUri(uri@).message(),
{
    let mut message = "Invalid URI: '".to_owned();
    message.append(uri);
    message.append("'");
    message
}

/// The message for a line without a title.
fn missing_title_message(uri: &str) -> (message: String)
    ensures
        message@ == OneTabError::MissingTitle(uri@).message(),
{
    let mut message = "Missing title for uri: '".to_owned();
    message.append(uri);
    message.append("'");
    message
}

/// Reads the line `chars[start..end]`: the link that it holds, `None` for a
/// separator, or the message of its error.
fn read_line(chars: &Vec<char>, start: usize, end: usize) -> (r: Result<
    Option<StorableLink>,
    String,
>)
    requires
        start <= end <= chars.len(),
    ensures
        match classify(chars@.subrange(start as int, end as int)) {
            OneTabLine::Entry(link) => r is Ok && r->Ok_0 is Some && r->Ok_0->Some_0@ == link,
            OneTabLine::Separator => r is Ok && r->Ok_0 is None,
            OneTabLine::InvalidUri(uri) => r is Err && r->Err_0@ == OneTabError::InvalidUri(
                uri,
            ).message(),
            OneTabLine::MissingTitle(uri) => r is Err && r->Err_0@ == OneTabError::MissingTitle(
                uri,
            ).message(),
        },
{
    let ghost line = chars@.subrange(start as int, end as int);
    let bar = find_first(chars, start, end, '|');
    if bar == end {
        return Ok(None);
    }
    assert(line.take(bar - start) == chars@.subrange(start as int, bar as int));
    assert(line.skip(bar - start + 1) == chars@.subrange(bar + 1, end as int));
    let (uri_start, uri_end) = trim_bounds(chars, start, bar);
    let (title_start, title_end) = trim_bounds(chars, bar + 1, end);
    let uri = string_from(chars, uri_start, uri_end);
    if !(has_prefix(chars, uri_start, uri_end, "https://") || has_prefix(
        chars,
        uri_start,
        uri_end,
        "http://",
    )) {
        return Err(invalid_uri_message(uri.as_str()));
    }
    if title_start == title_end {
        return Err(missing_title_message(uri.as_str()));
    }
    let title = string_from(chars, title_start, title_end);
    let link = StorableLink { uri, title, tags: Vec::new() };
    assert(link@.tags =~= Seq::empty());
    Ok(Some(link))
}

/// Parses a OneTab text into its groups, in the order of the text. A text
/// with a refused line is refused as a whole, with the message of the last
/// such line.
pub fn parse_one_tab(text: &str) -> (result: Result<Vec<StorableLinkGroup>, String>)
    ensures
        parse_result_matches(result, one_tab_groups(text@)),
{
    let chars = chars_of(text);
    let ghost all = lines_of(text@);
    let mut groups: VecDeque<StorableLinkGroup> = VecDeque::new();
    let mut pending: VecDeque<StorableLink> = VecDeque::new();
    let mut end: usize = chars.len();
    let ghost mut k: int = all.len() as int;
    assert(chars@.take(end as int) == text@);
    assert(storable_groups_view(groups@) =~= Seq::empty());
    assert(storable_links_view(pending@) =~= Seq::empty());
    loop
        invariant_except_break
            1 <= k,
            lines_of(chars@.take(end as int)) == all.take(k),
        invariant
            chars@ == text@,
            all == lines_of(text@),
            end <= chars.len(),
            0 <= k <= all.len(),
            scan_from(all, k) == Ok::<Scan, OneTabError>(
                Scan {
                    groups: storable_groups_view(groups@),
                    pending: storable_links_view(pending@),
                },
            ),
        ensures
            scan_from(all, 0) == Ok::<Scan, OneTabError>(
                Scan {
                    groups: storable_groups_view(groups@),
                    pending: storable_links_view(pending@),
                },
            ),
        decreases end,
    {
        let start = find_after_last(&chars, end, '\n');
        proof {
            let head = chars@.take(end as int);
            lemma_last_index_of(head, '\n');
            assert(head.skip(start as int) == chars@.subrange(start as int, end as int));
            assert(all.take(k).last() == all[k - 1]);
            if start > 0 {
                assert(head.take(start - 1) == chars@.take(start - 1));
                assert(lines_of(head).drop_last() == lines_of(head.take(start - 1)));
            }
        }
        match read_line(&chars, start, end) {
            Err(message) => {
                proof {
                    lemma_scan_error_stays(all, 0, k - 1);
                }
                return Err(message);
            },
            Ok(Some(link)) => {
                let ghost before = pending@;
                pending.push_front(link);
                assert(storable_links_view(pending@) =~= seq![link@] + storable_links_view(
                    before,
                ));
            },
            Ok(None) => {
                if pending.len() > 0 {
                    let ghost before = groups@;
                    let group = StorableLinkGroup { links: pending };
                    pending = VecDeque::new();
                    groups.push_front(group);
                    assert(storable_groups_view(groups@) =~= seq![group@] + storable_groups_view(
                        before,
                    ));
                    assert(storable_links_view(pending@) =~= Seq::empty());
                }
            },
        }
        proof {
            k = k - 1;
        }
        if start == 0 {
            break ;
        }
        end = start - 1;
    }
    if pending.len() > 0 {
        let ghost before = groups@;
        let group = StorableLinkGroup { links: pending };
        groups.push_front(group);
        assert(storable_groups_view(groups@) =~= seq![group@] + storable_groups_view(before));
    }
    let ghost content = storable_groups_view(groups@);
    let mut result: Vec<StorableLinkGroup> = Vec::new();
    loop
        invariant
            result.len() + groups.len() == content.len(),
            storable_groups_view(groups@) == content.skip(result.len() as int),
            forall|j: int| 0 <= j < result.len() ==> result@[j]@ == content[j],
        ensures
            result.len() == content.len(),
            forall|j: int| 0 <= j < result.len() ==> result@[j]@ == content[j],
        decreases groups.len(),
    {
        let ghost before = groups@;
        let ghost n = result.len() as int;
        match groups.pop_front() {
            Some(group) => {
                assert(group@ == content[n]) by {
                    assert(storable_groups_view(before)[0] == content.skip(n)[0]);
                }
                assert(storable_groups_view(groups@) =~= content.skip(n + 1)) by {
                    assert forall|j: int| 0 <= j < groups@.len() implies storable_groups_view(
                        groups@,
                    )[j] == content.skip(n + 1)[j] by {
                        assert(storable_groups_view(before)[j + 1] == content.skip(n)[j + 1]);
                    }
                }
                result.push(group);
            },
            None => {
                break ;
            },
        }
    }
    assert(storable_groups_view(result@) =~= content);
    Ok(result)
}

/// Whether a line is refused: it has a bar, and no web URI before it or no
/// title behind it.
pub open spec fn is_refused(line: Seq<char>) -> bool {
    classify(line) is InvalidUri || classify(line) is MissingTitle
}

/// The error of a refused line; it names the URI of the line.
pub open spec fn refusal(line: Seq<char>) -> OneTabError {
    match classify(line) {
        OneTabLine::MissingTitle(uri) => OneTabError::MissingTitle(uri),
        OneTabLine::InvalidUri(uri) => OneTabError::InvalidUri(uri),
        _ => arbitrary(),
    }
}

/// Reading `lines[from..]` fails exactly if one of these lines is refused,
/// and then with the error of the last of them.
pub proof fn lemma_scan_refusal(lines: Seq<Seq<char>>, from: int)
    requires
        0 <= from <= lines.len(),
    ensures
        scan_from(lines, from) is Ok ==> forall|i: int|
            from <= i < lines.len() ==> !is_refused(#[trigger] lines[i]),
        scan_from(lines, from) matches Err(e) ==> exists|i: int|
            from <= i < lines.len() && is_refused(#[trigger] lines[i]) && e == refusal(lines[i])
                && forall|j: int| i < j < lines.len() ==> !is_refused(#[trigger] lines[j]),
    decreases lines.len() - from,
{
    if from < lines.len() {
        lemma_scan_refusal(lines, from + 1);
    }
}

/// A OneTab text is refused exactly if one of its lines is refused: a line
/// with a bar whose URI is no web address, or whose title is empty once
/// trimmed. The error is that of the last such line, and names its URI.
pub proof fn lemma_refused_text(text: Seq<char>)
    ensures
        one_tab_groups(text) is Err <==> exists|i: int|
            0 <= i < lines_of(text).len() && is_refused(#[trigger] lines_of(text)[i]),
        one_tab_groups(text) matches Err(e) ==> exists|i: int|
            0 <= i < lines_of(text).len() && is_refused(#[trigger] lines_of(text)[i]) && e
                == refusal(lines_of(text)[i]) && forall|j: int|
                i < j < lines_of(text).len() ==> !is_refused(#[trigger] lines_of(text)[j]),
{
    lemma_scan_refusal(lines_of(text), 0);
}

/// The contents of the links that `lines[from..]` hold, in the order of the
/// lines.
pub open spec fn entries_from(lines: Seq<Seq<char>>, from: int) -> Seq<LinkContent>
    decreases lines.len() - from,
{
    if from >= lines.len() || from < 0 {
        Seq::empty()
    } else {
        match classify(lines[from]) {
            OneTabLine::Entry(link) => seq![link] + entries_from(lines, from + 1),
            _ => entries_from(lines, from + 1),
        }
    }
}

/// All links of `groups`, group after group.
pub open spec fn all_links(groups: Seq<Seq<LinkContent>>) -> Seq<LinkContent>
    decreases groups.len(),
{
    if groups.len() == 0 {
        Seq::empty()
    } else {
        groups[0] + all_links(groups.skip(1))
    }
}

/// Reading `lines[from..]` loses no link and keeps their order, and closes
/// no group without a link.
pub proof fn lemma_scan_keeps_entries(lines: Seq<Seq<char>>, from: int)
    requires
        0 <= from <= lines.len(),
        scan_from(lines, from) is Ok,
    ensures
        scan_from(lines, from)->Ok_0.pending + all_links(scan_from(lines, from)->Ok_0.groups)
            == entries_from(lines, from),
        forall|g: int|
            0 <= g < scan_from(lines, from)->Ok_0.groups.len() ==> (
            #[trigger] scan_from(lines, from)->Ok_0.groups[g]).len() > 0,
    decreases lines.len() - from,
{
    if from < lines.len() {
        let next = scan_from(lines, from + 1)->Ok_0;
        lemma_scan_keeps_entries(lines, from + 1);
        let now = scan_from(lines, from)->Ok_0;
        match classify(lines[from]) {
            OneTabLine::Entry(link) => {},
            OneTabLine::Separator => {
                if next.pending.len() > 0 {
                    assert(now.groups.skip(1) == next.groups);
                }
            },
            _ => {},
        }
    }
}

/// The groups of an accepted text hold the links of its lines, each once and
/// in the order of the text, and no group is empty.
pub proof fn lemma_groups_hold_the_entries(text: Seq<char>)
    requires
        one_tab_groups(text) is Ok,
    ensures
        all_links(one_tab_groups(text)->Ok_0) == entries_from(lines_of(text), 0),
        forall|g: int|
            0 <= g < one_tab_groups(text)->Ok_0.len() ==> (#[trigger] one_tab_groups(
                text,
            )->Ok_0[g]).len() > 0,
{
    let lines = lines_of(text);
    lemma_scan_keeps_entries(lines, 0);
    let scan = scan_from(lines, 0)->Ok_0;
    let groups = flush(scan).groups;
    if scan.pending.len() > 0 {
        assert(groups.skip(1) == scan.groups);
    }
}

} // verus!
