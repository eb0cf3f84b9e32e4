//! The index page as plain data: the rows of the listing, the breadcrumb,
//! the link of the directory and what the column heads link to.

use crate::breadcrumb::{build_breadcrumb, trail, SimpleLink, SimpleLinkView};
use crate::entry::{Entry, EntryView, FileType};
use crate::error::IndexError;
use crate::localtime::{
    all_shown_everywhere, is_date_time_text, is_shown_everywhere, local_date_time,
    shows_date_time,
};
use crate::path::{copy_segments, encode, encode_link_path, link_text};
use crate::query::{toggled, SortDirection, SortField, SortSpec};
use crate::ranking::{in_ascending_order, lemma_sorted_entry_was_listed, stable_sorting};
use crate::sorter::sort;
use vstd::prelude::*;
use vstd::string::*;

verus! {

/// One row of the listing, ready to be shown.
#[derive(Debug)]
pub struct RowItem {
    pub file_type: FileType,
    pub filename: String,
    pub link: String,
    pub link_class: String,
    pub modified: String,
    pub filesize: String,
}

/// A row as contracts see it.
pub struct RowItemView {
    pub file_type: FileType,
    pub filename: Seq<char>,
    pub link: Seq<char>,
    pub link_class: Seq<char>,
    pub modified: Seq<char>,
    pub filesize: Seq<char>,
}

impl View for RowItem {
    type V = RowItemView;

    open spec fn view(&self) -> RowItemView {
        RowItemView {
            file_type: self.file_type,
            filename: self.filename@,
            link: self.link@,
            link_class: self.link_class@,
            modified: self.modified@,
            filesize: self.filesize@,
        }
    }
}

impl DeepView for RowItem {
    type V = RowItemView;

    open spec fn deep_view(&self) -> RowItemView {
        self@
    }
}

/// The name of a kind of row.
pub open spec fn kind_name(file_type: FileType) -> Seq<char> {
    match file_type {
        FileType::Directory => "directory"@,
        FileType::File => "file"@,
    }
}

impl FileType {
    /// The name of the kind: `directory` or `file`.
    pub fn to_str(&self) -> (name: &'static str)
        ensures
            name@ == kind_name(*self),
    {
        match self {
            FileType::Directory => "directory",
            FileType::File => "file",
        }
    }
}

/// The segments of the link to `entry` in the directory with the segments
/// `path_prefix`: those of the directory, then the name of the entry, and
/// for a directory an empty segment behind it, so that its link ends in a
/// slash.
pub open spec fn link_segments(entry: EntryView, path_prefix: Seq<Seq<char>>) -> Seq<Seq<char>> {
    if entry.is_directory {
        path_prefix.push(entry.filename).push(Seq::empty())
    } else {
        path_prefix.push(entry.filename)
    }
}

/// The row that shows `entry` in the listing of the directory with the
/// segments `path_prefix`, its time shown as `modified`. The link leads
/// from the root through the directory to the entry. A directory shows `-`
/// for its size, a file the text of its size.
pub open spec fn row_of(entry: EntryView, path_prefix: Seq<Seq<char>>, modified: Seq<char>) -> RowItemView {
    let file_type = if entry.is_directory {
        FileType::Directory
    } else {
        FileType::File
    };
    RowItemView {
        file_type,
        filename: entry.filename,
        link: link_text(link_segments(entry, path_prefix), false, true),
        link_class: "link-"@ + kind_name(file_type),
        modified,
        filesize: if entry.is_directory {
            "-"@
        } else {
            entry.size_text
        },
    }
}

impl RowItem {
    /// The row for `entry` with the given text for its modification time.
    pub fn from_display(entry: Entry, path_prefix: &Vec<String>, modified: String) -> (row: RowItem)
        ensures
            row@ == row_of(entry@, path_prefix.deep_view(), modified@),
    {
        let ghost shown = entry@;
        let Entry { filename, is_directory, size_bytes: _, size_text, modified_at: _ } = entry;
        let filesize = if is_directory {
            String::from_str("-")
        } else {
            size_text
        };
        let file_type = if is_directory {
            FileType::Directory
        } else {
            FileType::File
        };
        let mut link_parts = copy_segments(path_prefix);
        let ghost before = link_parts.deep_view();
        link_parts.push(filename.clone());
        assert(link_parts.deep_view() =~= before.push(shown.filename));
        if is_directory {
            link_parts.push(String::new());
            assert(link_parts.deep_view() =~= before.push(shown.filename).push(Seq::empty()));
        }
        let link = encode_link_path(&link_parts, true);
        let mut link_class = String::from_str("link-");
        link_class.append(file_type.to_str());
        RowItem { file_type, filename, link, link_class, modified, filesize }
    }

    /// The row for `entry` from what the local calendar says of its
    /// modification time: a row with that text where it is a date and a
    /// time of day, and none where the calendar has no date for it or the
    /// text has another form.
    pub fn with_local_time(entry: Entry, path_prefix: &Vec<String>, local_time: Option<String>) -> (row:
        Option<RowItem>)
        ensures
            row is Some <==> local_time is Some && is_date_time_text(local_time->0@),
            row is Some ==> row->0@ == row_of(entry@, path_prefix.deep_view(), local_time->0@),
    {
        match local_time {
            Some(modified) => {
                if shows_date_time(modified.as_str()) {
                    Some(RowItem::from_display(entry, path_prefix, modified))
                } else {
                    None
                }
            },
            None => None,
        }
    }

    /// The row for `entry`, its modification time shown as date and time of
    /// day in the local time zone, in the form `YYYY-MM-DD HH:MM:SS`. There
    /// is a row for every time that has a year from 1 to 9999 in every time
    /// zone; beyond that there is one where the local time can be shown in
    /// that form, and `None` where it cannot.
    pub fn new(entry: Entry, path_prefix: &Vec<String>) -> (row: Option<RowItem>)
        ensures
            is_shown_everywhere(entry.modified_at) ==> row is Some,
            row is Some ==> is_date_time_text(row->0.modified@) && row->0@ == row_of(
                entry@,
                path_prefix.deep_view(),
                row->0.modified@,
            ),
    {
        let local_time = local_date_time(&entry.modified_at);
        RowItem::with_local_time(entry, path_prefix, local_time)
    }
}

/// A directory shows `-` for its size, whatever the text of its size is.
pub proof fn lemma_directory_shows_dash(
    entry: EntryView,
    path_prefix: Seq<Seq<char>>,
    modified: Seq<char>,
)
    requires
        entry.is_directory,
    ensures
        row_of(entry, path_prefix, modified).filesize == "-"@,
{
}

/// A file shows the text of its size.
pub proof fn lemma_file_shows_size(
    entry: EntryView,
    path_prefix: Seq<Seq<char>>,
    modified: Seq<char>,
)
    requires
        !entry.is_directory,
    ensures
        row_of(entry, path_prefix, modified).filesize == entry.size_text,
{
}

/// Whether `rows` show `entries` one by one, in the same order, each with
/// a date and a time of day for its modification time, whatever they are.
pub open spec fn rows_show(
    rows: Seq<RowItemView>,
    entries: Seq<EntryView>,
    path_prefix: Seq<Seq<char>>,
) -> bool {
    &&& rows.len() == entries.len()
    &&& forall|i: int|
        0 <= i < rows.len() ==> is_date_time_text((#[trigger] rows[i]).modified) && rows[i]
            == row_of(entries[i], path_prefix, rows[i].modified)
}

/// The index page of one directory.
#[derive(Debug)]
pub struct IndexPage {
    pub current_directory: String,
    pub breadcrumb: Vec<SimpleLink>,
    pub rows: Vec<RowItem>,
    pub name_order: SortDirection,
    pub modified_order: SortDirection,
    pub size_order: SortDirection,
}

/// An index page as contracts see it.
pub struct IndexPageView {
    pub current_directory: Seq<char>,
    pub breadcrumb: Seq<SimpleLinkView>,
    pub rows: Seq<RowItemView>,
    pub name_order: SortDirection,
    pub modified_order: SortDirection,
    pub size_order: SortDirection,
}

impl View for IndexPage {
    type V = IndexPageView;

    open spec fn view(&self) -> IndexPageView {
        IndexPageView {
            current_directory: self.current_directory@,
            breadcrumb: self.breadcrumb.deep_view(),
            rows: self.rows.deep_view(),
            name_order: self.name_order,
            modified_order: self.modified_order,
            size_order: self.size_order,
        }
    }
}

/// The page of the directory with these segments that shows `rows`, which
/// are in the order `active`. The link of the directory starts and ends
/// with a slash; that of the root is one slash. The head of each column
/// links to the order that a click on it asks for.
pub open spec fn page_of(segments: Seq<Seq<char>>, rows: Seq<RowItemView>, active: SortSpec) -> IndexPageView {
    IndexPageView {
        current_directory: link_text(segments, true, true),
        breadcrumb: trail(segments),
        rows,
        name_order: toggled(active, SortField::Name),
        modified_order: toggled(active, SortField::Modified),
        size_order: toggled(active, SortField::Size),
    }
}

impl IndexPage {
    /// The page of the directory with these segments around rows that are
    /// made already.
    pub fn assemble(segments: &Vec<String>, rows: Vec<RowItem>, active: SortSpec) -> (page:
        IndexPage)
        ensures
            page@ == page_of(segments.deep_view(), rows.deep_view(), active),
    {
        IndexPage {
            current_directory: encode(segments, true, true),
            breadcrumb: build_breadcrumb(segments),
            rows,
            name_order: active.toggle(SortField::Name),
            modified_order: active.toggle(SortField::Modified),
            size_order: active.toggle(SortField::Size),
        }
    }

    /// The page of the directory with these segments and one row for each
    /// entry, in the order in which the entries come. It fails where the
    /// modification time of an entry cannot be shown as a date and a time
    /// of day, and on nothing else: there is a page where every time has a
    /// year from 1 to 9999 in every time zone, and a directory without
    /// entries has a page without rows.
    pub fn build(segments: &Vec<String>, sorted_entries: Vec<Entry>, active: SortSpec) -> (r:
        Result<IndexPage, IndexError>)
        ensures
            sorted_entries.len() == 0 ==> r is Ok,
            all_shown_everywhere(sorted_entries.deep_view()) ==> r is Ok,
            r is Err ==> r->Err_0 == IndexError::TimeOutOfRange,
            r is Ok ==> r->Ok_0.rows.len() == sorted_entries.len(),
            r is Ok ==> rows_show(
                r->Ok_0@.rows,
                sorted_entries.deep_view(),
                segments.deep_view(),
            ) && r->Ok_0@ == page_of(segments.deep_view(), r->Ok_0@.rows, active),
    {
        let ghost entries = sorted_entries.deep_view();
        let ghost listed = sorted_entries@;
        let ghost prefix = segments.deep_view();
        let mut rows: Vec<RowItem> = Vec::new();
        for entry in it: sorted_entries
            invariant
                it.seq() == listed,
                entries == listed.map_values(|e: Entry| e@),
                entries == sorted_entries.deep_view(),
                prefix == segments.deep_view(),
                rows.len() == it.index(),
                forall|i: int|
                    0 <= i < rows.len() ==> is_date_time_text((#[trigger] rows[i])@.modified)
                        && rows[i]@ == row_of(entries[i], prefix, rows[i]@.modified),
        {
            let ghost shown = entry@;
            match RowItem::new(entry, segments) {
                Some(row) => rows.push(row),
                None => {
                    assert(entries[it.index() as int] == shown);
                    return Err(IndexError::TimeOutOfRange);
                },
            }
        }
        assert(rows_show(rows.deep_view(), entries, prefix));
        Ok(IndexPage::assemble(segments, rows, active))
    }
}

/// The index page of the directory with these segments and entries, the
/// rows in the order that the `sort` and `order` parameters of the request
/// ask for.
pub fn index_page(
    segments: &Vec<String>,
    entries: Vec<Entry>,
    sort_by: Option<&str>,
    order: Option<&str>,
) -> (r: Result<IndexPage, IndexError>)
    ensures
        entries.len() == 0 ==> r is Ok,
        all_shown_everywhere(entries.deep_view()) ==> r is Ok,
        r is Err ==> r->Err_0 == IndexError::TimeOutOfRange,
        r is Ok ==> r->Ok_0.rows.len() == entries.len(),
        r is Ok ==> {
            let active = SortSpec::from_query_spec(sort_by, order);
            let page = r->Ok_0@;
            &&& page == page_of(segments.deep_view(), page.rows, active)
            &&& exists|sorted: Seq<EntryView>|
                #![trigger rows_show(page.rows, sorted, segments.deep_view())]
                stable_sorting(
                    in_ascending_order(sorted, active.direction),
                    entries.deep_view(),
                    active.field,
                ) && rows_show(page.rows, sorted, segments.deep_view())
        },
{
    let active = SortSpec::from_query(sort_by, order);
    let sorted = sort(entries, active);
    proof {
        let listed = entries.deep_view();
        let rows = sorted.deep_view();
        let ascending_rows = in_ascending_order(rows, active.direction);
        if all_shown_everywhere(listed) {
            assert forall|i: int| 0 <= i < rows.len() implies is_shown_everywhere(
                (#[trigger] rows[i]).modified_at,
            ) by {
                let at = if active.direction == SortDirection::Asc {
                    i
                } else {
                    rows.len() - 1 - i
                };
                assert(ascending_rows[at] == rows[i]);
                let j = lemma_sorted_entry_was_listed(ascending_rows, listed, active.field, at);
                assert(is_shown_everywhere(listed[j].modified_at));
            }
        }
    }
    IndexPage::build(segments, sorted, active)
}

} // verus!
