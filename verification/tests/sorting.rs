use shs_index::entry::{Entry, Timestamp};
use shs_index::order::is_before;
use shs_index::query::{SortDirection, SortField, SortSpec};
use shs_index::ranking::{comes_before, is_earlier};
use shs_index::sorter::sort;

fn file(name: &str, size: u64, secs: i64) -> Entry {
    Entry {
        filename: name.to_string(),
        is_directory: false,
        size_bytes: size,
        size_text: format!("{} B", size),
        modified_at: Timestamp { secs, nanos: 0 },
    }
}

fn directory(name: &str, size: u64, secs: i64) -> Entry {
    Entry {
        filename: name.to_string(),
        is_directory: true,
        size_bytes: size,
        size_text: format!("{} B", size),
        modified_at: Timestamp { secs, nanos: 0 },
    }
}

fn names(entries: &Vec<Entry>) -> Vec<String> {
    entries.iter().map(|e| e.filename.clone()).collect()
}

fn by(field: SortField, direction: SortDirection) -> SortSpec {
    SortSpec { field, direction }
}

fn listing() -> Vec<Entry> {
    vec![
        file("b.txt", 10, 100),
        directory("zoo", 4096, 300),
        file("a.txt", 20, 200),
        directory("img", 9999, 50),
        file("c.txt", 10, 100),
        file("B.txt", 0, 400),
    ]
}

#[test]
fn sorts_by_name() {
    let sorted = sort(listing(), by(SortField::Name, SortDirection::Asc));
    assert_eq!(names(&sorted), vec!["B.txt", "a.txt", "b.txt", "c.txt", "img", "zoo"]);
}

#[test]
fn sorts_by_name_descending_as_the_reverse() {
    let up = sort(listing(), by(SortField::Name, SortDirection::Asc));
    let down = sort(listing(), by(SortField::Name, SortDirection::Desc));
    let mut reversed = names(&up);
    reversed.reverse();
    assert_eq!(names(&down), reversed);
    assert_eq!(names(&down), vec!["zoo", "img", "c.txt", "b.txt", "a.txt", "B.txt"]);
}

#[test]
fn sorts_by_size_with_directories_first() {
    let sorted = sort(listing(), by(SortField::Size, SortDirection::Asc));
    assert_eq!(names(&sorted), vec!["zoo", "img", "B.txt", "b.txt", "c.txt", "a.txt"]);
    let first_file = sorted.iter().position(|e| !e.is_directory).unwrap();
    assert!(sorted.iter().skip(first_file).all(|e| !e.is_directory));
}

#[test]
fn a_large_directory_comes_before_a_small_file() {
    let entries = vec![file("small", 1, 0), directory("large", u64::MAX, 0)];
    let sorted = sort(entries, by(SortField::Size, SortDirection::Asc));
    assert_eq!(names(&sorted), vec!["large", "small"]);
}

#[test]
fn sorts_by_size_descending_as_the_reverse() {
    let sorted = sort(listing(), by(SortField::Size, SortDirection::Desc));
    assert_eq!(names(&sorted), vec!["a.txt", "c.txt", "b.txt", "B.txt", "img", "zoo"]);
}

#[test]
fn sorts_by_modified() {
    let sorted = sort(listing(), by(SortField::Modified, SortDirection::Asc));
    assert_eq!(names(&sorted), vec!["img", "b.txt", "c.txt", "a.txt", "zoo", "B.txt"]);
}

#[test]
fn ties_keep_the_listed_order() {
    let entries = vec![
        file("third", 7, 5),
        file("first", 7, 5),
        file("second", 7, 5),
        file("early", 7, 1),
    ];
    let by_time = sort(entries, by(SortField::Modified, SortDirection::Asc));
    assert_eq!(names(&by_time), vec!["early", "third", "first", "second"]);
    let by_size = sort(by_time, by(SortField::Size, SortDirection::Asc));
    assert_eq!(names(&by_size), vec!["early", "third", "first", "second"]);
    let down = sort(by_size, by(SortField::Size, SortDirection::Desc));
    assert_eq!(names(&down), vec!["second", "first", "third", "early"]);
}

#[test]
fn sorts_times_before_the_epoch() {
    let mut old = file("old", 1, -2);
    old.modified_at = Timestamp { secs: -2, nanos: 900_000_000 };
    let mut older = file("older", 1, -2);
    older.modified_at = Timestamp { secs: -2, nanos: 100_000_000 };
    let sorted = sort(vec![file("new", 1, 0), old, older], by(SortField::Modified, SortDirection::Asc));
    assert_eq!(names(&sorted), vec!["older", "old", "new"]);
}

#[test]
fn sorts_nothing_and_one() {
    let none = sort(Vec::new(), by(SortField::Name, SortDirection::Desc));
    assert!(none.is_empty());
    let one = sort(vec![file("only", 1, 1)], by(SortField::Size, SortDirection::Desc));
    assert_eq!(names(&one), vec!["only"]);
}

#[test]
fn sort_keeps_every_field_of_an_entry() {
    let sorted = sort(listing(), by(SortField::Name, SortDirection::Asc));
    let img = &sorted[4];
    assert_eq!(img.filename, "img");
    assert!(img.is_directory);
    assert_eq!(img.size_bytes, 9999);
    assert_eq!(img.size_text, "9999 B");
    assert_eq!(img.modified_at, Timestamp { secs: 50, nanos: 0 });
}

#[test]
fn names_are_ordered_byte_by_byte() {
    assert!(is_before(b"a", b"b"));
    assert!(is_before(b"", b"a"));
    assert!(is_before(b"a", b"ab"));
    assert!(is_before(b"Z", b"a"));
    assert!(is_before("z".as_bytes(), "\u{e9}".as_bytes()));
    assert!(!is_before(b"a", b"a"));
    assert!(!is_before(b"b", b"a"));
    assert!(!is_before(b"ab", b"a"));
    assert!(!is_before(b"", b""));
}

#[test]
fn earlier_and_later() {
    assert!(is_earlier(&Timestamp { secs: 1, nanos: 0 }, &Timestamp { secs: 1, nanos: 1 }));
    assert!(is_earlier(&Timestamp { secs: -1, nanos: 999_999_999 }, &Timestamp { secs: 0, nanos: 0 }));
    assert!(!is_earlier(&Timestamp { secs: 0, nanos: 0 }, &Timestamp { secs: 0, nanos: 0 }));
    assert!(!is_earlier(&Timestamp { secs: 2, nanos: 0 }, &Timestamp { secs: 1, nanos: 999 }));
    assert!(is_earlier(&Timestamp { secs: i64::MIN, nanos: 0 }, &Timestamp { secs: i64::MAX, nanos: 999_999_999 }));
}

#[test]
fn comes_before_by_each_column() {
    let a = file("a", 5, 10);
    let b = file("b", 3, 20);
    let d = directory("d", 100, 30);
    assert!(comes_before(&a, &b, SortField::Name));
    assert!(!comes_before(&b, &a, SortField::Name));
    assert!(comes_before(&b, &a, SortField::Size));
    assert!(comes_before(&a, &b, SortField::Modified));
    assert!(comes_before(&d, &b, SortField::Size));
    assert!(!comes_before(&b, &d, SortField::Size));
    assert!(!comes_before(&a, &a, SortField::Size));
}

#[test]
fn query_names_the_order() {
    assert_eq!(SortSpec::from_query(Some("name"), Some("asc")), by(SortField::Name, SortDirection::Asc));
    assert_eq!(SortSpec::from_query(Some("modified"), Some("desc")), by(SortField::Modified, SortDirection::Desc));
    assert_eq!(SortSpec::from_query(Some("size"), Some("asc")), by(SortField::Size, SortDirection::Asc));
}

#[test]
fn query_defaults_to_name_ascending() {
    assert_eq!(SortSpec::from_query(None, None), by(SortField::Name, SortDirection::Asc));
    assert_eq!(SortSpec::from_query(Some("colour"), Some("sideways")), by(SortField::Name, SortDirection::Asc));
    assert_eq!(SortSpec::from_query(Some("Size"), Some("DESC")), by(SortField::Name, SortDirection::Asc));
    assert_eq!(SortSpec::from_query(Some(""), Some("")), by(SortField::Name, SortDirection::Asc));
    assert_eq!(SortSpec::from_query(None, Some("desc")), by(SortField::Name, SortDirection::Desc));
    assert_eq!(SortSpec::from_query(Some("size"), None), by(SortField::Size, SortDirection::Asc));
}

#[test]
fn toggle_of_the_active_column_flips() {
    let active = SortSpec::from_query(Some("name"), Some("asc"));
    assert_eq!(active.toggle(SortField::Name), SortDirection::Desc);
    assert_eq!(active.toggle(SortField::Name).to_str(), "desc");
    let down = SortSpec::from_query(Some("name"), Some("desc"));
    assert_eq!(down.toggle(SortField::Name), SortDirection::Asc);
}

#[test]
fn toggle_of_an_inactive_column_is_ascending() {
    for direction in [SortDirection::Asc, SortDirection::Desc] {
        let active = by(SortField::Name, direction);
        assert_eq!(active.toggle(SortField::Modified), SortDirection::Asc);
        assert_eq!(active.toggle(SortField::Size), SortDirection::Asc);
        let other = by(SortField::Size, direction);
        assert_eq!(other.toggle(SortField::Name), SortDirection::Asc);
        assert_eq!(other.toggle(SortField::Modified), SortDirection::Asc);
    }
}

#[test]
fn columns_and_directions_have_names() {
    assert_eq!(SortField::Name.to_str(), "name");
    assert_eq!(SortField::Modified.to_str(), "modified");
    assert_eq!(SortField::Size.to_str(), "size");
    assert_eq!(SortDirection::Asc.to_str(), "asc");
    assert_eq!(SortDirection::Desc.to_str(), "desc");
    assert_eq!(SortField::parse("modified"), SortField::Modified);
    assert_eq!(SortField::parse("size"), SortField::Size);
    assert_eq!(SortField::parse("name"), SortField::Name);
    assert_eq!(SortField::parse("other"), SortField::Name);
    assert_eq!(SortDirection::parse("desc"), SortDirection::Desc);
    assert_eq!(SortDirection::parse("asc"), SortDirection::Asc);
    assert_eq!(SortDirection::parse("other"), SortDirection::Asc);
}

fn many_entries() -> Vec<Entry> {
    let mut seed: u64 = 12345;
    let mut entries = Vec::new();
    for k in 0..500u64 {
        seed = seed.wrapping_mul(6364136223846793005).wrapping_add(1442695040888963407);
        let size = (seed >> 33) % 7;
        let secs = ((seed >> 20) % 5) as i64 - 2;
        let nanos = ((seed >> 10) % 3) as u32 * 400_000_000;
        let name = format!("n{}", (k * 7919) % 500);
        let mut entry = if (seed >> 50) % 3 == 0 {
            directory(&name, size, secs)
        } else {
            file(&name, size, secs)
        };
        entry.modified_at = Timestamp { secs, nanos };
        entries.push(entry);
    }
    entries
}

#[test]
fn sort_agrees_with_the_stable_sort_of_the_standard_library() {
    for field in [SortField::Name, SortField::Modified, SortField::Size] {
        for direction in [SortDirection::Asc, SortDirection::Desc] {
            let mut expected = many_entries();
            expected.sort_by(|a, b| match field {
                SortField::Name => a.filename.cmp(&b.filename),
                SortField::Modified => (a.modified_at.secs, a.modified_at.nanos)
                    .cmp(&(b.modified_at.secs, b.modified_at.nanos)),
                SortField::Size => (!a.is_directory, a.size_bytes).cmp(&(!b.is_directory, b.size_bytes)),
            });
            if direction == SortDirection::Desc {
                expected.reverse();
            }
            let sorted = sort(many_entries(), by(field, direction));
            assert_eq!(names(&sorted), names(&expected));
        }
    }
}

#[test]
fn sort_of_two_and_three() {
    let two = sort(vec![file("b", 1, 1), file("a", 1, 1)], by(SortField::Name, SortDirection::Asc));
    assert_eq!(names(&two), vec!["a", "b"]);
    let three = sort(
        vec![file("c", 3, 1), file("a", 1, 1), file("b", 2, 1)],
        by(SortField::Size, SortDirection::Asc),
    );
    assert_eq!(names(&three), vec!["a", "b", "c"]);
}
