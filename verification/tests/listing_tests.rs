use rofi_files::icon::{IconCatalog, IconTable};
use rofi_files::listing::{
    browse_output, format_entry_line, generate_list, parent_menu_line, visible_entries_sorted,
    DirectoryEntry,
};

fn bv(s: &str) -> Vec<u8> {
    s.as_bytes().to_vec()
}

fn lines(xs: &[&str]) -> Vec<Vec<u8>> {
    xs.iter().map(|x| bv(x)).collect()
}

fn entry(name: &str, is_dir: bool, content_type: &str) -> DirectoryEntry {
    DirectoryEntry {
        name: bv(name),
        name_is_text: true,
        is_dir,
        content_type: bv(content_type),
    }
}

fn empty_catalog() -> IconCatalog {
    IconCatalog::new(IconTable::new(), IconTable::new())
}

#[test]
fn parent_line_exact_bytes() {
    assert_eq!(parent_menu_line(), b"..\x00icon\x1ffolder".to_vec());
}

#[test]
fn empty_directory_lists_only_parent_line() {
    let out = generate_list(&empty_catalog(), Vec::new());
    assert_eq!(out, b"..\x00icon\x1ffolder".to_vec());
}

#[test]
fn listing_always_begins_with_parent_line() {
    let out = generate_list(&empty_catalog(), vec![entry("a", false, "x/y")]);
    assert!(out.starts_with(b"..\x00icon\x1ffolder\n"));
}

#[test]
fn hidden_entry_is_absent() {
    let sorted = visible_entries_sorted(vec![
        entry(".hidden", false, "text/plain"),
        entry("notdot.hidden", false, "text/plain"),
    ]);
    assert_eq!(sorted.len(), 1);
    assert_eq!(sorted[0].name, bv("notdot.hidden"));
}

#[test]
fn undecodable_dot_name_is_kept() {
    let mut e = entry(".odd", false, "text/plain");
    e.name_is_text = false;
    let sorted = visible_entries_sorted(vec![e]);
    assert_eq!(sorted.len(), 1);
    assert_eq!(sorted[0].name, bv(".odd"));
}

#[test]
fn directories_sort_before_files_then_by_name() {
    let sorted = visible_entries_sorted(vec![
        entry("a", false, "text/plain"),
        entry("z", true, "inode/directory"),
        entry("b", true, "inode/directory"),
        entry("c", false, "text/plain"),
    ]);
    let names: Vec<Vec<u8>> = sorted.iter().map(|e| e.name.clone()).collect();
    assert_eq!(names, vec![bv("b"), bv("z"), bv("a"), bv("c")]);
    assert!(sorted[0].is_dir && sorted[1].is_dir);
    assert!(!sorted[2].is_dir && !sorted[3].is_dir);
}

#[test]
fn format_entry_line_exact_bytes() {
    let line = format_entry_line(&bv("a.txt"), &bv("text-x-generic"));
    assert_eq!(line, b"a.txt\x00icon\x1ftext-x-generic".to_vec());
}

#[test]
fn end_to_end_listing_bytes() {
    let cat = IconCatalog::new(
        IconTable::new(),
        IconTable::from_lines(&lines(&[
            "text/plain:text-x-generic",
            "inode/directory:folder",
        ])),
    );
    let out = generate_list(
        &cat,
        vec![
            entry("a.txt", false, "text/plain"),
            entry("b", true, "inode/directory"),
        ],
    );
    assert_eq!(
        out,
        b"..\x00icon\x1ffolder\nb\x00icon\x1ffolder\na.txt\x00icon\x1ftext-x-generic".to_vec()
    );
}

#[test]
fn browse_output_prepends_prompt_line() {
    let out = browse_output(&empty_catalog(), Vec::new());
    assert_eq!(out, b"\x00prompt\x1fFiles\n..\x00icon\x1ffolder".to_vec());
}

#[test]
fn empty_name_is_visible_and_sorts_first() {
    let sorted = visible_entries_sorted(vec![
        entry("a", false, "text/plain"),
        entry("", false, "text/plain"),
    ]);
    assert_eq!(sorted.len(), 2);
    assert_eq!(sorted[0].name, bv(""));
    assert_eq!(sorted[1].name, bv("a"));
}

#[test]
fn same_kind_entries_keep_byte_order() {
    let sorted = visible_entries_sorted(vec![
        entry("b.txt", false, "text/plain"),
        entry("a.txt", false, "text/plain"),
        entry("ab", false, "text/plain"),
    ]);
    let names: Vec<Vec<u8>> = sorted.iter().map(|e| e.name.clone()).collect();
    assert_eq!(names, vec![bv("a.txt"), bv("ab"), bv("b.txt")]);
}
