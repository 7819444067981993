use rofi_files::icon::{IconCatalog, IconTable};

fn bv(s: &str) -> Vec<u8> {
    s.as_bytes().to_vec()
}

fn lines(xs: &[&str]) -> Vec<Vec<u8>> {
    xs.iter().map(|x| bv(x)).collect()
}

fn catalog(specific: &[&str], generic: &[&str]) -> IconCatalog {
    IconCatalog::new(
        IconTable::from_lines(&lines(specific)),
        IconTable::from_lines(&lines(generic)),
    )
}

#[test]
fn parse_splits_on_first_colon_only() {
    let table = IconTable::from_lines(&lines(&["text/plain:text-x-generic"]));
    assert_eq!(table.get(&bv("text/plain")), Some(&bv("text-x-generic")));
}

#[test]
fn parse_value_may_contain_colons() {
    let table = IconTable::from_lines(&lines(&["a:b:c"]));
    assert_eq!(table.get(&bv("a")), Some(&bv("b:c")));
}

#[test]
fn parse_ignores_line_without_colon() {
    let table = IconTable::from_lines(&lines(&["nocolonhere", "x/y:z"]));
    assert_eq!(table.get(&bv("nocolonhere")), None);
    assert_eq!(table.get(&bv("x/y")), Some(&bv("z")));
}

#[test]
fn parse_later_duplicate_key_wins() {
    let table = IconTable::from_lines(&lines(&["k:first", "k:second"]));
    assert_eq!(table.get(&bv("k")), Some(&bv("second")));
}

#[test]
fn parse_keeps_empty_value() {
    let table = IconTable::from_lines(&lines(&["k:"]));
    assert_eq!(table.get(&bv("k")), Some(&bv("")));
}

#[test]
fn empty_table_finds_nothing() {
    let table = IconTable::new();
    assert_eq!(table.get(&bv("text/plain")), None);
}

#[test]
fn resolve_specific_hit() {
    let cat = catalog(&["text/plain:text-x-generic-icon"], &["application/x-foo:foo-icon"]);
    assert_eq!(cat.icon_from_mimetype(&bv("text/plain")), bv("text-x-generic-icon"));
}

#[test]
fn resolve_generic_hit_after_specific_miss() {
    let cat = catalog(&["text/plain:text-x-generic-icon"], &["application/x-foo:foo-icon"]);
    assert_eq!(cat.icon_from_mimetype(&bv("application/x-foo")), bv("foo-icon"));
}

#[test]
fn resolve_synthesizes_generic_name() {
    let cat = catalog(&["text/plain:text-x-generic-icon"], &["application/x-foo:foo-icon"]);
    assert_eq!(cat.icon_from_mimetype(&bv("video/mp4")), bv("video-x-generic"));
}

#[test]
fn resolve_without_slash_is_unknown() {
    let cat = catalog(&["text/plain:text-x-generic-icon"], &["application/x-foo:foo-icon"]);
    assert_eq!(cat.icon_from_mimetype(&bv("noSlashHere")), bv("unknown"));
}

#[test]
fn specific_table_wins_over_generic() {
    let cat = catalog(&["m/t:from-specific"], &["m/t:from-generic"]);
    assert_eq!(cat.icon_from_mimetype(&bv("m/t")), bv("from-specific"));
}
