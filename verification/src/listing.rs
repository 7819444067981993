//! Directory listing: hidden-entry filtering, directories-before-files
//! ordering, and rendering of the launcher's line protocol.
//!
//! One `DirectoryEntry` stands for one immediate child of the cursor
//! directory; the listing is the parent-navigation line followed by one
//! line per visible entry, in sorted order.

use vstd::prelude::*;
use crate::byteseq::{bytes_extend, bytes_le, lex_le, lemma_lex_le_total, lemma_lex_le_trans};
use crate::icon::{IconCatalog, resolve_icon_spec};

verus! {

/// One immediate child of the cursor directory, as handed in by the
/// enumeration: its display name as bytes, whether that name decoded as
/// text, whether it is a directory, and its sniffed content type.
#[derive(Debug)]
pub struct DirectoryEntry {
    pub name: Vec<u8>,
    pub name_is_text: bool,
    pub is_dir: bool,
    pub content_type: Vec<u8>,
}

/// An entry is hidden when its name decoded as text and starts with `.`.
/// A name that did not decode never counts as hidden (fail-open).
pub open spec fn hidden_entry(e: DirectoryEntry) -> bool {
    e.name_is_text && e.name@.len() > 0 && e.name@[0] == 46u8
}

/// Display order: directories before non-directories; within one kind,
/// byte-wise name order.
pub open spec fn entry_le(a: DirectoryEntry, b: DirectoryEntry) -> bool {
    if a.is_dir && !b.is_dir {
        true
    } else if !a.is_dir && b.is_dir {
        false
    } else {
        lex_le(a.name@, b.name@)
    }
}

/// The subsequence of entries that are not hidden, in input order.
pub open spec fn visible_entries(s: Seq<DirectoryEntry>) -> Seq<DirectoryEntry>
    decreases s.len(),
{
    if s.len() == 0 {
        Seq::empty()
    } else {
        let v = visible_entries(s.drop_last());
        if hidden_entry(s.last()) {
            v
        } else {
            v.push(s.last())
        }
    }
}

/// `e` placed before the first element of `s` that `e` sorts at or
/// before.
pub open spec fn insert_sorted(e: DirectoryEntry, s: Seq<DirectoryEntry>) -> Seq<DirectoryEntry>
    decreases s.len(),
{
    if s.len() == 0 {
        seq![e]
    } else if entry_le(e, s[0]) {
        seq![e] + s
    } else {
        seq![s[0]] + insert_sorted(e, s.drop_first())
    }
}

/// Insertion sort of a listing under `entry_le`.
pub open spec fn sort_entries(s: Seq<DirectoryEntry>) -> Seq<DirectoryEntry>
    decreases s.len(),
{
    if s.len() == 0 {
        Seq::empty()
    } else {
        insert_sorted(s.last(), sort_entries(s.drop_last()))
    }
}

/// Every pair of positions is ordered by `entry_le`.
pub open spec fn sorted_entries(s: Seq<DirectoryEntry>) -> bool {
    forall|i: int, j: int| 0 <= i < j < s.len() ==> entry_le(s[i], s[j])
}

/// `entry_le` is total.
pub proof fn lemma_entry_le_total(a: DirectoryEntry, b: DirectoryEntry)
    ensures
        entry_le(a, b) || entry_le(b, a),
{
    lemma_lex_le_total(a.name@, b.name@);
}

/// `entry_le` is transitive.
pub proof fn lemma_entry_le_trans(a: DirectoryEntry, b: DirectoryEntry, c: DirectoryEntry)
    requires
        entry_le(a, b),
        entry_le(b, c),
    ensures
        entry_le(a, c),
{
    if a.is_dir == b.is_dir && b.is_dir == c.is_dir {
        lemma_lex_le_trans(a.name@, b.name@, c.name@);
    }
}

/// Inserting adds exactly one occurrence of `e` and keeps the rest.
proof fn lemma_insert_sorted_multiset(e: DirectoryEntry, s: Seq<DirectoryEntry>)
    ensures
        insert_sorted(e, s).to_multiset() == s.to_multiset().insert(e),
        insert_sorted(e, s).len() == s.len() + 1,
    decreases s.len(),
{
    broadcast use vstd::seq_lib::group_to_multiset_ensures;

    if s.len() == 0 {
        assert(insert_sorted(e, s) =~= s.push(e));
    } else if entry_le(e, s[0]) {
        vstd::seq_lib::lemma_multiset_commutative(seq![e], s);
        vstd::seq_lib::lemma_multiset_commutative(s, seq![e]);
        assert(s + seq![e] =~= s.push(e));
        assert((seq![e] + s).to_multiset() =~= s.to_multiset().insert(e));
    } else {
        let d = s.drop_first();
        lemma_insert_sorted_multiset(e, d);
        let inner = insert_sorted(e, d);
        vstd::seq_lib::lemma_multiset_commutative(seq![s[0]], inner);
        vstd::seq_lib::lemma_multiset_commutative(seq![s[0]], d);
        assert(s =~= seq![s[0]] + d);
        assert(insert_sorted(e, s).to_multiset() =~= s.to_multiset().insert(e));
    }
}

/// Inserting into a sorted listing keeps it sorted.
proof fn lemma_insert_sorted_sorted(e: DirectoryEntry, s: Seq<DirectoryEntry>)
    requires
        sorted_entries(s),
    ensures
        sorted_entries(insert_sorted(e, s)),
    decreases s.len(),
{
    broadcast use vstd::seq_lib::group_to_multiset_ensures;

    let r = insert_sorted(e, s);
    if s.len() == 0 {
    } else if entry_le(e, s[0]) {
        assert forall|i: int, j: int| 0 <= i < j < r.len() implies entry_le(r[i], r[j]) by {
            if i == 0 {
                assert(r[j] == s[j - 1]);
                if j > 1 {
                    assert(entry_le(s[0], s[j - 1]));
                    lemma_entry_le_trans(e, s[0], s[j - 1]);
                }
            } else {
                assert(r[i] == s[i - 1] && r[j] == s[j - 1]);
            }
        }
    } else {
        let d = s.drop_first();
        assert(sorted_entries(d)) by {
            assert forall|i: int, j: int| 0 <= i < j < d.len() implies entry_le(d[i], d[j]) by {
                assert(d[i] == s[i + 1] && d[j] == s[j + 1]);
            }
        }
        lemma_insert_sorted_sorted(e, d);
        lemma_insert_sorted_multiset(e, d);
        let inner = insert_sorted(e, d);
        assert forall|k: int| 0 <= k < inner.len() implies entry_le(s[0], inner[k]) by {
            assert(inner.contains(inner[k]));
            assert(inner.to_multiset().count(inner[k]) > 0);
            if inner[k] == e {
                lemma_entry_le_total(e, s[0]);
            } else {
                assert(d.to_multiset().count(inner[k]) > 0);
                assert(d.contains(inner[k]));
                let m = choose|m: int| 0 <= m < d.len() && d[m] == inner[k];
                assert(entry_le(s[0], s[m + 1]));
            }
        }
        assert forall|i: int, j: int| 0 <= i < j < r.len() implies entry_le(r[i], r[j]) by {
            if i == 0 {
                assert(r[j] == inner[j - 1]);
            } else {
                assert(r[i] == inner[i - 1] && r[j] == inner[j - 1]);
            }
        }
    }
}

/// Sorting yields a sorted permutation of its input.
pub proof fn lemma_sort_entries(s: Seq<DirectoryEntry>)
    ensures
        sorted_entries(sort_entries(s)),
        sort_entries(s).to_multiset() == s.to_multiset(),
        sort_entries(s).len() == s.len(),
    decreases s.len(),
{
    broadcast use vstd::seq_lib::group_to_multiset_ensures;

    if s.len() > 0 {
        let d = s.drop_last();
        lemma_sort_entries(d);
        lemma_insert_sorted_sorted(s.last(), sort_entries(d));
        lemma_insert_sorted_multiset(s.last(), sort_entries(d));
        assert(d.push(s.last()) =~= s);
    }
}

/// Ordering law of the listing: after filtering and sorting, every
/// directory precedes every non-directory; two entries of the same kind
/// stand in byte-wise name order; and the result is a permutation of the
/// visible entries.
pub proof fn lemma_listing_order(entries: Seq<DirectoryEntry>)
    ensures
        sorted_entries(sort_entries(visible_entries(entries))),
        forall|i: int, j: int|
            0 <= i < j < sort_entries(visible_entries(entries)).len()
                && #[trigger] sort_entries(visible_entries(entries))[j].is_dir
                ==> #[trigger] sort_entries(visible_entries(entries))[i].is_dir,
        forall|i: int, j: int|
            0 <= i < j < sort_entries(visible_entries(entries)).len()
                && #[trigger] sort_entries(visible_entries(entries))[i].is_dir
                == #[trigger] sort_entries(visible_entries(entries))[j].is_dir ==> lex_le(
                sort_entries(visible_entries(entries))[i].name@,
                sort_entries(visible_entries(entries))[j].name@,
            ),
        sort_entries(visible_entries(entries)).to_multiset() == visible_entries(
            entries,
        ).to_multiset(),
{
    lemma_sort_entries(visible_entries(entries));
    let v = sort_entries(visible_entries(entries));
    assert forall|i: int, j: int| 0 <= i < j < v.len() && #[trigger] v[j].is_dir implies #[trigger] v[i].is_dir by {
        assert(entry_le(v[i], v[j]));
    }
    assert forall|i: int, j: int|
        0 <= i < j < v.len() && #[trigger] v[i].is_dir == #[trigger] v[j].is_dir implies lex_le(
        v[i].name@,
        v[j].name@,
    ) by {
        assert(entry_le(v[i], v[j]));
    }
}

/// Filtering law of the listing: a value occurs among the visible
/// entries exactly when it occurs in the input and is not hidden.
pub proof fn lemma_hidden_filtering(entries: Seq<DirectoryEntry>, e: DirectoryEntry)
    ensures
        visible_entries(entries).contains(e) <==> entries.contains(e) && !hidden_entry(e),
    decreases entries.len(),
{
    if entries.len() == 0 {
        assert(!visible_entries(entries).contains(e));
        assert(!entries.contains(e));
    } else {
        let d = entries.drop_last();
        let x = entries.last();
        lemma_hidden_filtering(d, e);
        assert(entries.contains(e) <==> d.contains(e) || x == e) by {
            if entries.contains(e) {
                let k = choose|k: int| 0 <= k < entries.len() && entries[k] == e;
                if k < d.len() {
                    assert(d[k] == e);
                }
            }
            if d.contains(e) {
                let k = choose|k: int| 0 <= k < d.len() && d[k] == e;
                assert(entries[k] == e);
            }
            if x == e {
                assert(entries[entries.len() - 1] == e);
            }
        }
        let v = visible_entries(d);
        if !hidden_entry(x) {
            assert(visible_entries(entries) == v.push(x));
            assert(v.push(x).contains(e) <==> v.contains(e) || x == e) by {
                if v.push(x).contains(e) {
                    let k = choose|k: int| 0 <= k < v.push(x).len() && v.push(x)[k] == e;
                    if k < v.len() {
                        assert(v[k] == e);
                    }
                }
                if v.contains(e) {
                    let k = choose|k: int| 0 <= k < v.len() && v[k] == e;
                    assert(v.push(x)[k] == e);
                }
                if x == e {
                    assert(v.push(x)[v.len() as int] == e);
                }
            }
        }
    }
}

/// Compares two entries in display order.
pub fn entry_le_exec(a: &DirectoryEntry, b: &DirectoryEntry) -> (r: bool)
    ensures
        r == entry_le(*a, *b),
{
    if a.is_dir && !b.is_dir {
        true
    } else if !a.is_dir && b.is_dir {
        false
    } else {
        bytes_le(&a.name, &b.name)
    }
}

/// Whether the entry is left out of the listing.
pub fn is_hidden(e: &DirectoryEntry) -> (r: bool)
    ensures
        r == hidden_entry(*e),
{
    e.name_is_text && e.name.len() > 0 && e.name[0] == 46u8
}

/// `insert_sorted` places `e` at the first position whose element `e`
/// sorts at or before.
proof fn lemma_insert_sorted_at(e: DirectoryEntry, s: Seq<DirectoryEntry>, j: int)
    requires
        0 <= j <= s.len(),
        forall|k: int| 0 <= k < j ==> !entry_le(e, s[k]),
        j < s.len() ==> entry_le(e, s[j]),
    ensures
        insert_sorted(e, s) == s.take(j) + seq![e] + s.skip(j),
    decreases j,
{
    if j == 0 {
        if s.len() == 0 {
            assert(insert_sorted(e, s) =~= s.take(0) + seq![e] + s.skip(0));
        } else {
            assert(seq![e] + s =~= s.take(0) + seq![e] + s.skip(0));
        }
    } else {
        let d = s.drop_first();
        assert(forall|k: int| 0 <= k < j - 1 ==> d[k] == s[k + 1] && !entry_le(e, d[k]));
        lemma_insert_sorted_at(e, d, j - 1);
        assert(seq![s[0]] + (d.take(j - 1) + seq![e] + d.skip(j - 1)) =~= s.take(j) + seq![e]
            + s.skip(j));
    }
}

/// The first position in `v` whose element `e` sorts at or before;
/// `v`'s length when there is none.
fn find_insert_pos(v: &Vec<DirectoryEntry>, e: &DirectoryEntry) -> (r: usize)
    ensures
        r <= v@.len(),
        forall|k: int| 0 <= k < r ==> !entry_le(*e, v@[k]),
        r < v@.len() ==> entry_le(*e, v@[r as int]),
{
    let mut j: usize = 0;
    while j < v.len()
        invariant
            j <= v@.len(),
            forall|k: int| 0 <= k < j ==> !entry_le(*e, v@[k]),
        decreases v@.len() - j,
    {
        if entry_le_exec(e, &v[j]) {
            return j;
        }
        j = j + 1;
    }
    j
}

/// Inserts `e` into the sorted vector `out`, keeping it sorted.
fn insert_entry(out: &mut Vec<DirectoryEntry>, e: DirectoryEntry)
    ensures
        final(out)@ == insert_sorted(e, old(out)@),
{
    let j = find_insert_pos(out, &e);
    proof {
        lemma_insert_sorted_at(e, out@, j as int);
    }
    let ghost before = out@;
    out.insert(j, e);
    proof {
        assert(before.insert(j as int, e) =~= before.take(j as int) + seq![e] + before.skip(
            j as int,
        ));
    }
}

/// Filters hidden entries out and sorts the rest for display:
/// directories first, each kind in byte-wise name order.
pub fn visible_entries_sorted(entries: Vec<DirectoryEntry>) -> (r: Vec<DirectoryEntry>)
    ensures
        r@ == sort_entries(visible_entries(entries@)),
{
    let ghost orig = entries@;
    let mut rest = entries;
    let mut out: Vec<DirectoryEntry> = Vec::new();
    let ghost mut i: int = 0;
    while rest.len() > 0
        invariant
            0 <= i,
            i + rest@.len() == orig.len(),
            rest@ == orig.skip(i),
            out@ == sort_entries(visible_entries(orig.take(i))),
        decreases rest@.len(),
    {
        let e = rest.remove(0);
        proof {
            assert(e == orig[i]);
            assert(rest@ =~= orig.skip(i + 1));
            assert(orig.take(i + 1).drop_last() =~= orig.take(i));
            assert(orig.take(i + 1).last() == orig[i]);
        }
        let ghost vis_before = visible_entries(orig.take(i));
        if !is_hidden(&e) {
            insert_entry(&mut out, e);
            proof {
                assert(vis_before.push(e).drop_last() =~= vis_before);
                assert(vis_before.push(e).last() == e);
                assert(sort_entries(vis_before.push(e)) == insert_sorted(
                    e,
                    sort_entries(vis_before),
                ));
            }
        }
        proof {
            i = i + 1;
        }
    }
    proof {
        assert(orig.take(orig.len() as int) =~= orig);
    }
    out
}

/// The bytes between a display name and its icon name on one menu line:
/// NUL, the literal text `icon`, UNIT SEPARATOR.
pub open spec fn icon_separator() -> Seq<u8> {
    seq![0u8, 105u8, 99u8, 111u8, 110u8, 31u8]
}

/// The parent-navigation line: name `..`, icon `folder`.
pub open spec fn parent_line() -> Seq<u8> {
    seq![46u8, 46u8] + icon_separator() + seq![102u8, 111u8, 108u8, 100u8, 101u8, 114u8]
}

/// One menu line for `e`: its name, the separator, its resolved icon.
pub open spec fn entry_line(
    specific: Map<Seq<u8>, Seq<u8>>,
    generic: Map<Seq<u8>, Seq<u8>>,
    e: DirectoryEntry,
) -> Seq<u8> {
    e.name@ + icon_separator() + resolve_icon_spec(specific, generic, e.content_type@)
}

/// The menu lines of `s` in order, each preceded by one newline.
pub open spec fn lines_block(
    specific: Map<Seq<u8>, Seq<u8>>,
    generic: Map<Seq<u8>, Seq<u8>>,
    s: Seq<DirectoryEntry>,
) -> Seq<u8>
    decreases s.len(),
{
    if s.len() == 0 {
        Seq::empty()
    } else {
        lines_block(specific, generic, s.drop_last()) + seq![10u8] + entry_line(
            specific,
            generic,
            s.last(),
        )
    }
}

/// The whole listing for `entries`: the parent-navigation line, then one
/// line per visible entry in display order.
pub open spec fn listing_bytes(
    specific: Map<Seq<u8>, Seq<u8>>,
    generic: Map<Seq<u8>, Seq<u8>>,
    entries: Seq<DirectoryEntry>,
) -> Seq<u8> {
    parent_line() + lines_block(specific, generic, sort_entries(visible_entries(entries)))
}

/// Appends NUL, `icon`, UNIT SEPARATOR to `out`.
fn push_icon_separator(out: &mut Vec<u8>)
    ensures
        final(out)@ == old(out)@ + icon_separator(),
{
    out.push(0u8);
    out.push(105u8);
    out.push(99u8);
    out.push(111u8);
    out.push(110u8);
    out.push(31u8);
    proof {
        assert(out@ =~= old(out)@ + icon_separator());
    }
}

/// Encodes one menu line: `<name>` NUL `icon` UNIT-SEPARATOR `<icon-name>`.
pub fn format_entry_line(name: &Vec<u8>, icon: &Vec<u8>) -> (r: Vec<u8>)
    ensures
        r@ == name@ + icon_separator() + icon@,
{
    let mut out: Vec<u8> = Vec::new();
    bytes_extend(&mut out, name);
    push_icon_separator(&mut out);
    bytes_extend(&mut out, icon);
    proof {
        assert(out@ =~= name@ + icon_separator() + icon@);
    }
    out
}

/// The parent-navigation line as bytes.
pub fn parent_menu_line() -> (r: Vec<u8>)
    ensures
        r@ == parent_line(),
{
    let mut out: Vec<u8> = Vec::new();
    out.push(46u8);
    out.push(46u8);
    push_icon_separator(&mut out);
    out.push(102u8);
    out.push(111u8);
    out.push(108u8);
    out.push(100u8);
    out.push(101u8);
    out.push(114u8);
    proof {
        assert(out@ =~= parent_line());
    }
    out
}

/// Renders the full listing of `entries`: the parent-navigation line,
/// then one line per visible entry, each preceded by a newline, in
/// display order, icons resolved through `catalog`.
pub fn generate_list(catalog: &IconCatalog, entries: Vec<DirectoryEntry>) -> (r: Vec<u8>)
    ensures
        r@ == listing_bytes(catalog.specific@, catalog.generic@, entries@),
{
    let ghost specific = catalog.specific@;
    let ghost generic = catalog.generic@;
    let sorted = visible_entries_sorted(entries);
    let mut out = parent_menu_line();
    let mut i: usize = 0;
    while i < sorted.len()
        invariant
            i <= sorted@.len(),
            specific == catalog.specific@,
            generic == catalog.generic@,
            out@ == parent_line() + lines_block(specific, generic, sorted@.take(i as int)),
        decreases sorted@.len() - i,
    {
        let ghost out_before = out@;
        out.push(10u8);
        let icon = catalog.icon_from_mimetype(&sorted[i].content_type);
        bytes_extend(&mut out, &sorted[i].name);
        push_icon_separator(&mut out);
        bytes_extend(&mut out, &icon);
        proof {
            assert(sorted@.take(i + 1 as int).drop_last() =~= sorted@.take(i as int));
            assert(sorted@.take(i + 1 as int).last() == sorted@[i as int]);
            assert(out@ =~= parent_line() + lines_block(
                specific,
                generic,
                sorted@.take(i + 1 as int),
            ));
        }
        i = i + 1;
    }
    proof {
        assert(sorted@.take(sorted@.len() as int) =~= sorted@);
    }
    out
}

/// The prompt-override line the launcher is sent before a listing:
/// NUL `prompt` UNIT-SEPARATOR `Files`.
pub open spec fn prompt_line() -> Seq<u8> {
    seq![0u8, 112u8, 114u8, 111u8, 109u8, 112u8, 116u8, 31u8, 70u8, 105u8, 108u8, 101u8, 115u8]
}

/// The full text block printed when a directory is listed: the prompt
/// line, a newline, then the listing.
pub fn browse_output(catalog: &IconCatalog, entries: Vec<DirectoryEntry>) -> (r: Vec<u8>)
    ensures
        r@ == prompt_line() + seq![10u8] + listing_bytes(
            catalog.specific@,
            catalog.generic@,
            entries@,
        ),
{
    let mut out: Vec<u8> = Vec::new();
    out.push(0u8);
    out.push(112u8);
    out.push(114u8);
    out.push(111u8);
    out.push(109u8);
    out.push(112u8);
    out.push(116u8);
    out.push(31u8);
    out.push(70u8);
    out.push(105u8);
    out.push(108u8);
    out.push(101u8);
    out.push(115u8);
    out.push(10u8);
    let listing = generate_list(catalog, entries);
    bytes_extend(&mut out, &listing);
    proof {
        assert(out@ =~= prompt_line() + seq![10u8] + listing@);
    }
    out
}

/// A non-empty block of menu lines starts with the newline that precedes
/// its first line.
proof fn lemma_lines_block_first(
    specific: Map<Seq<u8>, Seq<u8>>,
    generic: Map<Seq<u8>, Seq<u8>>,
    s: Seq<DirectoryEntry>,
)
    requires
        s.len() > 0,
    ensures
        lines_block(specific, generic, s).len() > 0,
        lines_block(specific, generic, s)[0] == 10u8,
    decreases s.len(),
{
    let lb = lines_block(specific, generic, s);
    let d = s.drop_last();
    if s.len() == 1 {
        assert(lines_block(specific, generic, d) == Seq::<u8>::empty());
        assert(lb == Seq::<u8>::empty() + seq![10u8] + entry_line(specific, generic, s.last()));
        assert(lb[0] == 10u8);
    } else {
        lemma_lines_block_first(specific, generic, d);
        assert(lb[0] == lines_block(specific, generic, d)[0]);
    }
}

/// Parent-line law: every listing begins with exactly the
/// parent-navigation line — the listing of an empty visible set is that
/// line alone, and otherwise a newline follows it immediately.
pub proof fn lemma_listing_begins_with_parent(
    specific: Map<Seq<u8>, Seq<u8>>,
    generic: Map<Seq<u8>, Seq<u8>>,
    entries: Seq<DirectoryEntry>,
)
    ensures
        listing_bytes(specific, generic, entries).len() >= parent_line().len(),
        listing_bytes(specific, generic, entries).take(parent_line().len() as int)
            == parent_line(),
        visible_entries(entries).len() == 0 ==> listing_bytes(specific, generic, entries)
            == parent_line(),
        visible_entries(entries).len() > 0 ==> listing_bytes(specific, generic, entries)[
            parent_line().len() as int
        ] == 10u8,
{
    let v = sort_entries(visible_entries(entries));
    lemma_sort_entries(visible_entries(entries));
    assert(listing_bytes(specific, generic, entries).take(parent_line().len() as int)
        =~= parent_line());
    if visible_entries(entries).len() == 0 {
        assert(listing_bytes(specific, generic, entries) =~= parent_line());
    } else {
        lemma_lines_block_first(specific, generic, v);
    }
}

} // verus!
