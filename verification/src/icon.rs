//! Icon catalog: two content-type → icon-name tables (a specific one and
//! a generic fallback one), parsed from `key:value` lines, plus the
//! fallback chain that resolves a content type to a display icon name.

use vstd::prelude::*;
use crate::byteseq::{bytes_clone, bytes_eq, bytes_range};

verus! {

/// Index of the first occurrence of `b` in `s` at or after position `i`;
/// `s.len()` when there is none.
pub open spec fn find_from(s: Seq<u8>, b: u8, i: int) -> int
    recommends
        0 <= i <= s.len(),
    decreases s.len() - i,
{
    if i < 0 || i >= s.len() {
        s.len() as int
    } else if s[i] == b {
        i
    } else {
        find_from(s, b, i + 1)
    }
}

/// Index of the first occurrence of `b` in `v`, or `v.len()` when absent.
pub fn find_byte(v: &Vec<u8>, b: u8) -> (r: usize)
    ensures
        r as int == find_from(v@, b, 0),
        r <= v@.len(),
{
    let mut i: usize = 0;
    while i < v.len()
        invariant
            i <= v@.len(),
            find_from(v@, b, 0) == find_from(v@, b, i as int),
        decreases v@.len() - i,
    {
        if v[i] == b {
            return i;
        }
        i = i + 1;
    }
    i
}

/// The mapping a sequence of `(key, value)` pairs builds up when read in
/// order, a later pair with the same key replacing the earlier one.
pub open spec fn table_map(pairs: Seq<(Vec<u8>, Vec<u8>)>) -> Map<Seq<u8>, Seq<u8>>
    decreases pairs.len(),
{
    if pairs.len() == 0 {
        Map::empty()
    } else {
        table_map(pairs.drop_last()).insert(pairs.last().0@, pairs.last().1@)
    }
}

/// The mapping described by a sequence of `key:value` lines: each line is
/// split at its first colon; a line without a colon contributes nothing.
pub open spec fn parse_table_spec(lines: Seq<Vec<u8>>) -> Map<Seq<u8>, Seq<u8>>
    decreases lines.len(),
{
    if lines.len() == 0 {
        Map::empty()
    } else {
        let m = parse_table_spec(lines.drop_last());
        let line = lines.last()@;
        let j = find_from(line, 58u8, 0);
        if j < line.len() {
            m.insert(line.take(j), line.skip(j + 1))
        } else {
            m
        }
    }
}

/// One content-type → icon-name table. Lookups see the mapping in which a
/// later line with the same key has replaced an earlier one, as `view`
/// states.
pub struct IconTable {
    pairs: Vec<(Vec<u8>, Vec<u8>)>,
}

impl View for IconTable {
    type V = Map<Seq<u8>, Seq<u8>>;

    closed spec fn view(&self) -> Map<Seq<u8>, Seq<u8>> {
        table_map(self.pairs@)
    }
}

/// If position `i` holds the last pair whose key is `k`, the table maps
/// `k` to that pair's value.
proof fn lemma_table_map_match(pairs: Seq<(Vec<u8>, Vec<u8>)>, k: Seq<u8>, i: int)
    requires
        0 <= i < pairs.len(),
        pairs[i].0@ == k,
        forall|j: int| i < j < pairs.len() ==> pairs[j].0@ != k,
    ensures
        table_map(pairs).contains_key(k),
        table_map(pairs)[k] == pairs[i].1@,
    decreases pairs.len(),
{
    if i < pairs.len() - 1 {
        assert(pairs.last().0@ != k);
        lemma_table_map_match(pairs.drop_last(), k, i);
    }
}

/// A key no pair holds is absent from the table.
proof fn lemma_table_map_absent(pairs: Seq<(Vec<u8>, Vec<u8>)>, k: Seq<u8>)
    requires
        forall|j: int| 0 <= j < pairs.len() ==> pairs[j].0@ != k,
    ensures
        !table_map(pairs).contains_key(k),
    decreases pairs.len(),
{
    if pairs.len() > 0 {
        lemma_table_map_absent(pairs.drop_last(), k);
    }
}

impl IconTable {
    /// An empty table.
    pub fn new() -> (r: IconTable)
        ensures
            r@ == Map::<Seq<u8>, Seq<u8>>::empty(),
    {
        IconTable { pairs: Vec::new() }
    }

    /// Builds the table a sequence of `key:value` lines describes: each
    /// line is split at its first colon (the value may itself contain
    /// colons); a line without a colon is ignored; a later line with the
    /// same key replaces an earlier one.
    pub fn from_lines(lines: &Vec<Vec<u8>>) -> (r: IconTable)
        ensures
            r@ == parse_table_spec(lines@),
    {
        let mut table = IconTable { pairs: Vec::new() };
        let mut i: usize = 0;
        while i < lines.len()
            invariant
                i <= lines@.len(),
                table@ == parse_table_spec(lines@.take(i as int)),
            decreases lines@.len() - i,
        {
            let line = &lines[i];
            let j = find_byte(line, 58u8);
            proof {
                assert(lines@.take(i + 1 as int).drop_last() =~= lines@.take(i as int));
                assert(lines@.take(i + 1 as int).last() == lines@[i as int]);
            }
            if j < line.len() {
                let key = bytes_range(line, 0, j);
                let value = bytes_range(line, j + 1, line.len());
                let ghost before = table.pairs@;
                table.pairs.push((key, value));
                proof {
                    assert(table.pairs@.drop_last() =~= before);
                    assert(key@ =~= line@.take(j as int));
                    assert(value@ =~= line@.skip(j + 1 as int));
                }
            }
            i = i + 1;
        }
        proof {
            assert(lines@.take(lines@.len() as int) =~= lines@);
        }
        table
    }

    /// Looks `key` up in the table.
    pub fn get<'a>(&'a self, key: &Vec<u8>) -> (r: Option<&'a Vec<u8>>)
        ensures
            match r {
                Some(v) => self@.contains_key(key@) && v@ == self@[key@],
                None => !self@.contains_key(key@),
            },
    {
        let mut i: usize = self.pairs.len();
        while i > 0
            invariant
                i <= self.pairs@.len(),
                forall|j: int| i <= j < self.pairs@.len() ==> self.pairs@[j].0@ != key@,
            decreases i,
        {
            i = i - 1;
            if bytes_eq(&self.pairs[i].0, key) {
                proof {
                    lemma_table_map_match(self.pairs@, key@, i as int);
                }
                return Some(&self.pairs[i].1);
            }
        }
        proof {
            lemma_table_map_absent(self.pairs@, key@);
        }
        None
    }
}

/// The suffix appended to a top-level content type when an icon name has
/// to be synthesized: `-x-generic`.
pub open spec fn x_generic_suffix() -> Seq<u8> {
    seq![45u8, 120u8, 45u8, 103u8, 101u8, 110u8, 101u8, 114u8, 105u8, 99u8]
}

/// The literal last-resort icon name: `unknown`.
pub open spec fn unknown_icon() -> Seq<u8> {
    seq![117u8, 110u8, 107u8, 110u8, 111u8, 119u8, 110u8]
}

/// The icon name the fallback chain yields for `mime`: the specific
/// table's entry; else the generic table's entry; else, when `mime`
/// contains a `/`, its top-level type with `-x-generic` appended; else
/// the literal `unknown`.
pub open spec fn resolve_icon_spec(
    specific: Map<Seq<u8>, Seq<u8>>,
    generic: Map<Seq<u8>, Seq<u8>>,
    mime: Seq<u8>,
) -> Seq<u8> {
    if specific.contains_key(mime) {
        specific[mime]
    } else if generic.contains_key(mime) {
        generic[mime]
    } else {
        let slash = find_from(mime, 47u8, 0);
        if slash < mime.len() {
            mime.take(slash) + x_generic_suffix()
        } else {
            unknown_icon()
        }
    }
}

/// The two icon tables, built once at startup and read-only afterwards.
pub struct IconCatalog {
    pub specific: IconTable,
    pub generic: IconTable,
}

impl IconCatalog {
    /// Pairs a specific table with its generic fallback table.
    pub fn new(specific: IconTable, generic: IconTable) -> (r: IconCatalog)
        ensures
            r.specific@ == specific@,
            r.generic@ == generic@,
    {
        IconCatalog { specific, generic }
    }

    /// Resolves a content type to a display icon name through the
    /// fallback chain: specific table, generic table, synthesized
    /// `<top-level-type>-x-generic`, literal `unknown`.
    pub fn icon_from_mimetype(&self, mime: &Vec<u8>) -> (r: Vec<u8>)
        ensures
            r@ == resolve_icon_spec(self.specific@, self.generic@, mime@),
    {
        if let Some(v) = self.specific.get(mime) {
            return bytes_clone(v);
        }
        if let Some(v) = self.generic.get(mime) {
            return bytes_clone(v);
        }
        let slash = find_byte(mime, 47u8);
        if slash < mime.len() {
            let mut out = bytes_range(mime, 0, slash);
            out.push(45u8);
            out.push(120u8);
            out.push(45u8);
            out.push(103u8);
            out.push(101u8);
            out.push(110u8);
            out.push(101u8);
            out.push(114u8);
            out.push(105u8);
            out.push(99u8);
            proof {
                assert(mime@.subrange(0, slash as int) =~= mime@.take(slash as int));
                assert(out@ =~= mime@.take(slash as int) + x_generic_suffix());
            }
            out
        } else {
            let mut out: Vec<u8> = Vec::new();
            out.push(117u8);
            out.push(110u8);
            out.push(107u8);
            out.push(110u8);
            out.push(111u8);
            out.push(119u8);
            out.push(110u8);
            proof {
                assert(out@ =~= unknown_icon());
            }
            out
        }
    }
}

} // verus!
