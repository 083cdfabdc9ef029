//! Symbols from `cs2-dumper` JSON output: `offsets.json`, `buttons.json` and
//! `interfaces.json`, each a map from module name to a map from symbol name
//! to value.

use vstd::prelude::*;
use std::collections::BTreeMap;
use vstd::multiset::Multiset;
use crate::seqs::lemma_insert_multiset;
use crate::disasm::SymbolMap;
use crate::text::{chars_lt, chars_of, chars_eq_ignore_ascii_case, eq_ignore_ascii_case, lemma_chars_lt_order, str_lt};

verus! {

broadcast use vstd::laws_cmp::group_laws_cmp;

/// The error type of `serde_json`.
#[verifier::external_type_specification]
#[verifier::external_body]
pub struct ExJsonError(serde_json::Error);

/// A dumper file as plain values: for each module in ascending order of
/// name, its symbols in ascending order of name, with their values.
pub type TableRows = Seq<(Seq<char>, Seq<(Seq<char>, u64)>)>;

/// What `serde_json` reads from a dumper file as a map from module name to a
/// map from symbol name to `u64`, walked in key order; `None` when the bytes
/// are not such a JSON document.
pub uninterp spec fn json_symbol_table(bytes: Seq<u8>) -> Option<TableRows>;

/// Whether a table's module names strictly ascend, and within each module
/// its symbol names strictly ascend.
pub open spec fn keys_ascending(t: TableRows) -> bool {
    &&& forall|i: int, j: int| 0 <= i < j < t.len() ==> chars_lt(#[trigger] t[i].0, #[trigger] t[j].0)
    &&& forall|k: int, i: int, j: int|
        0 <= k < t.len() && 0 <= i < j < t[k].1.len() ==> chars_lt(#[trigger] t[k].1[i].0, #[trigger] t[k].1[j].0)
}

/// Reads a dumper file with `serde_json::from_slice` into a
/// `BTreeMap<String, BTreeMap<String, u64>>` and lists both maps in key
/// order. The contract claims that the list is `json_symbol_table` of the
/// bytes, a function of the bytes alone, that an error comes exactly when
/// that is `None`, and that both levels of keys come strictly ascending, as
/// a `BTreeMap` keyed by `String` holds each key once and walks them in
/// byte order; the JSON grammar itself is not stated.
#[verifier::external_body]
fn parse_symbol_json(bytes: &[u8]) -> (r: Result<Vec<(String, Vec<(String, u64)>)>, serde_json::Error>)
    ensures
        match json_symbol_table(bytes@) {
            Some(t) => r matches Ok(v) && v.deep_view() == t,
            None => r is Err,
        },
        r matches Ok(v) ==> keys_ascending(v.deep_view()),
{
    let map: BTreeMap<String, BTreeMap<String, u64>> = serde_json::from_slice(bytes)?;
    Ok(map.into_iter().map(|(module, values)| (module, values.into_iter().collect())).collect())
}

/// Why loading dumper symbols failed.
#[derive(Debug)]
pub enum SymbolError {
    /// `offsets.json` is not a map from module name to a map from symbol
    /// name to `u64`.
    Parse(serde_json::Error),
}

/// One dumper symbol.
#[derive(Debug, Clone, PartialEq, Eq)]
pub struct LoadedSymbol {
    /// The module the symbol belongs to, such as `client.dll`.
    pub module: String,
    /// The symbol's kind and name, such as `offset:dwEntityList`.
    pub name: String,
    /// The symbol's value.
    pub value: u64,
}

/// A symbol as plain values: module, name, value.
pub type SymbolRow = (Seq<char>, Seq<char>, u64);

impl LoadedSymbol {
    /// The plain-value form of the symbol.
    pub open spec fn row(&self) -> SymbolRow {
        (self.module@, self.name@, self.value)
    }
}

/// The plain-value form of a list of symbols.
pub open spec fn rows_of(v: Seq<LoadedSymbol>) -> Seq<SymbolRow> {
    v.map_values(|s: LoadedSymbol| s.row())
}

/// The characters of an optional string slice.
pub open spec fn opt_chars(f: Option<&str>) -> Option<Seq<char>> {
    match f {
        Some(s) => Some(s@),
        None => None,
    }
}

/// Whether a module passes the filter: every module when there is none,
/// else the modules whose names equal it without regard to ASCII case.
pub open spec fn module_selected(module: Seq<char>, filter: Option<Seq<char>>) -> bool {
    match filter {
        None => true,
        Some(f) => eq_ignore_ascii_case(module, f),
    }
}

/// The symbols of one module of a dumper file of the given kind; each name
/// is the kind, `:` and the symbol's name.
pub open spec fn entry_symbols(kind: Seq<char>, module: Seq<char>, values: Seq<(Seq<char>, u64)>) -> Seq<SymbolRow> {
    values.map_values(|e: (Seq<char>, u64)| (module, kind + seq![':'] + e.0, e.1))
}

/// The symbols of the modules of a dumper file that pass the filter, module
/// by module, in the file's order.
pub open spec fn collect_rows(kind: Seq<char>, table: TableRows, filter: Option<Seq<char>>) -> Seq<SymbolRow>
    decreases table.len(),
{
    if table.len() == 0 {
        seq![]
    } else {
        collect_rows(kind, table.drop_last(), filter) + (if module_selected(table.last().0, filter) {
            entry_symbols(kind, table.last().0, table.last().1)
        } else {
            Seq::<SymbolRow>::empty()
        })
    }
}

/// Appends the symbols of one dumper file to `out`: for each module that
/// passes `module_filter` (compared without regard to ASCII case), each of
/// its symbols, named `kind:name`. `data` is a dumper file's map from module
/// name to a map from symbol name to value, listed in key order, so both
/// levels of names strictly ascend.
pub fn collect_symbol_file(
    out: &mut Vec<LoadedSymbol>,
    kind: &str,
    data: &Vec<(String, Vec<(String, u64)>)>,
    module_filter: Option<&str>,
)
    requires
        keys_ascending(data.deep_view()),
    ensures
        rows_of(final(out)@) == rows_of(old(out)@) + collect_rows(kind@, data.deep_view(), opt_chars(module_filter)),
{
    let ghost table = data.deep_view();
    let ghost filter = opt_chars(module_filter);
    let ghost start = rows_of(out@);
    let filter_chars: Option<Vec<char>> = match module_filter {
        Some(f) => Some(chars_of(f)),
        None => None,
    };
    let n = data.len();
    let mut i: usize = 0;
    while i < n
        invariant
            n == data@.len(),
            table == data.deep_view(),
            filter == opt_chars(module_filter),
            match filter_chars {
                Some(v) => filter == Some(v@),
                None => filter is None,
            },
            i <= n,
            start == rows_of(old(out)@),
            rows_of(out@) == start + collect_rows(kind@, table.subrange(0, i as int), filter),
        decreases n - i,
    {
        let (module, values) = &data[i];
        let ghost entry = table[i as int];
        assert(entry == (module@, values.deep_view()));
        let module_chars = chars_of(module.as_str());
        let selected = match &filter_chars {
            None => true,
            Some(f) => chars_eq_ignore_ascii_case(&module_chars, f),
        };
        let ghost before = rows_of(out@);
        if selected {
            let m = values.len();
            let mut j: usize = 0;
            while j < m
                invariant
                    m == values@.len(),
                    j <= m,
                    entry == (module@, values.deep_view()),
                    rows_of(out@) == before + entry_symbols(kind@, module@, values.deep_view().subrange(0, j as int)),
                decreases m - j,
            {
                let (name, value) = &values[j];
                let mut label = kind.to_owned();
                label.append(":");
                label.append(name.as_str());
                proof {
                    reveal_strlit(":");
                    assert(label@ =~= kind@ + seq![':'] + name@);
                }
                let ghost prev = rows_of(out@);
                out.push(LoadedSymbol { module: module.clone(), name: label, value: *value });
                proof {
                    let vals = values.deep_view();
                    assert(vals[j as int] == (name@, *value));
                    assert(vals.subrange(0, j + 1) =~= vals.subrange(0, j as int).push(vals[j as int]));
                    assert(rows_of(out@) =~= prev.push((module@, kind@ + seq![':'] + name@, *value)));
                    assert(entry_symbols(kind@, module@, vals.subrange(0, j + 1)) =~= entry_symbols(
                        kind@,
                        module@,
                        vals.subrange(0, j as int),
                    ).push((module@, kind@ + seq![':'] + name@, *value)));
                }
                j = j + 1;
            }
            assert(values.deep_view().subrange(0, m as int) =~= values.deep_view());
        }
        proof {
            let next = table.subrange(0, i + 1);
            assert(next.drop_last() =~= table.subrange(0, i as int));
            assert(next.last() == entry);
            assert(module_selected(entry.0, filter) == selected);
            if !selected {
                assert(rows_of(out@) =~= before + Seq::<SymbolRow>::empty());
            }
        }
        i = i + 1;
    }
    assert(table.subrange(0, n as int) =~= table);
}

/// The order of `load_symbols`: by module name, then value, then name.
pub open spec fn symbol_le(x: SymbolRow, y: SymbolRow) -> bool {
    ||| chars_lt(x.0, y.0)
    ||| x.0 == y.0 && x.2 < y.2
    ||| x.0 == y.0 && x.2 == y.2 && !chars_lt(y.1, x.1)
}

/// Whether symbols are in the order of `symbol_le`.
pub open spec fn sorted_rows(r: Seq<SymbolRow>) -> bool {
    forall|i: int, j: int| 0 <= i < j < r.len() ==> symbol_le(#[trigger] r[i], #[trigger] r[j])
}

/// Whether two symbols share both module and name.
pub open spec fn same_key(x: SymbolRow, y: SymbolRow) -> bool {
    x.0 == y.0 && x.1 == y.1
}

/// Whether no two symbols share both module and name.
pub open spec fn distinct_keys(r: Seq<SymbolRow>) -> bool {
    forall|i: int, j: int| 0 <= i < j < r.len() ==> !same_key(#[trigger] r[i], #[trigger] r[j])
}

/// The strict order of `load_symbols`: by module name, then value, then name.
pub open spec fn symbol_lt(x: SymbolRow, y: SymbolRow) -> bool {
    ||| chars_lt(x.0, y.0)
    ||| x.0 == y.0 && x.2 < y.2
    ||| x.0 == y.0 && x.2 == y.2 && chars_lt(x.1, y.1)
}

/// Whether symbols strictly ascend in the order of `symbol_lt`.
pub open spec fn strictly_sorted(r: Seq<SymbolRow>) -> bool {
    forall|i: int, j: int| 0 <= i < j < r.len() ==> symbol_lt(#[trigger] r[i], #[trigger] r[j])
}

/// `symbol_le` is a total order.
pub proof fn lemma_symbol_le_order(x: SymbolRow, y: SymbolRow, z: SymbolRow)
    ensures
        symbol_le(x, x),
        symbol_le(x, y) || symbol_le(y, x),
        symbol_le(x, y) && symbol_le(y, x) ==> x == y,
        symbol_le(x, y) && symbol_le(y, z) ==> symbol_le(x, z),
{
    lemma_chars_lt_order(x.0, y.0, z.0);
    lemma_chars_lt_order(y.0, x.0, z.0);
    lemma_chars_lt_order(x.0, z.0, y.0);
    lemma_chars_lt_order(x.1, y.1, z.1);
    lemma_chars_lt_order(z.1, y.1, x.1);
    lemma_chars_lt_order(y.1, x.1, z.1);
    lemma_chars_lt_order(y.0, z.0, x.0);
    lemma_chars_lt_order(z.1, x.1, y.1);
}

/// Compares two symbols by `symbol_le`.
fn symbol_le_exec(a: &LoadedSymbol, b: &LoadedSymbol) -> (r: bool)
    ensures
        r == symbol_le(a.row(), b.row()),
{
    if str_lt(a.module.as_str(), b.module.as_str()) {
        return true;
    }
    if a.module != b.module {
        return false;
    }
    if a.value != b.value {
        return a.value < b.value;
    }
    !str_lt(b.name.as_str(), a.name.as_str())
}

/// Inserts a symbol into a sorted list after every symbol that is not
/// greater.
fn insert_sorted(out: &mut Vec<LoadedSymbol>, x: LoadedSymbol)
    requires
        sorted_rows(rows_of(old(out)@)),
    ensures
        sorted_rows(rows_of(final(out)@)),
        rows_of(final(out)@).to_multiset() == rows_of(old(out)@).to_multiset().insert(x.row()),
{
    let ghost rows = rows_of(out@);
    let mut lo: usize = 0;
    let mut hi: usize = out.len();
    while lo < hi
        invariant
            rows == rows_of(out@),
            sorted_rows(rows),
            lo <= hi <= rows.len(),
            forall|i: int| 0 <= i < lo ==> symbol_le(#[trigger] rows[i], x.row()),
            forall|i: int| hi <= i < rows.len() ==> !symbol_le(#[trigger] rows[i], x.row()),
        decreases hi - lo,
    {
        let mid = lo + (hi - lo) / 2;
        if symbol_le_exec(&out[mid], &x) {
            assert forall|i: int| 0 <= i < mid + 1 implies symbol_le(#[trigger] rows[i], x.row()) by {
                if i < mid {
                    lemma_symbol_le_order(rows[i], rows[mid as int], x.row());
                }
            }
            lo = mid + 1;
        } else {
            assert forall|i: int| mid <= i < rows.len() implies !symbol_le(#[trigger] rows[i], x.row()) by {
                if i > mid {
                    lemma_symbol_le_order(rows[mid as int], rows[i], x.row());
                }
            }
            hi = mid;
        }
    }
    let ghost xr = x.row();
    out.insert(lo, x);
    proof {
        let p = lo as int;
        assert(rows_of(out@) =~= rows.insert(p, xr));
        lemma_insert_multiset(rows, p, xr);
        let r2 = rows.insert(p, xr);
        assert forall|i: int, j: int| 0 <= i < j < r2.len() implies symbol_le(#[trigger] r2[i], #[trigger] r2[j]) by {
            if j < p {
                assert(r2[i] == rows[i] && r2[j] == rows[j]);
            } else if j == p {
                assert(r2[i] == rows[i]);
            } else if i == p {
                assert(r2[j] == rows[j - 1]);
                lemma_symbol_le_order(rows[j - 1], xr, xr);
            } else if i < p {
                assert(r2[i] == rows[i] && r2[j] == rows[j - 1]);
            } else {
                assert(r2[i] == rows[i - 1] && r2[j] == rows[j - 1]);
            }
        }
    }
}

/// Sorts symbols by `symbol_le`.
fn sort_symbols(v: Vec<LoadedSymbol>) -> (r: Vec<LoadedSymbol>)
    ensures
        sorted_rows(rows_of(r@)),
        rows_of(r@).to_multiset() == rows_of(v@).to_multiset(),
{
    broadcast use vstd::seq_lib::group_to_multiset_ensures, vstd::multiset::group_multiset_axioms;

    let mut rest = v;
    let mut out: Vec<LoadedSymbol> = Vec::new();
    let ghost total = rows_of(rest@).to_multiset();
    assert(rows_of(out@).to_multiset() =~= Multiset::empty());
    while rest.len() > 0
        invariant
            sorted_rows(rows_of(out@)),
            rows_of(out@).to_multiset().add(rows_of(rest@).to_multiset()) == total,
        decreases rest@.len(),
    {
        let ghost before = rest@;
        let ghost out_before = rows_of(out@).to_multiset();
        let x = rest.pop().unwrap();
        proof {
            assert(before =~= rest@.push(x));
            assert(rows_of(before) =~= rows_of(rest@).push(x.row()));
            rows_of(rest@).to_multiset_ensures();
            assert(rows_of(rest@).push(x.row()).to_multiset() =~= rows_of(rest@).to_multiset().insert(x.row()));
        }
        insert_sorted(&mut out, x);
        proof {
            let o = rows_of(out@).to_multiset();
            let r = rows_of(rest@).to_multiset();
            assert(o == out_before.insert(x.row()));
            assert(out_before.add(r.insert(x.row())) == total);
            assert(o.add(r) =~= out_before.add(r.insert(x.row())));
        }
    }
    assert(rows_of(rest@).to_multiset() =~= Multiset::empty());
    assert(rows_of(out@).to_multiset() =~= total);
    out
}

/// Two lists of symbols in `symbol_le` order that hold the same symbols are
/// equal: the order of `load_symbols` leaves no choice.
pub proof fn lemma_sorted_unique(a: Seq<SymbolRow>, b: Seq<SymbolRow>)
    requires
        sorted_rows(a),
        sorted_rows(b),
        a.to_multiset() == b.to_multiset(),
    ensures
        a == b,
    decreases a.len(),
{
    broadcast use vstd::seq_lib::group_to_multiset_ensures, vstd::multiset::group_multiset_axioms;

    assert(a.len() == a.to_multiset().len());
    assert(b.len() == b.to_multiset().len());
    if a.len() == 0 {
        assert(a =~= b);
    } else {
        assert(a.contains(a[0]));
        assert(b.to_multiset().count(a[0]) > 0);
        assert(b.contains(a[0]));
        let j = choose|j: int| 0 <= j < b.len() && b[j] == a[0];
        assert(b.contains(b[0]));
        assert(a.to_multiset().count(b[0]) > 0);
        assert(a.contains(b[0]));
        let k = choose|k: int| 0 <= k < a.len() && a[k] == b[0];
        if j > 0 {
            assert(symbol_le(b[0], b[j]));
        } else {
            lemma_symbol_le_order(b[0], b[0], b[0]);
        }
        if k > 0 {
            assert(symbol_le(a[0], a[k]));
        } else {
            lemma_symbol_le_order(a[0], a[0], a[0]);
        }
        lemma_symbol_le_order(a[0], b[0], b[0]);
        assert(a[0] == b[0]);
        assert(a.remove(0) =~= a.drop_first());
        assert(b.remove(0) =~= b.drop_first());
        assert(a.drop_first().to_multiset() =~= a.to_multiset().remove(a[0]));
        assert(b.drop_first().to_multiset() =~= b.to_multiset().remove(b[0]));
        assert forall|i: int, l: int| 0 <= i < l < a.drop_first().len() implies symbol_le(
            #[trigger] a.drop_first()[i],
            #[trigger] a.drop_first()[l],
        ) by {
            assert(symbol_le(a[i + 1], a[l + 1]));
        }
        assert forall|i: int, l: int| 0 <= i < l < b.drop_first().len() implies symbol_le(
            #[trigger] b.drop_first()[i],
            #[trigger] b.drop_first()[l],
        ) by {
            assert(symbol_le(b[i + 1], b[l + 1]));
        }
        lemma_sorted_unique(a.drop_first(), b.drop_first());
        assert(a =~= seq![a[0]] + a.drop_first());
        assert(b =~= seq![b[0]] + b.drop_first());
    }
}


/// The symbols of `rows` in `symbol_le` order; by `lemma_sorted_unique`
/// there is exactly one such list.
pub open spec fn sorted_form(rows: Seq<SymbolRow>) -> Seq<SymbolRow> {
    choose|s: Seq<SymbolRow>| sorted_rows(s) && s.to_multiset() == rows.to_multiset()
}

/// A sorted list that holds the symbols of `rows` is their sorted form.
pub proof fn lemma_sorted_form(s: Seq<SymbolRow>, rows: Seq<SymbolRow>)
    requires
        sorted_rows(s),
        s.to_multiset() == rows.to_multiset(),
    ensures
        sorted_form(rows) == s,
{
    let c = sorted_form(rows);
    assert(sorted_rows(c) && c.to_multiset() == rows.to_multiset());
    lemma_sorted_unique(c, s);
}

/// The bytes of an optional file.
pub open spec fn opt_bytes(b: Option<&[u8]>) -> Option<Seq<u8>> {
    match b {
        Some(x) => Some(x@),
        None => None,
    }
}

/// The table of an optional dumper file: empty when the file is missing or
/// is not a symbol table.
pub open spec fn optional_table(b: Option<Seq<u8>>) -> TableRows {
    match b {
        Some(x) => match json_symbol_table(x) {
            Some(t) => t,
            None => seq![],
        },
        None => seq![],
    }
}

/// All symbols of the three dumper files, in file order: offsets, buttons,
/// interfaces.
pub open spec fn collected_symbols(
    offsets: TableRows,
    buttons: TableRows,
    interfaces: TableRows,
    filter: Option<Seq<char>>,
) -> Seq<SymbolRow> {
    collect_rows("offset"@, offsets, filter) + collect_rows("button"@, buttons, filter) + collect_rows(
        "interface"@,
        interfaces,
        filter,
    )
}

/// Reads an optional dumper file; an unreadable one counts as empty.
fn read_optional(b: Option<&[u8]>) -> (t: Vec<(String, Vec<(String, u64)>)>)
    ensures
        t.deep_view() == optional_table(opt_bytes(b)),
        keys_ascending(t.deep_view()),
{
    let empty: Vec<(String, Vec<(String, u64)>)> = Vec::new();
    assert(empty.deep_view() =~= Seq::<(Seq<char>, Seq<(Seq<char>, u64)>)>::empty());
    match b {
        Some(x) => match parse_symbol_json(x) {
            Ok(t) => t,
            Err(_) => empty,
        },
        None => empty,
    }
}

/// Loads the symbols of a dumper output: `offsets` is the content of
/// `offsets.json`, `buttons` and `interfaces` those of `buttons.json` and
/// `interfaces.json` when they could be read. Only modules equal to
/// `module_filter` without regard to ASCII case are kept, when it is given.
/// The symbols come sorted by module, then value, then name. Fails when
/// `offsets.json` is not a symbol table; the other two files count as empty
/// then.
pub fn load_symbols(
    offsets: &[u8],
    buttons: Option<&[u8]>,
    interfaces: Option<&[u8]>,
    module_filter: Option<&str>,
) -> (r: Result<Vec<LoadedSymbol>, SymbolError>)
    ensures
        match json_symbol_table(offsets@) {
            None => r matches Err(SymbolError::Parse(_)),
            Some(t) => r matches Ok(v) && rows_of(v@) == sorted_form(
                collected_symbols(
                    t,
                    optional_table(opt_bytes(buttons)),
                    optional_table(opt_bytes(interfaces)),
                    opt_chars(module_filter),
                ),
            ),
        },
        r matches Ok(v) ==> strictly_sorted(rows_of(v@)) && distinct_keys(rows_of(v@)),
{
    let offset_table = match parse_symbol_json(offsets) {
        Ok(t) => t,
        Err(e) => return Err(SymbolError::Parse(e)),
    };
    let button_table = read_optional(buttons);
    let interface_table = read_optional(interfaces);
    let mut symbols: Vec<LoadedSymbol> = Vec::new();
    assert(rows_of(symbols@) =~= Seq::<SymbolRow>::empty());
    collect_symbol_file(&mut symbols, "offset", &offset_table, module_filter);
    collect_symbol_file(&mut symbols, "button", &button_table, module_filter);
    collect_symbol_file(&mut symbols, "interface", &interface_table, module_filter);
    let ghost all = collected_symbols(
        offset_table.deep_view(),
        button_table.deep_view(),
        interface_table.deep_view(),
        opt_chars(module_filter),
    );
    assert(rows_of(symbols@) =~= all);
    let sorted = sort_symbols(symbols);
    proof {
        lemma_sorted_form(rows_of(sorted@), all);
        lemma_collected_distinct(
            offset_table.deep_view(),
            button_table.deep_view(),
            interface_table.deep_view(),
            opt_chars(module_filter),
        );
        lemma_distinct_keys_perm(rows_of(sorted@), all);
        lemma_sorted_distinct_is_strict(rows_of(sorted@));
    }
    Ok(sorted)
}

/// The label of a symbol in a symbol map: module, `!`, name.
pub open spec fn symbol_label(x: SymbolRow) -> Seq<char> {
    x.0 + seq!['!'] + x.1
}

/// The symbol map of a list of symbols: each value maps to the labels of
/// its symbols, in list order.
pub open spec fn symbol_map_of(rows: Seq<SymbolRow>) -> Map<u64, Seq<Seq<char>>>
    decreases rows.len(),
{
    if rows.len() == 0 {
        Map::empty()
    } else {
        let m = symbol_map_of(rows.drop_last());
        let x = rows.last();
        m.insert(
            x.2,
            (if m.contains_key(x.2) {
                m[x.2]
            } else {
                Seq::<Seq<char>>::empty()
            }).push(symbol_label(x)),
        )
    }
}

/// Loads the symbols of a dumper output, as `load_symbols` does with no
/// module filter, and groups their labels (`module!name`) by value, each
/// group in the order of `load_symbols`.
pub fn load_symbol_map(offsets: &[u8], buttons: Option<&[u8]>, interfaces: Option<&[u8]>) -> (r: Result<
    SymbolMap,
    SymbolError,
>)
    ensures
        match json_symbol_table(offsets@) {
            None => r matches Err(SymbolError::Parse(_)),
            Some(t) => r matches Ok(m) && m@ == symbol_map_of(
                sorted_form(
                    collected_symbols(
                        t,
                        optional_table(opt_bytes(buttons)),
                        optional_table(opt_bytes(interfaces)),
                        None,
                    ),
                ),
            ),
        },
{
    let symbols = match load_symbols(offsets, buttons, interfaces, None) {
        Ok(v) => v,
        Err(e) => return Err(e),
    };
    let ghost rows = rows_of(symbols@);
    let mut map = SymbolMap { symbols: BTreeMap::new() };
    assert(map@ =~= symbol_map_of(rows.subrange(0, 0)));
    let n = symbols.len();
    let mut i: usize = 0;
    while i < n
        invariant
            n == symbols@.len(),
            rows == rows_of(symbols@),
            i <= n,
            map@ == symbol_map_of(rows.subrange(0, i as int)),
        decreases n - i,
    {
        let s = &symbols[i];
        let mut label = s.module.clone();
        label.append("!");
        label.append(s.name.as_str());
        proof {
            reveal_strlit("!");
            assert(label@ =~= symbol_label(rows[i as int]));
        }
        let ghost old_syms = map.symbols@;
        let ghost m = map@;
        let mut list = match map.symbols.remove(&s.value) {
            Some(l) => l,
            None => Vec::new(),
        };
        proof {
            if m.contains_key(s.value) {
                assert(list.deep_view() == m[s.value]);
            } else {
                assert(list.deep_view() =~= Seq::<Seq<char>>::empty());
            }
        }
        list.push(label);
        let ghost list_view = list.deep_view();
        proof {
            let prior = if m.contains_key(s.value) {
                m[s.value]
            } else {
                Seq::<Seq<char>>::empty()
            };
            assert(list_view =~= prior.push(symbol_label(rows[i as int])));
        }
        map.symbols.insert(s.value, list);
        proof {
            let next = rows.subrange(0, i + 1);
            assert(next.drop_last() =~= rows.subrange(0, i as int));
            assert(next.last() == rows[i as int]);
            assert(map.symbols@ == old_syms.remove(s.value).insert(s.value, list));
            assert(map@ =~= m.insert(s.value, list_view));
        }
        i = i + 1;
    }
    assert(rows.subrange(0, n as int) =~= rows);
    Ok(map)
}


/// Every list of symbols has a sorted form: a list in `symbol_le` order
/// that holds the same symbols.
pub proof fn lemma_sorted_form_exists(rows: Seq<SymbolRow>)
    ensures
        sorted_rows(sorted_form(rows)),
        sorted_form(rows).to_multiset() == rows.to_multiset(),
{
    let leq = |x: SymbolRow, y: SymbolRow| symbol_le(x, y);
    assert(vstd::relations::total_ordering(leq)) by {
        assert forall|x: SymbolRow| #[trigger] leq(x, x) by {
            lemma_symbol_le_order(x, x, x);
        }
        assert forall|x: SymbolRow, y: SymbolRow| #[trigger] leq(x, y) && #[trigger] leq(y, x) implies x == y by {
            lemma_symbol_le_order(x, y, x);
        }
        assert forall|x: SymbolRow, y: SymbolRow, z: SymbolRow| #[trigger] leq(x, y) && #[trigger] leq(y, z) implies leq(
            x,
            z,
        ) by {
            lemma_symbol_le_order(x, y, z);
        }
        assert forall|x: SymbolRow, y: SymbolRow| #[trigger] leq(x, y) || #[trigger] leq(y, x) by {
            lemma_symbol_le_order(x, y, x);
        }
    }
    rows.lemma_sort_by_ensures(leq);
    let s = rows.sort_by(leq);
    assert forall|i: int, j: int| 0 <= i < j < s.len() implies symbol_le(#[trigger] s[i], #[trigger] s[j]) by {
        assert(leq(s[i], s[j]));
    }
    assert(sorted_rows(s));
}

proof fn lemma_collect_rows_selected(kind: Seq<char>, table: TableRows, filter: Option<Seq<char>>)
    ensures
        forall|i: int|
            0 <= i < collect_rows(kind, table, filter).len() ==> module_selected(
                (#[trigger] collect_rows(kind, table, filter)[i]).0,
                filter,
            ),
    decreases table.len(),
{
    if table.len() > 0 {
        lemma_collect_rows_selected(kind, table.drop_last(), filter);
        let prev = collect_rows(kind, table.drop_last(), filter);
        let e = table.last();
        let tail = if module_selected(e.0, filter) {
            entry_symbols(kind, e.0, e.1)
        } else {
            Seq::<SymbolRow>::empty()
        };
        assert forall|i: int| 0 <= i < (prev + tail).len() implies module_selected(
            (#[trigger] (prev + tail)[i]).0,
            filter,
        ) by {
            if i >= prev.len() {
                assert((prev + tail)[i] == tail[i - prev.len()]);
            }
        }
    }
}

/// Filtering: with a module filter, every symbol that `load_symbols`
/// returns belongs to a module whose name equals the filter without regard
/// to ASCII case.
pub proof fn law_filter_keeps_only_matching_modules(
    offsets: TableRows,
    buttons: TableRows,
    interfaces: TableRows,
    filter: Seq<char>,
    i: int,
)
    requires
        0 <= i < sorted_form(collected_symbols(offsets, buttons, interfaces, Some(filter))).len(),
    ensures
        eq_ignore_ascii_case(
            sorted_form(collected_symbols(offsets, buttons, interfaces, Some(filter)))[i].0,
            filter,
        ),
{
    broadcast use vstd::seq_lib::group_to_multiset_ensures;

    let f = Some(filter);
    let all = collected_symbols(offsets, buttons, interfaces, f);
    let sorted = sorted_form(all);
    lemma_sorted_form_exists(all);
    let x = sorted[i];
    assert(sorted.contains(x));
    assert(sorted.to_multiset().count(x) > 0);
    assert(all.contains(x));
    let j = choose|j: int| 0 <= j < all.len() && all[j] == x;
    let a = collect_rows("offset"@, offsets, f);
    let b = collect_rows("button"@, buttons, f);
    let c = collect_rows("interface"@, interfaces, f);
    lemma_collect_rows_selected("offset"@, offsets, f);
    lemma_collect_rows_selected("button"@, buttons, f);
    lemma_collect_rows_selected("interface"@, interfaces, f);
    assert(all == a + b + c);
    if j < a.len() {
        assert(all[j] == a[j]);
    } else if j < a.len() + b.len() {
        assert(all[j] == b[j - a.len()]);
    } else {
        assert(all[j] == c[j - a.len() - b.len()]);
    }
}

/// Symbol maps: every symbol's label is listed under its value.
pub proof fn law_symbol_map_lists_every_symbol(rows: Seq<SymbolRow>, i: int)
    requires
        0 <= i < rows.len(),
    ensures
        symbol_map_of(rows).contains_key(rows[i].2),
        symbol_map_of(rows)[rows[i].2].contains(symbol_label(rows[i])),
    decreases rows.len(),
{
    let prev = rows.drop_last();
    let m = symbol_map_of(prev);
    let x = rows.last();
    let list = (if m.contains_key(x.2) {
        m[x.2]
    } else {
        Seq::<Seq<char>>::empty()
    }).push(symbol_label(x));
    assert(symbol_map_of(rows) == m.insert(x.2, list));
    if i == rows.len() - 1 {
        assert(list[list.len() - 1] == symbol_label(x));
    } else {
        law_symbol_map_lists_every_symbol(prev, i);
        assert(prev[i] == rows[i]);
        if x.2 == rows[i].2 {
            let w = choose|w: int| 0 <= w < m[x.2].len() && m[x.2][w] == symbol_label(rows[i]);
            assert(list[w] == symbol_label(rows[i]));
        }
    }
}

/// Symbol maps: every address in a symbol map is the value of some symbol.
pub proof fn law_symbol_map_keys_are_values(rows: Seq<SymbolRow>, v: u64) -> (i: int)
    requires
        symbol_map_of(rows).contains_key(v),
    ensures
        0 <= i < rows.len(),
        rows[i].2 == v,
    decreases rows.len(),
{
    let prev = rows.drop_last();
    let x = rows.last();
    if x.2 == v {
        rows.len() - 1
    } else {
        assert(symbol_map_of(prev).contains_key(v));
        let i = law_symbol_map_keys_are_values(prev, v);
        assert(rows[i] == prev[i]);
        i
    }
}


proof fn lemma_entry_symbols_distinct(kind: Seq<char>, module: Seq<char>, values: Seq<(Seq<char>, u64)>)
    requires
        kind.len() > 0,
        forall|i: int, j: int| 0 <= i < j < values.len() ==> chars_lt(#[trigger] values[i].0, #[trigger] values[j].0),
    ensures
        distinct_keys(entry_symbols(kind, module, values)),
        forall|i: int|
            0 <= i < entry_symbols(kind, module, values).len() ==> (#[trigger] entry_symbols(kind, module, values)[i]).0
                == module && entry_symbols(kind, module, values)[i].1.len() > 0 && entry_symbols(
                kind,
                module,
                values,
            )[i].1[0] == kind[0],
{
    let e = entry_symbols(kind, module, values);
    let w: int = kind.len() as int + 1;
    assert forall|i: int, j: int| 0 <= i < j < e.len() implies !same_key(#[trigger] e[i], #[trigger] e[j]) by {
        if e[i].1 == e[j].1 {
            assert(e[i].1.skip(w) =~= values[i].0);
            assert(e[j].1.skip(w) =~= values[j].0);
            lemma_chars_lt_order(values[i].0, values[i].0, values[i].0);
        }
    }
    assert forall|i: int| 0 <= i < e.len() implies (#[trigger] e[i]).0 == module && e[i].1.len() > 0 && e[i].1[0]
        == kind[0] by {
        assert(e[i].1 == kind + seq![':'] + values[i].0);
    }
}

proof fn lemma_collect_rows_distinct(kind: Seq<char>, table: TableRows, filter: Option<Seq<char>>)
    requires
        kind.len() > 0,
        keys_ascending(table),
    ensures
        distinct_keys(collect_rows(kind, table, filter)),
        forall|i: int|
            0 <= i < collect_rows(kind, table, filter).len() ==> {
                let x = #[trigger] collect_rows(kind, table, filter)[i];
                &&& x.1.len() > 0
                &&& x.1[0] == kind[0]
                &&& exists|m: int| 0 <= m < table.len() && #[trigger] table[m].0 == x.0
            },
    decreases table.len(),
{
    if table.len() > 0 {
        let dl = table.drop_last();
        assert forall|k: int, i: int, j: int|
            0 <= k < dl.len() && 0 <= i < j < dl[k].1.len() implies chars_lt(
            #[trigger] dl[k].1[i].0,
            #[trigger] dl[k].1[j].0,
        ) by {
            assert(dl[k] == table[k]);
        }
        assert forall|i: int, j: int| 0 <= i < j < dl.len() implies chars_lt(#[trigger] dl[i].0, #[trigger] dl[j].0) by {
            assert(dl[i] == table[i] && dl[j] == table[j]);
        }
        lemma_collect_rows_distinct(kind, dl, filter);
        let n = table.len() - 1;
        let e = table.last();
        assert(e == table[n]);
        assert forall|i: int, j: int| 0 <= i < j < e.1.len() implies chars_lt(#[trigger] e.1[i].0, #[trigger] e.1[j].0) by {
            assert(table[n].1[i].0 == e.1[i].0);
        }
        lemma_entry_symbols_distinct(kind, e.0, e.1);
        let prev = collect_rows(kind, dl, filter);
        let tail = if module_selected(e.0, filter) {
            entry_symbols(kind, e.0, e.1)
        } else {
            Seq::<SymbolRow>::empty()
        };
        let c = prev + tail;
        assert(collect_rows(kind, table, filter) == c);
        assert forall|i: int| 0 <= i < prev.len() implies (#[trigger] prev[i]).0 != e.0 by {
            let x = prev[i];
            let m = choose|m: int| 0 <= m < dl.len() && #[trigger] dl[m].0 == x.0;
            assert(dl[m] == table[m]);
            assert(chars_lt(table[m].0, table[n].0));
            lemma_chars_lt_order(e.0, e.0, e.0);
        }
        assert forall|i: int, j: int| 0 <= i < j < c.len() implies !same_key(#[trigger] c[i], #[trigger] c[j]) by {
            if j < prev.len() {
                assert(c[i] == prev[i] && c[j] == prev[j]);
            } else if i < prev.len() {
                assert(c[i] == prev[i] && c[j] == tail[j - prev.len()]);
            } else {
                assert(c[i] == tail[i - prev.len()] && c[j] == tail[j - prev.len()]);
            }
        }
        assert forall|i: int| 0 <= i < c.len() implies {
            let x = #[trigger] c[i];
            &&& x.1.len() > 0
            &&& x.1[0] == kind[0]
            &&& exists|m: int| 0 <= m < table.len() && #[trigger] table[m].0 == x.0
        } by {
            if i < prev.len() {
                assert(c[i] == prev[i]);
                let m = choose|m: int| 0 <= m < dl.len() && #[trigger] dl[m].0 == prev[i].0;
                assert(table[m] == dl[m]);
            } else {
                assert(c[i] == tail[i - prev.len()]);
                assert(table[n].0 == c[i].0);
            }
        }
    }
}

proof fn lemma_collected_distinct(
    offsets: TableRows,
    buttons: TableRows,
    interfaces: TableRows,
    filter: Option<Seq<char>>,
)
    requires
        keys_ascending(offsets),
        keys_ascending(buttons),
        keys_ascending(interfaces),
    ensures
        distinct_keys(collected_symbols(offsets, buttons, interfaces, filter)),
{
    reveal_strlit("offset");
    reveal_strlit("button");
    reveal_strlit("interface");
    let a = collect_rows("offset"@, offsets, filter);
    let b = collect_rows("button"@, buttons, filter);
    let c = collect_rows("interface"@, interfaces, filter);
    lemma_collect_rows_distinct("offset"@, offsets, filter);
    lemma_collect_rows_distinct("button"@, buttons, filter);
    lemma_collect_rows_distinct("interface"@, interfaces, filter);
    let all = a + b + c;
    assert(collected_symbols(offsets, buttons, interfaces, filter) == all);
    assert forall|i: int| 0 <= i < all.len() implies (#[trigger] all[i]).1.len() > 0 && (if i < a.len() {
        all[i].1[0] == 'o'
    } else if i < a.len() + b.len() {
        all[i].1[0] == 'b'
    } else {
        all[i].1[0] == 'i'
    }) by {
        if i < a.len() {
            assert(all[i] == a[i]);
        } else if i < a.len() + b.len() {
            assert(all[i] == b[i - a.len()]);
        } else {
            assert(all[i] == c[i - a.len() - b.len()]);
        }
    }
    assert forall|i: int, j: int| 0 <= i < j < all.len() implies !same_key(#[trigger] all[i], #[trigger] all[j]) by {
        if j < a.len() {
            assert(all[i] == a[i] && all[j] == a[j]);
        } else if i >= a.len() && j < a.len() + b.len() {
            assert(all[i] == b[i - a.len()] && all[j] == b[j - a.len()]);
        } else if i >= a.len() + b.len() {
            assert(all[i] == c[i - a.len() - b.len()] && all[j] == c[j - a.len() - b.len()]);
        }
    }
}

/// Two lists that hold the same symbols agree on whether two of them share
/// module and name.
proof fn lemma_distinct_keys_perm(s: Seq<SymbolRow>, t: Seq<SymbolRow>)
    requires
        s.to_multiset() == t.to_multiset(),
        distinct_keys(t),
    ensures
        distinct_keys(s),
    decreases s.len(),
{
    broadcast use vstd::seq_lib::group_to_multiset_ensures, vstd::multiset::group_multiset_axioms;

    if s.len() > 0 {
        let x = s.last();
        let s1 = s.drop_last();
        assert(s =~= s1.push(x));
        assert(s.to_multiset() == s1.to_multiset().insert(x));
        assert(s.contains(x)) by {
            assert(s[s.len() - 1] == x);
        }
        assert(s.to_multiset().count(x) > 0);
        assert(t.to_multiset().count(x) > 0);
        assert(t.contains(x));
        let p = choose|p: int| 0 <= p < t.len() && t[p] == x;
        let t1 = t.remove(p);
        assert(t1.to_multiset() =~= t.to_multiset().remove(x));
        assert(s1.to_multiset() =~= t1.to_multiset());
        assert forall|i: int, j: int| 0 <= i < j < t1.len() implies !same_key(#[trigger] t1[i], #[trigger] t1[j]) by {
            if j < p {
                assert(t1[i] == t[i] && t1[j] == t[j]);
            } else if i < p {
                assert(t1[i] == t[i] && t1[j] == t[j + 1]);
            } else {
                assert(t1[i] == t[i + 1] && t1[j] == t[j + 1]);
            }
        }
        lemma_distinct_keys_perm(s1, t1);
        assert forall|i: int| 0 <= i < s1.len() implies !same_key(#[trigger] s1[i], x) by {
            let y = s1[i];
            assert(s1.contains(y));
            assert(s1.to_multiset().count(y) > 0);
            assert(t1.to_multiset().count(y) > 0);
            assert(t1.contains(y));
            let q = choose|q: int| 0 <= q < t1.len() && t1[q] == y;
            if q < p {
                assert(t[q] == y);
            } else {
                assert(t[q + 1] == y);
            }
        }
        assert forall|i: int, j: int| 0 <= i < j < s.len() implies !same_key(#[trigger] s[i], #[trigger] s[j]) by {
            assert(s[i] == s1[i]);
            if j < s1.len() {
                assert(s[j] == s1[j]);
            }
        }
    }
}

/// A list in `symbol_le` order in which no two symbols share module and
/// name strictly ascends.
proof fn lemma_sorted_distinct_is_strict(r: Seq<SymbolRow>)
    requires
        sorted_rows(r),
        distinct_keys(r),
    ensures
        strictly_sorted(r),
{
    assert forall|i: int, j: int| 0 <= i < j < r.len() implies symbol_lt(#[trigger] r[i], #[trigger] r[j]) by {
        assert(symbol_le(r[i], r[j]));
        assert(!same_key(r[i], r[j]));
        lemma_chars_lt_order(r[i].1, r[j].1, r[i].1);
    }
}

/// The symbols of `rows` whose module passes the filter, in order.
pub open spec fn keep_module(rows: Seq<SymbolRow>, filter: Option<Seq<char>>) -> Seq<SymbolRow>
    decreases rows.len(),
{
    if rows.len() == 0 {
        seq![]
    } else {
        keep_module(rows.drop_last(), filter) + (if module_selected(rows.last().0, filter) {
            seq![rows.last()]
        } else {
            Seq::<SymbolRow>::empty()
        })
    }
}

proof fn lemma_keep_add(a: Seq<SymbolRow>, b: Seq<SymbolRow>, filter: Option<Seq<char>>)
    ensures
        keep_module(a + b, filter) == keep_module(a, filter) + keep_module(b, filter),
    decreases b.len(),
{
    if b.len() == 0 {
        assert(a + b =~= a);
        assert(keep_module(a, filter) + keep_module(b, filter) =~= keep_module(a, filter));
    } else {
        lemma_keep_add(a, b.drop_last(), filter);
        assert((a + b).drop_last() =~= a + b.drop_last());
        assert((a + b).last() == b.last());
    }
}

proof fn lemma_keep_entry(kind: Seq<char>, module: Seq<char>, values: Seq<(Seq<char>, u64)>, filter: Option<Seq<char>>)
    ensures
        keep_module(entry_symbols(kind, module, values), filter) == (if module_selected(module, filter) {
            entry_symbols(kind, module, values)
        } else {
            Seq::<SymbolRow>::empty()
        }),
    decreases values.len(),
{
    let e = entry_symbols(kind, module, values);
    if values.len() == 0 {
        assert(e =~= Seq::<SymbolRow>::empty());
    } else {
        lemma_keep_entry(kind, module, values.drop_last(), filter);
        assert(e.drop_last() =~= entry_symbols(kind, module, values.drop_last()));
        assert(e.last().0 == module);
        if module_selected(module, filter) {
            assert(e =~= e.drop_last() + seq![e.last()]);
        } else {
            assert(Seq::<SymbolRow>::empty() + Seq::<SymbolRow>::empty() =~= Seq::<SymbolRow>::empty());
        }
    }
}

proof fn lemma_collect_keep(kind: Seq<char>, table: TableRows, filter: Option<Seq<char>>)
    ensures
        collect_rows(kind, table, filter) == keep_module(collect_rows(kind, table, None), filter),
    decreases table.len(),
{
    if table.len() == 0 {
        assert(keep_module(collect_rows(kind, table, None), filter) =~= Seq::<SymbolRow>::empty());
    } else {
        let e = table.last();
        lemma_collect_keep(kind, table.drop_last(), filter);
        lemma_keep_entry(kind, e.0, e.1, filter);
        lemma_keep_add(collect_rows(kind, table.drop_last(), None), entry_symbols(kind, e.0, e.1), filter);
    }
}

proof fn lemma_keep_count(s: Seq<SymbolRow>, filter: Option<Seq<char>>, x: SymbolRow)
    ensures
        keep_module(s, filter).to_multiset().count(x) == (if module_selected(x.0, filter) {
            s.to_multiset().count(x)
        } else {
            0
        }),
    decreases s.len(),
{
    broadcast use vstd::seq_lib::group_to_multiset_ensures, vstd::multiset::group_multiset_axioms;

    if s.len() == 0 {
        assert(keep_module(s, filter) =~= Seq::<SymbolRow>::empty());
    } else {
        let dl = s.drop_last();
        let y = s.last();
        lemma_keep_count(dl, filter, x);
        assert(s =~= dl.push(y));
        let k = keep_module(dl, filter);
        if module_selected(y.0, filter) {
            assert(keep_module(s, filter) =~= k.push(y));
        } else {
            assert(keep_module(s, filter) =~= k);
        }
    }
}

proof fn lemma_keep_sorted(s: Seq<SymbolRow>, filter: Option<Seq<char>>)
    requires
        sorted_rows(s),
    ensures
        sorted_rows(keep_module(s, filter)),
        forall|i: int|
            0 <= i < keep_module(s, filter).len() ==> exists|j: int|
                0 <= j < s.len() && s[j] == #[trigger] keep_module(s, filter)[i],
    decreases s.len(),
{
    if s.len() > 0 {
        let dl = s.drop_last();
        let y = s.last();
        assert forall|i: int, j: int| 0 <= i < j < dl.len() implies symbol_le(#[trigger] dl[i], #[trigger] dl[j]) by {
            assert(dl[i] == s[i] && dl[j] == s[j]);
        }
        lemma_keep_sorted(dl, filter);
        let k = keep_module(dl, filter);
        let r = keep_module(s, filter);
        assert forall|i: int| 0 <= i < k.len() implies symbol_le(#[trigger] k[i], y) && exists|j: int|
            0 <= j < s.len() && s[j] == k[i] by {
            let j = choose|j: int| 0 <= j < dl.len() && dl[j] == #[trigger] k[i];
            assert(s[j] == dl[j]);
            assert(symbol_le(s[j], s[s.len() - 1]));
        }
        if module_selected(y.0, filter) {
            assert(r =~= k.push(y));
            assert forall|i: int, j: int| 0 <= i < j < r.len() implies symbol_le(#[trigger] r[i], #[trigger] r[j]) by {
                assert(r[i] == k[i]);
                if j < k.len() {
                    assert(r[j] == k[j]);
                }
            }
            assert forall|i: int| 0 <= i < r.len() implies exists|j: int|
                0 <= j < s.len() && s[j] == #[trigger] r[i] by {
                if i < k.len() {
                    assert(r[i] == k[i]);
                } else {
                    assert(s[s.len() - 1] == r[i]);
                }
            }
        } else {
            assert(r =~= k);
        }
    }
}

/// Filtering: loading with a module filter gives exactly the symbols of the
/// unfiltered load whose module passes the filter, in the same order.
/// (Both loads fail exactly when `offsets.json` is not a symbol table.)
pub proof fn law_filtered_load_is_filtered_full_load(
    offsets: TableRows,
    buttons: TableRows,
    interfaces: TableRows,
    filter: Option<Seq<char>>,
)
    ensures
        sorted_form(collected_symbols(offsets, buttons, interfaces, filter)) == keep_module(
            sorted_form(collected_symbols(offsets, buttons, interfaces, None)),
            filter,
        ),
{
    let a = collect_rows("offset"@, offsets, None);
    let b = collect_rows("button"@, buttons, None);
    let c = collect_rows("interface"@, interfaces, None);
    lemma_collect_keep("offset"@, offsets, filter);
    lemma_collect_keep("button"@, buttons, filter);
    lemma_collect_keep("interface"@, interfaces, filter);
    lemma_keep_add(a, b, filter);
    lemma_keep_add(a + b, c, filter);
    let all_none = collected_symbols(offsets, buttons, interfaces, None);
    let all_f = collected_symbols(offsets, buttons, interfaces, filter);
    assert(all_f == keep_module(all_none, filter));
    lemma_sorted_form_exists(all_none);
    let sorted = sorted_form(all_none);
    lemma_keep_sorted(sorted, filter);
    let kept = keep_module(sorted, filter);
    assert forall|x: SymbolRow| kept.to_multiset().count(x) == all_f.to_multiset().count(x) by {
        lemma_keep_count(sorted, filter, x);
        lemma_keep_count(all_none, filter, x);
    }
    assert(kept.to_multiset() =~= all_f.to_multiset());
    lemma_sorted_form(kept, all_f);
}

} // verus!
