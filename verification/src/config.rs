//! The configuration file: the `insert.column` block of the insert panel, the
//! `search.column` / `search.row` ranges and the `conditionalFormatting`
//! list, each written back into the document with the file's other blocks
//! kept.
use vstd::prelude::*;
use crate::text::{chars_of, dec, push_dec, push_str, string_from};
use crate::search::{configured_range, read_search_entry};
use crate::ui_state::opt_text;

verus! {

/// The insert-column panel's merge ranges and copy options.
#[derive(Clone, Copy, Debug, PartialEq, Eq, Structural)]
pub struct InsertColumnSettings {
    pub col_start: u32,
    pub col_end: u32,
    pub col_group: u32,
    pub row_start: u32,
    pub row_end: u32,
    pub row_group: u32,
    pub copy_formula: bool,
    pub copy_style: bool,
    pub copy_value: bool,
}

/// Zero ranges, formulas copied, styles and values not.
pub open spec fn default_insert() -> InsertColumnSettings {
    InsertColumnSettings {
        col_start: 0,
        col_end: 0,
        col_group: 0,
        row_start: 0,
        row_end: 0,
        row_group: 0,
        copy_formula: true,
        copy_style: false,
        copy_value: false,
    }
}

impl Default for InsertColumnSettings {
    fn default() -> (r: Self)
        ensures
            r == default_insert(),
    {
        InsertColumnSettings {
            col_start: 0,
            col_end: 0,
            col_group: 0,
            row_start: 0,
            row_end: 0,
            row_group: 0,
            copy_formula: true,
            copy_style: false,
            copy_value: false,
        }
    }
}

/// Name for whether `serde_yaml` reads the text as a YAML document.
pub uninterp spec fn yaml_ok(doc: Seq<char>) -> bool;

/// `serde_yaml::from_str::<serde_yaml::Value>(doc)` succeeded. The contract
/// only names the outcome.
#[verifier::external_body]
fn yaml_parses(doc: &str) -> (r: bool)
    ensures
        r == yaml_ok(doc@),
{
    serde_yaml::from_str::<serde_yaml::Value>(doc).is_ok()
}

/// The document a save starts from: the configuration text where it is
/// YAML, else an empty mapping.
pub open spec fn config_or_empty(config: Seq<char>) -> Seq<char> {
    if yaml_ok(config) {
        config
    } else {
        "{}"@
    }
}

pub(crate) fn base_document<'a>(config: &'a str) -> (r: &'a str)
    ensures
        r@ == config_or_empty(config@),
{
    if yaml_parses(config) {
        config
    } else {
        "{}"
    }
}

/// Name for the text that `serde_yaml` writes for the document `doc` once
/// the mapping under its key `outer` (a new one where that key is missing or
/// holds no mapping) has its key `inner` set to the YAML value `block`;
/// nothing where `doc` or `block` is not YAML, or `doc` is no mapping.
pub uninterp spec fn yaml_set_block(
    doc: Seq<char>,
    outer: Seq<char>,
    inner: Seq<char>,
    block: Seq<char>,
) -> Option<Seq<char>>;

/// `serde_yaml::from_str` of `doc` and of `block`, `as_mapping_mut`, `get`
/// and `as_mapping` of the `outer` entry (cloned, empty by default),
/// `Mapping::insert` twice and `serde_yaml::to_string`. The contract only
/// names the outcome: it is a function of the four texts.
#[verifier::external_body]
fn yaml_with_block(doc: &str, outer: &str, inner: &str, block: &str) -> (r: Option<String>)
    ensures
        opt_text(r) == yaml_set_block(doc@, outer@, inner@, block@),
{
    let mut value: serde_yaml::Value = serde_yaml::from_str(doc).ok()?;
    let part: serde_yaml::Value = serde_yaml::from_str(block).ok()?;
    let map = value.as_mapping_mut()?;
    let mut nested = map.get(outer).and_then(serde_yaml::Value::as_mapping).cloned().unwrap_or_default();
    nested.insert(inner.into(), part);
    map.insert(outer.into(), serde_yaml::Value::Mapping(nested));
    serde_yaml::to_string(&value).ok()
}

pub open spec fn pair_views(v: Seq<(String, String)>) -> Seq<(Seq<char>, Seq<char>)> {
    v.map_values(|p: (String, String)| (p.0@, p.1@))
}

/// Name for the text that `serde_yaml` writes for the document `doc` once
/// the mapping under its key `outer` (a new one where that key is missing or
/// holds no mapping) has each key of `pairs` set to its string, in order;
/// nothing where `doc` is not YAML or no mapping.
pub uninterp spec fn yaml_set_strings(
    doc: Seq<char>,
    outer: Seq<char>,
    pairs: Seq<(Seq<char>, Seq<char>)>,
) -> Option<Seq<char>>;

/// `serde_yaml::from_str`, `as_mapping_mut`, `get` and `as_mapping` of the
/// `outer` entry (cloned, empty by default), `Mapping::extend` with the
/// pairs as strings, `Mapping::insert` and `serde_yaml::to_string`. The
/// contract only names the outcome: it is a function of its arguments.
#[verifier::external_body]
fn yaml_with_strings(doc: &str, outer: &str, pairs: &Vec<(String, String)>) -> (r: Option<String>)
    ensures
        opt_text(r) == yaml_set_strings(doc@, outer@, pair_views(pairs@)),
{
    let mut value: serde_yaml::Value = serde_yaml::from_str(doc).ok()?;
    let map = value.as_mapping_mut()?;
    let mut nested = map.get(outer).and_then(serde_yaml::Value::as_mapping).cloned().unwrap_or_default();
    nested.extend(pairs.iter().map(|(k, v)| (k.as_str().into(), v.as_str().into())));
    map.insert(outer.into(), serde_yaml::Value::Mapping(nested));
    serde_yaml::to_string(&value).ok()
}

pub open spec fn entry_views(v: Seq<(String, String, String, String)>) -> Seq<
    (Seq<char>, Seq<char>, Seq<char>, Seq<char>),
> {
    v.map_values(|e: (String, String, String, String)| (e.0@, e.1@, e.2@, e.3@))
}

/// Name for the text that `serde_yaml` writes for the document `doc` once
/// its key `conditionalFormatting` holds one mapping per entry, with the
/// keys `operator`, `value`, `color` and `range` set to the entry's four
/// strings (a document that is no mapping is written as it was); nothing
/// where `doc` is not YAML.
pub uninterp spec fn yaml_set_cond_formatting(
    doc: Seq<char>,
    entries: Seq<(Seq<char>, Seq<char>, Seq<char>, Seq<char>)>,
) -> Option<Seq<char>>;

/// `serde_yaml::from_str`, one `Mapping` per entry, `as_mapping_mut` and
/// `Mapping::insert` of the sequence, then `serde_yaml::to_string`. The
/// contract only names the outcome: it is a function of its arguments.
#[verifier::external_body]
pub(crate) fn yaml_with_cond_formatting(doc: &str, entries: &Vec<(String, String, String, String)>) -> (r:
    Option<String>)
    ensures
        opt_text(r) == yaml_set_cond_formatting(doc@, entry_views(entries@)),
{
    let mut value: serde_yaml::Value = serde_yaml::from_str(doc).ok()?;
    let seq: Vec<serde_yaml::Value> = entries.iter().map(|(o, v, c, g)| {
        serde_yaml::Value::Mapping([("operator", o), ("value", v), ("color", c), ("range", g)]
            .into_iter().map(|(k, x)| (k.into(), x.as_str().into())).collect())
    }).collect();
    if let Some(map) = value.as_mapping_mut() {
        map.insert("conditionalFormatting".into(), serde_yaml::Value::Sequence(seq));
    }
    serde_yaml::to_string(&value).ok()
}

pub open spec fn string_views(v: Seq<String>) -> Seq<Seq<char>> {
    v.map_values(|s: String| s@)
}

/// Name for what `serde_yaml` reads under `outer.inner` of a YAML document:
/// for each key, the unsigned integer there where there is one; nothing
/// where the text is not YAML or has no `outer.inner` entry.
pub uninterp spec fn yaml_nested_numbers(
    doc: Seq<char>,
    outer: Seq<char>,
    inner: Seq<char>,
    keys: Seq<Seq<char>>,
) -> Option<Seq<Option<u64>>>;

/// `serde_yaml::from_str`, `get(outer)`, `get(inner)`, then for each key
/// `get(key)` and `as_u64`. The contract names the outcome and states that
/// one answer comes per key.
#[verifier::external_body]
fn read_nested_numbers(doc: &str, outer: &str, inner: &str, keys: &Vec<String>) -> (r: Option<
    Vec<Option<u64>>,
>)
    ensures
        match r {
            Some(v) => yaml_nested_numbers(doc@, outer@, inner@, string_views(keys@)) == Some(v@)
                && v@.len() == keys@.len(),
            None => yaml_nested_numbers(doc@, outer@, inner@, string_views(keys@)) is None,
        },
{
    let value: serde_yaml::Value = serde_yaml::from_str(doc).ok()?;
    let block = value.get(outer)?.get(inner)?;
    Some(keys.iter().map(|k| block.get(k.as_str()).and_then(serde_yaml::Value::as_u64)).collect())
}

/// Name for what `serde_yaml` reads under `outer.inner` of a YAML document:
/// for each key, the boolean there where there is one; nothing where the
/// text is not YAML or has no `outer.inner` entry.
pub uninterp spec fn yaml_nested_flags(
    doc: Seq<char>,
    outer: Seq<char>,
    inner: Seq<char>,
    keys: Seq<Seq<char>>,
) -> Option<Seq<Option<bool>>>;

/// `serde_yaml::from_str`, `get(outer)`, `get(inner)`, then for each key
/// `get(key)` and `as_bool`. The contract names the outcome and states that
/// one answer comes per key.
#[verifier::external_body]
fn read_nested_flags(doc: &str, outer: &str, inner: &str, keys: &Vec<String>) -> (r: Option<
    Vec<Option<bool>>,
>)
    ensures
        match r {
            Some(v) => yaml_nested_flags(doc@, outer@, inner@, string_views(keys@)) == Some(v@)
                && v@.len() == keys@.len(),
            None => yaml_nested_flags(doc@, outer@, inner@, string_views(keys@)) is None,
        },
{
    let value: serde_yaml::Value = serde_yaml::from_str(doc).ok()?;
    let block = value.get(outer)?.get(inner)?;
    Some(keys.iter().map(|k| block.get(k.as_str()).and_then(serde_yaml::Value::as_bool)).collect())
}

/// One `key: value` line of a YAML mapping.
pub open spec fn yaml_line(key: Seq<char>, value: Seq<char>) -> Seq<char> {
    key + seq![':', ' '] + value + seq!['\n']
}

pub open spec fn bool_text(b: bool) -> Seq<char> {
    if b {
        "true"@
    } else {
        "false"@
    }
}

/// The `insert.column` block for the settings, one line per key.
pub open spec fn insert_block(s: InsertColumnSettings) -> Seq<char> {
    yaml_line("col_start"@, dec(s.col_start as nat)) + yaml_line("col_end"@, dec(s.col_end as nat))
        + yaml_line("col_group"@, dec(s.col_group as nat)) + yaml_line(
        "row_start"@,
        dec(s.row_start as nat),
    ) + yaml_line("row_end"@, dec(s.row_end as nat)) + yaml_line("row_group"@, dec(s.row_group as nat))
        + yaml_line("copy_formula"@, bool_text(s.copy_formula)) + yaml_line(
        "copy_style"@,
        bool_text(s.copy_style),
    ) + yaml_line("copy_value"@, bool_text(s.copy_value))
}

fn push_line(out: &mut Vec<char>, key: &str, value: &[char])
    ensures
        final(out)@ == old(out)@ + yaml_line(key@, value@),
{
    push_str(out, key);
    out.push(':');
    out.push(' ');
    let mut i: usize = 0;
    let ghost start = out@;
    while i < value.len()
        invariant
            i <= value@.len(),
            out@ == start + value@.take(i as int),
        decreases value@.len() - i,
    {
        out.push(value[i]);
        i += 1;
        assert(out@ =~= start + value@.take(i as int));
    }
    assert(value@.take(i as int) =~= value@);
    out.push('\n');
    assert(final(out)@ =~= old(out)@ + yaml_line(key@, value@)) by {
        assert(out@ =~= old(out)@ + yaml_line(key@, value@));
    }
}

fn number_line(out: &mut Vec<char>, key: &str, n: u32)
    ensures
        final(out)@ == old(out)@ + yaml_line(key@, dec(n as nat)),
{
    let mut d: Vec<char> = Vec::new();
    push_dec(&mut d, n as u64);
    assert(d@ =~= dec(n as nat));
    push_line(out, key, d.as_slice());
}

fn flag_line(out: &mut Vec<char>, key: &str, b: bool)
    ensures
        final(out)@ == old(out)@ + yaml_line(key@, bool_text(b)),
{
    let t = if b {
        "true"
    } else {
        "false"
    };
    let d = chars_of(t);
    push_line(out, key, d.as_slice());
}

/// The `insert.column` block text for the settings.
pub fn insert_block_text(s: &InsertColumnSettings) -> (r: String)
    ensures
        r@ == insert_block(*s),
{
    let mut out: Vec<char> = Vec::new();
    number_line(&mut out, "col_start", s.col_start);
    number_line(&mut out, "col_end", s.col_end);
    number_line(&mut out, "col_group", s.col_group);
    number_line(&mut out, "row_start", s.row_start);
    number_line(&mut out, "row_end", s.row_end);
    number_line(&mut out, "row_group", s.row_group);
    flag_line(&mut out, "copy_formula", s.copy_formula);
    flag_line(&mut out, "copy_style", s.copy_style);
    flag_line(&mut out, "copy_value", s.copy_value);
    assert(out@ =~= insert_block(*s));
    string_from(out.as_slice())
}

/// The configuration text with its `insert.column` block set to the
/// settings and every other block kept: `None` where the document is no
/// mapping (or `serde_yaml` fails). Text that is not YAML counts as an
/// empty document.
pub fn insert_column_config_text(config: &str, s: &InsertColumnSettings) -> (r: Option<String>)
    ensures
        opt_text(r) == yaml_set_block(config_or_empty(config@), "insert"@, "column"@, insert_block(*s)),
{
    let base = base_document(config);
    let block = insert_block_text(s);
    yaml_with_block(base, "insert", "column", block.as_str())
}

/// The configuration text with `search.column` and `search.row` set to the
/// two ranges, in that order, and every other block kept: `None` where the
/// document is no mapping (or `serde_yaml` fails). Text that is not YAML
/// counts as an empty document.
pub fn search_config_text(config: &str, column: &str, row: &str) -> (r: Option<String>)
    ensures
        opt_text(r) == yaml_set_strings(
            config_or_empty(config@),
            "search"@,
            seq![("column"@, column@), ("row"@, row@)],
        ),
{
    let base = base_document(config);
    let mut pairs: Vec<(String, String)> = Vec::new();
    pairs.push((owned("column"), owned(column)));
    pairs.push((owned("row"), owned(row)));
    assert(pair_views(pairs@) =~= seq![("column"@, column@), ("row"@, row@)]);
    yaml_with_strings(base, "search", &pairs)
}

fn owned(s: &str) -> (r: String)
    ensures
        r@ == s@,
{
    let v = chars_of(s);
    string_from(v.as_slice())
}

/// The keys of the six merge numbers, in order.
pub open spec fn number_keys() -> Seq<Seq<char>> {
    seq!["col_start"@, "col_end"@, "col_group"@, "row_start"@, "row_end"@, "row_group"@]
}

/// The keys of the three copy options, in order.
pub open spec fn flag_keys() -> Seq<Seq<char>> {
    seq!["copy_formula"@, "copy_style"@, "copy_value"@]
}

fn number_key_list() -> (r: Vec<String>)
    ensures
        string_views(r@) == number_keys(),
{
    let mut r: Vec<String> = Vec::new();
    r.push(owned("col_start"));
    r.push(owned("col_end"));
    r.push(owned("col_group"));
    r.push(owned("row_start"));
    r.push(owned("row_end"));
    r.push(owned("row_group"));
    assert(string_views(r@) =~= number_keys());
    r
}

fn flag_key_list() -> (r: Vec<String>)
    ensures
        string_views(r@) == flag_keys(),
{
    let mut r: Vec<String> = Vec::new();
    r.push(owned("copy_formula"));
    r.push(owned("copy_style"));
    r.push(owned("copy_value"));
    assert(string_views(r@) =~= flag_keys());
    r
}

/// The `i`-th answer, where there is one.
pub open spec fn answer_at<T>(o: Option<Seq<Option<T>>>, i: int) -> Option<T> {
    match o {
        Some(v) => if 0 <= i < v.len() {
            v[i]
        } else {
            None
        },
        None => None,
    }
}

/// A number read from the file, cut to 32 bits, else the default.
pub open spec fn number_or(o: Option<u64>, d: u32) -> u32 {
    match o {
        Some(n) => n as u32,
        None => d,
    }
}

pub open spec fn flag_or(o: Option<bool>, d: bool) -> bool {
    match o {
        Some(b) => b,
        None => d,
    }
}

/// The settings that the configuration text gives: the defaults where it has
/// no `insert.column` block, else each key's value where it has one of the
/// right kind, and that key's default otherwise.
pub open spec fn loaded_insert(config: Seq<char>) -> InsertColumnSettings {
    let ns = yaml_nested_numbers(config, "insert"@, "column"@, number_keys());
    let fs = yaml_nested_flags(config, "insert"@, "column"@, flag_keys());
    let d = default_insert();
    if ns is None {
        d
    } else {
        InsertColumnSettings {
            col_start: number_or(answer_at(ns, 0), d.col_start),
            col_end: number_or(answer_at(ns, 1), d.col_end),
            col_group: number_or(answer_at(ns, 2), d.col_group),
            row_start: number_or(answer_at(ns, 3), d.row_start),
            row_end: number_or(answer_at(ns, 4), d.row_end),
            row_group: number_or(answer_at(ns, 5), d.row_group),
            copy_formula: flag_or(answer_at(fs, 0), d.copy_formula),
            copy_style: flag_or(answer_at(fs, 1), d.copy_style),
            copy_value: flag_or(answer_at(fs, 2), d.copy_value),
        }
    }
}

fn pick_number(v: &Vec<Option<u64>>, i: usize, d: u32) -> (r: u32)
    ensures
        r == number_or(answer_at(Some(v@), i as int), d),
{
    if i < v.len() {
        match v[i] {
            Some(n) => n as u32,
            None => d,
        }
    } else {
        d
    }
}

fn pick_flag(v: &Option<Vec<Option<bool>>>, i: usize, d: bool) -> (r: bool)
    ensures
        r == flag_or(
            answer_at(
                match v {
                    Some(w) => Some(w@),
                    None => None,
                },
                i as int,
            ),
            d,
        ),
{
    match v {
        Some(w) => if i < w.len() {
            match w[i] {
                Some(b) => b,
                None => d,
            }
        } else {
            d
        },
        None => d,
    }
}

/// The insert-panel settings stored in the configuration text.
pub fn load_insert_column(config: &str) -> (r: InsertColumnSettings)
    ensures
        r == loaded_insert(config@),
{
    let d = InsertColumnSettings::default();
    let nkeys = number_key_list();
    let fkeys = flag_key_list();
    let ns = read_nested_numbers(config, "insert", "column", &nkeys);
    let fs = read_nested_flags(config, "insert", "column", &fkeys);
    match ns {
        None => d,
        Some(v) => InsertColumnSettings {
            col_start: pick_number(&v, 0, d.col_start),
            col_end: pick_number(&v, 1, d.col_end),
            col_group: pick_number(&v, 2, d.col_group),
            row_start: pick_number(&v, 3, d.row_start),
            row_end: pick_number(&v, 4, d.row_end),
            row_group: pick_number(&v, 5, d.row_group),
            copy_formula: pick_flag(&fs, 0, d.copy_formula),
            copy_style: pick_flag(&fs, 1, d.copy_style),
            copy_value: pick_flag(&fs, 2, d.copy_value),
        },
    }
}

/// The column and row ranges stored under `search`, each empty where there
/// is none.
pub fn load_search_inputs(config: &str) -> (r: (String, String))
    ensures
        r.0@ == configured_range(config@, "column"@),
        r.1@ == configured_range(config@, "row"@),
{
    let column = match read_search_entry(config, "column") {
        Some(v) => v,
        None => String::new(),
    };
    let row = match read_search_entry(config, "row") {
        Some(v) => v,
        None => String::new(),
    };
    (column, row)
}

} // verus!
