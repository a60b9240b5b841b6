//! The state behind the help, settings and conditional-format windows, and
//! the conditional-format rules kept in the configuration file.

use vstd::prelude::*;
use crate::text::{chars_of, slice_to_vec, string_clone, string_from};
use crate::config::{
    base_document, config_or_empty, entry_views, yaml_set_cond_formatting, yaml_with_cond_formatting,
};

verus! {

/// Whether the help window shows.
#[derive(Debug, Clone)]
pub struct HelpPopupState {
    pub visible: bool,
}

impl Default for HelpPopupState {
    fn default() -> (r: Self)
        ensures
            !r.visible,
    {
        HelpPopupState { visible: false }
    }
}

/// The pages of the settings panel.
#[derive(Debug, Clone, Copy, PartialEq, Eq, Structural)]
pub enum SettingsPage {
    ColumnConfig,
    RowConfig,
}

/// The tabs of the search window.
#[derive(Debug, Clone, Copy, PartialEq, Eq, Structural)]
pub enum SearchPage {
    ColumnFilter,
    RowFilter,
}

/// A conditional-format rule: cells of `range` whose value meets
/// `operator value` are shown in `color` (`#rrggbb`).
#[derive(Debug, Clone)]
pub struct UserCondFormatRule {
    pub operator: String,
    pub value: String,
    pub color: String,
    pub range: String,
}

/// What a rule is: operator, value, color and range.
pub type RuleView = (Seq<char>, Seq<char>, Seq<char>, Seq<char>);

impl View for UserCondFormatRule {
    type V = RuleView;

    open spec fn view(&self) -> RuleView {
        (self.operator@, self.value@, self.color@, self.range@)
    }
}

fn empty_string() -> (s: String)
    ensures
        s@ == Seq::<char>::empty(),
{
    let v: Vec<char> = Vec::new();
    string_from(v.as_slice())
}

impl Default for UserCondFormatRule {
    fn default() -> (r: Self)
        ensures
            r@ == (Seq::<char>::empty(), Seq::<char>::empty(), Seq::<char>::empty(), Seq::<char>::empty()),
    {
        UserCondFormatRule {
            operator: empty_string(),
            value: empty_string(),
            color: empty_string(),
            range: empty_string(),
        }
    }
}

/// The views of a list of rules.
pub open spec fn rule_views(v: Seq<UserCondFormatRule>) -> Seq<RuleView> {
    v.map_values(|r: UserCondFormatRule| r@)
}

/// The conditional-format window: whether it shows, the rules, and whether
/// the rules changed since they were last applied to the table.
#[derive(Debug, Clone)]
pub struct CondFormatPopupState {
    pub visible: bool,
    pub rules: Vec<UserCondFormatRule>,
    pub needs_reapply: bool,
}

impl Default for CondFormatPopupState {
    fn default() -> (r: Self)
        ensures
            !r.visible,
            r.rules@.len() == 0,
            !r.needs_reapply,
    {
        CondFormatPopupState { visible: false, rules: Vec::new(), needs_reapply: false }
    }
}

/// What an entry of `conditionalFormatting` holds: its `operator`, `value`,
/// `color` and `range` strings, each where present.
pub type YamlItemView = (Option<Seq<char>>, Option<Seq<char>>, Option<Seq<char>>, Option<Seq<char>>);

/// A YAML entry read as plain strings.
pub type YamlItem = (Option<String>, Option<String>, Option<String>, Option<String>);

pub open spec fn opt_text(o: Option<String>) -> Option<Seq<char>> {
    match o {
        Some(s) => Some(s@),
        None => None,
    }
}

pub open spec fn item_view(i: YamlItem) -> YamlItemView {
    (opt_text(i.0), opt_text(i.1), opt_text(i.2), opt_text(i.3))
}

/// Name for what `serde_yaml` reads at `conditionalFormatting` of a YAML
/// document: the entries of the sequence there (each entry's four strings
/// where present), or nothing when the text is not YAML or holds no
/// sequence at that place.
pub uninterp spec fn yaml_cond_items(doc: Seq<char>) -> Option<Seq<YamlItemView>>;

/// `serde_yaml::from_str::<Value>`, then `get("conditionalFormatting")`,
/// `as_sequence`, and for each entry `get(field)` and `as_str` of the four
/// fields. The contract only names the outcome: it is a function of the
/// document.
#[verifier::external_body]
fn read_cond_items(doc: &str) -> (r: Option<Vec<YamlItem>>)
    ensures
        match r {
            Some(v) => yaml_cond_items(doc@) == Some(v@.map_values(|i: YamlItem| item_view(i))),
            None => yaml_cond_items(doc@) is None,
        },
{
    let value: serde_yaml::Value = serde_yaml::from_str(doc).ok()?;
    let seq = value.get("conditionalFormatting")?.as_sequence()?;
    let text = |item: &serde_yaml::Value, k: &str| item.get(k).and_then(|v| v.as_str()).map(String::from);
    Some(
        seq.iter().map(
            |it| (text(it, "operator"), text(it, "value"), text(it, "color"), text(it, "range")),
        ).collect(),
    )
}

/// What a save writes for each rule: operator, value, color without its
/// leading `#`s, and range.
pub open spec fn saved_entries(rules: Seq<UserCondFormatRule>) -> Seq<(Seq<char>, Seq<char>, Seq<char>, Seq<char>)> {
    rules.map_values(|q: UserCondFormatRule| (q.operator@, q.value@, without_hash(q.color@), q.range@))
}

/// The color with a leading `#` (added when missing).
pub open spec fn with_hash(c: Seq<char>) -> Seq<char> {
    if c.len() > 0 && c[0] == '#' {
        c
    } else {
        seq!['#'] + c
    }
}

/// The rules of the entries that hold all four strings, in order.
pub open spec fn rules_of_items(items: Seq<YamlItemView>) -> Seq<RuleView>
    decreases items.len(),
{
    if items.len() == 0 {
        Seq::empty()
    } else {
        let i = items.last();
        rules_of_items(items.drop_last()) + if i.0 is Some && i.1 is Some && i.2 is Some && i.3 is Some {
            seq![(i.0->0, i.1->0, with_hash(i.2->0), i.3->0)]
        } else {
            Seq::empty()
        }
    }
}

/// The rules a configuration document holds (none when it holds no list).
pub open spec fn loaded_rules(doc: Seq<char>) -> Seq<RuleView> {
    match yaml_cond_items(doc) {
        Some(items) => rules_of_items(items),
        None => Seq::empty(),
    }
}

/// `c` with a leading `#`.
fn hash_prefixed(c: &String) -> (r: String)
    ensures
        r@ == with_hash(c@),
{
    let v = chars_of(c.as_str());
    if v.len() > 0 && v[0] == '#' {
        string_clone(c)
    } else {
        let mut w: Vec<char> = Vec::new();
        w.push('#');
        let mut i: usize = 0;
        while i < v.len()
            invariant
                i <= v@.len(),
                w@ == seq!['#'] + v@.take(i as int),
            decreases v@.len() - i,
        {
            w.push(v[i]);
            i += 1;
            assert(w@ =~= seq!['#'] + v@.take(i as int));
        }
        assert(v@.take(v@.len() as int) =~= v@);
        string_from(w.as_slice())
    }
}

/// `c` without its leading `#`s (`trim_start_matches('#')`).
pub open spec fn without_hash(c: Seq<char>) -> Seq<char>
    decreases c.len(),
{
    if c.len() > 0 && c[0] == '#' {
        without_hash(c.drop_first())
    } else {
        c
    }
}

impl CondFormatPopupState {
    /// The window state for the rules of a configuration document: every
    /// entry of `conditionalFormatting` with an operator, a value, a color and
    /// a range, the color given a leading `#` where it has none; hidden, and
    /// nothing to reapply.
    pub fn load_from_yaml(doc: &str) -> (r: Self)
        ensures
            rule_views(r.rules@) == loaded_rules(doc@),
            !r.visible,
            !r.needs_reapply,
    {
        let mut rules: Vec<UserCondFormatRule> = Vec::new();
        match read_cond_items(doc) {
            None => {
                assert(rule_views(rules@) =~= loaded_rules(doc@));
            },
            Some(items) => {
                let ghost iv = items@.map_values(|i: YamlItem| item_view(i));
                let mut k: usize = 0;
                assert(iv.take(0) =~= Seq::<YamlItemView>::empty());
                while k < items.len()
                    invariant
                        iv == items@.map_values(|i: YamlItem| item_view(i)),
                        k <= items@.len(),
                        rule_views(rules@) == rules_of_items(iv.take(k as int)),
                    decreases items@.len() - k,
                {
                    let it = &items[k];
                    assert(iv.take(k + 1).drop_last() =~= iv.take(k as int));
                    assert(iv.take(k + 1).last() == item_view(*it));
                    match (&it.0, &it.1, &it.2, &it.3) {
                        (Some(op), Some(val), Some(color), Some(range)) => {
                            let ghost before = rules@;
                            rules.push(
                                UserCondFormatRule {
                                    operator: string_clone(op),
                                    value: string_clone(val),
                                    color: hash_prefixed(color),
                                    range: string_clone(range),
                                },
                            );
                            assert(rule_views(rules@) =~= rule_views(before) + seq![rules@.last()@]);
                        },
                        _ => {},
                    }
                    k += 1;
                }
                assert(iv.take(items@.len() as int) =~= iv);
            },
        }
        CondFormatPopupState { visible: false, rules, needs_reapply: false }
    }

    /// What `save_to_yaml` writes for each rule: operator, value, the color
    /// without its leading `#`s (a `#` would start a YAML comment), and
    /// range, in order.
    pub fn yaml_entries(&self) -> (r: Vec<(String, String, String, String)>)
        ensures
            r@.len() == self.rules@.len(),
            forall|i: int|
                0 <= i < r@.len() ==> {
                    let e = #[trigger] r@[i];
                    let q = self.rules@[i];
                    e.0@ == q.operator@ && e.1@ == q.value@ && e.2@ == without_hash(q.color@) && e.3@
                        == q.range@
                },
    {
        let mut out: Vec<(String, String, String, String)> = Vec::new();
        let mut i: usize = 0;
        while i < self.rules.len()
            invariant
                i <= self.rules@.len(),
                out@.len() == i,
                forall|j: int|
                    0 <= j < i ==> {
                        let e = #[trigger] out@[j];
                        let q = self.rules@[j];
                        e.0@ == q.operator@ && e.1@ == q.value@ && e.2@ == without_hash(q.color@) && e.3@
                            == q.range@
                    },
            decreases self.rules@.len() - i,
        {
            let q = &self.rules[i];
            let cv = chars_of(q.color.as_str());
            let mut a: usize = 0;
            assert(cv@.skip(0) =~= cv@);
            while a < cv.len() && cv[a] == '#'
                invariant
                    a <= cv@.len(),
                    without_hash(cv@) == without_hash(cv@.skip(a as int)),
                decreases cv@.len() - a,
            {
                assert(cv@.skip(a as int).drop_first() =~= cv@.skip(a + 1));
                a += 1;
            }
            assert(cv@.skip(a as int) =~= cv@.subrange(a as int, cv@.len() as int));
            let clean = slice_to_vec(cv.as_slice(), a, cv.len());
            out.push(
                (string_clone(&q.operator), string_clone(&q.value), string_from(clean.as_slice()), string_clone(&q.range)),
            );
            i += 1;
        }
        out
    }

    /// The configuration text with `conditionalFormatting` set to the rules,
    /// each written as `yaml_entries` gives it, and every other block kept.
    /// Text that is not YAML counts as an empty document; a document that is
    /// no mapping is written back as it was.
    pub fn cond_format_config_text(&self, config: &str) -> (r: Option<String>)
        ensures
            opt_text(r) == yaml_set_cond_formatting(config_or_empty(config@), saved_entries(self.rules@)),
    {
        let base = base_document(config);
        let entries = self.yaml_entries();
        assert(entry_views(entries@) =~= saved_entries(self.rules@));
        yaml_with_cond_formatting(base, &entries)
    }

    /// Adds a rule after the last one: a copy of the last rule's operator,
    /// value and color with an empty range, or an empty rule when there is
    /// none.
    pub fn add_rule(&mut self)
        ensures
            final(self).rules@.len() == old(self).rules@.len() + 1,
            forall|i: int| 0 <= i < old(self).rules@.len() ==> final(self).rules@[i] == old(self).rules@[i],
            ({
                let n = old(self).rules@.len();
                let r = final(self).rules@[n as int]@;
                if n > 0 {
                    let l = old(self).rules@[n - 1]@;
                    r == (l.0, l.1, l.2, Seq::<char>::empty())
                } else {
                    r == (Seq::<char>::empty(), Seq::<char>::empty(), Seq::<char>::empty(), Seq::<char>::empty())
                }
            }),
            final(self).visible == old(self).visible,
            final(self).needs_reapply == old(self).needs_reapply,
    {
        let n = self.rules.len();
        let rule = if n > 0 {
            let last = &self.rules[n - 1];
            UserCondFormatRule {
                operator: string_clone(&last.operator),
                value: string_clone(&last.value),
                color: string_clone(&last.color),
                range: empty_string(),
            }
        } else {
            UserCondFormatRule::default()
        };
        self.rules.push(rule);
    }
}

/// What the licence window keeps besides its picture and its timer (those
/// stay with the window itself): whether it shows, the code being typed, the
/// error of the last activation and the machine code shown.
#[derive(Debug, Clone)]
pub struct LicensePopupState {
    pub visible: bool,
    pub license_input: String,
    pub error: Option<&'static str>,
    pub machine_code: String,
}

impl Default for LicensePopupState {
    fn default() -> (r: Self)
        ensures
            !r.visible,
            r.license_input@ == Seq::<char>::empty(),
            r.error is None,
            r.machine_code@ == Seq::<char>::empty(),
    {
        LicensePopupState {
            visible: false,
            license_input: empty_string(),
            error: None,
            machine_code: empty_string(),
        }
    }
}

impl LicensePopupState {
    /// Clears the typed code and the error; the rest stays.
    pub fn reset(&mut self)
        ensures
            final(self).license_input@ == Seq::<char>::empty(),
            final(self).error is None,
            final(self).visible == old(self).visible,
            final(self).machine_code == old(self).machine_code,
    {
        self.license_input = empty_string();
        self.error = None;
    }
}

} // verus!

