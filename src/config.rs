use vstd::prelude::*;
use vstd::string::StringSliceAdditionalSpecFns;
use vstd::utf8::encode_utf8;

use crate::bytes::{find_byte, has_prefix, span, starts_with_at};

verus! {

/// Which configuration file a setting came from.
#[derive(Clone, Copy, Debug, PartialEq, Eq, Structural)]
pub enum ConfigLocation {
    Local,
    Global,
    System,
}

/// One setting: `value` of `key` in `section`; a key given without a value
/// has `None`.
#[derive(Debug, PartialEq, Eq)]
pub struct ConfigEntry {
    pub section: String,
    pub key: String,
    pub value: Option<String>,
}

/// Settings as (section name bytes, key name bytes, value).
pub struct SettingView {
    pub section: Seq<u8>,
    pub key: Seq<u8>,
    pub value: Option<Seq<char>>,
}

/// The view of an optional value.
pub open spec fn opt_view(v: Option<String>) -> Option<Seq<char>> {
    match v {
        Some(s) => Some(s@),
        None => None,
    }
}

impl View for ConfigEntry {
    type V = SettingView;

    open spec fn view(&self) -> SettingView {
        SettingView {
            section: encode_utf8(self.section@),
            key: encode_utf8(self.key@),
            value: opt_view(self.value),
        }
    }
}

/// A configuration: its settings in order; the first one for a section and
/// key is the one that counts.
#[derive(Debug, PartialEq, Eq)]
pub struct Config {
    pub entries: Vec<ConfigEntry>,
}

impl View for Config {
    type V = Seq<SettingView>;

    open spec fn view(&self) -> Seq<SettingView> {
        self.entries@.map_values(|e: ConfigEntry| e@)
    }
}

/// The setting for `section` and `key`: `None` when there is none.
pub open spec fn lookup(es: Seq<SettingView>, section: Seq<u8>, key: Seq<u8>) -> Option<Option<Seq<char>>>
    decreases es.len(),
{
    if es.len() == 0 {
        None
    } else if es[0].section == section && es[0].key == key {
        Some(es[0].value)
    } else {
        lookup(es.drop_first(), section, key)
    }
}

/// Whether `es` holds a setting for `section` and `key`.
pub open spec fn has_key(es: Seq<SettingView>, section: Seq<u8>, key: Seq<u8>) -> bool {
    exists|i: int| 0 <= i < es.len() && es[i].section == section && es[i].key == key
}

/// The settings of `b` whose section and key `a` does not set, in order.
pub open spec fn fresh(a: Seq<SettingView>, b: Seq<SettingView>) -> Seq<SettingView>
    decreases b.len(),
{
    if b.len() == 0 {
        seq![]
    } else if has_key(a, b[0].section, b[0].key) {
        fresh(a, b.drop_first())
    } else {
        seq![b[0]] + fresh(a, b.drop_first())
    }
}

/// Merging keeps every setting of the first configuration and adds those of
/// the second that the first lacks.
pub open spec fn merged(a: Seq<SettingView>, b: Seq<SettingView>) -> Seq<SettingView> {
    a + fresh(a, b)
}

/// Whether two settings are for the same section and key.
pub open spec fn same_setting(x: SettingView, y: SettingView) -> bool {
    x.section == y.section && x.key == y.key
}

/// No section and key pair is set twice.
pub open spec fn unique_settings(es: Seq<SettingView>) -> bool {
    forall|i: int, j: int| 0 <= i < j < es.len() ==> !same_setting(#[trigger] es[i], #[trigger] es[j])
}

impl Config {
    /// Each section and key pair is set at most once, as in a map.
    pub open spec fn wf(&self) -> bool {
        unique_settings(self@)
    }

    /// Whether each section and key pair is set at most once.
    pub fn well_formed(&self) -> (r: bool)
        ensures
            r == self.wf(),
    {
        let ghost v = self@;
        let n = self.entries.len();
        let mut i: usize = 0;
        while i < n
            invariant
                i <= n == self.entries@.len(),
                v == self@,
                forall|p: int, q: int| 0 <= p < q < n && p < i ==> !same_setting(#[trigger] v[p], #[trigger] v[q]),
            decreases n - i,
        {
            let mut j: usize = i + 1;
            while j < n
                invariant
                    i < j <= n,
                    i < n == self.entries@.len(),
                    v == self@,
                    forall|p: int, q: int| 0 <= p < q < n && p < i ==> !same_setting(#[trigger] v[p], #[trigger] v[q]),
                    forall|q: int| i < q < j ==> !same_setting(v[i as int], #[trigger] v[q]),
                decreases n - j,
            {
                if same_name(&self.entries[i].section, &self.entries[j].section) && same_name(
                    &self.entries[i].key,
                    &self.entries[j].key,
                ) {
                    assert(v[i as int] == self.entries@[i as int]@);
                    assert(v[j as int] == self.entries@[j as int]@);
                    assert(same_setting(v[i as int], v[j as int]));
                    return false;
                }
                assert(v[i as int] == self.entries@[i as int]@);
                assert(v[j as int] == self.entries@[j as int]@);
                j = j + 1;
            }
            i = i + 1;
        }
        true
    }
}

proof fn lemma_fresh_settings(a: Seq<SettingView>, b: Seq<SettingView>)
    requires
        unique_settings(b),
    ensures
        unique_settings(fresh(a, b)),
        forall|k: int|
            0 <= k < fresh(a, b).len() ==> !has_key(a, #[trigger] fresh(a, b)[k].section, fresh(a, b)[k].key)
                && has_key(b, fresh(a, b)[k].section, fresh(a, b)[k].key),
    decreases b.len(),
{
    if b.len() > 0 {
        let t = b.drop_first();
        assert forall|i: int, j: int| 0 <= i < j < t.len() implies !same_setting(#[trigger] t[i], #[trigger] t[j]) by {
            assert(t[i] == b[i + 1] && t[j] == b[j + 1]);
        }
        lemma_fresh_settings(a, t);
        let ft = fresh(a, t);
        assert forall|k: int| 0 <= k < ft.len() implies has_key(b, #[trigger] ft[k].section, ft[k].key) by {
            let i = choose|i: int| 0 <= i < t.len() && t[i].section == ft[k].section && t[i].key == ft[k].key;
            assert(b[i + 1] == t[i]);
        }
        if !has_key(a, b[0].section, b[0].key) {
            let f = seq![b[0]] + ft;
            assert(f == fresh(a, b));
            assert forall|k: int| 0 <= k < ft.len() implies !same_setting(b[0], #[trigger] ft[k]) by {
                let i = choose|i: int| 0 <= i < t.len() && t[i].section == ft[k].section && t[i].key == ft[k].key;
                assert(b[i + 1] == t[i]);
                assert(!same_setting(b[0], b[i + 1]));
            }
            assert forall|i: int, j: int| 0 <= i < j < f.len() implies !same_setting(#[trigger] f[i], #[trigger] f[j]) by {
                if i == 0 {
                    assert(f[j] == ft[j - 1]);
                } else {
                    assert(f[i] == ft[i - 1] && f[j] == ft[j - 1]);
                }
            }
            assert forall|k: int| 0 <= k < f.len() implies !has_key(a, #[trigger] f[k].section, f[k].key)
                && has_key(b, f[k].section, f[k].key) by {
                if k == 0 {
                    assert(b[0].section == f[0].section && b[0].key == f[0].key);
                } else {
                    assert(f[k] == ft[k - 1]);
                }
            }
        }
    }
}

/// Merging configurations that each set a pair at most once gives one that
/// does too.
pub proof fn lemma_merged_unique(a: Seq<SettingView>, b: Seq<SettingView>)
    requires
        unique_settings(a),
        unique_settings(b),
    ensures
        unique_settings(merged(a, b)),
{
    lemma_fresh_settings(a, b);
    let f = fresh(a, b);
    let m = merged(a, b);
    assert forall|i: int, j: int| 0 <= i < j < m.len() implies !same_setting(#[trigger] m[i], #[trigger] m[j]) by {
        if j < a.len() {
            assert(m[i] == a[i] && m[j] == a[j]);
        } else if i >= a.len() {
            assert(m[i] == f[i - a.len()] && m[j] == f[j - a.len()]);
        } else {
            assert(m[i] == a[i] && m[j] == f[j - a.len()]);
            assert(!has_key(a, f[j - a.len()].section, f[j - a.len()].key));
            if same_setting(m[i], m[j]) {
                assert(a[i].section == f[j - a.len()].section && a[i].key == f[j - a.len()].key);
            }
        }
    }
}

fn copy_string(s: &String) -> (r: String)
    ensures
        r@ == s@,
{
    s.clone()
}

fn copy_entry(e: &ConfigEntry) -> (r: ConfigEntry)
    ensures
        r@ == e@,
{
    let value = match &e.value {
        Some(v) => Some(copy_string(v)),
        None => None,
    };
    ConfigEntry { section: copy_string(&e.section), key: copy_string(&e.key), value }
}

fn same_name(a: &String, b: &String) -> (r: bool)
    ensures
        r == (encode_utf8(a@) == encode_utf8(b@)),
{
    crate::bytes::bytes_eq(a.as_str().as_bytes(), b.as_str().as_bytes())
}

/// Whether `es` sets `section` and `key`.
fn contains_setting(es: &Vec<ConfigEntry>, section: &String, key: &String) -> (r: bool)
    ensures
        r == has_key(
            es@.map_values(|e: ConfigEntry| e@),
            encode_utf8(section@),
            encode_utf8(key@),
        ),
{
    let ghost v = es@.map_values(|e: ConfigEntry| e@);
    let mut i: usize = 0;
    while i < es.len()
        invariant
            i <= es@.len(),
            v == es@.map_values(|e: ConfigEntry| e@),
            forall|j: int|
                0 <= j < i ==> !(v[j].section == encode_utf8(section@) && v[j].key == encode_utf8(key@)),
        decreases es@.len() - i,
    {
        if same_name(&es[i].section, section) && same_name(&es[i].key, key) {
            assert(v[i as int] == es@[i as int]@);
            return true;
        }
        i = i + 1;
    }
    false
}

/// Merges two configurations: every setting of `hm_1`, then the settings of
/// `hm_2` for section and key pairs that `hm_1` does not set.
pub fn merge_hashmaps(hm_1: Config, hm_2: Config) -> (r: Config)
    requires
        hm_1.wf(),
        hm_2.wf(),
    ensures
        r@ == merged(hm_1@, hm_2@),
        r.wf(),
{
    proof {
        lemma_merged_unique(hm_1@, hm_2@);
    }
    let ghost a = hm_1@;
    let ghost b = hm_2@;
    let mut out: Vec<ConfigEntry> = Vec::new();
    let mut i: usize = 0;
    while i < hm_1.entries.len()
        invariant
            i <= hm_1.entries@.len(),
            a == hm_1@,
            out@.map_values(|e: ConfigEntry| e@) == a.take(i as int),
        decreases hm_1.entries@.len() - i,
    {
        let e = copy_entry(&hm_1.entries[i]);
        let ghost prev = out@.map_values(|e: ConfigEntry| e@);
        assert(a[i as int] == hm_1.entries@[i as int]@);
        out.push(e);
        assert(out@.map_values(|e: ConfigEntry| e@) =~= prev.push(e@));
        assert(a.take(i + 1) =~= a.take(i as int).push(a[i as int]));
        i = i + 1;
        assert(out@.map_values(|e: ConfigEntry| e@) =~= a.take(i as int));
    }
    assert(a.take(i as int) =~= a);
    let mut j: usize = 0;
    assert(b.skip(0) =~= b);
    assert(a + fresh(a, b) =~= out@.map_values(|e: ConfigEntry| e@) + fresh(a, b.skip(0)));
    while j < hm_2.entries.len()
        invariant
            j <= hm_2.entries@.len(),
            a == hm_1@,
            b == hm_2@,
            merged(a, b) == out@.map_values(|e: ConfigEntry| e@) + fresh(a, b.skip(j as int)),
        decreases hm_2.entries@.len() - j,
    {
        let e = &hm_2.entries[j];
        let ghost prev = out@.map_values(|e: ConfigEntry| e@);
        assert(b.skip(j as int).drop_first() =~= b.skip(j + 1));
        assert(b.skip(j as int)[0] == e@);
        if !contains_setting(&hm_1.entries, &e.section, &e.key) {
            out.push(copy_entry(e));
            assert(out@.map_values(|e: ConfigEntry| e@) =~= prev.push(e@));
            assert(prev + (seq![e@] + fresh(a, b.skip(j + 1))) =~= prev.push(e@) + fresh(a, b.skip(j + 1)));
        }
        j = j + 1;
    }
    assert(out@.map_values(|e: ConfigEntry| e@) + seq![] =~= out@.map_values(|e: ConfigEntry| e@));
    Config { entries: out }
}

proof fn lemma_lookup_append(a: Seq<SettingView>, c: Seq<SettingView>, section: Seq<u8>, key: Seq<u8>)
    ensures
        lookup(a + c, section, key) == (if has_key(a, section, key) {
            lookup(a, section, key)
        } else {
            lookup(c, section, key)
        }),
    decreases a.len(),
{
    if a.len() == 0 {
        assert(a + c =~= c);
    } else {
        assert((a + c).drop_first() =~= a.drop_first() + c);
        lemma_lookup_append(a.drop_first(), c, section, key);
        if !(a[0].section == section && a[0].key == key) {
            if has_key(a, section, key) {
                let i = choose|i: int| 0 <= i < a.len() && a[i].section == section && a[i].key == key;
                assert(a.drop_first()[i - 1] == a[i]);
            }
            if has_key(a.drop_first(), section, key) {
                let i = choose|i: int|
                    0 <= i < a.drop_first().len() && a.drop_first()[i].section == section
                        && a.drop_first()[i].key == key;
                assert(a[i + 1] == a.drop_first()[i]);
            }
        } else {
            assert(has_key(a, section, key)) by {
                assert(a[0].section == section && a[0].key == key);
            }
        }
    }
}

proof fn lemma_lookup_fresh(a: Seq<SettingView>, b: Seq<SettingView>, section: Seq<u8>, key: Seq<u8>)
    requires
        !has_key(a, section, key),
    ensures
        lookup(fresh(a, b), section, key) == lookup(b, section, key),
    decreases b.len(),
{
    if b.len() > 0 {
        lemma_lookup_fresh(a, b.drop_first(), section, key);
        if !has_key(a, b[0].section, b[0].key) {
            let f = seq![b[0]] + fresh(a, b.drop_first());
            assert(f[0] == b[0]);
            assert(f.drop_first() =~= fresh(a, b.drop_first()));
        }
    }
}

/// A setting looked up in a merge is the first configuration's when it has
/// one, and the second's otherwise.
pub proof fn lemma_merged_lookup(a: Seq<SettingView>, b: Seq<SettingView>, section: Seq<u8>, key: Seq<u8>)
    ensures
        lookup(merged(a, b), section, key) == (if has_key(a, section, key) {
            lookup(a, section, key)
        } else {
            lookup(b, section, key)
        }),
{
    lemma_lookup_append(a, fresh(a, b), section, key);
    if !has_key(a, section, key) {
        lemma_lookup_fresh(a, b, section, key);
    }
}

/// The section named by a dotted key: the text before its first `.`.
pub open spec fn key_section(k: Seq<u8>) -> Seq<u8> {
    k.subrange(0, span(k, 46, 0, k.len() as int) as int)
}

/// The name after the first `.`, up to the next `.`; empty without a `.`.
pub open spec fn key_name(k: Seq<u8>) -> Seq<u8> {
    let d1 = span(k, 46, 0, k.len() as int) as int;
    if d1 >= k.len() {
        seq![]
    } else {
        k.subrange(d1 + 1, d1 + 1 + span(k, 46, d1 + 1, k.len() as int))
    }
}

/// The value that a dotted key `section.name` has in `es`: empty when the
/// setting is missing or has no value.
pub open spec fn config_value(es: Seq<SettingView>, k: Seq<u8>) -> Seq<char> {
    match lookup(es, key_section(k), key_name(k)) {
        Some(Some(v)) => v,
        _ => seq![],
    }
}

/// Whether `name` spells `k[lo..hi]`.
fn names_range(name: &String, k: &[u8], lo: usize, hi: usize) -> (r: bool)
    requires
        lo <= hi <= k@.len(),
    ensures
        r == (encode_utf8(name@) == k@.subrange(lo as int, hi as int)),
{
    let nb = name.as_str().as_bytes();
    if nb.len() != hi - lo {
        return false;
    }
    let r = has_prefix(k, lo, hi, nb);
    proof {
        if r {
            assert(starts_with_at(k@, lo as int, hi as int, nb@));
        }
    }
    r
}

/// The value of the dotted key `key` (`section.name`) in `config`, or an empty
/// string when it is not set.
pub fn get_config_value(key: String, config: &Config) -> (r: String)
    ensures
        r@ == config_value(config@, encode_utf8(key@)),
{
    let k = key.as_str().as_bytes();
    let n = k.len();
    let d1 = find_byte(k, 46, 0, n);
    let (lo, hi) = if d1 >= n {
        (0usize, 0usize)
    } else {
        (d1 + 1, find_byte(k, 46, d1 + 1, n))
    };
    let ghost kb = k@;
    assert(kb == encode_utf8(key@));
    let ghost es = config@;
    assert(d1 >= n ==> k@.subrange(0, 0) =~= Seq::<u8>::empty());
    assert(es.skip(0) =~= es);
    let mut i: usize = 0;
    while i < config.entries.len()
        invariant
            i <= config.entries@.len(),
            es == config@,
            kb == k@,
            kb == encode_utf8(key@),
            lo <= hi <= k@.len(),
            d1 <= n == k@.len(),
            key_section(kb) == k@.subrange(0, d1 as int),
            key_name(kb) == k@.subrange(lo as int, hi as int),
            lookup(es, key_section(kb), key_name(kb)) == lookup(es.skip(i as int), key_section(kb), key_name(kb)),
        decreases config.entries@.len() - i,
    {
        let e = &config.entries[i];
        assert(es.skip(i as int)[0] == e@);
        assert(es.skip(i as int).drop_first() =~= es.skip(i + 1));
        if names_range(&e.section, k, 0, d1) && names_range(&e.key, k, lo, hi) {
            assert(lookup(es.skip(i as int), key_section(kb), key_name(kb)) == Some(e@.value));
            let r = match &e.value {
                Some(v) => copy_string(v),
                None => String::new(),
            };
            assert(e@.value == opt_view(e.value));
            assert(r@ == config_value(es, kb));
            return r;
        }
        i = i + 1;
    }
    String::new()
}

} // verus!
