//! The settings store: a flat document of named, JSON-typed preference
//! values, keyed by string.
//!
//! The store models the persisted document (`settings.json`-equivalent) as a
//! map from key to value. Each per-key accessor interprets the value type it
//! expects and falls back to its documented default when the key is absent
//! or the stored value has another type. Loading the document from disk and
//! persisting it after each write is the embedding application's task.

use vstd::prelude::*;
use vstd::string::StringExecFns;

verus! {

/// One stored preference value: a JSON string, a JSON boolean, or a value of
/// any other JSON type (which every typed accessor treats as absent).
#[derive(Debug, PartialEq, Eq)]
pub enum SettingValue {
    Text(String),
    Flag(bool),
    Other,
}

impl Clone for SettingValue {
    /// Cloning keeps the value.
    fn clone(&self) -> (r: Self)
        ensures
            r == *self,
    {
        match self {
            SettingValue::Text(s) => SettingValue::Text(s.clone()),
            SettingValue::Flag(b) => SettingValue::Flag(*b),
            SettingValue::Other => SettingValue::Other,
        }
    }
}

/// No key occurs twice among the pairs.
pub open spec fn distinct_keys(s: Seq<(String, SettingValue)>) -> bool {
    forall|i: int, j: int| 0 <= i < j < s.len() ==> (#[trigger] s[i]).0@ != (#[trigger] s[j]).0@
}

/// The map a sequence of key/value pairs denotes.
pub open spec fn map_of(s: Seq<(String, SettingValue)>) -> Map<Seq<char>, SettingValue>
    decreases s.len(),
{
    if s.len() == 0 {
        Map::empty()
    } else {
        map_of(s.drop_last()).insert(s.last().0@, s.last().1)
    }
}

/// The settings document, viewed as the map it denotes.
pub struct SettingsStore {
    entries: Vec<(String, SettingValue)>,
}

impl View for SettingsStore {
    type V = Map<Seq<char>, SettingValue>;

    closed spec fn view(&self) -> Map<Seq<char>, SettingValue> {
        map_of(self.entries@)
    }
}

impl SettingsStore {
    #[verifier::type_invariant]
    spec fn wf(&self) -> bool {
        distinct_keys(self.entries@)
    }

    /// An empty document.
    pub fn new() -> (r: Self)
        ensures
            r@ == Map::<Seq<char>, SettingValue>::empty(),
    {
        SettingsStore { entries: Vec::new() }
    }

    /// The document's pairs, one per stored key, each key once.
    pub fn entries(&self) -> (r: &Vec<(String, SettingValue)>)
        ensures
            distinct_keys(r@),
            forall|i: int|
                0 <= i < r@.len() ==> self@.contains_key((#[trigger] r@[i]).0@) && self@[r@[i].0@]
                    == r@[i].1,
            forall|k: Seq<char>|
                self@.contains_key(k) ==> exists|i: int| 0 <= i < r@.len() && (#[trigger] r@[i]).0@
                    == k,
    {
        proof {
            use_type_invariant(self);
            assert forall|i: int|
                0 <= i < self.entries@.len() implies self@.contains_key(
                (#[trigger] self.entries@[i]).0@,
            ) && self@[self.entries@[i].0@] == self.entries@[i].1 by {
                lemma_map_of_index(self.entries@, i);
            }
            assert forall|k: Seq<char>| self@.contains_key(k) implies exists|i: int|
                0 <= i < self.entries@.len() && (#[trigger] self.entries@[i]).0@ == k by {
                lemma_map_of_contains(self.entries@, k);
            }
        }
        &self.entries
    }
}

proof fn lemma_map_of_contains(s: Seq<(String, SettingValue)>, k: Seq<char>)
    ensures
        map_of(s).contains_key(k) <==> exists|i: int| 0 <= i < s.len() && (#[trigger] s[i]).0@
            == k,
    decreases s.len(),
{
    if s.len() > 0 {
        lemma_map_of_contains(s.drop_last(), k);
        if s.last().0@ == k {
            assert((s[s.len() - 1]).0@ == k);
        } else {
            if map_of(s).contains_key(k) {
                let i = choose|i: int|
                    0 <= i < s.drop_last().len() && (#[trigger] s.drop_last()[i]).0@ == k;
                assert(s[i].0@ == k);
            }
            if exists|i: int| 0 <= i < s.len() && (#[trigger] s[i]).0@ == k {
                let i = choose|i: int| 0 <= i < s.len() && (#[trigger] s[i]).0@ == k;
                assert(i < s.len() - 1);
                assert(s.drop_last()[i].0@ == k);
            }
        }
    }
}

proof fn lemma_distinct_drop_last(s: Seq<(String, SettingValue)>)
    requires
        distinct_keys(s),
        s.len() > 0,
    ensures
        distinct_keys(s.drop_last()),
{
    assert forall|i: int, j: int|
        0 <= i < j < s.drop_last().len() implies (#[trigger] s.drop_last()[i]).0@ != (
    #[trigger] s.drop_last()[j]).0@ by {
        assert(s.drop_last()[i] == s[i]);
        assert(s.drop_last()[j] == s[j]);
    }
}

proof fn lemma_map_of_index(s: Seq<(String, SettingValue)>, i: int)
    requires
        distinct_keys(s),
        0 <= i < s.len(),
    ensures
        map_of(s).contains_key(s[i].0@),
        map_of(s)[s[i].0@] == s[i].1,
    decreases s.len(),
{
    if i < s.len() - 1 {
        lemma_distinct_drop_last(s);
        lemma_map_of_index(s.drop_last(), i);
        assert(s.drop_last()[i] == s[i]);
        assert(s[i].0@ != s.last().0@);
    }
}

proof fn lemma_remove_keeps_distinct(s: Seq<(String, SettingValue)>, i: int)
    requires
        distinct_keys(s),
        0 <= i < s.len(),
    ensures
        distinct_keys(s.remove(i)),
        forall|j: int| 0 <= j < s.remove(i).len() ==> (#[trigger] s.remove(i)[j]).0@ != s[i].0@,
{
    s.remove_ensures(i);
    assert forall|a: int, b: int|
        0 <= a < b < s.remove(i).len() implies (#[trigger] s.remove(i)[a]).0@ != (
    #[trigger] s.remove(i)[b]).0@ by {
        if a < i {
            assert(s.remove(i)[a] == s[a]);
        } else {
            assert(s.remove(i)[a] == s[a + 1]);
        }
        if b < i {
            assert(s.remove(i)[b] == s[b]);
        } else {
            assert(s.remove(i)[b] == s[b + 1]);
        }
    }
    assert forall|j: int| 0 <= j < s.remove(i).len() implies (#[trigger] s.remove(i)[j]).0@
        != s[i].0@ by {
        if j < i {
            assert(s.remove(i)[j] == s[j]);
        } else {
            assert(s.remove(i)[j] == s[j + 1]);
        }
    }
}

proof fn lemma_map_of_remove(s: Seq<(String, SettingValue)>, i: int)
    requires
        distinct_keys(s),
        0 <= i < s.len(),
    ensures
        map_of(s.remove(i)) == map_of(s).remove(s[i].0@),
    decreases s.len(),
{
    let k = s[i].0@;
    lemma_distinct_drop_last(s);
    if i == s.len() - 1 {
        assert(s.remove(i) =~= s.drop_last());
        lemma_map_of_contains(s.drop_last(), k);
        assert forall|j: int| 0 <= j < s.drop_last().len() implies (#[trigger] s.drop_last()[j]).0@
            != k by {
            assert(s.drop_last()[j] == s[j]);
        }
        assert(!map_of(s.drop_last()).contains_key(k));
        assert(map_of(s).remove(k) =~= map_of(s.drop_last()));
    } else {
        let t = s.drop_last();
        lemma_map_of_remove(t, i);
        assert(s.remove(i).drop_last() =~= t.remove(i));
        assert(s.remove(i).last() == s.last());
        assert(s.last().0@ != k);
        assert(map_of(t).remove(k).insert(s.last().0@, s.last().1) =~= map_of(t).insert(
            s.last().0@,
            s.last().1,
        ).remove(k));
    }
}

/// Looks a key up in the document. None is the "not found" condition: the
/// callers treat it as "use the documented default".
pub fn get_setting<'a>(store: &'a SettingsStore, key: &str) -> (r: Option<&'a SettingValue>)
    ensures
        r matches Some(v) ==> store@.contains_key(key@) && *v == store@[key@],
        r is None ==> !store@.contains_key(key@),
{
    proof {
        use_type_invariant(store);
    }
    let k = String::from_str(key);
    let n = store.entries.len();
    for i in 0..n
        invariant
            n == store.entries@.len(),
            distinct_keys(store.entries@),
            store@ == map_of(store.entries@),
            k@ == key@,
            forall|j: int| 0 <= j < i ==> (#[trigger] store.entries@[j]).0@ != key@,
    {
        if store.entries[i].0 == k {
            proof {
                lemma_map_of_index(store.entries@, i as int);
            }
            return Some(&store.entries[i].1);
        }
    }
    proof {
        lemma_map_of_contains(store.entries@, key@);
    }
    None
}

/// Writes `value` under `key` in the document. (Persisting the changed
/// document to disk is the embedding application's task, after the call.)
pub fn set_setting(store: &mut SettingsStore, key: &str, value: SettingValue)
    ensures
        final(store)@ == old(store)@.insert(key@, value),
{
    proof {
        use_type_invariant(&*store);
    }
    let k = String::from_str(key);
    let mut entries: Vec<(String, SettingValue)> = Vec::new();
    core::mem::swap(&mut entries, &mut store.entries);
    let ghost s0 = entries@;
    let n = entries.len();
    let mut idx: usize = 0;
    let mut found: bool = false;
    for i in 0..n
        invariant
            n == entries@.len(),
            entries@ == s0,
            k@ == key@,
            found ==> 0 <= idx < n && s0[idx as int].0@ == key@,
            !found ==> forall|j: int| 0 <= j < i ==> (#[trigger] s0[j]).0@ != key@,
    {
        if !found && entries[i].0 == k {
            idx = i;
            found = true;
        }
    }
    if found {
        proof {
            lemma_map_of_remove(s0, idx as int);
            lemma_remove_keeps_distinct(s0, idx as int);
        }
        entries.remove(idx);
    } else {
        proof {
            lemma_map_of_contains(s0, key@);
            assert(map_of(s0).remove(key@) =~= map_of(s0));
        }
    }
    let ghost s1 = entries@;
    proof {
        assert(map_of(s1) == map_of(s0).remove(key@));
        assert(forall|j: int| 0 <= j < s1.len() ==> (#[trigger] s1[j]).0@ != key@);
        assert(distinct_keys(s1));
    }
    entries.push((k, value));
    proof {
        assert(entries@.drop_last() =~= s1);
        assert(map_of(entries@) == map_of(s1).insert(key@, value));
        assert(map_of(s0).remove(key@).insert(key@, value) =~= map_of(s0).insert(key@, value));
        assert forall|a: int, b: int|
            0 <= a < b < entries@.len() implies (#[trigger] entries@[a]).0@ != (
        #[trigger] entries@[b]).0@ by {
            if b < entries@.len() - 1 {
                assert(entries@[a] == s1[a] && entries@[b] == s1[b]);
            } else {
                assert(entries@[a] == s1[a]);
            }
        }
    }
    store.entries = entries;
}

/// Removes `key` from the document. (Persisting the changed document to
/// disk is the embedding application's task, after the call.)
pub fn delete_setting(store: &mut SettingsStore, key: &str)
    ensures
        final(store)@ == old(store)@.remove(key@),
{
    proof {
        use_type_invariant(&*store);
    }
    let k = String::from_str(key);
    let mut entries: Vec<(String, SettingValue)> = Vec::new();
    core::mem::swap(&mut entries, &mut store.entries);
    let ghost s0 = entries@;
    let n = entries.len();
    let mut idx: usize = 0;
    let mut found: bool = false;
    for i in 0..n
        invariant
            n == entries@.len(),
            entries@ == s0,
            k@ == key@,
            found ==> 0 <= idx < n && s0[idx as int].0@ == key@,
            !found ==> forall|j: int| 0 <= j < i ==> (#[trigger] s0[j]).0@ != key@,
    {
        if !found && entries[i].0 == k {
            idx = i;
            found = true;
        }
    }
    if found {
        proof {
            lemma_map_of_remove(s0, idx as int);
            lemma_remove_keeps_distinct(s0, idx as int);
        }
        entries.remove(idx);
    } else {
        proof {
            lemma_map_of_contains(s0, key@);
            assert(map_of(s0).remove(key@) =~= map_of(s0));
        }
    }
    store.entries = entries;
}

/// The string stored under `key`, or `default` when the key is absent or its
/// value is not a string.
pub open spec fn spec_text_or(
    m: Map<Seq<char>, SettingValue>,
    key: Seq<char>,
    default: Seq<char>,
) -> Seq<char> {
    if m.contains_key(key) {
        match m[key] {
            SettingValue::Text(s) => s@,
            _ => default,
        }
    } else {
        default
    }
}

/// The boolean stored under `key`, or `default` when the key is absent or
/// its value is not a boolean.
pub open spec fn spec_flag_or(
    m: Map<Seq<char>, SettingValue>,
    key: Seq<char>,
    default: bool,
) -> bool {
    if m.contains_key(key) {
        match m[key] {
            SettingValue::Flag(b) => b,
            _ => default,
        }
    } else {
        default
    }
}

/// The string stored under `key`, when one is: absent and mistyped values
/// alike yield none.
pub open spec fn spec_text_opt(m: Map<Seq<char>, SettingValue>, key: Seq<char>) -> Option<
    Seq<char>,
> {
    if m.contains_key(key) {
        match m[key] {
            SettingValue::Text(s) => Some(s@),
            _ => None,
        }
    } else {
        None
    }
}

fn get_text_or(store: &SettingsStore, key: &str, default: &str) -> (r: String)
    ensures
        r@ == spec_text_or(store@, key@, default@),
{
    match get_setting(store, key) {
        Some(v) => match v {
            SettingValue::Text(s) => s.clone(),
            _ => String::from_str(default),
        },
        None => String::from_str(default),
    }
}

fn get_flag_or(store: &SettingsStore, key: &str, default: bool) -> (r: bool)
    ensures
        r == spec_flag_or(store@, key@, default),
{
    match get_setting(store, key) {
        Some(v) => match v {
            SettingValue::Flag(b) => *b,
            _ => default,
        },
        None => default,
    }
}

/// The last folder the user selected, if a string is stored for it.
pub fn get_stored_folder(store: &SettingsStore) -> (r: Option<String>)
    ensures
        r matches Some(p) ==> spec_text_opt(store@, "selectedFolder"@) == Some(p@),
        r is None ==> spec_text_opt(store@, "selectedFolder"@) is None,
{
    match get_setting(store, "selectedFolder") {
        Some(v) => match v {
            SettingValue::Text(s) => Some(s.clone()),
            _ => None,
        },
        None => None,
    }
}

/// Forgets the stored folder.
pub fn clear_stored_folder(store: &mut SettingsStore)
    ensures
        final(store)@ == old(store)@.remove("selectedFolder"@),
{
    delete_setting(store, "selectedFolder");
}

/// The stored theme; "auto" when none (or a non-string) is stored.
pub fn get_theme(store: &SettingsStore) -> (r: String)
    ensures
        r@ == spec_text_or(store@, "theme"@, "auto"@),
{
    get_text_or(store, "theme", "auto")
}

/// Stores the theme.
pub fn set_theme(theme: String, store: &mut SettingsStore)
    ensures
        final(store)@ == old(store)@.insert("theme"@, SettingValue::Text(theme)),
{
    set_setting(store, "theme", SettingValue::Text(theme));
}

/// The show-hex flag; true when none (or a non-boolean) is stored.
pub fn get_show_hex(store: &SettingsStore) -> (r: bool)
    ensures
        r == spec_flag_or(store@, "showHex"@, true),
{
    get_flag_or(store, "showHex", true)
}

/// Stores the show-hex flag.
pub fn set_show_hex(show_hex: bool, store: &mut SettingsStore)
    ensures
        final(store)@ == old(store)@.insert("showHex"@, SettingValue::Flag(show_hex)),
{
    set_setting(store, "showHex", SettingValue::Flag(show_hex));
}

/// The eyedropper flag; false when none (or a non-boolean) is stored.
pub fn get_eyedropper_active(store: &SettingsStore) -> (r: bool)
    ensures
        r == spec_flag_or(store@, "eyedropperActive"@, false),
{
    get_flag_or(store, "eyedropperActive", false)
}

/// Stores the eyedropper flag.
pub fn set_eyedropper_active(active: bool, store: &mut SettingsStore)
    ensures
        final(store)@ == old(store)@.insert("eyedropperActive"@, SettingValue::Flag(active)),
{
    set_setting(store, "eyedropperActive", SettingValue::Flag(active));
}

/// The histogram flag; false when none (or a non-boolean) is stored.
pub fn get_histogram_active(store: &SettingsStore) -> (r: bool)
    ensures
        r == spec_flag_or(store@, "histogramActive"@, false),
{
    get_flag_or(store, "histogramActive", false)
}

/// Stores the histogram flag.
pub fn set_histogram_active(active: bool, store: &mut SettingsStore)
    ensures
        final(store)@ == old(store)@.insert("histogramActive"@, SettingValue::Flag(active)),
{
    set_setting(store, "histogramActive", SettingValue::Flag(active));
}

/// The gallery style; "default" when none (or a non-string) is stored.
pub fn get_gallery_style(store: &SettingsStore) -> (r: String)
    ensures
        r@ == spec_text_or(store@, "galleryStyle"@, "default"@),
{
    get_text_or(store, "galleryStyle", "default")
}

/// Stores the gallery style.
pub fn set_gallery_style(gallery_style: String, store: &mut SettingsStore)
    ensures
        final(store)@ == old(store)@.insert(
            "galleryStyle"@,
            SettingValue::Text(gallery_style),
        ),
{
    set_setting(store, "galleryStyle", SettingValue::Text(gallery_style));
}

/// Setting a key and then reading the same key yields exactly the value just
/// stored, over the document model that set_setting and get_setting use.
pub proof fn lemma_set_then_get(
    m: Map<Seq<char>, SettingValue>,
    key: Seq<char>,
    value: SettingValue,
)
    ensures
        m.insert(key, value).contains_key(key),
        m.insert(key, value)[key] == value,
{
}

/// Deleting a key and then reading it yields the not-found condition, never
/// the previously stored value.
pub proof fn lemma_delete_then_get(m: Map<Seq<char>, SettingValue>, key: Seq<char>)
    ensures
        !m.remove(key).contains_key(key),
{
}

/// Before any theme is stored the theme reads as "auto"; once one is stored,
/// the stored value is read back.
pub proof fn lemma_theme_default_and_round_trip(m: Map<Seq<char>, SettingValue>, theme: String)
    ensures
        spec_text_or(Map::<Seq<char>, SettingValue>::empty(), "theme"@, "auto"@) == "auto"@,
        spec_text_or(m.insert("theme"@, SettingValue::Text(theme)), "theme"@, "auto"@) == theme@,
{
}

} // verus!
