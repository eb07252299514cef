use vstd::prelude::*;

verus! {

/// Every datum that a configuration can hold.
///
/// A `Float64` carries a 64-bit float as decimal text that the standard float
/// parser accepts (see `crate::coerce::float_text`); it is read back as a
/// float by the caller that needs one.
#[derive(Debug, PartialEq)]
pub enum ConfigValue {
    Bool(bool),
    Int64(i64),
    Float64(String),
    String(String),
    Array(Vec<ConfigValue>),
    Table(Vec<(String, ConfigValue)>),
    Null,
}

impl From<bool> for ConfigValue {
    fn from(v: bool) -> (r: ConfigValue)
        ensures
            r == ConfigValue::Bool(v),
    {
        ConfigValue::Bool(v)
    }
}

impl vstd::std_specs::convert::FromSpecImpl<bool> for ConfigValue {
    open spec fn obeys_from_spec() -> bool {
        true
    }

    open spec fn from_spec(v: bool) -> ConfigValue {
        ConfigValue::Bool(v)
    }
}

impl From<i64> for ConfigValue {
    fn from(v: i64) -> (r: ConfigValue)
        ensures
            r == ConfigValue::Int64(v),
    {
        ConfigValue::Int64(v)
    }
}

impl vstd::std_specs::convert::FromSpecImpl<i64> for ConfigValue {
    open spec fn obeys_from_spec() -> bool {
        true
    }

    open spec fn from_spec(v: i64) -> ConfigValue {
        ConfigValue::Int64(v)
    }
}

impl From<String> for ConfigValue {
    fn from(v: String) -> (r: ConfigValue)
        ensures
            r == ConfigValue::String(v),
    {
        ConfigValue::String(v)
    }
}

impl vstd::std_specs::convert::FromSpecImpl<String> for ConfigValue {
    open spec fn obeys_from_spec() -> bool {
        true
    }

    open spec fn from_spec(v: String) -> ConfigValue {
        ConfigValue::String(v)
    }
}

impl<'a> From<&'a str> for ConfigValue {
    fn from(v: &'a str) -> (r: ConfigValue)
        ensures
            r is String && r->String_0@ == v@,
    {
        ConfigValue::String(v.to_string())
    }
}

impl<'a> vstd::std_specs::convert::FromSpecImpl<&'a str> for ConfigValue {
    // The result holds a `String` or a `Vec` built at run time, which has
    // no closed form here; the `ensures` of `from` states it instead.
    open spec fn obeys_from_spec() -> bool {
        false
    }

    open spec fn from_spec(v: &'a str) -> ConfigValue {
        ConfigValue::Null
    }
}

/// Integers as an array of `Int64` values, in order.
pub fn int_array(v: &[i64]) -> (r: ConfigValue)
    ensures
        r is Array && r->Array_0@.len() == v@.len() && forall|i: int| 0 <= i < v@.len() ==> #[trigger] r->Array_0@[i] == ConfigValue::Int64(v@[i]),
{
    let mut out: Vec<ConfigValue> = Vec::new();
    let mut i: usize = 0;
    while i < v.len()
        invariant
            i <= v@.len(),
            out@.len() == i,
            forall|j: int| 0 <= j < i ==> #[trigger] out@[j] == ConfigValue::Int64(v@[j]),
        decreases v@.len() - i,
    {
        out.push(ConfigValue::Int64(v[i]));
        i = i + 1;
    }
    ConfigValue::Array(out)
}

impl From<Vec<i64>> for ConfigValue {
    fn from(v: Vec<i64>) -> (r: ConfigValue)
        ensures
            r is Array && r->Array_0@.len() == v@.len() && forall|i: int| 0 <= i < v@.len() ==> #[trigger] r->Array_0@[i] == ConfigValue::Int64(v@[i]),
    {
        int_array(v.as_slice())
    }
}

impl vstd::std_specs::convert::FromSpecImpl<Vec<i64>> for ConfigValue {
    // The result holds a `String` or a `Vec` built at run time, which has
    // no closed form here; the `ensures` of `from` states it instead.
    open spec fn obeys_from_spec() -> bool {
        false
    }

    open spec fn from_spec(v: Vec<i64>) -> ConfigValue {
        ConfigValue::Null
    }
}

impl<'a> From<&'a [i64]> for ConfigValue {
    fn from(v: &'a [i64]) -> (r: ConfigValue)
        ensures
            r is Array && r->Array_0@.len() == v@.len() && forall|i: int| 0 <= i < v@.len() ==> #[trigger] r->Array_0@[i] == ConfigValue::Int64(v@[i]),
    {
        int_array(v)
    }
}

impl<'a> vstd::std_specs::convert::FromSpecImpl<&'a [i64]> for ConfigValue {
    // The result holds a `String` or a `Vec` built at run time, which has
    // no closed form here; the `ensures` of `from` states it instead.
    open spec fn obeys_from_spec() -> bool {
        false
    }

    open spec fn from_spec(v: &'a [i64]) -> ConfigValue {
        ConfigValue::Null
    }
}

/// Strings as an array of `String` values, in order.
pub fn string_array(v: Vec<String>) -> (r: ConfigValue)
    ensures
        r is Array && r->Array_0@.len() == v@.len() && forall|i: int| 0 <= i < v@.len() ==> #[trigger] r->Array_0@[i] == ConfigValue::String(v@[i]),
{
    let ghost orig = v@;
    let mut v = v;
    let mut out: Vec<ConfigValue> = Vec::new();
    while v.len() > 0
        invariant
            out@.len() + v@.len() == orig.len(),
            v@ == orig.subrange(out@.len() as int, orig.len() as int),
            forall|j: int| 0 <= j < out@.len() ==> #[trigger] out@[j] == ConfigValue::String(orig[j]),
        decreases v@.len(),
    {
        let ghost k = out@.len() as int;
        let x = v.remove(0);
        assert(x == orig[k]);
        out.push(ConfigValue::String(x));
        assert(v@ =~= orig.subrange(out@.len() as int, orig.len() as int));
    }
    ConfigValue::Array(out)
}

impl From<Vec<String>> for ConfigValue {
    fn from(v: Vec<String>) -> (r: ConfigValue)
        ensures
            r is Array && r->Array_0@.len() == v@.len() && forall|i: int| 0 <= i < v@.len() ==> #[trigger] r->Array_0@[i] == ConfigValue::String(v@[i]),
    {
        string_array(v)
    }
}

impl vstd::std_specs::convert::FromSpecImpl<Vec<String>> for ConfigValue {
    // The result holds a `Vec` built at run time, which has no closed form
    // here; the `ensures` of `from` states it instead.
    open spec fn obeys_from_spec() -> bool {
        false
    }

    open spec fn from_spec(v: Vec<String>) -> ConfigValue {
        ConfigValue::Null
    }
}

impl<'a, 'b> From<&'a [&'b str]> for ConfigValue {
    fn from(v: &'a [&'b str]) -> (r: ConfigValue)
        ensures
            r is Array && r->Array_0@.len() == v@.len() && forall|i: int| 0 <= i < v@.len() ==> (#[trigger] r->Array_0@[i] is String) && r->Array_0@[i]->String_0@ == v@[i]@,
    {
        let mut out: Vec<ConfigValue> = Vec::new();
        let mut i: usize = 0;
        while i < v.len()
            invariant
                i <= v@.len(),
                out@.len() == i,
                forall|j: int| 0 <= j < i ==> (#[trigger] out@[j] is String) && out@[j]->String_0@ == v@[j]@,
            decreases v@.len() - i,
        {
            out.push(ConfigValue::String(v[i].to_string()));
            i = i + 1;
        }
        ConfigValue::Array(out)
    }
}

impl<'a, 'b> vstd::std_specs::convert::FromSpecImpl<&'a [&'b str]> for ConfigValue {
    // The result holds `String`s built at run time, which have no closed
    // form here; the `ensures` of `from` states it instead.
    open spec fn obeys_from_spec() -> bool {
        false
    }

    open spec fn from_spec(v: &'a [&'b str]) -> ConfigValue {
        ConfigValue::Null
    }
}

impl From<Vec<bool>> for ConfigValue {
    fn from(v: Vec<bool>) -> (r: ConfigValue)
        ensures
            r is Array && r->Array_0@.len() == v@.len() && forall|i: int| 0 <= i < v@.len() ==> #[trigger] r->Array_0@[i] == ConfigValue::Bool(v@[i]),
    {
        let mut out: Vec<ConfigValue> = Vec::new();
        let mut i: usize = 0;
        while i < v.len()
            invariant
                i <= v@.len(),
                out@.len() == i,
                forall|j: int| 0 <= j < i ==> #[trigger] out@[j] == ConfigValue::Bool(v@[j]),
            decreases v@.len() - i,
        {
            out.push(ConfigValue::Bool(v[i]));
            i = i + 1;
        }
        ConfigValue::Array(out)
    }
}

impl vstd::std_specs::convert::FromSpecImpl<Vec<bool>> for ConfigValue {
    // The result holds a `Vec` built at run time, which has no closed form
    // here; the `ensures` of `from` states it instead.
    open spec fn obeys_from_spec() -> bool {
        false
    }

    open spec fn from_spec(v: Vec<bool>) -> ConfigValue {
        ConfigValue::Null
    }
}

impl From<Vec<ConfigValue>> for ConfigValue {
    fn from(v: Vec<ConfigValue>) -> (r: ConfigValue)
        ensures
            r == ConfigValue::Array(v),
    {
        ConfigValue::Array(v)
    }
}

impl vstd::std_specs::convert::FromSpecImpl<Vec<ConfigValue>> for ConfigValue {
    open spec fn obeys_from_spec() -> bool {
        true
    }

    open spec fn from_spec(v: Vec<ConfigValue>) -> ConfigValue {
        ConfigValue::Array(v)
    }
}

impl From<Vec<(String, ConfigValue)>> for ConfigValue {
    fn from(v: Vec<(String, ConfigValue)>) -> (r: ConfigValue)
        ensures
            r == ConfigValue::Table(v),
    {
        ConfigValue::Table(v)
    }
}

impl vstd::std_specs::convert::FromSpecImpl<Vec<(String, ConfigValue)>> for ConfigValue {
    open spec fn obeys_from_spec() -> bool {
        true
    }

    open spec fn from_spec(v: Vec<(String, ConfigValue)>) -> ConfigValue {
        ConfigValue::Table(v)
    }
}

/// Position of the first entry of `s` keyed `k`, or -1 where there is none.
pub open spec fn index_of(s: Seq<(String, ConfigValue)>, k: Seq<char>) -> int
    decreases s.len(),
{
    if s.len() == 0 {
        -1
    } else {
        let i = index_of(s.drop_last(), k);
        if i >= 0 {
            i
        } else if s.last().0@ == k {
            s.len() - 1
        } else {
            -1
        }
    }
}

/// Some entry of `s` is keyed `k`.
pub open spec fn has_key(s: Seq<(String, ConfigValue)>, k: Seq<char>) -> bool {
    exists|i: int| 0 <= i < s.len() && #[trigger] s[i].0@ == k
}

/// No two entries of `s` share a key.
pub open spec fn keys_distinct(s: Seq<(String, ConfigValue)>) -> bool {
    forall|i: int, j: int| 0 <= i < s.len() && 0 <= j < s.len() && i != j ==> s[i].0@ != s[j].0@
}

/// The value that `s` holds under `k`: that of its first entry so keyed.
pub open spec fn lookup(s: Seq<(String, ConfigValue)>, k: Seq<char>) -> Option<ConfigValue> {
    let i = index_of(s, k);
    if i >= 0 {
        Some(s[i].1)
    } else {
        None
    }
}

/// `s` with `(k, v)` put in: it replaces the first entry keyed like `k`, or
/// is appended where there is none.
pub open spec fn put(s: Seq<(String, ConfigValue)>, k: String, v: ConfigValue) -> Seq<(String, ConfigValue)> {
    let i = index_of(s, k@);
    if i >= 0 {
        s.update(i, (k, v))
    } else {
        s.push((k, v))
    }
}

/// `base` with every entry of `over` put in, in order.
pub open spec fn put_all(base: Seq<(String, ConfigValue)>, over: Seq<(String, ConfigValue)>) -> Seq<
    (String, ConfigValue),
>
    decreases over.len(),
{
    if over.len() == 0 {
        base
    } else {
        let last = over.last();
        put(put_all(base, over.drop_last()), last.0, last.1)
    }
}

/// What `index_of` finds: the first entry with that key.
pub proof fn lemma_index_of(s: Seq<(String, ConfigValue)>, k: Seq<char>)
    ensures
        -1 <= index_of(s, k) < s.len(),
        index_of(s, k) >= 0 ==> s[index_of(s, k)].0@ == k,
        index_of(s, k) >= 0 ==> forall|j: int| 0 <= j < index_of(s, k) ==> s[j].0@ != k,
        index_of(s, k) < 0 ==> forall|j: int| 0 <= j < s.len() ==> s[j].0@ != k,
        has_key(s, k) <==> index_of(s, k) >= 0,
    decreases s.len(),
{
    if s.len() > 0 {
        lemma_index_of(s.drop_last(), k);
        assert(forall|j: int| 0 <= j < s.len() - 1 ==> s.drop_last()[j] == s[j]);
    }
    if index_of(s, k) >= 0 {
        assert(s[index_of(s, k)].0@ == k);
    }
}

/// The entry at position `i` of `s` is the first keyed like it when the keys
/// of `s` are distinct.
pub proof fn lemma_index_of_distinct(s: Seq<(String, ConfigValue)>, i: int)
    requires
        keys_distinct(s),
        0 <= i < s.len(),
    ensures
        index_of(s, s[i].0@) == i,
{
    lemma_index_of(s, s[i].0@);
    assert(has_key(s, s[i].0@));
}

/// Putting an entry in keeps the keys distinct and adds exactly that key.
pub proof fn lemma_put(s: Seq<(String, ConfigValue)>, k: String, v: ConfigValue)
    requires
        keys_distinct(s),
    ensures
        keys_distinct(put(s, k, v)),
        forall|q: Seq<char>| #[trigger] has_key(put(s, k, v), q) <==> (has_key(s, q) || q == k@),
        lookup(put(s, k, v), k@) == Some(v),
        forall|q: Seq<char>| q != k@ ==> #[trigger] lookup(put(s, k, v), q) == lookup(s, q),
{
    lemma_index_of(s, k@);
    let r = put(s, k, v);
    assert forall|q: Seq<char>| #[trigger] has_key(r, q) <==> (has_key(s, q) || q == k@) by {
        if has_key(r, q) {
            let j = choose|j: int| 0 <= j < r.len() && #[trigger] r[j].0@ == q;
            if j < s.len() && q != k@ {
                assert(s[j].0@ == q);
            }
        }
        if q == k@ {
            if index_of(s, k@) >= 0 {
                assert(r[index_of(s, k@)].0@ == q);
            } else {
                assert(r[s.len() as int].0@ == q);
            }
        } else if has_key(s, q) {
            let j = choose|j: int| 0 <= j < s.len() && #[trigger] s[j].0@ == q;
            assert(r[j].0@ == q);
        }
    }
    assert(keys_distinct(r));
    lemma_index_of(r, k@);
    if index_of(s, k@) >= 0 {
        lemma_index_of_distinct(r, index_of(s, k@));
    } else {
        lemma_index_of_distinct(r, s.len() as int);
    }
    assert forall|q: Seq<char>| q != k@ implies #[trigger] lookup(r, q) == lookup(s, q) by {
        lemma_index_of(s, q);
        lemma_index_of(r, q);
        if index_of(s, q) >= 0 {
            lemma_index_of_distinct(r, index_of(s, q));
        }
    }
}

/// Position of the first entry of `entries` keyed `key`.
pub fn find_key(entries: &Vec<(String, ConfigValue)>, key: &String) -> (r: Option<usize>)
    ensures
        r is Some <==> index_of(entries@, key@) >= 0,
        r is Some ==> r->0 as int == index_of(entries@, key@) && r->0 < entries@.len(),
{
    let mut i: usize = 0;
    while i < entries.len()
        invariant
            i <= entries.len(),
            forall|j: int| 0 <= j < i ==> entries@[j].0@ != key@,
        decreases entries.len() - i,
    {
        if entries[i].0 == *key {
            proof {
                lemma_index_of(entries@, key@);
            }
            return Some(i);
        }
        i = i + 1;
    }
    proof {
        lemma_index_of(entries@, key@);
    }
    None
}

/// Puts `(key, value)` into `entries`: it replaces the entry keyed like `key`,
/// or is appended where there is none.
pub fn put_entry(entries: &mut Vec<(String, ConfigValue)>, key: String, value: ConfigValue)
    ensures
        final(entries)@ == put(old(entries)@, key, value),
{
    match find_key(entries, &key) {
        Some(i) => {
            entries.set(i, (key, value));
        },
        None => {
            entries.push((key, value));
        },
    }
}

} // verus!
