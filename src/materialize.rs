//! Reading a `ConfigValue` tree out into typed destinations: scalars with
//! strict kind matching, optional values, sequences, records by exact key
//! match, and enum variants.
use crate::error::{rendered, ConfigError, ErrorKind, SERDE_ERROR_PREFIX};
use crate::value::ConfigValue;
use vstd::prelude::*;
use vstd::string::StrSliceExecFns;
use vstd::string::StringExecFns;

verus! {

/// The name of the kind of a value, as errors report it.
pub open spec fn kind_name(v: ConfigValue) -> Seq<char> {
    match v {
        ConfigValue::Bool(_) => "bool"@,
        ConfigValue::Int64(_) => "i64"@,
        ConfigValue::Float64(_) => "float"@,
        ConfigValue::String(_) => "string"@,
        ConfigValue::Array(_) => "array"@,
        ConfigValue::Table(_) => "table"@,
        ConfigValue::Null => "null"@,
    }
}

/// The error holds a materialization detail with the text `d`.
pub open spec fn is_serde_error(e: ConfigError, d: Seq<char>) -> bool {
    e.kind is SerdeError && e.kind->SerdeError_0@ == d
}

pub open spec fn serde_lead() -> Seq<char> {
    "[CONFIG][ERROR][SERDE]"@
}

/// A value of one kind where another was asked for.
pub open spec fn mismatch_text(expected: Seq<char>, v: ConfigValue) -> Seq<char> {
    serde_lead() + " expected "@ + expected + ", found "@ + kind_name(v)
}

pub open spec fn missing_field_text(name: Seq<char>) -> Seq<char> {
    serde_lead() + " missing field `"@ + name + "`"@
}

pub open spec fn duplicate_field_text(name: Seq<char>) -> Seq<char> {
    serde_lead() + " duplicate field `"@ + name + "`"@
}

pub open spec fn digit_char(d: nat) -> char {
    if d == 0 { '0' } else if d == 1 { '1' } else if d == 2 { '2' } else if d == 3 { '3' }
    else if d == 4 { '4' } else if d == 5 { '5' } else if d == 6 { '6' } else if d == 7 { '7' }
    else if d == 8 { '8' } else { '9' }
}

/// The decimal digits of `n`.
pub open spec fn decimal(n: nat) -> Seq<char>
    decreases n,
{
    if n < 10 {
        seq![digit_char(n)]
    } else {
        decimal(n / 10).push(digit_char(n % 10))
    }
}

pub open spec fn element_failure_text(i: nat, inner: ConfigError) -> Seq<char> {
    serde_lead() + " failed deserializing array/slice at index "@ + decimal(i) + ": "@ + rendered(inner)
}

pub open spec fn entry_failure_text(key: Seq<char>, inner: ConfigError) -> Seq<char> {
    serde_lead() + " failed deserializing map at key "@ + key + ": "@ + rendered(inner)
}

pub open spec fn no_constructor_text(name: Seq<char>, variant: Seq<char>) -> Seq<char> {
    "enum "@ + name + " does not have variant constructor "@ + variant
}

pub open spec fn structural_text(name: Seq<char>) -> Seq<char> {
    "value of enum "@ + name + " should be represented by either string or table with exactly one key"@
}

fn serde_failure(d: String) -> (e: ConfigError)
    ensures
        is_serde_error(e, d@),
{
    ConfigError::new(ErrorKind::SerdeError(d))
}

fn lead() -> (r: String)
    ensures
        r@ == serde_lead(),
{
    proof {
        reveal_strlit("[CONFIG][ERROR][SERDE]");
    }
    String::from_str(SERDE_ERROR_PREFIX)
}

fn kind_name_of(v: &ConfigValue) -> (r: &'static str)
    ensures
        r@ == kind_name(*v),
{
    match v {
        ConfigValue::Bool(_) => "bool",
        ConfigValue::Int64(_) => "i64",
        ConfigValue::Float64(_) => "float",
        ConfigValue::String(_) => "string",
        ConfigValue::Array(_) => "array",
        ConfigValue::Table(_) => "table",
        ConfigValue::Null => "null",
    }
}

/// The error of finding `v` where a value of kind `expected` was asked for.
pub fn mismatch(expected: &str, v: &ConfigValue) -> (e: ConfigError)
    ensures
        is_serde_error(e, mismatch_text(expected@, *v)),
{
    let mut d = lead();
    d.append(" expected ");
    d.append(expected);
    d.append(", found ");
    d.append(kind_name_of(v));
    serde_failure(d)
}

/// The error of a record field that no key supplies.
pub fn missing_field(name: &str) -> (e: ConfigError)
    ensures
        is_serde_error(e, missing_field_text(name@)),
{
    let mut d = lead();
    d.append(" missing field `");
    d.append(name);
    d.append("`");
    serde_failure(d)
}

/// The error of a record field that two keys supply.
pub fn duplicate_field(name: &str) -> (e: ConfigError)
    ensures
        is_serde_error(e, duplicate_field_text(name@)),
{
    let mut d = lead();
    d.append(" duplicate field `");
    d.append(name);
    d.append("`");
    serde_failure(d)
}

fn digit_str(d: usize) -> (r: &'static str)
    requires
        d < 10,
    ensures
        r@ == seq![digit_char(d as nat)],
{
    proof {
        reveal_strlit("0");
        reveal_strlit("1");
        reveal_strlit("2");
        reveal_strlit("3");
        reveal_strlit("4");
        reveal_strlit("5");
        reveal_strlit("6");
        reveal_strlit("7");
        reveal_strlit("8");
        reveal_strlit("9");
    }
    if d == 0 { "0" } else if d == 1 { "1" } else if d == 2 { "2" } else if d == 3 { "3" }
    else if d == 4 { "4" } else if d == 5 { "5" } else if d == 6 { "6" } else if d == 7 { "7" }
    else if d == 8 { "8" } else { "9" }
}

/// The decimal text of `n`.
pub fn decimal_text(n: usize) -> (r: String)
    ensures
        r@ == decimal(n as nat),
    decreases n,
{
    if n < 10 {
        String::from_str(digit_str(n))
    } else {
        let mut r = decimal_text(n / 10);
        r.append(digit_str(n % 10));
        r
    }
}

/// The error of the element at index `i` of a sequence failing with `inner`.
pub fn element_failure(i: usize, inner: &ConfigError) -> (e: ConfigError)
    ensures
        is_serde_error(e, element_failure_text(i as nat, *inner)),
{
    let mut d = lead();
    d.append(" failed deserializing array/slice at index ");
    d.append(decimal_text(i).as_str());
    d.append(": ");
    d.append(inner.to_string().as_str());
    serde_failure(d)
}

/// The error of the entry at `key` of a table failing with `inner`.
pub fn entry_failure(key: &str, inner: &ConfigError) -> (e: ConfigError)
    ensures
        is_serde_error(e, entry_failure_text(key@, *inner)),
{
    let mut d = lead();
    d.append(" failed deserializing map at key ");
    d.append(key);
    d.append(": ");
    d.append(inner.to_string().as_str());
    serde_failure(d)
}

/// Reads a boolean; any other kind is a mismatch.
pub fn expect_bool(v: ConfigValue) -> (r: Result<bool, ConfigError>)
    ensures
        v is Bool ==> r == Ok::<bool, ConfigError>(v->Bool_0),
        !(v is Bool) ==> (r matches Err(e) && is_serde_error(e, mismatch_text("bool"@, v))),
{
    match v {
        ConfigValue::Bool(b) => Ok(b),
        _ => Err(mismatch("bool", &v)),
    }
}

/// Reads a 64-bit integer; any other kind, a float included, is a mismatch.
pub fn expect_i64(v: ConfigValue) -> (r: Result<i64, ConfigError>)
    ensures
        v is Int64 ==> r == Ok::<i64, ConfigError>(v->Int64_0),
        !(v is Int64) ==> (r matches Err(e) && is_serde_error(e, mismatch_text("i64"@, v))),
{
    match v {
        ConfigValue::Int64(n) => Ok(n),
        _ => Err(mismatch("i64", &v)),
    }
}

/// Reads the decimal text of a float; any other kind, an integer included,
/// is a mismatch.
pub fn expect_float(v: ConfigValue) -> (r: Result<String, ConfigError>)
    ensures
        v is Float64 ==> r == Ok::<String, ConfigError>(v->Float64_0),
        !(v is Float64) ==> (r matches Err(e) && is_serde_error(e, mismatch_text("float"@, v))),
{
    match v {
        ConfigValue::Float64(t) => Ok(t),
        _ => Err(mismatch("float", &v)),
    }
}

/// Reads a string; any other kind is a mismatch.
pub fn expect_string(v: ConfigValue) -> (r: Result<String, ConfigError>)
    ensures
        v is String ==> r == Ok::<String, ConfigError>(v->String_0),
        !(v is String) ==> (r matches Err(e) && is_serde_error(e, mismatch_text("string"@, v))),
{
    match v {
        ConfigValue::String(s) => Ok(s),
        _ => Err(mismatch("string", &v)),
    }
}

/// Reads the elements of an array; any other kind is a mismatch.
pub fn expect_array(v: ConfigValue) -> (r: Result<Vec<ConfigValue>, ConfigError>)
    ensures
        v is Array ==> r == Ok::<Vec<ConfigValue>, ConfigError>(v->Array_0),
        !(v is Array) ==> (r matches Err(e) && is_serde_error(e, mismatch_text("array"@, v))),
{
    match v {
        ConfigValue::Array(a) => Ok(a),
        _ => Err(mismatch("array", &v)),
    }
}

/// Reads the entries of a table; any other kind is a mismatch.
pub fn expect_table(v: ConfigValue) -> (r: Result<Vec<(String, ConfigValue)>, ConfigError>)
    ensures
        v is Table ==> r == Ok::<Vec<(String, ConfigValue)>, ConfigError>(v->Table_0),
        !(v is Table) ==> (r matches Err(e) && is_serde_error(e, mismatch_text("table"@, v))),
{
    match v {
        ConfigValue::Table(t) => Ok(t),
        _ => Err(mismatch("table", &v)),
    }
}

/// The optional reading of a value: `Null` is absent, anything else present.
pub fn optional(v: ConfigValue) -> (r: Option<ConfigValue>)
    ensures
        v is Null ==> r is None,
        !(v is Null) ==> r == Some(v),
{
    match v {
        ConfigValue::Null => None,
        _ => Some(v),
    }
}

/// Whether the texts of `a` and `b` are the same.
pub fn str_eq(a: &str, b: &str) -> (r: bool)
    ensures
        r == (a@ == b@),
{
    let n = a.unicode_len();
    if n != b.unicode_len() {
        return false;
    }
    let mut i: usize = 0;
    while i < n
        invariant
            n == a@.len(),
            n == b@.len(),
            i <= n,
            forall|j: int| 0 <= j < i ==> a@[j] == b@[j],
        decreases n - i,
    {
        if a.get_char(i) != b.get_char(i) {
            return false;
        }
        i = i + 1;
    }
    assert(a@ =~= b@);
    true
}

/// `k` is exactly one of `names`: same characters, same case.
pub open spec fn names_one_of(k: Seq<char>, names: Seq<&str>) -> bool {
    exists|j: int| 0 <= j < names.len() && #[trigger] names[j]@ == k
}

/// Position of the first of `names` that is exactly `k`.
pub fn position_in(k: &str, names: &[&str]) -> (r: Option<usize>)
    ensures
        r is None <==> !names_one_of(k@, names@),
        r is Some ==> r->0 < names@.len() && names@[r->0 as int]@ == k@,
{
    let mut j: usize = 0;
    while j < names.len()
        invariant
            j <= names@.len(),
            forall|q: int| 0 <= q < j ==> names@[q]@ != k@,
        decreases names@.len() - j,
    {
        if str_eq(names[j], k) {
            return Some(j);
        }
        j = j + 1;
    }
    None
}

/// Position of the first entry of `s` keyed exactly by one of `names`, or -1.
pub open spec fn field_index(s: Seq<(String, ConfigValue)>, names: Seq<&str>) -> int
    decreases s.len(),
{
    if s.len() == 0 {
        -1
    } else {
        let i = field_index(s.drop_last(), names);
        if i >= 0 {
            i
        } else if names_one_of(s.last().0@, names) {
            s.len() - 1
        } else {
            -1
        }
    }
}

/// Two entries of `s` are keyed by one of `names`.
pub open spec fn field_repeated(s: Seq<(String, ConfigValue)>, names: Seq<&str>) -> bool {
    exists|i: int, j: int|
        0 <= i < j < s.len() && names_one_of(#[trigger] s[i].0@, names) && names_one_of(
            #[trigger] s[j].0@,
            names,
        )
}

proof fn lemma_field_index(s: Seq<(String, ConfigValue)>, names: Seq<&str>)
    ensures
        -1 <= field_index(s, names) < s.len(),
        field_index(s, names) >= 0 ==> names_one_of(s[field_index(s, names)].0@, names),
        forall|j: int| 0 <= j < s.len() && j < field_index(s, names) ==> !names_one_of(#[trigger] s[j].0@, names),
        field_index(s, names) < 0 ==> forall|j: int| 0 <= j < s.len() ==> !names_one_of(#[trigger] s[j].0@, names),
    decreases s.len(),
{
    if s.len() > 0 {
        lemma_field_index(s.drop_last(), names);
        assert(forall|j: int| 0 <= j < s.len() - 1 ==> s.drop_last()[j] == s[j]);
    }
}

/// Exact-match lookup: a field whose name and aliases all differ, in any
/// character or in letter case, from every key of a table is not found there.
pub proof fn lemma_exact_match(s: Seq<(String, ConfigValue)>, names: Seq<&str>)
    requires
        forall|i: int, j: int| 0 <= i < s.len() && 0 <= j < names.len() ==> #[trigger] s[i].0@ != #[trigger] names[j]@,
    ensures
        field_index(s, names) < 0,
{
    lemma_field_index(s, names);
    if field_index(s, names) >= 0 {
        let i = field_index(s, names);
        let j = choose|j: int| 0 <= j < names.len() && #[trigger] names[j]@ == s[i].0@;
        assert(s[i].0@ != names[j]@);
    }
}

/// The entries of a table as the fields of a record. Each field is taken by
/// its name or one of its aliases, matched exactly.
pub struct Fields {
    pub entries: Vec<(String, ConfigValue)>,
}

impl Fields {
    pub fn new(entries: Vec<(String, ConfigValue)>) -> (r: Fields)
        ensures
            r.entries == entries,
    {
        Fields { entries }
    }

    /// Reads the fields of a table; any other kind is a mismatch.
    pub fn of(v: ConfigValue) -> (r: Result<Fields, ConfigError>)
        ensures
            v is Table ==> (r matches Ok(f) && f.entries == v->Table_0),
            !(v is Table) ==> (r matches Err(e) && is_serde_error(e, mismatch_text("table"@, v))),
    {
        match expect_table(v) {
            Ok(t) => Ok(Fields { entries: t }),
            Err(e) => Err(e),
        }
    }

    /// Takes out the entry keyed exactly by one of `names` (a field's name
    /// and its aliases): absent when no key is one of them, a duplicate-field
    /// error naming `names[0]` when two keys are.
    pub fn take(&mut self, names: &[&str]) -> (r: Result<Option<ConfigValue>, ConfigError>)
        requires
            names@.len() > 0,
        ensures
            ({
                let s = old(self).entries@;
                let i = field_index(s, names@);
                if i < 0 {
                    r == Ok::<Option<ConfigValue>, ConfigError>(None) && final(self).entries@ == s
                } else if field_repeated(s, names@) {
                    r matches Err(e) && is_serde_error(e, duplicate_field_text(names@[0]@))
                } else {
                    r == Ok::<Option<ConfigValue>, ConfigError>(Some(s[i].1))
                        && final(self).entries@ == s.remove(i)
                }
            }),
    {
        let ghost s = self.entries@;
        proof {
            lemma_field_index(s, names@);
        }
        let mut found: Option<usize> = None;
        let mut i: usize = 0;
        while i < self.entries.len()
            invariant
                self.entries@ == s,
                i <= s.len(),
                -1 <= field_index(s, names@) < s.len(),
                field_index(s, names@) >= 0 ==> names_one_of(s[field_index(s, names@)].0@, names@),
                forall|j: int| 0 <= j < s.len() && j < field_index(s, names@) ==> !names_one_of(#[trigger] s[j].0@, names@),
                field_index(s, names@) < 0 ==> forall|j: int| 0 <= j < s.len() ==> !names_one_of(#[trigger] s[j].0@, names@),
                found is None ==> forall|j: int| 0 <= j < i ==> !names_one_of(#[trigger] s[j].0@, names@),
                found is Some ==> found->0 == field_index(s, names@) && found->0 < i,
                found is Some ==> forall|j: int| found->0 < j < i ==> !names_one_of(#[trigger] s[j].0@, names@),
            decreases s.len() - i,
        {
            let hit = position_in(self.entries[i].0.as_str(), names).is_some();
            if hit {
                match found {
                    Some(f) => {
                        proof {
                            assert(names_one_of(s[f as int].0@, names@));
                            assert(field_repeated(s, names@));
                        }
                        return Err(duplicate_field(names[0]));
                    },
                    None => {
                        found = Some(i);
                    },
                }
            }
            i = i + 1;
        }
        match found {
            None => Ok(None),
            Some(f) => {
                proof {
                    assert(!field_repeated(s, names@)) by {
                        if field_repeated(s, names@) {
                            let (a, b) = choose|a: int, b: int|
                                0 <= a < b < s.len() && names_one_of(#[trigger] s[a].0@, names@)
                                    && names_one_of(#[trigger] s[b].0@, names@);
                            assert(a >= f);
                        }
                    }
                }
                let (_, v) = self.entries.remove(f);
                Ok(Some(v))
            },
        }
    }
}

/// A record field that must be present: an absent one is a missing-field
/// error naming `name`.
pub fn required(v: Option<ConfigValue>, name: &str) -> (r: Result<ConfigValue, ConfigError>)
    ensures
        v is Some ==> r == Ok::<ConfigValue, ConfigError>(v->0),
        v is None ==> (r matches Err(e) && is_serde_error(e, missing_field_text(name@))),
{
    match v {
        Some(x) => Ok(x),
        None => Err(missing_field(name)),
    }
}

/// The texts of an enum-shape failure: `value` names no variant of the enum.
fn enum_text(lead_words: &str, name: &str, middle: &str, tail: &str) -> (r: String)
    ensures
        r@ == lead_words@ + name@ + middle@ + tail@,
{
    let mut d = String::from_str(lead_words);
    d.append(name);
    d.append(middle);
    d.append(tail);
    d
}

/// A value read as a variant of the enum `name`, whose variants are named
/// `variants`: a string names a unit variant; a table with exactly one entry
/// names a variant by its key and carries the entry's value as its payload.
pub struct EnumAccess<'a> {
    pub value: ConfigValue,
    pub name: &'a str,
    pub variants: &'a [&'a str],
}

impl<'a> EnumAccess<'a> {
    pub fn new(value: ConfigValue, name: &'a str, variants: &'a [&'a str]) -> (r: EnumAccess<'a>)
        ensures
            r.value == value,
            r.name == name,
            r.variants == variants,
    {
        EnumAccess { value, name, variants }
    }

    /// The error of `supposed_variant` not naming a variant.
    pub fn no_constructor_error(&self, supposed_variant: &str) -> (e: ConfigError)
        ensures
            is_serde_error(e, no_constructor_text(self.name@, supposed_variant@)),
    {
        proof {
            reveal_strlit("enum ");
            reveal_strlit(" does not have variant constructor ");
        }
        serde_failure(enum_text("enum ", self.name, " does not have variant constructor ", supposed_variant))
    }

    /// The error of a value that is neither a string nor a one-entry table.
    pub fn structural_error(&self) -> (e: ConfigError)
        ensures
            is_serde_error(e, structural_text(self.name@)),
    {
        proof {
            reveal_strlit("value of enum ");
            reveal_strlit(" should be represented by either string or table with exactly one key");
        }
        let mut d = String::from_str("value of enum ");
        d.append(self.name);
        d.append(" should be represented by either string or table with exactly one key");
        serde_failure(d)
    }

    /// The position of the variant named exactly `name`.
    pub fn variant_deserializer(&self, name: &str) -> (r: Result<usize, ConfigError>)
        ensures
            names_one_of(name@, self.variants@) ==> (r matches Ok(i) && i < self.variants@.len()
                && self.variants@[i as int]@ == name@),
            !names_one_of(name@, self.variants@) ==> (r matches Err(e) && is_serde_error(
                e,
                no_constructor_text(self.name@, name@),
            )),
    {
        match position_in(name, self.variants) {
            Some(i) => Ok(i),
            None => Err(self.no_constructor_error(name)),
        }
    }

    /// The position of the variant that the single key of `table` names.
    pub fn table_deserializer(&self, table: &Vec<(String, ConfigValue)>) -> (r: Result<usize, ConfigError>)
        ensures
            table@.len() != 1 ==> (r matches Err(e) && is_serde_error(e, structural_text(self.name@))),
            table@.len() == 1 && names_one_of(table@[0].0@, self.variants@) ==> (r matches Ok(i)
                && i < self.variants@.len() && self.variants@[i as int]@ == table@[0].0@),
            table@.len() == 1 && !names_one_of(table@[0].0@, self.variants@) ==> (r matches Err(e)
                && is_serde_error(e, no_constructor_text(self.name@, table@[0].0@))),
    {
        if table.len() == 1 {
            self.variant_deserializer(table[0].0.as_str())
        } else {
            Err(self.structural_error())
        }
    }

    /// Selects the variant: its position, and the payload that a one-entry
    /// table carries (none for a string).
    pub fn variant(self) -> (r: Result<(usize, Option<ConfigValue>), ConfigError>)
        ensures
            ({
                let v = self.value;
                let vs = self.variants@;
                if v is String {
                    if names_one_of(v->String_0@, vs) {
                        r matches Ok((i, p)) && i < vs.len() && vs[i as int]@ == v->String_0@ && p is None
                    } else {
                        r matches Err(e) && is_serde_error(e, no_constructor_text(self.name@, v->String_0@))
                    }
                } else if v is Table && v->Table_0@.len() == 1 {
                    let (k, payload) = v->Table_0@[0];
                    if names_one_of(k@, vs) {
                        r matches Ok((i, p)) && i < vs.len() && vs[i as int]@ == k@ && p == Some(payload)
                    } else {
                        r matches Err(e) && is_serde_error(e, no_constructor_text(self.name@, k@))
                    }
                } else {
                    r matches Err(e) && is_serde_error(e, structural_text(self.name@))
                }
            }),
    {
        let which = match &self.value {
            ConfigValue::String(s) => self.variant_deserializer(s.as_str()),
            ConfigValue::Table(t) => self.table_deserializer(t),
            _ => Err(self.structural_error()),
        };
        match which {
            Err(e) => Err(e),
            Ok(i) => match self.value {
                ConfigValue::Table(mut t) => {
                    let (_, payload) = t.remove(0);
                    Ok((i, Some(payload)))
                },
                _ => Ok((i, None)),
            },
        }
    }
}

/// The elements of an array, handed out in order with their index.
pub struct SeqAccess {
    pub elements: Vec<ConfigValue>,
    pub index: usize,
}

impl SeqAccess {
    pub fn new(elements: Vec<ConfigValue>) -> (r: SeqAccess)
        ensures
            r.elements == elements,
            r.index == 0,
    {
        SeqAccess { elements, index: 0 }
    }

    /// Takes out the next element with its index, if any is left.
    pub fn next_element(&mut self) -> (r: Option<(usize, ConfigValue)>)
        requires
            old(self).index + old(self).elements@.len() <= usize::MAX,
        ensures
            old(self).elements@.len() == 0 ==> r is None && *final(self) == *old(self),
            old(self).elements@.len() > 0 ==> r == Some((old(self).index, old(self).elements@[0]))
                && final(self).elements@ == old(self).elements@.drop_first()
                && final(self).index == old(self).index + 1,
    {
        if self.elements.len() == 0 {
            return None;
        }
        let v = self.elements.remove(0);
        let i = self.index;
        self.index = i + 1;
        Some((i, v))
    }
}

/// The entries of a table, handed out in order.
pub struct MapAccess {
    pub elements: Vec<(String, ConfigValue)>,
}

impl MapAccess {
    pub fn new(elements: Vec<(String, ConfigValue)>) -> (r: MapAccess)
        ensures
            r.elements == elements,
    {
        MapAccess { elements }
    }

    /// The key of the next entry, verbatim, without taking the entry out.
    pub fn next_key(&self) -> (r: Option<&String>)
        ensures
            self.elements@.len() == 0 ==> r is None,
            self.elements@.len() > 0 ==> r == Some(&self.elements@[0].0),
    {
        if self.elements.len() == 0 {
            None
        } else {
            Some(&self.elements[0].0)
        }
    }

    /// Takes out the next entry, if any is left.
    pub fn next_entry(&mut self) -> (r: Option<(String, ConfigValue)>)
        ensures
            old(self).elements@.len() == 0 ==> r is None && *final(self) == *old(self),
            old(self).elements@.len() > 0 ==> r == Some(old(self).elements@[0])
                && final(self).elements@ == old(self).elements@.drop_first(),
    {
        if self.elements.len() == 0 {
            return None;
        }
        Some(self.elements.remove(0))
    }
}

/// A destination shape that a value can be materialized into.
///
/// `materializes(v, r)` says that `r` is an outcome of materializing `v`
/// into the shape; `from_value` returns such an outcome. A shape that states
/// no relation admits every outcome.
pub trait FromValue: Sized {
    open spec fn materializes(v: ConfigValue, r: Result<Self, ConfigError>) -> bool {
        true
    }

    fn from_value(v: ConfigValue) -> (r: Result<Self, ConfigError>)
        ensures
            Self::materializes(v, r),
    ;
}

/// `v` has a successful materialization into `T`.
pub open spec fn accepted<T: FromValue>(v: ConfigValue) -> bool {
    exists|x: T| #[trigger] T::materializes(v, Ok(x))
}

/// The outcome of materializing a sequence of values: every element in
/// order; on failure, the first element that failed, reported with its index
/// and its own error.
pub open spec fn seq_outcome<T: FromValue>(a: Seq<ConfigValue>, r: Result<Vec<T>, ConfigError>) -> bool {
    match r {
        Ok(out) => out@.len() == a.len() && forall|i: int|
            0 <= i < a.len() ==> #[trigger] T::materializes(a[i], Ok(out@[i])),
        Err(e) => exists|i: int, inner: ConfigError|
            0 <= i < a.len() && (forall|j: int| 0 <= j < i ==> accepted::<T>(#[trigger] a[j]))
                && #[trigger] T::materializes(a[i], Err(inner)) && is_serde_error(
                e,
                element_failure_text(i as nat, inner),
            ),
    }
}

/// The outcome of materializing the values of a table, keys kept: every
/// entry in order; on failure, the first entry that failed, reported with its
/// key and its own error.
pub open spec fn entries_outcome<T: FromValue>(
    a: Seq<(String, ConfigValue)>,
    r: Result<Vec<(String, T)>, ConfigError>,
) -> bool {
    match r {
        Ok(out) => out@.len() == a.len() && forall|i: int|
            0 <= i < a.len() ==> (#[trigger] out@[i]).0 == a[i].0 && T::materializes(
                a[i].1,
                Ok(out@[i].1),
            ),
        Err(e) => exists|i: int, inner: ConfigError|
            0 <= i < a.len() && (forall|j: int| 0 <= j < i ==> accepted::<T>(#[trigger] a[j].1))
                && #[trigger] T::materializes(a[i].1, Err(inner)) && is_serde_error(
                e,
                entry_failure_text(a[i].0@, inner),
            ),
    }
}

impl FromValue for ConfigValue {
    /// A value materializes into itself.
    open spec fn materializes(v: ConfigValue, r: Result<Self, ConfigError>) -> bool {
        r == Ok::<ConfigValue, ConfigError>(v)
    }

    fn from_value(v: ConfigValue) -> (r: Result<Self, ConfigError>) {
        Ok(v)
    }
}

impl FromValue for bool {
    open spec fn materializes(v: ConfigValue, r: Result<Self, ConfigError>) -> bool {
        if v is Bool {
            r == Ok::<bool, ConfigError>(v->Bool_0)
        } else {
            r matches Err(e) && is_serde_error(e, mismatch_text("bool"@, v))
        }
    }

    fn from_value(v: ConfigValue) -> (r: Result<Self, ConfigError>) {
        expect_bool(v)
    }
}

impl FromValue for i64 {
    open spec fn materializes(v: ConfigValue, r: Result<Self, ConfigError>) -> bool {
        if v is Int64 {
            r == Ok::<i64, ConfigError>(v->Int64_0)
        } else {
            r matches Err(e) && is_serde_error(e, mismatch_text("i64"@, v))
        }
    }

    fn from_value(v: ConfigValue) -> (r: Result<Self, ConfigError>) {
        expect_i64(v)
    }
}

impl FromValue for String {
    open spec fn materializes(v: ConfigValue, r: Result<Self, ConfigError>) -> bool {
        if v is String {
            r == Ok::<String, ConfigError>(v->String_0)
        } else {
            r matches Err(e) && is_serde_error(e, mismatch_text("string"@, v))
        }
    }

    fn from_value(v: ConfigValue) -> (r: Result<Self, ConfigError>) {
        expect_string(v)
    }
}

impl<T: FromValue> FromValue for Option<T> {
    /// `Null` is absent; anything else is present, the inner value materialized.
    open spec fn materializes(v: ConfigValue, r: Result<Self, ConfigError>) -> bool {
        if v is Null {
            r == Ok::<Option<T>, ConfigError>(None)
        } else {
            match r {
                Ok(Some(x)) => T::materializes(v, Ok(x)),
                Ok(None) => false,
                Err(e) => T::materializes(v, Err(e)),
            }
        }
    }

    fn from_value(v: ConfigValue) -> (r: Result<Self, ConfigError>) {
        match optional(v) {
            None => Ok(None),
            Some(x) => match T::from_value(x) {
                Ok(t) => Ok(Some(t)),
                Err(e) => Err(e),
            },
        }
    }
}

impl<T: FromValue> FromValue for Vec<T> {
    /// An array materializes element by element; any other kind is a mismatch.
    open spec fn materializes(v: ConfigValue, r: Result<Self, ConfigError>) -> bool {
        if v is Array {
            seq_outcome::<T>(v->Array_0@, r)
        } else {
            r matches Err(e) && is_serde_error(e, mismatch_text("array"@, v))
        }
    }

    fn from_value(v: ConfigValue) -> (r: Result<Self, ConfigError>) {
        materialize_seq(v)
    }
}

/// Materializes an array element by element, in order, handing each element
/// to `T::from_value`; the first element that fails is reported with its
/// index and its error. Any other kind is a mismatch.
pub fn materialize_seq<T: FromValue>(v: ConfigValue) -> (r: Result<Vec<T>, ConfigError>)
    ensures
        !(v is Array) ==> (r matches Err(e) && is_serde_error(e, mismatch_text("array"@, v))),
        v is Array ==> seq_outcome::<T>(v->Array_0@, r),
{
    let elements = match expect_array(v) {
        Ok(a) => a,
        Err(e) => return Err(e),
    };
    let ghost a = elements@;
    let n0 = elements.len();
    let mut access = SeqAccess::new(elements);
    let mut out: Vec<T> = Vec::new();
    while access.elements.len() > 0
        invariant
            v is Array,
            v->Array_0@ == a,
            a.len() == n0,
            out@.len() == access.index,
            access.index + access.elements@.len() == n0,
            access.elements@ == a.subrange(access.index as int, n0 as int),
            forall|j: int| 0 <= j < out@.len() ==> #[trigger] T::materializes(a[j], Ok(out@[j])),
        decreases access.elements@.len(),
    {
        let ghost k = access.index as int;
        match access.next_element() {
            Some((i, x)) => {
                assert(x == a[k]);
                match T::from_value(x) {
                    Ok(t) => {
                        out.push(t);
                        assert(access.elements@ =~= a.subrange(access.index as int, n0 as int));
                    },
                    Err(e) => {
                        let f = element_failure(i, &e);
                        proof {
                            assert forall|j: int| 0 <= j < k implies accepted::<T>(#[trigger] a[j]) by {
                                assert(T::materializes(a[j], Ok(out@[j])));
                            }
                            assert(T::materializes(a[k], Err(e)));
                        }
                        return Err(f);
                    },
                }
            },
            None => {},
        }
    }
    assert(out@.len() == a.len());
    Ok(out)
}

/// Materializes each value of a table in order, keeping its key and handing
/// the value to `T::from_value`; the first entry that fails is reported with
/// its key and its error. Any other kind is a mismatch.
pub fn materialize_entries<T: FromValue>(v: ConfigValue) -> (r: Result<Vec<(String, T)>, ConfigError>)
    ensures
        !(v is Table) ==> (r matches Err(e) && is_serde_error(e, mismatch_text("table"@, v))),
        v is Table ==> entries_outcome::<T>(v->Table_0@, r),
{
    let entries = match expect_table(v) {
        Ok(t) => t,
        Err(e) => return Err(e),
    };
    let ghost a = entries@;
    let n0 = entries.len();
    let mut access = MapAccess::new(entries);
    let mut out: Vec<(String, T)> = Vec::new();
    while access.elements.len() > 0
        invariant
            v is Table,
            v->Table_0@ == a,
            a.len() == n0,
            out@.len() + access.elements@.len() == n0,
            access.elements@ == a.subrange(out@.len() as int, n0 as int),
            forall|j: int|
                0 <= j < out@.len() ==> (#[trigger] out@[j]).0 == a[j].0 && T::materializes(
                    a[j].1,
                    Ok(out@[j].1),
                ),
        decreases access.elements@.len(),
    {
        let ghost k = out@.len() as int;
        match access.next_entry() {
            Some((key, x)) => {
                assert(key == a[k].0 && x == a[k].1);
                match T::from_value(x) {
                    Ok(t) => {
                        out.push((key, t));
                        assert(access.elements@ =~= a.subrange(out@.len() as int, n0 as int));
                    },
                    Err(e) => {
                        let f = entry_failure(key.as_str(), &e);
                        proof {
                            assert forall|j: int| 0 <= j < k implies accepted::<T>(#[trigger] a[j].1) by {
                                assert(T::materializes(a[j].1, Ok(out@[j].1)));
                            }
                            assert(T::materializes(a[k].1, Err(e)));
                        }
                        return Err(f);
                    },
                }
            },
            None => {},
        }
    }
    Ok(out)
}

} // verus!
