use crate::coerce::{coerce, coerced};
use crate::error::{kind_detail, ConfigError, ErrorKind};
use crate::materialize::{field_index, lemma_exact_match, FromValue};
use crate::sources::{
    dotenv_document, json_document, names_distinct, pairs_map, parse_json, parse_toml, parse_yaml,
    read_dotenv, toml_document, yaml_document,
};
use crate::value::{
    find_key, has_key, index_of, keys_distinct, lemma_index_of, lemma_put, lookup, put, put_all,
    put_entry, ConfigValue,
};
use vstd::prelude::*;
use vstd::string::StrSliceExecFns;
use vstd::string::StringExecFns;

verus! {

/// The configuration being assembled: what `Config` holds, as mathematics.
pub struct ConfigState {
    /// Entries from the environment, dotenv text and programmatic values.
    pub plain: Seq<(String, ConfigValue)>,
    /// Entries from JSON, TOML and YAML documents.
    pub files: Seq<(String, ConfigValue)>,
    /// Only plain keys that start with it survive finalization, when it is not empty.
    pub prefix: Seq<char>,
    /// Whether a repeated key replaces the earlier value instead of failing.
    pub overwrite: bool,
    /// The first failure met; once set, no source is applied any more.
    pub err: Option<ConfigError>,
}

/// The builder of a configuration. Every call consumes it and hands back the
/// updated session.
pub struct Config {
    env: Vec<(String, ConfigValue)>,
    files_env: Vec<(String, ConfigValue)>,
    prefix: String,
    overwrite: bool,
    err: Option<ConfigError>,
}

impl View for Config {
    type V = ConfigState;

    closed spec fn view(&self) -> ConfigState {
        ConfigState {
            plain: self.env@,
            files: self.files_env@,
            prefix: self.prefix@,
            overwrite: self.overwrite,
            err: self.err,
        }
    }
}

/// Both accumulators are free of repeated keys.
pub open spec fn state_wf(s: ConfigState) -> bool {
    keys_distinct(s.plain) && keys_distinct(s.files)
}

/// The session after a failure: everything gathered is dropped and only the
/// error stays.
pub open spec fn failed(e: ConfigError) -> ConfigState {
    ConfigState {
        plain: Seq::empty(),
        files: Seq::empty(),
        prefix: Seq::empty(),
        overwrite: false,
        err: Some(e),
    }
}

pub open spec fn duplicate(k: String) -> ConfigError {
    ConfigError { kind: ErrorKind::DuplicateKey(k) }
}

/// One entry inserted into the plain (`structured == false`) or the
/// structured accumulator under the duplicate policy.
pub open spec fn inserted(s: ConfigState, structured: bool, k: String, v: ConfigValue) -> ConfigState {
    let acc = if structured {
        s.files
    } else {
        s.plain
    };
    if s.err is Some {
        s
    } else if !s.overwrite && has_key(acc, k@) {
        failed(duplicate(k))
    } else if structured {
        ConfigState { files: put(acc, k, v), ..s }
    } else {
        ConfigState { plain: put(acc, k, v), ..s }
    }
}

/// The entries of `es` inserted one after another.
pub open spec fn inserted_all(s: ConfigState, structured: bool, es: Seq<(String, ConfigValue)>) -> ConfigState
    decreases es.len(),
{
    if es.len() == 0 {
        s
    } else {
        inserted(inserted_all(s, structured, es.drop_last()), structured, es.last().0, es.last().1)
    }
}

/// Raw text entries with their values coerced.
pub open spec fn coerced_entries(es: Seq<(String, String)>) -> Seq<(String, ConfigValue)> {
    es.map_values(|e: (String, String)| (e.0, coerced(e.1)))
}

/// The session that the process environment `vars` starts.
pub open spec fn started(vars: Seq<(String, String)>) -> ConfigState {
    ConfigState {
        plain: put_all(Seq::empty(), coerced_entries(vars)),
        files: Seq::empty(),
        prefix: Seq::empty(),
        overwrite: false,
        err: None,
    }
}

/// A parsed structured document taken in: the entries of a table root go to
/// the structured accumulator; any other root adds nothing.
pub open spec fn ingested(s: ConfigState, doc: ConfigValue) -> ConfigState {
    match doc {
        ConfigValue::Table(es) => inserted_all(s, true, es@),
        _ => s,
    }
}

/// The session after a failure of the given kind, whatever its message.
pub open spec fn failed_with(r: ConfigState, kind: spec_fn(String) -> ErrorKind) -> bool {
    r.err is Some && r == failed(r.err->0) && r.err->0.kind == kind(kind_detail(r.err->0.kind))
}

/// The words that open the message of a dotenv file that could not be read.
pub open spec fn dotenv_failure_lead(path: Seq<char>) -> Seq<char> {
    "error opening file "@ + path + ": "@
}

/// A document read from `contents` by `parse` (a name for an outside parser)
/// and taken in: a read failure is a `FileError` carrying its message, a
/// parse failure an error of `kind`.
pub open spec fn document_step(
    s: ConfigState,
    contents: Result<String, String>,
    parse: spec_fn(Seq<char>) -> Option<ConfigValue>,
    kind: spec_fn(String) -> ErrorKind,
    r: ConfigState,
) -> bool {
    if s.err is Some {
        r == s
    } else {
        match contents {
            Err(m) => r == failed(ConfigError { kind: ErrorKind::FileError(m) }),
            Ok(t) => match parse(t@) {
                Some(doc) => r == ingested(s, doc),
                None => failed_with(r, kind),
            },
        }
    }
}

/// The entries of `s` whose key starts with `p`, in order.
pub open spec fn prefixed(s: Seq<(String, ConfigValue)>, p: Seq<char>) -> Seq<(String, ConfigValue)>
    decreases s.len(),
{
    if s.len() == 0 {
        s
    } else {
        let r = prefixed(s.drop_last(), p);
        if p.is_prefix_of(s.last().0@) {
            r.push(s.last())
        } else {
            r
        }
    }
}

/// The plain entries that survive the prefix filter.
pub open spec fn kept_plain(s: ConfigState) -> Seq<(String, ConfigValue)> {
    if s.prefix.len() > 0 {
        prefixed(s.plain, s.prefix)
    } else {
        s.plain
    }
}

/// Position of the first entry of `a` whose key `b` also holds, or -1.
pub open spec fn first_shared(a: Seq<(String, ConfigValue)>, b: Seq<(String, ConfigValue)>) -> int
    decreases a.len(),
{
    if a.len() == 0 {
        -1
    } else {
        let i = first_shared(a.drop_last(), b);
        if i >= 0 {
            i
        } else if has_key(b, a.last().0@) {
            a.len() - 1
        } else {
            -1
        }
    }
}

/// Finalization: the recorded error if any; else the prefix filter, the
/// cross-group duplicate check when overwriting is off, and the flat tree in
/// which structured entries are put over the plain ones.
pub open spec fn finalized(s: ConfigState) -> Result<Seq<(String, ConfigValue)>, ConfigError> {
    let p = kept_plain(s);
    let i = first_shared(p, s.files);
    if s.err is Some {
        Err(s.err->0)
    } else if !s.overwrite && i >= 0 {
        Err(duplicate(p[i].0))
    } else {
        Ok(put_all(p, s.files))
    }
}

proof fn lemma_first_shared(a: Seq<(String, ConfigValue)>, b: Seq<(String, ConfigValue)>)
    ensures
        -1 <= first_shared(a, b) < a.len(),
        first_shared(a, b) >= 0 ==> has_key(b, a[first_shared(a, b)].0@),
        first_shared(a, b) >= 0 ==> forall|j: int| 0 <= j < first_shared(a, b) ==> !has_key(b, #[trigger] a[j].0@),
        first_shared(a, b) < 0 ==> forall|j: int| 0 <= j < a.len() ==> !has_key(b, #[trigger] a[j].0@),
    decreases a.len(),
{
    if a.len() > 0 {
        lemma_first_shared(a.drop_last(), b);
        assert(forall|j: int| 0 <= j < a.len() - 1 ==> a.drop_last()[j] == a[j]);
    }
}

proof fn lemma_prefixed_distinct(s: Seq<(String, ConfigValue)>, p: Seq<char>)
    requires
        keys_distinct(s),
    ensures
        keys_distinct(prefixed(s, p)),
        forall|k: Seq<char>| #[trigger] has_key(prefixed(s, p), k) <==> has_key(s, k) && p.is_prefix_of(k),
        forall|k: Seq<char>| #[trigger] lookup(prefixed(s, p), k) == if p.is_prefix_of(k) { lookup(s, k) } else { None },
    decreases s.len(),
{
    if s.len() > 0 {
        let d = s.drop_last();
        assert(forall|j: int| 0 <= j < d.len() ==> d[j] == s[j]);
        lemma_prefixed_distinct(d, p);
        let r = prefixed(d, p);
        let last = s.last();
        assert forall|k: Seq<char>| #[trigger] has_key(s, k) <==> has_key(d, k) || last.0@ == k by {
            if has_key(s, k) {
                let j = choose|j: int| 0 <= j < s.len() && #[trigger] s[j].0@ == k;
                if j < d.len() {
                    assert(d[j].0@ == k);
                }
            }
            if has_key(d, k) {
                let j = choose|j: int| 0 <= j < d.len() && #[trigger] d[j].0@ == k;
                assert(s[j].0@ == k);
            }
            if last.0@ == k {
                assert(s[s.len() - 1].0@ == k);
            }
        }
        assert(!has_key(d, last.0@)) by {
            if has_key(d, last.0@) {
                let j = choose|j: int| 0 <= j < d.len() && #[trigger] d[j].0@ == last.0@;
                assert(s[j].0@ == s[s.len() - 1].0@);
            }
        }
        assert forall|k: Seq<char>| #[trigger] lookup(s, k) == if k == last.0@ { Some(last.1) } else { lookup(d, k) } by {
            lemma_index_of(s, k);
            lemma_index_of(d, k);
        }
        if p.is_prefix_of(last.0@) {
            let r2 = r.push(last);
            assert(!has_key(r, last.0@));
            assert forall|k: Seq<char>| #[trigger] has_key(r2, k) <==> has_key(r, k) || last.0@ == k by {
                if has_key(r2, k) {
                    let j = choose|j: int| 0 <= j < r2.len() && #[trigger] r2[j].0@ == k;
                    if j < r.len() {
                        assert(r[j].0@ == k);
                    }
                }
                if has_key(r, k) {
                    let j = choose|j: int| 0 <= j < r.len() && #[trigger] r[j].0@ == k;
                    assert(r2[j].0@ == k);
                }
                if last.0@ == k {
                    assert(r2[r.len() as int].0@ == k);
                }
            }
            assert(keys_distinct(r2)) by {
                assert forall|i: int, j: int| 0 <= i < r2.len() && 0 <= j < r2.len() && i != j implies r2[i].0@ != r2[j].0@ by {
                    if i < r.len() && j < r.len() {
                        assert(r2[i] == r[i] && r2[j] == r[j]);
                    } else if i < r.len() {
                        assert(r2[i] == r[i]);
                        if r[i].0@ == last.0@ {
                            assert(has_key(r, last.0@));
                        }
                    } else if j < r.len() {
                        assert(r2[j] == r[j]);
                        if r[j].0@ == last.0@ {
                            assert(has_key(r, last.0@));
                        }
                    }
                }
            }
            assert forall|k: Seq<char>| #[trigger] lookup(r2, k) == if k == last.0@ { Some(last.1) } else { lookup(r, k) } by {
                lemma_index_of(r2, k);
                lemma_index_of(r, k);
                assert(forall|j: int| 0 <= j < r.len() ==> r2[j] == r[j]);
                if k == last.0@ {
                    assert(r2[r.len() as int].0@ == k);
                }
            }
        }
    }
}

/// Putting every entry of `over` into `base`: a key of `over` takes the
/// value `over` gives it; any other keeps the value of `base`.
pub proof fn lemma_put_all(base: Seq<(String, ConfigValue)>, over: Seq<(String, ConfigValue)>)
    requires
        keys_distinct(base),
        keys_distinct(over),
    ensures
        keys_distinct(put_all(base, over)),
        forall|k: Seq<char>| #[trigger] has_key(put_all(base, over), k) <==> has_key(base, k) || has_key(over, k),
        forall|k: Seq<char>| #[trigger] lookup(put_all(base, over), k) == if has_key(over, k) { lookup(over, k) } else { lookup(base, k) },
    decreases over.len(),
{
    if over.len() > 0 {
        let d = over.drop_last();
        let last = over.last();
        assert(forall|j: int| 0 <= j < d.len() ==> d[j] == over[j]);
        assert(keys_distinct(d));
        lemma_put_all(base, d);
        let m = put_all(base, d);
        lemma_put(m, last.0, last.1);
        assert forall|k: Seq<char>| #[trigger] has_key(over, k) <==> has_key(d, k) || last.0@ == k by {
            if has_key(over, k) {
                let j = choose|j: int| 0 <= j < over.len() && #[trigger] over[j].0@ == k;
                if j < d.len() {
                    assert(d[j].0@ == k);
                }
            }
            if has_key(d, k) {
                let j = choose|j: int| 0 <= j < d.len() && #[trigger] d[j].0@ == k;
                assert(over[j].0@ == k);
            }
            if last.0@ == k {
                assert(over[over.len() - 1].0@ == k);
            }
        }
        assert forall|k: Seq<char>| #[trigger] lookup(over, k) == if k == last.0@ { Some(last.1) } else { lookup(d, k) } by {
            lemma_index_of(over, k);
            lemma_index_of(d, k);
            if k == last.0@ && index_of(over, k) < over.len() - 1 && index_of(over, k) >= 0 {
                assert(over[index_of(over, k)].0@ == over[over.len() - 1].0@);
            }
        }
    }
}

/// Whether `s` starts with `p`.
pub fn starts_with(s: &String, p: &String) -> (r: bool)
    ensures
        r == p@.is_prefix_of(s@),
{
    let n = s.as_str().unicode_len();
    let m = p.as_str().unicode_len();
    if m > n {
        return false;
    }
    let mut i: usize = 0;
    while i < m
        invariant
            m <= n,
            n == s@.len(),
            m == p@.len(),
            i <= m,
            forall|j: int| 0 <= j < i ==> p@[j] == s@[j],
        decreases m - i,
    {
        if p.as_str().get_char(i) != s.as_str().get_char(i) {
            return false;
        }
        i = i + 1;
    }
    assert(p@ =~= s@.subrange(0, m as int));
    true
}

/// The entries of `entries` whose key starts with `prefix`, in order.
/// Without repeated keys, a key survives exactly when it starts with
/// `prefix`, with its value unchanged.
pub fn keep_prefixed(entries: Vec<(String, ConfigValue)>, prefix: &String) -> (r: Vec<(String, ConfigValue)>)
    ensures
        r@ == prefixed(entries@, prefix@),
        keys_distinct(entries@) ==> keys_distinct(r@) && forall|k: Seq<char>| #[trigger] lookup(r@, k) == if prefix@.is_prefix_of(k) {
            lookup(entries@, k)
        } else {
            None
        },
{
    proof {
        if keys_distinct(entries@) {
            lemma_prefixed_distinct(entries@, prefix@);
        }
    }
    let ghost orig = entries@;
    let mut entries = entries;
    let mut out: Vec<(String, ConfigValue)> = Vec::new();
    let ghost mut k: int = 0;
    while entries.len() > 0
        invariant
            0 <= k <= orig.len(),
            entries@ == orig.subrange(k, orig.len() as int),
            out@ == prefixed(orig.subrange(0, k), prefix@),
        decreases entries.len(),
    {
        let e = entries.remove(0);
        proof {
            assert(orig.subrange(0, k + 1).drop_last() =~= orig.subrange(0, k));
            assert(orig[k] == e);
        }
        if starts_with(&e.0, prefix) {
            out.push(e);
        }
        proof {
            k = k + 1;
        }
    }
    assert(orig.subrange(0, k) =~= orig);
    out
}

/// Puts every entry of `over` into `base`, in order.
/// The keys of the result are those of `base` and `over`; a key of `over`
/// takes its value from `over`, any other its value from `base`.
pub fn put_every(base: Vec<(String, ConfigValue)>, over: Vec<(String, ConfigValue)>) -> (r: Vec<(String, ConfigValue)>)
    ensures
        r@ == put_all(base@, over@),
        keys_distinct(base@) && keys_distinct(over@) ==> keys_distinct(r@)
            && (forall|k: Seq<char>| #[trigger] has_key(r@, k) <==> has_key(base@, k) || has_key(over@, k))
            && forall|k: Seq<char>| #[trigger] lookup(r@, k) == if has_key(over@, k) {
                lookup(over@, k)
            } else {
                lookup(base@, k)
            },
{
    proof {
        if keys_distinct(base@) && keys_distinct(over@) {
            lemma_put_all(base@, over@);
        }
    }
    let ghost orig = over@;
    let mut over = over;
    let mut out = base;
    let ghost b = out@;
    let ghost mut k: int = 0;
    while over.len() > 0
        invariant
            0 <= k <= orig.len(),
            over@ == orig.subrange(k, orig.len() as int),
            out@ == put_all(b, orig.subrange(0, k)),
        decreases over.len(),
    {
        let (key, value) = over.remove(0);
        proof {
            assert(orig.subrange(0, k + 1).drop_last() =~= orig.subrange(0, k));
            assert(orig[k] == (key, value));
        }
        put_entry(&mut out, key, value);
        proof {
            k = k + 1;
        }
    }
    assert(orig.subrange(0, k) =~= orig);
    out
}

/// Position of the first entry of `a` whose key `b` also holds.
fn find_shared(a: &Vec<(String, ConfigValue)>, b: &Vec<(String, ConfigValue)>) -> (r: Option<usize>)
    ensures
        r is Some <==> first_shared(a@, b@) >= 0,
        r is Some ==> r->0 as int == first_shared(a@, b@) && r->0 < a@.len(),
{
    proof {
        lemma_first_shared(a@, b@);
    }
    let mut i: usize = 0;
    while i < a.len()
        invariant
            i <= a.len(),
            -1 <= first_shared(a@, b@) < a@.len(),
            first_shared(a@, b@) >= 0 ==> has_key(b@, a@[first_shared(a@, b@)].0@),
            first_shared(a@, b@) >= 0 ==> forall|j: int| 0 <= j < first_shared(a@, b@) ==> !has_key(b@, #[trigger] a@[j].0@),
            first_shared(a@, b@) < 0 ==> forall|j: int| 0 <= j < a@.len() ==> !has_key(b@, #[trigger] a@[j].0@),
            forall|j: int| 0 <= j < i ==> !has_key(b@, #[trigger] a@[j].0@),
        decreases a.len() - i,
    {
        let found = find_key(b, &a[i].0);
        proof {
            lemma_index_of(b@, a@[i as int].0@);
        }
        if found.is_some() {
            return Some(i);
        }
        i = i + 1;
    }
    None
}

/// Raw text pairs with their values coerced.
fn coerce_all(pairs: Vec<(String, String)>) -> (r: Vec<(String, ConfigValue)>)
    ensures
        r@ == coerced_entries(pairs@),
{
    let ghost orig = pairs@;
    let mut pairs = pairs;
    let mut out: Vec<(String, ConfigValue)> = Vec::new();
    let ghost mut k: int = 0;
    while pairs.len() > 0
        invariant
            0 <= k <= orig.len(),
            pairs@ == orig.subrange(k, orig.len() as int),
            out@ == coerced_entries(orig.subrange(0, k)),
        decreases pairs.len(),
    {
        let (key, text) = pairs.remove(0);
        proof {
            assert(orig[k] == (key, text));
        }
        out.push((key, coerce(text)));
        proof {
            k = k + 1;
            assert(out@ =~= coerced_entries(orig.subrange(0, k)));
        }
    }
    assert(orig.subrange(0, k) =~= orig);
    out
}

/// Two insertions of one key into one group with overwriting off: the
/// session fails with `DuplicateKey` naming that key, and so does
/// finalization.
pub proof fn lemma_duplicate_rejected(s: ConfigState, structured: bool, k: String, v1: ConfigValue, v2: ConfigValue)
    requires
        state_wf(s),
        s.err is None,
        !s.overwrite,
    ensures
        inserted(inserted(s, structured, k, v1), structured, k, v2) == failed(duplicate(k)),
        finalized(inserted(inserted(s, structured, k, v1), structured, k, v2)) == Err::<Seq<(String, ConfigValue)>, ConfigError>(duplicate(k)),
{
    lemma_put(s.plain, k, v1);
    lemma_put(s.files, k, v1);
}

/// With overwriting on, the later of two insertions of one key into one
/// group is the value that the group holds, and the value that finalization
/// yields unless a structured entry or the prefix filter decides otherwise.
pub proof fn lemma_overwrite_last_wins(s: ConfigState, structured: bool, k: String, v1: ConfigValue, v2: ConfigValue)
    requires
        state_wf(s),
        s.err is None,
        s.overwrite,
    ensures
        ({
            let t = inserted(inserted(s, structured, k, v1), structured, k, v2);
            &&& t.err is None
            &&& state_wf(t)
            &&& structured ==> lookup(t.files, k@) == Some(v2)
            &&& !structured ==> lookup(t.plain, k@) == Some(v2)
            &&& finalized(t) is Ok
            &&& structured ==> lookup(finalized(t)->Ok_0, k@) == Some(v2)
            &&& !structured && !has_key(s.files, k@) && (s.prefix.len() == 0 || s.prefix.is_prefix_of(k@))
                ==> lookup(finalized(t)->Ok_0, k@) == Some(v2)
        }),
{
    lemma_put(s.plain, k, v1);
    lemma_put(s.files, k, v1);
    lemma_put(put(s.plain, k, v1), k, v2);
    lemma_put(put(s.files, k, v1), k, v2);
    let t = inserted(inserted(s, structured, k, v1), structured, k, v2);
    lemma_flatten_precedence(t);
}

/// Finalization without a conflict: a key of the structured group takes its
/// structured value, whatever the plain group holds; any other key takes its
/// plain value when the prefix, if set, admits it, and is absent otherwise.
pub proof fn lemma_flatten_precedence(s: ConfigState)
    requires
        state_wf(s),
        s.err is None,
        s.overwrite || first_shared(kept_plain(s), s.files) < 0,
    ensures
        finalized(s) is Ok,
        forall|k: Seq<char>| #[trigger] lookup(finalized(s)->Ok_0, k) == if has_key(s.files, k) {
            lookup(s.files, k)
        } else if s.prefix.len() > 0 && !s.prefix.is_prefix_of(k) {
            None
        } else {
            lookup(s.plain, k)
        },
{
    lemma_prefixed_distinct(s.plain, s.prefix);
    lemma_put_all(kept_plain(s), s.files);
}

/// Cross-group precedence: with overwriting on, a key present in both groups
/// takes its structured value.
pub proof fn lemma_structured_wins(s: ConfigState, k: Seq<char>)
    requires
        state_wf(s),
        s.err is None,
        s.overwrite,
        has_key(s.files, k),
    ensures
        finalized(s) is Ok,
        lookup(finalized(s)->Ok_0, k) == lookup(s.files, k),
{
    lemma_flatten_precedence(s);
}

/// Prefix filtering: with a prefix set, a plain key survives finalization
/// exactly when it starts with the prefix; structured keys are untouched.
pub proof fn lemma_prefix_filter(s: ConfigState, k: Seq<char>)
    requires
        state_wf(s),
        s.err is None,
        s.prefix.len() > 0,
        finalized(s) is Ok,
    ensures
        has_key(s.files, k) ==> lookup(finalized(s)->Ok_0, k) == lookup(s.files, k),
        !has_key(s.files, k) ==> lookup(finalized(s)->Ok_0, k) == if s.prefix.is_prefix_of(k) {
            lookup(s.plain, k)
        } else {
            None
        },
{
    lemma_first_shared(kept_plain(s), s.files);
    lemma_flatten_precedence(s);
}

proof fn lemma_inserted_all_failed(s: ConfigState, structured: bool, es: Seq<(String, ConfigValue)>)
    requires
        s.err is Some,
    ensures
        inserted_all(s, structured, es) == s,
    decreases es.len(),
{
    if es.len() > 0 {
        lemma_inserted_all_failed(s, structured, es.drop_last());
    }
}

/// First failure wins: once a session holds an error, no insertion and no
/// document changes it, and finalization reports that error.
pub proof fn lemma_first_failure_wins(s: ConfigState, structured: bool, k: String, v: ConfigValue, doc: ConfigValue)
    requires
        s.err is Some,
    ensures
        inserted(s, structured, k, v) == s,
        ingested(s, doc) == s,
        finalized(s) == Err::<Seq<(String, ConfigValue)>, ConfigError>(s.err->0),
{
    match doc {
        ConfigValue::Table(es) => lemma_inserted_all_failed(s, true, es@),
        _ => {},
    }
}

/// The accumulator that `structured` selects.
pub open spec fn group(s: ConfigState, structured: bool) -> Seq<(String, ConfigValue)> {
    if structured {
        s.files
    } else {
        s.plain
    }
}

/// Inserting entries one after another: on success every key already held
/// and every inserted key is held, and with overwriting off none of the
/// inserted keys was held before; a new failure is always a `DuplicateKey`.
pub proof fn lemma_inserted_all_keys(s: ConfigState, structured: bool, es: Seq<(String, ConfigValue)>)
    requires
        state_wf(s),
    ensures
        ({
            let r = inserted_all(s, structured, es);
            &&& state_wf(r)
            &&& r.err is Some ==> (s.err is Some && r == s) || r.err->0.kind is DuplicateKey
            &&& r.err is None ==> s.err is None && r.overwrite == s.overwrite && r.prefix == s.prefix
            &&& r.err is None ==> forall|q: Seq<char>| #[trigger] has_key(group(s, structured), q) ==> has_key(group(r, structured), q)
            &&& r.err is None ==> forall|q: Seq<char>| #[trigger] has_key(es, q) ==> has_key(group(r, structured), q)
            &&& r.err is None && !s.overwrite ==> forall|q: Seq<char>| #[trigger] has_key(es, q) ==> !has_key(group(s, structured), q)
        }),
    decreases es.len(),
{
    if es.len() > 0 {
        let d = es.drop_last();
        let last = es.last();
        lemma_inserted_all_keys(s, structured, d);
        let m = inserted_all(s, structured, d);
        lemma_put(group(m, structured), last.0, last.1);
        assert forall|q: Seq<char>| #[trigger] has_key(es, q) <==> has_key(d, q) || last.0@ == q by {
            if has_key(es, q) {
                let j = choose|j: int| 0 <= j < es.len() && #[trigger] es[j].0@ == q;
                if j < d.len() {
                    assert(d[j].0@ == q);
                }
            }
            if has_key(d, q) {
                let j = choose|j: int| 0 <= j < d.len() && #[trigger] d[j].0@ == q;
                assert(es[j].0@ == q);
            }
            if last.0@ == q {
                assert(es[es.len() - 1].0@ == q);
            }
        }
    }
}

/// Duplicate rejection across documents: with overwriting off, two
/// structured documents that both hold a key leave the session failed with
/// `DuplicateKey`, and finalization reports it.
pub proof fn lemma_documents_share_key(
    s: ConfigState,
    es1: Vec<(String, ConfigValue)>,
    es2: Vec<(String, ConfigValue)>,
    k: Seq<char>,
)
    requires
        state_wf(s),
        s.err is None,
        !s.overwrite,
        has_key(es1@, k),
        has_key(es2@, k),
    ensures
        ({
            let r = ingested(ingested(s, ConfigValue::Table(es1)), ConfigValue::Table(es2));
            &&& r.err is Some
            &&& r.err->0.kind is DuplicateKey
            &&& finalized(r) == Err::<Seq<(String, ConfigValue)>, ConfigError>(r.err->0)
        }),
{
    let r1 = inserted_all(s, true, es1@);
    lemma_inserted_all_keys(s, true, es1@);
    if r1.err is Some {
        lemma_inserted_all_failed(r1, true, es2@);
    } else {
        lemma_inserted_all_keys(r1, true, es2@);
        assert(has_key(group(r1, true), k));
    }
}

/// Inserting entries with overwriting on never fails: it puts every entry
/// into the selected accumulator and leaves the rest of the session alone.
pub proof fn lemma_inserted_all_overwrite(s: ConfigState, structured: bool, es: Seq<(String, ConfigValue)>)
    requires
        s.err is None,
        s.overwrite,
    ensures
        inserted_all(s, structured, es) == if structured {
            ConfigState { files: put_all(s.files, es), ..s }
        } else {
            ConfigState { plain: put_all(s.plain, es), ..s }
        },
    decreases es.len(),
{
    if es.len() > 0 {
        lemma_inserted_all_overwrite(s, structured, es.drop_last());
    }
}

/// Overwrite precedence for dotenv text: with overwriting on, each variable
/// of the file takes its coerced value from the file, whatever an earlier
/// source held; every other key keeps its value, and the structured group is
/// untouched.
pub proof fn lemma_dotenv_overwrites(s: ConfigState, es: Seq<(String, String)>)
    requires
        state_wf(s),
        s.err is None,
        s.overwrite,
        names_distinct(es),
    ensures
        ({
            let ce = coerced_entries(es);
            let r = inserted_all(s, false, ce);
            &&& r.err is None
            &&& r.files == s.files
            &&& state_wf(r)
            &&& forall|i: int| 0 <= i < es.len() ==> lookup(r.plain, (#[trigger] es[i]).0@) == Some(coerced(es[i].1))
            &&& forall|q: Seq<char>| !has_key(ce, q) ==> #[trigger] lookup(r.plain, q) == lookup(s.plain, q)
        }),
{
    let ce = coerced_entries(es);
    lemma_inserted_all_overwrite(s, false, ce);
    assert(keys_distinct(ce));
    lemma_put_all(s.plain, ce);
    assert forall|i: int| 0 <= i < es.len() implies lookup(inserted_all(s, false, ce).plain, (#[trigger] es[i]).0@) == Some(coerced(es[i].1)) by {
        assert(ce[i] == (es[i].0, coerced(es[i].1)));
        assert(has_key(ce, es[i].0@));
        crate::value::lemma_index_of_distinct(ce, i);
    }
}

/// Exact-match materialization from a session: when no source key spells
/// one of `names` exactly (same characters, same case), the flat table that
/// finalization yields has no field for them, so a required field so named is
/// missing.
pub proof fn lemma_exact_match_after_merge(s: ConfigState, names: Seq<&str>)
    requires
        state_wf(s),
        finalized(s) is Ok,
        forall|j: int| 0 <= j < names.len() ==> !has_key(s.plain, #[trigger] names[j]@) && !has_key(s.files, names[j]@),
    ensures
        field_index(finalized(s)->Ok_0, names) < 0,
{
    let t = finalized(s)->Ok_0;
    lemma_prefixed_distinct(s.plain, s.prefix);
    lemma_put_all(kept_plain(s), s.files);
    assert forall|i: int, j: int| 0 <= i < t.len() && 0 <= j < names.len() implies #[trigger] t[i].0@ != #[trigger] names[j]@ by {
        assert(has_key(t, t[i].0@));
        if t[i].0@ == names[j]@ {
            assert(has_key(s.plain, names[j]@) || has_key(s.files, names[j]@));
        }
    }
    lemma_exact_match(t, names);
}

impl Config {
    /// The state this builder stands for; its accumulators hold no repeated key.
    pub open spec fn wf(&self) -> bool {
        state_wf(self@)
    }

    fn fail(e: ConfigError) -> (r: Config)
        ensures
            r@ == failed(e),
            r.wf(),
    {
        Config {
            env: Vec::new(),
            files_env: Vec::new(),
            prefix: String::new(),
            overwrite: false,
            err: Some(e),
        }
    }

    /// Starts a session from the process environment `vars`, each value
    /// coerced; a later variable of the same name replaces an earlier one.
    pub fn new(vars: Vec<(String, String)>) -> (r: Config)
        ensures
            r@ == started(vars@),
            r.wf(),
    {
        let ghost orig = vars@;
        let mut vars = vars;
        let mut env: Vec<(String, ConfigValue)> = Vec::new();
        let ghost mut k: int = 0;
        while vars.len() > 0
            invariant
                0 <= k <= orig.len(),
                vars@ == orig.subrange(k, orig.len() as int),
                env@ == put_all(Seq::empty(), coerced_entries(orig.subrange(0, k))),
                keys_distinct(env@),
            decreases vars.len(),
        {
            let (key, text) = vars.remove(0);
            proof {
                lemma_put(env@, key, coerced(text));
                assert(coerced_entries(orig.subrange(0, k + 1)).drop_last() =~= coerced_entries(
                    orig.subrange(0, k),
                ));
                assert(orig[k] == (key, text));
            }
            put_entry(&mut env, key, coerce(text));
            proof {
                k = k + 1;
            }
        }
        assert(orig.subrange(0, k) =~= orig);
        Config { env, files_env: Vec::new(), prefix: String::new(), overwrite: false, err: None }
    }

    fn insert(self, structured: bool, key: String, value: ConfigValue) -> (r: Config)
        requires
            self.wf(),
        ensures
            r@ == inserted(self@, structured, key, value),
            r.wf(),
    {
        let mut this = self;
        if this.err.is_some() {
            return this;
        }
        let present = if structured {
            find_key(&this.files_env, &key).is_some()
        } else {
            find_key(&this.env, &key).is_some()
        };
        proof {
            lemma_index_of(this.env@, key@);
            lemma_index_of(this.files_env@, key@);
        }
        if !this.overwrite && present {
            return Config::fail(ConfigError::duplicate_key(key));
        }
        proof {
            lemma_put(this.env@, key, value);
            lemma_put(this.files_env@, key, value);
        }
        if structured {
            put_entry(&mut this.files_env, key, value);
        } else {
            put_entry(&mut this.env, key, value);
        }
        this
    }

    fn insert_all(self, structured: bool, entries: Vec<(String, ConfigValue)>) -> (r: Config)
        requires
            self.wf(),
        ensures
            r@ == inserted_all(self@, structured, entries@),
            r.wf(),
    {
        let ghost orig = entries@;
        let ghost start = self@;
        let mut entries = entries;
        let mut this = self;
        let ghost mut k: int = 0;
        while entries.len() > 0
            invariant
                0 <= k <= orig.len(),
                entries@ == orig.subrange(k, orig.len() as int),
                this@ == inserted_all(start, structured, orig.subrange(0, k)),
                this.wf(),
            decreases entries.len(),
        {
            let (key, value) = entries.remove(0);
            proof {
                assert(orig.subrange(0, k + 1).drop_last() =~= orig.subrange(0, k));
                assert(orig[k] == (key, value));
            }
            this = this.insert(structured, key, value);
            proof {
                k = k + 1;
            }
        }
        assert(orig.subrange(0, k) =~= orig);
        this
    }

    /// Sets `key` to `value` programmatically, in the plain group.
    pub fn with_value(self, key: String, value: ConfigValue) -> (r: Config)
        requires
            self.wf(),
        ensures
            r@ == inserted(self@, false, key, value),
            r.wf(),
    {
        self.insert(false, key, value)
    }

    /// Keeps, at finalization, only the plain keys that start with `prefix`;
    /// structured entries are never filtered.
    pub fn with_env_prefix(self, prefix: &str) -> (r: Config)
        requires
            self.wf(),
        ensures
            r@ == (ConfigState { prefix: prefix@, ..self@ }),
            r.wf(),
    {
        let mut this = self;
        this.prefix = String::from_str(prefix);
        this
    }

    /// Lets every later insertion replace an earlier value of the same key.
    pub fn with_overwrite(self) -> (r: Config)
        requires
            self.wf(),
        ensures
            r@ == (ConfigState { overwrite: true, ..self@ }),
            r.wf(),
    {
        let mut this = self;
        this.overwrite = true;
        this
    }

    fn take_document(self, parsed: Result<ConfigValue, String>) -> (r: Result<Config, String>)
        requires
            self.wf(),
        ensures
            parsed is Ok ==> (r matches Ok(c) && c@ == ingested(self@, parsed->Ok_0) && c.wf()),
            parsed is Err ==> r == Err::<Config, String>(parsed->Err_0),
    {
        match parsed {
            Ok(ConfigValue::Table(es)) => Ok(self.insert_all(true, es)),
            Ok(_) => Ok(self),
            Err(m) => Err(m),
        }
    }

    /// Adds the entries of a JSON document, read from a file into
    /// `contents` (or the message of the read failure), to the structured group.
    pub fn with_json(self, contents: Result<String, String>) -> (r: Config)
        requires
            self.wf(),
        ensures
            document_step(self@, contents, |t| json_document(t), |m| ErrorKind::JsonError(m), r@),
            r.wf(),
    {
        if self.err.is_some() {
            return self;
        }
        match contents {
            Err(m) => Config::fail(ConfigError::new(ErrorKind::FileError(m))),
            Ok(t) => match self.take_document(parse_json(t.as_str())) {
                Ok(c) => c,
                Err(m) => Config::fail(ConfigError::new(ErrorKind::JsonError(m))),
            },
        }
    }

    /// Adds the entries of a TOML document, read from a file into
    /// `contents` (or the message of the read failure), to the structured group.
    pub fn with_toml(self, contents: Result<String, String>) -> (r: Config)
        requires
            self.wf(),
        ensures
            document_step(self@, contents, |t| toml_document(t), |m| ErrorKind::TomlError(m), r@),
            r.wf(),
    {
        if self.err.is_some() {
            return self;
        }
        match contents {
            Err(m) => Config::fail(ConfigError::new(ErrorKind::FileError(m))),
            Ok(t) => match self.take_document(parse_toml(t.as_str())) {
                Ok(c) => c,
                Err(m) => Config::fail(ConfigError::new(ErrorKind::TomlError(m))),
            },
        }
    }

    /// Adds the entries of a YAML document, read from a file into
    /// `contents` (or the message of the read failure), to the structured group.
    pub fn with_yaml(self, contents: Result<String, String>) -> (r: Config)
        requires
            self.wf(),
        ensures
            document_step(self@, contents, |t| yaml_document(t), |m| ErrorKind::YamlError(m), r@),
            r.wf(),
    {
        if self.err.is_some() {
            return self;
        }
        match contents {
            Err(m) => Config::fail(ConfigError::new(ErrorKind::FileError(m))),
            Ok(t) => match self.take_document(parse_yaml(t.as_str())) {
                Ok(c) => c,
                Err(m) => Config::fail(ConfigError::new(ErrorKind::YamlError(m))),
            },
        }
    }

    /// Adds the variables of dotenv text, read from the file at `path` into
    /// `contents` (or the message of the read failure), to the plain group,
    /// each value coerced. Both failures are a `FileError` that names the file.
    pub fn with_env(self, path: &str, contents: Result<String, String>) -> (r: Config)
        requires
            self.wf(),
        ensures
            self@.err is Some ==> r@ == self@,
            self@.err is None && contents is Err ==> r@ == failed(
                ConfigError { kind: ErrorKind::FileError(r@.err->0.kind->FileError_0) },
            ) && r@.err->0.kind->FileError_0@ == dotenv_failure_lead(path@) + contents->Err_0@,
            self@.err is None && contents is Ok && dotenv_document(contents->Ok_0@) is None
                ==> r@ == failed(ConfigError { kind: ErrorKind::FileError(r@.err->0.kind->FileError_0) })
                && r@.err->0.kind->FileError_0@ == dotenv_failure_lead(path@) + "ParseError"@,
            self@.err is None && contents is Ok && dotenv_document(contents->Ok_0@) is Some
                ==> exists|es: Seq<(String, String)>|
                names_distinct(es) && pairs_map(es) == dotenv_document(contents->Ok_0@)->0
                && #[trigger] inserted_all(self@, false, coerced_entries(es)) == r@,
            r.wf(),
    {
        if self.err.is_some() {
            return self;
        }
        let read = match contents {
            Err(m) => Err(m),
            Ok(t) => read_dotenv(t.as_str()),
        };
        match read {
            Err(m) => {
                proof {
                    reveal_strlit("error opening file ");
                    reveal_strlit(": ");
                }
                let mut msg = String::from_str("error opening file ");
                msg.append(path);
                msg.append(": ");
                msg.append(m.as_str());
                Config::fail(ConfigError::new(ErrorKind::FileError(msg)))
            },
            Ok(pairs) => {
                let coerced = coerce_all(pairs);
                self.insert_all(false, coerced)
            },
        }
    }

    /// Finalizes the session into one flat table: the first recorded error,
    /// else the plain entries that pass the prefix filter with the structured
    /// entries put over them; with overwriting off, a key present in both
    /// groups fails with `DuplicateKey` naming it.
    pub fn finalize(self) -> (r: Result<ConfigValue, ConfigError>)
        requires
            self.wf(),
        ensures
            match finalized(self@) {
                Ok(t) => r matches Ok(ConfigValue::Table(v)) && v@ == t,
                Err(e) => r == Err::<ConfigValue, ConfigError>(e),
            },
    {
        let Config { env, files_env, prefix, overwrite, err } = self;
        if let Some(e) = err {
            return Err(e);
        }
        let plain = if prefix.as_str().unicode_len() > 0 {
            keep_prefixed(env, &prefix)
        } else {
            env
        };
        if !overwrite {
            if let Some(i) = find_shared(&plain, &files_env) {
                let key = plain[i].0.clone();
                return Err(ConfigError::duplicate_key(key));
            }
        }
        Ok(ConfigValue::Table(put_every(plain, files_env)))
    }

    /// Finalizes the session and hands the flat table to `T::from_value`.
    pub fn build<T: FromValue>(self) -> (r: Result<T, ConfigError>)
        requires
            self.wf(),
        ensures
            finalized(self@) is Err ==> r == Err::<T, ConfigError>(finalized(self@)->Err_0),
            finalized(self@) is Ok ==> exists|tree: ConfigValue|
                tree is Table && tree->Table_0@ == finalized(self@)->Ok_0 && #[trigger] T::materializes(tree, r),
    {
        match self.finalize() {
            Ok(tree) => T::from_value(tree),
            Err(e) => Err(e),
        }
    }
}

} // verus!
