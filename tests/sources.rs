use configrs::config::Config;
use configrs::error::{ConfigError, ErrorKind};
use configrs::materialize::{
    expect_bool, expect_float, expect_i64, expect_string, materialize_seq, required, Fields, FromValue,
};
use configrs::value::ConfigValue;

#[derive(Clone, Copy)]
enum Source {
    Dotenv,
    Process,
    Toml,
    Yaml,
}

enum Raw {
    S(&'static str),
    I(i64),
    B(bool),
}

fn text(v: &Raw) -> String {
    match v {
        Raw::S(s) => s.to_string(),
        Raw::I(i) => i.to_string(),
        Raw::B(b) => b.to_string(),
    }
}

fn literal(v: &Raw) -> String {
    match v {
        Raw::S(s) => format!("\"{}\"", s),
        other => text(other),
    }
}

fn load(src: Source, pairs: &[(&str, Raw)]) -> Config {
    match src {
        Source::Process => Config::new(pairs.iter().map(|(k, v)| (k.to_string(), text(v))).collect()),
        Source::Dotenv => {
            let body: String = pairs.iter().map(|(k, v)| format!("{}={}\n", k, text(v))).collect();
            Config::new(vec![]).with_env("test.env", Ok(body))
        },
        Source::Toml => {
            let body: String = pairs.iter().map(|(k, v)| format!("{} = {}\n", k, literal(v))).collect();
            Config::new(vec![]).with_toml(Ok(body))
        },
        Source::Yaml => {
            let body: String = pairs.iter().map(|(k, v)| format!("{}: {}\n", k, literal(v))).collect();
            Config::new(vec![]).with_yaml(Ok(body))
        },
    }
}

fn custom_integer() -> i64 {
    5432
}

/// A flat record: `string` and `integer` are required, `boolean` falls back
/// to `false`, `port` to a custom default.
#[derive(Debug, PartialEq)]
struct Flat {
    string: String,
    integer: i64,
    boolean: bool,
    port: i64,
}

impl Flat {
    fn read(f: &mut Fields) -> Result<Flat, ConfigError> {
        let string = expect_string(required(f.take(&["string", "ENV_STRING"])?, "string")?)?;
        let integer = expect_i64(required(f.take(&["integer", "ENV_INTEGER"])?, "integer")?)?;
        let boolean = match f.take(&["boolean", "ENV_BOOLEAN"])? {
            Some(v) => expect_bool(v)?,
            None => false,
        };
        let port = match f.take(&["port", "ENV_PORT"])? {
            Some(v) => expect_i64(v)?,
            None => custom_integer(),
        };
        Ok(Flat { string, integer, boolean, port })
    }
}

impl FromValue for Flat {
    fn from_value(v: ConfigValue) -> Result<Self, ConfigError> {
        let mut f = Fields::of(v)?;
        Flat::read(&mut f)
    }
}

/// A record that takes in a flat one from the same table.
#[derive(Debug, PartialEq)]
struct Nested {
    name: String,
    inner: Flat,
}

impl FromValue for Nested {
    fn from_value(v: ConfigValue) -> Result<Self, ConfigError> {
        let mut f = Fields::of(v)?;
        let name = expect_string(required(f.take(&["name", "SUB_ENV_NAME"])?, "name")?)?;
        let inner = Flat::read(&mut f)?;
        Ok(Nested { name, inner })
    }
}

fn full() -> Vec<(&'static str, Raw)> {
    vec![
        ("ENV_STRING", Raw::S("string")),
        ("ENV_INTEGER", Raw::I(123)),
        ("ENV_BOOLEAN", Raw::B(true)),
        ("ENV_PORT", Raw::I(8080)),
    ]
}

fn serde_text(e: &ConfigError) -> String {
    match e.kind() {
        ErrorKind::SerdeError(d) => d.clone(),
        other => panic!("unexpected error {:?}", other),
    }
}

fn with_name(mut pairs: Vec<(&'static str, Raw)>, nested: bool) -> Vec<(&'static str, Raw)> {
    if nested {
        pairs.push(("SUB_ENV_NAME", Raw::S("sub")));
    }
    pairs
}

fn flat_of(src: Source, pairs: Vec<(&'static str, Raw)>, nested: bool) -> Result<Flat, ConfigError> {
    let cfg = load(src, &with_name(pairs, nested));
    if nested {
        cfg.build::<Nested>().map(|n| {
            assert_eq!(n.name, "sub");
            n.inner
        })
    } else {
        cfg.build::<Flat>()
    }
}

fn success(src: Source, nested: bool) {
    let r = flat_of(src, full(), nested).unwrap();
    assert_eq!(r, Flat { string: "string".to_string(), integer: 123, boolean: true, port: 8080 });
}

fn missing_field_failed(src: Source, nested: bool) {
    let pairs = full().into_iter().filter(|(k, _)| *k != "ENV_INTEGER").collect();
    let e = flat_of(src, pairs, nested).unwrap_err();
    assert!(serde_text(&e).ends_with("missing field `integer`"));
}

fn duplicate_field_alias_failed(src: Source, nested: bool) {
    let mut pairs = full();
    pairs.push(("string", Raw::S("again")));
    let e = flat_of(src, pairs, nested).unwrap_err();
    assert!(serde_text(&e).ends_with("duplicate field `string`"));
}

fn case_sensitivity_fields_failed(src: Source, nested: bool) {
    let mut pairs: Vec<(&'static str, Raw)> = full().into_iter().filter(|(k, _)| *k != "ENV_STRING").collect();
    pairs.push(("STRING", Raw::S("string")));
    let e = flat_of(src, pairs, nested).unwrap_err();
    assert!(serde_text(&e).ends_with("missing field `string`"));
}

fn case_sensitivity_alias_failed(src: Source, nested: bool) {
    let mut pairs: Vec<(&'static str, Raw)> = full().into_iter().filter(|(k, _)| *k != "ENV_STRING").collect();
    pairs.push(("ENV_STRiNG", Raw::S("string")));
    let e = flat_of(src, pairs, nested).unwrap_err();
    assert!(serde_text(&e).ends_with("missing field `string`"));
}

fn default_success(src: Source, nested: bool) {
    let pairs = full().into_iter().filter(|(k, _)| *k != "ENV_BOOLEAN").collect();
    let r = flat_of(src, pairs, nested).unwrap();
    assert!(!r.boolean);
    assert_eq!(r.integer, 123);
}

fn default_custom_success(src: Source, nested: bool) {
    let pairs = full().into_iter().filter(|(k, _)| *k != "ENV_PORT").collect();
    let r = flat_of(src, pairs, nested).unwrap();
    assert_eq!(r.port, 5432);
}

fn default_failed(src: Source, nested: bool) {
    let mut pairs: Vec<(&'static str, Raw)> = full().into_iter().filter(|(k, _)| *k != "ENV_BOOLEAN").collect();
    pairs.push(("ENV_BOOLEAN", Raw::S("yes")));
    let e = flat_of(src, pairs, nested).unwrap_err();
    assert!(serde_text(&e).ends_with("expected bool, found string"));
}

fn default_custom_failed(src: Source, nested: bool) {
    let mut pairs: Vec<(&'static str, Raw)> = full().into_iter().filter(|(k, _)| *k != "ENV_PORT").collect();
    pairs.push(("ENV_PORT", Raw::B(false)));
    let e = flat_of(src, pairs, nested).unwrap_err();
    assert!(serde_text(&e).ends_with("expected i64, found bool"));
}

#[test]
fn config_env_test_test_env_success() {
    success(Source::Dotenv, false);
    dotenv_success();
}

#[test]
fn test_env_missing_field_failed() {
    missing_field_failed(Source::Dotenv, false);
}

#[test]
fn test_env_duplicate_field_alias_failed() {
    duplicate_field_alias_failed(Source::Dotenv, false);
}

#[test]
fn test_env_case_sensitivity_fields_failed() {
    case_sensitivity_fields_failed(Source::Dotenv, false);
}

#[test]
fn test_env_case_sensitivity_alias_failed() {
    case_sensitivity_alias_failed(Source::Dotenv, false);
}

#[test]
fn config_env_test_test_env_default_success() {
    default_success(Source::Dotenv, false);
    dotenv_default_success();
}

#[test]
fn test_env_default_custom_success() {
    default_custom_success(Source::Dotenv, false);
}

#[test]
fn test_env_default_failed() {
    default_failed(Source::Dotenv, false);
}

#[test]
fn test_env_default_custom_failed() {
    default_custom_failed(Source::Dotenv, false);
}

#[test]
fn test_env_nested_success() {
    success(Source::Dotenv, true);
}

#[test]
fn test_env_missing_field_nested_failed() {
    missing_field_failed(Source::Dotenv, true);
}

#[test]
fn test_env_duplicate_field_alias_nested_failed() {
    duplicate_field_alias_failed(Source::Dotenv, true);
}

#[test]
fn test_env_case_sensitivity_fields_nested_failed() {
    case_sensitivity_fields_failed(Source::Dotenv, true);
}

#[test]
fn test_env_case_sensitivity_alias_nested_failed() {
    case_sensitivity_alias_failed(Source::Dotenv, true);
}

#[test]
fn test_env_default_nested_success() {
    default_success(Source::Dotenv, true);
}

#[test]
fn test_env_default_custom_nested_success() {
    default_custom_success(Source::Dotenv, true);
}

#[test]
fn test_env_default_nested_failed() {
    default_failed(Source::Dotenv, true);
}

#[test]
fn test_env_default_custom_nested_failed() {
    default_custom_failed(Source::Dotenv, true);
}

#[test]
fn test_env_vars_nested_success() {
    success(Source::Process, true);
}

#[test]
fn test_env_vars_missing_field_nested_failed() {
    missing_field_failed(Source::Process, true);
}

#[test]
fn test_env_vars_duplicate_field_alias_nested_failed() {
    duplicate_field_alias_failed(Source::Process, true);
}

#[test]
fn test_env_vars_case_sensitivity_fields_nested_failed() {
    case_sensitivity_fields_failed(Source::Process, true);
}

#[test]
fn test_env_vars_case_sensitivity_alias_nested_failed() {
    case_sensitivity_alias_failed(Source::Process, true);
}

#[test]
fn test_env_vars_default_nested_success() {
    default_success(Source::Process, true);
}

#[test]
fn test_env_vars_default_custom_nested_success() {
    default_custom_success(Source::Process, true);
}

#[test]
fn test_env_vars_default_nested_failed() {
    default_failed(Source::Process, true);
}

#[test]
fn test_env_vars_default_custom_nested_failed() {
    default_custom_failed(Source::Process, true);
}

#[test]
fn config_toml_test_test_toml_success() {
    success(Source::Toml, false);
    document_success(Format::Toml);
}

#[test]
fn test_toml_missing_field_failed() {
    missing_field_failed(Source::Toml, false);
}

#[test]
fn test_toml_duplicate_field_alias_failed() {
    duplicate_field_alias_failed(Source::Toml, false);
}

#[test]
fn test_toml_case_sensitivity_fields_failed() {
    case_sensitivity_fields_failed(Source::Toml, false);
}

#[test]
fn test_toml_case_sensitivity_alias_failed() {
    case_sensitivity_alias_failed(Source::Toml, false);
}

#[test]
fn config_toml_test_test_toml_default_success() {
    default_success(Source::Toml, false);
    document_default_success(Format::Toml);
}

#[test]
fn test_toml_default_custom_success() {
    default_custom_success(Source::Toml, false);
}

#[test]
fn test_toml_default_failed() {
    default_failed(Source::Toml, false);
}

#[test]
fn test_toml_default_custom_failed() {
    default_custom_failed(Source::Toml, false);
}

#[test]
fn test_toml_nested_success() {
    success(Source::Toml, true);
}

#[test]
fn test_toml_missing_field_nested_failed() {
    missing_field_failed(Source::Toml, true);
}

#[test]
fn test_toml_duplicate_field_alias_nested_failed() {
    duplicate_field_alias_failed(Source::Toml, true);
}

#[test]
fn test_toml_case_sensitivity_fields_nested_failed() {
    case_sensitivity_fields_failed(Source::Toml, true);
}

#[test]
fn test_toml_case_sensitivity_alias_nested_failed() {
    case_sensitivity_alias_failed(Source::Toml, true);
}

#[test]
fn test_toml_default_nested_success() {
    default_success(Source::Toml, true);
}

#[test]
fn test_toml_default_custom_nested_success() {
    default_custom_success(Source::Toml, true);
}

#[test]
fn test_toml_default_nested_failed() {
    default_failed(Source::Toml, true);
}

#[test]
fn test_toml_default_custom_nested_failed() {
    default_custom_failed(Source::Toml, true);
}

#[test]
fn config_yaml_test_test_yaml_success() {
    success(Source::Yaml, false);
    document_success(Format::Yaml);
}

#[test]
fn test_yaml_missing_field_failed() {
    missing_field_failed(Source::Yaml, false);
}

#[test]
fn test_yaml_duplicate_field_alias_failed() {
    duplicate_field_alias_failed(Source::Yaml, false);
}

#[test]
fn test_yaml_case_sensitivity_fields_failed() {
    case_sensitivity_fields_failed(Source::Yaml, false);
}

#[test]
fn test_yaml_case_sensitivity_alias_failed() {
    case_sensitivity_alias_failed(Source::Yaml, false);
}

#[test]
fn config_yaml_test_test_yaml_default_success() {
    default_success(Source::Yaml, false);
    document_default_success(Format::Yaml);
}

#[test]
fn test_yaml_default_custom_success() {
    default_custom_success(Source::Yaml, false);
}

#[test]
fn test_yaml_default_failed() {
    default_failed(Source::Yaml, false);
}

#[test]
fn test_yaml_default_custom_failed() {
    default_custom_failed(Source::Yaml, false);
}

#[test]
fn test_yaml_nested_success() {
    success(Source::Yaml, true);
}

#[test]
fn test_yaml_missing_field_nested_failed() {
    missing_field_failed(Source::Yaml, true);
}

#[test]
fn test_yaml_duplicate_field_alias_nested_failed() {
    duplicate_field_alias_failed(Source::Yaml, true);
}

#[test]
fn test_yaml_case_sensitivity_fields_nested_failed() {
    case_sensitivity_fields_failed(Source::Yaml, true);
}

#[test]
fn test_yaml_case_sensitivity_alias_nested_failed() {
    case_sensitivity_alias_failed(Source::Yaml, true);
}

#[test]
fn test_yaml_default_nested_success() {
    default_success(Source::Yaml, true);
}

#[test]
fn test_yaml_default_custom_nested_success() {
    default_custom_success(Source::Yaml, true);
}

#[test]
fn test_yaml_default_nested_failed() {
    default_failed(Source::Yaml, true);
}

#[test]
fn test_yaml_default_custom_nested_failed() {
    default_custom_failed(Source::Yaml, true);
}

// ---- whole documents: a record nested three deep, read from JSON, TOML or YAML text ----

#[derive(Clone, Copy, PartialEq)]
enum Format {
    Json,
    Toml,
    Yaml,
}

enum Doc {
    S(String),
    I(i64),
    F(f64),
    B(bool),
    L(Vec<String>),
    T(Vec<(String, Doc)>),
}

/// `sub_env_2_string` as the document spells it: camel case in JSON and YAML.
fn key(fmt: Format, snake: &str) -> String {
    if fmt == Format::Toml {
        return snake.to_string();
    }
    let mut out = String::new();
    for (i, part) in snake.split('_').enumerate() {
        if i == 0 {
            out.push_str(part);
        } else {
            let mut cs = part.chars();
            if let Some(c) = cs.next() {
                out.push(c.to_ascii_uppercase());
                out.push_str(cs.as_str());
            }
        }
    }
    out
}

fn words() -> Vec<String> {
    ["anu", "nganu", "lskmdf", "lwkef", "lkemrg"].iter().map(|w| w.to_string()).collect()
}

fn leaf_entries(fmt: Format, prefix: &str, omit: &str) -> Vec<(String, Doc)> {
    let mut out = vec![];
    let items: Vec<(&str, Doc)> = vec![
        ("string", Doc::S("string".to_string())),
        ("integer", Doc::I(123)),
        ("float", Doc::F(123.0)),
        ("boolean", Doc::B(true)),
        ("arr", Doc::L(words())),
    ];
    for (k, d) in items {
        let snake = format!("{}_{}", prefix, k);
        if snake != omit {
            out.push((key(fmt, &snake), d));
        }
    }
    out
}

/// The full document, less the key `omit` (written in snake case).
fn document(fmt: Format, omit: &str) -> Doc {
    let mut sub = leaf_entries(fmt, "sub_env", omit);
    sub.push((key(fmt, "sub_sub_env"), Doc::T(leaf_entries(fmt, "sub_sub_env", omit))));
    let mut top = leaf_entries(fmt, "env", omit);
    top.push((key(fmt, "sub_env"), Doc::T(sub)));
    top.push((key(fmt, "sub_env_2"), Doc::T(leaf_entries(fmt, "sub_env_2", omit))));
    Doc::T(top)
}

fn scalar(d: &Doc) -> String {
    match d {
        Doc::S(s) => format!("\"{}\"", s),
        Doc::I(i) => i.to_string(),
        Doc::F(f) => format!("{:?}", f),
        Doc::B(b) => b.to_string(),
        Doc::L(l) => format!("[{}]", l.iter().map(|w| format!("\"{}\"", w)).collect::<Vec<_>>().join(", ")),
        Doc::T(_) => unreachable!(),
    }
}

fn json(d: &Doc) -> String {
    match d {
        Doc::T(t) => format!(
            "{{{}}}",
            t.iter().map(|(k, v)| format!("\"{}\": {}", k, json(v))).collect::<Vec<_>>().join(", ")
        ),
        other => scalar(other),
    }
}

fn yaml(d: &Doc, indent: usize, out: &mut String) {
    if let Doc::T(t) = d {
        for (k, v) in t {
            match v {
                Doc::T(_) => {
                    out.push_str(&format!("{}{}:\n", " ".repeat(indent), k));
                    yaml(v, indent + 2, out);
                },
                Doc::L(l) => {
                    out.push_str(&format!("{}{}:\n", " ".repeat(indent), k));
                    for w in l {
                        out.push_str(&format!("{}- {}\n", " ".repeat(indent + 2), w));
                    }
                },
                other => out.push_str(&format!("{}{}: {}\n", " ".repeat(indent), k, scalar(other))),
            }
        }
    }
}

fn toml(d: &Doc, path: &str, out: &mut String) {
    if let Doc::T(t) = d {
        if !path.is_empty() {
            out.push_str(&format!("[{}]\n", path));
        }
        for (k, v) in t {
            if !matches!(v, Doc::T(_)) {
                out.push_str(&format!("{} = {}\n", k, scalar(v)));
            }
        }
        for (k, v) in t {
            if let Doc::T(_) = v {
                let p = if path.is_empty() { k.clone() } else { format!("{}.{}", path, k) };
                toml(v, &p, out);
            }
        }
    }
}

fn text_of(fmt: Format, d: &Doc) -> String {
    let mut out = String::new();
    match fmt {
        Format::Json => out = json(d),
        Format::Toml => toml(d, "", &mut out),
        Format::Yaml => yaml(d, 0, &mut out),
    }
    out
}

fn load_document(fmt: Format, omit: &str) -> Config {
    let t = text_of(fmt, &document(fmt, omit));
    match fmt {
        Format::Json => Config::new(vec![]).with_json(Ok(t)),
        Format::Toml => Config::new(vec![]).with_toml(Ok(t)),
        Format::Yaml => Config::new(vec![]).with_yaml(Ok(t)),
    }
}

#[derive(Debug, PartialEq)]
struct Leaf {
    string: String,
    integer: i64,
    float: f64,
    boolean: bool,
    arr: Vec<String>,
}

#[derive(Debug, PartialEq)]
struct Sub {
    leaf: Leaf,
    sub_sub_env: Leaf,
}

#[derive(Debug, PartialEq)]
struct Env {
    leaf: Leaf,
    sub_env: Sub,
    sub_env_2: Leaf,
}

/// How a record is read: the names of the top `string` field, and the one
/// field (in snake case) that falls back to a default, custom or not.
struct Shape {
    fmt: Format,
    top_string: Vec<String>,
    fallback: Option<(&'static str, bool)>,
}

impl Shape {
    fn plain(fmt: Format) -> Shape {
        Shape { fmt, top_string: vec!["string".to_string(), key(fmt, "env_string")], fallback: None }
    }

    fn names(&self, prefix: &str, k: &str) -> Vec<String> {
        if prefix == "env" {
            if k == "string" {
                return self.top_string.clone();
            }
            return vec![k.to_string(), key(self.fmt, &format!("env_{}", k))];
        }
        let snake = format!("{}_{}", prefix, k);
        vec![snake.clone(), key(self.fmt, &snake)]
    }

    fn field(&self, f: &mut Fields, prefix: &str, k: &str) -> Result<Option<ConfigValue>, ConfigError> {
        let names = self.names(prefix, k);
        let refs: Vec<&str> = names.iter().map(|n| n.as_str()).collect();
        f.take(&refs)
    }

    fn need(&self, f: &mut Fields, prefix: &str, k: &str) -> Result<Option<ConfigValue>, ConfigError> {
        let v = self.field(f, prefix, k)?;
        let snake = format!("{}_{}", prefix, k);
        match (v, self.fallback) {
            (None, Some((fb, _))) if fb == snake => Ok(None),
            (v, _) => required(v, &snake).map(Some),
        }
    }

    fn custom(&self) -> bool {
        self.fallback.map(|(_, c)| c).unwrap_or(false)
    }

    fn leaf(&self, f: &mut Fields, prefix: &str) -> Result<Leaf, ConfigError> {
        let string = match self.need(f, prefix, "string")? {
            Some(v) => expect_string(v)?,
            None if self.custom() => "test123".to_string(),
            None => String::new(),
        };
        let integer = match self.need(f, prefix, "integer")? {
            Some(v) => expect_i64(v)?,
            None if self.custom() => 5432,
            None => 0,
        };
        let float = match self.need(f, prefix, "float")? {
            Some(v) => expect_float(v)?.parse::<f64>().unwrap(),
            None => 0.0,
        };
        let boolean = match self.need(f, prefix, "boolean")? {
            Some(v) => expect_bool(v)?,
            None => false,
        };
        let arr = match self.need(f, prefix, "arr")? {
            Some(v) => materialize_seq::<String>(v)?,
            None if self.custom() => vec!["anu".to_string(), "nganu".to_string()],
            None => vec![],
        };
        Ok(Leaf { string, integer, float, boolean, arr })
    }

    fn table(&self, f: &mut Fields, names: &[String]) -> Result<Fields, ConfigError> {
        let refs: Vec<&str> = names.iter().map(|n| n.as_str()).collect();
        Fields::of(required(f.take(&refs)?, &names[0])?)
    }

    fn env(&self, v: ConfigValue) -> Result<Env, ConfigError> {
        let mut f = Fields::of(v)?;
        let leaf = self.leaf(&mut f, "env")?;
        let mut sf = self.table(&mut f, &["sub_env".to_string(), key(self.fmt, "sub_env")])?;
        let sub_leaf = self.leaf(&mut sf, "sub_env")?;
        let mut ssf = self.table(&mut sf, &["sub_sub_env".to_string(), key(self.fmt, "sub_sub_env")])?;
        let sub_sub_env = self.leaf(&mut ssf, "sub_sub_env")?;
        let mut s2 = self.table(&mut f, &["sub_env_2".to_string(), key(self.fmt, "sub_env_2")])?;
        let sub_env_2 = self.leaf(&mut s2, "sub_env_2")?;
        Ok(Env { leaf, sub_env: Sub { leaf: sub_leaf, sub_sub_env }, sub_env_2 })
    }
}

fn build_env(fmt: Format, omit: &str, shape: &Shape) -> Result<Env, ConfigError> {
    let tree = load_document(fmt, omit).finalize()?;
    shape.env(tree)
}

fn full_leaf() -> Leaf {
    Leaf { string: "string".to_string(), integer: 123, float: 123.0, boolean: true, arr: words() }
}

fn assert_full(cfg: &Env) {
    assert_eq!(cfg.leaf, full_leaf());
    assert_eq!(cfg.sub_env.leaf, full_leaf());
    assert_eq!(cfg.sub_env.sub_sub_env, full_leaf());
    assert_eq!(cfg.sub_env_2, full_leaf());
}

/// The key that each format's document with a missing field leaves out.
fn missing_key(fmt: Format) -> &'static str {
    match fmt {
        Format::Json => "sub_sub_env_integer",
        Format::Toml => "sub_sub_env_arr",
        Format::Yaml => "sub_sub_env_string",
    }
}

fn document_success(fmt: Format) {
    let cfg = build_env(fmt, "", &Shape::plain(fmt));
    assert!(cfg.is_ok());
    assert_full(&cfg.unwrap());
}

fn document_missing_key(fmt: Format) {
    let cfg = build_env(fmt, missing_key(fmt), &Shape::plain(fmt));
    assert!(cfg.is_err());
}

fn document_default(fmt: Format, custom: bool) -> Env {
    let omit = missing_key(fmt);
    let shape = Shape { fallback: Some((omit, custom)), ..Shape::plain(fmt) };
    let cfg = build_env(fmt, omit, &shape);
    assert!(cfg.is_ok());
    let cfg = cfg.unwrap();
    assert_eq!(cfg.leaf, full_leaf());
    assert_eq!(cfg.sub_env.leaf, full_leaf());
    assert_eq!(cfg.sub_env_2, full_leaf());
    cfg
}

fn document_default_success(fmt: Format) {
    let ss = document_default(fmt, false).sub_env.sub_sub_env;
    let mut expected = full_leaf();
    match fmt {
        Format::Json => expected.integer = 0,
        Format::Toml => expected.arr = Vec::<String>::new(),
        Format::Yaml => expected.string = String::new(),
    }
    assert_eq!(ss, expected);
}

fn document_custom_default_success(fmt: Format) {
    let ss = document_default(fmt, true).sub_env.sub_sub_env;
    let mut expected = full_leaf();
    match fmt {
        Format::Json => expected.integer = 5432,
        Format::Toml => expected.arr = vec!["anu".to_string(), "nganu".to_string()],
        Format::Yaml => expected.string = "test123".to_string(),
    }
    assert_eq!(ss, expected);
}

fn document_top_string_named(fmt: Format, names: &[&str]) {
    let shape = Shape { top_string: names.iter().map(|n| n.to_string()).collect(), ..Shape::plain(fmt) };
    let cfg = build_env(fmt, "", &shape);
    assert!(cfg.is_err());
}

#[test]
fn config_json_test_test_json_success() {
    document_success(Format::Json);
}

#[test]
fn config_json_test_test_json_missing_key() {
    document_missing_key(Format::Json);
}

#[test]
fn config_json_test_test_json_default_success() {
    document_default_success(Format::Json);
}

#[test]
fn config_json_test_test_json_custom_default_success() {
    document_custom_default_success(Format::Json);
}

#[test]
fn config_json_test_test_json_field_case_sensitive_failed() {
    document_top_string_named(Format::Json, &["env_String"]);
}

#[test]
fn config_json_test_test_json_alias_case_sensitive_failed() {
    document_top_string_named(Format::Json, &["string", "eNvString"]);
}

#[test]
fn test_toml_missing_key() {
    document_missing_key(Format::Toml);
}

#[test]
fn test_toml_custom_default_success() {
    document_custom_default_success(Format::Toml);
}

#[test]
fn test_toml_field_case_sensitive_failed() {
    document_top_string_named(Format::Toml, &["env_strIng"]);
}

#[test]
fn test_toml_alias_case_sensitive_failed() {
    document_top_string_named(Format::Toml, &["string", "env_strinG"]);
}

#[test]
fn test_yaml_missing_key() {
    document_missing_key(Format::Yaml);
}

#[test]
fn test_yaml_custom_default_success() {
    document_custom_default_success(Format::Yaml);
}

#[test]
fn test_yaml_field_case_sensitive_failed() {
    document_top_string_named(Format::Yaml, &["env_String"]);
}

#[test]
fn test_yaml_alias_case_sensitive_failed() {
    document_top_string_named(Format::Yaml, &["string", "eNvString"]);
}

// ---- dotenv files: flat variables read into records that share one table ----

fn dotenv_text(omit: &str) -> String {
    let mut out = String::new();
    for prefix in ["ENV", "SUB_ENV", "SUB_SUB_ENV", "SUB_ENV_2"] {
        for (k, v) in [("STRING", "string"), ("INTEGER", "123"), ("FLOAT", "123.0"), ("BOOLEAN", "true")] {
            let name = format!("{}_{}", prefix, k);
            if name != omit {
                out.push_str(&format!("{}={}\n", name, v));
            }
        }
    }
    out
}

#[derive(Debug, PartialEq)]
struct Scalars {
    string: String,
    integer: i64,
    float: f64,
    boolean: bool,
}

/// Reads the four scalars of `prefix` (`env`, `sub_env`, ...) from a flat
/// table; `top_string` names the top `string` field, and a missing top
/// `boolean` is `false` when `boolean_default` is set.
fn scalars(f: &mut Fields, prefix: &str, top_string: &[&str], boolean_default: bool) -> Result<Scalars, ConfigError> {
    let names = |k: &str| -> Vec<String> {
        let upper = format!("{}_{}", prefix, k).to_uppercase();
        if prefix == "env" {
            vec![k.to_string(), upper]
        } else {
            vec![format!("{}_{}", prefix, k), upper]
        }
    };
    let take = |f: &mut Fields, k: &str| -> Result<Option<ConfigValue>, ConfigError> {
        if prefix == "env" && k == "string" {
            return f.take(top_string);
        }
        let n = names(k);
        let refs: Vec<&str> = n.iter().map(|x| x.as_str()).collect();
        f.take(&refs)
    };
    let string = expect_string(required(take(f, "string")?, "string")?)?;
    let integer = expect_i64(required(take(f, "integer")?, "integer")?)?;
    let float = expect_float(required(take(f, "float")?, "float")?)?.parse::<f64>().unwrap();
    let boolean = match take(f, "boolean")? {
        Some(v) => expect_bool(v)?,
        None if boolean_default && prefix == "env" => false,
        None => return Err(required(None, "boolean").unwrap_err()),
    };
    Ok(Scalars { string, integer, float, boolean })
}

fn dotenv_build(omit: &str, top_string: &[&str], boolean_default: bool) -> Result<Vec<Scalars>, ConfigError> {
    let tree = Config::new(vec![]).with_env("test.env", Ok(dotenv_text(omit))).finalize()?;
    let mut f = Fields::of(tree)?;
    let mut out = vec![];
    for prefix in ["env", "sub_env", "sub_sub_env", "sub_env_2"] {
        out.push(scalars(&mut f, prefix, top_string, boolean_default)?);
    }
    Ok(out)
}

fn full_scalars() -> Scalars {
    Scalars { string: "string".to_string(), integer: 123, float: 123.0, boolean: true }
}

fn dotenv_success() {
    let cfg = dotenv_build("", &["string", "ENV_STRING"], false);
    assert!(cfg.is_ok());
    for s in cfg.unwrap() {
        assert_eq!(s, full_scalars());
    }
}

fn dotenv_default_success() {
    let cfg = dotenv_build("ENV_BOOLEAN", &["string", "ENV_STRING"], true);
    assert!(cfg.is_ok());
    let cfg = cfg.unwrap();
    assert_eq!(cfg[0], Scalars { boolean: false, ..full_scalars() });
    for s in &cfg[1..] {
        assert_eq!(*s, full_scalars());
    }
}

#[test]
fn test_env_missing_key() {
    let cfg = dotenv_build("ENV_BOOLEAN", &["string", "ENV_STRING"], false);
    assert!(cfg.is_err());
}

#[test]
fn test_env_field_case_sensitive_failed() {
    let cfg = dotenv_build("", &["ENV_STRiNG"], false);
    assert!(cfg.is_err());
}

#[test]
fn test_env_alias_case_sensitive_failed() {
    let cfg = dotenv_build("", &["string", "ENV_STRiNG"], false);
    assert!(cfg.is_err());
}
