//! The YAML nodes that the configuration file is read into.
use vstd::prelude::*;
use crate::text::same_text;

verus! {

/// A YAML node. Mappings keep their entries in document order.
#[derive(Debug)]
pub enum YamlValue {
    /// A float, kept as written.
    Real(String),
    Int(i64),
    Str(String),
    Bool(bool),
    Array(Vec<YamlValue>),
    Hash(Vec<(YamlValue, YamlValue)>),
    Alias(usize),
    Null,
    /// A node that could not be read, or a lookup that found nothing.
    BadValue,
}

/// True when `node` is the text `key`.
pub open spec fn is_text(node: YamlValue, key: Seq<char>) -> bool {
    match node {
        YamlValue::Str(s) => s@ == key,
        _ => false,
    }
}

/// The value of the first entry whose key is the text `key`.
pub open spec fn entry_value(entries: Seq<(YamlValue, YamlValue)>, key: Seq<char>) -> Option<YamlValue>
    decreases entries.len(),
{
    if entries.len() == 0 {
        None
    } else if is_text(entries[0].0, key) {
        Some(entries[0].1)
    } else {
        entry_value(entries.drop_first(), key)
    }
}

/// What indexing a node with a text gives: the value stored under that key
/// in a mapping, and `BadValue` when the node is no mapping or has no such key.
pub open spec fn index_node(node: YamlValue, key: Seq<char>) -> YamlValue {
    match node {
        YamlValue::Hash(entries) => match entry_value(entries@, key) {
            Some(v) => v,
            None => YamlValue::BadValue,
        },
        _ => YamlValue::BadValue,
    }
}

fn key_is(node: &YamlValue, key: &str) -> (r: bool)
    ensures
        r == is_text(*node, key@),
{
    match node {
        YamlValue::Str(s) => same_text(s.as_str(), key),
        _ => false,
    }
}

/// Looks `key` up in `node`; `BadValue` stands for a missing entry.
pub fn index<'a>(node: &'a YamlValue, key: &str) -> (r: Option<&'a YamlValue>)
    ensures
        match r {
            Some(v) => *v == index_node(*node, key@),
            None => index_node(*node, key@) == YamlValue::BadValue,
        },
{
    match node {
        YamlValue::Hash(entries) => {
            let n = entries.len();
            let mut i: usize = 0;
            proof {
                assert(entries@.skip(0) =~= entries@);
            }
            while i < n
                invariant
                    n == entries.len(),
                    index_node(*node, key@) == (match entry_value(entries@, key@) {
                        Some(v) => v,
                        None => YamlValue::BadValue,
                    }),
                    i <= n,
                    entry_value(entries@, key@) == entry_value(entries@.skip(i as int), key@),
                decreases n - i,
            {
                proof {
                    assert(entries@.skip(i as int).drop_first() =~= entries@.skip(i + 1));
                    assert(entries@.skip(i as int)[0] == entries@[i as int]);
                }
                if key_is(&entries[i].0, key) {
                    return Some(&entries[i].1);
                }
                i = i + 1;
            }
            None
        },
        _ => None,
    }
}

/// Where a scan of a text for how deeply YAML can nest in it stands: the
/// column (characters since the last `\n`), whether only characters that can
/// precede a block collection's token have come since the last line break,
/// the furthest column such a token could start at so far, and the opening
/// brackets met.
pub struct NestScan {
    pub col: nat,
    pub in_run: bool,
    pub best: nat,
    pub brackets: nat,
}

/// The characters that can stand before a token that opens a block
/// collection on its line: blanks, the indicators `-`, `?`, `:`, and a byte
/// order mark.
pub open spec fn before_block_token(c: char) -> bool {
    c == ' ' || c == '\t' || c == '-' || c == '?' || c == ':' || c == '\u{feff}'
}

/// The furthest column a token opening a block collection could start at,
/// counting the scan's current position.
pub open spec fn reach(st: NestScan) -> nat {
    if st.in_run && st.col > st.best {
        st.col
    } else {
        st.best
    }
}

pub open spec fn nest_step(st: NestScan, c: char) -> NestScan {
    let best = reach(st);
    let brackets = if c == '[' || c == '{' { st.brackets + 1 } else { st.brackets };
    if c == '\n' {
        NestScan { col: 0, in_run: true, best, brackets }
    } else if c == '\r' {
        NestScan { col: st.col + 1, in_run: true, best, brackets }
    } else {
        NestScan { col: st.col + 1, in_run: st.in_run && before_block_token(c), best, brackets }
    }
}

pub open spec fn nest_scan(s: Seq<char>) -> NestScan
    decreases s.len(),
{
    if s.len() == 0 {
        NestScan { col: 0, in_run: true, best: 0, brackets: 0 }
    } else {
        nest_step(nest_scan(s.drop_last()), s.last())
    }
}

/// A bound on how deeply the nodes of a YAML text can nest. A block
/// collection opens only at a column where its token can start, each at a
/// greater column than the one it sits in, and brings at most two nodes (a
/// mapping and a sequence at its indentation); a flow collection opens at a
/// bracket, at most 255 deep, and brings at most two nodes; the document and
/// a scalar add the rest.
pub open spec fn nesting_bound(s: Seq<char>) -> nat {
    let st = nest_scan(s);
    let flow: nat = if st.brackets < 255 { st.brackets } else { 255 };
    2 * (reach(st) + 1) + 2 * flow + 3
}

/// How deeply a configuration text may nest: deeper texts are refused before
/// they are parsed.
pub const NESTING_LIMIT: usize = 600;

/// The text nests no deeper than the limit allows.
pub fn nesting_within_limit(text: &str) -> (r: bool)
    ensures
        r == (nesting_bound(text@) <= NESTING_LIMIT),
{
    let n = text.unicode_len();
    let mut col: usize = 0;
    let mut in_run = true;
    let mut best: usize = 0;
    let mut brackets: usize = 0;
    let mut i: usize = 0;
    proof {
        broadcast use vstd::string::axiom_spec_iter;
        assert(text@.take(0) =~= Seq::<char>::empty());
    }
    for c in it: text.chars()
        invariant
            it.seq() == text@,
            n == text@.len(),
            i == it.index(),
            i <= n,
            col <= i,
            best <= i,
            brackets <= i,
            nest_scan(text@.take(i as int)) == (NestScan {
                col: col as nat,
                in_run,
                best: best as nat,
                brackets: brackets as nat,
            }),
    {
        proof {
            assert(i < n);
            assert(text@.take(i + 1).drop_last() =~= text@.take(i as int));
            assert(text@.take(i + 1).last() == c);
        }
        if in_run && col > best {
            best = col;
        }
        if c == '[' || c == '{' {
            brackets = brackets + 1;
        }
        if c == '\n' {
            col = 0;
            in_run = true;
        } else if c == '\r' {
            col = col + 1;
            in_run = true;
        } else {
            col = col + 1;
            in_run = in_run && (c == ' ' || c == '\t' || c == '-' || c == '?' || c == ':' || c == '\u{feff}');
        }
        i = i + 1;
    }
    proof {
        assert(text@.take(text@.len() as int) =~= text@);
    }
    let last: u128 = if in_run && col > best { col as u128 } else { best as u128 };
    let flow: u128 = if brackets < 255 { brackets as u128 } else { 255 };
    2 * (last + 1) + 2 * flow + 3 <= NESTING_LIMIT as u128
}

/// The documents that the YAML text `text` holds, or `None` where the text is
/// no valid YAML.
pub uninterp spec fn yaml_documents(text: Seq<char>) -> Option<Seq<YamlValue>>;

#[verifier::external_type_specification]
#[verifier::external_body]
pub struct ExYaml(yaml_rust::Yaml);

/// Carries a node of `yaml_rust` over, variant by variant, for `load_yaml`
/// alone; it states nothing of its result.
#[verifier::external_body]
fn from_yaml(node: yaml_rust::Yaml) -> YamlValue {
    match node {
        yaml_rust::Yaml::Real(s) => YamlValue::Real(s),
        yaml_rust::Yaml::Integer(i) => YamlValue::Int(i),
        yaml_rust::Yaml::String(s) => YamlValue::Str(s),
        yaml_rust::Yaml::Boolean(b) => YamlValue::Bool(b),
        yaml_rust::Yaml::Array(v) => YamlValue::Array(v.into_iter().map(from_yaml).collect()),
        yaml_rust::Yaml::Hash(h) => YamlValue::Hash(h.into_iter().map(|(k, v)| (from_yaml(k), from_yaml(v))).collect()),
        yaml_rust::Yaml::Alias(a) => YamlValue::Alias(a),
        yaml_rust::Yaml::Null => YamlValue::Null,
        yaml_rust::Yaml::BadValue => YamlValue::BadValue,
    }
}

/// `yaml_rust::YamlLoader::load_from_str`: the documents of a YAML text, or
/// `None` when the loader reports a scan error. The documents are those that
/// `yaml_documents` gives for the text; what they are is not spelled out
/// here. The loader, and the conversion here, recurse once per level of
/// nesting, so only texts whose nesting is bounded by the limit are taken.
#[verifier::external_body]
pub(crate) fn load_yaml(text: &str) -> (docs: Option<Vec<YamlValue>>)
    requires
        nesting_bound(text@) <= NESTING_LIMIT,
    ensures
        match docs {
            Some(d) => yaml_documents(text@) == Some(d@),
            None => yaml_documents(text@) is None,
        },
{
    match yaml_rust::YamlLoader::load_from_str(text) {
        Ok(docs) => Some(docs.into_iter().map(from_yaml).collect()),
        Err(_) => None,
    }
}

} // verus!
