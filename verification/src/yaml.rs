//! YAML documents, and pipeline configurations in YAML.

use crate::config::{config_fault, node_specs, ConfigFault, NodeSpec, PipelineSpec};
use crate::config::{ConfigError, NodeConfig, PipelineConfig};
use crate::record::opt_text;
use crate::text::texts;
use crate::text::{cat3, same_text};
use serde::de::{Error, Unexpected};
use serde_yaml::Value as Yaml;
use vstd::prelude::*;
use vstd::utf8::encode_utf8;

verus! {

/// A YAML value of the `serde_yaml` crate.
#[verifier::external_type_specification]
#[verifier::external_body]
pub struct ExYamlValue(Yaml);

/// A YAML document. A number is held as the text that it is displayed as; of a tag it is only known
/// that it is there.
pub enum YamlTree {
    Null,
    Bool(bool),
    Number(Seq<char>),
    Text(Seq<char>),
    Sequence(Seq<YamlTree>),
    Mapping(Seq<(YamlTree, YamlTree)>),
    Tagged(Box<YamlTree>),
}

/// The document that a YAML value holds.
pub uninterp spec fn yaml_tree(v: Yaml) -> YamlTree;

/// What comes of reading YAML text: a document, or a message that says what is wrong.
pub enum YamlParsed {
    Document(YamlTree),
    Fault(Seq<char>),
}

/// What comes of reading a text as YAML.
pub uninterp spec fn yaml_parse(text: Seq<char>) -> YamlParsed;

/// What comes of writing a document as YAML: a text, or a message that says what is wrong.
pub enum YamlShown {
    Text(Seq<char>),
    Fault(Seq<char>),
}

/// What comes of writing a document of texts as YAML.
pub uninterp spec fn yaml_text(t: YamlTree) -> YamlShown;

/// Whether all scalars of a document are texts and nothing in it is tagged, so that nothing that a
/// text of it would tell is left out.
pub open spec fn textual(t: YamlTree) -> bool
    decreases t,
{
    match t {
        YamlTree::Null => true,
        YamlTree::Text(_) => true,
        YamlTree::Bool(_) => false,
        YamlTree::Number(_) => false,
        YamlTree::Sequence(s) => forall|i: int| 0 <= i < s.len() ==> textual(#[trigger] s[i]),
        YamlTree::Mapping(s) => forall|i: int|
            0 <= i < s.len() ==> textual((#[trigger] s[i]).0) && textual(s[i].1),
        YamlTree::Tagged(_) => false,
    }
}

/// One level of a YAML document.
pub enum YamlNode<'a> {
    Null,
    Bool(bool),
    Number(String),
    Text(&'a str),
    Sequence(&'a Vec<Yaml>),
    Mapping(Vec<(&'a Yaml, &'a Yaml)>),
    Tagged(&'a Yaml),
}

/// The documents of a sequence of YAML values.
pub open spec fn yaml_trees(s: Seq<Yaml>) -> Seq<YamlTree> {
    Seq::new(s.len(), |i: int| yaml_tree(s[i]))
}

/// The documents of a sequence of entries.
pub open spec fn yaml_entries(s: Seq<(&Yaml, &Yaml)>) -> Seq<(YamlTree, YamlTree)> {
    Seq::new(s.len(), |i: int| (yaml_tree(*s[i].0), yaml_tree(*s[i].1)))
}

/// The document that a level is the top of.
pub open spec fn yaml_node_tree(n: YamlNode<'_>) -> YamlTree {
    match n {
        YamlNode::Null => YamlTree::Null,
        YamlNode::Text(s) => YamlTree::Text(s@),
        YamlNode::Bool(b) => YamlTree::Bool(b),
        YamlNode::Number(s) => YamlTree::Number(s@),
        YamlNode::Sequence(v) => YamlTree::Sequence(yaml_trees(v@)),
        YamlNode::Mapping(v) => YamlTree::Mapping(yaml_entries(v@)),
        YamlNode::Tagged(v) => YamlTree::Tagged(Box::new(yaml_tree(*v))),
    }
}

/// Shows the top level of a `serde_yaml::Value`.
#[verifier::external_body]
fn yaml_open<'a>(v: &'a Yaml) -> (r: YamlNode<'a>)
    ensures
        yaml_node_tree(r) == yaml_tree(*v),
{
    match v {
        Yaml::Null => YamlNode::Null,
        Yaml::Bool(b) => YamlNode::Bool(*b),
        Yaml::Number(n) => YamlNode::Number(n.to_string()),
        Yaml::String(s) => YamlNode::Text(s),
        Yaml::Sequence(s) => YamlNode::Sequence(s),
        Yaml::Mapping(m) => YamlNode::Mapping(m.iter().collect()),
        Yaml::Tagged(t) => YamlNode::Tagged(&t.value),
    }
}

/// `serde_yaml::from_str` into a `serde_yaml::Value`: the document, or the parser's message.
#[verifier::external_body]
fn yaml_read(text: &str) -> (r: Result<Yaml, String>)
    ensures
        match r {
            Ok(v) => yaml_parse(text@) == YamlParsed::Document(yaml_tree(v)),
            Err(e) => yaml_parse(text@) == YamlParsed::Fault(e@),
        },
{
    serde_yaml::from_str(text).map_err(|e| e.to_string())
}

/// `serde_yaml::to_string` of a `serde_yaml::Value` made of texts: the text, or the emitter's
/// message.
#[verifier::external_body]
fn yaml_show(v: &Yaml) -> (r: Result<String, String>)
    requires
        textual(yaml_tree(*v)),
    ensures
        match r {
            Ok(s) => yaml_text(yaml_tree(*v)) == YamlShown::Text(s@),
            Err(e) => yaml_text(yaml_tree(*v)) == YamlShown::Fault(e@),
        },
{
    serde_yaml::to_string(v).map_err(|e| e.to_string())
}

/// Builds a `serde_yaml::Value` that holds a text.
#[verifier::external_body]
fn yaml_make_text(s: String) -> (r: Yaml)
    ensures
        yaml_tree(r) == YamlTree::Text(s@),
{
    Yaml::String(s)
}

/// Builds a `serde_yaml::Value` that holds a sequence.
#[verifier::external_body]
fn yaml_make_sequence(items: Vec<Yaml>) -> (r: Yaml)
    ensures
        yaml_tree(r) == YamlTree::Sequence(yaml_trees(items@)),
{
    Yaml::Sequence(items)
}

/// Whether no key occurs twice.
pub open spec fn distinct_keys(s: Seq<(String, Yaml)>) -> bool {
    forall|i: int, j: int| 0 <= i < j < s.len() ==> (#[trigger] s[i]).0@ != (#[trigger] s[j]).0@
}

/// The entries of a mapping from texts.
pub open spec fn keyed_entries(s: Seq<(String, Yaml)>) -> Seq<(YamlTree, YamlTree)> {
    Seq::new(s.len(), |i: int| (YamlTree::Text(s[i].0@), yaml_tree(s[i].1)))
}

/// Builds a `serde_yaml::Value` that holds a mapping from texts, its entries in the given order.
#[verifier::external_body]
fn yaml_make_mapping(entries: Vec<(String, Yaml)>) -> (r: Yaml)
    requires
        distinct_keys(entries@),
    ensures
        yaml_tree(r) == YamlTree::Mapping(keyed_entries(entries@)),
{
    Yaml::Mapping(entries.into_iter().map(|(k, v)| (Yaml::String(k), v)).collect())
}

/// The size, in bytes, above which a configuration is refused.
pub const MAX_CONFIG_SIZE_BYTES: usize = 2_097_152;

/// The depth of nesting above which a configuration is refused.
pub const MAX_CONFIG_DEPTH: usize = 20;

/// Whether the document nests at most `room` levels deep. What is tagged is not looked into.
pub open spec fn within(t: YamlTree, room: int) -> bool
    decreases t,
{
    &&& room >= 0
    &&& match t {
        YamlTree::Sequence(s) => forall|i: int|
            0 <= i < s.len() ==> within(#[trigger] s[i], room - 1),
        YamlTree::Mapping(s) => forall|i: int|
            0 <= i < s.len() ==> within((#[trigger] s[i]).0, room - 1) && within(s[i].1, room - 1),
        _ => true,
    }
}

/// Checks that a value at the given depth does not nest too deep.
pub fn validate_yaml_depth(value: &Yaml, depth: usize) -> (r: Result<(), ConfigError>)
    ensures
        r is Ok <==> within(yaml_tree(*value), MAX_CONFIG_DEPTH - depth),
        r matches Err(e) ==> e@ == ConfigFault::DepthExceeded(MAX_CONFIG_DEPTH),
    decreases yaml_tree(*value),
{
    if depth > MAX_CONFIG_DEPTH {
        return Err(ConfigError::DepthExceeded(MAX_CONFIG_DEPTH));
    }
    let ghost t = yaml_tree(*value);
    let ghost room = MAX_CONFIG_DEPTH - depth;
    match yaml_open(value) {
        YamlNode::Sequence(items) => {
            let ghost s = yaml_trees(items@);
            let mut i: usize = 0;
            while i < items.len()
                invariant
                    i <= items@.len(),
                    depth <= MAX_CONFIG_DEPTH,
                    t == yaml_tree(*value),
                    t == YamlTree::Sequence(s),
                    s == yaml_trees(items@),
                    room == MAX_CONFIG_DEPTH - depth,
                    forall|j: int| 0 <= j < i ==> within(#[trigger] s[j], room - 1),
                decreases items.len() - i,
            {
                proof {
                    assert(s[i as int] == yaml_tree(items@[i as int]));
                    assert(decreases_to!(t => t->Sequence_0));
                    assert(decreases_to!(s => s[i as int]));
                }
                match validate_yaml_depth(&items[i], depth + 1) {
                    Ok(_) => {},
                    Err(e) => {
                        assert(!within(s[i as int], room - 1));
                        return Err(e);
                    },
                }
                i += 1;
            }
            Ok(())
        },
        YamlNode::Mapping(entries) => {
            let ghost s = yaml_entries(entries@);
            let mut i: usize = 0;
            while i < entries.len()
                invariant
                    i <= entries@.len(),
                    depth <= MAX_CONFIG_DEPTH,
                    t == yaml_tree(*value),
                    t == YamlTree::Mapping(s),
                    s == yaml_entries(entries@),
                    room == MAX_CONFIG_DEPTH - depth,
                    forall|j: int|
                        0 <= j < i ==> within((#[trigger] s[j]).0, room - 1) && within(
                            s[j].1,
                            room - 1,
                        ),
                decreases entries.len() - i,
            {
                let entry = entries[i];
                proof {
                    assert(s[i as int] == (yaml_tree(*entry.0), yaml_tree(*entry.1)));
                    assert(decreases_to!(t => t->Mapping_0));
                    assert(decreases_to!(s => s[i as int]));
                    assert(decreases_to!(s[i as int] => s[i as int].0));
                    assert(decreases_to!(s[i as int] => s[i as int].1));
                }
                match validate_yaml_depth(entry.0, depth + 1) {
                    Ok(_) => {},
                    Err(e) => {
                        assert(!within(s[i as int].0, room - 1));
                        return Err(e);
                    },
                }
                match validate_yaml_depth(entry.1, depth + 1) {
                    Ok(_) => {},
                    Err(e) => {
                        assert(!within(s[i as int].1, room - 1));
                        return Err(e);
                    },
                }
                i += 1;
            }
            Ok(())
        },
        _ => Ok(()),
    }
}

/// What is said of a document that is not what was expected.
pub uninterp spec fn mismatch_text(found: YamlTree, expected: Seq<char>) -> Seq<char>;

/// The message of `serde::de::Error::invalid_type` for a `serde_yaml::Value` in a place where
/// something else was expected.
#[verifier::external_body]
fn mismatch(found: &Yaml, expected: &str) -> (r: String)
    ensures
        r@ == mismatch_text(yaml_tree(*found), expected@),
{
    let what = match found {
        Yaml::Null => Unexpected::Unit,
        Yaml::Bool(b) => Unexpected::Bool(*b),
        Yaml::Number(n) => match (n.as_u64(), n.as_i64()) {
            (Some(u), _) => Unexpected::Unsigned(u),
            (None, Some(i)) => Unexpected::Signed(i),
            (None, None) => Unexpected::Float(n.as_f64().unwrap_or_default()),
        },
        Yaml::String(s) => Unexpected::Str(s),
        Yaml::Sequence(_) => Unexpected::Seq,
        Yaml::Mapping(_) => Unexpected::Map,
        Yaml::Tagged(_) => Unexpected::Enum,
    };
    serde_yaml::Error::invalid_type(what, &expected).to_string()
}

/// The document without its tags.
pub open spec fn untagged(t: YamlTree) -> YamlTree
    decreases t,
{
    match t {
        YamlTree::Tagged(inner) => untagged(*inner),
        _ => t,
    }
}

/// A value of a field, or a message that says what is wrong with it.
pub type Field<T> = Result<T, Seq<char>>;

/// The text that a document is.
pub open spec fn text_field(t: YamlTree, expected: Seq<char>) -> Field<Seq<char>> {
    match untagged(t) {
        YamlTree::Text(s) => Ok(s),
        _ => Err(mismatch_text(untagged(t), expected)),
    }
}

/// The items that a document lists; null lists none.
pub open spec fn items_field(t: YamlTree) -> Field<Seq<YamlTree>> {
    match untagged(t) {
        YamlTree::Sequence(s) => Ok(s),
        YamlTree::Null => Ok(Seq::empty()),
        _ => Err(mismatch_text(untagged(t), "a sequence"@)),
    }
}

/// The entries that a document maps; null maps none.
pub open spec fn entries_field(t: YamlTree, expected: Seq<char>) -> Field<
    Seq<(YamlTree, YamlTree)>,
> {
    match untagged(t) {
        YamlTree::Mapping(s) => Ok(s),
        YamlTree::Null => Ok(Seq::empty()),
        _ => Err(mismatch_text(untagged(t), expected)),
    }
}

/// The texts that items are.
pub open spec fn text_items(s: Seq<YamlTree>) -> Field<Seq<Seq<char>>>
    decreases s.len(),
{
    if s.len() == 0 {
        Ok(Seq::empty())
    } else {
        match text_items(s.drop_last()) {
            Err(e) => Err(e),
            Ok(rest) => match text_field(s.last(), "a string"@) {
                Err(e) => Err(e),
                Ok(text) => Ok(rest.push(text)),
            },
        }
    }
}

/// The texts that a document lists.
pub open spec fn texts_field(t: YamlTree) -> Field<Seq<Seq<char>>> {
    match items_field(t) {
        Err(e) => Err(e),
        Ok(s) => text_items(s),
    }
}

/// What is said of a field that occurs twice.
pub open spec fn duplicate(key: Seq<char>) -> Seq<char> {
    "duplicate field `"@ + key + "`"@
}

/// What is said of a field that is left out.
pub open spec fn lacking(key: Seq<char>) -> Seq<char> {
    "missing field `"@ + key + "`"@
}

/// The text for a field that has none yet.
pub open spec fn fill(slot: Option<Seq<char>>, key: Seq<char>, t: YamlTree) -> Field<Seq<char>> {
    if slot is Some {
        Err(duplicate(key))
    } else {
        text_field(t, "a string"@)
    }
}

/// What is known of a node while its fields are read.
pub struct NodeDraft {
    pub name: Option<Seq<char>>,
    pub engine: Option<Seq<char>>,
    pub code: Option<Seq<char>>,
    pub inputs: Option<Seq<Seq<char>>>,
}

/// What is known of a node after one more field. Fields of other names do not matter.
pub open spec fn node_entry(d: NodeDraft, key: Seq<char>, t: YamlTree) -> Field<NodeDraft> {
    if key == "name"@ {
        match fill(d.name, key, t) {
            Ok(s) => Ok(NodeDraft { name: Some(s), ..d }),
            Err(e) => Err(e),
        }
    } else if key == "engine"@ {
        match fill(d.engine, key, t) {
            Ok(s) => Ok(NodeDraft { engine: Some(s), ..d }),
            Err(e) => Err(e),
        }
    } else if key == "code"@ {
        match fill(d.code, key, t) {
            Ok(s) => Ok(NodeDraft { code: Some(s), ..d }),
            Err(e) => Err(e),
        }
    } else if key == "inputs"@ {
        if d.inputs is Some {
            Err(duplicate(key))
        } else {
            match texts_field(t) {
                Ok(s) => Ok(NodeDraft { inputs: Some(s), ..d }),
                Err(e) => Err(e),
            }
        }
    } else {
        Ok(d)
    }
}

/// What is known of a node after its fields were read in order.
pub open spec fn node_scan(s: Seq<(YamlTree, YamlTree)>) -> Field<NodeDraft>
    decreases s.len(),
{
    if s.len() == 0 {
        Ok(NodeDraft { name: None, engine: None, code: None, inputs: None })
    } else {
        match node_scan(s.drop_last()) {
            Err(e) => Err(e),
            Ok(d) => match text_field(s.last().0, "field identifier"@) {
                Err(e) => Err(e),
                Ok(key) => node_entry(d, key, s.last().1),
            },
        }
    }
}

/// The node of which that is known. Only its inputs may be left out.
pub open spec fn node_finish(d: NodeDraft) -> Field<NodeSpec> {
    match (d.name, d.engine, d.code) {
        (None, _, _) => Err(lacking("name"@)),
        (Some(_), None, _) => Err(lacking("engine"@)),
        (Some(_), Some(_), None) => Err(lacking("code"@)),
        (Some(name), Some(engine), Some(code)) => Ok(
            NodeSpec {
                name,
                engine,
                code,
                inputs: match d.inputs {
                    Some(s) => s,
                    None => Seq::empty(),
                },
            },
        ),
    }
}

/// The node that a document describes.
pub open spec fn node_of(t: YamlTree) -> Field<NodeSpec> {
    match entries_field(t, "struct NodeConfig"@) {
        Err(e) => Err(e),
        Ok(s) => match node_scan(s) {
            Err(e) => Err(e),
            Ok(d) => node_finish(d),
        },
    }
}

/// The nodes that items describe.
pub open spec fn node_items(s: Seq<YamlTree>) -> Field<Seq<NodeSpec>>
    decreases s.len(),
{
    if s.len() == 0 {
        Ok(Seq::empty())
    } else {
        match node_items(s.drop_last()) {
            Err(e) => Err(e),
            Ok(rest) => match node_of(s.last()) {
                Err(e) => Err(e),
                Ok(node) => Ok(rest.push(node)),
            },
        }
    }
}

/// The nodes that a document lists.
pub open spec fn nodes_field(t: YamlTree) -> Field<Seq<NodeSpec>> {
    match items_field(t) {
        Err(e) => Err(e),
        Ok(s) => node_items(s),
    }
}

/// What is known of a pipeline while its fields are read.
pub struct PipelineDraft {
    pub name: Option<Seq<char>>,
    pub nodes: Option<Seq<NodeSpec>>,
}

/// What is known of a pipeline after one more field. Fields of other names do not matter.
pub open spec fn pipeline_entry(d: PipelineDraft, key: Seq<char>, t: YamlTree) -> Field<
    PipelineDraft,
> {
    if key == "name"@ {
        match fill(d.name, key, t) {
            Ok(s) => Ok(PipelineDraft { name: Some(s), ..d }),
            Err(e) => Err(e),
        }
    } else if key == "nodes"@ {
        if d.nodes is Some {
            Err(duplicate(key))
        } else {
            match nodes_field(t) {
                Ok(s) => Ok(PipelineDraft { nodes: Some(s), ..d }),
                Err(e) => Err(e),
            }
        }
    } else {
        Ok(d)
    }
}

/// What is known of a pipeline after its fields were read in order.
pub open spec fn pipeline_scan(s: Seq<(YamlTree, YamlTree)>) -> Field<PipelineDraft>
    decreases s.len(),
{
    if s.len() == 0 {
        Ok(PipelineDraft { name: None, nodes: None })
    } else {
        match pipeline_scan(s.drop_last()) {
            Err(e) => Err(e),
            Ok(d) => match text_field(s.last().0, "field identifier"@) {
                Err(e) => Err(e),
                Ok(key) => pipeline_entry(d, key, s.last().1),
            },
        }
    }
}

/// The pipeline that a document describes.
pub open spec fn pipeline_of(t: YamlTree) -> Field<PipelineSpec> {
    match entries_field(t, "struct PipelineConfig"@) {
        Err(e) => Err(e),
        Ok(s) => match pipeline_scan(s) {
            Err(e) => Err(e),
            Ok(d) => match d.name {
                None => Err(lacking("name"@)),
                Some(name) => Ok(
                    PipelineSpec {
                        name,
                        nodes: match d.nodes {
                            Some(nodes) => nodes,
                            None => Seq::empty(),
                        },
                    },
                ),
            },
        },
    }
}

/// What comes of reading a configuration: the pipeline, or what is wrong.
pub open spec fn config_of(text: Seq<char>) -> Result<PipelineSpec, ConfigFault> {
    let size = encode_utf8(text).len();
    if size > MAX_CONFIG_SIZE_BYTES {
        Err(ConfigFault::PayloadTooLarge(size as usize, MAX_CONFIG_SIZE_BYTES))
    } else {
        match yaml_parse(text) {
            YamlParsed::Fault(e) => Err(ConfigFault::Parse(e)),
            YamlParsed::Document(t) => checked_config(t),
        }
    }
}

/// What comes of reading a document as a configuration.
pub open spec fn checked_config(t: YamlTree) -> Result<PipelineSpec, ConfigFault> {
    if !within(t, MAX_CONFIG_DEPTH as int) {
        Err(ConfigFault::DepthExceeded(MAX_CONFIG_DEPTH))
    } else {
        match pipeline_of(t) {
            Err(e) => Err(ConfigFault::Parse(e)),
            Ok(config) => match config_fault(config.nodes) {
                Some(f) => Err(f),
                None => Ok(config),
            },
        }
    }
}

fn untag<'a>(v: &'a Yaml) -> (r: &'a Yaml)
    ensures
        yaml_tree(*r) == untagged(yaml_tree(*v)),
    decreases yaml_tree(*v),
{
    match yaml_open(v) {
        YamlNode::Tagged(inner) => {
            let ghost t = yaml_tree(*v);
            assert(decreases_to!(t => t->Tagged_0));
            untag(inner)
        },
        _ => v,
    }
}

fn read_text(v: &Yaml, expected: &str) -> (r: Result<String, String>)
    ensures
        match r {
            Ok(s) => text_field(yaml_tree(*v), expected@) == Field::<Seq<char>>::Ok(s@),
            Err(e) => text_field(yaml_tree(*v), expected@) == Field::<Seq<char>>::Err(e@),
        },
{
    let bare = untag(v);
    match yaml_open(bare) {
        YamlNode::Text(s) => Ok(s.to_owned()),
        _ => Err(mismatch(bare, expected)),
    }
}

/// The documents of a sequence of references to YAML values.
pub open spec fn ref_trees(s: Seq<&Yaml>) -> Seq<YamlTree> {
    Seq::new(s.len(), |i: int| yaml_tree(*s[i]))
}

fn read_items<'a>(v: &'a Yaml) -> (r: Result<Vec<&'a Yaml>, String>)
    ensures
        match r {
            Ok(s) => items_field(yaml_tree(*v)) == Field::<Seq<YamlTree>>::Ok(ref_trees(s@)),
            Err(e) => items_field(yaml_tree(*v)) == Field::<Seq<YamlTree>>::Err(e@),
        },
{
    let bare = untag(v);
    match yaml_open(bare) {
        YamlNode::Sequence(items) => {
            let mut r: Vec<&'a Yaml> = Vec::new();
            let mut i: usize = 0;
            while i < items.len()
                invariant
                    i <= items@.len(),
                    r@.len() == i,
                    forall|j: int| 0 <= j < i ==> *(#[trigger] r@[j]) == items@[j],
                decreases items.len() - i,
            {
                r.push(&items[i]);
                i += 1;
            }
            assert(ref_trees(r@) =~= yaml_trees(items@));
            Ok(r)
        },
        YamlNode::Null => {
            let r: Vec<&'a Yaml> = Vec::new();
            assert(ref_trees(r@) =~= Seq::<YamlTree>::empty());
            Ok(r)
        },
        _ => Err(mismatch(bare, "a sequence")),
    }
}

fn read_entries<'a>(v: &'a Yaml, expected: &str) -> (r: Result<
    Vec<(&'a Yaml, &'a Yaml)>,
    String,
>)
    ensures
        match r {
            Ok(s) => entries_field(yaml_tree(*v), expected@) == Field::<
                Seq<(YamlTree, YamlTree)>,
            >::Ok(yaml_entries(s@)),
            Err(e) => entries_field(yaml_tree(*v), expected@) == Field::<
                Seq<(YamlTree, YamlTree)>,
            >::Err(e@),
        },
{
    let bare = untag(v);
    match yaml_open(bare) {
        YamlNode::Mapping(entries) => Ok(entries),
        YamlNode::Null => {
            let r: Vec<(&'a Yaml, &'a Yaml)> = Vec::new();
            assert(yaml_entries(r@) =~= Seq::<(YamlTree, YamlTree)>::empty());
            Ok(r)
        },
        _ => Err(mismatch(bare, expected)),
    }
}

fn read_texts(v: &Yaml) -> (r: Result<Vec<String>, String>)
    ensures
        match r {
            Ok(s) => texts_field(yaml_tree(*v)) == Field::<Seq<Seq<char>>>::Ok(texts(s@)),
            Err(e) => texts_field(yaml_tree(*v)) == Field::<Seq<Seq<char>>>::Err(e@),
        },
{
    let items = match read_items(v) {
        Ok(items) => items,
        Err(e) => {
            return Err(e);
        },
    };
    let ghost s = ref_trees(items@);
    let mut r: Vec<String> = Vec::new();
    let mut i: usize = 0;
    assert(s.take(0) =~= Seq::<YamlTree>::empty());
    assert(texts(r@) =~= Seq::<Seq<char>>::empty());
    while i < items.len()
        invariant
            i <= items@.len(),
            s == ref_trees(items@),
            texts_field(yaml_tree(*v)) == text_items(s),
            text_items(s.take(i as int)) == Field::<Seq<Seq<char>>>::Ok(texts(r@)),
        decreases items.len() - i,
    {
        let ghost earlier = texts(r@);
        proof {
            assert(s.take(i + 1).drop_last() =~= s.take(i as int));
            assert(s.take(i + 1).last() == s[i as int]);
        }
        match read_text(items[i], "a string") {
            Ok(text) => {
                r.push(text);
                assert(texts(r@) =~= earlier.push(text@));
            },
            Err(e) => {
                proof {
                    lemma_texts_fault(s, i + 1);
                }
                return Err(e);
            },
        }
        i += 1;
    }
    assert(s.take(i as int) =~= s);
    Ok(r)
}

proof fn lemma_texts_fault(s: Seq<YamlTree>, i: int)
    requires
        0 <= i <= s.len(),
        text_items(s.take(i)) is Err,
    ensures
        text_items(s) == text_items(s.take(i)),
    decreases s.len(),
{
    if i < s.len() {
        assert(s.drop_last().take(i) =~= s.take(i));
        lemma_texts_fault(s.drop_last(), i);
    } else {
        assert(s.take(i) =~= s);
    }
}

fn fill_text(slot: &Option<String>, key: &str, v: &Yaml) -> (r: Result<Option<String>, String>)
    ensures
        match r {
            Ok(s) => s is Some && fill(opt_text(*slot), key@, yaml_tree(*v)) == Field::<
                Seq<char>,
            >::Ok(opt_text(s)->0),
            Err(e) => fill(opt_text(*slot), key@, yaml_tree(*v)) == Field::<Seq<char>>::Err(e@),
        },
{
    match slot {
        Some(_) => Err(cat3("duplicate field `", key, "`")),
        None => match read_text(v, "a string") {
            Ok(s) => Ok(Some(s)),
            Err(e) => Err(e),
        },
    }
}

/// A node while its fields are read.
struct NodeFields {
    name: Option<String>,
    engine: Option<String>,
    code: Option<String>,
    inputs: Option<Vec<String>>,
}

impl NodeFields {
    spec fn view(&self) -> NodeDraft {
        NodeDraft {
            name: opt_text(self.name),
            engine: opt_text(self.engine),
            code: opt_text(self.code),
            inputs: match self.inputs {
                Some(v) => Some(texts(v@)),
                None => None,
            },
        }
    }
}

fn read_node_entry(d: NodeFields, key: &str, v: &Yaml) -> (r: Result<NodeFields, String>)
    ensures
        match r {
            Ok(n) => node_entry(d@, key@, yaml_tree(*v)) == Field::<NodeDraft>::Ok(n@),
            Err(e) => node_entry(d@, key@, yaml_tree(*v)) == Field::<NodeDraft>::Err(e@),
        },
{
    let mut d = d;
    if same_text(key, "name") {
        d.name = match fill_text(&d.name, key, v) {
            Ok(s) => s,
            Err(e) => {
                return Err(e);
            },
        };
    } else if same_text(key, "engine") {
        d.engine = match fill_text(&d.engine, key, v) {
            Ok(s) => s,
            Err(e) => {
                return Err(e);
            },
        };
    } else if same_text(key, "code") {
        d.code = match fill_text(&d.code, key, v) {
            Ok(s) => s,
            Err(e) => {
                return Err(e);
            },
        };
    } else if same_text(key, "inputs") {
        if d.inputs.is_some() {
            return Err(cat3("duplicate field `", key, "`"));
        }
        d.inputs = match read_texts(v) {
            Ok(s) => Some(s),
            Err(e) => {
                return Err(e);
            },
        };
    }
    Ok(d)
}

fn finish_node(d: NodeFields) -> (r: Result<NodeConfig, String>)
    ensures
        match r {
            Ok(n) => node_finish(d@) == Field::<NodeSpec>::Ok(n@),
            Err(e) => node_finish(d@) == Field::<NodeSpec>::Err(e@),
        },
{
    let name = match d.name {
        Some(s) => s,
        None => {
            return Err(cat3("missing field `", "name", "`"));
        },
    };
    let engine = match d.engine {
        Some(s) => s,
        None => {
            return Err(cat3("missing field `", "engine", "`"));
        },
    };
    let code = match d.code {
        Some(s) => s,
        None => {
            return Err(cat3("missing field `", "code", "`"));
        },
    };
    let inputs = match d.inputs {
        Some(v) => v,
        None => {
            let v: Vec<String> = Vec::new();
            assert(texts(v@) =~= Seq::<Seq<char>>::empty());
            v
        },
    };
    Ok(NodeConfig { name, engine, code, inputs })
}

fn read_node(v: &Yaml) -> (r: Result<NodeConfig, String>)
    ensures
        match r {
            Ok(n) => node_of(yaml_tree(*v)) == Field::<NodeSpec>::Ok(n@),
            Err(e) => node_of(yaml_tree(*v)) == Field::<NodeSpec>::Err(e@),
        },
{
    let entries = match read_entries(v, "struct NodeConfig") {
        Ok(entries) => entries,
        Err(e) => {
            return Err(e);
        },
    };
    let ghost s = yaml_entries(entries@);
    let mut d = NodeFields { name: None, engine: None, code: None, inputs: None };
    let mut i: usize = 0;
    assert(s.take(0) =~= Seq::<(YamlTree, YamlTree)>::empty());
    while i < entries.len()
        invariant
            i <= entries@.len(),
            s == yaml_entries(entries@),
            entries_field(yaml_tree(*v), "struct NodeConfig"@) == Field::<
                Seq<(YamlTree, YamlTree)>,
            >::Ok(s),
            node_scan(s.take(i as int)) == Field::<NodeDraft>::Ok(d@),
        decreases entries.len() - i,
    {
        let entry = entries[i];
        proof {
            assert(s.take(i + 1).drop_last() =~= s.take(i as int));
            assert(s.take(i + 1).last() == s[i as int]);
        }
        let key = match read_text(entry.0, "field identifier") {
            Ok(key) => key,
            Err(e) => {
                proof {
                    lemma_node_scan_fault(s, i + 1);
                }
                return Err(e);
            },
        };
        d = match read_node_entry(d, key.as_str(), entry.1) {
            Ok(d) => d,
            Err(e) => {
                proof {
                    lemma_node_scan_fault(s, i + 1);
                }
                return Err(e);
            },
        };
        i += 1;
    }
    assert(s.take(i as int) =~= s);
    finish_node(d)
}

proof fn lemma_node_scan_fault(s: Seq<(YamlTree, YamlTree)>, i: int)
    requires
        0 <= i <= s.len(),
        node_scan(s.take(i)) is Err,
    ensures
        node_scan(s) == node_scan(s.take(i)),
    decreases s.len(),
{
    if i < s.len() {
        assert(s.drop_last().take(i) =~= s.take(i));
        lemma_node_scan_fault(s.drop_last(), i);
    } else {
        assert(s.take(i) =~= s);
    }
}

fn read_nodes(v: &Yaml) -> (r: Result<Vec<NodeConfig>, String>)
    ensures
        match r {
            Ok(s) => nodes_field(yaml_tree(*v)) == Field::<Seq<NodeSpec>>::Ok(node_specs(s@)),
            Err(e) => nodes_field(yaml_tree(*v)) == Field::<Seq<NodeSpec>>::Err(e@),
        },
{
    let items = match read_items(v) {
        Ok(items) => items,
        Err(e) => {
            return Err(e);
        },
    };
    let ghost s = ref_trees(items@);
    let mut r: Vec<NodeConfig> = Vec::new();
    let mut i: usize = 0;
    assert(s.take(0) =~= Seq::<YamlTree>::empty());
    assert(node_specs(r@) =~= Seq::<NodeSpec>::empty());
    while i < items.len()
        invariant
            i <= items@.len(),
            s == ref_trees(items@),
            nodes_field(yaml_tree(*v)) == node_items(s),
            node_items(s.take(i as int)) == Field::<Seq<NodeSpec>>::Ok(node_specs(r@)),
        decreases items.len() - i,
    {
        let ghost earlier = node_specs(r@);
        proof {
            assert(s.take(i + 1).drop_last() =~= s.take(i as int));
            assert(s.take(i + 1).last() == s[i as int]);
        }
        match read_node(items[i]) {
            Ok(node) => {
                r.push(node);
                assert(node_specs(r@) =~= earlier.push(node@));
            },
            Err(e) => {
                proof {
                    lemma_nodes_fault(s, i + 1);
                }
                return Err(e);
            },
        }
        i += 1;
    }
    assert(s.take(i as int) =~= s);
    Ok(r)
}

proof fn lemma_nodes_fault(s: Seq<YamlTree>, i: int)
    requires
        0 <= i <= s.len(),
        node_items(s.take(i)) is Err,
    ensures
        node_items(s) == node_items(s.take(i)),
    decreases s.len(),
{
    if i < s.len() {
        assert(s.drop_last().take(i) =~= s.take(i));
        lemma_nodes_fault(s.drop_last(), i);
    } else {
        assert(s.take(i) =~= s);
    }
}

/// A pipeline while its fields are read.
struct PipelineFields {
    name: Option<String>,
    nodes: Option<Vec<NodeConfig>>,
}

impl PipelineFields {
    spec fn view(&self) -> PipelineDraft {
        PipelineDraft {
            name: opt_text(self.name),
            nodes: match self.nodes {
                Some(v) => Some(node_specs(v@)),
                None => None,
            },
        }
    }
}

fn read_pipeline_entry(d: PipelineFields, key: &str, v: &Yaml) -> (r: Result<
    PipelineFields,
    String,
>)
    ensures
        match r {
            Ok(n) => pipeline_entry(d@, key@, yaml_tree(*v)) == Field::<PipelineDraft>::Ok(n@),
            Err(e) => pipeline_entry(d@, key@, yaml_tree(*v)) == Field::<PipelineDraft>::Err(e@),
        },
{
    let mut d = d;
    if same_text(key, "name") {
        d.name = match fill_text(&d.name, key, v) {
            Ok(s) => s,
            Err(e) => {
                return Err(e);
            },
        };
    } else if same_text(key, "nodes") {
        if d.nodes.is_some() {
            return Err(cat3("duplicate field `", key, "`"));
        }
        d.nodes = match read_nodes(v) {
            Ok(s) => Some(s),
            Err(e) => {
                return Err(e);
            },
        };
    }
    Ok(d)
}

fn read_pipeline(v: &Yaml) -> (r: Result<PipelineConfig, String>)
    ensures
        match r {
            Ok(n) => pipeline_of(yaml_tree(*v)) == Field::<PipelineSpec>::Ok(n@),
            Err(e) => pipeline_of(yaml_tree(*v)) == Field::<PipelineSpec>::Err(e@),
        },
{
    let entries = match read_entries(v, "struct PipelineConfig") {
        Ok(entries) => entries,
        Err(e) => {
            return Err(e);
        },
    };
    let ghost s = yaml_entries(entries@);
    let mut d = PipelineFields { name: None, nodes: None };
    let mut i: usize = 0;
    assert(s.take(0) =~= Seq::<(YamlTree, YamlTree)>::empty());
    while i < entries.len()
        invariant
            i <= entries@.len(),
            s == yaml_entries(entries@),
            entries_field(yaml_tree(*v), "struct PipelineConfig"@) == Field::<
                Seq<(YamlTree, YamlTree)>,
            >::Ok(s),
            pipeline_scan(s.take(i as int)) == Field::<PipelineDraft>::Ok(d@),
        decreases entries.len() - i,
    {
        let entry = entries[i];
        proof {
            assert(s.take(i + 1).drop_last() =~= s.take(i as int));
            assert(s.take(i + 1).last() == s[i as int]);
        }
        let key = match read_text(entry.0, "field identifier") {
            Ok(key) => key,
            Err(e) => {
                proof {
                    lemma_pipeline_scan_fault(s, i + 1);
                }
                return Err(e);
            },
        };
        d = match read_pipeline_entry(d, key.as_str(), entry.1) {
            Ok(d) => d,
            Err(e) => {
                proof {
                    lemma_pipeline_scan_fault(s, i + 1);
                }
                return Err(e);
            },
        };
        i += 1;
    }
    assert(s.take(i as int) =~= s);
    let name = match d.name {
        Some(name) => name,
        None => {
            return Err(cat3("missing field `", "name", "`"));
        },
    };
    let nodes = match d.nodes {
        Some(nodes) => nodes,
        None => {
            let nodes: Vec<NodeConfig> = Vec::new();
            assert(node_specs(nodes@) =~= Seq::<NodeSpec>::empty());
            nodes
        },
    };
    Ok(PipelineConfig { name, nodes })
}

proof fn lemma_pipeline_scan_fault(s: Seq<(YamlTree, YamlTree)>, i: int)
    requires
        0 <= i <= s.len(),
        pipeline_scan(s.take(i)) is Err,
    ensures
        pipeline_scan(s) == pipeline_scan(s.take(i)),
    decreases s.len(),
{
    if i < s.len() {
        assert(s.drop_last().take(i) =~= s.take(i));
        lemma_pipeline_scan_fault(s.drop_last(), i);
    } else {
        assert(s.take(i) =~= s);
    }
}

/// Checks a document and reads it as a configuration.
pub fn config_from_yaml(v: &Yaml) -> (r: Result<PipelineConfig, ConfigError>)
    ensures
        match r {
            Ok(c) => checked_config(yaml_tree(*v)) == Result::<PipelineSpec, ConfigFault>::Ok(c@),
            Err(e) => checked_config(yaml_tree(*v)) == Result::<PipelineSpec, ConfigFault>::Err(
                e@,
            ),
        },
{
    match validate_yaml_depth(v, 0) {
        Ok(_) => {},
        Err(e) => {
            return Err(e);
        },
    }
    let config = match read_pipeline(v) {
        Ok(config) => config,
        Err(e) => {
            return Err(ConfigError::Parse(e));
        },
    };
    match config.validate() {
        Ok(_) => Ok(config),
        Err(e) => Err(e),
    }
}

/// Reads and checks a configuration.
pub fn parse_config(yaml_str: &str) -> (r: Result<PipelineConfig, ConfigError>)
    ensures
        match r {
            Ok(c) => config_of(yaml_str@) == Result::<PipelineSpec, ConfigFault>::Ok(c@),
            Err(e) => config_of(yaml_str@) == Result::<PipelineSpec, ConfigFault>::Err(e@),
        },
{
    let size: usize = yaml_str.as_bytes().len();
    if size > MAX_CONFIG_SIZE_BYTES {
        return Err(ConfigError::PayloadTooLarge(size, MAX_CONFIG_SIZE_BYTES));
    }
    match yaml_read(yaml_str) {
        Ok(v) => config_from_yaml(&v),
        Err(e) => Err(ConfigError::Parse(e)),
    }
}

/// The document that a list of texts is written as.
pub open spec fn texts_tree(s: Seq<Seq<char>>) -> YamlTree {
    YamlTree::Sequence(Seq::new(s.len(), |i: int| YamlTree::Text(s[i])))
}

/// The document that a node is written as.
pub open spec fn node_tree(n: NodeSpec) -> YamlTree {
    YamlTree::Mapping(
        seq![
            (YamlTree::Text("name"@), YamlTree::Text(n.name)),
            (YamlTree::Text("engine"@), YamlTree::Text(n.engine)),
            (YamlTree::Text("code"@), YamlTree::Text(n.code)),
            (YamlTree::Text("inputs"@), texts_tree(n.inputs)),
        ],
    )
}

/// The document that a pipeline is written as.
pub open spec fn pipeline_tree(p: PipelineSpec) -> YamlTree {
    YamlTree::Mapping(
        seq![
            (YamlTree::Text("name"@), YamlTree::Text(p.name)),
            (
                YamlTree::Text("nodes"@),
                YamlTree::Sequence(Seq::new(p.nodes.len(), |i: int| node_tree(p.nodes[i]))),
            ),
        ],
    )
}

fn node_to_yaml(n: &NodeConfig) -> (r: Yaml)
    ensures
        yaml_tree(r) == node_tree(n@),
{
    let mut items: Vec<Yaml> = Vec::new();
    let mut i: usize = 0;
    while i < n.inputs.len()
        invariant
            i <= n.inputs@.len(),
            items@.len() == i,
            forall|j: int|
                0 <= j < i ==> yaml_tree(#[trigger] items@[j]) == YamlTree::Text(n.inputs@[j]@),
        decreases n.inputs.len() - i,
    {
        items.push(yaml_make_text(n.inputs[i].clone()));
        i += 1;
    }
    assert(YamlTree::Sequence(yaml_trees(items@)) == texts_tree(n@.inputs)) by {
        assert(yaml_trees(items@) =~= texts_tree(n@.inputs)->Sequence_0);
    }
    let mut entries: Vec<(String, Yaml)> = Vec::new();
    entries.push(("name".to_owned(), yaml_make_text(n.name.clone())));
    entries.push(("engine".to_owned(), yaml_make_text(n.engine.clone())));
    entries.push(("code".to_owned(), yaml_make_text(n.code.clone())));
    entries.push(("inputs".to_owned(), yaml_make_sequence(items)));
    proof {
        reveal_strlit("name");
        reveal_strlit("engine");
        reveal_strlit("code");
        reveal_strlit("inputs");
        assert("name"@.len() == 4 && "engine"@.len() == 6 && "code"@.len() == 4 && "inputs"@.len()
            == 6);
        assert("name"@[0] != "code"@[0]);
        assert("engine"@[0] != "inputs"@[0]);
        assert(entries@[0].0@ == "name"@);
        assert(entries@[1].0@ == "engine"@);
        assert(entries@[2].0@ == "code"@);
        assert(entries@[3].0@ == "inputs"@);
        assert(keyed_entries(entries@) =~= node_tree(n@)->Mapping_0);
    }
    yaml_make_mapping(entries)
}

fn pipeline_to_yaml(p: &PipelineConfig) -> (r: Yaml)
    ensures
        yaml_tree(r) == pipeline_tree(p@),
{
    let mut items: Vec<Yaml> = Vec::new();
    let mut i: usize = 0;
    while i < p.nodes.len()
        invariant
            i <= p.nodes@.len(),
            items@.len() == i,
            forall|j: int|
                0 <= j < i ==> yaml_tree(#[trigger] items@[j]) == node_tree(p.nodes@[j]@),
        decreases p.nodes.len() - i,
    {
        items.push(node_to_yaml(&p.nodes[i]));
        i += 1;
    }
    let mut entries: Vec<(String, Yaml)> = Vec::new();
    let ghost nodes = p@.nodes;
    assert(yaml_trees(items@) =~= Seq::new(nodes.len(), |i: int| node_tree(nodes[i])));
    entries.push(("name".to_owned(), yaml_make_text(p.name.clone())));
    entries.push(("nodes".to_owned(), yaml_make_sequence(items)));
    proof {
        reveal_strlit("name");
        reveal_strlit("nodes");
        assert("name"@.len() == 4 && "nodes"@.len() == 5);
        assert(entries@[0].0@ == "name"@);
        assert(entries@[1].0@ == "nodes"@);
        assert(keyed_entries(entries@) =~= pipeline_tree(p@)->Mapping_0);
    }
    yaml_make_mapping(entries)
}

proof fn lemma_pipeline_textual(p: PipelineSpec)
    ensures
        textual(pipeline_tree(p)),
{
    let items = Seq::new(p.nodes.len(), |i: int| node_tree(p.nodes[i]));
    assert forall|i: int| 0 <= i < items.len() implies textual(#[trigger] items[i]) by {
        let inputs = texts_tree(p.nodes[i].inputs)->Sequence_0;
        assert forall|k: int| 0 <= k < inputs.len() implies textual(#[trigger] inputs[k]) by {}
        assert(textual(YamlTree::Sequence(inputs)));
        let fields = node_tree(p.nodes[i])->Mapping_0;
        assert forall|j: int| 0 <= j < fields.len() implies textual((#[trigger] fields[j]).0)
            && textual(fields[j].1) by {}
    }
    let fields = pipeline_tree(p)->Mapping_0;
    assert(textual(fields[1].1));
    assert forall|j: int| 0 <= j < fields.len() implies textual((#[trigger] fields[j]).0)
        && textual(fields[j].1) by {}
}

/// The configuration as YAML text, or the emitter's message.
pub fn config_to_yaml(p: &PipelineConfig) -> (r: Result<String, String>)
    ensures
        match r {
            Ok(s) => yaml_text(pipeline_tree(p@)) == YamlShown::Text(s@),
            Err(e) => yaml_text(pipeline_tree(p@)) == YamlShown::Fault(e@),
        },
{
    proof {
        lemma_pipeline_textual(p@);
    }
    yaml_show(&pipeline_to_yaml(p))
}

proof fn lemma_node_scan_push(s: Seq<(YamlTree, YamlTree)>, key: Seq<char>, value: YamlTree)
    requires
        node_scan(s) is Ok,
    ensures
        node_scan(s.push((YamlTree::Text(key), value))) == node_entry(
            node_scan(s)->Ok_0,
            key,
            value,
        ),
{
    assert(s.push((YamlTree::Text(key), value)).drop_last() =~= s);
}

proof fn lemma_pipeline_scan_push(s: Seq<(YamlTree, YamlTree)>, key: Seq<char>, value: YamlTree)
    requires
        pipeline_scan(s) is Ok,
    ensures
        pipeline_scan(s.push((YamlTree::Text(key), value))) == pipeline_entry(
            pipeline_scan(s)->Ok_0,
            key,
            value,
        ),
{
    assert(s.push((YamlTree::Text(key), value)).drop_last() =~= s);
}

proof fn lemma_texts_round_trip(s: Seq<Seq<char>>)
    ensures
        text_items(texts_tree(s)->Sequence_0) == Field::<Seq<Seq<char>>>::Ok(s),
    decreases s.len(),
{
    let t = texts_tree(s)->Sequence_0;
    if s.len() > 0 {
        lemma_texts_round_trip(s.drop_last());
        assert(t.drop_last() =~= texts_tree(s.drop_last())->Sequence_0);
        assert(s.drop_last().push(s.last()) =~= s);
    } else {
        assert(s =~= Seq::<Seq<char>>::empty());
    }
}

/// A node that was written as a document is read back as it was.
pub proof fn lemma_node_round_trip(n: NodeSpec)
    ensures
        node_of(node_tree(n)) == Field::<NodeSpec>::Ok(n),
{
    reveal_strlit("name");
    reveal_strlit("engine");
    reveal_strlit("code");
    reveal_strlit("inputs");
    assert("name"@.len() == 4 && "engine"@.len() == 6 && "code"@.len() == 4 && "inputs"@.len()
        == 6);
    assert("name"@[0] != "code"@[0]);
    assert("engine"@[0] != "inputs"@[0]);
    let s0 = Seq::<(YamlTree, YamlTree)>::empty();
    let s1 = s0.push((YamlTree::Text("name"@), YamlTree::Text(n.name)));
    let s2 = s1.push((YamlTree::Text("engine"@), YamlTree::Text(n.engine)));
    let s3 = s2.push((YamlTree::Text("code"@), YamlTree::Text(n.code)));
    let s4 = s3.push((YamlTree::Text("inputs"@), texts_tree(n.inputs)));
    assert(node_tree(n)->Mapping_0 =~= s4);
    lemma_texts_round_trip(n.inputs);
    lemma_node_scan_push(s0, "name"@, YamlTree::Text(n.name));
    lemma_node_scan_push(s1, "engine"@, YamlTree::Text(n.engine));
    lemma_node_scan_push(s2, "code"@, YamlTree::Text(n.code));
    lemma_node_scan_push(s3, "inputs"@, texts_tree(n.inputs));
}

proof fn lemma_nodes_round_trip(nodes: Seq<NodeSpec>)
    ensures
        node_items(Seq::new(nodes.len(), |i: int| node_tree(nodes[i]))) == Field::<
            Seq<NodeSpec>,
        >::Ok(nodes),
    decreases nodes.len(),
{
    let t = Seq::new(nodes.len(), |i: int| node_tree(nodes[i]));
    if nodes.len() > 0 {
        let rest = nodes.drop_last();
        lemma_nodes_round_trip(rest);
        assert(t.drop_last() =~= Seq::new(rest.len(), |i: int| node_tree(rest[i])));
        lemma_node_round_trip(nodes.last());
        assert(rest.push(nodes.last()) =~= nodes);
    } else {
        assert(nodes =~= Seq::<NodeSpec>::empty());
    }
}

/// A configuration that was written as a document is read back as it was.
pub proof fn lemma_pipeline_round_trip(p: PipelineSpec)
    ensures
        pipeline_of(pipeline_tree(p)) == Field::<PipelineSpec>::Ok(p),
        within(pipeline_tree(p), MAX_CONFIG_DEPTH as int),
{
    reveal_strlit("name");
    reveal_strlit("nodes");
    assert("name"@.len() == 4 && "nodes"@.len() == 5);
    let items = Seq::new(p.nodes.len(), |i: int| node_tree(p.nodes[i]));
    let list = YamlTree::Sequence(items);
    let s0 = Seq::<(YamlTree, YamlTree)>::empty();
    let s1 = s0.push((YamlTree::Text("name"@), YamlTree::Text(p.name)));
    let s2 = s1.push((YamlTree::Text("nodes"@), list));
    assert(pipeline_tree(p)->Mapping_0 =~= s2);
    lemma_nodes_round_trip(p.nodes);
    lemma_pipeline_scan_push(s0, "name"@, YamlTree::Text(p.name));
    lemma_pipeline_scan_push(s1, "nodes"@, list);
    assert forall|i: int| 0 <= i < items.len() implies within(#[trigger] items[i], 18) by {
        lemma_node_depth(p.nodes[i]);
    }
    assert(within(list, 19));
    assert(within(YamlTree::Text(p.name), 19));
    assert(within(YamlTree::Text("name"@), 19) && within(YamlTree::Text("nodes"@), 19));
}

proof fn lemma_node_depth(n: NodeSpec)
    ensures
        within(node_tree(n), 18),
{
    let inputs = texts_tree(n.inputs);
    assert(forall|i: int|
        0 <= i < n.inputs.len() ==> within(#[trigger] inputs->Sequence_0[i], 16));
    assert(within(inputs, 17));
    let m = node_tree(n)->Mapping_0;
    assert forall|i: int| 0 <= i < m.len() implies within((#[trigger] m[i]).0, 17) && within(
        m[i].1,
        17,
    ) by {
        assert(i == 0 || i == 1 || i == 2 || i == 3);
    }
}

/// A tag is seen through, however many there are, and nothing else is.
pub proof fn lemma_tags_dropped(t: YamlTree)
    ensures
        !(untagged(t) is Tagged),
        !(t is Tagged) ==> untagged(t) == t,
        untagged(YamlTree::Tagged(Box::new(t))) == untagged(t),
    decreases t,
{
    if let YamlTree::Tagged(inner) = t {
        lemma_tags_dropped(*inner);
    }
}

/// Whether the entry at that place has that key.
pub open spec fn named(s: Seq<(YamlTree, YamlTree)>, key: Seq<char>, i: int) -> bool {
    0 <= i < s.len() && untagged(s[i].0) == YamlTree::Text(key)
}

/// Whether a mapping gives that value under a key, and gives it once; or does not have the key, where
/// there is no value.
pub open spec fn given<T>(
    s: Seq<(YamlTree, YamlTree)>,
    key: Seq<char>,
    value: Option<T>,
    reads: spec_fn(YamlTree, T) -> bool,
) -> bool {
    match value {
        None => forall|i: int| !#[trigger] named(s, key, i),
        Some(x) => exists|i: int| #[trigger]
            named(s, key, i) && reads(s[i].1, x) && forall|j: int| #[trigger] named(s, key, j) ==> j == i,
    }
}

/// Whether a document is a text.
pub open spec fn is_text() -> spec_fn(YamlTree, Seq<char>) -> bool {
    |t: YamlTree, x: Seq<char>| untagged(t) == YamlTree::Text(x)
}

/// Whether a document is a list of texts, or nothing where the list is empty.
pub open spec fn is_list() -> spec_fn(YamlTree, Seq<Seq<char>>) -> bool {
    |t: YamlTree, x: Seq<Seq<char>>|
        match untagged(t) {
            YamlTree::Null => x.len() == 0,
            YamlTree::Sequence(v) => v.len() == x.len() && forall|j: int|
                0 <= j < v.len() ==> untagged(#[trigger] v[j]) == YamlTree::Text(x[j]),
            _ => false,
        }
}

/// Whether a document is a list of nodes, or nothing where the list is empty.
pub open spec fn is_nodes() -> spec_fn(YamlTree, Seq<NodeSpec>) -> bool {
    |t: YamlTree, x: Seq<NodeSpec>|
        match untagged(t) {
            YamlTree::Null => x.len() == 0,
            YamlTree::Sequence(v) => v.len() == x.len() && forall|j: int|
                0 <= j < v.len() ==> node_of(#[trigger] v[j]) == Field::<NodeSpec>::Ok(x[j]),
            _ => false,
        }
}

/// Whether every key is a text.
pub open spec fn text_keys(s: Seq<(YamlTree, YamlTree)>) -> bool {
    forall|i: int| 0 <= i < s.len() ==> untagged((#[trigger] s[i]).0) is Text
}

proof fn lemma_list_read(s: Seq<YamlTree>, x: Seq<Seq<char>>)
    ensures
        text_items(s) == Field::<Seq<Seq<char>>>::Ok(x) <==> s.len() == x.len() && forall|j: int|
            0 <= j < s.len() ==> untagged(#[trigger] s[j]) == YamlTree::Text(x[j]),
    decreases s.len(),
{
    if s.len() > 0 {
        let front = s.drop_last();
        if x.len() > 0 {
            lemma_list_read(front, x.drop_last());
            assert(x.drop_last().push(x.last()) =~= x);
            if text_items(s) == Field::<Seq<Seq<char>>>::Ok(x) {
                let rest = text_items(front)->Ok_0;
                assert(rest =~= x.drop_last());
                assert forall|j: int| 0 <= j < s.len() implies untagged(#[trigger] s[j])
                    == YamlTree::Text(x[j]) by {
                    if j < front.len() {
                        assert(front[j] == s[j]);
                    }
                }
            }
            if s.len() == x.len() && forall|j: int|
                0 <= j < s.len() ==> untagged(#[trigger] s[j]) == YamlTree::Text(x[j]) {
                assert forall|j: int| 0 <= j < front.len() implies untagged(#[trigger] front[j])
                    == YamlTree::Text(x.drop_last()[j]) by {
                    assert(front[j] == s[j]);
                }
                assert(untagged(s[s.len() - 1]) == YamlTree::Text(x[s.len() - 1]));
            }
        }
    } else {
        if x.len() == 0 {
            assert(x =~= Seq::empty());
        }
    }
}

proof fn lemma_nodes_read(s: Seq<YamlTree>, x: Seq<NodeSpec>)
    ensures
        node_items(s) == Field::<Seq<NodeSpec>>::Ok(x) <==> s.len() == x.len() && forall|j: int|
            0 <= j < s.len() ==> node_of(#[trigger] s[j]) == Field::<NodeSpec>::Ok(x[j]),
    decreases s.len(),
{
    if s.len() > 0 {
        let front = s.drop_last();
        if x.len() > 0 {
            lemma_nodes_read(front, x.drop_last());
            assert(x.drop_last().push(x.last()) =~= x);
            if node_items(s) == Field::<Seq<NodeSpec>>::Ok(x) {
                let rest = node_items(front)->Ok_0;
                assert(rest =~= x.drop_last());
                assert forall|j: int| 0 <= j < s.len() implies node_of(#[trigger] s[j]) == Field::<
                    NodeSpec,
                >::Ok(x[j]) by {
                    if j < front.len() {
                        assert(front[j] == s[j]);
                    }
                }
            }
            if s.len() == x.len() && forall|j: int|
                0 <= j < s.len() ==> node_of(#[trigger] s[j]) == Field::<NodeSpec>::Ok(x[j]) {
                assert forall|j: int| 0 <= j < front.len() implies node_of(#[trigger] front[j])
                    == Field::<NodeSpec>::Ok(x.drop_last()[j]) by {
                    assert(front[j] == s[j]);
                }
                assert(node_of(s[s.len() - 1]) == Field::<NodeSpec>::Ok(x[s.len() - 1]));
            }
        }
    } else {
        if x.len() == 0 {
            assert(x =~= Seq::empty());
        }
    }
}

proof fn lemma_given_kept<T>(
    s: Seq<(YamlTree, YamlTree)>,
    key: Seq<char>,
    value: Option<T>,
    reads: spec_fn(YamlTree, T) -> bool,
)
    requires
        s.len() > 0,
        untagged(s.last().0) != YamlTree::Text(key),
    ensures
        given(s, key, value, reads) <==> given(s.drop_last(), key, value, reads),
{
    let front = s.drop_last();
    assert forall|i: int| #[trigger] named(s, key, i) implies named(front, key, i) && front[i] == s[i] by {
        assert(i != s.len() - 1);
        assert(front[i] == s[i]);
    }
    assert forall|i: int| #[trigger] named(front, key, i) implies named(s, key, i) && front[i] == s[i] by {
        assert(front[i] == s[i]);
    }
    if let Some(x) = value {
        if given(s, key, value, reads) {
            let i = choose|i: int| #[trigger]
                named(s, key, i) && reads(s[i].1, x) && forall|j: int| #[trigger]
                    named(s, key, j) ==> j == i;
            assert(named(front, key, i));
        }
        if given(front, key, value, reads) {
            let i = choose|i: int| #[trigger]
                named(front, key, i) && reads(front[i].1, x) && forall|j: int| #[trigger]
                    named(front, key, j) ==> j == i;
            assert(named(s, key, i));
        }
    }
}

proof fn lemma_given_last<T>(
    s: Seq<(YamlTree, YamlTree)>,
    key: Seq<char>,
    x: T,
    reads: spec_fn(YamlTree, T) -> bool,
)
    requires
        s.len() > 0,
        untagged(s.last().0) == YamlTree::Text(key),
    ensures
        given(s, key, Some(x), reads) <==> given(s.drop_last(), key, None::<T>, reads) && reads(
            s.last().1,
            x,
        ),
        !given(s, key, None::<T>, reads),
{
    let front = s.drop_last();
    let n = s.len() - 1;
    assert(named(s, key, n));
    assert forall|i: int| #[trigger] named(front, key, i) implies named(s, key, i) by {
        assert(front[i] == s[i]);
    }
    assert forall|i: int| #[trigger] named(s, key, i) && i != n implies named(front, key, i) by {
        assert(front[i] == s[i]);
    }
}

proof fn lemma_node_scanned(s: Seq<(YamlTree, YamlTree)>, d: NodeDraft)
    ensures
        node_scan(s) == Field::<NodeDraft>::Ok(d) <==> text_keys(s) && given(
            s,
            "name"@,
            d.name,
            is_text(),
        ) && given(s, "engine"@, d.engine, is_text()) && given(s, "code"@, d.code, is_text()) && given(
            s,
            "inputs"@,
            d.inputs,
            is_list(),
        ),
    decreases s.len(),
{
    if s.len() == 0 {
        assert(forall|k: Seq<char>, i: int| !#[trigger] named(s, k, i));
    } else {
        let front = s.drop_last();
        let t = s.last().1;
        assert(text_keys(s) <==> text_keys(front) && untagged(s.last().0) is Text) by {
            if text_keys(s) {
                assert forall|i: int| 0 <= i < front.len() implies untagged((#[trigger] front[i]).0) is Text by {
                    assert(front[i] == s[i]);
                }
                assert(untagged(s[s.len() - 1].0) is Text);
            }
            if text_keys(front) && untagged(s.last().0) is Text {
                assert forall|i: int| 0 <= i < s.len() implies untagged((#[trigger] s[i]).0) is Text by {
                    if i < front.len() {
                        assert(front[i] == s[i]);
                    }
                }
            }
        }
        if let YamlTree::Text(key) = untagged(s.last().0) {
            reveal_strlit("name");
            reveal_strlit("engine");
            reveal_strlit("code");
            reveal_strlit("inputs");
            assert("name"@[0] == 'n' && "engine"@[0] == 'e' && "code"@[0] == 'c' && "inputs"@[0] == 'i');
            if node_scan(front) is Ok {
                lemma_node_scanned(front, node_scan(front)->Ok_0);
            }
            if key == "name"@ {
                lemma_given_kept(s, "engine"@, d.engine, is_text());
                lemma_given_kept(s, "code"@, d.code, is_text());
                lemma_given_kept(s, "inputs"@, d.inputs, is_list());
                lemma_node_scanned(front, NodeDraft { name: None, ..d });
                if d.name is Some {
                    lemma_given_last(s, key, d.name->0, is_text());
                } else {
                    lemma_given_last(s, key, Seq::<char>::empty(), is_text());
                }
            } else if key == "engine"@ {
                lemma_given_kept(s, "name"@, d.name, is_text());
                lemma_given_kept(s, "code"@, d.code, is_text());
                lemma_given_kept(s, "inputs"@, d.inputs, is_list());
                lemma_node_scanned(front, NodeDraft { engine: None, ..d });
                if d.engine is Some {
                    lemma_given_last(s, key, d.engine->0, is_text());
                } else {
                    lemma_given_last(s, key, Seq::<char>::empty(), is_text());
                }
            } else if key == "code"@ {
                lemma_given_kept(s, "name"@, d.name, is_text());
                lemma_given_kept(s, "engine"@, d.engine, is_text());
                lemma_given_kept(s, "inputs"@, d.inputs, is_list());
                lemma_node_scanned(front, NodeDraft { code: None, ..d });
                if d.code is Some {
                    lemma_given_last(s, key, d.code->0, is_text());
                } else {
                    lemma_given_last(s, key, Seq::<char>::empty(), is_text());
                }
            } else if key == "inputs"@ {
                lemma_given_kept(s, "name"@, d.name, is_text());
                lemma_given_kept(s, "engine"@, d.engine, is_text());
                lemma_given_kept(s, "code"@, d.code, is_text());
                lemma_node_scanned(front, NodeDraft { inputs: None, ..d });
                let x = if d.inputs is Some {
                    d.inputs->0
                } else {
                    Seq::<Seq<char>>::empty()
                };
                lemma_given_last(s, key, x, is_list());
                lemma_texts_told(t, x);
            } else {
                lemma_given_kept(s, "name"@, d.name, is_text());
                lemma_given_kept(s, "engine"@, d.engine, is_text());
                lemma_given_kept(s, "code"@, d.code, is_text());
                lemma_given_kept(s, "inputs"@, d.inputs, is_list());
                lemma_node_scanned(front, d);
            }
        }
    }
}

proof fn lemma_texts_told(t: YamlTree, x: Seq<Seq<char>>)
    ensures
        texts_field(t) == Field::<Seq<Seq<char>>>::Ok(x) <==> is_list()(t, x),
{
    match untagged(t) {
        YamlTree::Sequence(v) => {
            lemma_list_read(v, x);
        },
        YamlTree::Null => {
            lemma_list_read(Seq::empty(), x);
        },
        _ => {},
    }
}

proof fn lemma_nodes_told(t: YamlTree, x: Seq<NodeSpec>)
    ensures
        nodes_field(t) == Field::<Seq<NodeSpec>>::Ok(x) <==> is_nodes()(t, x),
{
    match untagged(t) {
        YamlTree::Sequence(v) => {
            lemma_nodes_read(v, x);
        },
        YamlTree::Null => {
            lemma_nodes_read(Seq::empty(), x);
        },
        _ => {},
    }
}

/// A document is read as a node if and only if it is a mapping with texts for keys that gives the
/// name, the engine and the code of the node as texts, each once, and under `inputs` the list of its
/// inputs, or has no such key where the node has none. Other keys do not matter, nor does the order.
pub proof fn lemma_node_read(t: YamlTree, n: NodeSpec)
    ensures
        node_of(t) == Field::<NodeSpec>::Ok(n) <==> (untagged(t) matches YamlTree::Mapping(s)
            && text_keys(s) && given(s, "name"@, Some(n.name), is_text()) && given(
            s,
            "engine"@,
            Some(n.engine),
            is_text(),
        ) && given(s, "code"@, Some(n.code), is_text()) && (given(
            s,
            "inputs"@,
            Some(n.inputs),
            is_list(),
        ) || given(s, "inputs"@, None::<Seq<Seq<char>>>, is_list()) && n.inputs.len() == 0)),
{
    let s = match untagged(t) {
        YamlTree::Mapping(s) => s,
        _ => Seq::empty(),
    };
    let d = NodeDraft {
        name: Some(n.name),
        engine: Some(n.engine),
        code: Some(n.code),
        inputs: Some(n.inputs),
    };
    lemma_node_scanned(s, d);
    lemma_node_scanned(s, NodeDraft { inputs: None, ..d });
    if node_scan(s) is Ok {
        lemma_node_scanned(s, node_scan(s)->Ok_0);
    }
    if n.inputs.len() == 0 {
        assert(n.inputs =~= Seq::empty());
    }
}

proof fn lemma_pipeline_scanned(s: Seq<(YamlTree, YamlTree)>, d: PipelineDraft)
    ensures
        pipeline_scan(s) == Field::<PipelineDraft>::Ok(d) <==> text_keys(s) && given(
            s,
            "name"@,
            d.name,
            is_text(),
        ) && given(s, "nodes"@, d.nodes, is_nodes()),
    decreases s.len(),
{
    if s.len() == 0 {
        assert(forall|k: Seq<char>, i: int| !#[trigger] named(s, k, i));
    } else {
        let front = s.drop_last();
        let t = s.last().1;
        assert(text_keys(s) <==> text_keys(front) && untagged(s.last().0) is Text) by {
            if text_keys(s) {
                assert forall|i: int| 0 <= i < front.len() implies untagged((#[trigger] front[i]).0) is Text by {
                    assert(front[i] == s[i]);
                }
                assert(untagged(s[s.len() - 1].0) is Text);
            }
            if text_keys(front) && untagged(s.last().0) is Text {
                assert forall|i: int| 0 <= i < s.len() implies untagged((#[trigger] s[i]).0) is Text by {
                    if i < front.len() {
                        assert(front[i] == s[i]);
                    }
                }
            }
        }
        if let YamlTree::Text(key) = untagged(s.last().0) {
            reveal_strlit("name");
            reveal_strlit("nodes");
            assert("name"@.len() == 4 && "nodes"@.len() == 5);
            if pipeline_scan(front) is Ok {
                lemma_pipeline_scanned(front, pipeline_scan(front)->Ok_0);
            }
            if key == "name"@ {
                lemma_given_kept(s, "nodes"@, d.nodes, is_nodes());
                lemma_pipeline_scanned(front, PipelineDraft { name: None, ..d });
                if d.name is Some {
                    lemma_given_last(s, key, d.name->0, is_text());
                } else {
                    lemma_given_last(s, key, Seq::<char>::empty(), is_text());
                }
            } else if key == "nodes"@ {
                lemma_given_kept(s, "name"@, d.name, is_text());
                lemma_pipeline_scanned(front, PipelineDraft { nodes: None, ..d });
                let x = if d.nodes is Some {
                    d.nodes->0
                } else {
                    Seq::<NodeSpec>::empty()
                };
                lemma_given_last(s, key, x, is_nodes());
                lemma_nodes_told(t, x);
            } else {
                lemma_given_kept(s, "name"@, d.name, is_text());
                lemma_given_kept(s, "nodes"@, d.nodes, is_nodes());
                lemma_pipeline_scanned(front, d);
            }
        }
    }
}

/// A document is read as a pipeline if and only if it is a mapping with texts for keys that gives the
/// name of the pipeline as a text, once, and under `nodes` the list of its nodes, or has no such key
/// where the pipeline has none. Other keys do not matter, nor does the order.
pub proof fn lemma_pipeline_read(t: YamlTree, p: PipelineSpec)
    ensures
        pipeline_of(t) == Field::<PipelineSpec>::Ok(p) <==> (untagged(t) matches YamlTree::Mapping(s)
            && text_keys(s) && given(s, "name"@, Some(p.name), is_text()) && (given(
            s,
            "nodes"@,
            Some(p.nodes),
            is_nodes(),
        ) || given(s, "nodes"@, None::<Seq<NodeSpec>>, is_nodes()) && p.nodes.len() == 0)),
{
    let s = match untagged(t) {
        YamlTree::Mapping(s) => s,
        _ => Seq::empty(),
    };
    let d = PipelineDraft { name: Some(p.name), nodes: Some(p.nodes) };
    lemma_pipeline_scanned(s, d);
    lemma_pipeline_scanned(s, PipelineDraft { nodes: None, ..d });
    if pipeline_scan(s) is Ok {
        lemma_pipeline_scanned(s, pipeline_scan(s)->Ok_0);
    }
    if p.nodes.len() == 0 {
        assert(p.nodes =~= Seq::empty());
    }
}

/// A node that lacks one of its three texts is refused with the name of the first that it lacks.
pub proof fn lemma_lack_named(s: Seq<(YamlTree, YamlTree)>, d: NodeDraft)
    requires
        text_keys(s),
        given(s, "name"@, d.name, is_text()),
        given(s, "engine"@, d.engine, is_text()),
        given(s, "code"@, d.code, is_text()),
        given(s, "inputs"@, d.inputs, is_list()),
    ensures
        d.name is None ==> node_of(YamlTree::Mapping(s)) == Field::<NodeSpec>::Err(
            "missing field `"@ + "name"@ + "`"@,
        ),
        d.name is Some && d.engine is None ==> node_of(YamlTree::Mapping(s)) == Field::<NodeSpec>::Err(
            "missing field `"@ + "engine"@ + "`"@,
        ),
        d.name is Some && d.engine is Some && d.code is None ==> node_of(YamlTree::Mapping(s))
            == Field::<NodeSpec>::Err("missing field `"@ + "code"@ + "`"@),
{
    lemma_node_scanned(s, d);
}

/// A field that comes a second time is refused by its name.
pub proof fn lemma_repeat_named(s: Seq<(YamlTree, YamlTree)>, key: Seq<char>, i: int, value: YamlTree)
    requires
        node_scan(s) is Ok,
        key == "name"@ || key == "engine"@ || key == "code"@ || key == "inputs"@,
        named(s, key, i),
    ensures
        node_of(YamlTree::Mapping(s.push((YamlTree::Text(key), value)))) == Field::<NodeSpec>::Err(
            "duplicate field `"@ + key + "`"@,
        ),
{
    let more = s.push((YamlTree::Text(key), value));
    assert(more.drop_last() =~= s);
    lemma_node_scanned(s, node_scan(s)->Ok_0);
    reveal_strlit("name");
    reveal_strlit("engine");
    reveal_strlit("code");
    reveal_strlit("inputs");
    assert("name"@[0] == 'n' && "engine"@[0] == 'e' && "code"@[0] == 'c' && "inputs"@[0] == 'i');
}

/// Whether one document stands in another, that many levels down.
pub open spec fn stands_in(t: YamlTree, u: YamlTree, levels: nat) -> bool
    decreases levels,
{
    if levels == 0 {
        t == u
    } else {
        match t {
            YamlTree::Sequence(s) => exists|i: int|
                0 <= i < s.len() && stands_in(#[trigger] s[i], u, (levels - 1) as nat),
            YamlTree::Mapping(s) => exists|i: int|
                0 <= i < s.len() && (stands_in((#[trigger] s[i]).0, u, (levels - 1) as nat) || stands_in(
                    s[i].1,
                    u,
                    (levels - 1) as nat,
                )),
            _ => false,
        }
    }
}

/// A document is within its room if and only if nothing stands in it deeper than that.
pub proof fn lemma_room_kept(t: YamlTree, room: nat)
    ensures
        within(t, room as int) <==> forall|u: YamlTree, levels: nat|
            #[trigger] stands_in(t, u, levels) ==> levels <= room,
{
    if within(t, room as int) {
        assert forall|u: YamlTree, levels: nat| #[trigger] stands_in(t, u, levels) implies levels <= room by {
            lemma_nothing_deeper(t, u, levels, room as int);
        }
    } else {
        let deeper = room + 1;
        lemma_something_deeper(t, deeper);
        let u = choose|u: YamlTree| stands_in(t, u, deeper);
        assert(stands_in(t, u, deeper));
    }
}

proof fn lemma_nothing_deeper(t: YamlTree, u: YamlTree, levels: nat, room: int)
    requires
        within(t, room),
        stands_in(t, u, levels),
    ensures
        levels <= room,
    decreases levels,
{
    if levels > 0 {
        match t {
            YamlTree::Sequence(s) => {
                let i = choose|i: int|
                    0 <= i < s.len() && stands_in(#[trigger] s[i], u, (levels - 1) as nat);
                lemma_nothing_deeper(s[i], u, (levels - 1) as nat, room - 1);
            },
            YamlTree::Mapping(s) => {
                let i = choose|i: int|
                    0 <= i < s.len() && (stands_in((#[trigger] s[i]).0, u, (levels - 1) as nat) || stands_in(
                        s[i].1,
                        u,
                        (levels - 1) as nat,
                    ));
                if stands_in(s[i].0, u, (levels - 1) as nat) {
                    lemma_nothing_deeper(s[i].0, u, (levels - 1) as nat, room - 1);
                } else {
                    lemma_nothing_deeper(s[i].1, u, (levels - 1) as nat, room - 1);
                }
            },
            _ => {},
        }
    }
}

proof fn lemma_something_deeper(t: YamlTree, levels: nat)
    requires
        !within(t, levels - 1),
    ensures
        exists|u: YamlTree| stands_in(t, u, levels),
    decreases levels,
{
    if levels == 0 {
        assert(stands_in(t, t, 0));
    } else {
        let less = (levels - 1) as nat;
        match t {
            YamlTree::Sequence(s) => {
                let i = choose|i: int| 0 <= i < s.len() && !within(#[trigger] s[i], levels - 2);
                lemma_something_deeper(s[i], less);
                let u = choose|u: YamlTree| stands_in(s[i], u, less);
                assert(stands_in(t, u, levels));
            },
            YamlTree::Mapping(s) => {
                let i = choose|i: int|
                    0 <= i < s.len() && !(within((#[trigger] s[i]).0, levels - 2) && within(
                        s[i].1,
                        levels - 2,
                    ));
                if !within(s[i].0, levels - 2) {
                    lemma_something_deeper(s[i].0, less);
                    let u = choose|u: YamlTree| stands_in(s[i].0, u, less);
                    assert(stands_in(t, u, levels));
                } else {
                    lemma_something_deeper(s[i].1, less);
                    let u = choose|u: YamlTree| stands_in(s[i].1, u, less);
                    assert(stands_in(t, u, levels));
                }
            },
            _ => {},
        }
    }
}

/// A configuration of more than two megabytes is refused for its size, and one in which something
/// stands more than twenty levels deep for its depth.
pub proof fn lemma_large_refused(text: Seq<char>, t: YamlTree, u: YamlTree, levels: nat)
    ensures
        2 * 1024 * 1024 < encode_utf8(text).len() <= usize::MAX ==> config_of(text) == Err::<
            PipelineSpec,
            ConfigFault,
        >(ConfigFault::PayloadTooLarge(encode_utf8(text).len() as usize, 2097152)),
        encode_utf8(text).len() <= 2 * 1024 * 1024 ==> !(config_of(text) matches Err(
            ConfigFault::PayloadTooLarge(_, _),
        )) || (yaml_parse(text) matches YamlParsed::Document(d) && config_of(text) == checked_config(d)),
        stands_in(t, u, levels) && levels > 20 ==> checked_config(t) == Err::<PipelineSpec, ConfigFault>(
            ConfigFault::DepthExceeded(20),
        ),
{
    lemma_room_kept(t, 20);
}

/// A configuration that is taken is the one that its document gives, and nothing is wrong with its
/// nodes; one that is not too deep, can be read and has no fault is taken.
pub proof fn lemma_config_taken(t: YamlTree, p: PipelineSpec)
    requires
        forall|u: YamlTree, levels: nat| #[trigger] stands_in(t, u, levels) ==> levels <= 20,
    ensures
        checked_config(t) == Ok::<PipelineSpec, ConfigFault>(p) <==> pipeline_of(t) == Field::<
            PipelineSpec,
        >::Ok(p) && config_fault(p.nodes) is None,
        pipeline_of(t) matches Ok(q) ==> (config_fault(q.nodes) matches Some(f) ==> checked_config(t)
            == Err::<PipelineSpec, ConfigFault>(f)),
        pipeline_of(t) matches Err(e) ==> checked_config(t) == Err::<PipelineSpec, ConfigFault>(
            ConfigFault::Parse(e),
        ),
{
    lemma_room_kept(t, 20);
}

/// An item that is no text is refused as such, and it is the first such item that is told.
pub proof fn lemma_item_refused(s: Seq<YamlTree>, i: int)
    requires
        0 <= i < s.len(),
        !(untagged(s[i]) is Text),
        forall|j: int| 0 <= j < i ==> untagged(#[trigger] s[j]) is Text,
    ensures
        text_items(s) == Field::<Seq<Seq<char>>>::Err(mismatch_text(untagged(s[i]), "a string"@)),
    decreases s.len(),
{
    let front = s.drop_last();
    if i < front.len() {
        assert(front[i] == s[i]);
        assert forall|j: int| 0 <= j < i implies untagged(#[trigger] front[j]) is Text by {
            assert(front[j] == s[j]);
        }
        lemma_item_refused(front, i);
    } else {
        let x = Seq::new(front.len(), |j: int| untagged(front[j])->Text_0);
        assert forall|j: int| 0 <= j < front.len() implies untagged(#[trigger] front[j])
            == YamlTree::Text(x[j]) by {
            assert(front[j] == s[j]);
        }
        lemma_list_read(front, x);
    }
}

} // verus!
