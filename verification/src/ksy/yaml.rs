//! YAML documents, read by the `serde_yaml` crate.
use serde_yaml::Value as Tree;
use vstd::prelude::*;

verus! {

/// A node of a YAML document.
#[derive(Debug)]
pub struct Yaml {
    pub node: Node,
    /// The node as messages quote it.
    pub debug: String,
}

/// What a node holds.
#[derive(Debug)]
pub enum Node {
    Null,
    Bool(bool),
    /// A number, with its value where it is a 64-bit signed integer.
    Number(Option<i64>),
    Str(String),
    Sequence(Vec<Yaml>),
    /// Keys and values in the order of the document.
    Mapping(Vec<(Yaml, Yaml)>),
    /// A node with a tag.
    Tagged(Box<Yaml>),
}

/// The mathematical counterpart of [`Yaml`].
pub struct YamlModel {
    pub node: NodeModel,
    pub debug: Seq<char>,
}

/// The mathematical counterpart of [`Node`].
pub enum NodeModel {
    Null,
    Bool(bool),
    Number(Option<i64>),
    Str(Seq<char>),
    Sequence(Seq<YamlModel>),
    Mapping(Seq<(YamlModel, YamlModel)>),
    Tagged(Box<YamlModel>),
}

/// What a node stands for.
pub closed spec fn yaml_model(y: Yaml) -> YamlModel
    decreases y, 1int,
{
    YamlModel { node: node_model(y.node), debug: y.debug@ }
}

spec fn node_model(n: Node) -> NodeModel
    decreases n, 0int,
{
    match n {
        Node::Null => NodeModel::Null,
        Node::Bool(b) => NodeModel::Bool(b),
        Node::Number(v) => NodeModel::Number(v),
        Node::Str(s) => NodeModel::Str(s@),
        Node::Sequence(items) => NodeModel::Sequence(
            Seq::new(
                items@.len(),
                |i: int|
                    if 0 <= i < items@.len() {
                        yaml_model(items@[i])
                    } else {
                        arbitrary()
                    },
            ),
        ),
        Node::Mapping(entries) => NodeModel::Mapping(
            Seq::new(
                entries@.len(),
                |i: int|
                    if 0 <= i < entries@.len() {
                        (yaml_model(entries@[i].0), yaml_model(entries@[i].1))
                    } else {
                        arbitrary()
                    },
            ),
        ),
        Node::Tagged(inner) => NodeModel::Tagged(Box::new(yaml_model(*inner))),
    }
}

impl View for Yaml {
    type V = YamlModel;

    open spec fn view(&self) -> YamlModel {
        yaml_model(*self)
    }
}

pub open spec fn item_models(items: Seq<Yaml>) -> Seq<YamlModel> {
    Seq::new(items.len(), |i: int| items[i]@)
}

pub open spec fn entry_models(entries: Seq<(Yaml, Yaml)>) -> Seq<(YamlModel, YamlModel)> {
    Seq::new(entries.len(), |i: int| (entries[i].0@, entries[i].1@))
}

pub proof fn lemma_yaml_model(y: Yaml)
    ensures
        y@.debug == y.debug@,
        y@.node == (match y.node {
            Node::Null => NodeModel::Null,
            Node::Bool(b) => NodeModel::Bool(b),
            Node::Number(v) => NodeModel::Number(v),
            Node::Str(s) => NodeModel::Str(s@),
            Node::Sequence(items) => NodeModel::Sequence(item_models(items@)),
            Node::Mapping(entries) => NodeModel::Mapping(entry_models(entries@)),
            Node::Tagged(inner) => NodeModel::Tagged(Box::new(inner@)),
        }),
{
    reveal_with_fuel(node_model, 2);
    match y.node {
        Node::Sequence(items) => {
            assert(y@.node->Sequence_0 =~= item_models(items@));
        },
        Node::Mapping(entries) => {
            assert(y@.node->Mapping_0 =~= entry_models(entries@));
        },
        _ => {},
    }
}

// ---------------------------------------------------------------------------
// What nodes hold
// ---------------------------------------------------------------------------

/// The node under the tags of a node.
pub open spec fn untagged(y: YamlModel) -> YamlModel
    decreases y,
{
    match y.node {
        NodeModel::Tagged(inner) => untagged(*inner),
        _ => y,
    }
}

pub open spec fn as_str(y: YamlModel) -> Option<Seq<char>> {
    match untagged(y).node {
        NodeModel::Str(s) => Some(s),
        _ => None,
    }
}

pub open spec fn as_bool(y: YamlModel) -> Option<bool> {
    match untagged(y).node {
        NodeModel::Bool(b) => Some(b),
        _ => None,
    }
}

pub open spec fn as_i64(y: YamlModel) -> Option<i64> {
    match untagged(y).node {
        NodeModel::Number(v) => v,
        _ => None,
    }
}

pub open spec fn as_mapping(y: YamlModel) -> Option<Seq<(YamlModel, YamlModel)>> {
    match untagged(y).node {
        NodeModel::Mapping(entries) => Some(entries),
        _ => None,
    }
}

/// What a mapping has under a key that is a string without a tag; the first
/// where the key stands twice.
pub open spec fn under(m: Seq<(YamlModel, YamlModel)>, key: Seq<char>) -> Option<YamlModel>
    decreases m.len(),
{
    if m.len() == 0 {
        None
    } else if m[0].0.node == NodeModel::Str(key) {
        Some(m[0].1)
    } else {
        under(m.drop_first(), key)
    }
}

/// What a mapping has under a key is a part of the mapping.
pub proof fn lemma_under(m: Seq<(YamlModel, YamlModel)>, key: Seq<char>)
    ensures
        match under(m, key) {
            Some(y) => exists|i: int| 0 <= i < m.len() && (#[trigger] m[i]).1 == y,
            None => true,
        },
    decreases m.len(),
{
    if m.len() > 0 && m[0].0.node != NodeModel::Str(key) {
        lemma_under(m.drop_first(), key);
        if let Some(y) = under(m, key) {
            let i = choose|i: int|
                0 <= i < m.drop_first().len() && (#[trigger] m.drop_first()[i]).1 == y;
            assert(m[i + 1].1 == y);
        }
    }
}

impl Yaml {
    /// The node under the tags of the node.
    pub fn untag(&self) -> (r: &Yaml)
        ensures
            r@ == untagged(self@),
        decreases self@,
    {
        proof {
            lemma_yaml_model(*self);
        }
        match &self.node {
            Node::Tagged(inner) => inner.untag(),
            _ => self,
        }
    }

    pub fn as_str(&self) -> (r: Option<&str>)
        ensures
            match (r, as_str(self@)) {
                (Some(a), Some(b)) => a@ == b,
                (None, None) => true,
                _ => false,
            },
    {
        let y = self.untag();
        proof {
            lemma_yaml_model(*y);
        }
        match &y.node {
            Node::Str(s) => Some(s.as_str()),
            _ => None,
        }
    }

    pub fn as_bool(&self) -> (r: Option<bool>)
        ensures
            r == as_bool(self@),
    {
        let y = self.untag();
        proof {
            lemma_yaml_model(*y);
        }
        match &y.node {
            Node::Bool(b) => Some(*b),
            _ => None,
        }
    }

    pub fn as_i64(&self) -> (r: Option<i64>)
        ensures
            r == as_i64(self@),
    {
        let y = self.untag();
        proof {
            lemma_yaml_model(*y);
        }
        match &y.node {
            Node::Number(v) => *v,
            _ => None,
        }
    }

    pub fn as_mapping(&self) -> (r: Option<&Vec<(Yaml, Yaml)>>)
        ensures
            match (r, as_mapping(self@)) {
                (Some(a), Some(b)) => entry_models(a@) == b,
                (None, None) => true,
                _ => false,
            },
    {
        let y = self.untag();
        proof {
            lemma_yaml_model(*y);
        }
        match &y.node {
            Node::Mapping(entries) => Some(entries),
            _ => None,
        }
    }
}

/// What a mapping has under a key.
pub fn get<'a>(m: &'a Vec<(Yaml, Yaml)>, key: &str) -> (r: Option<&'a Yaml>)
    ensures
        match (r, under(entry_models(m@), key@)) {
            (Some(a), Some(b)) => a@ == b,
            (None, None) => true,
            _ => false,
        },
{
    let ghost all = entry_models(m@);
    let mut i: usize = 0;
    assert(all.skip(0) =~= all);
    while i < m.len()
        invariant
            all == entry_models(m@),
            i <= m@.len(),
            under(all, key@) == under(all.skip(i as int), key@),
        decreases m@.len() - i,
    {
        assert(all.skip(i as int)[0] == all[i as int]);
        assert(all.skip(i as int).drop_first() =~= all.skip(i + 1));
        proof {
            lemma_yaml_model(m@[i as int].0);
        }
        if let Node::Str(s) = &m[i].0.node {
            if *s.as_str() == *key {
                return Some(&m[i].1);
            }
        }
        i = i + 1;
    }
    None
}

// ---------------------------------------------------------------------------
// Reading
// ---------------------------------------------------------------------------

/// The tree into which the `serde_yaml` crate reads a document.
#[verifier::external_type_specification]
#[verifier::external_body]
pub struct ExTree(Tree);

/// What a tree of the `serde_yaml` crate holds.
pub uninterp spec fn yaml_contents(v: Tree) -> YamlModel;

/// What the `serde_yaml` crate reads from a text, or the text of its error.
pub uninterp spec fn yaml_read(source: Seq<char>) -> Result<YamlModel, Seq<char>>;

/// One level of a tree of the `serde_yaml` crate.
enum Level<'a> {
    Null,
    Bool(bool),
    Number(Option<i64>),
    Str(&'a String),
    Sequence(&'a Vec<Tree>),
    Mapping(Vec<(&'a Tree, &'a Tree)>),
    Tagged(&'a Tree),
}

/// `serde_yaml::from_str`: the tree that a text stands for, or the error, here
/// by its text. Both are functions of the text.
#[verifier::external_body]
fn read_tree(source: &str) -> (r: Result<Tree, String>)
    ensures
        match r {
            Ok(v) => yaml_read(source@) == Ok::<YamlModel, Seq<char>>(yaml_contents(v)),
            Err(m) => yaml_read(source@) == Err::<YamlModel, Seq<char>>(m@),
        },
{
    match serde_yaml::from_str::<Tree>(source) {
        Ok(v) => Ok(v),
        Err(e) => Err(e.to_string()),
    }
}

/// The variants of `serde_yaml::Value` with what they hold: a number by
/// `Number::as_i64`, a mapping by the entries that `Mapping::iter` goes over.
#[verifier::external_body]
fn level<'a>(v: &'a Tree) -> (r: Level<'a>)
    ensures
        match (r, yaml_contents(*v).node) {
            (Level::Null, NodeModel::Null) => true,
            (Level::Bool(a), NodeModel::Bool(b)) => a == b,
            (Level::Number(a), NodeModel::Number(b)) => a == b,
            (Level::Str(a), NodeModel::Str(b)) => a@ == b,
            (Level::Sequence(a), NodeModel::Sequence(b)) => a@.len() == b.len() && forall|i: int|
                0 <= i < b.len() ==> yaml_contents(#[trigger] a@[i]) == b[i],
            (Level::Mapping(a), NodeModel::Mapping(b)) => a@.len() == b.len() && forall|i: int|
                0 <= i < b.len() ==> (
                yaml_contents(*(#[trigger] a@[i]).0),
                yaml_contents(*a@[i].1),
            ) == b[i],
            (Level::Tagged(a), NodeModel::Tagged(b)) => yaml_contents(*a) == *b,
            _ => false,
        },
{
    match v {
        Tree::Null => Level::Null,
        Tree::Bool(b) => Level::Bool(*b),
        Tree::Number(n) => Level::Number(n.as_i64()),
        Tree::String(s) => Level::Str(s),
        Tree::Sequence(items) => Level::Sequence(items),
        Tree::Mapping(m) => Level::Mapping(m.iter().collect()),
        Tree::Tagged(t) => Level::Tagged(&t.value),
    }
}

/// `impl Debug for serde_yaml::Value`: the text of a tree in messages.
#[verifier::external_body]
fn tree_debug(v: &Tree) -> (r: String)
    ensures
        r@ == yaml_contents(*v).debug,
{
    format!("{:?}", v)
}

/// Copies a tree of the `serde_yaml` crate.
fn copy(v: &Tree) -> (r: Yaml)
    ensures
        r@ == yaml_contents(*v),
    decreases yaml_contents(*v),
{
    let ghost whole = yaml_contents(*v);
    let debug = tree_debug(v);
    let node = match level(v) {
        Level::Null => Node::Null,
        Level::Bool(b) => Node::Bool(b),
        Level::Number(n) => Node::Number(n),
        Level::Str(s) => Node::Str(s.clone()),
        Level::Sequence(items) => {
            let mut out: Vec<Yaml> = Vec::new();
            let mut i: usize = 0;
            while i < items.len()
                invariant
                    whole == yaml_contents(*v),
                    whole.node is Sequence,
                    items@.len() == whole.node->Sequence_0.len(),
                    forall|k: int|
                        0 <= k < items@.len() ==> yaml_contents(#[trigger] items@[k])
                            == whole.node->Sequence_0[k],
                    i <= items@.len(),
                    out@.len() == i,
                    forall|k: int|
                        0 <= k < i ==> (#[trigger] out@[k])@ == whole.node->Sequence_0[k],
                decreases items@.len() - i,
            {
                out.push(copy(&items[i]));
                i = i + 1;
            }
            assert(item_models(out@) =~= whole.node->Sequence_0);
            Node::Sequence(out)
        },
        Level::Mapping(entries) => {
            let mut out: Vec<(Yaml, Yaml)> = Vec::new();
            let mut i: usize = 0;
            while i < entries.len()
                invariant
                    whole == yaml_contents(*v),
                    whole.node is Mapping,
                    entries@.len() == whole.node->Mapping_0.len(),
                    forall|k: int|
                        0 <= k < entries@.len() ==> (
                        yaml_contents(*(#[trigger] entries@[k]).0),
                        yaml_contents(*entries@[k].1),
                    ) == whole.node->Mapping_0[k],
                    i <= entries@.len(),
                    out@.len() == i,
                    forall|k: int|
                        0 <= k < i ==> ((#[trigger] out@[k]).0@, out@[k].1@)
                            == whole.node->Mapping_0[k],
                decreases entries@.len() - i,
            {
                proof {
                    let part = whole.node->Mapping_0[i as int];
                    assert(yaml_contents(*entries@[i as int].0) == part.0);
                    assert(yaml_contents(*entries@[i as int].1) == part.1);
                    assert(decreases_to!(whole => part.0));
                    assert(decreases_to!(whole => part.1));
                }
                let key = copy(entries[i].0);
                let value = copy(entries[i].1);
                out.push((key, value));
                i = i + 1;
            }
            assert(entry_models(out@) =~= whole.node->Mapping_0);
            Node::Mapping(out)
        },
        Level::Tagged(inner) => Node::Tagged(Box::new(copy(inner))),
    };
    let r = Yaml { node, debug };
    proof {
        lemma_yaml_model(r);
    }
    r
}

/// Reads a YAML document; the error is the reader's message.
pub fn read(source: &str) -> (r: Result<Yaml, String>)
    ensures
        match r {
            Ok(y) => yaml_read(source@) == Ok::<YamlModel, Seq<char>>(y@),
            Err(m) => yaml_read(source@) == Err::<YamlModel, Seq<char>>(m@),
        },
{
    match read_tree(source) {
        Ok(v) => Ok(copy(&v)),
        Err(m) => Err(m),
    }
}

} // verus!
