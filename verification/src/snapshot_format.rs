//! Formatting of an accessibility tree (as CDP's `Accessibility.getFullAXTree`
//! returns it) into the indented text snapshot, with element refs.

use vstd::prelude::*;
use crate::json::{JsonValue, json_bool, json_i64, number_text, number_text_spec};
use crate::text::{chars_eq, chars_of, is_text, push_all, string_of};

verus! {

// ---------------------------------------------------------------------------
// Input and output types

/// An accessibility value: `{ "value": ... }`.
#[derive(Debug)]
pub struct AxValue {
    pub value: Option<JsonValue>,
}

/// A named accessibility property.
#[derive(Debug)]
pub struct AxProperty {
    pub name: String,
    pub value: AxValue,
}

/// One node of the accessibility tree.
#[derive(Debug)]
pub struct AxNode {
    pub node_id: String,
    pub role: Option<AxValue>,
    pub name: Option<AxValue>,
    pub value: Option<AxValue>,
    pub properties: Option<Vec<AxProperty>>,
    pub child_ids: Option<Vec<String>>,
    pub backend_d_o_m_node_id: Option<i64>,
    pub ignored: Option<bool>,
}

/// How a snapshot is rendered.
#[derive(Debug)]
pub struct SnapshotOptions {
    /// Only nodes that carry a ref are printed.
    pub interactive: bool,
    /// Only lines with a ref or a value, and the lines above them, are kept.
    pub compact: bool,
    /// Nodes printed deeper than this are left out with their subtrees.
    pub depth: Option<usize>,
    pub urls: bool,
}

impl Default for SnapshotOptions {
    fn default() -> (r: Self)
        ensures
            !r.interactive && !r.compact && r.depth is None && !r.urls,
    {
        SnapshotOptions { interactive: false, compact: false, depth: None, urls: false }
    }
}

/// What a ref points at.
#[derive(Debug)]
pub struct SnapshotRef {
    pub backend_node_id: i64,
    pub role: String,
    pub name: String,
}

/// A rendered snapshot and its refs, in the order they were assigned.
#[derive(Debug)]
pub struct FormattedSnapshot {
    pub output: String,
    pub refs: Vec<(String, SnapshotRef)>,
}

// ---------------------------------------------------------------------------
// Reading accessibility values

/// `true` or `false` as text.
pub open spec fn bool_text(b: bool) -> Seq<char> {
    if b {
        "true"@
    } else {
        "false"@
    }
}

/// The text of an accessibility value: a string as it is, a number or a
/// boolean rendered, anything else empty.
pub open spec fn ax_string(v: Option<AxValue>) -> Seq<char> {
    match v {
        Some(a) => match a.value {
            Some(JsonValue::Str(t)) => t@,
            Some(JsonValue::Number(n)) => number_text_spec(n),
            Some(JsonValue::Bool(b)) => bool_text(b),
            _ => Seq::empty(),
        },
        None => Seq::empty(),
    }
}

/// The text of an accessibility value, if it is a non-empty string or a number.
pub open spec fn ax_string_opt(v: Option<AxValue>) -> Option<Seq<char>> {
    match v {
        Some(a) => match a.value {
            Some(JsonValue::Str(t)) => if t@.len() > 0 {
                Some(t@)
            } else {
                None
            },
            Some(JsonValue::Number(n)) => Some(number_text_spec(n)),
            _ => None,
        },
        None => None,
    }
}

fn bool_string(b: bool) -> (out: String)
    ensures
        out@ == bool_text(b),
{
    if b {
        String::from_str("true")
    } else {
        String::from_str("false")
    }
}

/// The text of an accessibility value.
pub fn extract_ax_string(value: &Option<AxValue>) -> (out: String)
    ensures
        out@ == ax_string(*value),
{
    match value {
        Some(v) => match &v.value {
            Some(JsonValue::Str(text)) => text.clone(),
            Some(JsonValue::Number(number)) => number_text(number),
            Some(JsonValue::Bool(b)) => bool_string(*b),
            _ => String::new(),
        },
        None => String::new(),
    }
}

/// The text of an accessibility value, if it is a non-empty string or a number.
pub fn extract_ax_string_opt(value: &Option<AxValue>) -> (out: Option<String>)
    ensures
        match out {
            Some(t) => ax_string_opt(*value) == Some(t@),
            None => ax_string_opt(*value) is None,
        },
{
    match value {
        Some(v) => match &v.value {
            Some(JsonValue::Str(text)) => if text.as_str().is_empty() {
                None
            } else {
                Some(text.clone())
            },
            Some(JsonValue::Number(number)) => Some(number_text(number)),
            _ => None,
        },
        None => None,
    }
}

/// An identifier given as a string or a number, as its text.
pub open spec fn id_text(v: JsonValue) -> Option<Seq<char>> {
    match v {
        JsonValue::Str(t) => Some(t@),
        JsonValue::Number(n) => Some(number_text_spec(n)),
        _ => None,
    }
}

/// Reads an identifier given as a string or a number; `None` for any other
/// value (which a node list does not accept).
pub fn string_or_int(value: &JsonValue) -> (out: Option<String>)
    ensures
        match out {
            Some(t) => id_text(*value) == Some(t@),
            None => id_text(*value) is None,
        },
{
    match value {
        JsonValue::Str(text) => Some(text.clone()),
        JsonValue::Number(number) => Some(number_text(number)),
        _ => None,
    }
}

/// The identifiers of a list given as strings or numbers; other values are
/// skipped.
pub open spec fn id_texts(values: Seq<JsonValue>) -> Seq<Seq<char>>
    decreases values.len(),
{
    if values.len() == 0 {
        seq![]
    } else {
        id_texts(values.drop_last()) + match id_text(values.last()) {
            Some(t) => seq![t],
            None => seq![],
        }
    }
}

/// Reads an optional list of identifiers given as strings or numbers,
/// skipping other values.
pub fn opt_vec_string_or_int(values: Option<Vec<JsonValue>>) -> (out: Option<Vec<String>>)
    ensures
        match out {
            Some(ids) => values is Some && ids@.len() == id_texts(values->0@).len() && forall|i: int|
                0 <= i < ids@.len() ==> (#[trigger] ids@[i])@ == id_texts(values->0@)[i],
            None => values is None,
        },
{
    match values {
        None => None,
        Some(values) => {
            let mut out: Vec<String> = Vec::new();
            let mut i: usize = 0;
            while i < values.len()
                invariant
                    i <= values@.len(),
                    out@.len() == id_texts(values@.take(i as int)).len(),
                    forall|j: int|
                        0 <= j < out@.len() ==> (#[trigger] out@[j])@ == id_texts(
                            values@.take(i as int),
                        )[j],
                decreases values@.len() - i,
            {
                let ghost before = out@;
                let item = string_or_int(&values[i]);
                assert(values@.take(i + 1).drop_last() =~= values@.take(i as int));
                match item {
                    Some(t) => {
                        out.push(t);
                    },
                    None => {},
                }
                i = i + 1;
                assert forall|j: int| 0 <= j < out@.len() implies (#[trigger] out@[j])@
                    == id_texts(values@.take(i as int))[j] by {
                    if j < before.len() {
                        assert(out@[j] == before[j]);
                    }
                }
            }
            assert(values@.take(values@.len() as int) =~= values@);
            Some(out)
        },
    }
}

// ---------------------------------------------------------------------------
// Node properties

/// The last property called `name`, if any.
pub open spec fn last_named(props: Seq<AxProperty>, name: Seq<char>) -> Option<AxProperty>
    decreases props.len(),
{
    if props.len() == 0 {
        None
    } else if props.last().name@ == name {
        Some(props.last())
    } else {
        last_named(props.drop_last(), name)
    }
}

/// How a `checked` property value is written.
pub open spec fn checked_text(v: JsonValue) -> Seq<char> {
    match v {
        JsonValue::Str(t) => t@,
        JsonValue::Bool(b) => bool_text(b),
        _ => "false"@,
    }
}

/// The properties a node shows: level, checked, expanded, selected,
/// disabled and required, each taken from the last property of that name.
pub open spec fn node_props(props: Option<Vec<AxProperty>>) -> (
    Option<i64>,
    Option<Seq<char>>,
    Option<bool>,
    Option<bool>,
    Option<bool>,
    Option<bool>,
) {
    match props {
        None => (None, None, None, None, None, None),
        Some(ps) => (
            prop_i64(last_named(ps@, "level"@)),
            match last_named(ps@, "checked"@) {
                Some(p) => match p.value.value {
                    Some(v) => Some(checked_text(v)),
                    None => None,
                },
                None => None,
            },
            prop_bool(last_named(ps@, "expanded"@)),
            prop_bool(last_named(ps@, "selected"@)),
            prop_bool(last_named(ps@, "disabled"@)),
            prop_bool(last_named(ps@, "required"@)),
        ),
    }
}

/// The value of a property as a signed integer.
pub open spec fn prop_i64(p: Option<AxProperty>) -> Option<i64> {
    match p {
        Some(p) => match p.value.value {
            Some(v) => json_i64(v),
            None => None,
        },
        None => None,
    }
}

/// The value of a property as a boolean.
pub open spec fn prop_bool(p: Option<AxProperty>) -> Option<bool> {
    match p {
        Some(p) => match p.value.value {
            Some(v) => json_bool(v),
            None => None,
        },
        None => None,
    }
}

/// Reads the shown properties of a node.
pub fn extract_properties(props: &Option<Vec<AxProperty>>) -> (out: (
    Option<i64>,
    Option<String>,
    Option<bool>,
    Option<bool>,
    Option<bool>,
    Option<bool>,
))
    ensures
        ({
            let spec_props = node_props(*props);
            &&& out.0 == spec_props.0
            &&& match out.1 {
                Some(t) => spec_props.1 == Some(t@),
                None => spec_props.1 is None,
            }
            &&& out.2 == spec_props.2
            &&& out.3 == spec_props.3
            &&& out.4 == spec_props.4
            &&& out.5 == spec_props.5
        }),
{
    let mut level: Option<i64> = None;
    let mut checked: Option<String> = None;
    let mut expanded: Option<bool> = None;
    let mut selected: Option<bool> = None;
    let mut disabled: Option<bool> = None;
    let mut required: Option<bool> = None;
    match props {
        None => {},
        Some(properties) => {
            let mut i: usize = 0;
            while i < properties.len()
                invariant
                    i <= properties@.len(),
                    level == prop_i64(last_named(properties@.take(i as int), "level"@)),
                    match checked {
                        Some(t) => match last_named(properties@.take(i as int), "checked"@) {
                            Some(p) => match p.value.value {
                                Some(v) => checked_text(v) == t@,
                                None => false,
                            },
                            None => false,
                        },
                        None => match last_named(properties@.take(i as int), "checked"@) {
                            Some(p) => p.value.value is None,
                            None => true,
                        },
                    },
                    expanded == prop_bool(last_named(properties@.take(i as int), "expanded"@)),
                    selected == prop_bool(last_named(properties@.take(i as int), "selected"@)),
                    disabled == prop_bool(last_named(properties@.take(i as int), "disabled"@)),
                    required == prop_bool(last_named(properties@.take(i as int), "required"@)),
                decreases properties@.len() - i,
            {
                let prop = &properties[i];
                let name = chars_of(prop.name.as_str());
                assert(properties@.take(i + 1).drop_last() =~= properties@.take(i as int));
                assert(properties@.take(i + 1).last() == properties@[i as int]);
                if is_text(&name, "level") {
                    level = match &prop.value.value {
                        Some(v) => v.as_i64(),
                        None => None,
                    };
                }
                if is_text(&name, "checked") {
                    checked = match &prop.value.value {
                        Some(v) => Some(
                            match v {
                                JsonValue::Str(text) => text.clone(),
                                JsonValue::Bool(b) => bool_string(*b),
                                _ => String::from_str("false"),
                            },
                        ),
                        None => None,
                    };
                }
                if is_text(&name, "expanded") {
                    expanded = match &prop.value.value {
                        Some(v) => v.as_bool(),
                        None => None,
                    };
                }
                if is_text(&name, "selected") {
                    selected = match &prop.value.value {
                        Some(v) => v.as_bool(),
                        None => None,
                    };
                }
                if is_text(&name, "disabled") {
                    disabled = match &prop.value.value {
                        Some(v) => v.as_bool(),
                        None => None,
                    };
                }
                if is_text(&name, "required") {
                    required = match &prop.value.value {
                        Some(v) => v.as_bool(),
                        None => None,
                    };
                }
                i = i + 1;
            }
            assert(properties@.take(properties@.len() as int) =~= properties@);
        },
    }
    (level, checked, expanded, selected, disabled, required)
}

} // verus!

verus! {

// ---------------------------------------------------------------------------
// The tree

/// What a tree node holds, as plain values.
pub struct NodeModel {
    pub role: Seq<char>,
    pub name: Seq<char>,
    pub level: Option<i64>,
    pub checked: Option<Seq<char>>,
    pub expanded: Option<bool>,
    pub selected: Option<bool>,
    pub disabled: Option<bool>,
    pub required: Option<bool>,
    pub value_text: Option<Seq<char>>,
    pub backend_node_id: Option<i64>,
    pub children: Seq<usize>,
    pub parent_idx: Option<usize>,
    pub ref_id: Option<Seq<char>>,
}

struct TreeNode {
    role: Vec<char>,
    name: Vec<char>,
    level: Option<i64>,
    checked: Option<Vec<char>>,
    expanded: Option<bool>,
    selected: Option<bool>,
    disabled: Option<bool>,
    required: Option<bool>,
    value_text: Option<Vec<char>>,
    backend_node_id: Option<i64>,
    children: Vec<usize>,
    parent_idx: Option<usize>,
    ref_id: Option<Vec<char>>,
    depth: usize,
}

/// The characters of an optional character vector.
pub open spec fn opt_chars(o: Option<Vec<char>>) -> Option<Seq<char>> {
    match o {
        Some(v) => Some(v@),
        None => None,
    }
}

impl TreeNode {
    closed spec fn model(self) -> NodeModel {
        NodeModel {
            role: self.role@,
            name: self.name@,
            level: self.level,
            checked: opt_chars(self.checked),
            expanded: self.expanded,
            selected: self.selected,
            disabled: self.disabled,
            required: self.required,
            value_text: opt_chars(self.value_text),
            backend_node_id: self.backend_node_id,
            children: self.children@,
            parent_idx: self.parent_idx,
            ref_id: opt_chars(self.ref_id),
        }
    }

    /// A node that prints nothing and has no children.
    fn empty() -> (node: TreeNode)
        ensures
            node.model() == empty_model(),
            node.depth == 0,
    {
        TreeNode {
            role: Vec::new(),
            name: Vec::new(),
            level: None,
            checked: None,
            expanded: None,
            selected: None,
            disabled: None,
            required: None,
            value_text: None,
            backend_node_id: None,
            children: Vec::new(),
            parent_idx: None,
            ref_id: None,
            depth: 0,
        }
    }
}

closed spec fn models(v: Seq<TreeNode>) -> Seq<NodeModel> {
    v.map_values(|t: TreeNode| t.model())
}

/// A node that prints nothing and has no children.
pub open spec fn empty_model() -> NodeModel {
    NodeModel {
        role: seq![],
        name: seq![],
        level: None,
        checked: None,
        expanded: None,
        selected: None,
        disabled: None,
        required: None,
        value_text: None,
        backend_node_id: None,
        children: seq![],
        parent_idx: None,
        ref_id: None,
    }
}

/// A node that is left out of the tree: ignored (unless it is the root web
/// area) or an inline text box.
pub open spec fn left_out(n: AxNode) -> bool {
    let role = ax_string(n.role);
    (n.ignored == Some(true) && role != "RootWebArea"@) || role == "InlineTextBox"@
}

/// The tree node for one accessibility node, before linking.
pub open spec fn initial_model(n: AxNode) -> NodeModel {
    if left_out(n) {
        empty_model()
    } else {
        let p = node_props(n.properties);
        NodeModel {
            role: ax_string(n.role),
            name: ax_string(n.name),
            level: p.0,
            checked: p.1,
            expanded: p.2,
            selected: p.3,
            disabled: p.4,
            required: p.5,
            value_text: ax_string_opt(n.value),
            backend_node_id: n.backend_d_o_m_node_id,
            children: seq![],
            parent_idx: None,
            ref_id: None,
        }
    }
}

/// The position of the last node with the identifier `id`.
pub open spec fn id_index(nodes: Seq<AxNode>, id: Seq<char>) -> Option<int>
    decreases nodes.len(),
{
    if nodes.len() == 0 {
        None
    } else if nodes.last().node_id@ == id {
        Some(nodes.len() - 1)
    } else {
        id_index(nodes.drop_last(), id)
    }
}

/// The positions of the listed children that exist, in order.
pub open spec fn child_indices(nodes: Seq<AxNode>, ids: Seq<String>) -> Seq<usize>
    decreases ids.len(),
{
    if ids.len() == 0 {
        seq![]
    } else {
        child_indices(nodes, ids.drop_last()) + match id_index(nodes, ids.last()@) {
            Some(j) => seq![j as usize],
            None => seq![],
        }
    }
}

/// The children of the node at `i`.
pub open spec fn linked_children(nodes: Seq<AxNode>, i: int) -> Seq<usize> {
    match nodes[i].child_ids {
        Some(ids) => child_indices(nodes, ids@),
        None => seq![],
    }
}

/// The last node before `k` that lists `i` among its children.
pub open spec fn parent_upto(nodes: Seq<AxNode>, i: int, k: int) -> Option<usize>
    decreases k,
{
    if k <= 0 {
        None
    } else if linked_children(nodes, k - 1).contains(i as usize) {
        Some((k - 1) as usize)
    } else {
        parent_upto(nodes, i, k - 1)
    }
}

/// The parent of the node at `i`: the last node that lists it as a child.
pub open spec fn linked_parent(nodes: Seq<AxNode>, i: int) -> Option<usize> {
    parent_upto(nodes, i, nodes.len() as int)
}

/// The tree nodes with their children and parents linked.
pub open spec fn linked_models(nodes: Seq<AxNode>) -> Seq<NodeModel> {
    Seq::new(
        nodes.len(),
        |i: int|
            NodeModel {
                children: linked_children(nodes, i),
                parent_idx: linked_parent(nodes, i),
                ..initial_model(nodes[i])
            },
    )
}

/// The depth that each node holds.
closed spec fn depths(v: Seq<TreeNode>) -> Seq<nat> {
    v.map_values(|t: TreeNode| t.depth as nat)
}

/// Every node holds depth zero.
closed spec fn zero_depths(v: Seq<TreeNode>) -> bool {
    forall|i: int| 0 <= i < v.len() ==> (#[trigger] v[i]).depth == 0
}

/// Every child index points into the tree.
pub open spec fn well_indexed(ms: Seq<NodeModel>) -> bool {
    forall|i: int, k: int|
        0 <= i < ms.len() && 0 <= k < ms[i].children.len() ==> #[trigger] ms[i].children[k]
            < ms.len()
}

proof fn lemma_id_index_bound(nodes: Seq<AxNode>, id: Seq<char>)
    ensures
        id_index(nodes, id) matches Some(j) ==> 0 <= j < nodes.len() && nodes[j].node_id@ == id,
        id_index(nodes, id) is None ==> forall|j: int|
            0 <= j < nodes.len() ==> (#[trigger] nodes[j]).node_id@ != id,
    decreases nodes.len(),
{
    if nodes.len() > 0 {
        lemma_id_index_bound(nodes.drop_last(), id);
        if id_index(nodes, id) is None {
            assert forall|j: int| 0 <= j < nodes.len() implies (#[trigger] nodes[j]).node_id@
                != id by {
                if j < nodes.len() - 1 {
                    assert(nodes[j] == nodes.drop_last()[j]);
                }
            }
        }
    }
}

proof fn lemma_child_indices_bound(nodes: Seq<AxNode>, ids: Seq<String>)
    ensures
        forall|k: int|
            0 <= k < child_indices(nodes, ids).len() ==> #[trigger] child_indices(nodes, ids)[k]
                < nodes.len(),
    decreases ids.len(),
{
    if ids.len() > 0 {
        lemma_child_indices_bound(nodes, ids.drop_last());
        lemma_id_index_bound(nodes, ids.last()@);
        let prev = child_indices(nodes, ids.drop_last());
        assert forall|k: int|
            0 <= k < child_indices(nodes, ids).len() implies #[trigger] child_indices(
            nodes,
            ids,
        )[k] < nodes.len() by {
            if k < prev.len() {
                assert(child_indices(nodes, ids)[k] == prev[k]);
            }
        }
    }
}

proof fn lemma_linked_well_indexed(nodes: Seq<AxNode>)
    requires
        nodes.len() <= usize::MAX,
    ensures
        well_indexed(linked_models(nodes)),
{
    assert forall|i: int, k: int|
        0 <= i < linked_models(nodes).len() && 0 <= k < linked_models(
            nodes,
        )[i].children.len() implies #[trigger] linked_models(nodes)[i].children[k]
        < linked_models(nodes).len() by {
        match nodes[i].child_ids {
            Some(ids) => lemma_child_indices_bound(nodes, ids@),
            None => {},
        }
    }
}

/// Finds the last node whose identifier is `id`.
fn find_id(ids: &Vec<Vec<char>>, id: &[char], Ghost(nodes): Ghost<Seq<AxNode>>) -> (r: Option<
    usize,
>)
    requires
        ids@.len() == nodes.len(),
        forall|j: int| 0 <= j < ids@.len() ==> (#[trigger] ids@[j])@ == nodes[j].node_id@,
    ensures
        match r {
            Some(j) => id_index(nodes, id@) == Some(j as int),
            None => id_index(nodes, id@) is None,
        },
{
    let mut k: usize = ids.len();
    assert(nodes.take(k as int) =~= nodes);
    while k > 0
        invariant
            k <= ids@.len(),
            ids@.len() == nodes.len(),
            forall|j: int| 0 <= j < ids@.len() ==> (#[trigger] ids@[j])@ == nodes[j].node_id@,
            id_index(nodes, id@) == id_index(nodes.take(k as int), id@),
        decreases k,
    {
        let ghost pre = nodes.take(k as int);
        assert(pre.drop_last() =~= nodes.take(k - 1));
        assert(pre.last() == nodes[k - 1]);
        if chars_eq(&ids[k - 1], id) {
            return Some(k - 1);
        }
        k = k - 1;
    }
    None
}

/// Builds the tree nodes before linking.
fn initial_node(n: &AxNode) -> (node: TreeNode)
    ensures
        node.model() == initial_model(*n),
        node.depth == 0,
{
    let role = extract_ax_string(&n.role);
    let role_chars = chars_of(role.as_str());
    let ignored = match n.ignored {
        Some(b) => b,
        None => false,
    };
    if (ignored && !is_text(&role_chars, "RootWebArea")) || is_text(&role_chars, "InlineTextBox") {
        return TreeNode::empty();
    }
    let (level, checked, expanded, selected, disabled, required) = extract_properties(
        &n.properties,
    );
    let name = extract_ax_string(&n.name);
    let value_text = extract_ax_string_opt(&n.value);
    TreeNode {
        role: role_chars,
        name: chars_of(name.as_str()),
        level,
        checked: match checked {
            Some(t) => Some(chars_of(t.as_str())),
            None => None,
        },
        expanded,
        selected,
        disabled,
        required,
        value_text: match value_text {
            Some(t) => Some(chars_of(t.as_str())),
            None => None,
        },
        backend_node_id: n.backend_d_o_m_node_id,
        children: Vec::new(),
        parent_idx: None,
        ref_id: None,
        depth: 0,
    }
}

/// Builds the tree nodes and links each to its existing children, and each
/// child to the last node that lists it.
fn link_nodes(nodes: &[AxNode]) -> (out: Vec<TreeNode>)
    ensures
        models(out@) == linked_models(nodes@),
        zero_depths(out@),
{
    let mut ids: Vec<Vec<char>> = Vec::new();
    let mut i: usize = 0;
    while i < nodes.len()
        invariant
            i <= nodes@.len(),
            ids@.len() == i,
            forall|j: int| 0 <= j < i ==> (#[trigger] ids@[j])@ == nodes@[j].node_id@,
        decreases nodes@.len() - i,
    {
        ids.push(chars_of(nodes[i].node_id.as_str()));
        i = i + 1;
    }
    let mut out: Vec<TreeNode> = Vec::new();
    let mut i: usize = 0;
    while i < nodes.len()
        invariant
            i <= nodes@.len(),
            ids@.len() == nodes@.len(),
            forall|j: int| 0 <= j < ids@.len() ==> (#[trigger] ids@[j])@ == nodes@[j].node_id@,
            out@.len() == i,
            forall|j: int|
                0 <= j < i ==> (#[trigger] out@[j]).model() == (NodeModel {
                    children: linked_children(nodes@, j),
                    ..initial_model(nodes@[j])
                }),
            forall|j: int| 0 <= j < i ==> (#[trigger] out@[j]).depth == 0,
        decreases nodes@.len() - i,
    {
        let mut node = initial_node(&nodes[i]);
        match &nodes[i].child_ids {
            Some(child_ids) => {
                let mut c: usize = 0;
                while c < child_ids.len()
                    invariant
                        c <= child_ids@.len(),
                        ids@.len() == nodes@.len(),
                        forall|j: int|
                            0 <= j < ids@.len() ==> (#[trigger] ids@[j])@ == nodes@[j].node_id@,
                        node.children@ == child_indices(nodes@, child_ids@.take(c as int)),
                        node.model() == (NodeModel {
                            children: node.children@,
                            ..initial_model(nodes@[i as int])
                        }),
                        node.depth == 0,
                    decreases child_ids@.len() - c,
                {
                    let cid = chars_of(child_ids[c].as_str());
                    let found = find_id(&ids, &cid, Ghost(nodes@));
                    assert(child_ids@.take(c + 1).drop_last() =~= child_ids@.take(c as int));
                    match found {
                        Some(j) => {
                            node.children.push(j);
                        },
                        None => {},
                    }
                    c = c + 1;
                }
                assert(child_ids@.take(child_ids@.len() as int) =~= child_ids@);
            },
            None => {},
        }
        out.push(node);
        i = i + 1;
    }
    let n = out.len();
    let mut p: usize = 0;
    while p < n
        invariant
            p <= n,
            n == nodes@.len(),
            out@.len() == n,
            forall|j: int|
                0 <= j < n ==> (#[trigger] out@[j]).model() == (NodeModel {
                    children: linked_children(nodes@, j),
                    parent_idx: parent_upto(nodes@, j, p as int),
                    ..initial_model(nodes@[j])
                }),
            forall|j: int| 0 <= j < n ==> (#[trigger] out@[j]).depth == 0,
        decreases n - p,
    {
        let ghost ch = linked_children(nodes@, p as int);
        assert(out@[p as int].model().children == ch);
        let count = out[p].children.len();
        let mut k: usize = 0;
        while k < count
            invariant
                p < n,
                n == nodes@.len(),
                out@.len() == n,
                count == ch.len(),
                k <= count,
                out@[p as int].children@ == ch,
                ch == linked_children(nodes@, p as int),
                forall|j: int|
                    0 <= j < n ==> (#[trigger] out@[j]).model() == (NodeModel {
                        children: linked_children(nodes@, j),
                        parent_idx: if ch.take(k as int).contains(j as usize) {
                            Some(p)
                        } else {
                            parent_upto(nodes@, j, p as int)
                        },
                        ..initial_model(nodes@[j])
                    }),
                forall|j: int| 0 <= j < n ==> (#[trigger] out@[j]).depth == 0,
            decreases count - k,
        {
            let c = out[p].children[k];
            proof {
                lemma_linked_children_bound(nodes@, p as int);
            }
            assert(c == ch[k as int]);
            let ghost before = out@;
            out[c].parent_idx = Some(p);
            assert forall|j: int| 0 <= j < n implies (#[trigger] out@[j]).model() == (NodeModel {
                children: linked_children(nodes@, j),
                parent_idx: if ch.take(k + 1).contains(j as usize) {
                    Some(p)
                } else {
                    parent_upto(nodes@, j, p as int)
                },
                ..initial_model(nodes@[j])
            }) by {
                assert(ch.take(k + 1) =~= ch.take(k as int).push(c));
                if j == c {
                    assert(ch.take(k + 1)[k as int] == c);
                } else {
                    assert(out@[j] == before[j]);
                    if ch.take(k + 1).contains(j as usize) {
                        let b = choose|b: int| 0 <= b < ch.take(k + 1).len() && #[trigger] ch.take(k + 1)[b] == j as usize;
                        assert(b < k);
                        assert(ch.take(k as int)[b] == j as usize);
                    }
                    if ch.take(k as int).contains(j as usize) {
                        let b = choose|b: int| 0 <= b < ch.take(k as int).len() && #[trigger] ch.take(k as int)[b] == j as usize;
                        assert(ch.take(k + 1)[b] == j as usize);
                    }
                }
            }
            assert(out@[p as int].children@ == ch);
            k = k + 1;
        }
        assert(ch.take(count as int) =~= ch);
        p = p + 1;
    }
    assert(models(out@) =~= linked_models(nodes@));
    out
}

proof fn lemma_linked_children_bound(nodes: Seq<AxNode>, i: int)
    requires
        0 <= i < nodes.len(),
    ensures
        forall|k: int|
            0 <= k < linked_children(nodes, i).len() ==> #[trigger] linked_children(nodes, i)[k]
                < nodes.len(),
{
    match nodes[i].child_ids {
        Some(ids) => lemma_child_indices_bound(nodes, ids@),
        None => {},
    }
}

} // verus!

verus! {

// ---------------------------------------------------------------------------
// Merging runs of static text

/// A node with the role `StaticText`.
pub open spec fn is_static(m: NodeModel) -> bool {
    m.role == "StaticText"@
}

/// The end of the run of static-text children that continues at `e`.
pub open spec fn run_end(ms: Seq<NodeModel>, ch: Seq<usize>, e: int) -> int
    decreases ch.len() - e,
{
    if 0 <= e < ch.len() && is_static(ms[ch[e] as int]) {
        run_end(ms, ch, e + 1)
    } else {
        e
    }
}

/// The names of the children from `a` up to `b`, joined.
pub open spec fn names_concat(ms: Seq<NodeModel>, ch: Seq<usize>, a: int, b: int) -> Seq<char>
    decreases b - a,
{
    if b <= a {
        seq![]
    } else {
        names_concat(ms, ch, a, b - 1) + ms[ch[b - 1] as int].name
    }
}

/// The children from `a` up to `b` emptied, one after another.
pub open spec fn empty_range(ms: Seq<NodeModel>, ch: Seq<usize>, a: int, b: int) -> Seq<
    NodeModel,
>
    decreases b - a,
{
    if b <= a {
        ms
    } else {
        empty_range(ms, ch, a, b - 1).update(ch[b - 1] as int, empty_model())
    }
}

pub proof fn lemma_run_end(ms: Seq<NodeModel>, ch: Seq<usize>, e: int)
    requires
        0 <= e,
    ensures
        e <= run_end(ms, ch, e),
        e <= ch.len() ==> run_end(ms, ch, e) <= ch.len(),
    decreases ch.len() - e,
{
    if 0 <= e < ch.len() && is_static(ms[ch[e] as int]) {
        lemma_run_end(ms, ch, e + 1);
    }
}

/// Each run of two or more static-text children from `start` on is merged:
/// its first node takes the joined names, the others are emptied.
pub open spec fn merge_runs(ms: Seq<NodeModel>, ch: Seq<usize>, start: int) -> Seq<NodeModel>
    decreases ch.len() - start,
{
    if start < 0 || start >= ch.len() {
        ms
    } else if !is_static(ms[ch[start] as int]) {
        merge_runs(ms, ch, start + 1)
    } else {
        let end = run_end(ms, ch, start + 1);
        proof {
            lemma_run_end(ms, ch, start + 1);
        }
        if end > start + 1 {
            let first = ch[start] as int;
            let joined = NodeModel { name: names_concat(ms, ch, start, end), ..ms[first] };
            merge_runs(empty_range(ms.update(first, joined), ch, start + 1, end), ch, end)
        } else {
            merge_runs(ms, ch, end)
        }
    }
}

/// The merging done for the node at `index`: its runs of static text are
/// merged, and a lone static-text child that repeats its name is emptied.
pub open spec fn merge_node(ms: Seq<NodeModel>, index: int) -> Seq<NodeModel> {
    let node = ms[index];
    if node.role.len() == 0 || node.children.len() == 0 {
        ms
    } else {
        let ch = node.children;
        let merged = merge_runs(ms, ch, 0);
        if ch.len() == 1 && is_static(merged[ch[0] as int]) && merged[index].name
            == merged[ch[0] as int].name {
            merged.update(ch[0] as int, empty_model())
        } else {
            merged
        }
    }
}

/// The merging done for the nodes before `k`, in order.
pub open spec fn merge_upto(ms: Seq<NodeModel>, k: int) -> Seq<NodeModel>
    decreases k,
{
    if k <= 0 {
        ms
    } else {
        merge_node(merge_upto(ms, k - 1), k - 1)
    }
}

/// No node holds a ref yet.
pub open spec fn no_refs(ms: Seq<NodeModel>) -> bool {
    forall|i: int| 0 <= i < ms.len() ==> (#[trigger] ms[i]).ref_id is None
}

proof fn lemma_empty_range_shape(ms: Seq<NodeModel>, ch: Seq<usize>, a: int, b: int)
    requires
        well_indexed(ms),
        forall|k: int| 0 <= k < ch.len() ==> #[trigger] ch[k] < ms.len(),
        0 <= a,
        b <= ch.len(),
    ensures
        empty_range(ms, ch, a, b).len() == ms.len(),
        well_indexed(empty_range(ms, ch, a, b)),
        no_refs(ms) ==> no_refs(empty_range(ms, ch, a, b)),
    decreases b - a,
{
    if b > a {
        lemma_empty_range_shape(ms, ch, a, b - 1);
        let prev = empty_range(ms, ch, a, b - 1);
        let next = empty_range(ms, ch, a, b);
        assert(no_refs(ms) ==> no_refs(next)) by {
            if no_refs(ms) {
                assert forall|i: int| 0 <= i < next.len() implies (#[trigger] next[i]).ref_id is None by {
                    if i != ch[b - 1] {
                        assert(next[i] == prev[i]);
                    }
                }
            }
        }
        assert forall|i: int, k: int|
            0 <= i < next.len() && 0 <= k < next[i].children.len() implies #[trigger] next[i].children[k]
            < next.len() by {
            if i != ch[b - 1] {
                assert(next[i] == prev[i]);
            }
        }
    }
}

proof fn lemma_merge_runs_shape(ms: Seq<NodeModel>, ch: Seq<usize>, start: int)
    requires
        well_indexed(ms),
        forall|k: int| 0 <= k < ch.len() ==> #[trigger] ch[k] < ms.len(),
    ensures
        merge_runs(ms, ch, start).len() == ms.len(),
        well_indexed(merge_runs(ms, ch, start)),
        no_refs(ms) ==> no_refs(merge_runs(ms, ch, start)),
    decreases ch.len() - start,
{
    if start < 0 || start >= ch.len() {
    } else if !is_static(ms[ch[start] as int]) {
        lemma_merge_runs_shape(ms, ch, start + 1);
    } else {
        let end = run_end(ms, ch, start + 1);
        lemma_run_end(ms, ch, start + 1);
        if end > start + 1 {
            let first = ch[start] as int;
            let joined = NodeModel { name: names_concat(ms, ch, start, end), ..ms[first] };
            let ms1 = ms.update(first, joined);
            assert forall|i: int, k: int|
                0 <= i < ms1.len() && 0 <= k < ms1[i].children.len() implies #[trigger] ms1[i].children[k]
                < ms1.len() by {
                if i != first {
                    assert(ms1[i] == ms[i]);
                }
            }
            assert(no_refs(ms) ==> no_refs(ms1)) by {
                if no_refs(ms) {
                    assert forall|i: int| 0 <= i < ms1.len() implies (#[trigger] ms1[i]).ref_id is None by {
                        if i != first {
                            assert(ms1[i] == ms[i]);
                        }
                    }
                }
            }
            lemma_empty_range_shape(ms1, ch, start + 1, end);
            lemma_merge_runs_shape(empty_range(ms1, ch, start + 1, end), ch, end);
        } else {
            lemma_merge_runs_shape(ms, ch, end);
        }
    }
}

proof fn lemma_merge_node_shape(ms: Seq<NodeModel>, index: int)
    requires
        well_indexed(ms),
        0 <= index < ms.len(),
    ensures
        merge_node(ms, index).len() == ms.len(),
        well_indexed(merge_node(ms, index)),
        no_refs(ms) ==> no_refs(merge_node(ms, index)),
{
    let node = ms[index];
    if node.role.len() == 0 || node.children.len() == 0 {
    } else {
        let ch = node.children;
        lemma_merge_runs_shape(ms, ch, 0);
        let merged = merge_runs(ms, ch, 0);
        let next = merged.update(ch[0] as int, empty_model());
        assert(no_refs(merged) ==> no_refs(next)) by {
            if no_refs(merged) {
                assert forall|i: int| 0 <= i < next.len() implies (#[trigger] next[i]).ref_id is None by {
                    if i != ch[0] {
                        assert(next[i] == merged[i]);
                    }
                }
            }
        }
        assert forall|i: int, k: int|
            0 <= i < next.len() && 0 <= k < next[i].children.len() implies #[trigger] next[i].children[k]
            < next.len() by {
            if i != ch[0] {
                assert(next[i] == merged[i]);
            }
        }
    }
}

proof fn lemma_merge_upto_shape(ms: Seq<NodeModel>, k: int)
    requires
        well_indexed(ms),
        k <= ms.len(),
    ensures
        merge_upto(ms, k).len() == ms.len(),
        well_indexed(merge_upto(ms, k)),
        no_refs(ms) ==> no_refs(merge_upto(ms, k)),
    decreases k,
{
    if k > 0 {
        lemma_merge_upto_shape(ms, k - 1);
        lemma_merge_node_shape(merge_upto(ms, k - 1), k - 1);
    }
}

fn copy_indices(v: &Vec<usize>) -> (out: Vec<usize>)
    ensures
        out@ == v@,
{
    let mut out: Vec<usize> = Vec::new();
    let mut i: usize = 0;
    while i < v.len()
        invariant
            i <= v@.len(),
            out@ == v@.take(i as int),
        decreases v@.len() - i,
    {
        out.push(v[i]);
        i = i + 1;
        assert(out@ =~= v@.take(i as int));
    }
    assert(v@.take(v@.len() as int) =~= v@);
    out
}

proof fn lemma_models_update(v: Seq<TreeNode>, i: int, t: TreeNode)
    requires
        0 <= i < v.len(),
    ensures
        models(v.update(i, t)) == models(v).update(i, t.model()),
{
    assert(models(v.update(i, t)) =~= models(v).update(i, t.model()));
}

/// Replaces the node at `i` with an empty one.
fn clear_node(nodes: &mut Vec<TreeNode>, i: usize)
    requires
        i < old(nodes)@.len(),
    ensures
        models(final(nodes)@) == models(old(nodes)@).update(i as int, empty_model()),
        final(nodes)@.len() == old(nodes)@.len(),
        zero_depths(old(nodes)@) ==> zero_depths(final(nodes)@),
{
    let e = TreeNode::empty();
    proof {
        lemma_models_update(nodes@, i as int, e);
    }
    let ghost before = nodes@;
    nodes.set(i, e);
    assert(zero_depths(before) ==> zero_depths(nodes@)) by {
        if zero_depths(before) {
            assert forall|j: int| 0 <= j < nodes@.len() implies (#[trigger] nodes@[j]).depth
                == 0 by {
                if j != i {
                    assert(nodes@[j] == before[j]);
                }
            }
        }
    }
}

/// Gives the node at `i` a new name.
fn rename_node(nodes: &mut Vec<TreeNode>, i: usize, name: Vec<char>)
    requires
        i < old(nodes)@.len(),
    ensures
        models(final(nodes)@) == models(old(nodes)@).update(
            i as int,
            NodeModel { name: name@, ..models(old(nodes)@)[i as int] },
        ),
        final(nodes)@.len() == old(nodes)@.len(),
        zero_depths(old(nodes)@) ==> zero_depths(final(nodes)@),
{
    let ghost before = nodes@;
    nodes[i].name = name;
    assert(zero_depths(before) ==> zero_depths(nodes@)) by {
        if zero_depths(before) {
            assert forall|j: int| 0 <= j < nodes@.len() implies (#[trigger] nodes@[j]).depth
                == 0 by {
                if j != i {
                    assert(nodes@[j] == before[j]);
                }
            }
        }
    }
    proof {
        assert(models(nodes@) =~= models(before).update(
            i as int,
            NodeModel { name: name@, ..models(before)[i as int] },
        ));
    }
}

/// Merges the static-text runs among the children of the node at `index`.
fn merge_static_text(nodes: &mut Vec<TreeNode>, index: usize)
    requires
        index < old(nodes)@.len(),
        well_indexed(models(old(nodes)@)),
        zero_depths(old(nodes)@),
    ensures
        models(final(nodes)@) == merge_node(models(old(nodes)@), index as int),
        final(nodes)@.len() == old(nodes)@.len(),
        zero_depths(final(nodes)@),
{
    let ghost m0 = models(nodes@);
    assert(models(nodes@)[index as int] == nodes@[index as int].model());
    if nodes[index].role.len() == 0 || nodes[index].children.len() == 0 {
        return;
    }
    let children = copy_indices(&nodes[index].children);
    let ghost ch = children@;
    assert(ch == m0[index as int].children);
    assert forall|k: int| 0 <= k < ch.len() implies #[trigger] ch[k] < m0.len() by {
        assert(m0[index as int].children[k] < m0.len());
    }
    let mut start: usize = 0;
    while start < children.len()
        invariant
            children@ == ch,
            forall|k: int| 0 <= k < ch.len() ==> #[trigger] ch[k] < m0.len(),
            nodes@.len() == m0.len(),
            zero_depths(nodes@),
            start <= ch.len(),
            well_indexed(models(nodes@)),
            merge_runs(m0, ch, 0) == merge_runs(models(nodes@), ch, start as int),
        decreases ch.len() - start,
    {
        let ghost ms = models(nodes@);
        let first = children[start];
        assert(ms[first as int] == nodes@[first as int].model());
        if !is_text(&nodes[first].role, "StaticText") {
            start = start + 1;
        } else {
            let mut end: usize = start + 1;
            proof {
                lemma_run_end(ms, ch, start + 1);
            }
            while end < children.len() && is_text(&nodes[children[end]].role, "StaticText")
                invariant
                    children@ == ch,
                    forall|k: int| 0 <= k < ch.len() ==> #[trigger] ch[k] < m0.len(),
                    nodes@.len() == m0.len(),
                    zero_depths(nodes@),
            zero_depths(nodes@),
                    models(nodes@) == ms,
                    start + 1 <= end <= ch.len(),
                    run_end(ms, ch, start + 1) == run_end(ms, ch, end as int),
                decreases ch.len() - end,
            {
                assert(ms[ch[end as int] as int] == nodes@[ch[end as int] as int].model());
                end = end + 1;
            }
            proof {
                if end < ch.len() {
                    assert(ms[ch[end as int] as int] == nodes@[ch[end as int] as int].model());
                }
            }
            if end > start + 1 {
                let mut joined: Vec<char> = Vec::new();
                let mut k: usize = start;
                while k < end
                    invariant
                        children@ == ch,
                        forall|k: int| 0 <= k < ch.len() ==> #[trigger] ch[k] < m0.len(),
                        nodes@.len() == m0.len(),
                        zero_depths(nodes@),
                    zero_depths(nodes@),
            zero_depths(nodes@),
                        models(nodes@) == ms,
                        start <= k <= end,
                        end <= ch.len(),
                        joined@ == names_concat(ms, ch, start as int, k as int),
                    decreases end - k,
                {
                    let c = children[k];
                    assert(ms[c as int] == nodes@[c as int].model());
                    push_all(&mut joined, &nodes[c].name);
                    k = k + 1;
                }
                rename_node(nodes, first, joined);
                let ghost ms1 = models(nodes@);
                proof {
                    lemma_merge_runs_shape(ms, ch, start as int);
                    let joined_model = NodeModel {
                        name: names_concat(ms, ch, start as int, end as int),
                        ..ms[first as int]
                    };
                    assert(ms1 == ms.update(first as int, joined_model));
                    assert forall|i: int, j: int|
                        0 <= i < ms1.len() && 0 <= j < ms1[i].children.len() implies #[trigger] ms1[i].children[j]
                        < ms1.len() by {
                        if i != first {
                            assert(ms1[i] == ms[i]);
                        }
                    }
                }
                let mut k: usize = start + 1;
                while k < end
                    invariant
                        children@ == ch,
                        forall|k: int| 0 <= k < ch.len() ==> #[trigger] ch[k] < m0.len(),
                        nodes@.len() == m0.len(),
                        zero_depths(nodes@),
                    zero_depths(nodes@),
            zero_depths(nodes@),
                        start + 1 <= k <= end,
                        end <= ch.len(),
                        well_indexed(ms1),
                        models(nodes@) == empty_range(ms1, ch, start + 1, k as int),
                    decreases end - k,
                {
                    clear_node(nodes, children[k]);
                    k = k + 1;
                }
                proof {
                    lemma_empty_range_shape(ms1, ch, start + 1, end as int);
                }
            }
            start = end;
        }
    }
    let ghost merged = models(nodes@);
    proof {
        assert(merge_runs(m0, ch, 0) == merged);
    }
    if children.len() == 1 {
        let c = children[0];
        assert(merged[c as int] == nodes@[c as int].model());
        assert(merged[index as int] == nodes@[index as int].model());
        if is_text(&nodes[c].role, "StaticText") && chars_eq(&nodes[index].name, &nodes[c].name) {
            clear_node(nodes, c);
        }
    }
}

} // verus!

verus! {

// ---------------------------------------------------------------------------
// Roots

/// Some node lists `i` among its children.
pub open spec fn is_child_in(ms: Seq<NodeModel>, i: int) -> bool {
    exists|j: int, k: int|
        0 <= j < ms.len() && 0 <= k < ms[j].children.len() && #[trigger] ms[j].children[k] == i
}

/// The nodes before `k` that no node lists as a child, in order.
pub open spec fn roots_upto(ms: Seq<NodeModel>, k: int) -> Seq<usize>
    decreases k,
{
    if k <= 0 {
        seq![]
    } else {
        roots_upto(ms, k - 1) + if is_child_in(ms, k - 1) {
            seq![]
        } else {
            seq![(k - 1) as usize]
        }
    }
}

/// The nodes that no node lists as a child, in order.
pub open spec fn roots(ms: Seq<NodeModel>) -> Seq<usize> {
    roots_upto(ms, ms.len() as int)
}

/// The tree built from the accessibility nodes: linked, then with static
/// text merged node by node.
pub open spec fn tree_model(nodes: Seq<AxNode>) -> Seq<NodeModel> {
    merge_upto(linked_models(nodes), nodes.len() as int)
}

proof fn lemma_tree_model_shape(nodes: Seq<AxNode>)
    requires
        nodes.len() <= usize::MAX,
    ensures
        tree_model(nodes).len() == nodes.len(),
        well_indexed(tree_model(nodes)),
        no_refs(tree_model(nodes)),
{
    lemma_linked_well_indexed(nodes);
    let lm = linked_models(nodes);
    assert forall|i: int| 0 <= i < lm.len() implies (#[trigger] lm[i]).ref_id is None by {}
    lemma_merge_upto_shape(lm, nodes.len() as int);
}

proof fn lemma_roots_bound(ms: Seq<NodeModel>, k: int)
    requires
        0 <= k <= ms.len(),
        ms.len() <= usize::MAX,
    ensures
        roots_upto(ms, k).len() <= k,
        forall|r: int|
            0 <= r < roots_upto(ms, k).len() ==> #[trigger] roots_upto(ms, k)[r] < k
                && !is_child_in(ms, roots_upto(ms, k)[r] as int),
    decreases k,
{
    if k > 0 {
        lemma_roots_bound(ms, k - 1);
        let prev = roots_upto(ms, k - 1);
        let cur = roots_upto(ms, k);
        if is_child_in(ms, k - 1) {
            assert(cur =~= prev);
        } else {
            assert(cur =~= prev.push((k - 1) as usize));
        }
        assert forall|r: int| 0 <= r < cur.len() implies #[trigger] cur[r] < k && !is_child_in(
            ms,
            cur[r] as int,
        ) by {
            if r < prev.len() {
                assert(cur[r] == prev[r]);
            }
        }
    }
}

/// Which nodes some node lists as a child.
fn child_flags(nodes: &Vec<TreeNode>) -> (flags: Vec<bool>)
    requires
        well_indexed(models(nodes@)),
    ensures
        flags@.len() == nodes@.len(),
        forall|i: int| 0 <= i < nodes@.len() ==> #[trigger] flags@[i] == is_child_in(models(nodes@), i),
{
    let ghost ms = models(nodes@);
    let n = nodes.len();
    let mut flags: Vec<bool> = Vec::new();
    let mut i: usize = 0;
    while i < n
        invariant
            i <= n,
            n == nodes@.len(),
            flags@.len() == i,
            forall|x: int| 0 <= x < i ==> !#[trigger] flags@[x],
        decreases n - i,
    {
        flags.push(false);
        i = i + 1;
    }
    let mut j: usize = 0;
    while j < n
        invariant
            j <= n,
            n == nodes@.len(),
            ms == models(nodes@),
            well_indexed(ms),
            flags@.len() == n,
            forall|x: int|
                0 <= x < n ==> (#[trigger] flags@[x] <==> exists|a: int, b: int|
                    0 <= a < j && 0 <= b < ms[a].children.len() && #[trigger] ms[a].children[b]
                        == x),
        decreases n - j,
    {
        assert(ms[j as int] == nodes@[j as int].model());
        let mut k: usize = 0;
        while k < nodes[j].children.len()
            invariant
                j < n,
                n == nodes@.len(),
                ms == models(nodes@),
                well_indexed(ms),
                ms[j as int].children == nodes@[j as int].children@,
                k <= ms[j as int].children.len(),
                flags@.len() == n,
                forall|x: int|
                    0 <= x < n ==> (#[trigger] flags@[x] <==> (exists|a: int, b: int|
                        0 <= a < j && 0 <= b < ms[a].children.len() && #[trigger] ms[a].children[b]
                            == x) || (exists|b: int|
                        0 <= b < k && #[trigger] ms[j as int].children[b] == x)),
            decreases ms[j as int].children.len() - k,
        {
            let c = nodes[j].children[k];
            assert(c == ms[j as int].children[k as int]);
            assert(c < n);
            let ghost before = flags@;
            flags.set(c, true);
            assert forall|x: int|
                0 <= x < n implies (#[trigger] flags@[x] <==> (exists|a: int, b: int|
                0 <= a < j && 0 <= b < ms[a].children.len() && #[trigger] ms[a].children[b] == x)
                || (exists|b: int| 0 <= b < k + 1 && #[trigger] ms[j as int].children[b] == x)) by {
                if x == c {
                    assert(ms[j as int].children[k as int] == x);
                } else {
                    assert(flags@[x] == before[x]);
                    if exists|b: int| 0 <= b < k + 1 && #[trigger] ms[j as int].children[b] == x {
                        let b = choose|b: int| 0 <= b < k + 1 && #[trigger] ms[j as int].children[b] == x;
                        assert(b < k);
                    }
                }
            }
            k = k + 1;
        }
        assert forall|x: int|
            0 <= x < n implies (#[trigger] flags@[x] <==> exists|a: int, b: int|
            0 <= a < j + 1 && 0 <= b < ms[a].children.len() && #[trigger] ms[a].children[b] == x) by {
            if exists|a: int, b: int|
                0 <= a < j + 1 && 0 <= b < ms[a].children.len() && #[trigger] ms[a].children[b]
                    == x {
                let (a, b) = choose|a: int, b: int|
                    0 <= a < j + 1 && 0 <= b < ms[a].children.len() && #[trigger] ms[a].children[b]
                        == x;
                if a == j {
                    assert(ms[j as int].children[b] == x);
                }
            }
        }
        j = j + 1;
    }
    flags
}

/// Shapes the tree: links children and parents, merges static text, and
/// finds the roots. Every node is left at depth zero.
fn shape_tree(nodes: &[AxNode]) -> (out: (Vec<TreeNode>, Vec<usize>))
    ensures
        models(out.0@) == tree_model(nodes@),
        out.1@ == roots(tree_model(nodes@)),
        zero_depths(out.0@),
{
    let count = nodes.len();
    let mut tree = link_nodes(nodes);
    let ghost linked = linked_models(nodes@);
    assert(models(tree@).len() == tree@.len());
    proof {
        lemma_linked_well_indexed(nodes@);
    }
    let n = tree.len();
    let mut index: usize = 0;
    while index < n
        invariant
            index <= n,
            n == nodes@.len(),
            tree@.len() == n,
            models(tree@) == merge_upto(linked, index as int),
            zero_depths(tree@),
            well_indexed(linked),
            linked.len() == n,
        decreases n - index,
    {
        proof {
            lemma_merge_upto_shape(linked, index as int);
        }
        merge_static_text(&mut tree, index);
        index = index + 1;
    }
    proof {
        lemma_tree_model_shape(nodes@);
    }
    let flags = child_flags(&tree);
    let ghost ms = models(tree@);
    let mut roots_out: Vec<usize> = Vec::new();
    let mut i: usize = 0;
    while i < n
        invariant
            i <= n,
            n == tree@.len(),
            ms == models(tree@),
            zero_depths(tree@),
            flags@.len() == n,
            forall|x: int| 0 <= x < n ==> #[trigger] flags@[x] == is_child_in(ms, x),
            roots_out@ == roots_upto(ms, i as int),
        decreases n - i,
    {
        if !flags[i] {
            roots_out.push(i);
        }
        i = i + 1;
    }
    (tree, roots_out)
}

} // verus!

verus! {

// ---------------------------------------------------------------------------
// Depths

/// The depths after a walk down from the node at `idx`, entered at depth
/// `d`: the node takes `d`, then each of its children is walked in turn from
/// depth `d + 1`. A later walk through a node overwrites its depth.
pub open spec fn walk_depths(ms: Seq<NodeModel>, rank: Seq<nat>, ds: Seq<nat>, idx: int, d: nat) -> Seq<
    nat,
>
    decreases rank[idx], 1nat, 0int,
{
    walk_children(ms, rank, ds.update(idx, d), idx, 0, d + 1)
}

/// The depths after the children of `parent` from the `k`-th on are walked
/// in turn from depth `d`.
pub open spec fn walk_children(
    ms: Seq<NodeModel>,
    rank: Seq<nat>,
    ds: Seq<nat>,
    parent: int,
    k: int,
    d: nat,
) -> Seq<nat>
    decreases rank[parent], 0nat, ms[parent].children.len() - k,
{
    if 0 <= k < ms[parent].children.len() && rank[ms[parent].children[k] as int] < rank[parent] {
        walk_children(
            ms,
            rank,
            walk_depths(ms, rank, ds, ms[parent].children[k] as int, d),
            parent,
            k + 1,
            d,
        )
    } else {
        ds
    }
}

/// The depths after walks from the first `k` roots `rs`, each from depth
/// zero, starting with every node at depth zero.
pub open spec fn root_walks(ms: Seq<NodeModel>, rank: Seq<nat>, rs: Seq<usize>, k: int) -> Seq<nat>
    decreases k,
{
    if k <= 0 {
        Seq::new(ms.len(), |i: int| 0nat)
    } else {
        walk_depths(ms, rank, root_walks(ms, rank, rs, k - 1), rs[k - 1] as int, 0)
    }
}

/// The depth of each node of the tree built from `nodes`: the roots are
/// walked in order, and each node holds the number of steps from the root
/// along the last walk that reaches it; a node that no walk reaches stays
/// at zero.
pub open spec fn tree_depths(nodes: Seq<AxNode>) -> Seq<nat> {
    let tm = tree_model(nodes);
    root_walks(tm, snapshot_rank(nodes), roots(tm), roots(tm).len() as int)
}

proof fn lemma_walk_keeps(
    ms: Seq<NodeModel>,
    rank: Seq<nat>,
    ds: Seq<nat>,
    idx: int,
    d: nat,
    x: int,
)
    requires
        well_indexed(ms),
        0 <= idx < ms.len(),
        ds.len() == ms.len(),
        0 <= x < ms.len(),
        !is_child_in(ms, x),
    ensures
        walk_depths(ms, rank, ds, idx, d).len() == ds.len(),
        walk_depths(ms, rank, ds, idx, d)[x] == if x == idx {
            d
        } else {
            ds[x]
        },
    decreases rank[idx], 1nat, 0int,
{
    lemma_children_keep(ms, rank, ds.update(idx, d), idx, 0, d + 1, x);
}

proof fn lemma_children_keep(
    ms: Seq<NodeModel>,
    rank: Seq<nat>,
    ds: Seq<nat>,
    parent: int,
    k: int,
    d: nat,
    x: int,
)
    requires
        well_indexed(ms),
        0 <= parent < ms.len(),
        0 <= k,
        ds.len() == ms.len(),
        0 <= x < ms.len(),
        !is_child_in(ms, x),
    ensures
        walk_children(ms, rank, ds, parent, k, d).len() == ds.len(),
        walk_children(ms, rank, ds, parent, k, d)[x] == ds[x],
    decreases rank[parent], 0nat, ms[parent].children.len() - k,
{
    if 0 <= k < ms[parent].children.len() && rank[ms[parent].children[k] as int] < rank[parent] {
        let c = ms[parent].children[k] as int;
        assert(is_child_in(ms, c)) by {
            assert(ms[parent].children[k] == c);
        }
        lemma_walk_keeps(ms, rank, ds, c, d, x);
        lemma_children_keep(ms, rank, walk_depths(ms, rank, ds, c, d), parent, k + 1, d, x);
    }
}

proof fn lemma_root_walks_roots(ms: Seq<NodeModel>, rank: Seq<nat>, rs: Seq<usize>, k: int)
    requires
        well_indexed(ms),
        0 <= k <= rs.len(),
        forall|r: int| 0 <= r < rs.len() ==> #[trigger] rs[r] < ms.len() && !is_child_in(ms, rs[r] as int),
        forall|a: int, b: int| 0 <= a < b < rs.len() ==> #[trigger] rs[a] < #[trigger] rs[b],
    ensures
        root_walks(ms, rank, rs, k).len() == ms.len(),
        forall|m: int| 0 <= m < k ==> #[trigger] root_walks(ms, rank, rs, k)[rs[m] as int] == 0,
    decreases k,
{
    if k > 0 {
        lemma_root_walks_roots(ms, rank, rs, k - 1);
        let prev = root_walks(ms, rank, rs, k - 1);
        let idx = rs[k - 1] as int;
        assert forall|m: int| 0 <= m < k implies #[trigger] root_walks(ms, rank, rs, k)[rs[m] as int]
            == 0 by {
            lemma_walk_keeps(ms, rank, prev, idx, 0, rs[m] as int);
            if m < k - 1 {
                assert(rs[m] < rs[k - 1]);
            }
        }
        lemma_walk_keeps(ms, rank, prev, idx, 0, idx);
    }
}

proof fn lemma_roots_exact(ms: Seq<NodeModel>, k: int)
    requires
        0 <= k <= ms.len(),
        ms.len() <= usize::MAX,
    ensures
        forall|a: int, b: int|
            0 <= a < b < roots_upto(ms, k).len() ==> #[trigger] roots_upto(ms, k)[a]
                < #[trigger] roots_upto(ms, k)[b],
        forall|x: int|
            0 <= x < k && !is_child_in(ms, x) ==> exists|r: int|
                0 <= r < roots_upto(ms, k).len() && #[trigger] roots_upto(ms, k)[r] == x,
    decreases k,
{
    lemma_roots_bound(ms, k);
    if k > 0 {
        lemma_roots_exact(ms, k - 1);
        lemma_roots_bound(ms, k - 1);
        let prev = roots_upto(ms, k - 1);
        let cur = roots_upto(ms, k);
        assert forall|a: int, b: int| 0 <= a < b < cur.len() implies #[trigger] cur[a]
            < #[trigger] cur[b] by {
            assert(cur[a] == prev[a]);
            if b < prev.len() {
                assert(cur[b] == prev[b]);
            }
        }
        assert forall|x: int| 0 <= x < k && !is_child_in(ms, x) implies exists|r: int|
            0 <= r < cur.len() && #[trigger] cur[r] == x by {
            if x < k - 1 {
                let r = choose|r: int| 0 <= r < prev.len() && #[trigger] prev[r] == x;
                assert(cur[r] == prev[r]);
            } else {
                assert(cur[prev.len() as int] == x);
            }
        }
    }
}

/// The shape of the tree built from `nodes`: one node per accessibility
/// node; every child index names a node; the roots are, in increasing
/// order, exactly the nodes that no node lists as a child; and, when walking
/// it ends, every root has depth zero.
pub proof fn lemma_tree_shape(nodes: Seq<AxNode>)
    requires
        nodes.len() <= usize::MAX,
    ensures
        tree_model(nodes).len() == nodes.len(),
        forall|i: int, k: int|
            0 <= i < tree_model(nodes).len() && 0 <= k < tree_model(nodes)[i].children.len()
                ==> #[trigger] tree_model(nodes)[i].children[k] < nodes.len(),
        forall|r: int|
            0 <= r < roots(tree_model(nodes)).len() ==> #[trigger] roots(tree_model(nodes))[r]
                < nodes.len() && !is_child_in(tree_model(nodes), roots(tree_model(nodes))[r] as int),
        forall|a: int, b: int|
            0 <= a < b < roots(tree_model(nodes)).len() ==> #[trigger] roots(tree_model(nodes))[a]
                < #[trigger] roots(tree_model(nodes))[b],
        forall|x: int|
            0 <= x < nodes.len() && !is_child_in(tree_model(nodes), x) ==> exists|r: int|
                0 <= r < roots(tree_model(nodes)).len() && #[trigger] roots(tree_model(nodes))[r]
                    == x,
        walk_ends(nodes) ==> forall|r: int|
            0 <= r < roots(tree_model(nodes)).len() ==> #[trigger] tree_depths(nodes)[roots(
                tree_model(nodes),
            )[r] as int] == 0,
{
    let tm = tree_model(nodes);
    lemma_tree_model_shape(nodes);
    lemma_roots_bound(tm, tm.len() as int);
    lemma_roots_exact(tm, tm.len() as int);
    let rs = roots(tm);
    lemma_root_walks_roots(tm, snapshot_rank(nodes), rs, rs.len() as int);
}

/// Sets the depth of the node at `idx` and, below it, of its subtree.
fn set_depth(nodes: &mut Vec<TreeNode>, idx: usize, depth: usize, Ghost(rank): Ghost<Seq<nat>>)
    requires
        valid_rank(models(old(nodes)@), rank),
        idx < old(nodes)@.len(),
        rank[idx as int] > 0,
        depth + rank[idx as int] <= usize::MAX,
    ensures
        models(final(nodes)@) == models(old(nodes)@),
        final(nodes)@.len() == old(nodes)@.len(),
        depths(final(nodes)@) == walk_depths(
            models(old(nodes)@),
            rank,
            depths(old(nodes)@),
            idx as int,
            depth as nat,
        ),
    decreases rank[idx as int], 1nat,
{
    let ghost before = nodes@;
    nodes[idx].depth = depth;
    assert(models(nodes@) =~= models(before));
    assert(depths(nodes@) =~= depths(before).update(idx as int, depth as nat));
    set_children_depth(nodes, idx, depth + 1, Ghost(rank));
}

/// Sets the depths of the subtrees of the children of `parent`, each child
/// at `depth`.
fn set_children_depth(
    nodes: &mut Vec<TreeNode>,
    parent: usize,
    depth: usize,
    Ghost(rank): Ghost<Seq<nat>>,
)
    requires
        valid_rank(models(old(nodes)@), rank),
        parent < old(nodes)@.len(),
        rank[parent as int] > 0,
        depth + rank[parent as int] <= usize::MAX + 1,
    ensures
        models(final(nodes)@) == models(old(nodes)@),
        final(nodes)@.len() == old(nodes)@.len(),
        depths(final(nodes)@) == walk_children(
            models(old(nodes)@),
            rank,
            depths(old(nodes)@),
            parent as int,
            0,
            depth as nat,
        ),
    decreases rank[parent as int], 0nat,
{
    let ghost ms = models(nodes@);
    let ghost goal = walk_children(ms, rank, depths(nodes@), parent as int, 0, depth as nat);
    assert(ms[parent as int] == nodes@[parent as int].model());
    let children = copy_indices(&nodes[parent].children);
    let count = children.len();
    let mut k: usize = 0;
    while k < count
        invariant
            ms == models(nodes@),
            valid_rank(ms, rank),
            parent < nodes@.len(),
            rank[parent as int] > 0,
            depth + rank[parent as int] <= usize::MAX + 1,
            children@ == ms[parent as int].children,
            count == children@.len(),
            k <= count,
            goal == walk_children(ms, rank, depths(nodes@), parent as int, k as int, depth as nat),
        decreases count - k,
    {
        let c = children[k];
        assert(c == ms[parent as int].children[k as int]);
        set_depth(nodes, c, depth, Ghost(rank));
        k = k + 1;
    }
}

/// Builds the tree: links children and parents, merges static text, finds
/// the roots, and sets the depth of each node by walks from the roots.
fn build_tree(nodes: &[AxNode]) -> (out: (Vec<TreeNode>, Vec<usize>))
    requires
        walk_ends(nodes@),
    ensures
        models(out.0@) == tree_model(nodes@),
        out.1@ == roots(tree_model(nodes@)),
        depths(out.0@) == tree_depths(nodes@),
{
    let count = nodes.len();
    let (mut tree, roots_found) = shape_tree(nodes);
    let ghost tm = tree_model(nodes@);
    let ghost rank = snapshot_rank(nodes@);
    proof {
        lemma_tree_model_shape(nodes@);
        lemma_roots_bound(tm, tm.len() as int);
        assert(depths(tree@) =~= root_walks(tm, rank, roots_found@, 0));
    }
    let mut k: usize = 0;
    while k < roots_found.len()
        invariant
            tm == models(tree@),
            tm == tree_model(nodes@),
            ranked_tree(tm, rank),
            roots_found@ == roots(tm),
            forall|r: int| 0 <= r < roots_found@.len() ==> #[trigger] roots_found@[r] < tm.len(),
            tm.len() == nodes@.len(),
            count == nodes@.len(),
            k <= roots_found@.len(),
            depths(tree@) == root_walks(tm, rank, roots_found@, k as int),
        decreases roots_found@.len() - k,
    {
        let root = roots_found[k];
        assert(rank[roots(tm)[k as int] as int] > 0);
        assert(rank[root as int] <= tm.len());
        set_depth(&mut tree, root, 0, Ghost(rank));
        k = k + 1;
    }
    (tree, roots_found)
}

} // verus!

verus! {

// ---------------------------------------------------------------------------
// Refs

/// Roles a user acts on; each such node with a DOM node gets a ref.
pub open spec fn is_interactive_role(r: Seq<char>) -> bool {
    r == "button"@ || r == "link"@ || r == "textbox"@ || r == "checkbox"@ || r == "radio"@ || r
        == "combobox"@ || r == "listbox"@ || r == "menuitem"@ || r == "menuitemcheckbox"@ || r
        == "menuitemradio"@ || r == "option"@ || r == "searchbox"@ || r == "slider"@ || r
        == "spinbutton"@ || r == "switch"@ || r == "tab"@ || r == "treeitem"@ || r == "Iframe"@
}

/// Roles of content; such a node with a name and a DOM node gets a ref.
pub open spec fn is_content_role(r: Seq<char>) -> bool {
    r == "heading"@ || r == "cell"@ || r == "gridcell"@ || r == "columnheader"@ || r
        == "rowheader"@ || r == "listitem"@ || r == "article"@ || r == "region"@ || r == "main"@
        || r == "navigation"@
}

/// A node that gets a ref.
pub open spec fn gets_ref(m: NodeModel) -> bool {
    m.backend_node_id is Some && (is_interactive_role(m.role) || (is_content_role(m.role)
        && m.name.len() > 0))
}

/// The ref with number `k`: `e` followed by `k` in decimal.
pub open spec fn ref_label(k: nat) -> Seq<char> {
    seq!['e'] + crate::text::decimal(k)
}

/// How many nodes before `i` get a ref.
pub open spec fn ref_count(ms: Seq<NodeModel>, i: int) -> nat
    decreases i,
{
    if i <= 0 {
        0
    } else {
        ref_count(ms, i - 1) + if gets_ref(ms[i - 1]) {
            1nat
        } else {
            0nat
        }
    }
}

/// The nodes with refs assigned in order: `e1`, `e2`, ...
pub open spec fn with_refs(ms: Seq<NodeModel>) -> Seq<NodeModel> {
    Seq::new(
        ms.len(),
        |i: int|
            if gets_ref(ms[i]) {
                NodeModel { ref_id: Some(ref_label(ref_count(ms, i) + 1)), ..ms[i] }
            } else {
                ms[i]
            },
    )
}

/// A ref as plain values: its label, DOM node, role and name.
pub type RefEntry = (Seq<char>, i64, Seq<char>, Seq<char>);

/// The refs of the nodes before `k`, in the order they are assigned.
pub open spec fn ref_entries_upto(ms: Seq<NodeModel>, k: int) -> Seq<RefEntry>
    decreases k,
{
    if k <= 0 {
        seq![]
    } else {
        ref_entries_upto(ms, k - 1) + if gets_ref(ms[k - 1]) {
            seq![
                (
                    ref_label(ref_count(ms, k - 1) + 1),
                    ms[k - 1].backend_node_id->0,
                    ms[k - 1].role,
                    ms[k - 1].name,
                ),
            ]
        } else {
            seq![]
        }
    }
}

/// The refs of all nodes.
pub open spec fn ref_entries(ms: Seq<NodeModel>) -> Seq<RefEntry> {
    ref_entries_upto(ms, ms.len() as int)
}

/// A ref as plain values.
pub open spec fn ref_entry_view(r: (String, SnapshotRef)) -> RefEntry {
    (r.0@, r.1.backend_node_id, r.1.role@, r.1.name@)
}

/// The refs of a list, as plain values.
pub open spec fn ref_list_view(refs: Seq<(String, SnapshotRef)>) -> Seq<RefEntry> {
    refs.map_values(|r: (String, SnapshotRef)| ref_entry_view(r))
}

proof fn lemma_ref_count_bound(ms: Seq<NodeModel>, i: int)
    requires
        0 <= i,
    ensures
        ref_count(ms, i) <= i,
        ref_entries_upto(ms, i).len() == ref_count(ms, i),
    decreases i,
{
    if i > 0 {
        lemma_ref_count_bound(ms, i - 1);
    }
}

fn is_interactive(role: &[char]) -> (r: bool)
    ensures
        r == is_interactive_role(role@),
{
    is_text(role, "button") || is_text(role, "link") || is_text(role, "textbox") || is_text(
        role,
        "checkbox",
    ) || is_text(role, "radio") || is_text(role, "combobox") || is_text(role, "listbox")
        || is_text(role, "menuitem") || is_text(role, "menuitemcheckbox") || is_text(
        role,
        "menuitemradio",
    ) || is_text(role, "option") || is_text(role, "searchbox") || is_text(role, "slider")
        || is_text(role, "spinbutton") || is_text(role, "switch") || is_text(role, "tab")
        || is_text(role, "treeitem") || is_text(role, "Iframe")
}

fn is_content(role: &[char]) -> (r: bool)
    ensures
        r == is_content_role(role@),
{
    is_text(role, "heading") || is_text(role, "cell") || is_text(role, "gridcell") || is_text(
        role,
        "columnheader",
    ) || is_text(role, "rowheader") || is_text(role, "listitem") || is_text(role, "article")
        || is_text(role, "region") || is_text(role, "main") || is_text(role, "navigation")
}

/// Gives a ref to each node that gets one, and lists the refs.
fn assign_refs(nodes: &mut Vec<TreeNode>) -> (refs: Vec<(String, SnapshotRef)>)
    ensures
        models(final(nodes)@) == with_refs(models(old(nodes)@)),
        ref_list_view(refs@) == ref_entries(models(old(nodes)@)),
{
    let ghost ms = models(nodes@);
    let mut refs: Vec<(String, SnapshotRef)> = Vec::new();
    let mut assigned: usize = 0;
    let n = nodes.len();
    let mut i: usize = 0;
    assert(ref_list_view(refs@) =~= ref_entries_upto(ms, 0));
    while i < n
        invariant
            i <= n,
            n == nodes@.len(),
            ms.len() == n,
            assigned == ref_count(ms, i as int),
            forall|j: int| 0 <= j < i ==> #[trigger] models(nodes@)[j] == with_refs(ms)[j],
            forall|j: int| i <= j < n ==> #[trigger] models(nodes@)[j] == ms[j],
            ref_list_view(refs@) == ref_entries_upto(ms, i as int),
        decreases n - i,
    {
        proof {
            lemma_ref_count_bound(ms, i as int);
        }
        assert(models(nodes@)[i as int] == nodes@[i as int].model());
        let should_ref = is_interactive(&nodes[i].role) || (is_content(&nodes[i].role)
            && nodes[i].name.len() > 0);
        match nodes[i].backend_node_id {
            Some(backend_node_id) => {
                if should_ref {
                    let mut label: Vec<char> = Vec::new();
                    label.push('e');
                    crate::text::push_decimal(&mut label, (assigned + 1) as u64);
                    assert(label@ =~= ref_label(ref_count(ms, i as int) + 1));
                    let ghost before = nodes@;
                    let entry = SnapshotRef {
                        backend_node_id,
                        role: string_of(&nodes[i].role),
                        name: string_of(&nodes[i].name),
                    };
                    let label_string = string_of(&label);
                    nodes[i].ref_id = Some(label);
                    let ghost before_refs = refs@;
                    refs.push((label_string, entry));
                    proof {
                        assert forall|j: int| 0 <= j < i + 1 implies #[trigger] models(nodes@)[j]
                            == with_refs(ms)[j] by {
                            assert(models(nodes@)[j] == nodes@[j].model());
                            assert(models(before)[j] == before[j].model());
                            if j < i {
                                assert(nodes@[j] == before[j]);
                            } else {
                                assert(nodes@[j].model() == with_refs(ms)[j]);
                            }
                        }
                        assert forall|j: int| i + 1 <= j < n implies #[trigger] models(nodes@)[j]
                            == ms[j] by {
                            assert(nodes@[j] == before[j]);
                            assert(models(nodes@)[j] == nodes@[j].model());
                            assert(models(before)[j] == before[j].model());
                        }
                        assert(ref_list_view(refs@) =~= ref_list_view(before_refs).push(
                            ref_entry_view((label_string, entry)),
                        ));
                    }
                    assigned = assigned + 1;
                } else {
                    assert(ref_list_view(refs@) =~= ref_entries_upto(ms, i + 1));
                }
            },
            None => {
                assert(ref_list_view(refs@) =~= ref_entries_upto(ms, i + 1));
            },
        }
        i = i + 1;
    }
    assert(models(nodes@) =~= with_refs(ms));
    refs
}

} // verus!

verus! {

// ---------------------------------------------------------------------------
// Rendering

/// Characters that do not show and are dropped from displayed names.
pub open spec fn is_invisible(c: char) -> bool {
    c == '\u{FEFF}' || c == '\u{200B}' || c == '\u{200C}' || c == '\u{200D}' || c == '\u{2060}'
        || c == '\u{00A0}'
}

/// `s` without its invisible characters.
pub open spec fn visible_text(s: Seq<char>) -> Seq<char>
    decreases s.len(),
{
    if s.len() == 0 {
        seq![]
    } else {
        visible_text(s.drop_last()) + if is_invisible(s.last()) {
            seq![]
        } else {
            seq![s.last()]
        }
    }
}

/// A node that prints no line and shows its children in its place: one
/// without a role, a plain `generic` wrapper, or static text that shows nothing.
pub open spec fn passes_through(m: NodeModel) -> bool {
    m.role.len() == 0 || (m.role == "generic"@ && m.ref_id is None && m.children.len() <= 1) || (
    is_static(m) && visible_text(m.name).len() == 0)
}

/// Two spaces per level.
pub open spec fn indent_text(indent: nat) -> Seq<char> {
    Seq::new(2 * indent, |i: int| ' ')
}

/// `key=value` when the value is there.
pub open spec fn value_attr<T>(v: Option<T>, key: Seq<char>, text: spec_fn(T) -> Seq<char>) -> Seq<
    Seq<char>,
> {
    match v {
        Some(x) => seq![key + text(x)],
        None => seq![],
    }
}

/// The bare flag `key` when it is set to true.
pub open spec fn flag_attr(v: Option<bool>, key: Seq<char>) -> Seq<Seq<char>> {
    if v == Some(true) {
        seq![key]
    } else {
        seq![]
    }
}

/// The bracketed attributes of a node, in order.
pub open spec fn attr_list(m: NodeModel) -> Seq<Seq<char>> {
    value_attr(m.level, "level="@, |l: i64| crate::text::signed_decimal(l as int))
        + value_attr(m.checked, "checked="@, |c: Seq<char>| c)
        + value_attr(m.expanded, "expanded="@, |e: bool| bool_text(e))
        + flag_attr(m.selected, "selected"@)
        + flag_attr(m.disabled, "disabled"@)
        + flag_attr(m.required, "required"@)
        + value_attr(m.ref_id, "ref="@, |r: Seq<char>| r)
}

/// The quoted, visible name of a node after a space, if it shows anything.
pub open spec fn name_part(m: NodeModel) -> Seq<char> {
    let shown = visible_text(m.name);
    if shown.len() > 0 {
        " "@ + crate::json::json_string_literal(shown)
    } else {
        seq![]
    }
}

/// The attributes of a node in brackets after a space, if it has any.
pub open spec fn attrs_part(m: NodeModel) -> Seq<char> {
    let attrs = attr_list(m);
    if attrs.len() > 0 {
        " ["@ + crate::text::join(attrs, ", "@) + "]"@
    } else {
        seq![]
    }
}

/// The value of a node after `: `, if it is not empty and differs from the name.
pub open spec fn value_part(m: NodeModel) -> Seq<char> {
    match m.value_text {
        Some(v) => if v.len() > 0 && v != m.name {
            ": "@ + v
        } else {
            seq![]
        },
        None => seq![],
    }
}

/// The line printed for a node, without its line break:
/// `- role "name" [attrs]: value`, indented.
pub open spec fn line_text(m: NodeModel, indent: nat) -> Seq<char> {
    indent_text(indent) + "- "@ + m.role + name_part(m) + attrs_part(m) + value_part(m)
}

/// A ranking that shows the rendering ends: every ranked node has a rank
/// no larger than the number of nodes, and its children are ranked lower.
pub open spec fn valid_rank(ms: Seq<NodeModel>, rank: Seq<nat>) -> bool {
    &&& rank.len() == ms.len()
    &&& forall|i: int| 0 <= i < ms.len() ==> #[trigger] rank[i] <= ms.len()
    &&& forall|i: int, k: int|
        0 <= i < ms.len() && rank[i] > 0 && 0 <= k < ms[i].children.len() ==> {
            let c = #[trigger] ms[i].children[k] as int;
            &&& 0 <= c < ms.len()
            &&& 0 < rank[c] < rank[i]
        }
}

/// The text printed for the node at `idx` and its subtree.
pub open spec fn render_node(
    ms: Seq<NodeModel>,
    rank: Seq<nat>,
    idx: int,
    indent: nat,
    interactive: bool,
    depth: Option<usize>,
) -> Seq<char>
    decreases rank[idx], 1nat, 0nat,
    when valid_rank(ms, rank) && 0 <= idx < ms.len() && rank[idx] > 0
{
    let m = ms[idx];
    if passes_through(m) {
        render_list(ms, rank, idx, 0, indent, interactive, depth)
    } else if depth matches Some(max) && indent > max {
        seq![]
    } else if m.role == "RootWebArea"@ || m.role == "WebArea"@ {
        render_list(ms, rank, idx, 0, indent, interactive, depth)
    } else if interactive && m.ref_id is None {
        render_list(ms, rank, idx, 0, indent, interactive, depth)
    } else {
        line_text(m, indent) + seq!['\n'] + render_list(
            ms,
            rank,
            idx,
            0,
            indent + 1,
            interactive,
            depth,
        )
    }
}

/// The text printed for the children of `parent` from the `k`-th on.
pub open spec fn render_list(
    ms: Seq<NodeModel>,
    rank: Seq<nat>,
    parent: int,
    k: int,
    indent: nat,
    interactive: bool,
    depth: Option<usize>,
) -> Seq<char>
    decreases rank[parent], 0nat, ms[parent].children.len() - k,
    when valid_rank(ms, rank) && 0 <= parent < ms.len() && rank[parent] > 0 && 0 <= k
{
    if k >= ms[parent].children.len() {
        seq![]
    } else {
        render_node(ms, rank, ms[parent].children[k] as int, indent, interactive, depth)
            + render_list(ms, rank, parent, k + 1, indent, interactive, depth)
    }
}

/// The text printed for the roots from the `k`-th on.
pub open spec fn render_roots(
    ms: Seq<NodeModel>,
    rank: Seq<nat>,
    roots: Seq<usize>,
    k: int,
    interactive: bool,
    depth: Option<usize>,
) -> Seq<char>
    decreases roots.len() - k,
{
    if k < 0 || k >= roots.len() {
        seq![]
    } else {
        render_node(ms, rank, roots[k] as int, 0, interactive, depth) + render_roots(
            ms,
            rank,
            roots,
            k + 1,
            interactive,
            depth,
        )
    }
}

fn is_invisible_char(c: char) -> (r: bool)
    ensures
        r == is_invisible(c),
{
    c == '\u{FEFF}' || c == '\u{200B}' || c == '\u{200C}' || c == '\u{200D}' || c == '\u{2060}'
        || c == '\u{00A0}'
}

/// `s` without its invisible characters.
fn visible(s: &Vec<char>) -> (out: Vec<char>)
    ensures
        out@ == visible_text(s@),
{
    let mut out: Vec<char> = Vec::new();
    let mut i: usize = 0;
    while i < s.len()
        invariant
            i <= s@.len(),
            out@ == visible_text(s@.take(i as int)),
        decreases s@.len() - i,
    {
        assert(s@.take(i + 1).drop_last() =~= s@.take(i as int));
        if !is_invisible_char(s[i]) {
            out.push(s[i]);
        }
        i = i + 1;
    }
    assert(s@.take(s@.len() as int) =~= s@);
    out
}

fn push_literal(out: &mut Vec<char>, lit: &str)
    ensures
        final(out)@ == old(out)@ + lit@,
{
    crate::text::push_str(out, lit);
}

fn node_name_part(node: &TreeNode) -> (out: Vec<char>)
    ensures
        out@ == name_part(node.model()),
{
    let mut out: Vec<char> = Vec::new();
    let shown = visible(&node.name);
    if shown.len() > 0 {
        let shown_string = string_of(&shown);
        match crate::json::quote_json_string(shown_string.as_str()) {
            Some(quoted) => {
                push_literal(&mut out, " ");
                crate::text::push_str(&mut out, quoted.as_str());
            },
            None => {},
        }
    }
    out
}

fn push_attr(attrs: &mut Vec<Vec<char>>, key: &str, value: &[char])
    ensures
        final(attrs)@.map_values(|a: Vec<char>| a@) == old(attrs)@.map_values(|a: Vec<char>| a@).push(
            key@ + value@,
        ),
{
    let mut a: Vec<char> = Vec::new();
    push_literal(&mut a, key);
    push_all(&mut a, value);
    attrs.push(a);
    assert(attrs@.map_values(|a: Vec<char>| a@) =~= old(attrs)@.map_values(|a: Vec<char>| a@).push(
        key@ + value@,
    ));
}

fn push_flag(attrs: &mut Vec<Vec<char>>, v: Option<bool>, key: &str)
    ensures
        final(attrs)@.map_values(|a: Vec<char>| a@) == old(attrs)@.map_values(|a: Vec<char>| a@)
            + flag_attr(v, key@),
{
    if v == Some(true) {
        let empty: Vec<char> = Vec::new();
        push_attr(attrs, key, &empty);
        assert(key@ + empty@ =~= key@);
    }
    assert(final(attrs)@.map_values(|a: Vec<char>| a@) =~= old(attrs)@.map_values(
        |a: Vec<char>| a@,
    ) + flag_attr(v, key@));
}

#[verifier::rlimit(30)]
fn node_attrs(node: &TreeNode) -> (attrs: Vec<Vec<char>>)
    ensures
        attrs@.map_values(|a: Vec<char>| a@) == attr_list(node.model()),
{
    let ghost m = node.model();
    let mut attrs: Vec<Vec<char>> = Vec::new();
    match node.level {
        Some(level) => {
            let mut v: Vec<char> = Vec::new();
            crate::text::push_signed_decimal(&mut v, level);
            push_attr(&mut attrs, "level=", &v);
        },
        None => {},
    }
    let ghost s1 = attrs@.map_values(|a: Vec<char>| a@);
    assert(s1 =~= value_attr(m.level, "level="@, |l: i64| crate::text::signed_decimal(l as int)));
    match &node.checked {
        Some(c) => push_attr(&mut attrs, "checked=", c),
        None => {},
    }
    let ghost s2 = attrs@.map_values(|a: Vec<char>| a@);
    assert(s2 =~= s1 + value_attr(m.checked, "checked="@, |c: Seq<char>| c));
    match node.expanded {
        Some(e) => {
            let v = chars_of(if e { "true" } else { "false" });
            push_attr(&mut attrs, "expanded=", &v);
        },
        None => {},
    }
    let ghost s3 = attrs@.map_values(|a: Vec<char>| a@);
    assert(s3 =~= s2 + value_attr(m.expanded, "expanded="@, |e: bool| bool_text(e)));
    push_flag(&mut attrs, node.selected, "selected");
    push_flag(&mut attrs, node.disabled, "disabled");
    push_flag(&mut attrs, node.required, "required");
    let ghost s6 = attrs@.map_values(|a: Vec<char>| a@);
    match &node.ref_id {
        Some(r) => push_attr(&mut attrs, "ref=", r),
        None => {},
    }
    assert(attrs@.map_values(|a: Vec<char>| a@) =~= s6 + value_attr(
        m.ref_id,
        "ref="@,
        |r: Seq<char>| r,
    ));
    attrs
}

fn node_attrs_part(node: &TreeNode) -> (out: Vec<char>)
    ensures
        out@ == attrs_part(node.model()),
{
    let attrs = node_attrs(node);
    let mut out: Vec<char> = Vec::new();
    if attrs.len() > 0 {
        push_literal(&mut out, " [");
        let joined = join_pieces(&attrs, ", ");
        push_all(&mut out, &joined);
        push_literal(&mut out, "]");
    }
    out
}

fn node_value_part(node: &TreeNode) -> (out: Vec<char>)
    ensures
        out@ == value_part(node.model()),
{
    let mut out: Vec<char> = Vec::new();
    match &node.value_text {
        Some(v) => {
            if v.len() > 0 && !chars_eq(v, &node.name) {
                push_literal(&mut out, ": ");
                push_all(&mut out, v);
            }
        },
        None => {},
    }
    out
}

/// The line printed for a node (without its line break).
fn node_line(node: &TreeNode, indent: usize) -> (line: Vec<char>)
    ensures
        line@ == line_text(node.model(), indent as nat),
{
    let mut line: Vec<char> = Vec::new();
    let mut i: usize = 0;
    while i < indent
        invariant
            i <= indent,
            line@ == indent_text(i as nat),
        decreases indent - i,
    {
        line.push(' ');
        line.push(' ');
        i = i + 1;
        assert(line@ =~= indent_text(i as nat));
    }
    push_literal(&mut line, "- ");
    push_all(&mut line, &node.role);
    let name = node_name_part(node);
    push_all(&mut line, &name);
    let attrs = node_attrs_part(node);
    push_all(&mut line, &attrs);
    let value = node_value_part(node);
    push_all(&mut line, &value);
    line
}

/// `pieces` joined with `sep` between them.
fn join_pieces(pieces: &Vec<Vec<char>>, sep: &str) -> (out: Vec<char>)
    ensures
        out@ == crate::text::join(pieces@.map_values(|a: Vec<char>| a@), sep@),
{
    let ghost views = pieces@.map_values(|a: Vec<char>| a@);
    let mut out: Vec<char> = Vec::new();
    let mut i: usize = 0;
    while i < pieces.len()
        invariant
            i <= pieces@.len(),
            views == pieces@.map_values(|a: Vec<char>| a@),
            out@ == crate::text::join(views.take(i as int), sep@),
        decreases pieces@.len() - i,
    {
        assert(views.take(i + 1).drop_last() =~= views.take(i as int));
        assert(views.take(i + 1).last() == pieces@[i as int]@);
        if i > 0 {
            push_literal(&mut out, sep);
        } else {
            assert(views.take(0) =~= Seq::<Seq<char>>::empty());
        }
        push_all(&mut out, &pieces[i]);
        i = i + 1;
    }
    assert(views.take(pieces@.len() as int) =~= views);
    out
}

} // verus!

verus! {

/// Appends the text printed for the node at `idx` and its subtree.
fn render_tree(
    nodes: &Vec<TreeNode>,
    idx: usize,
    indent: usize,
    output: &mut Vec<char>,
    options: &SnapshotOptions,
    Ghost(rank): Ghost<Seq<nat>>,
)
    requires
        valid_rank(models(nodes@), rank),
        idx < nodes@.len(),
        rank[idx as int] > 0,
        indent + rank[idx as int] <= usize::MAX,
    ensures
        final(output)@ == old(output)@ + render_node(
            models(nodes@),
            rank,
            idx as int,
            indent as nat,
            options.interactive,
            options.depth,
        ),
    decreases rank[idx as int], 1nat,
{
    let ghost ms = models(nodes@);
    let node = &nodes[idx];
    assert(ms[idx as int] == node.model());
    let pass = node.role.len() == 0 || (is_text(&node.role, "generic") && node.ref_id.is_none()
        && node.children.len() <= 1) || (is_text(&node.role, "StaticText") && visible(
        &node.name,
    ).len() == 0);
    if pass {
        render_children(nodes, idx, indent, output, options, Ghost(rank));
        return;
    }
    match options.depth {
        Some(max_depth) => {
            if indent > max_depth {
                assert(old(output)@ + Seq::<char>::empty() =~= old(output)@);
                return;
            }
        },
        None => {},
    }
    if is_text(&node.role, "RootWebArea") || is_text(&node.role, "WebArea") {
        render_children(nodes, idx, indent, output, options, Ghost(rank));
        return;
    }
    if options.interactive && node.ref_id.is_none() {
        render_children(nodes, idx, indent, output, options, Ghost(rank));
        return;
    }
    let line = node_line(node, indent);
    push_all(output, &line);
    output.push('\n');
    render_children(nodes, idx, indent + 1, output, options, Ghost(rank));
    assert(output@ =~= old(output)@ + render_node(
        ms,
        rank,
        idx as int,
        indent as nat,
        options.interactive,
        options.depth,
    ));
}

/// Appends the text printed for the children of `parent`.
fn render_children(
    nodes: &Vec<TreeNode>,
    parent: usize,
    indent: usize,
    output: &mut Vec<char>,
    options: &SnapshotOptions,
    Ghost(rank): Ghost<Seq<nat>>,
)
    requires
        valid_rank(models(nodes@), rank),
        parent < nodes@.len(),
        rank[parent as int] > 0,
        indent + rank[parent as int] <= usize::MAX + 1,
    ensures
        final(output)@ == old(output)@ + render_list(
            models(nodes@),
            rank,
            parent as int,
            0,
            indent as nat,
            options.interactive,
            options.depth,
        ),
    decreases rank[parent as int], 0nat,
{
    let ghost ms = models(nodes@);
    assert(ms[parent as int] == nodes@[parent as int].model());
    let count = nodes[parent].children.len();
    let mut k: usize = 0;
    while k < count
        invariant
            ms == models(nodes@),
            valid_rank(ms, rank),
            parent < nodes@.len(),
            rank[parent as int] > 0,
            indent + rank[parent as int] <= usize::MAX + 1,
            count == ms[parent as int].children.len(),
            ms[parent as int].children == nodes@[parent as int].children@,
            k <= count,
            old(output)@ + render_list(
                ms,
                rank,
                parent as int,
                0,
                indent as nat,
                options.interactive,
                options.depth,
            ) == output@ + render_list(
                ms,
                rank,
                parent as int,
                k as int,
                indent as nat,
                options.interactive,
                options.depth,
            ),
        decreases count - k,
    {
        let c = nodes[parent].children[k];
        assert(c == ms[parent as int].children[k as int]);
        let ghost before = output@;
        render_tree(nodes, c, indent, output, options, Ghost(rank));
        k = k + 1;
        assert(before + render_list(
            ms,
            rank,
            parent as int,
            (k - 1) as int,
            indent as nat,
            options.interactive,
            options.depth,
        ) =~= output@ + render_list(
            ms,
            rank,
            parent as int,
            k as int,
            indent as nat,
            options.interactive,
            options.depth,
        ));
    }
    assert(output@ + render_list(
        ms,
        rank,
        parent as int,
        count as int,
        indent as nat,
        options.interactive,
        options.depth,
    ) =~= output@);
}

} // verus!

verus! {

// ---------------------------------------------------------------------------
// Compact trees

/// The depth of a rendered line: the bytes of its leading whitespace, halved.
pub open spec fn indent_width(l: Seq<char>) -> nat {
    crate::text::utf8_len_seq(l.take(crate::text::leading_ws(l) as int)) / 2
}

/// A line that shows a ref or a value.
pub open spec fn marked_line(l: Seq<char>) -> bool {
    crate::text::contains(l, "ref="@) || crate::text::contains(l, ": "@)
}

/// The marked line `i` keeps the line `a` above it: `a` is less indented,
/// and no line in between is at depth zero.
pub open spec fn kept_by(ls: Seq<Seq<char>>, i: int, a: int) -> bool {
    &&& 0 <= a < i < ls.len()
    &&& marked_line(ls[i])
    &&& indent_width(ls[a]) < indent_width(ls[i])
    &&& forall|k: int| a < k < i ==> indent_width(#[trigger] ls[k]) != 0
}

/// A line that a compact tree keeps.
pub open spec fn keeps(ls: Seq<Seq<char>>, a: int) -> bool {
    marked_line(ls[a]) || exists|i: int| #[trigger] kept_by(ls, i, a)
}

/// The kept lines before `k`, in order.
pub open spec fn kept_upto(ls: Seq<Seq<char>>, k: int) -> Seq<Seq<char>>
    decreases k,
{
    if k <= 0 {
        seq![]
    } else {
        kept_upto(ls, k - 1) + if keeps(ls, k - 1) {
            seq![ls[k - 1]]
        } else {
            seq![]
        }
    }
}

/// A compact tree: the kept lines joined by line breaks; when nothing but
/// whitespace is left of an interactive tree, a note that says so.
pub open spec fn compact_text(tree: Seq<char>, interactive: bool) -> Seq<char> {
    let ls = crate::text::lines(tree);
    let out = crate::text::join(kept_upto(ls, ls.len() as int), seq!['\n']);
    if crate::text::trim(out).len() == 0 && interactive {
        "(no interactive elements)"@
    } else {
        out
    }
}

proof fn lemma_utf8_prefix(s: Seq<char>, k: int)
    requires
        0 <= k <= s.len(),
    ensures
        crate::text::utf8_len_seq(s.take(k)) <= crate::text::utf8_len_seq(s),
{
    assert(s =~= s.take(k) + s.skip(k));
    crate::text::lemma_utf8_len_concat(s.take(k), s.skip(k));
}

/// The depth of a rendered line: the bytes of its leading whitespace, halved.
pub fn count_indent(line: &str) -> (n: usize)
    ensures
        n == indent_width(line@),
{
    let chars = chars_of(line);
    let total = line.as_bytes().len();
    let bytes = crate::text::leading_ws_bytes(&chars);
    proof {
        crate::text::lemma_leading_ws_bound(line@);
        lemma_utf8_prefix(line@, crate::text::leading_ws(line@) as int);
        crate::text::lemma_utf8_len_encode(line@);
    }
    (bytes / 2) as usize
}

fn line_indent(line: &Vec<char>) -> (n: u128)
    ensures
        n == indent_width(line@),
{
    crate::text::leading_ws_bytes(line) / 2
}

/// Keeps the lines that show a ref or a value, and the less indented lines
/// above each of them up to one at depth zero.
pub fn compact_tree(tree: &str, interactive: bool) -> (out: String)
    ensures
        out@ == compact_text(tree@, interactive),
{
    let chars = chars_of(tree);
    let lines = crate::text::split_lines(&chars);
    let ghost ls = crate::text::lines(tree@);
    let n = lines.len();
    let mut ind: Vec<u128> = Vec::new();
    let mut mark: Vec<bool> = Vec::new();
    let mut keep: Vec<bool> = Vec::new();
    let mut i: usize = 0;
    while i < n
        invariant
            i <= n,
            n == lines@.len(),
            n == ls.len(),
            forall|j: int| 0 <= j < n ==> (#[trigger] lines@[j])@ == ls[j],
            ind@.len() == i,
            mark@.len() == i,
            keep@.len() == i,
            forall|j: int| 0 <= j < i ==> #[trigger] ind@[j] == indent_width(ls[j]),
            forall|j: int| 0 <= j < i ==> #[trigger] mark@[j] == marked_line(ls[j]),
            forall|j: int| 0 <= j < i ==> !#[trigger] keep@[j],
        decreases n - i,
    {
        ind.push(line_indent(&lines[i]));
        let m = crate::text::contains_exec(&lines[i], "ref=") || crate::text::contains_exec(
            &lines[i],
            ": ",
        );
        mark.push(m);
        keep.push(false);
        i = i + 1;
    }
    let mut idx: usize = 0;
    while idx < n
        invariant
            idx <= n,
            n == ls.len(),
            ind@.len() == n,
            mark@.len() == n,
            keep@.len() == n,
            forall|j: int| 0 <= j < n ==> #[trigger] ind@[j] == indent_width(ls[j]),
            forall|j: int| 0 <= j < n ==> #[trigger] mark@[j] == marked_line(ls[j]),
            forall|a: int|
                0 <= a < n ==> (#[trigger] keep@[a] <==> ((a < idx && marked_line(ls[a])) || exists|
                    i: int,
                | i < idx && #[trigger] kept_by(ls, i, a))),
        decreases n - idx,
    {
        if mark[idx] {
            keep.set(idx, true);
            let ghost before = keep@;
            let width = ind[idx];
            let mut anc: usize = idx;
            let mut stopped = false;
            while anc > 0 && !stopped
                invariant
                    idx < n,
                    n == ls.len(),
                    ind@.len() == n,
                    keep@.len() == n,
                    before.len() == n,
                    width == ind@[idx as int],
                    marked_line(ls[idx as int]),
                    forall|j: int| 0 <= j < n ==> #[trigger] ind@[j] == indent_width(ls[j]),
                    anc <= idx,
                    forall|a: int|
                        0 <= a < n ==> (#[trigger] keep@[a] <==> (before[a] || (anc <= a < idx
                            && kept_by(ls, idx as int, a)))),
                    stopped ==> anc < idx && ind@[anc as int] == 0 && width > 0,
                    forall|k: int|
                        anc <= k < idx && !(stopped && k == anc) ==> !(#[trigger] ind@[k] == 0
                            && width > 0),
                decreases anc,
            {
                anc = anc - 1;
                let a_width = ind[anc];
                if a_width < width {
                    let ghost prev = keep@;
                    keep.set(anc, true);
                    proof {
                        assert forall|k: int| anc < k < idx implies indent_width(#[trigger] ls[k])
                            != 0 by {
                            assert(ind@[k] == indent_width(ls[k]));
                        }
                        assert(kept_by(ls, idx as int, anc as int));
                    }
                    if a_width == 0 {
                        stopped = true;
                    }
                } else {
                    proof {
                        assert(!kept_by(ls, idx as int, anc as int));
                    }
                }
            }
            proof {
                assert forall|a: int| 0 <= a < n implies (#[trigger] keep@[a] <==> (before[a]
                    || kept_by(ls, idx as int, a))) by {
                    if a < anc && kept_by(ls, idx as int, a) {
                        if stopped {
                            assert(indent_width(ls[anc as int]) == 0);
                        }
                    }
                }
            }
        }
        proof {
            assert forall|a: int| 0 <= a < n implies (#[trigger] keep@[a] <==> ((a < idx + 1
                && marked_line(ls[a])) || exists|i: int|
                i < idx + 1 && #[trigger] kept_by(ls, i, a))) by {
                if exists|i: int| i < idx + 1 && #[trigger] kept_by(ls, i, a) {
                    let i = choose|i: int| i < idx + 1 && #[trigger] kept_by(ls, i, a);
                    if i == idx {
                        assert(mark@[idx as int]);
                    }
                }
            }
        }
        idx = idx + 1;
    }
    let mut out: Vec<char> = Vec::new();
    let mut count: usize = 0;
    let mut j: usize = 0;
    while j < n
        invariant
            j <= n,
            n == ls.len(),
            n == lines@.len(),
            forall|x: int| 0 <= x < n ==> (#[trigger] lines@[x])@ == ls[x],
            keep@.len() == n,
            forall|a: int| 0 <= a < n ==> #[trigger] keep@[a] == keeps(ls, a),
            count == kept_upto(ls, j as int).len(),
            count <= j,
            out@ == crate::text::join(kept_upto(ls, j as int), seq!['\n']),
        decreases n - j,
    {
        let ghost prev = kept_upto(ls, j as int);
        if keep[j] {
            let ghost cur = prev + seq![ls[j as int]];
            assert(kept_upto(ls, j + 1) == cur);
            assert(cur.drop_last() =~= prev);
            if count > 0 {
                out.push('\n');
            }
            push_all(&mut out, &lines[j]);
            count = count + 1;
            assert(out@ =~= crate::text::join(cur, seq!['\n']));
        } else {
            assert(kept_upto(ls, j + 1) =~= prev);
        }
        j = j + 1;
    }
    let trimmed = crate::text::trim_chars(&out);
    if trimmed.len() == 0 && interactive {
        return String::from_str("(no interactive elements)");
    }
    string_of(&out)
}

} // verus!

verus! {

// ---------------------------------------------------------------------------
// Snapshots

/// A ranking under which every root is ranked: rendering from the roots ends.
pub open spec fn ranked_tree(ms: Seq<NodeModel>, rank: Seq<nat>) -> bool {
    &&& valid_rank(ms, rank)
    &&& forall|r: int| 0 <= r < roots(ms).len() ==> rank[#[trigger] roots(ms)[r] as int] > 0
}

/// No cycle of children can be reached from a root of the tree built from
/// `nodes`, so that walking it from the roots ends.
pub open spec fn walk_ends(nodes: Seq<AxNode>) -> bool {
    exists|rank: Seq<nat>| ranked_tree(tree_model(nodes), rank)
}

/// The ranking used to render the tree built from `nodes`.
pub open spec fn snapshot_rank(nodes: Seq<AxNode>) -> Seq<nat> {
    choose|rank: Seq<nat>| ranked_tree(tree_model(nodes), rank)
}

/// The text printed for all roots of the tree built from `nodes`, refs assigned.
pub open spec fn rendered_tree(nodes: Seq<AxNode>, interactive: bool, depth: Option<usize>) -> Seq<
    char,
> {
    let tm = tree_model(nodes);
    render_roots(with_refs(tm), snapshot_rank(nodes), roots(tm), 0, interactive, depth)
}

/// The snapshot text: the rendered tree, compacted when asked, trimmed; a
/// note when nothing is left.
pub open spec fn snapshot_text(nodes: Seq<AxNode>, options: SnapshotOptions) -> Seq<char> {
    let raw = rendered_tree(nodes, options.interactive, options.depth);
    let shaped = if options.compact {
        compact_text(raw, options.interactive)
    } else {
        raw
    };
    let trimmed = crate::text::trim(shaped);
    if trimmed.len() == 0 {
        if options.interactive {
            "(no interactive elements)"@
        } else {
            "(empty page)"@
        }
    } else {
        trimmed
    }
}

proof fn lemma_refs_keep_rank(ms: Seq<NodeModel>, rank: Seq<nat>)
    requires
        valid_rank(ms, rank),
    ensures
        valid_rank(with_refs(ms), rank),
{
    let w = with_refs(ms);
    assert forall|i: int| 0 <= i < w.len() implies w[i].children == ms[i].children by {}
}

/// Renders the accessibility tree as an indented text snapshot and lists
/// the refs given to interactive and named content nodes.
pub fn format_snapshot(nodes: &[AxNode], options: &SnapshotOptions) -> (r: Result<
    FormattedSnapshot,
    String,
>)
    requires
        walk_ends(nodes@),
    ensures
        r matches Ok(s) && s.output@ == snapshot_text(nodes@, *options) && ref_list_view(s.refs@)
            == ref_entries(tree_model(nodes@)),
{
    let ghost rank = snapshot_rank(nodes@);
    let count = nodes.len();
    let (mut tree, root_indices) = build_tree(nodes);
    let ghost tm = tree_model(nodes@);
    proof {
        lemma_tree_model_shape(nodes@);
        lemma_roots_bound(tm, tm.len() as int);
    }
    let refs = assign_refs(&mut tree);
    let ghost ms = models(tree@);
    proof {
        lemma_refs_keep_rank(tm, rank);
    }
    let mut output: Vec<char> = Vec::new();
    let mut k: usize = 0;
    while k < root_indices.len()
        invariant
            ms == models(tree@),
            ms == with_refs(tm),
            ranked_tree(tm, rank),
            valid_rank(ms, rank),
            root_indices@ == roots(tm),
            forall|r: int| 0 <= r < root_indices@.len() ==> #[trigger] root_indices@[r] < tm.len(),
            tm.len() == tree@.len(),
            tm.len() == count,
            k <= root_indices@.len(),
            render_roots(ms, rank, root_indices@, 0, options.interactive, options.depth)
                == output@ + render_roots(
                ms,
                rank,
                root_indices@,
                k as int,
                options.interactive,
                options.depth,
            ),
        decreases root_indices@.len() - k,
    {
        let root = root_indices[k];
        assert(rank[roots(tm)[k as int] as int] > 0);
        assert(ms.len() == tm.len());
        assert(rank[root as int] <= ms.len());
        render_tree(&tree, root, 0, &mut output, options, Ghost(rank));
        k = k + 1;
    }
    let mut text = string_of(&output);
    if options.compact {
        text = compact_tree(text.as_str(), options.interactive);
    }
    let shaped = chars_of(text.as_str());
    let trimmed = crate::text::trim_chars(&shaped);
    let out = if trimmed.len() == 0 {
        if options.interactive {
            String::from_str("(no interactive elements)")
        } else {
            String::from_str("(empty page)")
        }
    } else {
        string_of(&trimmed)
    };
    Ok(FormattedSnapshot { output: out, refs })
}

} // verus!

verus! {

// ---------------------------------------------------------------------------
// Laws of refs

/// Refs are numbered `e1`, `e2`, ... in the order of the nodes: the `k`-th
/// ref listed (from zero) is `e` followed by `k + 1`.
pub proof fn lemma_ref_labels_consecutive(ms: Seq<NodeModel>)
    ensures
        forall|k: int|
            0 <= k < ref_entries(ms).len() ==> (#[trigger] ref_entries(ms)[k]).0 == ref_label(
                (k + 1) as nat,
            ),
{
    lemma_ref_labels_upto(ms, ms.len() as int);
}

proof fn lemma_ref_labels_upto(ms: Seq<NodeModel>, n: int)
    requires
        0 <= n,
    ensures
        forall|k: int|
            0 <= k < ref_entries_upto(ms, n).len() ==> (#[trigger] ref_entries_upto(ms, n)[k]).0
                == ref_label((k + 1) as nat),
    decreases n,
{
    lemma_ref_count_bound(ms, n);
    if n > 0 {
        lemma_ref_labels_upto(ms, n - 1);
        lemma_ref_count_bound(ms, n - 1);
        let prev = ref_entries_upto(ms, n - 1);
        assert forall|k: int|
            0 <= k < ref_entries_upto(ms, n).len() implies (#[trigger] ref_entries_upto(
            ms,
            n,
        )[k]).0 == ref_label((k + 1) as nat) by {
            if k < prev.len() {
                assert(ref_entries_upto(ms, n)[k] == prev[k]);
            }
        }
    }
}

/// No label occurs twice among `rs`.
pub open spec fn distinct_labels(rs: Seq<RefEntry>) -> bool {
    forall|i: int, j: int| 0 <= i < j < rs.len() ==> #[trigger] rs[i].0 != #[trigger] rs[j].0
}

/// A snapshot never lists a label twice.
pub proof fn lemma_snapshot_labels_distinct(ms: Seq<NodeModel>)
    ensures
        distinct_labels(ref_entries(ms)),
{
    lemma_ref_labels_consecutive(ms);
    let es = ref_entries(ms);
    assert forall|i: int, j: int| 0 <= i < j < es.len() implies #[trigger] es[i].0
        != #[trigger] es[j].0 by {
        if es[i].0 == es[j].0 {
            lemma_ref_label_injective((i + 1) as nat, (j + 1) as nat);
        }
    }
}

/// Whether no label occurs twice among `refs`.
pub fn labels_distinct(refs: &Vec<(String, SnapshotRef)>) -> (r: bool)
    ensures
        r == distinct_labels(ref_list_view(refs@)),
{
    let ghost rs = ref_list_view(refs@);
    let n = refs.len();
    let mut j: usize = 0;
    while j < n
        invariant
            n == refs@.len(),
            rs == ref_list_view(refs@),
            j <= n,
            forall|a: int, b: int| 0 <= a < b < j ==> #[trigger] rs[a].0 != #[trigger] rs[b].0,
        decreases n - j,
    {
        let lj = chars_of(refs[j].0.as_str());
        let mut i: usize = 0;
        while i < j
            invariant
                n == refs@.len(),
                rs == ref_list_view(refs@),
                i <= j < n,
                lj@ == rs[j as int].0,
                forall|a: int, b: int| 0 <= a < b < j ==> #[trigger] rs[a].0 != #[trigger] rs[b].0,
                forall|a: int| 0 <= a < i ==> #[trigger] rs[a].0 != rs[j as int].0,
            decreases j - i,
        {
            let li = chars_of(refs[i].0.as_str());
            assert(li@ == rs[i as int].0);
            if chars_eq(&li, &lj) {
                return false;
            }
            i = i + 1;
        }
        j = j + 1;
    }
    true
}

/// Two refs with the same number are the same ref.
pub proof fn lemma_ref_label_injective(a: nat, b: nat)
    requires
        ref_label(a) == ref_label(b),
    ensures
        a == b,
{
    assert(ref_label(a).drop_first() =~= crate::text::decimal(a));
    assert(ref_label(b).drop_first() =~= crate::text::decimal(b));
    crate::text::lemma_decimal_injective(a, b);
}


/// The entry that the node `i` adds to the refs, when it gets one.
spec fn node_entry(ms: Seq<NodeModel>, i: int) -> RefEntry {
    (ref_label(ref_count(ms, i) + 1), ms[i].backend_node_id->0, ms[i].role, ms[i].name)
}

proof fn lemma_entry_of_node(ms: Seq<NodeModel>, n: int, i: int)
    requires
        0 <= i < n <= ms.len(),
        gets_ref(ms[i]),
    ensures
        ref_count(ms, i) < ref_entries_upto(ms, n).len(),
        ref_entries_upto(ms, n)[ref_count(ms, i) as int] == node_entry(ms, i),
    decreases n,
{
    lemma_ref_count_bound(ms, n - 1);
    lemma_ref_count_bound(ms, i);
    if i < n - 1 {
        lemma_entry_of_node(ms, n - 1, i);
    }
}

proof fn lemma_node_of_entry(ms: Seq<NodeModel>, n: int, k: int) -> (i: int)
    requires
        0 <= n <= ms.len(),
        0 <= k < ref_entries_upto(ms, n).len(),
    ensures
        0 <= i < n,
        gets_ref(ms[i]),
        ref_count(ms, i) == k,
        ref_entries_upto(ms, n)[k] == node_entry(ms, i),
    decreases n,
{
    lemma_ref_count_bound(ms, n - 1);
    if n <= 0 {
        assert(false);
        0
    } else if k < ref_entries_upto(ms, n - 1).len() {
        lemma_node_of_entry(ms, n - 1, k)
    } else {
        n - 1
    }
}

/// `e` is the ref of one of the nodes: that node shows the label of `e`,
/// and `e` names the node's DOM node, role and name.
pub open spec fn is_node_ref(ms: Seq<NodeModel>, e: RefEntry) -> bool {
    exists|i: int|
        #![trigger with_refs(ms)[i]]
        0 <= i < ms.len() && gets_ref(ms[i]) && with_refs(ms)[i].ref_id == Some(e.0) && e.1
            == ms[i].backend_node_id->0 && e.2 == ms[i].role && e.3 == ms[i].name
}

/// The refs listed are exactly the refs shown on the nodes: a node that
/// shows a ref has an entry under that label naming its DOM node, role and
/// name, and every entry is such a node's.
pub proof fn lemma_refs_match_nodes(ms: Seq<NodeModel>)
    ensures
        forall|i: int|
            #![trigger with_refs(ms)[i]]
            0 <= i < ms.len() && gets_ref(ms[i]) ==> exists|k: int|
                #![trigger ref_entries(ms)[k]]
                0 <= k < ref_entries(ms).len() && with_refs(ms)[i].ref_id == Some(
                    ref_entries(ms)[k].0,
                ) && ref_entries(ms)[k].1 == ms[i].backend_node_id->0 && ref_entries(ms)[k].2
                    == ms[i].role && ref_entries(ms)[k].3 == ms[i].name,
        forall|k: int|
            0 <= k < ref_entries(ms).len() ==> #[trigger] is_node_ref(ms, ref_entries(ms)[k]),
{
    let n = ms.len() as int;
    assert forall|i: int| 0 <= i < ms.len() && gets_ref(ms[i]) implies exists|k: int|
        #![trigger ref_entries(ms)[k]]
        0 <= k < ref_entries(ms).len() && (#[trigger] with_refs(ms)[i]).ref_id == Some(
            ref_entries(ms)[k].0,
        ) && ref_entries(ms)[k].1 == ms[i].backend_node_id->0 && ref_entries(ms)[k].2
            == ms[i].role && ref_entries(ms)[k].3 == ms[i].name by {
        lemma_entry_of_node(ms, n, i);
        let k = ref_count(ms, i) as int;
        assert(ref_entries(ms)[k] == node_entry(ms, i));
        assert(with_refs(ms)[i].ref_id == Some(ref_entries(ms)[k].0));
    }
    assert forall|k: int| 0 <= k < ref_entries(ms).len() implies #[trigger] is_node_ref(
        ms,
        ref_entries(ms)[k],
    ) by {
        let i = lemma_node_of_entry(ms, n, k);
        assert(with_refs(ms)[i].ref_id == Some(ref_entries(ms)[k].0));
    }
}

} // verus!

verus! {

/// A snapshot always says something: when nothing is left to show, a note
/// takes its place.
pub proof fn lemma_snapshot_not_empty(nodes: Seq<AxNode>, options: SnapshotOptions)
    ensures
        snapshot_text(nodes, options).len() > 0,
{
    reveal_strlit("(no interactive elements)");
    reveal_strlit("(empty page)");
}

proof fn lemma_kept_count_grows(ls: Seq<Seq<char>>, a: int, b: int)
    requires
        0 <= a <= b <= ls.len(),
    ensures
        kept_upto(ls, a).len() <= kept_upto(ls, b).len(),
        a < b && keeps(ls, a) ==> kept_upto(ls, a).len() < kept_upto(ls, b).len(),
    decreases b - a,
{
    if a < b {
        lemma_kept_count_grows(ls, a, b - 1);
        if a == b - 1 {
        }
    }
}

proof fn lemma_kept_at(ls: Seq<Seq<char>>, k: int, a: int)
    requires
        0 <= a < k <= ls.len(),
        keeps(ls, a),
    ensures
        kept_upto(ls, a).len() < kept_upto(ls, k).len(),
        kept_upto(ls, k)[kept_upto(ls, a).len() as int] == ls[a],
    decreases k,
{
    lemma_kept_count_grows(ls, a, k);
    if a < k - 1 {
        lemma_kept_at(ls, k - 1, a);
        lemma_kept_count_grows(ls, a + 1, k - 1);
    }
}

proof fn lemma_kept_source(ls: Seq<Seq<char>>, k: int, j: int) -> (a: int)
    requires
        0 <= k <= ls.len(),
        0 <= j < kept_upto(ls, k).len(),
    ensures
        0 <= a < k,
        keeps(ls, a),
        kept_upto(ls, a).len() == j,
        kept_upto(ls, k)[j] == ls[a],
    decreases k,
{
    if k <= 0 {
        assert(false);
        0
    } else if j < kept_upto(ls, k - 1).len() {
        let a = lemma_kept_source(ls, k - 1, j);
        assert(kept_upto(ls, k)[j] == kept_upto(ls, k - 1)[j]);
        a
    } else {
        k - 1
    }
}

proof fn lemma_kept_line_kept_again(ls: Seq<Seq<char>>, j: int)
    requires
        0 <= j < kept_upto(ls, ls.len() as int).len(),
    ensures
        keeps(kept_upto(ls, ls.len() as int), j),
{
    let n = ls.len() as int;
    let kl = kept_upto(ls, n);
    let a = lemma_kept_source(ls, n, j);
    if !marked_line(ls[a]) {
        let i = choose|i: int| #[trigger] kept_by(ls, i, a);
        assert(keeps(ls, i));
        lemma_kept_at(ls, n, i);
        lemma_kept_count_grows(ls, a, i);
        let j2 = kept_upto(ls, i).len() as int;
        assert forall|k: int| j < k < j2 implies indent_width(#[trigger] kl[k]) != 0 by {
            let b = lemma_kept_source(ls, n, k);
            if b <= a {
                lemma_kept_count_grows(ls, b, a);
            }
            if b >= i {
                lemma_kept_count_grows(ls, i, b);
            }
            assert(a < b < i);
        }
        assert(kept_by(kl, j2, j));
    }
}

proof fn lemma_all_kept(ls: Seq<Seq<char>>, m: int)
    requires
        0 <= m <= ls.len(),
        forall|j: int| 0 <= j < ls.len() ==> #[trigger] keeps(ls, j),
    ensures
        kept_upto(ls, m) == ls.take(m),
    decreases m,
{
    if m > 0 {
        lemma_all_kept(ls, m - 1);
        assert(keeps(ls, m - 1));
        assert(ls.take(m) =~= ls.take(m - 1) + seq![ls[m - 1]]);
    }
}

/// The `j`-th kept line of `ls` is a kept line `a` of `ls`, with `j` kept
/// lines before it.
pub open spec fn kept_line_source(ls: Seq<Seq<char>>, j: int) -> bool {
    exists|a: int|
        #![trigger kept_upto(ls, a)]
        0 <= a < ls.len() && keeps(ls, a) && kept_upto(ls, a).len() == j && kept_upto(
            ls,
            ls.len() as int,
        )[j] == ls[a]
}

/// The kept lines are the lines that compaction keeps, in their order:
/// writing `pos(a)` for the number of kept lines before line `a`, a kept
/// line `a` is the kept line at `pos(a)`; each kept line is such a line;
/// and `pos` never falls, rising past each kept line.
pub proof fn lemma_kept_subsequence(ls: Seq<Seq<char>>)
    ensures
        forall|a: int|
            #![trigger kept_upto(ls, a)]
            0 <= a < ls.len() && keeps(ls, a) ==> kept_upto(ls, a).len() < kept_upto(
                ls,
                ls.len() as int,
            ).len() && kept_upto(ls, ls.len() as int)[kept_upto(ls, a).len() as int] == ls[a],
        forall|j: int|
            0 <= j < kept_upto(ls, ls.len() as int).len() ==> #[trigger] kept_line_source(ls, j),
        forall|a: int, b: int|
            #![trigger kept_upto(ls, a), kept_upto(ls, b)]
            0 <= a < b <= ls.len() ==> kept_upto(ls, a).len() <= kept_upto(ls, b).len() && (keeps(
                ls,
                a,
            ) ==> kept_upto(ls, a).len() < kept_upto(ls, b).len()),
{
    let n = ls.len() as int;
    assert forall|a: int|
        #![trigger kept_upto(ls, a)]
        0 <= a < n && keeps(ls, a) implies kept_upto(ls, a).len() < kept_upto(ls, n).len()
            && kept_upto(ls, n)[kept_upto(ls, a).len() as int] == ls[a] by {
        lemma_kept_at(ls, n, a);
    }
    assert forall|j: int| 0 <= j < kept_upto(ls, n).len() implies #[trigger] kept_line_source(
        ls,
        j,
    ) by {
        let a = lemma_kept_source(ls, n, j);
        assert(kept_upto(ls, a).len() == j);
    }
    assert forall|a: int, b: int|
        #![trigger kept_upto(ls, a), kept_upto(ls, b)]
        0 <= a < b <= n implies kept_upto(ls, a).len() <= kept_upto(ls, b).len() && (keeps(
            ls,
            a,
        ) ==> kept_upto(ls, a).len() < kept_upto(ls, b).len()) by {
        lemma_kept_count_grows(ls, a, b);
    }
}

/// The lines of a compact tree, for a tree with no carriage return and no
/// empty line: with no line showing a ref or a value, nothing is left (or,
/// in interactive mode, a note that says so); otherwise the compact tree's
/// lines are exactly the kept lines.
pub proof fn lemma_compact_lines(tree: Seq<char>, interactive: bool)
    requires
        crate::text::lacks(tree, '\r'),
        forall|i: int|
            0 <= i < crate::text::lines(tree).len() ==> (#[trigger] crate::text::lines(tree)[i]).len()
                > 0,
    ensures
        (forall|a: int|
            0 <= a < crate::text::lines(tree).len() ==> !marked_line(
                #[trigger] crate::text::lines(tree)[a],
            )) ==> compact_text(tree, interactive) == if interactive {
            "(no interactive elements)"@
        } else {
            Seq::<char>::empty()
        },
        (exists|a: int|
            0 <= a < crate::text::lines(tree).len() && marked_line(
                #[trigger] crate::text::lines(tree)[a],
            )) ==> crate::text::lines(compact_text(tree, interactive)) == kept_upto(
            crate::text::lines(tree),
            crate::text::lines(tree).len() as int,
        ) && compact_text(tree, interactive) == crate::text::join(
            kept_upto(crate::text::lines(tree), crate::text::lines(tree).len() as int),
            seq!['\n'],
        ),
{
    let ls = crate::text::lines(tree);
    let n = ls.len() as int;
    let kl = kept_upto(ls, n);
    let out = crate::text::join(kl, seq!['\n']);
    if exists|a: int| 0 <= a < n && marked_line(#[trigger] ls[a]) {
        let a = choose|a: int| 0 <= a < n && marked_line(#[trigger] ls[a]);
        lemma_kept_at(ls, n, a);
        let j = kept_upto(ls, a).len() as int;
        let l = ls[a];
        reveal_strlit("ref=");
        reveal_strlit(": ");
        let p: int = if crate::text::contains(l, "ref="@) {
            let i = choose|i: int| #[trigger] crate::text::occurs_at(l, "ref="@, i);
            assert(l.subrange(i, i + 4)[0] == "ref="@[0]);
            i
        } else {
            let i = choose|i: int| #[trigger] crate::text::occurs_at(l, ": "@, i);
            assert(l.subrange(i, i + 2)[0] == ": "@[0]);
            i
        };
        assert(l[p] == 'r' || l[p] == ':');
        let q = crate::text::lemma_join_has(kl, seq!['\n'], j, p);
        crate::text::lemma_trim_nonempty(out, q);
        crate::text::lemma_lines_lack(tree);
        assert forall|x: int|
            0 <= x < kl.len() implies (#[trigger] kl[x]).len() > 0 && crate::text::lacks(
            kl[x],
            '\n',
        ) && kl[x].last() != '\r' by {
            let b = lemma_kept_source(ls, n, x);
            assert(kl[x] == ls[b]);
            assert(crate::text::lacks(ls[b], '\r'));
            assert(ls[b][ls[b].len() - 1] != '\r');
        }
        crate::text::lemma_lines_of_join(kl);
    } else {
        if kl.len() > 0 {
            let a = lemma_kept_source(ls, n, 0);
            if !marked_line(ls[a]) {
                let i = choose|i: int| #[trigger] kept_by(ls, i, a);
                assert(marked_line(ls[i]));
            }
        }
        assert(kl =~= Seq::<Seq<char>>::empty());
        assert(out =~= Seq::<char>::empty());
        assert(crate::text::trim(out) =~= Seq::<char>::empty());
    }
}

/// Compacting a compact tree changes nothing, for a tree with no carriage
/// return and no empty line.
pub proof fn lemma_compact_twice(tree: Seq<char>, interactive: bool)
    requires
        crate::text::lacks(tree, '\r'),
        forall|i: int|
            0 <= i < crate::text::lines(tree).len() ==> (#[trigger] crate::text::lines(tree)[i]).len()
                > 0,
    ensures
        compact_text(compact_text(tree, interactive), interactive) == compact_text(
            tree,
            interactive,
        ),
{
    let ls = crate::text::lines(tree);
    let n = ls.len() as int;
    let kl = kept_upto(ls, n);
    let out = crate::text::join(kl, seq!['\n']);
    crate::text::lemma_lines_lack(tree);
    assert forall|j: int|
        0 <= j < kl.len() implies (#[trigger] kl[j]).len() > 0 && crate::text::lacks(kl[j], '\n')
        && kl[j].last() != '\r' by {
        let a = lemma_kept_source(ls, n, j);
        assert(kl[j] == ls[a]);
        assert(crate::text::lacks(ls[a], '\r'));
        assert(ls[a][ls[a].len() - 1] != '\r');
    }
    crate::text::lemma_lines_of_join(kl);
    assert forall|j: int| 0 <= j < kl.len() implies #[trigger] keeps(kl, j) by {
        lemma_kept_line_kept_again(ls, j);
    }
    lemma_all_kept(kl, kl.len() as int);
    assert(kl.take(kl.len() as int) =~= kl);
    if crate::text::trim(out).len() == 0 && interactive {
        let note = "(no interactive elements)"@;
        reveal_strlit("(no interactive elements)");
        reveal_strlit("ref=");
        reveal_strlit(": ");
        assert(crate::text::lacks(note, '\n'));
        assert(crate::text::lacks(note, '='));
        assert(crate::text::lacks(note, ':'));
        crate::text::lemma_lines_of_join(seq![note]);
        assert(crate::text::join(seq![note], seq!['\n']) == note);
        let nl = crate::text::lines(note);
        assert(nl == seq![note]);
        assert(!crate::text::contains(note, "ref="@)) by {
            if crate::text::contains(note, "ref="@) {
                let i = choose|i: int| #[trigger] crate::text::occurs_at(note, "ref="@, i);
                assert(note.subrange(i, i + 4)[3] == "ref="@[3]);
                assert(note[i + 3] == '=');
            }
        }
        assert(!crate::text::contains(note, ": "@)) by {
            if crate::text::contains(note, ": "@) {
                let i = choose|i: int| #[trigger] crate::text::occurs_at(note, ": "@, i);
                assert(note.subrange(i, i + 2)[0] == ": "@[0]);
                assert(note[i] == ':');
            }
        }
        assert(!keeps(nl, 0));
        assert(kept_upto(nl, 0) =~= Seq::<Seq<char>>::empty());
        assert(kept_upto(nl, 1) =~= Seq::<Seq<char>>::empty());
        assert(crate::text::join(kept_upto(nl, 1), seq!['\n']) =~= Seq::<char>::empty());
        assert(crate::text::trim(Seq::<char>::empty()) =~= Seq::<char>::empty());
    }
}

/// The text of printed lines: for each node and indent in `ps`, in order,
/// the node's line at that indent and a line break.
pub open spec fn printed_text(ms: Seq<NodeModel>, ps: Seq<(int, nat)>) -> Seq<char>
    decreases ps.len(),
{
    if ps.len() == 0 {
        seq![]
    } else {
        printed_text(ms, ps.drop_last()) + line_text(ms[ps.last().0], ps.last().1) + seq!['\n']
    }
}

/// The nodes printed for the node at `idx` and its subtree, with the indent
/// of each line.
pub open spec fn printed_node(
    ms: Seq<NodeModel>,
    rank: Seq<nat>,
    idx: int,
    indent: nat,
    interactive: bool,
    depth: Option<usize>,
) -> Seq<(int, nat)>
    decreases rank[idx], 1nat, 0nat,
    when valid_rank(ms, rank) && 0 <= idx < ms.len() && rank[idx] > 0
{
    let m = ms[idx];
    if passes_through(m) {
        printed_list(ms, rank, idx, 0, indent, interactive, depth)
    } else if depth matches Some(max) && indent > max {
        seq![]
    } else if m.role == "RootWebArea"@ || m.role == "WebArea"@ {
        printed_list(ms, rank, idx, 0, indent, interactive, depth)
    } else if interactive && m.ref_id is None {
        printed_list(ms, rank, idx, 0, indent, interactive, depth)
    } else {
        seq![(idx, indent)] + printed_list(ms, rank, idx, 0, indent + 1, interactive, depth)
    }
}

/// The nodes printed for the children of `parent` from the `k`-th on.
pub open spec fn printed_list(
    ms: Seq<NodeModel>,
    rank: Seq<nat>,
    parent: int,
    k: int,
    indent: nat,
    interactive: bool,
    depth: Option<usize>,
) -> Seq<(int, nat)>
    decreases rank[parent], 0nat, ms[parent].children.len() - k,
    when valid_rank(ms, rank) && 0 <= parent < ms.len() && rank[parent] > 0 && 0 <= k
{
    if k >= ms[parent].children.len() {
        seq![]
    } else {
        printed_node(ms, rank, ms[parent].children[k] as int, indent, interactive, depth)
            + printed_list(ms, rank, parent, k + 1, indent, interactive, depth)
    }
}

/// The nodes printed for the roots from the `k`-th on.
pub open spec fn printed_roots(
    ms: Seq<NodeModel>,
    rank: Seq<nat>,
    roots: Seq<usize>,
    k: int,
    interactive: bool,
    depth: Option<usize>,
) -> Seq<(int, nat)>
    decreases roots.len() - k,
{
    if k < 0 || k >= roots.len() {
        seq![]
    } else {
        printed_node(ms, rank, roots[k] as int, 0, interactive, depth) + printed_roots(
            ms,
            rank,
            roots,
            k + 1,
            interactive,
            depth,
        )
    }
}

/// A printed line of the node `e.0` at indent `e.1` is allowed: the indent
/// is within the depth limit, and in interactive mode the node shows a ref.
pub open spec fn printed_ok(
    ms: Seq<NodeModel>,
    e: (int, nat),
    interactive: bool,
    depth: Option<usize>,
) -> bool {
    &&& 0 <= e.0 < ms.len()
    &&& depth matches Some(d) ==> e.1 <= d
    &&& interactive ==> ms[e.0].ref_id is Some
}

proof fn lemma_printed_text_concat(ms: Seq<NodeModel>, a: Seq<(int, nat)>, b: Seq<(int, nat)>)
    ensures
        printed_text(ms, a + b) == printed_text(ms, a) + printed_text(ms, b),
    decreases b.len(),
{
    if b.len() == 0 {
        assert(a + b =~= a);
    } else {
        assert((a + b).drop_last() =~= a + b.drop_last());
        lemma_printed_text_concat(ms, a, b.drop_last());
    }
}

proof fn lemma_all_ok_concat(
    ms: Seq<NodeModel>,
    a: Seq<(int, nat)>,
    b: Seq<(int, nat)>,
    interactive: bool,
    depth: Option<usize>,
    low: nat,
)
    requires
        forall|i: int|
            0 <= i < a.len() ==> printed_ok(ms, #[trigger] a[i], interactive, depth) && low
                <= a[i].1,
        forall|i: int|
            0 <= i < b.len() ==> printed_ok(ms, #[trigger] b[i], interactive, depth) && low
                <= b[i].1,
    ensures
        forall|i: int|
            0 <= i < (a + b).len() ==> printed_ok(ms, #[trigger] (a + b)[i], interactive, depth)
                && low <= (a + b)[i].1,
{
    assert forall|i: int| 0 <= i < (a + b).len() implies printed_ok(
        ms,
        #[trigger] (a + b)[i],
        interactive,
        depth,
    ) && low <= (a + b)[i].1 by {
        if i < a.len() {
            assert((a + b)[i] == a[i]);
        } else {
            assert((a + b)[i] == b[i - a.len()]);
        }
    }
}

/// What one subtree prints: the lines of its printed nodes, in order, each
/// the node's line at its indent (`  ` per level, then `- `), each indent
/// between the starting indent and the depth limit, and in interactive mode
/// only nodes that show a ref.
pub proof fn lemma_printed_node(
    ms: Seq<NodeModel>,
    rank: Seq<nat>,
    idx: int,
    indent: nat,
    interactive: bool,
    depth: Option<usize>,
)
    requires
        valid_rank(ms, rank),
        0 <= idx < ms.len(),
        rank[idx] > 0,
    ensures
        render_node(ms, rank, idx, indent, interactive, depth) == printed_text(
            ms,
            printed_node(ms, rank, idx, indent, interactive, depth),
        ),
        forall|i: int|
            0 <= i < printed_node(ms, rank, idx, indent, interactive, depth).len() ==> printed_ok(
                ms,
                #[trigger] printed_node(ms, rank, idx, indent, interactive, depth)[i],
                interactive,
                depth,
            ) && indent <= printed_node(ms, rank, idx, indent, interactive, depth)[i].1,
    decreases rank[idx], 1nat,
{
    let m = ms[idx];
    if passes_through(m) {
        lemma_printed_list(ms, rank, idx, 0, indent, interactive, depth);
    } else if depth matches Some(max) && indent > max {
        assert(printed_text(ms, seq![]) =~= Seq::<char>::empty());
    } else if m.role == "RootWebArea"@ || m.role == "WebArea"@ {
        lemma_printed_list(ms, rank, idx, 0, indent, interactive, depth);
    } else if interactive && m.ref_id is None {
        lemma_printed_list(ms, rank, idx, 0, indent, interactive, depth);
    } else {
        lemma_printed_list(ms, rank, idx, 0, indent + 1, interactive, depth);
        let head: Seq<(int, nat)> = seq![(idx, indent)];
        let rest = printed_list(ms, rank, idx, 0, indent + 1, interactive, depth);
        lemma_printed_text_concat(ms, head, rest);
        assert(head.drop_last() =~= Seq::<(int, nat)>::empty());
        assert(printed_text(ms, head.drop_last()) =~= Seq::<char>::empty());
        assert(head.last() == (idx, indent));
        assert(printed_text(ms, head) =~= line_text(m, indent) + seq!['\n']);
        assert(printed_ok(ms, head[0], interactive, depth));
        lemma_all_ok_concat(ms, head, rest, interactive, depth, indent);
    }
}

proof fn lemma_printed_list(
    ms: Seq<NodeModel>,
    rank: Seq<nat>,
    parent: int,
    k: int,
    indent: nat,
    interactive: bool,
    depth: Option<usize>,
)
    requires
        valid_rank(ms, rank),
        0 <= parent < ms.len(),
        rank[parent] > 0,
        0 <= k,
    ensures
        render_list(ms, rank, parent, k, indent, interactive, depth) == printed_text(
            ms,
            printed_list(ms, rank, parent, k, indent, interactive, depth),
        ),
        forall|i: int|
            0 <= i < printed_list(ms, rank, parent, k, indent, interactive, depth).len()
                ==> printed_ok(
                ms,
                #[trigger] printed_list(ms, rank, parent, k, indent, interactive, depth)[i],
                interactive,
                depth,
            ) && indent <= printed_list(ms, rank, parent, k, indent, interactive, depth)[i].1,
    decreases rank[parent], 0nat, ms[parent].children.len() - k,
{
    if k >= ms[parent].children.len() {
        assert(printed_text(ms, seq![]) =~= Seq::<char>::empty());
    } else {
        let c = ms[parent].children[k] as int;
        lemma_printed_node(ms, rank, c, indent, interactive, depth);
        lemma_printed_list(ms, rank, parent, k + 1, indent, interactive, depth);
        let a = printed_node(ms, rank, c, indent, interactive, depth);
        let b = printed_list(ms, rank, parent, k + 1, indent, interactive, depth);
        lemma_printed_text_concat(ms, a, b);
        lemma_all_ok_concat(ms, a, b, interactive, depth, indent);
    }
}

proof fn lemma_printed_roots(
    ms: Seq<NodeModel>,
    rank: Seq<nat>,
    roots: Seq<usize>,
    k: int,
    interactive: bool,
    depth: Option<usize>,
)
    requires
        valid_rank(ms, rank),
        forall|r: int| 0 <= r < roots.len() ==> #[trigger] roots[r] < ms.len() && rank[roots[r] as int] > 0,
        0 <= k,
    ensures
        render_roots(ms, rank, roots, k, interactive, depth) == printed_text(
            ms,
            printed_roots(ms, rank, roots, k, interactive, depth),
        ),
        forall|i: int|
            0 <= i < printed_roots(ms, rank, roots, k, interactive, depth).len() ==> printed_ok(
                ms,
                #[trigger] printed_roots(ms, rank, roots, k, interactive, depth)[i],
                interactive,
                depth,
            ),
    decreases roots.len() - k,
{
    if k >= roots.len() {
        assert(printed_text(ms, seq![]) =~= Seq::<char>::empty());
    } else {
        lemma_printed_node(ms, rank, roots[k] as int, 0, interactive, depth);
        lemma_printed_roots(ms, rank, roots, k + 1, interactive, depth);
        let a = printed_node(ms, rank, roots[k] as int, 0, interactive, depth);
        let b = printed_roots(ms, rank, roots, k + 1, interactive, depth);
        lemma_printed_text_concat(ms, a, b);
        lemma_all_ok_concat(ms, a, b, interactive, depth, 0);
    }
}

/// The rendered tree is a run of lines, one per printed node: each is that
/// node's line at its indent, the indent is within the depth limit, and in
/// interactive mode every printed node shows a ref.
pub proof fn lemma_rendered_lines(nodes: Seq<AxNode>, interactive: bool, depth: Option<usize>)
    requires
        nodes.len() <= usize::MAX,
        walk_ends(nodes),
    ensures
        ({
            let tm = tree_model(nodes);
            let ms = with_refs(tm);
            let ps = printed_roots(ms, snapshot_rank(nodes), roots(tm), 0, interactive, depth);
            &&& rendered_tree(nodes, interactive, depth) == printed_text(ms, ps)
            &&& forall|i: int| 0 <= i < ps.len() ==> printed_ok(ms, #[trigger] ps[i], interactive, depth)
        }),
{
    let tm = tree_model(nodes);
    let rank = snapshot_rank(nodes);
    lemma_tree_model_shape(nodes);
    lemma_roots_bound(tm, tm.len() as int);
    lemma_refs_keep_rank(tm, rank);
    let ms = with_refs(tm);
    assert forall|r: int| 0 <= r < roots(tm).len() implies #[trigger] roots(tm)[r] < ms.len()
        && rank[roots(tm)[r] as int] > 0 by {}
    lemma_printed_roots(ms, rank, roots(tm), 0, interactive, depth);
}

/// The texts of a node that are printed as they are hold neither a line
/// break nor a carriage return: its role, its `checked` text and its value.
pub open spec fn plain_fields(m: NodeModel) -> bool {
    &&& crate::text::plain(m.role)
    &&& m.checked matches Some(c) ==> crate::text::plain(c)
    &&& m.value_text matches Some(v) ==> crate::text::plain(v)
}

/// The ref of a node, if it has one, is a plain label that starts with `e`.
pub open spec fn labelled(m: NodeModel) -> bool {
    m.ref_id matches Some(r) ==> r.len() > 0 && r[0] == 'e' && crate::text::plain(r)
}

/// Every piece is plain.
pub open spec fn all_plain(ps: Seq<Seq<char>>) -> bool {
    forall|i: int| 0 <= i < ps.len() ==> crate::text::plain(#[trigger] ps[i])
}

proof fn lemma_all_plain_concat(a: Seq<Seq<char>>, b: Seq<Seq<char>>)
    requires
        all_plain(a),
        all_plain(b),
    ensures
        all_plain(a + b),
{
    assert forall|i: int| 0 <= i < (a + b).len() implies crate::text::plain(#[trigger] (a + b)[i]) by {
        if i < a.len() {
            assert((a + b)[i] == a[i]);
        } else {
            assert((a + b)[i] == b[i - a.len()]);
        }
    }
}

proof fn lemma_attrs_plain(m: NodeModel)
    requires
        plain_fields(m),
        labelled(m),
    ensures
        crate::text::plain(attrs_part(m)),
{
    reveal_strlit("level=");
    reveal_strlit("checked=");
    reveal_strlit("expanded=");
    reveal_strlit("selected");
    reveal_strlit("disabled");
    reveal_strlit("required");
    reveal_strlit("ref=");
    reveal_strlit("true");
    reveal_strlit("false");
    reveal_strlit(" [");
    reveal_strlit(", ");
    reveal_strlit("]");
    let a1 = value_attr(m.level, "level="@, |l: i64| crate::text::signed_decimal(l as int));
    let a2 = value_attr(m.checked, "checked="@, |c: Seq<char>| c);
    let a3 = value_attr(m.expanded, "expanded="@, |e: bool| bool_text(e));
    let a4 = flag_attr(m.selected, "selected"@);
    let a5 = flag_attr(m.disabled, "disabled"@);
    let a6 = flag_attr(m.required, "required"@);
    let a7 = value_attr(m.ref_id, "ref="@, |r: Seq<char>| r);
    if let Some(l) = m.level {
        crate::text::lemma_plain_decimal(l as int);
        assert(crate::text::plain("level="@));
        crate::text::lemma_plain_concat("level="@, crate::text::signed_decimal(l as int));
        assert(a1[0] == "level="@ + crate::text::signed_decimal(l as int));
    }
    if let Some(c) = m.checked {
        assert(crate::text::plain("checked="@));
        crate::text::lemma_plain_concat("checked="@, c);
        assert(a2[0] == "checked="@ + c);
    }
    if let Some(e) = m.expanded {
        assert(crate::text::plain("expanded="@));
        assert(crate::text::plain(bool_text(e)));
        crate::text::lemma_plain_concat("expanded="@, bool_text(e));
        assert(a3[0] == "expanded="@ + bool_text(e));
    }
    assert(crate::text::plain("selected"@));
    assert(crate::text::plain("disabled"@));
    assert(crate::text::plain("required"@));
    if let Some(r) = m.ref_id {
        assert(crate::text::plain("ref="@));
        crate::text::lemma_plain_concat("ref="@, r);
        assert(a7[0] == "ref="@ + r);
    }
    assert(all_plain(a1));
    assert(all_plain(a2));
    assert(all_plain(a3));
    assert(all_plain(a4));
    assert(all_plain(a5));
    assert(all_plain(a6));
    assert(all_plain(a7));
    lemma_all_plain_concat(a1, a2);
    lemma_all_plain_concat(a1 + a2, a3);
    lemma_all_plain_concat(a1 + a2 + a3, a4);
    lemma_all_plain_concat(a1 + a2 + a3 + a4, a5);
    lemma_all_plain_concat(a1 + a2 + a3 + a4 + a5, a6);
    lemma_all_plain_concat(a1 + a2 + a3 + a4 + a5 + a6, a7);
    let attrs = attr_list(m);
    assert(attrs == a1 + a2 + a3 + a4 + a5 + a6 + a7);
    if attrs.len() > 0 {
        assert(crate::text::plain(", "@));
        crate::text::lemma_plain_join(attrs, ", "@);
        assert(crate::text::plain(" ["@));
        assert(crate::text::plain("]"@));
        crate::text::lemma_plain_concat(" ["@, crate::text::join(attrs, ", "@));
        crate::text::lemma_plain_concat(" ["@ + crate::text::join(attrs, ", "@), "]"@);
    }
}

/// The line of a node whose printed texts are plain is plain, starts with
/// its indent and `-`, and so has that indent as its depth.
pub proof fn lemma_line_shape(m: NodeModel, ind: nat)
    requires
        plain_fields(m),
        labelled(m),
    ensures
        crate::text::plain(line_text(m, ind)),
        crate::text::has_text(line_text(m, ind)),
        indent_width(line_text(m, ind)) == ind,
{
    reveal_strlit("- ");
    reveal_strlit(" ");
    reveal_strlit(": ");
    let l = line_text(m, ind);
    let sp = indent_text(ind);
    assert(crate::text::plain(sp));
    assert(crate::text::plain("- "@));
    crate::text::lemma_plain_concat(sp, "- "@);
    crate::text::lemma_plain_concat(sp + "- "@, m.role);
    let shown = visible_text(m.name);
    if shown.len() > 0 {
        crate::json::lemma_string_literal_plain(shown);
        assert(crate::text::plain(" "@));
        crate::text::lemma_plain_concat(" "@, crate::json::json_string_literal(shown));
    }
    assert(crate::text::plain(name_part(m)));
    crate::text::lemma_plain_concat(sp + "- "@ + m.role, name_part(m));
    lemma_attrs_plain(m);
    crate::text::lemma_plain_concat(sp + "- "@ + m.role + name_part(m), attrs_part(m));
    if let Some(v) = m.value_text {
        if v.len() > 0 && v != m.name {
            assert(crate::text::plain(": "@));
            crate::text::lemma_plain_concat(": "@, v);
        }
    }
    assert(crate::text::plain(value_part(m)));
    crate::text::lemma_plain_concat(
        sp + "- "@ + m.role + name_part(m) + attrs_part(m),
        value_part(m),
    );
    let k = 2 * ind;
    assert(l[k as int] == '-');
    assert(!crate::text::is_ws('-'));
    assert(crate::text::has_text(l));
    assert forall|j: int| 0 <= j < k implies #[trigger] l[j] == ' ' by {
        assert(l[j] == sp[j]);
    }
    crate::text::lemma_leading_spaces(l, k as int);
}

/// The line of a node that shows a ref holds `ref=e`.
pub proof fn lemma_line_ref(m: NodeModel, ind: nat)
    requires
        labelled(m),
        m.ref_id is Some,
    ensures
        crate::text::contains(line_text(m, ind), "ref=e"@),
{
    reveal_strlit("ref=");
    reveal_strlit("ref=e");
    reveal_strlit(" [");
    reveal_strlit(", ");
    let r = m.ref_id->0;
    let attrs = attr_list(m);
    let last = "ref="@ + r;
    assert(attrs.last() == last);
    let j = crate::text::join(attrs, ", "@);
    let j0 = if attrs.len() == 1 {
        Seq::<char>::empty()
    } else {
        crate::text::join(attrs.drop_last(), ", "@) + ", "@
    };
    assert(j == j0 + last);
    let x = indent_text(ind) + "- "@ + m.role + name_part(m) + " ["@ + j0;
    let l = line_text(m, ind);
    assert(l == x + last + "]"@ + value_part(m));
    let p = x.len() as int;
    assert(l.subrange(p, p + 5) =~= "ref=e"@) by {
        assert forall|i: int| 0 <= i < 5 implies #[trigger] l.subrange(p, p + 5)[i] == "ref=e"@[i] by {
            assert(l[p + i] == last[i]);
            if i == 4 {
                assert(last[4] == r[0]);
            }
        }
    }
    assert(crate::text::occurs_at(l, "ref=e"@, p));
}

/// A line that a snapshot may print: in interactive mode it shows a ref
/// (`ref=e`), and with a depth limit it is indented no deeper.
pub open spec fn allowed_line(l: Seq<char>, interactive: bool, depth: Option<usize>) -> bool {
    &&& interactive ==> crate::text::contains(l, "ref=e"@)
    &&& depth matches Some(d) ==> indent_width(l) <= d
}

/// The lines of the printed nodes `ps`.
pub open spec fn line_list(ms: Seq<NodeModel>, ps: Seq<(int, nat)>) -> Seq<Seq<char>> {
    ps.map_values(|e: (int, nat)| line_text(ms[e.0], e.1))
}

proof fn lemma_printed_as_join(ms: Seq<NodeModel>, ps: Seq<(int, nat)>)
    ensures
        ps.len() == 0 ==> printed_text(ms, ps) == Seq::<char>::empty(),
        ps.len() > 0 ==> printed_text(ms, ps) == crate::text::join(line_list(ms, ps), seq!['\n'])
            + seq!['\n'],
    decreases ps.len(),
{
    if ps.len() == 1 {
        assert(ps.drop_last().len() == 0);
        assert(printed_text(ms, ps.drop_last()) == Seq::<char>::empty());
        assert(crate::text::join(line_list(ms, ps), seq!['\n']) == line_list(ms, ps)[0]);
        assert(printed_text(ms, ps) =~= line_list(ms, ps)[0] + seq!['\n']);
    } else if ps.len() > 1 {
        lemma_printed_as_join(ms, ps.drop_last());
        assert(line_list(ms, ps).drop_last() =~= line_list(ms, ps.drop_last()));
        assert(line_list(ms, ps).last() == line_text(ms[ps.last().0], ps.last().1));
    }
}

proof fn lemma_allowed_trims(l: Seq<char>, interactive: bool, depth: Option<usize>)
    requires
        allowed_line(l, interactive, depth),
        crate::text::has_text(l),
    ensures
        allowed_line(crate::text::trim_start(l), interactive, depth),
        allowed_line(crate::text::trim_end(l), interactive, depth),
{
    reveal_strlit("ref=e");
    let pat = "ref=e"@;
    assert(!crate::text::is_ws(pat[0]));
    assert(!crate::text::is_ws(pat.last()));
    if interactive {
        crate::text::lemma_contains_trim_start(l, pat);
        crate::text::lemma_contains_trim_end(l, pat);
    }
    crate::text::lemma_trim_start_bare(l);
    let a = crate::text::trim_start(l);
    assert(a.take(0) =~= Seq::<char>::empty());
    crate::text::lemma_trim_end_lead(l);
}

proof fn lemma_trim_lines_allowed(ls: Seq<Seq<char>>, interactive: bool, depth: Option<usize>)
    requires
        forall|i: int|
            0 <= i < ls.len() ==> crate::text::plain(#[trigger] ls[i]) && crate::text::has_text(
                ls[i],
            ) && allowed_line(ls[i], interactive, depth),
    ensures
        crate::text::trim_lines(ls).len() == ls.len(),
        forall|i: int|
            0 <= i < crate::text::trim_lines(ls).len() ==> crate::text::plain(
                #[trigger] crate::text::trim_lines(ls)[i],
            ) && crate::text::has_text(crate::text::trim_lines(ls)[i]) && allowed_line(
                crate::text::trim_lines(ls)[i],
                interactive,
                depth,
            ),
{
    crate::text::lemma_trim_join(ls);
    let tl = crate::text::trim_lines(ls);
    if ls.len() > 0 {
        let first = ls.update(0, crate::text::trim_start(ls[0]));
        assert(crate::text::has_text(ls[0]));
        lemma_allowed_trims(ls[0], interactive, depth);
        crate::text::lemma_trim_plain_parts(ls[0]);
        crate::text::lemma_trim_start_text(ls[0]);
        assert forall|i: int| 0 <= i < first.len() implies crate::text::plain(#[trigger] first[i])
            && crate::text::has_text(first[i]) && allowed_line(first[i], interactive, depth) by {
            if i != 0 {
                assert(first[i] == ls[i]);
            }
        }
        let last = first.last();
        assert(crate::text::plain(last) && crate::text::has_text(last));
        lemma_allowed_trims(last, interactive, depth);
        crate::text::lemma_trim_plain_parts(last);
        assert forall|i: int| 0 <= i < tl.len() implies crate::text::plain(#[trigger] tl[i])
            && crate::text::has_text(tl[i]) && allowed_line(tl[i], interactive, depth) by {
            if i != tl.len() - 1 {
                assert(tl[i] == first[i]);
            }
        }
    }
}

proof fn lemma_trimmed_join_lines(ls: Seq<Seq<char>>, interactive: bool, depth: Option<usize>)
    requires
        ls.len() > 0,
        forall|i: int|
            0 <= i < ls.len() ==> crate::text::plain(#[trigger] ls[i]) && crate::text::has_text(
                ls[i],
            ) && allowed_line(ls[i], interactive, depth),
    ensures
        crate::text::has_text(crate::text::join(ls, seq!['\n'])),
        crate::text::trim(crate::text::join(ls, seq!['\n'])).len() > 0,
        forall|i: int|
            0 <= i < crate::text::lines(crate::text::trim(crate::text::join(ls, seq!['\n']))).len()
                ==> allowed_line(
                #[trigger] crate::text::lines(crate::text::trim(crate::text::join(ls, seq!['\n'])))[i],
                interactive,
                depth,
            ),
{
    let s = crate::text::join(ls, seq!['\n']);
    assert(crate::text::has_text(ls[0]));
    let j = choose|j: int| 0 <= j < ls[0].len() && !crate::text::is_ws(#[trigger] ls[0][j]);
    let q = crate::text::lemma_join_has(ls, seq!['\n'], 0, j);
    assert(crate::text::has_text(s));
    crate::text::lemma_trim_nonempty(s, q);
    crate::text::lemma_trim_join(ls);
    lemma_trim_lines_allowed(ls, interactive, depth);
    let tl = crate::text::trim_lines(ls);
    assert forall|i: int| 0 <= i < tl.len() implies (#[trigger] tl[i]).len() > 0
        && crate::text::lacks(tl[i], '\n') && tl[i].last() != '\r' by {
        assert(crate::text::plain(tl[i]));
        assert(crate::text::has_text(tl[i]));
    }
    crate::text::lemma_lines_of_join(tl);
}

proof fn lemma_notes()
    ensures
        crate::text::lines("(empty page)"@) == seq!["(empty page)"@],
        indent_width("(empty page)"@) == 0,
        crate::text::trim("(no interactive elements)"@) == "(no interactive elements)"@,
        crate::text::trim("(empty page)"@) == "(empty page)"@,
{
    reveal_strlit("(empty page)");
    reveal_strlit("(no interactive elements)");
    let e = "(empty page)"@;
    let i = "(no interactive elements)"@;
    assert(crate::text::lacks(e, '\n'));
    crate::text::lemma_lines_of_join(seq![e]);
    assert(crate::text::join(seq![e], seq!['\n']) == e);
    assert(!crate::text::is_ws(e[0]));
    assert(crate::text::leading_ws(e) == 0);
    assert(e.take(0) =~= Seq::<char>::empty());
    crate::text::lemma_trim_plain(e);
    crate::text::lemma_trim_plain(i);
}

proof fn lemma_compact_of_empty(interactive: bool)
    ensures
        compact_text(Seq::<char>::empty(), interactive) == if interactive {
            "(no interactive elements)"@
        } else {
            Seq::<char>::empty()
        },
{
    let ls = crate::text::lines(Seq::<char>::empty());
    assert(ls =~= Seq::<Seq<char>>::empty());
    assert(kept_upto(ls, 0) =~= Seq::<Seq<char>>::empty());
    assert(crate::text::join(kept_upto(ls, 0), seq!['\n']) =~= Seq::<char>::empty());
    assert(crate::text::trim(Seq::<char>::empty()) =~= Seq::<char>::empty());
}

/// Every line of a snapshot is one that it may print: in interactive mode
/// each shows a ref (`ref=e`), unless the snapshot is the note that there
/// are no interactive elements; with a depth limit none is indented deeper.
/// This holds when no walk from a root meets a cycle and no role, `checked`
/// text or value of a node holds a line break or a carriage return.
pub proof fn lemma_snapshot_lines(nodes: Seq<AxNode>, options: SnapshotOptions)
    requires
        nodes.len() <= usize::MAX,
        walk_ends(nodes),
        forall|i: int| 0 <= i < tree_model(nodes).len() ==> plain_fields(#[trigger] tree_model(nodes)[i]),
    ensures
        forall|i: int|
            0 <= i < crate::text::lines(snapshot_text(nodes, options)).len() ==> allowed_line(
                #[trigger] crate::text::lines(snapshot_text(nodes, options))[i],
                options.interactive,
                options.depth,
            ) || (options.interactive && snapshot_text(nodes, options)
                == "(no interactive elements)"@),
{
    let it = options.interactive;
    let dp = options.depth;
    let tm = tree_model(nodes);
    lemma_tree_model_shape(nodes);
    let ms = with_refs(tm);
    let rank = snapshot_rank(nodes);
    lemma_rendered_lines(nodes, it, dp);
    let ps = printed_roots(ms, rank, roots(tm), 0, it, dp);
    let raw = rendered_tree(nodes, it, dp);
    assert(raw == printed_text(ms, ps));
    let ll = line_list(ms, ps);
    assert forall|i: int| 0 <= i < ll.len() implies crate::text::plain(#[trigger] ll[i])
        && crate::text::has_text(ll[i]) && allowed_line(ll[i], it, dp) by {
        let e = ps[i];
        assert(printed_ok(ms, e, it, dp));
        let m = ms[e.0];
        assert(ll[i] == line_text(m, e.1));
        assert(plain_fields(tm[e.0]));
        assert(plain_fields(m));
        if gets_ref(tm[e.0]) {
            let c = (ref_count(tm, e.0) + 1) as nat;
            crate::text::lemma_plain_decimal(c as int);
            crate::text::lemma_plain_concat(seq!['e'], crate::text::decimal(c));
            assert(m.ref_id == Some(ref_label(c)));
            assert(ref_label(c)[0] == 'e');
        } else {
            assert(m == tm[e.0]);
        }
        assert(labelled(m));
        lemma_line_shape(m, e.1);
        if it {
            lemma_line_ref(m, e.1);
        }
    }
    lemma_notes();
    lemma_printed_as_join(ms, ps);
    let out = snapshot_text(nodes, options);
    let shaped = if options.compact {
        compact_text(raw, it)
    } else {
        raw
    };
    if ps.len() == 0 {
        lemma_compact_of_empty(it);
    } else {
        assert forall|i: int| 0 <= i < ll.len() implies (#[trigger] ll[i]).len() > 0
            && crate::text::lacks(ll[i], '\n') && crate::text::lacks(ll[i], '\r') by {
            assert(crate::text::plain(ll[i]));
            assert(crate::text::has_text(ll[i]));
        }
        crate::text::lemma_lines_of_ended_join(ll);
        if !options.compact {
            lemma_trimmed_join_lines(ll, it, dp);
            crate::text::lemma_trim_ended(crate::text::join(ll, seq!['\n']));
        } else {
            assert(crate::text::lacks(seq!['\n'], '\r'));
            crate::text::lemma_lacks_join(ll, seq!['\n'], '\r');
            let j = crate::text::join(ll, seq!['\n']);
            assert(crate::text::lacks(raw, '\r')) by {
                assert forall|x: int| 0 <= x < raw.len() implies #[trigger] raw[x] != '\r' by {
                    if x < j.len() {
                        assert(raw[x] == j[x]);
                    }
                }
            }
            lemma_compact_lines(raw, it);
            if exists|a: int| 0 <= a < ll.len() && marked_line(#[trigger] ll[a]) {
                let k = kept_upto(ll, ll.len() as int);
                lemma_kept_subsequence(ll);
                let a = choose|a: int| 0 <= a < ll.len() && marked_line(#[trigger] ll[a]);
                assert(keeps(ll, a));
                assert(kept_upto(ll, a).len() < k.len());
                assert forall|x: int| 0 <= x < k.len() implies crate::text::plain(#[trigger] k[x])
                    && crate::text::has_text(k[x]) && allowed_line(k[x], it, dp) by {
                    assert(kept_line_source(ll, x));
                    let b = choose|b: int|
                        #![trigger kept_upto(ll, b)]
                        0 <= b < ll.len() && keeps(ll, b) && kept_upto(ll, b).len() == x
                            && kept_upto(ll, ll.len() as int)[x] == ll[b];
                    assert(k[x] == ll[b]);
                }
                lemma_trimmed_join_lines(k, it, dp);
            }
        }
    }
}

/// A snapshot is trimmed: it neither starts nor ends with whitespace.
pub proof fn lemma_snapshot_trimmed(nodes: Seq<AxNode>, options: SnapshotOptions)
    ensures
        crate::text::trim(snapshot_text(nodes, options)) == snapshot_text(nodes, options),
{
    reveal_strlit("(no interactive elements)");
    reveal_strlit("(empty page)");
    let raw = rendered_tree(nodes, options.interactive, options.depth);
    let shaped = if options.compact {
        compact_text(raw, options.interactive)
    } else {
        raw
    };
    let trimmed = crate::text::trim(shaped);
    if trimmed.len() == 0 {
        let note: Seq<char> = if options.interactive {
            "(no interactive elements)"@
        } else {
            "(empty page)"@
        };
        assert(!crate::text::is_ws(note[0]));
        assert(!crate::text::is_ws(note.last()));
        crate::text::lemma_trim_plain(note);
    } else {
        crate::text::lemma_trim_twice(shaped);
    }
}

/// Refs go to the nodes that qualify, in node order: such a node shows `e`
/// and one more than the number of qualifying nodes before it, so a later
/// node has a higher number; every other node is left as it was; and there
/// are as many refs as qualifying nodes.
pub proof fn lemma_refs_numbered_in_order(ms: Seq<NodeModel>)
    ensures
        forall|i: int|
            0 <= i < ms.len() && gets_ref(ms[i]) ==> (#[trigger] with_refs(ms)[i]).ref_id == Some(
                ref_label(ref_count(ms, i) + 1),
            ),
        forall|i: int| 0 <= i < ms.len() && !gets_ref(ms[i]) ==> #[trigger] with_refs(ms)[i] == ms[i],
        forall|i: int, j: int|
            0 <= i < j <= ms.len() && gets_ref(ms[i]) ==> #[trigger] ref_count(ms, i) < #[trigger] ref_count(
                ms,
                j,
            ),
        ref_entries(ms).len() == ref_count(ms, ms.len() as int),
{
    lemma_ref_count_bound(ms, ms.len() as int);
    assert forall|i: int, j: int|
        0 <= i < j <= ms.len() && gets_ref(ms[i]) implies #[trigger] ref_count(ms, i)
        < #[trigger] ref_count(ms, j) by {
        lemma_ref_count_grows(ms, i, j);
    }
}

proof fn lemma_ref_count_grows(ms: Seq<NodeModel>, i: int, j: int)
    requires
        0 <= i < j,
        gets_ref(ms[i]),
    ensures
        ref_count(ms, i) < ref_count(ms, j),
    decreases j - i,
{
    if j > i + 1 {
        lemma_ref_count_grows(ms, i, j - 1);
    }
}

/// What compaction keeps: every line that shows a ref or a value, and for
/// every kept line, the nearest line above it that is less indented.
pub proof fn lemma_compact_keeps(ls: Seq<Seq<char>>)
    ensures
        forall|a: int| 0 <= a < ls.len() && marked_line(ls[a]) ==> #[trigger] keeps(ls, a),
        forall|a: int, b: int|
            #![trigger keeps(ls, a), keeps(ls, b)]
            0 <= b < a < ls.len() && keeps(ls, a) && indent_width(ls[b]) < indent_width(ls[a])
                && (forall|k: int| b < k < a ==> indent_width(ls[a]) <= #[trigger] indent_width(
                ls[k],
            )) ==> keeps(ls, b),
{
    assert forall|a: int, b: int|
        #![trigger keeps(ls, a), keeps(ls, b)]
        0 <= b < a < ls.len() && keeps(ls, a) && indent_width(ls[b]) < indent_width(ls[a])
            && (forall|k: int| b < k < a ==> indent_width(ls[a]) <= #[trigger] indent_width(
            ls[k],
        )) implies keeps(ls, b) by {
        if marked_line(ls[a]) {
            assert(kept_by(ls, a, b));
        } else {
            let i = choose|i: int| #[trigger] kept_by(ls, i, a);
            assert forall|k: int| b < k < i implies indent_width(#[trigger] ls[k]) != 0 by {
                if k < a {
                    assert(indent_width(ls[a]) <= indent_width(ls[k]));
                }
            }
            assert(kept_by(ls, i, b));
        }
    }
}

} // verus!

verus! {

// ---------------------------------------------------------------------------
// Whether rendering ends

/// Ranks as plain numbers.
pub open spec fn rank_nats(r: Seq<usize>) -> Seq<nat> {
    r.map_values(|x: usize| x as nat)
}

/// Every node that is not ranked has a child that is not ranked either.
pub open spec fn stuck(ms: Seq<NodeModel>, r: Seq<usize>) -> bool {
    forall|i: int|
        0 <= i < ms.len() && r[i] == 0 ==> exists|k: int|
            0 <= k < ms[i].children.len() && r[#[trigger] ms[i].children[k] as int] == 0
}

/// The number of ranked nodes.
pub open spec fn ranked_count(r: Seq<usize>) -> nat
    decreases r.len(),
{
    if r.len() == 0 {
        0
    } else {
        ranked_count(r.drop_last()) + if r.last() > 0 {
            1nat
        } else {
            0nat
        }
    }
}

proof fn lemma_ranked_count_bound(r: Seq<usize>)
    ensures
        ranked_count(r) <= r.len(),
    decreases r.len(),
{
    if r.len() > 0 {
        lemma_ranked_count_bound(r.drop_last());
    }
}

proof fn lemma_ranked_count_update(r: Seq<usize>, i: int, v: usize)
    requires
        0 <= i < r.len(),
        r[i] == 0,
        v > 0,
    ensures
        ranked_count(r.update(i, v)) == ranked_count(r) + 1,
    decreases r.len(),
{
    let u = r.update(i, v);
    if i == r.len() - 1 {
        assert(u.drop_last() =~= r.drop_last());
    } else {
        assert(u.drop_last() =~= r.drop_last().update(i, v));
        lemma_ranked_count_update(r.drop_last(), i, v);
    }
}

/// Ranks of a valid ranking of `ms`, as stored.
pub open spec fn ranks_ok(ms: Seq<NodeModel>, r: Seq<usize>) -> bool {
    &&& r.len() == ms.len()
    &&& forall|i: int| 0 <= i < ms.len() ==> #[trigger] r[i] <= ms.len()
    &&& forall|i: int, k: int|
        0 <= i < ms.len() && r[i] > 0 && 0 <= k < ms[i].children.len() ==> {
            let c = #[trigger] ms[i].children[k] as int;
            &&& 0 <= c < ms.len()
            &&& 0 < r[c] < r[i]
        }
}

proof fn lemma_ranks_ok_valid(ms: Seq<NodeModel>, r: Seq<usize>)
    requires
        ranks_ok(ms, r),
    ensures
        valid_rank(ms, rank_nats(r)),
{
    let rn = rank_nats(r);
    assert forall|i: int| 0 <= i < ms.len() implies #[trigger] rn[i] <= ms.len() by {
        assert(rn[i] == r[i] as nat);
    }
    assert forall|i: int, k: int|
        0 <= i < ms.len() && rn[i] > 0 && 0 <= k < ms[i].children.len() implies {
        let c = #[trigger] ms[i].children[k] as int;
        &&& 0 <= c < ms.len()
        &&& 0 < rn[c] < rn[i]
    } by {
        assert(rn[i] == r[i] as nat);
        let c = ms[i].children[k] as int;
        assert(rn[c] == r[c] as nat);
    }
}

/// Under any ranking that shows rendering ends, every ranked node is ranked
/// by peeling too, once peeling is stuck.
proof fn lemma_stuck_ranks_all(ms: Seq<NodeModel>, r: Seq<usize>, big: Seq<nat>, v: nat)
    requires
        r.len() == ms.len(),
        stuck(ms, r),
        valid_rank(ms, big),
    ensures
        forall|i: int| 0 <= i < ms.len() && 0 < big[i] <= v ==> r[i] > 0,
    decreases v,
{
    if v > 0 {
        lemma_stuck_ranks_all(ms, r, big, (v - 1) as nat);
        assert forall|i: int| 0 <= i < ms.len() && 0 < big[i] <= v implies r[i] > 0 by {
            if r[i] == 0 {
                let k = choose|k: int|
                    0 <= k < ms[i].children.len() && r[#[trigger] ms[i].children[k] as int] == 0;
                let c = ms[i].children[k] as int;
                assert(0 < big[c] < big[i]);
            }
        }
    }
}

/// Whether every child of the node at `i` is ranked.
fn children_ranked(tree: &Vec<TreeNode>, i: usize, rank: &Vec<usize>) -> (r: bool)
    requires
        i < tree@.len(),
        rank@.len() == tree@.len(),
        well_indexed(models(tree@)),
    ensures
        r == forall|k: int|
            0 <= k < models(tree@)[i as int].children.len() ==> rank@[#[trigger] models(
                tree@,
            )[i as int].children[k] as int] > 0,
{
    let ghost ms = models(tree@);
    assert(ms[i as int] == tree@[i as int].model());
    let mut k: usize = 0;
    while k < tree[i].children.len()
        invariant
            i < tree@.len(),
            ms == models(tree@),
            well_indexed(ms),
            rank@.len() == tree@.len(),
            ms[i as int].children == tree@[i as int].children@,
            k <= ms[i as int].children.len(),
            forall|j: int| 0 <= j < k ==> rank@[#[trigger] ms[i as int].children[j] as int] > 0,
        decreases ms[i as int].children.len() - k,
    {
        let c = tree[i].children[k];
        assert(c == ms[i as int].children[k as int]);
        if rank[c] == 0 {
            return false;
        }
        k = k + 1;
    }
    true
}

/// Ranks the nodes by peeling: a node is ranked once all its children are,
/// with a rank above theirs; peeling stops when a pass ranks nothing.
fn peel_ranks(tree: &Vec<TreeNode>) -> (rank: Vec<usize>)
    requires
        well_indexed(models(tree@)),
    ensures
        ranks_ok(models(tree@), rank@),
        stuck(models(tree@), rank@),
{
    let ghost ms = models(tree@);
    let n = tree.len();
    let mut rank: Vec<usize> = Vec::new();
    let mut i: usize = 0;
    while i < n
        invariant
            i <= n,
            n == tree@.len(),
            rank@.len() == i,
            forall|j: int| 0 <= j < i ==> #[trigger] rank@[j] == 0,
        decreases n - i,
    {
        rank.push(0);
        i = i + 1;
    }
    proof {
        assert forall|prefix: int| 0 <= prefix <= rank@.len() implies ranked_count(
            rank@.take(prefix),
        ) == 0 by {
            lemma_zero_count(rank@.take(prefix));
        }
        assert(rank@.take(rank@.len() as int) =~= rank@);
    }
    let mut assigned: usize = 0;
    let mut changed = true;
    while changed
        invariant
            n == tree@.len(),
            ms == models(tree@),
            well_indexed(ms),
            ranks_ok(ms, rank@),
            assigned == ranked_count(rank@),
            assigned <= n,
            forall|j: int| 0 <= j < n ==> #[trigger] rank@[j] <= assigned,
            !changed ==> stuck(ms, rank@),
        decreases n - assigned + if changed {
            1int
        } else {
            0int
        },
    {
        let ghost start_assigned = assigned;
        changed = false;
        let mut j: usize = 0;
        while j < n
            invariant
                j <= n,
                n == tree@.len(),
                ms == models(tree@),
                well_indexed(ms),
                ranks_ok(ms, rank@),
                assigned == ranked_count(rank@),
                start_assigned <= assigned <= n,
                changed == (assigned > start_assigned),
                forall|x: int| 0 <= x < n ==> #[trigger] rank@[x] <= assigned,
                !changed ==> forall|x: int|
                    0 <= x < j && rank@[x] == 0 ==> exists|k: int|
                        0 <= k < ms[x].children.len() && rank@[#[trigger] ms[x].children[k] as int]
                            == 0,
            decreases n - j,
        {
            if rank[j] == 0 && children_ranked(tree, j, &rank) {
                proof {
                    lemma_ranked_count_bound(rank@);
                    if assigned == n {
                        lemma_all_ranked(rank@);
                    }
                    assert(assigned < n);
                    lemma_ranked_count_update(rank@, j as int, (assigned + 1) as usize);
                }
                let ghost before = rank@;
                rank.set(j, assigned + 1);
                assigned = assigned + 1;
                changed = true;
                proof {
                    assert forall|x: int, k: int|
                        0 <= x < ms.len() && rank@[x] > 0 && 0 <= k < ms[x].children.len() implies {
                        let c = #[trigger] ms[x].children[k] as int;
                        &&& 0 <= c < ms.len()
                        &&& 0 < rank@[c] < rank@[x]
                    } by {
                        let c = ms[x].children[k] as int;
                        if x == j {
                            assert(before[c] > 0);
                            assert(before[c] <= assigned - 1);
                        } else {
                            assert(before[x] > 0);
                            if c == j {
                                assert(before[c] > 0);
                            }
                        }
                    }
                }
            }
            j = j + 1;
        }
    }
    rank
}

proof fn lemma_zero_count(r: Seq<usize>)
    requires
        forall|j: int| 0 <= j < r.len() ==> #[trigger] r[j] == 0,
    ensures
        ranked_count(r) == 0,
    decreases r.len(),
{
    if r.len() > 0 {
        assert forall|j: int| 0 <= j < r.drop_last().len() implies #[trigger] r.drop_last()[j]
            == 0 by {
            assert(r.drop_last()[j] == r[j]);
        }
        lemma_zero_count(r.drop_last());
    }
}

proof fn lemma_all_ranked(r: Seq<usize>)
    requires
        ranked_count(r) == r.len(),
    ensures
        forall|j: int| 0 <= j < r.len() ==> #[trigger] r[j] > 0,
    decreases r.len(),
{
    if r.len() > 0 {
        lemma_ranked_count_bound(r.drop_last());
        lemma_all_ranked(r.drop_last());
        assert forall|j: int| 0 <= j < r.len() implies #[trigger] r[j] > 0 by {
            if j < r.len() - 1 {
                assert(r[j] == r.drop_last()[j]);
            }
        }
    }
}

/// Whether rendering the tree built from `nodes` ends: no cycle of
/// children can be reached from a root.
pub fn snapshot_walk_ends(nodes: &[AxNode]) -> (r: bool)
    ensures
        r == walk_ends(nodes@),
{
    let count = nodes.len();
    let (tree, roots_found) = shape_tree(nodes);
    let ghost tm = tree_model(nodes@);
    proof {
        lemma_tree_model_shape(nodes@);
    }
    let rank = peel_ranks(&tree);
    proof {
        lemma_roots_bound(tm, tm.len() as int);
    }
    let mut k: usize = 0;
    while k < roots_found.len()
        invariant
            roots_found@ == roots(tm),
            tm == models(tree@),
            tm == tree_model(nodes@),
            stuck(tm, rank@),
            rank@.len() == tm.len(),
            forall|r: int| 0 <= r < roots_found@.len() ==> #[trigger] roots_found@[r] < tm.len(),
            k <= roots_found@.len(),
            forall|r: int| 0 <= r < k ==> rank@[#[trigger] roots_found@[r] as int] > 0,
        decreases roots_found@.len() - k,
    {
        if rank[roots_found[k]] == 0 {
            proof {
                if walk_ends(nodes@) {
                    let big = choose|big: Seq<nat>| ranked_tree(tm, big);
                    let root = roots_found@[k as int] as int;
                    assert(roots(tm)[k as int] as int == root);
                    assert(big[root] > 0);
                    lemma_stuck_ranks_all(tm, rank@, big, big[root]);
                }
            }
            return false;
        }
        k = k + 1;
    }
    proof {
        lemma_ranks_ok_valid(tm, rank@);
        let rn = rank_nats(rank@);
        assert forall|r: int| 0 <= r < roots(tm).len() implies rn[#[trigger] roots(tm)[r] as int]
            > 0 by {
            assert(rank@[roots_found@[r] as int] > 0);
        }
        assert(ranked_tree(tm, rn));
    }
    true
}

} // verus!

verus! {

/// Every node with a DOM node and a role a user acts on gets a ref: a
/// button, link, textbox, checkbox, radio, combobox, listbox, menuitem,
/// menuitemcheckbox, menuitemradio, option, searchbox, slider, spinbutton,
/// switch, tab, treeitem or Iframe. So does a named heading, cell,
/// gridcell, columnheader, rowheader, listitem, article, region, main or
/// navigation. Such a node shows the next label, `e` and one more than the
/// number of such nodes before it.
pub proof fn lemma_interactive_nodes_get_refs(ms: Seq<NodeModel>, i: int)
    requires
        0 <= i < ms.len(),
        ms[i].backend_node_id is Some,
    ensures
        ({
            let r = ms[i].role;
            r == "button"@ || r == "link"@ || r == "textbox"@ || r == "checkbox"@ || r == "radio"@
                || r == "combobox"@ || r == "listbox"@ || r == "menuitem"@ || r
                == "menuitemcheckbox"@ || r == "menuitemradio"@ || r == "option"@ || r
                == "searchbox"@ || r == "slider"@ || r == "spinbutton"@ || r == "switch"@ || r
                == "tab"@ || r == "treeitem"@ || r == "Iframe"@
        }) ==> gets_ref(ms[i]) && with_refs(ms)[i].ref_id == Some(ref_label(ref_count(ms, i) + 1)),
        ({
            let r = ms[i].role;
            (r == "heading"@ || r == "cell"@ || r == "gridcell"@ || r == "columnheader"@ || r
                == "rowheader"@ || r == "listitem"@ || r == "article"@ || r == "region"@ || r
                == "main"@ || r == "navigation"@) && ms[i].name.len() > 0
        }) ==> gets_ref(ms[i]) && with_refs(ms)[i].ref_id == Some(ref_label(ref_count(ms, i) + 1)),
{
}

} // verus!
