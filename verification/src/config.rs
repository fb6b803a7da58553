//! Pipeline configurations and their validation.

use crate::graph::Graph;
use crate::graph::{rankable, ranks, respects, rows, sources_in_range};
use crate::text::{cat, cat5, same_text, size_text, trim};
use crate::text::{is_space, lemma_trimmed, numeral, texts, trimmed};
use vstd::prelude::*;

verus! {

/// One step of a pipeline: the engine that runs it, its code, and the names of its inputs.
#[derive(Debug)]
pub struct NodeConfig {
    pub name: String,
    pub engine: String,
    pub code: String,
    pub inputs: Vec<String>,
}

/// A named pipeline of nodes.
#[derive(Debug)]
pub struct PipelineConfig {
    pub name: String,
    pub nodes: Vec<NodeConfig>,
}

/// What a [`NodeConfig`] says.
pub struct NodeSpec {
    pub name: Seq<char>,
    pub engine: Seq<char>,
    pub code: Seq<char>,
    pub inputs: Seq<Seq<char>>,
}

/// What a [`PipelineConfig`] says.
pub struct PipelineSpec {
    pub name: Seq<char>,
    pub nodes: Seq<NodeSpec>,
}

impl NodeConfig {
    pub open spec fn view(&self) -> NodeSpec {
        NodeSpec {
            name: self.name@,
            engine: self.engine@,
            code: self.code@,
            inputs: texts(self.inputs@),
        }
    }
}

/// What each node of a sequence says.
pub open spec fn node_specs(nodes: Seq<NodeConfig>) -> Seq<NodeSpec> {
    Seq::new(nodes.len(), |i: int| nodes[i].view())
}

impl PipelineConfig {
    pub open spec fn view(&self) -> PipelineSpec {
        PipelineSpec { name: self.name@, nodes: node_specs(self.nodes@) }
    }
}

/// Why a configuration is refused.
#[derive(Debug)]
pub enum ConfigError {
    Parse(String),
    PayloadTooLarge(usize, usize),
    DepthExceeded(usize),
    DuplicateNode(String),
    InvalidEngine(String),
    CycleDetected,
}

/// What a [`ConfigError`] says.
pub enum ConfigFault {
    Parse(Seq<char>),
    PayloadTooLarge(usize, usize),
    DepthExceeded(usize),
    DuplicateNode(Seq<char>),
    InvalidEngine(Seq<char>),
    CycleDetected,
}

impl ConfigError {
    pub open spec fn view(&self) -> ConfigFault {
        match self {
            ConfigError::Parse(s) => ConfigFault::Parse(s@),
            ConfigError::PayloadTooLarge(n, m) => ConfigFault::PayloadTooLarge(*n, *m),
            ConfigError::DepthExceeded(n) => ConfigFault::DepthExceeded(*n),
            ConfigError::DuplicateNode(s) => ConfigFault::DuplicateNode(s@),
            ConfigError::InvalidEngine(s) => ConfigFault::InvalidEngine(s@),
            ConfigError::CycleDetected => ConfigFault::CycleDetected,
        }
    }

    /// The message for the user.
    pub fn message(&self) -> (r: String)
        ensures
            r@ == fault_message(self@),
    {
        match self {
            ConfigError::Parse(s) => cat("failed to parse pipeline config: ", s.as_str()),
            ConfigError::PayloadTooLarge(n, m) => cat5(
                "pipeline config payload too large: ",
                size_text(*n).as_str(),
                " bytes exceeds ",
                size_text(*m).as_str(),
                " byte limit",
            ),
            ConfigError::DepthExceeded(n) => cat(
                "pipeline config exceeds maximum nesting depth of ",
                size_text(*n).as_str(),
            ),
            ConfigError::DuplicateNode(s) => cat("duplicate node name: ", s.as_str()),
            ConfigError::InvalidEngine(s) => cat("invalid engine: ", s.as_str()),
            ConfigError::CycleDetected => "cycle detected in pipeline".to_owned(),
        }
    }
}

/// The message for a fault.
pub open spec fn fault_message(f: ConfigFault) -> Seq<char> {
    match f {
        ConfigFault::Parse(s) => "failed to parse pipeline config: "@ + s,
        ConfigFault::PayloadTooLarge(n, m) => "pipeline config payload too large: "@ + numeral(
            n as nat,
        ) + " bytes exceeds "@ + numeral(m as nat) + " byte limit"@,
        ConfigFault::DepthExceeded(n) => "pipeline config exceeds maximum nesting depth of "@
            + numeral(n as nat),
        ConfigFault::DuplicateNode(s) => "duplicate node name: "@ + s,
        ConfigFault::InvalidEngine(s) => "invalid engine: "@ + s,
        ConfigFault::CycleDetected => "cycle detected in pipeline"@,
    }
}

/// What is wrong with node `i` by itself: a blank name, a name that an earlier node has, or a blank
/// engine. Which engines there are is known to the runtime alone: a node on an engine that nobody
/// registered fails when its turn comes.
pub open spec fn node_fault(nodes: Seq<NodeSpec>, i: int) -> Option<ConfigFault> {
    if trimmed(nodes[i].name).len() == 0 {
        Some(ConfigFault::InvalidEngine(nodes[i].name))
    } else if named_before(nodes, i) {
        Some(ConfigFault::DuplicateNode(nodes[i].name))
    } else if trimmed(nodes[i].engine).len() == 0 {
        Some(ConfigFault::InvalidEngine(nodes[i].engine))
    } else {
        None
    }
}

/// Whether an earlier node has the name of node `i`.
pub open spec fn named_before(nodes: Seq<NodeSpec>, i: int) -> bool {
    exists|j: int| 0 <= j < i && (#[trigger] nodes[j]).name == nodes[i].name
}

/// What is wrong with the first faulty node from node `i` on.
pub open spec fn first_fault(nodes: Seq<NodeSpec>, i: nat) -> Option<ConfigFault>
    decreases nodes.len() - i,
{
    if i >= nodes.len() {
        None
    } else {
        match node_fault(nodes, i as int) {
            Some(f) => Some(f),
            None => first_fault(nodes, i + 1),
        }
    }
}

/// Whether node `b` takes the output of node `a` as an input.
pub open spec fn feeds(nodes: Seq<NodeSpec>, a: int, b: int) -> bool {
    nodes[b].inputs.contains(nodes[a].name)
}

/// Whether the ranks rise from every node to those that it feeds.
pub open spec fn ranked(nodes: Seq<NodeSpec>, rank: Seq<int>) -> bool {
    &&& rank.len() == nodes.len()
    &&& forall|a: int, b: int|
        0 <= a < nodes.len() && 0 <= b < nodes.len() && #[trigger] feeds(nodes, a, b) ==> rank[a]
            < rank[b]
}

/// Whether no node feeds itself, directly or through others: then the nodes can be ranked.
pub open spec fn acyclic(nodes: Seq<NodeSpec>) -> bool {
    exists|rank: Seq<int>| ranked(nodes, rank)
}

/// What is wrong with the nodes of a configuration, if anything is.
pub open spec fn config_fault(nodes: Seq<NodeSpec>) -> Option<ConfigFault> {
    match first_fault(nodes, 0) {
        Some(f) => Some(f),
        None => if acyclic(nodes) {
            None
        } else {
            Some(ConfigFault::CycleDetected)
        },
    }
}

/// Whether no two nodes share a name.
pub open spec fn distinct_nodes(nodes: Seq<NodeSpec>) -> bool {
    forall|i: int, j: int|
        0 <= i < j < nodes.len() ==> (#[trigger] nodes[i]).name != (#[trigger] nodes[j]).name
}

/// The first node of that name.
pub open spec fn place(nodes: Seq<NodeSpec>, name: Seq<char>) -> Option<usize>
    decreases nodes.len(),
{
    if nodes.len() == 0 {
        None
    } else {
        match place(nodes.drop_last(), name) {
            Some(i) => Some(i),
            None => if nodes.last().name == name {
                Some((nodes.len() - 1) as usize)
            } else {
                None
            },
        }
    }
}

/// The nodes among the inputs, one entry for each input that names a node.
pub open spec fn input_nodes(nodes: Seq<NodeSpec>, inputs: Seq<Seq<char>>) -> Seq<usize>
    decreases inputs.len(),
{
    if inputs.len() == 0 {
        Seq::empty()
    } else {
        let rest = input_nodes(nodes, inputs.drop_last());
        match place(nodes, inputs.last()) {
            Some(i) => rest.push(i),
            None => rest,
        }
    }
}

/// For each node, the nodes among its inputs.
pub open spec fn node_sources(nodes: Seq<NodeSpec>) -> Seq<Seq<usize>> {
    Seq::new(nodes.len(), |i: int| input_nodes(nodes, nodes[i].inputs))
}

/// What is found has the name; what is not found, no node has.
pub proof fn lemma_place(nodes: Seq<NodeSpec>, name: Seq<char>)
    requires
        nodes.len() <= usize::MAX,
    ensures
        match place(nodes, name) {
            Some(i) => i < nodes.len() && nodes[i as int].name == name && forall|j: int|
                0 <= j < i ==> (#[trigger] nodes[j]).name != name,
            None => forall|j: int| 0 <= j < nodes.len() ==> (#[trigger] nodes[j]).name != name,
        },
    decreases nodes.len(),
{
    if nodes.len() > 0 {
        let rest = nodes.drop_last();
        lemma_place(rest, name);
        match place(rest, name) {
            Some(i) => {
                assert(nodes[i as int] == rest[i as int]);
                assert forall|j: int| 0 <= j < i implies (#[trigger] nodes[j]).name != name by {
                    assert(rest[j] == nodes[j]);
                }
            },
            None => {
                assert forall|j: int| 0 <= j < rest.len() implies (#[trigger] nodes[j]).name
                    != name by {
                    assert(rest[j] == nodes[j]);
                }
            },
        }
    }
}

/// Among distinct nodes, each is the first of its name.
pub proof fn lemma_place_node(nodes: Seq<NodeSpec>, i: int)
    requires
        distinct_nodes(nodes),
        nodes.len() <= usize::MAX,
        0 <= i < nodes.len(),
    ensures
        place(nodes, nodes[i].name) == Some(i as usize),
{
    lemma_place(nodes, nodes[i].name);
    match place(nodes, nodes[i].name) {
        Some(j) => {
            if j < i {
                assert(nodes[j as int].name != nodes[i].name);
            }
        },
        None => {},
    }
}

/// A node is among the inputs exactly when its name is.
pub proof fn lemma_input_nodes(nodes: Seq<NodeSpec>, inputs: Seq<Seq<char>>)
    requires
        distinct_nodes(nodes),
        nodes.len() <= usize::MAX,
    ensures
        forall|k: int|
            0 <= k < input_nodes(nodes, inputs).len() ==> (#[trigger] input_nodes(nodes, inputs)[k])
                < nodes.len() && inputs.contains(nodes[input_nodes(nodes, inputs)[k] as int].name),
        forall|a: int|
            0 <= a < nodes.len() && inputs.contains((#[trigger] nodes[a]).name) ==> input_nodes(
                nodes,
                inputs,
            ).contains(a as usize),
    decreases inputs.len(),
{
    let all = input_nodes(nodes, inputs);
    if inputs.len() > 0 {
        let front = inputs.drop_last();
        let rest = input_nodes(nodes, front);
        lemma_input_nodes(nodes, front);
        lemma_place(nodes, inputs.last());
        assert(inputs[inputs.len() - 1] == inputs.last());
        assert forall|k: int| 0 <= k < all.len() implies (#[trigger] all[k]) < nodes.len()
            && inputs.contains(nodes[all[k] as int].name) by {
            if k < rest.len() {
                assert(all[k] == rest[k]);
                let name = nodes[rest[k] as int].name;
                assert(front.contains(name));
                let i = choose|i: int| 0 <= i < front.len() && front[i] == name;
                assert(inputs[i] == name);
            }
        }
        assert forall|a: int|
            0 <= a < nodes.len() && inputs.contains((#[trigger] nodes[a]).name) implies all.contains(
            a as usize,
        ) by {
            let name = nodes[a].name;
            let i = choose|i: int| 0 <= i < inputs.len() && inputs[i] == name;
            if i < front.len() {
                assert(front[i] == name);
                assert(rest.contains(a as usize));
                let k = choose|k: int| 0 <= k < rest.len() && rest[k] == a as usize;
                assert(all[k] == a as usize);
            } else {
                lemma_place_node(nodes, a);
                assert(all[rest.len() as int] == a as usize);
            }
        }
    }
}

/// Distinct nodes can be ranked exactly when the nodes that they wait for can.
pub proof fn lemma_acyclic(nodes: Seq<NodeSpec>)
    requires
        distinct_nodes(nodes),
        nodes.len() <= usize::MAX,
    ensures
        acyclic(nodes) <==> rankable(node_sources(nodes)),
        sources_in_range(node_sources(nodes)),
{
    let src = node_sources(nodes);
    assert forall|b: int, k: int| 0 <= b < src.len() && 0 <= k < src[b].len() implies (
    #[trigger] src[b][k]) < src.len() && feeds(nodes, src[b][k] as int, b) by {
        lemma_input_nodes(nodes, nodes[b].inputs);
        assert(input_nodes(nodes, nodes[b].inputs)[k] < nodes.len());
    }
    if acyclic(nodes) {
        let rank = choose|rank: Seq<int>| ranked(nodes, rank);
        assert forall|b: int, k: int| 0 <= b < src.len() && 0 <= k < src[b].len() implies rank[(
        #[trigger] src[b][k]) as int] < rank[b] by {
            assert(feeds(nodes, src[b][k] as int, b));
        }
        assert(ranks(src, rank));
    }
    if rankable(src) {
        let rank = choose|rank: Seq<int>| ranks(src, rank);
        assert forall|a: int, b: int|
            0 <= a < nodes.len() && 0 <= b < nodes.len() && #[trigger] feeds(
                nodes,
                a,
                b,
            ) implies rank[a] < rank[b] by {
            lemma_input_nodes(nodes, nodes[b].inputs);
            assert(nodes[b].inputs.contains(nodes[a].name));
            assert(src[b].contains(a as usize));
            let k = choose|k: int| 0 <= k < src[b].len() && src[b][k] == a as usize;
            assert(rank[src[b][k] as int] < rank[b]);
        }
        assert(ranked(nodes, rank));
    }
}

proof fn lemma_no_fault(nodes: Seq<NodeSpec>, i: nat, j: int)
    requires
        first_fault(nodes, i) is None,
        i <= j < nodes.len(),
    ensures
        node_fault(nodes, j) is None,
    decreases j - i,
{
    if j > i {
        lemma_no_fault(nodes, i + 1, j);
    }
}

/// Nodes without a fault have distinct names.
pub proof fn lemma_faultless_distinct(nodes: Seq<NodeSpec>)
    requires
        first_fault(nodes, 0) is None,
    ensures
        distinct_nodes(nodes),
{
    assert forall|i: int, j: int| 0 <= i < j < nodes.len() implies (#[trigger] nodes[i]).name != (
    #[trigger] nodes[j]).name by {
        lemma_no_fault(nodes, 0, j);
        assert(!named_before(nodes, j));
    }
}

/// The first of the nodes that has that name.
pub fn find_node(nodes: &Vec<NodeConfig>, name: &str) -> (r: Option<usize>)
    ensures
        r == place(node_specs(nodes@), name@),
{
    let ghost specs = node_specs(nodes@);
    let mut i: usize = 0;
    assert(specs.take(0).len() == 0);
    while i < nodes.len()
        invariant
            i <= nodes@.len(),
            specs == node_specs(nodes@),
            place(specs.take(i as int), name@) is None,
        decreases nodes.len() - i,
    {
        let same = same_text(nodes[i].name.as_str(), name);
        proof {
            assert(specs.take(i + 1).drop_last() =~= specs.take(i as int));
            assert(specs.take(i + 1).last() == nodes@[i as int].view());
        }
        if same {
            proof {
                lemma_place_take(specs, i + 1, name@);
            }
            return Some(i);
        }
        i += 1;
    }
    assert(specs.take(i as int) =~= specs);
    None
}

proof fn lemma_place_take(nodes: Seq<NodeSpec>, i: int, name: Seq<char>)
    requires
        0 <= i <= nodes.len(),
        place(nodes.take(i), name) is Some,
    ensures
        place(nodes, name) == place(nodes.take(i), name),
    decreases nodes.len(),
{
    if i < nodes.len() {
        assert(nodes.drop_last().take(i) =~= nodes.take(i));
        lemma_place_take(nodes.drop_last(), i, name);
    } else {
        assert(nodes.take(i) =~= nodes);
    }
}

/// For each node, the nodes that it waits for: those among its inputs.
pub fn resolve_sources(nodes: &Vec<NodeConfig>) -> (r: Vec<Vec<usize>>)
    ensures
        rows(r@) == node_sources(node_specs(nodes@)),
{
    let ghost specs = node_specs(nodes@);
    let mut r: Vec<Vec<usize>> = Vec::new();
    let mut i: usize = 0;
    while i < nodes.len()
        invariant
            i <= nodes@.len(),
            specs == node_specs(nodes@),
            r@.len() == i,
            forall|j: int| 0 <= j < i ==> (#[trigger] r@[j])@ == input_nodes(specs, specs[j].inputs),
        decreases nodes.len() - i,
    {
        let inputs = &nodes[i].inputs;
        let ghost names = texts(inputs@);
        let mut row: Vec<usize> = Vec::new();
        let mut k: usize = 0;
        assert(names.take(0) =~= Seq::<Seq<char>>::empty());
        while k < inputs.len()
            invariant
                k <= inputs@.len(),
                specs == node_specs(nodes@),
                names == texts(inputs@),
                row@ == input_nodes(specs, names.take(k as int)),
            decreases inputs.len() - k,
        {
            proof {
                assert(names.take(k + 1).drop_last() =~= names.take(k as int));
                assert(names.take(k + 1).last() == inputs@[k as int]@);
            }
            match find_node(nodes, inputs[k].as_str()) {
                Some(j) => {
                    row.push(j);
                },
                None => {},
            }
            k += 1;
        }
        assert(names.take(k as int) =~= names);
        assert(specs[i as int].inputs == names);
        r.push(row);
        i += 1;
    }
    assert(rows(r@) =~= node_sources(specs));
    r
}

/// For each node the nodes that it waits for, and the nodes that wait for it.
pub fn build_dependency_graph(nodes: &Vec<NodeConfig>) -> (r: Graph)
    requires
        distinct_nodes(node_specs(nodes@)),
    ensures
        r.source_lists() == node_sources(node_specs(nodes@)),
        r.wf(),
{
    proof {
        assert(nodes@.len() == nodes.len());
        lemma_acyclic(node_specs(nodes@));
    }
    Graph::new(resolve_sources(nodes))
}

/// Every node after all the nodes that feed it, if there is such an order.
pub fn topological_sort(nodes: &Vec<NodeConfig>) -> (r: Result<Vec<usize>, String>)
    requires
        distinct_nodes(node_specs(nodes@)),
    ensures
        match r {
            Ok(order) => acyclic(node_specs(nodes@)) && respects(
                node_sources(node_specs(nodes@)),
                order@,
            ) && forall|b: int|
                0 <= b < nodes@.len() ==> order@.contains(#[trigger] (b as usize)),
            Err(e) => !acyclic(node_specs(nodes@)) && e@
                == "pipeline contains a cycle or unresolved dependency"@,
        },
{
    proof {
        assert(nodes@.len() == nodes.len());
        lemma_acyclic(node_specs(nodes@));
    }
    match build_dependency_graph(nodes).order() {
        Some(order) => Ok(order),
        None => Err("pipeline contains a cycle or unresolved dependency".to_owned()),
    }
}

fn check_node(nodes: &Vec<NodeConfig>, i: usize) -> (r: Option<ConfigError>)
    requires
        i < nodes@.len(),
    ensures
        match r {
            Some(e) => node_fault(node_specs(nodes@), i as int) == Some(e@),
            None => node_fault(node_specs(nodes@), i as int) is None,
        },
{
    let ghost specs = node_specs(nodes@);
    let node = &nodes[i];
    assert(specs[i as int] == node.view());
    if trim(node.name.as_str()).as_str().unicode_len() == 0 {
        return Some(ConfigError::InvalidEngine(node.name.clone()));
    }
    let mut j: usize = 0;
    while j < i
        invariant
            j <= i < nodes@.len(),
            specs == node_specs(nodes@),
            node == nodes@[i as int],
            specs[i as int] == node.view(),
            trimmed(node.name@).len() != 0,
            forall|k: int| 0 <= k < j ==> (#[trigger] specs[k]).name != node.name@,
        decreases i - j,
    {
        if same_text(nodes[j].name.as_str(), node.name.as_str()) {
            assert(specs[j as int].name == specs[i as int].name);
            return Some(ConfigError::DuplicateNode(node.name.clone()));
        }
        assert(specs[j as int].name == nodes@[j as int].name@);
        j += 1;
    }
    assert(!named_before(specs, i as int));
    if trim(node.engine.as_str()).as_str().unicode_len() == 0 {
        return Some(ConfigError::InvalidEngine(node.engine.clone()));
    }
    None
}

impl PipelineConfig {
    /// Checks the nodes one by one, then that none feeds itself.
    pub fn validate(&self) -> (r: Result<(), ConfigError>)
        ensures
            match r {
                Ok(_) => config_fault(self@.nodes) is None,
                Err(e) => config_fault(self@.nodes) == Some(e@),
            },
    {
        let ghost specs = node_specs(self.nodes@);
        let mut i: usize = 0;
        while i < self.nodes.len()
            invariant
                i <= self.nodes@.len(),
                specs == node_specs(self.nodes@),
                first_fault(specs, 0) == first_fault(specs, i as nat),
            decreases self.nodes.len() - i,
        {
            match check_node(&self.nodes, i) {
                Some(e) => {
                    return Err(e);
                },
                None => {},
            }
            i += 1;
        }
        proof {
            lemma_faultless_distinct(specs);
        }
        match topological_sort(&self.nodes) {
            Ok(_) => Ok(()),
            Err(_) => Err(ConfigError::CycleDetected),
        }
    }
}

/// Whether a text says something: it holds a character that is not white space.
pub open spec fn says_something(s: Seq<char>) -> bool {
    exists|i: int| 0 <= i < s.len() && !is_space(#[trigger] s[i])
}

/// Whether a node can stand at its place: it has a name that no node before it has, and an engine.
pub open spec fn well_named(nodes: Seq<NodeSpec>, i: int) -> bool {
    &&& says_something(nodes[i].name)
    &&& says_something(nodes[i].engine)
    &&& forall|j: int| 0 <= j < i ==> (#[trigger] nodes[j]).name != nodes[i].name
}

proof fn lemma_first_fault_at(nodes: Seq<NodeSpec>, from: nat, i: int)
    requires
        from <= i < nodes.len(),
        forall|j: int| from <= j < i ==> node_fault(nodes, j) is None,
        node_fault(nodes, i) is Some,
    ensures
        first_fault(nodes, from) == node_fault(nodes, i),
    decreases i - from,
{
    if from < i {
        assert(node_fault(nodes, from as int) is None);
        lemma_first_fault_at(nodes, from + 1, i);
    }
}

proof fn lemma_no_first_fault(nodes: Seq<NodeSpec>, from: nat)
    requires
        forall|j: int| from <= j < nodes.len() ==> node_fault(nodes, j) is None,
    ensures
        first_fault(nodes, from) is None,
    decreases nodes.len() - from,
{
    if from < nodes.len() {
        assert(node_fault(nodes, from as int) is None);
        lemma_no_first_fault(nodes, from + 1);
    }
}

proof fn lemma_node_fault(nodes: Seq<NodeSpec>, i: int)
    ensures
        node_fault(nodes, i) is None <==> well_named(nodes, i),
{
    let a = lemma_trimmed(nodes[i].name);
    let b = lemma_trimmed(nodes[i].engine);
    if node_fault(nodes, i) is None {
        assert forall|j: int| 0 <= j < i implies (#[trigger] nodes[j]).name != nodes[i].name by {
            if nodes[j].name == nodes[i].name {
                assert(named_before(nodes, i));
            }
        }
    }
}

/// A pipeline is accepted if and only if each of its nodes has a name of its own and an engine, and
/// its nodes can be put in an order in which each comes after those that feed it.
pub proof fn lemma_pipeline_accepted(nodes: Seq<NodeSpec>)
    ensures
        config_fault(nodes) is None <==> (forall|i: int|
            0 <= i < nodes.len() ==> #[trigger] well_named(nodes, i)) && acyclic(nodes),
{
    assert forall|i: int| 0 <= i < nodes.len() implies (#[trigger] well_named(nodes, i) <==> node_fault(
        nodes,
        i,
    ) is None) by {
        lemma_node_fault(nodes, i);
    }
    if forall|i: int| 0 <= i < nodes.len() ==> #[trigger] well_named(nodes, i) {
        assert forall|i: int| 0 <= i < nodes.len() implies node_fault(nodes, i) is None by {
            assert(well_named(nodes, i));
        }
        lemma_no_first_fault(nodes, 0);
    }
    if first_fault(nodes, 0) is None {
        assert forall|i: int| 0 <= i < nodes.len() implies #[trigger] well_named(nodes, i) by {
            lemma_no_fault(nodes, 0, i);
        }
    }
}

/// The first node that cannot stand at its place is why a pipeline is refused: for a name that says
/// nothing, for the name that it shares, or for an engine that says nothing, in this order.
pub proof fn lemma_first_fault_named(nodes: Seq<NodeSpec>, i: int)
    requires
        0 <= i < nodes.len(),
        forall|j: int| 0 <= j < i ==> #[trigger] well_named(nodes, j),
        !well_named(nodes, i),
    ensures
        !says_something(nodes[i].name) ==> config_fault(nodes) == Some(
            ConfigFault::InvalidEngine(nodes[i].name),
        ),
        says_something(nodes[i].name) && (exists|j: int|
            0 <= j < i && (#[trigger] nodes[j]).name == nodes[i].name) ==> config_fault(nodes) == Some(
            ConfigFault::DuplicateNode(nodes[i].name),
        ),
        says_something(nodes[i].name) && (forall|j: int|
            0 <= j < i ==> (#[trigger] nodes[j]).name != nodes[i].name) ==> config_fault(nodes) == Some(
            ConfigFault::InvalidEngine(nodes[i].engine),
        ),
{
    assert forall|j: int| 0 <= j < i implies node_fault(nodes, j) is None by {
        assert(well_named(nodes, j));
        lemma_node_fault(nodes, j);
    }
    lemma_node_fault(nodes, i);
    lemma_first_fault_at(nodes, 0, i);
    let a = lemma_trimmed(nodes[i].name);
    let b = lemma_trimmed(nodes[i].engine);
}

/// Whether these nodes feed one another in a circle.
pub open spec fn circle(nodes: Seq<NodeSpec>, path: Seq<int>) -> bool {
    &&& path.len() > 1
    &&& path[0] == path.last()
    &&& forall|k: int| 0 <= k < path.len() ==> 0 <= (#[trigger] path[k]) < nodes.len()
    &&& forall|k: int, l: int|
        0 <= k && k + 1 == l && l < path.len() ==> nodes[#[trigger] path[l]].inputs.contains(
            nodes[#[trigger] path[k]].name,
        )
}

proof fn lemma_rank_rises(nodes: Seq<NodeSpec>, rank: Seq<int>, path: Seq<int>, k: int)
    requires
        ranked(nodes, rank),
        circle(nodes, path),
        0 < k < path.len(),
    ensures
        rank[path[0]] < rank[path[k]],
    decreases k,
{
    assert(feeds(nodes, path[k - 1], path[k]));
    if k > 1 {
        lemma_rank_rises(nodes, rank, path, k - 1);
    }
}

/// A pipeline whose nodes feed one another in a circle is refused, for the circle if for nothing else.
pub proof fn lemma_circle_refused(nodes: Seq<NodeSpec>, path: Seq<int>)
    requires
        circle(nodes, path),
    ensures
        config_fault(nodes) is Some,
        (forall|i: int| 0 <= i < nodes.len() ==> #[trigger] well_named(nodes, i)) ==> config_fault(nodes)
            == Some(ConfigFault::CycleDetected),
{
    if acyclic(nodes) {
        let rank = choose|rank: Seq<int>| ranked(nodes, rank);
        lemma_rank_rises(nodes, rank, path, path.len() - 1);
    }
    lemma_pipeline_accepted(nodes);
    if forall|i: int| 0 <= i < nodes.len() ==> #[trigger] well_named(nodes, i) {
        assert forall|i: int| 0 <= i < nodes.len() implies node_fault(nodes, i) is None by {
            assert(well_named(nodes, i));
            lemma_node_fault(nodes, i);
        }
        lemma_no_first_fault(nodes, 0);
    }
}

/// A pipeline in which no node takes its input from itself or from a node after it is accepted, if its
/// nodes have names of their own and engines.
pub proof fn lemma_ordered_accepted(nodes: Seq<NodeSpec>)
    requires
        forall|i: int| 0 <= i < nodes.len() ==> #[trigger] well_named(nodes, i),
        forall|a: int, b: int|
            0 <= b <= a < nodes.len() ==> !(#[trigger] nodes[b]).inputs.contains(
                (#[trigger] nodes[a]).name,
            ),
    ensures
        config_fault(nodes) is None,
{
    let rank = Seq::new(nodes.len(), |i: int| i);
    assert(ranked(nodes, rank));
    lemma_pipeline_accepted(nodes);
}

/// The message for a fault says what kind of fault it is, and gives the text or the numbers that belong
/// to it.
pub proof fn lemma_fault_told(s: Seq<char>, n: usize, m: usize)
    ensures
        fault_message(ConfigFault::Parse(s)) == "failed to parse pipeline config: "@ + s,
        fault_message(ConfigFault::DuplicateNode(s)) == "duplicate node name: "@ + s,
        fault_message(ConfigFault::InvalidEngine(s)) == "invalid engine: "@ + s,
        fault_message(ConfigFault::CycleDetected) == "cycle detected in pipeline"@,
        fault_message(ConfigFault::DepthExceeded(n))
            == "pipeline config exceeds maximum nesting depth of "@ + numeral(n as nat),
        fault_message(ConfigFault::PayloadTooLarge(n, m)) == "pipeline config payload too large: "@
            + numeral(n as nat) + " bytes exceeds "@ + numeral(m as nat) + " byte limit"@,
{
}

} // verus!
