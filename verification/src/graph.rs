//! Hosts grouped by network, and the graph that a renderer draws.
//!
//! The graph has one device node per host record, one subnet node per network
//! that holds a host, and one edge per host, from its network to the host.

use vstd::prelude::*;
use crate::addr::{format_subnet, lemma_network_of, network_of, subnet_text};
use crate::host::{all_wf, views, HostResult, HostView};

verus! {

/// The two kinds of node.
#[derive(Clone, Copy, Debug, PartialEq, Eq, Structural)]
pub enum NodeKind {
    Device,
    Subnet,
}

/// What a node stands for: a host, or a network by its base address.
pub enum NodeView {
    Device(HostView),
    Subnet(u32),
}

/// What an edge stands for: the network it leaves and the host it reaches.
pub struct EdgeView {
    pub network: u32,
    pub device: u32,
}

/// What a group stands for: a network and the hosts in it.
pub struct GroupView {
    pub network: u32,
    pub members: Seq<HostView>,
}

/// What a graph stands for.
pub struct GraphView {
    pub nodes: Seq<NodeView>,
    pub edges: Seq<EdgeView>,
}

/// The networks that hold a host, each once, in the order in which the list
/// first reaches them.
pub open spec fn distinct_networks(hosts: Seq<HostView>) -> Seq<u32>
    decreases hosts.len(),
{
    if hosts.len() == 0 {
        Seq::empty()
    } else {
        let earlier = distinct_networks(hosts.drop_last());
        if earlier.contains(hosts.last().network()) {
            earlier
        } else {
            earlier.push(hosts.last().network())
        }
    }
}

/// The hosts of a list that lie in `network`, in list order.
pub open spec fn members_of(hosts: Seq<HostView>, network: u32) -> Seq<HostView>
    decreases hosts.len(),
{
    if hosts.len() == 0 {
        Seq::empty()
    } else {
        let earlier = members_of(hosts.drop_last(), network);
        if hosts.last().network() == network {
            earlier.push(hosts.last())
        } else {
            earlier
        }
    }
}

/// The groups of a list of hosts: one per network that holds a host.
pub open spec fn groups_of(hosts: Seq<HostView>) -> Seq<GroupView> {
    distinct_networks(hosts).map_values(
        |network: u32| GroupView { network, members: members_of(hosts, network) },
    )
}

/// The edge that ties a host to its network.
pub open spec fn edge_of(host: HostView) -> EdgeView {
    EdgeView { network: host.network(), device: host.address }
}

/// The graph of a list of hosts: the device nodes in list order, then the
/// subnet nodes in the order of the groups; the edges in list order.
pub open spec fn graph_of(hosts: Seq<HostView>) -> GraphView {
    GraphView {
        nodes: hosts.map_values(|host: HostView| NodeView::Device(host))
            + distinct_networks(hosts).map_values(|network: u32| NodeView::Subnet(network)),
        edges: hosts.map_values(|host: HostView| edge_of(host)),
    }
}

/// The hosts of one network.
#[derive(Debug)]
pub struct SubnetGroup {
    network: u32,
    members: Vec<HostResult>,
}

impl View for SubnetGroup {
    type V = GroupView;

    closed spec fn view(&self) -> GroupView {
        GroupView { network: self.network, members: views(self.members@) }
    }
}

impl SubnetGroup {
    /// The records that the group holds.
    pub closed spec fn records(&self) -> Seq<HostResult> {
        self.members@
    }

    /// A group is well formed when it holds well-formed records and stands for
    /// them.
    pub open spec fn wf(&self) -> bool {
        &&& all_wf(self.records())
        &&& self@.members == views(self.records())
    }

    /// The base address of the network.
    pub fn network(&self) -> (network: u32)
        ensures
            network == self@.network,
    {
        self.network
    }

    /// The name of the network, in the form `A.B.C.0/24`.
    pub fn name(&self) -> (text: String)
        ensures
            text@ == subnet_text(self@.network),
    {
        format_subnet(self.network)
    }

    /// The hosts of the network, in the order of the list they were taken from.
    pub fn members(&self) -> (members: &Vec<HostResult>)
        ensures
            members@ == self.records(),
    {
        &self.members
    }
}

/// A node of the graph.
#[derive(Debug)]
pub enum Node {
    /// A host, with its record.
    Device(HostResult),
    /// A network, by its base address.
    Subnet(u32),
}

impl View for Node {
    type V = NodeView;

    open spec fn view(&self) -> NodeView {
        match self {
            Node::Device(host) => NodeView::Device(host@),
            Node::Subnet(network) => NodeView::Subnet(*network),
        }
    }
}

impl Node {
    /// A device node is well formed when its record is.
    pub open spec fn wf(&self) -> bool {
        match self {
            Node::Device(host) => host.wf(),
            Node::Subnet(_) => true,
        }
    }

    /// What identifies the node: the address text of a host, the name of a
    /// network.
    pub open spec fn id_text(&self) -> Seq<char> {
        match self {
            Node::Device(host) => host.address_text(),
            Node::Subnet(network) => subnet_text(*network),
        }
    }

    /// The kind of the node.
    pub fn kind(&self) -> (kind: NodeKind)
        ensures
            kind == NodeKind::Device <==> self@ is Device,
            kind == NodeKind::Subnet <==> self@ is Subnet,
    {
        match self {
            Node::Device(_) => NodeKind::Device,
            Node::Subnet(_) => NodeKind::Subnet,
        }
    }

    /// What identifies the node among the nodes of its graph.
    pub fn id(&self) -> (text: String)
        ensures
            text@ == self.id_text(),
    {
        match self {
            Node::Device(host) => host.address().clone(),
            Node::Subnet(network) => format_subnet(*network),
        }
    }
}

/// An edge of the graph, from a network to a host in it.
#[derive(Clone, Copy, Debug, PartialEq, Eq, Structural)]
pub struct Edge {
    network: u32,
    device: u32,
}

impl View for Edge {
    type V = EdgeView;

    closed spec fn view(&self) -> EdgeView {
        EdgeView { network: self.network, device: self.device }
    }
}

impl Edge {
    /// The base address of the network that the edge leaves.
    pub fn network(&self) -> (network: u32)
        ensures
            network == self@.network,
    {
        self.network
    }

    /// The address of the host that the edge reaches.
    pub fn device(&self) -> (device: u32)
        ensures
            device == self@.device,
    {
        self.device
    }

    /// The id of the node that the edge leaves.
    pub fn source(&self) -> (text: String)
        ensures
            text@ == subnet_text(self@.network),
    {
        format_subnet(self.network)
    }

    /// The id of the node that the edge reaches.
    pub fn target(&self) -> (text: String)
        ensures
            text@ == crate::addr::dotted_quad(self@.device),
    {
        crate::addr::format_address(self.device)
    }
}

/// What a list of groups stands for.
pub open spec fn group_views(groups: Seq<SubnetGroup>) -> Seq<GroupView> {
    groups.map_values(|group: SubnetGroup| group@)
}

/// What a list of nodes stands for.
pub open spec fn node_views(nodes: Seq<Node>) -> Seq<NodeView> {
    nodes.map_values(|node: Node| node@)
}

/// What a list of edges stands for.
pub open spec fn edge_views(edges: Seq<Edge>) -> Seq<EdgeView> {
    edges.map_values(|edge: Edge| edge@)
}

/// The nodes and edges handed to a renderer.
#[derive(Debug)]
pub struct Graph {
    nodes: Vec<Node>,
    edges: Vec<Edge>,
}

impl View for Graph {
    type V = GraphView;

    closed spec fn view(&self) -> GraphView {
        GraphView { nodes: node_views(self.nodes@), edges: edge_views(self.edges@) }
    }
}

impl Graph {
    /// The nodes that the graph holds.
    pub closed spec fn node_list(&self) -> Seq<Node> {
        self.nodes@
    }

    /// The edges that the graph holds.
    pub closed spec fn edge_list(&self) -> Seq<Edge> {
        self.edges@
    }

    /// A graph is well formed when its nodes are and it stands for what it holds.
    pub open spec fn wf(&self) -> bool {
        &&& forall|i: int| 0 <= i < self.node_list().len() ==> (#[trigger] self.node_list()[i]).wf()
        &&& self@.nodes == node_views(self.node_list())
        &&& self@.edges == edge_views(self.edge_list())
    }

    /// The nodes: devices first, then subnets.
    pub fn nodes(&self) -> (nodes: &Vec<Node>)
        ensures
            nodes@ == self.node_list(),
    {
        &self.nodes
    }

    /// The edges, one per device.
    pub fn edges(&self) -> (edges: &Vec<Edge>)
        ensures
            edges@ == self.edge_list(),
    {
        &self.edges
    }

    /// Whether the graph has neither node nor edge.
    pub fn is_empty(&self) -> (empty: bool)
        ensures
            empty <==> self@.nodes.len() == 0 && self@.edges.len() == 0,
    {
        self.nodes.len() == 0 && self.edges.len() == 0
    }
}

/// No network is listed twice, and a network is listed exactly if the list has
/// a host in it.
pub proof fn lemma_distinct_networks(hosts: Seq<HostView>)
    ensures
        distinct_networks(hosts).no_duplicates(),
        distinct_networks(hosts).len() <= hosts.len(),
        forall|network: u32| #[trigger]
            distinct_networks(hosts).contains(network) <==> exists|i: int|
                0 <= i < hosts.len() && hosts[i].network() == network,
    decreases hosts.len(),
{
    if hosts.len() > 0 {
        let shorter = hosts.drop_last();
        let earlier = distinct_networks(shorter);
        let last = hosts.last();
        lemma_distinct_networks(shorter);
        let all = distinct_networks(hosts);
        assert forall|network: u32| #[trigger]
            all.contains(network) <==> exists|i: int|
                0 <= i < hosts.len() && hosts[i].network() == network by {
            if all.contains(network) {
                if earlier.contains(network) {
                    let i = choose|i: int| 0 <= i < shorter.len() && shorter[i].network() == network;
                    assert(hosts[i].network() == network);
                } else {
                    let k = choose|k: int| 0 <= k < all.len() && all[k] == network;
                    assert(hosts[hosts.len() - 1].network() == network);
                }
            }
            if exists|i: int| 0 <= i < hosts.len() && hosts[i].network() == network {
                let i = choose|i: int| 0 <= i < hosts.len() && hosts[i].network() == network;
                if i < hosts.len() - 1 {
                    assert(shorter[i].network() == network);
                    assert(earlier.contains(network));
                    let k = choose|k: int| 0 <= k < earlier.len() && earlier[k] == network;
                    assert(all[k] == network);
                } else {
                    if earlier.contains(network) {
                        let k = choose|k: int| 0 <= k < earlier.len() && earlier[k] == network;
                        assert(all[k] == network);
                    } else {
                        assert(all[earlier.len() as int] == network);
                    }
                }
            }
        }
    }
}

/// The members of a network are the hosts of the list that lie in it, and only
/// a listed network has any.
pub proof fn lemma_members_of(hosts: Seq<HostView>, network: u32)
    ensures
        members_of(hosts, network).len() <= hosts.len(),
        forall|k: int|
            0 <= k < members_of(hosts, network).len() ==> (#[trigger] members_of(
                hosts,
                network,
            )[k]).network() == network && hosts.contains(members_of(hosts, network)[k]),
        forall|i: int|
            0 <= i < hosts.len() && hosts[i].network() == network ==> members_of(
                hosts,
                network,
            ).contains(#[trigger] hosts[i]),
        !distinct_networks(hosts).contains(network) ==> members_of(hosts, network).len() == 0,
    decreases hosts.len(),
{
    if hosts.len() > 0 {
        let shorter = hosts.drop_last();
        let last = hosts.last();
        lemma_members_of(shorter, network);
        lemma_distinct_networks(shorter);
        lemma_distinct_networks(hosts);
        let earlier = members_of(shorter, network);
        let all = members_of(hosts, network);
        assert forall|k: int| 0 <= k < all.len() implies (#[trigger] all[k]).network() == network
            && hosts.contains(all[k]) by {
            if k < earlier.len() {
                assert(all[k] == earlier[k]);
                let i = choose|i: int| 0 <= i < shorter.len() && shorter[i] == earlier[k];
                assert(hosts[i] == all[k]);
            } else {
                assert(hosts[hosts.len() - 1] == all[k]);
            }
        }
        assert forall|i: int|
            0 <= i < hosts.len() && hosts[i].network() == network implies all.contains(
            #[trigger] hosts[i],
        ) by {
            if i < hosts.len() - 1 {
                assert(shorter[i] == hosts[i]);
                let k = choose|k: int| 0 <= k < earlier.len() && earlier[k] == shorter[i];
                assert(all[k] == hosts[i]);
            } else {
                assert(all[all.len() - 1] == hosts[i]);
            }
        }
        if !distinct_networks(hosts).contains(network) {
            assert(hosts[hosts.len() - 1].network() != network);
            if distinct_networks(shorter).contains(network) {
                let i = choose|i: int| 0 <= i < shorter.len() && shorter[i].network() == network;
                assert(hosts[i].network() == network);
            }
        }
    }
}

/// One more host at the end of a list joins the group of its network, or
/// founds one at the end of the groups; the other groups stay as they are.
proof fn lemma_groups_grow(hosts: Seq<HostView>, host: HostView)
    ensures
        ({
            let before = groups_of(hosts);
            let after = groups_of(hosts.push(host));
            let networks = distinct_networks(hosts);
            &&& networks.contains(host.network()) ==> {
                &&& after.len() == before.len()
                &&& forall|k: int|
                    0 <= k < before.len() ==> #[trigger] after[k] == if networks[k]
                        == host.network() {
                        GroupView {
                            network: host.network(),
                            members: before[k].members.push(host),
                        }
                    } else {
                        before[k]
                    }
            }
            &&& !networks.contains(host.network()) ==> after == before.push(
                GroupView { network: host.network(), members: seq![host] },
            )
        }),
{
    let longer = hosts.push(host);
    assert(longer.drop_last() =~= hosts);
    let networks = distinct_networks(hosts);
    let before = groups_of(hosts);
    let after = groups_of(longer);
    if networks.contains(host.network()) {
        assert(distinct_networks(longer) == networks);
    } else {
        assert(distinct_networks(longer) == networks.push(host.network()));
        lemma_members_of(hosts, host.network());
        assert(members_of(hosts, host.network()) =~= Seq::<HostView>::empty());
        assert(members_of(longer, host.network()) =~= seq![host]);
        assert forall|k: int| 0 <= k < before.len() implies after[k] == before[k] by {
            assert(networks.contains(networks[k]));
        }
        assert(after =~= before.push(GroupView { network: host.network(), members: seq![host] }));
    }
}

/// Groups a list of records by network. The groups come in the order in which
/// the list first reaches their networks, and each holds its hosts in list
/// order.
pub fn group_by_subnet(results: &Vec<HostResult>) -> (groups: Vec<SubnetGroup>)
    requires
        all_wf(results@),
    ensures
        group_views(groups@) == groups_of(views(results@)),
        forall|k: int| 0 <= k < groups.len() ==> (#[trigger] groups[k]).wf(),
{
    let mut groups: Vec<SubnetGroup> = Vec::new();
    let mut i: usize = 0;
    assert(views(results@).subrange(0, 0) =~= Seq::<HostView>::empty());
    assert(group_views(groups@) =~= groups_of(Seq::<HostView>::empty()));
    while i < results.len()
        invariant
            i <= results.len(),
            all_wf(results@),
            group_views(groups@) == groups_of(views(results@).subrange(0, i as int)),
            forall|k: int| 0 <= k < groups.len() ==> (#[trigger] groups[k]).wf(),
        decreases results.len() - i,
    {
        let ghost hosts = views(results@).subrange(0, i as int);
        let ghost host = results[i as int]@;
        let ghost before = group_views(groups@);
        let network = results[i].network();
        let copy = results[i].duplicate();
        proof {
            lemma_groups_grow(hosts, host);
            lemma_distinct_networks(hosts);
            assert(views(results@).subrange(0, i + 1) =~= hosts.push(host));
            assert(distinct_networks(hosts).len() == groups.len());
            assert forall|k: int| 0 <= k < groups.len() implies (#[trigger] groups[k])@.network
                == distinct_networks(hosts)[k] by {
                assert(before[k] == groups[k]@);
                assert(groups_of(hosts)[k].network == distinct_networks(hosts)[k]);
            }
        }
        let mut k: usize = 0;
        while k < groups.len() && groups[k].network != network
            invariant
                k <= groups.len(),
                forall|j: int| 0 <= j < k ==> (#[trigger] groups[j])@.network != network,
            decreases groups.len() - k,
        {
            k += 1;
        }
        if k < groups.len() {
            let mut group = groups.remove(k);
            let ghost old_group = group;
            group.members.push(copy);
            proof {
                assert(views(group.members@) =~= views(old_group.members@).push(host));
                assert(all_wf(group.members@)) by {
                    assert forall|m: int| 0 <= m < group.members@.len() implies (
                    #[trigger] group.members@[m]).wf() by {
                        if m < old_group.members@.len() {
                            assert(group.members@[m] == old_group.records()[m]);
                        }
                    }
                }
            }
            groups.insert(k, group);
            proof {
                let networks = distinct_networks(hosts);
                assert(networks[k as int] == network);
                assert(networks.contains(network));
                let after = groups_of(hosts.push(host));
                assert forall|j: int| 0 <= j < groups.len() implies group_views(groups@)[j]
                    == after[j] by {
                    assert(before[j] == groups_of(hosts)[j]);
                    if j == k {
                    } else {
                        assert(networks[j] != networks[k as int]);
                    }
                }
                assert(group_views(groups@) =~= after);
            }
        } else {
            let mut members: Vec<HostResult> = Vec::new();
            members.push(copy);
            let group = SubnetGroup { network, members };
            proof {
                assert(views(group.members@) =~= seq![host]);
                let networks = distinct_networks(hosts);
                if networks.contains(network) {
                    let j = choose|j: int| 0 <= j < networks.len() && networks[j] == network;
                    assert(groups[j]@.network == network);
                }
            }
            groups.push(group);
            proof {
                assert(group_views(groups@) =~= before.push(group@));
            }
        }
        i += 1;
    }
    assert(views(results@).subrange(0, i as int) =~= views(results@));
    groups
}

/// Builds the graph of a list of records: a device node per record, a subnet
/// node per network that holds one, and an edge from its network to every
/// device.
pub fn build_graph(results: &Vec<HostResult>) -> (graph: Graph)
    requires
        all_wf(results@),
    ensures
        graph.wf(),
        graph@ == graph_of(views(results@)),
{
    let ghost hosts = views(results@);
    let groups = group_by_subnet(results);
    let mut nodes: Vec<Node> = Vec::new();
    let mut edges: Vec<Edge> = Vec::new();
    let mut i: usize = 0;
    while i < results.len()
        invariant
            i <= results.len(),
            all_wf(results@),
            hosts == views(results@),
            nodes.len() == i,
            edges.len() == i,
            forall|k: int| 0 <= k < i ==> (#[trigger] nodes[k]).wf(),
            forall|k: int| 0 <= k < i ==> (#[trigger] nodes[k])@ == NodeView::Device(hosts[k]),
            forall|k: int| 0 <= k < i ==> (#[trigger] edges[k])@ == edge_of(hosts[k]),
        decreases results.len() - i,
    {
        let host = &results[i];
        nodes.push(Node::Device(host.duplicate()));
        edges.push(Edge { network: host.network(), device: host.address_value() });
        i += 1;
    }
    proof {
        assert(group_views(groups@).len() == groups.len());
        assert(groups_of(hosts).len() == distinct_networks(hosts).len());
    }
    let mut k: usize = 0;
    while k < groups.len()
        invariant
            k <= groups.len(),
            hosts == views(results@),
            group_views(groups@) == groups_of(hosts),
            groups.len() == distinct_networks(hosts).len(),
            nodes.len() == results.len() + k,
            edges.len() == results.len(),
            forall|j: int| 0 <= j < nodes.len() ==> (#[trigger] nodes[j]).wf(),
            forall|j: int|
                0 <= j < results.len() ==> (#[trigger] nodes[j])@ == NodeView::Device(hosts[j]),
            forall|j: int|
                0 <= j < k ==> (#[trigger] nodes[results.len() + j])@ == NodeView::Subnet(
                    distinct_networks(hosts)[j],
                ),
            forall|j: int| 0 <= j < edges.len() ==> (#[trigger] edges[j])@ == edge_of(hosts[j]),
        decreases groups.len() - k,
    {
        proof {
            assert(group_views(groups@)[k as int] == groups[k as int]@);
            assert(groups_of(hosts)[k as int].network == distinct_networks(hosts)[k as int]);
        }
        nodes.push(Node::Subnet(groups[k].network()));
        k += 1;
    }
    let graph = Graph { nodes, edges };
    proof {
        let expected = graph_of(hosts).nodes;
        assert(graph@.nodes.len() == expected.len());
        assert forall|j: int| 0 <= j < expected.len() implies graph@.nodes[j] == expected[j] by {
            assert(graph@.nodes[j] == nodes[j]@);
            if j >= results.len() {
                let offset = j - results.len();
                assert(nodes[results.len() + offset]@ == NodeView::Subnet(
                    distinct_networks(hosts)[offset],
                ));
            }
        }
        assert(graph@.nodes =~= expected);
        assert(graph@.edges =~= graph_of(hosts).edges);
    }
    graph
}

/// The graph of no host at all has neither node nor edge.
pub proof fn lemma_empty_graph()
    ensures
        graph_of(Seq::empty()).nodes.len() == 0,
        graph_of(Seq::empty()).edges.len() == 0,
        groups_of(Seq::empty()).len() == 0,
{
}

/// The graph has a device node and an edge per host and a subnet node per
/// network; every edge leaves a subnet node of the graph and reaches a device
/// node of the graph that lies in that network, so that the name of the
/// network is the subnet that the record of the device shows.
pub proof fn lemma_graph_shape(hosts: Seq<HostView>)
    ensures
        graph_of(hosts).edges.len() == hosts.len(),
        graph_of(hosts).nodes.len() == hosts.len() + distinct_networks(hosts).len(),
        forall|i: int|
            0 <= i < hosts.len() ==> (#[trigger] graph_of(hosts).nodes[i]) == NodeView::Device(
                hosts[i],
            ),
        forall|k: int|
            0 <= k < distinct_networks(hosts).len() ==> (#[trigger] graph_of(hosts).nodes[hosts.len()
                + k]) == NodeView::Subnet(distinct_networks(hosts)[k]),
        forall|i: int|
            0 <= i < hosts.len() ==> {
                let edge = #[trigger] graph_of(hosts).edges[i];
                &&& edge == edge_of(hosts[i])
                &&& edge.network == network_of(edge.device)
                &&& subnet_text(edge.network) == subnet_text(edge.device)
                &&& graph_of(hosts).nodes.contains(NodeView::Subnet(edge.network))
                &&& graph_of(hosts).nodes.contains(NodeView::Device(hosts[i]))
            },
{
    lemma_distinct_networks(hosts);
    let graph = graph_of(hosts);
    let networks = distinct_networks(hosts);
    assert forall|i: int| 0 <= i < hosts.len() implies {
        let edge = #[trigger] graph.edges[i];
        &&& edge == edge_of(hosts[i])
        &&& edge.network == network_of(edge.device)
        &&& subnet_text(edge.network) == subnet_text(edge.device)
        &&& graph.nodes.contains(NodeView::Subnet(edge.network))
        &&& graph.nodes.contains(NodeView::Device(hosts[i]))
    } by {
        lemma_network_of(hosts[i].address);
        let network = hosts[i].network();
        assert(networks.contains(network));
        let k = choose|k: int| 0 <= k < networks.len() && networks[k] == network;
        assert(graph.nodes[hosts.len() + k] == NodeView::Subnet(network));
        assert(graph.nodes[i] == NodeView::Device(hosts[i]));
    }
}

/// The groups sort every host into exactly one of them: the group of its own
/// network holds it, and no group holds a host of another network.
pub proof fn lemma_groups_partition(hosts: Seq<HostView>)
    ensures
        groups_of(hosts).len() == distinct_networks(hosts).len(),
        forall|k: int|
            0 <= k < groups_of(hosts).len() ==> {
                let group = #[trigger] groups_of(hosts)[k];
                &&& group.network == distinct_networks(hosts)[k]
                &&& group.members == members_of(hosts, group.network)
                &&& group.members.len() > 0
                &&& forall|m: int|
                    0 <= m < group.members.len() ==> (#[trigger] group.members[m]).network()
                        == group.network
            },
        forall|i: int|
            #![trigger hosts[i]]
            0 <= i < hosts.len() ==> exists|k: int|
                0 <= k < groups_of(hosts).len() && (#[trigger] groups_of(hosts)[k]).network
                    == hosts[i].network() && groups_of(hosts)[k].members.contains(hosts[i]),
{
    lemma_distinct_networks(hosts);
    let networks = distinct_networks(hosts);
    let groups = groups_of(hosts);
    assert forall|k: int| 0 <= k < groups.len() implies {
        let group = #[trigger] groups[k];
        &&& group.network == networks[k]
        &&& group.members == members_of(hosts, group.network)
        &&& group.members.len() > 0
        &&& forall|m: int|
            0 <= m < group.members.len() ==> (#[trigger] group.members[m]).network()
                == group.network
    } by {
        let network = networks[k];
        lemma_members_of(hosts, network);
        assert(networks.contains(network));
        let i = choose|i: int| 0 <= i < hosts.len() && hosts[i].network() == network;
        assert(members_of(hosts, network).contains(hosts[i]));
    }
    assert forall|i: int| #![trigger hosts[i]] 0 <= i < hosts.len() implies exists|k: int|
        0 <= k < groups.len() && (#[trigger] groups[k]).network == hosts[i].network()
            && groups[k].members.contains(hosts[i]) by {
        let network = hosts[i].network();
        lemma_members_of(hosts, network);
        assert(networks.contains(network));
        let k = choose|k: int| 0 <= k < networks.len() && networks[k] == network;
        assert(groups[k].network == network && groups[k].members.contains(hosts[i]));
    }
}

} // verus!
