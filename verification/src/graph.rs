use vstd::prelude::*;

use crate::filesystem::WikiFileSystem;
use crate::graph_algorithms::{bfs_order, fifo_order, names_of, GraphAlgorithms, GraphModel};
use crate::index::{pages_view, PageMetadata, PageView, WikiIndex};
use crate::project_registry::path_join;
use crate::text::owned;

verus! {

/// A page of the wiki graph.
#[derive(Debug, Clone)]
pub struct GraphNode {
    pub id: String,
    pub node_type: String,
    pub weight: u32,
}

/// A link of the wiki graph.
#[derive(Debug, Clone)]
pub struct GraphEdge {
    pub from: String,
    pub to: String,
    pub edge_type: String,
}

/// The wiki graph: its pages and the links between them.
#[derive(Debug, Clone)]
pub struct WikiGraph {
    pub nodes: Vec<GraphNode>,
    pub edges: Vec<GraphEdge>,
}

pub struct NodeView {
    pub id: Seq<char>,
    pub node_type: Seq<char>,
    pub weight: u32,
}

pub struct EdgeView {
    pub from: Seq<char>,
    pub to: Seq<char>,
    pub edge_type: Seq<char>,
}

impl View for GraphNode {
    type V = NodeView;

    open spec fn view(&self) -> NodeView {
        NodeView { id: self.id@, node_type: self.node_type@, weight: self.weight }
    }
}

impl View for GraphEdge {
    type V = EdgeView;

    open spec fn view(&self) -> EdgeView {
        EdgeView { from: self.from@, to: self.to@, edge_type: self.edge_type@ }
    }
}

pub open spec fn nodes_view(v: Seq<GraphNode>) -> Seq<NodeView> {
    v.map_values(|x: GraphNode| x@)
}

pub open spec fn edges_view(v: Seq<GraphEdge>) -> Seq<EdgeView> {
    v.map_values(|x: GraphEdge| x@)
}

/// The node of a page: its id, of type `page`, weighted by its importance.
pub open spec fn page_node(p: PageView) -> NodeView {
    NodeView { id: p.id, node_type: "page"@, weight: p.importance as u32 }
}

/// A `references` edge from page `from` to each of `links`, in order.
pub open spec fn link_edges(from: Seq<char>, links: Seq<Seq<char>>) -> Seq<EdgeView> {
    links.map_values(|l: Seq<char>| EdgeView { from, to: l, edge_type: "references"@ })
}

/// The edges of the pages' links, page by page.
pub open spec fn page_edges(ps: Seq<PageView>) -> Seq<EdgeView>
    decreases ps.len(),
{
    if ps.len() == 0 {
        Seq::empty()
    } else {
        page_edges(ps.drop_last()) + link_edges(ps.last().id, ps.last().links_to)
    }
}

/// The graph of the pages: a node per page, an edge per link.
pub open spec fn graph_of(ps: Seq<PageView>, g: WikiGraph) -> bool {
    &&& nodes_view(g.nodes@) == ps.map_values(|p: PageView| page_node(p))
    &&& edges_view(g.edges@) == page_edges(ps)
}

/// The graph of the given pages (see `graph_of`).
pub fn graph_of_pages(pages: &Vec<PageMetadata>) -> (r: WikiGraph)
    ensures
        graph_of(pages_view(pages@), r),
{
    let ghost ps = pages_view(pages@);
    let mut nodes: Vec<GraphNode> = Vec::new();
    let mut edges: Vec<GraphEdge> = Vec::new();
    let mut i: usize = 0;
    while i < pages.len()
        invariant
            i <= pages.len(),
            ps == pages_view(pages@),
            nodes_view(nodes@) == ps.take(i as int).map_values(|p: PageView| page_node(p)),
            edges_view(edges@) == page_edges(ps.take(i as int)),
        decreases pages.len() - i,
    {
        let page = &pages[i];
        proof {
            assert(ps[i as int] == page@);
            assert(ps.take(i + 1).drop_last() =~= ps.take(i as int));
        }
        let node = GraphNode { id: page.id.clone(), node_type: owned("page"), weight: page.importance as u32 };
        let ghost nbefore = nodes@;
        nodes.push(node);
        proof {
            assert(nodes_view(nodes@) =~= ps.take(i + 1).map_values(|p: PageView| page_node(p))) by {
                assert(nodes_view(nodes@) =~= nodes_view(nbefore).push(node@));
            }
        }
        let ghost ebase = edges_view(edges@);
        let ghost links = crate::page_text::views_of(page.links_to@);
        let mut j: usize = 0;
        proof {
            assert(link_edges(page.id@, links.take(0)) =~= Seq::<EdgeView>::empty());
            assert(edges_view(edges@) =~= ebase + link_edges(page.id@, links.take(0)));
        }
        while j < page.links_to.len()
            invariant
                j <= page.links_to.len(),
                page == &pages[i as int],
                links == crate::page_text::views_of(page.links_to@),
                edges_view(edges@) == ebase + link_edges(page.id@, links.take(j as int)),
            decreases page.links_to.len() - j,
        {
            let e = GraphEdge { from: page.id.clone(), to: page.links_to[j].clone(), edge_type: owned("references") };
            let ghost before = edges@;
            edges.push(e);
            proof {
                assert(edges_view(edges@) =~= edges_view(before).push(e@));
                assert(link_edges(page.id@, links.take(j + 1)) =~= link_edges(page.id@, links.take(j as int)).push(e@));
            }
            j = j + 1;
        }
        proof {
            assert(links.take(links.len() as int) =~= links);
        }
        i = i + 1;
    }
    proof {
        assert(ps.take(ps.len() as int) =~= ps);
    }
    WikiGraph { nodes, edges }
}

/// The graph model of the edges: the pages they name, in order of first mention,
/// each with the targets of its edges in order.
pub open spec fn edge_model(es: Seq<EdgeView>) -> GraphModel
    decreases es.len(),
{
    if es.len() == 0 {
        GraphModel { names: Seq::empty(), adj: Seq::empty() }
    } else {
        edge_model(es.drop_last()).add_edge(es.last().from, es.last().to)
    }
}

/// `r` lists the pages reachable from `start` along the edges with at most `d`
/// links, breadth-first: `start` first, each page once, closer pages before farther
/// ones (see `bfs_order`). A start without edges reaches only itself.
pub open spec fn bfs_ok(es: Seq<EdgeView>, start: Seq<char>, d: nat, r: Seq<Seq<char>>) -> bool {
    let m = edge_model(es);
    &&& !m.has_name(start) ==> r == seq![start]
    &&& m.has_name(start) ==> exists|w: Seq<int>| bfs_order(m, m.index_of(start), d, w) && r == m.names_along(w)
}

/// The pages a first-in first-out search from `start` meets within `d` links, in the order
/// met (see `fifo_order`): pages are taken in the order they joined the queue, and the
/// links of each in the order of the edges. A start without edges meets only itself.
pub open spec fn fifo_names(es: Seq<EdgeView>, start: Seq<char>, d: nat) -> Seq<Seq<char>> {
    let m = edge_model(es);
    if m.has_name(start) {
        m.names_along(fifo_order(m, m.index_of(start), d).map_values(|x: usize| x as int))
    } else {
        seq![start]
    }
}

/// The pages reachable from `start` breadth-first with at most `max_depth` links
/// (see `bfs_ok`).
pub fn bfs_traversal(graph: &WikiGraph, start: &str, max_depth: usize) -> (r: Vec<String>)
    ensures
        bfs_ok(edges_view(graph.edges@), start@, max_depth as nat, names_of(r@)),
        names_of(r@) == fifo_names(edges_view(graph.edges@), start@, max_depth as nat),
{
    let ghost es = edges_view(graph.edges@);
    let mut g = GraphAlgorithms::new();
    let mut i: usize = 0;
    proof {
        assert(es.take(0) =~= Seq::<EdgeView>::empty());
    }
    while i < graph.edges.len()
        invariant
            i <= graph.edges.len(),
            es == edges_view(graph.edges@),
            g@.wf(),
            g@ == edge_model(es.take(i as int)),
        decreases graph.edges.len() - i,
    {
        proof {
            assert(es.take(i + 1).drop_last() =~= es.take(i as int));
            assert(es[i as int] == graph.edges@[i as int]@);
        }
        g.add_edge(graph.edges[i].from.as_str(), graph.edges[i].to.as_str());
        i = i + 1;
    }
    proof {
        assert(es.take(es.len() as int) =~= es);
    }
    g.reachable_within(start, max_depth)
}

/// The graph of a wiki: builds `WikiGraph` values from the index; the wiki's
/// `graph.json` holds them.
pub struct GraphManager {
    fs: std::sync::Arc<WikiFileSystem>,
}

impl GraphManager {
    pub closed spec fn wiki(self) -> WikiFileSystem {
        *self.fs
    }

    /// A manager for the graph of the given wiki.
    pub fn new(fs: std::sync::Arc<WikiFileSystem>) -> (r: Self)
        ensures
            r.wiki() == *fs,
    {
        GraphManager { fs }
    }

    /// The file that holds the graph.
    pub fn graph_file(&self) -> (r: String)
        ensures
            r@ == path_join(path_join(self.wiki().root(), "_meta"@), "graph.json"@),
    {
        self.fs.graph_path()
    }

    /// A graph without pages.
    pub fn empty_graph() -> (r: WikiGraph)
        ensures
            r.nodes@.len() == 0,
            r.edges@.len() == 0,
    {
        WikiGraph { nodes: Vec::new(), edges: Vec::new() }
    }

    /// The graph of the pages listed by the index (see `graph_of`).
    pub fn rebuild(&self, pages: &Vec<PageMetadata>) -> (r: WikiGraph)
        ensures
            graph_of(pages_view(pages@), r),
    {
        graph_of_pages(pages)
    }

    /// The graph of the index's pages (see `graph_of`).
    pub fn generate_from_index(&self, index: &WikiIndex) -> (r: WikiGraph)
        ensures
            graph_of(pages_view(index.pages@), r),
    {
        graph_of_pages(&index.pages)
    }
}

} // verus!
