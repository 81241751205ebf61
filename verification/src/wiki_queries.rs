use vstd::prelude::*;

use crate::api_types::{GetGraphResponse, GraphEdge as ApiEdge, GraphNode as ApiNode, IngestResponse};
use crate::embedding::{decimal, decimal_exec};
use crate::api_types::DeepResearchResponse;
use crate::graph::{bfs_ok, bfs_traversal, edges_view, fifo_names, nodes_view, EdgeView, NodeView, WikiGraph};
use crate::graph_algorithms::names_of;
use crate::ingest::IngestResult;
use crate::page_text::{begins, join_strings, views_of};
use crate::text::{append_chars, chars_of, has_at, has_at_exec, join_with, owned, same_text, slice_range, string_of};

verus! {

/// `s` with each `/` and `\` made a `-`.
pub open spec fn slashes_to_dashes(s: Seq<char>) -> Seq<char> {
    s.map_values(|c: char| if c == '/' || c == '\\' { '-' } else { c })
}

/// The id of the wiki page made from a file: `.wiki-` and the file's path relative
/// to the ingested directory, with separators made dashes.
pub fn page_id_for_file(relative_path: &str) -> (r: String)
    ensures
        r@ == ".wiki-"@ + slashes_to_dashes(relative_path@),
{
    let cs = chars_of(relative_path);
    let mut out = chars_of(".wiki-");
    let ghost prefix = out@;
    let mut i: usize = 0;
    while i < cs.len()
        invariant
            i <= cs.len(),
            out@ == prefix + slashes_to_dashes(cs@.take(i as int)),
        decreases cs.len() - i,
    {
        let c = cs[i];
        out.push(if c == '/' || c == '\\' { '-' } else { c });
        proof {
            assert(slashes_to_dashes(cs@.take(i + 1)) =~= slashes_to_dashes(cs@.take(i as int)).push(
                if c == '/' || c == '\\' { '-' } else { c },
            ));
        }
        i = i + 1;
    }
    proof {
        assert(cs@.take(cs@.len() as int) =~= cs@);
    }
    string_of(&out)
}

/// The file extensions ingested when none are given: `md` and `txt`.
pub fn default_extensions() -> (r: Vec<String>)
    ensures
        views_of(r@) == seq!["md"@, "txt"@],
{
    let mut r: Vec<String> = Vec::new();
    r.push(owned("md"));
    r.push(owned("txt"));
    proof {
        assert(views_of(r@) =~= seq!["md"@, "txt"@]);
    }
    r
}

/// Whether a file with the given extension is ingested: one without an extension
/// always is, one with an extension when it is among `allowed`.
pub fn extension_allowed(extension: Option<&str>, allowed: &Vec<String>) -> (r: bool)
    ensures
        r == match extension {
            None => true,
            Some(e) => views_of(allowed@).contains(e@),
        },
{
    match extension {
        None => true,
        Some(e) => {
            let es = owned(e);
            let mut i: usize = 0;
            while i < allowed.len()
                invariant
                    i <= allowed.len(),
                    extension == Some(e),
                    es@ == e@,
                    forall|j: int| 0 <= j < i ==> views_of(allowed@)[j] != e@,
                decreases allowed.len() - i,
            {
                if same_text(&allowed[i], &es) {
                    proof {
                        assert(views_of(allowed@)[i as int] == e@);
                        assert(views_of(allowed@).contains(e@));
                    }
                    return true;
                }
                i = i + 1;
            }
            false
        },
    }
}

/// `s` without every leading copy of `p` (all of them, as `trim_start_matches` does).
pub open spec fn strip_leading(s: Seq<char>, p: Seq<char>) -> Seq<char>
    decreases s.len(),
{
    if p.len() > 0 && begins(s, p) {
        strip_leading(s.skip(p.len() as int), p)
    } else {
        s
    }
}

/// `s` without every trailing copy of `p` (as `trim_end_matches` does).
pub open spec fn strip_trailing(s: Seq<char>, p: Seq<char>) -> Seq<char>
    decreases s.len(),
{
    if p.len() > 0 && has_at(s, s.len() - p.len(), p) {
        strip_trailing(s.take(s.len() - p.len()), p)
    } else {
        s
    }
}

fn strip_leading_exec(s: &Vec<char>, p: &Vec<char>) -> (r: Vec<char>)
    ensures
        r@ == strip_leading(s@, p@),
{
    let mut start: usize = 0;
    proof {
        assert(s@.skip(0) =~= s@);
    }
    while p.len() > 0 && p.len() <= s.len() - start && has_at_exec(s, start, p)
        invariant
            start <= s.len(),
            strip_leading(s@, p@) == strip_leading(s@.skip(start as int), p@),
        decreases s.len() - start,
    {
        proof {
            let t = s@.skip(start as int);
            assert(t.take(p@.len() as int) =~= s@.subrange(start as int, start + p@.len()));
            assert(t.skip(p@.len() as int) =~= s@.skip(start + p@.len()));
        }
        start = start + p.len();
    }
    proof {
        let t = s@.skip(start as int);
        if p@.len() > 0 && p@.len() <= t.len() {
            assert(t.take(p@.len() as int) =~= s@.subrange(start as int, start + p@.len()));
        }
    }
    let r = slice_range(s, start, s.len());
    proof {
        assert(r@ =~= s@.skip(start as int));
    }
    r
}

fn strip_trailing_exec(s: &Vec<char>, p: &Vec<char>) -> (r: Vec<char>)
    ensures
        r@ == strip_trailing(s@, p@),
{
    let mut end: usize = s.len();
    proof {
        assert(s@.take(s@.len() as int) =~= s@);
    }
    while p.len() > 0 && p.len() <= end && has_at_exec(s, end - p.len(), p)
        invariant
            end <= s.len(),
            strip_trailing(s@, p@) == strip_trailing(s@.take(end as int), p@),
        decreases end,
    {
        proof {
            let t = s@.take(end as int);
            assert(t.subrange(end - p@.len(), end as int) =~= s@.subrange(end - p@.len(), end as int));
            assert(t.take(end - p@.len()) =~= s@.take(end - p@.len()));
        }
        end = end - p.len();
    }
    proof {
        let t = s@.take(end as int);
        if p@.len() > 0 && p@.len() <= end {
            assert(t.subrange(end - p@.len(), end as int) =~= s@.subrange(end - p@.len(), end as int));
        }
    }
    slice_range(s, 0, end)
}

/// The page id that a page path asks for: without leading `pages/` and trailing `.md`.
pub fn request_page_id(path: &str) -> (r: String)
    ensures
        r@ == strip_trailing(strip_leading(path@, "pages/"@), ".md"@),
{
    let s = chars_of(path);
    let a = strip_leading_exec(&s, &chars_of("pages/"));
    let b = strip_trailing_exec(&a, &chars_of(".md"));
    string_of(&b)
}

/// A page id without every trailing `.md`.
pub fn without_md_suffix(id: &str) -> (r: String)
    ensures
        r@ == strip_trailing(id@, ".md"@),
{
    let s = chars_of(id);
    string_of(&strip_trailing_exec(&s, &chars_of(".md")))
}

/// The first 200 characters of a page, to show beside a search hit.
pub fn excerpt_of(content: &str) -> (r: String)
    ensures
        r@ == content@.take(if content@.len() < 200 { content@.len() as int } else { 200 }),
{
    let s = chars_of(content);
    let n = if s.len() < 200 { s.len() } else { 200 };
    let e = slice_range(&s, 0, n);
    proof {
        assert(e@ =~= content@.take(n as int));
    }
    string_of(&e)
}

/// The graph as the API shows it: a node per page, labelled with its id and
/// pointing at its page file, and an edge per link.
pub open spec fn api_graph_ok(g: WikiGraph, r: GetGraphResponse) -> bool {
    &&& r.nodes.len() == g.nodes.len()
    &&& r.edges.len() == g.edges.len()
    &&& forall|i: int|
        0 <= i < r.nodes.len() ==> {
            &&& (#[trigger] r.nodes@[i]).id@ == g.nodes@[i].id@
            &&& r.nodes@[i].label@ == g.nodes@[i].id@
            &&& r.nodes@[i].page_path matches Some(p) && p@ == "pages/"@ + g.nodes@[i].id@ + ".md"@
        }
    &&& forall|i: int|
        0 <= i < r.edges.len() ==> {
            &&& (#[trigger] r.edges@[i]).source@ == g.edges@[i].from@
            &&& r.edges@[i].target@ == g.edges@[i].to@
            &&& r.edges@[i].relation@ == g.edges@[i].edge_type@
        }
}

/// The graph as the API shows it (see `api_graph_ok`).
pub fn api_graph(graph: &WikiGraph) -> (r: GetGraphResponse)
    ensures
        api_graph_ok(*graph, r),
{
    let mut nodes: Vec<ApiNode> = Vec::new();
    let mut i: usize = 0;
    while i < graph.nodes.len()
        invariant
            i <= graph.nodes.len(),
            nodes.len() == i,
            forall|k: int|
                0 <= k < i ==> {
                    &&& (#[trigger] nodes@[k]).id@ == graph.nodes@[k].id@
                    &&& nodes@[k].label@ == graph.nodes@[k].id@
                    &&& nodes@[k].page_path matches Some(p) && p@ == "pages/"@ + graph.nodes@[k].id@ + ".md"@
                },
        decreases graph.nodes.len() - i,
    {
        let id = &graph.nodes[i].id;
        let mut path = chars_of("pages/");
        append_chars(&mut path, &chars_of(id.as_str()));
        append_chars(&mut path, &chars_of(".md"));
        nodes.push(ApiNode { id: id.clone(), label: id.clone(), page_path: Some(string_of(&path)) });
        i = i + 1;
    }
    let mut edges: Vec<ApiEdge> = Vec::new();
    let mut j: usize = 0;
    while j < graph.edges.len()
        invariant
            j <= graph.edges.len(),
            edges.len() == j,
            forall|k: int|
                0 <= k < j ==> {
                    &&& (#[trigger] edges@[k]).source@ == graph.edges@[k].from@
                    &&& edges@[k].target@ == graph.edges@[k].to@
                    &&& edges@[k].relation@ == graph.edges@[k].edge_type@
                },
        decreases graph.edges.len() - j,
    {
        let e = &graph.edges[j];
        edges.push(ApiEdge { source: e.from.clone(), target: e.to.clone(), relation: e.edge_type.clone() });
        j = j + 1;
    }
    GetGraphResponse { nodes, edges }
}

/// Some edge starts or ends at page `id`.
pub open spec fn has_link(es: Seq<EdgeView>, id: Seq<char>) -> bool {
    exists|k: int| 0 <= k < es.len() && ((#[trigger] es[k]).from == id || es[k].to == id)
}

/// The ids of the pages without links in or out, in order.
pub open spec fn isolated(ns: Seq<NodeView>, es: Seq<EdgeView>) -> Seq<Seq<char>>
    decreases ns.len(),
{
    if ns.len() == 0 {
        Seq::empty()
    } else if has_link(es, ns.last().id) {
        isolated(ns.drop_last(), es)
    } else {
        isolated(ns.drop_last(), es).push(ns.last().id)
    }
}

/// The pages of the graph without links in or out (see `isolated`).
pub fn isolated_pages(graph: &WikiGraph) -> (r: Vec<String>)
    ensures
        views_of(r@) == isolated(nodes_view(graph.nodes@), edges_view(graph.edges@)),
{
    let ghost ns = nodes_view(graph.nodes@);
    let ghost es = edges_view(graph.edges@);
    let mut r: Vec<String> = Vec::new();
    let mut i: usize = 0;
    while i < graph.nodes.len()
        invariant
            i <= graph.nodes.len(),
            ns == nodes_view(graph.nodes@),
            es == edges_view(graph.edges@),
            views_of(r@) == isolated(ns.take(i as int), es),
        decreases graph.nodes.len() - i,
    {
        let id = &graph.nodes[i].id;
        let mut linked = false;
        let mut k: usize = 0;
        while k < graph.edges.len() && !linked
            invariant
                k <= graph.edges.len(),
                es == edges_view(graph.edges@),
                id@ == ns[i as int].id,
                linked ==> has_link(es, id@),
                !linked ==> forall|m: int| 0 <= m < k ==> !((#[trigger] es[m]).from == id@ || es[m].to == id@),
            decreases graph.edges.len() - k + if linked { 0int } else { 1int },
        {
            proof {
                assert(es[k as int] == graph.edges@[k as int]@);
            }
            if same_text(&graph.edges[k].from, id) || same_text(&graph.edges[k].to, id) {
                linked = true;
            } else {
                k = k + 1;
            }
        }
        proof {
            assert(ns.take(i + 1).drop_last() =~= ns.take(i as int));
            assert(ns.take(i + 1).last() == ns[i as int]);
        }
        if !linked {
            let ghost before = r@;
            r.push(id.clone());
            proof {
                crate::page_text::lemma_views_push(before, r@.last());
                assert(r@ == before.push(r@.last()));
            }
        }
        i = i + 1;
    }
    proof {
        assert(ns.take(ns.len() as int) =~= ns);
    }
    r
}

/// A line of the index listing: a page's title, path and string tags.
pub struct IndexEntry {
    pub title: Option<String>,
    pub path: Option<String>,
    pub tags: Vec<String>,
}

/// The listing line of an entry with a title: `- **title** (path)`, then a line of
/// its tags joined with `, ` unless that is empty.
pub open spec fn entry_lines(e: IndexEntry) -> Seq<char> {
    match e.title {
        None => Seq::empty(),
        Some(t) => {
            let path = match e.path {
                Some(p) => p@,
                None => Seq::empty(),
            };
            let tags = join_with(views_of(e.tags@), ", "@);
            "- **"@ + t@ + "** ("@ + path + ")\n"@ + if tags.len() > 0 {
                "  Tags: "@ + tags + "\n"@
            } else {
                Seq::empty()
            }
        },
    }
}

pub open spec fn entries_text(es: Seq<IndexEntry>) -> Seq<char>
    decreases es.len(),
{
    if es.len() == 0 {
        Seq::empty()
    } else {
        entries_text(es.drop_last()) + entry_lines(es.last())
    }
}

/// The index as markdown: a heading, the number of pages, and a line for each page
/// with a title.
pub fn index_markdown(entries: &Vec<IndexEntry>) -> (r: String)
    ensures
        r@ == "# Wiki Index\n\n"@ + "**Total Pages:** "@ + decimal(entries.len() as nat) + "\n\n"@ + entries_text(entries@),
{
    let mut out = chars_of("# Wiki Index\n\n");
    append_chars(&mut out, &chars_of("**Total Pages:** "));
    append_chars(&mut out, &decimal_exec(entries.len()));
    append_chars(&mut out, &chars_of("\n\n"));
    let ghost head = out@;
    let mut i: usize = 0;
    proof {
        assert(entries@.take(0) =~= Seq::<IndexEntry>::empty());
        assert(out@ =~= head + entries_text(entries@.take(0)));
    }
    while i < entries.len()
        invariant
            i <= entries.len(),
            out@ == head + entries_text(entries@.take(i as int)),
        decreases entries.len() - i,
    {
        let e = &entries[i];
        let ghost before = out@;
        match &e.title {
            Some(t) => {
                append_chars(&mut out, &chars_of("- **"));
                append_chars(&mut out, &chars_of(t.as_str()));
                append_chars(&mut out, &chars_of("** ("));
                match &e.path {
                    Some(p) => append_chars(&mut out, &chars_of(p.as_str())),
                    None => {},
                }
                append_chars(&mut out, &chars_of(")\n"));
                let tags = join_strings(&e.tags, ", ");
                if tags.as_str().unicode_len() > 0 {
                    append_chars(&mut out, &chars_of("  Tags: "));
                    append_chars(&mut out, &chars_of(tags.as_str()));
                    append_chars(&mut out, &chars_of("\n"));
                }
            },
            None => {},
        }
        proof {
            assert(entries@.take(i + 1).drop_last() =~= entries@.take(i as int));
            assert(entries@.take(i + 1).last() == *e);
            assert(out@ =~= before + entry_lines(*e));
        }
        i = i + 1;
    }
    proof {
        assert(entries@.take(entries.len() as int) =~= entries@);
    }
    string_of(&out)
}

/// The answer to an ingest request that worked: success unless the wiki sync failed
/// (then its error, after `Ingest succeeded but wiki sync failed: `), else the
/// ingest's warnings joined with `; `, if any.
pub fn ingest_response(result: &IngestResult, sync_error: Option<String>) -> (r: IngestResponse)
    ensures
        r.pages_processed == result.pages_processed,
        r.chunks_created == result.chunks_created,
        match sync_error {
            Some(e) => !r.success && (r.error matches Some(m) && m@ == "Ingest succeeded but wiki sync failed: "@ + e@),
            None => r.success && (if result.warnings.len() == 0 {
                r.error is None
            } else {
                (r.error matches Some(m) && m@ == join_with(views_of(result.warnings@), "; "@))
            }),
        },
{
    match sync_error {
        Some(e) => {
            let mut m = chars_of("Ingest succeeded but wiki sync failed: ");
            append_chars(&mut m, &chars_of(e.as_str()));
            IngestResponse {
                success: false,
                pages_processed: result.pages_processed,
                chunks_created: result.chunks_created,
                error: Some(string_of(&m)),
            }
        },
        None => {
            let error = if result.warnings.len() == 0 {
                None
            } else {
                Some(join_strings(&result.warnings, "; "))
            };
            IngestResponse {
                success: true,
                pages_processed: result.pages_processed,
                chunks_created: result.chunks_created,
                error,
            }
        },
    }
}

/// The answer to an ingest request that failed: nothing processed, and its error.
pub fn failed_ingest_response(error: String) -> (r: IngestResponse)
    ensures
        !r.success,
        r.pages_processed == 0,
        r.chunks_created == 0,
        r.error matches Some(m) && m@ == error@,
{
    IngestResponse { success: false, pages_processed: 0, chunks_created: 0, error: Some(error) }
}


/// What a research walk has gathered: the pages visited, in order, and the links
/// found between them.
pub struct ResearchState {
    pub pages: Seq<Seq<char>>,
    pub connections: Seq<(Seq<char>, Seq<char>)>,
}

/// The links from `node` to pages of `visited`, in edge order.
pub open spec fn links_back(es: Seq<EdgeView>, node: Seq<char>, visited: Seq<Seq<char>>) -> Seq<(Seq<char>, Seq<char>)>
    decreases es.len(),
{
    if es.len() == 0 {
        Seq::empty()
    } else {
        let rest = links_back(es.drop_last(), node, visited);
        if es.last().from == node && visited.contains(es.last().to) {
            rest.push((es.last().from, es.last().to))
        } else {
            rest
        }
    }
}

/// The walk after reaching `node`: the page added if new, then its links back to
/// visited pages.
pub open spec fn visit(es: Seq<EdgeView>, st: ResearchState, node: Seq<char>) -> ResearchState {
    let pages = if st.pages.contains(node) { st.pages } else { st.pages.push(node) };
    ResearchState { pages, connections: st.connections + links_back(es, node, pages) }
}

pub open spec fn visit_all(es: Seq<EdgeView>, st: ResearchState, nodes: Seq<Seq<char>>) -> ResearchState
    decreases nodes.len(),
{
    if nodes.len() == 0 {
        st
    } else {
        visit(es, visit_all(es, st, nodes.drop_last()), nodes.last())
    }
}

/// The walk over the reachable lists from the `j`-th on, stopping after the list that
/// brings the pages to `max` or more.
pub open spec fn research(es: Seq<EdgeView>, st: ResearchState, rs: Seq<Seq<Seq<char>>>, j: int, max: nat) -> ResearchState
    decreases rs.len() - j,
{
    if j < 0 || j >= rs.len() {
        st
    } else {
        let st2 = visit_all(es, st, rs[j]);
        if st2.pages.len() >= max {
            st2
        } else {
            research(es, st2, rs, j + 1, max)
        }
    }
}

pub open spec fn pairs_view(v: Seq<(String, String)>) -> Seq<(Seq<char>, Seq<char>)> {
    v.map_values(|p: (String, String)| (p.0@, p.1@))
}

fn contains_string(v: &Vec<String>, x: &String) -> (r: bool)
    ensures
        r == views_of(v@).contains(x@),
{
    let mut i: usize = 0;
    while i < v.len()
        invariant
            i <= v.len(),
            forall|j: int| 0 <= j < i ==> views_of(v@)[j] != x@,
        decreases v.len() - i,
    {
        if same_text(&v[i], x) {
            proof {
                assert(views_of(v@)[i as int] == x@);
            }
            return true;
        }
        i = i + 1;
    }
    false
}

fn visit_exec(graph: &WikiGraph, pages: &mut Vec<String>, conns: &mut Vec<(String, String)>, node: &String)
    ensures
        (ResearchState { pages: views_of(final(pages)@), connections: pairs_view(final(conns)@) }) == visit(
            edges_view(graph.edges@),
            ResearchState { pages: views_of(old(pages)@), connections: pairs_view(old(conns)@) },
            node@,
        ),
{
    let ghost es = edges_view(graph.edges@);
    if !contains_string(pages, node) {
        let ghost before = pages@;
        pages.push(node.clone());
        proof {
            crate::page_text::lemma_views_push(before, pages@.last());
            assert(pages@ == before.push(pages@.last()));
        }
    }
    let ghost pv = views_of(pages@);
    let ghost base = pairs_view(conns@);
    let mut k: usize = 0;
    proof {
        assert(es.take(0) =~= Seq::<EdgeView>::empty());
        assert(pairs_view(conns@) =~= base + links_back(es.take(0), node@, pv));
    }
    while k < graph.edges.len()
        invariant
            k <= graph.edges.len(),
            es == edges_view(graph.edges@),
            pv == views_of(pages@),
            pairs_view(conns@) == base + links_back(es.take(k as int), node@, pv),
        decreases graph.edges.len() - k,
    {
        let e = &graph.edges[k];
        proof {
            assert(es.take(k + 1).drop_last() =~= es.take(k as int));
            assert(es.take(k + 1).last() == e@);
        }
        if same_text(&e.from, node) && contains_string(pages, &e.to) {
            let ghost before = conns@;
            conns.push((e.from.clone(), e.to.clone()));
            proof {
                assert(pairs_view(conns@) =~= pairs_view(before).push((e.from@, e.to@)));
            }
        }
        k = k + 1;
    }
    proof {
        assert(es.take(es.len() as int) =~= es);
    }
}

/// Gathers the reachable lists into visited pages and links (see `research`), then
/// keeps at most `max_results` pages.
pub fn merge_reachable(graph: &WikiGraph, reachables: &Vec<Vec<String>>, max_results: usize) -> (r: (
    Vec<String>,
    Vec<(String, String)>,
))
    ensures
        ({
            let st = research(
                edges_view(graph.edges@),
                ResearchState { pages: Seq::empty(), connections: Seq::empty() },
                reachables@.map_values(|v: Vec<String>| views_of(v@)),
                0,
                max_results as nat,
            );
            &&& views_of(r.0@) == st.pages.take(if st.pages.len() < max_results { st.pages.len() as int } else { max_results as int })
            &&& pairs_view(r.1@) == st.connections
        }),
{
    let ghost es = edges_view(graph.edges@);
    let ghost rs = reachables@.map_values(|v: Vec<String>| views_of(v@));
    let ghost start = ResearchState { pages: Seq::empty(), connections: Seq::empty() };
    let mut pages: Vec<String> = Vec::new();
    let mut conns: Vec<(String, String)> = Vec::new();
    let mut j: usize = 0;
    proof {
        assert(views_of(pages@) =~= Seq::<Seq<char>>::empty());
        assert(pairs_view(conns@) =~= Seq::<(Seq<char>, Seq<char>)>::empty());
    }
    let mut done = false;
    while j < reachables.len() && !done
        invariant
            j <= reachables.len(),
            es == edges_view(graph.edges@),
            rs == reachables@.map_values(|v: Vec<String>| views_of(v@)),
            !done ==> research(es, start, rs, 0, max_results as nat) == research(
                es,
                ResearchState { pages: views_of(pages@), connections: pairs_view(conns@) },
                rs,
                j as int,
                max_results as nat,
            ),
            done ==> research(es, start, rs, 0, max_results as nat) == (ResearchState {
                pages: views_of(pages@),
                connections: pairs_view(conns@),
            }),
        decreases reachables.len() - j,
    {
        let list = &reachables[j];
        let ghost st0 = ResearchState { pages: views_of(pages@), connections: pairs_view(conns@) };
        let mut q: usize = 0;
        proof {
            assert(rs[j as int] == views_of(list@));
            assert(views_of(list@).take(0) =~= Seq::<Seq<char>>::empty());
        }
        while q < list.len()
            invariant
                q <= list.len(),
                list == &reachables[j as int],
                es == edges_view(graph.edges@),
                (ResearchState { pages: views_of(pages@), connections: pairs_view(conns@) }) == visit_all(
                    es,
                    st0,
                    views_of(list@).take(q as int),
                ),
            decreases list.len() - q,
        {
            visit_exec(graph, &mut pages, &mut conns, &list[q]);
            proof {
                assert(views_of(list@).take(q + 1).drop_last() =~= views_of(list@).take(q as int));
                assert(views_of(list@).take(q + 1).last() == list@[q as int]@);
            }
            q = q + 1;
        }
        proof {
            assert(views_of(list@).take(list.len() as int) =~= views_of(list@));
        }
        if pages.len() >= max_results {
            done = true;
        }
        j = j + 1;
    }
    let n = if pages.len() < max_results { pages.len() } else { max_results };
    let mut kept: Vec<String> = Vec::new();
    let mut i: usize = 0;
    while i < n
        invariant
            i <= n <= pages.len(),
            views_of(kept@) == views_of(pages@).take(i as int),
        decreases n - i,
    {
        let ghost before = kept@;
        kept.push(pages[i].clone());
        proof {
            crate::page_text::lemma_views_push(before, kept@.last());
            assert(kept@ == before.push(kept@.last()));
            assert(views_of(pages@).take(i + 1) =~= views_of(pages@).take(i as int).push(pages@[i as int]@));
        }
        i = i + 1;
    }
    (kept, conns)
}

/// A research walk from search hits: from each of the first three hit pages (a
/// trailing `.md` dropped), the pages reachable breadth-first within `max_depth`
/// links, in the order a first-in first-out search meets them (see `fifo_names`),
/// gathered as `merge_reachable` does and cut to the first `max_results`, with a
/// summary of the counts.
pub fn research_walk(graph: &WikiGraph, hits: &Vec<String>, max_depth: usize, max_results: usize) -> (r: DeepResearchResponse)
    ensures
        exists|rs: Seq<Seq<Seq<char>>>|
            {
                &&& rs.len() == (if hits.len() < 3 { hits.len() as int } else { 3 })
                &&& forall|i: int|
                    0 <= i < rs.len() ==> bfs_ok(
                        edges_view(graph.edges@),
                        strip_trailing(hits@[i]@, ".md"@),
                        max_depth as nat,
                        #[trigger] rs[i],
                    ) && rs[i] == fifo_names(edges_view(graph.edges@), strip_trailing(hits@[i]@, ".md"@), max_depth as nat)
                &&& ({
                    let st = research(
                        edges_view(graph.edges@),
                        ResearchState { pages: Seq::empty(), connections: Seq::empty() },
                        rs,
                        0,
                        max_results as nat,
                    );
                    &&& views_of(r.pages@) == st.pages.take(
                        if st.pages.len() < max_results { st.pages.len() as int } else { max_results as int },
                    )
                    &&& pairs_view(r.connections@) == st.connections
                })
            },
        r.summary@ == "Found "@ + decimal(r.pages.len() as nat) + " related pages across "@ + decimal(
            r.connections.len() as nat,
        ) + " connections, starting from "@ + decimal(if hits.len() < 3 { hits.len() as nat } else { 3 })
            + " seed pages"@,
{
    let n_seeds = if hits.len() < 3 { hits.len() } else { 3 };
    let mut reachables: Vec<Vec<String>> = Vec::new();
    let mut i: usize = 0;
    while i < n_seeds
        invariant
            i <= n_seeds <= hits.len(),
            reachables.len() == i,
            forall|k: int|
                0 <= k < i ==> bfs_ok(
                    edges_view(graph.edges@),
                    strip_trailing(hits@[k]@, ".md"@),
                    max_depth as nat,
                    #[trigger] views_of(reachables@[k]@),
                ) && views_of(reachables@[k]@) == fifo_names(edges_view(graph.edges@), strip_trailing(hits@[k]@, ".md"@), max_depth as nat),
        decreases n_seeds - i,
    {
        let start = without_md_suffix(hits[i].as_str());
        let reach = bfs_traversal(graph, start.as_str(), max_depth);
        proof {
            assert(names_of(reach@) =~= views_of(reach@));
        }
        reachables.push(reach);
        i = i + 1;
    }
    let (pages, connections) = merge_reachable(graph, &reachables, max_results);
    let mut summary = chars_of("Found ");
    append_chars(&mut summary, &decimal_exec(pages.len()));
    append_chars(&mut summary, &chars_of(" related pages across "));
    append_chars(&mut summary, &decimal_exec(connections.len()));
    append_chars(&mut summary, &chars_of(" connections, starting from "));
    append_chars(&mut summary, &decimal_exec(n_seeds));
    append_chars(&mut summary, &chars_of(" seed pages"));
    let r = DeepResearchResponse { summary: string_of(&summary), pages, connections };
    proof {
        let rs = reachables@.map_values(|v: Vec<String>| views_of(v@));
        assert forall|k: int| 0 <= k < rs.len() implies bfs_ok(
            edges_view(graph.edges@),
            strip_trailing(hits@[k]@, ".md"@),
            max_depth as nat,
            #[trigger] rs[k],
        ) && rs[k] == fifo_names(edges_view(graph.edges@), strip_trailing(hits@[k]@, ".md"@), max_depth as nat) by {
            assert(rs[k] == views_of(reachables@[k]@));
        }
    }
    r
}

} // verus!
