use std::sync::Arc;

use llm_wiki_server::cypher::{cypher_kind_of_upper, CypherEngine, CypherKind, CypherQuery};
use llm_wiki_server::filesystem::WikiFileSystem;
use llm_wiki_server::graph::{bfs_traversal, GraphEdge, GraphManager, GraphNode, WikiGraph};
use llm_wiki_server::index::{matches_lowered, total_tags, IndexManager, PageMetadata};
use llm_wiki_server::page_text::{
    count_words, extract_links, extract_main_function, extract_main_struct, extract_title,
    generate_title_from_page_id,
};
use llm_wiki_server::wiki_queries::{
    api_graph, excerpt_of, extension_allowed, index_markdown, isolated_pages, page_id_for_file,
    request_page_id, research_walk, IndexEntry,
};

fn manager() -> IndexManager {
    IndexManager::new(Arc::new(WikiFileSystem::new("/proj").unwrap()))
}

fn page(id: &str, tags: &[&str], category: Option<&str>, links: &[&str]) -> PageMetadata {
    PageMetadata {
        id: id.to_string(),
        path: format!("pages/{}.md", id),
        title: id.to_uppercase(),
        summary: None,
        tags: tags.iter().map(|t| t.to_string()).collect(),
        category: category.map(|c| c.to_string()),
        importance: 5,
        created_at: "2024-01-01T00:00:00Z".to_string(),
        updated_at: "2024-01-01T00:00:00Z".to_string(),
        word_count: 0,
        links_to: links.iter().map(|l| l.to_string()).collect(),
        linked_from: Vec::new(),
    }
}

#[test]
fn wiki_paths() {
    let fs = WikiFileSystem::new("/proj").unwrap();
    assert_eq!(fs.pages_dir(), "/proj/.wiki/pages");
    assert_eq!(fs.index_path(), "/proj/.wiki/_meta/index.json");
    assert_eq!(fs.graph_path(), "/proj/.wiki/_meta/graph.json");
    assert_eq!(fs.purpose_path(), "/proj/.wiki/purpose.md");
    assert_eq!(fs.page_file("intro.md"), "/proj/.wiki/pages/intro.md");
    assert_eq!(fs.page_file("intro"), "/proj/.wiki/pages/intro.md");
    assert!(WikiFileSystem::default_purpose().starts_with("# Wiki Purpose"));
}

#[test]
fn links_of_both_kinds_in_order() {
    let content = "See [[alpha]] and [text](beta.md), then [[gamma]] and [x](notes.txt).";
    assert_eq!(extract_links(content), vec!["alpha", "gamma", "beta"]);
    assert!(extract_links("[[]] and [](x.md)").is_empty());
    assert_eq!(extract_links("[a](.md)"), Vec::<String>::new());
    assert_eq!(extract_links("[a](b.md)"), vec!["b"]);
}

#[test]
fn words_are_counted_like_split_whitespace() {
    assert_eq!(count_words(""), 0);
    assert_eq!(count_words("  one\ttwo\n three  "), 3);
    assert_eq!(count_words("x"), 1);
}

#[test]
fn titles_come_from_headings_or_ids() {
    assert_eq!(extract_title("p", "intro\n  # My Title  \n# Other"), "My Title");
    assert_eq!(extract_title("my-page_name", "no heading"), "my page name");
    assert_eq!(extract_title(".wiki-config.toml", "x = 1"), "Configuration");
    assert_eq!(
        generate_title_from_page_id(".wiki-src-lib.rs", "pub struct Foo{\n}\npub fn bar() {}"),
        "Foo (src-lib)"
    );
    assert_eq!(generate_title_from_page_id("util.rs", "pub async fn run(x: u8)"), "run() (util)");
    assert_eq!(generate_title_from_page_id("my_mod.rs", "fn private() {}"), "Module: my mod");
    assert_eq!(extract_main_struct("struct A;\n  pub struct   Bar<T> {"), Some("Bar<T>".to_string()));
    assert_eq!(extract_main_function("pub fn go ( a )"), Some("go".to_string()));
    assert_eq!(extract_main_function("fn go()"), None);
}

#[test]
fn metadata_read_from_content() {
    let m = manager();
    let p = m.extract_metadata("guide", "# Guide\nsee [[intro]]").unwrap();
    assert_eq!(p.id, "guide");
    assert_eq!(p.path, "pages/guide.md");
    assert_eq!(p.title, "Guide");
    assert_eq!(p.word_count, 4);
    assert_eq!(p.links_to, vec!["intro"]);
    assert_eq!(p.importance, 5);
    assert!(p.tags.is_empty() && p.linked_from.is_empty());
}

#[test]
fn add_then_get_and_remove() {
    let m = manager();
    let mut index = IndexManager::empty_index();
    m.add_page(&mut index, page("a", &["rust", "db"], Some("code"), &["b"]));
    m.add_page(&mut index, page("b", &["rust"], Some("api"), &[]));
    m.add_page(&mut index, page("a", &["rust"], Some("code"), &["b", "b"]));
    assert_eq!(index.pages.len(), 2);
    assert_eq!(index.metadata.total_pages, 2);
    let got = m.get_page(&index, "a").unwrap();
    assert_eq!(got.links_to, vec!["b", "b"]);
    let b = m.get_page(&index, "b").unwrap();
    assert_eq!(b.linked_from, vec!["a", "a"]);
    assert_eq!(index.metadata.categories, vec!["api", "code"]);
    assert_eq!(index.metadata.top_tags, vec!["rust"]);
    m.remove_page(&mut index, "a");
    assert!(m.get_page(&index, "a").is_none());
    assert_eq!(m.get_page(&index, "b").unwrap().linked_from, Vec::<String>::new());
    assert_eq!(m.list_pages(&index).len(), 1);
}

#[test]
fn top_tags_are_most_used_first_and_at_most_twenty() {
    let m = manager();
    let mut index = IndexManager::empty_index();
    let many: Vec<String> = (0..25).map(|i| format!("t{}", i)).collect();
    let many_refs: Vec<&str> = many.iter().map(|s| s.as_str()).collect();
    m.add_page(&mut index, page("x", &many_refs, None, &[]));
    m.add_page(&mut index, page("y", &["t24", "t3"], None, &[]));
    m.add_page(&mut index, page("z", &["t24"], None, &[]));
    let top = &index.metadata.top_tags;
    assert_eq!(top.len(), 20);
    assert_eq!(top[0], "t24");
    assert_eq!(top[1], "t3");
}

#[test]
fn search_ignores_letter_case() {
    let m = manager();
    let mut index = IndexManager::empty_index();
    m.add_page(&mut index, page("alpha", &["Databases"], None, &[]));
    m.add_page(&mut index, page("beta", &[], Some("Guides"), &[]));
    m.add_page(&mut index, page("gamma", &[], None, &[]));
    let hits = m.search_pages(&index, "DATA");
    assert_eq!(hits.len(), 1);
    assert_eq!(hits[0].id, "alpha");
    assert_eq!(m.search_pages(&index, "guide")[0].id, "beta");
    assert_eq!(m.search_pages(&index, "GAM")[0].id, "gamma");
    assert_eq!(m.search_pages(&index, "").len(), 3);
}

#[test]
fn rebuild_reads_every_page() {
    let m = manager();
    let pages = vec![
        ("a".to_string(), "# A\nlinks [[b]]".to_string()),
        ("b".to_string(), "plain".to_string()),
    ];
    let index = m.rebuild(&pages);
    assert_eq!(index.version, "1.0");
    assert_eq!(index.pages.len(), 2);
    assert_eq!(index.pages[0].title, "A");
    assert_eq!(index.pages[1].linked_from, vec!["a"]);
    assert!(index.metadata.top_tags.is_empty());
}

fn small_graph() -> WikiGraph {
    let edge = |f: &str, t: &str| GraphEdge { from: f.to_string(), to: t.to_string(), edge_type: "references".to_string() };
    let node = |id: &str| GraphNode { id: id.to_string(), node_type: "page".to_string(), weight: 5 };
    WikiGraph {
        nodes: vec![node("a"), node("b"), node("c"), node("d"), node("lonely")],
        edges: vec![edge("a", "b"), edge("b", "c"), edge("a", "d"), edge("c", "a")],
    }
}

#[test]
fn graph_from_index_has_a_node_per_page_and_an_edge_per_link() {
    let m = manager();
    let mut index = IndexManager::empty_index();
    m.add_page(&mut index, page("a", &[], None, &["b", "c"]));
    m.add_page(&mut index, page("b", &[], None, &["a"]));
    let gm = GraphManager::new(Arc::new(WikiFileSystem::new("/proj").unwrap()));
    let g = gm.generate_from_index(&index);
    assert_eq!(g.nodes.len(), 2);
    assert_eq!(g.nodes[0].node_type, "page");
    assert_eq!(g.nodes[0].weight, 5);
    let pairs: Vec<(String, String)> = g.edges.iter().map(|e| (e.from.clone(), e.to.clone())).collect();
    assert_eq!(pairs, vec![("a".into(), "b".into()), ("a".into(), "c".into()), ("b".into(), "a".into())]);
    assert_eq!(gm.graph_file(), "/proj/.wiki/_meta/graph.json");
    assert!(GraphManager::empty_graph().nodes.is_empty());
}

#[test]
fn bfs_is_breadth_first_and_bounded() {
    let g = small_graph();
    assert_eq!(bfs_traversal(&g, "a", 0), vec!["a"]);
    assert_eq!(bfs_traversal(&g, "a", 1), vec!["a", "b", "d"]);
    assert_eq!(bfs_traversal(&g, "a", 5), vec!["a", "b", "d", "c"]);
    assert_eq!(bfs_traversal(&g, "nowhere", 3), vec!["nowhere"]);
}

#[test]
fn isolated_and_api_graph() {
    let g = small_graph();
    assert_eq!(isolated_pages(&g), vec!["lonely"]);
    let api = api_graph(&g);
    assert_eq!(api.nodes.len(), 5);
    assert_eq!(api.nodes[0].page_path, Some("pages/a.md".to_string()));
    assert_eq!(api.edges[0].source, "a");
    assert_eq!(api.edges[0].relation, "references");
}

#[test]
fn research_walk_gathers_pages_and_links() {
    let g = small_graph();
    let r = research_walk(&g, &vec!["a.md".to_string()], 1, 10);
    assert_eq!(r.pages, vec!["a", "b", "d"]);
    assert_eq!(r.connections, Vec::<(String, String)>::new());
    assert_eq!(r.summary, "Found 3 related pages across 0 connections, starting from 1 seed pages");
    let r = research_walk(&g, &vec!["c".to_string()], 1, 1);
    assert_eq!(r.pages, vec!["c"]);
    let r = research_walk(&g, &vec!["c".to_string(), "b".to_string()], 3, 10);
    assert_eq!(r.pages, vec!["c", "a", "b", "d"]);
    let pair = |a: &str, b: &str| (a.to_string(), b.to_string());
    assert_eq!(
        r.connections,
        vec![pair("b", "c"), pair("b", "c"), pair("c", "a"), pair("a", "b"), pair("a", "d")]
    );
}

#[test]
fn request_paths_and_files() {
    assert_eq!(request_page_id("pages/my-page.md"), "my-page");
    assert_eq!(request_page_id("pages/pages/x.md.md"), "x");
    assert_eq!(page_id_for_file("docs/a\\b.md"), ".wiki-docs-a-b.md");
    let allowed = vec!["md".to_string(), "txt".to_string()];
    assert!(extension_allowed(Some("md"), &allowed));
    assert!(!extension_allowed(Some("rs"), &allowed));
    assert!(extension_allowed(None, &allowed));
    assert_eq!(excerpt_of(&"é".repeat(300)).chars().count(), 200);
    assert_eq!(excerpt_of("short"), "short");
}

#[test]
fn index_listing_in_markdown() {
    let entries = vec![
        IndexEntry { title: Some("A".to_string()), path: Some("pages/a.md".to_string()), tags: vec!["x".to_string(), "y".to_string()] },
        IndexEntry { title: None, path: Some("pages/b.md".to_string()), tags: vec![] },
        IndexEntry { title: Some("C".to_string()), path: None, tags: vec![] },
    ];
    assert_eq!(
        index_markdown(&entries),
        "# Wiki Index\n\n**Total Pages:** 3\n\n- **A** (pages/a.md)\n  Tags: x, y\n- **C** ()\n"
    );
}

#[test]
fn test_cypher_match() {
    let engine = CypherEngine::new();
    let query = CypherQuery { query: "MATCH (n:Page) RETURN n.title LIMIT 10".to_string(), parameters: None };
    let result = engine.execute(&query);
    assert!(result.is_ok());
}

#[test]
fn cypher_kinds_and_refusal() {
    let engine = CypherEngine::new();
    let q = |s: &str| CypherQuery { query: s.to_string(), parameters: None };
    let m = engine.execute(&q("  match (n) return n")).unwrap();
    assert_eq!(m.columns, vec!["n.title", "n.path"]);
    assert_eq!(m.row_count, 0);
    assert!(engine.execute(&q("CREATE (n)")).unwrap().columns.is_empty());
    assert!(engine.execute(&q("return 1")).is_ok());
    assert_eq!(engine.execute(&q("DELETE x")).unwrap_err(), "Unsupported Cypher query: DELETE x");
}

#[test]
fn tag_totals() {
    let pages = vec![page("a", &["x", "y"], None, &[]), page("b", &["x"], None, &[])];
    assert_eq!(total_tags(&pages), Some(3));
    assert_eq!(total_tags(&vec![]), Some(0));
}

#[test]
fn updating_twice_changes_nothing() {
    let m = manager();
    let mut index = IndexManager::empty_index();
    m.add_page(&mut index, page("a", &["t"], Some("c"), &["b"]));
    m.add_page(&mut index, page("b", &[], None, &["a", "b"]));
    let first: Vec<Vec<String>> = index.pages.iter().map(|p| p.linked_from.clone()).collect();
    m.update_metadata(&mut index);
    let second: Vec<Vec<String>> = index.pages.iter().map(|p| p.linked_from.clone()).collect();
    assert_eq!(first, second);
    assert_eq!(second, vec![vec!["b".to_string()], vec!["a".to_string(), "b".to_string()]]);
}

#[test]
fn lookups_after_add_and_remove() {
    let m = manager();
    let mut index = IndexManager::empty_index();
    m.add_page(&mut index, page("x", &[], None, &["x"]));
    let got = m.get_page(&index, "x").unwrap();
    assert_eq!(got.linked_from, vec!["x"]);
    m.remove_page(&mut index, "x");
    assert!(m.get_page(&index, "x").is_none());
    assert_eq!(index.metadata.total_pages, 0);
}

#[test]
fn cypher_kind_of_an_upper_case_query() {
    assert!(matches!(cypher_kind_of_upper("MATCH (N) RETURN N"), Some(CypherKind::Match)));
    assert!(matches!(cypher_kind_of_upper("CREATE (N)"), Some(CypherKind::Create)));
    assert!(matches!(cypher_kind_of_upper("RETURN 1"), Some(CypherKind::Return)));
    assert!(cypher_kind_of_upper("match (n)").is_none());
    assert!(cypher_kind_of_upper("DELETE N").is_none());
}

#[test]
fn search_match_on_lowered_fields() {
    let tags = vec!["rust".to_string(), "graphs".to_string()];
    assert!(matches_lowered("intro", &tags, &None, "graph"));
    assert!(matches_lowered("getting started", &vec![], &None, "start"));
    assert!(matches_lowered("x", &vec![], &Some("tutorials".to_string()), "tutor"));
    assert!(!matches_lowered("x", &tags, &Some("notes".to_string()), "python"));
}

#[test]
fn bfs_takes_links_in_edge_order_within_a_level() {
    let edge = |f: &str, t: &str| GraphEdge { from: f.to_string(), to: t.to_string(), edge_type: "link".to_string() };
    let g = WikiGraph {
        nodes: vec![],
        edges: vec![edge("a", "c"), edge("a", "b"), edge("b", "e"), edge("c", "d"), edge("c", "e")],
    };
    assert_eq!(bfs_traversal(&g, "a", 1), vec!["a", "c", "b"]);
    assert_eq!(bfs_traversal(&g, "a", 2), vec!["a", "c", "b", "d", "e"]);
}
