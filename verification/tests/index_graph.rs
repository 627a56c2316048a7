use ie_core::index::graph::{assemble_graph, neighbourhood};
use ie_core::index::queries::GraphOptions;
use ie_core::model::{FileKind, GraphData, GraphNodeKind, LinkKind};
use ie_core::vault::path::VaultPath;

fn file(path: &str, kind: FileKind, title: Option<&str>, degree: usize) -> (VaultPath, FileKind, Option<String>, usize) {
    (VaultPath::parse(path).unwrap(), kind, title.map(|t| t.to_string()), degree)
}

fn link(a: &str, b: &str) -> (String, String, LinkKind) {
    (a.to_string(), b.to_string(), LinkKind::WikiLink)
}

fn sample(options: &GraphOptions) -> GraphData {
    assemble_graph(
        options,
        vec![
            file("A.md", FileKind::Note, Some("Alpha"), 9),
            file("B.md", FileKind::Note, None, 9),
            file("Sub/C.md", FileKind::Note, None, 9),
            file("img.png", FileKind::Image, None, 9),
            file("D.md", FileKind::Note, None, 7),
        ],
        6,
        vec![link("A.md", "B.md"), link("B.md", "Sub/C.md"), link("A.md", "A.md"), link("A.md", "Missing.md")],
        vec![("A.md".to_string(), "Ghost".to_string()), ("B.md".to_string(), "Ghost".to_string())],
        vec![("Sub/C.md".to_string(), "ai".to_string())],
    )
}

#[test]
fn file_rows_become_labelled_nodes_and_links_between_them_edges() {
    let g = sample(&GraphOptions::default());
    let ids: Vec<&str> = g.nodes.iter().map(|n| n.id.as_str()).collect();
    assert_eq!(ids, vec!["A.md", "B.md", "Sub/C.md", "img.png", "D.md", "unresolved:Ghost"]);
    assert_eq!(g.nodes[0].label, "Alpha");
    assert_eq!(g.nodes[1].label, "B");
    assert_eq!(g.nodes[2].folder, "Sub");
    assert_eq!(g.nodes[3].kind, GraphNodeKind::Attachment);
    assert_eq!(g.nodes[5].kind, GraphNodeKind::Unresolved);
    assert_eq!(g.edges.len(), 4, "self links and links to missing nodes are not drawn");
    assert!(g.truncated, "six files exist and the cap handed over five");
}

#[test]
fn nodes_are_sized_by_the_edges_drawn() {
    let g = sample(&GraphOptions::default());
    let degree = |id: &str| g.nodes.iter().find(|n| n.id == id).unwrap().degree;
    assert_eq!(degree("A.md"), 2);
    assert_eq!(degree("B.md"), 3);
    assert_eq!(degree("Sub/C.md"), 1);
    assert_eq!(degree("unresolved:Ghost"), 2);
    assert_eq!(degree("D.md"), 0, "a node no drawn edge touches has degree 0");
}

#[test]
fn tags_become_nodes_only_when_asked_for() {
    let options = GraphOptions { include_tags: true, include_unresolved: false, ..GraphOptions::default() };
    let g = sample(&options);
    let tag = g.nodes.iter().find(|n| n.id == "tag:ai").unwrap();
    assert_eq!(tag.label, "#ai");
    assert_eq!(tag.kind, GraphNodeKind::Tag);
    assert!(g.nodes.iter().all(|n| n.kind != GraphNodeKind::Unresolved));
}

#[test]
fn a_folder_limits_the_graph_to_its_notes() {
    let options = GraphOptions { folder: Some(VaultPath::parse("Sub").unwrap()), ..GraphOptions::default() };
    let g = sample(&options);
    let ids: Vec<&str> = g.nodes.iter().map(|n| n.id.as_str()).collect();
    assert_eq!(ids, vec!["Sub/C.md"]);
    assert!(g.edges.is_empty());
}

#[test]
fn a_neighbourhood_reaches_out_the_given_number_of_hops_either_way() {
    let full = sample(&GraphOptions::default());
    let one = neighbourhood(full, &VaultPath::parse("Sub/C.md").unwrap(), 1);
    let ids: Vec<&str> = one.nodes.iter().map(|n| n.id.as_str()).collect();
    assert_eq!(ids, vec!["B.md", "Sub/C.md"]);
    assert_eq!(one.edges.len(), 1);
    assert!(one.truncated);

    let full = sample(&GraphOptions::default());
    let two = neighbourhood(full, &VaultPath::parse("Sub/C.md").unwrap(), 2);
    let ids: Vec<&str> = two.nodes.iter().map(|n| n.id.as_str()).collect();
    assert_eq!(ids, vec!["A.md", "B.md", "Sub/C.md", "unresolved:Ghost"]);
    assert_eq!(two.edges.len(), 4);
}

#[test]
fn a_note_outside_the_graph_has_an_empty_neighbourhood() {
    let full = sample(&GraphOptions::default());
    let none = neighbourhood(full, &VaultPath::parse("Elsewhere.md").unwrap(), 3);
    assert!(none.nodes.is_empty() && none.edges.is_empty() && !none.truncated);
    let full = sample(&GraphOptions::default());
    let zero = neighbourhood(full, &VaultPath::parse("D.md").unwrap(), 0);
    assert_eq!(zero.nodes.len(), 1);
}

#[test]
fn a_folder_filter_alone_does_not_truncate() {
    let options = GraphOptions { folder: Some(VaultPath::parse("A").unwrap()), ..GraphOptions::default() };
    let g = assemble_graph(
        &options,
        vec![file("A/x.md", FileKind::Note, None, 0), file("B/y.md", FileKind::Note, None, 0)],
        2,
        Vec::new(),
        Vec::new(),
        Vec::new(),
    );
    let ids: Vec<&str> = g.nodes.iter().map(|n| n.id.as_str()).collect();
    assert_eq!(ids, vec!["A/x.md"]);
    assert!(g.edges.is_empty());
    assert!(!g.truncated);
}

#[test]
fn a_note_linking_only_to_itself_has_degree_zero() {
    let g = assemble_graph(
        &GraphOptions::default(),
        vec![file("Self.md", FileKind::Note, None, 2)],
        1,
        vec![link("Self.md", "Self.md")],
        Vec::new(),
        Vec::new(),
    );
    assert_eq!(g.nodes[0].degree, 0);
    assert!(g.edges.is_empty());
}
