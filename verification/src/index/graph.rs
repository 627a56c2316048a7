//! The graph view's data: which notes, attachments, unresolved targets and
//! tags become nodes, which links become edges, and how big each node is.
//! The host runs the index queries and hands their rows in.
use vstd::prelude::*;
use vstd::hash_map::StringHashMap;
use crate::index::queries::GraphOptions;

use crate::model::{FileKind, GraphData, GraphEdge, GraphNode, GraphNodeKind, LinkKind};
use crate::strings::{chars_eq, clone_string, has_prefix_at, push_str, starts_with_at, str_to_string, to_chars};
use crate::vault::path::{file_name_of, parent_of, stem_of, VaultPath};

verus! {

pub struct NodeView {
    pub id: Seq<char>,
    pub path: Option<Seq<char>>,
    pub label: Seq<char>,
    pub kind: GraphNodeKind,
    pub degree: usize,
    pub tags: Seq<Seq<char>>,
    pub folder: Seq<char>,
}

pub struct EdgeView {
    pub source: Seq<char>,
    pub target: Seq<char>,
    pub kind: LinkKind,
}

impl View for GraphNode {
    type V = NodeView;

    open spec fn view(&self) -> NodeView {
        NodeView {
            id: self.id@,
            path: match self.path {
                Some(p) => Some(p@),
                None => None,
            },
            label: self.label@,
            kind: self.kind,
            degree: self.degree,
            tags: self.tags@.map_values(|t: String| t@),
            folder: self.folder@,
        }
    }
}

impl View for GraphEdge {
    type V = EdgeView;

    open spec fn view(&self) -> EdgeView {
        EdgeView { source: self.source@, target: self.target@, kind: self.kind }
    }
}

pub open spec fn nodes_view(ns: Seq<GraphNode>) -> Seq<NodeView> {
    ns.map_values(|n: GraphNode| n@)
}

pub open spec fn edges_view(es: Seq<GraphEdge>) -> Seq<EdgeView> {
    es.map_values(|e: GraphEdge| e@)
}

/// A row of the file query: path, kind, title, and the degree the index
/// counted.
pub open spec fn in_folder(path: Seq<char>, folder: Option<VaultPath>) -> bool {
    match folder {
        Some(f) => f@.len() == 0 || has_prefix_at(path, 0, f@ + seq!['/']),
        None => true,
    }
}

pub open spec fn node_kind_for(kind: FileKind) -> GraphNodeKind {
    if kind == FileKind::Note || kind == FileKind::Canvas {
        GraphNodeKind::Note
    } else {
        GraphNodeKind::Attachment
    }
}

pub open spec fn row_node(row: (VaultPath, FileKind, Option<String>, usize)) -> NodeView {
    NodeView {
        id: row.0@,
        path: Some(row.0@),
        label: match row.2 {
            Some(t) => t@,
            None => stem_of(file_name_of(row.0@)),
        },
        kind: node_kind_for(row.1),
        degree: row.3,
        tags: Seq::<Seq<char>>::empty(),
        folder: parent_of(row.0@),
    }
}

/// The file nodes: one per row inside the folder, in row order.
pub open spec fn file_nodes(rows: Seq<(VaultPath, FileKind, Option<String>, usize)>, folder: Option<VaultPath>) -> Seq<
    NodeView,
>
    decreases rows.len(),
{
    if rows.len() == 0 {
        Seq::<NodeView>::empty()
    } else {
        let rest = file_nodes(rows.drop_last(), folder);
        if in_folder(rows.last().0@, folder) {
            rest.push(row_node(rows.last()))
        } else {
            rest
        }
    }
}

pub open spec fn has_id(nodes: Seq<NodeView>, id: Seq<char>) -> bool {
    exists|k: int| 0 <= k < nodes.len() && (#[trigger] nodes[k]).id == id
}

/// The links drawn: both ends are nodes, and it is not a link to itself.
pub open spec fn drawn_links(links: Seq<(String, String, LinkKind)>, nodes: Seq<NodeView>) -> Seq<EdgeView>
    decreases links.len(),
{
    if links.len() == 0 {
        Seq::<EdgeView>::empty()
    } else {
        let rest = drawn_links(links.drop_last(), nodes);
        let l = links.last();
        if has_id(nodes, l.0@) && has_id(nodes, l.1@) && l.0@ != l.1@ {
            rest.push(EdgeView { source: l.0@, target: l.1@, kind: l.2 })
        } else {
            rest
        }
    }
}

pub open spec fn named_node(id: Seq<char>, label: Seq<char>, kind: GraphNodeKind) -> NodeView {
    NodeView {
        id,
        path: None,
        label,
        kind,
        degree: 0,
        tags: Seq::<Seq<char>>::empty(),
        folder: Seq::<char>::empty(),
    }
}

/// The graph after joining each (source, name) row whose source is a node
/// to a node with the id `prefix + name`, created on first use and labelled
/// `label_prefix + name`.
pub open spec fn joined(
    g: (Seq<NodeView>, Seq<EdgeView>),
    rows: Seq<(String, String)>,
    prefix: Seq<char>,
    label_prefix: Seq<char>,
    kind: GraphNodeKind,
) -> (Seq<NodeView>, Seq<EdgeView>)
    decreases rows.len(),
{
    if rows.len() == 0 {
        g
    } else {
        let s = joined(g, rows.drop_last(), prefix, label_prefix, kind);
        let source = rows.last().0@;
        let name = rows.last().1@;
        if !has_id(s.0, source) {
            s
        } else {
            let id = prefix + name;
            let nodes = if has_id(s.0, id) {
                s.0
            } else {
                s.0.push(named_node(id, label_prefix + name, kind))
            };
            (nodes, s.1.push(EdgeView { source, target: id, kind: LinkKind::WikiLink }))
        }
    }
}

/// How many drawn edges touch `id`, counting each end.
pub open spec fn degree_of(edges: Seq<EdgeView>, id: Seq<char>) -> nat
    decreases edges.len(),
{
    if edges.len() == 0 {
        0
    } else {
        degree_of(edges.drop_last(), id) + (if edges.last().source == id { 1nat } else { 0nat }) + (if edges.last().target
            == id {
            1nat
        } else {
            0nat
        })
    }
}

/// `i` is the last node with its id, the one the id names.
pub open spec fn is_last_with_id(nodes: Seq<NodeView>, i: int) -> bool {
    forall|j: int| i < j < nodes.len() ==> (#[trigger] nodes[j]).id != nodes[i].id
}

pub open spec fn sized(n: NodeView, degree: usize) -> NodeView {
    NodeView { id: n.id, path: n.path, label: n.label, kind: n.kind, degree, tags: n.tags, folder: n.folder }
}

/// Degree is what sizes a node, so every node takes the count of the drawn
/// edges that touch it; a node no drawn edge touches has degree 0.
pub open spec fn sized_nodes(nodes: Seq<NodeView>, edges: Seq<EdgeView>) -> Seq<NodeView> {
    Seq::new(nodes.len(), |i: int| sized(nodes[i], degree_of(edges, nodes[i].id) as usize))
}

/// The unsized graph: file nodes, drawn links, then unresolved targets and
/// tags when asked for.
pub open spec fn unsized_graph(
    options: GraphOptions,
    files: Seq<(VaultPath, FileKind, Option<String>, usize)>,
    links: Seq<(String, String, LinkKind)>,
    unresolved: Seq<(String, String)>,
    tags: Seq<(String, String)>,
) -> (Seq<NodeView>, Seq<EdgeView>) {
    let nodes = file_nodes(files, options.folder);
    let g = (nodes, drawn_links(links, nodes));
    let g = if options.include_unresolved {
        joined(g, unresolved, "unresolved:"@, Seq::<char>::empty(), GraphNodeKind::Unresolved)
    } else {
        g
    };
    if options.include_tags {
        joined(g, tags, "tag:"@, seq!['#'], GraphNodeKind::Tag)
    } else {
        g
    }
}

/// An index from node id to the last node holding it.
pub open spec fn indexes(ids: Map<Seq<char>, usize>, nodes: Seq<NodeView>) -> bool {
    &&& forall|id: Seq<char>| #[trigger] ids.contains_key(id) <==> has_id(nodes, id)
    &&& forall|id: Seq<char>|
        #[trigger] ids.contains_key(id) ==> {
            &&& ids[id] < nodes.len()
            &&& nodes[ids[id] as int].id == id
            &&& is_last_with_id(nodes, ids[id] as int)
        }
}

proof fn lemma_indexes_push(ids: Map<Seq<char>, usize>, nodes: Seq<NodeView>, n: NodeView)
    requires
        indexes(ids, nodes),
        nodes.len() < usize::MAX,
    ensures
        indexes(ids.insert(n.id, nodes.len() as usize), nodes.push(n)),
{
    let ids2 = ids.insert(n.id, nodes.len() as usize);
    let nodes2 = nodes.push(n);
    assert forall|id: Seq<char>| #[trigger] ids2.contains_key(id) <==> has_id(nodes2, id) by {
        if has_id(nodes2, id) {
            let k = choose|k: int| 0 <= k < nodes2.len() && (#[trigger] nodes2[k]).id == id;
            if k < nodes.len() {
                assert(nodes[k].id == id);
                assert(has_id(nodes, id));
            }
        }
        if ids.contains_key(id) && id != n.id {
            let k = choose|k: int| 0 <= k < nodes.len() && (#[trigger] nodes[k]).id == id;
            assert(nodes2[k].id == id);
        }
        if id == n.id {
            assert(nodes2[nodes.len() as int].id == id);
        }
    }
    assert forall|id: Seq<char>| #[trigger] ids2.contains_key(id) implies {
        &&& ids2[id] < nodes2.len()
        &&& nodes2[ids2[id] as int].id == id
        &&& is_last_with_id(nodes2, ids2[id] as int)
    } by {
        if id != n.id {
            assert(ids.contains_key(id));
            let i = ids[id] as int;
            assert forall|j: int| i < j < nodes2.len() implies (#[trigger] nodes2[j]).id != nodes2[i].id by {
                if j < nodes.len() {
                    assert(nodes[j].id != nodes[i].id);
                }
            }
        }
    }
}

proof fn lemma_degree_bound(edges: Seq<EdgeView>, id: Seq<char>)
    ensures
        degree_of(edges, id) <= 2 * edges.len(),
    decreases edges.len(),
{
    if edges.len() > 0 {
        lemma_degree_bound(edges.drop_last(), id);
    }
}

fn same_text(a: &String, b: &String) -> (r: bool)
    ensures
        r == (a@ == b@),
{
    chars_eq(&to_chars(a.as_str()), &to_chars(b.as_str()))
}

fn folder_prefix(folder: &Option<VaultPath>) -> (r: Option<Vec<char>>)
    ensures
        match folder {
            Some(f) => if f@.len() == 0 {
                r is None
            } else {
                r matches Some(p) && p@ == f@ + seq!['/']
            },
            None => r is None,
        },
{
    match folder {
        Some(f) => {
            if f.is_root() {
                None
            } else {
                let mut p = to_chars(f.as_str());
                p.push('/');
                Some(p)
            }
        },
        None => None,
    }
}

fn file_node(row: &(VaultPath, FileKind, Option<String>, usize)) -> (r: GraphNode)
    ensures
        r@ == row_node(*row),
{
    let label = match &row.2 {
        Some(t) => clone_string(t),
        None => str_to_string(row.0.stem()),
    };
    let node = GraphNode {
        id: str_to_string(row.0.as_str()),
        path: Some(row.0.clone()),
        label,
        kind: match row.1 {
            FileKind::Note => GraphNodeKind::Note,
            FileKind::Canvas => GraphNodeKind::Note,
            _ => GraphNodeKind::Attachment,
        },
        degree: row.3,
        tags: Vec::new(),
        folder: str_to_string(row.0.parent().as_str()),
    };
    assert(node@.tags =~= Seq::<Seq<char>>::empty());
    node
}

/// Join the rows' sources to named nodes (see `joined`).
fn join_named(
    nodes: &mut Vec<GraphNode>,
    edges: &mut Vec<GraphEdge>,
    ids: &mut StringHashMap<usize>,
    rows: &Vec<(String, String)>,
    prefix: &str,
    label_prefix: &str,
    kind: GraphNodeKind,
)
    requires
        indexes(old(ids)@, nodes_view(old(nodes)@)),
        old(nodes)@.len() + rows@.len() < usize::MAX,
    ensures
        (nodes_view(final(nodes)@), edges_view(final(edges)@)) == joined(
            (nodes_view(old(nodes)@), edges_view(old(edges)@)),
            rows@,
            prefix@,
            label_prefix@,
            kind,
        ),
        indexes(final(ids)@, nodes_view(final(nodes)@)),
        final(nodes)@.len() <= old(nodes)@.len() + rows@.len(),
        final(edges)@.len() <= old(edges)@.len() + rows@.len(),
{
    let ghost g0 = (nodes_view(nodes@), edges_view(edges@));
    let ghost n0 = nodes@.len();
    let ghost e0 = edges@.len();
    let mut i: usize = 0;
    assert(rows@.take(0) =~= Seq::<(String, String)>::empty());
    while i < rows.len()
        invariant
            i <= rows@.len(),
            n0 + rows@.len() < usize::MAX,
            indexes(ids@, nodes_view(nodes@)),
            (nodes_view(nodes@), edges_view(edges@)) == joined(g0, rows@.take(i as int), prefix@, label_prefix@, kind),
            nodes@.len() <= n0 + i,
            edges@.len() <= e0 + i,
        decreases rows@.len() - i,
    {
        assert(rows@.take(i + 1).drop_last() =~= rows@.take(i as int));
        assert(rows@.take(i + 1).last() == rows@[i as int]);
        let source = &rows[i].0;
        let name = &rows[i].1;
        if ids.contains_key(source.as_str()) {
            let mut id = str_to_string(prefix);
            push_str(&mut id, name.as_str());
            if !ids.contains_key(id.as_str()) {
                let mut label = str_to_string(label_prefix);
                push_str(&mut label, name.as_str());
                let node = GraphNode {
                    id: clone_string(&id),
                    path: None,
                    label,
                    kind,
                    degree: 0,
                    tags: Vec::new(),
                    folder: String::new(),
                };
                assert(node@ == named_node(id@, label_prefix@ + name@, kind)) by {
                    assert(node@.tags =~= Seq::<Seq<char>>::empty());
                    assert(node@.folder =~= Seq::<char>::empty());
                }
                proof {
                    lemma_indexes_push(ids@, nodes_view(nodes@), node@);
                }
                let at = nodes.len();
                let ghost before = nodes_view(nodes@);
                nodes.push(node);
                assert(nodes_view(nodes@) =~= before.push(named_node(id@, label_prefix@ + name@, kind)));
                ids.insert(clone_string(&id), at);
            }
            let ghost before_edges = edges_view(edges@);
            edges.push(GraphEdge { source: clone_string(source), target: id, kind: LinkKind::WikiLink });
            assert(edges_view(edges@) =~= before_edges.push(
                EdgeView { source: source@, target: prefix@ + name@, kind: LinkKind::WikiLink },
            ));
        }
        i = i + 1;
    }
    assert(rows@.take(i as int) =~= rows@);
}

/// Count, for every id, the drawn edges that touch it.
fn count_degrees(edges: &Vec<GraphEdge>) -> (r: StringHashMap<usize>)
    requires
        edges@.len() < usize::MAX / 2,
    ensures
        forall|id: Seq<char>|
            #[trigger] r@.contains_key(id) <==> degree_of(edges_view(edges@), id) > 0,
        forall|id: Seq<char>| #[trigger] r@.contains_key(id) ==> r@[id] == degree_of(edges_view(edges@), id),
{
    let ghost ev = edges_view(edges@);
    let mut degrees: StringHashMap<usize> = StringHashMap::new();
    let mut k: usize = 0;
    while k < edges.len()
        invariant
            ev == edges_view(edges@),
            k <= edges@.len() < usize::MAX / 2,
            forall|id: Seq<char>| #[trigger] degrees@.contains_key(id) <==> degree_of(ev.take(k as int), id) > 0,
            forall|id: Seq<char>|
                #[trigger] degrees@.contains_key(id) ==> degrees@[id] == degree_of(ev.take(k as int), id),
        decreases edges@.len() - k,
    {
        let ghost before = degrees@;
        let ghost prefix = ev.take(k as int);
        assert(ev.take(k + 1).drop_last() =~= prefix);
        assert(ev.take(k + 1).last() == edges@[k as int]@);
        let s = &edges[k].source;
        let t = &edges[k].target;
        proof {
            lemma_degree_bound(prefix, s@);
            lemma_degree_bound(prefix.push(edges@[k as int]@), t@);
            assert(prefix.push(edges@[k as int]@).drop_last() =~= prefix);
        }
        let ds: usize = match degrees.get(s.as_str()) {
            Some(d) => *d,
            None => 0,
        };
        degrees.insert(clone_string(s), ds + 1);
        let dt: usize = match degrees.get(t.as_str()) {
            Some(d) => *d,
            None => 0,
        };
        degrees.insert(clone_string(t), dt + 1);
        assert forall|id: Seq<char>| #[trigger] degrees@.contains_key(id) <==> degree_of(ev.take(k + 1), id) > 0 by {
            if id != s@ && id != t@ {
                assert(before.contains_key(id) == degrees@.contains_key(id));
            }
        }
        assert forall|id: Seq<char>| #[trigger] degrees@.contains_key(id) implies degrees@[id] == degree_of(
            ev.take(k + 1),
            id,
        ) by {
            if id != s@ && id != t@ {
                assert(before.contains_key(id));
            }
        }
        k = k + 1;
    }
    assert(ev.take(k as int) =~= ev);
    degrees
}

/// Assemble the whole-vault graph from the index's answers: the file rows
/// (path, kind, title, degree) ordered as the graph should list them, how
/// many files of the drawn kinds exist, the resolved links (source path,
/// target path, kind), the unresolved targets and the tags, each by the path
/// of the note that writes them.
///
/// Files outside `options.folder` are left out; a link is drawn when both
/// ends are nodes and it is not a link to itself; unresolved targets and
/// tags become nodes when the options ask for them; each node is then sized
/// by the edges actually drawn. The graph is truncated when the index holds
/// more files of the drawn kinds than the rows handed over, which the node
/// cap (`max_nodes`) limits; the folder filter does not truncate it.
pub fn assemble_graph(
    options: &GraphOptions,
    files: Vec<(VaultPath, FileKind, Option<String>, usize)>,
    total_files: usize,
    links: Vec<(String, String, LinkKind)>,
    unresolved: Vec<(String, String)>,
    tags: Vec<(String, String)>,
) -> (r: GraphData)
    requires
        files@.len() + links@.len() + unresolved@.len() + tags@.len() < usize::MAX / 2,
    ensures
        ({
            let g = unsized_graph(*options, files@, links@, unresolved@, tags@);
            &&& nodes_view(r.nodes@) == sized_nodes(g.0, g.1)
            &&& edges_view(r.edges@) == g.1
            &&& r.truncated == (total_files > files@.len())
        }),
{
    let prefix = folder_prefix(&options.folder);
    let mut nodes: Vec<GraphNode> = Vec::new();
    let mut ids: StringHashMap<usize> = StringHashMap::new();
    let mut i: usize = 0;
    assert(files@.take(0) =~= Seq::<(VaultPath, FileKind, Option<String>, usize)>::empty());
    assert(nodes_view(nodes@) =~= Seq::<NodeView>::empty());
    while i < files.len()
        invariant
            i <= files@.len(),
            files@.len() < usize::MAX / 2,
            match options.folder {
                Some(f) => if f@.len() == 0 {
                    prefix is None
                } else {
                    prefix matches Some(p) && p@ == f@ + seq!['/']
                },
                None => prefix is None,
            },
            nodes_view(nodes@) == file_nodes(files@.take(i as int), options.folder),
            nodes@.len() <= i,
            indexes(ids@, nodes_view(nodes@)),
        decreases files@.len() - i,
    {
        assert(files@.take(i + 1).drop_last() =~= files@.take(i as int));
        assert(files@.take(i + 1).last() == files@[i as int]);
        let row = &files[i];
        let inside = match &prefix {
            Some(p) => {
                let path_chars = to_chars(row.0.as_str());
                starts_with_at(&path_chars, 0, p)
            },
            None => true,
        };
        if inside {
            let node = file_node(row);
            proof {
                lemma_indexes_push(ids@, nodes_view(nodes@), node@);
            }
            let at = nodes.len();
            let ghost before = nodes_view(nodes@);
            let id = clone_string(&node.id);
            nodes.push(node);
            assert(nodes_view(nodes@) =~= before.push(row_node(files@[i as int])));
            ids.insert(id, at);
        }
        i = i + 1;
    }
    assert(files@.take(i as int) =~= files@);
    let truncated = total_files > files.len();
    let ghost file_nodes_v = nodes_view(nodes@);

    let mut edges: Vec<GraphEdge> = Vec::new();
    let mut k: usize = 0;
    assert(links@.take(0) =~= Seq::<(String, String, LinkKind)>::empty());
    assert(edges_view(edges@) =~= Seq::<EdgeView>::empty());
    while k < links.len()
        invariant
            k <= links@.len(),
            nodes_view(nodes@) == file_nodes_v,
            indexes(ids@, file_nodes_v),
            edges_view(edges@) == drawn_links(links@.take(k as int), file_nodes_v),
            edges@.len() <= k,
        decreases links@.len() - k,
    {
        assert(links@.take(k + 1).drop_last() =~= links@.take(k as int));
        assert(links@.take(k + 1).last() == links@[k as int]);
        let l = &links[k];
        if ids.contains_key(l.0.as_str()) && ids.contains_key(l.1.as_str()) && !same_text(&l.0, &l.1) {
            let ghost before = edges_view(edges@);
            edges.push(GraphEdge { source: clone_string(&l.0), target: clone_string(&l.1), kind: l.2 });
            assert(edges_view(edges@) =~= before.push(EdgeView { source: l.0@, target: l.1@, kind: l.2 }));
        }
        k = k + 1;
    }
    assert(links@.take(k as int) =~= links@);

    if options.include_unresolved {
        join_named(&mut nodes, &mut edges, &mut ids, &unresolved, "unresolved:", "", GraphNodeKind::Unresolved);
        assert(""@ =~= Seq::<char>::empty()) by {
            reveal_strlit("");
        }
    }
    if options.include_tags {
        join_named(&mut nodes, &mut edges, &mut ids, &tags, "tag:", "#", GraphNodeKind::Tag);
        assert("#"@ =~= seq!['#']) by {
            reveal_strlit("#");
        }
    }
    let ghost g = (nodes_view(nodes@), edges_view(edges@));
    assert(g == unsized_graph(*options, files@, links@, unresolved@, tags@));

    let degrees = count_degrees(&edges);
    let ghost nv = nodes_view(nodes@);
    let mut rest = nodes;
    let mut sized_out: Vec<GraphNode> = Vec::new();
    let mut j: usize = 0;
    assert(nodes_view(sized_out@) =~= sized_nodes(nv, g.1).take(0));
    assert(nv.len() < usize::MAX);
    while rest.len() > 0
        invariant
            nv.len() < usize::MAX,
            nv.len() == j + rest@.len(),
            nodes_view(rest@) == nv.skip(j as int),
            indexes(ids@, nv),
            g.1 == edges_view(edges@),
            forall|id: Seq<char>| #[trigger] degrees@.contains_key(id) <==> degree_of(g.1, id) > 0,
            forall|id: Seq<char>| #[trigger] degrees@.contains_key(id) ==> degrees@[id] == degree_of(g.1, id),
            nodes_view(sized_out@) == sized_nodes(nv, g.1).take(j as int),
        decreases rest@.len(),
    {
        let ghost before_rest = rest@;
        let mut node = rest.remove(0);
        assert(nodes_view(before_rest)[0] == node@);
        assert(nv[j as int] == node@);
        assert(nodes_view(rest@) =~= nv.skip(j + 1)) by {
            assert(nodes_view(rest@) =~= nodes_view(before_rest).drop_first());
        }
        node.degree = match degrees.get(node.id.as_str()) {
            Some(d) => *d,
            None => 0,
        };
        let ghost before = nodes_view(sized_out@);
        let ghost nw = node@;
        sized_out.push(node);
        assert(sized_nodes(nv, g.1).take(j + 1) =~= sized_nodes(nv, g.1).take(j as int).push(nw));
        assert(nodes_view(sized_out@) =~= before.push(nw));
        j = j + 1;
    }
    assert(sized_nodes(nv, g.1).take(j as int) =~= sized_nodes(nv, g.1));
    GraphData { nodes: sized_out, edges, truncated }
}

/// The ids one edge away, either way round, from an id in `s`.
pub open spec fn neighbours(edges: Seq<EdgeView>, s: Set<Seq<char>>) -> Set<Seq<char>> {
    Set::new(
        |v: Seq<char>|
            exists|i: int|
                0 <= i < edges.len() && ((s.contains((#[trigger] edges[i]).source) && edges[i].target == v) || (s.contains(
                    edges[i].target,
                ) && edges[i].source == v)),
    )
}

/// The ids at most `k` hops from `center`, links followed either way: a note
/// you link to and a note that links to you are both neighbours.
pub open spec fn within(edges: Seq<EdgeView>, center: Seq<char>, k: nat) -> Set<Seq<char>>
    decreases k,
{
    if k == 0 {
        set![center]
    } else {
        let r = within(edges, center, (k - 1) as nat);
        r.union(neighbours(edges, r))
    }
}

/// The ids first reached at hop `k`.
pub open spec fn frontier_at(edges: Seq<EdgeView>, center: Seq<char>, k: nat) -> Set<Seq<char>> {
    if k == 0 {
        set![center]
    } else {
        within(edges, center, k).difference(within(edges, center, (k - 1) as nat))
    }
}

pub open spec fn nodes_kept(ns: Seq<NodeView>, keep: Set<Seq<char>>) -> Seq<NodeView>
    decreases ns.len(),
{
    if ns.len() == 0 {
        ns
    } else if keep.contains(ns.last().id) {
        nodes_kept(ns.drop_last(), keep).push(ns.last())
    } else {
        nodes_kept(ns.drop_last(), keep)
    }
}

pub open spec fn edges_kept(es: Seq<EdgeView>, keep: Set<Seq<char>>) -> Seq<EdgeView>
    decreases es.len(),
{
    if es.len() == 0 {
        es
    } else if keep.contains(es.last().source) && keep.contains(es.last().target) {
        edges_kept(es.drop_last(), keep).push(es.last())
    } else {
        edges_kept(es.drop_last(), keep)
    }
}

proof fn lemma_neighbours_union(edges: Seq<EdgeView>, a: Set<Seq<char>>, b: Set<Seq<char>>)
    ensures
        neighbours(edges, a.union(b)) == neighbours(edges, a).union(neighbours(edges, b)),
{
    assert(neighbours(edges, a.union(b)) =~= neighbours(edges, a).union(neighbours(edges, b)));
}

proof fn lemma_within_grows(edges: Seq<EdgeView>, center: Seq<char>, k: nat)
    ensures
        k > 0 ==> within(edges, center, (k - 1) as nat).subset_of(within(edges, center, k)),
        within(edges, center, k).contains(center),
    decreases k,
{
    if k > 0 {
        lemma_within_grows(edges, center, (k - 1) as nat);
    }
}

/// One level of the search needs only the ids first reached at the last one.
proof fn lemma_next_level(edges: Seq<EdgeView>, center: Seq<char>, k: nat)
    ensures
        within(edges, center, k + 1) == within(edges, center, k).union(neighbours(edges, frontier_at(edges, center, k))),
{
    let w = within(edges, center, k);
    if k > 0 {
        let prev = within(edges, center, (k - 1) as nat);
        lemma_within_grows(edges, center, k);
        let f = frontier_at(edges, center, k);
        assert(w =~= prev.union(f));
        lemma_neighbours_union(edges, prev, f);
        assert(neighbours(edges, prev).subset_of(w));
        assert(w.union(neighbours(edges, w)) =~= w.union(neighbours(edges, f)));
    } else {
        assert(frontier_at(edges, center, 0) == w);
    }
}

/// Once a level adds nothing, no later level does.
proof fn lemma_settled(edges: Seq<EdgeView>, center: Seq<char>, k: nat, d: nat)
    requires
        k <= d,
        within(edges, center, k + 1) == within(edges, center, k),
    ensures
        within(edges, center, d) == within(edges, center, k),
    decreases d - k,
{
    if d > k {
        lemma_settled(edges, center, k, (d - 1) as nat);
        assert(within(edges, center, d) == within(edges, center, (d - 1) as nat).union(
            neighbours(edges, within(edges, center, (d - 1) as nat)),
        ));
    }
}

fn has_node_id(nodes: &Vec<GraphNode>, id: &String) -> (r: bool)
    ensures
        r == has_id(nodes_view(nodes@), id@),
{
    let mut i: usize = 0;
    while i < nodes.len()
        invariant
            i <= nodes@.len(),
            forall|k: int| 0 <= k < i ==> (#[trigger] nodes@[k]).id@ != id@,
        decreases nodes@.len() - i,
    {
        if same_text(&nodes[i].id, id) {
            assert(nodes_view(nodes@)[i as int].id == id@);
            return true;
        }
        i = i + 1;
    }
    assert forall|k: int| 0 <= k < nodes_view(nodes@).len() implies (#[trigger] nodes_view(nodes@)[k]).id != id@ by {
        assert(nodes_view(nodes@)[k] == nodes@[k]@);
    }
    false
}

/// One level of the search: every id an edge joins to the frontier that is
/// not kept yet is kept and becomes the next frontier.
fn expand_level(
    edges: &Vec<GraphEdge>,
    keep: &mut StringHashMap<bool>,
    frontier: &StringHashMap<bool>,
) -> (next: StringHashMap<bool>)
    ensures
        final(keep)@.dom() == old(keep)@.dom().union(neighbours(edges_view(edges@), frontier@.dom())),
        next@.dom() == neighbours(edges_view(edges@), frontier@.dom()).difference(old(keep)@.dom()),
{
    let ghost ev = edges_view(edges@);
    let ghost f = frontier@.dom();
    let ghost k0 = keep@.dom();
    let mut next: StringHashMap<bool> = StringHashMap::new();
    let mut k: usize = 0;
    assert(neighbours(ev.take(0), f) =~= Set::<Seq<char>>::empty());
    assert(keep@.dom() =~= k0.union(neighbours(ev.take(0), f)));
    assert(next@.dom() =~= neighbours(ev.take(0), f).difference(k0));
    while k < edges.len()
        invariant
            ev == edges_view(edges@),
            f == frontier@.dom(),
            k <= edges@.len(),
            keep@.dom() == k0.union(neighbours(ev.take(k as int), f)),
            next@.dom() == neighbours(ev.take(k as int), f).difference(k0),
        decreases edges@.len() - k,
    {
        let ghost before_keep = keep@.dom();
        let ghost before_next = next@.dom();
        let ghost e = ev[k as int];
        assert(e == edges@[k as int]@);
        let s = &edges[k].source;
        let t = &edges[k].target;
        let ghost added = Set::<Seq<char>>::empty().union(
            if f.contains(e.source) { set![e.target] } else { Set::<Seq<char>>::empty() },
        ).union(if f.contains(e.target) { set![e.source] } else { Set::<Seq<char>>::empty() });
        assert(neighbours(ev.take(k + 1), f) =~= neighbours(ev.take(k as int), f).union(added)) by {
            assert forall|v: Seq<char>| #[trigger] neighbours(ev.take(k + 1), f).contains(v) implies neighbours(
                ev.take(k as int),
                f,
            ).union(added).contains(v) by {
                let i = choose|i: int|
                    0 <= i < ev.take(k + 1).len() && ((f.contains((#[trigger] ev.take(k + 1)[i]).source)
                        && ev.take(k + 1)[i].target == v) || (f.contains(ev.take(k + 1)[i].target) && ev.take(
                        k + 1,
                    )[i].source == v));
                if i < k {
                    assert(ev.take(k as int)[i] == ev.take(k + 1)[i]);
                }
            }
            assert forall|v: Seq<char>| #[trigger] neighbours(ev.take(k as int), f).union(added).contains(v) implies neighbours(
                ev.take(k + 1),
                f,
            ).contains(v) by {
                if neighbours(ev.take(k as int), f).contains(v) {
                    let i = choose|i: int|
                        0 <= i < ev.take(k as int).len() && ((f.contains((#[trigger] ev.take(k as int)[i]).source)
                            && ev.take(k as int)[i].target == v) || (f.contains(ev.take(k as int)[i].target)
                            && ev.take(k as int)[i].source == v));
                    assert(ev.take(k + 1)[i] == ev.take(k as int)[i]);
                } else {
                    assert(ev.take(k + 1)[k as int] == e);
                }
            }
        }
        if frontier.contains_key(s.as_str()) && !keep.contains_key(t.as_str()) {
            keep.insert(clone_string(t), true);
            next.insert(clone_string(t), true);
        }
        if frontier.contains_key(t.as_str()) && !keep.contains_key(s.as_str()) {
            keep.insert(clone_string(s), true);
            next.insert(clone_string(s), true);
        }
        assert(keep@.dom() =~= k0.union(neighbours(ev.take(k + 1), f)));
        assert(next@.dom() =~= neighbours(ev.take(k + 1), f).difference(k0));
        k = k + 1;
    }
    assert(ev.take(k as int) =~= ev);
    next
}

/// The neighbourhood of one note, out to `depth` hops, in a graph built by
/// `assemble_graph`: the nodes within reach and the edges between them, in
/// the graph's order. A note that is not in the graph has an empty
/// neighbourhood.
pub fn neighbourhood(full: GraphData, center: &VaultPath, depth: usize) -> (r: GraphData)
    ensures
        if has_id(nodes_view(full.nodes@), center@) {
            let keep = within(edges_view(full.edges@), center@, depth as nat);
            &&& nodes_view(r.nodes@) == nodes_kept(nodes_view(full.nodes@), keep)
            &&& edges_view(r.edges@) == edges_kept(edges_view(full.edges@), keep)
            &&& r.truncated == full.truncated
        } else {
            r.nodes@.len() == 0 && r.edges@.len() == 0 && !r.truncated
        },
{
    let center_id = str_to_string(center.as_str());
    if !has_node_id(&full.nodes, &center_id) {
        return GraphData { nodes: Vec::new(), edges: Vec::new(), truncated: false };
    }
    let ghost ev = edges_view(full.edges@);
    let ghost c = center@;
    let mut keep: StringHashMap<bool> = StringHashMap::new();
    keep.insert(clone_string(&center_id), true);
    let mut frontier: StringHashMap<bool> = StringHashMap::new();
    frontier.insert(clone_string(&center_id), true);
    assert(keep@.dom() =~= within(ev, c, 0));
    assert(frontier@.dom() =~= frontier_at(ev, c, 0));
    let mut level: usize = 0;
    while level < depth
        invariant_except_break
            level <= depth,
            ev == edges_view(full.edges@),
            keep@.dom() == within(ev, c, level as nat),
            frontier@.dom() == frontier_at(ev, c, level as nat),
        ensures
            keep@.dom() == within(ev, c, depth as nat),
        decreases depth - level,
    {
        let next = expand_level(&full.edges, &mut keep, &frontier);
        proof {
            lemma_next_level(ev, c, level as nat);
            lemma_within_grows(ev, c, (level + 1) as nat);
        }
        assert(frontier_at(ev, c, (level + 1) as nat) =~= neighbours(ev, frontier_at(ev, c, level as nat)).difference(
            within(ev, c, level as nat),
        ));
        if next.is_empty() {
            proof {
                assert(next@.dom() =~= Set::<Seq<char>>::empty());
                assert(within(ev, c, (level + 1) as nat) =~= within(ev, c, level as nat));
                lemma_settled(ev, c, level as nat, depth as nat);
            }
            break;
        }
        frontier = next;
        level = level + 1;
    }
    let ghost kept = within(ev, c, depth as nat);
    let ghost nv = nodes_view(full.nodes@);
    let mut nodes: Vec<GraphNode> = Vec::new();
    let mut rest = full.nodes;
    let ghost mut done: int = 0;
    assert(nodes_view(nodes@) =~= nodes_kept(nv.take(0), kept));
    while rest.len() > 0
        invariant
            0 <= done <= nv.len(),
            nodes_view(rest@) == nv.skip(done),
            keep@.dom() == kept,
            nodes_view(nodes@) == nodes_kept(nv.take(done), kept),
        decreases rest@.len(),
    {
        let ghost before_rest = rest@;
        let node = rest.remove(0);
        assert(nv.skip(done).len() == before_rest.len());
        assert(nodes_view(before_rest)[0] == node@);
        assert(nv[done] == node@);
        assert(nodes_view(rest@) =~= nv.skip(done + 1)) by {
            assert(nodes_view(rest@) =~= nodes_view(before_rest).drop_first());
        }
        assert(nv.take(done + 1).drop_last() =~= nv.take(done));
        assert(nv.take(done + 1).last() == node@);
        if keep.contains_key(node.id.as_str()) {
            let ghost before = nodes_view(nodes@);
            let ghost nw = node@;
            nodes.push(node);
            assert(nodes_view(nodes@) =~= before.push(nw));
        }
        proof {
            done = done + 1;
        }
    }
    assert(nv.take(done) =~= nv);
    let mut edges: Vec<GraphEdge> = Vec::new();
    let mut rest_edges = full.edges;
    let ghost mut done_edges: int = 0;
    assert(edges_view(edges@) =~= edges_kept(ev.take(0), kept));
    while rest_edges.len() > 0
        invariant
            0 <= done_edges <= ev.len(),
            edges_view(rest_edges@) == ev.skip(done_edges),
            keep@.dom() == kept,
            edges_view(edges@) == edges_kept(ev.take(done_edges), kept),
        decreases rest_edges@.len(),
    {
        let ghost before_rest = rest_edges@;
        let edge = rest_edges.remove(0);
        assert(ev.skip(done_edges).len() == before_rest.len());
        assert(edges_view(before_rest)[0] == edge@);
        assert(ev[done_edges] == edge@);
        assert(edges_view(rest_edges@) =~= ev.skip(done_edges + 1)) by {
            assert(edges_view(rest_edges@) =~= edges_view(before_rest).drop_first());
        }
        assert(ev.take(done_edges + 1).drop_last() =~= ev.take(done_edges));
        assert(ev.take(done_edges + 1).last() == edge@);
        if keep.contains_key(edge.source.as_str()) && keep.contains_key(edge.target.as_str()) {
            let ghost before = edges_view(edges@);
            let ghost ew = edge@;
            edges.push(edge);
            assert(edges_view(edges@) =~= before.push(ew));
        }
        proof {
            done_edges = done_edges + 1;
        }
    }
    assert(ev.take(done_edges) =~= ev);
    GraphData { nodes, edges, truncated: full.truncated }
}

// ---------------------------------------------------------------------------
// Laws.

pub open spec fn edges_join_nodes(nodes: Seq<NodeView>, edges: Seq<EdgeView>) -> bool {
    forall|i: int| 0 <= i < edges.len() ==> has_id(nodes, (#[trigger] edges[i]).source) && has_id(nodes, edges[i].target)
}

proof fn lemma_drawn_links_join(links: Seq<(String, String, LinkKind)>, nodes: Seq<NodeView>)
    ensures
        edges_join_nodes(nodes, drawn_links(links, nodes)),
    decreases links.len(),
{
    if links.len() > 0 {
        lemma_drawn_links_join(links.drop_last(), nodes);
    }
}

proof fn lemma_joined_joins(
    g: (Seq<NodeView>, Seq<EdgeView>),
    rows: Seq<(String, String)>,
    prefix: Seq<char>,
    label_prefix: Seq<char>,
    kind: GraphNodeKind,
)
    requires
        edges_join_nodes(g.0, g.1),
    ensures
        edges_join_nodes(joined(g, rows, prefix, label_prefix, kind).0, joined(g, rows, prefix, label_prefix, kind).1),
    decreases rows.len(),
{
    if rows.len() > 0 {
        lemma_joined_joins(g, rows.drop_last(), prefix, label_prefix, kind);
        let s = joined(g, rows.drop_last(), prefix, label_prefix, kind);
        let source = rows.last().0@;
        let id = prefix + rows.last().1@;
        if has_id(s.0, source) {
            let nodes = if has_id(s.0, id) {
                s.0
            } else {
                s.0.push(named_node(id, label_prefix + rows.last().1@, kind))
            };
            let edges = s.1.push(EdgeView { source, target: id, kind: LinkKind::WikiLink });
            assert forall|x: Seq<char>| has_id(s.0, x) implies has_id(nodes, x) by {
                let k = choose|k: int| 0 <= k < s.0.len() && (#[trigger] s.0[k]).id == x;
                assert(nodes[k] == s.0[k]);
            }
            if !has_id(s.0, id) {
                assert(nodes[s.0.len() as int].id == id);
            }
            assert forall|i: int| 0 <= i < edges.len() implies has_id(nodes, (#[trigger] edges[i]).source) && has_id(
                nodes,
                edges[i].target,
            ) by {
                if i < s.1.len() {
                    assert(edges[i] == s.1[i]);
                }
            }
        }
    }
}

/// Every edge the graph draws joins two of its nodes: a link to a file that
/// is not drawn, or from a note outside the folder, is never an edge.
pub proof fn law_every_edge_joins_two_nodes(
    options: GraphOptions,
    files: Seq<(VaultPath, FileKind, Option<String>, usize)>,
    links: Seq<(String, String, LinkKind)>,
    unresolved: Seq<(String, String)>,
    tags: Seq<(String, String)>,
)
    ensures
        ({
            let g = unsized_graph(options, files, links, unresolved, tags);
            edges_join_nodes(sized_nodes(g.0, g.1), g.1)
        }),
{
    let nodes = file_nodes(files, options.folder);
    lemma_drawn_links_join(links, nodes);
    let g1 = (nodes, drawn_links(links, nodes));
    let g2 = if options.include_unresolved {
        lemma_joined_joins(g1, unresolved, "unresolved:"@, Seq::<char>::empty(), GraphNodeKind::Unresolved);
        joined(g1, unresolved, "unresolved:"@, Seq::<char>::empty(), GraphNodeKind::Unresolved)
    } else {
        g1
    };
    if options.include_tags {
        lemma_joined_joins(g2, tags, "tag:"@, seq!['#'], GraphNodeKind::Tag);
    }
    let g = unsized_graph(options, files, links, unresolved, tags);
    let sized = sized_nodes(g.0, g.1);
    assert forall|x: Seq<char>| has_id(g.0, x) implies has_id(sized, x) by {
        let k = choose|k: int| 0 <= k < g.0.len() && (#[trigger] g.0[k]).id == x;
        assert(sized[k].id == x);
    }
}

/// Every node's degree is the number of drawn edges that touch it, each
/// edge counting once per end.
pub proof fn law_degree_counts_drawn_edges(nodes: Seq<NodeView>, edges: Seq<EdgeView>, i: int)
    requires
        0 <= i < nodes.len(),
        2 * edges.len() <= usize::MAX,
    ensures
        sized_nodes(nodes, edges)[i].degree == degree_of(edges, nodes[i].id),
        sized_nodes(nodes, edges)[i].id == nodes[i].id,
{
    lemma_degree_bound(edges, nodes[i].id);
}

/// A neighbourhood is centred on its note: the note is always within reach,
/// and at no hops it is all there is.
pub proof fn law_neighbourhood_is_centred(edges: Seq<EdgeView>, center: Seq<char>, depth: nat)
    ensures
        within(edges, center, depth).contains(center),
        within(edges, center, 0) == set![center],
{
    lemma_within_grows(edges, center, depth);
}

/// Reach only grows with the number of hops.
pub proof fn law_reach_grows_with_depth(edges: Seq<EdgeView>, center: Seq<char>, a: nat, b: nat)
    requires
        a <= b,
    ensures
        within(edges, center, a).subset_of(within(edges, center, b)),
    decreases b - a,
{
    if a < b {
        law_reach_grows_with_depth(edges, center, a, (b - 1) as nat);
        lemma_within_grows(edges, center, b);
    }
}

/// No two nodes share an id.
pub open spec fn distinct_ids(nodes: Seq<NodeView>) -> bool {
    forall|i: int, j: int| 0 <= i < j < nodes.len() ==> (#[trigger] nodes[i]).id != (#[trigger] nodes[j]).id
}

/// No two file rows share a path.
pub open spec fn distinct_rows(rows: Seq<(VaultPath, FileKind, Option<String>, usize)>) -> bool {
    forall|i: int, j: int| 0 <= i < j < rows.len() ==> (#[trigger] rows[i]).0@ != (#[trigger] rows[j]).0@
}

proof fn lemma_file_nodes_from_rows(rows: Seq<(VaultPath, FileKind, Option<String>, usize)>, folder: Option<VaultPath>)
    ensures
        forall|k: int| 0 <= k < file_nodes(rows, folder).len() ==> exists|m: int|
            0 <= m < rows.len() && (#[trigger] rows[m]).0@ == (#[trigger] file_nodes(rows, folder)[k]).id,
        distinct_rows(rows) ==> distinct_ids(file_nodes(rows, folder)),
    decreases rows.len(),
{
    if rows.len() > 0 {
        let d = rows.drop_last();
        lemma_file_nodes_from_rows(d, folder);
        let rest = file_nodes(d, folder);
        let ns = file_nodes(rows, folder);
        assert forall|k: int| 0 <= k < ns.len() implies exists|m: int|
            0 <= m < rows.len() && (#[trigger] rows[m]).0@ == (#[trigger] ns[k]).id by {
            if k < rest.len() {
                assert(ns[k] == rest[k]);
                let m = choose|m: int| 0 <= m < d.len() && (#[trigger] d[m]).0@ == rest[k].id;
                assert(rows[m] == d[m]);
            } else {
                assert(rows[rows.len() - 1].0@ == ns[k].id);
            }
        }
        if distinct_rows(rows) {
            assert(distinct_rows(d)) by {
                assert forall|i: int, j: int| 0 <= i < j < d.len() implies (#[trigger] d[i]).0@ != (#[trigger] d[j]).0@ by {
                    assert(d[i] == rows[i] && d[j] == rows[j]);
                }
            }
            assert forall|i: int, j: int| 0 <= i < j < ns.len() implies (#[trigger] ns[i]).id != (#[trigger] ns[j]).id by {
                if j >= rest.len() {
                    assert(ns[i] == rest[i]);
                    let m = choose|m: int| 0 <= m < d.len() && (#[trigger] d[m]).0@ == rest[i].id;
                    assert(rows[m] == d[m]);
                    assert(rows[m].0@ != rows[rows.len() - 1].0@);
                } else {
                    assert(ns[i] == rest[i] && ns[j] == rest[j]);
                }
            }
        }
    }
}

proof fn lemma_joined_distinct(
    g: (Seq<NodeView>, Seq<EdgeView>),
    rows: Seq<(String, String)>,
    prefix: Seq<char>,
    label_prefix: Seq<char>,
    kind: GraphNodeKind,
)
    requires
        distinct_ids(g.0),
    ensures
        distinct_ids(joined(g, rows, prefix, label_prefix, kind).0),
    decreases rows.len(),
{
    if rows.len() > 0 {
        lemma_joined_distinct(g, rows.drop_last(), prefix, label_prefix, kind);
        let s = joined(g, rows.drop_last(), prefix, label_prefix, kind);
        let id = prefix + rows.last().1@;
        if has_id(s.0, rows.last().0@) && !has_id(s.0, id) {
            let ns = s.0.push(named_node(id, label_prefix + rows.last().1@, kind));
            assert forall|i: int, j: int| 0 <= i < j < ns.len() implies (#[trigger] ns[i]).id != (#[trigger] ns[j]).id by {
                assert(ns[i] == s.0[i]);
                if j < s.0.len() {
                    assert(ns[j] == s.0[j]);
                }
            }
        }
    }
}

/// With one row per file, as the index holds them, no two nodes of the
/// graph share an id.
pub proof fn law_node_ids_are_distinct(
    options: GraphOptions,
    files: Seq<(VaultPath, FileKind, Option<String>, usize)>,
    links: Seq<(String, String, LinkKind)>,
    unresolved: Seq<(String, String)>,
    tags: Seq<(String, String)>,
)
    requires
        distinct_rows(files),
    ensures
        ({
            let g = unsized_graph(options, files, links, unresolved, tags);
            distinct_ids(sized_nodes(g.0, g.1))
        }),
{
    lemma_file_nodes_from_rows(files, options.folder);
    let nodes = file_nodes(files, options.folder);
    let g0 = (nodes, drawn_links(links, nodes));
    lemma_joined_distinct(g0, unresolved, "unresolved:"@, Seq::<char>::empty(), GraphNodeKind::Unresolved);
    let g1 = if options.include_unresolved {
        joined(g0, unresolved, "unresolved:"@, Seq::<char>::empty(), GraphNodeKind::Unresolved)
    } else {
        g0
    };
    lemma_joined_distinct(g1, tags, "tag:"@, seq!['#'], GraphNodeKind::Tag);
    let g = unsized_graph(options, files, links, unresolved, tags);
    let sn = sized_nodes(g.0, g.1);
    assert forall|i: int, j: int| 0 <= i < j < sn.len() implies (#[trigger] sn[i]).id != (#[trigger] sn[j]).id by {
        assert(sn[i].id == g.0[i].id);
        assert(sn[j].id == g.0[j].id);
    }
}

} // verus!
