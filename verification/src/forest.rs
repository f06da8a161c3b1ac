//! The loaded files of a source tree, each under the path it opened with,
//! and the paths that the names written in include directives lead to.
use crate::preprocess::{AnnotatedGLSL, Source};
use vstd::prelude::*;
use vstd::seq_lib::seq_to_set_is_finite;

verus! {

/// Where a name written in an include directive leads.
#[derive(Debug)]
pub struct Link {
    /// The name as it is written.
    pub name: String,
    /// The path under which the file of that name opened.
    pub path: String,
}

/// What a [`Link`] stands for.
pub struct LinkView {
    pub name: Seq<char>,
    pub path: Seq<char>,
}

impl View for Link {
    type V = LinkView;

    open spec fn view(&self) -> LinkView {
        LinkView { name: self.name@, path: self.path@ }
    }
}

impl Clone for Link {
    fn clone(&self) -> (copy: Self)
        ensures
            copy@ == self@,
    {
        Link { name: self.name.clone(), path: self.path.clone() }
    }
}

/// The index of the first of `nodes` at or after `from` that has the path
/// `path`, or the number of nodes where there is none.
pub open spec fn node_index(nodes: Seq<Source>, path: Seq<char>, from: int) -> int
    decreases nodes.len() - from,
{
    if 0 <= from < nodes.len() && nodes[from].path != path {
        node_index(nodes, path, from + 1)
    } else {
        from
    }
}

/// The index of the first of `links` at or after `from` that has the name
/// `name`, or the number of links where there is none.
pub open spec fn link_index(links: Seq<LinkView>, name: Seq<char>, from: int) -> int
    decreases links.len() - from,
{
    if 0 <= from < links.len() && links[from].name != name {
        link_index(links, name, from + 1)
    } else {
        from
    }
}

/// What a source map stands for: the files in the order in which they were
/// first loaded, no two of them under one path as long as they are entered
/// with [`Forest::with`], and the links from names to paths.
pub struct Forest {
    pub nodes: Seq<Source>,
    pub links: Seq<LinkView>,
}

impl Forest {
    /// The forest without files.
    pub open spec fn empty() -> Forest {
        Forest { nodes: Seq::empty(), links: Seq::empty() }
    }

    /// The file under `path`.
    pub open spec fn node(self, path: Seq<char>) -> Option<Source> {
        let i = node_index(self.nodes, path, 0);
        if i < self.nodes.len() {
            Some(self.nodes[i])
        } else {
            None
        }
    }

    /// The path that `name` leads to.
    pub open spec fn target(self, name: Seq<char>) -> Option<Seq<char>> {
        let i = link_index(self.links, name, 0);
        if i < self.links.len() {
            Some(self.links[i].path)
        } else {
            None
        }
    }

    /// The file that `name` leads to.
    pub open spec fn file(self, name: Seq<char>) -> Option<Source> {
        match self.target(name) {
            Some(path) => self.node(path),
            None => None,
        }
    }

    /// The forest after the file `src`, found under `name`, has been
    /// entered: it takes the place of the file under its path, if there is
    /// one, and comes last otherwise; likewise the link from `name`.
    pub open spec fn with(self, name: Seq<char>, src: Source) -> Forest {
        let i = node_index(self.nodes, src.path, 0);
        let k = link_index(self.links, name, 0);
        let link = LinkView { name, path: src.path };
        Forest {
            nodes: if i < self.nodes.len() {
                self.nodes.update(i, src)
            } else {
                self.nodes.push(src)
            },
            links: if k < self.links.len() {
                self.links.update(k, link)
            } else {
                self.links.push(link)
            },
        }
    }

    /// The paths of the files.
    pub open spec fn paths(self) -> Set<Seq<char>> {
        self.nodes.map_values(|src: Source| src.path).to_set()
    }

    /// Whether every link leads to a file of the forest.
    pub open spec fn linked(self) -> bool {
        forall|name: Seq<char>| #[trigger]
            self.target(name) is Some ==> self.node(self.target(name)->0) is Some
    }
}

/// Where the search for a node ends: past every node with another path,
/// at the first with this one or at the end.
pub proof fn lemma_node_index(nodes: Seq<Source>, path: Seq<char>, from: int, to: int)
    requires
        0 <= from <= to <= nodes.len(),
        forall|k: int| from <= k < to ==> (#[trigger] nodes[k]).path != path,
        to == nodes.len() || nodes[to].path == path,
    ensures
        node_index(nodes, path, from) == to,
    decreases to - from,
{
    if from < to {
        lemma_node_index(nodes, path, from + 1, to);
    }
}

/// What the index of a node says: it lies within bounds, no node before it
/// has the path, and the node at it, if there is one, has.
pub proof fn lemma_node_index_found(nodes: Seq<Source>, path: Seq<char>, from: int)
    requires
        0 <= from <= nodes.len(),
    ensures
        from <= node_index(nodes, path, from) <= nodes.len(),
        forall|k: int| from <= k < node_index(nodes, path, from) ==> (#[trigger] nodes[k]).path != path,
        node_index(nodes, path, from) < nodes.len() ==> nodes[node_index(nodes, path, from)].path
            == path,
    decreases nodes.len() - from,
{
    if from < nodes.len() && nodes[from].path != path {
        lemma_node_index_found(nodes, path, from + 1);
    }
}

/// Where the search for a link ends.
pub proof fn lemma_link_index(links: Seq<LinkView>, name: Seq<char>, from: int, to: int)
    requires
        0 <= from <= to <= links.len(),
        forall|k: int| from <= k < to ==> (#[trigger] links[k]).name != name,
        to == links.len() || links[to].name == name,
    ensures
        link_index(links, name, from) == to,
    decreases to - from,
{
    if from < to {
        lemma_link_index(links, name, from + 1, to);
    }
}

/// What the index of a link says.
pub proof fn lemma_link_index_found(links: Seq<LinkView>, name: Seq<char>, from: int)
    requires
        0 <= from <= links.len(),
    ensures
        from <= link_index(links, name, from) <= links.len(),
        forall|k: int| from <= k < link_index(links, name, from) ==> (#[trigger] links[k]).name != name,
        link_index(links, name, from) < links.len() ==> links[link_index(links, name, from)].name
            == name,
    decreases links.len() - from,
{
    if from < links.len() && links[from].name != name {
        lemma_link_index_found(links, name, from + 1);
    }
}

/// The path of a file of the forest is one of its paths, and the file
/// under a path has that path.
pub proof fn lemma_node_has_path(forest: Forest, path: Seq<char>)
    requires
        forest.node(path) is Some,
    ensures
        forest.paths().contains(path),
        forest.node(path)->0.path == path,
        forest.paths().finite(),
{
    lemma_node_index_found(forest.nodes, path, 0);
    let i = node_index(forest.nodes, path, 0);
    let paths = forest.nodes.map_values(|src: Source| src.path);
    assert(paths[i] == path);
}

/// After a file has been entered under a name, the name leads to it, every
/// other name leads where it led, and every other path holds what it held.
pub proof fn lemma_with(forest: Forest, name: Seq<char>, src: Source)
    ensures
        forest.with(name, src).target(name) == Some(src.path),
        forest.with(name, src).node(src.path) == Some(src),
        forall|other: Seq<char>|
            other != name ==> #[trigger] forest.with(name, src).target(other) == forest.target(
                other,
            ),
        forall|other: Seq<char>|
            other != src.path ==> #[trigger] forest.with(name, src).node(other) == forest.node(
                other,
            ),
{
    let after = forest.with(name, src);
    let i = node_index(forest.nodes, src.path, 0);
    let k = link_index(forest.links, name, 0);
    lemma_node_index_found(forest.nodes, src.path, 0);
    lemma_link_index_found(forest.links, name, 0);
    lemma_node_index(after.nodes, src.path, 0, i);
    lemma_link_index(after.links, name, 0, k);
    assert forall|other: Seq<char>| other != name implies #[trigger] after.target(other)
        == forest.target(other) by {
        let j = link_index(forest.links, other, 0);
        lemma_link_index_found(forest.links, other, 0);
        let to = if j < forest.links.len() {
            j
        } else {
            after.links.len() as int
        };
        lemma_link_index(after.links, other, 0, to);
    }
    assert forall|other: Seq<char>| other != src.path implies #[trigger] after.node(other)
        == forest.node(other) by {
        let j = node_index(forest.nodes, other, 0);
        lemma_node_index_found(forest.nodes, other, 0);
        let to = if j < forest.nodes.len() {
            j
        } else {
            after.nodes.len() as int
        };
        lemma_node_index(after.nodes, other, 0, to);
    }
}

/// The files and links of a source tree.
#[derive(Debug)]
pub struct SourceMap {
    nodes: Vec<AnnotatedGLSL>,
    links: Vec<Link>,
}

impl View for SourceMap {
    type V = Forest;

    closed spec fn view(&self) -> Forest {
        Forest {
            nodes: self.nodes@.map_values(|node: AnnotatedGLSL| node@),
            links: self.links@.map_values(|link: Link| link@),
        }
    }
}

impl Clone for SourceMap {
    fn clone(&self) -> (copy: Self)
        ensures
            copy@ == self@,
    {
        let mut nodes: Vec<AnnotatedGLSL> = Vec::new();
        let mut i: usize = 0;
        while i < self.nodes.len()
            invariant
                i <= self.nodes.len(),
                nodes.len() == i,
                forall|k: int| 0 <= k < i ==> nodes[k]@ == self.nodes[k]@,
            decreases self.nodes.len() - i,
        {
            nodes.push(self.nodes[i].clone());
            i = i + 1;
        }
        let mut links: Vec<Link> = Vec::new();
        let mut k: usize = 0;
        while k < self.links.len()
            invariant
                k <= self.links.len(),
                links.len() == k,
                forall|j: int| 0 <= j < k ==> links[j]@ == self.links[j]@,
            decreases self.links.len() - k,
        {
            links.push(self.links[k].clone());
            k = k + 1;
        }
        let copy = SourceMap { nodes, links };
        assert(copy@.nodes =~= self@.nodes);
        assert(copy@.links =~= self@.links);
        copy
    }
}

impl SourceMap {
    /// A map without files.
    pub fn new() -> (map: SourceMap)
        ensures
            map@ == Forest::empty(),
    {
        let map = SourceMap { nodes: Vec::new(), links: Vec::new() };
        assert(map@.nodes =~= Seq::<Source>::empty());
        assert(map@.links =~= Seq::<LinkView>::empty());
        map
    }

    /// The number of files.
    pub fn len(&self) -> (n: usize)
        ensures
            n == self@.nodes.len(),
    {
        self.nodes.len()
    }

    /// The `i`th file, in the order in which the files were first loaded.
    pub fn nth(&self, i: usize) -> (node: &AnnotatedGLSL)
        requires
            i < self@.nodes.len(),
        ensures
            node@ == self@.nodes[i as int],
    {
        &self.nodes[i]
    }

    /// The file under `path`.
    pub fn get(&self, path: &String) -> (found: Option<&AnnotatedGLSL>)
        ensures
            match found {
                Some(node) => self@.node(path@) == Some(node@),
                None => self@.node(path@) is None,
            },
    {
        let mut i: usize = 0;
        while i < self.nodes.len()
            invariant
                i <= self.nodes.len(),
                forall|k: int| 0 <= k < i ==> (#[trigger] self@.nodes[k]).path != path@,
            decreases self.nodes.len() - i,
        {
            if self.nodes[i].path == *path {
                proof {
                    lemma_node_index(self@.nodes, path@, 0, i as int);
                }
                return Some(&self.nodes[i]);
            }
            i = i + 1;
        }
        proof {
            lemma_node_index(self@.nodes, path@, 0, i as int);
        }
        None
    }

    /// The path that `name` leads to.
    pub fn target(&self, name: &String) -> (found: Option<&String>)
        ensures
            match found {
                Some(path) => self@.target(name@) == Some(path@),
                None => self@.target(name@) is None,
            },
    {
        let mut i: usize = 0;
        while i < self.links.len()
            invariant
                i <= self.links.len(),
                forall|k: int| 0 <= k < i ==> (#[trigger] self@.links[k]).name != name@,
            decreases self.links.len() - i,
        {
            if self.links[i].name == *name {
                proof {
                    lemma_link_index(self@.links, name@, 0, i as int);
                }
                return Some(&self.links[i].path);
            }
            i = i + 1;
        }
        proof {
            lemma_link_index(self@.links, name@, 0, i as int);
        }
        None
    }

    /// The file that `name` leads to.
    pub fn file(&self, name: &String) -> (found: Option<&AnnotatedGLSL>)
        ensures
            match found {
                Some(node) => self@.file(name@) == Some(node@),
                None => self@.file(name@) is None,
            },
    {
        match self.target(name) {
            Some(path) => self.get(path),
            None => None,
        }
    }

    /// Enters the file `node`, found under `name`.
    pub fn insert(&mut self, name: String, node: AnnotatedGLSL)
        ensures
            final(self)@ == old(self)@.with(name@, node@),
    {
        let ghost before = self@;
        let ghost src = node@;
        let link = Link { name, path: node.path.clone() };
        let ghost link_view = link@;
        let mut i: usize = 0;
        while i < self.nodes.len() && self.nodes[i].path != node.path
            invariant
                i <= self.nodes.len(),
                self@ == before,
                forall|k: int| 0 <= k < i ==> (#[trigger] before.nodes[k]).path != node@.path,
            decreases self.nodes.len() - i,
        {
            i = i + 1;
        }
        proof {
            lemma_node_index(before.nodes, src.path, 0, i as int);
        }
        if i < self.nodes.len() {
            self.nodes.set(i, node);
            assert(self@.nodes =~= before.nodes.update(i as int, src));
        } else {
            self.nodes.push(node);
            assert(self@.nodes =~= before.nodes.push(src));
        }
        let mut k: usize = 0;
        while k < self.links.len() && self.links[k].name != link.name
            invariant
                k <= self.links.len(),
                self@.links == before.links,
                forall|j: int| 0 <= j < k ==> (#[trigger] before.links[j]).name != link@.name,
            decreases self.links.len() - k,
        {
            k = k + 1;
        }
        proof {
            lemma_link_index(before.links, link_view.name, 0, k as int);
        }
        if k < self.links.len() {
            self.links.set(k, link);
            assert(self@.links =~= before.links.update(k as int, link_view));
        } else {
            self.links.push(link);
            assert(self@.links =~= before.links.push(link_view));
        }
    }
}

} // verus!
