use vstd::prelude::*;
use vstd::string::StringExecFns;

verus! {

/// An undirected graph on the vertices `0..v`, kept as one adjacency list
/// per vertex. Adding the edge `v - w` appends `w` to the list of `v` and
/// `v` to the list of `w`; parallel edges and self-loops are kept.
#[derive(Clone, Debug)]
pub struct Graph {
    v: usize,
    e: usize,
    adj: Vec<Vec<usize>>,
}

impl Graph {
    /// The adjacency lists, one per vertex.
    pub closed spec fn adj_view(&self) -> Seq<Seq<usize>> {
        self.adj@.map_values(|l: Vec<usize>| l@)
    }

    pub closed spec fn vertex_count(&self) -> nat {
        self.v as nat
    }

    pub closed spec fn edge_count(&self) -> nat {
        self.e as nat
    }

    /// One list per vertex, and every listed neighbour is a vertex.
    pub open spec fn wf(&self) -> bool {
        &&& self.adj_view().len() == self.vertex_count()
        &&& forall|i: int, j: int|
            0 <= i < self.adj_view().len() && 0 <= j < self.adj_view()[i].len() ==> (
            #[trigger] self.adj_view()[i][j]) < self.vertex_count()
    }

    /// A graph with `v` vertices and no edges.
    pub fn new(v: usize) -> (g: Graph)
        ensures
            g.wf(),
            g.vertex_count() == v,
            g.edge_count() == 0,
            forall|i: int| 0 <= i < v ==> (#[trigger] g.adj_view()[i]).len() == 0,
    {
        let mut adj: Vec<Vec<usize>> = Vec::new();
        let mut i: usize = 0;
        while i < v
            invariant
                i <= v,
                adj@.len() == i,
                forall|j: int| 0 <= j < i ==> (#[trigger] adj@[j])@.len() == 0,
            decreases v - i,
        {
            adj.push(Vec::new());
            i = i + 1;
        }
        Graph { v, e: 0, adj }
    }

    /// Whether `v` names a vertex of the graph.
    pub fn validate_vertex(&self, v: usize) -> (r: bool)
        ensures
            r == (v < self.vertex_count()),
    {
        v < self.v
    }

    pub fn vertices(&self) -> (n: usize)
        ensures
            n == self.vertex_count(),
    {
        self.v
    }

    pub fn edges(&self) -> (n: usize)
        ensures
            n == self.edge_count(),
    {
        self.e
    }

    /// Adds the undirected edge `v - w`.
    pub fn add_edge(&mut self, v: usize, w: usize)
        requires
            old(self).wf(),
            v < old(self).vertex_count(),
            w < old(self).vertex_count(),
            old(self).edge_count() < usize::MAX,
        ensures
            final(self).wf(),
            final(self).vertex_count() == old(self).vertex_count(),
            final(self).edge_count() == old(self).edge_count() + 1,
            ({
                let a = old(self).adj_view();
                let a1 = a.update(v as int, a[v as int].push(w));
                final(self).adj_view() == a1.update(w as int, a1[w as int].push(v))
            }),
    {
        let ghost a = self.adj_view();
        self.e = self.e + 1;
        self.adj[v].push(w);
        let ghost a1 = self.adj_view();
        proof {
            assert(a1 =~= a.update(v as int, a[v as int].push(w)));
        }
        self.adj[w].push(v);
        proof {
            assert(self.adj_view() =~= a1.update(w as int, a1[w as int].push(v)));
            assert forall|i: int, j: int|
                0 <= i < self.adj_view().len() && 0 <= j < self.adj_view()[i].len() implies (
                #[trigger] self.adj_view()[i][j]) < self.vertex_count() by {
                if i == w && j == a1[i].len() {
                } else if i == w {
                    assert(self.adj_view()[i][j] == a1[i][j]);
                    if i == v && j == a[i].len() {
                    } else if i == v {
                        assert(a1[i][j] == a[i][j]);
                    }
                } else if i == v && j == a[i].len() {
                } else if i == v {
                    assert(self.adj_view()[i][j] == a[i][j]);
                } else {
                    assert(self.adj_view()[i][j] == a[i][j]);
                }
            }
        }
    }

    /// Number of edge ends at `v`: a self-loop counts twice.
    pub fn degree(&self, v: usize) -> (d: usize)
        requires
            v < self.vertex_count(),
            self.wf(),
        ensures
            d == self.adj_view()[v as int].len(),
    {
        self.adj[v].len()
    }

    /// The neighbours of `v`, in the order the edges were added.
    pub fn adj(&self, v: usize) -> (r: &Vec<usize>)
        requires
            v < self.vertex_count(),
            self.wf(),
        ensures
            r@ == self.adj_view()[v as int],
    {
        &self.adj[v]
    }
}

/// The text of one decimal digit.
pub open spec fn digit_text(d: nat) -> Seq<char> {
    if d == 0 {
        "0"@
    } else if d == 1 {
        "1"@
    } else if d == 2 {
        "2"@
    } else if d == 3 {
        "3"@
    } else if d == 4 {
        "4"@
    } else if d == 5 {
        "5"@
    } else if d == 6 {
        "6"@
    } else if d == 7 {
        "7"@
    } else if d == 8 {
        "8"@
    } else {
        "9"@
    }
}

/// `n` written in decimal, without leading zeros.
pub open spec fn decimal(n: nat) -> Seq<char>
    decreases n,
{
    if n < 10 {
        digit_text(n)
    } else {
        decimal(n / 10) + digit_text(n % 10)
    }
}

/// One line `  i;` for each vertex `i < n`.
pub open spec fn vertex_lines(n: nat) -> Seq<char>
    decreases n,
{
    if n == 0 {
        Seq::empty()
    } else {
        vertex_lines((n - 1) as nat) + "  "@ + decimal((n - 1) as nat) + ";\n"@
    }
}

/// One line `  v -- w;` for each `w` of `ws`, in order.
pub open spec fn list_lines(v: nat, ws: Seq<usize>) -> Seq<char>
    decreases ws.len(),
{
    if ws.len() == 0 {
        Seq::empty()
    } else {
        list_lines(v, ws.drop_last()) + "  "@ + decimal(v) + " -- "@ + decimal(ws.last() as nat)
            + ";\n"@
    }
}

/// The edge lines of the first `n` vertices.
pub open spec fn edge_lines(adj: Seq<Seq<usize>>, n: nat) -> Seq<char>
    decreases n,
{
    if n == 0 {
        Seq::empty()
    } else {
        edge_lines(adj, (n - 1) as nat) + list_lines((n - 1) as nat, adj[n - 1])
    }
}

fn digit_str(d: usize) -> (r: &'static str)
    requires
        d < 10,
    ensures
        r@ == digit_text(d as nat),
{
    if d == 0 {
        "0"
    } else if d == 1 {
        "1"
    } else if d == 2 {
        "2"
    } else if d == 3 {
        "3"
    } else if d == 4 {
        "4"
    } else if d == 5 {
        "5"
    } else if d == 6 {
        "6"
    } else if d == 7 {
        "7"
    } else if d == 8 {
        "8"
    } else {
        "9"
    }
}

/// Appends `n` in decimal.
fn push_decimal(s: &mut String, n: usize)
    ensures
        final(s)@ == old(s)@ + decimal(n as nat),
    decreases n,
{
    let ghost s0 = s@;
    if n >= 10 {
        push_decimal(s, n / 10);
    }
    s.append(digit_str(n % 10));
    proof {
        if n >= 10 {
            assert(s@ =~= s0 + decimal(n as nat));
        } else {
            assert(s@ =~= s0 + decimal(n as nat));
        }
    }
}

impl Graph {
    /// The graph in the DOT language.
    pub open spec fn dot_text(&self) -> Seq<char> {
        "graph G {\n"@ + vertex_lines(self.vertex_count()) + edge_lines(
            self.adj_view(),
            self.vertex_count(),
        ) + "}\n"@
    }

    /// The graph in the DOT language: a line per vertex, then a line per
    /// adjacency-list entry (so each edge shows once from each end).
    pub fn to_dot(&self) -> (r: String)
        requires
            self.wf(),
        ensures
            r@ == self.dot_text(),
    {
        let mut dot = String::new();
        dot.append("graph G {\n");
        let mut i: usize = 0;
        while i < self.v
            invariant
                i <= self.v,
                dot@ == "graph G {\n"@ + vertex_lines(i as nat),
            decreases self.v - i,
        {
            dot.append("  ");
            push_decimal(&mut dot, i);
            dot.append(";\n");
            proof {
                assert(dot@ =~= "graph G {\n"@ + vertex_lines((i + 1) as nat));
            }
            i = i + 1;
        }
        let ghost head = dot@;
        let mut v: usize = 0;
        while v < self.v
            invariant
                self.wf(),
                v <= self.v,
                dot@ == head + edge_lines(self.adj_view(), v as nat),
            decreases self.v - v,
        {
            let list = &self.adj[v];
            let ghost before = dot@;
            let mut j: usize = 0;
            while j < list.len()
                invariant
                    j <= list@.len(),
                    list@ == self.adj_view()[v as int],
                    dot@ == before + list_lines(v as nat, list@.subrange(0, j as int)),
                decreases list@.len() - j,
            {
                dot.append("  ");
                push_decimal(&mut dot, v);
                dot.append(" -- ");
                push_decimal(&mut dot, list[j]);
                dot.append(";\n");
                proof {
                    let ws = list@.subrange(0, j + 1);
                    assert(ws.drop_last() =~= list@.subrange(0, j as int));
                    assert(dot@ =~= before + list_lines(v as nat, ws));
                }
                j = j + 1;
            }
            proof {
                assert(list@.subrange(0, j as int) =~= list@);
                assert(dot@ =~= head + edge_lines(self.adj_view(), (v + 1) as nat));
            }
            v = v + 1;
        }
        dot.append("}\n");
        dot
    }
}

} // verus!
